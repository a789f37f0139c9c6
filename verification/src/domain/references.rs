//! What the bounded following of references means: with as many
//! references allowed as there are schemas (or request bodies), a result is
//! the one that following them without bound gives, and no result means that
//! they never end.

use vstd::prelude::*;
use vstd::set_lib::{lemma_int_range, lemma_len_subset, set_int_range};
use crate::json::JsonView;
use crate::domain::openapi::{
    extract_schema_spec, lookup, ref_target, resolve_body, resolve_schema, ComponentsModel, RefOr, RequestBodyModel,
    SchemaModel,
};

verus! {

/// The item that `r` points to, when it is a reference
/// `#/components/<kind>/<name>` to an item named in `list`.
pub open spec fn ref_step<T>(list: Seq<(String, RefOr<T>)>, kind: Seq<char>, r: RefOr<T>) -> Option<RefOr<T>> {
    match r {
        RefOr::Reference(t) => match ref_target(t@, kind) {
            Some(name) => lookup(list, name),
            None => None,
        },
        RefOr::Item(_) => None,
    }
}

/// What following `i` references from `r` reaches; `None` once the chain has
/// come to an item given in place or to a reference that leads nowhere.
pub open spec fn follow<T>(list: Seq<(String, RefOr<T>)>, kind: Seq<char>, r: RefOr<T>, i: nat) -> Option<RefOr<T>>
    decreases i,
{
    if i == 0 {
        Some(r)
    } else {
        match follow(list, kind, r, (i - 1) as nat) {
            Some(x) => ref_step(list, kind, x),
            None => None,
        }
    }
}

/// Following `i + 1` references is following one, then `i`.
proof fn lemma_follow_first<T>(l: Seq<(String, RefOr<T>)>, kd: Seq<char>, r: RefOr<T>, i: nat)
    ensures
        follow(l, kd, r, i + 1) == match ref_step(l, kd, r) {
            Some(r2) => follow(l, kd, r2, i),
            None => None,
        },
    decreases i,
{
    assert(follow(l, kd, r, i + 1) == match follow(l, kd, r, i) {
        Some(x) => ref_step(l, kd, x),
        None => None,
    });
    if i > 0 {
        lemma_follow_first(l, kd, r, (i - 1) as nat);
        assert((i - 1) as nat + 1 == i);
        if let Some(r2) = ref_step(l, kd, r) {
            assert(follow(l, kd, r2, i) == match follow(l, kd, r2, (i - 1) as nat) {
                Some(x) => ref_step(l, kd, x),
                None => None,
            });
        }
    }
}

/// Following `a + b` references is following `a`, then `b`.
proof fn lemma_follow_compose<T>(l: Seq<(String, RefOr<T>)>, kd: Seq<char>, r: RefOr<T>, a: nat, b: nat)
    ensures
        follow(l, kd, r, a + b) == match follow(l, kd, r, a) {
            Some(x) => follow(l, kd, x, b),
            None => None,
        },
    decreases b,
{
    if b > 0 {
        lemma_follow_compose(l, kd, r, a, (b - 1) as nat);
        assert((a + b - 1) as nat == a + (b - 1) as nat);
    }
}

/// A chain that goes on for `j` steps goes on for fewer.
proof fn lemma_follow_prefix<T>(l: Seq<(String, RefOr<T>)>, kd: Seq<char>, r: RefOr<T>, i: nat, j: nat)
    requires
        i <= j,
        follow(l, kd, r, j) is Some,
    ensures
        follow(l, kd, r, i) is Some,
    decreases j,
{
    if i < j {
        lemma_follow_prefix(l, kd, r, i, (j - 1) as nat);
    }
}

/// The resolution runs out of references exactly when the chain goes on for
/// one step more than it may follow.
proof fn lemma_resolve_none_iff(c: ComponentsModel, r: RefOr<SchemaModel>, f: nat)
    ensures
        resolve_schema(c, r, f) is None <==> follow(c.schemas@, "schemas"@, r, f + 1) is Some,
    decreases f,
{
    lemma_follow_first(c.schemas@, "schemas"@, r, f);
    if let Some(r2) = ref_step(c.schemas@, "schemas"@, r) {
        if f > 0 {
            lemma_resolve_none_iff(c, r2, (f - 1) as nat);
            assert((f - 1) as nat + 1 == f);
        }
    }
}

/// An item found by `lookup` is one of the items of the list.
proof fn lemma_lookup_member<T>(s: Seq<(String, T)>, k: Seq<char>)
    requires
        lookup(s, k) is Some,
    ensures
        exists|m: int| 0 <= m < s.len() && #[trigger] s[m].1 == lookup(s, k)->0,
    decreases s.len(),
{
    if s[0].0@ != k {
        lemma_lookup_member(s.drop_first(), k);
        let m = choose|m: int| 0 <= m < s.drop_first().len() && #[trigger] s.drop_first()[m].1 == lookup(s, k)->0;
        assert(s[m + 1].1 == lookup(s, k)->0);
    } else {
        assert(s[0].1 == lookup(s, k)->0);
    }
}

/// Among `n + 1` numbers below `n`, two are equal.
proof fn lemma_pigeonhole(ms: Seq<int>, n: int)
    requires
        0 <= n,
        ms.len() == n + 1,
        forall|k: int| 0 <= k < ms.len() ==> 0 <= #[trigger] ms[k] < n,
    ensures
        exists|a: int, b: int| 0 <= a < b < ms.len() && #[trigger] ms[a] == #[trigger] ms[b],
{
    if ms.no_duplicates() {
        ms.unique_seq_to_set();
        lemma_int_range(0, n);
        assert(ms.to_set().subset_of(set_int_range(0, n))) by {
            assert forall|x: int| #[trigger] ms.to_set().contains(x) implies set_int_range(0, n).contains(x) by {
                let k = choose|k: int| 0 <= k < ms.len() && ms[k] == x;
            }
        }
        lemma_len_subset(ms.to_set(), set_int_range(0, n));
        assert(false);
    } else {
        let (a, b) = choose|a: int, b: int| 0 <= a < ms.len() && 0 <= b < ms.len() && a != b && ms[a] == ms[b];
        if a < b {
            assert(ms[a] == ms[b]);
        } else {
            assert(ms[b] == ms[a]);
        }
    }
}

/// A chain that comes back to where it was goes on forever.
proof fn lemma_follow_cycle<T>(l: Seq<(String, RefOr<T>)>, kd: Seq<char>, x: RefOr<T>, p: nat, q: nat)
    requires
        p > 0,
        follow(l, kd, x, p) == Some(x),
    ensures
        follow(l, kd, x, q) is Some,
    decreases q,
{
    if q <= p {
        lemma_follow_prefix(l, kd, x, q, p);
    } else {
        lemma_follow_cycle(l, kd, x, p, (q - p) as nat);
        lemma_follow_compose(l, kd, x, p, (q - p) as nat);
        assert(p + (q - p) as nat == q);
    }
}

/// A chain that goes on for one step more than there are schemas goes on
/// forever: some schema comes back.
proof fn lemma_long_chain_endless<T>(l: Seq<(String, RefOr<T>)>, kd: Seq<char>, r: RefOr<T>, i: nat)
    requires
        follow(l, kd, r, l.len() + 1) is Some,
    ensures
        follow(l, kd, r, i) is Some,
{
    let n = l.len();
    let ms = Seq::new((n + 1) as nat, |k: int| choose|m: int| 0 <= m < n && l[m].1 == follow(l, kd, r, (k + 1) as nat)->0);
    assert forall|k: int| 0 <= k < ms.len() implies 0 <= #[trigger] ms[k] < n && l[ms[k]].1 == follow(l, kd, r, (k + 1) as nat)->0 by {
        let kk = (k + 1) as nat;
        lemma_follow_prefix(l, kd, r, kk, n + 1);
        lemma_follow_prefix(l, kd, r, k as nat, n + 1);
        assert((kk - 1) as nat == k as nat);
        let prev = follow(l, kd, r, k as nat)->0;
        match prev {
            RefOr::Reference(t) => {
                let name = ref_target(t@, kd)->0;
                lemma_lookup_member(l, name);
            },
            RefOr::Item(_) => {},
        }
        assert(exists|m: int| 0 <= m < n && l[m].1 == follow(l, kd, r, kk)->0);
    }
    lemma_pigeonhole(ms, n as int);
    let (a, b) = choose|a: int, b: int| 0 <= a < b < ms.len() && #[trigger] ms[a] == #[trigger] ms[b];
    let s = (a + 1) as nat;
    let p = (b - a) as nat;
    lemma_follow_prefix(l, kd, r, s, n + 1);
    lemma_follow_prefix(l, kd, r, s + p, n + 1);
    let x = follow(l, kd, r, s)->0;
    assert(follow(l, kd, r, s + p)->0 == x) by {
        assert(s + p == (b + 1) as nat);
    }
    lemma_follow_compose(l, kd, r, s, p);
    assert(follow(l, kd, x, p) == Some(x));
    if i <= s {
        lemma_follow_prefix(l, kd, r, i, s);
    } else {
        lemma_follow_cycle(l, kd, x, p, (i - s) as nat);
        lemma_follow_compose(l, kd, r, s, (i - s) as nat);
        assert(s + (i - s) as nat == i);
    }
}

/// A schema whose references cannot be followed to the end with as many
/// steps as there are schemas cannot be resolved with any number of steps:
/// its references never end.
pub proof fn law_unresolved_schema_references_never_end(c: ComponentsModel, r: RefOr<SchemaModel>, f: nat)
    requires
        resolve_schema(c, r, c.schemas@.len()) is None,
    ensures
        resolve_schema(c, r, f) is None,
{
    lemma_resolve_none_iff(c, r, c.schemas@.len());
    lemma_long_chain_endless(c.schemas@, "schemas"@, r, f + 1);
    lemma_resolve_none_iff(c, r, f);
}

/// A resolution that succeeds with `f` steps gives the same result with any
/// more steps.
pub proof fn law_resolved_schema_is_final(c: ComponentsModel, r: RefOr<SchemaModel>, f: nat, g: nat)
    requires
        resolve_schema(c, r, f) is Some,
        f <= g,
    ensures
        resolve_schema(c, r, g) == resolve_schema(c, r, f),
    decreases f,
{
    if let Some(r2) = ref_step(c.schemas@, "schemas"@, r) {
        if f > 0 {
            law_resolved_schema_is_final(c, r2, (f - 1) as nat, (g - 1) as nat);
        }
    }
}

/// A chain that stops within `m` steps stops at some item that points
/// nowhere.
proof fn lemma_chain_end<T>(l: Seq<(String, RefOr<T>)>, kd: Seq<char>, r: RefOr<T>, m: nat)
    requires
        follow(l, kd, r, m) is None,
    ensures
        exists|j: nat| j < m && (#[trigger] follow(l, kd, r, j)) is Some && ref_step(l, kd, follow(l, kd, r, j)->0) is None,
    decreases m,
{
    let prev = (m - 1) as nat;
    if follow(l, kd, r, prev) is Some {
        assert(follow(l, kd, r, prev) is Some && ref_step(l, kd, follow(l, kd, r, prev)->0) is None);
    } else {
        lemma_chain_end(l, kd, r, prev);
        let j = choose|j: nat| j < prev && (#[trigger] follow(l, kd, r, j)) is Some && ref_step(l, kd, follow(l, kd, r, j)->0) is None;
        assert(j < m);
    }
}

/// The body given by a request body that points to no other one.
pub open spec fn body_base(c: ComponentsModel, r: RefOr<RequestBodyModel>) -> Option<Option<JsonView>> {
    match r {
        RefOr::Item(b) => match lookup(b.content@, "application/json"@) {
            Some(schema_opt) => extract_schema_spec(c, schema_opt),
            None => Some(None),
        },
        RefOr::Reference(_) => Some(None),
    }
}

/// A chain of request bodies longer than the steps allowed gives no result.
proof fn lemma_body_long_chain_none(c: ComponentsModel, r: RefOr<RequestBodyModel>, f: nat)
    requires
        follow(c.request_bodies@, "requestBodies"@, r, f + 1) is Some,
    ensures
        resolve_body(c, r, f) is None,
    decreases f,
{
    lemma_follow_first(c.request_bodies@, "requestBodies"@, r, f);
    if let Some(r2) = ref_step(c.request_bodies@, "requestBodies"@, r) {
        if f > 0 {
            assert((f - 1) as nat + 1 == f);
            lemma_body_long_chain_none(c, r2, (f - 1) as nat);
        }
    }
}

/// A chain of request bodies that ends within the steps allowed gives the
/// body of the request body it ends at.
proof fn lemma_body_chain_end(c: ComponentsModel, r: RefOr<RequestBodyModel>, j: nat, f: nat)
    requires
        follow(c.request_bodies@, "requestBodies"@, r, j) is Some,
        ref_step(c.request_bodies@, "requestBodies"@, follow(c.request_bodies@, "requestBodies"@, r, j)->0) is None,
        j <= f,
    ensures
        resolve_body(c, r, f) == body_base(c, follow(c.request_bodies@, "requestBodies"@, r, j)->0),
    decreases j,
{
    if j > 0 {
        let jj = (j - 1) as nat;
        lemma_follow_first(c.request_bodies@, "requestBodies"@, r, jj);
        assert(jj + 1 == j);
        let r2 = ref_step(c.request_bodies@, "requestBodies"@, r)->0;
        lemma_body_chain_end(c, r2, jj, (f - 1) as nat);
    }
}

/// A request body whose references cannot be followed to the end with as
/// many steps as there are request bodies cannot be resolved with any number
/// of steps: its references, or those of its schema, never end.
pub proof fn law_unresolved_body_references_never_end(c: ComponentsModel, r: RefOr<RequestBodyModel>, f: nat)
    requires
        resolve_body(c, r, c.request_bodies@.len()) is None,
    ensures
        resolve_body(c, r, f) is None,
{
    let l = c.request_bodies@;
    let kd = "requestBodies"@;
    let n = l.len();
    if follow(l, kd, r, n + 1) is Some {
        lemma_long_chain_endless(l, kd, r, f + 1);
        lemma_body_long_chain_none(c, r, f);
    } else {
        lemma_chain_end(l, kd, r, n + 1);
        let j = choose|j: nat| j < n + 1 && (#[trigger] follow(l, kd, r, j)) is Some && ref_step(l, kd, follow(l, kd, r, j)->0) is None;
        lemma_body_chain_end(c, r, j, n);
        if j <= f {
            lemma_body_chain_end(c, r, j, f);
        } else {
            lemma_follow_prefix(l, kd, r, f + 1, j);
            lemma_body_long_chain_none(c, r, f);
        }
    }
}

/// A request body resolved with `f` steps gives the same result with any
/// more steps.
pub proof fn law_resolved_body_is_final(c: ComponentsModel, r: RefOr<RequestBodyModel>, f: nat, g: nat)
    requires
        resolve_body(c, r, f) is Some,
        f <= g,
    ensures
        resolve_body(c, r, g) == resolve_body(c, r, f),
    decreases f,
{
    if let Some(r2) = ref_step(c.request_bodies@, "requestBodies"@, r) {
        if f > 0 {
            law_resolved_body_is_final(c, r2, (f - 1) as nat, (g - 1) as nat);
        }
    }
}

} // verus!

//! An engine as a mapping: what its operations do to the mapping from keys to
//! values, and what follows for a client that looks a key up later.

use crate::command::RequestView;
use vstd::prelude::*;

verus! {

/// The mapping after a successful operation.
pub open spec fn step(m: Map<Seq<char>, Seq<char>>, op: RequestView) -> Map<
    Seq<char>,
    Seq<char>,
> {
    match op {
        RequestView::Get(_) => m,
        RequestView::Put(k, v) => m.insert(k, v),
        RequestView::Rm(k) => m.remove(k),
    }
}

/// The mapping after a sequence of successful operations.
pub open spec fn run(m: Map<Seq<char>, Seq<char>>, ops: Seq<RequestView>) -> Map<
    Seq<char>,
    Seq<char>,
>
    decreases ops.len(),
{
    if ops.len() == 0 {
        m
    } else {
        step(run(m, ops.drop_last()), ops.last())
    }
}

/// What a lookup of `k` returns.
pub open spec fn lookup(m: Map<Seq<char>, Seq<char>>, k: Seq<char>) -> Option<Seq<char>> {
    if m.contains_key(k) {
        Some(m[k])
    } else {
        None
    }
}

/// The operation sets `k`.
pub open spec fn sets(op: RequestView, k: Seq<char>) -> bool {
    op matches RequestView::Put(key, _) && key == k
}

/// The operation removes `k`.
pub open spec fn removes(op: RequestView, k: Seq<char>) -> bool {
    op matches RequestView::Rm(key) && key == k
}

/// After `k` was set to `v`, a lookup of `k` returns `v` as long as no operation
/// sets or removes `k`.
pub proof fn lemma_get_after_set(
    m: Map<Seq<char>, Seq<char>>,
    k: Seq<char>,
    v: Seq<char>,
    ops: Seq<RequestView>,
)
    requires
        forall|i: int| 0 <= i < ops.len() ==> !sets(#[trigger] ops[i], k) && !removes(ops[i], k),
    ensures
        lookup(run(m.insert(k, v), ops), k) == Some(v),
    decreases ops.len(),
{
    if ops.len() > 0 {
        lemma_get_after_set(m, k, v, ops.drop_last());
        assert(!sets(ops[ops.len() - 1], k) && !removes(ops[ops.len() - 1], k));
    }
}

/// After `k` was removed, a lookup of `k` returns nothing as long as no operation
/// sets `k`.
pub proof fn lemma_get_after_remove(
    m: Map<Seq<char>, Seq<char>>,
    k: Seq<char>,
    ops: Seq<RequestView>,
)
    requires
        forall|i: int| 0 <= i < ops.len() ==> !sets(#[trigger] ops[i], k),
    ensures
        lookup(run(m.remove(k), ops), k) is None,
    decreases ops.len(),
{
    if ops.len() > 0 {
        lemma_get_after_remove(m, k, ops.drop_last());
        assert(!sets(ops[ops.len() - 1], k));
    }
}

/// Removing a key that is not live changes no lookup.
pub proof fn lemma_remove_absent(m: Map<Seq<char>, Seq<char>>, k: Seq<char>, other: Seq<char>)
    requires
        !m.contains_key(k),
    ensures
        m.remove(k) == m,
        lookup(m.remove(k), other) == lookup(m, other),
{
    assert(m.remove(k) =~= m);
}

/// The key that an operation is about.
pub open spec fn key_of(op: RequestView) -> Seq<char> {
    match op {
        RequestView::Get(k) => k,
        RequestView::Put(k, _) => k,
        RequestView::Rm(k) => k,
    }
}

/// What the last of the operations that set or remove `k` leaves of it: `Some(Some(v))`
/// if it sets `k` to `v`, `Some(None)` if it removes `k`, `None` if no operation
/// sets or removes `k`.
pub open spec fn last_write(ops: Seq<RequestView>, k: Seq<char>) -> Option<Option<Seq<char>>>
    decreases ops.len(),
{
    if ops.len() == 0 {
        None
    } else {
        match ops.last() {
            RequestView::Put(key, v) => if key == k {
                Some(Some(v))
            } else {
                last_write(ops.drop_last(), k)
            },
            RequestView::Rm(key) => if key == k {
                Some(None)
            } else {
                last_write(ops.drop_last(), k)
            },
            RequestView::Get(_) => last_write(ops.drop_last(), k),
        }
    }
}

/// Operations on other keys change no lookup of `k`: what one client does to its
/// keys does not show in what another finds under its own.
pub proof fn lemma_other_keys_do_not_show(
    m: Map<Seq<char>, Seq<char>>,
    k: Seq<char>,
    ops: Seq<RequestView>,
)
    requires
        forall|i: int| 0 <= i < ops.len() ==> key_of(#[trigger] ops[i]) != k,
    ensures
        lookup(run(m, ops), k) == lookup(m, k),
    decreases ops.len(),
{
    if ops.len() > 0 {
        lemma_other_keys_do_not_show(m, k, ops.drop_last());
        assert(key_of(ops[ops.len() - 1]) != k);
    }
}

/// After operations carried out one after the other, in whatever order they came
/// from their clients, a lookup of `k` returns what the last of them that set or
/// removed `k` left, and what it returned before if none did.
pub proof fn lemma_last_write_wins(
    m: Map<Seq<char>, Seq<char>>,
    k: Seq<char>,
    ops: Seq<RequestView>,
)
    ensures
        lookup(run(m, ops), k) == match last_write(ops, k) {
            Some(left) => left,
            None => lookup(m, k),
        },
    decreases ops.len(),
{
    if ops.len() > 0 {
        lemma_last_write_wins(m, k, ops.drop_last());
    }
}

} // verus!

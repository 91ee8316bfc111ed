//! Client identity.
//!
//! A [`ClientId`] is an opaque unsigned handle for one connection.  A server
//! assigns ids from a monotonically increasing counter that wraps on overflow
//! (an accepted edge case, not defended against); an id is never reused while
//! the connection it names is still registered.

use vstd::prelude::*;

verus! {

/// Opaque handle identifying one connection for its lifetime.
#[derive(Clone, Copy, PartialEq, Eq, Hash, Debug, Structural)]
pub struct ClientId(pub usize);

impl From<ClientId> for usize {
    fn from(val: ClientId) -> (r: usize)
        ensures
            r == val.0,
    {
        val.0
    }
}

impl vstd::std_specs::convert::FromSpecImpl<ClientId> for usize {
    open spec fn obeys_from_spec() -> bool {
        true
    }

    open spec fn from_spec(val: ClientId) -> usize {
        val.0
    }
}

/// The id that a counter standing at `cur` hands out `k` steps later:
/// the counter increments by one per accepted connection and wraps on
/// overflow.
pub open spec fn id_after(cur: usize, k: int) -> usize {
    ((cur + k) % (usize::MAX as int + 1)) as usize
}

/// While the counter does not wrap, successive ids are just successors.
pub proof fn lemma_id_after_no_wrap(cur: usize, k: int)
    requires
        0 <= k,
        cur + k <= usize::MAX,
    ensures
        id_after(cur, k) == cur + k,
{
    vstd::arithmetic::div_mod::lemma_small_mod((cur + k) as nat, (usize::MAX as nat) + 1);
}

/// While the counter does not wrap, every accepted connection's id is its
/// own: two different steps give two different ids.
pub proof fn lemma_fresh_ids_distinct(cur: usize, j: int, k: int)
    requires
        0 <= j < k,
        cur + k <= usize::MAX,
    ensures
        id_after(cur, j) != id_after(cur, k),
{
    lemma_id_after_no_wrap(cur, j);
    lemma_id_after_no_wrap(cur, k);
}

/// Stepping the counter once is an ordinary increment, except at the top,
/// where it wraps to zero.
pub proof fn lemma_id_after_one(cur: usize)
    ensures
        id_after(cur, 1) == if cur == usize::MAX {
            0usize
        } else {
            (cur + 1) as usize
        },
{
    let m = usize::MAX as int + 1;
    if cur == usize::MAX {
        vstd::arithmetic::div_mod::lemma_mod_self_0(m);
    } else {
        vstd::arithmetic::div_mod::lemma_small_mod((cur + 1) as nat, m as nat);
    }
}

/// Handing out ids step by step or all at once comes to the same: the
/// counter composes additively under wrapping.
pub proof fn lemma_id_after_add(cur: usize, j: int, k: int)
    requires
        0 <= j,
        0 <= k,
    ensures
        id_after(id_after(cur, j), k) == id_after(cur, j + k),
{
    let m = usize::MAX as int + 1;
    vstd::arithmetic::div_mod::lemma_add_mod_noop(cur + j, k, m);
    vstd::arithmetic::div_mod::lemma_add_mod_noop((cur + j) % m, k, m);
    vstd::arithmetic::div_mod::lemma_mod_twice(cur + j, m);
}

} // verus!

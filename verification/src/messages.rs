//! Score-table message values.
//!
//! The wire schemas are owned by the application; the core is
//! schema-agnostic.  These two value types travel inside score updates and
//! are plain data here: a named player with a score, and the batch of best
//! players a server broadcasts.  A client shows the batch ranked best
//! first.

use vstd::prelude::*;

verus! {

/// One player's standing: display name and score.  Names need not be
/// unique; several players may share a rank name.
#[derive(Clone, Debug, PartialEq)]
pub struct PlayerRank {
    pub name: String,
    pub score: usize,
}

/// The best players, as a server broadcasts them.
#[derive(Clone, Debug, PartialEq)]
pub struct UpdateScores {
    pub best_players: Vec<PlayerRank>,
}

/// Ranked best first: scores never increase along the list.
pub open spec fn sorted_desc(s: Seq<PlayerRank>) -> bool {
    forall|j: int, k: int| 0 <= j < k < s.len() ==> s[j].score >= s[k].score
}

/// Order `players` best first: the same players, scores descending.
pub fn rank_descending(players: Vec<PlayerRank>) -> (r: Vec<PlayerRank>)
    ensures
        sorted_desc(r@),
        r@.to_multiset() == players@.to_multiset(),
{
    broadcast use vstd::seq_lib::group_to_multiset_ensures;
    broadcast use vstd::multiset::group_multiset_axioms;

    let mut rest = players;
    let mut out: Vec<PlayerRank> = Vec::new();
    proof {
        assert(out@.to_multiset().add(rest@.to_multiset()) =~= rest@.to_multiset());
    }
    while rest.len() > 0
        invariant
            out@.to_multiset().add(rest@.to_multiset()) == players@.to_multiset(),
            sorted_desc(out@),
            forall|j: int, k: int|
                0 <= j < out@.len() && 0 <= k < rest@.len() ==> out@[j].score >= rest@[k].score,
        decreases rest@.len(),
    {
        let mut m: usize = 0;
        let mut k: usize = 1;
        while k < rest.len()
            invariant
                rest@.len() > 0,
                m < k <= rest@.len(),
                forall|j: int| 0 <= j < k ==> rest@[j].score <= rest@[m as int].score,
            decreases rest@.len() - k,
        {
            if rest[k].score > rest[m].score {
                m = k;
            }
            k = k + 1;
        }
        let ghost restv = rest@;
        let e = rest.remove(m);
        proof {
            broadcast use vstd::seq_lib::group_to_multiset_ensures;
            broadcast use vstd::multiset::group_multiset_axioms;

            restv.to_multiset_ensures();
            out@.to_multiset_ensures();
            restv.remove_ensures(m as int);
            assert(restv.contains(restv[m as int]));
            assert(rest@ == restv.remove(m as int));
            assert(e == restv[m as int]);
            assert(restv.remove(m as int).to_multiset() =~= restv.to_multiset().remove(
                restv[m as int],
            ));
            assert(restv.to_multiset().count(restv[m as int]) > 0);
            assert(out@.push(e).to_multiset() =~= out@.to_multiset().insert(e));
            assert(out@.push(e).to_multiset().add(rest@.to_multiset()) =~= players@.to_multiset());
            assert forall|j: int, k2: int|
                0 <= j < out@.push(e).len() && 0 <= k2 < rest@.len() implies out@.push(
                e,
            )[j].score >= rest@[k2].score by {
                if k2 < m as int {
                    assert(rest@[k2] == restv[k2]);
                } else {
                    assert(rest@[k2] == restv[k2 + 1]);
                }
            }
        }
        out.push(e);
    }
    out
}

} // verus!

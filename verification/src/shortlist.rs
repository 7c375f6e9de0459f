//! The players that may form the next match.

use crate::player::PlayerEntry;
use vstd::prelude::*;

verus! {

/// How many players a match takes.
pub const MATCH_SIZE: usize = 10;

/// A player that may be matched, and the shard that holds it.
#[derive(Clone, Copy, Debug, PartialEq, Eq, Structural)]
pub struct Candidate {
    pub entry: PlayerEntry,
    pub shard_idx: usize,
}

/// Whether no two players of a group share an id.
pub open spec fn distinct_ids(group: Set<PlayerEntry>) -> bool {
    forall|a: PlayerEntry, b: PlayerEntry| #[trigger]
        group.contains(a) && #[trigger] group.contains(b) && a.id == b.id ==> a == b
}

/// Whether `list` holds the players of `offered` that have waited longest, at
/// most one match of them, the longest wait first.
pub open spec fn shortlists(list: Seq<Candidate>, offered: Set<PlayerEntry>) -> bool {
    &&& forall|i: int, j: int| 0 <= i < j < list.len() ==> #[trigger] list[i].entry.older(
        #[trigger] list[j].entry,
    )
    &&& forall|i: int| 0 <= i < list.len() ==> offered.contains(#[trigger] list[i].entry)
    &&& list.len() == if offered.len() < MATCH_SIZE {
        offered.len()
    } else {
        MATCH_SIZE as nat
    }
    &&& forall|e: PlayerEntry| #[trigger]
        offered.contains(e) ==> listed(list, e) || (list.len() == MATCH_SIZE && list.last().entry.older(
            e,
        ))
}

/// Whether a player stands on a list.
pub open spec fn listed(list: Seq<Candidate>, entry: PlayerEntry) -> bool {
    exists|i: int| 0 <= i < list.len() && #[trigger] list[i].entry == entry
}

/// Offers one more player to the list.
pub(crate) fn offer(list: &mut Vec<Candidate>, candidate: Candidate, Ghost(offered): Ghost<Set<PlayerEntry>>)
    requires
        shortlists(old(list)@, offered),
        offered.finite(),
        !offered.contains(candidate.entry),
        distinct_ids(offered.insert(candidate.entry)),
    ensures
        shortlists(final(list)@, offered.insert(candidate.entry)),
        forall|i: int|
            0 <= i < final(list)@.len() ==> #[trigger] final(list)@[i] == candidate || old(
                list,
            )@.contains(final(list)@[i]),
{
    let mut at: usize = list.len();
    while at > 0 && candidate.entry.is_older(&list[at - 1].entry)
        invariant
            at <= list@.len(),
            list@ == old(list)@,
            forall|i: int| at <= i < list@.len() ==> candidate.entry.older(#[trigger] list@[i].entry),
        decreases at,
    {
        at = at - 1;
    }
    list.insert(at, candidate);
    let ghost grown = list@;
    if list.len() > MATCH_SIZE {
        let _ = list.pop();
    }
    proof {
        let before = old(list)@;
        let all = offered.insert(candidate.entry);
        let new = candidate.entry;
        assert forall|i: int| 0 <= i < at implies #[trigger] before[i].entry.older(new) by {
            assert(offered.contains(before[i].entry));
            assert(offered.contains(before[at - 1].entry));
            assert(all.contains(before[at - 1].entry) && all.contains(new));
            assert(before[at - 1].entry.older(new));
            if i < at - 1 {
                assert(before[i].entry.older(before[at - 1].entry));
            }
        }
        assert forall|i: int| 0 <= i < list@.len() implies #[trigger] list@[i] == candidate
            || before.contains(list@[i]) by {
            if i < at {
                assert(list@[i] == before[i]);
            } else if i > at {
                assert(list@[i] == before[i - 1]);
            }
        }
        assert forall|e: PlayerEntry| #[trigger] all.contains(e) implies listed(list@, e) || (
        list@.len() == MATCH_SIZE && list@.last().entry.older(e)) by {
            if e == new {
                if at < list@.len() {
                    assert(list@[at as int].entry == e);
                } else {
                    assert(before[at - 1].entry.older(new));
                    assert(list@.last() == before[at - 1]);
                }
            } else {
                assert(offered.contains(e));
                if listed(before, e) {
                    let i = choose|i: int| 0 <= i < before.len() && #[trigger] before[i].entry == e;
                    let j = if i < at { i } else { i + 1 };
                    assert(grown[j] == before[i]);
                    if j < list@.len() {
                        assert(list@[j].entry == e);
                    } else {
                        assert(list@.last() == grown[j - 1]);
                        if i - 1 >= at {
                            assert(grown[j - 1] == before[i - 1]);
                            assert(before[i - 1].entry.older(before[i].entry));
                        }
                    }
                } else {
                    assert(before.last().entry.older(e));
                    if at == before.len() {
                        assert(list@.last() == before.last());
                    } else {
                        assert(list@.last() == grown[before.len() - 1]);
                        if at < before.len() - 1 {
                            assert(list@.last() == before[before.len() - 2]);
                            assert(before[before.len() - 2].entry.older(before.last().entry));
                        }
                    }
                }
            }
        }
        assert forall|i: int, j: int| 0 <= i < j < list@.len() implies #[trigger] list@[i].entry.older(
            #[trigger] list@[j].entry,
        ) by {
            let bi = if i < at { i } else { i - 1 };
            let bj = if j < at { j } else { j - 1 };
            if i != at {
                assert(list@[i] == before[bi]);
            }
            if j != at {
                assert(list@[j] == before[bj]);
            }
        }
    }
}

} // verus!

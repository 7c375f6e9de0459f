//! The queue of players and the search for matches in it.

use crate::clock::as_seconds;
use crate::config::Config;
use crate::lists::{
    law_leaving_a_list_undoes_joining_it, lemma_without_id, lemma_without_stranger,
    lemma_without_strangers, without_ids,
};
use crate::metrics::{Metrics, MetricsSnapshot};
use crate::model::{described, MatchmakerView, QueuedPlayer};
use crate::oldest::OldestHeap;
use crate::player::{is_median, PlayerEntry};
use crate::rating::{clamp_rating, kept, rating_to_bracket, OrdF64};
use crate::regions::RegionTable;
use crate::shard::{bucket_key, bucket_of, shard_index, shard_of, BucketKey, Shard, N_SHARDS};
use crate::shortlist::MATCH_SIZE;
use std::collections::{HashMap, HashSet};
use vstd::prelude::*;
use vstd::set_lib::{lemma_len_subset, lemma_map_size, lemma_set_disjoint_lens};

pub mod eviction;
pub mod formation;
pub mod search;

verus! {

/// A request to join the queue.
pub struct QueueRequest {
    pub id: u64,
    pub skill_rating: OrdF64,
    pub ping_region: String,
}

/// Why a player could not join the queue.
#[derive(Clone, Copy, Debug, PartialEq, Eq, Structural)]
pub enum EnqueueError {
    DuplicateId,
    InvalidRating,
}

/// Where a queued player is kept.
#[derive(Clone, Copy, Debug, PartialEq, Eq, Structural)]
pub struct PlayerLocator {
    pub entry: PlayerEntry,
    pub shard_idx: usize,
}

/// Where a search for a match starts.
#[derive(Debug)]
pub struct Pivot {
    pub region: String,
    pub median_rating: OrdF64,
    pub oldest_wait_secs: OrdF64,
}

impl Pivot {
    /// The rating is such as the queue keeps, and the wait is finite.
    pub open spec fn wf(self) -> bool {
        &&& kept(self.median_rating)
        &&& self.oldest_wait_secs.finite() && !self.oldest_wait_secs.negative()
    }
}

/// The matchmaker.
///
/// The heap gives up players late: one that has left the queue stays in it,
/// marked as evicted, until it comes to the top.
pub struct Matchmaker {
    shards: Vec<Shard>,
    index: HashMap<u64, PlayerLocator>,
    regions: RegionTable,
    oldest_heap: OldestHeap,
    evicted: HashSet<u64>,
    metrics: Metrics,
    config: Config,
}

impl View for Matchmaker {
    type V = MatchmakerView;

    closed spec fn view(&self) -> MatchmakerView {
        MatchmakerView {
            queue: self.index@.map_values(
                |locator: PlayerLocator| described(locator.entry, self.regions@),
            ),
            regions: self.regions@,
            metrics: self.metrics@,
            config: self.config,
        }
    }
}

impl Matchmaker {
    /// Whether a player is queued under this very entry.
    spec fn live(self, entry: PlayerEntry) -> bool {
        self.index@.contains_key(entry.id) && self.index@[entry.id].entry == entry
    }

    spec fn parts_wf(self) -> bool {
        &&& self.shards@.len() == N_SHARDS
        &&& forall|s: int| 0 <= s < N_SHARDS ==> (#[trigger] self.shards@[s]).wf()
        &&& self.regions.wf()
        &&& self.oldest_heap.wf()
        &&& self.metrics.wf()
        &&& self.metrics@.waits.sound()
        &&& self.config.wf()
    }

    /// The depth counts the queued players, and whoever was matched had been
    /// queued before.
    spec fn counts_wf(self) -> bool {
        &&& self.metrics.queue_depth == self.index@.len()
        &&& self.metrics.queue_depth + MATCH_SIZE * self.metrics.total_matches_formed
            <= self.metrics.total_players_queued
    }

    /// Every locator tells where its player belongs.
    spec fn index_wf(self) -> bool {
        forall|id: u64| #[trigger]
            self.index@.contains_key(id) ==> {
                let locator = self.index@[id];
                &&& locator.entry.id == id
                &&& locator.entry.region < self.regions@.len()
                &&& locator.entry.ticket < self.metrics.total_players_queued
                &&& locator.entry.skill_rating == locator.entry.skill_rating.clamped()
                &&& locator.entry.skill_rating.finite()
                &&& locator.shard_idx == shard_of(
                    bucket_of(locator.entry).bracket,
                    self.regions@[locator.entry.region as int],
                )
            }
    }

    /// Every queued player is in the one shard that its locator names, and
    /// nobody else is in any shard.
    spec fn pool_wf(self) -> bool {
        forall|s: int, entry: PlayerEntry|
            0 <= s < N_SHARDS ==> (#[trigger] self.shards@[s]@.contains(entry) <==> self.live(entry)
                && self.index@[entry.id].shard_idx == s)
    }

    /// The heap holds every queued player, and of those who have left only
    /// such as are marked.
    spec fn heap_wf(self) -> bool {
        &&& forall|id: u64| #[trigger]
            self.index@.contains_key(id) ==> self.oldest_heap@.contains(self.index@[id].entry)
                && !self.evicted@.contains(self.index@[id].entry.ticket)
        &&& forall|entry: PlayerEntry| #[trigger]
            self.oldest_heap@.contains(entry) ==> entry.ticket < self.metrics.total_players_queued
                && (self.live(entry) || self.evicted@.contains(entry.ticket))
        &&& forall|a: PlayerEntry, b: PlayerEntry| #[trigger]
            self.oldest_heap@.contains(a) && #[trigger] self.oldest_heap@.contains(b) && a.ticket
                == b.ticket ==> a == b
        &&& forall|ticket: u64| #[trigger]
            self.evicted@.contains(ticket) ==> exists|entry: PlayerEntry| #[trigger]
                self.oldest_heap@.contains(entry) && entry.ticket == ticket
    }

    /// The parts of the matchmaker agree.
    pub closed spec fn wf(self) -> bool {
        &&& self.parts_wf()
        &&& self.counts_wf()
        &&& self.index_wf()
        &&& self.pool_wf()
        &&& self.heap_wf()
    }

    /// The state of a matchmaker is sound.
    pub proof fn law_state_is_sound(self)
        requires
            self.wf(),
        ensures
            self@.sound(),
    {
        assert(self.index@.len() == self.index.len());
        self.regions.lemma_distinct();
        assert(self@.queue.dom() =~= self.index@.dom());
        assert forall|id: u64| #[trigger] self@.queue.contains_key(id) implies kept(
            self@.queue[id].skill_rating,
        ) && self@.regions.contains(self@.queue[id].region) && self@.queue[id].ticket
            < self@.metrics.total_players_queued by {
            assert(self.index@.contains_key(id));
        }
    }

    /// The players that a shard holds of one bucket with one rating, in the
    /// order in which they came.
    pub closed spec fn list(self, s: int, key: BucketKey, rating: OrdF64) -> Seq<PlayerEntry> {
        self.shards@[s].list(key, rating)
    }

    /// Whether every list is as before.
    pub open spec fn same_lists(self, before: Matchmaker) -> bool {
        forall|s: int, key: BucketKey, rating: OrdF64|
            0 <= s < N_SHARDS ==> #[trigger] self.list(s, key, rating) == before.list(
                s,
                key,
                rating,
            )
    }

    /// Whether a player has been added behind the others of its list, and every
    /// other list is as before.
    pub open spec fn lists_with(self, before: Matchmaker, entry: PlayerEntry) -> bool {
        forall|s: int, key: BucketKey, rating: OrdF64|
            0 <= s < N_SHARDS ==> #[trigger] self.list(s, key, rating) == if s == shard_of(
                key.bracket,
                self@.regions[entry.region as int],
            ) && key == bucket_of(entry) && rating == entry.skill_rating {
                before.list(s, key, rating).push(entry)
            } else {
                before.list(s, key, rating)
            }
    }

    /// Whether players have left their lists, and all others stand as before.
    pub open spec fn lists_without(self, before: Matchmaker, ids: Seq<u64>) -> bool {
        forall|s: int, key: BucketKey, rating: OrdF64|
            0 <= s < N_SHARDS ==> #[trigger] self.list(s, key, rating) == without_ids(
                before.list(s, key, rating),
                ids,
            )
    }

    /// The lists hold the queued players, each in the shard of its bracket and
    /// region, in its bucket, under its rating, once, and nobody else.
    pub proof fn law_lists_hold_the_queue(
        self,
        s: int,
        key: BucketKey,
        rating: OrdF64,
        entry: PlayerEntry,
    )
        requires
            self.wf(),
            0 <= s < N_SHARDS,
        ensures
            self.list(s, key, rating).no_duplicates(),
            self.list(s, key, rating).contains(entry) <==> {
                &&& self@.queue.contains_key(entry.id)
                &&& entry.region < self@.regions.len()
                &&& self@.queue[entry.id] == described(entry, self@.regions)
                &&& key == bucket_of(entry)
                &&& rating == entry.skill_rating
                &&& s == shard_of(key.bracket, self@.regions[entry.region as int])
            },
    {
        self.shards@[s].law_lists_hold_the_players(key, rating);
        self.lemma_live(entry);
        assert(self.shards@[s]@.contains(entry) <==> self.live(entry)
            && self.index@[entry.id].shard_idx == s);
        if self.live(entry) {
            assert(self.index@.contains_key(entry.id));
        }
    }

    /// Who joins stands last among the players of the same bracket, region and
    /// rating, in one of the eight shards, and every other list is as before.
    pub proof fn law_newcomers_stand_last(
        self,
        before: Matchmaker,
        entry: PlayerEntry,
        s: int,
        key: BucketKey,
        rating: OrdF64,
    )
        requires
            self.lists_with(before, entry),
            0 <= s < 8,
        ensures
            ({
                let (now, earlier) = (self.list(s, key, rating), before.list(s, key, rating));
                let here = s == shard_of(key.bracket, self@.regions[entry.region as int])
                    && key.bracket == entry.skill_rating.bracket() && key.region == entry.region
                    && rating == entry.skill_rating;
                &&& here ==> now.len() == earlier.len() + 1 && now[now.len() - 1] == entry
                    && now.drop_last() == earlier
                &&& !here ==> now == earlier
            }),
    {
        let (now, earlier) = (self.list(s, key, rating), before.list(s, key, rating));
        if now == earlier.push(entry) {
            assert(now.drop_last() =~= earlier);
        }
    }

    /// A player is queued under an entry where the queue has what it says.
    proof fn lemma_live(self, entry: PlayerEntry)
        requires
            self.wf(),
        ensures
            self.live(entry) <==> self@.queue.contains_key(entry.id) && entry.region
                < self@.regions.len() && self@.queue[entry.id] == described(entry, self@.regions),
    {
        self.regions.lemma_distinct();
        if self.index@.contains_key(entry.id) {
            let mine = self.index@[entry.id].entry;
            assert(self@.queue[entry.id] == described(mine, self@.regions));
        }
    }

    /// The players that a shard holds.
    pub closed spec fn members(self, s: int) -> Set<PlayerEntry> {
        self.shards@[s]@
    }

    /// How many players the first shards hold together.
    pub open spec fn held_up_to(self, n: nat) -> nat
        decreases n,
    {
        if n == 0 {
            0
        } else {
            self.held_up_to((n - 1) as nat) + self.members(n - 1).len()
        }
    }

    /// A shard holds the players of its lists.
    pub proof fn law_shards_hold_their_lists(self, s: int, entry: PlayerEntry)
        requires
            self.wf(),
            0 <= s < N_SHARDS,
        ensures
            self.members(s).finite(),
            self.members(s).contains(entry) <==> self.list(
                s,
                bucket_of(entry),
                entry.skill_rating,
            ).contains(entry),
    {
        self.shards@[s].lemma_finite();
        self.shards@[s].law_lists_hold_the_players(bucket_of(entry), entry.skill_rating);
    }

    /// All shards together hold as many players as are queued.
    pub proof fn law_shards_hold_the_queue(self)
        requires
            self.wf(),
        ensures
            self.held_up_to(N_SHARDS as nat) == self@.queue.len(),
            self.held_up_to(N_SHARDS as nat) == self@.metrics.queue_depth,
    {
        self.law_state_is_sound();
        let all = self.in_first_shards(N_SHARDS as int);
        self.lemma_held(N_SHARDS as nat);
        assert forall|id: u64| #[trigger] self@.queue.dom().contains(id) implies
            self.index@.contains_key(id) && self.index@[id].entry.id == id && all.contains(
            self.index@[id].entry,
        ) by {
            assert(self.index@.contains_key(id));
            let entry = self.index@[id].entry;
            assert(self.live(entry));
            assert(self.shards@[self.index@[id].shard_idx as int]@.contains(entry));
        }
        self.lemma_ids(all, self@.queue.dom());
    }

    /// The queued players whose shards are among the first ones.
    spec fn in_first_shards(self, n: int) -> Set<PlayerEntry> {
        Set::new(|e: PlayerEntry| self.live(e) && self.index@[e.id].shard_idx < n)
    }

    proof fn lemma_held(self, n: nat)
        requires
            self.wf(),
            n <= N_SHARDS,
        ensures
            self.in_first_shards(n as int).finite(),
            self.in_first_shards(n as int).len() == self.held_up_to(n),
        decreases n,
    {
        if n == 0 {
            assert(self.in_first_shards(0) =~= Set::empty());
        } else {
            let s = n - 1;
            self.lemma_held((n - 1) as nat);
            self.shards@[s].lemma_finite();
            let (before, here) = (self.in_first_shards(s), self.members(s));
            assert forall|e: PlayerEntry| #[trigger] here.contains(e) <==> self.live(e)
                && self.index@[e.id].shard_idx == s by {
                assert(self.shards@[s]@.contains(e) <==> self.live(e)
                    && self.index@[e.id].shard_idx == s);
            }
            assert(self.in_first_shards(n as int) =~= before.union(here));
            assert(before.disjoint(here));
            lemma_set_disjoint_lens(before, here);
        }
    }

    /// To leave undoes to join in every list, too.
    pub proof fn law_leaving_undoes_joining_in_lists(
        self,
        joined: Matchmaker,
        left: Matchmaker,
        entry: PlayerEntry,
    )
        requires
            self.wf(),
            !self@.queue.contains_key(entry.id),
            joined.lists_with(self, entry),
            left.lists_without(joined, seq![entry.id]),
        ensures
            left.same_lists(self),
    {
        assert forall|s: int, key: BucketKey, rating: OrdF64| 0 <= s < N_SHARDS implies
            #[trigger] left.list(s, key, rating) == self.list(s, key, rating) by {
            let list = self.list(s, key, rating);
            let ids = seq![entry.id];
            assert forall|e: PlayerEntry| list.contains(e) implies e.id != entry.id by {
                self.law_lists_hold_the_queue(s, key, rating, e);
            }
            assert(left.list(s, key, rating) == without_ids(joined.list(s, key, rating), ids));
            law_leaving_a_list_undoes_joining_it(list, entry);
            lemma_without_strangers(list, ids);
        }
    }

    /// Whether a player is kept in a shard of the pool.
    pub closed spec fn is_in_shard(self, id: u64, s: int) -> bool {
        exists|entry: PlayerEntry| #[trigger] self.shards@[s]@.contains(entry) && entry.id == id
    }

    /// Every queued player is kept in exactly one shard, that of its bracket
    /// and region, and nobody else is kept in any.
    pub proof fn law_players_are_kept_in_one_shard(self, id: u64, s: int)
        requires
            self.wf(),
            0 <= s < N_SHARDS,
        ensures
            self.is_in_shard(id, s) <==> self@.queue.contains_key(id) && s == shard_of(
                self@.queue[id].skill_rating.bracket(),
                self@.queue[id].region,
            ),
    {
        if self.index@.contains_key(id) {
            let entry = self.index@[id].entry;
            assert(self.live(entry));
            assert(self.shards@[s]@.contains(entry) <==> self.index@[id].shard_idx == s);
        }
        if self.is_in_shard(id, s) {
            let entry = choose|entry: PlayerEntry| #[trigger]
                self.shards@[s]@.contains(entry) && entry.id == id;
            assert(self.live(entry));
        }
    }

    /// A matchmaker with an empty queue.
    pub fn new(config: Config) -> (matchmaker: Self)
        requires
            config.wf(),
        ensures
            matchmaker.wf(),
            matchmaker@.queue == Map::<u64, QueuedPlayer>::empty(),
            matchmaker@.regions == Seq::<Seq<char>>::empty(),
            matchmaker@.metrics.total_matches_formed == 0,
            matchmaker@.metrics.total_players_queued == 0,
            matchmaker@.metrics.queue_depth == 0,
            matchmaker@.metrics.waits.recent == Seq::<u64>::empty(),
            matchmaker@.metrics.waits.sum == 0,
            matchmaker@.config == config,
    {
        let mut shards: Vec<Shard> = Vec::with_capacity(N_SHARDS);
        for i in 0..N_SHARDS
            invariant
                shards@.len() == i,
                forall|s: int|
                    0 <= s < i ==> (#[trigger] shards@[s]).wf() && shards@[s]@ == Set::<
                        PlayerEntry,
                    >::empty(),
        {
            shards.push(Shard::new());
        }
        let matchmaker = Matchmaker {
            shards,
            index: HashMap::new(),
            regions: RegionTable::new(),
            oldest_heap: OldestHeap::new(),
            evicted: HashSet::new(),
            metrics: Metrics::new(),
            config,
        };
        assert(matchmaker@.queue =~= Map::empty());
        matchmaker
    }

    /// Adds a player to the queue, and returns how many players are queued
    /// then.
    pub fn enqueue(&mut self, req: QueueRequest, now: u64) -> (result: Result<usize, EnqueueError>)
        requires
            old(self).wf(),
            old(self)@.metrics.total_players_queued < u64::MAX,
        ensures
            final(self).wf(),
            match result {
                Ok(position) => {
                    &&& req.skill_rating.finite()
                    &&& !old(self)@.queue.contains_key(req.id)
                    &&& final(self)@ == old(self)@.joined(
                        req.id,
                        req.skill_rating,
                        req.ping_region@,
                        now,
                    )
                    &&& final(self).lists_with(
                        *old(self),
                        old(self)@.entry_of(req.id, req.skill_rating, req.ping_region@, now),
                    )
                    &&& position == final(self)@.queue.len()
                },
                Err(EnqueueError::InvalidRating) => {
                    &&& !req.skill_rating.finite()
                    &&& final(self)@ == old(self)@
                    &&& final(self).same_lists(*old(self))
                },
                Err(EnqueueError::DuplicateId) => {
                    &&& req.skill_rating.finite()
                    &&& old(self)@.queue.contains_key(req.id)
                    &&& final(self)@ == old(self)@
                    &&& final(self).same_lists(*old(self))
                },
            },
    {
        if !req.skill_rating.is_finite() {
            return Err(EnqueueError::InvalidRating);
        }
        let skill_rating = clamp_rating(req.skill_rating);
        let bracket: u32 = rating_to_bracket(skill_rating);
        let shard_idx: usize = shard_index(bracket, req.ping_region.as_str());
        if self.index.contains_key(&req.id) {
            return Err(EnqueueError::DuplicateId);
        }
        let region: usize = match self.regions.find(req.ping_region.as_str()) {
            Some(region) => region,
            None => self.regions.add(req.ping_region.as_str()),
        };
        let entry = PlayerEntry {
            ticket: self.metrics.total_players_queued,
            id: req.id,
            skill_rating,
            region,
            join_timestamp: now,
        };
        let ghost before = *old(self);
        proof {
            assert(!before.live(entry));
            assert(!before.shards@[shard_idx as int]@.contains(entry));
            assert(!before.oldest_heap@.contains(entry));
        }
        self.shards[shard_idx].insert(entry);
        self.oldest_heap.push(entry);
        self.metrics.queue_depth = self.metrics.queue_depth + 1;
        self.metrics.total_players_queued = self.metrics.total_players_queued + 1;
        self.index.insert(req.id, PlayerLocator { entry, shard_idx });
        assert(self.index@.len() == self.index.len());
        let position: usize = self.metrics.queue_depth as usize;
        proof {
            assert(self@.queue.dom() =~= self.index@.dom());
            assert(self.regions@ == before@.joined(req.id, req.skill_rating, req.ping_region@, now).regions);
            assert(self@.queue =~= before@.joined(
                req.id,
                req.skill_rating,
                req.ping_region@,
                now,
            ).queue);
            assert(self.parts_wf());
            assert(self.counts_wf());
            assert(self.index_wf());
            assert forall|s: int, e: PlayerEntry| 0 <= s < N_SHARDS implies (
            #[trigger] self.shards@[s]@.contains(e) <==> self.live(e) && self.index@[e.id].shard_idx
                == s) by {
                assert(before.shards@[s]@.contains(e) <==> before.live(e)
                    && before.index@[e.id].shard_idx == s);
            }
            assert forall|ticket: u64| #[trigger] self.evicted@.contains(ticket) implies exists|
                e: PlayerEntry,
            | #[trigger] self.oldest_heap@.contains(e) && e.ticket == ticket by {
                let e = choose|e: PlayerEntry| #[trigger]
                    before.oldest_heap@.contains(e) && e.ticket == ticket;
                assert(self.oldest_heap@.contains(e));
            }
            assert forall|e: PlayerEntry| #[trigger] self.oldest_heap@.contains(e) implies e.ticket
                < self.metrics.total_players_queued && (self.live(e) || self.evicted@.contains(
                e.ticket,
            )) by {
                if e != entry {
                    assert(before.oldest_heap@.contains(e));
                }
            }
            assert(!self.evicted@.contains(entry.ticket));
            assert(self.heap_wf());
            before.regions.lemma_distinct();
            assert(entry == before@.entry_of(req.id, req.skill_rating, req.ping_region@, now));
            assert(self.lists_with(before, entry));
        }
        Ok(position)
    }

    /// Takes a player out of the pool and the index, and marks it as evicted.
    fn withdraw(&mut self, locator: PlayerLocator)
        requires
            old(self).wf(),
            old(self).index@.contains_key(locator.entry.id),
            old(self).index@[locator.entry.id] == locator,
        ensures
            final(self).wf(),
            final(self)@ == old(self)@.left(locator.entry.id),
            final(self).index@ == old(self).index@.remove(locator.entry.id),
            final(self).regions@ == old(self).regions@,
            final(self).lists_without(*old(self), seq![locator.entry.id]),
    {
        let entry = locator.entry;
        let ghost before = *old(self);
        assert(before.index@.dom().contains(entry.id));
        let _ = self.shards[locator.shard_idx].remove(&entry);
        let _ = self.index.remove(&entry.id);
        let _ = self.evicted.insert(entry.ticket);
        self.metrics.queue_depth = self.metrics.queue_depth - 1;
        proof {
            assert(self@.queue =~= before@.left(entry.id).queue);
            assert forall|s: int, e: PlayerEntry| 0 <= s < N_SHARDS implies (
            #[trigger] self.shards@[s]@.contains(e) <==> self.live(e) && self.index@[e.id].shard_idx
                == s) by {
                assert(before.shards@[s]@.contains(e) <==> before.live(e)
                    && before.index@[e.id].shard_idx == s);
            }
            assert forall|id: u64| #[trigger] self.index@.contains_key(id) implies
                self.oldest_heap@.contains(self.index@[id].entry) && !self.evicted@.contains(
                self.index@[id].entry.ticket,
            ) by {
                assert(before.index@.contains_key(id));
                assert(before.oldest_heap@.contains(before.index@[id].entry));
                assert(before.oldest_heap@.contains(entry));
            }
            assert forall|e: PlayerEntry| #[trigger] self.oldest_heap@.contains(e) implies e.ticket
                < self.metrics.total_players_queued && (self.live(e) || self.evicted@.contains(
                e.ticket,
            )) by {
                assert(before.oldest_heap@.contains(e));
            }
            assert forall|ticket: u64| #[trigger] self.evicted@.contains(ticket) implies exists|
                e: PlayerEntry,
            | #[trigger] self.oldest_heap@.contains(e) && e.ticket == ticket by {
                if ticket == entry.ticket {
                    assert(self.oldest_heap@.contains(entry));
                } else {
                    assert(before.evicted@.contains(ticket));
                }
            }
            assert(self.wf());
            assert forall|s: int, key: BucketKey, rating: OrdF64| 0 <= s < N_SHARDS implies
                #[trigger] self.list(s, key, rating) == without_ids(
                before.list(s, key, rating),
                seq![entry.id],
            ) by {
                let list = before.list(s, key, rating);
                before.shards@[s].law_lists_hold_the_players(key, rating);
                assert forall|e: PlayerEntry| list.contains(e) && e.id == entry.id implies e
                    == entry by {
                    assert(before.shards@[s]@.contains(e));
                }
                lemma_without_id(list, entry);
                if s != locator.shard_idx {
                    if list.contains(entry) {
                        assert(before.shards@[s]@.contains(entry));
                    }
                    lemma_without_stranger(list, entry);
                }
            }
        }
    }

    /// Takes a player out of the queue. Tells whether it was queued.
    pub fn remove(&mut self, id: u64) -> (removed: bool)
        requires
            old(self).wf(),
        ensures
            final(self).wf(),
            removed == old(self)@.queue.contains_key(id),
            final(self)@ == if removed {
                old(self)@.left(id)
            } else {
                old(self)@
            },
            if removed {
                final(self).lists_without(*old(self), seq![id])
            } else {
                final(self).same_lists(*old(self))
            },
    {
        let locator = match self.index.get(&id) {
            Some(locator) => *locator,
            None => {
                return false;
            },
        };
        self.withdraw(locator);
        true
    }

    /// A report on the metrics.
    pub fn metrics_snapshot(&self) -> (snapshot: MetricsSnapshot)
        requires
            self.wf(),
        ensures
            snapshot == self@.metrics.report(),
    {
        self.metrics.snapshot()
    }

    /// Every region that a player has come from.
    pub fn regions_snapshot(&self) -> (regions: Vec<String>)
        requires
            self.wf(),
        ensures
            regions@.map_values(|name: String| name@) == self@.regions,
    {
        self.regions.snapshot()
    }

    /// The longest-waiting player. Drops those who have left from the top of
    /// the heap on the way.
    pub fn oldest_entry_snapshot(&mut self) -> (oldest: Option<PlayerEntry>)
        requires
            old(self).wf(),
        ensures
            final(self).wf(),
            final(self)@ == old(self)@,
            final(self).same_lists(*old(self)),
            match oldest {
                Some(entry) => {
                    &&& old(self)@.longest_waiting(entry.id)
                    &&& entry.region < old(self)@.regions.len()
                    &&& old(self)@.queue[entry.id] == described(entry, old(self)@.regions)
                },
                None => old(self)@.queue.is_empty(),
            },
    {
        loop
            invariant
                self.wf(),
                self@ == old(self)@,
                self.same_lists(*old(self)),
            decreases self.oldest_heap@.len(),
        {
            let ghost before = *self;
            let top = match self.oldest_heap.peek() {
                Some(top) => top,
                None => {
                    assert(self@.queue =~= Map::empty()) by {
                        assert forall|id: u64| !self@.queue.contains_key(id) by {
                            if self.index@.contains_key(id) {
                                assert(self.oldest_heap@.contains(self.index@[id].entry));
                            }
                        }
                    }
                    return None;
                },
            };
            if self.evicted.contains(&top.ticket) {
                let _ = self.oldest_heap.pop();
                let _ = self.evicted.remove(&top.ticket);
                proof {
                    assert(!before.live(top));
                    assert forall|ticket: u64| #[trigger] self.evicted@.contains(ticket) implies exists|
                        e: PlayerEntry,
                    | #[trigger] self.oldest_heap@.contains(e) && e.ticket == ticket by {
                        let e = choose|e: PlayerEntry| #[trigger]
                            before.oldest_heap@.contains(e) && e.ticket == ticket;
                        assert(self.oldest_heap@.contains(e));
                    }
                    assert forall|id: u64| #[trigger] self.index@.contains_key(id) implies
                        self.oldest_heap@.contains(self.index@[id].entry) && !self.evicted@.contains(
                        self.index@[id].entry.ticket,
                    ) by {
                        assert(before.index@.contains_key(id));
                    }
                    assert(self.pool_wf()) by {
                        assert forall|s: int, e: PlayerEntry| 0 <= s < N_SHARDS implies (
                        #[trigger] self.shards@[s]@.contains(e) <==> self.live(e)
                            && self.index@[e.id].shard_idx == s) by {
                            assert(before.shards@[s]@.contains(e) <==> before.live(e)
                                && before.index@[e.id].shard_idx == s);
                        }
                    }
                    assert(self.heap_wf());
                    assert forall|s: int, key: BucketKey, rating: OrdF64| 0 <= s < N_SHARDS implies
                        #[trigger] self.list(s, key, rating) == old(self).list(s, key, rating) by {
                        assert(self.list(s, key, rating) == before.list(s, key, rating));
                    }
                }
                continue ;
            }
            proof {
                self.lemma_oldest(top);
            }
            return Some(top);
        }
    }

    /// A group of queued players has as many members as they have ids.
    proof fn lemma_ids(self, group: Set<PlayerEntry>, ids: Set<u64>)
        requires
            group.finite(),
            forall|e: PlayerEntry| #[trigger] group.contains(e) ==> self.live(e) && ids.contains(e.id),
            forall|id: u64| #[trigger]
                ids.contains(id) ==> self.index@.contains_key(id) && self.index@[id].entry.id == id
                    && group.contains(self.index@[id].entry),
        ensures
            ids.finite(),
            ids.len() == group.len(),
    {
        let id_of = |e: PlayerEntry| e.id;
        assert(group.map(id_of) =~= ids) by {
            assert forall|id: u64| #[trigger] ids.contains(id) implies group.map(id_of).contains(
                id,
            ) by {
                assert(group.contains(self.index@[id].entry));
                assert(id_of(self.index@[id].entry) == id);
            }
        }
        group.lemma_map_finite(id_of);
        lemma_map_size(group, ids, id_of);
    }

    /// A bucket holds the queued players of its bracket and region.
    proof fn lemma_bucket(self, key: BucketKey)
        requires
            self.wf(),
            key.region < self.regions@.len(),
        ensures
            ({
                let region = self.regions@[key.region as int];
                let s = shard_of(key.bracket, region);
                let group = self.shards@[s].bucket(key);
                &&& 0 <= s < N_SHARDS
                &&& self.shards@[s]@.len() <= usize::MAX
                &&& group.len() == self@.bucket(key.bracket, region).len()
                &&& forall|rating: OrdF64|
                    is_median(group, rating) ==> #[trigger] self@.is_median(
                        self@.bucket(key.bracket, region),
                        rating,
                    )
            }),
    {
        let region = self.regions@[key.region as int];
        let s = shard_of(key.bracket, region);
        let shard = self.shards@[s];
        let group = shard.bucket(key);
        let ids = self@.bucket(key.bracket, region);
        self.regions.lemma_distinct();
        shard.lemma_finite();
        assert(self.index@.len() == self.index.len());
        assert(shard@.len() <= usize::MAX) by {
            let id_of = |e: PlayerEntry| e.id;
            let all = shard@.map(id_of);
            assert forall|e: PlayerEntry| #[trigger] shard@.contains(e) implies self.live(e) by {
                assert(self.shards@[s]@.contains(e));
            }
            shard@.lemma_map_finite(id_of);
            self.lemma_ids(shard@, all);
            assert(all.subset_of(self.index@.dom()));
            lemma_len_subset(all, self.index@.dom());
        }
        assert forall|e: PlayerEntry| #[trigger] group.contains(e) implies self.live(e)
            && ids.contains(e.id) by {
            assert(self.shards@[s]@.contains(e));
        }
        assert forall|id: u64| #[trigger] ids.contains(id) implies self.index@.contains_key(id)
            && self.index@[id].entry.id == id && group.contains(self.index@[id].entry) by {
            let e = self.index@[id].entry;
            assert(self.live(e));
            assert(self.regions@[e.region as int] == self.regions@[key.region as int]);
            assert(self.shards@[s]@.contains(e));
        }
        self.lemma_ids(group, ids);
        assert forall|rating: OrdF64| is_median(group, rating) implies #[trigger] self@.is_median(
            ids,
            rating,
        ) by {
            let low = group.filter(|e: PlayerEntry| e.rank() < rating.rank());
            let high = group.filter(|e: PlayerEntry| e.rank() <= rating.rank());
            let low_ids = ids.filter(|id: u64| self@.queue[id].skill_rating.rank() < rating.rank());
            let high_ids = ids.filter(
                |id: u64| self@.queue[id].skill_rating.rank() <= rating.rank(),
            );
            self.lemma_ids(low, low_ids);
            self.lemma_ids(high, high_ids);
        }
    }

    /// The median of a bucket is the rating of a queued player.
    proof fn lemma_median(self, key: BucketKey, s: int, rating: OrdF64)
        requires
            self.wf(),
            0 <= s < N_SHARDS,
            is_median(self.shards@[s].bucket(key), rating),
        ensures
            kept(rating),
    {
        let group = self.shards@[s].bucket(key);
        let low = group.filter(|e: PlayerEntry| e.rank() < rating.rank());
        let high = group.filter(|e: PlayerEntry| e.rank() <= rating.rank());
        if forall|e: PlayerEntry| #[trigger] high.contains(e) ==> low.contains(e) {
            assert(low =~= high);
        }
        let e = choose|e: PlayerEntry| #[trigger] high.contains(e) && !low.contains(e);
        assert(self.shards@[s]@.contains(e));
        assert(self.index@.contains_key(e.id));
        assert(e.rank() == rating.rank());
    }

    /// Nobody in the queue has waited longer than the oldest entry.
    proof fn lemma_oldest(self, oldest: PlayerEntry)
        requires
            self.wf(),
            self.live(oldest),
            forall|e: PlayerEntry| #[trigger] self.live(e) ==> !e.older(oldest),
        ensures
            self@.longest_waiting(oldest.id),
    {
        assert forall|other: u64| #[trigger]
            self@.queue.contains_key(other) && other != oldest.id implies self@.waited_longer(
            oldest.id,
            other,
        ) by {
            assert(self.index@.contains_key(other));
            assert(self.live(self.index@[other].entry));
        }
    }

    /// Finds where the search for a match starts: with the player who has
    /// waited longest.
    pub fn find_pivot(&mut self, now: u64) -> (pivot: Option<Pivot>)
        requires
            old(self).wf(),
        ensures
            final(self).wf(),
            final(self)@ == old(self)@,
            final(self).same_lists(*old(self)),
            match pivot {
                Some(pivot) => pivot.wf() && old(self)@.is_pivot(
                    now,
                    pivot.region@,
                    pivot.median_rating,
                    pivot.oldest_wait_secs,
                ),
                None => old(self)@.queue.is_empty(),
            },
    {
        let oldest = match self.oldest_entry_snapshot() {
            Some(oldest) => oldest,
            None => {
                return None;
            },
        };
        let bucket = bucket_key(&oldest);
        let region = self.regions.name(oldest.region);
        let shard_idx: usize = shard_index(bucket.bracket, region);
        proof {
            self.lemma_live(oldest);
            self.lemma_bucket(bucket);
            assert(self.shards@[shard_idx as int]@.contains(oldest));
            assert(self.shards@[shard_idx as int].bucket(bucket).contains(oldest));
        }
        let median_rating = match self.shards[shard_idx].bucket_median_rating(bucket) {
            Some(rating) => rating,
            None => {
                return None;
            },
        };
        proof {
            self.lemma_median(bucket, shard_idx as int, median_rating);
        }
        let oldest_wait_secs = as_seconds(now.saturating_sub(oldest.join_timestamp));
        Some(Pivot { region: region.to_owned(), median_rating, oldest_wait_secs })
    }
}

} // verus!

//! What happens to a queue in the course of time, and how the counters follow.

use crate::model::MatchmakerView;
use crate::rating::{law_clamped_ratings_are_kept, OrdF64};
use crate::shortlist::MATCH_SIZE;
use vstd::prelude::*;
use vstd::set_lib::lemma_set_disjoint_lens;

verus! {

/// Something that happens to a queue.
pub enum Event {
    Joined { id: u64, skill_rating: OrdF64, region: Seq<char>, now: u64 },
    Left { id: u64 },
    Matched { ids: Seq<u64>, now: u64 },
}

/// How many events pass a test.
pub open spec fn count(events: Seq<Event>, test: spec_fn(Event) -> bool) -> nat
    decreases events.len(),
{
    if events.len() == 0 {
        0
    } else {
        count(events.drop_last(), test) + if test(events.last()) {
            1nat
        } else {
            0nat
        }
    }
}

/// How many players joined.
pub open spec fn joins(events: Seq<Event>) -> nat {
    count(events, |event: Event| event is Joined)
}

/// How many players left without a match.
pub open spec fn departures(events: Seq<Event>) -> nat {
    count(events, |event: Event| event is Left)
}

/// How many matches were formed.
pub open spec fn matches(events: Seq<Event>) -> nat {
    count(events, |event: Event| event is Matched)
}

impl MatchmakerView {
    /// Whether an event can happen now: who joins is not queued and has a finite
    /// rating, who leaves is queued, and a match is the one that can be formed.
    /// The counter of joins and the numbers of regions have room.
    pub open spec fn can_happen(self, event: Event) -> bool {
        match event {
            Event::Joined { id, skill_rating, region, now } => {
                &&& skill_rating.finite()
                &&& !self.queue.contains_key(id)
                &&& self.metrics.total_players_queued < u64::MAX
                &&& self.regions.contains(region) || self.regions.len() < usize::MAX
            },
            Event::Left { id } => self.queue.contains_key(id),
            Event::Matched { ids, now } => self.is_match(now, ids),
        }
    }

    /// The state after an event.
    pub open spec fn after(self, event: Event) -> MatchmakerView {
        match event {
            Event::Joined { id, skill_rating, region, now } => self.joined(
                id,
                skill_rating,
                region,
                now,
            ),
            Event::Left { id } => self.left(id),
            Event::Matched { ids, now } => self.matched(ids, now),
        }
    }

    /// The state after several events.
    pub open spec fn after_all(self, events: Seq<Event>) -> MatchmakerView
        decreases events.len(),
    {
        if events.len() == 0 {
            self
        } else {
            self.after_all(events.drop_last()).after(events.last())
        }
    }

    /// Whether events can happen one after another.
    pub open spec fn can_all_happen(self, events: Seq<Event>) -> bool
        decreases events.len(),
    {
        events.len() > 0 ==> self.can_all_happen(events.drop_last()) && self.after_all(
            events.drop_last(),
        ).can_happen(events.last())
    }

    /// Every event keeps a state sound.
    pub proof fn law_events_keep_states_sound(self, event: Event)
        requires
            self.sound(),
            self.can_happen(event),
        ensures
            self.after(event).sound(),
    {
        let next = self.after(event);
        match event {
            Event::Joined { id, skill_rating, region, now } => {
                law_clamped_ratings_are_kept(skill_rating);
                if !self.regions.contains(region) {
                    assert(next.regions[self.regions.len() as int] == region);
                }
                assert forall|other: u64| #[trigger] next.queue.contains_key(other) implies
                    next.regions.contains(next.queue[other].region) by {
                    if other != id {
                        assert(self.queue.contains_key(other));
                        let i = choose|i: int|
                            0 <= i < self.regions.len() && self.regions[i]
                                == self.queue[other].region;
                        assert(next.regions[i] == self.regions[i]);
                    }
                }
                assert(next.queue.dom() =~= self.queue.dom().insert(id));
            },
            Event::Left { id } => {
                assert(next.queue.dom() =~= self.queue.dom().remove(id));
                assert(self.queue.dom().contains(id));
                assert forall|other: u64| #[trigger] next.queue.contains_key(other) implies
                    self.queue.contains_key(other) by {}
            },
            Event::Matched { ids, now } => {
                self.lemma_matched_depth(ids, now);
                assert forall|other: u64| #[trigger] next.queue.contains_key(other) implies
                    self.queue.contains_key(other) by {}
                self.metrics.waits.law_sum_of_many_waits_fits(
                    ids.map_values(|id: u64| self.wait_ms(id, now)),
                );
            },
        }
    }

    /// A match takes ten players off the depth.
    proof fn lemma_matched_depth(self, ids: Seq<u64>, now: u64)
        requires
            self.sound(),
            self.is_match(now, ids),
        ensures
            self.metrics.queue_depth >= MATCH_SIZE,
            self.matched(ids, now).queue.dom().finite(),
            self.matched(ids, now).queue.len() == self.queue.len() - MATCH_SIZE,
    {
        let (all, gone) = (self.queue.dom(), ids.to_set());
        let rest = self.matched(ids, now).queue.dom();
        self.law_match_takes_ten_of_the_queue(now, ids);
        ids.unique_seq_to_set();
        vstd::seq_lib::seq_to_set_is_finite(ids);
        assert forall|id: u64| #[trigger] gone.contains(id) implies all.contains(id) by {
            let i = choose|i: int| 0 <= i < ids.len() && ids[i] == id;
            assert(self.queue.contains_key(ids[i]));
        }
        assert(rest =~= all.difference(gone));
        assert(rest.union(gone) =~= all);
        assert(rest.disjoint(gone));
        lemma_set_disjoint_lens(rest, gone);
    }

    /// A history keeps states sound.
    pub proof fn law_history_keeps_states_sound(self, events: Seq<Event>)
        requires
            self.sound(),
            self.can_all_happen(events),
        ensures
            self.after_all(events).sound(),
        decreases events.len(),
    {
        if events.len() > 0 {
            self.law_history_keeps_states_sound(events.drop_last());
            self.after_all(events.drop_last()).law_events_keep_states_sound(events.last());
        }
    }

    /// The counters add up: everybody who joined is still queued, was matched
    /// with nine others, or left.
    pub proof fn law_counters_add_up(self, events: Seq<Event>)
        requires
            self.sound(),
            self.can_all_happen(events),
        ensures
            ({
                let (start, end) = (self.metrics, self.after_all(events).metrics);
                &&& end.total_players_queued == start.total_players_queued + joins(events)
                &&& end.total_matches_formed == start.total_matches_formed + matches(events)
                &&& end.queue_depth + 10 * matches(events) + departures(events)
                    == start.queue_depth + joins(events)
                &&& end.queue_depth == self.after_all(events).queue.len()
            }),
        decreases events.len(),
    {
        self.law_history_keeps_states_sound(events);
        if events.len() > 0 {
            let before = self.after_all(events.drop_last());
            self.law_history_keeps_states_sound(events.drop_last());
            self.law_counters_add_up(events.drop_last());
            match events.last() {
                Event::Joined { id, skill_rating, region, now } => {},
                Event::Left { id } => {
                    assert(before.queue.dom().contains(id));
                    assert(before.queue.dom().len() > 0);
                },
                Event::Matched { ids, now } => {
                    before.law_match_takes_ten_of_the_queue(now, ids);
                    before.lemma_matched_depth(ids, now);
                },
            }
        }
    }

    /// From an empty start, all players queued are those in the queue, ten for
    /// each match, and those who left.
    pub proof fn law_counters_add_up_from_the_start(self, events: Seq<Event>)
        requires
            self.sound(),
            self.metrics.total_players_queued == 0,
            self.can_all_happen(events),
        ensures
            ({
                let end = self.after_all(events).metrics;
                &&& end.total_players_queued == joins(events)
                &&& end.total_players_queued == end.queue_depth + 10 * end.total_matches_formed
                    + departures(events)
            }),
    {
        self.law_counters_add_up(events);
    }

    /// Whoever is not queued, as after a match, is neither queued nor matched
    /// before they join again.
    pub proof fn law_matched_again_only_after_joining(
        self,
        events: Seq<Event>,
        id: u64,
        now: u64,
        ids: Seq<u64>,
    )
        requires
            !self.queue.contains_key(id),
            self.can_all_happen(events),
            forall|i: int|
                0 <= i < events.len() ==> !((#[trigger] events[i]) is Joined && events[i]->Joined_id
                    == id),
            self.after_all(events).is_match(now, ids),
        ensures
            !self.after_all(events).queue.contains_key(id),
            !ids.contains(id),
    {
        self.lemma_stays_out(events, id);
        self.after_all(events).law_match_takes_ten_of_the_queue(now, ids);
    }

    proof fn lemma_stays_out(self, events: Seq<Event>, id: u64)
        requires
            !self.queue.contains_key(id),
            forall|i: int|
                0 <= i < events.len() ==> !((#[trigger] events[i]) is Joined && events[i]->Joined_id
                    == id),
        ensures
            !self.after_all(events).queue.contains_key(id),
        decreases events.len(),
    {
        if events.len() > 0 {
            let front = events.drop_last();
            assert forall|i: int| 0 <= i < front.len() implies !((#[trigger] front[i]) is Joined
                && front[i]->Joined_id == id) by {
                assert(front[i] == events[i]);
            }
            self.lemma_stays_out(front, id);
            assert(events[events.len() - 1] == events.last());
        }
    }
}

} // verus!

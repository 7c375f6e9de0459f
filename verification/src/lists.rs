//! Lists of queued players, and what is left of them when players leave.

use crate::player::PlayerEntry;
use vstd::prelude::*;

verus! {

/// The test for all entries but one.
pub open spec fn other_than(entry: PlayerEntry) -> spec_fn(PlayerEntry) -> bool {
    |e: PlayerEntry| e != entry
}

/// The test for players who do not have one of some ids.
pub open spec fn not_of(ids: Seq<u64>) -> spec_fn(PlayerEntry) -> bool {
    |e: PlayerEntry| !ids.contains(e.id)
}

/// A list without one entry.
pub open spec fn without_entry(list: Seq<PlayerEntry>, entry: PlayerEntry) -> Seq<PlayerEntry> {
    list.filter(other_than(entry))
}

/// A list without the players of some ids. The others keep their order.
pub open spec fn without_ids(list: Seq<PlayerEntry>, ids: Seq<u64>) -> Seq<PlayerEntry> {
    list.filter(not_of(ids))
}

/// Two tests that agree on a list keep the same of it.
proof fn lemma_filters_agree(
    list: Seq<PlayerEntry>,
    p: spec_fn(PlayerEntry) -> bool,
    q: spec_fn(PlayerEntry) -> bool,
)
    requires
        forall|e: PlayerEntry| list.contains(e) ==> p(e) == q(e),
    ensures
        list.filter(p) == list.filter(q),
    decreases list.len(),
{
    reveal(Seq::filter);
    if list.len() > 0 {
        let rest = list.drop_last();
        assert forall|e: PlayerEntry| rest.contains(e) implies p(e) == q(e) by {
            let i = choose|i: int| 0 <= i < rest.len() && rest[i] == e;
            assert(list[i] == e);
            assert(list.contains(e));
        }
        lemma_filters_agree(rest, p, q);
        assert(list.contains(list.last()));
    }
}

/// One test after another keeps what both keep.
proof fn lemma_filter_twice(
    list: Seq<PlayerEntry>,
    p: spec_fn(PlayerEntry) -> bool,
    q: spec_fn(PlayerEntry) -> bool,
)
    ensures
        list.filter(p).filter(q) == list.filter(|e: PlayerEntry| p(e) && q(e)),
    decreases list.len(),
{
    reveal(Seq::filter);
    if list.len() > 0 {
        let rest = list.drop_last();
        lemma_filter_twice(rest, p, q);
        if p(list.last()) {
            let kept = rest.filter(p);
            assert(kept.push(list.last()).drop_last() =~= kept);
        }
    }
}

/// A list from which nobody leaves stays as it is.
proof fn lemma_filter_keeps_all(list: Seq<PlayerEntry>, p: spec_fn(PlayerEntry) -> bool)
    requires
        forall|e: PlayerEntry| list.contains(e) ==> p(e),
    ensures
        list.filter(p) == list,
    decreases list.len(),
{
    reveal(Seq::filter);
    if list.len() > 0 {
        let rest = list.drop_last();
        assert forall|e: PlayerEntry| rest.contains(e) implies p(e) by {
            let i = choose|i: int| 0 <= i < rest.len() && rest[i] == e;
            assert(list[i] == e);
            assert(list.contains(e));
        }
        lemma_filter_keeps_all(rest, p);
        assert(list.contains(list.last()));
        assert(rest.push(list.last()) =~= list);
    }
}

/// An entry that is not in a list leaves it as it is.
pub proof fn lemma_without_stranger(list: Seq<PlayerEntry>, entry: PlayerEntry)
    requires
        !list.contains(entry),
    ensures
        without_entry(list, entry) == list,
{
    lemma_filter_keeps_all(list, other_than(entry));
}

/// To take out the place of an entry is to take out the entry.
pub proof fn lemma_without_place(list: Seq<PlayerEntry>, i: int)
    requires
        list.no_duplicates(),
        0 <= i < list.len(),
    ensures
        without_entry(list, list[i]) == list.remove(i),
    decreases list.len(),
{
    reveal(Seq::filter);
    let rest = list.drop_last();
    if i == list.len() - 1 {
        assert(!rest.contains(list[i]));
        lemma_without_stranger(rest, list[i]);
        assert(list.remove(i) =~= rest);
    } else {
        lemma_without_place(rest, i);
        assert(rest.remove(i).push(list.last()) =~= list.remove(i));
    }
}

/// Where an id tells an entry from the others, the player can be named by id.
pub proof fn lemma_without_id(list: Seq<PlayerEntry>, entry: PlayerEntry)
    requires
        forall|e: PlayerEntry| list.contains(e) && e.id == entry.id ==> e == entry,
    ensures
        without_entry(list, entry) == without_ids(list, seq![entry.id]),
{
    let ids = seq![entry.id];
    assert(ids[0] == entry.id);
    lemma_filters_agree(list, other_than(entry), not_of(ids));
}

/// Players leave one after another as they leave together.
pub proof fn lemma_without_one_more(list: Seq<PlayerEntry>, ids: Seq<u64>, id: u64)
    ensures
        without_ids(without_ids(list, ids), seq![id]) == without_ids(list, ids.push(id)),
{
    let (p, q) = (not_of(ids), not_of(seq![id]));
    lemma_filter_twice(list, p, q);
    assert(seq![id][0] == id);
    assert forall|x: u64| ids.push(id).contains(x) <==> ids.contains(x) || x == id by {
        if ids.contains(x) {
            let i = choose|i: int| 0 <= i < ids.len() && ids[i] == x;
            assert(ids.push(id)[i] == x);
        }
        assert(ids.push(id)[ids.len() as int] == id);
    }
    lemma_filters_agree(
        list,
        |e: PlayerEntry| p(e) && q(e),
        not_of(ids.push(id)),
    );
}

/// Players who are not in a list leave it as it is.
pub proof fn lemma_without_strangers(list: Seq<PlayerEntry>, ids: Seq<u64>)
    requires
        forall|e: PlayerEntry| list.contains(e) ==> !ids.contains(e.id),
    ensures
        without_ids(list, ids) == list,
{
    lemma_filter_keeps_all(list, not_of(ids));
}

/// If nobody leaves, a list stays as it is.
pub proof fn lemma_without_nobody(list: Seq<PlayerEntry>)
    ensures
        without_ids(list, Seq::empty()) == list,
{
    lemma_without_strangers(list, Seq::empty());
}

/// To leave a list undoes to join it.
pub proof fn law_leaving_a_list_undoes_joining_it(list: Seq<PlayerEntry>, entry: PlayerEntry)
    requires
        forall|e: PlayerEntry| list.contains(e) ==> e.id != entry.id,
    ensures
        without_ids(list.push(entry), seq![entry.id]) == list,
{
    reveal(Seq::filter);
    let ids = seq![entry.id];
    assert(ids[0] == entry.id);
    assert(list.push(entry).drop_last() =~= list);
    lemma_without_strangers(list, ids);
}

/// Who leaves a list leaves its place, and everybody else stays behind those who
/// stood before them.
pub proof fn law_others_keep_their_order(
    list: Seq<PlayerEntry>,
    entry: PlayerEntry,
    gone: PlayerEntry,
    ids: Seq<u64>,
)
    ensures
        without_ids(Seq::empty(), ids) == Seq::<PlayerEntry>::empty(),
        ids.contains(entry.id) ==> without_ids(list.push(entry), ids) == without_ids(list, ids),
        !ids.contains(entry.id) ==> without_ids(list.push(entry), ids) == without_ids(
            list,
            ids,
        ).push(entry),
        without_entry(Seq::empty(), gone) == Seq::<PlayerEntry>::empty(),
        entry == gone ==> without_entry(list.push(entry), gone) == without_entry(list, gone),
        entry != gone ==> without_entry(list.push(entry), gone) == without_entry(list, gone).push(
            entry,
        ),
{
    reveal(Seq::filter);
    assert(list.push(entry).drop_last() =~= list);
}

} // verus!

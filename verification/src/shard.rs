//! Buckets of queued players, spread over shards.

use crate::lists::{lemma_without_place, lemma_without_stranger, without_entry};
use crate::player::{is_median, PlayerEntry};
use crate::rating::{rating_to_bracket, OrdF64};
use crate::shortlist::{distinct_ids, offer, shortlists, Candidate};
use std::collections::btree_map::Iter;
use std::collections::hash_map::DefaultHasher;
use std::collections::{BTreeMap, HashMap};
use std::hash::Hasher;
use vstd::bytes::{spec_u32_to_le_bytes, u32_to_le_bytes};
use vstd::prelude::*;
use vstd::set_lib::lemma_len_subset;
use vstd::std_specs::btree::{increasing_seq, spec_btree_map_iter};
use vstd::std_specs::cmp::OrdSpec;
use vstd::std_specs::hash::DefaultHasherAdditionalSpecFns;
use vstd::std_specs::iter::IteratorSpec;
use vstd::utf8::encode_utf8;

verus! {

/// The bracket and the region of a bucket. Regions go by their number in the
/// region table.
#[derive(Clone, Copy, Debug, PartialEq, Eq, Structural)]
pub struct BucketKey {
    pub bracket: u32,
    pub region: usize,
}

impl BucketKey {
    /// The key as one number.
    pub open spec fn number(self) -> int {
        self.region * 0x1_0000_0000 + self.bracket
    }

    fn code(self) -> (code: u128)
        ensures
            code == self.number(),
    {
        self.region as u128 * 0x1_0000_0000 + self.bracket as u128
    }
}

/// How many shards the pool has.
pub const N_SHARDS: usize = 8;

/// The shard of a bucket: the hash of its bracket and of its region's name,
/// which an end mark follows, modulo the number of shards.
pub open spec fn shard_of(bracket: u32, region: Seq<char>) -> int {
    (DefaultHasher::spec_finish(
        seq![spec_u32_to_le_bytes(bracket), encode_utf8(region), seq![0xffu8]],
    ) % 8) as int
}

/// The shard of a bucket.
pub fn shard_index(bracket: u32, region: &str) -> (index: usize)
    ensures
        index == shard_of(bracket, region@),
        index < N_SHARDS,
{
    let mut hasher = DefaultHasher::new();
    hasher.write(u32_to_le_bytes(bracket).as_slice());
    hasher.write(region.as_bytes());
    let end: [u8; 1] = [0xff];
    hasher.write(&end);
    assert(end@ =~= seq![0xffu8]);
    assert(hasher@ =~= seq![spec_u32_to_le_bytes(bracket), encode_utf8(region@), seq![0xffu8]]);
    (hasher.finish() % 8) as usize
}

/// The shard of a bucket is one of eight. It is told by the hash of what the
/// bracket and the region's name write to the hasher: the four bytes of the
/// bracket, the lowest first, the bytes of the name, and the end mark of a text.
pub proof fn law_shard_is_told_by_the_hash(bracket: u32, region: Seq<char>)
    ensures
        0 <= shard_of(bracket, region) < 8,
        shard_of(bracket, region) == DefaultHasher::spec_finish(
            seq![spec_u32_to_le_bytes(bracket), encode_utf8(region), seq![255u8]],
        ) % 8,
{
}

/// The bucket that a player belongs to.
pub open spec fn bucket_of(entry: PlayerEntry) -> BucketKey {
    BucketKey { bracket: entry.skill_rating.bracket(), region: entry.region }
}

/// The bucket that a player belongs to.
pub fn bucket_key(entry: &PlayerEntry) -> (key: BucketKey)
    ensures
        key == bucket_of(*entry),
{
    BucketKey { bracket: rating_to_bracket(entry.skill_rating), region: entry.region }
}

/// A player belongs to the bucket of the rating's bracket and of the region.
pub proof fn law_buckets_go_by_bracket_and_region(entry: PlayerEntry)
    ensures
        bucket_of(entry).bracket == entry.skill_rating.bracket(),
        bucket_of(entry).region == entry.region,
{
}

/// The players of one bracket and region, by rating.
pub type Tree = BTreeMap<i64, Vec<PlayerEntry>>;

/// One shard of the pool.
pub struct Shard {
    buckets: HashMap<u128, Tree>,
}

impl View for Shard {
    type V = Set<PlayerEntry>;

    /// The players that the shard holds.
    closed spec fn view(&self) -> Set<PlayerEntry> {
        Set::new(
            |e: PlayerEntry|
                self.row(bucket_of(e).number() as u128, e.rank() as i64).contains(e),
        )
    }
}

impl Shard {
    /// The players at one place of the shard.
    spec fn row(self, code: u128, rank: i64) -> Seq<PlayerEntry> {
        if self.buckets@.contains_key(code) && self.buckets@[code]@.contains_key(rank) {
            self.buckets@[code]@[rank]@
        } else {
            Seq::empty()
        }
    }

    /// The players of one bucket with one rating, in the order in which they
    /// came.
    pub closed spec fn list(self, key: BucketKey, rating: OrdF64) -> Seq<PlayerEntry> {
        self.row(key.number() as u128, rating.rank() as i64)
    }

    /// Every player stands in the list of its bucket and rating, once, and the
    /// lists hold nobody else.
    pub proof fn law_lists_hold_the_players(self, key: BucketKey, rating: OrdF64)
        requires
            self.wf(),
        ensures
            self.list(key, rating).no_duplicates(),
            forall|e: PlayerEntry| #[trigger]
                self.list(key, rating).contains(e) <==> self@.contains(e) && bucket_of(e) == key
                    && e.skill_rating == rating,
    {
        self.lemma_row_is_part(key, rating.rank() as i64);
    }

    /// Every player stands in its own place, once, and nothing is kept empty.
    pub closed spec fn wf(self) -> bool {
        &&& self@.finite()
        &&& forall|code: u128, rank: i64, i: int|
            0 <= i < self.row(code, rank).len() ==> {
                let e = #[trigger] self.row(code, rank)[i];
                bucket_of(e).number() == code && e.rank() == rank
            }
        &&& forall|code: u128, rank: i64| #[trigger] self.row(code, rank).no_duplicates()
        &&& forall|code: u128| #[trigger]
            self.buckets@.contains_key(code) ==> self.buckets@[code]@.len() > 0
        &&& forall|code: u128, rank: i64|
            self.buckets@.contains_key(code) && #[trigger] self.buckets@[code]@.contains_key(rank)
                ==> self.buckets@[code]@[rank]@.len() > 0
    }

    /// A shard holds finitely many players.
    pub proof fn lemma_finite(self)
        requires
            self.wf(),
        ensures
            self@.finite(),
    {
    }

    /// An empty shard.
    pub fn new() -> (shard: Self)
        ensures
            shard.wf(),
            shard@ == Set::<PlayerEntry>::empty(),
    {
        let shard = Shard { buckets: HashMap::new() };
        assert(shard@ =~= Set::empty());
        shard
    }

    /// Adds a player to its bucket, behind those of the same rating.
    pub fn insert(&mut self, entry: PlayerEntry)
        requires
            old(self).wf(),
            !old(self)@.contains(entry),
        ensures
            final(self).wf(),
            final(self)@ == old(self)@.insert(entry),
            forall|key: BucketKey, rating: OrdF64| #[trigger]
                final(self).list(key, rating) == if key == bucket_of(entry) && rating
                    == entry.skill_rating {
                    old(self).list(key, rating).push(entry)
                } else {
                    old(self).list(key, rating)
                },
    {
        let code: u128 = bucket_key(&entry).code();
        let key: i64 = entry.skill_rating.key();
        let mut tree: Tree = match self.buckets.remove(&code) {
            Some(tree) => tree,
            None => BTreeMap::new(),
        };
        let mut row: Vec<PlayerEntry> = match tree.remove(&key) {
            Some(row) => row,
            None => Vec::new(),
        };
        let ghost before = row@;
        row.push(entry);
        tree.insert(key, row);
        self.buckets.insert(code, tree);
        proof {
            assert(before == old(self).row(code, key));
            assert(self.row(code, key) == before.push(entry));
            assert forall|c: u128, r: i64| c != code || r != key implies self.row(c, r) == old(
                self,
            ).row(c, r) by {}
            assert forall|e: PlayerEntry| #[trigger] self@.contains(e) <==> old(self)@.contains(e)
                || e == entry by {
                broadcast use vstd::seq_lib::group_seq_properties;

            }
            assert(self@ =~= old(self)@.insert(entry));
            assert(self.row(code, key).no_duplicates()) by {
                assert(old(self).row(code, key).no_duplicates());
                if before.contains(entry) {
                    assert(old(self)@.contains(entry));
                }
            }
            assert(self.buckets@[code]@.contains_key(key));
            assert(self.wf());
            assert forall|k: BucketKey, r: OrdF64| #[trigger] self.list(k, r) == if k == bucket_of(
                entry,
            ) && r == entry.skill_rating {
                old(self).list(k, r).push(entry)
            } else {
                old(self).list(k, r)
            } by {
                if k != bucket_of(entry) || r != entry.skill_rating {
                    assert(k.number() as u128 != code || r.rank() as i64 != key);
                }
            }
        }
    }

    /// Whether the shard holds a player.
    pub fn contains(&self, entry: &PlayerEntry) -> (result: bool)
        requires
            self.wf(),
        ensures
            result == self@.contains(*entry),
    {
        let code: u128 = bucket_key(entry).code();
        let key: i64 = entry.skill_rating.key();
        match self.buckets.get(&code) {
            None => false,
            Some(tree) => match tree.get(&key) {
                None => false,
                Some(row) => find(row, entry).is_some(),
            },
        }
    }

    /// Takes a player out, and with it what it leaves empty. Tells whether the
    /// player was there.
    pub fn remove(&mut self, entry: &PlayerEntry) -> (removed: bool)
        requires
            old(self).wf(),
        ensures
            final(self).wf(),
            removed == old(self)@.contains(*entry),
            final(self)@ == old(self)@.remove(*entry),
            forall|key: BucketKey, rating: OrdF64| #[trigger]
                final(self).list(key, rating) == without_entry(old(self).list(key, rating), *entry),
    {
        let code: u128 = bucket_key(entry).code();
        let key: i64 = entry.skill_rating.key();
        let mut tree: Tree = match self.buckets.remove(&code) {
            Some(tree) => tree,
            None => {
                proof {
                    assert(self.buckets@ =~= old(self).buckets@);
                    assert forall|c: u128, r: i64| #[trigger] self.row(c, r) == old(self).row(c, r) by {}
                    assert(self@ =~= old(self)@.remove(*entry));
                    self.lemma_strangers(*old(self), *entry);
                }
                return false;
            },
        };
        let mut removed: bool = false;
        let ghost place = old(self).row(code, key);
        let ghost mut rest = place;
        if let Some(mut row) = tree.remove(&key) {
            if let Some(i) = find(&row, entry) {
                let _ = row.remove(i);
                removed = true;
                proof {
                    lemma_remove_one(place, i as int);
                    lemma_without_place(place, i as int);
                }
            }
            proof {
                rest = row@;
            }
            if !row.is_empty() {
                tree.insert(key, row);
            }
        }
        if !tree.is_empty() {
            self.buckets.insert(code, tree);
        }
        proof {
            assert(place.no_duplicates());
            assert forall|c: u128, r: i64| c != code || r != key implies #[trigger] self.row(c, r)
                == old(self).row(c, r) by {}
            assert(self.row(code, key) =~= rest);
            assert forall|e: PlayerEntry| #[trigger] self@.contains(e) <==> old(self)@.contains(e)
                && e != *entry by {}
            assert(self@ =~= old(self)@.remove(*entry));
            assert forall|c: u128, r: i64, i: int| 0 <= i < self.row(c, r).len() implies {
                let e = #[trigger] self.row(c, r)[i];
                bucket_of(e).number() == c && e.rank() == r
            } by {
                let e = self.row(c, r)[i];
                if c == code && r == key {
                    assert(rest.contains(e));
                    let j = choose|j: int| 0 <= j < place.len() && place[j] == e;
                    assert(old(self).row(c, r)[j] == e);
                } else {
                    assert(old(self).row(c, r)[i] == e);
                }
            }
            assert forall|k: BucketKey, r: OrdF64| #[trigger] self.list(k, r) == without_entry(
                old(self).list(k, r),
                *entry,
            ) by {
                old(self).law_lists_hold_the_players(k, r);
                if !old(self).list(k, r).contains(*entry) {
                    lemma_without_stranger(old(self).list(k, r), *entry);
                    if k.number() as u128 == code && r.rank() as i64 == key {
                        assert(!removed);
                    }
                }
            }
        }
        removed
    }

    /// Who is not there leaves no list.
    proof fn lemma_strangers(self, before: Shard, entry: PlayerEntry)
        requires
            before.wf(),
            !before@.contains(entry),
            forall|c: u128, r: i64| #[trigger] self.row(c, r) == before.row(c, r),
        ensures
            forall|key: BucketKey, rating: OrdF64| #[trigger]
                self.list(key, rating) == without_entry(before.list(key, rating), entry),
    {
        assert forall|key: BucketKey, rating: OrdF64| #[trigger]
            self.list(key, rating) == without_entry(before.list(key, rating), entry) by {
            before.law_lists_hold_the_players(key, rating);
            lemma_without_stranger(before.list(key, rating), entry);
        }
    }

    /// The players of one bucket.
    pub open spec fn bucket(self, key: BucketKey) -> Set<PlayerEntry> {
        self@.filter(|e: PlayerEntry| bucket_of(e) == key)
    }

    /// A row of a bucket holds the players of the bucket with its rating.
    proof fn lemma_row_is_part(self, key: BucketKey, rank: i64)
        requires
            self.wf(),
        ensures
            self.row(key.number() as u128, rank).no_duplicates(),
            forall|e: PlayerEntry| #[trigger]
                self.row(key.number() as u128, rank).contains(e) <==> self.bucket(key).contains(e)
                    && e.rank() == rank,
    {
        let code = key.number() as u128;
        assert forall|e: PlayerEntry| #[trigger] self.row(code, rank).contains(e) implies self.bucket(
            key,
        ).contains(e) && e.rank() == rank by {
            let i = choose|i: int| 0 <= i < self.row(code, rank).len() && self.row(code, rank)[i] == e;
            assert(bucket_of(self.row(code, rank)[i]).number() == code);
        }
    }

    /// The rows of a bucket hold all of its players.
    proof fn lemma_all_rows(self, key: BucketKey, rows: Seq<(&i64, &Vec<PlayerEntry>)>)
        requires
            self.wf(),
            self.buckets@.contains_key(key.number() as u128),
            in_order(rows, self.buckets@[key.number() as u128]@),
        ensures
            through(self.bucket(key), rows, rows.len() as int) == self.bucket(key),
    {
        let code = key.number() as u128;
        assert forall|e: PlayerEntry| #[trigger] self.bucket(key).contains(e) implies through(
            self.bucket(key),
            rows,
            rows.len() as int,
        ).contains(e) by {
            assert(self.row(code, e.rank() as i64).contains(e));
            assert(self.buckets@[code]@.contains_key(e.rank() as i64));
        }
        assert(through(self.bucket(key), rows, rows.len() as int) =~= self.bucket(key));
    }

    /// The rows before one hold the lower ratings.
    proof fn lemma_split_at(self, key: BucketKey, rows: Seq<(&i64, &Vec<PlayerEntry>)>, n: int)
        requires
            self.wf(),
            self.buckets@.contains_key(key.number() as u128),
            in_order(rows, self.buckets@[key.number() as u128]@),
            0 <= n < rows.len(),
        ensures
            self.bucket(key).filter(|e: PlayerEntry| e.rank() < *rows[n].0) == through(
                self.bucket(key),
                rows,
                n,
            ),
            self.bucket(key).filter(|e: PlayerEntry| e.rank() <= *rows[n].0) == through(
                self.bucket(key),
                rows,
                n + 1,
            ),
    {
        let group = self.bucket(key);
        self.lemma_all_rows(key, rows);
        assert forall|e: PlayerEntry| #[trigger] group.contains(e) implies exists|j: int|
            0 <= j < rows.len() && *(#[trigger] rows[j]).0 == e.rank() by {
            assert(through(group, rows, rows.len() as int).contains(e));
        }
        assert(group.filter(|e: PlayerEntry| e.rank() < *rows[n].0) =~= through(group, rows, n));
        assert(group.filter(|e: PlayerEntry| e.rank() <= *rows[n].0) =~= through(group, rows, n + 1));
    }

    /// The median rating of a bucket.
    pub fn bucket_median_rating(&self, key: BucketKey) -> (median: Option<OrdF64>)
        requires
            self.wf(),
            self@.len() <= usize::MAX,
        ensures
            match median {
                None => self.bucket(key).is_empty(),
                Some(rating) => is_median(self.bucket(key), rating),
            },
    {
        let ghost group = self.bucket(key);
        let tree: &Tree = match self.buckets.get(&key.code()) {
            Some(tree) => tree,
            None => {
                assert(group =~= Set::empty());
                return None;
            },
        };
        let mut total: usize = 0;
        let rows = tree.iter();
        proof {
            lemma_in_order(*tree, rows);
            assert(through(group, rows.remaining(), 0) =~= Set::empty());
            self.lemma_all_rows(key, rows.remaining());
        }
        for (rank, row) in it: rows
            invariant
                self.wf(),
                self@.len() <= usize::MAX,
                group == self.bucket(key),
                self.buckets@.contains_key(key.number() as u128),
                *tree == self.buckets@[key.number() as u128],
                in_order(it.seq(), tree@),
                total == through(group, it.seq(), it.index() as int).len(),
                through(group, it.seq(), it.seq().len() as int) == group,
        {
            proof {
                self.lemma_row_is_part(key, *rank);
                lemma_next_row(group, it.seq(), it.index() as int, row@);
                lemma_len_subset(through(group, it.seq(), it.index() + 1), self@);
            }
            total = total + row.len();
        }
        let mut mid: usize = total / 2;
        let rows = tree.iter();
        for (rank, row) in it: rows
            invariant
                self.wf(),
                group == self.bucket(key),
                self.buckets@.contains_key(key.number() as u128),
                *tree == self.buckets@[key.number() as u128],
                in_order(it.seq(), tree@),
                total == group.len(),
                mid == total / 2 - through(group, it.seq(), it.index() as int).len(),
        {
            proof {
                self.lemma_row_is_part(key, *rank);
                lemma_next_row(group, it.seq(), it.index() as int, row@);
            }
            if mid < row.len() {
                let median = OrdF64::from_key(*rank);
                proof {
                    self.lemma_split_at(key, it.seq(), it.index() as int);
                    assert(group.filter(|e: PlayerEntry| e.rank() < median.rank())
                        =~= group.filter(|e: PlayerEntry| e.rank() < *rank));
                    assert(group.filter(|e: PlayerEntry| e.rank() <= median.rank())
                        =~= group.filter(|e: PlayerEntry| e.rank() <= *rank));
                }
                return Some(median);
            }
            mid = mid - row.len();
        }
        None
    }

    /// The players of one bucket whose ratings lie in a window.
    pub open spec fn window(self, key: BucketKey, low: int, high: int) -> Set<PlayerEntry> {
        self.bucket(key).filter(|e: PlayerEntry| low <= e.rank() <= high)
    }

    /// Offers the players of a bucket that lie in a window to the shortlist. The
    /// walk ends above the window.
    pub(crate) fn scan(
        &self,
        key: BucketKey,
        low: i64,
        high: i64,
        shard_idx: usize,
        list: &mut Vec<Candidate>,
        Ghost(offered): Ghost<Set<PlayerEntry>>,
    )
        requires
            self.wf(),
            offered.finite(),
            offered.disjoint(self.bucket(key)),
            shortlists(old(list)@, offered),
            distinct_ids(offered.union(self.window(key, low as int, high as int))),
        ensures
            shortlists(final(list)@, offered.union(self.window(key, low as int, high as int))),
            drawn_from(
                final(list)@,
                old(list)@,
                self.window(key, low as int, high as int),
                shard_idx,
            ),
    {
        let ghost hits = self.window(key, low as int, high as int);
        let ghost all = offered.union(hits);
        let tree: &Tree = match self.buckets.get(&key.code()) {
            Some(tree) => tree,
            None => {
                assert(all =~= offered);
                return ;
            },
        };
        let ghost mut done = offered;
        let rows = tree.iter();
        proof {
            lemma_in_order(*tree, rows);
            assert(offered.union(through(hits, rows.remaining(), 0)) =~= offered);
            self.lemma_all_rows(key, rows.remaining());
            assert(through(hits, rows.remaining(), rows.remaining().len() as int) =~= hits) by {
                assert forall|e: PlayerEntry| #[trigger] hits.contains(e) implies exists|j: int|
                    0 <= j < rows.remaining().len() && *(#[trigger] rows.remaining()[j]).0 == e.rank() by {
                    assert(through(
                        self.bucket(key),
                        rows.remaining(),
                        rows.remaining().len() as int,
                    ).contains(e));
                }
            }
        }
        for (rank, row) in it: rows
            invariant
                self.wf(),
                offered.finite(),
                offered.disjoint(self.bucket(key)),
                hits == self.window(key, low as int, high as int),
                all == offered.union(hits),
                distinct_ids(all),
                self.buckets@.contains_key(key.number() as u128),
                *tree == self.buckets@[key.number() as u128],
                in_order(it.seq(), tree@),
                through(hits, it.seq(), it.seq().len() as int) == hits,
                done == offered.union(through(hits, it.seq(), it.index() as int)),
                shortlists(list@, done),
                drawn_from(list@, old(list)@, hits, shard_idx),
        {
            proof {
                self.lemma_row_is_part(key, *rank);
                self.bucket(key).lemma_len_filter(
                    |e: PlayerEntry| low <= e.rank() <= high,
                );
                assert(through(hits, it.seq(), it.index() as int).subset_of(hits));
            }
            if *rank > high {
                proof {
                    let met = through(hits, it.seq(), it.index() as int);
                    assert forall|e: PlayerEntry| #[trigger] hits.contains(e) implies met.contains(
                        e,
                    ) by {
                        assert(through(hits, it.seq(), it.seq().len() as int).contains(e));
                        let j = choose|j: int|
                            0 <= j < it.seq().len() && *(#[trigger] it.seq()[j]).0 == e.rank();
                        assert(*it.seq()[it.index() as int].0 == *rank);
                        assert(j < it.index());
                    }
                    assert(met =~= hits);
                }
                return ;
            }
            if low <= *rank {
                assert(done.union(row@.take(0).to_set()) =~= done);
                for i in 0..row.len()
                    invariant
                        done.finite(),
                        done.subset_of(all),
                        distinct_ids(all),
                        row@.no_duplicates(),
                        forall|j: int| 0 <= j < row@.len() ==> all.contains(#[trigger] row@[j]),
                        forall|j: int| 0 <= j < row@.len() ==> !done.contains(#[trigger] row@[j]),
                        shortlists(list@, done.union(row@.take(i as int).to_set())),
                        forall|j: int| 0 <= j < row@.len() ==> hits.contains(#[trigger] row@[j]),
                        drawn_from(list@, old(list)@, hits, shard_idx),
                {
                    let ghost so_far = done.union(row@.take(i as int).to_set());
                    proof {
                        assert(row@.take(i + 1).to_set() =~= row@.take(i as int).to_set().insert(
                            row@[i as int],
                        )) by {
                            assert(row@.take(i + 1) =~= row@.take(i as int).push(row@[i as int]));
                            row@.take(i as int).lemma_push_to_set_commute(row@[i as int]);
                        }
                        assert(so_far.insert(row@[i as int]) =~= done.union(
                            row@.take(i + 1).to_set(),
                        ));
                        vstd::seq_lib::seq_to_set_is_finite(row@.take(i as int));
                    }
                    let ghost earlier = list@;
                    offer(list, Candidate { entry: row[i], shard_idx }, Ghost(so_far));
                    assert forall|j: int| 0 <= j < list@.len() implies ({
                        let candidate = #[trigger] list@[j];
                        old(list)@.contains(candidate) || (candidate.shard_idx == shard_idx
                            && hits.contains(candidate.entry))
                    }) by {
                        if earlier.contains(list@[j]) {
                            let k = choose|k: int| 0 <= k < earlier.len() && earlier[k] == list@[j];
                            assert(earlier[k] == list@[j]);
                        }
                    }
                }
                proof {
                    assert(row@.take(row@.len() as int) =~= row@);
                    done = done.union(row@.to_set());
                }
            }
            proof {
                assert(offered.union(through(hits, it.seq(), it.index() + 1)) =~= done);
            }
        }
    }
}

/// Whether every candidate of a list stood on the list before, or is one of
/// `group` with the given shard.
pub open spec fn drawn_from(
    list: Seq<Candidate>,
    before: Seq<Candidate>,
    group: Set<PlayerEntry>,
    shard_idx: usize,
) -> bool {
    forall|i: int|
        0 <= i < list.len() ==> {
            let candidate = #[trigger] list[i];
            before.contains(candidate) || (candidate.shard_idx == shard_idx && group.contains(
                candidate.entry,
            ))
        }
}

/// Whether `rows` are the rows of a bucket, from the lowest rating up.
spec fn in_order(rows: Seq<(&i64, &Vec<PlayerEntry>)>, tree: Map<i64, Vec<PlayerEntry>>) -> bool {
    &&& forall|i: int, j: int|
        0 <= i < j < rows.len() ==> *(#[trigger] rows[i]).0 < *(#[trigger] rows[j]).0
    &&& forall|i: int|
        0 <= i < rows.len() ==> tree.contains_key(*(#[trigger] rows[i]).0) && tree[*rows[i].0]
            == *rows[i].1
    &&& forall|rank: i64| #[trigger]
        tree.contains_key(rank) ==> exists|i: int| 0 <= i < rows.len() && *(#[trigger] rows[i]).0 == rank
}

/// A walk over a bucket meets its rows in order.
proof fn lemma_in_order(tree: Tree, rows: Iter<'_, i64, Vec<PlayerEntry>>)
    requires
        rows == spec_btree_map_iter(&tree),
        increasing_seq(rows.remaining().map_values(|kv: (&i64, &Vec<PlayerEntry>)| *kv.0)),
    ensures
        in_order(rows.remaining(), tree@),
{
    let walk = rows.remaining();
    let keys = walk.map_values(|kv: (&i64, &Vec<PlayerEntry>)| *kv.0);
    assert forall|i: int, j: int| 0 <= i < j < walk.len() implies *(#[trigger] walk[i]).0 < *(
    #[trigger] walk[j]).0 by {
        assert(keys[i].cmp_spec(&keys[j]) is Less);
    }
}

/// The players of a group whose ratings are among the first `n` rows.
spec fn through(
    group: Set<PlayerEntry>,
    rows: Seq<(&i64, &Vec<PlayerEntry>)>,
    n: int,
) -> Set<PlayerEntry> {
    group.filter(|e: PlayerEntry| exists|j: int| 0 <= j < n && *(#[trigger] rows[j]).0 == e.rank())
}

/// One more row adds its players to those counted so far.
proof fn lemma_next_row(
    group: Set<PlayerEntry>,
    rows: Seq<(&i64, &Vec<PlayerEntry>)>,
    n: int,
    row: Seq<PlayerEntry>,
)
    requires
        group.finite(),
        0 <= n < rows.len(),
        forall|i: int, j: int|
            0 <= i < j < rows.len() ==> *(#[trigger] rows[i]).0 < *(#[trigger] rows[j]).0,
        row.no_duplicates(),
        forall|e: PlayerEntry| #[trigger]
            row.contains(e) <==> group.contains(e) && e.rank() == *rows[n].0,
    ensures
        through(group, rows, n + 1).len() == through(group, rows, n).len() + row.len(),
        through(group, rows, n + 1) == through(group, rows, n).union(row.to_set()),
{
    let (now, next) = (through(group, rows, n), through(group, rows, n + 1));
    row.unique_seq_to_set();
    assert(next =~= now.union(row.to_set()));
    assert(now.disjoint(row.to_set()));
    group.lemma_len_filter(
        |e: PlayerEntry| exists|j: int| 0 <= j < n && *(#[trigger] rows[j]).0 == e.rank(),
    );
    vstd::set_lib::lemma_set_disjoint_lens(now, row.to_set());
}

/// What one removal leaves of a row in which nobody stands twice.
proof fn lemma_remove_one(row: Seq<PlayerEntry>, i: int)
    requires
        row.no_duplicates(),
        0 <= i < row.len(),
    ensures
        row.remove(i).no_duplicates(),
        forall|e: PlayerEntry| #[trigger]
            row.remove(i).contains(e) <==> row.contains(e) && e != row[i],
{
    let rest = row.remove(i);
    assert forall|e: PlayerEntry| row.contains(e) && e != row[i] implies #[trigger] rest.contains(
        e,
    ) by {
        let j = choose|j: int| 0 <= j < row.len() && row[j] == e;
        assert(rest[if j < i { j } else { j - 1 }] == e);
    }
    assert forall|e: PlayerEntry| #[trigger] rest.contains(e) implies row.contains(e) && e != row[i] by {
        let j = choose|j: int| 0 <= j < rest.len() && rest[j] == e;
        assert(row[if j < i { j } else { j + 1 }] == e);
    }
}

/// Where a player stands in a row.
fn find(row: &Vec<PlayerEntry>, entry: &PlayerEntry) -> (found: Option<usize>)
    ensures
        match found {
            Some(i) => i < row@.len() && row@[i as int] == *entry,
            None => !row@.contains(*entry),
        },
{
    for i in 0..row.len()
        invariant
            forall|j: int| 0 <= j < i ==> row@[j] != *entry,
    {
        if row[i] == *entry {
            return Some(i);
        }
    }
    None
}

} // verus!

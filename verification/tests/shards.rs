use matchmaker::oldest::OldestHeap;
use matchmaker::player::PlayerEntry;
use matchmaker::rating::OrdF64;
use matchmaker::regions::RegionTable;
use matchmaker::shard::{bucket_key, shard_index, BucketKey, Shard};
use std::collections::hash_map::DefaultHasher;
use std::hash::{Hash, Hasher};

fn entry(ticket: u64, id: u64, rating: f64, region: usize, join_timestamp: u64) -> PlayerEntry {
    PlayerEntry { ticket, id, skill_rating: OrdF64 { bits: rating.to_bits() }, region, join_timestamp }
}

#[test]
fn shards_go_by_the_hash_of_bracket_and_region() {
    for region in ["", "eu", "us-east", "Österreich", "日本", "a\u{0}b"] {
        for bracket in [0u32, 1, 7, 15, 4_294_967_295] {
            let mut hasher = DefaultHasher::new();
            bracket.hash(&mut hasher);
            region.hash(&mut hasher);
            let wanted = (hasher.finish() as usize) % 8;
            assert_eq!(shard_index(bracket, region), wanted, "{bracket} {region}");
            assert!(shard_index(bracket, region) < 8);
        }
    }
}

#[test]
fn a_bucket_is_a_bracket_of_a_region() {
    assert_eq!(bucket_key(&entry(0, 1, 1500.0, 3, 0)), BucketKey { bracket: 7, region: 3 });
}

#[test]
fn a_shard_gives_back_what_it_got() {
    let mut shard = Shard::new();
    let a = entry(0, 1, 1500.0, 0, 5);
    let b = entry(1, 2, 1500.0, 0, 6);
    let c = entry(2, 3, 1550.0, 1, 7);
    shard.insert(a);
    shard.insert(b);
    shard.insert(c);
    assert!(shard.contains(&a) && shard.contains(&b) && shard.contains(&c));
    assert!(shard.remove(&b));
    assert!(!shard.contains(&b));
    assert!(!shard.remove(&b));
    assert!(shard.contains(&a) && shard.contains(&c));
    assert!(!shard.contains(&entry(9, 1, 1500.0, 0, 5)));
}

#[test]
fn the_median_of_a_bucket_is_the_upper_middle() {
    let mut shard = Shard::new();
    let key = BucketKey { bracket: 7, region: 0 };
    assert_eq!(shard.bucket_median_rating(key), None);
    let ratings = [1580.0f64, 1410.0, 1500.0, 1500.0, 1450.0];
    let mut seen: Vec<f64> = Vec::new();
    for (i, rating) in ratings.into_iter().enumerate() {
        shard.insert(entry(i as u64, i as u64, rating, 0, 0));
        seen.push(rating);
        seen.sort_by(|a, b| a.total_cmp(b));
        let median = shard.bucket_median_rating(key).unwrap();
        assert_eq!(f64::from_bits(median.bits), seen[seen.len() / 2]);
    }
    shard.insert(entry(50, 50, 1420.0, 1, 0));
    assert_eq!(f64::from_bits(shard.bucket_median_rating(key).unwrap().bits), 1500.0);
}

#[test]
fn the_heap_gives_the_oldest_first() {
    let mut heap = OldestHeap::new();
    assert_eq!(heap.peek(), None);
    assert_eq!(heap.pop(), None);
    let mut entries = Vec::new();
    for i in 0..200u64 {
        let e = entry(i, i * 7 % 200, 100.0, 0, i * i % 37);
        entries.push(e);
        heap.push(e);
    }
    entries.sort_by_key(|e| (e.join_timestamp, e.id));
    for e in entries {
        assert_eq!(heap.peek(), Some(e));
        assert_eq!(heap.pop(), Some(e));
    }
    assert_eq!(heap.pop(), None);
}

#[test]
fn regions_are_numbered_as_they_appear() {
    let mut table = RegionTable::new();
    assert_eq!(table.find("eu"), None);
    assert_eq!(table.add("eu"), 0);
    assert_eq!(table.add("us"), 1);
    assert_eq!(table.find("us"), Some(1));
    assert_eq!(table.name(0), "eu");
    assert_eq!(table.len(), 2);
    assert_eq!(table.snapshot(), vec!["eu".to_string(), "us".to_string()]);
}

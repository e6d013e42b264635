use hash_rings::consistent;
use hash_rings::hashing::HashBuilder;
use hash_rings::jump;
use hash_rings::maglev;
use hash_rings::mpc;
use hash_rings::rendezvous;
use hash_rings::RingError;
use std::collections::HashMap;

fn builder() -> HashBuilder {
    HashBuilder::with_keys(0x0123_4567_89ab_cdef, 0xfedc_ba98_7654_3210)
}

// Pseudo-random points from a fixed xorshift sequence, so that every run sees the same keys.
fn points(count: usize, seed: u64) -> Vec<u64> {
    let mut x = seed | 1;
    let mut out = Vec::with_capacity(count);
    for _ in 0..count {
        x ^= x << 13;
        x ^= x >> 7;
        x ^= x << 17;
        out.push(x);
    }
    out
}

#[test]
fn hash_builder_keys_matter() {
    let a = HashBuilder::with_keys(1, 2);
    let b = HashBuilder::with_keys(3, 4);
    assert_ne!(a.gen_hash(42), 42);
    assert_ne!(a.gen_hash(42), b.gen_hash(42));
    assert_eq!(a.gen_hash(42), HashBuilder::with_keys(1, 2).gen_hash(42));
}

#[test]
fn combine_hash_is_order_sensitive() {
    let b = builder();
    assert_ne!(b.combine_hash(1, 2), b.combine_hash(2, 1));
    assert_ne!(b.combine_hash(1, 2), 1);
    assert_ne!(b.combine_hash(1, 2), 2);
}

#[test]
fn consistent_empty_ring_fails() {
    let ring = consistent::Ring::new();
    assert!(ring.is_empty());
    assert_eq!(ring.len(), 0);
    assert_eq!(ring.get_node(&7u64), Err(RingError::EmptyRing));
}

#[test]
fn consistent_basic_distribution() {
    let mut ring = consistent::Ring::with_hasher(builder());
    let (a, b, c) = (1u64, 2u64, 3u64);
    ring.insert_node(a, 10);
    ring.insert_node(b, 10);
    ring.insert_node(c, 10);
    assert_eq!(ring.len(), 3);
    let mut counts: HashMap<u64, usize> = HashMap::new();
    for key in 0u64..1000u64 {
        let id = ring.get_node(&key).unwrap();
        assert!(id == a || id == b || id == c);
        *counts.entry(id).or_insert(0) += 1;
    }
    for id in [a, b, c] {
        let n = *counts.get(&id).unwrap_or(&0) as f64;
        assert!((n - 1000.0 / 3.0).abs() <= 0.2 * 1000.0 / 3.0, "node {} got {}", id, n);
    }
}

#[test]
fn consistent_len_invariants() {
    let mut ring = consistent::Ring::with_hasher(builder());
    ring.insert_node(1, 3);
    assert_eq!(ring.len(), 1);
    ring.insert_node(1, 5);
    assert_eq!(ring.len(), 1);
    ring.insert_node(2, 3);
    assert_eq!(ring.len(), 2);
    ring.remove_node(&9);
    assert_eq!(ring.len(), 2);
    ring.remove_node(&1);
    assert_eq!(ring.len(), 1);
    for key in 0u64..100 {
        assert_eq!(ring.get_node(&key), Ok(2));
    }
    ring.remove_node(&2);
    assert!(ring.is_empty());
    assert_eq!(ring.get_node(&0u64), Err(RingError::EmptyRing));
}

#[test]
fn consistent_zero_replicas_hold_no_position() {
    let mut ring = consistent::Ring::with_hasher(builder());
    ring.insert_node(1, 0);
    assert_eq!(ring.len(), 1);
    assert_eq!(ring.get_node(&5u64), Err(RingError::EmptyRing));
}

#[test]
fn consistent_insert_moves_points_only_to_new_node() {
    let mut ring = consistent::Ring::with_hasher(builder());
    for id in 1u64..=4 {
        ring.insert_node(id, 100);
    }
    let keys = points(10_000, 99);
    let before: Vec<u64> = keys.iter().map(|k| ring.get_node(k).unwrap()).collect();
    ring.insert_node(5, 100);
    let mut moved = 0usize;
    for (k, old) in keys.iter().zip(before.iter()) {
        let now = ring.get_node(k).unwrap();
        if now != *old {
            assert_eq!(now, 5);
            moved += 1;
        }
    }
    let fraction = moved as f64 / keys.len() as f64;
    assert!((fraction - 1.0 / 5.0).abs() <= 0.05, "moved fraction {}", fraction);
}

#[test]
fn consistent_insert_remove_round_trip() {
    let mut ring = consistent::Ring::with_hasher(builder());
    ring.insert_node(1, 20);
    ring.insert_node(2, 20);
    let keys = points(2_000, 7);
    let before: Vec<_> = keys.iter().map(|k| ring.get_node(k)).collect();
    ring.insert_node(3, 20);
    ring.remove_node(&3);
    let after: Vec<_> = keys.iter().map(|k| ring.get_node(k)).collect();
    assert_eq!(before, after);
    assert_eq!(ring.len(), 2);
}

#[test]
fn consistent_same_builder_same_answers() {
    let mut r1 = consistent::Ring::with_hasher(builder());
    let mut r2 = consistent::Ring::with_hasher(builder());
    for id in [10u64, 20, 30] {
        r1.insert_node(id, 5);
        r2.insert_node(id, 5);
    }
    for key in 0u64..500 {
        assert_eq!(r1.get_node(&key), r2.get_node(&key));
        assert_eq!(r1.get_node(&key), r1.get_node(&key));
    }
}

#[test]
fn jump_hash_known_values() {
    assert_eq!(jump::jump_hash(0, 1), 0);
    assert_eq!(jump::jump_hash(u64::MAX, 1), 0);
    // Hash 0 steps the generator to 1, whose first jump goes to bucket 2^31.
    assert_eq!(jump::jump_hash(0, 10), 0);
    assert_eq!(jump::jump_hash(1, 2), 0);
    for n in 1u32..50 {
        assert!(jump::jump_hash(123_456_789, n) < n);
    }
}

#[test]
fn jump_determinism() {
    let r1 = jump::Ring::with_hasher(builder(), 10);
    let r2 = jump::Ring::with_hasher(builder(), 10);
    let a = r1.get_node(&42u64);
    let b = r2.get_node(&42u64);
    assert_eq!(a, b);
    assert!(a < 10);
    assert_eq!(r1.nodes(), 10);
}

#[test]
fn jump_range() {
    let ring = jump::Ring::new(7);
    for key in points(5_000, 3) {
        assert!(ring.get_node(&key) < 7);
    }
}

#[test]
fn jump_growth_moves_keys_only_to_new_bucket() {
    let n = 9u32;
    let small = jump::Ring::with_hasher(builder(), n);
    let big = jump::Ring::with_hasher(builder(), n + 1);
    let keys = points(10_000, 11);
    let mut moved = 0usize;
    for k in &keys {
        let a = small.get_node(k);
        let b = big.get_node(k);
        if a != b {
            assert_eq!(b, n);
            moved += 1;
        }
    }
    let fraction = moved as f64 / keys.len() as f64;
    assert!((fraction - 1.0 / (n as f64 + 1.0)).abs() <= 0.05, "moved fraction {}", fraction);
}

#[test]
fn maglev_prime_capacity() {
    let ring = maglev::Ring::with_capacity_hint(vec![1, 2, 3], 100);
    assert_eq!(ring.capacity(), 101);
    assert_eq!(ring.nodes(), 3);
    for key in points(1_000, 5) {
        let id = ring.get_node(&key);
        assert!(id == 1 || id == 2 || id == 3);
    }
}

#[test]
fn maglev_default_capacity_and_small_hints() {
    let ring = maglev::Ring::new(vec![4, 5]);
    assert_eq!(ring.capacity(), 211);
    assert_eq!(maglev::Ring::with_capacity_hint(vec![1], 0).capacity(), 2);
    assert_eq!(maglev::Ring::with_capacity_hint(vec![1], 1).capacity(), 2);
    assert_eq!(maglev::Ring::with_capacity_hint(vec![1], 14).capacity(), 17);
}

#[test]
fn maglev_populate_covers_every_node() {
    // Three nodes in a table of seven slots: turns go 0, 1, 2, 0, 1, 2, 0.
    let offsets = vec![0usize, 0, 3];
    let skips = vec![1usize, 2, 1];
    let table = maglev::populate(&offsets, &skips, 7);
    assert_eq!(table, vec![0, 0, 1, 2, 1, 2, 0]);
}

#[test]
fn maglev_every_node_gets_keys() {
    let nodes: Vec<u64> = (100u64..110).collect();
    let ring = maglev::Ring::with_hashers(nodes.clone(), 1_000, builder(), HashBuilder::with_keys(5, 6));
    assert_eq!(ring.capacity(), 1_009);
    let mut seen: HashMap<u64, usize> = HashMap::new();
    for key in points(20_000, 17) {
        *seen.entry(ring.get_node(&key)).or_insert(0) += 1;
    }
    for id in nodes {
        assert!(seen.contains_key(&id), "node {} got no key", id);
    }
}

#[test]
fn mpc_tie_break_prefers_lower_position() {
    let b = builder();
    let mut ring = mpc::Ring::with_probe_hashers(b, HashBuilder::with_keys(1, 1), HashBuilder::with_keys(2, 2), 2);
    ring.insert_node(1);
    ring.insert_node(2);
    let (p1, p2) = (b.gen_hash(1), b.gen_hash(2));
    let (low, high, low_id) = if p1 < p2 { (p1, p2, 1u64) } else { (p2, p1, 2u64) };
    assert!(low >= 10);
    // Probe 0 lands 10 before the lower position, probe 1 lands 10 before the higher one.
    let h0 = low - 10;
    let h1 = high - low;
    assert_eq!(ring.get_node_for_hashes(h0, h1), Ok(low_id));
}

#[test]
fn mpc_twenty_one_probes() {
    let mut ring = mpc::Ring::with_hasher(builder(), 21);
    assert!(ring.is_empty());
    assert_eq!(ring.get_node(&3u64), Err(RingError::EmptyRing));
    ring.insert_node(1);
    ring.insert_node(2);
    assert_eq!(ring.len(), 2);
    for key in 0u64..200 {
        let id = ring.get_node(&key).unwrap();
        assert!(id == 1 || id == 2);
    }
    ring.remove_node(&1);
    assert_eq!(ring.len(), 1);
    for key in 0u64..200 {
        assert_eq!(ring.get_node(&key), Ok(2));
    }
}

#[test]
fn mpc_distance_wraps() {
    let b = builder();
    let mut ring = mpc::Ring::with_probe_hashers(b, HashBuilder::with_keys(1, 1), HashBuilder::with_keys(2, 2), 1);
    ring.insert_node(8);
    // A single position: every probe reaches it, wrapping around if need be.
    assert_eq!(ring.get_node_for_hashes(u64::MAX, 0), Ok(8));
    assert_eq!(ring.get_node_for_hashes(0, 0), Ok(8));
}

#[test]
fn mpc_insert_moves_points_only_to_new_node() {
    let mut ring = mpc::Ring::with_probe_hashers(builder(), HashBuilder::with_keys(3, 4), HashBuilder::with_keys(5, 6), 21);
    for id in 1u64..=4 {
        ring.insert_node(id);
    }
    let keys = points(10_000, 23);
    let before: Vec<u64> = keys.iter().map(|k| ring.get_node(k).unwrap()).collect();
    ring.insert_node(5);
    let mut moved = 0usize;
    for (k, old) in keys.iter().zip(before.iter()) {
        let now = ring.get_node(k).unwrap();
        if now != *old {
            assert_eq!(now, 5);
            moved += 1;
        }
    }
    let fraction = moved as f64 / keys.len() as f64;
    assert!((fraction - 0.2).abs() <= 0.05, "moved fraction {}", fraction);
}

#[test]
fn rendezvous_basic() {
    let mut ring = rendezvous::Ring::with_hasher(builder());
    assert!(ring.is_empty());
    assert_eq!(ring.get_node(&1u64), Err(RingError::EmptyRing));
    ring.insert_node(1, 1);
    ring.insert_node(2, 1);
    ring.insert_node(3, 1);
    assert_eq!(ring.len(), 3);
    ring.insert_node(3, 2);
    assert_eq!(ring.len(), 3);
    let mut counts: HashMap<u64, usize> = HashMap::new();
    for key in points(3_000, 31) {
        let id = ring.get_node(&key).unwrap();
        *counts.entry(id).or_insert(0) += 1;
    }
    assert_eq!(counts.len(), 3);
    ring.remove_node(&2);
    ring.remove_node(&2);
    assert_eq!(ring.len(), 2);
    for key in points(500, 37) {
        let id = ring.get_node(&key).unwrap();
        assert!(id == 1 || id == 3);
    }
}

#[test]
fn rendezvous_insert_moves_points_only_to_new_node() {
    let mut ring = rendezvous::Ring::with_hasher(builder());
    for id in 1u64..=4 {
        ring.insert_node(id, 1);
    }
    let keys = points(10_000, 41);
    let before: Vec<u64> = keys.iter().map(|k| ring.get_node(k).unwrap()).collect();
    ring.insert_node(5, 1);
    let mut moved = 0usize;
    for (k, old) in keys.iter().zip(before.iter()) {
        let now = ring.get_node(k).unwrap();
        if now != *old {
            assert_eq!(now, 5);
            moved += 1;
        }
    }
    let fraction = moved as f64 / keys.len() as f64;
    assert!((fraction - 0.2).abs() <= 0.05, "moved fraction {}", fraction);
    ring.remove_node(&5);
    let after: Vec<u64> = keys.iter().map(|k| ring.get_node(k).unwrap()).collect();
    assert_eq!(before, after);
}

#[test]
fn default_rings_start_empty() {
    let ring = consistent::Ring::default();
    assert!(ring.is_empty());
    let ring = rendezvous::Ring::default();
    assert!(ring.is_empty());
    assert_eq!(ring.get_node(&0u64), Err(RingError::EmptyRing));
}

#[test]
fn mpc_remove_absent_id_changes_nothing() {
    let mut ring = mpc::Ring::with_probe_hashers(builder(), HashBuilder::with_keys(7, 8), HashBuilder::with_keys(9, 10), 3);
    ring.insert_node(1);
    ring.insert_node(2);
    let keys = points(500, 43);
    let before: Vec<_> = keys.iter().map(|k| ring.get_node(k)).collect();
    ring.remove_node(&3);
    assert_eq!(ring.len(), 2);
    let after: Vec<_> = keys.iter().map(|k| ring.get_node(k)).collect();
    assert_eq!(before, after);
    ring.remove_node(&2);
    ring.remove_node(&2);
    assert_eq!(ring.len(), 1);
}

#[test]
fn rendezvous_nodes_without_replicas_take_no_part() {
    let mut ring = rendezvous::Ring::with_hasher(builder());
    ring.insert_node(1, 0);
    assert_eq!(ring.len(), 1);
    assert_eq!(ring.get_node(&9u64), Err(RingError::EmptyRing));
    ring.insert_node(2, 3);
    ring.insert_node(3, 0);
    assert_eq!(ring.len(), 3);
    for key in points(300, 47) {
        assert_eq!(ring.get_node(&key), Ok(2));
    }
    ring.insert_node(2, 0);
    assert_eq!(ring.len(), 3);
    assert_eq!(ring.get_node(&9u64), Err(RingError::EmptyRing));
}

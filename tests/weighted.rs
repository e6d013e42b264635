use hash_rings::carp;
use hash_rings::hashing::HashBuilder;
use hash_rings::weighted_rendezvous;
use hash_rings::RingError;

fn builder() -> HashBuilder {
    HashBuilder::with_keys(0x0bad_cafe, 0xdead_beef)
}

fn bits(w: f64) -> u64 {
    w.to_bits()
}

#[test]
fn weight_bits_keep_weight_order() {
    let ws = [0.001f64, 0.5, 1.0, 1.5, 3.0, 1e9];
    for pair in ws.windows(2) {
        assert!(bits(pair[0]) < bits(pair[1]));
    }
}

#[test]
fn carp_orders_by_weight_then_id() {
    let nodes = vec![
        carp::Node::new(7, bits(3.0)),
        carp::Node::new(2, bits(1.0)),
        carp::Node::new(5, bits(1.0)),
        carp::Node::new(1, bits(2.0)),
    ];
    let ring = carp::Ring::with_hasher(builder(), nodes);
    assert_eq!(ring.len(), 4);
    assert_eq!(ring.node_ids(), vec![2, 5, 1, 7]);
    assert_eq!(ring.weights(), vec![bits(1.0), bits(1.0), bits(2.0), bits(3.0)]);
}

#[test]
fn carp_last_duplicate_wins() {
    let nodes = vec![
        carp::Node::new(1, bits(5.0)),
        carp::Node::new(2, bits(2.0)),
        carp::Node::new(1, bits(1.0)),
    ];
    let ring = carp::Ring::with_hasher(builder(), nodes);
    assert_eq!(ring.len(), 2);
    assert_eq!(ring.node_ids(), vec![1, 2]);
    assert_eq!(ring.weights(), vec![bits(1.0), bits(2.0)]);
}

#[test]
fn carp_insert_replaces_and_remove_keeps_order() {
    let mut ring = carp::Ring::with_hasher(builder(), Vec::new());
    assert!(ring.is_empty());
    assert_eq!(ring.get_node_for_scores(&Vec::new()), Err(RingError::EmptyRing));
    ring.insert_node(carp::Node::new(1, bits(1.0)));
    ring.insert_node(carp::Node::new(2, bits(3.0)));
    ring.insert_node(carp::Node::new(3, bits(2.0)));
    assert_eq!(ring.node_ids(), vec![1, 3, 2]);
    ring.insert_node(carp::Node::new(1, bits(4.0)));
    assert_eq!(ring.len(), 3);
    assert_eq!(ring.node_ids(), vec![3, 2, 1]);
    ring.remove_node(&2);
    ring.remove_node(&42);
    assert_eq!(ring.node_ids(), vec![3, 1]);
    assert_eq!(ring.len(), 2);
}

#[test]
fn carp_point_hashes_combine_node_and_point() {
    let b = builder();
    let ring = carp::Ring::with_hasher(b, vec![carp::Node::new(9, bits(1.0)), carp::Node::new(4, bits(2.0))]);
    let hashes = ring.point_hashes(&77);
    assert_eq!(hashes.len(), 2);
    assert_eq!(hashes[0], b.combine_hash(b.gen_hash(9), b.gen_hash(77)));
    assert_eq!(hashes[1], b.combine_hash(b.gen_hash(4), b.gen_hash(77)));
    assert_ne!(hashes[0], b.gen_hash(9));
}

#[test]
fn carp_highest_score_wins_ties_to_greater_id() {
    let ring = carp::Ring::with_hasher(
        builder(),
        vec![carp::Node::new(1, bits(1.0)), carp::Node::new(2, bits(2.0)), carp::Node::new(3, bits(3.0))],
    );
    assert_eq!(ring.get_node_for_scores(&vec![10, 30, 20]), Ok(2));
    assert_eq!(ring.get_node_for_scores(&vec![30, 30, 20]), Ok(2));
    assert_eq!(ring.get_node_for_scores(&vec![30, 10, 30]), Ok(3));
}

#[test]
fn pick_highest_examples() {
    assert_eq!(carp::pick_highest(&vec![], &vec![]), None);
    assert_eq!(carp::pick_highest(&vec![5], &vec![8]), Some(8));
    assert_eq!(carp::pick_highest(&vec![1, 9, 9, 3], &vec![4, 2, 6, 5]), Some(6));
}

#[test]
fn weighted_rendezvous_nodes() {
    let b = builder();
    let mut ring = weighted_rendezvous::Ring::with_hasher(b);
    assert!(ring.is_empty());
    assert_eq!(ring.get_node_for_scores(&Vec::new()), Err(RingError::EmptyRing));
    ring.insert_node(1, bits(3.0));
    ring.insert_node(2, bits(1.0));
    assert_eq!(ring.len(), 2);
    ring.insert_node(1, bits(2.0));
    assert_eq!(ring.len(), 2);
    assert_eq!(ring.weights(), vec![bits(2.0), bits(1.0)]);
    let hashes = ring.point_hashes(&5);
    assert_eq!(hashes, vec![b.combine_hash(b.gen_hash(1), b.gen_hash(5)), b.combine_hash(b.gen_hash(2), b.gen_hash(5))]);
    assert_eq!(ring.get_node_for_scores(&vec![4, 4]), Ok(2));
    assert_eq!(ring.get_node_for_scores(&vec![5, 4]), Ok(1));
    ring.remove_node(&1);
    ring.remove_node(&1);
    assert_eq!(ring.len(), 1);
    assert_eq!(ring.weights(), vec![bits(1.0)]);
}

// Scores as the weighted rendezvous scheme draws them, for a statistical check of the choice.
fn weighted_scores(ring: &weighted_rendezvous::Ring, point: u64) -> Vec<u64> {
    let weights = ring.weights();
    ring.point_hashes(&point)
        .iter()
        .zip(weights.iter())
        .map(|(h, w)| {
            let u = if *h == 0 { f64::MIN_POSITIVE } else { *h as f64 / u64::MAX as f64 };
            (-f64::from_bits(*w) / u.ln()).to_bits()
        })
        .collect()
}

#[test]
fn weighted_rendezvous_proportional_choice() {
    let mut ring = weighted_rendezvous::Ring::with_hasher(builder());
    ring.insert_node(1, bits(3.0));
    ring.insert_node(2, bits(1.0));
    let (mut a, mut b) = (0u32, 0u32);
    for point in 0u64..100_000 {
        match ring.get_node_for_scores(&weighted_scores(&ring, point)) {
            Ok(1) => a += 1,
            Ok(2) => b += 1,
            other => panic!("unexpected {:?}", other),
        }
    }
    let ratio = a as f64 / b as f64;
    assert!((ratio - 3.0).abs() <= 0.15 * 3.0, "ratio {}", ratio);
}

// Relative weights by CARP's load-factor formula, for weights in increasing order.
fn relative_weights(weights: &[f64]) -> Vec<f64> {
    let len = weights.len() as f64;
    let mut rel: Vec<f64> = Vec::new();
    let mut product = 1f64;
    for i in 0..weights.len() {
        let index = i as f64;
        let res = if i == 0 {
            (len * weights[0]).powf(1.0 / len)
        } else {
            let r = (len - index) * (weights[i] - weights[i - 1]) / product + rel[i - 1].powf(len - index);
            r.powf(1.0 / (len - index))
        };
        product *= res;
        rel.push(res);
    }
    let max = *rel.last().unwrap();
    rel.iter().map(|r| r / max).collect()
}

#[test]
fn carp_weights_scenario() {
    let (x, y) = (1u64, 2u64);
    let ring = carp::Ring::with_hasher(builder(), vec![carp::Node::new(x, bits(1.0)), carp::Node::new(y, bits(3.0))]);
    let weights: Vec<f64> = ring.weights().into_iter().map(f64::from_bits).collect();
    let rel = relative_weights(&weights);
    assert!((rel[0] - 0.5).abs() < 1e-12 && (rel[1] - 1.0).abs() < 1e-12);
    let (mut cx, mut cy) = (0u32, 0u32);
    let mut state = 0x9e37_79b9_7f4a_7c15u64;
    for _ in 0..10_000 {
        state ^= state << 13;
        state ^= state >> 7;
        state ^= state << 17;
        let scores: Vec<u64> = ring
            .point_hashes(&state)
            .iter()
            .zip(rel.iter())
            .map(|(h, r)| (*h as f64 * r).to_bits())
            .collect();
        match ring.get_node_for_scores(&scores) {
            Ok(id) if id == x => cx += 1,
            Ok(id) if id == y => cy += 1,
            other => panic!("unexpected {:?}", other),
        }
    }
    let ratio = cy as f64 / cx as f64;
    assert!((2.7..=3.3).contains(&ratio), "ratio {}", ratio);
}

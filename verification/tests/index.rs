use little_annoy::{Angular, Annoy, AnnoyError, Euclidean, Hamming, Manhattan};

#[test]
fn exact_recovery_in_two_dimensions() {
    let mut ann: Annoy<Euclidean> = Annoy::new(2).unwrap();
    ann.add_item(0, &[1, 1]).unwrap();
    ann.add_item(1, &[5, 5]).unwrap();
    ann.add_item(2, &[2, 2]).unwrap();
    ann.add_item(3, &[4, 4]).unwrap();
    ann.build(1000).unwrap();
    let (ids, dists) = ann.get_nns_by_vector(&[1, 1], 4, -1).unwrap();
    assert_eq!(ids, vec![0, 2, 3, 1]);
    assert_eq!(dists, vec![0, 2, 18, 32]);
    let shown: Vec<f64> = dists.iter().map(|d| (*d as f64).max(0.0).sqrt()).collect();
    assert_eq!(shown, vec![0.0, 2f64.sqrt(), 18f64.sqrt(), 32f64.sqrt()]);
}

#[test]
fn duplicate_items_come_first() {
    let mut ann: Annoy<Euclidean> = Annoy::new(4).unwrap();
    for i in 0..4 {
        ann.add_item(i, &[1, 1, 1, 1]).unwrap();
    }
    ann.add_item(4, &[0, 0, 0, 0]).unwrap();
    ann.build(10).unwrap();
    let (ids, dists) = ann.get_nns_by_vector(&[1, 1, 1, 1], 3, -1).unwrap();
    assert_eq!(ids.len(), 3);
    assert!(ids.iter().all(|i| (0..4).contains(i)));
    assert_eq!(dists, vec![0, 0, 0]);
}

#[test]
fn hamming_finds_the_equal_word_first() {
    let mut ann: Annoy<Hamming> = Annoy::new(3).unwrap();
    ann.add_item(0, &[0, 1, 1]).unwrap();
    ann.add_item(1, &[1, 0, 1]).unwrap();
    ann.add_item(2, &[0, 0, 1]).unwrap();
    ann.build(100).unwrap();
    let (ids, dists) = ann.get_nns_by_vector(&[1, 0, 1], 3, -1).unwrap();
    assert_eq!(ids.len(), 3);
    assert_eq!(ids[0], 1);
    assert_eq!(dists[0], 0);
    assert!(dists[1] == 1 || dists[1] == 2);
    assert!(dists[2] == 1 || dists[2] == 2);
}

#[test]
fn angular_degenerate_vectors_have_a_distance() {
    let mut ann: Annoy<Angular> = Annoy::new(2).unwrap();
    ann.add_item(0, &[1, 0]).unwrap();
    ann.add_item(1, &[0, 0]).unwrap();
    ann.build(3).unwrap();
    let (ids, dists) = ann.get_nns_by_vector(&[0, 0], 2, -1).unwrap();
    assert_eq!(ids, vec![0, 1]);
    assert_eq!(dists, vec![2 * 65536, 2 * 65536]);
    assert!(dists.iter().all(|d| ((*d as f64) / 65536.0).sqrt().is_finite()));
}

fn grid() -> Annoy<Euclidean> {
    let mut ann: Annoy<Euclidean> = Annoy::new(2).unwrap();
    ann.set_seed(7);
    for i in 0..100 {
        ann.add_item(i, &[(i % 10) as i32 * 3, (i / 10) as i32 * 3]).unwrap();
    }
    ann.build(10).unwrap();
    ann
}

#[test]
fn search_budget_bounds_the_answer() {
    let ann = grid();
    let (ids, dists) = ann.get_nns_by_vector(&[0, 0], 5, 10).unwrap();
    assert!(ids.len() <= 5);
    assert_eq!(ids.len(), dists.len());
    let nearest = [0, 1, 10, 11, 2, 20];
    assert!(ids.iter().any(|i| nearest.contains(i)));
}

#[test]
fn answers_are_ranked_distinct_and_in_range() {
    let ann = grid();
    for q in [[0, 0], [13, 4], [27, 27], [-5, 40]] {
        let (ids, dists) = ann.get_nns_by_vector(&q, 20, -1).unwrap();
        assert!(ids.len() <= 20);
        for w in 1..ids.len() {
            assert!(dists[w - 1] <= dists[w]);
            assert!(dists[w - 1] < dists[w] || ids[w - 1] < ids[w]);
        }
        for (w, i) in ids.iter().enumerate() {
            assert!(0 <= *i && *i < 100);
            assert!(!ids[..w].contains(i));
            assert_eq!(ann.get_distance(*i, *i).unwrap(), 0);
        }
    }
}

#[test]
fn seeded_builds_agree() {
    let a = grid();
    let b = grid();
    for q in [[0, 0], [13, 4], [27, 27]] {
        assert_eq!(
            a.get_nns_by_vector(&q, 7, 30).unwrap(),
            b.get_nns_by_vector(&q, 7, 30).unwrap()
        );
    }
}

#[test]
fn full_budget_finds_the_true_neighbours() {
    let ann = grid();
    let (ids, dists) = ann.get_nns_by_vector(&[0, 0], 3, 100_000).unwrap();
    assert_eq!(ids, vec![0, 1, 10]);
    assert_eq!(dists, vec![0, 9, 9]);
}

#[test]
fn manhattan_index_ranks_by_the_sum_of_gaps() {
    let mut ann: Annoy<Manhattan> = Annoy::new(2).unwrap();
    ann.add_item(0, &[0, 0]).unwrap();
    ann.add_item(1, &[3, 0]).unwrap();
    ann.add_item(2, &[2, 2]).unwrap();
    ann.build(4).unwrap();
    let (ids, dists) = ann.get_nns_by_vector(&[0, 0], 3, -1).unwrap();
    assert_eq!(ids, vec![0, 1, 2]);
    assert_eq!(dists, vec![0, 3, 4]);
}

#[test]
fn neighbours_by_item_use_its_vector() {
    let ann = grid();
    let by_item = ann.get_nns_by_item(55, 4, 200).unwrap();
    let by_vector = ann.get_nns_by_vector(&[15, 15], 4, 200).unwrap();
    assert_eq!(by_item, by_vector);
    assert_eq!(by_item.0[0], 55);
}

#[test]
fn sparse_ids_are_served() {
    let mut ann: Annoy<Euclidean> = Annoy::new(1).unwrap();
    ann.add_item(9, &[4]).unwrap();
    ann.build(2).unwrap();
    assert_eq!(ann.get_nns_by_vector(&[0], 3, -1).unwrap(), (vec![9], vec![16]));

    let mut ann: Annoy<Euclidean> = Annoy::new(1).unwrap();
    ann.add_item(0, &[4]).unwrap();
    ann.add_item(10, &[1]).unwrap();
    ann.build(2).unwrap();
    assert_eq!(ann.get_nns_by_vector(&[0], 3, -1).unwrap(), (vec![10, 0], vec![1, 16]));
}

#[test]
fn replacing_an_item_keeps_the_last_vector() {
    let mut ann: Annoy<Euclidean> = Annoy::new(1).unwrap();
    ann.add_item(0, &[4]).unwrap();
    ann.add_item(0, &[1]).unwrap();
    ann.build(1).unwrap();
    assert_eq!(ann.get_nns_by_vector(&[0], 3, -1).unwrap(), (vec![0], vec![1]));
}

#[test]
fn build_until_the_arena_is_twice_the_items() {
    let mut ann: Annoy<Euclidean> = Annoy::new(2).unwrap();
    for i in 0..40 {
        ann.add_item(i, &[i as i32, -(i as i32)]).unwrap();
    }
    ann.build(-1).unwrap();
    let (ids, _) = ann.get_nns_by_vector(&[0, 0], 1, 1000).unwrap();
    assert_eq!(ids, vec![0]);
}

#[test]
fn every_refusal_is_reported() {
    assert_eq!(Annoy::<Euclidean>::new(0).err(), Some(AnnoyError::InvalidDimension));
    let mut ann: Annoy<Euclidean> = Annoy::new(2).unwrap();
    assert_eq!(ann.build(3), Err(AnnoyError::EmptyIndex));
    assert_eq!(ann.get_nns_by_vector(&[0, 0], 1, -1), Err(AnnoyError::EmptyIndex));
    assert_eq!(ann.add_item(-1, &[0, 0]), Err(AnnoyError::InvalidId));
    assert_eq!(ann.add_item(i64::MAX, &[0, 0]), Err(AnnoyError::InvalidId));
    assert_eq!(ann.add_item(0, &[0, 0, 0]), Err(AnnoyError::ShapeMismatch));
    assert_eq!(ann.add_item(0, &[i32::MIN, i32::MAX]), Ok(()));
    assert_eq!(ann.add_item(0, &[1, 2]), Ok(()));
    assert_eq!(ann.get_nns_by_vector(&[0, 0], 1, -1), Err(AnnoyError::NotBuilt));
    assert_eq!(ann.build(-2), Err(AnnoyError::InvalidTreeCount));
    assert_eq!(ann.build(i64::MAX), Err(AnnoyError::CapacityExceeded));
    assert_eq!(ann.build(2), Ok(()));
    assert_eq!(ann.build(2), Err(AnnoyError::AlreadyBuilt));
    assert_eq!(ann.add_item(1, &[1, 2]), Err(AnnoyError::AlreadyBuilt));
    assert_eq!(ann.get_nns_by_vector(&[0], 1, -1), Err(AnnoyError::ShapeMismatch));
    assert_eq!(ann.get_nns_by_vector(&[0, i32::MIN], 1, -1).unwrap().1, vec![(1i128 << 62) + (1i128 << 33) + 5]);
    let mut narrow: Annoy<Angular> = Annoy::new(2).unwrap();
    assert_eq!(narrow.add_item(0, &[0, 0x8000]), Err(AnnoyError::OutOfRange));
    assert_eq!(narrow.add_item(0, &[0, 0x7fff]), Ok(()));
    narrow.build(1).unwrap();
    assert_eq!(narrow.get_nns_by_vector(&[-0x8000, 0], 1, -1), Err(AnnoyError::OutOfRange));
    assert_eq!(ann.get_nns_by_vector(&[0, 0], 1, -2), Err(AnnoyError::InvalidSearchBudget));
    assert_eq!(ann.get_nns_by_item(1, 1, -1), Err(AnnoyError::UnknownItem));
    assert_eq!(ann.get_distance(0, 1), Err(AnnoyError::UnknownItem));
    assert_eq!(ann.get_distance(0, 0), Ok(0));
}

#[test]
fn no_neighbours_asked_for_gives_none() {
    let ann = grid();
    assert_eq!(ann.get_nns_by_vector(&[0, 0], 0, -1).unwrap(), (vec![], vec![]));
    let mut empty: Annoy<Euclidean> = Annoy::new(2).unwrap();
    empty.add_item(0, &[1, 1]).unwrap();
    empty.build(0).unwrap();
    assert_eq!(empty.get_nns_by_vector(&[0, 0], 3, -1).unwrap(), (vec![], vec![]));
}

fn forest_under(seeds: &[u64]) -> Vec<(i64, Vec<i64>, Vec<i32>, usize, i128)> {
    let mut ann: Annoy<Euclidean> = Annoy::new(2).unwrap();
    for s in seeds {
        ann.set_seed(*s);
    }
    for i in 0..80 {
        ann.add_item(i, &[(i * 29 % 47) as i32, (i * 31 % 43) as i32]).unwrap();
    }
    ann.build(5).unwrap();
    ann.records().into_iter().map(|r| (r.0, r.1.children, r.1.v, r.1.n_descendants, r.1.a)).collect()
}

#[test]
fn the_last_seed_decides_the_forest() {
    assert_eq!(forest_under(&[7]), forest_under(&[7]));
    assert_eq!(forest_under(&[1, 7]), forest_under(&[7]));
    assert_eq!(forest_under(&[0]), forest_under(&[]));
    assert_ne!(forest_under(&[7]), forest_under(&[8]));
}

#[test]
fn the_counter_starts_with_the_build() {
    let mut ann: Annoy<Euclidean> = Annoy::new(2).unwrap();
    assert_eq!((ann.n_items(), ann.n_nodes()), (0, 0));
    ann.add_item(3, &[1, 1]).unwrap();
    assert_eq!((ann.n_items(), ann.n_nodes()), (4, 0));
    ann.add_item(1, &[5, 5]).unwrap();
    assert_eq!((ann.n_items(), ann.n_nodes()), (4, 0));
    assert_eq!(ann.node(3).unwrap().a, 0);
    assert_eq!(ann.roots(), Vec::<i64>::new());
    ann.build(2).unwrap();
    assert_eq!((ann.n_items(), ann.n_nodes()), (4, 6));
}

#[test]
fn a_thousand_trees_over_four_items_are_a_thousand_buckets() {
    let mut ann: Annoy<Euclidean> = Annoy::new(2).unwrap();
    ann.add_item(0, &[1, 1]).unwrap();
    ann.add_item(1, &[5, 5]).unwrap();
    ann.add_item(2, &[2, 2]).unwrap();
    ann.add_item(3, &[4, 4]).unwrap();
    ann.build(1000).unwrap();
    assert_eq!(ann.n_items(), 4);
    assert_eq!(ann.n_nodes(), 1004);
    assert_eq!(ann.roots(), (4..1004).collect::<Vec<i64>>());
    for r in ann.roots() {
        let root = ann.node(r).unwrap();
        assert_eq!(root.n_descendants, 4);
        assert_eq!(root.children, vec![0, 1, 2, 3]);
    }
}

#[test]
fn building_until_full_leaves_no_id_free() {
    let mut ann: Annoy<Euclidean> = Annoy::new(2).unwrap();
    ann.set_seed(5);
    for i in 0..40 {
        ann.add_item(i * 2, &[i as i32, 3 * i as i32 % 7]).unwrap();
    }
    ann.build(-1).unwrap();
    assert!(ann.n_nodes() >= 2 * ann.n_items());
    for id in ann.n_items()..ann.n_nodes() {
        assert!(ann.node(id).is_some());
    }
    let mut parents = vec![0; ann.n_nodes() as usize];
    for id in ann.n_items()..ann.n_nodes() {
        let n = ann.node(id).unwrap();
        if n.n_descendants > 6 && n.children.len() == 2 {
            for c in n.children {
                if c >= ann.n_items() {
                    parents[c as usize] += 1;
                }
            }
        }
    }
    assert!(parents.iter().all(|p| *p <= 1));
}

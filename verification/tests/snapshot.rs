use little_annoy::{Annoy, AnnoyError, Euclidean, Hamming, Node, NodeImpl};

fn cloud(seed: u64, trees: i64) -> Annoy<Euclidean> {
    let mut ann: Annoy<Euclidean> = Annoy::new(3).unwrap();
    ann.set_seed(seed);
    for i in 0..60 {
        let x = (i * 37 % 101) as i32 - 50;
        let y = (i * 53 % 89) as i32 - 40;
        let z = (i * 11 % 23) as i32;
        ann.add_item(i, &[x, y, z]).unwrap();
    }
    ann.build(trees).unwrap();
    ann
}

#[test]
fn load_answers_as_the_built_index() {
    let a = cloud(3, 8);
    let mut b: Annoy<Euclidean> = Annoy::new(3).unwrap();
    assert_eq!(b.load(a.records()), Ok(()));
    assert_eq!(b.n_items(), a.n_items());
    assert_eq!(b.roots(), a.roots());
    assert_eq!(b.n_nodes(), a.n_nodes());
    assert!(b.built());
    for s in 0..20 {
        let q = [s * 5 - 50, 40 - s * 4, s];
        for (k, budget) in [(1, -1), (5, -1), (10, 25), (60, 1000)] {
            assert_eq!(
                a.get_nns_by_vector(&q, k, budget).unwrap(),
                b.get_nns_by_vector(&q, k, budget).unwrap()
            );
        }
    }
}

#[test]
fn records_put_the_roots_first() {
    let a = cloud(5, 4);
    let recs = a.records();
    let roots = a.roots();
    assert_eq!(roots.len(), 4);
    assert_eq!(recs.len() as i64, a.n_nodes());
    for (i, r) in roots.iter().enumerate() {
        assert_eq!(recs[i].0, *r);
        assert_eq!(recs[i].1.n_descendants as i64, a.n_items());
    }
    for w in roots.len() + 1..recs.len() {
        assert!(recs[w - 1].0 < recs[w].0);
    }
    assert_eq!(recs[roots.len()].0, 0);
    assert_eq!(recs[roots.len()].1.v, vec![-50, -40, 0]);
}

#[test]
fn a_single_item_survives_the_round_trip() {
    let mut a: Annoy<Hamming> = Annoy::new(2).unwrap();
    a.add_item(0, &[5, 6]).unwrap();
    a.build(3).unwrap();
    let mut b: Annoy<Hamming> = Annoy::new(2).unwrap();
    assert_eq!(b.load(a.records()), Ok(()));
    assert_eq!(b.roots(), a.roots());
    assert_eq!(b.n_items(), 1);
    assert_eq!(b.get_nns_by_vector(&[5, 7], 2, -1).unwrap(), (vec![0], vec![1]));
}

#[test]
fn records_that_are_no_forest_are_refused() {
    let a = cloud(3, 2);
    let mut b: Annoy<Euclidean> = Annoy::new(3).unwrap();
    assert_eq!(b.load(Vec::new()), Err(AnnoyError::Malformed));

    let mut twice = a.records();
    let again = (twice[0].0, twice[0].1.duplicate());
    twice.push(again);
    assert_eq!(b.load(twice), Err(AnnoyError::Malformed));

    let mut cut = a.records();
    cut.pop();
    assert_eq!(b.load(cut), Err(AnnoyError::Malformed));

    let mut bent = a.records();
    let at = a.roots().len();
    bent[at].1.v = vec![1, 2];
    assert_eq!(b.load(bent), Err(AnnoyError::Malformed));

    let mut wrong: Annoy<Euclidean> = Annoy::new(4).unwrap();
    assert_eq!(wrong.load(a.records()), Err(AnnoyError::Malformed));

    let mut one = Node::new(3);
    one.reset(&[1, 2, 3]);
    let mut two = Node::new(3);
    two.reset(&[4, 5, 6]);
    two.n_descendants = 2;
    assert_eq!(b.load(vec![(0, one), (1, two)]), Err(AnnoyError::Malformed));

    let mut skipped = a.records();
    let top = skipped.len() - 1;
    skipped[top].0 += 1;
    assert_eq!(b.load(skipped), Err(AnnoyError::Malformed));
    assert!(!b.built());
    assert_eq!(b.n_items(), 0);
}

#[test]
fn an_index_without_trees_survives_the_round_trip() {
    let mut a: Annoy<Euclidean> = Annoy::new(2).unwrap();
    a.add_item(2, &[1, 1]).unwrap();
    a.add_item(7, &[5, 5]).unwrap();
    a.add_item(4, &[2, 2]).unwrap();
    a.build(0).unwrap();
    assert_eq!((a.n_items(), a.n_nodes()), (8, 8));
    let mut b: Annoy<Euclidean> = Annoy::new(2).unwrap();
    assert_eq!(b.load(a.records()), Ok(()));
    assert_eq!((b.n_items(), b.n_nodes(), b.roots()), (8, 8, vec![]));
    assert_eq!(b.get_distance(2, 7), a.get_distance(2, 7));
    assert_eq!(b.get_distance(2, 7), Ok(32));
    assert_eq!(
        b.get_nns_by_vector(&[0, 0], 3, -1).unwrap(),
        a.get_nns_by_vector(&[0, 0], 3, -1).unwrap()
    );
}

#[test]
fn a_lone_item_is_a_forest_without_trees() {
    let mut b: Annoy<Euclidean> = Annoy::new(3).unwrap();
    let mut lone = Node::new(3);
    lone.reset(&[1, 2, 3]);
    assert_eq!(b.load(vec![(0, lone)]), Ok(()));
    assert!(b.built());
    assert_eq!(b.n_items(), 1);
    assert_eq!(b.roots(), Vec::<i64>::new());
    assert_eq!(b.get_nns_by_vector(&[1, 2, 3], 1, -1).unwrap(), (vec![], vec![]));
}

#[test]
fn a_refused_load_leaves_the_index_as_it_was() {
    let mut a = cloud(9, 2);
    let before = a.get_nns_by_vector(&[0, 0, 0], 5, -1).unwrap();
    assert_eq!(a.load(Vec::new()), Err(AnnoyError::Malformed));
    assert_eq!(a.get_nns_by_vector(&[0, 0, 0], 5, -1).unwrap(), before);
}

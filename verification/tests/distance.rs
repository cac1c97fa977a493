use little_annoy::{Angular, Distance, Euclidean, Hamming, Manhattan, Metric, Node, NodeImpl};

#[test]
fn angular_test_distance() {
    let x = &[1, 2];
    let y = &[2, 4];
    let f = 2;

    let dist = Angular::distance(x, y, f);
    assert_eq!(dist, 0);
}

#[test]
fn euclidean_test_distance() {
    let x = &[1, 2];
    let y = &[2, 4];
    let f = 2;

    let dist = Euclidean::distance(x, y, f);

    assert_eq!(dist, 5);
}

#[test]
fn test_side() {
    let mut n = Node::new(2);
    n.v = vec![2, 4];
    let actual = Euclidean::side(&n, &[1, 2], &mut rand::SeedableRng::from_entropy());

    assert!(actual)
}

#[test]
fn hamming_test_distance() {
    let x = &[1, 1, 1];
    let y = &[1, 1, 0];
    let f = 3;

    let dist = Hamming::distance(x, y, f);

    assert_eq!(dist, 1);
}

#[test]
fn manhattan_distance_sums_the_gaps() {
    assert_eq!(Manhattan::distance(&[1, -2, 7], &[4, 2, 7], 3), 7);
    assert_eq!(Manhattan::distance(&[1, -2, 7], &[4, 2, 7], 1), 3);
}

#[test]
fn angular_distance_of_a_zero_vector_is_two() {
    assert_eq!(Angular::distance(&[0, 0], &[1, 0], 2), 2 * 65536);
    assert_eq!(Angular::distance(&[0, 0], &[0, 0], 2), 2 * 65536);
}

#[test]
fn angular_distance_of_opposite_vectors_is_four() {
    assert_eq!(Angular::distance(&[3, 0], &[-5, 0], 2), 4 * 65536);
    assert_eq!(Angular::distance(&[1, 0], &[0, 1], 2), 2 * 65536);
    assert_eq!(Angular::distance(&[0x7fff, 0x7fff], &[-0x7fff, -0x7fff], 2), 4 * 65536);
}

#[test]
fn hamming_distance_counts_bits_of_whole_words() {
    assert_eq!(Hamming::distance(&[0b1011, 0], &[0b0110, -1], 2), 3 + 32);
}

#[test]
fn hamming_reads_bits_from_the_top_of_a_word() {
    assert_eq!(Hamming::bit(0, &[i32::MIN, 0]), 1 << 31);
    assert_eq!(Hamming::bit(0, &[i32::MAX, 0]), 0);
    assert_eq!(Hamming::bit(31, &[1, 0]), 1);
    assert_eq!(Hamming::bit(32, &[-1, 0]), 0);
    assert_eq!(Hamming::bit(33, &[0, 1 << 30]), 1 << 30);
    let mut n = Node::new(2);
    n.v[0] = 31;
    assert_eq!(Hamming::margin(&n, &[3, 0]), 1);
    let mut rng: rand::rngs::StdRng = rand::SeedableRng::seed_from_u64(1);
    assert!(Hamming::side(&n, &[3, 0], &mut rng));
    assert!(!Hamming::side(&n, &[2, 0], &mut rng));
}

#[test]
fn hamming_counts_the_items_on_the_set_side() {
    let mut a = Node::new(1);
    a.reset(&[1]);
    let mut b = Node::new(1);
    b.reset(&[0]);
    let mut c = Node::new(1);
    c.reset(&[3]);
    let nodes = vec![&a, &b, &c];
    assert_eq!(Hamming::count_on_side(&nodes, 31), 2);
    assert_eq!(Hamming::count_on_side(&nodes, 30), 1);
    assert_eq!(Hamming::count_on_side(&nodes, 0), 0);
    let mut n = Node::new(1);
    let mut rng: rand::rngs::StdRng = rand::SeedableRng::seed_from_u64(1);
    Hamming::create_split(&nodes, &mut n, 1, &mut rng);
    assert_eq!(n.v, vec![0]);
}

#[test]
fn hamming_split_falls_back_to_the_first_bit_that_separates() {
    let mut a = Node::new(40);
    let mut v = vec![0; 40];
    v[0] = 1 << 26;
    a.reset(&v);
    let mut b = Node::new(40);
    b.reset(&vec![0; 40]);
    let nodes = vec![&a, &b];
    for seed in 0..20 {
        let mut n = Node::new(40);
        let mut rng: rand::rngs::StdRng = rand::SeedableRng::seed_from_u64(seed);
        Hamming::create_split(&nodes, &mut n, 40, &mut rng);
        assert_eq!(n.v[0], 5);
    }
}

#[test]
fn margins_are_dot_products() {
    let mut n = Node::new(2);
    n.v = vec![2, -3];
    n.a = 4;
    assert_eq!(Euclidean::margin(&n, &[5, 1]), 11);
    assert_eq!(Manhattan::margin(&n, &[5, 1]), 11);
    assert_eq!(Angular::margin(&n, &[5, 1]), 7);
    let mut rng: rand::rngs::StdRng = rand::SeedableRng::seed_from_u64(1);
    assert!(!Euclidean::side(&n, &[-4, 0], &mut rng));
    assert!(Angular::side(&n, &[1, 0], &mut rng));
    assert!(Euclidean::holds_split(&n, 2));
    assert!(!Euclidean::holds_split(&n, 3));
}

#[test]
fn angular_distance_stays_between_zero_and_four() {
    for x in [[1, 0], [3, 4], [-7, 2], [0x7fff, 0x7fff], [0, 0]] {
        for y in [[1, 0], [-3, -4], [2, 7], [-0x7fff, 0x7fff], [0, 0]] {
            let d = Angular::distance(&x, &y, 2);
            assert!(0 <= d && d <= 4 * 65536);
        }
    }
}

#[test]
fn distance_is_zero_between_equal_vectors_only() {
    let x = [4, -9, 0];
    for y in [[4, -9, 0], [4, -9, 1], [-4, 9, 0]] {
        assert_eq!(Euclidean::distance(&x, &y, 3) == 0, x == y);
        assert_eq!(Manhattan::distance(&x, &y, 3) == 0, x == y);
        assert_eq!(Hamming::distance(&x, &y, 3) == 0, x == y);
    }
}

#[test]
fn a_node_is_read_and_written_through_its_methods() {
    let mut n = Node::new(3);
    assert_eq!(n.children(), vec![0, 0]);
    assert_eq!(n.vector(), &[0, 0, 0]);
    assert_eq!(n.descendant(), 0);
    n.set_descendant(4);
    n.set_children(vec![7, 8, 9]);
    n.mut_vector()[1] = 5;
    n.set_vector(&[1, 1, 1]);
    assert_eq!(n.descendant(), 4);
    assert_eq!(n.children(), vec![7, 8, 9]);
    assert_eq!(n.vector(), &[0, 5, 0]);
    let mut m = Node::new(1);
    m.copy(n.duplicate());
    assert_eq!((m.n_descendants, m.children.clone(), m.v.clone(), m.a), (4, vec![7, 8, 9], vec![0, 5, 0], 0));
    m.reset(&[2, 2, 2]);
    assert_eq!((m.n_descendants, m.children, m.v), (1, vec![0, 0], vec![2, 2, 2]));
}

#[test]
fn angular_distance_follows_the_cosine() {
    let shown = |x: &[i32], y: &[i32]| Angular::distance(x, y, 2) as f64 / 65536.0;
    assert!((shown(&[1, 1], &[1, 0]) - (2.0 - 2f64.sqrt())).abs() < 1e-4);
    assert!((shown(&[1, 0], &[1, 2]) - (2.0 - 2.0 / 5f64.sqrt())).abs() < 1e-4);
    assert!((shown(&[3, 4], &[-4, 3]) - 2.0).abs() < 1e-4);
    assert!((shown(&[30000, 1], &[30000, 0])).abs() < 1e-4);
    assert!(Angular::distance(&[1, 1], &[1, 0], 2) > 0);
    assert_eq!(Angular::distance(&[3, 4], &[6, 8], 2), 0);
    assert!(Angular::distance(&[1000, 1], &[1000, 0], 2) > 0);
}

use little_annoy::distance::euclidean::bisect;
use little_annoy::distance::{
    accepts, get_norm, normalize, offset, pull, round, seed_pair, subtract, two_means,
};
use little_annoy::frontier::{find_top, insert_ranked};
use little_annoy::numeric::dot_product;
use little_annoy::{Angular, Distance, Euclidean, Hamming, Node, NodeImpl};

#[test]
fn norm_is_the_root_rounded_down() {
    assert_eq!(get_norm(&[3, 4]), 5);
    assert_eq!(get_norm(&[1, 1]), 1);
    assert_eq!(get_norm(&[]), 0);
    assert_eq!(get_norm(&[i32::MIN, i32::MIN]), 3037000499);
}

#[test]
fn normalize_divides_toward_zero() {
    assert_eq!(normalize(&[0, -7, 0]), vec![0, -65536, 0]);
    assert_eq!(normalize(&[3, 4]), vec![39321, 52428]);
    assert_eq!(normalize(&[0, 0]), vec![0, 0]);
    assert_eq!(normalize(&[-9, 1]), vec![-65135, 7237]);
    assert_eq!(normalize(&[1, 1]), vec![46340, 46340]);
    assert_eq!(normalize(&[4, 4]), vec![46340, 46340]);
    assert_eq!(normalize(&[i32::MIN, i32::MIN]), vec![-46340, -46340]);
    for v in [vec![3, 4], vec![1, 1], vec![-9, 1], vec![7, -2, 5, 0, 1], vec![i32::MAX, 1, -i32::MAX]] {
        let length: i128 = normalize(&v).iter().map(|c| (*c as i128) * (*c as i128)).sum();
        assert!(length < 65537 * 65537);
        assert!(length >= 65536 * 65536 - (v.len() as i128) * (2 * 65536 + 1));
    }
    let unit: Vec<f64> = normalize(&[3, 4]).iter().map(|c| *c as f64 / 65536.0).collect();
    assert!((unit[0] - 0.6).abs() < 1e-4 && (unit[1] - 0.8).abs() < 1e-4);
}

#[test]
fn pull_takes_the_mean_toward_zero() {
    let mut c = vec![10, -10, 3];
    pull(&mut c, 2, &[1, -1, 4]);
    assert_eq!(c, vec![7, -7, 3]);
}

#[test]
fn bisect_puts_the_plane_between_the_centroids() {
    let mut n = Node::new(2);
    bisect(&[9, 0], &[1, 0], &mut n);
    assert_eq!(n.v, vec![65536, 0]);
    assert_eq!(n.a, -5 * 65536);
    assert_eq!(subtract(&[9, 0], &[1, 5]), vec![8, -5]);
    assert_eq!(subtract(&[i32::MAX, i32::MIN], &[i32::MIN, i32::MAX]), vec![i32::MAX, -i32::MAX]);
    assert_eq!(offset(&[1, -1], &[3, 3], &[4, 0]), -3 + 1);
    assert_eq!(dot_product(&[1, 2, 3], &[4, -5, 6], 2), -6);
}

#[test]
fn each_metric_admits_its_reach() {
    assert!(accepts::<Hamming>(&[i32::MIN, i32::MAX]));
    assert!(accepts::<Euclidean>(&[i32::MIN, i32::MAX]));
    assert!(accepts::<Angular>(&[0x7fff, -0x7fff]));
    assert!(!accepts::<Angular>(&[-0x8000]));
}

#[test]
fn two_means_stay_among_the_items() {
    let mut a = Node::new(2);
    a.reset(&[0, 0]);
    let mut b = Node::new(2);
    b.reset(&[10, 20]);
    let mut rng: rand::rngs::StdRng = rand::SeedableRng::seed_from_u64(4);
    let (iv, jv) = two_means::<Euclidean>(&mut rng, &vec![&a, &b], 2);
    for v in [iv, jv] {
        assert!(0 <= v[0] && v[0] <= 10);
        assert!(0 <= v[1] && v[1] <= 20);
    }
}

#[test]
fn the_frontier_gives_its_greatest_entry() {
    assert_eq!(find_top(&vec![(0, 4), (0, 9), (-3, 20), (0, 9)]), 1);
    assert_eq!(find_top(&vec![(-5, 1)]), 0);
    let mut list = vec![(1, 5), (4, 2)];
    insert_ranked(&mut list, (1, 7));
    insert_ranked(&mut list, (4, 2));
    insert_ranked(&mut list, (0, 9));
    assert_eq!(list, vec![(0, 9), (1, 5), (1, 7), (4, 2)]);
}

#[test]
fn a_round_pulls_the_nearer_centroid() {
    let mut iv = vec![0, 0];
    let mut jv = vec![10, 10];
    let (mut ic, mut jc) = (1, 1);
    round::<Euclidean>(&mut iv, &mut ic, &mut jv, &mut jc, &[2, 2], 2);
    assert_eq!((iv.clone(), ic, jv.clone(), jc), (vec![1, 1], 2, vec![10, 10], 1));
    round::<Euclidean>(&mut iv, &mut ic, &mut jv, &mut jc, &[9, 9], 2);
    assert_eq!((iv.clone(), ic, jv.clone(), jc), (vec![1, 1], 2, vec![9, 9], 2));
    round::<Euclidean>(&mut iv, &mut ic, &mut jv, &mut jc, &[5, 5], 2);
    assert_eq!((iv, ic, jv, jc), (vec![1, 1], 2, vec![9, 9], 2));
}

#[test]
fn weights_count_in_a_round() {
    let mut iv = vec![0];
    let mut jv = vec![10];
    let (mut ic, mut jc) = (3, 1);
    round::<Euclidean>(&mut iv, &mut ic, &mut jv, &mut jc, &[4], 1);
    assert_eq!((iv, ic, jv, jc), (vec![0], 3, vec![7], 2));
}

#[test]
fn seeds_differ() {
    assert_eq!(seed_pair(7, 7, 5), (2, 4));
    assert_eq!(seed_pair(7, 4, 5), (2, 0));
    assert_eq!(seed_pair(0, 0, 2), (0, 1));
    assert_eq!(seed_pair(u64::MAX, u64::MAX, 2), (1, 0));
}

#[test]
fn equal_items_are_their_own_centroids() {
    let mut a = Node::new(2);
    a.reset(&[1, 1]);
    let mut b = Node::new(2);
    b.reset(&[1, 1]);
    for seed in 0..10 {
        let mut rng: rand::rngs::StdRng = rand::SeedableRng::seed_from_u64(seed);
        let (iv, jv) = two_means::<Euclidean>(&mut rng, &vec![&a, &b], 2);
        assert_eq!((iv, jv), (vec![1, 1], vec![1, 1]));
    }
}

#[test]
fn a_split_of_two_items_parts_them() {
    let mut a = Node::new(2);
    a.reset(&[1, 1]);
    let mut b = Node::new(2);
    b.reset(&[5, 5]);
    for seed in 0..10 {
        let mut n = Node::new(2);
        let mut rng: rand::rngs::StdRng = rand::SeedableRng::seed_from_u64(seed);
        Euclidean::create_split(&vec![&a, &b], &mut n, 2, &mut rng);
        assert_eq!(n.v[0].abs(), 46340);
        assert_eq!(n.v[0], n.v[1]);
        assert_eq!(n.a, -(n.v[0] as i128) * 6);
        let ma = Euclidean::margin(&n, &[1, 1]);
        let mb = Euclidean::margin(&n, &[5, 5]);
        assert_eq!(ma, -mb);
        assert!(ma != 0);
        assert!(Euclidean::side(&n, &[1, 1], &mut rng) != Euclidean::side(&n, &[5, 5], &mut rng));
    }
}

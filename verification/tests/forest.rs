use little_annoy::forest::K;
use little_annoy::shares::{share_of, BUILD_WORKERS};
use little_annoy::split::{alternate, split_by};
use little_annoy::{Annoy, Distance, Euclidean, Hamming};

fn count_below(ann: &Annoy<Euclidean>, id: i64, seen: &mut Vec<i64>) {
    let n = ann.node(id).unwrap();
    if id < ann.n_items() {
        assert_eq!(n.n_descendants, 1);
        seen.push(id);
    } else if n.n_descendants <= K || n.children.len() != 2 {
        for c in &n.children {
            assert!(*c < ann.n_items());
            seen.push(*c);
        }
    } else {
        let left = ann.node(n.children[0]).unwrap();
        let right = ann.node(n.children[1]).unwrap();
        assert!(n.children[0] < id && n.children[1] < id);
        assert!(left.n_descendants <= right.n_descendants);
        assert_eq!(n.n_descendants, left.n_descendants + right.n_descendants);
        count_below(ann, n.children[0], seen);
        count_below(ann, n.children[1], seen);
    }
}

#[test]
fn counts_add_up_and_every_tree_holds_every_item() {
    let mut ann: Annoy<Euclidean> = Annoy::new(2).unwrap();
    ann.set_seed(11);
    for i in 0..50 {
        ann.add_item(i, &[(i * 7 % 31) as i32, (i * 13 % 17) as i32]).unwrap();
    }
    ann.build(6).unwrap();
    let roots = ann.roots();
    assert_eq!(roots.len(), 6);
    for r in roots {
        assert!(r >= ann.n_items());
        assert_eq!(ann.node(r).unwrap().n_descendants as i64, ann.n_items());
        let mut seen = Vec::new();
        count_below(&ann, r, &mut seen);
        seen.sort();
        assert_eq!(seen, (0..50).collect::<Vec<i64>>());
    }
}

#[test]
fn a_root_over_sparse_ids_counts_the_bound() {
    let mut ann: Annoy<Euclidean> = Annoy::new(1).unwrap();
    ann.add_item(0, &[4]).unwrap();
    ann.add_item(10, &[1]).unwrap();
    ann.build(1).unwrap();
    assert_eq!(ann.n_items(), 11);
    let root = ann.node(ann.roots()[0]).unwrap();
    assert_eq!(root.n_descendants, 11);
    assert_eq!(root.children.len(), 2);
    let mut below = vec![root.children[0], root.children[1]];
    below.sort();
    assert_eq!(below, vec![0, 10]);
}

#[test]
fn few_items_make_a_bucket_root() {
    let mut ann: Annoy<Hamming> = Annoy::new(1).unwrap();
    for i in 0..6 {
        ann.add_item(i, &[i as i32]).unwrap();
    }
    ann.build(2).unwrap();
    assert_eq!(ann.n_nodes(), 8);
    for r in ann.roots() {
        let root = ann.node(r).unwrap();
        assert_eq!(root.n_descendants, 6);
        assert_eq!(root.children, vec![0, 1, 2, 3, 4, 5]);
    }
}

#[test]
fn hamming_splits_on_a_bit_that_separates() {
    let mut ann: Annoy<Hamming> = Annoy::new(40).unwrap();
    ann.set_seed(2);
    for i in 0..20 {
        let mut v = vec![0; 40];
        v[0] = if i % 2 == 0 { i32::MIN } else { 0 };
        ann.add_item(i, &v).unwrap();
    }
    ann.build(1).unwrap();
    let root = ann.node(ann.roots()[0]).unwrap();
    assert_eq!(root.n_descendants, 20);
    assert_eq!(root.v[0], 0);
    let first = ann.node(root.children[0]).unwrap();
    let second = ann.node(root.children[1]).unwrap();
    assert_eq!(first.n_descendants, 10);
    assert_eq!(second.n_descendants, 10);
}

#[test]
fn shares_of_all_workers_sum_to_the_trees() {
    for q in [0, 1, 9, 10, 11, 25, 1000, i64::MAX] {
        let mut sum: i128 = 0;
        for w in 0..BUILD_WORKERS {
            sum += share_of(q, w, BUILD_WORKERS) as i128;
        }
        assert_eq!(sum, q as i128);
    }
    assert_eq!(share_of(25, 4, 10), 2);
    assert_eq!(share_of(25, 5, 10), 3);
}

#[test]
fn a_list_is_divided_by_its_sides() {
    let parts = split_by(&vec![7, 3, 9, 1], &vec![true, false, false, true]);
    assert_eq!(parts, (vec![3, 9], vec![7, 1]));
    assert_eq!(alternate(5), vec![false, true, false, true, false]);
}

fn items_below(ann: &Annoy<Euclidean>, id: i64, out: &mut Vec<i64>) {
    let n = ann.node(id).unwrap();
    if id < ann.n_items() {
        out.push(id);
    } else if n.n_descendants <= K || n.children.len() != 2 {
        out.extend(n.children.iter());
    } else {
        items_below(ann, n.children[0], out);
        items_below(ann, n.children[1], out);
    }
}

#[test]
fn the_children_of_a_split_are_its_two_sides() {
    let mut ann: Annoy<Euclidean> = Annoy::new(2).unwrap();
    ann.set_seed(13);
    for i in 0..120 {
        ann.add_item(i, &[(i * 37 % 101) as i32 * 7, (i * 53 % 89) as i32 * 11]).unwrap();
    }
    ann.build(4).unwrap();
    let mut parted = 0;
    for id in ann.n_items()..ann.n_nodes() {
        let n = ann.node(id).unwrap();
        if n.n_descendants <= K || n.children.len() != 2 {
            continue;
        }
        let mut sides = Vec::new();
        for c in [n.children[0], n.children[1]] {
            let mut below = Vec::new();
            items_below(&ann, c, &mut below);
            sides.push(
                below
                    .iter()
                    .map(|i| Euclidean::margin(&n, &ann.node(*i).unwrap().v))
                    .collect::<Vec<i128>>(),
            );
        }
        let all: Vec<i128> = sides.concat();
        if all.iter().any(|m| *m == 0) || all.iter().all(|m| *m > 0) || all.iter().all(|m| *m < 0) {
            continue;
        }
        parted += 1;
        let up = |side: &Vec<i128>| side.iter().all(|m| *m > 0);
        let down = |side: &Vec<i128>| side.iter().all(|m| *m < 0);
        assert!((up(&sides[0]) && down(&sides[1])) || (down(&sides[0]) && up(&sides[1])));
    }
    assert!(parted > 0);
}

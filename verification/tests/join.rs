use little_annoy::forest::K;
use little_annoy::{Annoy, AnnoyError, Euclidean};

fn part(seed: u64, trees: i64, items: i64) -> Annoy<Euclidean> {
    let mut ann: Annoy<Euclidean> = Annoy::new(2).unwrap();
    ann.set_seed(seed);
    for i in 0..items {
        ann.add_item(i * 3, &[(i * 37 % 101) as i32, (i * 53 % 89) as i32]).unwrap();
    }
    ann.build(trees).unwrap();
    ann
}

fn items_under(ann: &Annoy<Euclidean>, id: i64, out: &mut Vec<i64>) {
    let n = ann.node(id).unwrap();
    if id < ann.n_items() {
        out.push(id);
    } else if n.n_descendants <= K || n.children.len() != 2 {
        out.extend(n.children.iter());
    } else {
        assert!(n.children[0] < id && n.children[1] < id);
        items_under(ann, n.children[0], out);
        items_under(ann, n.children[1], out);
    }
}

#[test]
fn a_joined_index_holds_the_trees_of_both() {
    let mut a = part(1, 3, 40);
    let b = part(2, 4, 40);
    let (a_nodes, b_nodes, n) = (a.n_nodes(), b.n_nodes(), a.n_items());
    let a_roots = a.roots();
    let shift = a_nodes - n;
    assert_eq!(a.absorb(&b), Ok(()));
    assert_eq!(a.n_items(), n);
    assert_eq!(a.n_nodes(), a_nodes + b_nodes - n);
    let mut roots = a_roots.clone();
    roots.extend(b.roots().iter().map(|r| r + shift));
    assert_eq!(a.roots(), roots);
    for id in n..b_nodes {
        let theirs = b.node(id).unwrap();
        let mine = a.node(id + shift).unwrap();
        assert_eq!((mine.n_descendants, &mine.v, mine.a), (theirs.n_descendants, &theirs.v, theirs.a));
        if theirs.n_descendants <= K || theirs.children.len() != 2 {
            assert_eq!(mine.children, theirs.children);
        } else {
            let moved: Vec<i64> =
                theirs.children.iter().map(|c| if *c >= n { c + shift } else { *c }).collect();
            assert_eq!(mine.children, moved);
        }
    }
    for r in a.roots() {
        let mut seen = Vec::new();
        items_under(&a, r, &mut seen);
        seen.sort();
        assert_eq!(seen, (0..40).map(|i| i * 3).collect::<Vec<i64>>());
    }
    let mut c: Annoy<Euclidean> = Annoy::new(2).unwrap();
    assert_eq!(c.load(a.records()), Ok(()));
    assert_eq!(c.roots(), a.roots());
    assert_eq!(
        c.get_nns_by_vector(&[10, 10], 5, -1).unwrap(),
        a.get_nns_by_vector(&[10, 10], 5, -1).unwrap()
    );
    let found = a.get_nns_by_vector(&[10, 10], 5, 10_000).unwrap();
    assert_eq!(found, b.get_nns_by_vector(&[10, 10], 5, 10_000).unwrap());
}

#[test]
fn joining_takes_nothing_from_an_index_without_trees() {
    let mut a = part(1, 2, 10);
    let before = (a.n_nodes(), a.roots());
    assert_eq!(a.absorb(&part(5, 0, 10)), Ok(()));
    assert_eq!((a.n_nodes(), a.roots()), before);
    let mut empty = part(5, 0, 10);
    assert_eq!(empty.absorb(&a), Ok(()));
    assert_eq!((empty.n_nodes(), empty.roots()), before);
}

#[test]
fn only_indexes_over_the_same_items_are_joined() {
    let mut a = part(1, 2, 10);
    assert_eq!(a.absorb(&part(1, 2, 11)), Err(AnnoyError::Mismatch));
    let mut other: Annoy<Euclidean> = Annoy::new(2).unwrap();
    for i in 0..10 {
        other.add_item(i * 3, &[(i * 37 % 101) as i32, (i * 53 % 89) as i32 + (i == 4) as i32])
            .unwrap();
    }
    assert_eq!(a.absorb(&other), Err(AnnoyError::NotBuilt));
    other.build(1).unwrap();
    assert_eq!(a.absorb(&other), Err(AnnoyError::Mismatch));
    let mut wide: Annoy<Euclidean> = Annoy::new(3).unwrap();
    wide.add_item(0, &[1, 2, 3]).unwrap();
    wide.build(1).unwrap();
    assert_eq!(a.absorb(&wide), Err(AnnoyError::Mismatch));
    assert_eq!(a.roots().len(), 2);
}

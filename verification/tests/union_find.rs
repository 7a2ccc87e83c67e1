use graph_algos::union_find::UnionFind;

#[test]
fn test_union_find() {
    let mut union_find = UnionFind::new(6);
    union_find.merge(0, 1);
    union_find.merge(1, 2);
    union_find.merge(2, 3);
    union_find.merge(3, 4);

    assert_eq!(4, union_find.find(0));
    assert_eq!(4, union_find.find(1));
    assert_eq!(4, union_find.find(3));
    println!("{:?}", union_find.parents);
}

#[test]
fn new_sets_are_singletons() {
    let mut union_find = UnionFind::new(4);
    for v in 0..4 {
        assert_eq!(v, union_find.find(v));
    }
    assert!(!union_find.are_adjacent(0, 1));
    assert!(union_find.are_adjacent(2, 2));
}

#[test]
fn empty_structure_has_no_parents() {
    let union_find = UnionFind::new(0);
    assert_eq!(0, union_find.parents.len());
}

#[test]
fn chain_of_merges_connects_its_ends() {
    let mut union_find = UnionFind::new(5);
    union_find.merge(0, 1);
    union_find.merge(1, 2);
    union_find.merge(2, 3);
    assert_eq!(union_find.find(0), union_find.find(3));
    assert!(union_find.are_adjacent(0, 3));
    assert_eq!(4, union_find.find(4));
    assert!(!union_find.are_adjacent(0, 4));
}

#[test]
fn merge_puts_the_first_root_under_the_second() {
    let mut union_find = UnionFind::new(4);
    union_find.merge(0, 1);
    union_find.merge(2, 3);
    // 0 is below 1 and 2 below 3: uniting 0 and 2 moves the root 1 under 3.
    union_find.merge(0, 2);
    assert_eq!(3, union_find.find(0));
    assert_eq!(3, union_find.find(1));
    assert_eq!(3, union_find.find(2));
    assert_eq!(3, union_find.parents[1]);
}

#[test]
fn merging_a_set_with_itself_changes_nothing() {
    let mut union_find = UnionFind::new(3);
    union_find.merge(0, 1);
    union_find.merge(1, 0);
    assert_eq!(1, union_find.find(0));
    assert_eq!(1, union_find.find(1));
    assert_eq!(2, union_find.find(2));
}

#[test]
fn find_halves_the_path_it_walks() {
    let mut union_find = UnionFind::new(5);
    union_find.merge(0, 1);
    union_find.merge(1, 2);
    union_find.merge(2, 3);
    union_find.merge(3, 4);
    assert_eq!(vec![1, 2, 3, 4, 4], union_find.parents);
    assert_eq!(4, union_find.find(0));
    // Every element on the way now points to what was its grandparent.
    assert_eq!(vec![2, 3, 4, 4, 4], union_find.parents);
}

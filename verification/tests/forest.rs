use one_d::dsets::DisjointSets;

fn roots_of(sets: &mut DisjointSets) -> Vec<usize> {
    let mut roots = Vec::new();
    for element in 0..sets.size() {
        roots.push(sets.find_root(element).unwrap());
    }
    roots
}

fn count_roots(sets: &mut DisjointSets) -> usize {
    let roots = roots_of(sets);
    (0..roots.len()).filter(|&i| roots[i] == i).count()
}

#[test]
fn new_forest_holds_singletons() {
    let mut sets = DisjointSets::new(5);
    assert_eq!(sets.size(), 5);
    assert_eq!(roots_of(&mut sets), vec![0, 1, 2, 3, 4]);
}

#[test]
fn empty_forest_has_no_elements() {
    let mut sets = DisjointSets::new(0);
    assert_eq!(sets.size(), 0);
    assert_eq!(sets.find_root(0), Err("Out of bounds".to_string()));
}

#[test]
fn find_root_rejects_the_index_one_past_the_end() {
    let mut sets = DisjointSets::new(4);
    assert_eq!(sets.find_root(3), Ok(3));
    assert_eq!(sets.find_root(4), Err("Out of bounds".to_string()));
    assert_eq!(sets.find_root(5), Err("Out of bounds".to_string()));
    assert_eq!(sets.find_root(usize::MAX), Err("Out of bounds".to_string()));
}

#[test]
fn union_of_equal_sets_keeps_the_first_root() {
    let mut sets = DisjointSets::new(4);
    sets.set_union(2, 1);
    assert_eq!(sets.find_root(1), Ok(2));
    assert_eq!(sets.find_root(2), Ok(2));
    sets.set_union(0, 3);
    assert_eq!(sets.find_root(3), Ok(0));
    assert_eq!(sets.find_root(0), Ok(0));
    // two sets of two: still a tie, the root of the first argument stays
    sets.set_union(3, 1);
    assert_eq!(roots_of(&mut sets), vec![0, 0, 0, 0]);
}

#[test]
fn union_hangs_the_smaller_set_under_the_larger() {
    let mut sets = DisjointSets::new(5);
    sets.set_union(1, 2);
    sets.set_union(1, 3);
    // {1, 2, 3} has root 1; the singleton 0 is smaller though it comes first
    sets.set_union(0, 3);
    assert_eq!(roots_of(&mut sets), vec![1, 1, 1, 1, 4]);
    sets.set_union(4, 0);
    assert_eq!(roots_of(&mut sets), vec![1, 1, 1, 1, 1]);
}

#[test]
fn union_within_one_set_changes_nothing() {
    let mut sets = DisjointSets::new(3);
    sets.set_union(0, 1);
    let before = roots_of(&mut sets);
    sets.set_union(1, 0);
    sets.set_union(0, 0);
    assert_eq!(roots_of(&mut sets), before);
    assert_eq!(count_roots(&mut sets), 2);
}

#[test]
fn find_root_is_idempotent_and_stable() {
    let mut sets = DisjointSets::new(8);
    sets.set_union(0, 1);
    sets.set_union(2, 3);
    sets.set_union(1, 3);
    sets.set_union(5, 6);
    for element in 0..8 {
        let root = sets.find_root(element).unwrap();
        assert_eq!(sets.find_root(root), Ok(root));
        assert_eq!(sets.find_root(element), Ok(root));
    }
}

#[test]
fn each_effective_union_removes_one_root() {
    let mut sets = DisjointSets::new(6);
    assert_eq!(count_roots(&mut sets), 6);
    sets.set_union(0, 1);
    assert_eq!(count_roots(&mut sets), 5);
    sets.set_union(2, 3);
    assert_eq!(count_roots(&mut sets), 4);
    sets.set_union(1, 3);
    assert_eq!(count_roots(&mut sets), 3);
    // a union inside one set: the count stays, so it is at least 6 - 4
    sets.set_union(0, 2);
    assert_eq!(count_roots(&mut sets), 3);
    sets.set_union(4, 5);
    sets.set_union(5, 0);
    assert_eq!(count_roots(&mut sets), 1);
}

#[test]
fn path_compression_keeps_the_sets() {
    let mut sets = DisjointSets::new(8);
    sets.set_union(0, 1);
    sets.set_union(2, 3);
    sets.set_union(4, 5);
    sets.set_union(6, 7);
    sets.set_union(1, 3);
    sets.set_union(5, 7);
    sets.set_union(3, 7);
    assert_eq!(roots_of(&mut sets), vec![0; 8]);
    assert_eq!(roots_of(&mut sets), vec![0; 8]);
}

#[test]
fn add_sets_appends_singletons() {
    let mut sets = DisjointSets::new(2);
    sets.set_union(0, 1);
    sets.add_sets(3);
    assert_eq!(sets.size(), 5);
    assert_eq!(roots_of(&mut sets), vec![0, 0, 2, 3, 4]);
    sets.add_sets(0);
    assert_eq!(sets.size(), 5);
    sets.set_union(4, 1);
    assert_eq!(roots_of(&mut sets), vec![0, 0, 2, 3, 0]);
}

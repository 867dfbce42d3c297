use crystald::ids::{gen_file_id, IdSet};

#[test]
fn empty_set() {
    let set = IdSet::new();
    assert_eq!(set.len(), 0);
    assert!(!set.contains(0));
    assert_eq!(set.first_free(), 0);
    assert_eq!(set.place(5), 0);
}

#[test]
fn insert_keeps_ascending_order() {
    let mut set = IdSet::new();
    assert!(set.insert(30));
    assert!(set.insert(10));
    assert!(set.insert(20));
    assert!(set.insert(usize::MAX));
    assert!(set.insert(0));
    assert_eq!(set.as_slice(), &[0, 10, 20, 30, usize::MAX]);
    assert!(!set.insert(20));
    assert_eq!(set.len(), 5);
    assert!(set.contains(usize::MAX));
    assert!(!set.contains(15));
}

#[test]
fn place_counts_the_ids_below() {
    let mut set = IdSet::new();
    for id in [2usize, 4, 6, 8] {
        set.insert(id);
    }
    assert_eq!(set.place(0), 0);
    assert_eq!(set.place(2), 0);
    assert_eq!(set.place(3), 1);
    assert_eq!(set.place(8), 3);
    assert_eq!(set.place(9), 4);
}

#[test]
fn remove_takes_one_id_out() {
    let mut set = IdSet::new();
    for id in [5usize, 1, 3] {
        set.insert(id);
    }
    assert!(set.remove(3));
    assert!(!set.remove(3));
    assert!(!set.remove(4));
    assert_eq!(set.as_slice(), &[1, 5]);
    assert!(set.remove(1));
    assert!(set.remove(5));
    assert_eq!(set.len(), 0);
}

#[test]
fn first_free_is_the_least_unused_id() {
    let mut set = IdSet::new();
    for id in [0usize, 1, 2, 4, 9] {
        set.insert(id);
    }
    assert_eq!(set.first_free(), 3);
    set.insert(3);
    assert_eq!(set.first_free(), 5);
    set.remove(0);
    assert_eq!(set.first_free(), 0);
}

#[test]
fn first_free_after_a_full_prefix() {
    let mut set = IdSet::new();
    for id in 0..100usize {
        set.insert(id);
    }
    assert_eq!(set.first_free(), 100);
}

#[test]
fn allocated_ids_are_fresh_and_recorded() {
    let mut used = IdSet::new();
    let mut seen = Vec::new();
    for _ in 0..500 {
        let before = used.as_slice().to_vec();
        let id = gen_file_id(&mut used);
        assert!(!before.contains(&id));
        assert!(used.contains(id));
        assert_eq!(used.len(), before.len() + 1);
        assert!(!seen.contains(&id));
        seen.push(id);
    }
    let listed = used.as_slice();
    assert!(listed.windows(2).all(|pair| pair[0] < pair[1]));
}

#[test]
fn allocation_draws_from_the_whole_range() {
    let mut used = IdSet::new();
    let mut high = false;
    for _ in 0..64 {
        if gen_file_id(&mut used) > (usize::MAX >> 1) {
            high = true;
        }
    }
    assert!(high);
}

#[test]
fn released_id_can_be_allocated_again_only_after_release() {
    let mut used = IdSet::new();
    let a = gen_file_id(&mut used);
    let b = gen_file_id(&mut used);
    assert_ne!(a, b);
    assert!(used.remove(a));
    assert!(!used.contains(a));
    let c = gen_file_id(&mut used);
    assert_ne!(c, b);
    assert!(used.contains(c));
}

use chat_searcher::thread_dsu::ThreadDSU;

fn sorted(mut groups: Vec<Vec<usize>>) -> Vec<Vec<usize>> {
    groups.sort();
    groups
}

#[test]
fn new_structure_is_empty() {
    let dsu = ThreadDSU::new();
    assert_eq!(dsu.find_set(0), None);
    assert!(dsu.get_threads().is_empty());
    assert!(dsu.get_reverse_mapping().is_empty());
}

#[test]
fn make_set_registers_a_singleton() {
    let mut dsu = ThreadDSU::new();
    dsu.make_set(7);
    assert_eq!(dsu.find_set(7), Some(7));
    assert_eq!(dsu.find_set(8), None);
    assert_eq!(dsu.get_threads(), vec![vec![7]]);
}

#[test]
fn union_joins_two_ids() {
    let mut dsu = ThreadDSU::new();
    dsu.make_set(0);
    dsu.make_set(1);
    dsu.make_set(2);
    dsu.union_sets(0, 1);
    assert_eq!(dsu.find_set(0), dsu.find_set(1));
    assert!(dsu.find_set(0).is_some());
    assert_ne!(dsu.find_set(0), dsu.find_set(2));
    assert_eq!(sorted(dsu.get_threads()), vec![vec![0, 1], vec![2]]);
}

#[test]
fn union_is_transitive() {
    let mut dsu = ThreadDSU::new();
    for id in 0..4 {
        dsu.make_set(id);
    }
    dsu.union_sets(0, 1);
    dsu.union_sets(1, 2);
    assert_eq!(dsu.find_set(0), dsu.find_set(2));
    assert_ne!(dsu.find_set(0), dsu.find_set(3));
}

#[test]
fn union_within_one_group_changes_nothing() {
    let mut dsu = ThreadDSU::new();
    for id in 0..3 {
        dsu.make_set(id);
    }
    dsu.union_sets(0, 1);
    dsu.union_sets(1, 2);
    let before = sorted(dsu.get_threads());
    let root = dsu.find_set(0);
    dsu.union_sets(2, 0);
    assert_eq!(sorted(dsu.get_threads()), before);
    assert_eq!(dsu.find_set(0), root);
    assert_eq!(dsu.find_set(2), root);
}

#[test]
fn union_with_an_unknown_id_changes_nothing() {
    let mut dsu = ThreadDSU::new();
    dsu.make_set(0);
    dsu.union_sets(0, 5);
    dsu.union_sets(5, 0);
    assert_eq!(dsu.find_set(0), Some(0));
    assert_eq!(dsu.find_set(5), None);
    assert_eq!(dsu.get_threads(), vec![vec![0]]);
}

#[test]
fn smaller_group_follows_the_larger() {
    let mut dsu = ThreadDSU::new();
    for id in 0..5 {
        dsu.make_set(id);
    }
    dsu.union_sets(3, 4);
    dsu.union_sets(0, 1);
    dsu.union_sets(1, 2);
    // the group of 0 has three members, that of 3 two
    dsu.union_sets(3, 0);
    assert_eq!(dsu.get_threads(), vec![vec![0, 1, 2, 3, 4]]);
    assert_eq!(dsu.find_set(4), Some(0));
}

#[test]
fn equal_groups_keep_the_first_representative() {
    let mut dsu = ThreadDSU::new();
    dsu.make_set(1);
    dsu.make_set(0);
    dsu.union_sets(1, 0);
    assert_eq!(dsu.find_set(0), Some(1));
    assert_eq!(dsu.get_threads(), vec![vec![1, 0]]);
}

#[test]
fn ascending_unions_keep_groups_ascending() {
    let replies: Vec<Option<usize>> = vec![
        None,
        Some(0),
        None,
        Some(1),
        Some(2),
        Some(0),
        None,
        Some(4),
        Some(6),
        Some(3),
    ];
    let mut dsu = ThreadDSU::new();
    for id in 0..replies.len() {
        dsu.make_set(id);
    }
    for (id, reply) in replies.iter().enumerate() {
        if let Some(reply_to) = reply {
            dsu.union_sets(*reply_to, id);
        }
    }
    let groups = sorted(dsu.get_threads());
    assert_eq!(groups, vec![vec![0, 1, 3, 5, 9], vec![2, 4, 7], vec![6, 8]]);
    for group in &groups {
        assert!(group.windows(2).all(|pair| pair[0] < pair[1]));
    }
}

#[test]
fn reverse_mapping_names_the_representative() {
    let mut dsu = ThreadDSU::new();
    for id in 0..4 {
        dsu.make_set(id);
    }
    dsu.union_sets(0, 1);
    dsu.union_sets(2, 3);
    let mapping = dsu.get_reverse_mapping();
    assert_eq!(mapping.len(), 4);
    for id in 0..4 {
        assert_eq!(mapping.get(&id).copied(), dsu.find_set(id));
    }
    assert_eq!(mapping[&1], 0);
    assert_eq!(mapping[&3], 2);
}

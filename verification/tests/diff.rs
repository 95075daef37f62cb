use direnv::env::{apply, diff, empty, inherit, Change, Env};

fn env_of(pairs: &[(&[u8], &[u8])]) -> Env {
    let mut vars: Vec<(Vec<u8>, Vec<u8>)> = Vec::new();
    for (name, value) in pairs {
        vars.push((name.to_vec(), value.to_vec()));
    }
    inherit(vars)
}

#[test]
fn both_empty_gives_no_change() {
    let changes = diff(empty(), empty());
    assert!(changes.is_empty());
    assert_eq!(changes.len(), 0);
    assert!(changes.entries().is_empty());
}

#[test]
fn variable_only_before_is_removed() {
    let changes = diff(env_of(&[(b"FOO", b"1")]), empty());
    assert_eq!(changes.len(), 1);
    assert_eq!(changes.get(b"FOO"), Some(&Change::Remove(b"1".to_vec())));
}

#[test]
fn variable_only_after_is_added() {
    let changes = diff(empty(), env_of(&[(b"FOO", b"1")]));
    assert_eq!(changes.len(), 1);
    assert_eq!(changes.get(b"FOO"), Some(&Change::Add(b"1".to_vec())));
}

#[test]
fn variable_with_new_value_is_replaced() {
    let changes = diff(env_of(&[(b"FOO", b"1")]), env_of(&[(b"FOO", b"2")]));
    assert_eq!(changes.len(), 1);
    assert_eq!(changes.get(b"FOO"), Some(&Change::Replace(b"1".to_vec(), b"2".to_vec())));
}

#[test]
fn variable_with_same_value_is_left_out() {
    let changes = diff(env_of(&[(b"FOO", b"1")]), env_of(&[(b"FOO", b"1")]));
    assert!(changes.is_empty());
    assert_eq!(changes.len(), 0);
    assert_eq!(changes.get(b"FOO"), None);
}

#[test]
fn snapshot_does_not_differ_from_itself() {
    let env = env_of(&[(b"HOME", b"/root"), (b"PATH", b"/bin:/usr/bin"), (b"EMPTY", b"")]);
    let changes = diff(env.clone(), env);
    assert!(changes.is_empty());
    assert_eq!(changes.len(), 0);
}

#[test]
fn disjoint_snapshots_remove_all_and_add_all() {
    let first = env_of(&[(b"A", b"1"), (b"B", b"2"), (b"C", b"3")]);
    let second = env_of(&[(b"X", b"7"), (b"Y", b"8")]);
    let changes = diff(first, second);
    assert_eq!(changes.len(), 5);
    let mut removed = 0;
    let mut added = 0;
    for (_, change) in changes.entries() {
        match change {
            Change::Remove(_) => removed += 1,
            Change::Add(_) => added += 1,
            Change::Replace(_, _) => panic!("nothing is shared"),
        }
    }
    assert_eq!(removed, 3);
    assert_eq!(added, 2);
    assert_eq!(changes.get(b"A"), Some(&Change::Remove(b"1".to_vec())));
    assert_eq!(changes.get(b"B"), Some(&Change::Remove(b"2".to_vec())));
    assert_eq!(changes.get(b"C"), Some(&Change::Remove(b"3".to_vec())));
    assert_eq!(changes.get(b"X"), Some(&Change::Add(b"7".to_vec())));
    assert_eq!(changes.get(b"Y"), Some(&Change::Add(b"8".to_vec())));
}

#[test]
fn shared_name_with_other_value_is_neither_added_nor_removed() {
    let first = env_of(&[(b"KEEP", b"same"), (b"PATH", b"/bin"), (b"OLD", b"x")]);
    let second = env_of(&[(b"KEEP", b"same"), (b"PATH", b"/usr/bin"), (b"NEW", b"y")]);
    let changes = diff(first, second);
    assert_eq!(changes.len(), 3);
    assert_eq!(
        changes.get(b"PATH"),
        Some(&Change::Replace(b"/bin".to_vec(), b"/usr/bin".to_vec()))
    );
    assert_eq!(changes.get(b"OLD"), Some(&Change::Remove(b"x".to_vec())));
    assert_eq!(changes.get(b"NEW"), Some(&Change::Add(b"y".to_vec())));
    assert_eq!(changes.get(b"KEEP"), None);
}

#[test]
fn no_entry_replaces_a_value_by_itself() {
    let first = env_of(&[(b"A", b"1"), (b"B", b"2"), (b"C", b""), (b"D", b"4")]);
    let second = env_of(&[(b"A", b"1"), (b"B", b"3"), (b"C", b""), (b"E", b"5")]);
    let changes = diff(first, second);
    assert_eq!(changes.len(), 3);
    for (_, change) in changes.entries() {
        if let Change::Replace(old_value, new_value) = change {
            assert_ne!(old_value, new_value);
        }
    }
}

#[test]
fn changes_lead_there_and_back() {
    let first = env_of(&[(b"A", b"1"), (b"B", b"2"), (b"C", b"3"), (b"M", b"")]);
    let second = env_of(&[(b"B", b"2"), (b"C", b"30"), (b"D", b"4"), (b"M", b"m")]);
    let forward = diff(first.clone(), second.clone());
    let there = apply(&first, &forward);
    assert_eq!(there, second);
    let backward = diff(second.clone(), first.clone());
    let back = apply(&there, &backward);
    assert_eq!(back, first);
}

#[test]
fn apply_makes_each_kind_of_change() {
    let first = env_of(&[(b"GONE", b"g"), (b"KEPT", b"k"), (b"MOVED", b"old")]);
    let second = env_of(&[(b"KEPT", b"k"), (b"MOVED", b"new"), (b"FRESH", b"f")]);
    let changes = diff(first.clone(), second);
    let changed = apply(&first, &changes);
    assert_eq!(changed.len(), 3);
    assert_eq!(changed.get(b"GONE"), None);
    assert_eq!(changed.get(b"KEPT"), Some(&b"k".to_vec()));
    assert_eq!(changed.get(b"MOVED"), Some(&b"new".to_vec()));
    assert_eq!(changed.get(b"FRESH"), Some(&b"f".to_vec()));
}

#[test]
fn apply_to_another_environment_keeps_what_has_no_change() {
    let changes = diff(
        env_of(&[(b"A", b"1"), (b"B", b"2")]),
        env_of(&[(b"A", b"9"), (b"C", b"3")]),
    );
    let other = env_of(&[(b"B", b"other"), (b"Z", b"z")]);
    let changed = apply(&other, &changes);
    assert_eq!(changed.len(), 3);
    assert_eq!(changed.get(b"A"), Some(&b"9".to_vec()));
    assert_eq!(changed.get(b"B"), None);
    assert_eq!(changed.get(b"C"), Some(&b"3".to_vec()));
    assert_eq!(changed.get(b"Z"), Some(&b"z".to_vec()));
}

#[test]
fn apply_without_changes_copies_the_environment() {
    let env = env_of(&[(b"A", b"1"), (b"B", b"2")]);
    let changed = apply(&env, &diff(empty(), empty()));
    assert_eq!(changed, env);
}

#[test]
fn empty_value_is_not_an_absent_variable() {
    let set_to_nothing = env_of(&[(b"FOO", b"")]);
    assert_eq!(set_to_nothing.get(b"FOO"), Some(&Vec::new()));
    assert_eq!(empty().get(b"FOO"), None);

    let removed = diff(set_to_nothing.clone(), empty());
    assert_eq!(removed.len(), 1);
    assert_eq!(removed.get(b"FOO"), Some(&Change::Remove(Vec::new())));

    let added = diff(empty(), set_to_nothing.clone());
    assert_eq!(added.get(b"FOO"), Some(&Change::Add(Vec::new())));

    let emptied = diff(env_of(&[(b"FOO", b"1")]), set_to_nothing);
    assert_eq!(emptied.get(b"FOO"), Some(&Change::Replace(b"1".to_vec(), Vec::new())));
}

#[test]
fn bytes_that_are_no_text_pass_through() {
    let name: &[u8] = &[0xff, 0xfe, b'X'];
    let old_value: &[u8] = &[0x80, 0x00, 0xc3];
    let new_value: &[u8] = &[0x80, 0x00, 0xc3, 0x28];
    let first = env_of(&[(name, old_value)]);
    let second = env_of(&[(name, new_value)]);
    assert_eq!(first.get(name), Some(&old_value.to_vec()));
    let changes = diff(first.clone(), second.clone());
    assert_eq!(
        changes.get(name),
        Some(&Change::Replace(old_value.to_vec(), new_value.to_vec()))
    );
    assert_eq!(apply(&first, &changes), second);
}

#[test]
fn names_are_compared_byte_by_byte() {
    let first = env_of(&[(b"foo", b"1"), (b"FOO", b"2"), (b"FO", b"3")]);
    let second = env_of(&[(b"foo", b"1"), (b"FOO ", b"2"), (b"FO", b"3")]);
    let changes = diff(first, second);
    assert_eq!(changes.len(), 2);
    assert_eq!(changes.get(b"FOO"), Some(&Change::Remove(b"2".to_vec())));
    assert_eq!(changes.get(b"FOO "), Some(&Change::Add(b"2".to_vec())));
    assert_eq!(changes.get(b"foo"), None);
    assert_eq!(changes.get(b"FO"), None);
}

#[test]
fn changes_are_listed_in_ascending_order_of_names() {
    let first = env_of(&[(b"b", b"1"), (b"a", b"1"), (b"ab", b"1")]);
    let second = env_of(&[(b"", b"1"), (b"B", b"1"), (b"b", b"2")]);
    let changes = diff(first, second);
    let names: Vec<Vec<u8>> = changes.entries().iter().map(|entry| entry.0.clone()).collect();
    assert_eq!(
        names,
        vec![b"".to_vec(), b"B".to_vec(), b"a".to_vec(), b"ab".to_vec(), b"b".to_vec()]
    );
}

#[test]
fn diff_does_not_depend_on_the_order_of_capture() {
    let one = diff(
        env_of(&[(b"A", b"1"), (b"B", b"2"), (b"C", b"3")]),
        env_of(&[(b"C", b"4"), (b"D", b"5")]),
    );
    let other = diff(
        env_of(&[(b"C", b"3"), (b"B", b"2"), (b"A", b"1")]),
        env_of(&[(b"D", b"5"), (b"C", b"4")]),
    );
    assert_eq!(one, other);
}

#[test]
fn change_can_be_cloned() {
    let change = Change::Replace(b"1".to_vec(), b"2".to_vec());
    assert_eq!(change.clone(), change);
    assert_eq!(Change::Add(b"x".to_vec()).clone(), Change::Add(b"x".to_vec()));
    assert_eq!(Change::Remove(Vec::new()).clone(), Change::Remove(Vec::new()));
}

use direnv::env::order::{compare, Relation};
use direnv::env::{empty, inherit};

#[test]
fn empty_snapshot_holds_nothing() {
    let env = empty();
    assert!(env.is_empty());
    assert_eq!(env.len(), 0);
    assert_eq!(env.get(b"PATH"), None);
    assert!(env.entries().is_empty());
}

#[test]
fn inherit_of_nothing_is_empty() {
    assert_eq!(inherit(Vec::new()), empty());
}

#[test]
fn inherit_keeps_every_pair() {
    let env = inherit(vec![
        (b"PATH".to_vec(), b"/bin".to_vec()),
        (b"HOME".to_vec(), b"/root".to_vec()),
        (b"TERM".to_vec(), b"".to_vec()),
    ]);
    assert!(!env.is_empty());
    assert_eq!(env.len(), 3);
    assert_eq!(env.get(b"PATH"), Some(&b"/bin".to_vec()));
    assert_eq!(env.get(b"HOME"), Some(&b"/root".to_vec()));
    assert_eq!(env.get(b"TERM"), Some(&Vec::new()));
    assert_eq!(env.get(b"SHELL"), None);
    assert_eq!(env.get(b""), None);
}

#[test]
fn inherit_lets_the_last_write_win() {
    let env = inherit(vec![
        (b"FOO".to_vec(), b"1".to_vec()),
        (b"BAR".to_vec(), b"x".to_vec()),
        (b"FOO".to_vec(), b"2".to_vec()),
        (b"FOO".to_vec(), b"3".to_vec()),
    ]);
    assert_eq!(env.len(), 2);
    assert_eq!(env.get(b"FOO"), Some(&b"3".to_vec()));
    assert_eq!(env.get(b"BAR"), Some(&b"x".to_vec()));
}

#[test]
fn snapshot_is_a_copy_of_what_was_listed() {
    let mut vars = vec![(b"FOO".to_vec(), b"1".to_vec())];
    let env = inherit(vars.clone());
    vars[0].1 = b"2".to_vec();
    vars.push((b"BAR".to_vec(), b"3".to_vec()));
    assert_eq!(env.len(), 1);
    assert_eq!(env.get(b"FOO"), Some(&b"1".to_vec()));
}

#[test]
fn snapshot_does_not_depend_on_the_order_of_the_list() {
    let one = inherit(vec![
        (b"A".to_vec(), b"1".to_vec()),
        (b"B".to_vec(), b"2".to_vec()),
        (b"C".to_vec(), b"3".to_vec()),
    ]);
    let other = inherit(vec![
        (b"C".to_vec(), b"3".to_vec()),
        (b"A".to_vec(), b"1".to_vec()),
        (b"B".to_vec(), b"2".to_vec()),
    ]);
    assert_eq!(one, other);
    assert_eq!(one.clone(), other);
}

#[test]
fn entries_come_in_ascending_order_of_names() {
    let env = inherit(vec![
        (b"b".to_vec(), b"1".to_vec()),
        (vec![0xff], b"2".to_vec()),
        (b"".to_vec(), b"3".to_vec()),
        (b"a".to_vec(), b"4".to_vec()),
        (b"ab".to_vec(), b"5".to_vec()),
        (b"B".to_vec(), b"6".to_vec()),
    ]);
    let expected: Vec<(Vec<u8>, Vec<u8>)> = vec![
        (b"".to_vec(), b"3".to_vec()),
        (b"B".to_vec(), b"6".to_vec()),
        (b"a".to_vec(), b"4".to_vec()),
        (b"ab".to_vec(), b"5".to_vec()),
        (b"b".to_vec(), b"1".to_vec()),
        (vec![0xff], b"2".to_vec()),
    ];
    assert_eq!(env.entries(), &expected);
}

#[test]
fn many_variables_are_all_found() {
    let mut vars: Vec<(Vec<u8>, Vec<u8>)> = Vec::new();
    for i in 0..200u32 {
        let scrambled = (i * 7919) % 200;
        vars.push((format!("VAR_{}", scrambled).into_bytes(), format!("{}", i).into_bytes()));
    }
    let env = inherit(vars.clone());
    assert_eq!(env.len(), 200);
    for (name, value) in &vars {
        assert_eq!(env.get(name), Some(value));
    }
    assert_eq!(env.get(b"VAR_200"), None);
}

#[test]
fn compare_orders_names_by_their_bytes() {
    assert_eq!(compare(b"", b""), Relation::Same);
    assert_eq!(compare(b"FOO", b"FOO"), Relation::Same);
    assert_eq!(compare(b"", b"A"), Relation::Before);
    assert_eq!(compare(b"A", b""), Relation::After);
    assert_eq!(compare(b"FO", b"FOO"), Relation::Before);
    assert_eq!(compare(b"FOO", b"FO"), Relation::After);
    assert_eq!(compare(b"FOO", b"FOP"), Relation::Before);
    assert_eq!(compare(b"B", b"AAAA"), Relation::After);
    assert_eq!(compare(b"Z", b"a"), Relation::Before);
    assert_eq!(compare(&[0x7f], &[0x80]), Relation::Before);
    assert_eq!(compare(&[0xff], &[0x00, 0xff]), Relation::After);
}

use panoradix::path::Path;

#[test]
fn it_gets_the_right_common_prefix() {
    let a = "a".to_string();
    let abc = "abc".to_string();
    let ac = "ac".to_string();
    let b = "b".to_string();
    let bc = "bc".to_string();
    let c = "c".to_string();
    assert_eq!(a.suffix_with(&b), b);
    assert_eq!(a.suffix_with(&ac), c);
    assert_eq!(a.suffix_with(&abc), bc);
}

#[test]
fn it_handles_empty_strings() {
    let a = "a".to_string();
    let empty = "".to_string();
    assert_eq!(a.suffix_with(&empty), empty);
    assert_eq!(empty.suffix_with(&a), a);
    assert_eq!(empty.suffix_with(&empty), empty);
}

#[test]
fn it_says_if_it_has_a_common_suffix() {
    let a = "a".to_string();
    let d = "d".to_string();
    assert!(!a.has_common_prefix(&d));
    assert!(!d.has_common_prefix(&a));
}

#[test]
fn prefix_and_suffix_of_a_longer_first_string() {
    let abcd = "abcd".to_string();
    let abx = "abx".to_string();
    assert_eq!(abcd.get_prefix_and_suffix(&abx), ("ab".to_string(), "cd".to_string()));
    assert_eq!(abcd.prefix_with(&abx), "ab".to_string());
    assert!(abcd.has_common_prefix(&abx));
    assert!(abcd.has_common_suffix(&abx));
}

#[test]
fn prefix_and_suffix_of_equal_strings() {
    let ab = "ab".to_string();
    assert_eq!(ab.get_prefix_and_suffix(&ab.clone()), ("ab".to_string(), "".to_string()));
    assert!(!ab.has_common_suffix(&ab.clone()));
}

#[test]
fn prefix_and_suffix_count_characters() {
    let a = "h\u{e9}llo".to_string();
    let b = "h\u{e9}las".to_string();
    assert_eq!(a.get_prefix_and_suffix(&b), ("h\u{e9}l".to_string(), "lo".to_string()));
}

#[test]
fn path_is_empty_only_without_characters() {
    assert!(Path::is_empty(&"".to_string()));
    assert!(!Path::is_empty(&"a".to_string()));
}

use search_replace::cmd::{parse_groups, parse_index, parse_trail};
use search_replace::types::{Error, Groups, PosGroups};

fn pos(entries: &[(usize, &str)]) -> PosGroups {
    let mut m = PosGroups::new();
    for (k, v) in entries {
        m.insert(*k, v.as_bytes().to_vec());
    }
    m
}

#[test]
fn test_parse() {
    // no equal sign
    let result = parse_groups(&["foo", "0=bar"]);
    assert!(result.is_err(), "{:?}", result);

    // positional args
    let result = parse_groups(&["0=all", "1=a", "2=b"]).unwrap();
    let expected = Groups::Pos(pos(&[(0, "all"), (1, "a"), (2, "b")]));
    assert_eq!(result, expected);

    // parse trail
    let trail = vec!["file1", "file2", "--", "1=a"];
    let (files, groups) = parse_trail(trail).unwrap();
    assert_eq!(groups, Groups::Pos(pos(&[(1, "a")])));
    assert_eq!(files, vec!["file1", "file2"]);
}

#[test]
fn malformed_token_is_named_in_error() {
    let result = parse_groups(&["0=a", "foo", "bar"]);
    assert_eq!(result, Err(Error::MalformedGroup("foo".to_string())));
}

#[test]
fn mixed_keys_are_rejected() {
    assert_eq!(parse_groups(&["0=all", "foo=bar"]), Err(Error::MixedGroups));
    assert_eq!(parse_groups(&["name=x", "3=y"]), Err(Error::MixedGroups));
}

#[test]
fn no_tokens_is_an_error() {
    assert_eq!(parse_groups(&[]), Err(Error::NoGroups));
}

#[test]
fn named_keys_only_are_refused() {
    assert_eq!(parse_groups(&["friend=Scrappy", "pet=dog"]), Err(Error::NamedUnsupported));
    assert_eq!(
        parse_trail(vec!["f", "--", "friend=Scrappy"]),
        Err(Error::NamedUnsupported)
    );
}

#[test]
fn value_keeps_later_equals_signs_and_utf8() {
    let result = parse_groups(&["1=a=b", "2=é", "3="]).unwrap();
    let mut expected = pos(&[(1, "a=b"), (3, "")]);
    expected.insert(2, vec![0xc3, 0xa9]);
    assert_eq!(result, Groups::Pos(expected));
}

#[test]
fn later_token_for_same_index_wins() {
    let result = parse_groups(&["1=a", "1=b"]).unwrap();
    assert_eq!(result, Groups::Pos(pos(&[(1, "b")])));
}

#[test]
fn plus_sign_key_is_positional() {
    let result = parse_groups(&["+2=x"]).unwrap();
    assert_eq!(result, Groups::Pos(pos(&[(2, "x")])));
}

#[test]
fn trail_without_separator_has_no_groups() {
    assert_eq!(parse_trail(vec!["a", "b"]), Err(Error::NoGroups));
}

#[test]
fn trail_splits_at_first_separator() {
    let (files, groups) = parse_trail(vec!["--", "0=x"]).unwrap();
    assert!(files.is_empty());
    assert_eq!(groups, Groups::Pos(pos(&[(0, "x")])));
    let result = parse_trail(vec!["f", "--", "0=x", "--"]);
    assert_eq!(result, Err(Error::MalformedGroup("--".to_string())));
}

#[test]
fn parse_index_cases() {
    assert_eq!(parse_index(b"0"), Some(0));
    assert_eq!(parse_index(b"42"), Some(42));
    assert_eq!(parse_index(b"+7"), Some(7));
    assert_eq!(parse_index(b"007"), Some(7));
    assert_eq!(parse_index(b""), None);
    assert_eq!(parse_index(b"+"), None);
    assert_eq!(parse_index(b"-1"), None);
    assert_eq!(parse_index(b"1a"), None);
    assert_eq!(parse_index(b" 1"), None);
    assert_eq!(parse_index(b"18446744073709551615"), Some(usize::MAX));
    assert_eq!(parse_index(b"18446744073709551616"), None);
    assert_eq!(parse_index(b"99999999999999999999999"), None);
}

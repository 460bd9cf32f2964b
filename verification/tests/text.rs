use binfs::eval::{deterministic_data, optional};
use binfs::sorting::sort_dedup;
use binfs::text::{
    chars_of, join_strs, contains_char, decimal_string, last_index_in, parse_u64, parse_u64_chars,
    split_nonempty, split_once_colons, starts_with, str_less, substring, trimmed_len,
};

fn strings(v: &[&str]) -> Vec<String> {
    v.iter().map(|s| s.to_string()).collect()
}

#[test]
fn numbers_parse_and_print_in_decimal() {
    assert_eq!(parse_u64("0"), Some(0));
    assert_eq!(parse_u64("18446744073709551615"), Some(u64::MAX));
    assert_eq!(parse_u64("18446744073709551616"), None);
    assert_eq!(parse_u64(""), None);
    assert_eq!(parse_u64("+5"), "+5".parse::<u64>().ok());
    assert_eq!(parse_u64("12a"), None);
    assert_eq!(parse_u64("007"), Some(7));
    assert_eq!(decimal_string(0), "0");
    assert_eq!(decimal_string(1234567890), "1234567890");
    assert_eq!(decimal_string(u64::MAX), u64::MAX.to_string());
    assert_eq!(optional(Some(42)), "42");
    assert_eq!(optional(None), "");
}

#[test]
fn hex_prefixes_parse_like_from_str_radix() {
    let v = chars_of("00ffZ");
    assert_eq!(parse_u64_chars(&v, 0, 4, 16), Some(255));
    assert_eq!(parse_u64_chars(&v, 0, 5, 16), None);
    assert_eq!(parse_u64_chars(&v, 2, 4, 16), u64::from_str_radix("ff", 16).ok());
    assert_eq!(parse_u64_chars(&v, 2, 2, 16), None);
}

#[test]
fn strings_compare_by_bytes() {
    assert!(str_less("Alpha", "alpha"));
    assert!(str_less("a", "ab"));
    assert!(!str_less("ab", "a"));
    assert!(!str_less("same", "same"));
    assert!(str_less("z", "é"));
}

#[test]
fn paths_split_into_nonempty_pieces() {
    assert_eq!(split_nonempty("//a///b/", '/'), strings(&["a", "b"]));
    assert!(split_nonempty("///", '/').is_empty());
    assert_eq!(split_nonempty("abc", '/'), strings(&["abc"]));
}

#[test]
fn colon_pairs_split_at_the_first_separator() {
    assert_eq!(
        split_once_colons("a::b::c"),
        Some(("a".to_string(), "b::c".to_string()))
    );
    assert_eq!(
        split_once_colons("a:::b"),
        Some(("a".to_string(), ":b".to_string()))
    );
    assert_eq!(split_once_colons("a:b"), None);
}

#[test]
fn small_string_helpers() {
    assert_eq!(join_strs("ab", "cd"), "abcd");
    assert!(starts_with("key::x", "key::"));
    assert!(!starts_with("ke", "key::"));
    assert_eq!(substring("héllo", 1, 3), "él");
    assert!(contains_char("a/b", '/'));
    assert!(!contains_char("ab", '/'));
    let v = chars_of("/a/b//");
    assert_eq!(v.len(), 6);
    assert_eq!(trimmed_len(&v, '/'), 4);
    assert_eq!(last_index_in(&v, 4, '/'), Some(2));
    assert_eq!(last_index_in(&v, 1, 'a'), None);
}

#[test]
fn sorting_drops_repeats() {
    assert_eq!(
        sort_dedup(&strings(&["b", "a", "b", "C"])),
        strings(&["C", "a", "b"])
    );
    assert!(sort_dedup(&vec![]).is_empty());
}

#[test]
fn the_payload_is_deterministic() {
    let data = deterministic_data(300);
    assert_eq!(data.len(), 300);
    for (index, byte) in data.iter().enumerate() {
        assert_eq!(*byte, (index.wrapping_mul(31).wrapping_add(17) % 251) as u8);
    }
    assert_eq!(&data[..3], &[17, 48, 79]);
    assert!(deterministic_data(0).is_empty());
}

use gba_test::contains::{contains, hash};

#[test]
fn hash_hi() {
    assert_eq!(hash("hi"), 65);
}

#[test]
fn hash_abr() {
    assert_eq!(hash("abr"), 4);
}

#[test]
fn hash_bra() {
    assert_eq!(hash("bra"), 30);
}

#[test]
fn hash_empty_is_zero() {
    assert_eq!(hash(""), 0);
}

#[test]
fn contains_empty_substring() {
    assert!(contains("foo", ""));
    assert!(contains("", ""));
}

#[test]
fn contains_longer_substring_is_absent() {
    assert!(!contains("ab", "abc"));
}

#[test]
fn contains_at_start_middle_and_end() {
    assert!(contains("abracadabra", "abr"));
    assert!(contains("abracadabra", "cad"));
    assert!(contains("abracadabra", "bra"));
    assert!(contains("foo bar baz", "foo bar baz"));
}

#[test]
fn contains_absent_substring() {
    assert!(!contains("abracadabra", "abd"));
    assert!(!contains("foo bar baz", "qux"));
}

#[test]
fn contains_with_hash_collision() {
    // "abr" and a different three-byte string with the same hash modulo 101.
    let target = hash("abr");
    let mut collider = None;
    for a in b'a'..=b'z' {
        for b in b'a'..=b'z' {
            for c in b'a'..=b'z' {
                let s = String::from_utf8(vec![a, b, c]).unwrap();
                if s != "abr" && hash(&s) == target {
                    collider = Some(s);
                }
            }
        }
    }
    let collider = collider.unwrap();
    assert!(!contains("abr", &collider));
    assert!(contains(&format!("xx{collider}yy"), &collider));
}

use gba_test::contains::Searcher;

fn naive(text: &str, pattern: &str) -> bool {
    text.as_bytes().windows(pattern.len().max(1)).any(|w| w == pattern.as_bytes())
        || pattern.is_empty()
}

fn search_in_pieces(pieces: &[&str], pattern: &str) -> bool {
    let mut s = Searcher::new(pattern);
    for piece in pieces {
        s.write_str(piece);
    }
    s.found()
}

#[test]
fn searcher_across_pieces() {
    assert!(search_in_pieces(&["foo b", "ar", " baz"], "o bar b"));
    assert!(search_in_pieces(&["a", "b", "r", "a"], "bra"));
    assert!(!search_in_pieces(&["a", "b", "r", "a"], "brr"));
    assert!(search_in_pieces(&[], ""));
    assert!(!search_in_pieces(&[], "a"));
    assert!(!search_in_pieces(&["ab"], "abc"));
}

#[test]
fn searcher_agrees_with_a_plain_scan() {
    let texts = ["", "a", "abracadabra", "mississippi", "aaaaab", "the quick brown fox"];
    let patterns = ["", "a", "ab", "ssi", "issip", "aab", "brown fox", "xyz", "abracadabra!"];
    for text in texts {
        for pattern in patterns {
            let expected = naive(text, pattern);
            assert_eq!(contains(text, pattern), expected, "{text} / {pattern}");
            for cut in 0..=text.len() {
                let (left, right) = text.split_at(cut);
                assert_eq!(search_in_pieces(&[left, right], pattern), expected, "{text} / {pattern}");
            }
        }
    }
}

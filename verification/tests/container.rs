//! Tests of the owned container and the borrowed text view: pushing
//! characters, concatenation, the byte-level queries, and the capacity
//! operations.

use ume8::{Ume8Str, Ume8String};

fn from_chars(s: &str) -> Ume8String {
    let mut out = Ume8String::new();
    for ch in s.chars() {
        out.push(ch);
    }
    out
}

fn chars_of(s: &Ume8String) -> Vec<char> {
    let mut iter = s.as_str().chars();
    let mut out = Vec::new();
    while let Some(c) = iter.next() {
        out.push(c);
    }
    out
}

#[test]
fn test_push_encodes_each_character() {
    let s = from_chars("aöu😀");
    assert_eq!(
        s.into_bytes(),
        vec![97, 199, 182, 117, 195, 157, 144, 160]
    );
}

#[test]
fn test_chars_round_trip() {
    let s = from_chars("aöu😀");
    assert_eq!(chars_of(&s), vec!['a', 'ö', 'u', '😀']);
}

#[test]
fn test_push_string_concatenates() {
    let mut s = from_chars("aö");
    let t = from_chars("u😀");
    s.push_string(t);
    assert_eq!(chars_of(&s), vec!['a', 'ö', 'u', '😀']);
}

#[test]
fn test_new_and_with_capacity_are_empty() {
    assert_eq!(Ume8String::new().into_bytes(), Vec::<u8>::new());
    assert_eq!(Ume8String::with_capacity(64).into_bytes(), Vec::<u8>::new());
    assert!(Ume8String::new().as_str().is_empty());
}

#[test]
fn test_clear_empties_the_buffer() {
    let mut s = from_chars("aö");
    s.clear();
    assert!(s.as_str().is_empty());
    assert_eq!(s.into_bytes(), Vec::<u8>::new());
}

#[test]
fn test_from_bytes_unchecked_keeps_bytes() {
    let bytes: Vec<u8> = vec![97, 199, 182];
    let s = Ume8String::from_bytes_unchecked(bytes.clone());
    assert_eq!(s.into_bytes(), bytes);
}

#[test]
fn test_capacity_operations_keep_contents() {
    let mut s = from_chars("aö");
    let bytes = s.as_str().as_bytes().to_vec();
    s.reserve(100);
    assert!(s.capacity() >= 3);
    s.reserve_exact(50);
    s.shrink_to(8);
    s.shrink_to_fit();
    assert_eq!(s.as_str().as_bytes(), &bytes[..]);
}

#[test]
fn test_str_len_and_bytes() {
    let s = from_chars("aö");
    let view = s.as_str();
    assert_eq!(view.len(), 3);
    assert!(!view.is_empty());
    assert_eq!(view.as_bytes(), &[97, 199, 182]);
}

#[test]
fn test_is_ascii() {
    assert!(from_chars("abcd").as_str().is_ascii());
    assert!(!from_chars("aö").as_str().is_ascii());
    assert!(Ume8String::new().as_str().is_ascii());
}

#[test]
fn test_contains() {
    let hay = from_chars("aöu😀");
    let needle = from_chars("öu");
    let missing = from_chars("x");
    let empty = Ume8String::new();
    assert!(hay.as_str().contains(&needle.as_str()));
    assert!(!hay.as_str().contains(&missing.as_str()));
    assert!(hay.as_str().contains(&empty.as_str()));
    assert!(empty.as_str().contains(&empty.as_str()));
    assert!(!empty.as_str().contains(&needle.as_str()));
}

#[test]
fn test_starts_with_and_ends_with() {
    let hay = from_chars("aöu😀");
    let prefix = from_chars("aö");
    let suffix = from_chars("u😀");
    let empty = Ume8String::new();
    assert!(hay.as_str().starts_with(&prefix.as_str()));
    assert!(!hay.as_str().starts_with(&suffix.as_str()));
    assert!(hay.as_str().ends_with(&suffix.as_str()));
    assert!(!hay.as_str().ends_with(&prefix.as_str()));
    assert!(hay.as_str().starts_with(&empty.as_str()));
    assert!(hay.as_str().ends_with(&empty.as_str()));
}

#[test]
fn test_str_new_views_raw_bytes() {
    let bytes: Vec<u8> = vec![97, 98];
    let view = Ume8Str::new(&bytes);
    assert_eq!(view.len(), 2);
    assert!(view.is_ascii());
}

#[test]
fn test_char_iteration_backward() {
    let s = from_chars("aöu😀");
    let mut iter = s.as_str().chars();
    assert_eq!(iter.next_back(), Some('😀'));
    assert_eq!(iter.next(), Some('a'));
    assert_eq!(iter.next_back(), Some('u'));
    assert_eq!(iter.next(), Some('ö'));
    assert_eq!(iter.next(), None);
}

#[test]
fn test_char_count_and_size_hint() {
    let s = from_chars("aöu😀");
    let iter = s.as_str().chars();
    let (lower, upper) = iter.size_hint();
    assert_eq!(upper, Some(8));
    assert!(lower <= 4 && 4 <= upper.unwrap());
    assert_eq!(s.as_str().chars().count(), 4);
}

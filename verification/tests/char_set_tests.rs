use std::ops::RangeInclusive;

use rand::rngs::StdRng;
use rand::SeedableRng;
use sapling::char_set::CharSet;

#[test]
fn split_range() {
    fn convert_range(range: &RangeInclusive<u32>) -> RangeInclusive<char> {
        let start = char::from_u32(*range.start()).unwrap();
        let end = char::from_u32(*range.end()).unwrap();
        start..=end
    }

    fn check(
        range: RangeInclusive<u32>,
        boundary: u32,
        left: Option<RangeInclusive<u32>>,
        right: Option<RangeInclusive<u32>>,
    ) {
        let range = convert_range(&range);
        let boundary = char::from_u32(boundary).unwrap();
        let left = left.as_ref().map(convert_range);
        let right = right.as_ref().map(convert_range);

        assert_eq!(sapling::char_set::split_range(&range, boundary), (left, right));
    }

    check(0..=10, 5, Some(0..=4), Some(5..=10));
    check(0..=10, 10, Some(0..=9), Some(10..=10));
    check(0..=10, 0, None, Some(0..=10));
    check(5..=10, 0, None, Some(5..=10));
    check(5..=10, 6, Some(5..=5), Some(6..=10));
}

#[test]
fn split_range_outside_boundary() {
    assert_eq!(sapling::char_set::split_range(&('a'..='z'), '\u{80}'), (Some('a'..='z'), None));
    assert_eq!(sapling::char_set::split_range(&('é'..='ü'), '\u{80}'), (None, Some('é'..='ü')));
    assert_eq!(sapling::char_set::split_range(&('a'..='é'), '\u{80}'), (Some('a'..='\u{7f}'), Some('\u{80}'..='é')));
}

fn members(set: &CharSet) -> Vec<char> {
    let sampler = set.sampler();
    (0..set.len()).map(|i| sampler.sample_at(i)).collect()
}

#[test]
fn empty_and_none() {
    let e = CharSet::empty();
    let n = CharSet::none();
    assert_eq!(e.len(), 0);
    assert_eq!(n.len(), 0);
    assert!(!e.contains('a'));
    assert!(!n.contains('\u{1000}'));
    assert!(members(&e).is_empty());
}

#[test]
fn all_contains_every_char() {
    let all = CharSet::all();
    assert_eq!(all.len(), 0x10F800);
    for c in ['\0', 'a', '\u{7f}', '\u{80}', '\u{128}', 'é', '\u{D7FF}', '\u{E000}', char::MAX] {
        assert!(all.contains(c), "{:?}", c);
    }
    let sampler = all.sampler();
    assert_eq!(sampler.sample_at(0), '\0');
    assert_eq!(sampler.sample_at(0x80), '\u{80}');
    assert_eq!(sampler.sample_at(0xD7FF), '\u{D7FF}');
    assert_eq!(sampler.sample_at(0xD800), '\u{E000}');
    assert_eq!(sampler.sample_at(0x10F7FF), char::MAX);
}

#[test]
fn insert_ascii() {
    let mut set = CharSet::empty();
    assert!(!set.insert('b'));
    assert!(!set.insert('a'));
    assert!(set.insert('b'));
    assert_eq!(set.len(), 2);
    assert!(set.contains('a'));
    assert!(set.contains('b'));
    assert!(!set.contains('c'));
    assert_eq!(members(&set), vec!['a', 'b']);
}

#[test]
fn insert_non_ascii_merges_neighbours() {
    let mut set = CharSet::empty();
    assert!(!set.insert('\u{102}'));
    assert!(!set.insert('\u{100}'));
    // Extends the range starting at `\u{102}` downwards
    assert!(!set.insert('\u{101}'));
    // Extends the range ending at `\u{102}` upwards
    assert!(!set.insert('\u{103}'));
    assert!(set.insert('\u{101}'));
    assert!(!set.insert('\u{2000}'));
    assert!(!set.insert('z'));
    assert_eq!(set.len(), 6);
    assert_eq!(members(&set), vec!['z', '\u{100}', '\u{101}', '\u{102}', '\u{103}', '\u{2000}']);
    assert!(set.contains('\u{100}'));
    assert!(set.contains('\u{103}'));
    assert!(!set.contains('\u{104}'));
    assert!(!set.contains('\u{ff}'));
    assert!(!set.contains('\u{1fff}'));
    assert!(set.contains('\u{2000}'));
    assert!(!set.contains('\u{2001}'));
}

#[test]
fn insert_beside_surrogates() {
    let mut set = CharSet::empty();
    assert!(!set.insert('\u{D7FF}'));
    assert!(!set.insert('\u{E000}'));
    assert_eq!(set.len(), 2);
    assert_eq!(members(&set), vec!['\u{D7FF}', '\u{E000}']);
}

#[test]
fn remove_chars() {
    let mut set = CharSet::empty();
    set.insert_range('a'..='e');
    set.insert_range('\u{100}'..='\u{105}');
    assert_eq!(set.len(), 11);
    assert!(set.remove('c'));
    assert!(!set.remove('c'));
    assert!(set.remove('\u{102}'));
    assert!(set.remove('\u{100}'));
    assert!(set.remove('\u{105}'));
    assert!(!set.remove('\u{200}'));
    assert_eq!(set.len(), 7);
    assert_eq!(members(&set), vec!['a', 'b', 'd', 'e', '\u{101}', '\u{103}', '\u{104}']);
    assert!(set.remove('\u{101}'));
    assert!(!set.contains('\u{101}'));
    assert_eq!(set.len(), 6);
}

#[test]
fn insert_then_remove_restores() {
    let mut set = CharSet::empty();
    set.insert_range('0'..='9');
    set.insert('\u{3000}');
    let before = members(&set);
    assert!(!set.insert('\u{2fff}'));
    assert!(set.remove('\u{2fff}'));
    assert_eq!(members(&set), before);
    assert_eq!(set.len(), before.len());
}

#[test]
fn insert_range_ascii() {
    let mut set = CharSet::empty();
    set.insert_range('a'..='z');
    assert_eq!(set.len(), 26);
    assert!(set.contains('a'));
    assert!(set.contains('m'));
    assert!(set.contains('z'));
    assert!(!set.contains('A'));
    // `x`, `y` and `z` are already present; `{`, `|`, `}`, `~` and DEL are new
    set.insert_range('x'..='\u{7f}');
    assert_eq!(set.len(), 26 + 5);
    assert!(set.contains('\u{7f}'));
    // An empty range inserts nothing
    set.insert_range('Z'..='A');
    assert_eq!(set.len(), 31);
}

#[test]
fn insert_range_across_boundary() {
    let mut set = CharSet::empty();
    set.insert_range('x'..='\u{85}');
    assert_eq!(set.len(), 14);
    assert!(set.contains('x'));
    assert!(set.contains('\u{7f}'));
    assert!(set.contains('\u{80}'));
    assert!(set.contains('\u{85}'));
    assert!(!set.contains('\u{86}'));
    set.insert_range('\u{D7F0}'..='\u{E00F}');
    assert_eq!(set.len(), 14 + 16 + 16);
    assert!(set.contains('\u{D7FF}'));
    assert!(set.contains('\u{E000}'));
    assert!(set.contains('\u{E00F}'));
}

#[test]
fn sample_gives_members() {
    let mut set = CharSet::empty();
    set.insert_range('a'..='c');
    set.insert('\u{500}');
    let sampler = set.sampler();
    let mut rng = StdRng::seed_from_u64(7);
    for _ in 0..100 {
        let c = sampler.sample(&mut rng).unwrap();
        assert!(set.contains(c));
    }
    let empty = CharSet::empty();
    assert_eq!(empty.sampler().sample(&mut rng), None);
}

#[test]
fn from_chars_and_ranges() {
    let set = CharSet::from_chars(&vec!['x', 'a', 'x', '\u{400}']);
    assert_eq!(set.len(), 3);
    assert!(set.contains('a') && set.contains('x') && set.contains('\u{400}'));
    let set = CharSet::from_ranges(vec!['a'..='c', 'b'..='e', '\u{100}'..='\u{101}']);
    assert_eq!(set.len(), 7);
    assert!(set.contains('e'));
    assert!(!set.contains('f'));
    assert!(set.contains('\u{101}'));
}

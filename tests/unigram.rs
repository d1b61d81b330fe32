use nessie::region::Region;
use nessie::unigram::{Marker, Unigram, INLINE_CAP};
use std::mem::size_of;

const TEST_STRS: [&'static str; 6] = [
    "",
    "T",
    "The quick",
    "The quick brown",
    "The quick brown ",
    "The quick brown fox jumps over the lazy dog",
];

#[test]
fn test_size() {
    assert_eq!(size_of::<Unigram>(), 16);
    assert_eq!(size_of::<Unigram>(), INLINE_CAP + 1);

    // The representation does not depend on which region backs a token.
    assert_eq!(size_of::<Unigram>(), size_of::<[u8; 16]>());
}

fn region() -> Region {
    Region::new(0, usize::MAX)
}

#[test]
fn test_length() {
    let mut r = region();
    for s in TEST_STRS {
        let u = Unigram::from_slice_in(s, &mut r).unwrap();
        assert_eq!(u.len(), s.len());
    }
}

#[test]
fn test_inline() {
    let mut r = region();
    for s in TEST_STRS {
        let u = Unigram::from_slice_in(s, &mut r).unwrap();
        assert_eq!(u.is_inline(), s.len() <= INLINE_CAP);
    }
}

#[test]
fn test_inline_alloc() {
    // A region that cannot hand out a single byte: inline tokens never ask it.
    let mut a = Region::new(0, 0);
    for s in TEST_STRS.iter().filter(|s| s.len() <= INLINE_CAP) {
        let u = Unigram::from_slice_in(s, &mut a).unwrap();
        assert_eq!(u.is_inline(), true);
    }
    assert_eq!(a.allocated_bytes(), 0);
}

#[test]
fn test_box_alloc() {
    // A long token asks the region, which refuses with a typed error.
    let mut a = Region::new(0, 0);
    let u = Unigram::from_slice_in(TEST_STRS[4], &mut a);
    assert!(u.is_err());
    assert_eq!(a.allocated_bytes(), 0);
}

#[test]
fn test_eq() {
    let mut r = region();
    for s in TEST_STRS {
        let u1 = Unigram::from_slice_in(s, &mut r).unwrap();
        let u2 = Unigram::from_slice_in(s, &mut r).unwrap();

        assert!(u1.eq_in(&u2, &r));
        assert!(!(!u1.eq_in(&u2, &r)));
    }
}

#[test]
fn test_neq() {
    let mut r = region();
    for (s1, s2) in TEST_STRS.iter().zip(&TEST_STRS[1..]) {
        let u1 = Unigram::from_slice_in(s1, &mut r).unwrap();
        let u2 = Unigram::from_slice_in(s2, &mut r).unwrap();

        assert!(!u1.eq_in(&u2, &r));
        assert!(!(u1.eq_in(&u2, &r)));
    }
}

#[test]
fn test_eq_str() {
    let mut r = region();
    for s in TEST_STRS {
        let u = Unigram::from_slice_in(s, &mut r).unwrap();

        assert!(u.as_str(&r) == s);
        assert!(s == u.as_str(&r));
        assert!(u.eq_str(s, &r));
    }
}

#[test]
fn round_trip_short_and_long() {
    let mut r = region();
    let short = "fifteen bytes!!";
    assert_eq!(short.len(), 15);
    let long: String = "abcdefghij".repeat(10);
    assert_eq!(long.len(), 100);
    let a = Unigram::from_slice_in(short, &mut r).unwrap();
    let b = Unigram::from_slice_in(&long[..16], &mut r).unwrap();
    let c = Unigram::from_slice_in(&long, &mut r).unwrap();
    assert_eq!(a.as_str(&r), short);
    assert_eq!(b.as_str(&r), &long[..16]);
    assert_eq!(c.as_str(&r), long.as_str());
    assert!(a.is_inline());
    assert!(!b.is_inline());
    // 16 bytes take one block, 100 bytes take seven.
    assert_eq!(r.allocated_bytes(), 16 + 112);
}

#[test]
fn round_trip_multibyte_text() {
    let mut r = region();
    let s = "naïve café señor";
    let u = Unigram::from_slice_in(s, &mut r).unwrap();
    assert_eq!(u.as_str(&r), s);
    assert_eq!(u.to_text(&r), s.to_string());
}

#[test]
fn boxed_tokens_differ_by_content() {
    let mut r = region();
    let a = Unigram::from_slice_in("abcdefghijklmnopq", &mut r).unwrap();
    let b = Unigram::from_slice_in("abcdefghijklmnopz", &mut r).unwrap();
    let c = Unigram::from_slice_in("abcdefghijklmnopq", &mut r).unwrap();
    assert!(!a.eq_in(&b, &r));
    assert!(a.eq_in(&c, &r));
    assert!(!a.eq_str("abcdefghijklmnop", &r));
}

#[test]
fn empty_token() {
    let r = region();
    let u = Unigram::new();
    assert_eq!(u.len(), 0);
    assert!(u.is_inline());
    assert_eq!(u.as_str(&r), "");
}

#[test]
fn marker_bits() {
    let m = Marker::new_inline(9);
    assert!(m.is_inline());
    assert_eq!(m.len(), 9);
    let b = Marker::new_boxed(130);
    assert!(!b.is_inline());
    assert_eq!(b.len(), 2);
    assert_eq!(Marker::new_boxed(43).len(), 43);
}

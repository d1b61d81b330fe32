use nessie::clone_in::CloneIn;
use nessie::region::Region;
use nessie::unigram::Unigram;

#[test]
fn blocks_are_padded_to_sixteen() {
    let mut r = Region::new(7, 1000);
    let off = r.alloc_copy(b"hello").unwrap();
    assert_eq!(off, 0);
    assert_eq!(r.allocated_bytes(), 16);
    let off2 = r.alloc_copy(&[1u8; 17]).unwrap();
    assert_eq!(off2, 16);
    assert_eq!(r.allocated_bytes(), 48);
    assert_eq!(r.slice(16, 17), &[1u8; 17][..]);
    assert_eq!(r.slice(0, 5), b"hello");
}

#[test]
fn allocation_fails_when_full() {
    let mut r = Region::new(0, 32);
    assert!(r.fits(32));
    assert!(!r.fits(33));
    assert!(r.alloc_copy(&[0u8; 20]).is_ok());
    assert!(r.alloc_copy(&[0u8; 1]).is_err());
    assert_eq!(r.allocated_bytes(), 32);
}

#[test]
fn reset_empties_and_starts_new_generation() {
    let mut r = Region::new(3, 100);
    r.alloc_copy(b"abc").unwrap();
    let g = r.generation_of();
    r.reset();
    assert_eq!(r.allocated_bytes(), 0);
    assert_ne!(r.generation_of(), g);
    assert_eq!(r.id_of(), 3);
    assert_eq!(r.capacity_of(), 100);
}

#[test]
fn clone_in_copies_boxed_text() {
    let mut a = Region::new(0, 1000);
    let mut b = Region::new(1, 1000);
    let long = Unigram::from_slice_in("a rather long token text", &mut a).unwrap();
    let short = Unigram::from_slice_in("short", &mut a).unwrap();
    let long2 = long.clone_in(&a, &mut b).unwrap();
    let short2 = short.clone_in(&a, &mut b).unwrap();
    assert_eq!(b.allocated_bytes(), 32);
    a.reset();
    assert_eq!(long2.as_str(&b), "a rather long token text");
    assert_eq!(short2.as_str(&b), "short");
}

#[test]
fn clone_in_fails_when_target_is_full() {
    let mut a = Region::new(0, 1000);
    let mut b = Region::new(1, 16);
    let long = Unigram::from_slice_in("a rather long token text", &mut a).unwrap();
    assert!(long.clone_in(&a, &mut b).is_err());
}

#[test]
fn charges_count_toward_usage_but_hold_no_bytes() {
    let mut r = Region::new(0, 64);
    r.alloc_copy(b"abc").unwrap();
    assert!(r.charge(20).is_ok());
    assert_eq!(r.allocated_bytes(), 48);
    assert!(r.charge(17).is_err());
    assert_eq!(r.allocated_bytes(), 48);
    assert_eq!(r.slice(0, 3), b"abc");
    r.reset();
    assert_eq!(r.allocated_bytes(), 0);
}

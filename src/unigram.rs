use vstd::prelude::*;
use vstd::utf8::{encode_utf8, valid_utf8, encode_utf8_decode_utf8, encode_utf8_valid_utf8};
use vstd::string::StringSliceAdditionalSpecFns;
use crate::region::{AllocError, Region, padded, MAX_REGION_BYTES};
use crate::clone_in::CloneIn;

verus! {

/// Longest text, in bytes, that a token holds inline.
pub const INLINE_CAP: usize = 15;

const MARKER_LEN_MASK: u8 = 0x7f;

const MARKER_DISC_MASK: u8 = 0x80;

/// The UTF-8 bytes of a text.
pub open spec fn utf8_of(s: Seq<char>) -> Seq<u8> {
    encode_utf8(s)
}

/// Bytes that a deep copy of a token of text `s` takes from a region.
pub open spec fn token_cost(s: Seq<char>) -> nat {
    if utf8_of(s).len() <= INLINE_CAP {
        0
    } else {
        padded(utf8_of(s).len())
    }
}

/// Relies on std::str::from_utf8: `Ok` exactly when the bytes are valid UTF-8,
/// and then a view of those same bytes.
#[verifier::external_body]
fn text_of(b: &[u8]) -> (r: Option<&str>)
    ensures
        r is Some <==> valid_utf8(b@),
        r is Some ==> r->0.spec_bytes() == b@,
{
    std::str::from_utf8(b).ok()
}

/// The last byte of a token: the high bit tells an inline token from a boxed
/// one, the low seven bits hold the length (modulo 128 for a boxed token).
#[derive(Clone, Copy, PartialEq, Eq, Structural)]
pub struct Marker(u8);

impl Marker {
    pub closed spec fn spec_len(&self) -> nat {
        (self.0 & MARKER_LEN_MASK) as nat
    }

    pub closed spec fn spec_is_inline(&self) -> bool {
        self.0 & MARKER_DISC_MASK == 0
    }

    pub fn new_inline(len: usize) -> (r: Marker)
        requires
            len <= INLINE_CAP,
        ensures
            r.spec_is_inline(),
            r.spec_len() == len,
    {
        let b = len as u8;
        assert(b & 0x7f == b && b & 0x80 == 0) by (bit_vector)
            requires
                b <= 15,
        ;
        Marker(b)
    }

    pub fn new_boxed(len: usize) -> (r: Marker)
        ensures
            !r.spec_is_inline(),
            r.spec_len() == len % 128,
    {
        let b = (len % 128) as u8;
        let m = b | MARKER_DISC_MASK;
        assert(m & 0x7f == b && m & 0x80 != 0) by (bit_vector)
            requires
                b < 128,
                m == b | 0x80,
        ;
        Marker(m)
    }

    /// A marker is fixed by its kind and its length bits.
    pub proof fn lemma_eq(&self, other: &Marker)
        requires
            self.spec_len() == other.spec_len(),
            self.spec_is_inline() == other.spec_is_inline(),
        ensures
            *self == *other,
    {
        let a = self.0;
        let b = other.0;
        assert(a == b) by (bit_vector)
            requires
                a & 0x7f == b & 0x7f,
                (a & 0x80 == 0) == (b & 0x80 == 0),
        ;
    }

    pub fn len(&self) -> (r: usize)
        ensures
            r == self.spec_len(),
    {
        (self.0 & MARKER_LEN_MASK) as usize
    }

    pub fn is_inline(&self) -> (r: bool)
        ensures
            r == self.spec_is_inline(),
    {
        self.0 & MARKER_DISC_MASK == 0
    }
}

/// Bytes `at..at + 6` of `d` as a little-endian number.
pub open spec fn read48(d: Seq<u8>, at: int) -> u64 {
    (d[at] as u64) | ((d[at + 1] as u64) << 8u64) | ((d[at + 2] as u64) << 16u64) | ((d[at + 3] as u64)
        << 24u64) | ((d[at + 4] as u64) << 32u64) | ((d[at + 5] as u64) << 40u64)
}

/// Bytes `at..at + 2` of `d` as a little-endian number.
pub open spec fn read16(d: Seq<u8>, at: int) -> u16 {
    (d[at] as u16) | ((d[at + 1] as u16) << 8u16)
}

/// `d` with `x`, below 2^48, written little-endian into bytes `at..at + 6`.
fn with48(d: [u8; 15], at: usize, x: u64) -> (r: [u8; 15])
    requires
        at + 6 <= 15,
        x <= MAX_REGION_BYTES,
    ensures
        read48(r@, at as int) == x,
        forall|i: int| 0 <= i < 15 && !(at <= i < at + 6) ==> #[trigger] r[i] == d[i],
{
    let b0 = (x & 0xff) as u8;
    let b1 = ((x >> 8u64) & 0xff) as u8;
    let b2 = ((x >> 16u64) & 0xff) as u8;
    let b3 = ((x >> 24u64) & 0xff) as u8;
    let b4 = ((x >> 32u64) & 0xff) as u8;
    let b5 = ((x >> 40u64) & 0xff) as u8;
    assert(x == (b0 as u64) | ((b1 as u64) << 8u64) | ((b2 as u64) << 16u64) | ((b3 as u64) << 24u64)
        | ((b4 as u64) << 32u64) | ((b5 as u64) << 40u64)) by (bit_vector)
        requires
            x <= 0xffff_ffff_ffffu64,
            b0 == (x & 0xff) as u8,
            b1 == ((x >> 8u64) & 0xff) as u8,
            b2 == ((x >> 16u64) & 0xff) as u8,
            b3 == ((x >> 24u64) & 0xff) as u8,
            b4 == ((x >> 32u64) & 0xff) as u8,
            b5 == ((x >> 40u64) & 0xff) as u8,
    ;
    let mut r = d;
    r[at] = b0;
    r[at + 1] = b1;
    r[at + 2] = b2;
    r[at + 3] = b3;
    r[at + 4] = b4;
    r[at + 5] = b5;
    r
}

/// `d` with `x` written little-endian into bytes `at..at + 2`.
fn with16(d: [u8; 15], at: usize, x: u16) -> (r: [u8; 15])
    requires
        at + 2 <= 15,
    ensures
        read16(r@, at as int) == x,
        forall|i: int| 0 <= i < 15 && !(at <= i < at + 2) ==> #[trigger] r[i] == d[i],
{
    let b0 = (x & 0xff) as u8;
    let b1 = ((x >> 8u16) & 0xff) as u8;
    assert(x == (b0 as u16) | ((b1 as u16) << 8u16)) by (bit_vector)
        requires
            b0 == (x & 0xff) as u8,
            b1 == ((x >> 8u16) & 0xff) as u8,
    ;
    let mut r = d;
    r[at] = b0;
    r[at + 1] = b1;
    r
}

/// Bytes `at..at + 6` of `d` as a little-endian number.
fn get48(d: &[u8; 15], at: usize) -> (r: u64)
    requires
        at + 6 <= 15,
    ensures
        r == read48(d@, at as int),
        r <= MAX_REGION_BYTES,
{
    let b0 = d[at];
    let b1 = d[at + 1];
    let b2 = d[at + 2];
    let b3 = d[at + 3];
    let b4 = d[at + 4];
    let b5 = d[at + 5];
    let r = (b0 as u64) | ((b1 as u64) << 8u64) | ((b2 as u64) << 16u64) | ((b3 as u64) << 24u64) | ((
    b4 as u64) << 32u64) | ((b5 as u64) << 40u64);
    assert(r <= 0xffff_ffff_ffffu64) by (bit_vector)
        requires
            r == (b0 as u64) | ((b1 as u64) << 8u64) | ((b2 as u64) << 16u64) | ((b3 as u64) << 24u64)
                | ((b4 as u64) << 32u64) | ((b5 as u64) << 40u64),
    ;
    r
}

/// A word in sixteen bytes: up to `INLINE_CAP` bytes of text inline, or a
/// reference to a block of a region that holds a longer text. A reference packs
/// the block's offset and length (48 bits each), the low 16 bits of the region's
/// generation and the low 8 bits of its id into the payload bytes. The token
/// never frees that block: the region owns it.
#[derive(Clone, Copy)]
pub struct Unigram {
    data: [u8; 15],
    marker: Marker,
    text: Ghost<Seq<char>>,
}

impl View for Unigram {
    type V = Seq<char>;

    closed spec fn view(&self) -> Seq<char> {
        self.text@
    }
}

impl Unigram {
    pub closed spec fn inline(&self) -> bool {
        self.marker.spec_is_inline()
    }

    /// The representation matches the text.
    pub closed spec fn wf(&self) -> bool {
        let b = utf8_of(self.text@);
        if self.marker.spec_is_inline() {
            &&& b.len() <= INLINE_CAP
            &&& self.marker.spec_len() == b.len()
            &&& forall|i: int|
                0 <= i < 15 ==> #[trigger] self.data[i] == (if i < b.len() {
                    b[i]
                } else {
                    0u8
                })
        } else {
            &&& b.len() > INLINE_CAP
            &&& self.block_len() == b.len()
            &&& self.block_offset() + self.block_len() <= usize::MAX
            &&& self.marker.spec_len() == b.len() % 128
        }
    }

    closed spec fn block_offset(&self) -> nat {
        read48(self.data@, 0) as nat
    }

    closed spec fn block_len(&self) -> nat {
        read48(self.data@, 6) as nat
    }

    /// The block of a boxed token is live in `region`.
    pub closed spec fn block_in(&self, region: &Region) -> bool {
        let b = utf8_of(self.text@);
        &&& self.data[14] as int == region.id() % 256
        &&& read16(self.data@, 12) as int == region.generation() % 65536
        &&& self.block_offset() + self.block_len() <= region.bytes().len()
        &&& region.bytes().subrange(
            self.block_offset() as int,
            (self.block_offset() + self.block_len()) as int,
        ) == b
    }

    /// The token is well formed and its text can be read through `region`.
    pub open spec fn held_in(&self, region: &Region) -> bool {
        self.wf() && (self.inline() || self.block_in(region))
    }

    /// A token stays readable while its region only grows.
    pub proof fn lemma_held_extends(&self, old: &Region, new: &Region)
        requires
            self.held_in(old),
            new.extends(old),
        ensures
            self.held_in(new),
    {
        if !self.inline() {
            let off = self.block_offset() as int;
            let end = (self.block_offset() + self.block_len()) as int;
            assert(new.bytes().subrange(off, end) == new.bytes().subrange(
                0,
                old.bytes().len() as int,
            ).subrange(off, end));
        }
    }

    /// Inline tokens need no region.
    pub proof fn lemma_inline_held(&self, a: &Region, b: &Region)
        requires
            self.held_in(a),
            self.inline(),
        ensures
            self.held_in(b),
    {
    }

    /// The empty token.
    pub fn new() -> (r: Unigram)
        ensures
            r.wf(),
            r.inline(),
            r@ == Seq::<char>::empty(),
    {
        let r = Unigram { data: [0u8; 15], marker: Marker::new_inline(0), text: Ghost(Seq::empty()) };
        assert(utf8_of(Seq::<char>::empty()) =~= Seq::<u8>::empty());
        r
    }

    /// A token of the text `slice`. A text of up to `INLINE_CAP` bytes is copied
    /// inline and the region is not touched; a longer one is copied into a block
    /// of `region`, and the call fails when the region cannot hold it.
    pub fn from_slice_in(slice: &str, region: &mut Region) -> (r: Result<Unigram, AllocError>)
        requires
            old(region).wf(),
        ensures
            final(region).wf(),
            final(region).extends(old(region)),
            r is Ok <==> old(region).used() + token_cost(slice@) <= old(region).capacity(),
            r is Ok ==> {
                &&& r->Ok_0@ == slice@
                &&& r->Ok_0.held_in(final(region))
                &&& r->Ok_0.inline() == (utf8_of(slice@).len() <= INLINE_CAP)
                &&& final(region).used() == old(region).used() + token_cost(
                    slice@,
                )
            },
            r is Err ==> *final(region) == *old(region),
    {
        let bytes = slice.as_bytes();
        let n = bytes.len();
        proof {
            old(region).lemma_extends_refl();
        }
        if n <= INLINE_CAP {
            let mut data: [u8; 15] = [0u8; 15];
            let mut i: usize = 0;
            while i < n
                invariant
                    n == bytes@.len(),
                    n <= 15,
                    i <= n,
                    forall|j: int|
                        0 <= j < 15 ==> #[trigger] data[j] == (if j < i {
                            bytes@[j]
                        } else {
                            0u8
                        }),
                decreases n - i,
            {
                data[i] = bytes[i];
                i = i + 1;
            }
            Ok(Unigram { data, marker: Marker::new_inline(n), text: Ghost(slice@) })
        } else {
            let id = region.id_of();
            let generation = region.generation_of();
            match region.alloc_copy(bytes) {
                Ok(offset) => {
                    let data = with48([0u8; 15], 0, offset as u64);
                    let data = with48(data, 6, n as u64);
                    let data = with16(data, 12, (generation % 65536) as u16);
                    let mut data = data;
                    data[14] = (id % 256) as u8;
                    let u = Unigram { data, marker: Marker::new_boxed(n), text: Ghost(slice@) };
                    assert(read48(u.data@, 0) == offset);
                    assert(read48(u.data@, 6) == n);
                    assert(read16(u.data@, 12) == generation % 65536);
                    Ok(u)
                },
                Err(e) => Err(e),
            }
        }
    }

    /// Length of the text in bytes.
    pub fn len(&self) -> (r: usize)
        requires
            self.wf(),
        ensures
            r == utf8_of(self@).len(),
    {
        if self.marker.is_inline() {
            self.marker.len()
        } else {
            get48(&self.data, 6) as usize
        }
    }

    /// Whether the text is held inline.
    pub fn is_inline(&self) -> (r: bool)
        ensures
            r == self.inline(),
            self.wf() ==> (r <==> utf8_of(self@).len() <= INLINE_CAP),
    {
        proof {
            if self.wf() {
                self.lemma_inline_iff();
            }
        }
        self.marker.is_inline()
    }

    /// A well-formed token is inline exactly when its text takes at most
    /// `INLINE_CAP` bytes, and then a copy into a region takes no bytes of it.
    pub proof fn lemma_inline_iff(&self)
        requires
            self.wf(),
        ensures
            self.inline() <==> utf8_of(self@).len() <= INLINE_CAP,
            self.inline() <==> token_cost(self@) == 0,
    {
        if !self.inline() {
            let n = utf8_of(self@).len();
            assert(padded(n) >= n) by (nonlinear_arith)
                requires
                    padded(n) == ((n + 15) / 16) * 16,
            ;
        }
    }

    /// The raw bytes of the text.
    fn bytes<'a>(&'a self, region: &'a Region) -> (r: &'a [u8])
        requires
            self.held_in(region),
        ensures
            r@ == utf8_of(self@),
    {
        if self.marker.is_inline() {
            let len = self.marker.len();
            let all = vstd::array::array_as_slice(&self.data);
            let r = vstd::slice::slice_subrange(all, 0, len);
            assert(r@ =~= utf8_of(self@));
            r
        } else {
            let offset = get48(&self.data, 0) as usize;
            let len = get48(&self.data, 6) as usize;
            region.slice(offset, len)
        }
    }

    /// The text, read through the region that holds it.
    pub fn as_str<'a>(&'a self, region: &'a Region) -> (r: &'a str)
        requires
            self.held_in(region),
        ensures
            r@ == self@,
    {
        let b = self.bytes(region);
        proof {
            encode_utf8_valid_utf8(self@);
        }
        match text_of(b) {
            Some(s) => {
                proof {
                    encode_utf8_decode_utf8(s@);
                    encode_utf8_decode_utf8(self@);
                }
                s
            },
            None => {
                assert(false);
                ""
            },
        }
    }

    /// Whether two tokens, both readable through `region`, hold the same text.
    pub fn eq_in(&self, other: &Unigram, region: &Region) -> (r: bool)
        requires
            self.held_in(region),
            other.held_in(region),
        ensures
            r == (self@ == other@),
    {
        proof {
            encode_utf8_decode_utf8(self@);
            encode_utf8_decode_utf8(other@);
        }
        if self.marker != other.marker {
            proof {
                if self@ == other@ {
                    self.marker.lemma_eq(&other.marker);
                }
            }
            return false;
        }
        let a = self.bytes(region);
        let b = other.bytes(region);
        if a.len() != b.len() {
            return false;
        }
        let mut i: usize = 0;
        while i < a.len()
            invariant
                a@.len() == b@.len(),
                a@ == utf8_of(self@),
                b@ == utf8_of(other@),
                i <= a@.len(),
                a@.subrange(0, i as int) == b@.subrange(0, i as int),
            decreases a@.len() - i,
        {
            if a[i] != b[i] {
                assert(a@[i as int] != b@[i as int]);
                assert(a@ != b@);
                return false;
            }
            proof {
                assert(a@.subrange(0, i + 1) == a@.subrange(0, i as int).push(a@[i as int]));
                assert(b@.subrange(0, i + 1) == b@.subrange(0, i as int).push(b@[i as int]));
            }
            i = i + 1;
        }
        assert(a@ == a@.subrange(0, a@.len() as int));
        assert(b@ == b@.subrange(0, b@.len() as int));
        true
    }

    /// Whether the token holds the text `s`.
    pub fn eq_str(&self, s: &str, region: &Region) -> (r: bool)
        requires
            self.held_in(region),
        ensures
            r == (self@ == s@),
    {
        proof {
            encode_utf8_decode_utf8(self@);
            encode_utf8_decode_utf8(s@);
        }
        let a = self.bytes(region);
        let b = s.as_bytes();
        assert(b@ == utf8_of(s@));
        if a.len() != b.len() {
            return false;
        }
        let mut i: usize = 0;
        while i < a.len()
            invariant
                a@.len() == b@.len(),
                a@ == utf8_of(self@),
                b@ == utf8_of(s@),
                i <= a@.len(),
                a@.subrange(0, i as int) == b@.subrange(0, i as int),
            decreases a@.len() - i,
        {
            if a[i] != b[i] {
                assert(a@[i as int] != b@[i as int]);
                assert(a@ != b@);
                return false;
            }
            proof {
                assert(a@.subrange(0, i + 1) == a@.subrange(0, i as int).push(a@[i as int]));
                assert(b@.subrange(0, i + 1) == b@.subrange(0, i as int).push(b@[i as int]));
            }
            i = i + 1;
        }
        assert(a@ == a@.subrange(0, a@.len() as int));
        assert(b@ == b@.subrange(0, b@.len() as int));
        true
    }

    /// An owned copy of the text, independent of any region.
    pub fn to_text(&self, region: &Region) -> (r: String)
        requires
            self.held_in(region),
        ensures
            r@ == self@,
    {
        self.as_str(region).to_owned()
    }
}

impl CloneIn for Unigram {
    open spec fn lives_in(&self, region: &Region) -> bool {
        self.held_in(region)
    }

    open spec fn text(&self) -> Seq<Seq<char>> {
        seq![self@]
    }

    open spec fn cost(&self) -> nat {
        token_cost(self@)
    }

    fn clone_in(&self, from: &Region, to: &mut Region) -> (r: Result<Unigram, AllocError>) {
        if self.is_inline() {
            proof {
                self.lemma_inline_held(from, to);
                to.lemma_extends_refl();
                assert(utf8_of(self@).len() <= INLINE_CAP);
            }
            Ok(*self)
        } else {
            let s = self.as_str(from);
            Unigram::from_slice_in(s, to)
        }
    }
}

} // verus!

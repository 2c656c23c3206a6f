use vstd::prelude::*;

verus! {

/// The one error kind of the codec, plus short input.
#[derive(Debug, Clone, Copy, PartialEq, Eq, Structural)]
pub enum Error {
    /// A tag, discriminant or length on the wire is not one the format allows.
    Validity,
    /// The input ended before a required field.
    Read,
}

/// A monotonic cursor over a fixed buffer.
pub struct Offset(pub usize);

impl Offset {
    #[must_use]
    pub fn new(v: usize) -> (r: Self)
        ensures
            r.0 == v,
    {
        Offset(v)
    }

    /// Advances the cursor by `v` and returns the new position.
    #[must_use]
    pub fn increment(&mut self, v: usize) -> (r: usize)
        requires
            old(self).0 + v <= usize::MAX,
        ensures
            final(self).0 == old(self).0 + v,
            r == final(self).0,
    {
        self.0 = self.0 + v;
        self.0
    }
}

/// Number of keyslots that every encoded header carries.
pub const KEYSLOT_LIMIT: usize = 2;

/// Largest number of objects a header may be written with.
pub const OBJECT_LIMIT: usize = 2;

/// A value with a fixed binary framing.
pub trait HeaderEncode: Sized + View {
    /// The bytes that encode `self`.
    spec fn spec_as_bytes(&self) -> Seq<u8>;

    /// Whether `b` is a well-formed encoding of some value.
    spec fn spec_valid(b: Seq<u8>) -> bool;

    /// Whether the well-formed encoding `b` carries the value `v`.
    spec fn spec_decodes(b: Seq<u8>, v: Self) -> bool;

    /// The fixed magic bytes every encoding starts with (a leading discriminant,
    /// which may take several values, is not part of it).
    spec fn spec_magic() -> Seq<u8>;

    /// Changing any magic byte of a well-formed encoding makes it ill-formed.
    proof fn lemma_tag_closure(b: Seq<u8>, i: int, x: u8)
        requires
            Self::spec_valid(b),
            0 <= i < Self::spec_magic().len(),
            x != b[i],
        ensures
            !Self::spec_valid(b.update(i, x)),
    ;

    /// Encoding then decoding gives the value back.
    proof fn lemma_round_trip(v: Self)
        ensures
            Self::spec_valid(v.spec_as_bytes()),
            Self::spec_decodes(v.spec_as_bytes(), v),
    ;

    /// A well-formed encoding carries one value only.
    proof fn lemma_decodes_unique(b: Seq<u8>, v1: Self, v2: Self)
        requires
            Self::spec_decodes(b, v1),
            Self::spec_decodes(b, v2),
        ensures
            v1@ == v2@,
    ;

    fn as_bytes(&self) -> (r: Vec<u8>)
        ensures
            r@ == self.spec_as_bytes(),
    ;

    fn from_bytes(b: &[u8]) -> (r: Result<Self, Error>)
        ensures
            r is Ok <==> Self::spec_valid(b@),
            r matches Ok(v) ==> Self::spec_decodes(b@, v),
            r matches Err(e) ==> e == Error::Validity,
    ;
}

/// Byte arrays with the same contents are equal.
pub proof fn lemma_array_eq<const N: usize>(a: [u8; N], b: [u8; N])
    requires
        a@ == b@,
    ensures
        a == b,
{
    assert(forall|i: int| 0 <= i < N ==> a@[i] == b@[i]);
    assert(a =~= b);
}

/// The little-endian bytes of a 64-bit integer.
pub open spec fn le64(x: u64) -> Seq<u8> {
    seq![
        x as u8,
        (x >> 8) as u8,
        (x >> 16) as u8,
        (x >> 24) as u8,
        (x >> 32) as u8,
        (x >> 40) as u8,
        (x >> 48) as u8,
        (x >> 56) as u8,
    ]
}

/// The integer that eight little-endian bytes stand for.
#[verifier::opaque]
pub open spec fn le64_value(b: Seq<u8>) -> u64 {
    (b[0] as u64) | ((b[1] as u64) << 8) | ((b[2] as u64) << 16) | ((b[3] as u64) << 24) | ((
    b[4] as u64) << 32) | ((b[5] as u64) << 40) | ((b[6] as u64) << 48) | ((b[7] as u64) << 56)
}

/// The little-endian bytes of a 16-bit integer.
pub open spec fn le16(x: u16) -> Seq<u8> {
    seq![x as u8, (x >> 8) as u8]
}

/// The integer that two little-endian bytes stand for.
#[verifier::opaque]
pub open spec fn le16_value(b: Seq<u8>) -> u16 {
    (b[0] as u16) | ((b[1] as u16) << 8)
}

pub proof fn lemma_le64_round_trip(x: u64)
    ensures
        le64_value(le64(x)) == x,
{
    reveal(le64_value);
    assert(((x as u8) as u64) | ((((x >> 8) as u8) as u64) << 8) | ((((x >> 16) as u8) as u64)
        << 16) | ((((x >> 24) as u8) as u64) << 24) | ((((x >> 32) as u8) as u64) << 32) | ((((x
        >> 40) as u8) as u64) << 40) | ((((x >> 48) as u8) as u64) << 48) | ((((x >> 56) as u8)
        as u64) << 56) == x) by (bit_vector);
}

pub proof fn lemma_le16_round_trip(x: u16)
    ensures
        le16_value(le16(x)) == x,
{
    reveal(le16_value);
    assert(((x as u8) as u16) | ((((x >> 8) as u8) as u16) << 8) == x) by (bit_vector);
}

pub fn u64_to_le(x: u64) -> (r: Vec<u8>)
    ensures
        r@ == le64(x),
{
    let r = vec![
        x as u8,
        (x >> 8) as u8,
        (x >> 16) as u8,
        (x >> 24) as u8,
        (x >> 32) as u8,
        (x >> 40) as u8,
        (x >> 48) as u8,
        (x >> 56) as u8,
    ];
    assert(r@ =~= le64(x));
    r
}

pub fn u64_from_le(b: &[u8]) -> (r: u64)
    requires
        b@.len() == 8,
    ensures
        r == le64_value(b@),
{
    reveal(le64_value);
    (b[0] as u64) | ((b[1] as u64) << 8) | ((b[2] as u64) << 16) | ((b[3] as u64) << 24) | ((
    b[4] as u64) << 32) | ((b[5] as u64) << 40) | ((b[6] as u64) << 48) | ((b[7] as u64) << 56)
}

pub fn u16_to_le(x: u16) -> (r: Vec<u8>)
    ensures
        r@ == le16(x),
{
    let r = vec![x as u8, (x >> 8) as u8];
    assert(r@ =~= le16(x));
    r
}

pub fn u16_from_le(b: &[u8]) -> (r: u16)
    requires
        b@.len() == 2,
    ensures
        r == le16_value(b@),
{
    reveal(le16_value);
    (b[0] as u16) | ((b[1] as u16) << 8)
}

/// Appends `b` to `out`.
pub fn push_all(out: &mut Vec<u8>, b: &[u8])
    ensures
        final(out)@ == old(out)@ + b@,
{
    let ghost start = out@;
    let mut i: usize = 0;
    while i < b.len()
        invariant
            i <= b@.len(),
            out@ == start + b@.subrange(0, i as int),
        decreases b@.len() - i,
    {
        out.push(b[i]);
        i = i + 1;
        assert(out@ =~= start + b@.subrange(0, i as int));
    }
    assert(b@.subrange(0, b@.len() as int) =~= b@);
}

/// Copies `N` bytes of `b` from `start` into an array.
pub fn to_array<const N: usize>(b: &[u8], start: usize) -> (r: [u8; N])
    requires
        start + N <= b@.len(),
    ensures
        r@ == b@.subrange(start as int, start + N),
{
    let len = b.len();
    let mut r = [0u8; N];
    let mut i: usize = 0;
    while i < N
        invariant
            i <= N,
            len == b@.len(),
            start + N <= b@.len(),
            r@.len() == N,
            forall|j: int| 0 <= j < i ==> r@[j] == b@[start + j],
        decreases N - i,
    {
        r[i] = b[start + i];
        i = i + 1;
    }
    assert(r@ =~= b@.subrange(start as int, start + N));
    r
}

} // verus!

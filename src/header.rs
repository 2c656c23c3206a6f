use vstd::prelude::*;

use crate::encoding::{
    le16, le16_value, le64, le64_value, lemma_le16_round_trip, lemma_le64_round_trip, push_all,
    u16_from_le, u16_to_le, u64_from_le, u64_to_le, Error, HeaderEncode, KEYSLOT_LIMIT,
    OBJECT_LIMIT,
};
use crate::keyslot::{Keyslot, KEYSLOT_OUTPUT_LEN};
use crate::object::{HeaderObject, HeaderObjectView};
use crate::primitives::{Algorithm, Nonce};

verus! {

/// Bytes of a header before its first object: magic, version, algorithm, nonce,
/// the keyslot region and the object count.
pub const HEADER_FIXED_LEN: usize = 284;

/// Random bytes that one fill slot takes after its magic.
pub const FILL_SLOT_LEN: usize = 120;

/// Version discriminator of the header layout.
#[derive(Debug, Clone, Copy, PartialEq, Eq, Structural)]
pub enum HeaderVersion {
    V1,
}

impl View for HeaderVersion {
    type V = HeaderVersion;

    open spec fn view(&self) -> HeaderVersion {
        *self
    }
}

impl HeaderEncode for HeaderVersion {
    open spec fn spec_magic() -> Seq<u8> {
        seq![0xDAu8, 0xDAu8]
    }

    proof fn lemma_tag_closure(b: Seq<u8>, i: int, x: u8) {
        assert(Self::spec_magic().len() == 2);
        assert(HeaderVersion::spec_valid(b));
        assert(b.len() >= 2);
        assert(0 <= i < 2);
        let c = b.update(i, x);
        assert(c.len() == b.len() && c[i] == x);
        assert(c[i] != b[i]);
    }

    open spec fn spec_as_bytes(&self) -> Seq<u8> {
        seq![0xDA, 0xDA]
    }

    open spec fn spec_valid(b: Seq<u8>) -> bool {
        b == seq![0xDAu8, 0xDAu8]
    }

    open spec fn spec_decodes(b: Seq<u8>, v: Self) -> bool {
        b == v.spec_as_bytes()
    }

    proof fn lemma_round_trip(v: Self) {
    }

    proof fn lemma_decodes_unique(b: Seq<u8>, v1: Self, v2: Self) {
    }

    fn as_bytes(&self) -> (r: Vec<u8>) {
        let r = match self {
            HeaderVersion::V1 => vec![0xDAu8, 0xDAu8],
        };
        assert(r@ =~= self.spec_as_bytes());
        r
    }

    fn from_bytes(b: &[u8]) -> (r: Result<Self, Error>) {
        if b.len() == 2 && b[0] == 0xDAu8 && b[1] == 0xDAu8 {
            assert(b@ =~= seq![0xDAu8, 0xDAu8]);
            Ok(HeaderVersion::V1)
        } else {
            Err(Error::Validity)
        }
    }
}

/// A sequential byte source over an in-memory buffer.
pub struct Reader {
    pub bytes: Vec<u8>,
    pub pos: usize,
}

impl Reader {
    /// The bytes not yet read.
    pub open spec fn rest(&self) -> Seq<u8> {
        self.bytes@.subrange(self.pos as int, self.bytes@.len() as int)
    }

    pub fn new(bytes: Vec<u8>) -> (r: Self)
        ensures
            r.bytes@ == bytes@,
            r.pos == 0,
    {
        Reader { bytes, pos: 0 }
    }

    /// Reads exactly `n` bytes, or fails with `Error::Read` and consumes nothing.
    pub fn read_exact(&mut self, n: usize) -> (r: Result<Vec<u8>, Error>)
        requires
            old(self).pos <= old(self).bytes@.len(),
        ensures
            final(self).bytes@ == old(self).bytes@,
            final(self).pos <= final(self).bytes@.len(),
            n <= old(self).rest().len() ==> r is Ok,
            r matches Ok(v) ==> v@ == old(self).rest().subrange(0, n as int) && final(self).pos
                == old(self).pos + n,
            r matches Err(e) ==> e == Error::Read && final(self).pos == old(self).pos,
    {
        if n > self.bytes.len() - self.pos {
            return Err(Error::Read);
        }
        let mut v: Vec<u8> = Vec::new();
        push_all(&mut v, &self.bytes.as_slice()[self.pos..self.pos + n]);
        self.pos = self.pos + n;
        assert(v@ =~= old(self).rest().subrange(0, n as int));
        Ok(v)
    }
}

/// An encrypted file's header.
#[derive(Debug, Clone, PartialEq, Eq)]
pub struct Header {
    pub version: HeaderVersion,
    pub algorithm: Algorithm,
    pub nonce: Nonce,
    pub keyslots: Vec<Keyslot>,
    pub objects: Vec<HeaderObject>,
}

/// The contents of a `Header`.
pub struct HeaderView {
    pub version: HeaderVersion,
    pub algorithm: Algorithm,
    pub nonce: Nonce,
    pub keyslots: Seq<Keyslot>,
    pub objects: Seq<HeaderObjectView>,
}

impl View for Header {
    type V = HeaderView;

    open spec fn view(&self) -> HeaderView {
        HeaderView {
            version: self.version,
            algorithm: self.algorithm,
            nonce: self.nonce,
            keyslots: self.keyslots@,
            objects: self.objects@.map_values(|o: HeaderObject| o@),
        }
    }
}

/// Keyslot `j` of the region: a real one while any are left, then a fill slot made of
/// the keyslot magic and the next random bytes.
pub open spec fn slot_bytes(ks: Seq<Keyslot>, fill: Seq<u8>, j: int) -> Seq<u8> {
    if j < ks.len() {
        ks[j].spec_as_bytes()
    } else {
        let k = j - ks.len();
        seq![0x83u8, 0x21u8] + fill.subrange(FILL_SLOT_LEN * k, FILL_SLOT_LEN * k + FILL_SLOT_LEN)
    }
}

/// The first `n` slots of the region, concatenated.
pub open spec fn slots_upto(ks: Seq<Keyslot>, fill: Seq<u8>, n: nat) -> Seq<u8>
    decreases n,
{
    if n == 0 {
        seq![]
    } else {
        slots_upto(ks, fill, (n - 1) as nat) + slot_bytes(ks, fill, n - 1)
    }
}

/// The encoded objects, each after its 8-byte little-endian length.
pub open spec fn objects_bytes(objs: Seq<HeaderObject>) -> Seq<u8>
    decreases objs.len(),
{
    if objs.len() == 0 {
        seq![]
    } else {
        let e = objs.last().spec_as_bytes();
        objects_bytes(objs.drop_last()) + le64(e.len() as u64) + e
    }
}

/// Σ (8 + length of the encoded object).
pub open spec fn objects_wire_len(objs: Seq<HeaderObject>) -> nat
    decreases objs.len(),
{
    if objs.len() == 0 {
        0
    } else {
        objects_wire_len(objs.drop_last()) + 8 + objs.last().spec_as_bytes().len()
    }
}

/// Random bytes needed to fill the keyslot region after `n` real keyslots.
pub open spec fn fill_len(n: nat) -> int {
    FILL_SLOT_LEN * (KEYSLOT_LIMIT - n)
}

impl Header {
    /// The header invariants: the nonce belongs to the declared AEAD, and at most
    /// `KEYSLOT_LIMIT` keyslots and `OBJECT_LIMIT` objects.
    pub open spec fn wf(&self) -> bool {
        &&& self.nonce.spec_algorithm() == self.algorithm
        &&& self.keyslots@.len() <= KEYSLOT_LIMIT
        &&& self.objects@.len() <= OBJECT_LIMIT
    }

    /// The encoding of the header, with fill slots taken from `fill`.
    pub open spec fn spec_as_bytes(&self, fill: Seq<u8>) -> Seq<u8> {
        seq![0xFAu8, 0xDAu8] + self.version.spec_as_bytes() + self.algorithm.spec_as_bytes()
            + self.nonce.spec_as_bytes() + slots_upto(self.keyslots@, fill, KEYSLOT_LIMIT as nat)
            + le16(self.objects@.len() as u16) + objects_bytes(self.objects@)
    }
}

proof fn lemma_objects_bytes_len(objs: Seq<HeaderObject>)
    ensures
        objects_bytes(objs).len() == objects_wire_len(objs),
    decreases objs.len(),
{
    if objs.len() > 0 {
        lemma_objects_bytes_len(objs.drop_last());
    }
}

proof fn lemma_slots_len(ks: Seq<Keyslot>, fill: Seq<u8>, n: nat)
    requires
        n <= KEYSLOT_LIMIT,
        ks.len() <= KEYSLOT_LIMIT,
        fill.len() >= fill_len(ks.len()),
    ensures
        slots_upto(ks, fill, n).len() == KEYSLOT_OUTPUT_LEN * n,
    decreases n,
{
    if n > 0 {
        lemma_slots_len(ks, fill, (n - 1) as nat);
        let j = n - 1;
        if j < ks.len() {
            ks[j].lemma_round_trip_len();
        }
    }
}

impl Header {
    /// Encodes the header. The keyslot region always holds `KEYSLOT_LIMIT` slots: after
    /// the real ones come fill slots, each the keyslot magic followed by the next
    /// `FILL_SLOT_LEN` bytes of `fill`, which the caller draws from a CSPRNG.
    #[must_use]
    pub fn as_bytes(&self, fill: &[u8]) -> (r: Vec<u8>)
        requires
            self.wf(),
            fill@.len() >= fill_len(self.keyslots@.len()),
        ensures
            r@ == self.spec_as_bytes(fill@),
            r@.len() == HEADER_FIXED_LEN + objects_wire_len(self.objects@),
    {
        let mut o = vec![0xFAu8, 0xDAu8];
        let v = self.version.as_bytes();
        push_all(&mut o, v.as_slice());
        let a = self.algorithm.as_bytes();
        push_all(&mut o, a.as_slice());
        let n = self.nonce.as_bytes();
        push_all(&mut o, n.as_slice());
        let ghost head = o@;
        let nks = self.keyslots.len();
        let mut j: usize = 0;
        while j < KEYSLOT_LIMIT
            invariant
                j <= KEYSLOT_LIMIT,
                nks == self.keyslots@.len(),
                nks <= KEYSLOT_LIMIT,
                fill@.len() >= fill_len(nks as nat),
                o@ == head + slots_upto(self.keyslots@, fill@, j as nat),
            decreases KEYSLOT_LIMIT - j,
        {
            let ghost before = o@;
            if j < nks {
                let k = self.keyslots[j].as_bytes();
                push_all(&mut o, k.as_slice());
            } else {
                let start = FILL_SLOT_LEN * (j - nks);
                push_all(&mut o, &[0x83u8, 0x21u8]);
                push_all(&mut o, &fill[start..start + FILL_SLOT_LEN]);
            }
            assert(o@ =~= before + slot_bytes(self.keyslots@, fill@, j as int));
            j = j + 1;
        }
        let c = u16_to_le(self.objects.len() as u16);
        push_all(&mut o, c.as_slice());
        let ghost mid = o@;
        let mut i: usize = 0;
        while i < self.objects.len()
            invariant
                i <= self.objects@.len(),
                o@ == mid + objects_bytes(self.objects@.subrange(0, i as int)),
            decreases self.objects@.len() - i,
        {
            let b = self.objects[i].as_bytes();
            let l = u64_to_le(b.len() as u64);
            push_all(&mut o, l.as_slice());
            push_all(&mut o, b.as_slice());
            assert(self.objects@.subrange(0, i + 1).drop_last() =~= self.objects@.subrange(
                0,
                i as int,
            ));
            i = i + 1;
            assert(o@ =~= mid + objects_bytes(self.objects@.subrange(0, i as int)));
        }
        assert(self.objects@.subrange(0, i as int) =~= self.objects@);
        assert(o@ =~= self.spec_as_bytes(fill@));
        proof {
            lemma_objects_bytes_len(self.objects@);
            lemma_slots_len(self.keyslots@, fill@, KEYSLOT_LIMIT as nat);
        }
        o
    }
}


/// The nonce discriminant that belongs with an algorithm discriminant.
pub open spec fn nonce_tag_for(alg_tag: u8) -> u8 {
    if alg_tag == 0xD1 {
        0xB2
    } else if alg_tag == 0xD3 {
        0xB5
    } else {
        0xB7
    }
}

/// How reading the fixed part of a header from `b` fails, if it does: magic, version,
/// algorithm and nonce are checked in turn as each is read, then the keyslot region
/// and the object count must be there.
pub open spec fn fixed_outcome(b: Seq<u8>) -> Option<Error> {
    if b.len() < 2 {
        Some(Error::Read)
    } else if b[0] != 0xFA || b[1] != 0xDA {
        Some(Error::Validity)
    } else if b.len() < 4 {
        Some(Error::Read)
    } else if !HeaderVersion::spec_valid(b.subrange(2, 4)) {
        Some(Error::Validity)
    } else if b.len() < 6 {
        Some(Error::Read)
    } else if !Algorithm::spec_valid(b.subrange(4, 6)) {
        Some(Error::Validity)
    } else if b.len() < 38 {
        Some(Error::Read)
    } else if !Nonce::spec_valid(b.subrange(6, 38)) || b[7] != nonce_tag_for(b[5]) {
        Some(Error::Validity)
    } else if b.len() < HEADER_FIXED_LEN {
        Some(Error::Read)
    } else {
        None
    }
}

/// Slot `j` of the keyslot region.
pub open spec fn slot(b: Seq<u8>, j: int) -> Seq<u8> {
    b.subrange(38 + KEYSLOT_OUTPUT_LEN * j, 38 + KEYSLOT_OUTPUT_LEN * j + KEYSLOT_OUTPUT_LEN)
}

/// Indices, in order, of the slots among the first `n` that decode as keyslots.
pub open spec fn slot_indices_upto(b: Seq<u8>, n: nat) -> Seq<int>
    decreases n,
{
    if n == 0 {
        seq![]
    } else if Keyslot::spec_valid(slot(b, n - 1)) {
        slot_indices_upto(b, (n - 1) as nat).push(n - 1)
    } else {
        slot_indices_upto(b, (n - 1) as nat)
    }
}

pub open spec fn slot_indices(b: Seq<u8>) -> Seq<int> {
    slot_indices_upto(b, KEYSLOT_LIMIT as nat)
}

/// The object count on the wire.
pub open spec fn object_count(b: Seq<u8>) -> nat {
    le16_value(b.subrange(282, 284)) as nat
}

/// The length prefix of the object that starts at `p`.
pub open spec fn object_size_at(b: Seq<u8>, p: int) -> int {
    le64_value(b.subrange(p, p + 8)) as int
}

/// Where the first `n` objects end, or how reading them fails.
pub open spec fn objects_outcome(b: Seq<u8>, n: nat) -> Result<int, Error>
    decreases n,
{
    if n == 0 {
        Ok(HEADER_FIXED_LEN as int)
    } else {
        match objects_outcome(b, (n - 1) as nat) {
            Err(e) => Err(e),
            Ok(p) => if p + 8 > b.len() {
                Err(Error::Read)
            } else if p + 8 + object_size_at(b, p) > b.len() {
                Err(Error::Read)
            } else if !HeaderObject::spec_valid(
                b.subrange(p + 8, p + 8 + object_size_at(b, p)),
            ) {
                Err(Error::Validity)
            } else {
                Ok(p + 8 + object_size_at(b, p))
            },
        }
    }
}

/// Where object `i` starts.
pub open spec fn object_start(b: Seq<u8>, i: nat) -> int {
    match objects_outcome(b, i) {
        Ok(p) => p,
        Err(_) => 0,
    }
}

/// The encoded form of object `i`.
pub open spec fn object_span(b: Seq<u8>, i: nat) -> Seq<u8> {
    let p = object_start(b, i);
    b.subrange(p + 8, p + 8 + object_size_at(b, p))
}

/// The number of bytes a header takes at the start of `b`, or why none can be read.
pub open spec fn header_outcome(b: Seq<u8>) -> Result<int, Error> {
    match fixed_outcome(b) {
        Some(e) => Err(e),
        None => objects_outcome(b, object_count(b)),
    }
}

/// `b` starts with a well-formed header that carries `h`: the keyslots are the slots
/// that decode, in order; the others are taken for random fill.
pub open spec fn header_decodes(b: Seq<u8>, h: Header) -> bool {
    &&& header_outcome(b) is Ok
    &&& HeaderVersion::spec_decodes(b.subrange(2, 4), h.version)
    &&& Algorithm::spec_decodes(b.subrange(4, 6), h.algorithm)
    &&& Nonce::spec_decodes(b.subrange(6, 38), h.nonce)
    &&& h.keyslots@.len() == slot_indices(b).len()
    &&& forall|k: int|
        0 <= k < h.keyslots@.len() ==> Keyslot::spec_decodes(
            slot(b, #[trigger] slot_indices(b)[k]),
            h.keyslots@[k],
        )
    &&& h.objects@.len() == object_count(b)
    &&& forall|i: int|
        0 <= i < h.objects@.len() ==> HeaderObject::spec_decodes(
            object_span(b, i as nat),
            #[trigger] h.objects@[i],
        )
}

proof fn lemma_objects_outcome_bounds(b: Seq<u8>, n: nat)
    requires
        objects_outcome(b, n) is Ok,
        b.len() >= HEADER_FIXED_LEN,
    ensures
        HEADER_FIXED_LEN <= objects_outcome(b, n)->Ok_0 <= b.len(),
    decreases n,
{
    if n > 0 {
        lemma_objects_outcome_bounds(b, (n - 1) as nat);
    }
}

proof fn lemma_objects_err_persists(b: Seq<u8>, m: nat, n: nat)
    requires
        objects_outcome(b, m) is Err,
        m <= n,
    ensures
        objects_outcome(b, n) == objects_outcome(b, m),
    decreases n - m,
{
    if m < n {
        lemma_objects_err_persists(b, m, (n - 1) as nat);
    }
}

impl Header {
    /// Reads a header from `reader`. Fails with `Error::Read` where the input ends early
    /// and with `Error::Validity` on a bad tag, discriminant or object; a keyslot that
    /// does not decode is dropped as random fill.
    pub fn from_reader_raw(reader: &mut Reader) -> (r: Result<Header, Error>)
        requires
            old(reader).pos <= old(reader).bytes@.len(),
        ensures
            final(reader).bytes@ == old(reader).bytes@,
            final(reader).pos <= final(reader).bytes@.len(),
            r is Ok <==> header_outcome(old(reader).rest()) is Ok,
            r matches Err(e) ==> header_outcome(old(reader).rest()) == Err::<int, Error>(e),
            r matches Ok(h) ==> {
                &&& header_decodes(old(reader).rest(), h)
                &&& final(reader).pos == old(reader).pos + header_outcome(
                    old(reader).rest(),
                )->Ok_0
            },
    {
        let ghost b = reader.rest();
        let ghost start_pos = reader.pos;
        let ghost all = reader.bytes@;
        let m = match reader.read_exact(2) {
            Ok(m) => m,
            Err(e) => return Err(e),
        };
        assert(m@ =~= b.subrange(0, 2));
        if m[0] != 0xFAu8 || m[1] != 0xDAu8 {
            return Err(Error::Validity);
        }
        let vb = match reader.read_exact(2) {
            Ok(x) => x,
            Err(e) => return Err(e),
        };
        assert(vb@ =~= b.subrange(2, 4));
        let version = match HeaderVersion::from_bytes(vb.as_slice()) {
            Ok(x) => x,
            Err(e) => return Err(e),
        };
        let ab = match reader.read_exact(2) {
            Ok(x) => x,
            Err(e) => return Err(e),
        };
        assert(ab@ =~= b.subrange(4, 6));
        let algorithm = match Algorithm::from_bytes(ab.as_slice()) {
            Ok(x) => x,
            Err(e) => return Err(e),
        };
        let nb = match reader.read_exact(32) {
            Ok(x) => x,
            Err(e) => return Err(e),
        };
        assert(nb@ =~= b.subrange(6, 38));
        let nonce = match Nonce::from_bytes(nb.as_slice()) {
            Ok(x) => x,
            Err(e) => return Err(e),
        };
        match nonce.validate(algorithm) {
            Ok(()) => {},
            Err(e) => return Err(e),
        }
        let region = match reader.read_exact(KEYSLOT_LIMIT * KEYSLOT_OUTPUT_LEN) {
            Ok(x) => x,
            Err(e) => return Err(e),
        };
        assert(region@ =~= b.subrange(38, 282));
        let mut keyslots: Vec<Keyslot> = Vec::new();
        let mut j: usize = 0;
        while j < KEYSLOT_LIMIT
            invariant
                j <= KEYSLOT_LIMIT,
                b.len() >= 282,
                region@ == b.subrange(38, 282),
                keyslots@.len() == slot_indices_upto(b, j as nat).len(),
                forall|k: int|
                    0 <= k < keyslots@.len() ==> Keyslot::spec_decodes(
                        slot(b, #[trigger] slot_indices_upto(b, j as nat)[k]),
                        keyslots@[k],
                    ),
            decreases KEYSLOT_LIMIT - j,
        {
            let start = KEYSLOT_OUTPUT_LEN * j;
            let sb = &region.as_slice()[start..start + KEYSLOT_OUTPUT_LEN];
            assert(sb@ =~= slot(b, j as int));
            match Keyslot::from_bytes(sb) {
                Ok(k) => {
                    keyslots.push(k);
                },
                Err(_) => {},
            }
            j = j + 1;
        }
        let cb = match reader.read_exact(2) {
            Ok(x) => x,
            Err(e) => return Err(e),
        };
        assert(cb@ =~= b.subrange(282, 284));
        let count = u16_from_le(cb.as_slice());
        assert(fixed_outcome(b) is None);
        let mut objects: Vec<HeaderObject> = Vec::new();
        let mut i: usize = 0;
        while i < count as usize
            invariant
                i <= count,
                count == object_count(b),
                b == all.subrange(start_pos as int, all.len() as int),
                reader.bytes@ == all,
                all == old(reader).bytes@,
                start_pos == old(reader).pos,
                reader.pos <= all.len(),
                objects_outcome(b, i as nat) is Ok,
                start_pos + b.len() == all.len(),
                b.len() >= HEADER_FIXED_LEN,
                fixed_outcome(b) is None,
                reader.pos == start_pos + object_start(b, i as nat),
                objects@.len() == i,
                forall|k: int|
                    0 <= k < i ==> HeaderObject::spec_decodes(
                        object_span(b, k as nat),
                        #[trigger] objects@[k],
                    ),
            decreases count - i,
        {
            let ghost p = object_start(b, i as nat);
            proof {
                lemma_objects_outcome_bounds(b, i as nat);
                assert(reader.rest() =~= b.subrange(p, b.len() as int));
            }
            let lb = match reader.read_exact(8) {
                Ok(x) => x,
                Err(e) => {
                    proof {
                        lemma_objects_err_persists(b, (i + 1) as nat, count as nat);
                    }
                    return Err(e);
                },
            };
            assert(lb@ =~= b.subrange(p, p + 8));
            let size = u64_from_le(lb.as_slice());
            if size > (reader.bytes.len() - reader.pos) as u64 {
                proof {
                    lemma_objects_err_persists(b, (i + 1) as nat, count as nat);
                }
                return Err(Error::Read);
            }
            assert(reader.rest() =~= b.subrange(p + 8, b.len() as int));
            let ob = match reader.read_exact(size as usize) {
                Ok(x) => x,
                Err(e) => return Err(e),
            };
            assert(ob@ =~= b.subrange(p + 8, p + 8 + size));
            assert(object_size_at(b, p) == size);
            let o = match HeaderObject::from_bytes(ob.as_slice()) {
                Ok(x) => x,
                Err(e) => {
                    proof {
                        lemma_objects_err_persists(b, (i + 1) as nat, count as nat);
                    }
                    return Err(e);
                },
            };
            objects.push(o);
            i = i + 1;
        }
        Ok(Header { version, algorithm, nonce, keyslots, objects })
    }
}


proof fn lemma_objects_prefix(objs: Seq<HeaderObject>, i: int)
    requires
        0 <= i <= objs.len(),
    ensures
        objects_bytes(objs.subrange(0, i)).len() <= objects_bytes(objs).len(),
        objects_bytes(objs).subrange(0, objects_bytes(objs.subrange(0, i)).len() as int)
            == objects_bytes(objs.subrange(0, i)),
    decreases objs.len(),
{
    if i == objs.len() {
        assert(objs.subrange(0, i) =~= objs);
        assert(objects_bytes(objs).subrange(0, objects_bytes(objs).len() as int)
            =~= objects_bytes(objs));
    } else {
        let d = objs.drop_last();
        lemma_objects_prefix(d, i);
        assert(d.subrange(0, i) =~= objs.subrange(0, i));
        let pre = objects_bytes(objs.subrange(0, i));
        assert(objects_bytes(objs).subrange(0, pre.len() as int) =~= objects_bytes(d).subrange(
            0,
            pre.len() as int,
        ));
    }
}

/// Pieces of a window of `b` sit where the window puts them.
proof fn lemma_window(b: Seq<u8>, base: int, w: Seq<u8>, pre: Seq<u8>, mid: Seq<u8>, e: Seq<u8>)
    requires
        0 <= base,
        base + w.len() <= b.len(),
        b.subrange(base, base + w.len()) == w,
        w == pre + mid + e,
    ensures
        b.subrange(base + pre.len(), base + pre.len() + mid.len()) == mid,
        b.subrange(base + pre.len() + mid.len(), base + w.len()) == e,
{
    let q = pre.len() as int;
    let m = mid.len() as int;
    assert(w.subrange(q, q + m) =~= mid);
    assert(w.subrange(q + m, w.len() as int) =~= e);
    assert(b.subrange(base + q, base + q + m) =~= w.subrange(q, q + m));
    assert(b.subrange(base + q + m, base + w.len()) =~= w.subrange(q + m, w.len() as int));
}

proof fn lemma_outcome_step(b: Seq<u8>, i: nat, p: int, size: int)
    requires
        objects_outcome(b, i) == Ok::<int, Error>(p),
        p + 8 + size <= b.len(),
        object_size_at(b, p) == size,
        HeaderObject::spec_valid(b.subrange(p + 8, p + 8 + size)),
    ensures
        objects_outcome(b, i + 1) == Ok::<int, Error>(p + 8 + size),
        object_span(b, i) == b.subrange(p + 8, p + 8 + size),
{
}

proof fn lemma_objects_bytes_snoc(objs: Seq<HeaderObject>, i: int)
    requires
        0 <= i < objs.len(),
    ensures
        objects_bytes(objs.subrange(0, i + 1)) == objects_bytes(objs.subrange(0, i)) + le64(
            objs[i].spec_as_bytes().len() as u64,
        ) + objs[i].spec_as_bytes(),
{
    let next = objs.subrange(0, i + 1);
    assert(next.drop_last() =~= objs.subrange(0, i));
    assert(next.last() == objs[i]);
}

#[verifier::spinoff_prover]
#[verifier::rlimit(100)]
proof fn lemma_object_step(b: Seq<u8>, objs: Seq<HeaderObject>, i: nat)
    requires
        b.len() == HEADER_FIXED_LEN + objects_bytes(objs).len(),
        b.subrange(HEADER_FIXED_LEN as int, b.len() as int) == objects_bytes(objs),
        b.len() <= u64::MAX,
        i < objs.len(),
        objects_outcome(b, i) == Ok::<int, Error>(
            HEADER_FIXED_LEN + objects_bytes(objs.subrange(0, i as int)).len(),
        ),
    ensures
        objects_outcome(b, i + 1) == Ok::<int, Error>(
            HEADER_FIXED_LEN + objects_bytes(objs.subrange(0, i as int + 1)).len(),
        ),
        object_span(b, i) == objs[i as int].spec_as_bytes(),
{
    let ob = objects_bytes(objs);
    let base = HEADER_FIXED_LEN as int;
    let pre = objects_bytes(objs.subrange(0, i as int));
    let e = objs[i as int].spec_as_bytes();
    let lp = le64(e.len() as u64);
    lemma_objects_bytes_snoc(objs, i as int);
    lemma_objects_prefix(objs, i as int + 1);
    let nb = objects_bytes(objs.subrange(0, i as int + 1));
    assert(b.subrange(base, base + nb.len()) =~= ob.subrange(0, nb.len() as int));
    lemma_window(b, base, nb, pre, lp, e);
    let p = base + pre.len();
    lemma_le64_round_trip(e.len() as u64);
    HeaderObject::lemma_round_trip(objs[i as int]);
    lemma_outcome_step(b, i, p, e.len() as int);
}

/// The object region of an encoding reads back object by object.
proof fn lemma_objects_parse(b: Seq<u8>, objs: Seq<HeaderObject>, i: nat)
    requires
        b.len() == HEADER_FIXED_LEN + objects_bytes(objs).len(),
        b.subrange(HEADER_FIXED_LEN as int, b.len() as int) == objects_bytes(objs),
        b.len() <= u64::MAX,
        i <= objs.len(),
    ensures
        objects_outcome(b, i) == Ok::<int, Error>(
            HEADER_FIXED_LEN + objects_bytes(objs.subrange(0, i as int)).len(),
        ),
        i < objs.len() ==> object_span(b, i) == objs[i as int].spec_as_bytes(),
    decreases i,
{
    if i == 0 {
        assert(objs.subrange(0, 0) =~= Seq::<HeaderObject>::empty());
    } else {
        lemma_objects_parse(b, objs, (i - 1) as nat);
        lemma_object_step(b, objs, (i - 1) as nat);
    }
    if i < objs.len() {
        lemma_object_step(b, objs, i);
    }
}

proof fn lemma_fixed_layout(h: Header, fill: Seq<u8>)
    requires
        h.wf(),
        fill.len() >= fill_len(h.keyslots@.len()),
    ensures
        ({
            let b = h.spec_as_bytes(fill);
            &&& b.len() == HEADER_FIXED_LEN + objects_bytes(h.objects@).len()
            &&& b.subrange(2, 4) == h.version.spec_as_bytes()
            &&& b.subrange(4, 6) == h.algorithm.spec_as_bytes()
            &&& b.subrange(6, 38) == h.nonce.spec_as_bytes()
            &&& b.subrange(38, 282) == slots_upto(h.keyslots@, fill, KEYSLOT_LIMIT as nat)
            &&& b.subrange(282, 284) == le16(h.objects@.len() as u16)
            &&& b.subrange(HEADER_FIXED_LEN as int, b.len() as int) == objects_bytes(h.objects@)
        }),
{
    let b = h.spec_as_bytes(fill);
    HeaderVersion::lemma_round_trip(h.version);
    Algorithm::lemma_round_trip(h.algorithm);
    Nonce::lemma_round_trip(h.nonce);
    lemma_slots_len(h.keyslots@, fill, KEYSLOT_LIMIT as nat);
    let r = slots_upto(h.keyslots@, fill, KEYSLOT_LIMIT as nat);
    assert(b.subrange(2, 4) =~= h.version.spec_as_bytes());
    assert(b.subrange(4, 6) =~= h.algorithm.spec_as_bytes());
    assert(b.subrange(6, 38) =~= h.nonce.spec_as_bytes());
    assert(b.subrange(38, 282) =~= r);
    assert(b.subrange(282, 284) =~= le16(h.objects@.len() as u16));
    assert(b.subrange(HEADER_FIXED_LEN as int, b.len() as int) =~= objects_bytes(h.objects@));
}

/// Slot `j` of an encoding holds the `j`-th real keyslot, or fill.
proof fn lemma_slot_of_encoding(h: Header, fill: Seq<u8>, j: int)
    requires
        h.wf(),
        fill.len() >= fill_len(h.keyslots@.len()),
        0 <= j < KEYSLOT_LIMIT,
    ensures
        slot(h.spec_as_bytes(fill), j) == slot_bytes(h.keyslots@, fill, j),
{
    let b = h.spec_as_bytes(fill);
    lemma_fixed_layout(h, fill);
    let ks = h.keyslots@;
    lemma_slots_len(ks, fill, 1);
    lemma_slots_len(ks, fill, 2);
    let r = slots_upto(ks, fill, 2);
    assert(slots_upto(ks, fill, 0) =~= Seq::<u8>::empty());
    assert(r =~= slot_bytes(ks, fill, 0) + slot_bytes(ks, fill, 1));
    if j == 0 {
        assert(slot(b, 0) =~= r.subrange(0, 122));
    } else {
        assert(slot(b, 1) =~= r.subrange(122, 244));
    }
    assert(b.subrange(38, 282).subrange(122 * j, 122 * j + 122) =~= slot(b, j));
}

/// An encoded header reads back without error and takes exactly its own bytes.
pub proof fn lemma_header_decodes_ok(h: Header, fill: Seq<u8>)
    requires
        h.wf(),
        fill.len() >= fill_len(h.keyslots@.len()),
        h.spec_as_bytes(fill).len() <= usize::MAX,
    ensures
        header_outcome(h.spec_as_bytes(fill)) == Ok::<int, Error>(
            h.spec_as_bytes(fill).len() as int,
        ),
{
    let b = h.spec_as_bytes(fill);
    lemma_fixed_layout(h, fill);
    assert(b.subrange(4, 6)[1] == b[5]);
    assert(b.subrange(6, 38)[1] == b[7]);
    assert(b[0] == 0xFA && b[1] == 0xDA);
    assert(fixed_outcome(b) is None);
    lemma_le16_round_trip(h.objects@.len() as u16);
    assert(object_count(b) == h.objects@.len());
    lemma_objects_parse(b, h.objects@, h.objects@.len());
    assert(h.objects@.subrange(0, h.objects@.len() as int) =~= h.objects@);
}

proof fn lemma_keyslots_round_trip(h: Header, fill: Seq<u8>, d: Header)
    requires
        h.wf(),
        fill.len() >= fill_len(h.keyslots@.len()),
        header_decodes(h.spec_as_bytes(fill), d),
    ensures
        h.keyslots@.len() <= d.keyslots@.len() <= KEYSLOT_LIMIT,
        d.keyslots@.subrange(0, h.keyslots@.len() as int) == h.keyslots@,
{
    let b = h.spec_as_bytes(fill);
    let ks = h.keyslots@;
    let n = ks.len();
    assert forall|j: int| 0 <= j < n implies slot(b, j) == ks[j].spec_as_bytes()
        && Keyslot::spec_valid(slot(b, j)) by {
        lemma_slot_of_encoding(h, fill, j);
        Keyslot::lemma_round_trip(ks[j]);
    }
    let si = slot_indices(b);
    assert(slot_indices_upto(b, 0) =~= Seq::<int>::empty());
    assert(slot_indices_upto(b, 1).len() <= 1);
    assert(si.len() >= n);
    assert forall|k: int| 0 <= k < n implies si[k] == k by {
        if n >= 1 {
            assert(slot_indices_upto(b, 1) =~= seq![0int]);
        }
    }
    assert forall|k: int| 0 <= k < n implies d.keyslots@[k] == ks[k] by {
        assert(si[k] == k);
        Keyslot::lemma_round_trip(ks[k]);
        Keyslot::lemma_decodes_unique(slot(b, k), d.keyslots@[k], ks[k]);
    }
    assert(d.keyslots@.subrange(0, n as int) =~= ks);
}

proof fn lemma_objects_round_trip(h: Header, fill: Seq<u8>, d: Header)
    requires
        h.wf(),
        fill.len() >= fill_len(h.keyslots@.len()),
        h.spec_as_bytes(fill).len() <= usize::MAX,
        header_decodes(h.spec_as_bytes(fill), d),
    ensures
        d@.objects == h@.objects,
{
    let b = h.spec_as_bytes(fill);
    lemma_fixed_layout(h, fill);
    lemma_le16_round_trip(h.objects@.len() as u16);
    let objs = h.objects@;
    assert(object_count(b) == objs.len());
    assert forall|i: int| 0 <= i < objs.len() implies d.objects@[i]@ == objs[i]@ by {
        lemma_objects_parse(b, objs, i as nat);
        HeaderObject::lemma_round_trip(objs[i]);
        HeaderObject::lemma_decodes_unique(object_span(b, i as nat), d.objects@[i], objs[i]);
    }
    assert(d@.objects =~= h@.objects);
}

/// Decoding an encoded header gives back its version, algorithm, nonce and objects,
/// and its real keyslots, in order, ahead of any fill slot that happens to decode.
pub proof fn lemma_header_partial_round_trip(h: Header, fill: Seq<u8>, d: Header)
    requires
        h.wf(),
        fill.len() >= fill_len(h.keyslots@.len()),
        h.spec_as_bytes(fill).len() <= usize::MAX,
        header_decodes(h.spec_as_bytes(fill), d),
    ensures
        d.version == h.version,
        d.algorithm == h.algorithm,
        d.nonce == h.nonce,
        h.keyslots@.len() <= d.keyslots@.len() <= KEYSLOT_LIMIT,
        d.keyslots@.subrange(0, h.keyslots@.len() as int) == h.keyslots@,
        d@.objects == h@.objects,
{
    let b = h.spec_as_bytes(fill);
    lemma_fixed_layout(h, fill);
    HeaderVersion::lemma_round_trip(h.version);
    HeaderVersion::lemma_decodes_unique(b.subrange(2, 4), d.version, h.version);
    Algorithm::lemma_round_trip(h.algorithm);
    Algorithm::lemma_decodes_unique(b.subrange(4, 6), d.algorithm, h.algorithm);
    Nonce::lemma_round_trip(h.nonce);
    Nonce::lemma_decodes_unique(b.subrange(6, 38), d.nonce, h.nonce);
    lemma_keyslots_round_trip(h, fill, d);
    lemma_objects_round_trip(h, fill, d);
}

/// With every keyslot real, decoding an encoded header gives the header back.
pub proof fn lemma_header_round_trip(h: Header, fill: Seq<u8>, d: Header)
    requires
        h.wf(),
        h.keyslots@.len() == KEYSLOT_LIMIT,
        h.spec_as_bytes(fill).len() <= usize::MAX,
        header_decodes(h.spec_as_bytes(fill), d),
    ensures
        d@ == h@,
{
    lemma_header_partial_round_trip(h, fill, d);
    assert(d.keyslots@ =~= d.keyslots@.subrange(0, KEYSLOT_LIMIT as int));
}


/// A header whose nonce discriminant does not belong with its algorithm
/// discriminant is rejected as invalid.
pub proof fn lemma_algorithm_nonce_agreement(b: Seq<u8>)
    requires
        b.len() >= 38,
        b[0] == 0xFA,
        b[1] == 0xDA,
        HeaderVersion::spec_valid(b.subrange(2, 4)),
        Algorithm::spec_valid(b.subrange(4, 6)),
        Nonce::spec_valid(b.subrange(6, 38)),
        b[7] != nonce_tag_for(b[5]),
    ensures
        header_outcome(b) == Err::<int, Error>(Error::Validity),
{
}

/// A header whose file magic differs from `FA DA` is rejected as invalid.
pub proof fn lemma_header_magic(b: Seq<u8>)
    requires
        b.len() >= 2,
        b[0] != 0xFA || b[1] != 0xDA,
    ensures
        header_outcome(b) == Err::<int, Error>(Error::Validity),
{
}

} // verus!

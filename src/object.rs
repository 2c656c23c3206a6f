use vstd::prelude::*;

use crate::encoding::{
    le64, le64_value, lemma_le64_round_trip, push_all, u64_from_le, u64_to_le, Error,
    HeaderEncode, Offset,
};
use crate::primitives::{
    EncryptedKey, Nonce, Salt, ENCRYPTED_KEY_OUTPUT_LEN, NONCE_OUTPUT_LEN, SALT_OUTPUT_LEN,
};

verus! {

pub const HEADER_OBJECT_IDENTIFIER_OUTPUT_LEN: usize = 102;

/// Bytes of an encoded object that come before its data.
pub const HEADER_OBJECT_FIXED_LEN: usize = 144;

/// The encrypted identifier of a metadata object.
#[derive(Debug, Clone, Copy, PartialEq, Eq)]
pub struct HeaderObjectIdentifier {
    pub key: EncryptedKey,
    pub salt: Salt,
}

impl View for HeaderObjectIdentifier {
    type V = HeaderObjectIdentifier;

    open spec fn view(&self) -> HeaderObjectIdentifier {
        *self
    }
}

impl HeaderEncode for HeaderObjectIdentifier {
    open spec fn spec_magic() -> Seq<u8> {
        seq![0xC2u8, 0xE9u8]
    }

    proof fn lemma_tag_closure(b: Seq<u8>, i: int, x: u8) {
        assert(Self::spec_magic().len() == 2);
        assert(HeaderObjectIdentifier::spec_valid(b));
        assert(b.len() >= 2);
        assert(0 <= i < 2);
        let c = b.update(i, x);
        assert(c.len() == b.len() && c[i] == x);
        assert(c[i] != b[i]);
    }

    open spec fn spec_as_bytes(&self) -> Seq<u8> {
        seq![0xC2, 0xE9] + self.key.spec_as_bytes() + self.salt.spec_as_bytes()
    }

    open spec fn spec_valid(b: Seq<u8>) -> bool {
        &&& b.len() == HEADER_OBJECT_IDENTIFIER_OUTPUT_LEN
        &&& b[0] == 0xC2
        &&& b[1] == 0xE9
        &&& EncryptedKey::spec_valid(b.subrange(2, 84))
        &&& Salt::spec_valid(b.subrange(84, 102))
    }

    open spec fn spec_decodes(b: Seq<u8>, v: Self) -> bool {
        &&& b.len() == HEADER_OBJECT_IDENTIFIER_OUTPUT_LEN
        &&& b[0] == 0xC2
        &&& b[1] == 0xE9
        &&& EncryptedKey::spec_decodes(b.subrange(2, 84), v.key)
        &&& Salt::spec_decodes(b.subrange(84, 102), v.salt)
    }

    proof fn lemma_round_trip(v: Self) {
        let b = v.spec_as_bytes();
        EncryptedKey::lemma_round_trip(v.key);
        Salt::lemma_round_trip(v.salt);
        assert(b.subrange(2, 84) =~= v.key.spec_as_bytes());
        assert(b.subrange(84, 102) =~= v.salt.spec_as_bytes());
    }

    proof fn lemma_decodes_unique(b: Seq<u8>, v1: Self, v2: Self) {
        EncryptedKey::lemma_decodes_unique(b.subrange(2, 84), v1.key, v2.key);
        Salt::lemma_decodes_unique(b.subrange(84, 102), v1.salt, v2.salt);
    }

    fn as_bytes(&self) -> (r: Vec<u8>) {
        let mut o = vec![0xC2u8, 0xE9u8];
        let k = self.key.as_bytes();
        push_all(&mut o, k.as_slice());
        let s = self.salt.as_bytes();
        push_all(&mut o, s.as_slice());
        assert(o@ =~= self.spec_as_bytes());
        o
    }

    fn from_bytes(b: &[u8]) -> (r: Result<Self, Error>) {
        if b.len() != HEADER_OBJECT_IDENTIFIER_OUTPUT_LEN || b[0] != 0xC2u8 || b[1] != 0xE9u8 {
            return Err(Error::Validity);
        }
        let mut offset = Offset::new(2);
        let start = offset.0;
        let end = offset.increment(ENCRYPTED_KEY_OUTPUT_LEN);
        let key = match EncryptedKey::from_bytes(&b[start..end]) {
            Ok(x) => x,
            Err(e) => return Err(e),
        };
        let start = offset.0;
        let end = offset.increment(SALT_OUTPUT_LEN);
        let salt = match Salt::from_bytes(&b[start..end]) {
            Ok(x) => x,
            Err(e) => return Err(e),
        };
        Ok(HeaderObjectIdentifier { key, salt })
    }
}

/// An encrypted metadata blob with its identifier and nonce.
#[derive(Debug, Clone, PartialEq, Eq)]
pub struct HeaderObject {
    pub identifier: HeaderObjectIdentifier,
    pub nonce: Nonce,
    pub data: Vec<u8>,
}

/// The contents of a `HeaderObject`.
pub struct HeaderObjectView {
    pub identifier: HeaderObjectIdentifier,
    pub nonce: Nonce,
    pub data: Seq<u8>,
}

impl View for HeaderObject {
    type V = HeaderObjectView;

    open spec fn view(&self) -> HeaderObjectView {
        HeaderObjectView { identifier: self.identifier, nonce: self.nonce, data: self.data@ }
    }
}

/// The data length an encoded object declares.
pub open spec fn declared_data_len(b: Seq<u8>) -> int {
    le64_value(b.subrange(136, 144)) as int
}

impl HeaderEncode for HeaderObject {
    open spec fn spec_magic() -> Seq<u8> {
        seq![0xF1u8, 0x33u8]
    }

    proof fn lemma_tag_closure(b: Seq<u8>, i: int, x: u8) {
        assert(Self::spec_magic().len() == 2);
        assert(HeaderObject::spec_valid(b));
        assert(b.len() >= 2);
        assert(0 <= i < 2);
        let c = b.update(i, x);
        assert(c.len() == b.len() && c[i] == x);
        assert(c[i] != b[i]);
    }

    open spec fn spec_as_bytes(&self) -> Seq<u8> {
        seq![0xF1, 0x33] + self.identifier.spec_as_bytes() + self.nonce.spec_as_bytes() + le64(
            self.data@.len() as u64,
        ) + self.data@
    }

    open spec fn spec_valid(b: Seq<u8>) -> bool {
        &&& b.len() >= HEADER_OBJECT_FIXED_LEN
        &&& b[0] == 0xF1
        &&& b[1] == 0x33
        &&& HeaderObjectIdentifier::spec_valid(b.subrange(2, 104))
        &&& Nonce::spec_valid(b.subrange(104, 136))
        &&& HEADER_OBJECT_FIXED_LEN + declared_data_len(b) <= b.len()
    }

    open spec fn spec_decodes(b: Seq<u8>, v: Self) -> bool {
        &&& b.len() >= HEADER_OBJECT_FIXED_LEN
        &&& b[0] == 0xF1
        &&& b[1] == 0x33
        &&& HeaderObjectIdentifier::spec_decodes(b.subrange(2, 104), v.identifier)
        &&& Nonce::spec_decodes(b.subrange(104, 136), v.nonce)
        &&& HEADER_OBJECT_FIXED_LEN + declared_data_len(b) <= b.len()
        &&& v.data@ == b.subrange(
            HEADER_OBJECT_FIXED_LEN as int,
            HEADER_OBJECT_FIXED_LEN + declared_data_len(b),
        )
    }

    #[verifier::rlimit(60)]
    proof fn lemma_round_trip(v: Self) {
        let b = v.spec_as_bytes();
        HeaderObjectIdentifier::lemma_round_trip(v.identifier);
        Nonce::lemma_round_trip(v.nonce);
        assert(v.data@.len() == v.data.len());
        lemma_le64_round_trip(v.data@.len() as u64);
        assert(b.subrange(2, 104) =~= v.identifier.spec_as_bytes());
        assert(b.subrange(104, 136) =~= v.nonce.spec_as_bytes());
        assert(b.subrange(136, 144) =~= le64(v.data@.len() as u64));
        assert(b.subrange(144, b.len() as int) =~= v.data@);
    }

    proof fn lemma_decodes_unique(b: Seq<u8>, v1: Self, v2: Self) {
        HeaderObjectIdentifier::lemma_decodes_unique(
            b.subrange(2, 104),
            v1.identifier,
            v2.identifier,
        );
        Nonce::lemma_decodes_unique(b.subrange(104, 136), v1.nonce, v2.nonce);
    }

    fn as_bytes(&self) -> (r: Vec<u8>) {
        let mut o = vec![0xF1u8, 0x33u8];
        let id = self.identifier.as_bytes();
        push_all(&mut o, id.as_slice());
        let n = self.nonce.as_bytes();
        push_all(&mut o, n.as_slice());
        let l = u64_to_le(self.data.len() as u64);
        push_all(&mut o, l.as_slice());
        push_all(&mut o, self.data.as_slice());
        assert(o@ =~= self.spec_as_bytes());
        o
    }

    fn from_bytes(b: &[u8]) -> (r: Result<Self, Error>) {
        if b.len() < HEADER_OBJECT_FIXED_LEN || b[0] != 0xF1u8 || b[1] != 0x33u8 {
            return Err(Error::Validity);
        }
        let mut offset = Offset::new(2);
        let start = offset.0;
        let end = offset.increment(HEADER_OBJECT_IDENTIFIER_OUTPUT_LEN);
        let identifier = match HeaderObjectIdentifier::from_bytes(&b[start..end]) {
            Ok(x) => x,
            Err(e) => return Err(e),
        };
        let start = offset.0;
        let end = offset.increment(NONCE_OUTPUT_LEN);
        let nonce = match Nonce::from_bytes(&b[start..end]) {
            Ok(x) => x,
            Err(e) => return Err(e),
        };
        let start = offset.0;
        let end = offset.increment(8);
        let data_len = u64_from_le(&b[start..end]);
        if data_len > (b.len() - HEADER_OBJECT_FIXED_LEN) as u64 {
            return Err(Error::Validity);
        }
        let start = offset.0;
        let end = offset.increment(data_len as usize);
        let mut data: Vec<u8> = Vec::new();
        push_all(&mut data, &b[start..end]);
        Ok(HeaderObject { identifier, nonce, data })
    }
}

} // verus!

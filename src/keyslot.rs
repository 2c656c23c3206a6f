use vstd::prelude::*;

use crate::encoding::{push_all, Error, HeaderEncode, Offset};
use crate::primitives::{
    EncryptedKey, HashingAlgorithm, Salt, ENCRYPTED_KEY_OUTPUT_LEN, HASHING_ALGORITHM_OUTPUT_LEN,
    SALT_OUTPUT_LEN,
};

verus! {

pub const KEYSLOT_OUTPUT_LEN: usize = 122;

/// One authentication slot: the KDF choice, its two salts and the wrapped key.
#[derive(Debug, Clone, Copy, PartialEq, Eq)]
pub struct Keyslot {
    pub hashing_algorithm: HashingAlgorithm,
    pub hash_salt: Salt,
    pub salt: Salt,
    pub encrypted_key: EncryptedKey,
}

impl View for Keyslot {
    type V = Keyslot;

    open spec fn view(&self) -> Keyslot {
        *self
    }
}

impl Keyslot {
    pub proof fn lemma_round_trip_len(self)
        ensures
            self.spec_as_bytes().len() == KEYSLOT_OUTPUT_LEN,
    {
        Keyslot::lemma_round_trip(self);
    }
}

impl HeaderEncode for Keyslot {
    open spec fn spec_magic() -> Seq<u8> {
        seq![0x83u8, 0x21u8]
    }

    proof fn lemma_tag_closure(b: Seq<u8>, i: int, x: u8) {
        assert(Self::spec_magic().len() == 2);
        assert(Keyslot::spec_valid(b));
        assert(b.len() == KEYSLOT_OUTPUT_LEN);
        assert(0 <= i < 2);
        let c = b.update(i, x);
        assert(c.len() == b.len() && c[i] == x);
        assert(c[i] != b[i]);
    }

    open spec fn spec_as_bytes(&self) -> Seq<u8> {
        seq![0x83, 0x21] + self.hashing_algorithm.spec_as_bytes() + self.hash_salt.spec_as_bytes()
            + self.salt.spec_as_bytes() + self.encrypted_key.spec_as_bytes()
    }

    open spec fn spec_valid(b: Seq<u8>) -> bool {
        &&& b.len() == KEYSLOT_OUTPUT_LEN
        &&& b[0] == 0x83
        &&& b[1] == 0x21
        &&& HashingAlgorithm::spec_valid(b.subrange(2, 4))
        &&& Salt::spec_valid(b.subrange(4, 22))
        &&& Salt::spec_valid(b.subrange(22, 40))
        &&& EncryptedKey::spec_valid(b.subrange(40, 122))
    }

    open spec fn spec_decodes(b: Seq<u8>, v: Self) -> bool {
        &&& b.len() == KEYSLOT_OUTPUT_LEN
        &&& b[0] == 0x83
        &&& b[1] == 0x21
        &&& HashingAlgorithm::spec_decodes(b.subrange(2, 4), v.hashing_algorithm)
        &&& Salt::spec_decodes(b.subrange(4, 22), v.hash_salt)
        &&& Salt::spec_decodes(b.subrange(22, 40), v.salt)
        &&& EncryptedKey::spec_decodes(b.subrange(40, 122), v.encrypted_key)
    }

    proof fn lemma_round_trip(v: Self) {
        let b = v.spec_as_bytes();
        HashingAlgorithm::lemma_round_trip(v.hashing_algorithm);
        Salt::lemma_round_trip(v.hash_salt);
        Salt::lemma_round_trip(v.salt);
        EncryptedKey::lemma_round_trip(v.encrypted_key);
        assert(b.subrange(2, 4) =~= v.hashing_algorithm.spec_as_bytes());
        assert(b.subrange(4, 22) =~= v.hash_salt.spec_as_bytes());
        assert(b.subrange(22, 40) =~= v.salt.spec_as_bytes());
        assert(b.subrange(40, 122) =~= v.encrypted_key.spec_as_bytes());
    }

    proof fn lemma_decodes_unique(b: Seq<u8>, v1: Self, v2: Self) {
        HashingAlgorithm::lemma_decodes_unique(
            b.subrange(2, 4),
            v1.hashing_algorithm,
            v2.hashing_algorithm,
        );
        Salt::lemma_decodes_unique(b.subrange(4, 22), v1.hash_salt, v2.hash_salt);
        Salt::lemma_decodes_unique(b.subrange(22, 40), v1.salt, v2.salt);
        EncryptedKey::lemma_decodes_unique(
            b.subrange(40, 122),
            v1.encrypted_key,
            v2.encrypted_key,
        );
    }

    fn as_bytes(&self) -> (r: Vec<u8>) {
        let mut o = vec![0x83u8, 0x21u8];
        let h = self.hashing_algorithm.as_bytes();
        push_all(&mut o, h.as_slice());
        let hs = self.hash_salt.as_bytes();
        push_all(&mut o, hs.as_slice());
        let s = self.salt.as_bytes();
        push_all(&mut o, s.as_slice());
        let ek = self.encrypted_key.as_bytes();
        push_all(&mut o, ek.as_slice());
        assert(o@ =~= self.spec_as_bytes());
        o
    }

    fn from_bytes(b: &[u8]) -> (r: Result<Self, Error>) {
        if b.len() != KEYSLOT_OUTPUT_LEN || b[0] != 0x83u8 || b[1] != 0x21u8 {
            return Err(Error::Validity);
        }
        let mut offset = Offset::new(2);
        let start = offset.0;
        let end = offset.increment(HASHING_ALGORITHM_OUTPUT_LEN);
        let hashing_algorithm = match HashingAlgorithm::from_bytes(&b[start..end]) {
            Ok(x) => x,
            Err(e) => return Err(e),
        };
        let start = offset.0;
        let end = offset.increment(SALT_OUTPUT_LEN);
        let hash_salt = match Salt::from_bytes(&b[start..end]) {
            Ok(x) => x,
            Err(e) => return Err(e),
        };
        let start = offset.0;
        let end = offset.increment(SALT_OUTPUT_LEN);
        let salt = match Salt::from_bytes(&b[start..end]) {
            Ok(x) => x,
            Err(e) => return Err(e),
        };
        let start = offset.0;
        let end = offset.increment(ENCRYPTED_KEY_OUTPUT_LEN);
        let encrypted_key = match EncryptedKey::from_bytes(&b[start..end]) {
            Ok(x) => x,
            Err(e) => return Err(e),
        };
        Ok(Keyslot { hashing_algorithm, hash_salt, salt, encrypted_key })
    }
}

} // verus!

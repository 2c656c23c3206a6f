use vstd::prelude::*;

use crate::encoding::{lemma_array_eq, push_all, to_array, Error, HeaderEncode, Offset};

verus! {

pub const SALT_LEN: usize = 16;

pub const ENCRYPTED_KEY_LEN: usize = 48;

pub const AES_256_GCM_NONCE_LEN: usize = 12;

pub const AES_256_GCM_SIV_NONCE_LEN: usize = 12;

pub const XCHACHA20_POLY1305_NONCE_LEN: usize = 20;

pub const PARAMS_OUTPUT_LEN: usize = 1;

pub const HASHING_ALGORITHM_OUTPUT_LEN: usize = 2;

pub const ALGORITHM_OUTPUT_LEN: usize = 2;

pub const SALT_OUTPUT_LEN: usize = 18;

pub const NONCE_OUTPUT_LEN: usize = 32;

pub const ENCRYPTED_KEY_OUTPUT_LEN: usize = 82;

/// Difficulty level of a key-derivation function.
#[derive(Debug, Clone, Copy, PartialEq, Eq, Structural)]
pub enum Params {
    Standard,
    Hardened,
    Paranoid,
}

impl Params {
    pub open spec fn spec_tag(self) -> u8 {
        match self {
            Params::Standard => 0x12,
            Params::Hardened => 0x27,
            Params::Paranoid => 0x38,
        }
    }

    pub open spec fn spec_is_tag(b: u8) -> bool {
        b == 0x12 || b == 0x27 || b == 0x38
    }

    fn tag(&self) -> (r: u8)
        ensures
            r == self.spec_tag(),
    {
        match self {
            Params::Standard => 0x12,
            Params::Hardened => 0x27,
            Params::Paranoid => 0x38,
        }
    }

    fn from_tag(b: u8) -> (r: Result<Self, Error>)
        ensures
            r is Ok <==> Self::spec_is_tag(b),
            r matches Ok(p) ==> p.spec_tag() == b,
            r matches Err(e) ==> e == Error::Validity,
    {
        match b {
            0x12 => Ok(Params::Standard),
            0x27 => Ok(Params::Hardened),
            0x38 => Ok(Params::Paranoid),
            _ => Err(Error::Validity),
        }
    }
}

impl View for Params {
    type V = Params;

    open spec fn view(&self) -> Params {
        *self
    }
}

impl HeaderEncode for Params {
    open spec fn spec_magic() -> Seq<u8> {
        seq![]
    }

    proof fn lemma_tag_closure(b: Seq<u8>, i: int, x: u8) {
        assert(Self::spec_magic().len() == 0);
    }

    open spec fn spec_as_bytes(&self) -> Seq<u8> {
        seq![self.spec_tag()]
    }

    open spec fn spec_valid(b: Seq<u8>) -> bool {
        b.len() == PARAMS_OUTPUT_LEN && Params::spec_is_tag(b[0])
    }

    open spec fn spec_decodes(b: Seq<u8>, v: Self) -> bool {
        b.len() == PARAMS_OUTPUT_LEN && b[0] == v.spec_tag()
    }

    proof fn lemma_round_trip(v: Self) {
    }

    proof fn lemma_decodes_unique(b: Seq<u8>, v1: Self, v2: Self) {
    }

    fn as_bytes(&self) -> (r: Vec<u8>) {
        let r = vec![self.tag()];
        assert(r@ =~= self.spec_as_bytes());
        r
    }

    fn from_bytes(b: &[u8]) -> (r: Result<Self, Error>) {
        if b.len() != PARAMS_OUTPUT_LEN {
            return Err(Error::Validity);
        }
        Params::from_tag(b[0])
    }
}

/// The key-derivation function and its difficulty.
#[derive(Debug, Clone, Copy, PartialEq, Eq, Structural)]
pub enum HashingAlgorithm {
    Argon2id(Params),
    Blake3Balloon(Params),
}

impl HashingAlgorithm {
    pub open spec fn spec_params(self) -> Params {
        match self {
            HashingAlgorithm::Argon2id(p) => p,
            HashingAlgorithm::Blake3Balloon(p) => p,
        }
    }

    pub open spec fn spec_tag(self) -> u8 {
        match self {
            HashingAlgorithm::Argon2id(_) => 0xF2,
            HashingAlgorithm::Blake3Balloon(_) => 0xA8,
        }
    }
}

impl View for HashingAlgorithm {
    type V = HashingAlgorithm;

    open spec fn view(&self) -> HashingAlgorithm {
        *self
    }
}

impl HeaderEncode for HashingAlgorithm {
    open spec fn spec_magic() -> Seq<u8> {
        seq![]
    }

    proof fn lemma_tag_closure(b: Seq<u8>, i: int, x: u8) {
        assert(Self::spec_magic().len() == 0);
    }

    open spec fn spec_as_bytes(&self) -> Seq<u8> {
        seq![self.spec_tag(), self.spec_params().spec_tag()]
    }

    open spec fn spec_valid(b: Seq<u8>) -> bool {
        &&& b.len() == HASHING_ALGORITHM_OUTPUT_LEN
        &&& (b[0] == 0xF2 || b[0] == 0xA8)
        &&& Params::spec_is_tag(b[1])
    }

    open spec fn spec_decodes(b: Seq<u8>, v: Self) -> bool {
        b.len() == HASHING_ALGORITHM_OUTPUT_LEN && b == v.spec_as_bytes()
    }

    proof fn lemma_round_trip(v: Self) {
    }

    proof fn lemma_decodes_unique(b: Seq<u8>, v1: Self, v2: Self) {
    }

    fn as_bytes(&self) -> (r: Vec<u8>) {
        let r = match self {
            HashingAlgorithm::Argon2id(p) => vec![0xF2u8, p.tag()],
            HashingAlgorithm::Blake3Balloon(p) => vec![0xA8u8, p.tag()],
        };
        assert(r@ =~= self.spec_as_bytes());
        r
    }

    fn from_bytes(b: &[u8]) -> (r: Result<Self, Error>) {
        if b.len() != HASHING_ALGORITHM_OUTPUT_LEN {
            return Err(Error::Validity);
        }
        let x = match b[0] {
            0xF2u8 => match Params::from_tag(b[1]) {
                Ok(p) => HashingAlgorithm::Argon2id(p),
                Err(e) => return Err(e),
            },
            0xA8u8 => match Params::from_tag(b[1]) {
                Ok(p) => HashingAlgorithm::Blake3Balloon(p),
                Err(e) => return Err(e),
            },
            _ => return Err(Error::Validity),
        };
        assert(b@ =~= x.spec_as_bytes());
        Ok(x)
    }
}

/// The AEAD that protects keys and objects.
#[derive(Debug, Clone, Copy, PartialEq, Eq, Structural)]
pub enum Algorithm {
    Aes256Gcm,
    Aes256GcmSiv,
    XChaCha20Poly1305,
}

impl Algorithm {
    pub open spec fn spec_nonce_len(self) -> nat {
        match self {
            Algorithm::Aes256Gcm => AES_256_GCM_NONCE_LEN as nat,
            Algorithm::Aes256GcmSiv => AES_256_GCM_SIV_NONCE_LEN as nat,
            Algorithm::XChaCha20Poly1305 => XCHACHA20_POLY1305_NONCE_LEN as nat,
        }
    }

    pub open spec fn spec_tag(self) -> u8 {
        match self {
            Algorithm::Aes256Gcm => 0xD1,
            Algorithm::Aes256GcmSiv => 0xD3,
            Algorithm::XChaCha20Poly1305 => 0xD5,
        }
    }

    /// Length of this AEAD's nonce.
    pub fn nonce_len(&self) -> (r: usize)
        ensures
            r == self.spec_nonce_len(),
    {
        match self {
            Algorithm::Aes256Gcm => AES_256_GCM_NONCE_LEN,
            Algorithm::Aes256GcmSiv => AES_256_GCM_SIV_NONCE_LEN,
            Algorithm::XChaCha20Poly1305 => XCHACHA20_POLY1305_NONCE_LEN,
        }
    }
}

impl View for Algorithm {
    type V = Algorithm;

    open spec fn view(&self) -> Algorithm {
        *self
    }
}

impl HeaderEncode for Algorithm {
    open spec fn spec_magic() -> Seq<u8> {
        seq![0x0Du8]
    }

    proof fn lemma_tag_closure(b: Seq<u8>, i: int, x: u8) {
        assert(Self::spec_magic().len() == 1);
        assert(Algorithm::spec_valid(b));
        assert(b.len() >= 1);
        assert(0 <= i < 1);
        let c = b.update(i, x);
        assert(c.len() == b.len() && c[i] == x);
        assert(c[i] != b[i]);
    }

    open spec fn spec_as_bytes(&self) -> Seq<u8> {
        seq![0x0D, self.spec_tag()]
    }

    open spec fn spec_valid(b: Seq<u8>) -> bool {
        &&& b.len() == ALGORITHM_OUTPUT_LEN
        &&& b[0] == 0x0D
        &&& (b[1] == 0xD1 || b[1] == 0xD3 || b[1] == 0xD5)
    }

    open spec fn spec_decodes(b: Seq<u8>, v: Self) -> bool {
        b == v.spec_as_bytes()
    }

    proof fn lemma_round_trip(v: Self) {
    }

    proof fn lemma_decodes_unique(b: Seq<u8>, v1: Self, v2: Self) {
    }

    fn as_bytes(&self) -> (r: Vec<u8>) {
        let s = match self {
            Algorithm::Aes256Gcm => 0xD1u8,
            Algorithm::Aes256GcmSiv => 0xD3u8,
            Algorithm::XChaCha20Poly1305 => 0xD5u8,
        };
        let r = vec![0x0Du8, s];
        assert(r@ =~= self.spec_as_bytes());
        r
    }

    fn from_bytes(b: &[u8]) -> (r: Result<Self, Error>) {
        if b.len() != ALGORITHM_OUTPUT_LEN || b[0] != 0x0Du8 {
            return Err(Error::Validity);
        }
        let a = match b[1] {
            0xD1u8 => Algorithm::Aes256Gcm,
            0xD3u8 => Algorithm::Aes256GcmSiv,
            0xD5u8 => Algorithm::XChaCha20Poly1305,
            _ => return Err(Error::Validity),
        };
        assert(b@ =~= a.spec_as_bytes());
        Ok(a)
    }
}

/// A 16-byte random input to a key-derivation function.
#[derive(Debug, Clone, Copy, PartialEq, Eq)]
pub struct Salt(pub [u8; 16]);

impl Salt {
    pub fn new(b: [u8; 16]) -> (r: Self)
        ensures
            r.0 == b,
    {
        Salt(b)
    }
}

impl View for Salt {
    type V = Salt;

    open spec fn view(&self) -> Salt {
        *self
    }
}

impl HeaderEncode for Salt {
    open spec fn spec_magic() -> Seq<u8> {
        seq![0x0Cu8, 0x04u8]
    }

    proof fn lemma_tag_closure(b: Seq<u8>, i: int, x: u8) {
        assert(Self::spec_magic().len() == 2);
        assert(Salt::spec_valid(b));
        assert(b.len() >= 2);
        assert(0 <= i < 2);
        let c = b.update(i, x);
        assert(c.len() == b.len() && c[i] == x);
        assert(c[i] != b[i]);
    }

    open spec fn spec_as_bytes(&self) -> Seq<u8> {
        seq![0x0C, 0x04] + self.0@
    }

    open spec fn spec_valid(b: Seq<u8>) -> bool {
        b.len() == SALT_OUTPUT_LEN && b[0] == 0x0C && b[1] == 0x04
    }

    open spec fn spec_decodes(b: Seq<u8>, v: Self) -> bool {
        b == v.spec_as_bytes()
    }

    proof fn lemma_round_trip(v: Self) {
    }

    proof fn lemma_decodes_unique(b: Seq<u8>, v1: Self, v2: Self) {
        assert(v1.0@ =~= b.subrange(2, 18));
        assert(v2.0@ =~= b.subrange(2, 18));
        lemma_array_eq(v1.0, v2.0);
    }

    fn as_bytes(&self) -> (r: Vec<u8>) {
        let mut r = vec![0x0Cu8, 0x04u8];
        push_all(&mut r, self.0.as_slice());
        assert(r@ =~= self.spec_as_bytes());
        r
    }

    fn from_bytes(b: &[u8]) -> (r: Result<Self, Error>) {
        if b.len() != SALT_OUTPUT_LEN || b[0] != 0x0Cu8 || b[1] != 0x04u8 {
            return Err(Error::Validity);
        }
        let s = Salt(to_array(b, 2));
        assert(b@ =~= s.spec_as_bytes());
        Ok(s)
    }
}

/// The bytes that follow a nonce in its 32-byte frame: the nonce repeated from its start.
pub open spec fn nonce_padding(n: Seq<u8>) -> Seq<u8> {
    Seq::new((NONCE_OUTPUT_LEN - 2 - n.len()) as nat, |i: int| n[i % (n.len() as int)])
}

/// An AEAD nonce, tagged with the algorithm it belongs to.
#[derive(Debug, Clone, Copy, PartialEq, Eq)]
pub enum Nonce {
    Aes256Gcm([u8; 12]),
    Aes256GcmSiv([u8; 12]),
    XChaCha20Poly1305([u8; 20]),
}

impl Nonce {
    pub open spec fn spec_algorithm(self) -> Algorithm {
        match self {
            Nonce::Aes256Gcm(_) => Algorithm::Aes256Gcm,
            Nonce::Aes256GcmSiv(_) => Algorithm::Aes256GcmSiv,
            Nonce::XChaCha20Poly1305(_) => Algorithm::XChaCha20Poly1305,
        }
    }

    pub open spec fn spec_inner(self) -> Seq<u8> {
        match self {
            Nonce::Aes256Gcm(n) => n@,
            Nonce::Aes256GcmSiv(n) => n@,
            Nonce::XChaCha20Poly1305(n) => n@,
        }
    }

    pub open spec fn spec_tag(self) -> u8 {
        match self {
            Nonce::Aes256Gcm(_) => 0xB2,
            Nonce::Aes256GcmSiv(_) => 0xB5,
            Nonce::XChaCha20Poly1305(_) => 0xB7,
        }
    }

    /// The AEAD this nonce belongs to.
    pub fn algorithm(&self) -> (r: Algorithm)
        ensures
            r == self.spec_algorithm(),
    {
        match self {
            Nonce::Aes256Gcm(_) => Algorithm::Aes256Gcm,
            Nonce::Aes256GcmSiv(_) => Algorithm::Aes256GcmSiv,
            Nonce::XChaCha20Poly1305(_) => Algorithm::XChaCha20Poly1305,
        }
    }

    /// The nonce bytes.
    pub fn inner(&self) -> (r: &[u8])
        ensures
            r@ == self.spec_inner(),
            r@.len() == self.spec_algorithm().spec_nonce_len(),
    {
        match self {
            Nonce::Aes256Gcm(n) => n.as_slice(),
            Nonce::Aes256GcmSiv(n) => n.as_slice(),
            Nonce::XChaCha20Poly1305(n) => n.as_slice(),
        }
    }

    /// Checks that this nonce belongs to `algorithm`.
    pub fn validate(&self, algorithm: Algorithm) -> (r: Result<(), Error>)
        ensures
            r is Ok <==> self.spec_algorithm() == algorithm,
            r matches Err(e) ==> e == Error::Validity,
    {
        let a = self.algorithm();
        let same = match (a, algorithm) {
            (Algorithm::Aes256Gcm, Algorithm::Aes256Gcm) => true,
            (Algorithm::Aes256GcmSiv, Algorithm::Aes256GcmSiv) => true,
            (Algorithm::XChaCha20Poly1305, Algorithm::XChaCha20Poly1305) => true,
            _ => false,
        };
        if same {
            Ok(())
        } else {
            Err(Error::Validity)
        }
    }

    /// The frame is padded by repeating the leading nonce bytes.
    pub proof fn lemma_padding(self)
        ensures
            ({
                let b = self.spec_as_bytes();
                let l = self.spec_algorithm().spec_nonce_len() as int;
                &&& b.len() == NONCE_OUTPUT_LEN
                &&& forall|i: int|
                    0 <= i < NONCE_OUTPUT_LEN - 2 - l ==> #[trigger] b[2 + l + i] == b[2 + i]
            }),
    {
        let b = self.spec_as_bytes();
        let n = self.spec_inner();
        let l = n.len() as int;
        assert forall|i: int| 0 <= i < NONCE_OUTPUT_LEN - 2 - l implies #[trigger] b[2 + l + i]
            == b[2 + i] by {
            if i >= l {
                assert((i - l) % l == i % l) by (nonlinear_arith)
                    requires
                        l > 0,
                        i >= l,
                ;
            } else {
                assert(i % l == i) by (nonlinear_arith)
                    requires
                        l > 0,
                        0 <= i < l,
                ;
            }
        }
    }
}

impl View for Nonce {
    type V = Nonce;

    open spec fn view(&self) -> Nonce {
        *self
    }
}

impl HeaderEncode for Nonce {
    open spec fn spec_magic() -> Seq<u8> {
        seq![0x63u8]
    }

    proof fn lemma_tag_closure(b: Seq<u8>, i: int, x: u8) {
        assert(Self::spec_magic().len() == 1);
        assert(Nonce::spec_valid(b));
        assert(b.len() >= 1);
        assert(0 <= i < 1);
        let c = b.update(i, x);
        assert(c.len() == b.len() && c[i] == x);
        assert(c[i] != b[i]);
    }

    open spec fn spec_as_bytes(&self) -> Seq<u8> {
        let n = self.spec_inner();
        seq![0x63, self.spec_tag()] + n + nonce_padding(n)
    }

    open spec fn spec_valid(b: Seq<u8>) -> bool {
        &&& b.len() == NONCE_OUTPUT_LEN
        &&& b[0] == 0x63
        &&& (b[1] == 0xB2 || b[1] == 0xB5 || b[1] == 0xB7)
    }

    open spec fn spec_decodes(b: Seq<u8>, v: Self) -> bool {
        &&& b.len() == NONCE_OUTPUT_LEN
        &&& b[0] == 0x63
        &&& b[1] == v.spec_tag()
        &&& b.subrange(2, 2 + v.spec_algorithm().spec_nonce_len() as int) == v.spec_inner()
    }

    proof fn lemma_round_trip(v: Self) {
        let n = v.spec_inner();
        let b = v.spec_as_bytes();
        assert(b.subrange(2, 2 + n.len() as int) =~= n);
    }

    proof fn lemma_decodes_unique(b: Seq<u8>, v1: Self, v2: Self) {
        match (v1, v2) {
            (Nonce::Aes256Gcm(x), Nonce::Aes256Gcm(y)) => lemma_array_eq(x, y),
            (Nonce::Aes256GcmSiv(x), Nonce::Aes256GcmSiv(y)) => lemma_array_eq(x, y),
            (Nonce::XChaCha20Poly1305(x), Nonce::XChaCha20Poly1305(y)) => lemma_array_eq(x, y),
            _ => {},
        }
    }

    fn as_bytes(&self) -> (r: Vec<u8>) {
        let b = match self {
            Nonce::Aes256Gcm(_) => 0xB2u8,
            Nonce::Aes256GcmSiv(_) => 0xB5u8,
            Nonce::XChaCha20Poly1305(_) => 0xB7u8,
        };
        let len = self.algorithm().nonce_len();
        let inner = self.inner();
        let mut s = vec![0x63u8, b];
        push_all(&mut s, inner);
        let pad_len = NONCE_OUTPUT_LEN - 2 - len;
        let mut i: usize = 0;
        while i < pad_len
            invariant
                i <= pad_len,
                pad_len == NONCE_OUTPUT_LEN - 2 - len,
                len == inner@.len(),
                len == 12 || len == 20,
                s@ == seq![0x63u8, b] + inner@ + nonce_padding(inner@).subrange(0, i as int),
            decreases pad_len - i,
        {
            s.push(inner[i % len]);
            i = i + 1;
            assert(s@ =~= seq![0x63u8, b] + inner@ + nonce_padding(inner@).subrange(0, i as int));
        }
        assert(nonce_padding(inner@).subrange(0, i as int) =~= nonce_padding(inner@));
        assert(s@ =~= self.spec_as_bytes());
        s
    }

    fn from_bytes(b: &[u8]) -> (r: Result<Self, Error>) {
        if b.len() != NONCE_OUTPUT_LEN || b[0] != 0x63u8 {
            return Err(Error::Validity);
        }
        let x = match b[1] {
            0xB2u8 => Nonce::Aes256Gcm(to_array(b, 2)),
            0xB5u8 => Nonce::Aes256GcmSiv(to_array(b, 2)),
            0xB7u8 => Nonce::XChaCha20Poly1305(to_array(b, 2)),
            _ => return Err(Error::Validity),
        };
        Ok(x)
    }
}

/// A wrapped key together with the nonce that wrapped it.
#[derive(Debug, Clone, Copy, PartialEq, Eq)]
pub struct EncryptedKey {
    pub key: [u8; 48],
    pub nonce: Nonce,
}

impl EncryptedKey {
    pub fn new(key: [u8; 48], nonce: Nonce) -> (r: Self)
        ensures
            r.key == key,
            r.nonce == nonce,
    {
        EncryptedKey { key, nonce }
    }
}

impl View for EncryptedKey {
    type V = EncryptedKey;

    open spec fn view(&self) -> EncryptedKey {
        *self
    }
}

impl HeaderEncode for EncryptedKey {
    open spec fn spec_magic() -> Seq<u8> {
        seq![0x09u8, 0xF3u8]
    }

    proof fn lemma_tag_closure(b: Seq<u8>, i: int, x: u8) {
        assert(Self::spec_magic().len() == 2);
        assert(EncryptedKey::spec_valid(b));
        assert(b.len() >= 2);
        assert(0 <= i < 2);
        let c = b.update(i, x);
        assert(c.len() == b.len() && c[i] == x);
        assert(c[i] != b[i]);
    }

    open spec fn spec_as_bytes(&self) -> Seq<u8> {
        seq![0x09, 0xF3] + self.key@ + self.nonce.spec_as_bytes()
    }

    open spec fn spec_valid(b: Seq<u8>) -> bool {
        &&& b.len() == ENCRYPTED_KEY_OUTPUT_LEN
        &&& b[0] == 0x09
        &&& b[1] == 0xF3
        &&& Nonce::spec_valid(b.subrange(50, 82))
    }

    open spec fn spec_decodes(b: Seq<u8>, v: Self) -> bool {
        &&& b.len() == ENCRYPTED_KEY_OUTPUT_LEN
        &&& b[0] == 0x09
        &&& b[1] == 0xF3
        &&& b.subrange(2, 50) == v.key@
        &&& Nonce::spec_decodes(b.subrange(50, 82), v.nonce)
    }

    proof fn lemma_round_trip(v: Self) {
        let b = v.spec_as_bytes();
        Nonce::lemma_round_trip(v.nonce);
        assert(b.subrange(2, 50) =~= v.key@);
        assert(b.subrange(50, 82) =~= v.nonce.spec_as_bytes());
    }

    proof fn lemma_decodes_unique(b: Seq<u8>, v1: Self, v2: Self) {
        lemma_array_eq(v1.key, v2.key);
        Nonce::lemma_decodes_unique(b.subrange(50, 82), v1.nonce, v2.nonce);
    }

    fn as_bytes(&self) -> (r: Vec<u8>) {
        let mut s = vec![0x09u8, 0xF3u8];
        push_all(&mut s, self.key.as_slice());
        let n = self.nonce.as_bytes();
        push_all(&mut s, n.as_slice());
        assert(s@ =~= self.spec_as_bytes());
        s
    }

    fn from_bytes(b: &[u8]) -> (r: Result<Self, Error>) {
        if b.len() != ENCRYPTED_KEY_OUTPUT_LEN || b[0] != 0x09u8 || b[1] != 0xF3u8 {
            return Err(Error::Validity);
        }
        let mut offset = Offset::new(2);
        let key: [u8; 48] = to_array(b, offset.0);
        let start = offset.0;
        let end = offset.increment(ENCRYPTED_KEY_LEN);
        assert(start == 2 && end == 50);
        let n = match Nonce::from_bytes(&b[end..ENCRYPTED_KEY_OUTPUT_LEN]) {
            Ok(n) => n,
            Err(e) => return Err(e),
        };
        Ok(EncryptedKey { key, nonce: n })
    }
}

} // verus!

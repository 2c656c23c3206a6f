use file_header::encoding::{Error, HeaderEncode, Offset};
use file_header::header::{Header, HeaderVersion, Reader};
use file_header::keyslot::Keyslot;
use file_header::object::{HeaderObject, HeaderObjectIdentifier};
use file_header::primitives::{Algorithm, EncryptedKey, HashingAlgorithm, Nonce, Params, Salt};
use file_header::protocol::SpaceTimeProtocolName;

fn nonce12() -> [u8; 12] {
    [0x00, 0x01, 0x02, 0x03, 0x04, 0x05, 0x06, 0x07, 0x08, 0x09, 0x0A, 0x0B]
}

fn keyslot(seed: u8) -> Keyslot {
    Keyslot {
        hashing_algorithm: HashingAlgorithm::Argon2id(Params::Standard),
        hash_salt: Salt::new([seed; 16]),
        salt: Salt::new([seed.wrapping_add(1); 16]),
        encrypted_key: EncryptedKey::new([seed.wrapping_add(2); 48], Nonce::XChaCha20Poly1305([seed; 20])),
    }
}

fn object(seed: u8, data: Vec<u8>) -> HeaderObject {
    HeaderObject {
        identifier: HeaderObjectIdentifier {
            key: EncryptedKey::new([seed; 48], Nonce::Aes256GcmSiv([seed; 12])),
            salt: Salt::new([seed; 16]),
        },
        nonce: Nonce::Aes256Gcm([seed.wrapping_add(3); 12]),
        data,
    }
}

fn header(keyslots: Vec<Keyslot>, objects: Vec<HeaderObject>) -> Header {
    Header {
        version: HeaderVersion::V1,
        algorithm: Algorithm::Aes256Gcm,
        nonce: Nonce::Aes256Gcm(nonce12()),
        keyslots,
        objects,
    }
}

fn decode(bytes: Vec<u8>) -> Result<Header, Error> {
    let mut r = Reader::new(bytes);
    Header::from_reader_raw(&mut r)
}

#[test]
fn minimal_v1_header() {
    let h = header(vec![keyslot(7)], vec![]);
    let b = h.as_bytes(&[0u8; 120]);
    assert_eq!(b.len(), 284);
    assert_eq!(&b[0..6], &[0xFA, 0xDA, 0xDA, 0xDA, 0x0D, 0xD1]);
    assert_eq!(&b[6..20], &[0x63, 0xB2, 0, 1, 2, 3, 4, 5, 6, 7, 8, 9, 0x0A, 0x0B]);
    assert_eq!(&b[20..38], &[0, 1, 2, 3, 4, 5, 6, 7, 8, 9, 0x0A, 0x0B, 0, 1, 2, 3, 4, 5]);
    assert_eq!(&b[38..40], &[0x83, 0x21]);
    assert_eq!(&b[160..162], &[0x83, 0x21]);
    assert_eq!(&b[282..284], &[0x00, 0x00]);
}

#[test]
fn params_tag_table() {
    assert_eq!(Params::Standard.as_bytes(), vec![0x12]);
    assert_eq!(Params::Hardened.as_bytes(), vec![0x27]);
    assert_eq!(Params::Paranoid.as_bytes(), vec![0x38]);
    assert_eq!(Params::from_bytes(&[0x27]), Ok(Params::Hardened));
    assert_eq!(Params::from_bytes(&[0x13]), Err(Error::Validity));
    assert_eq!(Params::from_bytes(&[0x00]), Err(Error::Validity));
}

#[test]
fn unknown_aead_discriminant() {
    let mut b = header(vec![keyslot(1)], vec![]).as_bytes(&[0u8; 120]);
    b[4] = 0x0D;
    b[5] = 0xFF;
    assert_eq!(decode(b), Err(Error::Validity));
}

#[test]
fn short_keyslot_region() {
    let mut b = header(vec![keyslot(1), keyslot(2)], vec![]).as_bytes(&[]);
    for x in b[160..282].iter_mut() {
        *x = 0;
    }
    let d = decode(b).unwrap();
    assert_eq!(d.keyslots.len(), 1);
    assert_eq!(d.keyslots[0], keyslot(1));
}

#[test]
fn object_too_short() {
    let mut b = header(vec![keyslot(1), keyslot(2)], vec![]).as_bytes(&[]);
    b[282] = 1;
    b[283] = 0;
    b.extend_from_slice(&1000u64.to_le_bytes());
    b.extend_from_slice(&[0xF1u8; 500]);
    assert_eq!(decode(b), Err(Error::Read));
}

#[test]
fn version_mismatch() {
    let mut b = header(vec![keyslot(1)], vec![]).as_bytes(&[9u8; 120]);
    b[2] = 0xDA;
    b[3] = 0xDB;
    assert_eq!(decode(b), Err(Error::Validity));
    assert_eq!(decode(vec![0xFA, 0xDA, 0xDA, 0xDB]), Err(Error::Validity));
}

#[test]
fn round_trip_full_keyslots() {
    let h = header(
        vec![keyslot(1), keyslot(2)],
        vec![object(4, vec![1, 2, 3, 4, 5]), object(5, vec![])],
    );
    let b = h.as_bytes(&[]);
    let d = decode(b).unwrap();
    assert_eq!(d, h);
}

#[test]
fn round_trip_reader_position() {
    let h = header(vec![keyslot(1), keyslot(2)], vec![object(4, vec![9; 3])]);
    let mut b = h.as_bytes(&[]);
    let n = b.len();
    b.extend_from_slice(&[0xEE; 10]);
    let mut r = Reader::new(b);
    assert_eq!(Header::from_reader_raw(&mut r), Ok(h));
    assert_eq!(r.pos, n);
}

#[test]
fn partial_round_trip() {
    let h = header(vec![keyslot(3)], vec![object(6, vec![7; 20])]);
    let fill: Vec<u8> = (0..120u32).map(|i| (i * 37 + 11) as u8).collect();
    let d = decode(h.as_bytes(&fill)).unwrap();
    assert!(!d.keyslots.is_empty());
    assert_eq!(d.keyslots[0], keyslot(3));
    assert_eq!(d.objects, h.objects);
    assert_eq!(d.nonce, h.nonce);
    assert_eq!(d.algorithm, h.algorithm);
}

#[test]
fn zero_keyslots_random_fill_drops() {
    let h = header(vec![], vec![]);
    let fill = [0xFFu8; 240];
    let b = h.as_bytes(&fill);
    assert_eq!(&b[38..40], &[0x83, 0x21]);
    assert_eq!(&b[160..162], &[0x83, 0x21]);
    let d = decode(b).unwrap();
    assert_eq!(d.keyslots.len(), 0);
}

#[test]
fn length_law() {
    let h = header(vec![keyslot(1)], vec![object(4, vec![1, 2, 3, 4, 5]), object(5, vec![])]);
    let b = h.as_bytes(&[0u8; 120]);
    assert_eq!(b.len(), 284 + (8 + 149) + (8 + 144));
    assert_eq!(object(4, vec![1, 2, 3, 4, 5]).as_bytes().len(), 149);
    assert_eq!(&b[282..284], &[2, 0]);
    assert_eq!(&b[284..292], &149u64.to_le_bytes());
}

#[test]
fn tag_closure() {
    let s = Salt::new([5u8; 16]).as_bytes();
    for i in 0..2 {
        let mut t = s.clone();
        t[i] ^= 0x40;
        assert_eq!(Salt::from_bytes(&t), Err(Error::Validity));
    }
    let k = keyslot(1).as_bytes();
    for i in [0usize, 1, 4, 5, 22, 23, 40, 41, 90] {
        let mut t = k.clone();
        t[i] ^= 0x01;
        assert_eq!(Keyslot::from_bytes(&t), Err(Error::Validity));
    }
    let mut n = Nonce::Aes256Gcm(nonce12()).as_bytes();
    n[0] = 0x64;
    assert_eq!(Nonce::from_bytes(&n), Err(Error::Validity));
    assert_eq!(Algorithm::from_bytes(&[0x0E, 0xD1]), Err(Error::Validity));
    assert_eq!(HeaderVersion::from_bytes(&[0xDB, 0xDA]), Err(Error::Validity));
    let o = object(1, vec![1]).as_bytes();
    let mut t = o.clone();
    t[1] = 0x34;
    assert_eq!(HeaderObject::from_bytes(&t), Err(Error::Validity));
    let mut t = o.clone();
    t[2] = 0xC3;
    assert_eq!(HeaderObject::from_bytes(&t), Err(Error::Validity));
}

#[test]
fn header_magic_mismatch() {
    let mut b = header(vec![keyslot(1)], vec![]).as_bytes(&[0u8; 120]);
    b[1] = 0xDB;
    assert_eq!(decode(b), Err(Error::Validity));
}

#[test]
fn nonce_padding_law() {
    let x: [u8; 20] = core::array::from_fn(|i| (i as u8) * 3 + 1);
    let b = Nonce::XChaCha20Poly1305(x).as_bytes();
    assert_eq!(b.len(), 32);
    assert_eq!(&b[0..2], &[0x63, 0xB7]);
    assert_eq!(&b[2..22], &x[..]);
    assert_eq!(&b[22..32], &x[0..10]);
    let b = Nonce::Aes256GcmSiv([0xAB; 12]).as_bytes();
    assert_eq!(b[1], 0xB5);
    for i in 0..18 {
        assert_eq!(b[14 + i], b[2 + i]);
    }
}

#[test]
fn algorithm_nonce_agreement() {
    let mut h = header(vec![keyslot(1)], vec![]);
    h.nonce = Nonce::XChaCha20Poly1305([1; 20]);
    let mut b = header(vec![keyslot(1)], vec![]).as_bytes(&[0u8; 120]);
    let n = h.nonce.as_bytes();
    b[6..38].copy_from_slice(&n);
    assert_eq!(decode(b), Err(Error::Validity));
}

#[test]
fn nonce_round_trip_and_validate() {
    let n = Nonce::XChaCha20Poly1305([4; 20]);
    assert_eq!(Nonce::from_bytes(&n.as_bytes()), Ok(n));
    assert_eq!(n.algorithm(), Algorithm::XChaCha20Poly1305);
    assert_eq!(n.validate(Algorithm::XChaCha20Poly1305), Ok(()));
    assert_eq!(n.validate(Algorithm::Aes256Gcm), Err(Error::Validity));
    assert_eq!(Algorithm::XChaCha20Poly1305.nonce_len(), 20);
    assert_eq!(Algorithm::Aes256Gcm.nonce_len(), 12);
    let mut b = n.as_bytes();
    b[1] = 0xB9;
    assert_eq!(Nonce::from_bytes(&b), Err(Error::Validity));
}

#[test]
fn primitive_encodings() {
    assert_eq!(HashingAlgorithm::Argon2id(Params::Paranoid).as_bytes(), vec![0xF2, 0x38]);
    assert_eq!(HashingAlgorithm::Blake3Balloon(Params::Hardened).as_bytes(), vec![0xA8, 0x27]);
    assert_eq!(
        HashingAlgorithm::from_bytes(&[0xA8, 0x12]),
        Ok(HashingAlgorithm::Blake3Balloon(Params::Standard))
    );
    assert_eq!(HashingAlgorithm::from_bytes(&[0xA8, 0x13]), Err(Error::Validity));
    assert_eq!(Algorithm::Aes256GcmSiv.as_bytes(), vec![0x0D, 0xD3]);
    assert_eq!(Algorithm::from_bytes(&[0x0D, 0xD5]), Ok(Algorithm::XChaCha20Poly1305));
    assert_eq!(HeaderVersion::V1.as_bytes(), vec![0xDA, 0xDA]);
    let s = Salt::new([3; 16]).as_bytes();
    assert_eq!(s.len(), 18);
    assert_eq!(&s[0..2], &[0x0C, 0x04]);
    let ek = EncryptedKey::new([8; 48], Nonce::Aes256Gcm([2; 12]));
    let b = ek.as_bytes();
    assert_eq!(b.len(), 82);
    assert_eq!(&b[0..2], &[0x09, 0xF3]);
    assert_eq!(EncryptedKey::from_bytes(&b), Ok(ek));
    assert_eq!(keyslot(1).as_bytes().len(), 122);
    assert_eq!(Keyslot::from_bytes(&keyslot(9).as_bytes()), Ok(keyslot(9)));
    let id = object(2, vec![]).identifier;
    assert_eq!(id.as_bytes().len(), 102);
    assert_eq!(HeaderObjectIdentifier::from_bytes(&id.as_bytes()), Ok(id));
    assert_eq!(Salt::from_bytes(&[0x0C, 0x04]), Err(Error::Validity));
}

#[test]
fn object_declared_length_exceeds_input() {
    let mut b = object(1, vec![1, 2, 3]).as_bytes();
    b[136] = 4;
    assert_eq!(HeaderObject::from_bytes(&b), Err(Error::Validity));
    b[136] = 2;
    let o = HeaderObject::from_bytes(&b).unwrap();
    assert_eq!(o.data, vec![1, 2]);
}

#[test]
fn truncated_header_is_read_error() {
    let b = header(vec![keyslot(1)], vec![]).as_bytes(&[0u8; 120]);
    assert_eq!(decode(b[..200].to_vec()), Err(Error::Read));
    assert_eq!(decode(b[..1].to_vec()), Err(Error::Read));
    assert_eq!(decode(vec![]), Err(Error::Read));
}

#[test]
fn reader_read_exact() {
    let mut r = Reader::new(vec![1, 2, 3]);
    assert_eq!(r.read_exact(2), Ok(vec![1, 2]));
    assert_eq!(r.read_exact(2), Err(Error::Read));
    assert_eq!(r.pos, 2);
    assert_eq!(r.read_exact(1), Ok(vec![3]));
}

#[test]
fn offset_cursor() {
    let mut o = Offset::new(2);
    assert_eq!(o.0, 2);
    assert_eq!(o.increment(48), 50);
    assert_eq!(o.0, 50);
}

#[test]
fn protocol_name() {
    let p = SpaceTimeProtocolName::new("spacedrive");
    assert_eq!(p.as_str(), "/spacedrive/spacetime/1.0.0");
}

#[test]
fn fill_slot_that_decodes_is_kept() {
    let h = header(vec![keyslot(1)], vec![]);
    let body = keyslot(8).as_bytes();
    let b = h.as_bytes(&body[2..]);
    let d = decode(b).unwrap();
    assert_eq!(d.keyslots, vec![keyslot(1), keyslot(8)]);
}

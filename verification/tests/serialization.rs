use srp::algo::{deserialize, serialize, SRP};
use srp::big::Big;
use srp::SrpError;

#[test]
fn round_trip_small_values() {
    for v in [0u64, 1, 2, 255, 256, 257, 65535, 65536, 0x123456789abcdef0] {
        let x = Big::from_u64(v);
        let bytes = serialize(&x);
        let back = deserialize(&bytes);
        assert_eq!(back.to_bytes_be(), x.to_bytes_be());
    }
}

#[test]
fn round_trip_digest_like_bytes() {
    let raw: Vec<u8> = (0u8..32).map(|i| i.wrapping_mul(37).wrapping_add(11)).collect();
    let x = deserialize(&raw);
    let bytes = serialize(&x);
    let back = deserialize(&bytes);
    assert_eq!(back.to_bytes_be(), x.to_bytes_be());
}

#[test]
fn serialize_concrete_values() {
    assert_eq!(Big::from_u64(0).to_bytes_be(), vec![0x00]);
    assert_eq!(Big::from_u64(1).to_bytes_be(), vec![0x01]);
    assert_eq!(Big::from_u64(0x1234).to_bytes_be(), vec![0x12, 0x34]);
    assert_eq!(Big::from_u64(0x010000).to_bytes_be(), vec![0x01, 0x00, 0x00]);
}

#[test]
fn deserialize_strips_leading_zeros() {
    let x = deserialize(&[0x00, 0x00, 0x05]);
    assert_eq!(x.to_bytes_be(), vec![0x05]);
    let z = deserialize(&[0x00, 0x00]);
    assert_eq!(z.to_bytes_be(), vec![0x00]);
    let e = deserialize(&[]);
    assert_eq!(e.to_bytes_be(), vec![0x00]);
}

#[test]
fn from_hex_accepts_well_formed_strings() {
    assert_eq!(Big::from_hex("ff").unwrap().to_bytes_be(), vec![0xff]);
    assert_eq!(Big::from_hex("00ff").unwrap().to_bytes_be(), vec![0xff]);
    assert_eq!(Big::from_hex("0a0B").unwrap().to_bytes_be(), vec![0x0a, 0x0b]);
    assert_eq!(Big::from_hex("1234").unwrap().to_bytes_be(), vec![0x12, 0x34]);
    assert_eq!(Big::from_hex("00").unwrap().to_bytes_be(), vec![0x00]);
}

#[test]
fn from_hex_rejects_malformed_strings() {
    assert!(matches!(Big::from_hex(""), Err(SrpError::ParseError)));
    assert!(matches!(Big::from_hex("abc"), Err(SrpError::ParseError)));
    assert!(matches!(Big::from_hex("0g"), Err(SrpError::ParseError)));
    assert!(matches!(Big::from_hex("zz"), Err(SrpError::ParseError)));
}

#[test]
fn group_modulus_matches_its_hex_form() {
    let n_hex = "ffffffffffffffffc90fdaa22168c234c4c6628b80dc1cd129024e088a67cc74\
                 020bbea63b139b22514a08798e3404ddef9519b3cd3a431b302b0a6df25f1437\
                 4fe1356d6d51c245e485b576625e7ec6f44c42e9a637ed6b0bff5cb6f406b7ed\
                 ee386bfb5a899fa5ae9f24117c4b1fe649286651ece45b3dc2007cb8a163bf05\
                 98da48361c55d39a69163fa8fd24cf5f83655d23dca3ad961c62f356208552bb\
                 9ed529077096966d670c354e4abc9804f1746c08ca237327ffffffffffffffff";
    let n_hex: String = n_hex.chars().filter(|c| !c.is_whitespace()).collect();
    let parsed = Big::from_hex(&n_hex).unwrap();
    let params = SRP::new();
    assert_eq!(parsed.to_bytes_be(), params.N.to_bytes_be());
    assert_eq!(params.N.to_bytes_be().len(), 192);
    assert_eq!(serialize(&params.g), vec![0x02]);
    assert_eq!(serialize(&params.k), vec![0x03]);
}

use hmac::Mac;
use num_bigint::BigUint;
use sha2::{Digest, Sha256};

use srp::algo::{
    compute_u, compute_x, serialize, ClientHandshake, HandshakeState, LoginResult,
    ServerHandshake, SALT_LEN, SRP,
};
use srp::big::Big;
use srp::SrpError;

fn big_of(x: &BigUint) -> Big {
    Big::from_bytes_be(&x.to_bytes_be())
}

fn uint_of(x: &Big) -> BigUint {
    BigUint::from_bytes_be(&x.to_bytes_be())
}

fn verifier_for(params: &SRP, salt: &[u8], password: &[u8]) -> Big {
    let x = compute_x(salt, password);
    let g = uint_of(&params.g);
    let n = uint_of(&params.N);
    big_of(&g.modpow(&uint_of(&x), &n))
}

#[test]
fn derivations_are_deterministic() {
    let a = Big::from_u64(0x1122334455);
    let b = Big::from_u64(0x99aabbccdd);
    let u1 = compute_u(&a, &b);
    let u2 = compute_u(&a, &b);
    assert_eq!(u1.to_bytes_be(), u2.to_bytes_be());
    let x1 = compute_x(b"somesalt", b"password123");
    let x2 = compute_x(b"somesalt", b"password123");
    assert_eq!(x1.to_bytes_be(), x2.to_bytes_be());
}

#[test]
fn compute_x_matches_reference_digest() {
    let salt = b"somesalt";
    let password = b"password123";
    let mut buf = Vec::new();
    buf.extend_from_slice(salt);
    buf.extend_from_slice(password);
    let digest = Sha256::digest(&buf).to_vec();
    let expected = BigUint::from_bytes_be(&digest).to_bytes_be();
    assert_eq!(compute_x(salt, password).to_bytes_be(), expected);
}

#[test]
fn compute_u_matches_reference_digest() {
    let a = Big::from_u64(7);
    let b = Big::from_u64(0x0100);
    let mut buf = Vec::new();
    buf.extend_from_slice(&serialize(&a));
    buf.extend_from_slice(&serialize(&b));
    let digest = Sha256::digest(&buf).to_vec();
    let expected = BigUint::from_bytes_be(&digest).to_bytes_be();
    assert_eq!(compute_u(&a, &b).to_bytes_be(), expected);
}

#[test]
fn client_and_server_agree_on_the_fixed_group() {
    let params = SRP::new();
    let salt: Vec<u8> = (0u8..16).collect();
    let password = b"password123";
    let v = verifier_for(&params, &salt, password);

    let client = ClientHandshake::new(&params, password).unwrap();
    let server = ServerHandshake::new(&params, &salt, &v).unwrap();

    let client_auth = client.compute_secret(server.B(), &salt).unwrap();
    let server_auth = server.compute_secret(client.A()).unwrap();
    assert_eq!(client_auth, server_auth);
    assert_eq!(client_auth.len(), 32);

    let login = if client_auth == server_auth { LoginResult::Success } else { LoginResult::Failure };
    assert!(matches!(login, LoginResult::Success));
}

#[test]
fn wrong_password_yields_a_different_authenticator() {
    let params = SRP::new();
    let salt: Vec<u8> = (0u8..16).collect();
    let v = verifier_for(&params, &salt, b"password123");

    let server = ServerHandshake::new(&params, &salt, &v).unwrap();
    let honest = ClientHandshake::new(&params, b"password123").unwrap();
    let liar = ClientHandshake::new(&params, b"wrongpassword").unwrap();

    let honest_auth = honest.compute_secret(server.B(), &salt).unwrap();
    let liar_auth = liar.compute_secret(server.B(), &salt).unwrap();
    let server_for_honest = server.compute_secret(honest.A()).unwrap();
    let server_for_liar = server.compute_secret(liar.A()).unwrap();

    assert_eq!(honest_auth, server_for_honest);
    assert_ne!(liar_auth, server_for_liar);
}

#[test]
fn server_authenticator_matches_reference_computation() {
    let params = SRP {
        N: Big::from_u64(23),
        g: Big::from_u64(5),
        k: Big::from_u64(3),
    };
    let salt = vec![0xa5u8, 0x5a, 0x33, 0x44];
    let password = b"hunter2";
    let v = verifier_for(&params, &salt, password);

    let client = ClientHandshake::new(&params, password).unwrap();
    let server = ServerHandshake::new(&params, &salt, &v).unwrap();
    let client_auth = client.compute_secret(server.B(), &salt).unwrap();
    let server_auth = server.compute_secret(client.A()).unwrap();
    assert_eq!(client_auth, server_auth);

    // Recompute the server side from its published state with the backend
    // crates alone: S = (A * v^u)^b mod N, K = H(S), auth = MAC(K, salt).
    let n = uint_of(&params.N);
    let a_pub = uint_of(client.A());
    let b_pub = uint_of(server.B());
    let b_exp = uint_of(&server.state.exponent);
    let mut buf = Vec::new();
    buf.extend_from_slice(&a_pub.to_bytes_be());
    buf.extend_from_slice(&b_pub.to_bytes_be());
    let u = BigUint::from_bytes_be(&Sha256::digest(&buf));
    let s = (a_pub * uint_of(&v).modpow(&u, &n)).modpow(&b_exp, &n);
    let key = Sha256::digest(&s.to_bytes_be());
    let mut mac = hmac::Hmac::<Sha256>::new_from_slice(&key).unwrap();
    mac.update(&salt);
    let expected = mac.finalize().into_bytes().to_vec();
    assert_eq!(server_auth, expected);
}

#[test]
fn degenerate_public_values_are_rejected() {
    let params = SRP::new();
    let salt: Vec<u8> = (0u8..16).collect();
    let v = verifier_for(&params, &salt, b"password123");
    let client = ClientHandshake::new(&params, b"password123").unwrap();
    let server = ServerHandshake::new(&params, &salt, &v).unwrap();

    let zero = Big::from_u64(0);
    assert!(matches!(
        client.compute_secret(&zero, &salt),
        Err(SrpError::InvalidPublicValue)
    ));
    assert!(matches!(server.compute_secret(&zero), Err(SrpError::InvalidPublicValue)));

    // A value congruent to 0 mod N, though nonzero, is just as degenerate.
    let n_copy = Big::from_bytes_be(&params.N.to_bytes_be());
    assert!(matches!(
        client.compute_secret(&n_copy, &salt),
        Err(SrpError::InvalidPublicValue)
    ));
    assert!(matches!(server.compute_secret(&n_copy), Err(SrpError::InvalidPublicValue)));
}

#[test]
fn handshake_states_are_fresh() {
    let params = SRP::new();
    let s1 = HandshakeState::new(&params).unwrap();
    let s2 = HandshakeState::new(&params).unwrap();
    assert_ne!(s1.exponent.to_bytes_be(), s2.exponent.to_bytes_be());
    assert_ne!(s1.power.to_bytes_be(), s2.power.to_bytes_be());
}

#[test]
fn registration_draws_fresh_salts_and_derives_the_verifier() {
    let params = SRP::new();
    let (salt1, v1) = params.password_to_secret(b"password123").unwrap();
    let (salt2, _) = params.password_to_secret(b"password123").unwrap();
    assert_eq!(salt1.len(), SALT_LEN);
    assert_eq!(salt2.len(), SALT_LEN);
    assert_ne!(salt1, salt2);

    let expected = verifier_for(&params, &salt1, b"password123");
    assert_eq!(v1.to_bytes_be(), expected.to_bytes_be());
}

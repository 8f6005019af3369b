//! The SRP-6 protocol engine: the fixed group parameters, registration,
//! the ephemeral key pair, and the client- and server-side secret
//! derivations, each with a contract that pins the computed bytes down to
//! the protocol's defining formulas.

use vstd::arithmetic::div_mod::{lemma_mul_mod_noop, lemma_small_mod, lemma_sub_mod_noop};
use vstd::arithmetic::power::{
    lemma_pow_adds, lemma_pow_mod_noop, lemma_pow_multiplies, pow,
};
use vstd::prelude::*;

use crate::big::Big;
use crate::encoding::{be_val, canon, lemma_leading_nonzero, lemma_val_canon};
use crate::hashing::{hmac_sha256, hmac_sha256_of, sha256, sha256_of};
use crate::random::os_random_bytes;
use crate::SrpError;

verus! {

/// The outcome of a whole login attempt, as reported to a caller.
pub enum LoginResult {
    Success,
    Failure,
}

/// The number of random salt bytes drawn at registration.
pub const SALT_LEN: usize = 128;

/// The scrambling parameter `u`: the hash of both serialized public
/// ephemerals, read as a big-endian integer.
pub open spec fn u_of(a_bytes: Seq<u8>, b_bytes: Seq<u8>) -> nat {
    be_val(sha256_of(a_bytes + b_bytes))
}

/// The private key derivation `x`: the hash of salt then password, read as
/// a big-endian integer.
pub open spec fn x_of(salt: Seq<u8>, password: Seq<u8>) -> nat {
    be_val(sha256_of(salt + password))
}

/// The session key `K`: the digest of the premaster secret's canonical
/// serialization.
pub open spec fn session_key_of(s: nat) -> Seq<u8> {
    sha256_of(canon(s))
}

/// The final authenticator: the MAC of the salt under the session key.
pub open spec fn auth_of(s: nat, salt: Seq<u8>) -> Seq<u8> {
    hmac_sha256_of(session_key_of(s), salt)
}

/// The client's premaster secret
/// `S = (B - k * g^x)^(a + u * x) mod N`, with the base first reduced into
/// `[0, N)`.
pub open spec fn client_premaster(
    nn: int,
    gg: int,
    kk: int,
    b_pub: int,
    a_exp: nat,
    u: nat,
    x: nat,
) -> int {
    let gx = pow(gg, x) % nn;
    let base = (b_pub % nn - (kk * gx) % nn) % nn;
    pow(base, (a_exp + u * x) as nat) % nn
}

/// The server's premaster secret `S = (A * v^u)^b mod N`.
pub open spec fn server_premaster(nn: int, a_pub: int, v: int, u: nat, b_exp: nat) -> int {
    pow(a_pub * (pow(v, u) % nn), b_exp) % nn
}

/// The canonical big-endian serialization of a big integer.
pub fn serialize(x: &Big) -> (r: Vec<u8>)
    ensures
        r@ == x.bytes@,
        x.wf() ==> r@ == canon(x.val()),
{
    proof {
        if x.wf() {
            lemma_val_canon(x.bytes@);
        }
    }
    x.to_bytes_be()
}

/// Reads a big-endian serialization back into a big integer; leading zero
/// bytes carry no value and are dropped.
pub fn deserialize(x: &[u8]) -> (r: Big)
    ensures
        r.wf(),
        r.val() == be_val(x@),
        r.bytes@ == canon(be_val(x@)),
{
    Big::from_bytes_be(x)
}

/// The concatenation of two byte strings.
fn concat_bytes(x: &[u8], y: &[u8]) -> (r: Vec<u8>)
    ensures
        r@ == x@ + y@,
{
    let mut r: Vec<u8> = Vec::new();
    let mut i: usize = 0;
    while i < x.len()
        invariant
            i <= x@.len(),
            r@ =~= x@.subrange(0, i as int),
        decreases x@.len() - i,
    {
        r.push(x[i]);
        i += 1;
    }
    let mut j: usize = 0;
    while j < y.len()
        invariant
            j <= y@.len(),
            r@ =~= x@ + y@.subrange(0, j as int),
        decreases y@.len() - j,
    {
        r.push(y[j]);
        j += 1;
    }
    proof {
        assert(r@ =~= x@ + y@);
    }
    r
}

/// Derives the scrambling parameter `u = H(A || B)` from the two serialized
/// public ephemerals. A pure function of its inputs.
pub fn compute_u(a: &Big, b: &Big) -> (r: Big)
    ensures
        r.wf(),
        r.val() == u_of(a.bytes@, b.bytes@),
{
    let sa = serialize(a);
    let sb = serialize(b);
    let buffer = concat_bytes(sa.as_slice(), sb.as_slice());
    let digest = sha256(buffer.as_slice());
    deserialize(digest.as_slice())
}

/// Derives the private key `x = H(salt || password)`. A pure function of
/// its inputs; the password itself is never transmitted.
pub fn compute_x(salt: &[u8], password: &[u8]) -> (r: Big)
    ensures
        r.wf(),
        r.val() == x_of(salt@, password@),
{
    let buffer = concat_bytes(salt, password);
    let digest = sha256(buffer.as_slice());
    deserialize(digest.as_slice())
}

/// The fixed group: modulus `N`, generator `g`, multiplier `k`.
#[allow(non_snake_case)]
pub struct SRP {
    pub N: Big,
    pub g: Big,
    pub k: Big,
}

/// The bytes of the group modulus: the 1536-bit MODP prime.
pub open spec fn n_modp_bytes() -> Seq<u8> {
    seq![0xffu8, 0xffu8, 0xffu8, 0xffu8, 0xffu8, 0xffu8, 0xffu8, 0xffu8, 0xc9u8, 0x0fu8, 0xdau8,
        0xa2u8, 0x21u8, 0x68u8, 0xc2u8, 0x34u8, 0xc4u8, 0xc6u8, 0x62u8, 0x8bu8, 0x80u8, 0xdcu8, 0x1cu8,
        0xd1u8, 0x29u8, 0x02u8, 0x4eu8, 0x08u8, 0x8au8, 0x67u8, 0xccu8, 0x74u8, 0x02u8, 0x0bu8, 0xbeu8,
        0xa6u8, 0x3bu8, 0x13u8, 0x9bu8, 0x22u8, 0x51u8, 0x4au8, 0x08u8, 0x79u8, 0x8eu8, 0x34u8, 0x04u8,
        0xddu8, 0xefu8, 0x95u8, 0x19u8, 0xb3u8, 0xcdu8, 0x3au8, 0x43u8, 0x1bu8, 0x30u8, 0x2bu8, 0x0au8,
        0x6du8, 0xf2u8, 0x5fu8, 0x14u8, 0x37u8, 0x4fu8, 0xe1u8, 0x35u8, 0x6du8, 0x6du8, 0x51u8, 0xc2u8,
        0x45u8, 0xe4u8, 0x85u8, 0xb5u8, 0x76u8, 0x62u8, 0x5eu8, 0x7eu8, 0xc6u8, 0xf4u8, 0x4cu8, 0x42u8,
        0xe9u8, 0xa6u8, 0x37u8, 0xedu8, 0x6bu8, 0x0bu8, 0xffu8, 0x5cu8, 0xb6u8, 0xf4u8, 0x06u8, 0xb7u8,
        0xedu8, 0xeeu8, 0x38u8, 0x6bu8, 0xfbu8, 0x5au8, 0x89u8, 0x9fu8, 0xa5u8, 0xaeu8, 0x9fu8, 0x24u8,
        0x11u8, 0x7cu8, 0x4bu8, 0x1fu8, 0xe6u8, 0x49u8, 0x28u8, 0x66u8, 0x51u8, 0xecu8, 0xe4u8, 0x5bu8,
        0x3du8, 0xc2u8, 0x00u8, 0x7cu8, 0xb8u8, 0xa1u8, 0x63u8, 0xbfu8, 0x05u8, 0x98u8, 0xdau8, 0x48u8,
        0x36u8, 0x1cu8, 0x55u8, 0xd3u8, 0x9au8, 0x69u8, 0x16u8, 0x3fu8, 0xa8u8, 0xfdu8, 0x24u8, 0xcfu8,
        0x5fu8, 0x83u8, 0x65u8, 0x5du8, 0x23u8, 0xdcu8, 0xa3u8, 0xadu8, 0x96u8, 0x1cu8, 0x62u8, 0xf3u8,
        0x56u8, 0x20u8, 0x85u8, 0x52u8, 0xbbu8, 0x9eu8, 0xd5u8, 0x29u8, 0x07u8, 0x70u8, 0x96u8, 0x96u8,
        0x6du8, 0x67u8, 0x0cu8, 0x35u8, 0x4eu8, 0x4au8, 0xbcu8, 0x98u8, 0x04u8, 0xf1u8, 0x74u8, 0x6cu8,
        0x08u8, 0xcau8, 0x23u8, 0x73u8, 0x27u8, 0xffu8, 0xffu8, 0xffu8, 0xffu8, 0xffu8, 0xffu8, 0xffu8,
        0xffu8]
}

impl SRP {
    /// Well-formed parameters: canonical values with a modulus above 1.
    pub open spec fn wf(&self) -> bool {
        &&& self.N.wf()
        &&& self.g.wf()
        &&& self.k.wf()
        &&& self.N.val() > 1
    }

    /// The parameters every party agrees on: the fixed 1536-bit MODP prime
    /// `N`, generator `g = 2`, and multiplier `k = 3`. Byte-identical on
    /// every construction, so client and server can never diverge here.
    pub fn new() -> (r: SRP)
        ensures
            r.wf(),
            r.N.bytes@ == n_modp_bytes(),
            r.g.val() == 2,
            r.k.val() == 3,
    {
        #[allow(non_snake_case)]
        let N = Big {
            bytes: vec![0xffu8, 0xffu8, 0xffu8, 0xffu8, 0xffu8, 0xffu8, 0xffu8, 0xffu8, 0xc9u8, 0x0fu8, 0xdau8,
                0xa2u8, 0x21u8, 0x68u8, 0xc2u8, 0x34u8, 0xc4u8, 0xc6u8, 0x62u8, 0x8bu8, 0x80u8, 0xdcu8, 0x1cu8,
                0xd1u8, 0x29u8, 0x02u8, 0x4eu8, 0x08u8, 0x8au8, 0x67u8, 0xccu8, 0x74u8, 0x02u8, 0x0bu8, 0xbeu8,
                0xa6u8, 0x3bu8, 0x13u8, 0x9bu8, 0x22u8, 0x51u8, 0x4au8, 0x08u8, 0x79u8, 0x8eu8, 0x34u8, 0x04u8,
                0xddu8, 0xefu8, 0x95u8, 0x19u8, 0xb3u8, 0xcdu8, 0x3au8, 0x43u8, 0x1bu8, 0x30u8, 0x2bu8, 0x0au8,
                0x6du8, 0xf2u8, 0x5fu8, 0x14u8, 0x37u8, 0x4fu8, 0xe1u8, 0x35u8, 0x6du8, 0x6du8, 0x51u8, 0xc2u8,
                0x45u8, 0xe4u8, 0x85u8, 0xb5u8, 0x76u8, 0x62u8, 0x5eu8, 0x7eu8, 0xc6u8, 0xf4u8, 0x4cu8, 0x42u8,
                0xe9u8, 0xa6u8, 0x37u8, 0xedu8, 0x6bu8, 0x0bu8, 0xffu8, 0x5cu8, 0xb6u8, 0xf4u8, 0x06u8, 0xb7u8,
                0xedu8, 0xeeu8, 0x38u8, 0x6bu8, 0xfbu8, 0x5au8, 0x89u8, 0x9fu8, 0xa5u8, 0xaeu8, 0x9fu8, 0x24u8,
                0x11u8, 0x7cu8, 0x4bu8, 0x1fu8, 0xe6u8, 0x49u8, 0x28u8, 0x66u8, 0x51u8, 0xecu8, 0xe4u8, 0x5bu8,
                0x3du8, 0xc2u8, 0x00u8, 0x7cu8, 0xb8u8, 0xa1u8, 0x63u8, 0xbfu8, 0x05u8, 0x98u8, 0xdau8, 0x48u8,
                0x36u8, 0x1cu8, 0x55u8, 0xd3u8, 0x9au8, 0x69u8, 0x16u8, 0x3fu8, 0xa8u8, 0xfdu8, 0x24u8, 0xcfu8,
                0x5fu8, 0x83u8, 0x65u8, 0x5du8, 0x23u8, 0xdcu8, 0xa3u8, 0xadu8, 0x96u8, 0x1cu8, 0x62u8, 0xf3u8,
                0x56u8, 0x20u8, 0x85u8, 0x52u8, 0xbbu8, 0x9eu8, 0xd5u8, 0x29u8, 0x07u8, 0x70u8, 0x96u8, 0x96u8,
                0x6du8, 0x67u8, 0x0cu8, 0x35u8, 0x4eu8, 0x4au8, 0xbcu8, 0x98u8, 0x04u8, 0xf1u8, 0x74u8, 0x6cu8,
                0x08u8, 0xcau8, 0x23u8, 0x73u8, 0x27u8, 0xffu8, 0xffu8, 0xffu8, 0xffu8, 0xffu8, 0xffu8, 0xffu8,
                0xffu8],
        };
        proof {
            assert(N.bytes@ =~= n_modp_bytes());
            lemma_leading_nonzero(N.bytes@.drop_last());
            assert(be_val(N.bytes@) == be_val(N.bytes@.drop_last()) * 256 + N.bytes@.last());
        }
        let g = Big::from_u64(2);
        let k = Big::from_u64(3);
        SRP { N, g, k }
    }

    /// Registration: draws a fresh random salt and derives the verifier
    /// `v = g^x mod N` with `x = H(salt || password)`. The pair is what the
    /// server stores; the password never leaves the client. Any byte
    /// sequence is accepted as a password, including the empty one. Fails
    /// only when the secure random source does.
    pub fn password_to_secret(&self, password: &[u8]) -> (r: Result<(Vec<u8>, Big), SrpError>)
        requires
            self.wf(),
        ensures
            r matches Ok(p) ==> {
                &&& p.0@.len() == SALT_LEN
                &&& p.1.wf()
                &&& p.1.val() == pow(self.g.val() as int, x_of(p.0@, password@)) % (
                self.N.val() as int)
            },
            r matches Err(e) ==> e == SrpError::RandomSourceUnavailable,
    {
        match os_random_bytes(SALT_LEN) {
            None => Err(SrpError::RandomSourceUnavailable),
            Some(salt) => {
                let x = compute_x(salt.as_slice(), password);
                let v = self.g.mod_exp(&x, &self.N);
                Ok((salt, v))
            },
        }
    }

    /// A field-for-field copy of the parameters.
    pub fn clone_params(&self) -> (r: SRP)
        ensures
            r.N.bytes@ == self.N.bytes@,
            r.g.bytes@ == self.g.bytes@,
            r.k.bytes@ == self.k.bytes@,
    {
        SRP { N: Big { bytes: self.N.bytes.clone() }, g: Big { bytes: self.g.bytes.clone() }, k: Big {
            bytes: self.k.bytes.clone(),
        } }
    }
}

/// One side's ephemeral key pair: a fresh private `exponent` and the public
/// `power = g^exponent mod N`. Never reused across attempts.
pub struct HandshakeState {
    pub exponent: Big,
    pub power: Big,
}

impl HandshakeState {
    /// The key pair belongs to the group: the exponent lies below `N` and
    /// the power is `g^exponent mod N`.
    pub open spec fn wf_for(&self, srp: &SRP) -> bool {
        &&& self.exponent.wf()
        &&& self.power.wf()
        &&& self.exponent.val() < srp.N.val()
        &&& self.power.val() == pow(srp.g.val() as int, self.exponent.val()) % (srp.N.val() as int)
    }

    /// Draws a fresh private exponent below `N` from the secure random
    /// source (with extra bytes beyond `N`'s width before reduction) and
    /// computes the public power. Fails only when the random source does.
    pub fn new(srp: &SRP) -> (r: Result<HandshakeState, SrpError>)
        requires
            srp.wf(),
        ensures
            r matches Ok(st) ==> st.wf_for(srp),
            r matches Err(e) ==> e == SrpError::RandomSourceUnavailable,
    {
        let want = if srp.N.bytes.len() <= usize::MAX - 16 {
            srp.N.bytes.len() + 16
        } else {
            srp.N.bytes.len()
        };
        match os_random_bytes(want) {
            None => Err(SrpError::RandomSourceUnavailable),
            Some(raw) => {
                let exponent = Big::from_bytes_be(raw.as_slice()).rem(&srp.N);
                let power = srp.g.mod_exp(&exponent, &srp.N);
                Ok(HandshakeState { exponent, power })
            },
        }
    }
}

/// The client side of one login attempt: a fresh key pair plus the
/// password, held only for the attempt's duration.
pub struct ClientHandshake {
    pub srp: SRP,
    pub state: HandshakeState,
    pub password: Vec<u8>,
}

impl ClientHandshake {
    pub open spec fn wf(&self) -> bool {
        &&& self.srp.wf()
        &&& self.state.wf_for(&self.srp)
    }

    /// Starts a client attempt: generates a fresh ephemeral key pair and
    /// keeps the password for the secret derivation. Fails only when the
    /// random source does.
    pub fn new(srp: &SRP, password: &[u8]) -> (r: Result<ClientHandshake, SrpError>)
        requires
            srp.wf(),
        ensures
            r matches Ok(c) ==> {
                &&& c.wf()
                &&& c.srp.N.bytes@ == srp.N.bytes@
                &&& c.srp.g.bytes@ == srp.g.bytes@
                &&& c.srp.k.bytes@ == srp.k.bytes@
                &&& c.password@ == password@
            },
            r matches Err(e) ==> e == SrpError::RandomSourceUnavailable,
    {
        let state = match HandshakeState::new(srp) {
            Ok(s) => s,
            Err(e) => {
                return Err(e);
            },
        };
        let mut pw: Vec<u8> = Vec::new();
        let mut i: usize = 0;
        while i < password.len()
            invariant
                i <= password@.len(),
                pw@ =~= password@.subrange(0, i as int),
            decreases password@.len() - i,
        {
            pw.push(password[i]);
            i += 1;
        }
        proof {
            assert(pw@ =~= password@);
        }
        Ok(ClientHandshake { srp: srp.clone_params(), state, password: pw })
    }

    /// The client's public ephemeral value, to be sent to the server.
    #[allow(non_snake_case)]
    pub fn A(&self) -> (r: &Big)
        ensures
            r.bytes@ == self.state.power.bytes@,
    {
        &self.state.power
    }

    /// The client's secret derivation: given the server's public ephemeral
    /// `B` and the account's salt, returns the session authenticator
    /// `MAC(H(serialize(S)), salt)` for
    /// `S = (B - k * g^x)^(a + u * x) mod N`, rejecting a degenerate `B`
    /// (`B mod N == 0`) instead of computing a predictable secret.
    #[allow(non_snake_case)]
    pub fn compute_secret(&self, B: &Big, salt: &[u8]) -> (r: Result<Vec<u8>, SrpError>)
        requires
            self.wf(),
            B.wf(),
        ensures
            r matches Ok(m) ==> ({
                let u = u_of(self.state.power.bytes@, B.bytes@);
                let x = x_of(salt@, self.password@);
                let s = client_premaster(
                    self.srp.N.val() as int,
                    self.srp.g.val() as int,
                    self.srp.k.val() as int,
                    B.val() as int,
                    self.state.exponent.val(),
                    u,
                    x,
                );
                &&& B.val() % self.srp.N.val() != 0
                &&& m@ == auth_of(s as nat, salt@)
            }),
            r matches Err(e) ==> e == SrpError::InvalidPublicValue && B.val() % self.srp.N.val()
                == 0,
    {
        let u = compute_u(&self.state.power, B);
        let x = compute_x(salt, self.password.as_slice());
        let gx = self.srp.g.mod_exp(&x, &self.srp.N);
        let t = self.srp.k.mul(&gx).rem(&self.srp.N);
        let bred = B.rem(&self.srp.N);
        if bred.is_zero() {
            return Err(SrpError::InvalidPublicValue);
        }
        let base = bred.sub_mod(&t, &self.srp.N);
        let e = self.state.exponent.add(&u.mul(&x));
        let s = base.mod_exp(&e, &self.srp.N);
        let ser = serialize(&s);
        let key = sha256(ser.as_slice());
        Ok(hmac_sha256(key.as_slice(), salt))
    }
}

/// The server side of one login attempt: a fresh key pair, the account's
/// stored salt and verifier, and the published value `B`, which folds the
/// verifier into the raw power.
#[allow(non_snake_case)]
pub struct ServerHandshake {
    pub srp: SRP,
    pub state: HandshakeState,
    pub B: Big,
    pub salt: Vec<u8>,
    pub v: Big,
}

impl ServerHandshake {
    pub open spec fn wf(&self) -> bool {
        &&& self.srp.wf()
        &&& self.state.wf_for(&self.srp)
        &&& self.v.wf()
        &&& self.B.wf()
        &&& self.B.val() == (self.state.power.val() + self.srp.k.val() * self.v.val()) % self.srp.N.val()
    }

    /// Starts a server attempt for one account: generates a fresh ephemeral
    /// key pair and publishes `B = (g^b + k * v) mod N`. Fails only when
    /// the random source does.
    pub fn new(srp: &SRP, salt: &[u8], v: &Big) -> (r: Result<ServerHandshake, SrpError>)
        requires
            srp.wf(),
            v.wf(),
        ensures
            r matches Ok(sh) ==> {
                &&& sh.wf()
                &&& sh.srp.N.bytes@ == srp.N.bytes@
                &&& sh.srp.g.bytes@ == srp.g.bytes@
                &&& sh.srp.k.bytes@ == srp.k.bytes@
                &&& sh.salt@ == salt@
                &&& sh.v.bytes@ == v.bytes@
            },
            r matches Err(e) ==> e == SrpError::RandomSourceUnavailable,
    {
        let state = match HandshakeState::new(srp) {
            Ok(s) => s,
            Err(e) => {
                return Err(e);
            },
        };
        #[allow(non_snake_case)]
        let B = state.power.add(&srp.k.mul(v)).rem(&srp.N);
        let mut st: Vec<u8> = Vec::new();
        let mut i: usize = 0;
        while i < salt.len()
            invariant
                i <= salt@.len(),
                st@ =~= salt@.subrange(0, i as int),
            decreases salt@.len() - i,
        {
            st.push(salt[i]);
            i += 1;
        }
        proof {
            assert(st@ =~= salt@);
        }
        Ok(ServerHandshake {
            srp: srp.clone_params(),
            state,
            B,
            salt: st,
            v: Big { bytes: v.bytes.clone() },
        })
    }

    /// The server's public ephemeral value, to be sent to the client.
    #[allow(non_snake_case)]
    pub fn B(&self) -> (r: &Big)
        ensures
            r.bytes@ == self.B.bytes@,
    {
        &self.B
    }

    /// The server's secret derivation: given the client's public ephemeral
    /// `A`, returns the session authenticator `MAC(H(serialize(S)), salt)`
    /// for `S = (A * v^u)^b mod N`, rejecting a degenerate `A`
    /// (`A mod N == 0`) instead of computing a predictable secret.
    #[allow(non_snake_case)]
    pub fn compute_secret(&self, A: &Big) -> (r: Result<Vec<u8>, SrpError>)
        requires
            self.wf(),
            A.wf(),
        ensures
            r matches Ok(m) ==> ({
                let u = u_of(A.bytes@, self.B.bytes@);
                let s = server_premaster(
                    self.srp.N.val() as int,
                    A.val() as int,
                    self.v.val() as int,
                    u,
                    self.state.exponent.val(),
                );
                &&& A.val() % self.srp.N.val() != 0
                &&& m@ == auth_of(s as nat, self.salt@)
            }),
            r matches Err(e) ==> e == SrpError::InvalidPublicValue && A.val() % self.srp.N.val()
                == 0,
    {
        let ared = A.rem(&self.srp.N);
        if ared.is_zero() {
            return Err(SrpError::InvalidPublicValue);
        }
        let u = compute_u(A, &self.B);
        let vu = self.v.mod_exp(&u, &self.srp.N);
        let s = A.mul(&vu).mod_exp(&self.state.exponent, &self.srp.N);
        let ser = serialize(&s);
        let key = sha256(ser.as_slice());
        Ok(hmac_sha256(key.as_slice(), self.salt.as_slice()))
    }
}

/// The central algebraic identity of the protocol: when the verifier is
/// `g^x mod N` for the same `x` both sides derive, the client's and the
/// server's premaster secrets are the same number, whatever scrambling
/// parameter `u` binds the exchange.
pub proof fn lemma_premaster_agreement(
    nn: nat,
    gg: nat,
    kk: nat,
    x: nat,
    a_exp: nat,
    b_exp: nat,
    u: nat,
)
    requires
        nn > 0,
    ensures
        ({
            let n = nn as int;
            let v = pow(gg as int, x) % n;
            let a_pub = pow(gg as int, a_exp) % n;
            let b_pub = (pow(gg as int, b_exp) % n + kk * v) % n;
            client_premaster(n, gg as int, kk as int, b_pub, a_exp, u, x) == server_premaster(
                n,
                a_pub,
                v,
                u,
                b_exp,
            )
        }),
{
    let n = nn as int;
    let g = gg as int;
    let k = kk as int;
    let v = pow(g, x) % n;
    let p = pow(g, b_exp) % n;
    let a_pub = pow(g, a_exp) % n;
    let b_pub = (p + k * v) % n;

    // The client's base reduces to the server's raw power `p`.
    lemma_small_mod(b_pub as nat, nn);
    assert(b_pub % n == b_pub);
    lemma_sub_mod_noop(p + k * v, k * v, n);
    assert(((p + k * v) % n - (k * v) % n) % n == (p + k * v - k * v) % n);
    lemma_small_mod(p as nat, nn);
    assert((b_pub % n - (k * v) % n) % n == p);

    // Client: pow(p, a + u*x) % n == pow(g, b * (a + u*x)) % n.
    let e1 = (a_exp + u * x) as nat;
    lemma_pow_mod_noop(pow(g, b_exp), e1, n);
    lemma_pow_multiplies(g, b_exp, e1);
    assert(pow(p, e1) % n == pow(g, (b_exp * e1) as nat) % n);
    assert(client_premaster(n, g, k, b_pub, a_exp, u, x) == pow(g, (b_exp * e1) as nat) % n);

    // Server: pow(v, u) % n == pow(g, x*u) % n.
    lemma_pow_mod_noop(pow(g, x), u, n);
    lemma_pow_multiplies(g, x, u);
    let w = pow(g, (x * u) as nat) % n;
    assert(pow(v, u) % n == w);

    // Server: pow(a_pub * w, b) % n == pow(g, (a + x*u) * b) % n.
    lemma_pow_mod_noop(a_pub * w, b_exp, n);
    assert(pow((a_pub * w) % n, b_exp) % n == pow(a_pub * w, b_exp) % n);
    lemma_mul_mod_noop(pow(g, a_exp), pow(g, (x * u) as nat), n);
    lemma_pow_adds(g, a_exp, (x * u) as nat);
    assert((a_pub * w) % n == pow(g, (a_exp + x * u) as nat) % n);
    lemma_pow_mod_noop(pow(g, (a_exp + x * u) as nat), b_exp, n);
    lemma_pow_multiplies(g, (a_exp + x * u) as nat, b_exp);
    assert(server_premaster(n, a_pub, v, u, b_exp) == pow(
        g,
        ((a_exp + x * u) * b_exp) as nat,
    ) % n);

    // The two exponents coincide.
    assert(b_exp * e1 == (a_exp + x * u) * b_exp) by (nonlinear_arith)
        requires e1 == a_exp + u * x;
}

/// Agreement: a client and a server built over the same group, where the
/// server's verifier was derived from the same salt and password the client
/// holds, compute the same authenticator from each other's public
/// ephemerals — the very bytes `compute_secret` is specified to return on
/// both sides.
pub proof fn lemma_handshake_agreement(client: ClientHandshake, server: ServerHandshake)
    requires
        client.wf(),
        server.wf(),
        client.srp.N.bytes@ == server.srp.N.bytes@,
        client.srp.g.bytes@ == server.srp.g.bytes@,
        client.srp.k.bytes@ == server.srp.k.bytes@,
        server.v.val() == pow(client.srp.g.val() as int, x_of(server.salt@, client.password@))
            % (client.srp.N.val() as int),
    ensures
        ({
            let u = u_of(client.state.power.bytes@, server.B.bytes@);
            let x = x_of(server.salt@, client.password@);
            let s_client = client_premaster(
                client.srp.N.val() as int,
                client.srp.g.val() as int,
                client.srp.k.val() as int,
                server.B.val() as int,
                client.state.exponent.val(),
                u,
                x,
            );
            let s_server = server_premaster(
                server.srp.N.val() as int,
                client.state.power.val() as int,
                server.v.val() as int,
                u,
                server.state.exponent.val(),
            );
            &&& s_client == s_server
            &&& auth_of(s_client as nat, server.salt@) == auth_of(s_server as nat, server.salt@)
        }),
{
    let nn = client.srp.N.val();
    let gg = client.srp.g.val();
    let kk = client.srp.k.val();
    let n = nn as int;
    let x = x_of(server.salt@, client.password@);
    let u = u_of(client.state.power.bytes@, server.B.bytes@);
    let a_exp = client.state.exponent.val();
    let b_exp = server.state.exponent.val();
    lemma_premaster_agreement(nn, gg, kk, x, a_exp, b_exp, u);
    assert(client.state.power.val() == pow(gg as int, a_exp) % n);
    assert(server.state.power.val() == pow(gg as int, b_exp) % n);
    assert(server.v.val() == pow(gg as int, x) % n);
    assert(server.B.val() == (server.state.power.val() + kk * server.v.val()) % nn);
    assert(server.B.val() as int == (pow(gg as int, b_exp) % n + kk * (pow(gg as int, x) % n))
        % n);
}

/// Determinism of the derivations: `compute_u` and `compute_x` are pure
/// functions of their inputs, so two results obtained from equal inputs are
/// the same integer.
pub proof fn lemma_derivations_deterministic(
    u1: nat,
    u2: nat,
    x1: nat,
    x2: nat,
    a_bytes: Seq<u8>,
    b_bytes: Seq<u8>,
    salt: Seq<u8>,
    password: Seq<u8>,
)
    requires
        u1 == u_of(a_bytes, b_bytes),
        u2 == u_of(a_bytes, b_bytes),
        x1 == x_of(salt, password),
        x2 == x_of(salt, password),
    ensures
        u1 == u2,
        x1 == x2,
{
}

/// Round-trip serialization: reading back a value's canonical serialization
/// restores it bit for bit, so `deserialize(serialize(x))` has exactly the
/// bytes of `x` (and hence its value).
pub proof fn lemma_serialization_round_trip(x: Big)
    requires
        x.wf(),
    ensures
        canon(be_val(x.bytes@)) == x.bytes@,
{
    lemma_val_canon(x.bytes@);
}

} // verus!

//! Arbitrary-precision non-negative integers, held in canonical big-endian
//! bytes. The arithmetic itself is performed by the `num-bigint` crate behind
//! trusted wrappers; everything around those calls is verified against the
//! byte-level value model of `encoding`.

use vstd::arithmetic::power::pow;
use vstd::prelude::*;
use vstd::string::StringSliceAdditionalSpecFns;

use num_bigint::BigUint;

use crate::encoding::{
    be_val, canon, hex_digit_val, hex_val, is_canonical, is_hex_digit, lemma_be_val_prefix_lt,
    lemma_canon_val, lemma_canonical_shorter_lt, lemma_drop_leading_zero, lemma_leading_nonzero,
    lemma_val_canon, valid_hex,
};
use crate::SrpError;

verus! {

/// A non-negative big integer, stored as canonical big-endian bytes.
#[derive(Debug)]
pub struct Big {
    pub bytes: Vec<u8>,
}

impl Big {
    /// The mathematical value this integer denotes.
    pub open spec fn val(&self) -> nat {
        be_val(self.bytes@)
    }

    /// Well-formed: the bytes are a canonical big-endian encoding.
    pub open spec fn wf(&self) -> bool {
        is_canonical(self.bytes@)
    }

    /// The value of a `u64`, in canonical form.
    pub fn from_u64(n: u64) -> (r: Big)
        ensures
            r.wf(),
            r.val() == n,
            r.bytes@ == canon(n as nat),
        decreases n,
    {
        proof {
            lemma_canon_val(n as nat);
        }
        if n < 256 {
            let r = Big { bytes: vec![n as u8] };
            assert(r.bytes@ =~= canon(n as nat));
            r
        } else {
            let mut r = Big::from_u64(n / 256);
            r.bytes.push((n % 256) as u8);
            assert(r.bytes@ =~= canon(n as nat));
            r
        }
    }

    /// Reads a big-endian byte sequence, in any (possibly padded) form, and
    /// returns its value in canonical form.
    pub fn from_bytes_be(bytes: &[u8]) -> (r: Big)
        ensures
            r.wf(),
            r.val() == be_val(bytes@),
            r.bytes@ == canon(be_val(bytes@)),
    {
        let mut i: usize = 0;
        while i < bytes.len() && bytes[i] == 0
            invariant
                i <= bytes@.len(),
                forall|j: int| 0 <= j < i ==> bytes@[j] == 0,
            decreases bytes@.len() - i,
        {
            i += 1;
        }
        proof {
            lemma_zero_prefix(bytes@, i as int);
        }
        if i == bytes.len() {
            let r = Big { bytes: vec![0u8] };
            proof {
                assert(bytes@.subrange(i as int, bytes@.len() as int) =~= Seq::<u8>::empty());
                assert(r.bytes@ =~= canon(0));
                assert(r.bytes@.drop_last() =~= Seq::<u8>::empty());
                assert(be_val(r.bytes@) == be_val(r.bytes@.drop_last()) * 256 + 0);
            }
            r
        } else {
            let mut out: Vec<u8> = Vec::new();
            let mut j: usize = i;
            while j < bytes.len()
                invariant
                    i <= j <= bytes@.len(),
                    out@ =~= bytes@.subrange(i as int, j as int),
                decreases bytes@.len() - j,
            {
                out.push(bytes[j]);
                j += 1;
            }
            let r = Big { bytes: out };
            proof {
                assert(r.bytes@ =~= bytes@.subrange(i as int, bytes@.len() as int));
                assert(r.bytes@[0] == bytes@[i as int]);
                lemma_leading_nonzero(r.bytes@);
                lemma_val_canon(r.bytes@);
            }
            r
        }
    }

    /// The canonical big-endian bytes of this integer.
    pub fn to_bytes_be(&self) -> (r: Vec<u8>)
        ensures
            r@ == self.bytes@,
    {
        self.bytes.clone()
    }

    /// Whether this integer is zero.
    pub fn is_zero(&self) -> (r: bool)
        requires
            self.wf(),
        ensures
            r == (self.val() == 0),
    {
        let r = self.bytes.len() == 1 && self.bytes[0] == 0;
        proof {
            if self.bytes@.len() == 1 && self.bytes@[0] == 0 {
                assert(self.bytes@.drop_last() =~= Seq::<u8>::empty());
                assert(be_val(self.bytes@) == be_val(self.bytes@.drop_last()) * 256 + 0);
            } else {
                assert(self.bytes@[0] != 0);
                lemma_leading_nonzero(self.bytes@);
            }
        }
        r
    }

    /// Relies on `num_bigint::BigUint`: `from_bytes_be` reads big-endian
    /// bytes, `Mul` multiplies, `to_bytes_be` writes minimal big-endian bytes
    /// (the single byte `0` for zero).
    #[verifier::external_body]
    pub(crate) fn mul(&self, other: &Big) -> (r: Big)
        ensures
            r.wf(),
            r.val() == self.val() * other.val(),
    {
        let a = BigUint::from_bytes_be(&self.bytes);
        let b = BigUint::from_bytes_be(&other.bytes);
        Big { bytes: (a * b).to_bytes_be() }
    }

    /// Relies on `num_bigint::BigUint`: `from_bytes_be`, `Add`, `to_bytes_be`.
    #[verifier::external_body]
    pub(crate) fn add(&self, other: &Big) -> (r: Big)
        ensures
            r.wf(),
            r.val() == self.val() + other.val(),
    {
        let a = BigUint::from_bytes_be(&self.bytes);
        let b = BigUint::from_bytes_be(&other.bytes);
        Big { bytes: (a + b).to_bytes_be() }
    }

    /// Relies on `num_bigint::BigUint`: `from_bytes_be`, `Sub` (which panics
    /// on underflow, excluded by the precondition), `to_bytes_be`.
    #[verifier::external_body]
    pub(crate) fn sub(&self, other: &Big) -> (r: Big)
        requires
            other.val() <= self.val(),
        ensures
            r.wf(),
            r.val() == self.val() - other.val(),
    {
        let a = BigUint::from_bytes_be(&self.bytes);
        let b = BigUint::from_bytes_be(&other.bytes);
        Big { bytes: (a - b).to_bytes_be() }
    }

    /// Relies on `num_bigint::BigUint`: `from_bytes_be`, `Rem` (which panics
    /// on a zero divisor, excluded by the precondition), `to_bytes_be`.
    #[verifier::external_body]
    pub(crate) fn rem(&self, m: &Big) -> (r: Big)
        requires
            m.val() > 0,
        ensures
            r.wf(),
            r.val() == self.val() % m.val(),
    {
        let a = BigUint::from_bytes_be(&self.bytes);
        let b = BigUint::from_bytes_be(&m.bytes);
        Big { bytes: (a % b).to_bytes_be() }
    }

    /// Relies on `num_bigint::BigUint::modpow`, which returns
    /// `(self ^ exponent) % modulus` and panics only on a zero modulus,
    /// excluded by the precondition; and on `from_bytes_be`/`to_bytes_be`.
    #[verifier::external_body]
    pub(crate) fn mod_exp(&self, e: &Big, m: &Big) -> (r: Big)
        requires
            m.val() > 0,
        ensures
            r.wf(),
            r.val() == pow(self.val() as int, e.val()) % (m.val() as int),
    {
        let b = BigUint::from_bytes_be(&self.bytes);
        let ex = BigUint::from_bytes_be(&e.bytes);
        let md = BigUint::from_bytes_be(&m.bytes);
        Big { bytes: b.modpow(&ex, &md).to_bytes_be() }
    }

    /// Numerical comparison, decided on the canonical bytes: a shorter
    /// encoding is smaller, equally long ones compare lexicographically.
    pub(crate) fn le(&self, other: &Big) -> (r: bool)
        requires
            self.wf(),
            other.wf(),
        ensures
            r == (self.val() <= other.val()),
    {
        if self.bytes.len() < other.bytes.len() {
            proof {
                lemma_canonical_shorter_lt(self.bytes@, other.bytes@);
            }
            return true;
        }
        if other.bytes.len() < self.bytes.len() {
            proof {
                lemma_canonical_shorter_lt(other.bytes@, self.bytes@);
            }
            return false;
        }
        let n = self.bytes.len();
        let mut i: usize = 0;
        while i < n
            invariant
                n == self.bytes@.len(),
                n == other.bytes@.len(),
                i <= n,
                self.bytes@.take(i as int) == other.bytes@.take(i as int),
            decreases n - i,
        {
            if self.bytes[i] < other.bytes[i] {
                proof {
                    lemma_be_val_prefix_lt(self.bytes@, other.bytes@, i as int);
                }
                return true;
            }
            if other.bytes[i] < self.bytes[i] {
                proof {
                    lemma_be_val_prefix_lt(other.bytes@, self.bytes@, i as int);
                }
                return false;
            }
            proof {
                assert(self.bytes@.take(i + 1) =~= other.bytes@.take(i + 1));
            }
            i += 1;
        }
        proof {
            assert(self.bytes@.take(n as int) =~= self.bytes@);
            assert(other.bytes@.take(n as int) =~= other.bytes@);
        }
        true
    }

    /// Subtraction in the residue group mod `m`: the result is the unique
    /// representative of `self - other` in `[0, m)`.
    pub fn sub_mod(&self, other: &Big, m: &Big) -> (r: Big)
        requires
            self.wf(),
            other.wf(),
            m.wf(),
            self.val() < m.val(),
            other.val() < m.val(),
        ensures
            r.wf(),
            r.val() == (self.val() - other.val()) % (m.val() as int),
            r.val() < m.val(),
    {
        if other.le(self) {
            let r = self.sub(other);
            proof {
                vstd::arithmetic::div_mod::lemma_small_mod(
                    (self.val() - other.val()) as nat,
                    m.val(),
                );
            }
            r
        } else {
            let r = self.add(&m.sub(other));
            proof {
                let d = self.val() - other.val();
                vstd::arithmetic::div_mod::lemma_mod_add_multiples_vanish(d, m.val() as int);
                vstd::arithmetic::div_mod::lemma_small_mod((d + m.val()) as nat, m.val());
            }
            r
        }
    }
}

/// Reads one ASCII hexadecimal digit.
fn hex_digit_value(b: u8) -> (r: Option<u8>)
    ensures
        r matches Some(v) ==> is_hex_digit(b) && v == hex_digit_val(b),
        r is None ==> !is_hex_digit(b),
{
    if 0x30 <= b && b <= 0x39 {
        Some(b - 0x30)
    } else if 0x61 <= b && b <= 0x66 {
        Some(b - 0x61 + 10)
    } else if 0x41 <= b && b <= 0x46 {
        Some(b - 0x41 + 10)
    } else {
        None
    }
}

impl Big {
    /// Parses a hexadecimal string into a big integer. The string is
    /// well-formed exactly when it is non-empty, of even length (two digits
    /// per byte), and made of hexadecimal digits only; anything else is a
    /// `ParseError`.
    pub fn from_hex(s: &str) -> (r: Result<Big, SrpError>)
        ensures
            r matches Ok(b) ==> {
                &&& valid_hex(s.spec_bytes())
                &&& b.wf()
                &&& b.val() == hex_val(s.spec_bytes())
            },
            r matches Err(e) ==> e == SrpError::ParseError && !valid_hex(s.spec_bytes()),
    {
        let bytes = s.as_bytes();
        let n = bytes.len();
        if n == 0 || n % 2 != 0 {
            proof {
                assert(!valid_hex(bytes@));
            }
            return Err(SrpError::ParseError);
        }
        let mut out: Vec<u8> = Vec::new();
        let mut i: usize = 0;
        while i < n
            invariant
                bytes@ == s.spec_bytes(),
                n == bytes@.len(),
                n % 2 == 0,
                i % 2 == 0,
                i <= n,
                forall|j: int| 0 <= j < i ==> is_hex_digit(bytes@[j]),
                be_val(out@) == hex_val(bytes@.subrange(0, i as int)),
            decreases n - i,
        {
            let hi = match hex_digit_value(bytes[i]) {
                Some(v) => v,
                None => {
                    proof {
                        assert(!valid_hex(bytes@)) by {
                            assert(!is_hex_digit(bytes@[i as int]));
                        }
                    }
                    return Err(SrpError::ParseError);
                },
            };
            let lo = match hex_digit_value(bytes[i + 1]) {
                Some(v) => v,
                None => {
                    proof {
                        assert(!valid_hex(bytes@)) by {
                            assert(!is_hex_digit(bytes@[i + 1]));
                        }
                    }
                    return Err(SrpError::ParseError);
                },
            };
            let ghost prev_out = out@;
            out.push(hi * 16 + lo);
            proof {
                assert(out@.drop_last() =~= prev_out);
                assert(be_val(out@) == be_val(prev_out) * 256 + (hi * 16 + lo));
                let pre2 = bytes@.subrange(0, i + 2);
                let pre1 = bytes@.subrange(0, i + 1);
                let pre0 = bytes@.subrange(0, i as int);
                assert(pre2.drop_last() =~= pre1);
                assert(pre1.drop_last() =~= pre0);
                assert(pre2.last() == bytes@[i + 1]);
                assert(pre1.last() == bytes@[i as int]);
                assert(hex_val(pre2) == hex_val(pre1) * 16 + hex_digit_val(bytes@[i + 1]));
                assert(hex_val(pre1) == hex_val(pre0) * 16 + hex_digit_val(bytes@[i as int]));
            }
            i += 2;
        }
        proof {
            assert(bytes@.subrange(0, n as int) =~= bytes@);
            assert(valid_hex(bytes@));
        }
        Ok(Big::from_bytes_be(out.as_slice()))
    }
}

/// A prefix of zero bytes does not change the denoted value.
proof fn lemma_zero_prefix(s: Seq<u8>, i: int)
    requires
        0 <= i <= s.len(),
        forall|j: int| 0 <= j < i ==> s[j] == 0,
    ensures
        be_val(s.subrange(i, s.len() as int)) == be_val(s),
    decreases i,
{
    if i == 0 {
        assert(s.subrange(0, s.len() as int) =~= s);
    } else {
        lemma_zero_prefix(s, i - 1);
        let t = s.subrange(i - 1, s.len() as int);
        lemma_drop_leading_zero(t);
        assert(t.subrange(1, t.len() as int) =~= s.subrange(i, s.len() as int));
    }
}

} // verus!

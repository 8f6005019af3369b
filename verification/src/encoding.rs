//! The mathematical model of big-endian byte encodings: the value a byte
//! sequence denotes, the canonical (minimal) encoding of a value, and the
//! lemmas tying the two together.

use vstd::arithmetic::power::{lemma_pow_increases, lemma_pow_positive, pow};
use vstd::prelude::*;

verus! {

/// The non-negative integer a byte sequence denotes when read big-endian.
pub open spec fn be_val(s: Seq<u8>) -> nat
    decreases s.len(),
{
    if s.len() == 0 {
        0
    } else {
        (be_val(s.drop_last()) * 256 + s.last()) as nat
    }
}

/// A canonical big-endian encoding: at least one byte, and no redundant
/// leading zero byte. Zero is encoded as the single byte `0`.
pub open spec fn is_canonical(s: Seq<u8>) -> bool {
    s.len() >= 1 && (s.len() == 1 || s[0] != 0)
}

/// The canonical big-endian encoding of a value.
pub open spec fn canon(n: nat) -> Seq<u8>
    decreases n,
{
    if n < 256 {
        seq![n as u8]
    } else {
        canon(n / 256).push((n % 256) as u8)
    }
}

/// A canonical encoding denotes its value: `be_val` inverts `canon`.
pub proof fn lemma_canon_val(n: nat)
    ensures
        is_canonical(canon(n)),
        be_val(canon(n)) == n,
    decreases n,
{
    if n < 256 {
        let c = canon(n);
        assert(c =~= seq![n as u8]);
        assert(c.drop_last() =~= Seq::<u8>::empty());
        assert(be_val(c.drop_last()) == 0);
        assert(be_val(c) == be_val(c.drop_last()) * 256 + c.last());
    } else {
        lemma_canon_val(n / 256);
        let c = canon(n / 256).push((n % 256) as u8);
        assert(c.drop_last() =~= canon(n / 256));
        assert(be_val(c) == (n / 256) * 256 + n % 256);
        assert((n / 256) * 256 + n % 256 == n) by (nonlinear_arith);
        assert(c.len() >= 2);
        assert(c[0] == canon(n / 256)[0]);
        if canon(n / 256).len() == 1 {
            let h = canon(n / 256);
            assert(h.drop_last() =~= Seq::<u8>::empty());
            assert(be_val(h.drop_last()) == 0);
            assert(be_val(h) == be_val(h.drop_last()) * 256 + h.last());
            assert(n / 256 >= 1) by (nonlinear_arith)
                requires n >= 256nat;
        }
    }
}

/// A byte sequence that starts with a nonzero byte denotes a nonzero value.
pub proof fn lemma_leading_nonzero(s: Seq<u8>)
    requires
        s.len() >= 1,
        s[0] != 0,
    ensures
        be_val(s) >= 1,
    decreases s.len(),
{
    if s.len() == 1 {
        assert(be_val(s) == be_val(s.drop_last()) * 256 + s[0]);
    } else {
        lemma_leading_nonzero(s.drop_last());
    }
}

/// Canonical encodings are unique: `canon` inverts `be_val` on them.
pub proof fn lemma_val_canon(s: Seq<u8>)
    requires
        is_canonical(s),
    ensures
        canon(be_val(s)) =~= s,
    decreases s.len(),
{
    if s.len() == 1 {
        assert(be_val(s) == be_val(s.drop_last()) * 256 + s[0]);
        assert(be_val(s) < 256);
        assert(canon(be_val(s)) =~= seq![s[0]]);
    } else {
        let d = s.drop_last();
        assert(d[0] == s[0]);
        lemma_leading_nonzero(d);
        lemma_val_canon(d);
        let v = be_val(s);
        assert(v == be_val(d) * 256 + s.last());
        assert(v >= 256 && v / 256 == be_val(d) && v % 256 == s.last()) by (nonlinear_arith)
            requires
                v == be_val(d) * 256 + s.last(),
                be_val(d) >= 1,
                0 <= s.last() < 256;
        assert(canon(v) =~= canon(be_val(d)).push(s.last() as u8));
    }
}

/// A sequence of `k` bytes denotes a value below `256^k`.
pub proof fn lemma_be_val_upper(s: Seq<u8>)
    ensures
        be_val(s) < pow(256, s.len()),
    decreases s.len(),
{
    reveal(pow);
    if s.len() == 0 {
        assert(pow(256, 0) == 1);
    } else {
        let d = s.drop_last();
        lemma_be_val_upper(d);
        let p = pow(256, d.len());
        assert(pow(256, s.len()) == 256 * p);
        assert(be_val(d) * 256 <= (p - 1) * 256);
        assert(be_val(s) == be_val(d) * 256 + s.last());
    }
}

/// A sequence with a nonzero leading byte denotes at least `256^(k-1)`.
pub proof fn lemma_be_val_lower(s: Seq<u8>)
    requires
        s.len() >= 1,
        s[0] != 0,
    ensures
        be_val(s) >= pow(256, (s.len() - 1) as nat),
    decreases s.len(),
{
    reveal(pow);
    if s.len() == 1 {
        assert(s.drop_last() =~= Seq::<u8>::empty());
        assert(be_val(s) == be_val(s.drop_last()) * 256 + s[0]);
        assert(pow(256, 0) == 1);
    } else {
        let d = s.drop_last();
        lemma_be_val_lower(d);
        let q = pow(256, (d.len() - 1) as nat);
        assert(pow(256, (s.len() - 1) as nat) == 256 * q);
        assert(be_val(d) * 256 >= q * 256);
        assert(be_val(s) == be_val(d) * 256 + s.last());
    }
}

/// Splitting a sequence at `k` splits its value by place: the prefix's
/// value shifted by the suffix's width, plus the suffix's value.
pub proof fn lemma_be_val_split(s: Seq<u8>, k: int)
    requires
        0 <= k <= s.len(),
    ensures
        be_val(s) == be_val(s.take(k)) * pow(256, (s.len() - k) as nat) + be_val(s.skip(k)),
    decreases s.len(),
{
    reveal(pow);
    if k == s.len() {
        assert(s.take(k) =~= s);
        assert(s.skip(k) =~= Seq::<u8>::empty());
        assert(pow(256, 0) == 1);
    } else {
        let d = s.drop_last();
        lemma_be_val_split(d, k);
        assert(d.take(k) =~= s.take(k));
        assert(d.skip(k) =~= s.skip(k).drop_last());
        let m = (s.len() - 1 - k) as nat;
        assert(s.skip(k).last() == s.last());
        assert(be_val(s.skip(k)) == be_val(s.skip(k).drop_last()) * 256 + s.last());
        assert(pow(256, (s.len() - k) as nat) == 256 * pow(256, m));
        assert((be_val(s.take(k)) * pow(256, m) + be_val(d.skip(k))) * 256 == be_val(s.take(k))
            * (256 * pow(256, m)) + be_val(d.skip(k)) * 256) by (nonlinear_arith);
        assert(be_val(s) == be_val(d) * 256 + s.last());
    }
}

/// Two equally long sequences with a common prefix compare by the first
/// byte where they differ.
pub proof fn lemma_be_val_prefix_lt(s: Seq<u8>, o: Seq<u8>, i: int)
    requires
        s.len() == o.len(),
        0 <= i < s.len(),
        s.take(i) == o.take(i),
        s[i] < o[i],
    ensures
        be_val(s) < be_val(o),
{
    let m = (s.len() - i - 1) as nat;
    lemma_be_val_split(s, i + 1);
    lemma_be_val_split(o, i + 1);
    assert(s.take(i + 1).drop_last() =~= s.take(i));
    assert(o.take(i + 1).drop_last() =~= o.take(i));
    assert(s.take(i + 1).last() == s[i]);
    assert(o.take(i + 1).last() == o[i]);
    let ts = be_val(s.take(i + 1));
    let to = be_val(o.take(i + 1));
    assert(ts == be_val(s.take(i)) * 256 + s[i]);
    assert(to == be_val(o.take(i)) * 256 + o[i]);
    assert(ts + 1 <= to);
    lemma_be_val_upper(s.skip(i + 1));
    lemma_pow_positive(256, m);
    let p = pow(256, m);
    assert((ts + 1) * p <= to * p) by (nonlinear_arith)
        requires
            ts + 1 <= to,
            p > 0;
    assert((ts + 1) * p == ts * p + p) by (nonlinear_arith);
    assert(be_val(s) == ts * p + be_val(s.skip(i + 1)));
    assert(be_val(o) == to * p + be_val(o.skip(i + 1)));
    assert(be_val(o.skip(i + 1)) >= 0);
}

/// Of two canonical encodings, the shorter denotes the smaller value.
pub proof fn lemma_canonical_shorter_lt(s: Seq<u8>, o: Seq<u8>)
    requires
        is_canonical(s),
        is_canonical(o),
        s.len() < o.len(),
    ensures
        be_val(s) < be_val(o),
{
    lemma_be_val_upper(s);
    lemma_be_val_lower(o);
    lemma_pow_increases(256, s.len(), (o.len() - 1) as nat);
}

/// Whether an ASCII byte is a hexadecimal digit (either case).
pub open spec fn is_hex_digit(b: u8) -> bool {
    (0x30 <= b && b <= 0x39) || (0x61 <= b && b <= 0x66) || (0x41 <= b && b <= 0x46)
}

/// The value of an ASCII hexadecimal digit.
pub open spec fn hex_digit_val(b: u8) -> nat {
    if 0x30 <= b && b <= 0x39 {
        (b - 0x30) as nat
    } else if 0x61 <= b && b <= 0x66 {
        (b - 0x61 + 10) as nat
    } else {
        (b - 0x41 + 10) as nat
    }
}

/// A well-formed hexadecimal string: non-empty, two digits per byte, and
/// hexadecimal digits only.
pub open spec fn valid_hex(s: Seq<u8>) -> bool {
    &&& s.len() > 0
    &&& s.len() % 2 == 0
    &&& forall|j: int| 0 <= j < s.len() ==> is_hex_digit(s[j])
}

/// The value an ASCII hexadecimal string denotes, most significant digit
/// first.
pub open spec fn hex_val(s: Seq<u8>) -> nat
    decreases s.len(),
{
    if s.len() == 0 {
        0
    } else {
        (hex_val(s.drop_last()) * 16 + hex_digit_val(s.last())) as nat
    }
}

/// A leading zero byte does not change the denoted value.
pub proof fn lemma_drop_leading_zero(s: Seq<u8>)
    requires
        s.len() >= 1,
        s[0] == 0,
    ensures
        be_val(s.subrange(1, s.len() as int)) == be_val(s),
    decreases s.len(),
{
    if s.len() == 1 {
        assert(s.subrange(1, 1) =~= Seq::<u8>::empty());
        assert(be_val(s) == be_val(s.drop_last()) * 256 + s[0]);
    } else {
        let d = s.drop_last();
        lemma_drop_leading_zero(d);
        assert(s.subrange(1, s.len() as int).drop_last() =~= d.subrange(1, d.len() as int));
        assert(be_val(s.subrange(1, s.len() as int))
            == be_val(d.subrange(1, d.len() as int)) * 256 + s.last());
    }
}

} // verus!

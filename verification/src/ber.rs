//! ASN.1 BER/DER primitives for the fixed schema used by the security
//! parameters: tag-length-value framing, definite length octets, and
//! minimally encoded two's-complement integers.
//!
//! Writing follows DER (canonical): short-form lengths below 128, minimal
//! long-form lengths above, and minimal integer contents. Parsing is
//! BER-tolerant for the length octets (long form for small values and
//! redundant leading zero length octets are accepted) while integer contents
//! must be minimal, as the encoding rules themselves demand.

use vstd::prelude::*;
use vstd::slice::slice_subrange;
use vstd::slice::slice_to_vec;

verus! {

/// ASN.1 tag of a primitive OCTET STRING.
pub const TAG_OCTET_STRING: u8 = 0x04;

/// ASN.1 tag of an INTEGER.
pub const TAG_INTEGER: u8 = 0x02;

/// ASN.1 tag of a constructed SEQUENCE.
pub const TAG_SEQUENCE: u8 = 0x30;

/// 256 raised to the power `k`: the number of values `k` octets can carry.
pub open spec fn pow256(k: nat) -> nat
    decreases k,
{
    if k == 0 {
        1
    } else {
        256 * pow256((k - 1) as nat)
    }
}

/// The unsigned value of big-endian base-256 digits.
pub open spec fn be_value(s: Seq<u8>) -> nat
    decreases s.len(),
{
    if s.len() == 0 {
        0
    } else {
        (be_value(s.drop_last()) * 256 + s.last()) as nat
    }
}

/// The shortest big-endian base-256 digit string of `n`: empty for 0,
/// otherwise without a leading zero octet.
pub open spec fn min_be(n: nat) -> Seq<u8>
    decreases n,
{
    if n == 0 {
        Seq::empty()
    } else {
        min_be(n / 256).push((n % 256) as u8)
    }
}

/// The signed value of big-endian two's-complement contents octets.
pub open spec fn signed_be_value(s: Seq<u8>) -> int
    recommends
        s.len() >= 1,
{
    if s.len() >= 1 && s[0] >= 128 {
        be_value(s) - pow256(s.len())
    } else {
        be_value(s) as int
    }
}

/// The DER length octets for a content length `n`: short form below 128,
/// else the minimal long form.
pub open spec fn spec_len_octets(n: nat) -> Seq<u8> {
    if n < 128 {
        seq![n as u8]
    } else {
        seq![(128 + min_be(n).len()) as u8] + min_be(n)
    }
}

/// The DER contents octets of a non-negative INTEGER value: minimal
/// two's-complement, with a leading zero octet only where the top bit of the
/// magnitude would otherwise read as a sign.
pub open spec fn spec_uint_content(v: int) -> Seq<u8>
    recommends
        0 <= v,
{
    if v < 128 {
        seq![v as u8]
    } else if min_be(v as nat).first() >= 128 {
        seq![0u8] + min_be(v as nat)
    } else {
        min_be(v as nat)
    }
}

/// A complete tag-length-value encoding.
pub open spec fn spec_tlv(tag: u8, content: Seq<u8>) -> Seq<u8> {
    seq![tag] + spec_len_octets(content.len()) + content
}

/// The DER encoding of an OCTET STRING holding `b`.
pub open spec fn spec_octet_string(b: Seq<u8>) -> Seq<u8> {
    spec_tlv(TAG_OCTET_STRING, b)
}

/// The DER encoding of a non-negative INTEGER holding `v`.
pub open spec fn spec_integer(v: int) -> Seq<u8>
    recommends
        0 <= v,
{
    spec_tlv(TAG_INTEGER, spec_uint_content(v))
}

/// `pow256` at small arguments, written out for direct use.
pub proof fn lemma_pow256_values()
    ensures
        pow256(0) == 1,
        pow256(1) == 0x100,
        pow256(2) == 0x1_0000,
        pow256(3) == 0x100_0000,
        pow256(4) == 0x1_0000_0000,
        pow256(8) == 0x1_0000_0000_0000_0000,
        pow256(9) == 0x100_0000_0000_0000_0000,
{
    assert(pow256(0) == 1);
    assert(pow256(1) == 0x100);
    assert(pow256(2) == 0x1_0000);
    assert(pow256(3) == 0x100_0000);
    assert(pow256(4) == 0x1_0000_0000);
    assert(pow256(5) == 0x100_0000_0000);
    assert(pow256(6) == 0x1_0000_0000_0000);
    assert(pow256(7) == 0x100_0000_0000_0000);
    assert(pow256(8) == 0x1_0000_0000_0000_0000);
    assert(pow256(9) == 0x100_0000_0000_0000_0000);
}

/// A value below `pow256(k)` needs at most `k` base-256 digits.
pub proof fn lemma_min_be_len_le(n: nat, k: nat)
    requires
        n < pow256(k),
    ensures
        min_be(n).len() <= k,
    decreases k,
{
    if n == 0 {
    } else {
        assert(pow256(0) == 1);
        if k == 0 {
        } else {
            assert(n / 256 < pow256((k - 1) as nat)) by (nonlinear_arith)
                requires
                    n < 256 * pow256((k - 1) as nat),
            ;
            lemma_min_be_len_le(n / 256, (k - 1) as nat);
        }
    }
}

/// Appends the minimal big-endian digits of `n`.
pub(crate) fn push_be_bytes(out: &mut Vec<u8>, n: usize)
    ensures
        final(out)@ == old(out)@ + min_be(n as nat),
    decreases n,
{
    if n > 0 {
        push_be_bytes(out, n / 256);
        out.push((n % 256) as u8);
        proof {
            assert(final(out)@ =~= old(out)@ + min_be(n as nat));
        }
    } else {
        proof {
            assert(final(out)@ =~= old(out)@ + min_be(n as nat));
        }
    }
}

/// Returns the number of minimal big-endian digits of `n`.
pub(crate) fn be_len(n: usize) -> (r: usize)
    ensures
        r == min_be(n as nat).len(),
        r <= 8,
{
    proof {
        lemma_pow256_values();
        lemma_min_be_len_le(n as nat, 8);
    }
    let mut m: usize = n;
    let mut c: usize = 0;
    while m > 0
        invariant
            min_be(n as nat).len() == min_be(m as nat).len() + c,
            c <= min_be(n as nat).len(),
            min_be(n as nat).len() <= 8,
        decreases m,
    {
        m = m / 256;
        c = c + 1;
    }
    c
}

/// Appends every byte of `b`.
pub(crate) fn push_bytes(out: &mut Vec<u8>, b: &[u8])
    ensures
        final(out)@ == old(out)@ + b@,
{
    let ghost out0 = out@;
    let mut i: usize = 0;
    while i < b.len()
        invariant
            i <= b@.len(),
            out@ == out0 + b@.subrange(0, i as int),
        decreases b@.len() - i,
    {
        out.push(b[i]);
        proof {
            assert(out@ =~= out0 + b@.subrange(0, i + 1));
        }
        i += 1;
    }
    proof {
        assert(out0 + b@.subrange(0, b@.len() as int) =~= out0 + b@);
    }
}

/// Appends the DER length octets for a content length `n`.
pub(crate) fn push_len(out: &mut Vec<u8>, n: usize)
    ensures
        final(out)@ == old(out)@ + spec_len_octets(n as nat),
{
    if n < 128 {
        out.push(n as u8);
        proof {
            assert(final(out)@ =~= old(out)@ + spec_len_octets(n as nat));
        }
    } else {
        let k = be_len(n);
        out.push(128 + k as u8);
        push_be_bytes(out, n);
        proof {
            assert(final(out)@ =~= old(out)@ + spec_len_octets(n as nat));
        }
    }
}

/// Appends the DER encoding of an OCTET STRING holding `b`.
pub(crate) fn push_octet_string(out: &mut Vec<u8>, b: &[u8])
    ensures
        final(out)@ == old(out)@ + spec_octet_string(b@),
{
    out.push(TAG_OCTET_STRING);
    push_len(out, b.len());
    push_bytes(out, b);
    proof {
        assert(final(out)@ =~= old(out)@ + spec_octet_string(b@));
    }
}

/// Appends the DER encoding of an INTEGER holding the non-negative `v`.
pub(crate) fn push_i32_nonneg(out: &mut Vec<u8>, v: i32)
    requires
        0 <= v,
    ensures
        final(out)@ == old(out)@ + spec_integer(v as int),
{
    out.push(TAG_INTEGER);
    if v < 128 {
        out.push(1);
        out.push(v as u8);
        proof {
            assert(final(out)@ =~= old(out)@ + spec_integer(v as int));
        }
    } else {
        let n = v as usize;
        let mut digits: Vec<u8> = Vec::new();
        push_be_bytes(&mut digits, n);
        proof {
            lemma_pow256_values();
            lemma_min_be_len_le(n as nat, 4);
        }
        let k = digits.len();
        if digits[0] >= 128 {
            out.push(k as u8 + 1);
            out.push(0);
        } else {
            out.push(k as u8);
        }
        push_bytes(out, digits.as_slice());
        proof {
            assert(final(out)@ =~= old(out)@ + spec_integer(v as int));
        }
    }
}

/// Reads definite length octets at position `i`: the content length and the
/// position just past the length octets. Indefinite length (0x80) and the
/// reserved octet 0xFF are refused.
pub open spec fn spec_parse_len(buf: Seq<u8>, i: int) -> Option<(nat, int)> {
    if !(0 <= i < buf.len()) {
        None
    } else if buf[i] < 128 {
        Some((buf[i] as nat, i + 1))
    } else if buf[i] == 128 || buf[i] == 255 {
        None
    } else {
        let k = buf[i] - 128;
        if i + 1 + k > buf.len() {
            None
        } else {
            Some((be_value(buf.subrange(i + 1, i + 1 + k)), i + 1 + k))
        }
    }
}

/// Reads a primitive OCTET STRING at position `i`: its contents and the
/// position just past it.
pub open spec fn spec_parse_octet_string(buf: Seq<u8>, i: int) -> Option<(Seq<u8>, int)> {
    if !(0 <= i < buf.len()) || buf[i] != TAG_OCTET_STRING {
        None
    } else {
        match spec_parse_len(buf, i + 1) {
            None => None,
            Some((n, j)) => {
                if j + n > buf.len() {
                    None
                } else {
                    Some((buf.subrange(j, j + n), j + n))
                }
            },
        }
    }
}

/// Whether INTEGER contents octets are acceptable for a 32-bit value:
/// at least one octet, at most four, and minimal (no redundant leading
/// 0x00 or 0xFF octet).
pub open spec fn int_content_ok(c: Seq<u8>) -> bool {
    &&& 1 <= c.len() <= 4
    &&& c.len() >= 2 ==> !(c[0] == 0 && c[1] < 128) && !(c[0] == 255 && c[1] >= 128)
}

/// Reads an INTEGER that fits a 32-bit signed value at position `i`: its
/// value and the position just past it.
pub open spec fn spec_parse_i32(buf: Seq<u8>, i: int) -> Option<(int, int)> {
    if !(0 <= i < buf.len()) || buf[i] != TAG_INTEGER {
        None
    } else {
        match spec_parse_len(buf, i + 1) {
            None => None,
            Some((n, j)) => {
                if j + n > buf.len() || !int_content_ok(buf.subrange(j, j + n)) {
                    None
                } else {
                    Some((signed_be_value(buf.subrange(j, j + n)), j + n))
                }
            },
        }
    }
}

/// `pow256` is positive.
pub proof fn lemma_pow256_pos(k: nat)
    ensures
        pow256(k) >= 1,
    decreases k,
{
    if k > 0 {
        lemma_pow256_pos((k - 1) as nat);
    }
}

/// Digits extending a prefix can only grow the value: the whole is at least
/// the prefix's value shifted by the digits that follow it.
pub proof fn lemma_be_value_prefix(s: Seq<u8>, m: int)
    requires
        0 <= m <= s.len(),
    ensures
        be_value(s) >= be_value(s.take(m)) * pow256((s.len() - m) as nat),
    decreases s.len() - m,
{
    if m == s.len() {
        assert(s.take(m) =~= s);
        assert(pow256((s.len() - m) as nat) == 1);
        assert(be_value(s) * 1 == be_value(s)) by (nonlinear_arith);
    } else {
        lemma_be_value_prefix(s.drop_last(), m);
        assert(s.drop_last().take(m) =~= s.take(m));
        let p = be_value(s.take(m));
        assert(pow256((s.len() - m) as nat) == 256 * pow256((s.len() - 1 - m) as nat));
        assert(be_value(s.drop_last()) >= p * pow256((s.len() - 1 - m) as nat));
        assert(be_value(s.drop_last()) * 256 >= p * pow256((s.len() - m) as nat))
            by (nonlinear_arith)
            requires
                be_value(s.drop_last()) >= p * pow256((s.len() - 1 - m) as nat),
                pow256((s.len() - m) as nat) == 256 * pow256((s.len() - 1 - m) as nat),
        ;
        assert(be_value(s) == be_value(s.drop_last()) * 256 + s.last());
    }
}

/// Appending a digit shifts a signed value and adds the digit.
pub proof fn lemma_signed_push(s: Seq<u8>, x: u8)
    requires
        s.len() >= 1,
    ensures
        signed_be_value(s.push(x)) == signed_be_value(s) * 256 + x,
{
    assert(s.push(x).drop_last() =~= s);
    assert(s.push(x)[0] == s[0]);
    assert(pow256(s.len() + 1) == 256 * pow256(s.len()));
}

/// The range of a signed value of `len` digits: a symmetric two's-complement
/// window around zero.
pub proof fn lemma_signed_bounds(s: Seq<u8>)
    requires
        s.len() >= 1,
    ensures
        -128 * pow256((s.len() - 1) as nat) <= signed_be_value(s) < 128 * pow256(
            (s.len() - 1) as nat,
        ),
    decreases s.len(),
{
    if s.len() == 1 {
        assert(be_value(s) == s[0]) by {
            assert(s.drop_last().len() == 0);
            assert(be_value(s.drop_last()) == 0);
            assert(s.last() == s[0]);
        }
    } else {
        let t = s.drop_last();
        lemma_signed_bounds(t);
        assert(t.push(s.last()) =~= s);
        lemma_signed_push(t, s.last());
        let p = pow256((s.len() - 2) as nat);
        assert(pow256((s.len() - 1) as nat) == 256 * p);
        assert(signed_be_value(s) == signed_be_value(t) * 256 + s.last());
        assert(-128 * (256 * p) <= signed_be_value(t) * 256 < 128 * (256 * p))
            by (nonlinear_arith)
            requires
                -128 * p <= signed_be_value(t) < 128 * p,
        ;
    }
}

/// The minimal digits of `n` carry the value `n` and never start with a
/// zero digit.
pub proof fn lemma_min_be_value(n: nat)
    ensures
        be_value(min_be(n)) == n,
        n > 0 ==> min_be(n).len() >= 1 && min_be(n)[0] != 0,
    decreases n,
{
    if n > 0 {
        lemma_min_be_value(n / 256);
        let s = min_be(n / 256);
        assert(min_be(n) == s.push((n % 256) as u8));
        assert(s.push((n % 256) as u8).drop_last() =~= s);
        assert(be_value(min_be(n)) == (n / 256) * 256 + n % 256);
        if n / 256 > 0 {
            assert(min_be(n)[0] == s[0]);
        } else {
            assert(min_be(n)[0] == n % 256);
        }
    }
}

/// A leading zero digit does not change the value.
pub proof fn lemma_be_value_zero_prepend(s: Seq<u8>)
    ensures
        be_value(seq![0u8] + s) == be_value(s),
    decreases s.len(),
{
    if s.len() == 0 {
        assert(seq![0u8] + s =~= seq![0u8]);
        assert(be_value(seq![0u8]) == be_value(seq![0u8].drop_last()) * 256 + 0);
        assert(seq![0u8].drop_last() =~= Seq::<u8>::empty());
    } else {
        lemma_be_value_zero_prepend(s.drop_last());
        assert((seq![0u8] + s).drop_last() =~= seq![0u8] + s.drop_last());
        assert((seq![0u8] + s).last() == s.last());
    }
}

/// The first digit bounds the value from below.
pub proof fn lemma_be_value_first(s: Seq<u8>)
    requires
        s.len() >= 1,
    ensures
        be_value(s) >= s[0] * pow256((s.len() - 1) as nat),
    decreases s.len(),
{
    if s.len() == 1 {
        assert(s.drop_last().len() == 0);
        assert(be_value(s.drop_last()) == 0);
        assert(pow256(0) == 1);
        assert(be_value(s) == s[0]);
        assert(s[0] * 1 == s[0]);
    } else {
        lemma_be_value_first(s.drop_last());
        assert(s.drop_last()[0] == s[0]);
        let p = pow256((s.len() - 2) as nat);
        assert(pow256((s.len() - 1) as nat) == 256 * p);
        assert(be_value(s.drop_last()) * 256 >= (s[0] * p) * 256) by (nonlinear_arith)
            requires
                be_value(s.drop_last()) >= s[0] * p,
        ;
        assert((s[0] * p) * 256 == s[0] * (256 * p)) by (nonlinear_arith);
    }
}

/// The contents octets of a non-negative 32-bit INTEGER are acceptable,
/// read back as the same value, and count at most four.
pub proof fn lemma_uint_content(v: int)
    requires
        0 <= v <= i32::MAX,
    ensures
        int_content_ok(spec_uint_content(v)),
        signed_be_value(spec_uint_content(v)) == v,
        1 <= spec_uint_content(v).len() <= 4,
{
    lemma_pow256_values();
    let c = spec_uint_content(v);
    if v < 128 {
        assert(c =~= seq![v as u8]);
        assert(c.drop_last() =~= Seq::<u8>::empty());
        assert(be_value(c.drop_last()) == 0);
        assert(be_value(c) == v);
        assert(c[0] < 128);
    } else {
        let d = min_be(v as nat);
        lemma_min_be_value(v as nat);
        lemma_min_be_len_le(v as nat, 4);
        if d[0] >= 128 {
            assert(d.len() <= 3) by {
                if d.len() == 4 {
                    lemma_be_value_first(d);
                    assert(d[0] * pow256(3) >= 128 * pow256(3)) by (nonlinear_arith)
                        requires
                            d[0] >= 128,
                    ;
                    assert(be_value(d) >= 128 * pow256(3));
                }
            }
            assert(c == seq![0u8] + d);
            lemma_be_value_zero_prepend(d);
            assert(c.len() == d.len() + 1 <= 4);
            assert(c[0] == 0 && c[1] == d[0]);
            assert(c[1] >= 128);
            assert(int_content_ok(c));
            assert(signed_be_value(c) == be_value(c));
        } else {
            assert(c == d);
            assert(c[0] != 0);
            assert(c[0] < 128);
            assert(int_content_ok(c));
            assert(signed_be_value(c) == be_value(c));
        }
    }
}

/// A concatenation splits back into its two parts.
pub proof fn lemma_concat_parts(a: Seq<u8>, b: Seq<u8>)
    ensures
        (a + b).subrange(0, a.len() as int) == a,
        (a + b).subrange(a.len() as int, (a.len() + b.len()) as int) == b,
{
    assert((a + b).subrange(0, a.len() as int) =~= a);
    assert((a + b).subrange(a.len() as int, (a.len() + b.len()) as int) =~= b);
}

/// A slice of a slice is the corresponding slice of the whole.
pub proof fn lemma_slice_of_slice(buf: Seq<u8>, i: int, pre: int, x: Seq<u8>, whole: Seq<u8>)
    requires
        0 <= i,
        0 <= pre,
        pre + x.len() <= whole.len(),
        i + whole.len() <= buf.len(),
        buf.subrange(i, i + whole.len() as int) == whole,
        whole.subrange(pre, pre + x.len() as int) == x,
    ensures
        buf.subrange(i + pre, i + pre + x.len() as int) == x,
{
    assert(buf.subrange(i + pre, i + pre + x.len() as int) =~= x) by {
        assert(forall|t: int|
            0 <= t < x.len() ==> buf[i + pre + t] == whole[pre + t] && whole.subrange(
                pre,
                pre + x.len() as int,
            )[t] == #[trigger] x[t]);
    }
}

/// Written length octets read back as the length they encode.
pub proof fn lemma_parse_len_at(buf: Seq<u8>, i: int, n: nat)
    requires
        0 <= i,
        min_be(n).len() <= 126,
        i + spec_len_octets(n).len() <= buf.len(),
        buf.subrange(i, i + spec_len_octets(n).len() as int) == spec_len_octets(n),
    ensures
        spec_parse_len(buf, i) == Some((n, i + spec_len_octets(n).len() as int)),
{
    let lo = spec_len_octets(n);
    assert(buf[i] == buf.subrange(i, i + lo.len() as int)[0]);
    if n < 128 {
        assert(lo =~= seq![n as u8]);
        assert(buf[i] == n as u8);
    } else {
        let k = min_be(n).len();
        lemma_min_be_value(n);
        assert(lo[0] == (128 + k) as u8);
        assert(buf[i] == (128 + k) as u8);
        assert(129 <= buf[i] <= 254);
        assert(buf[i] - 128 == k);
        assert(i + 1 + k <= buf.len());
        assert(buf.subrange(i + 1, i + 1 + k as int) =~= min_be(n)) by {
            assert(forall|t: int|
                0 <= t < k ==> buf.subrange(i, i + lo.len() as int)[t + 1] == #[trigger] min_be(
                    n,
                )[t]);
        }
    }
}

/// A written OCTET STRING reads back as its contents.
pub proof fn lemma_parse_octet_string_at(buf: Seq<u8>, i: int, b: Seq<u8>)
    requires
        0 <= i,
        min_be(b.len()).len() <= 126,
        i + spec_octet_string(b).len() <= buf.len(),
        buf.subrange(i, i + spec_octet_string(b).len() as int) == spec_octet_string(b),
    ensures
        spec_parse_octet_string(buf, i) == Some((b, i + spec_octet_string(b).len() as int)),
{
    let lo = spec_len_octets(b.len());
    let tlv = spec_octet_string(b);
    assert(tlv == seq![TAG_OCTET_STRING] + lo + b);
    assert(buf[i] == buf.subrange(i, i + tlv.len() as int)[0]);
    assert(buf[i] == TAG_OCTET_STRING);
    assert(buf.subrange(i + 1, i + 1 + lo.len() as int) =~= lo) by {
        assert(forall|t: int|
            0 <= t < lo.len() ==> buf.subrange(i, i + tlv.len() as int)[t + 1] == #[trigger] lo[t]);
    }
    lemma_parse_len_at(buf, i + 1, b.len());
    let j = i + 1 + lo.len();
    assert(j + b.len() <= buf.len());
    assert(buf.subrange(j, j + b.len() as int) =~= b) by {
        assert(forall|t: int|
            0 <= t < b.len() ==> buf.subrange(i, i + tlv.len() as int)[1 + lo.len() + t]
                == #[trigger] b[t]);
    }
}

/// A written non-negative 32-bit INTEGER reads back as its value.
pub proof fn lemma_parse_integer_at(buf: Seq<u8>, i: int, v: int)
    requires
        0 <= v <= i32::MAX,
        0 <= i,
        i + spec_integer(v).len() <= buf.len(),
        buf.subrange(i, i + spec_integer(v).len() as int) == spec_integer(v),
    ensures
        spec_parse_i32(buf, i) == Some((v, i + spec_integer(v).len() as int)),
{
    lemma_uint_content(v);
    lemma_pow256_values();
    let c = spec_uint_content(v);
    let lo = spec_len_octets(c.len());
    let tlv = spec_integer(v);
    assert(lo =~= seq![c.len() as u8]);
    assert(tlv == seq![TAG_INTEGER] + lo + c);
    assert(buf[i] == buf.subrange(i, i + tlv.len() as int)[0]);
    assert(buf[i] == TAG_INTEGER);
    assert(buf.subrange(i + 1, i + 1 + lo.len() as int) =~= lo) by {
        assert(forall|t: int|
            0 <= t < lo.len() ==> buf.subrange(i, i + tlv.len() as int)[t + 1] == #[trigger] lo[t]);
    }
    lemma_min_be_len_le(c.len(), 4);
    lemma_parse_len_at(buf, i + 1, c.len());
    let j = i + 1 + lo.len();
    assert(j + c.len() <= buf.len());
    assert(buf.subrange(j, j + c.len() as int) =~= c) by {
        assert(forall|t: int|
            0 <= t < c.len() ==> buf.subrange(i, i + tlv.len() as int)[1 + lo.len() + t]
                == #[trigger] c[t]);
    }
}

/// Reads definite length octets at position `i` as the parsing
/// specification does, refusing a content length that overruns the buffer.
pub(crate) fn read_len(buf: &[u8], i: usize) -> (r: Option<(usize, usize)>)
    requires
        i <= buf@.len(),
    ensures
        match spec_parse_len(buf@, i as int) {
            None => r is None,
            Some((n, j)) => {
                if n + j <= buf@.len() {
                    r matches Some(v) && v.0 == n && v.1 == j
                } else {
                    r is None
                }
            },
        },
{
    if i >= buf.len() {
        return None;
    }
    let b = buf[i];
    if b < 128 {
        let n = b as usize;
        if n <= buf.len() - (i + 1) {
            Some((n, i + 1))
        } else {
            None
        }
    } else if b == 128 || b == 255 {
        None
    } else {
        let k = (b - 128) as usize;
        let l = buf.len();
        if k > l - (i + 1) {
            return None;
        }
        let ghost full = buf@.subrange(i + 1, i + 1 + k);
        proof {
            assert(spec_parse_len(buf@, i as int) == Some(
                (be_value(full), i + 1 + k as int),
            ));
        }
        let mut acc: u64 = 0;
        let mut t: usize = 0;
        while t < k
            invariant
                t <= k,
                i + 1 + k <= l,
                l == buf@.len(),
                full == buf@.subrange(i + 1, i + 1 + k as int),
                full.len() == k,
                spec_parse_len(buf@, i as int) == Some((be_value(full), i + 1 + k as int)),
                acc == be_value(full.take(t as int)),
            decreases k - t,
        {
            if acc >= 0x100_0000_0000_0000 {
                proof {
                    lemma_be_value_prefix(full, t as int);
                    lemma_pow256_pos((k - t - 1) as nat);
                    assert(pow256((k - t) as nat) == 256 * pow256((k - t - 1) as nat));
                    assert(be_value(full.take(t as int)) * pow256((k - t) as nat)
                        >= 0x100_0000_0000_0000 * 256) by (nonlinear_arith)
                        requires
                            be_value(full.take(t as int)) >= 0x100_0000_0000_0000,
                            pow256((k - t) as nat) >= 256,
                    ;
                    assert(be_value(full) >= 0x1_0000_0000_0000_0000);
                    assert(buf@.len() < 0x1_0000_0000_0000_0000);
                }
                return None;
            }
            let d = buf[i + 1 + t];
            proof {
                assert(full.take(t + 1).drop_last() =~= full.take(t as int));
                assert(full.take(t + 1).last() == buf@[i + 1 + t]);
            }
            acc = acc * 256 + d as u64;
            t += 1;
        }
        proof {
            assert(full.take(k as int) =~= full);
        }
        let j = i + 1 + k;
        let rem = l - j;
        if acc <= rem as u64 {
            Some((acc as usize, j))
        } else {
            None
        }
    }
}

/// Reads a primitive OCTET STRING at position `i` as the parsing
/// specification does, copying the contents out.
pub(crate) fn read_octet_string(buf: &[u8], i: usize) -> (r: Option<(Vec<u8>, usize)>)
    requires
        i <= buf@.len(),
    ensures
        match spec_parse_octet_string(buf@, i as int) {
            None => r is None,
            Some((b, j)) => r matches Some(v) && v.0@ == b && v.1 == j,
        },
{
    if i >= buf.len() || buf[i] != TAG_OCTET_STRING {
        return None;
    }
    match read_len(buf, i + 1) {
        None => None,
        Some((n, j)) => {
            let s = slice_subrange(buf, j, j + n);
            let v = slice_to_vec(s);
            Some((v, j + n))
        },
    }
}

/// Reads an INTEGER fitting 32 signed bits at position `i` as the parsing
/// specification does: minimal two's-complement contents of one to four
/// octets.
pub(crate) fn read_i32_field(buf: &[u8], i: usize) -> (r: Option<(i32, usize)>)
    requires
        i <= buf@.len(),
    ensures
        match spec_parse_i32(buf@, i as int) {
            None => r is None,
            Some((v, j)) => r matches Some(x) && x.0 == v && x.1 == j,
        },
{
    if i >= buf.len() || buf[i] != TAG_INTEGER {
        return None;
    }
    match read_len(buf, i + 1) {
        None => None,
        Some((n, j)) => {
            if n < 1 || n > 4 {
                return None;
            }
            let ghost c = buf@.subrange(j as int, j + n);
            let c0 = buf[j];
            if n >= 2 {
                let c1 = buf[j + 1];
                if (c0 == 0 && c1 < 128) || (c0 == 255 && c1 >= 128) {
                    return None;
                }
            }
            let mut acc: i64 = c0 as i64;
            if c0 >= 128 {
                acc = acc - 256;
            }
            proof {
                lemma_pow256_values();
                assert(c.take(1).drop_last() =~= Seq::<u8>::empty());
                assert(be_value(c.take(1).drop_last()) == 0);
                assert(c.take(1).last() == c[0]);
                assert(be_value(c.take(1)) == c[0]);
                assert(c.take(1)[0] == c[0]);
                assert(acc == signed_be_value(c.take(1)));
            }
            let l = buf.len();
            let mut t: usize = 1;
            while t < n
                invariant
                    1 <= t <= n,
                    n <= 4,
                    l == buf@.len(),
                    j + n <= buf@.len(),
                    c == buf@.subrange(j as int, j + n as int),
                    c.len() == n,
                    acc == signed_be_value(c.take(t as int)),
                decreases n - t,
            {
                let d = buf[j + t];
                proof {
                    lemma_signed_bounds(c.take(t as int));
                    lemma_pow256_values();
                    lemma_signed_push(c.take(t as int), d);
                    assert(c.take(t + 1) =~= c.take(t as int).push(buf@[j + t]));
                }
                acc = acc * 256 + d as i64;
                t += 1;
            }
            proof {
                assert(c.take(n as int) =~= c);
                lemma_signed_bounds(c);
                lemma_pow256_values();
            }
            Some((acc as i32, j + n))
        },
    }
}

} // verus!

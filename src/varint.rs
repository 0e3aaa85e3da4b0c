//! Variable-length encoding of unsigned integers: seven bits per byte, least
//! significant group first, the high bit of a byte set when more bytes follow.
use crate::error::FormatError;
use vstd::prelude::*;

verus! {

/// The largest number of bytes a `usize` can be read from: a byte holds 7
/// bits, and a byte whose bits would start at or beyond the width of `usize`
/// is refused.
pub open spec fn max_varint_bytes() -> nat {
    if usize::MAX == 0xffff_ffff {
        5
    } else {
        10
    }
}

/// The largest number of bytes a `usize` can be read from.
fn varint_byte_limit() -> (r: usize)
    ensures
        r == max_varint_bytes(),
        r <= 10,
{
    if usize::MAX == 0xffff_ffff {
        5
    } else {
        10
    }
}

/// `128` to the power `k`.
pub open spec fn pow128(k: nat) -> nat
    decreases k,
{
    if k == 0 {
        1
    } else {
        128 * pow128((k - 1) as nat)
    }
}

/// The canonical encoding of `x`: as few bytes as hold its 7-bit groups.
pub open spec fn varint_encoding(x: nat) -> Seq<u8>
    decreases x,
{
    if x < 128 {
        seq![x as u8]
    } else {
        seq![(x % 128 + 128) as u8] + varint_encoding(x / 128)
    }
}

/// The number that the 7-bit groups of `s` spell, least significant first.
pub open spec fn groups_value(s: Seq<u8>) -> nat
    decreases s.len(),
{
    if s.len() == 0 {
        0
    } else {
        (s[0] % 128) as nat + 128 * groups_value(s.drop_first())
    }
}

/// Where the varint that starts at index 0 of `s` ends, scanning from byte `i`:
/// a decoder gives up on a byte past `max_varint_bytes()`, and at the end of
/// the input.
pub open spec fn varint_scan(s: Seq<u8>, i: nat) -> Result<nat, FormatError>
    decreases max_varint_bytes() - i,
{
    if i >= s.len() {
        Err(FormatError::UnexpectedEnd)
    } else if i >= max_varint_bytes() {
        Err(FormatError::VarintOverflow)
    } else if s[i as int] < 128 {
        Ok(i + 1)
    } else {
        varint_scan(s, i + 1)
    }
}

/// What decoding a varint at the start of `s` yields: its value, with bits
/// beyond the 64th dropped, and the number of bytes it spans.
pub open spec fn varint_decode(s: Seq<u8>) -> Result<(u64, nat), FormatError> {
    match varint_scan(s, 0) {
        Ok(n) => Ok(((groups_value(s.take(n as int)) % 0x1_0000_0000_0000_0000) as u64, n)),
        Err(e) => Err(e),
    }
}

/// What reading a `usize` at the start of `s` yields: a decoded value too
/// large for `usize` is an overflow.
pub open spec fn usize_decode(s: Seq<u8>) -> Result<(usize, nat), FormatError> {
    match varint_decode(s) {
        Ok((v, n)) => if v <= usize::MAX {
            Ok((v as usize, n))
        } else {
            Err(FormatError::VarintOverflow)
        },
        Err(e) => Err(e),
    }
}

/// Appends the canonical encoding of `x` to `buf`.
pub fn write_usize_varenc(buf: &mut Vec<u8>, x: usize)
    ensures
        final(buf)@ == old(buf)@ + varint_encoding(x as nat),
{
    let mut u: usize = x;
    let ghost start = buf@;
    loop
        invariant
            start == old(buf)@,
            start + varint_encoding(x as nat) == buf@ + varint_encoding(u as nat),
        decreases u,
    {
        if u < 128 {
            let ghost before = buf@;
            buf.push(u as u8);
            proof {
                assert(varint_encoding(u as nat) == seq![u as u8]);
                assert(buf@ =~= before + seq![u as u8]);
                assert(buf@ == start + varint_encoding(x as nat));
            }
            return;
        }
        let v: u8 = (u % 128 + 128) as u8;
        buf.push(v);
        proof {
            let s = buf@;
            assert(varint_encoding(u as nat) == seq![v] + varint_encoding((u / 128) as nat));
            assert(s.drop_last() + seq![v] == s);
            assert(s.drop_last() + varint_encoding(u as nat) == s + varint_encoding(
                (u / 128) as nat,
            ));
        }
        u = u / 128;
    }
}

/// The canonical encoding of `x`, as a fresh vector.
pub fn encode_usize(x: usize) -> (r: Vec<u8>)
    ensures
        r@ == varint_encoding(x as nat),
{
    let mut r: Vec<u8> = Vec::new();
    write_usize_varenc(&mut r, x);
    proof {
        assert(r@ == Seq::<u8>::empty() + varint_encoding(x as nat));
    }
    r
}

proof fn lemma_groups_value_push(s: Seq<u8>, b: u8)
    ensures
        groups_value(s.push(b)) == groups_value(s) + (b % 128) as nat * pow128(s.len()),
    decreases s.len(),
{
    if s.len() == 0 {
        let t = s.push(b);
        assert(t.drop_first() =~= Seq::<u8>::empty());
        assert(groups_value(Seq::<u8>::empty()) == 0);
        assert(t[0] == b);
        assert(groups_value(t) == (b % 128) as nat + 128 * groups_value(t.drop_first()));
        assert(pow128(0) == 1);
    } else {
        assert(s.push(b).drop_first() =~= s.drop_first().push(b));
        assert(s.push(b)[0] == s[0]);
        lemma_groups_value_push(s.drop_first(), b);
        let g = (b % 128) as nat;
        let p = pow128((s.len() - 1) as nat);
        let r = groups_value(s.drop_first());
        assert(pow128(s.len()) == 128 * p);
        assert(128 * (r + g * p) == 128 * r + g * (128 * p)) by (nonlinear_arith);
    }
}

proof fn lemma_groups_value_bound(s: Seq<u8>)
    ensures
        groups_value(s) < pow128(s.len()),
    decreases s.len(),
{
    if s.len() > 0 {
        lemma_groups_value_bound(s.drop_first());
        let a = (s[0] % 128) as nat;
        let r = groups_value(s.drop_first());
        let p = pow128((s.len() - 1) as nat);
        assert(a + 128 * r < 128 * p) by (nonlinear_arith)
            requires
                a < 128,
                r < p,
        ;
    }
}

proof fn lemma_pow128_ten()
    ensures
        pow128(9) == 0x8000_0000_0000_0000,
        pow128(10) == 0x40_0000_0000_0000_0000_u128,
{
    reveal_with_fuel(pow128, 11);
}

/// Reads the varint that starts at byte `pos` of `bytes`; on success returns
/// its value and the position just past it.
pub fn read_usize_varenc(bytes: &[u8], pos: usize) -> (r: Result<(usize, usize), FormatError>)
    requires
        pos <= bytes@.len(),
    ensures
        match usize_decode(bytes@.skip(pos as int)) {
            Ok((v, n)) => r is Ok && r->Ok_0.0 == v && r->Ok_0.1 == pos + n,
            Err(e) => r == Err::<(usize, usize), FormatError>(e),
        },
        r is Ok ==> pos < r->Ok_0.1 <= bytes@.len(),
{
    let ghost s = bytes@.skip(pos as int);
    let mut i: usize = 0;
    let mut result: u128 = 0;
    let mut mult: u128 = 1;
    let limit = varint_byte_limit();
    proof {
        lemma_pow128_ten();
    }
    loop
        invariant
            s == bytes@.skip(pos as int),
            pos <= bytes@.len(),
            limit == max_varint_bytes(),
            limit <= 10,
            i <= limit,
            pos + i <= bytes@.len(),
            forall|j: int| 0 <= j < i ==> s[j] >= 128,
            varint_scan(s, 0) == varint_scan(s, i as nat),
            result as nat == groups_value(s.take(i as int)),
            mult as nat == pow128(i as nat),
            pow128(9) == 0x8000_0000_0000_0000,
            pow128(10) == 0x40_0000_0000_0000_0000_u128,
        decreases limit - i,
    {
        proof {
            lemma_groups_value_bound(s.take(i as int));
            reveal_with_fuel(varint_scan, 2);
        }
        if i >= bytes.len() - pos {
            return Err(FormatError::UnexpectedEnd);
        }
        if i >= limit {
            return Err(FormatError::VarintOverflow);
        }
        let b: u8 = bytes[pos + i];
        assert(b == s[i as int]);
        let g: u128 = (b % 128) as u128;
        proof {
            assert(s.take(i as int + 1) =~= s.take(i as int).push(b));
            lemma_groups_value_push(s.take(i as int), b);
            assert(pow128(i as nat) <= pow128(9)) by {
                lemma_pow128_mono(i as nat, 9);
            }
            assert(g * mult <= 127 * 0x8000_0000_0000_0000) by (nonlinear_arith)
                requires
                    g < 128,
                    mult <= 0x8000_0000_0000_0000u128,
            ;
        }
        result = result + g * mult;
        mult = mult * 128;
        i = i + 1;
        if b < 128 {
            proof {
                assert(s.take(i as int) =~= s.take(i as int));
            }
            let v: u64 = (result % 0x1_0000_0000_0000_0000) as u64;
            if v > usize::MAX as u64 {
                return Err(FormatError::VarintOverflow);
            }
            return Ok((v as usize, pos + i));
        }
    }
}

proof fn lemma_pow128_mono(a: nat, b: nat)
    requires
        a <= b,
    ensures
        pow128(a) <= pow128(b),
    decreases b,
{
    if a < b {
        lemma_pow128_mono(a, (b - 1) as nat);
    }
}

/// The canonical encoding of `x` has one byte for each 7-bit group: every
/// byte but the last has its high bit set.
proof fn lemma_encoding_shape(x: nat)
    ensures
        varint_encoding(x).len() >= 1,
        varint_encoding(x)[varint_encoding(x).len() - 1] < 128,
        forall|j: int| 0 <= j < varint_encoding(x).len() - 1 ==> varint_encoding(x)[j] >= 128,
        groups_value(varint_encoding(x)) == x,
        forall|k: nat| k >= 1 && x < pow128(k) ==> varint_encoding(x).len() <= k,
    decreases x,
{
    if x < 128 {
        let e = varint_encoding(x);
        assert(e.drop_first() =~= Seq::<u8>::empty());
        assert(groups_value(Seq::<u8>::empty()) == 0);
        assert(e[0] == x as u8);
        assert(groups_value(e) == (e[0] % 128) as nat + 128 * groups_value(e.drop_first()));
    } else {
        lemma_encoding_shape(x / 128);
        let e = varint_encoding(x);
        let t = varint_encoding(x / 128);
        assert(e.drop_first() =~= t);
        assert forall|j: int| 0 <= j < e.len() - 1 implies e[j] >= 128 by {
            if j > 0 {
                assert(e[j] == t[j - 1]);
            }
        }
        assert(e[e.len() - 1] == t[t.len() - 1]);
        assert(groups_value(e) == (e[0] % 128) as nat + 128 * groups_value(e.drop_first()));
        assert(e[0] == (x % 128 + 128) as u8);
        assert forall|k: nat| k >= 1 && x < pow128(k) implies e.len() <= k by {
            if k == 1 {
                reveal_with_fuel(pow128, 2);
            } else {
                assert(pow128(k) == 128 * pow128((k - 1) as nat));
                assert(x / 128 < pow128((k - 1) as nat));
            }
        }
    }
}

/// Scanning bytes that hold the encoding of `y` from `i` on ends right after it.
proof fn lemma_scan_encoding(s: Seq<u8>, i: nat, y: nat)
    requires
        i + varint_encoding(y).len() <= max_varint_bytes(),
        i + varint_encoding(y).len() <= s.len(),
        s.subrange(i as int, (i + varint_encoding(y).len()) as int) == varint_encoding(y),
    ensures
        varint_scan(s, i) == Ok::<nat, FormatError>(i + varint_encoding(y).len()),
    decreases y,
{
    let e = varint_encoding(y);
    assert(s[i as int] == e[0]);
    if y >= 128 {
        let t = varint_encoding(y / 128);
        let a = i as int;
        assert(s.subrange(a + 1, a + 1 + t.len()) =~= t) by {
            assert forall|j: int| 0 <= j < t.len() implies s.subrange(a + 1, a + 1 + t.len())[j]
                == t[j] by {
                assert(s[a + 1 + j] == s.subrange(a, a + e.len())[1 + j]);
                assert(e[1 + j] == t[j]);
            }
        }
        lemma_scan_encoding(s, i + 1, y / 128);
    }
}

/// A scan that meets only continuation bytes up to the end of the input fails
/// there.
proof fn lemma_scan_truncated(s: Seq<u8>, i: nat)
    requires
        s.len() <= max_varint_bytes(),
        forall|j: int| i <= j < s.len() ==> s[j] >= 128,
    ensures
        varint_scan(s, i) == Err::<nat, FormatError>(FormatError::UnexpectedEnd),
    decreases s.len() - i,
{
    if i < s.len() {
        lemma_scan_truncated(s, i + 1);
    }
}

/// Varint law: the encoding of any `usize` decodes to it, whatever follows it,
/// and consumes exactly its own bytes; every proper prefix of an encoding, and
/// every input whose first `max_varint_bytes()` bytes all announce a
/// continuation, fails.
pub proof fn lemma_varint_round_trip(x: usize, rest: Seq<u8>)
    ensures
        usize_decode(varint_encoding(x as nat) + rest) == Ok::<(usize, nat), FormatError>(
            (x, varint_encoding(x as nat).len()),
        ),
        varint_encoding(x as nat).len() <= max_varint_bytes(),
        forall|k: int|
            0 <= k < varint_encoding(x as nat).len() ==> #[trigger] varint_decode(
                varint_encoding(x as nat).take(k),
            ) == Err::<(u64, nat), FormatError>(FormatError::UnexpectedEnd),
{
    let e = varint_encoding(x as nat);
    let s = e + rest;
    lemma_encoding_shape(x as nat);
    lemma_pow128_ten();
    assert(pow128(10) == 128 * pow128(9));
    reveal_with_fuel(pow128, 6);
    assert(pow128(5) == 0x8_0000_0000);
    assert(usize::MAX == 0xffff_ffff || usize::MAX == 0xffff_ffff_ffff_ffff);
    assert(e.len() <= max_varint_bytes());
    assert(s.subrange(0, e.len() as int) =~= e);
    lemma_scan_encoding(s, 0, x as nat);
    assert(s.take(e.len() as int) =~= e);
    assert forall|k: int| 0 <= k < e.len() implies #[trigger] varint_decode(e.take(k))
        == Err::<(u64, nat), FormatError>(FormatError::UnexpectedEnd) by {
        lemma_scan_truncated(e.take(k), 0);
    }
}

/// An input whose first bytes, as many as a `usize` can be read from, all
/// announce a continuation is too long to be a `usize` varint.
pub proof fn lemma_varint_overlong(s: Seq<u8>)
    requires
        s.len() > max_varint_bytes(),
        forall|j: int| 0 <= j < max_varint_bytes() ==> s[j] >= 128,
    ensures
        varint_decode(s) == Err::<(u64, nat), FormatError>(FormatError::VarintOverflow),
{
    reveal_with_fuel(varint_scan, 11);
}

} // verus!

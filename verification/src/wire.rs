//! The textual wire format: lower-case hex for byte fields, and a small
//! JSON-shaped record codec.
//!
//! A record is one object with string keys; values are strings, unsigned
//! decimal numbers, or `null`. Strings escape the quote, the backslash and
//! control bytes, and carry everything else as raw UTF-8. The writer emits a
//! canonical form (fixed key order, no whitespace); the parser accepts any
//! key order and proves the canonical form round-trips exactly.

use vstd::prelude::*;

verus! {

/// ASCII code of the lower-case hex digit for `v` (0..16).
pub open spec fn hex_digit(v: u8) -> u8 {
    if v < 10 {
        (48 + v) as u8
    } else {
        (87 + v) as u8
    }
}

/// The numeric value of an ASCII hex digit, or -1.
pub open spec fn hex_val(b: u8) -> int {
    if 48 <= b <= 57 {
        b - 48
    } else if 97 <= b <= 102 {
        b - 87
    } else if 65 <= b <= 70 {
        b - 55
    } else {
        -1
    }
}

/// The lower-case hex spelling of a byte string, two digits per byte, high
/// nibble first.
pub open spec fn spec_hex_bytes(bytes: Seq<u8>) -> Seq<u8> {
    Seq::new(
        bytes.len() * 2,
        |i: int|
            if i % 2 == 0 {
                hex_digit(bytes[i / 2] / 16)
            } else {
                hex_digit(bytes[i / 2] % 16)
            },
    )
}

/// Whether a byte string is well-formed hex: even length, hex digits only.
pub open spec fn spec_is_hex(s: Seq<u8>) -> bool {
    s.len() % 2 == 0 && forall|i: int| 0 <= i < s.len() ==> hex_val(#[trigger] s[i]) != -1
}

/// The bytes a well-formed hex string spells.
pub open spec fn spec_unhex(s: Seq<u8>) -> Seq<u8> {
    Seq::new(s.len() / 2, |i: int| (hex_val(s[2 * i]) * 16 + hex_val(s[2 * i + 1])) as u8)
}

/// Hex round trip: the spelling of any byte string is well-formed hex and
/// reads back as the original bytes.
pub proof fn lemma_hex_round_trip(bytes: Seq<u8>)
    ensures
        spec_is_hex(spec_hex_bytes(bytes)),
        spec_unhex(spec_hex_bytes(bytes)) == bytes,
{
    let h = spec_hex_bytes(bytes);
    assert forall|i: int| 0 <= i < h.len() implies hex_val(#[trigger] h[i]) != -1 by {
        let b = bytes[i / 2];
        assert(b / 16 < 16) by {
            vstd::arithmetic::div_mod::lemma_fundamental_div_mod(b as int, 16);
        }
        assert(b % 16 < 16);
    }
    assert forall|i: int| 0 <= i < bytes.len() implies spec_unhex(h)[i] == bytes[i] by {
        let b = bytes[i];
        assert(h[2 * i] == hex_digit(b / 16));
        assert(h[2 * i + 1] == hex_digit(b % 16));
        assert(b / 16 < 16 && b % 16 < 16) by {
            vstd::arithmetic::div_mod::lemma_fundamental_div_mod(b as int, 16);
        }
        assert(hex_val(hex_digit(b / 16)) == b / 16);
        assert(hex_val(hex_digit(b % 16)) == b % 16);
        assert((b / 16) * 16 + b % 16 == b) by {
            vstd::arithmetic::div_mod::lemma_fundamental_div_mod(b as int, 16);
        }
    }
    assert(spec_unhex(h) =~= bytes);
}

/// Append the hex spelling of `bytes` to `out`.
pub fn push_hex(out: &mut Vec<u8>, bytes: &[u8])
    ensures
        final(out)@ == old(out)@ + spec_hex_bytes(bytes@),
{
    let ghost orig = out@;
    let mut i: usize = 0;
    proof {
        assert(out@ =~= orig + spec_hex_bytes(bytes@.take(0)));
    }
    while i < bytes.len()
        invariant
            i <= bytes@.len(),
            out@ == orig + spec_hex_bytes(bytes@.take(i as int)),
        decreases bytes@.len() - i,
    {
        let b = bytes[i];
        let hi = b / 16;
        let lo = b % 16;
        let hi_d = if hi < 10 {
            48 + hi
        } else {
            87 + hi
        };
        let lo_d = if lo < 10 {
            48 + lo
        } else {
            87 + lo
        };
        out.push(hi_d);
        out.push(lo_d);
        i = i + 1;
        proof {
            assert(out@ =~= orig + spec_hex_bytes(bytes@.take(i as int)));
        }
    }
    proof {
        assert(bytes@.take(bytes@.len() as int) =~= bytes@);
    }
}

/// Read a hex byte string back into the bytes it spells.
pub fn hex_decode(s: &[u8]) -> (r: Option<Vec<u8>>)
    ensures
        spec_is_hex(s@) ==> (r matches Some(v) && v@ == spec_unhex(s@)),
        !spec_is_hex(s@) ==> r is None,
{
    if s.len() % 2 != 0 {
        return None;
    }
    let mut out: Vec<u8> = Vec::new();
    let mut i: usize = 0;
    while i < s.len()
        invariant
            i <= s@.len(),
            i % 2 == 0,
            s@.len() % 2 == 0,
            forall|j: int| 0 <= j < i ==> hex_val(#[trigger] s@[j]) != -1,
            out@.len() == i / 2,
            forall|j: int|
                0 <= j < i / 2 ==> out@[j] == (hex_val(s@[2 * j]) * 16 + hex_val(
                    s@[2 * j + 1],
                )) as u8,
        decreases s@.len() - i,
    {
        let hi = hex_val_exec(s[i]);
        let lo = hex_val_exec(s[i + 1]);
        if hi < 0 || lo < 0 {
            return None;
        }
        out.push((hi * 16 + lo) as u8);
        i = i + 2;
    }
    proof {
        assert(out@ =~= spec_unhex(s@));
    }
    Some(out)
}

/// Whether a byte is an ASCII decimal digit.
pub open spec fn is_digit(b: u8) -> bool {
    48 <= b <= 57
}

/// The decimal spelling of `v`, most significant digit first.
pub open spec fn spec_dec_digits(v: u64) -> Seq<u8>
    decreases v,
{
    if v < 10 {
        seq![(48 + v) as u8]
    } else {
        spec_dec_digits(v / 10).push((48 + v % 10) as u8)
    }
}

/// The numeric value of a digit string, read most significant first.
pub open spec fn spec_digits_val(s: Seq<u8>) -> int
    decreases s.len(),
{
    if s.len() == 0 {
        0
    } else {
        spec_digits_val(s.drop_last()) * 10 + (s.last() - 48)
    }
}

/// End of the digit run starting at `pos`.
pub open spec fn spec_digit_run_end(bytes: Seq<u8>, pos: int) -> int
    decreases bytes.len() - pos,
{
    if 0 <= pos < bytes.len() && is_digit(bytes[pos]) {
        spec_digit_run_end(bytes, pos + 1)
    } else {
        pos
    }
}

/// What number parsing yields at `pos`: the value of the maximal digit run,
/// unless it is empty or exceeds `u64::MAX`.
pub open spec fn spec_parse_num(bytes: Seq<u8>, pos: int) -> Option<(u64, int)> {
    let end = spec_digit_run_end(bytes, pos);
    if end == pos {
        None
    } else if spec_digits_val(bytes.subrange(pos, end)) > u64::MAX {
        None
    } else {
        Some((spec_digits_val(bytes.subrange(pos, end)) as u64, end))
    }
}

proof fn lemma_dec_digits_are_digits(v: u64)
    ensures
        spec_dec_digits(v).len() >= 1,
        forall|i: int| 0 <= i < spec_dec_digits(v).len() ==> is_digit(#[trigger] spec_dec_digits(v)[i]),
    decreases v,
{
    if v >= 10 {
        lemma_dec_digits_are_digits(v / 10);
    }
}

proof fn lemma_dec_digits_val(v: u64)
    ensures
        spec_digits_val(spec_dec_digits(v)) == v,
    decreases v,
{
    reveal_with_fuel(spec_digits_val, 3);
    if v < 10 {
        assert(spec_dec_digits(v).drop_last() =~= Seq::<u8>::empty());
        assert(spec_digits_val(Seq::<u8>::empty()) == 0);
        assert(spec_dec_digits(v).last() == (48 + v) as u8);
    } else {
        lemma_dec_digits_val(v / 10);
        assert(spec_dec_digits(v).drop_last() =~= spec_dec_digits(v / 10));
        assert((v / 10) * 10 + v % 10 == v) by {
            vstd::arithmetic::div_mod::lemma_fundamental_div_mod(v as int, 10);
        }
    }
}

proof fn lemma_digit_run(bytes: Seq<u8>, pos: int, end: int)
    requires
        0 <= pos <= end <= bytes.len(),
        forall|i: int| pos <= i < end ==> is_digit(#[trigger] bytes[i]),
        end == bytes.len() || !is_digit(bytes[end]),
    ensures
        spec_digit_run_end(bytes, pos) == end,
    decreases end - pos,
{
    if pos < end {
        lemma_digit_run(bytes, pos + 1, end);
    }
}

/// Parsing the decimal spelling of `v` restores `v` and stops at the first
/// non-digit.
proof fn lemma_num_round_trip(v: u64, bytes: Seq<u8>, pos: int)
    requires
        0 <= pos,
        pos + spec_dec_digits(v).len() <= bytes.len(),
        bytes.subrange(pos, pos + spec_dec_digits(v).len()) == spec_dec_digits(v),
        pos + spec_dec_digits(v).len() == bytes.len() || !is_digit(
            bytes[pos + spec_dec_digits(v).len()],
        ),
    ensures
        spec_parse_num(bytes, pos) == Some((v, pos + spec_dec_digits(v).len())),
{
    let n = spec_dec_digits(v).len() as int;
    lemma_dec_digits_are_digits(v);
    assert forall|i: int| pos <= i < pos + n implies is_digit(#[trigger] bytes[i]) by {
        assert(bytes[i] == bytes.subrange(pos, pos + n)[i - pos]);
        assert(is_digit(spec_dec_digits(v)[i - pos]));
    }
    lemma_digit_run(bytes, pos, pos + n);
    assert(bytes.subrange(pos, pos + n) == spec_dec_digits(v));
    lemma_dec_digits_val(v);
}

/// Append the decimal spelling of `v` to `out`.
pub fn push_dec(out: &mut Vec<u8>, v: u64)
    ensures
        final(out)@ == old(out)@ + spec_dec_digits(v),
{
    let ghost orig = out@;
    let mut tmp: Vec<u8> = Vec::new();
    let mut x = v;
    if x == 0 {
        out.push(48);
        proof {
            assert(out@ =~= orig + spec_dec_digits(0));
        }
        return ;
    }
    while x > 0
        invariant
            x > 0 ==> spec_dec_digits(v) == spec_dec_digits(x) + tmp@.reverse(),
            x == 0 ==> spec_dec_digits(v) == tmp@.reverse(),
        decreases x,
    {
        let d = (48 + x % 10) as u8;
        proof {
            let t2 = tmp@.push(d);
            assert(t2.reverse() =~= seq![d] + tmp@.reverse());
            if x >= 10 {
                assert(spec_dec_digits(x) =~= spec_dec_digits(x / 10).push(d));
                assert(spec_dec_digits(x / 10).push(d) + tmp@.reverse() =~= spec_dec_digits(x / 10)
                    + t2.reverse());
            } else {
                assert(spec_dec_digits(x) =~= seq![d]);
                assert(seq![d] + tmp@.reverse() =~= t2.reverse());
            }
        }
        tmp.push(d);
        x = x / 10;
    }
    let n = tmp.len();
    let mut j: usize = 0;
    proof {
        assert(out@ =~= orig + spec_dec_digits(v).take(0));
    }
    while j < n
        invariant
            n == tmp@.len(),
            j <= n,
            spec_dec_digits(v) == tmp@.reverse(),
            out@ == orig + spec_dec_digits(v).take(j as int),
        decreases n - j,
    {
        out.push(tmp[n - 1 - j]);
        j = j + 1;
        proof {
            assert(tmp@[n as int - j as int] == spec_dec_digits(v)[j as int - 1]);
            assert(out@ =~= orig + spec_dec_digits(v).take(j as int));
        }
    }
    proof {
        assert(spec_dec_digits(v).take(tmp@.len() as int) =~= spec_dec_digits(v));
    }
}

/// Parse an unsigned decimal number at `pos`.
fn parse_num(bytes: &[u8], pos: usize) -> (r: Option<(u64, usize)>)
    requires
        pos <= bytes@.len(),
    ensures
        r matches Some(p) ==> spec_parse_num(bytes@, pos as int) == Some((p.0, p.1 as int))
            && pos < p.1 <= bytes@.len(),
        r is None ==> spec_parse_num(bytes@, pos as int) is None,
{
    let ghost end = spec_digit_run_end(bytes@, pos as int);
    let mut i = pos;
    let mut acc: u64 = 0;
    let mut overflow = false;
    while i < bytes.len() && 48 <= bytes[i] && bytes[i] <= 57
        invariant
            pos <= i <= bytes@.len(),
            forall|j: int| pos <= j < i ==> is_digit(#[trigger] bytes@[j]),
            spec_digit_run_end(bytes@, i as int) == spec_digit_run_end(bytes@, pos as int),
            !overflow ==> acc == spec_digits_val(bytes@.subrange(pos as int, i as int)),
            overflow ==> spec_digits_val(bytes@.subrange(pos as int, i as int)) > u64::MAX,
        decreases bytes@.len() - i,
    {
        let d = bytes[i] - 48;
        proof {
            assert(bytes@.subrange(pos as int, i as int + 1).drop_last() =~= bytes@.subrange(
                pos as int,
                i as int,
            ));
            assert(bytes@.subrange(pos as int, i as int + 1).last() == bytes@[i as int]);
        }
        if !overflow {
            if acc > (u64::MAX - d as u64) / 10 {
                proof {
                    let s1 = bytes@.subrange(pos as int, i as int + 1);
                    assert(spec_digits_val(s1) == acc * 10 + d);
                    assert(acc * 10 + d > u64::MAX) by (nonlinear_arith)
                        requires
                            acc > (u64::MAX - d as u64) / 10,
                            d < 10,
                    ;
                }
                overflow = true;
            } else {
                proof {
                    assert(acc * 10 + d <= u64::MAX) by (nonlinear_arith)
                        requires
                            acc <= (u64::MAX - d as u64) / 10,
                            d < 10,
                    ;
                }
                acc = acc * 10 + d as u64;
            }
        } else {
            proof {
                let s0 = bytes@.subrange(pos as int, i as int);
                let s1 = bytes@.subrange(pos as int, i as int + 1);
                assert(spec_digits_val(s1) == spec_digits_val(s0) * 10 + d);
                assert(spec_digits_val(s0) * 10 + d > u64::MAX) by (nonlinear_arith)
                    requires
                        spec_digits_val(s0) > u64::MAX,
                        d >= 0,
                ;
            }
        }
        i = i + 1;
    }
    proof {
        assert(spec_digit_run_end(bytes@, i as int) == i as int);
        assert(end == i as int);
    }
    if i == pos {
        return None;
    }
    if overflow {
        return None;
    }
    proof {
        assert(bytes@.subrange(pos as int, end) == bytes@.subrange(pos as int, i as int));
    }
    Some((acc, i))
}

/// How one byte of string content is written: quote and backslash are
/// escaped, control bytes become `\u00XX`, all else is carried raw.
pub open spec fn spec_escape_byte(b: u8) -> Seq<u8> {
    if b == 34 {
        seq![92u8, 34u8]
    } else if b == 92 {
        seq![92u8, 92u8]
    } else if b < 32 {
        seq![92u8, 117u8, 48u8, 48u8, hex_digit(b / 16), hex_digit(b % 16)]
    } else {
        seq![b]
    }
}

/// The escaped form of a byte string.
pub open spec fn spec_escape_bytes(s: Seq<u8>) -> Seq<u8>
    decreases s.len(),
{
    if s.len() == 0 {
        Seq::empty()
    } else {
        spec_escape_byte(s[0]) + spec_escape_bytes(s.drop_first())
    }
}

/// Escaping expands a byte to at most six.
pub proof fn lemma_escape_bytes_len(s: Seq<u8>)
    ensures
        spec_escape_bytes(s).len() <= 6 * s.len(),
    decreases s.len(),
{
    if s.len() > 0 {
        lemma_escape_bytes_len(s.drop_first());
    }
}

/// Ten to a small power.
pub open spec fn pow10(k: nat) -> int
    decreases k,
{
    if k == 0 {
        1
    } else {
        10 * pow10((k - 1) as nat)
    }
}

proof fn lemma_dec_digits_len_bound(v: u64, k: nat)
    requires
        k >= 1,
        v < pow10(k),
    ensures
        spec_dec_digits(v).len() <= k,
    decreases k,
{
    if v >= 10 {
        assert(pow10(k) == 10 * pow10((k - 1) as nat));
        assert(v / 10 < pow10((k - 1) as nat)) by (nonlinear_arith)
            requires
                v < 10 * pow10((k - 1) as nat),
                v >= 10,
        ;
        assert(pow10((k - 1) as nat) > 1) by (nonlinear_arith)
            requires
                v >= 10,
                v < 10 * pow10((k - 1) as nat),
        ;
        lemma_dec_digits_len_bound(v / 10, (k - 1) as nat);
    }
}

/// No u64 spells more than twenty decimal digits.
pub proof fn lemma_dec_digits_len(v: u64)
    ensures
        spec_dec_digits(v).len() <= 20,
{
    reveal_with_fuel(pow10, 21);
    assert(v < pow10(20));
    lemma_dec_digits_len_bound(v, 20);
}

/// A quoted string: quote, escaped content, quote.
pub open spec fn spec_quoted(s: Seq<u8>) -> Seq<u8> {
    seq![34u8] + spec_escape_bytes(s) + seq![34u8]
}

/// The value of the four hex digits starting at `pos`, or -1 if any is not
/// a hex digit.
pub open spec fn spec_hex4_val(bytes: Seq<u8>, pos: int) -> int {
    if hex_val(bytes[pos]) == -1 || hex_val(bytes[pos + 1]) == -1 || hex_val(bytes[pos + 2]) == -1
        || hex_val(bytes[pos + 3]) == -1 {
        -1
    } else {
        hex_val(bytes[pos]) * 4096 + hex_val(bytes[pos + 1]) * 256 + hex_val(bytes[pos + 2]) * 16
            + hex_val(bytes[pos + 3])
    }
}

/// The UTF-8 bytes a `\uXXXX` escape at `pos` (which holds the backslash)
/// stands for, and the length consumed: the whole basic plane directly, a
/// surrogate pair for anything above it, a lone surrogate malformed.
#[verifier::opaque]
pub open spec fn spec_unicode_escape(bytes: Seq<u8>, pos: int) -> Option<(Seq<u8>, int)> {
    if pos + 6 > bytes.len() {
        None
    } else {
        let v = spec_hex4_val(bytes, pos + 2);
        if v == -1 {
            None
        } else if 0xDC00 <= v < 0xE000 {
            None
        } else if 0xD800 <= v < 0xDC00 {
            if pos + 12 > bytes.len() {
                None
            } else if bytes[pos + 6] != 92 || bytes[pos + 7] != 117 {
                None
            } else {
                let w = spec_hex4_val(bytes, pos + 8);
                if 0xDC00 <= w < 0xE000 {
                    Some(
                        (
                            vstd::utf8::encode_scalar(
                                (0x10000 + (v - 0xD800) * 0x400 + (w - 0xDC00)) as u32,
                            ),
                            12,
                        ),
                    )
                } else {
                    None
                }
            }
        } else {
            Some((vstd::utf8::encode_scalar(v as u32), 6))
        }
    }
}

/// One escape sequence at `pos` (which holds a backslash): the UTF-8 bytes
/// it stands for and the length consumed.
pub open spec fn spec_escape_step(bytes: Seq<u8>, pos: int) -> Option<(Seq<u8>, int)> {
    if pos + 2 > bytes.len() {
        None
    } else {
        let e = bytes[pos + 1];
        if e == 34 {
            Some((seq![34u8], 2))
        } else if e == 92 {
            Some((seq![92u8], 2))
        } else if e == 47 {
            Some((seq![47u8], 2))
        } else if e == 98 {
            Some((seq![8u8], 2))
        } else if e == 102 {
            Some((seq![12u8], 2))
        } else if e == 110 {
            Some((seq![10u8], 2))
        } else if e == 114 {
            Some((seq![13u8], 2))
        } else if e == 116 {
            Some((seq![9u8], 2))
        } else if e == 117 {
            spec_unicode_escape(bytes, pos)
        } else {
            None
        }
    }
}

/// What string-body parsing yields from `pos` (after the opening quote): the
/// raw content bytes and the position after the closing quote.
pub open spec fn spec_str_body(bytes: Seq<u8>, pos: int) -> Option<(Seq<u8>, int)>
    decreases bytes.len() - pos,
        when 0 <= pos <= bytes.len()
{
    if !(0 <= pos < bytes.len()) {
        None
    } else if bytes[pos] == 34 {
        Some((Seq::empty(), pos + 1))
    } else if bytes[pos] == 92 {
        match spec_escape_step(bytes, pos) {
            None => None,
            Some((b, k)) => if k < 2 || pos + k > bytes.len() {
                None
            } else {
                match spec_str_body(bytes, pos + k) {
                    None => None,
                    Some((t, e)) => Some((b + t, e)),
                }
            },
        }
    } else {
        match spec_str_body(bytes, pos + 1) {
            None => None,
            Some((t, e)) => Some((seq![bytes[pos]] + t, e)),
        }
    }
}

/// What string parsing yields at `pos`: an opening quote, the body, the
/// closing quote.
pub open spec fn spec_parse_string(bytes: Seq<u8>, pos: int) -> Option<(Seq<u8>, int)> {
    if 0 <= pos < bytes.len() && bytes[pos] == 34 {
        spec_str_body(bytes, pos + 1)
    } else {
        None
    }
}

/// A quoted string parses back to exactly its content bytes.
proof fn lemma_str_round_trip(s: Seq<u8>, bytes: Seq<u8>, pos: int)
    requires
        0 <= pos,
        pos + spec_escape_bytes(s).len() + 1 <= bytes.len(),
        bytes.subrange(pos, pos + spec_escape_bytes(s).len() + 1) == spec_escape_bytes(s) + seq![
            34u8,
        ],
    ensures
        spec_str_body(bytes, pos) == Some((s, pos + spec_escape_bytes(s).len() + 1)),
    decreases s.len(),
{
    let es = spec_escape_bytes(s);
    if s.len() == 0 {
        assert(bytes[pos] == (es + seq![34u8])[0]);
        assert(bytes[pos] == 34);
    } else {
        let b = s[0];
        let eb = spec_escape_byte(b);
        let rest = s.drop_first();
        let erest = spec_escape_bytes(rest);
        assert(es == eb + erest);
        assert forall|i: int| 0 <= i < eb.len() implies bytes[pos + i] == eb[i] by {
            assert(bytes[pos + i] == (es + seq![34u8])[i]);
        }
        let npos = pos + eb.len();
        assert(bytes.subrange(npos, npos + erest.len() + 1) =~= erest + seq![34u8]) by {
            assert forall|i: int| 0 <= i < erest.len() + 1 implies bytes[npos + i] == (erest
                + seq![34u8])[i] by {
                assert(bytes[npos + i] == (es + seq![34u8])[eb.len() + i]);
            }
        }
        lemma_str_round_trip(rest, bytes, npos);
        if b == 34 {
            assert(bytes[pos + 0] == 92 && bytes[pos + 1] == 34);
            assert(bytes[pos] == 92);
            assert(spec_escape_step(bytes, pos) == Some((seq![34u8], 2int)));
            assert(seq![b] + rest =~= s);
        } else if b == 92 {
            assert(bytes[pos + 0] == 92 && bytes[pos + 1] == 92);
            assert(bytes[pos] == 92);
            assert(spec_escape_step(bytes, pos) == Some((seq![92u8], 2int)));
            assert(seq![b] + rest =~= s);
        } else if b < 32 {
            assert(bytes[pos + 0] == 92 && bytes[pos + 1] == 117);
            assert(bytes[pos] == 92);
            assert(bytes[pos + 2] == 48 && bytes[pos + 3] == 48);
            assert(bytes[pos + 4] == hex_digit(b / 16) && bytes[pos + 5] == hex_digit(b % 16));
            assert(b / 16 < 16 && b % 16 < 16 && (b / 16) * 16 + b % 16 == b) by {
                vstd::arithmetic::div_mod::lemma_fundamental_div_mod(b as int, 16);
            }
            assert(hex_val(48) == 0);
            assert(hex_val(hex_digit(b / 16)) == b / 16);
            assert(hex_val(hex_digit(b % 16)) == b % 16);
            assert(spec_hex4_val(bytes, pos + 2) == b);
            lemma_encode_scalar_ascii(b);
            assert(spec_unicode_escape(bytes, pos) == Some((seq![b], 6int))) by {
                reveal(spec_unicode_escape);
            }
            assert(spec_escape_step(bytes, pos) == Some((seq![b], 6int)));
            assert(seq![b] + rest =~= s);
        } else {
            assert(eb == seq![b]);
            assert(eb[0] == b);
            assert(bytes[pos + 0] == eb[0]);
            assert(bytes[pos] == b);
            assert(b != 34 && b != 92);
            assert(seq![b] + rest =~= s);
        }
    }
}

/// Append the quoted, escaped form of `content` to `out`.
pub fn push_quoted(out: &mut Vec<u8>, content: &[u8])
    ensures
        final(out)@ == old(out)@ + spec_quoted(content@),
{
    let ghost orig = out@;
    out.push(34);
    let mut i: usize = 0;
    proof {
        assert(out@ =~= orig + seq![34u8] + spec_escape_bytes(content@.take(0)));
    }
    while i < content.len()
        invariant
            i <= content@.len(),
            out@ == orig + seq![34u8] + spec_escape_bytes(content@.take(i as int)),
        decreases content@.len() - i,
    {
        let b = content[i];
        proof {
            lemma_escape_bytes_snoc(content@.take(i as int), b);
            assert(content@.take(i as int).push(b) =~= content@.take(i as int + 1));
        }
        if b == 34 {
            out.push(92);
            out.push(34);
        } else if b == 92 {
            out.push(92);
            out.push(92);
        } else if b < 32 {
            out.push(92);
            out.push(117);
            out.push(48);
            out.push(48);
            let hi = b / 16;
            let lo = b % 16;
            out.push(
                if hi < 10 {
                    48 + hi
                } else {
                    87 + hi
                },
            );
            out.push(
                if lo < 10 {
                    48 + lo
                } else {
                    87 + lo
                },
            );
        } else {
            out.push(b);
        }
        i = i + 1;
        proof {
            assert(out@ =~= orig + seq![34u8] + spec_escape_bytes(content@.take(i as int)));
        }
    }
    out.push(34);
    proof {
        assert(content@.take(content@.len() as int) =~= content@);
        assert(out@ =~= orig + spec_quoted(content@));
    }
}

proof fn lemma_escape_bytes_snoc(s: Seq<u8>, b: u8)
    ensures
        spec_escape_bytes(s.push(b)) == spec_escape_bytes(s) + spec_escape_byte(b),
    decreases s.len(),
{
    if s.len() == 0 {
        assert(s.push(b).drop_first() =~= Seq::<u8>::empty());
        assert(s.push(b)[0] == b);
        assert(spec_escape_bytes(s.push(b)) == spec_escape_byte(b) + spec_escape_bytes(
            Seq::<u8>::empty(),
        ));
        assert(spec_escape_bytes(Seq::<u8>::empty()) == Seq::<u8>::empty());
        assert(spec_escape_bytes(s.push(b)) =~= spec_escape_bytes(s) + spec_escape_byte(b));
    } else {
        assert(s.push(b).drop_first() =~= s.drop_first().push(b));
        assert(s.push(b)[0] == s[0]);
        lemma_escape_bytes_snoc(s.drop_first(), b);
        assert(spec_escape_bytes(s.push(b)) == spec_escape_byte(s[0]) + (spec_escape_bytes(
            s.drop_first(),
        ) + spec_escape_byte(b)));
        assert(spec_escape_bytes(s.push(b)) =~= spec_escape_bytes(s) + spec_escape_byte(b));
    }
}

/// The success cases of a basic-plane unicode escape.
proof fn lemma_unicode_escape_bmp(bytes: Seq<u8>, i: int)
    requires
        0 <= i,
        i + 6 <= bytes.len(),
        spec_hex4_val(bytes, i + 2) != -1,
        !(0xD800 <= spec_hex4_val(bytes, i + 2) < 0xE000),
    ensures
        spec_unicode_escape(bytes, i) == Some(
            (vstd::utf8::encode_scalar(spec_hex4_val(bytes, i + 2) as u32), 6int),
        ),
{
    reveal(spec_unicode_escape);
}

/// The success case of a surrogate-pair unicode escape.
proof fn lemma_unicode_escape_pair(bytes: Seq<u8>, i: int)
    requires
        0 <= i,
        i + 12 <= bytes.len(),
        0xD800 <= spec_hex4_val(bytes, i + 2) < 0xDC00,
        bytes[i + 6] == 92,
        bytes[i + 7] == 117,
        0xDC00 <= spec_hex4_val(bytes, i + 8) < 0xE000,
    ensures
        spec_unicode_escape(bytes, i) == Some(
            (
                vstd::utf8::encode_scalar(
                    (0x10000 + (spec_hex4_val(bytes, i + 2) - 0xD800) * 0x400 + (spec_hex4_val(
                        bytes,
                        i + 8,
                    ) - 0xDC00)) as u32,
                ),
                12int,
            ),
        ),
{
    reveal(spec_unicode_escape);
}

/// The failure cases of a unicode escape.
proof fn lemma_unicode_escape_none(bytes: Seq<u8>, i: int)
    requires
        0 <= i,
        (i + 6 > bytes.len()) || spec_hex4_val(bytes, i + 2) == -1 || (0xDC00 <= spec_hex4_val(
            bytes,
            i + 2,
        ) < 0xE000) || (0xD800 <= spec_hex4_val(bytes, i + 2) < 0xDC00 && (i + 12 > bytes.len()
            || bytes[i + 6] != 92 || bytes[i + 7] != 117 || !(0xDC00 <= spec_hex4_val(bytes, i + 8)
            < 0xE000))),
    ensures
        spec_unicode_escape(bytes, i) is None,
{
    reveal(spec_unicode_escape);
}

/// An ASCII value UTF-8-encodes to its own single byte.
proof fn lemma_encode_scalar_ascii(b: u8)
    requires
        b < 0x80,
    ensures
        vstd::utf8::encode_scalar(b as u32) == seq![b],
{
    let v = b as u32;
    assert(v & 0x7F == v) by (bit_vector)
        requires
            v < 0x80,
    ;
    assert(vstd::utf8::encode_scalar(b as u32) =~= seq![b]);
}

/// Append the UTF-8 encoding of a Unicode scalar.
fn push_scalar_utf8(out: &mut Vec<u8>, s: u32)
    requires
        s <= 0x10FFFF,
        !(0xD800 <= s <= 0xDFFF),
    ensures
        final(out)@ == old(out)@ + vstd::utf8::encode_scalar(s),
{
    let ghost orig = out@;
    if s < 0x80 {
        proof {
            assert(s & 0x7F == s) by (bit_vector)
                requires
                    s < 0x80,
            ;
        }
        out.push((s & 0x7F) as u8);
        proof {
            assert(out@ =~= orig + vstd::utf8::encode_scalar(s));
        }
    } else if s < 0x800 {
        out.push(0xC0u8 | (((s >> 6u32) & 0x1F) as u8));
        out.push(0x80u8 | ((s & 0x3F) as u8));
        proof {
            assert(out@ =~= orig + vstd::utf8::encode_scalar(s));
        }
    } else if s < 0x10000 {
        out.push(0xE0u8 | (((s >> 12u32) & 0x0F) as u8));
        out.push(0x80u8 | (((s >> 6u32) & 0x3F) as u8));
        out.push(0x80u8 | ((s & 0x3F) as u8));
        proof {
            assert(out@ =~= orig + vstd::utf8::encode_scalar(s));
        }
    } else {
        out.push(0xF0u8 | (((s >> 18u32) & 0x7) as u8));
        out.push(0x80u8 | (((s >> 12u32) & 0x3F) as u8));
        out.push(0x80u8 | (((s >> 6u32) & 0x3F) as u8));
        out.push(0x80u8 | ((s & 0x3F) as u8));
        proof {
            assert(out@ =~= orig + vstd::utf8::encode_scalar(s));
        }
    }
}

/// Parse a quoted string at `pos`; returns the raw content bytes and the
/// position after the closing quote.
#[verifier::rlimit(100)]
fn parse_string(bytes: &[u8], pos: usize) -> (r: Option<(Vec<u8>, usize)>)
    requires
        pos <= bytes@.len(),
    ensures
        r matches Some(p) ==> spec_parse_string(bytes@, pos as int) == Some((p.0@, p.1 as int))
            && pos < p.1 <= bytes@.len(),
        r is None ==> spec_parse_string(bytes@, pos as int) is None,
{
    if pos >= bytes.len() || bytes[pos] != 34 {
        return None;
    }
    let mut acc: Vec<u8> = Vec::new();
    let mut i = pos + 1;
    loop
        invariant
            pos < bytes@.len(),
            bytes@[pos as int] == 34,
            pos + 1 <= i <= bytes@.len(),
            spec_str_body(bytes@, pos as int + 1) == match spec_str_body(bytes@, i as int) {
                Some(te) => Some((acc@ + te.0, te.1)),
                None => None,
            },
        decreases bytes@.len() - i,
    {
        if i >= bytes.len() {
            return None;
        }
        let b = bytes[i];
        if b == 34 {
            proof {
                assert(acc@ + Seq::<u8>::empty() =~= acc@);
            }
            return Some((acc, i + 1));
        } else if b == 92 {
            if bytes.len() - i < 2 {
                proof {
                    assert(spec_escape_step(bytes@, i as int) is None);
                }
                return None;
            }
            let e = bytes[i + 1];
            if e == 117 {
                if bytes.len() - i < 6 {
                    proof {
                        lemma_unicode_escape_none(bytes@, i as int);
                    }
                    return None;
                }
                let h1 = hex_val_exec(bytes[i + 2]);
                let h2 = hex_val_exec(bytes[i + 3]);
                let h3 = hex_val_exec(bytes[i + 4]);
                let h4 = hex_val_exec(bytes[i + 5]);
                if h1 < 0 || h2 < 0 || h3 < 0 || h4 < 0 {
                    proof {
                        lemma_unicode_escape_none(bytes@, i as int);
                    }
                    return None;
                }
                let v = h1 * 4096 + h2 * 256 + h3 * 16 + h4;
                if 0xDC00 <= v && v < 0xE000 {
                    proof {
                        lemma_unicode_escape_none(bytes@, i as int);
                    }
                    return None;
                }
                let scalar: u32;
                let consumed: usize;
                if 0xD800 <= v && v < 0xDC00 {
                    if bytes.len() - i < 12 {
                        proof {
                            lemma_unicode_escape_none(bytes@, i as int);
                        }
                        return None;
                    }
                    if bytes[i + 6] != 92 || bytes[i + 7] != 117 {
                        proof {
                            lemma_unicode_escape_none(bytes@, i as int);
                        }
                        return None;
                    }
                    let h5 = hex_val_exec(bytes[i + 8]);
                    let h6 = hex_val_exec(bytes[i + 9]);
                    let h7 = hex_val_exec(bytes[i + 10]);
                    let h8 = hex_val_exec(bytes[i + 11]);
                    if h5 < 0 || h6 < 0 || h7 < 0 || h8 < 0 {
                        proof {
                            lemma_unicode_escape_none(bytes@, i as int);
                        }
                        return None;
                    }
                    let w = h5 * 4096 + h6 * 256 + h7 * 16 + h8;
                    if !(0xDC00 <= w && w < 0xE000) {
                        proof {
                            lemma_unicode_escape_none(bytes@, i as int);
                        }
                        return None;
                    }
                    scalar = 0x10000u32 + (v as u32 - 0xD800) * 0x400 + (w as u32 - 0xDC00);
                    consumed = 12;
                    proof {
                        lemma_unicode_escape_pair(bytes@, i as int);
                    }
                } else {
                    scalar = v as u32;
                    consumed = 6;
                    proof {
                        lemma_unicode_escape_bmp(bytes@, i as int);
                    }
                }
                proof {
                    assert(spec_escape_step(bytes@, i as int) == Some(
                        (vstd::utf8::encode_scalar(scalar), consumed as int),
                    ));
                    if let Some((t, en)) = spec_str_body(bytes@, i as int + consumed as int) {
                        assert(acc@ + (vstd::utf8::encode_scalar(scalar) + t) =~= (acc@
                            + vstd::utf8::encode_scalar(scalar)) + t);
                    }
                }
                push_scalar_utf8(&mut acc, scalar);
                i = i + consumed;
            } else {
                let decoded: u8;
                if e == 34 {
                    decoded = 34;
                } else if e == 92 {
                    decoded = 92;
                } else if e == 47 {
                    decoded = 47;
                } else if e == 98 {
                    decoded = 8;
                } else if e == 102 {
                    decoded = 12;
                } else if e == 110 {
                    decoded = 10;
                } else if e == 114 {
                    decoded = 13;
                } else if e == 116 {
                    decoded = 9;
                } else {
                    return None;
                }
                proof {
                    assert(spec_escape_step(bytes@, i as int) == Some((seq![decoded], 2int)));
                    if let Some((t, en)) = spec_str_body(bytes@, i as int + 2) {
                        assert(acc@ + (seq![decoded] + t) =~= acc@.push(decoded) + t);
                    }
                }
                acc.push(decoded);
                i = i + 2;
            }
        } else {
            proof {
                if let Some((t, en)) = spec_str_body(bytes@, i as int + 1) {
                    assert(acc@ + (seq![b] + t) =~= acc@.push(b) + t);
                }
            }
            acc.push(b);
            i = i + 1;
        }
    }
}

/// A value of the record subset: a string (as raw content bytes), an
/// unsigned number, or null.
pub enum JsonValue {
    Str(Vec<u8>),
    Num(u64),
    Null,
}

/// The spec-level shadow of `JsonValue`.
pub enum SpecJsonValue {
    Str(Seq<u8>),
    Num(u64),
    Null,
}

/// The spec-level view of a parsed value.
pub open spec fn jv_view(v: JsonValue) -> SpecJsonValue {
    match v {
        JsonValue::Str(b) => SpecJsonValue::Str(b@),
        JsonValue::Num(n) => SpecJsonValue::Num(n),
        JsonValue::Null => SpecJsonValue::Null,
    }
}

/// The spec-level view of a parsed member list.
pub open spec fn members_view(s: Seq<(Vec<u8>, JsonValue)>) -> Seq<(Seq<u8>, SpecJsonValue)> {
    Seq::new(s.len(), |i: int| (s[i].0@, jv_view(s[i].1)))
}

/// How a value is written.
pub open spec fn spec_value_bytes(v: SpecJsonValue) -> Seq<u8> {
    match v {
        SpecJsonValue::Str(b) => spec_quoted(b),
        SpecJsonValue::Num(n) => spec_dec_digits(n),
        SpecJsonValue::Null => seq![110u8, 117u8, 108u8, 108u8],
    }
}

/// How one member is written: quoted key, colon, value.
pub open spec fn spec_member_bytes(k: Seq<u8>, v: SpecJsonValue) -> Seq<u8> {
    spec_quoted(k) + seq![58u8] + spec_value_bytes(v)
}

/// The members of a record joined by commas and closed by a brace; the
/// opening brace is the record's.
pub open spec fn spec_members_bytes(members: Seq<(Seq<u8>, SpecJsonValue)>) -> Seq<u8>
    decreases members.len(),
{
    if members.len() == 0 {
        seq![125u8]
    } else {
        spec_member_bytes(members[0].0, members[0].1) + (if members.len() == 1 {
            seq![125u8]
        } else {
            seq![44u8] + spec_members_bytes(members.drop_first())
        })
    }
}

/// A whole record: opening brace, members, closing brace.
pub open spec fn spec_record_bytes(members: Seq<(Seq<u8>, SpecJsonValue)>) -> Seq<u8> {
    seq![123u8] + spec_members_bytes(members)
}

/// What value parsing yields at `pos`.
pub open spec fn spec_parse_value(bytes: Seq<u8>, pos: int) -> Option<(SpecJsonValue, int)> {
    if !(0 <= pos < bytes.len()) {
        None
    } else if bytes[pos] == 34 {
        match spec_parse_string(bytes, pos) {
            None => None,
            Some((b, e)) => Some((SpecJsonValue::Str(b), e)),
        }
    } else if is_digit(bytes[pos]) {
        match spec_parse_num(bytes, pos) {
            None => None,
            Some((n, e)) => Some((SpecJsonValue::Num(n), e)),
        }
    } else if bytes[pos] == 110 {
        if pos + 4 <= bytes.len() && bytes[pos + 1] == 117 && bytes[pos + 2] == 108 && bytes[pos
            + 3] == 108 {
            Some((SpecJsonValue::Null, pos + 4))
        } else {
            None
        }
    } else {
        None
    }
}

/// What member-list parsing yields at `pos` (just after the opening brace):
/// one or more members, then the closing brace.
pub open spec fn spec_parse_members(bytes: Seq<u8>, pos: int) -> Option<
    (Seq<(Seq<u8>, SpecJsonValue)>, int),
>
    decreases bytes.len() - pos,
        when 0 <= pos <= bytes.len()
{
    match spec_parse_string(bytes, pos) {
        None => None,
        Some((k, p1)) => if !(p1 < bytes.len() && bytes[p1] == 58) {
            None
        } else {
            match spec_parse_value(bytes, p1 + 1) {
                None => None,
                Some((v, p2)) => if !(0 <= p2 < bytes.len()) {
                    None
                } else if bytes[p2] == 125 {
                    Some((seq![(k, v)], p2 + 1))
                } else if bytes[p2] == 44 {
                    if p2 + 1 <= pos {
                        None
                    } else {
                        match spec_parse_members(bytes, p2 + 1) {
                            None => None,
                            Some((rest, e)) => Some((seq![(k, v)] + rest, e)),
                        }
                    }
                } else {
                    None
                },
            }
        },
    }
}

/// What record parsing yields: an opening brace, then the members.
pub open spec fn spec_parse_record(bytes: Seq<u8>) -> Option<(Seq<(Seq<u8>, SpecJsonValue)>, int)> {
    if bytes.len() > 0 && bytes[0] == 123 {
        spec_parse_members(bytes, 1)
    } else {
        None
    }
}

/// Split a known concatenation: if `bytes` holds `a + b` at `pos`, it holds
/// `a` at `pos` and `b` right after.
proof fn lemma_split_at(bytes: Seq<u8>, pos: int, a: Seq<u8>, b: Seq<u8>)
    requires
        0 <= pos,
        pos + a.len() + b.len() <= bytes.len(),
        bytes.subrange(pos, pos + a.len() + b.len()) == a + b,
    ensures
        bytes.subrange(pos, pos + a.len()) == a,
        bytes.subrange(pos + a.len(), pos + a.len() + b.len()) == b,
{
    let whole = bytes.subrange(pos, pos + a.len() + b.len());
    assert forall|i: int| 0 <= i < a.len() implies bytes[pos + i] == a[i] by {
        assert(whole[i] == (a + b)[i]);
    }
    assert forall|i: int| 0 <= i < b.len() implies bytes[pos + a.len() + i] == b[i] by {
        assert(whole[a.len() + i] == (a + b)[a.len() + i]);
    }
    assert(bytes.subrange(pos, pos + a.len()) =~= a);
    assert(bytes.subrange(pos + a.len(), pos + a.len() + b.len()) =~= b);
}

/// A quoted string at `pos` parses back to its content.
proof fn lemma_quoted_round_trip(s: Seq<u8>, bytes: Seq<u8>, pos: int)
    requires
        0 <= pos,
        pos + spec_quoted(s).len() <= bytes.len(),
        bytes.subrange(pos, pos + spec_quoted(s).len()) == spec_quoted(s),
    ensures
        spec_parse_string(bytes, pos) == Some((s, pos + spec_quoted(s).len())),
{
    assert(bytes.subrange(pos, pos + 1 + (spec_escape_bytes(s) + seq![34u8]).len()) =~= seq![34u8]
        + (spec_escape_bytes(s) + seq![34u8]));
    lemma_split_at(bytes, pos, seq![34u8], spec_escape_bytes(s) + seq![34u8]);
    assert(bytes.subrange(pos, pos + 1)[0] == bytes[pos]);
    assert(bytes[pos] == 34);
    lemma_str_round_trip(s, bytes, pos + 1);
}

/// A canonically written member list parses back to exactly its members.
#[verifier::rlimit(100)]
proof fn lemma_members_round_trip(
    members: Seq<(Seq<u8>, SpecJsonValue)>,
    bytes: Seq<u8>,
    pos: int,
)
    requires
        members.len() >= 1,
        0 <= pos,
        pos + spec_members_bytes(members).len() <= bytes.len(),
        bytes.subrange(pos, pos + spec_members_bytes(members).len()) == spec_members_bytes(
            members,
        ),
    ensures
        spec_parse_members(bytes, pos) == Some(
            (members, pos + spec_members_bytes(members).len()),
        ),
    decreases members.len(),
{
    let k = members[0].0;
    let v = members[0].1;
    let mb = spec_member_bytes(k, v);
    let tail = if members.len() == 1 {
        seq![125u8]
    } else {
        seq![44u8] + spec_members_bytes(members.drop_first())
    };
    assert(spec_members_bytes(members) == mb + tail);
    lemma_split_at(bytes, pos, mb, tail);
    let qk = spec_quoted(k);
    let vb = spec_value_bytes(v);
    assert(mb == qk + (seq![58u8] + vb));
    assert(mb + tail =~= qk + ((seq![58u8] + vb) + tail));
    lemma_split_at(bytes, pos, qk, (seq![58u8] + vb) + tail);
    lemma_quoted_round_trip(k, bytes, pos);
    let p1 = pos + qk.len();
    assert(bytes.subrange(p1, p1 + ((seq![58u8] + vb) + tail).len()) =~= seq![58u8] + (vb
        + tail));
    lemma_split_at(bytes, p1, seq![58u8], vb + tail);
    assert(bytes.subrange(p1, p1 + 1)[0] == bytes[p1]);
    assert(bytes[p1] == 58);
    let p2 = p1 + 1;
    lemma_split_at(bytes, p2, vb, tail);
    // the value parses back
    match v {
        SpecJsonValue::Str(b) => {
            lemma_quoted_round_trip(b, bytes, p2);
            assert(bytes.subrange(p2, p2 + vb.len())[0] == bytes[p2]);
            assert(bytes[p2] == 34);
            assert(spec_parse_value(bytes, p2) == Some((v, p2 + vb.len())));
        },
        SpecJsonValue::Num(n) => {
            assert(bytes.subrange(p2, p2 + vb.len())[0] == bytes[p2]);
            lemma_dec_digits_are_digits(n);
            assert(bytes[p2] == spec_dec_digits(n)[0]);
            assert(is_digit(bytes[p2]));
            assert(bytes[p2] != 34);
            let after = p2 + vb.len();
            assert(bytes.subrange(after, after + tail.len())[0] == bytes[after]);
            assert(bytes[after] == tail[0]);
            assert(tail[0] == 125 || tail[0] == 44);
            assert(!is_digit(bytes[after]));
            lemma_num_round_trip(n, bytes, p2);
            assert(spec_parse_value(bytes, p2) == Some((v, p2 + vb.len())));
        },
        SpecJsonValue::Null => {
            assert(bytes.subrange(p2, p2 + 4)[0] == bytes[p2 + 0]);
            assert(bytes.subrange(p2, p2 + 4)[1] == bytes[p2 + 1]);
            assert(bytes.subrange(p2, p2 + 4)[2] == bytes[p2 + 2]);
            assert(bytes.subrange(p2, p2 + 4)[3] == bytes[p2 + 3]);
            assert(bytes[p2 + 0] == 110 && bytes[p2 + 1] == 117 && bytes[p2 + 2] == 108 && bytes[p2
                + 3] == 108);
            assert(bytes[p2] == 110);
            assert(bytes[p2] != 34 && !is_digit(bytes[p2]));
            assert(spec_parse_value(bytes, p2) == Some((v, p2 + vb.len())));
        },
    }
    let p3 = p2 + vb.len();
    assert(bytes.subrange(p3, p3 + tail.len())[0] == bytes[p3]);
    if members.len() == 1 {
        assert(bytes[p3] == 125);
        assert(seq![(k, v)] =~= members);
    } else {
        assert(bytes[p3] == 44);
        let rest = members.drop_first();
        lemma_split_at(bytes, p3, seq![44u8], spec_members_bytes(rest));
        lemma_members_round_trip(rest, bytes, p3 + 1);
        assert(seq![(k, v)] + rest =~= members);
    }
}

/// A canonically written record parses back to exactly its members.
pub proof fn lemma_record_round_trip(members: Seq<(Seq<u8>, SpecJsonValue)>, bytes: Seq<u8>)
    requires
        members.len() >= 1,
        bytes == spec_record_bytes(members),
    ensures
        spec_parse_record(bytes) == Some((members, bytes.len() as int)),
{
    assert(bytes[0] == 123);
    assert(bytes.subrange(0int, 1 + spec_members_bytes(members).len() as int) =~= seq![123u8]
        + spec_members_bytes(members));
    lemma_split_at(bytes, 0, seq![123u8], spec_members_bytes(members));
    lemma_members_round_trip(members, bytes, 1);
}

/// Parse one value at `pos`.
fn parse_value(bytes: &[u8], pos: usize) -> (r: Option<(JsonValue, usize)>)
    requires
        pos <= bytes@.len(),
    ensures
        r matches Some(p) ==> spec_parse_value(bytes@, pos as int) == Some(
            (jv_view(p.0), p.1 as int),
        ) && pos < p.1 <= bytes@.len(),
        r is None ==> spec_parse_value(bytes@, pos as int) is None,
{
    if pos >= bytes.len() {
        return None;
    }
    let b = bytes[pos];
    if b == 34 {
        match parse_string(bytes, pos) {
            Some((content, np)) => Some((JsonValue::Str(content), np)),
            None => None,
        }
    } else if 48 <= b && b <= 57 {
        match parse_num(bytes, pos) {
            Some((n, np)) => Some((JsonValue::Num(n), np)),
            None => None,
        }
    } else if b == 110 {
        if bytes.len() - pos >= 4 && bytes[pos + 1] == 117 && bytes[pos + 2] == 108 && bytes[pos
            + 3] == 108 {
            Some((JsonValue::Null, pos + 4))
        } else {
            None
        }
    } else {
        None
    }
}

/// Parse a whole record: brace, members in any order, closing brace.
/// Returns the members and the position after the closing brace.
pub fn parse_record(bytes: &[u8]) -> (r: Option<(Vec<(Vec<u8>, JsonValue)>, usize)>)
    ensures
        r matches Some(p) ==> spec_parse_record(bytes@) == Some(
            (members_view(p.0@), p.1 as int),
        ) && p.1 <= bytes@.len(),
        r is None ==> spec_parse_record(bytes@) is None,
{
    if bytes.len() == 0 || bytes[0] != 123 {
        return None;
    }
    let mut acc: Vec<(Vec<u8>, JsonValue)> = Vec::new();
    let mut i: usize = 1;
    loop
        invariant
            bytes@.len() > 0,
            bytes@[0] == 123,
            1 <= i <= bytes@.len(),
            spec_parse_members(bytes@, 1) == match spec_parse_members(bytes@, i as int) {
                Some(re) => Some((members_view(acc@) + re.0, re.1)),
                None => None,
            },
        decreases bytes@.len() - i,
    {
        let (key, p1) = match parse_string(bytes, i) {
            Some(kp) => kp,
            None => {
                return None;
            },
        };
        if p1 >= bytes.len() || bytes[p1] != 58 {
            return None;
        }
        let (val, p2) = match parse_value(bytes, p1 + 1) {
            Some(vp) => vp,
            None => {
                return None;
            },
        };
        if p2 >= bytes.len() {
            return None;
        }
        let ghost old_acc = acc@;
        let end_byte = bytes[p2];
        acc.push((key, val));
        proof {
            assert(members_view(acc@) =~= members_view(old_acc).push(
                (acc@[acc@.len() - 1].0@, jv_view(acc@[acc@.len() - 1].1)),
            ));
        }
        if end_byte == 125 {
            proof {
                let ghost kv = (acc@[acc@.len() - 1].0@, jv_view(acc@[acc@.len() - 1].1));
                assert(spec_parse_members(bytes@, i as int) == Some(
                    (seq![kv], p2 as int + 1),
                ));
                assert(members_view(old_acc) + seq![kv] =~= members_view(acc@));
            }
            return Some((acc, p2 + 1));
        } else if end_byte == 44 {
            proof {
                let ghost kv = (acc@[acc@.len() - 1].0@, jv_view(acc@[acc@.len() - 1].1));
                if let Some((rest, e)) = spec_parse_members(bytes@, p2 as int + 1) {
                    assert(members_view(old_acc) + (seq![kv] + rest) =~= members_view(acc@)
                        + rest);
                }
            }
            i = p2 + 1;
        } else {
            return None;
        }
    }
}

/// Compare two byte strings.
pub(crate) fn bytes_eq(a: &[u8], b: &[u8]) -> (r: bool)
    ensures
        r == (a@ == b@),
{
    if a.len() != b.len() {
        proof {
            assert(a@ != b@);
        }
        return false;
    }
    let mut i: usize = 0;
    while i < a.len()
        invariant
            i <= a@.len(),
            a@.len() == b@.len(),
            forall|j: int| 0 <= j < i ==> a@[j] == b@[j],
        decreases a@.len() - i,
    {
        if a[i] != b[i] {
            proof {
                assert(a@[i as int] != b@[i as int]);
            }
            return false;
        }
        i = i + 1;
    }
    proof {
        assert(a@ =~= b@);
    }
    true
}

/// The value of an ASCII hex digit, or -1.
fn hex_val_exec(b: u8) -> (r: i32)
    ensures
        r as int == hex_val(b),
{
    if 48 <= b && b <= 57 {
        b as i32 - 48
    } else if 97 <= b && b <= 102 {
        b as i32 - 87
    } else if 65 <= b && b <= 70 {
        b as i32 - 55
    } else {
        -1
    }
}

} // verus!

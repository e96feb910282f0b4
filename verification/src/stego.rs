//! Steganographic codec over zero-width Unicode characters.
//!
//! Binary data is expressed in an alphabet of five zero-width codepoints and
//! interleaved through a visible cover string: every codepoint outside the
//! alphabet is carrier text and survives unchanged.
//!
//! A byte becomes eight bit characters (most significant bit first) followed
//! by one separator; the whole hidden blob is `START`, the encoded bytes, and
//! `END`. Byte decoding demands a pure hidden region: a codepoint outside
//! the alphabet between the markers of its input is a `Decoding` error.

use vstd::prelude::*;

use crate::error::WaterscapeError;
use crate::text::chars_of_str;
use crate::text::string_of_chars;

verus! {

/// Zero-width space: bit 0.
pub const ZERO: char = '\u{200B}';

/// Zero-width non-joiner: bit 1.
pub const ONE: char = '\u{200C}';

/// Zero-width joiner: byte terminator.
pub const SEP: char = '\u{200D}';

/// Word joiner: begins the hidden region.
pub const START: char = '\u{2060}';

/// Zero-width no-break space: ends the hidden region.
pub const END: char = '\u{FEFF}';

/// The five codepoints reserved by the codec.
pub open spec fn is_alphabet_char(c: char) -> bool {
    c == ZERO || c == ONE || c == SEP || c == START || c == END
}

/// Characters that may appear between the markers of a well-formed blob.
pub open spec fn is_bit_char(c: char) -> bool {
    c == ZERO || c == ONE || c == SEP
}

/// A cover is clean when it holds none of the reserved codepoints; hiding in
/// an unclean cover corrupts extraction and is the caller's to avoid.
pub open spec fn clean_cover(s: Seq<char>) -> bool {
    forall|i: int| 0 <= i < s.len() ==> !is_alphabet_char(#[trigger] s[i])
}

/// The character carrying bit `i` (0 = most significant) of byte `b`.
pub open spec fn spec_bit_char(b: u8, i: int) -> char {
    if (b >> ((7 - i) as u8)) & 1u8 == 1u8 {
        ONE
    } else {
        ZERO
    }
}

/// A byte encoded as eight bit characters, most significant first, then `SEP`.
pub open spec fn spec_encode_byte(b: u8) -> Seq<char> {
    Seq::new(8, |i: int| spec_bit_char(b, i)).push(SEP)
}

/// The bit value a character stands for.
pub open spec fn spec_bit_val(c: char) -> u8 {
    if c == ONE {
        1u8
    } else {
        0u8
    }
}

/// The byte spelled by eight bit characters, most significant first.
pub open spec fn spec_byte_of_bits(bits: Seq<char>) -> u8 {
    (spec_bit_val(bits[0]) * 128 + spec_bit_val(bits[1]) * 64 + spec_bit_val(bits[2]) * 32
        + spec_bit_val(bits[3]) * 16 + spec_bit_val(bits[4]) * 8 + spec_bit_val(bits[5]) * 4
        + spec_bit_val(bits[6]) * 2 + spec_bit_val(bits[7])) as u8
}

/// The bit characters of a byte string, in order.
pub open spec fn spec_bits_of(data: Seq<u8>) -> Seq<char>
    decreases data.len(),
{
    if data.len() == 0 {
        Seq::empty()
    } else {
        spec_encode_byte(data[0]) + spec_bits_of(data.drop_first())
    }
}

/// The full hidden blob: `START`, the encoded bytes, `END`.
pub open spec fn spec_encode_data(data: Seq<u8>) -> Seq<char> {
    seq![START] + spec_bits_of(data) + seq![END]
}

/// Index of the first occurrence of `c` in `s`, or -1 when absent.
pub open spec fn first_index_of(s: Seq<char>, c: char) -> int
    decreases s.len(),
{
    if s.len() == 0 {
        -1
    } else if s[0] == c {
        0
    } else if first_index_of(s.drop_first(), c) == -1 {
        -1
    } else {
        first_index_of(s.drop_first(), c) + 1
    }
}

/// The byte-decoding state machine: buffer consecutive bit characters; on a
/// separator, emit one byte when exactly eight bits are buffered, else drop
/// the partial buffer.
pub open spec fn spec_fsm(bits: Seq<char>, buf: Seq<char>, out: Seq<u8>) -> Seq<u8>
    decreases bits.len(),
{
    if bits.len() == 0 {
        out
    } else if bits[0] == SEP {
        if buf.len() == 8 {
            spec_fsm(bits.drop_first(), Seq::empty(), out.push(spec_byte_of_bits(buf)))
        } else {
            spec_fsm(bits.drop_first(), Seq::empty(), out)
        }
    } else {
        spec_fsm(bits.drop_first(), buf.push(bits[0]), out)
    }
}

/// Both markers present, the first `START` before the first `END`.
pub open spec fn spec_markers_ok(s: Seq<char>) -> bool {
    s.contains(START) && s.contains(END) && first_index_of(s, START) < first_index_of(s, END)
}

/// Every codepoint strictly between the first `START` and the first `END`
/// belongs to the alphabet.
pub open spec fn spec_region_clean(s: Seq<char>) -> bool {
    forall|j: int|
        first_index_of(s, START) < j < first_index_of(s, END) ==> is_alphabet_char(
            #[trigger] s[j],
        )
}

/// What byte decoding yields on a character string with well-placed markers
/// and a clean hidden region: `None` stands for the absent or inverted
/// markers, i.e. `NoHiddenMessage`.
pub open spec fn spec_decode_data(s: Seq<char>) -> Option<Seq<u8>> {
    if !spec_markers_ok(s) {
        None
    } else {
        Some(
            spec_fsm(
                bit_filter(s.subrange(first_index_of(s, START) + 1, first_index_of(s, END))),
                Seq::empty(),
                Seq::empty(),
            ),
        )
    }
}

/// What extraction yields on carrier text: the alphabet characters are
/// collected in order and byte decoding runs between the markers.
pub open spec fn spec_extract(text: Seq<char>) -> Option<Seq<u8>> {
    spec_decode_data(alphabet_filter(text))
}

/// The alphabet characters of `s`, in order.
pub open spec fn alphabet_filter(s: Seq<char>) -> Seq<char> {
    s.filter(|c: char| is_alphabet_char(c))
}

/// The characters of `s` outside the alphabet, in order: the visible text.
pub open spec fn visible_filter(s: Seq<char>) -> Seq<char> {
    s.filter(|c: char| !is_alphabet_char(c))
}

/// The bit characters of `s`, in order.
pub open spec fn bit_filter(s: Seq<char>) -> Seq<char> {
    s.filter(|c: char| is_bit_char(c))
}

proof fn lemma_alphabet_filter_push(s: Seq<char>, x: char)
    ensures
        alphabet_filter(s.push(x)) == if is_alphabet_char(x) {
            alphabet_filter(s).push(x)
        } else {
            alphabet_filter(s)
        },
{
    reveal(Seq::filter);
    assert(s.push(x).drop_last() =~= s);
}

proof fn lemma_visible_filter_push(s: Seq<char>, x: char)
    ensures
        visible_filter(s.push(x)) == if !is_alphabet_char(x) {
            visible_filter(s).push(x)
        } else {
            visible_filter(s)
        },
{
    reveal(Seq::filter);
    assert(s.push(x).drop_last() =~= s);
}

proof fn lemma_bit_filter_push(s: Seq<char>, x: char)
    ensures
        bit_filter(s.push(x)) == if is_bit_char(x) {
            bit_filter(s).push(x)
        } else {
            bit_filter(s)
        },
{
    reveal(Seq::filter);
    assert(s.push(x).drop_last() =~= s);
}

proof fn lemma_filter_empty()
    ensures
        alphabet_filter(Seq::empty()) == Seq::<char>::empty(),
        visible_filter(Seq::empty()) == Seq::<char>::empty(),
        bit_filter(Seq::empty()) == Seq::<char>::empty(),
{
    reveal(Seq::filter);
}

/// Index lemma: a first hit at `k` pins `first_index_of`.
proof fn lemma_first_index(s: Seq<char>, c: char, k: int)
    requires
        0 <= k < s.len(),
        s[k] == c,
        forall|j: int| 0 <= j < k ==> s[j] != c,
    ensures
        first_index_of(s, c) == k,
        s.contains(c),
    decreases k,
{
    if k == 0 {
    } else {
        assert(s.drop_first()[k - 1] == c);
        assert(forall|j: int| 0 <= j < k - 1 ==> s.drop_first()[j] != c);
        lemma_first_index(s.drop_first(), c, k - 1);
    }
}

/// Index lemma: no hit anywhere means `first_index_of` is -1.
proof fn lemma_first_index_none(s: Seq<char>, c: char)
    requires
        forall|j: int| 0 <= j < s.len() ==> s[j] != c,
    ensures
        first_index_of(s, c) == -1,
        !s.contains(c),
    decreases s.len(),
{
    if s.len() > 0 {
        assert(forall|j: int| 0 <= j < s.drop_first().len() ==> s.drop_first()[j] != c);
        lemma_first_index_none(s.drop_first(), c);
    }
}

/// Whether `c` is one of the five reserved codepoints.
fn is_alphabet(c: char) -> (r: bool)
    ensures
        r == is_alphabet_char(c),
{
    c == ZERO || c == ONE || c == SEP || c == START || c == END
}

/// Index of the first occurrence of `c`, if any.
fn find_first_char(chars: &Vec<char>, c: char) -> (r: Option<usize>)
    ensures
        r matches Some(k) ==> k < chars@.len() && first_index_of(chars@, c) == k as int
            && chars@.contains(c),
        r is None ==> first_index_of(chars@, c) == -1 && !chars@.contains(c),
{
    let mut i: usize = 0;
    while i < chars.len()
        invariant
            i <= chars@.len(),
            forall|j: int| 0 <= j < i ==> chars@[j] != c,
        decreases chars@.len() - i,
    {
        if chars[i] == c {
            proof {
                lemma_first_index(chars@, c, i as int);
            }
            return Some(i);
        }
        i = i + 1;
    }
    proof {
        lemma_first_index_none(chars@, c);
    }
    None
}

/// Encode one byte as eight bit characters (most significant first) and a
/// separator.
pub fn encode_byte(byte: u8) -> (r: String)
    ensures
        r@ == spec_encode_byte(byte),
{
    let mut chars: Vec<char> = Vec::new();
    push_byte_bits(&mut chars, byte);
    string_of_chars(&chars)
}

/// Append the nine characters encoding `byte` to `chars`.
fn push_byte_bits(chars: &mut Vec<char>, byte: u8)
    ensures
        final(chars)@ == old(chars)@ + spec_encode_byte(byte),
{
    let ghost orig = chars@;
    let mut i: usize = 0;
    while i < 8
        invariant
            i <= 8,
            chars@ == orig + Seq::new(i as nat, |j: int| spec_bit_char(byte, j)),
        decreases 8 - i,
    {
        let shift: u8 = (7 - i) as u8;
        if (byte >> shift) & 1u8 == 1u8 {
            chars.push(ONE);
        } else {
            chars.push(ZERO);
        }
        i = i + 1;
        proof {
            assert(chars@ =~= orig + Seq::new(i as nat, |j: int| spec_bit_char(byte, j)));
        }
    }
    chars.push(SEP);
    proof {
        assert(chars@ =~= orig + spec_encode_byte(byte));
    }
}

/// Decode eight bit characters back into the byte they spell.
pub fn decode_byte(chars: &[char]) -> (r: Result<u8, WaterscapeError>)
    ensures
        chars@.len() >= 8 && (forall|i: int|
            0 <= i < 8 ==> chars@[i] == ZERO || chars@[i] == ONE) ==> r == Ok::<
            u8,
            WaterscapeError,
        >(spec_byte_of_bits(chars@.take(8))),
        chars@.len() < 8 ==> (r matches Err(e) && e matches WaterscapeError::Decoding(_)),
        chars@.len() >= 8 && (exists|i: int|
            0 <= i < 8 && chars@[i] != ZERO && chars@[i] != ONE) ==> (r matches Err(e)
            && e matches WaterscapeError::Decoding(_)),
{
    if chars.len() < 8 {
        return Err(WaterscapeError::Decoding("Not enough bits for a byte".to_string()));
    }
    let mut byte: u8 = 0;
    let mut i: usize = 0;
    while i < 8
        invariant
            i <= 8,
            chars@.len() >= 8,
            forall|j: int| 0 <= j < i ==> chars@[j] == ZERO || chars@[j] == ONE,
            byte == spec_partial_byte(chars@, i as int),
        decreases 8 - i,
    {
        let c = chars[i];
        let bit: u8 = if c == ZERO {
            0
        } else if c == ONE {
            1
        } else {
            return Err(WaterscapeError::Decoding("Invalid bit character".to_string()));
        };
        proof {
            assert(byte < 128) by {
                lemma_partial_byte_bound(chars@, i as int);
            }
        }
        byte = byte * 2 + bit;
        i = i + 1;
    }
    proof {
        lemma_partial_byte_full(chars@);
    }
    Ok(byte)
}

/// The value of the first `i` bit characters, read most significant first.
pub open spec fn spec_partial_byte(chars: Seq<char>, i: int) -> u8
    decreases i,
{
    if i <= 0 {
        0u8
    } else {
        (spec_partial_byte(chars, i - 1) * 2 + spec_bit_val(chars[i - 1])) as u8
    }
}

proof fn lemma_partial_byte_bound(chars: Seq<char>, i: int)
    requires
        0 <= i <= 7,
    ensures
        spec_partial_byte(chars, i) < pow2_small(i),
        pow2_small(i) <= 128,
    decreases i,
{
    if i > 0 {
        lemma_partial_byte_bound(chars, i - 1);
    }
}

/// Two to a small power, written out so the bound stays linear.
pub open spec fn pow2_small(i: int) -> int {
    if i <= 0 {
        1
    } else if i == 1 {
        2
    } else if i == 2 {
        4
    } else if i == 3 {
        8
    } else if i == 4 {
        16
    } else if i == 5 {
        32
    } else if i == 6 {
        64
    } else {
        128
    }
}

proof fn lemma_partial_byte_full(chars: Seq<char>)
    requires
        chars.len() >= 8,
    ensures
        spec_partial_byte(chars, 8) == spec_byte_of_bits(chars.take(8)),
{
    assert(spec_partial_byte(chars, 8) == spec_byte_of_bits(chars.take(8))) by {
        reveal_with_fuel(spec_partial_byte, 9);
        assert(chars.take(8)[0] == chars[0]);
        assert(chars.take(8)[1] == chars[1]);
        assert(chars.take(8)[2] == chars[2]);
        assert(chars.take(8)[3] == chars[3]);
        assert(chars.take(8)[4] == chars[4]);
        assert(chars.take(8)[5] == chars[5]);
        assert(chars.take(8)[6] == chars[6]);
        assert(chars.take(8)[7] == chars[7]);
    }
}

proof fn lemma_bits_of_push_byte(data: Seq<u8>, b: u8)
    ensures
        spec_bits_of(data.push(b)) == spec_bits_of(data) + spec_encode_byte(b),
    decreases data.len(),
{
    if data.len() == 0 {
        assert(data.push(b).drop_first() =~= Seq::<u8>::empty());
        assert(data.push(b)[0] == b);
        assert(spec_bits_of(data.push(b)) == spec_encode_byte(b) + spec_bits_of(
            Seq::<u8>::empty(),
        ));
        assert(spec_bits_of(data.push(b)) =~= spec_bits_of(data) + spec_encode_byte(b));
    } else {
        assert(data.push(b).drop_first() =~= data.drop_first().push(b));
        assert(data.push(b)[0] == data[0]);
        lemma_bits_of_push_byte(data.drop_first(), b);
        assert(spec_bits_of(data.push(b)) == spec_encode_byte(data[0]) + (spec_bits_of(
            data.drop_first(),
        ) + spec_encode_byte(b)));
        assert(spec_bits_of(data.push(b)) =~= spec_bits_of(data) + spec_encode_byte(b));
    }
}

/// Encode a byte string as the full hidden blob of zero-width characters.
pub fn encode_data(data: &[u8]) -> (r: String)
    ensures
        r@ == spec_encode_data(data@),
{
    let mut chars: Vec<char> = Vec::new();
    chars.push(START);
    let mut i: usize = 0;
    while i < data.len()
        invariant
            i <= data@.len(),
            chars@ == seq![START] + spec_bits_of(data@.take(i as int)),
        decreases data@.len() - i,
    {
        push_byte_bits(&mut chars, data[i]);
        proof {
            assert(data@.take(i as int).push(data@[i as int]) =~= data@.take(i as int + 1));
            lemma_bits_of_push_byte(data@.take(i as int), data@[i as int]);
            assert(chars@ =~= seq![START] + spec_bits_of(data@.take(i as int + 1)));
        }
        i = i + 1;
    }
    proof {
        assert(data@.take(data@.len() as int) =~= data@);
    }
    chars.push(END);
    proof {
        assert(chars@ =~= spec_encode_data(data@));
    }
    string_of_chars(&chars)
}

/// Run the byte-decoding state machine over the characters between the first
/// `START` and the first `END` of `chars`; a codepoint outside the alphabet
/// between them is a `Decoding` error.
pub(crate) fn decode_data_chars(chars: &Vec<char>) -> (r: Result<Vec<u8>, WaterscapeError>)
    ensures
        !spec_markers_ok(chars@) ==> r == Err::<Vec<u8>, WaterscapeError>(
            WaterscapeError::NoHiddenMessage,
        ),
        spec_markers_ok(chars@) && !spec_region_clean(chars@) ==> (r matches Err(e) && e
            matches WaterscapeError::Decoding(_)),
        spec_markers_ok(chars@) && spec_region_clean(chars@) ==> (r matches Ok(v) && Some(v@)
            == spec_decode_data(chars@)),
{
    let sp = match find_first_char(chars, START) {
        Some(k) => k,
        None => {
            return Err(WaterscapeError::NoHiddenMessage);
        },
    };
    let ep = match find_first_char(chars, END) {
        Some(k) => k,
        None => {
            return Err(WaterscapeError::NoHiddenMessage);
        },
    };
    if ep <= sp {
        return Err(WaterscapeError::NoHiddenMessage);
    }
    let ghost all_bits = bit_filter(chars@.subrange(sp as int + 1, ep as int));
    let mut out: Vec<u8> = Vec::new();
    let mut buf: Vec<char> = Vec::new();
    let mut i: usize = sp + 1;
    proof {
        assert(chars@.subrange(sp as int + 1, ep as int) =~= chars@.subrange(
            i as int,
            ep as int,
        ));
    }
    while i < ep
        invariant
            sp < i <= ep <= chars@.len(),
            first_index_of(chars@, START) == sp as int,
            first_index_of(chars@, END) == ep as int,
            spec_markers_ok(chars@),
            forall|j: int| sp < j < i ==> is_alphabet_char(#[trigger] chars@[j]),
            forall|j: int| 0 <= j < buf@.len() ==> buf@[j] == ZERO || buf@[j] == ONE,
            spec_fsm(all_bits, Seq::empty(), Seq::empty()) == spec_fsm(
                bit_filter(chars@.subrange(i as int, ep as int)),
                buf@,
                out@,
            ),
        decreases ep - i,
    {
        let c = chars[i];
        let ghost bits_now = bit_filter(chars@.subrange(i as int, ep as int));
        let ghost bits_next = bit_filter(chars@.subrange(i as int + 1, ep as int));
        proof {
            broadcast use Seq::filter_distributes_over_add;

            assert(chars@.subrange(i as int, ep as int) =~= seq![c] + chars@.subrange(
                i as int + 1,
                ep as int,
            ));
            assert(seq![c] =~= Seq::<char>::empty().push(c));
            lemma_filter_empty();
            lemma_bit_filter_push(Seq::empty(), c);
            if is_bit_char(c) {
                assert(bit_filter(seq![c]) == Seq::<char>::empty().push(c));
                assert(bits_now =~= seq![c] + bits_next);
                assert(bits_now.len() > 0);
                assert(bits_now[0] == c);
                assert(bits_now.drop_first() =~= bits_next);
            } else {
                assert(bit_filter(seq![c]) == Seq::<char>::empty());
                assert(bits_now =~= bits_next);
            }
        }
        if c == SEP {
            if buf.len() == 8 {
                match decode_byte(buf.as_slice()) {
                    Ok(b) => {
                        proof {
                            assert(buf@.take(8) =~= buf@);
                            assert(spec_fsm(bits_now, buf@, out@) == spec_fsm(
                                bits_next,
                                Seq::empty(),
                                out@.push(b),
                            ));
                        }
                        out.push(b);
                    },
                    Err(e) => {
                        proof {
                            assert(false);
                        }
                        return Err(e);
                    },
                }
            } else {
                proof {
                    assert(spec_fsm(bits_now, buf@, out@) == spec_fsm(
                        bits_next,
                        Seq::empty(),
                        out@,
                    ));
                }
            }
            buf.clear();
        } else if c == ZERO || c == ONE {
            proof {
                assert(spec_fsm(bits_now, buf@, out@) == spec_fsm(bits_next, buf@.push(c), out@));
            }
            buf.push(c);
        } else if c == START || c == END {
        } else {
            proof {
                assert(!is_alphabet_char(chars@[i as int]));
                assert(!spec_region_clean(chars@));
            }
            return Err(WaterscapeError::Decoding("Invalid character in hidden region".to_string()));
        }
        i = i + 1;
    }
    proof {
        assert(chars@.subrange(ep as int, ep as int) =~= Seq::<char>::empty());
        lemma_filter_empty();
    }
    Ok(out)
}

/// Decode a zero-width character string back to the bytes it hides: the
/// markers must be present and in order, and everything between them must
/// belong to the alphabet.
pub fn decode_data(encoded: &str) -> (r: Result<Vec<u8>, WaterscapeError>)
    ensures
        !spec_markers_ok(encoded@) ==> r == Err::<Vec<u8>, WaterscapeError>(
            WaterscapeError::NoHiddenMessage,
        ),
        spec_markers_ok(encoded@) && !spec_region_clean(encoded@) ==> (r matches Err(e) && e
            matches WaterscapeError::Decoding(_)),
        spec_markers_ok(encoded@) && spec_region_clean(encoded@) ==> (r matches Ok(v) && Some(v@)
            == spec_decode_data(encoded@)),
{
    let chars = chars_of_str(encoded);
    decode_data_chars(&chars)
}

/// Extract the hidden bytes from carrier text: collect the alphabet
/// characters in order and decode between the markers.
pub fn extract_from_text(text: &str) -> (r: Result<Vec<u8>, WaterscapeError>)
    ensures
        spec_extract(text@) matches Some(d) ==> (r matches Ok(v) && v@ == d),
        spec_extract(text@) is None ==> r == Err::<Vec<u8>, WaterscapeError>(
            WaterscapeError::NoHiddenMessage,
        ),
{
    let chars = chars_of_str(text);
    let mut hidden: Vec<char> = Vec::new();
    let mut i: usize = 0;
    proof {
        lemma_filter_empty();
        assert(chars@.take(0) =~= Seq::<char>::empty());
    }
    while i < chars.len()
        invariant
            i <= chars@.len(),
            hidden@ == alphabet_filter(chars@.take(i as int)),
        decreases chars@.len() - i,
    {
        let c = chars[i];
        proof {
            assert(chars@.take(i as int).push(c) =~= chars@.take(i as int + 1));
            lemma_alphabet_filter_push(chars@.take(i as int), c);
        }
        if is_alphabet(c) {
            hidden.push(c);
        }
        i = i + 1;
    }
    proof {
        assert(chars@.take(chars@.len() as int) =~= chars@);
    }
    if hidden.len() == 0 {
        proof {
            assert(!hidden@.contains(START));
        }
        return Err(WaterscapeError::NoHiddenMessage);
    }
    proof {
        lemma_alphabet_filter_all_alphabet(chars@);
        lemma_first_index_range(hidden@, START);
        lemma_first_index_range(hidden@, END);
        assert forall|j: int|
            first_index_of(hidden@, START) < j < first_index_of(hidden@, END) implies
            is_alphabet_char(#[trigger] hidden@[j]) by {
            assert(0 <= j < hidden@.len());
            assert(is_alphabet_char(alphabet_filter(chars@)[j]));
        }
        assert(spec_region_clean(hidden@));
    }
    decode_data_chars(&hidden)
}

/// The first index of a character is -1 or a position in the string.
proof fn lemma_first_index_range(s: Seq<char>, c: char)
    ensures
        -1 <= first_index_of(s, c),
        first_index_of(s, c) < s.len(),
    decreases s.len(),
{
    if s.len() > 0 && s[0] != c {
        lemma_first_index_range(s.drop_first(), c);
    }
}

/// Every character of the alphabet projection is in the alphabet.
proof fn lemma_alphabet_filter_all_alphabet(s: Seq<char>)
    ensures
        forall|j: int|
            0 <= j < alphabet_filter(s).len() ==> is_alphabet_char(
                #[trigger] alphabet_filter(s)[j],
            ),
    decreases s.len(),
{
    reveal(Seq::filter);
    if s.len() > 0 {
        lemma_alphabet_filter_all_alphabet(s.drop_last());
    }
}

/// The carrier with every alphabet codepoint removed.
pub fn extract_visible_text(text: &str) -> (r: String)
    ensures
        r@ == visible_filter(text@),
{
    let chars = chars_of_str(text);
    let mut visible: Vec<char> = Vec::new();
    let mut i: usize = 0;
    proof {
        lemma_filter_empty();
        assert(chars@.take(0) =~= Seq::<char>::empty());
    }
    while i < chars.len()
        invariant
            i <= chars@.len(),
            visible@ == visible_filter(chars@.take(i as int)),
        decreases chars@.len() - i,
    {
        let c = chars[i];
        proof {
            assert(chars@.take(i as int).push(c) =~= chars@.take(i as int + 1));
            lemma_visible_filter_push(chars@.take(i as int), c);
        }
        if !is_alphabet(c) {
            visible.push(c);
        }
        i = i + 1;
    }
    proof {
        assert(chars@.take(chars@.len() as int) =~= chars@);
    }
    string_of_chars(&visible)
}

/// Whether the text carries a hidden message: both markers are present.
pub fn has_hidden_data(text: &str) -> (r: bool)
    ensures
        r == (text@.contains(START) && text@.contains(END)),
{
    let chars = chars_of_str(text);
    let has_start = match find_first_char(&chars, START) {
        Some(_) => true,
        None => false,
    };
    let has_end = match find_first_char(&chars, END) {
        Some(_) => true,
        None => false,
    };
    has_start && has_end
}

/// Encoding then decoding a byte restores it: the eight bit characters of
/// `spec_encode_byte` spell the original value.
pub proof fn lemma_byte_round_trip(b: u8)
    ensures
        spec_byte_of_bits(spec_encode_byte(b).take(8)) == b,
{
    let bits = spec_encode_byte(b).take(8);
    assert forall|i: int| 0 <= i < 8 implies bits[i] == spec_bit_char(b, i) by {}
    assert((b >> 7u8) & 1u8 <= 1 && (b >> 6u8) & 1u8 <= 1 && (b >> 5u8) & 1u8 <= 1 && (b >> 4u8)
        & 1u8 <= 1 && (b >> 3u8) & 1u8 <= 1 && (b >> 2u8) & 1u8 <= 1 && (b >> 1u8) & 1u8 <= 1 && (b
        >> 0u8) & 1u8 <= 1) by (bit_vector);
    assert(spec_bit_val(spec_bit_char(b, 0)) == (b >> 7u8) & 1u8);
    assert(spec_bit_val(spec_bit_char(b, 1)) == (b >> 6u8) & 1u8);
    assert(spec_bit_val(spec_bit_char(b, 2)) == (b >> 5u8) & 1u8);
    assert(spec_bit_val(spec_bit_char(b, 3)) == (b >> 4u8) & 1u8);
    assert(spec_bit_val(spec_bit_char(b, 4)) == (b >> 3u8) & 1u8);
    assert(spec_bit_val(spec_bit_char(b, 5)) == (b >> 2u8) & 1u8);
    assert(spec_bit_val(spec_bit_char(b, 6)) == (b >> 1u8) & 1u8);
    assert(spec_bit_val(spec_bit_char(b, 7)) == (b >> 0u8) & 1u8);
    assert(((b >> 7u8) & 1u8) * 128 + ((b >> 6u8) & 1u8) * 64 + ((b >> 5u8) & 1u8) * 32 + ((b
        >> 4u8) & 1u8) * 16 + ((b >> 3u8) & 1u8) * 8 + ((b >> 2u8) & 1u8) * 4 + ((b >> 1u8) & 1u8)
        * 2 + ((b >> 0u8) & 1u8) == b) by (bit_vector);
}

proof fn lemma_bits_of_alphabet(data: Seq<u8>)
    ensures
        forall|i: int| 0 <= i < spec_bits_of(data).len() ==> is_bit_char(#[trigger] spec_bits_of(
            data,
        )[i]),
        spec_bits_of(data).len() == data.len() * 9,
    decreases data.len(),
{
    if data.len() > 0 {
        lemma_bits_of_alphabet(data.drop_first());
        let eb = spec_encode_byte(data[0]);
        assert(forall|i: int| 0 <= i < 8 ==> is_bit_char(#[trigger] eb[i]));
        assert(eb[8] == SEP);
        assert forall|i: int| 0 <= i < spec_bits_of(data).len() implies is_bit_char(
            #[trigger] spec_bits_of(data)[i],
        ) by {
            if i < 9 {
                assert(spec_bits_of(data)[i] == eb[i]);
            } else {
                assert(spec_bits_of(data)[i] == spec_bits_of(data.drop_first())[i - 9]);
            }
        }
    }
}

proof fn lemma_clean_visible(s: Seq<char>)
    requires
        clean_cover(s),
    ensures
        visible_filter(s) == s,
    decreases s.len(),
{
    reveal(Seq::filter);
    if s.len() > 0 {
        assert(clean_cover(s.drop_last()));
        lemma_clean_visible(s.drop_last());
        assert(!is_alphabet_char(s.last()));
        assert(visible_filter(s) =~= s);
    }
}

proof fn lemma_bit_filter_all(s: Seq<char>)
    requires
        forall|i: int| 0 <= i < s.len() ==> is_bit_char(#[trigger] s[i]),
    ensures
        bit_filter(s) == s,
    decreases s.len(),
{
    reveal(Seq::filter);
    if s.len() > 0 {
        assert(forall|i: int|
            0 <= i < s.drop_last().len() ==> is_bit_char(#[trigger] s.drop_last()[i]));
        lemma_bit_filter_all(s.drop_last());
        assert(is_bit_char(s.last()));
        assert(bit_filter(s) =~= s);
    }
}

/// Feeding plain bit characters only grows the buffer.
proof fn lemma_fsm_feed_bits(bits: Seq<char>, rest: Seq<char>, buf: Seq<char>, out: Seq<u8>)
    requires
        forall|i: int| 0 <= i < bits.len() ==> bits[i] == ZERO || bits[i] == ONE,
    ensures
        spec_fsm(bits + rest, buf, out) == spec_fsm(rest, buf + bits, out),
    decreases bits.len(),
{
    if bits.len() == 0 {
        assert(bits + rest =~= rest);
        assert(buf + bits =~= buf);
    } else {
        let c = bits[0];
        assert((bits + rest)[0] == c);
        assert(c != SEP);
        assert((bits + rest).drop_first() =~= bits.drop_first() + rest);
        lemma_fsm_feed_bits(bits.drop_first(), rest, buf.push(c), out);
        assert(buf.push(c) + bits.drop_first() =~= buf + bits);
    }
}

/// One encoded byte drives the state machine from an empty buffer to an
/// empty buffer, emitting exactly that byte.
proof fn lemma_fsm_encode_byte(b: u8, rest: Seq<char>, out: Seq<u8>)
    ensures
        spec_fsm(spec_encode_byte(b) + rest, Seq::empty(), out) == spec_fsm(
            rest,
            Seq::empty(),
            out.push(b),
        ),
{
    let bits8 = Seq::new(8, |i: int| spec_bit_char(b, i));
    assert(spec_encode_byte(b) + rest =~= bits8 + (seq![SEP] + rest));
    assert(forall|i: int| 0 <= i < bits8.len() ==> bits8[i] == ZERO || bits8[i] == ONE);
    lemma_fsm_feed_bits(bits8, seq![SEP] + rest, Seq::empty(), out);
    assert(Seq::empty() + bits8 =~= bits8);
    assert((seq![SEP] + rest)[0] == SEP);
    assert((seq![SEP] + rest).drop_first() =~= rest);
    lemma_byte_round_trip(b);
    assert(spec_encode_byte(b).take(8) =~= bits8);
    assert(spec_fsm(seq![SEP] + rest, bits8, out) == spec_fsm(rest, Seq::empty(), out.push(b)));
}

/// The bit characters of a byte string drive the state machine to emit
/// exactly those bytes.
proof fn lemma_fsm_data(data: Seq<u8>, out: Seq<u8>)
    ensures
        spec_fsm(spec_bits_of(data), Seq::empty(), out) == out + data,
    decreases data.len(),
{
    if data.len() == 0 {
        assert(out + data =~= out);
    } else {
        lemma_fsm_encode_byte(data[0], spec_bits_of(data.drop_first()), out);
        lemma_fsm_data(data.drop_first(), out.push(data[0]));
        assert(out.push(data[0]) + data.drop_first() =~= out + data);
    }
}

/// Byte-level round trip of the blob codec: decoding an encoded blob
/// restores the bytes exactly.
pub proof fn lemma_data_round_trip(data: Seq<u8>)
    ensures
        spec_decode_data(spec_encode_data(data)) == Some(data),
{
    let s = spec_encode_data(data);
    let bits = spec_bits_of(data);
    lemma_bits_of_alphabet(data);
    assert(s[0] == START);
    lemma_first_index(s, START, 0);
    assert(s[bits.len() as int + 1] == END);
    assert forall|j: int| 0 <= j < bits.len() + 1 implies s[j] != END by {
        if j > 0 {
            assert(s[j] == bits[j - 1]);
            assert(is_bit_char(bits[j - 1]));
        }
    }
    lemma_first_index(s, END, bits.len() as int + 1);
    assert(s.subrange(1, bits.len() as int + 1) =~= bits);
    lemma_bit_filter_all(bits);
    lemma_fsm_data(data, Seq::empty());
    assert(Seq::empty() + data =~= data);
}

proof fn lemma_contains_push(s: Seq<char>, v: char, x: char)
    requires
        s.contains(x),
    ensures
        s.push(v).contains(x),
{
    let w = choose|w: int| 0 <= w < s.len() && s[w] == x;
    assert(s.push(v)[w] == x);
}

/// Extraction inverts hiding: a carrier whose alphabet projection is the
/// encoded blob of `data` extracts back to `data`.
pub proof fn lemma_extract_of_hidden(carrier: Seq<char>, data: Seq<u8>)
    requires
        alphabet_filter(carrier) == spec_encode_data(data),
    ensures
        spec_extract(carrier) == Some(data),
{
    lemma_data_round_trip(data);
}

/// Hide bytes inside cover text: every visible character is kept, in order,
/// with hidden characters interleaved after it.
pub fn hide_in_text(cover_text: &str, data: &[u8]) -> (r: Result<String, WaterscapeError>)
    ensures
        cover_text@.len() == 0 ==> r == Err::<String, WaterscapeError>(
            WaterscapeError::CoverTextTooShort { needed: 1usize, available: 0usize },
        ),
        cover_text@.len() > 0 ==> r is Ok,
        r matches Ok(carrier) ==> visible_filter(carrier@) == visible_filter(cover_text@),
        r matches Ok(carrier) ==> carrier@.contains(START) && carrier@.contains(END),
        r matches Ok(carrier) ==> (clean_cover(cover_text@) ==> alphabet_filter(carrier@)
            == spec_encode_data(data@) && visible_filter(carrier@) == cover_text@),
{
    let encoded = encode_data(data);
    let cover_chars = chars_of_str(cover_text);
    let encoded_chars = chars_of_str(encoded.as_str());
    if cover_chars.len() == 0 {
        return Err(WaterscapeError::CoverTextTooShort { needed: 1, available: 0 });
    }
    let n = cover_chars.len();
    let m = encoded_chars.len();
    let chunk_size = if m / n < 1 {
        1
    } else {
        m / n
    };
    let mut result: Vec<char> = Vec::new();
    let mut encoded_idx: usize = 0;
    let mut i: usize = 0;
    proof {
        lemma_filter_empty();
        lemma_bits_of_alphabet(data@);
        assert(cover_text@.take(0) =~= Seq::<char>::empty());
        assert(encoded@.take(0) =~= Seq::<char>::empty());
    }
    while i < n
        invariant
            n == cover_text@.len(),
            m == encoded@.len(),
            encoded@ == spec_encode_data(data@),
            cover_chars@ == cover_text@,
            encoded_chars@ == encoded@,
            i <= n,
            encoded_idx <= m,
            visible_filter(result@) == visible_filter(cover_text@.take(i as int)),
            clean_cover(cover_text@) ==> alphabet_filter(result@) == encoded@.take(
                encoded_idx as int,
            ),
            forall|j: int| 0 <= j < encoded_idx ==> result@.contains(#[trigger] encoded@[j]),
            i == n ==> encoded_idx == m,
        decreases n - i,
    {
        let c = cover_chars[i];
        proof {
            lemma_visible_filter_push(result@, c);
            lemma_alphabet_filter_push(result@, c);
            assert(cover_text@.take(i as int).push(c) =~= cover_text@.take(i as int + 1));
            lemma_visible_filter_push(cover_text@.take(i as int), c);
            if clean_cover(cover_text@) {
                assert(!is_alphabet_char(cover_text@[i as int]));
            }
        }
        let ghost before_cover = result@;
        result.push(c);
        proof {
            assert forall|j: int| 0 <= j < encoded_idx implies result@.contains(
                #[trigger] encoded@[j],
            ) by {
                lemma_contains_push(before_cover, c, encoded@[j]);
            }
        }
        let end_idx = if i == n - 1 {
            m
        } else if chunk_size < m - encoded_idx {
            encoded_idx + chunk_size
        } else {
            m
        };
        while encoded_idx < end_idx
            invariant
                m == encoded@.len(),
                encoded@ == spec_encode_data(data@),
                encoded_chars@ == encoded@,
                encoded_idx <= end_idx <= m,
                i < n == cover_text@.len(),
                visible_filter(result@) == visible_filter(cover_text@.take(i as int + 1)),
                clean_cover(cover_text@) ==> alphabet_filter(result@) == encoded@.take(
                    encoded_idx as int,
                ),
                forall|j: int| 0 <= j < encoded_idx ==> result@.contains(#[trigger] encoded@[j]),
            decreases end_idx - encoded_idx,
        {
            let e = encoded_chars[encoded_idx];
            let ghost before = result@;
            proof {
                lemma_visible_filter_push(result@, e);
                lemma_alphabet_filter_push(result@, e);
                assert(is_alphabet_char(e)) by {
                    let k = encoded_idx as int;
                    lemma_bits_of_alphabet(data@);
                    if k == 0 {
                        assert(encoded@[0] == START);
                    } else if k == m - 1 {
                        assert(encoded@[k] == END);
                    } else {
                        assert(encoded@[k] == spec_bits_of(data@)[k - 1]);
                        assert(is_bit_char(spec_bits_of(data@)[k - 1]));
                    }
                }
                assert(encoded@.take(encoded_idx as int).push(e) =~= encoded@.take(
                    encoded_idx as int + 1,
                ));
            }
            result.push(e);
            encoded_idx = encoded_idx + 1;
            proof {
                assert forall|j: int| 0 <= j < encoded_idx implies result@.contains(
                    #[trigger] encoded@[j],
                ) by {
                    if j < encoded_idx - 1 {
                        lemma_contains_push(before, e, encoded@[j]);
                    } else {
                        assert(result@[result@.len() - 1] == encoded@[j]);
                    }
                }
            }
        }
        i = i + 1;
    }
    proof {
        assert(cover_text@.take(n as int) =~= cover_text@);
        assert(encoded@.take(m as int) =~= encoded@);
        assert(encoded@[0] == START);
        assert(encoded@[m - 1] == END);
        if clean_cover(cover_text@) {
            lemma_clean_visible(cover_text@);
        }
    }
    Ok(string_of_chars(&result))
}

} // verus!

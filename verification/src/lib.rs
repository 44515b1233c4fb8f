//! Conversion of hexadecimal text into raw bytes.
//!
//! The input may mix hex digits (case-insensitive) with spaces and line
//! breaks.  Conversion first normalizes the text: spaces, `'\n'` and `'\r'`
//! are dropped, and a trailing `'0'` is appended when the remaining character
//! count is odd.  The normalized characters are then decoded in consecutive
//! pairs, the first character of each pair giving the high nibble of a byte.

use vstd::prelude::*;

verus! {

/// Characters that normalization removes: space, line feed, carriage return.
pub open spec fn is_space(c: char) -> bool {
    c == ' ' || c == '\n' || c == '\r'
}

/// The text with every space, line feed and carriage return removed,
/// all other characters kept in order.
pub open spec fn strip_spec(s: Seq<char>) -> Seq<char>
    decreases s.len(),
{
    if s.len() == 0 {
        Seq::<char>::empty()
    } else if is_space(s.last()) {
        strip_spec(s.drop_last())
    } else {
        strip_spec(s.drop_last()).push(s.last())
    }
}

/// The stripped text, padded with a trailing `'0'` when its length is odd,
/// so that the result always has even length.
pub open spec fn normalize_spec(s: Seq<char>) -> Seq<char> {
    if strip_spec(s).len() % 2 == 1 {
        strip_spec(s).push('0')
    } else {
        strip_spec(s)
    }
}

/// Whether `c` is one of the sixteen hex digits, either case.
pub open spec fn is_hex_digit(c: char) -> bool {
    match c {
        '0' | '1' | '2' | '3' | '4' | '5' | '6' | '7' | '8' | '9' => true,
        'A' | 'a' | 'B' | 'b' | 'C' | 'c' | 'D' | 'd' | 'E' | 'e' | 'F' | 'f' => true,
        _ => false,
    }
}

/// The 4-bit value of a hex digit; meaningful only when `is_hex_digit(c)`.
pub open spec fn nibble_of(c: char) -> u8 {
    match c {
        '0' => 0,
        '1' => 1,
        '2' => 2,
        '3' => 3,
        '4' => 4,
        '5' => 5,
        '6' => 6,
        '7' => 7,
        '8' => 8,
        '9' => 9,
        'A' | 'a' => 10,
        'B' | 'b' => 11,
        'C' | 'c' => 12,
        'D' | 'd' => 13,
        'E' | 'e' => 14,
        'F' | 'f' => 15,
        _ => 0,
    }
}

/// The byte formed from a pair of hex digits, `hi` as the high nibble.
pub open spec fn pair_val(hi: char, lo: char) -> u8 {
    (nibble_of(hi) * 16 + nibble_of(lo)) as u8
}

/// Whether every character of `s` is a hex digit.
pub open spec fn all_hex(s: Seq<char>) -> bool {
    forall|i: int| 0 <= i < s.len() ==> is_hex_digit(s[i])
}

/// The bytes obtained by decoding `s` in consecutive pairs;
/// meaningful only when `s` has even length and all characters are hex digits.
pub open spec fn decode_spec(s: Seq<char>) -> Seq<u8>
    decreases s.len(),
{
    if s.len() < 2 {
        Seq::<u8>::empty()
    } else {
        seq![pair_val(s[0], s[1])] + decode_spec(s.skip(2))
    }
}

/// The position of the first character of `s` that is not a hex digit;
/// meaningful only when such a character exists.
pub open spec fn first_invalid(s: Seq<char>) -> int
    decreases s.len(),
{
    if s.len() == 0 {
        0
    } else if !is_hex_digit(s[0]) {
        0
    } else {
        1 + first_invalid(s.skip(1))
    }
}

/// Characterizes `decode_spec` on even-length text by index: the result has
/// one byte per pair, and byte `k` comes from the characters at `2k` and
/// `2k + 1`.
pub proof fn lemma_decode_index(s: Seq<char>)
    requires
        s.len() % 2 == 0,
    ensures
        decode_spec(s).len() == s.len() / 2,
        forall|k: int|
            0 <= k < s.len() / 2 ==> decode_spec(s)[k] == pair_val(s[2 * k], s[2 * k + 1]),
    decreases s.len(),
{
    if s.len() >= 2 {
        lemma_decode_index(s.skip(2));
        assert forall|k: int|
            0 <= k < s.len() / 2 implies decode_spec(s)[k] == pair_val(
            s[2 * k],
            s[2 * k + 1],
        ) by {
            if k > 0 {
                assert(decode_spec(s)[k] == decode_spec(s.skip(2))[k - 1]);
                assert(s.skip(2)[2 * (k - 1)] == s[2 * k]);
                assert(s.skip(2)[2 * (k - 1) + 1] == s[2 * k + 1]);
            }
        }
    }
}

/// `first_invalid` indeed names the position of the first non-hex character:
/// if everything before `i` is a hex digit and the character at `i` is not,
/// then `first_invalid` is `i`.
pub proof fn lemma_first_invalid(s: Seq<char>, i: int)
    requires
        0 <= i < s.len(),
        !is_hex_digit(s[i]),
        forall|j: int| 0 <= j < i ==> is_hex_digit(s[j]),
    ensures
        first_invalid(s) == i,
    decreases i,
{
    if i > 0 {
        assert(is_hex_digit(s[0]));
        assert(s.skip(1)[i - 1] == s[i]);
        assert forall|j: int| 0 <= j < i - 1 implies is_hex_digit(s.skip(1)[j]) by {
            assert(s.skip(1)[j] == s[j + 1]);
        }
        lemma_first_invalid(s.skip(1), i - 1);
    }
}

/// Why a conversion failed.
#[derive(Debug)]
pub enum ConvertError {
    /// A character outside `0-9A-Fa-f` was met while decoding; carries the
    /// offending character.
    InvalidHexDigit { character: char },
    /// The byte assembler was handed a chunk that is not exactly two
    /// characters long; carries that chunk.  Cannot arise when the chunk
    /// comes from normalized text, whose length is always even.
    MalformedPairing { chunk: Vec<char> },
    /// Reading from a line source failed; carries the underlying cause.
    IoFailure { cause: String },
}

/// Relies on `String::push` from std: appends the given character to the
/// end of the string.
#[verifier::external_body]
fn push_char(s: &mut String, c: char)
    ensures
        final(s)@ == old(s)@.push(c),
{
    s.push(c)
}

/// Strips spaces and line breaks from the text and appends a trailing `'0'`
/// when the remaining character count is odd, so the result's length is even.
pub fn format_text(text: &String) -> (r: String)
    ensures
        r@ == normalize_spec(text@),
{
    let s: &str = text.as_str();
    let n: usize = s.unicode_len();
    let mut out: String = String::new();
    let mut i: usize = 0;
    while i < n
        invariant
            i <= n,
            n == s@.len(),
            out@ == strip_spec(s@.subrange(0, i as int)),
        decreases n - i,
    {
        let c: char = s.get_char(i);
        proof {
            assert(s@.subrange(0, i + 1).drop_last() =~= s@.subrange(0, i as int));
            assert(s@.subrange(0, i + 1).last() == c);
        }
        if !(c == ' ' || c == '\n' || c == '\r') {
            push_char(&mut out, c);
        }
        i = i + 1;
    }
    proof {
        assert(s@.subrange(0, n as int) =~= s@);
    }
    let stripped_len: usize = out.as_str().unicode_len();
    if stripped_len % 2 == 1 {
        push_char(&mut out, '0');
    }
    out
}

/// Decodes a chunk of exactly two hex digits into one byte, the first
/// character as the high nibble.  A chunk of any other length is refused.
pub fn str_2_binary(target: Vec<char>) -> (r: Result<u8, ConvertError>)
    ensures
        target@.len() == 2 && is_hex_digit(target@[0]) && is_hex_digit(target@[1]) ==> r
            == Ok::<u8, ConvertError>(pair_val(target@[0], target@[1])),
        target@.len() != 2 ==> (r matches Err(e) && e matches ConvertError::MalformedPairing {
            chunk,
        } && chunk@ == target@),
        target@.len() == 2 && !is_hex_digit(target@[0]) ==> r == Err::<u8, ConvertError>(
            ConvertError::InvalidHexDigit { character: target@[0] },
        ),
        target@.len() == 2 && is_hex_digit(target@[0]) && !is_hex_digit(target@[1]) ==> r
            == Err::<u8, ConvertError>(
            ConvertError::InvalidHexDigit { character: target@[1] },
        ),
{
    if target.len() != 2 {
        return Err(ConvertError::MalformedPairing { chunk: target });
    }
    let upper: u8 = match char_2_hex(target[0]) {
        Ok(v) => v,
        Err(e) => return Err(e),
    };
    let lower: u8 = match char_2_hex(target[1]) {
        Ok(v) => v,
        Err(e) => return Err(e),
    };
    Ok(upper * 16 + lower)
}

/// The character `c` wrapped in single quotes, as one element of a chunk
/// listing reads.
pub open spec fn quoted_char(c: char) -> Seq<char> {
    seq!['\'', c, '\'']
}

/// The characters of `s` listed in order, each in single quotes, separated
/// by a comma and a space.
pub open spec fn chunk_listing(s: Seq<char>) -> Seq<char>
    decreases s.len(),
{
    if s.len() == 0 {
        Seq::<char>::empty()
    } else if s.len() == 1 {
        quoted_char(s[0])
    } else {
        chunk_listing(s.drop_last()) + seq![',', ' '] + quoted_char(s.last())
    }
}

/// The message reported for a character outside the hex digit set.
pub open spec fn invalid_digit_message(c: char) -> Seq<char> {
    "It is not a hexadecimal representation. target="@.push(c)
}

/// The message reported for a chunk that is not exactly two characters long.
pub open spec fn malformed_pairing_message(chunk: Seq<char>) -> Seq<char> {
    "Target is not two characters. target=["@ + chunk_listing(chunk) + seq![']']
}

impl ConvertError {
    /// A human-readable description of the failure.
    pub fn message(&self) -> (r: String)
        ensures
            self matches ConvertError::InvalidHexDigit { character } ==> r@
                == invalid_digit_message(*character),
            self matches ConvertError::MalformedPairing { chunk } ==> r@
                == malformed_pairing_message(chunk@),
            self matches ConvertError::IoFailure { cause } ==> r@ == cause@,
    {
        match self {
            ConvertError::InvalidHexDigit { character } => {
                let mut m: String = String::from_str(
                    "It is not a hexadecimal representation. target=",
                );
                push_char(&mut m, *character);
                m
            },
            ConvertError::MalformedPairing { chunk } => {
                let mut m: String = String::from_str("Target is not two characters. target=[");
                let ghost prefix: Seq<char> = m@;
                let mut i: usize = 0;
                while i < chunk.len()
                    invariant
                        i <= chunk@.len(),
                        m@ == prefix + chunk_listing(chunk@.subrange(0, i as int)),
                    decreases chunk@.len() - i,
                {
                    if i > 0 {
                        push_char(&mut m, ',');
                        push_char(&mut m, ' ');
                    }
                    push_char(&mut m, '\'');
                    push_char(&mut m, chunk[i]);
                    push_char(&mut m, '\'');
                    proof {
                        let sub = chunk@.subrange(0, i + 1);
                        assert(sub.drop_last() =~= chunk@.subrange(0, i as int));
                        assert(sub.last() == chunk@[i as int]);
                        assert(m@ =~= prefix + chunk_listing(sub));
                    }
                    i = i + 1;
                }
                proof {
                    assert(chunk@.subrange(0, chunk@.len() as int) =~= chunk@);
                }
                push_char(&mut m, ']');
                proof {
                    assert(m@ =~= malformed_pairing_message(chunk@));
                }
                m
            },
            ConvertError::IoFailure { cause } => cause.clone(),
        }
    }
}

/// Decodes a single hex digit to its 4-bit value.
pub fn char_2_hex(target: char) -> (r: Result<u8, ConvertError>)
    ensures
        is_hex_digit(target) ==> (r matches Ok(v) && v == nibble_of(target) && v < 16),
        !is_hex_digit(target) ==> r == Err::<u8, ConvertError>(
            ConvertError::InvalidHexDigit { character: target },
        ),
{
    match target {
        '0' => Ok(0),
        '1' => Ok(1),
        '2' => Ok(2),
        '3' => Ok(3),
        '4' => Ok(4),
        '5' => Ok(5),
        '6' => Ok(6),
        '7' => Ok(7),
        '8' => Ok(8),
        '9' => Ok(9),
        'A' | 'a' => Ok(10),
        'B' | 'b' => Ok(11),
        'C' | 'c' => Ok(12),
        'D' | 'd' => Ok(13),
        'E' | 'e' => Ok(14),
        'F' | 'f' => Ok(15),
        _ => Err(ConvertError::InvalidHexDigit { character: target }),
    }
}

/// Converts hexadecimal text into the bytes it denotes.
///
/// The text may mix hex digits of either case with spaces and line breaks.
/// After normalization — spaces, `'\n'` and `'\r'` dropped, a `'0'` appended
/// when the remaining count is odd — the characters are decoded in
/// consecutive pairs.  Succeeds exactly when every normalized character is a
/// hex digit; the first character that is not one is reported, and no bytes
/// come back with an error.
pub fn convert(text: &String) -> (r: Result<Vec<u8>, ConvertError>)
    ensures
        r is Ok <==> all_hex(normalize_spec(text@)),
        r matches Ok(bytes) ==> bytes@ == decode_spec(normalize_spec(text@)),
        r matches Err(e) ==> e == (ConvertError::InvalidHexDigit {
            character: normalize_spec(text@)[first_invalid(normalize_spec(text@))],
        }),
{
    let formatted: String = format_text(text);
    let fs: &str = formatted.as_str();
    let n: usize = fs.unicode_len();

    let mut target: Vec<char> = Vec::new();
    let mut i: usize = 0;
    while i < n
        invariant
            i <= n,
            n == fs@.len(),
            target@ == fs@.subrange(0, i as int),
        decreases n - i,
    {
        target.push(fs.get_char(i));
        proof {
            assert(target@ =~= fs@.subrange(0, i + 1));
        }
        i = i + 1;
    }
    proof {
        assert(fs@.subrange(0, n as int) =~= fs@);
    }

    let half: usize = target.len() / 2;
    let mut byte_vec: Vec<u8> = Vec::new();
    let mut k: usize = 0;
    while k < half
        invariant
            target@ == normalize_spec(text@),
            target@.len() % 2 == 0,
            target@.len() <= usize::MAX,
            half == target@.len() / 2,
            k <= half,
            byte_vec@.len() == k,
            forall|j: int| 0 <= j < 2 * (k as int) ==> is_hex_digit(#[trigger] target@[j]),
            forall|j: int|
                0 <= j < k ==> byte_vec@[j] == pair_val(target@[2 * j], target@[2 * j + 1]),
        decreases half - k,
    {
        let mut pair: Vec<char> = Vec::new();
        pair.push(target[2 * k]);
        pair.push(target[2 * k + 1]);
        match str_2_binary(pair) {
            Ok(byte) => byte_vec.push(byte),
            Err(e) => {
                proof {
                    let tv = target@;
                    if is_hex_digit(tv[2 * k as int]) {
                        lemma_first_invalid(tv, 2 * k + 1);
                    } else {
                        lemma_first_invalid(tv, 2 * k as int);
                    }
                }
                return Err(e);
            },
        }
        k = k + 1;
    }
    proof {
        let tv = target@;
        lemma_decode_index(tv);
        assert(byte_vec@ =~= decode_spec(tv));
    }
    Ok(byte_vec)
}

/// The fragments of `lines` concatenated in order, with nothing inserted
/// between them.
pub open spec fn join_spec(lines: Seq<Seq<char>>) -> Seq<char>
    decreases lines.len(),
{
    if lines.len() == 0 {
        Seq::<char>::empty()
    } else {
        join_spec(lines.drop_last()) + lines.last()
    }
}

/// Converts a sequence of hexadecimal text fragments into bytes.
///
/// The fragments are concatenated in order, with no separator inserted, and
/// the result is converted exactly as [`convert`] converts a single text.
/// An empty sequence of fragments yields an empty byte sequence.
pub fn convert_line(line: &Vec<String>) -> (r: Result<Vec<u8>, ConvertError>)
    ensures
        r is Ok <==> all_hex(normalize_spec(join_spec(line.deep_view()))),
        r matches Ok(bytes) ==> bytes@ == decode_spec(normalize_spec(join_spec(line.deep_view()))),
        r matches Err(e) ==> e == (ConvertError::InvalidHexDigit {
            character: normalize_spec(join_spec(line.deep_view()))[first_invalid(
                normalize_spec(join_spec(line.deep_view())),
            )],
        }),
{
    let mut join_string: String = String::new();
    let mut i: usize = 0;
    while i < line.len()
        invariant
            i <= line@.len(),
            join_string@ == join_spec(line.deep_view().subrange(0, i as int)),
        decreases line@.len() - i,
    {
        join_string.append(line[i].as_str());
        proof {
            assert(line.deep_view().subrange(0, i + 1).drop_last() =~= line.deep_view().subrange(
                0,
                i as int,
            ));
            assert(line.deep_view().subrange(0, i + 1).last() == line@[i as int]@);
        }
        i = i + 1;
    }
    proof {
        assert(line.deep_view().subrange(0, line@.len() as int) =~= line.deep_view());
    }
    convert(&join_string)
}

/// Stripping an input made only of hex digits, spaces and line breaks
/// leaves hex digits only.
proof fn lemma_strip_all_hex(s: Seq<char>)
    requires
        forall|i: int| 0 <= i < s.len() ==> is_hex_digit(#[trigger] s[i]) || is_space(s[i]),
    ensures
        all_hex(strip_spec(s)),
    decreases s.len(),
{
    if s.len() > 0 {
        lemma_strip_all_hex(s.drop_last());
    }
}

/// Law: a text made only of hex digits, spaces and line breaks converts
/// successfully, and the number of bytes produced is the whitespace-stripped
/// character count divided by two, rounded up.
pub proof fn lemma_hex_and_space_convert_length(s: Seq<char>)
    requires
        forall|i: int| 0 <= i < s.len() ==> is_hex_digit(#[trigger] s[i]) || is_space(s[i]),
    ensures
        all_hex(normalize_spec(s)),
        decode_spec(normalize_spec(s)).len() == (strip_spec(s).len() + 1) / 2,
{
    lemma_strip_all_hex(s);
    let n = normalize_spec(s);
    assert(all_hex(n)) by {
        assert(forall|i: int|
            0 <= i < strip_spec(s).len() ==> n[i] == #[trigger] strip_spec(s)[i]);
    }
    lemma_decode_index(n);
}

/// Law: stripping whitespace is idempotent — stripping a second time changes
/// nothing, because the first pass already removed every space and line
/// break.
pub proof fn lemma_strip_idempotent(s: Seq<char>)
    ensures
        strip_spec(strip_spec(s)) == strip_spec(s),
    decreases s.len(),
{
    if s.len() > 0 {
        let d = s.drop_last();
        lemma_strip_idempotent(d);
        if !is_space(s.last()) {
            let t = strip_spec(d).push(s.last());
            assert(t.drop_last() =~= strip_spec(d));
            assert(strip_spec(t) == strip_spec(strip_spec(d)).push(s.last()));
        }
    }
}

/// Law: when the whitespace-stripped character count is odd, the appended
/// `'0'` becomes the low nibble of the final byte, so that byte is a
/// multiple of sixteen.
pub proof fn lemma_odd_input_pads_low_nibble(s: Seq<char>)
    requires
        strip_spec(s).len() % 2 == 1,
        all_hex(normalize_spec(s)),
    ensures
        decode_spec(normalize_spec(s)).len() > 0,
        decode_spec(normalize_spec(s)).last() % 16 == 0,
{
    let n = normalize_spec(s);
    lemma_decode_index(n);
    let out = decode_spec(n);
    let k = out.len() - 1;
    assert(out[k] == pair_val(n[2 * k], n[2 * k + 1]));
    assert(n[2 * k + 1] == '0');
}

/// The character with lowercase hex letters replaced by their uppercase
/// form; every other character is kept as it is.
pub open spec fn upper_hex_char(c: char) -> char {
    match c {
        'a' => 'A',
        'b' => 'B',
        'c' => 'C',
        'd' => 'D',
        'e' => 'E',
        'f' => 'F',
        _ => c,
    }
}

/// The text with every lowercase hex letter replaced by its uppercase form.
pub open spec fn upper_hex_text(s: Seq<char>) -> Seq<char> {
    Seq::new(s.len(), |i: int| upper_hex_char(s[i]))
}

/// Stripping whitespace commutes with uppercasing hex letters, since
/// uppercasing never produces or removes a space or line break.
proof fn lemma_strip_upper(s: Seq<char>)
    ensures
        strip_spec(upper_hex_text(s)) == upper_hex_text(strip_spec(s)),
    decreases s.len(),
{
    let u = upper_hex_text(s);
    if s.len() == 0 {
        assert(u =~= Seq::<char>::empty());
    } else {
        let d = s.drop_last();
        lemma_strip_upper(d);
        assert(u.drop_last() =~= upper_hex_text(d));
        assert(u.last() == upper_hex_char(s.last()));
        if is_space(s.last()) {
            assert(strip_spec(u) == upper_hex_text(strip_spec(d)));
        } else {
            assert(upper_hex_text(strip_spec(d).push(s.last())) =~= upper_hex_text(
                strip_spec(d),
            ).push(upper_hex_char(s.last())));
        }
    }
}

/// Decoding pairs is unchanged by uppercasing hex letters, since a digit's
/// 4-bit value does not depend on its case.
proof fn lemma_decode_upper(s: Seq<char>)
    ensures
        decode_spec(upper_hex_text(s)) == decode_spec(s),
    decreases s.len(),
{
    let u = upper_hex_text(s);
    if s.len() < 2 {
        assert(decode_spec(u) =~= decode_spec(s));
    } else {
        lemma_decode_upper(s.skip(2));
        assert(u.skip(2) =~= upper_hex_text(s.skip(2)));
        assert(pair_val(u[0], u[1]) == pair_val(s[0], s[1]));
        assert(decode_spec(u) =~= decode_spec(s));
    }
}

/// Law: conversion is case-insensitive.  Uppercasing the hex letters of a
/// text changes neither whether it converts successfully nor the bytes it
/// converts to; two texts that differ only in letter case therefore yield
/// the same result, since both agree with their shared uppercase form.
pub proof fn lemma_case_insensitive(s: Seq<char>)
    ensures
        normalize_spec(upper_hex_text(s)) == upper_hex_text(normalize_spec(s)),
        all_hex(normalize_spec(upper_hex_text(s))) == all_hex(normalize_spec(s)),
        decode_spec(normalize_spec(upper_hex_text(s))) == decode_spec(normalize_spec(s)),
{
    lemma_strip_upper(s);
    let t = strip_spec(s);
    assert(upper_hex_text(t).len() == t.len());
    if t.len() % 2 == 1 {
        assert(upper_hex_text(t.push('0')) =~= upper_hex_text(t).push('0'));
    }
    assert(normalize_spec(upper_hex_text(s)) == upper_hex_text(normalize_spec(s)));
    let n = normalize_spec(s);
    assert(all_hex(upper_hex_text(n)) == all_hex(n)) by {
        if all_hex(n) {
            assert forall|i: int| 0 <= i < n.len() implies is_hex_digit(
                upper_hex_text(n)[i],
            ) by {
                assert(is_hex_digit(n[i]));
            }
        }
        if all_hex(upper_hex_text(n)) {
            assert forall|i: int| 0 <= i < n.len() implies is_hex_digit(n[i]) by {
                assert(is_hex_digit(upper_hex_text(n)[i]));
            }
        }
    }
    lemma_decode_upper(n);
}

} // verus!

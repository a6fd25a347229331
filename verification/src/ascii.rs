//! ASCII character classes and verified decimal / hexadecimal numeral
//! parsing and formatting, used by the establishment domain codec.

use vstd::prelude::*;

verus! {

// ---------------------------------------------------------------------------
// Character classes
// ---------------------------------------------------------------------------

pub open spec fn is_dec_digit(c: char) -> bool {
    '0' <= c && c <= '9'
}

pub open spec fn dec_digit_val(c: char) -> int {
    c as int - 48
}

pub open spec fn is_hex_digit(c: char) -> bool {
    is_dec_digit(c) || ('a' <= c && c <= 'f') || ('A' <= c && c <= 'F')
}

pub open spec fn hex_digit_val(c: char) -> int {
    if is_dec_digit(c) {
        c as int - 48
    } else if 'a' <= c && c <= 'f' {
        c as int - 87
    } else {
        c as int - 55
    }
}

pub open spec fn all_dec_digits(s: Seq<char>) -> bool {
    forall|i: int| 0 <= i < s.len() ==> is_dec_digit(#[trigger] s[i])
}

pub open spec fn all_hex_digits(s: Seq<char>) -> bool {
    forall|i: int| 0 <= i < s.len() ==> is_hex_digit(#[trigger] s[i])
}

/// The lowercase form of an ASCII character; other characters are unchanged.
pub open spec fn lower_char(c: char) -> char {
    if 'A' <= c && c <= 'Z' {
        ((c as u32 + 32) as u8) as char
    } else {
        c
    }
}

pub open spec fn seq_lower(s: Seq<char>) -> Seq<char> {
    s.map_values(|c: char| lower_char(c))
}

// ---------------------------------------------------------------------------
// Numeric value of a digit string
// ---------------------------------------------------------------------------

/// The value of a decimal digit string, most significant digit first.
pub open spec fn dec_value(s: Seq<char>) -> int
    decreases s.len(),
{
    if s.len() == 0 {
        0
    } else {
        10 * dec_value(s.drop_last()) + dec_digit_val(s.last())
    }
}

/// The value of a hexadecimal digit string, most significant digit first.
pub open spec fn hex_value(s: Seq<char>) -> int
    decreases s.len(),
{
    if s.len() == 0 {
        0
    } else {
        16 * hex_value(s.drop_last()) + hex_digit_val(s.last())
    }
}

// ---------------------------------------------------------------------------
// Canonical digit strings of a number
// ---------------------------------------------------------------------------

pub open spec fn dec_digit_byte(d: int) -> u8 {
    (48 + d) as u8
}

pub open spec fn hex_digit_byte(d: int) -> u8 {
    if d <= 9 {
        (48 + d) as u8
    } else {
        (87 + d) as u8
    }
}

/// The shortest decimal numeral of `n`, as ASCII bytes.
pub open spec fn dec_bytes(n: nat) -> Seq<u8>
    decreases n,
{
    if n <= 9 {
        seq![dec_digit_byte(n as int)]
    } else {
        dec_bytes(n / 10).push(dec_digit_byte((n % 10) as int))
    }
}

/// The shortest lowercase hexadecimal numeral of `n`, as ASCII bytes.
pub open spec fn hex_bytes(n: nat) -> Seq<u8>
    decreases n,
{
    if n <= 15 {
        seq![hex_digit_byte(n as int)]
    } else {
        hex_bytes(n / 16).push(hex_digit_byte((n % 16) as int))
    }
}

pub open spec fn bytes_to_chars(s: Seq<u8>) -> Seq<char> {
    s.map_values(|b: u8| b as char)
}

pub open spec fn dec_chars_of(n: nat) -> Seq<char> {
    bytes_to_chars(dec_bytes(n))
}

pub open spec fn hex_chars_of(n: nat) -> Seq<char> {
    bytes_to_chars(hex_bytes(n))
}

/// The canonical decimal numeral of `n` consists of decimal digits and reads
/// back as `n`.
pub proof fn lemma_dec_numeral(n: nat)
    ensures
        dec_bytes(n).len() >= 1,
        forall|i: int| 0 <= i < dec_bytes(n).len() ==> 48 <= #[trigger] dec_bytes(n)[i] <= 57,
        all_dec_digits(dec_chars_of(n)),
        dec_value(dec_chars_of(n)) == n,
    decreases n,
{
    if n <= 9 {
        let s = dec_chars_of(n);
        assert(s =~= seq![dec_digit_byte(n as int) as char]);
        assert(s.drop_last() =~= Seq::<char>::empty());
        assert(dec_value(s.drop_last()) == 0);
        assert(dec_digit_val(s.last()) == n);
        assert(dec_value(s) == 10 * dec_value(s.drop_last()) + dec_digit_val(s.last()));
    } else {
        lemma_dec_numeral(n / 10);
        let s = dec_chars_of(n);
        let tail = dec_digit_byte((n % 10) as int);
        assert(s =~= dec_chars_of(n / 10).push(tail as char));
        assert(s.drop_last() =~= dec_chars_of(n / 10));
        assert(s.last() == tail as char);
        assert(dec_digit_val(tail as char) == n % 10);
        assert(dec_value(s) == 10 * dec_value(s.drop_last()) + dec_digit_val(s.last()));
        assert(dec_value(s) == 10 * (n / 10) + n % 10);
    }
}

/// The canonical hexadecimal numeral of `n` consists of lowercase hex digits
/// and reads back as `n`.
pub proof fn lemma_hex_numeral(n: nat)
    ensures
        hex_bytes(n).len() >= 1,
        forall|i: int|
            0 <= i < hex_bytes(n).len() ==> (48 <= #[trigger] hex_bytes(n)[i] <= 57 || 97
                <= hex_bytes(n)[i] <= 102),
        all_hex_digits(hex_chars_of(n)),
        hex_value(hex_chars_of(n)) == n,
    decreases n,
{
    if n <= 15 {
        let s = hex_chars_of(n);
        assert(s =~= seq![hex_digit_byte(n as int) as char]);
        assert(s.drop_last() =~= Seq::<char>::empty());
        assert(hex_value(s.drop_last()) == 0);
        assert(hex_digit_val(s.last()) == n);
        assert(hex_value(s) == 16 * hex_value(s.drop_last()) + hex_digit_val(s.last()));
    } else {
        lemma_hex_numeral(n / 16);
        let s = hex_chars_of(n);
        let tail = hex_digit_byte((n % 16) as int);
        assert(s =~= hex_chars_of(n / 16).push(tail as char));
        assert(s.drop_last() =~= hex_chars_of(n / 16));
        assert(s.last() == tail as char);
        assert(hex_digit_val(tail as char) == n % 16);
        assert(hex_value(s) == 16 * hex_value(s.drop_last()) + hex_digit_val(s.last()));
        assert(hex_value(s) == 16 * (n / 16) + n % 16);
    }
}

/// A decimal digit string has a non-negative value.
pub proof fn lemma_dec_value_nonneg(s: Seq<char>)
    requires
        all_dec_digits(s),
    ensures
        dec_value(s) >= 0,
    decreases s.len(),
{
    if s.len() > 0 {
        assert(all_dec_digits(s.drop_last())) by {
            assert(forall|i: int| 0 <= i < s.len() - 1 ==> s.drop_last()[i] == s[i]);
        }
        lemma_dec_value_nonneg(s.drop_last());
        assert(is_dec_digit(s.last()));
    }
}

/// A hexadecimal digit string has a non-negative value.
pub proof fn lemma_hex_value_nonneg(s: Seq<char>)
    requires
        all_hex_digits(s),
    ensures
        hex_value(s) >= 0,
    decreases s.len(),
{
    if s.len() > 0 {
        assert(all_hex_digits(s.drop_last())) by {
            assert(forall|i: int| 0 <= i < s.len() - 1 ==> s.drop_last()[i] == s[i]);
        }
        lemma_hex_value_nonneg(s.drop_last());
        assert(is_hex_digit(s.last()));
    }
}

// ---------------------------------------------------------------------------
// Parsing
// ---------------------------------------------------------------------------

/// Parse a decimal numeral into a `u16`; `None` on an empty string, a
/// non-digit character, or a value above `u16::MAX`.
pub fn parse_dec_u16(s: &str) -> (r: Option<u16>)
    ensures
        (s@.len() > 0 && all_dec_digits(s@) && dec_value(s@) <= u16::MAX) ==> r == Some(
            dec_value(s@) as u16,
        ),
        !(s@.len() > 0 && all_dec_digits(s@) && dec_value(s@) <= u16::MAX) ==> r is None,
{
    let len = s.unicode_len();
    if len == 0 {
        return None;
    }
    let mut i: usize = 0;
    let mut acc: u32 = 0;
    let mut ovf: bool = false;
    while i < len
        invariant
            0 <= i <= len,
            len == s@.len(),
            forall|j: int| 0 <= j < i ==> is_dec_digit(#[trigger] s@[j]),
            !ovf ==> acc == dec_value(s@.take(i as int)) && acc <= 65535,
            ovf ==> dec_value(s@.take(i as int)) > 65535,
        decreases len - i,
    {
        let c = s.get_char(i);
        let v = c as u32;
        if v < 48 || v > 57 {
            assert(!is_dec_digit(s@[i as int]));
            return None;
        }
        proof {
            assert(s@.take(i as int + 1).drop_last() =~= s@.take(i as int));
            assert(s@.take(i as int + 1).last() == s@[i as int]);
        }
        if !ovf {
            acc = acc * 10 + (v - 48);
            if acc > 65535 {
                ovf = true;
            }
        } else {
            assert(dec_value(s@.take(i as int + 1)) == 10 * dec_value(s@.take(i as int)) + (v
                - 48));
        }
        i += 1;
    }
    proof {
        assert(s@.take(len as int) =~= s@);
    }
    if ovf {
        None
    } else {
        Some(acc as u16)
    }
}

/// Parse a hexadecimal numeral (either letter case) into a `u64`; `None` on
/// an empty string, a non-hex character, or a value above `u64::MAX`.
pub fn parse_hex_u64(s: &str) -> (r: Option<u64>)
    ensures
        (s@.len() > 0 && all_hex_digits(s@) && hex_value(s@) <= u64::MAX) ==> r == Some(
            hex_value(s@) as u64,
        ),
        !(s@.len() > 0 && all_hex_digits(s@) && hex_value(s@) <= u64::MAX) ==> r is None,
{
    let len = s.unicode_len();
    if len == 0 {
        return None;
    }
    let mut i: usize = 0;
    let mut acc: u64 = 0;
    let mut ovf: bool = false;
    while i < len
        invariant
            0 <= i <= len,
            len == s@.len(),
            forall|j: int| 0 <= j < i ==> is_hex_digit(#[trigger] s@[j]),
            !ovf ==> acc == hex_value(s@.take(i as int)),
            ovf ==> hex_value(s@.take(i as int)) > u64::MAX,
        decreases len - i,
    {
        let c = s.get_char(i);
        let v = c as u32;
        let d: u64 = if 48 <= v && v <= 57 {
            (v - 48) as u64
        } else if 97 <= v && v <= 102 {
            (v - 87) as u64
        } else if 65 <= v && v <= 70 {
            (v - 55) as u64
        } else {
            assert(!is_hex_digit(s@[i as int]));
            return None;
        };
        assert(d == hex_digit_val(s@[i as int]));
        proof {
            assert(s@.take(i as int + 1).drop_last() =~= s@.take(i as int));
            assert(s@.take(i as int + 1).last() == s@[i as int]);
            vstd::arithmetic::div_mod::lemma_fundamental_div_mod((u64::MAX - d) as int, 16);
        }
        if !ovf {
            if acc <= (u64::MAX - d) / 16 {
                acc = acc * 16 + d;
            } else {
                ovf = true;
            }
        }
        i += 1;
    }
    proof {
        assert(s@.take(len as int) =~= s@);
    }
    if ovf {
        None
    } else {
        Some(acc)
    }
}

// ---------------------------------------------------------------------------
// Formatting
// ---------------------------------------------------------------------------

fn push_dec_u16(out: &mut Vec<u8>, n: u16)
    ensures
        final(out)@ == old(out)@ + dec_bytes(n as nat),
    decreases n,
{
    if n <= 9 {
        out.push(48 + n as u8);
        assert(final(out)@ =~= old(out)@ + dec_bytes(n as nat));
    } else {
        push_dec_u16(out, n / 10);
        out.push(48 + (n % 10) as u8);
        assert(final(out)@ =~= old(out)@ + dec_bytes(n as nat));
    }
}

pub(crate) fn push_dec_u64(out: &mut Vec<u8>, n: u64)
    ensures
        final(out)@ == old(out)@ + dec_bytes(n as nat),
    decreases n,
{
    if n <= 9 {
        out.push(48 + n as u8);
        assert(final(out)@ =~= old(out)@ + dec_bytes(n as nat));
    } else {
        push_dec_u64(out, n / 10);
        out.push(48 + (n % 10) as u8);
        assert(final(out)@ =~= old(out)@ + dec_bytes(n as nat));
    }
}

fn push_hex_u64(out: &mut Vec<u8>, n: u64)
    ensures
        final(out)@ == old(out)@ + hex_bytes(n as nat),
    decreases n,
{
    if n <= 15 {
        let d = n as u8;
        out.push(if d <= 9 {
            48 + d
        } else {
            87 + d
        });
        assert(final(out)@ =~= old(out)@ + hex_bytes(n as nat));
    } else {
        push_hex_u64(out, n / 16);
        let d = (n % 16) as u8;
        out.push(if d <= 9 {
            48 + d
        } else {
            87 + d
        });
        assert(final(out)@ =~= old(out)@ + hex_bytes(n as nat));
    }
}

/// Relies on `String::from_utf8`: ASCII bytes decode to exactly those
/// characters, so the call cannot fail.
#[verifier::external_body]
pub(crate) fn ascii_bytes_to_string(bytes: Vec<u8>) -> (r: String)
    requires
        forall|i: int| 0 <= i < bytes@.len() ==> bytes@[i] < 128,
    ensures
        r@ == bytes_to_chars(bytes@),
{
    String::from_utf8(bytes).unwrap()
}

/// The shortest decimal numeral of `n`, as a string.
pub fn u16_to_dec_string(n: u16) -> (r: String)
    ensures
        r@ == dec_chars_of(n as nat),
{
    let mut bytes: Vec<u8> = Vec::new();
    push_dec_u16(&mut bytes, n);
    proof {
        lemma_dec_numeral(n as nat);
        assert(bytes@ =~= dec_bytes(n as nat));
    }
    ascii_bytes_to_string(bytes)
}

/// The shortest lowercase hexadecimal numeral of `n`, as a string.
pub fn u64_to_hex_string(n: u64) -> (r: String)
    ensures
        r@ == hex_chars_of(n as nat),
{
    let mut bytes: Vec<u8> = Vec::new();
    push_hex_u64(&mut bytes, n);
    proof {
        lemma_hex_numeral(n as nat);
        assert(bytes@ =~= hex_bytes(n as nat));
    }
    ascii_bytes_to_string(bytes)
}

/// The lowercase form of an ASCII string.
pub fn lower_str(s: &str) -> (r: String)
    requires
        s.is_ascii(),
    ensures
        r@ == seq_lower(s@),
{
    let len = s.unicode_len();
    let mut bytes: Vec<u8> = Vec::new();
    let mut i: usize = 0;
    while i < len
        invariant
            0 <= i <= len,
            len == s@.len(),
            vstd::string::is_ascii(s),
            bytes@.len() == i,
            forall|j: int| 0 <= j < i ==> bytes@[j] < 128,
            forall|j: int| 0 <= j < i ==> #[trigger] bytes@[j] as char == lower_char(s@[j]),
        decreases len - i,
    {
        let c = s.get_char(i);
        assert('\0' <= c <= '\u{7f}');
        let v = c as u32;
        let nb: u8 = if 65 <= v && v <= 90 {
            (v + 32) as u8
        } else {
            v as u8
        };
        assert(nb as char == lower_char(s@[i as int]));
        bytes.push(nb);
        i += 1;
    }
    let r = ascii_bytes_to_string(bytes);
    proof {
        assert(r@ =~= seq_lower(s@));
    }
    r
}

} // verus!

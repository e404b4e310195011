use vstd::prelude::*;
use vstd::string::{is_ascii_spec_bytes, StringSliceAdditionalSpecFns};
use vstd::utf8::encode_utf8_decode_utf8;

verus! {

/// The texts of a list of strings.
pub open spec fn text_views(strings: Seq<String>) -> Seq<Seq<char>> {
    strings.map_values(|s: String| s@)
}

/// Whether `c` is one of the decimal digits `0` to `9`.
pub open spec fn is_digit(c: char) -> bool {
    '0' <= c <= '9'
}

/// The number that a string of decimal digits stands for.
pub open spec fn digits_value(s: Seq<char>) -> nat
    decreases s.len(),
{
    if s.len() == 0 {
        0
    } else {
        (10 * digits_value(s.drop_last()) + (s.last() as u32 - 48)) as nat
    }
}

/// The digits of a numeral: the text without a leading `+`.
pub open spec fn digits_of(s: Seq<char>) -> Seq<char> {
    if s.len() > 0 && s[0] == '+' {
        s.skip(1)
    } else {
        s
    }
}

/// The index key that a textual value stands for, where it stands for one:
/// an optional `+`, then one or more decimal digits and nothing else, with a
/// value of at most 65535.
pub open spec fn key_of(s: Seq<char>) -> Option<u16> {
    let d = digits_of(s);
    if d.len() > 0 && (forall|i: int| 0 <= i < d.len() ==> is_digit(#[trigger] d[i]))
        && digits_value(d) <= 0xffff {
        Some(digits_value(d) as u16)
    } else {
        None
    }
}

/// The value of a string of digits is no less than that of any of its prefixes.
pub proof fn lemma_digits_value_grows(s: Seq<char>, k: int)
    requires
        0 <= k <= s.len(),
        forall|i: int| 0 <= i < s.len() ==> is_digit(#[trigger] s[i]),
    ensures
        digits_value(s.take(k)) <= digits_value(s),
    decreases s.len() - k,
{
    if k == s.len() {
        assert(s.take(k) =~= s);
    } else {
        lemma_digits_value_grows(s, k + 1);
        let longer = s.take(k + 1);
        assert(longer.drop_last() =~= s.take(k));
        assert(is_digit(s[k]));
        assert(longer.last() == s[k]);
    }
}

/// The byte of an ASCII character tells whether it is a digit or a plus sign.
pub proof fn lemma_ascii_byte(c: char)
    requires
        c <= '\u{7f}',
    ensures
        (c as u8) as u32 == c as u32,
        is_digit(c) <==> 48 <= c as u8 <= 57,
        c == '+' <==> c as u8 == 43,
{
    let u = c as u32;
    assert(u < 128 ==> (u as u8) as u32 == u) by (bit_vector);
    assert('0' as u32 == 48 && '9' as u32 == 57 && '+' as u32 == 43);
    vstd::utf8::char_u32_cast(c, u);
    vstd::utf8::char_u32_cast('+', 43);
}

/// Whether two string slices hold the same text.
pub fn str_eq(a: &str, b: &str) -> (same: bool)
    ensures
        same == (a@ == b@),
{
    let x = a.as_bytes();
    let y = b.as_bytes();
    proof {
        encode_utf8_decode_utf8(a@);
        encode_utf8_decode_utf8(b@);
    }
    if x.len() != y.len() {
        return false;
    }
    let mut i: usize = 0;
    while i < x.len()
        invariant
            i <= x.len(),
            x.len() == y.len(),
            x@ == a.spec_bytes(),
            y@ == b.spec_bytes(),
            forall|j: int| 0 <= j < i ==> x[j] == y[j],
        decreases x.len() - i,
    {
        if x[i] != y[i] {
            return false;
        }
        i += 1;
    }
    proof {
        assert(x@ =~= y@);
    }
    true
}

/// Reads `s` as an index key: `Some` of the number where `s` is a numeral
/// of at most 65535, `None` for any other text.
pub fn parse_key(s: &str) -> (key: Option<u16>)
    ensures
        key == key_of(s@),
{
    if !s.is_ascii() {
        proof {
            let i = choose|i: int| 0 <= i < s@.len() && !('\0' <= #[trigger] s@[i] <= '\u{7f}');
            let d = digits_of(s@);
            if d.len() == s@.len() {
                assert(!is_digit(d[i]));
            } else {
                assert(i > 0);
                assert(d[i - 1] == s@[i]);
                assert(!is_digit(d[i - 1]));
            }
        }
        return None;
    }
    let bytes = s.as_bytes();
    proof {
        is_ascii_spec_bytes(s);
    }
    proof {
        if s@.len() > 0 {
            lemma_ascii_byte(s@[0]);
        }
    }
    let start: usize = if bytes.len() > 0 && bytes[0] == 43 {
        1
    } else {
        0
    };
    let ghost d = digits_of(s@);
    assert(d =~= s@.skip(start as int));
    if start == bytes.len() {
        return None;
    }
    let mut i: usize = start;
    let mut value: u32 = 0;
    while i < bytes.len()
        invariant
            start <= i <= bytes.len(),
            bytes@.len() == s@.len(),
            forall|j: int| 0 <= j < bytes.len() ==> bytes[j] == s@[j] as u8,
            forall|j: int| 0 <= j < s@.len() ==> '\0' <= #[trigger] s@[j] <= '\u{7f}',
            d == s@.skip(start as int),
            d == digits_of(s@),
            d.len() == bytes.len() - start,
            forall|j: int| 0 <= j < i - start ==> is_digit(#[trigger] d[j]),
            value == digits_value(d.take(i - start)),
            value <= 0xffff,
        decreases bytes.len() - i,
    {
        let b = bytes[i];
        proof {
            assert(d[i - start] == s@[i as int]);
            assert(b == s@[i as int] as u8);
            lemma_ascii_byte(s@[i as int]);
        }
        if b < 48 || b > 57 {
            proof {
                assert(!is_digit(d[i - start]));
            }
            return None;
        }
        let ghost longer = d.take(i - start + 1);
        proof {
            assert(longer.drop_last() =~= d.take(i - start));
            assert(longer.last() == d[i - start]);
        }
        value = value * 10 + (b as u32 - 48);
        assert(value == digits_value(longer));
        if value > 0xffff {
            proof {
                if forall|j: int| 0 <= j < d.len() ==> is_digit(#[trigger] d[j]) {
                    lemma_digits_value_grows(d, i - start + 1);
                }
            }
            return None;
        }
        i += 1;
    }
    proof {
        assert(d.take(i - start) =~= d);
    }
    Some(value as u16)
}

} // verus!

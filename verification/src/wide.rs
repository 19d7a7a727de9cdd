//! Wide-string codec: conversions between text, UTF-16 code units and the
//! little-endian byte payloads that string-kind registry values persist.
//!
//! Encoding is exact. Decoding is lossy by design: unpaired surrogates are
//! replaced by the Unicode replacement character, mirroring how stores
//! commonly contain malformed UTF-16 written by legacy programs.
use vstd::prelude::*;

verus! {

/// The Unicode replacement character, substituted for unpaired surrogates.
pub const REPLACEMENT: char = '\u{FFFD}';

/// Little-endian byte serialization of a sequence of 16-bit units.
pub open spec fn le_bytes(units: Seq<u16>) -> Seq<u8>
    decreases units.len(),
{
    if units.len() == 0 {
        Seq::empty()
    } else {
        seq![(units[0] % 256) as u8, (units[0] / 256) as u8] + le_bytes(units.drop_first())
    }
}

/// 16-bit units read from little-endian bytes; a trailing odd byte is
/// ignored, as the store's readers conventionally do.
pub open spec fn units_of(bytes: Seq<u8>) -> Seq<u16>
    decreases bytes.len(),
{
    if bytes.len() < 2 {
        Seq::empty()
    } else {
        seq![(bytes[0] + 256 * bytes[1]) as u16] + units_of(bytes.skip(2))
    }
}

/// UTF-16 encoding of one character: one unit for the basic plane, a
/// surrogate pair for the rest.
pub open spec fn utf16_char(c: char) -> Seq<u16> {
    if (c as u32) < 0x10000 {
        seq![(c as u32) as u16]
    } else {
        seq![
            (0xD800 + ((c as u32) - 0x10000) / 0x400) as u16,
            (0xDC00 + ((c as u32) - 0x10000) % 0x400) as u16,
        ]
    }
}

/// UTF-16 encoding of a character sequence.
pub open spec fn utf16(s: Seq<char>) -> Seq<u16>
    decreases s.len(),
{
    if s.len() == 0 {
        Seq::empty()
    } else {
        utf16_char(s[0]) + utf16(s.drop_first())
    }
}

/// Lossy UTF-16 decoding: valid pairs and plain units decode exactly,
/// unpaired surrogates become the replacement character.
pub open spec fn chars_of_utf16(units: Seq<u16>) -> Seq<char>
    decreases units.len(),
{
    if units.len() == 0 {
        Seq::empty()
    } else {
        let u = units[0];
        if u < 0xD800 || u >= 0xE000 {
            seq![((u as u32) as char)] + chars_of_utf16(units.drop_first())
        } else if u < 0xDC00 {
            if units.len() >= 2 && 0xDC00 <= units[1] && units[1] < 0xE000 {
                seq![(((0x10000 + (u - 0xD800) * 0x400 + (units[1] - 0xDC00)) as u32) as char)]
                    + chars_of_utf16(units.skip(2))
            } else {
                seq![REPLACEMENT] + chars_of_utf16(units.drop_first())
            }
        } else {
            seq![REPLACEMENT] + chars_of_utf16(units.drop_first())
        }
    }
}

/// Relies on char::from_u32: returns the character with the given scalar
/// value for every valid Unicode scalar value, and None otherwise.
#[verifier::external_body]
pub fn char_from_u32(v: u32) -> (r: Option<char>)
    ensures
        r matches Some(c) ==> c as u32 == v,
        r is Some <==> (v < 0xD800 || (0xE000 <= v && v < 0x110000)),
{
    char::from_u32(v)
}

/// Relies on String::push: appends the given character to the string.
#[verifier::external_body]
pub fn push_char(s: &mut String, c: char)
    ensures
        final(s)@ == old(s)@.push(c),
{
    s.push(c);
}

/// Serialization of a single unit.
proof fn lemma_le_bytes_singleton(w: u16)
    ensures
        le_bytes(seq![w]) == seq![(w % 256) as u8, (w / 256) as u8],
{
    assert(seq![w].drop_first() =~= Seq::<u16>::empty());
    assert(le_bytes(Seq::<u16>::empty()) == Seq::<u8>::empty());
    assert(le_bytes(seq![w]) =~= seq![(w % 256) as u8, (w / 256) as u8]);
}

/// Encoding of a single character.
pub proof fn lemma_utf16_singleton(c: char)
    ensures
        utf16(seq![c]) == utf16_char(c),
{
    assert(seq![c].drop_first() =~= Seq::<char>::empty());
    assert(utf16(Seq::<char>::empty()) == Seq::<u16>::empty());
    assert(utf16(seq![c]) =~= utf16_char(c));
}

/// Reading the little-endian bytes of a unit sequence back yields the same
/// units.
pub proof fn lemma_units_le_round_trip(units: Seq<u16>)
    ensures
        units_of(le_bytes(units)) == units,
    decreases units.len(),
{
    if units.len() == 0 {
    } else {
        let b = le_bytes(units);
        lemma_units_le_round_trip(units.drop_first());
        assert(b.skip(2) =~= le_bytes(units.drop_first()));
        assert(b[0] + 256 * b[1] == units[0]) by {
            assert(units[0] % 256 + 256 * (units[0] / 256) == units[0]);
        }
        assert(units_of(b) =~= units);
    }
}

/// Byte serialization of concatenated units is the concatenation of the
/// serializations.
pub proof fn lemma_le_bytes_append(a: Seq<u16>, b: Seq<u16>)
    ensures
        le_bytes(a + b) == le_bytes(a) + le_bytes(b),
    decreases a.len(),
{
    if a.len() == 0 {
        assert(a + b =~= b);
        assert(le_bytes(a) + le_bytes(b) =~= le_bytes(b));
    } else {
        lemma_le_bytes_append(a.drop_first(), b);
        assert((a + b).drop_first() =~= a.drop_first() + b);
        assert(le_bytes(a + b) =~= le_bytes(a) + le_bytes(b));
    }
}

/// UTF-16 encoding of concatenated text is the concatenation of the
/// encodings.
pub proof fn lemma_utf16_append(a: Seq<char>, b: Seq<char>)
    ensures
        utf16(a + b) == utf16(a) + utf16(b),
    decreases a.len(),
{
    if a.len() == 0 {
        assert(a + b =~= b);
        assert(utf16(a) + utf16(b) =~= utf16(b));
    } else {
        lemma_utf16_append(a.drop_first(), b);
        assert((a + b).drop_first() =~= a.drop_first() + b);
        assert((a + b)[0] == a[0]);
        assert(utf16(a + b) =~= utf16(a) + utf16(b));
    }
}

/// The UTF-16 encoding of text without nul characters contains no zero unit.
pub proof fn lemma_utf16_no_zero(s: Seq<char>)
    requires
        forall|i: int| 0 <= i < s.len() ==> s[i] != '\u{0}',
    ensures
        forall|i: int| 0 <= i < utf16(s).len() ==> utf16(s)[i] != 0,
    decreases s.len(),
{
    if s.len() == 0 {
    } else {
        assert(forall|i: int| 0 <= i < s.drop_first().len() ==> s.drop_first()[i] != '\u{0}');
        lemma_utf16_no_zero(s.drop_first());
        assert(s[0] as u32 != 0) by {
            if s[0] as u32 == 0 {
                vstd::utf8::char_u32_cast(s[0], 0u32);
                assert(('\u{0}' as u32) == 0);
                vstd::utf8::char_u32_cast('\u{0}', 0u32);
            }
        }
        assert forall|i: int| 0 <= i < utf16(s).len() implies utf16(s)[i] != 0 by {
            if i < utf16_char(s[0]).len() {
                vstd::utf8::char_is_scalar(s[0]);
                if (s[0] as u32) >= 0x10000 {
                    lemma_div_in_range((s[0] as u32 - 0x10000) as int);
                }
                assert(utf16(s)[i] == utf16_char(s[0])[i]);
            } else {
                assert(utf16(s)[i] == utf16(s.drop_first())[i - utf16_char(s[0]).len()]);
            }
        }
    }
}

/// Division bound used by the surrogate-pair arithmetic.
proof fn lemma_div_in_range(v: int)
    requires
        0 <= v < 0x100000,
    ensures
        0 <= v / 0x400 < 0x400,
        0 <= v % 0x400 < 0x400,
        0x400 * (v / 0x400) + v % 0x400 == v,
{
    vstd::arithmetic::div_mod::lemma_fundamental_div_mod(v, 0x400);
    vstd::arithmetic::div_mod::lemma_mod_bound(v, 0x400);
    if v / 0x400 >= 0x400 {
        assert(0x400 * (v / 0x400) >= 0x400 * 0x400) by (nonlinear_arith)
            requires
                v / 0x400 >= 0x400,
        ;
        assert(false);
    }
    if v / 0x400 < 0 {
        assert(0x400 * (v / 0x400) <= 0 - 0x400) by (nonlinear_arith)
            requires
                v / 0x400 < 0,
        ;
        assert(false);
    }
}

/// Decoding the UTF-16 encoding of text yields the text exactly.
pub proof fn lemma_utf16_round_trip(s: Seq<char>)
    ensures
        chars_of_utf16(utf16(s)) == s,
    decreases s.len(),
{
    if s.len() == 0 {
        assert(chars_of_utf16(utf16(s)) =~= s);
    } else {
        let c = s[0];
        let rest = s.drop_first();
        vstd::utf8::char_is_scalar(c);
        lemma_utf16_round_trip(rest);
        let u = utf16(s);
        assert(u =~= utf16_char(c) + utf16(rest));
        if (c as u32) < 0x10000 {
            assert(u[0] == (c as u32) as u16);
            assert(u[0] as u32 == c as u32);
            vstd::utf8::char_u32_cast(c, u[0] as u32);
            assert(u.drop_first() =~= utf16(rest));
            assert(chars_of_utf16(u) =~= s);
        } else {
            let v = (c as u32) - 0x10000;
            lemma_div_in_range(v as int);
            let hi = u[0];
            let lo = u[1];
            assert(hi == 0xD800 + v / 0x400);
            assert(lo == 0xDC00 + v % 0x400);
            assert(0x10000 + (hi - 0xD800) * 0x400 + (lo - 0xDC00) == c as u32) by {
                assert((v / 0x400) * 0x400 == 0x400 * (v / 0x400)) by (nonlinear_arith);
            }
            vstd::utf8::char_u32_cast(c, ((0x10000 + (hi - 0xD800) * 0x400 + (lo - 0xDC00)) as u32));
            assert(u.skip(2) =~= utf16(rest));
            assert(chars_of_utf16(u) =~= s);
        }
    }
}

/// Serializes 16-bit units as little-endian bytes.
pub fn units_to_bytes(units: &Vec<u16>) -> (r: Vec<u8>)
    ensures
        r@ == le_bytes(units@),
{
    let mut r: Vec<u8> = Vec::new();
    let mut i: usize = 0;
    while i < units.len()
        invariant
            i <= units.len(),
            r@ == le_bytes(units@.take(i as int)),
        decreases units.len() - i,
    {
        let u = units[i];
        r.push((u % 256) as u8);
        r.push((u / 256) as u8);
        proof {
            let w = units@[i as int];
            assert(units@.take(i + 1) =~= units@.take(i as int) + seq![w]);
            lemma_le_bytes_append(units@.take(i as int), seq![w]);
            lemma_le_bytes_singleton(w);
        }
        i = i + 1;
    }
    proof {
        assert(units@.take(units@.len() as int) =~= units@);
    }
    r
}

/// Reads 16-bit units from little-endian bytes, ignoring a trailing odd
/// byte.
pub fn bytes_to_units(bytes: &Vec<u8>) -> (r: Vec<u16>)
    ensures
        r@ == units_of(bytes@),
{
    let mut r: Vec<u16> = Vec::new();
    let mut i: usize = 0;
    proof {
        assert(bytes@.skip(0) =~= bytes@);
    }
    let n = bytes.len();
    while n - i >= 2
        invariant
            i <= n,
            n == bytes@.len(),
            r@ + units_of(bytes@.skip(i as int)) == units_of(bytes@),
        decreases n - i,
    {
        let lo = bytes[i];
        let hi = bytes[i + 1];
        proof {
            let tail = bytes@.skip(i as int);
            assert(tail[0] == bytes@[i as int]);
            assert(tail[1] == bytes@[i + 1]);
            assert(tail.skip(2) =~= bytes@.skip(i + 2));
            assert(r@.push((lo + 256 * hi) as u16) + units_of(bytes@.skip(i + 2)) =~= r@
                + units_of(tail));
        }
        r.push(lo as u16 + 256 * (hi as u16));
        i = i + 2;
    }
    proof {
        assert(units_of(bytes@.skip(i as int)) =~= Seq::<u16>::empty());
        assert(r@ + Seq::<u16>::empty() =~= r@);
    }
    r
}

/// UTF-16 encodes a string.
pub fn encode_wide(s: &str) -> (r: Vec<u16>)
    ensures
        r@ == utf16(s@),
{
    let n = s.unicode_len();
    let mut r: Vec<u16> = Vec::new();
    let mut i: usize = 0;
    while i < n
        invariant
            i <= n,
            n == s@.len(),
            r@ == utf16(s@.take(i as int)),
        decreases n - i,
    {
        let c = s.get_char(i);
        let v = c as u32;
        if v < 0x10000 {
            r.push(v as u16);
        } else {
            let d = v - 0x10000;
            proof {
                lemma_div_in_range(d as int);
            }
            r.push(0xD800 + (d / 0x400) as u16);
            r.push(0xDC00 + (d % 0x400) as u16);
        }
        proof {
            assert(s@.take(i + 1) =~= s@.take(i as int) + seq![s@[i as int]]);
            lemma_utf16_append(s@.take(i as int), seq![s@[i as int]]);
            lemma_utf16_singleton(s@[i as int]);
        }
        i = i + 1;
    }
    proof {
        assert(s@.take(s@.len() as int) =~= s@);
    }
    r
}

/// Lossily decodes UTF-16 units into characters, substituting the
/// replacement character for unpaired surrogates.
pub fn decode_wide(units: &Vec<u16>) -> (r: Vec<char>)
    ensures
        r@ == chars_of_utf16(units@),
{
    let n = units.len();
    let mut r: Vec<char> = Vec::new();
    let mut i: usize = 0;
    proof {
        assert(units@.skip(0) =~= units@);
    }
    while i < n
        invariant
            i <= n,
            n == units@.len(),
            r@ + chars_of_utf16(units@.skip(i as int)) == chars_of_utf16(units@),
        decreases n - i,
    {
        let ghost tail = units@.skip(i as int);
        let ghost r0 = r@;
        proof {
            assert(tail[0] == units@[i as int]);
            if i + 1 < n {
                assert(tail[1] == units@[i + 1]);
            }
            assert(tail.drop_first() =~= units@.skip(i + 1));
            if i + 2 <= n {
                assert(tail.skip(2) =~= units@.skip(i + 2));
            }
        }
        let u = units[i];
        let c: char;
        if u < 0xD800 || u >= 0xE000 {
            c = match char_from_u32(u as u32) {
                Some(x) => x,
                None => {
                    proof {
                        assert(false);
                    }
                    REPLACEMENT
                },
            };
            proof {
                vstd::utf8::char_u32_cast(c, u as u32);
                assert(chars_of_utf16(tail) =~= seq![c] + chars_of_utf16(units@.skip(i + 1)));
            }
            i = i + 1;
        } else if u < 0xDC00 && i + 1 < n && units[i + 1] >= 0xDC00 && units[i + 1] < 0xE000 {
            let lo = units[i + 1];
            let v: u32 = 0x10000 + (u as u32 - 0xD800) * 0x400 + (lo as u32 - 0xDC00);
            c = match char_from_u32(v) {
                Some(x) => x,
                None => {
                    proof {
                        assert(false);
                    }
                    REPLACEMENT
                },
            };
            proof {
                vstd::utf8::char_u32_cast(c, v);
                assert(v == (0x10000 + (tail[0] - 0xD800) * 0x400 + (tail[1] - 0xDC00)) as u32);
                assert(chars_of_utf16(tail) =~= seq![c] + chars_of_utf16(units@.skip(i + 2)));
            }
            i = i + 2;
        } else {
            c = REPLACEMENT;
            proof {
                assert(chars_of_utf16(tail) =~= seq![c] + chars_of_utf16(units@.skip(i + 1)));
            }
            i = i + 1;
        }
        r.push(c);
        proof {
            assert(r@ =~= r0 + seq![c]);
            assert(r0 + chars_of_utf16(tail) =~= r@ + chars_of_utf16(units@.skip(i as int)));
        }
    }
    proof {
        assert(chars_of_utf16(units@.skip(i as int)) =~= Seq::<char>::empty());
        assert(r@ + Seq::<char>::empty() =~= r@);
    }
    r
}

/// Builds a string from a character sequence.
pub fn chars_to_string(chars: &Vec<char>) -> (r: String)
    ensures
        r@ == chars@,
{
    let mut r = String::new();
    let mut i: usize = 0;
    while i < chars.len()
        invariant
            i <= chars.len(),
            r@ == chars@.take(i as int),
        decreases chars.len() - i,
    {
        push_char(&mut r, chars[i]);
        proof {
            assert(chars@.take(i + 1) =~= chars@.take(i as int).push(chars@[i as int]));
        }
        i = i + 1;
    }
    proof {
        assert(chars@.take(chars@.len() as int) =~= chars@);
    }
    r
}

/// Collects the characters of a string.
pub fn string_to_chars(s: &str) -> (r: Vec<char>)
    ensures
        r@ == s@,
{
    let n = s.unicode_len();
    let mut r: Vec<char> = Vec::new();
    let mut i: usize = 0;
    while i < n
        invariant
            i <= n,
            n == s@.len(),
            r@ == s@.take(i as int),
        decreases n - i,
    {
        r.push(s.get_char(i));
        proof {
            assert(s@.take(i + 1) =~= s@.take(i as int).push(s@[i as int]));
        }
        i = i + 1;
    }
    proof {
        assert(s@.take(s@.len() as int) =~= s@);
    }
    r
}

} // verus!

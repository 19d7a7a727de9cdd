//! Traits for loading and saving typed registry values, with the codec
//! specifications they are proved against, and the round-trip laws.
//!
//! `decode(encode(v))` recovers `v` exactly for every supported type; the
//! one exception is text whose last character is nul, which string decoding
//! strips by convention (see [`lemma_string_round_trip`]).
use vstd::prelude::*;

use crate::RegValue;
use crate::RegValueView;
use crate::enums::RegError;
use crate::enums::RegType;
use crate::wide;

verus! {

/// Text without trailing nul characters.
pub open spec fn strip_trailing_nuls(s: Seq<char>) -> Seq<char>
    decreases s.len(),
{
    if s.len() > 0 && s.last() == '\u{0}' {
        strip_trailing_nuls(s.drop_last())
    } else {
        s
    }
}

/// Text with every nul character shown as a line break, the joined form in
/// which multi-string payloads read as one string.
pub open spec fn nuls_to_newlines(s: Seq<char>) -> Seq<char> {
    s.map_values(|c: char| if c == '\u{0}' { '\n' } else { c })
}

/// The text stored by a string-kind value: its payload decoded from UTF-16
/// with trailing nuls stripped.
pub open spec fn spec_sz_text(v: RegValueView) -> Seq<char> {
    strip_trailing_nuls(wide::chars_of_utf16(wide::units_of(v.data)))
}

/// Splits units into nul-terminated pieces; a trailing piece without a
/// terminator is kept as written.
pub open spec fn split_zt(units: Seq<u16>) -> Seq<Seq<u16>>
    decreases units.len(),
{
    if units.len() == 0 {
        Seq::empty()
    } else if units[0] == 0 {
        seq![Seq::<u16>::empty()] + split_zt(units.drop_first())
    } else {
        prepend_unit(units[0], split_zt(units.drop_first()))
    }
}

/// Prefixes a unit onto the first piece of a piece list.
pub open spec fn prepend_unit(u: u16, pieces: Seq<Seq<u16>>) -> Seq<Seq<u16>> {
    if pieces.len() == 0 {
        seq![seq![u]]
    } else {
        seq![seq![u] + pieces[0]] + pieces.drop_first()
    }
}

/// The unit pieces of a multi-string payload: the final list terminator is
/// removed, then the nul-terminated pieces are taken.
pub open spec fn msz_pieces(units: Seq<u16>) -> Seq<Seq<u16>> {
    if units.len() == 0 {
        Seq::empty()
    } else if units.last() == 0 {
        split_zt(units.drop_last())
    } else {
        split_zt(units)
    }
}

/// The list of texts stored by a multi-string value.
pub open spec fn spec_msz_texts(v: RegValueView) -> Seq<Seq<char>> {
    msz_pieces(wide::units_of(v.data)).map_values(|u: Seq<u16>| wide::chars_of_utf16(u))
}

/// The unit body of a multi-string payload: each text UTF-16 encoded and
/// nul-terminated, in order.
pub open spec fn msz_body(texts: Seq<Seq<char>>) -> Seq<u16>
    decreases texts.len(),
{
    if texts.len() == 0 {
        Seq::empty()
    } else {
        wide::utf16(texts[0]) + seq![0u16] + msz_body(texts.drop_first())
    }
}

/// Encoded view of text: a string-kind value holding the UTF-16 units and
/// one terminating nul, as little-endian bytes.
pub open spec fn spec_encode_sz(t: Seq<char>) -> RegValueView {
    RegValueView { ty: RegType::REG_SZ, data: wide::le_bytes(wide::utf16(t) + seq![0u16]) }
}

/// Encoded view of a text list: the nul-terminated texts followed by the
/// list terminator, as little-endian bytes.
pub open spec fn spec_encode_msz(texts: Seq<Seq<char>>) -> RegValueView {
    RegValueView {
        ty: RegType::REG_MULTI_SZ,
        data: wide::le_bytes(msz_body(texts) + seq![0u16]),
    }
}

/// The four little-endian bytes of a 32-bit integer.
pub open spec fn spec_u32_data(v: u32) -> Seq<u8> {
    seq![
        (v % 256) as u8,
        ((v / 256) % 256) as u8,
        ((v / 0x10000) % 256) as u8,
        ((v / 0x1000000) % 256) as u8,
    ]
}

/// The 32-bit integer read from four little-endian bytes.
pub open spec fn spec_u32_of(data: Seq<u8>) -> u32 {
    (data[0] + data[1] * 0x100 + data[2] * 0x10000 + data[3] * 0x1000000) as u32
}

/// The eight little-endian bytes of a 64-bit integer.
pub open spec fn spec_u64_data(v: u64) -> Seq<u8> {
    seq![
        (v % 256) as u8,
        ((v / 0x100) % 256) as u8,
        ((v / 0x10000) % 256) as u8,
        ((v / 0x1000000) % 256) as u8,
        ((v / 0x100000000) % 256) as u8,
        ((v / 0x10000000000) % 256) as u8,
        ((v / 0x1000000000000) % 256) as u8,
        ((v / 0x100000000000000) % 256) as u8,
    ]
}

/// The 64-bit integer read from eight little-endian bytes.
pub open spec fn spec_u64_of(data: Seq<u8>) -> u64 {
    (data[0] + data[1] * 0x100 + data[2] * 0x10000 + data[3] * 0x1000000 + data[4] * 0x100000000
        + data[5] * 0x10000000000 + data[6] * 0x1000000000000 + data[7]
        * 0x100000000000000) as u64
}

/// A type that can be loaded from a raw registry value.
///
/// The three spec functions say, for every raw value, whether decoding
/// succeeds, which error it reports otherwise, and what it returns.
pub trait FromRegValue: Sized + DeepView {
    /// Whether this type can be decoded from the given raw value.
    spec fn decode_ok(v: RegValueView) -> bool;

    /// The error decoding reports when it cannot succeed.
    spec fn decode_err(v: RegValueView) -> RegError;

    /// The result of decoding, when it succeeds.
    spec fn decoded(v: RegValueView) -> Self::V;

    /// Decodes a raw registry value into this type.
    fn from_reg_value(val: &RegValue) -> (r: Result<Self, RegError>)
        ensures
            Self::decode_ok(val@) ==> (r matches Ok(x) && x.deep_view() == Self::decoded(val@)),
            !Self::decode_ok(val@) ==> (r matches Err(e) && e == Self::decode_err(val@)),
    ;
}

/// A type that can be written as a raw registry value.
pub trait ToRegValue: DeepView {
    /// The raw value this value encodes to.
    spec fn encoded(&self) -> RegValueView;

    /// Encodes this value as a raw registry value; encoding always
    /// succeeds and chooses the type tag deterministically per type.
    fn to_reg_value(&self) -> (r: RegValue)
        ensures
            r@ == self.encoded(),
    ;
}

impl FromRegValue for String {
    open spec fn decode_ok(v: RegValueView) -> bool {
        v.ty == RegType::REG_SZ || v.ty == RegType::REG_EXPAND_SZ || v.ty
            == RegType::REG_MULTI_SZ
    }

    open spec fn decode_err(v: RegValueView) -> RegError {
        RegError::TypeMismatch
    }

    open spec fn decoded(v: RegValueView) -> Seq<char> {
        if v.ty == RegType::REG_MULTI_SZ {
            nuls_to_newlines(spec_sz_text(v))
        } else {
            spec_sz_text(v)
        }
    }

    fn from_reg_value(val: &RegValue) -> (r: Result<Self, RegError>) {
        match val.vtype {
            RegType::REG_SZ | RegType::REG_EXPAND_SZ | RegType::REG_MULTI_SZ => {
                let units = wide::bytes_to_units(&val.bytes);
                let mut chars = wide::decode_wide(&units);
                while chars.len() > 0 && chars[chars.len() - 1] as u32 == 0
                    invariant
                        strip_trailing_nuls(chars@) == spec_sz_text(val@),
                    decreases chars.len(),
                {
                    proof {
                        vstd::utf8::char_u32_cast(chars@.last(), 0u32);
                        vstd::utf8::char_u32_cast('\u{0}', 0u32);
                        assert(chars@.last() == '\u{0}');
                    }
                    chars.pop();
                }
                proof {
                    if chars@.len() > 0 {
                        assert(chars@.last() as u32 != 0);
                        if chars@.last() == '\u{0}' {
                            assert(('\u{0}' as u32) == 0);
                        }
                    }
                    assert(strip_trailing_nuls(chars@) == chars@);
                }
                let is_multi = match val.vtype {
                    RegType::REG_MULTI_SZ => true,
                    _ => false,
                };
                if is_multi {
                    let mut joined: Vec<char> = Vec::new();
                    let mut i: usize = 0;
                    while i < chars.len()
                        invariant
                            i <= chars@.len(),
                            joined@ == nuls_to_newlines(chars@.take(i as int)),
                        decreases chars.len() - i,
                    {
                        let c = chars[i];
                        if c as u32 == 0 {
                            proof {
                                vstd::utf8::char_u32_cast(c, 0u32);
                                vstd::utf8::char_u32_cast('\u{0}', 0u32);
                            }
                            joined.push('\n');
                        } else {
                            proof {
                                if c == '\u{0}' {
                                    assert(('\u{0}' as u32) == 0);
                                }
                            }
                            joined.push(c);
                        }
                        proof {
                            assert(nuls_to_newlines(chars@.take(i + 1)) =~= nuls_to_newlines(
                                chars@.take(i as int),
                            ).push(if chars@[i as int] == '\u{0}' {
                                '\n'
                            } else {
                                chars@[i as int]
                            }));
                        }
                        i = i + 1;
                    }
                    proof {
                        assert(chars@.take(chars@.len() as int) =~= chars@);
                    }
                    Ok(wide::chars_to_string(&joined))
                } else {
                    Ok(wide::chars_to_string(&chars))
                }
            },
            _ => Err(RegError::TypeMismatch),
        }
    }
}

impl FromRegValue for u32 {
    open spec fn decode_ok(v: RegValueView) -> bool {
        v.ty == RegType::REG_DWORD && v.data.len() == 4
    }

    open spec fn decode_err(v: RegValueView) -> RegError {
        if v.ty == RegType::REG_DWORD {
            RegError::Malformed
        } else {
            RegError::TypeMismatch
        }
    }

    open spec fn decoded(v: RegValueView) -> u32 {
        spec_u32_of(v.data)
    }

    fn from_reg_value(val: &RegValue) -> (r: Result<Self, RegError>) {
        match val.vtype {
            RegType::REG_DWORD => {
                if val.bytes.len() == 4 {
                    let b0 = val.bytes[0] as u32;
                    let b1 = val.bytes[1] as u32;
                    let b2 = val.bytes[2] as u32;
                    let b3 = val.bytes[3] as u32;
                    Ok(b0 + b1 * 0x100 + b2 * 0x10000 + b3 * 0x1000000)
                } else {
                    Err(RegError::Malformed)
                }
            },
            _ => Err(RegError::TypeMismatch),
        }
    }
}

impl FromRegValue for u64 {
    open spec fn decode_ok(v: RegValueView) -> bool {
        v.ty == RegType::REG_QWORD && v.data.len() == 8
    }

    open spec fn decode_err(v: RegValueView) -> RegError {
        if v.ty == RegType::REG_QWORD {
            RegError::Malformed
        } else {
            RegError::TypeMismatch
        }
    }

    open spec fn decoded(v: RegValueView) -> u64 {
        spec_u64_of(v.data)
    }

    fn from_reg_value(val: &RegValue) -> (r: Result<Self, RegError>) {
        match val.vtype {
            RegType::REG_QWORD => {
                if val.bytes.len() == 8 {
                    let b0 = val.bytes[0] as u64;
                    let b1 = val.bytes[1] as u64;
                    let b2 = val.bytes[2] as u64;
                    let b3 = val.bytes[3] as u64;
                    let b4 = val.bytes[4] as u64;
                    let b5 = val.bytes[5] as u64;
                    let b6 = val.bytes[6] as u64;
                    let b7 = val.bytes[7] as u64;
                    Ok(b0 + b1 * 0x100 + b2 * 0x10000 + b3 * 0x1000000 + b4 * 0x100000000
                        + b5 * 0x10000000000 + b6 * 0x1000000000000 + b7 * 0x100000000000000)
                } else {
                    Err(RegError::Malformed)
                }
            },
            _ => Err(RegError::TypeMismatch),
        }
    }
}

impl ToRegValue for String {
    open spec fn encoded(&self) -> RegValueView {
        spec_encode_sz(self@)
    }

    fn to_reg_value(&self) -> (r: RegValue) {
        encode_text(self.as_str())
    }
}

impl<'a> ToRegValue for &'a str {
    open spec fn encoded(&self) -> RegValueView {
        spec_encode_sz((*self)@)
    }

    fn to_reg_value(&self) -> (r: RegValue) {
        encode_text(*self)
    }
}

impl ToRegValue for u32 {
    open spec fn encoded(&self) -> RegValueView {
        RegValueView { ty: RegType::REG_DWORD, data: spec_u32_data(*self) }
    }

    fn to_reg_value(&self) -> (r: RegValue) {
        let v = *self;
        let mut bytes: Vec<u8> = Vec::new();
        bytes.push((v % 256) as u8);
        bytes.push(((v / 0x100) % 256) as u8);
        bytes.push(((v / 0x10000) % 256) as u8);
        bytes.push(((v / 0x1000000) % 256) as u8);
        proof {
            assert(bytes@ =~= spec_u32_data(v));
        }
        RegValue { bytes, vtype: RegType::REG_DWORD }
    }
}

impl ToRegValue for u64 {
    open spec fn encoded(&self) -> RegValueView {
        RegValueView { ty: RegType::REG_QWORD, data: spec_u64_data(*self) }
    }

    fn to_reg_value(&self) -> (r: RegValue) {
        let v = *self;
        let mut bytes: Vec<u8> = Vec::new();
        bytes.push((v % 256) as u8);
        bytes.push(((v / 0x100) % 256) as u8);
        bytes.push(((v / 0x10000) % 256) as u8);
        bytes.push(((v / 0x1000000) % 256) as u8);
        bytes.push(((v / 0x100000000) % 256) as u8);
        bytes.push(((v / 0x10000000000) % 256) as u8);
        bytes.push(((v / 0x1000000000000) % 256) as u8);
        bytes.push(((v / 0x100000000000000) % 256) as u8);
        proof {
            assert(bytes@ =~= spec_u64_data(v));
        }
        RegValue { bytes, vtype: RegType::REG_QWORD }
    }
}

/// Attaches an accumulated zero-free prefix onto the first piece of a
/// piece list.
pub open spec fn attach(cur: Seq<u16>, pieces: Seq<Seq<u16>>) -> Seq<Seq<u16>> {
    if cur.len() == 0 {
        pieces
    } else if pieces.len() == 0 {
        seq![cur]
    } else {
        seq![cur + pieces[0]] + pieces.drop_first()
    }
}

/// Splitting after a zero-free prefix attaches the prefix to the first
/// piece.
proof fn lemma_split_zt_attach(cur: Seq<u16>, rest: Seq<u16>)
    requires
        forall|i: int| 0 <= i < cur.len() ==> cur[i] != 0,
    ensures
        split_zt(cur + rest) == attach(cur, split_zt(rest)),
    decreases cur.len(),
{
    if cur.len() == 0 {
        assert(cur + rest =~= rest);
    } else {
        let w = cur[0];
        let cur1 = cur.drop_first();
        assert(forall|i: int| 0 <= i < cur1.len() ==> cur1[i] != 0);
        lemma_split_zt_attach(cur1, rest);
        assert((cur + rest).drop_first() =~= cur1 + rest);
        assert((cur + rest)[0] == w);
        assert(split_zt(cur + rest) == prepend_unit(w, attach(cur1, split_zt(rest))));
        let x = split_zt(rest);
        if cur1.len() == 0 {
            if x.len() == 0 {
                assert(prepend_unit(w, attach(cur1, x)) =~~= attach(cur, x));
            } else {
                assert(attach(cur1, x) == x);
                assert(prepend_unit(w, x) =~~= attach(cur, x));
            }
        } else {
            if x.len() == 0 {
                assert(attach(cur1, x) == seq![cur1]);
                assert(prepend_unit(w, seq![cur1]) =~~= attach(cur, x));
            } else {
                assert(attach(cur1, x) == seq![cur1 + x[0]] + x.drop_first());
                assert(prepend_unit(w, attach(cur1, x)) =~~= attach(cur, x));
            }
        }
    }
}

/// Splitting a nul-terminated piece followed by more units yields the
/// piece and then the split of the remainder.
proof fn lemma_split_zt_piece(e: Seq<u16>, rest: Seq<u16>)
    requires
        forall|i: int| 0 <= i < e.len() ==> e[i] != 0,
    ensures
        split_zt(e + seq![0u16] + rest) == seq![e] + split_zt(rest),
{
    lemma_split_zt_attach(e, seq![0u16] + rest);
    assert(e + seq![0u16] + rest =~= e + (seq![0u16] + rest));
    let z = seq![0u16] + rest;
    assert(z[0] == 0);
    assert(z.drop_first() =~= rest);
    assert(split_zt(z) == seq![Seq::<u16>::empty()] + split_zt(rest));
    let x = split_zt(rest);
    if e.len() == 0 {
        assert(attach(e, split_zt(z)) =~~= seq![e] + x);
    } else {
        assert((seq![Seq::<u16>::empty()] + x)[0] =~= Seq::<u16>::empty());
        assert(e + (seq![Seq::<u16>::empty()] + x)[0] =~= e);
        assert(attach(e, split_zt(z)) =~~= seq![e] + x);
    }
}

/// The multi-string body of one more text appends its units and a
/// terminator.
proof fn lemma_msz_body_push(texts: Seq<Seq<char>>, t: Seq<char>)
    ensures
        msz_body(texts.push(t)) == msz_body(texts) + wide::utf16(t) + seq![0u16],
    decreases texts.len(),
{
    if texts.len() == 0 {
        assert(texts.push(t).drop_first() =~= Seq::<Seq<char>>::empty());
        assert(texts.push(t)[0] == t);
        assert(texts.push(t).len() == 1);
        assert(msz_body(Seq::<Seq<char>>::empty()) == Seq::<u16>::empty());
        assert(msz_body(texts.push(t)) == wide::utf16(t) + seq![0u16] + Seq::<u16>::empty());
        assert(wide::utf16(t) + seq![0u16] + Seq::<u16>::empty() =~= msz_body(texts)
            + wide::utf16(t) + seq![0u16]);
    } else {
        lemma_msz_body_push(texts.drop_first(), t);
        assert(texts.push(t).drop_first() =~= texts.drop_first().push(t));
        assert(texts.push(t)[0] == texts[0]);
        assert(msz_body(texts.push(t)) =~= msz_body(texts) + wide::utf16(t) + seq![0u16]);
    }
}

/// Splitting the body of nul-free texts recovers their unit encodings.
proof fn lemma_split_msz_body(l: Seq<Seq<char>>)
    requires
        forall|i: int, j: int|
            0 <= i < l.len() && 0 <= j < l[i].len() ==> #[trigger] l[i][j] != '\u{0}',
    ensures
        split_zt(msz_body(l)) == l.map_values(|t: Seq<char>| wide::utf16(t)),
    decreases l.len(),
{
    if l.len() == 0 {
        assert(split_zt(msz_body(l)) =~= l.map_values(|t: Seq<char>| wide::utf16(t)));
    } else {
        let e = wide::utf16(l[0]);
        let rest = l.drop_first();
        assert(forall|i: int, j: int|
            0 <= i < rest.len() && 0 <= j < rest[i].len() ==> #[trigger] rest[i][j] != '\u{0}');
        lemma_split_msz_body(rest);
        assert(forall|j: int| 0 <= j < l[0].len() ==> l[0][j] != '\u{0}');
        wide::lemma_utf16_no_zero(l[0]);
        lemma_split_zt_piece(e, msz_body(rest));
        assert(msz_body(l) =~= e + seq![0u16] + msz_body(rest));
        assert(split_zt(msz_body(l)) =~~= l.map_values(|t: Seq<char>| wide::utf16(t)));
    }
}

/// Round trip for 32-bit integers: decoding an encoded value returns it.
pub proof fn lemma_u32_round_trip(v: u32)
    ensures
        <u32 as FromRegValue>::decode_ok(RegValueView { ty: RegType::REG_DWORD, data: spec_u32_data(v) }),
        <u32 as FromRegValue>::decoded(RegValueView { ty: RegType::REG_DWORD, data: spec_u32_data(v) }) == v,
{
    let d = spec_u32_data(v);
    assert(d.len() == 4);
    assert(v % 256 + ((v / 0x100) % 256) * 0x100 + ((v / 0x10000) % 256) * 0x10000 + ((v
        / 0x1000000) % 256) * 0x1000000 == v) by (bit_vector);
    assert(d[1] == ((v / 0x100) % 256) as u8);
    assert(spec_u32_of(d) == v);
}

/// Round trip for 64-bit integers: decoding an encoded value returns it.
pub proof fn lemma_u64_round_trip(v: u64)
    ensures
        <u64 as FromRegValue>::decode_ok(RegValueView { ty: RegType::REG_QWORD, data: spec_u64_data(v) }),
        <u64 as FromRegValue>::decoded(RegValueView { ty: RegType::REG_QWORD, data: spec_u64_data(v) }) == v,
{
    let d = spec_u64_data(v);
    assert(d.len() == 8);
    assert(v % 256 + ((v / 0x100) % 256) * 0x100 + ((v / 0x10000) % 256) * 0x10000 + ((v
        / 0x1000000) % 256) * 0x1000000 + ((v / 0x100000000) % 256) * 0x100000000 + ((v
        / 0x10000000000) % 256) * 0x10000000000 + ((v / 0x1000000000000) % 256) * 0x1000000000000
        + ((v / 0x100000000000000) % 256) * 0x100000000000000 == v) by (bit_vector);
    assert(spec_u64_of(d) == v);
}

/// Round trip for text: decoding an encoded string returns it, for every
/// string that does not end in a nul character (string decoding strips
/// trailing nuls, so a trailing nul cannot survive a round trip).
pub proof fn lemma_string_round_trip(t: Seq<char>)
    requires
        t.len() == 0 || t.last() != '\u{0}',
    ensures
        <String as FromRegValue>::decode_ok(spec_encode_sz(t)),
        <String as FromRegValue>::decoded(spec_encode_sz(t)) == t,
{
    let enc = spec_encode_sz(t);
    let units = wide::utf16(t) + seq![0u16];
    wide::lemma_units_le_round_trip(units);
    assert(wide::units_of(enc.data) == units);
    wide::lemma_utf16_append(t, seq!['\u{0}']);
    wide::lemma_utf16_singleton('\u{0}');
    assert(('\u{0}' as u32) == 0);
    assert(wide::utf16_char('\u{0}') =~= seq![0u16]);
    assert(t + seq!['\u{0}'] =~= t.push('\u{0}'));
    assert(units =~= wide::utf16(t.push('\u{0}')));
    wide::lemma_utf16_round_trip(t.push('\u{0}'));
    assert(wide::chars_of_utf16(units) == t.push('\u{0}'));
    assert(t.push('\u{0}').last() == '\u{0}');
    assert(t.push('\u{0}').drop_last() =~= t);
    assert(strip_trailing_nuls(t.push('\u{0}')) == strip_trailing_nuls(t));
    assert(strip_trailing_nuls(t) == t);
    assert(spec_sz_text(enc) == t);
}

/// Round trip for string lists: decoding an encoded list returns it, for
/// every list whose elements contain no nul character (a nul inside an
/// element would act as a separator on the wire). The empty list and
/// empty-string elements are included.
pub proof fn lemma_multi_string_round_trip(l: Seq<Seq<char>>)
    requires
        forall|i: int, j: int|
            0 <= i < l.len() && 0 <= j < l[i].len() ==> #[trigger] l[i][j] != '\u{0}',
    ensures
        <Vec<String> as FromRegValue>::decode_ok(spec_encode_msz(l)),
        <Vec<String> as FromRegValue>::decoded(spec_encode_msz(l)) == l,
{
    let enc = spec_encode_msz(l);
    let units = msz_body(l) + seq![0u16];
    wide::lemma_units_le_round_trip(units);
    assert(wide::units_of(enc.data) == units);
    assert(units.last() == 0);
    assert(units.drop_last() =~= msz_body(l));
    assert(msz_pieces(units) == split_zt(msz_body(l)));
    lemma_split_msz_body(l);
    let mapped = l.map_values(|t: Seq<char>| wide::utf16(t));
    assert(msz_pieces(units) == mapped);
    assert forall|i: int| 0 <= i < l.len() implies wide::chars_of_utf16(mapped[i]) == l[i] by {
        assert(mapped[i] == wide::utf16(l[i]));
        wide::lemma_utf16_round_trip(l[i]);
    }
    assert(mapped.map_values(|u: Seq<u16>| wide::chars_of_utf16(u)) =~~= l);
    assert(spec_msz_texts(enc) == l);
}

impl FromRegValue for Vec<String> {
    open spec fn decode_ok(v: RegValueView) -> bool {
        v.ty == RegType::REG_MULTI_SZ
    }

    open spec fn decode_err(v: RegValueView) -> RegError {
        RegError::TypeMismatch
    }

    open spec fn decoded(v: RegValueView) -> Seq<Seq<char>> {
        spec_msz_texts(v)
    }

    fn from_reg_value(val: &RegValue) -> (r: Result<Self, RegError>) {
        match val.vtype {
            RegType::REG_MULTI_SZ => {
                let units = wide::bytes_to_units(&val.bytes);
                let n = units.len();
                let m = if n > 0 && units[n - 1] == 0 {
                    n - 1
                } else {
                    n
                };
                let ghost body = units@.take(m as int);
                proof {
                    if n > 0 && units@[n - 1] == 0 {
                        assert(units@.drop_last() =~= body);
                    } else if n > 0 {
                        assert(body =~= units@);
                    }
                    assert(msz_pieces(units@) == split_zt(body));
                }
                let mut pieces: Vec<Vec<u16>> = Vec::new();
                let mut cur: Vec<u16> = Vec::new();
                let mut i: usize = 0;
                proof {
                    assert(body.skip(0) =~= body);
                }
                while i < m
                    invariant
                        i <= m,
                        m <= units@.len(),
                        n == units@.len(),
                        body == units@.take(m as int),
                        forall|k: int| 0 <= k < cur@.len() ==> cur@[k] != 0,
                        split_zt(body) == pieces.deep_view() + attach(cur@, split_zt(body.skip(i as int))),
                    decreases m - i,
                {
                    let ghost tail = body.skip(i as int);
                    proof {
                        assert(tail[0] == body[i as int]);
                        assert(body[i as int] == units@[i as int]);
                        assert(tail.drop_first() =~= body.skip(i + 1));
                    }
                    let w = units[i];
                    if w == 0 {
                        let ghost pieces0 = pieces.deep_view();
                        let ghost cur_old = cur@;
                        proof {
                            let x = split_zt(body.skip(i + 1));
                            assert(split_zt(tail) == seq![Seq::<u16>::empty()] + x);
                            if cur@.len() == 0 {
                                assert(attach(cur@, split_zt(tail)) =~~= seq![cur@] + x);
                            } else {
                                assert(cur@ + (seq![Seq::<u16>::empty()] + x)[0] =~= cur@);
                                assert(attach(cur@, split_zt(tail)) =~~= seq![cur@] + x);
                            }
                        }
                        pieces.push(cur);
                        cur = Vec::new();
                        proof {
                            let x = split_zt(body.skip(i + 1));
                            assert(pieces@.last()@ == cur_old);
                            assert(pieces@.last().deep_view() =~= cur_old);
                            assert(pieces.deep_view() =~~= pieces0.push(cur_old));
                            assert(pieces0 + (seq![cur_old] + x) =~= pieces0.push(cur_old) + x);
                            assert(attach(cur@, x) == x);
                            assert(split_zt(body) == pieces.deep_view() + attach(cur@, x));
                        }
                    } else {
                        let ghost cur0 = cur@;
                        cur.push(w);
                        proof {
                            let x = split_zt(body.skip(i + 1));
                            assert(split_zt(tail) == prepend_unit(w, x));
                            if x.len() == 0 {
                                assert(attach(cur0, prepend_unit(w, x)) =~~= attach(cur@, x));
                            } else {
                                assert(cur0 + (seq![seq![w] + x[0]] + x.drop_first())[0] =~= cur@
                                    + x[0]);
                                assert(attach(cur0, prepend_unit(w, x)) =~~= attach(cur@, x));
                            }
                            assert(split_zt(body) == pieces.deep_view() + attach(cur@,
                                split_zt(body.skip(i + 1))));
                        }
                    }
                    i = i + 1;
                }
                proof {
                    assert(split_zt(body.skip(m as int)) =~= Seq::<Seq<u16>>::empty());
                }
                if cur.len() > 0 {
                    let ghost pieces0 = pieces.deep_view();
                    let ghost cur_old = cur@;
                    proof {
                        assert(attach(cur_old, Seq::<Seq<u16>>::empty()) =~= seq![cur_old]);
                        assert(pieces0 + seq![cur_old] =~= pieces0.push(cur_old));
                    }
                    pieces.push(cur);
                    proof {
                        assert(pieces@.last()@ == cur_old);
                        assert(pieces@.last().deep_view() =~= cur_old);
                        assert(pieces.deep_view() =~~= pieces0.push(cur_old));
                        assert(split_zt(body) == pieces.deep_view());
                    }
                } else {
                    proof {
                        assert(attach(cur@, Seq::<Seq<u16>>::empty())
                            == Seq::<Seq<u16>>::empty());
                        assert(pieces.deep_view() + Seq::<Seq<u16>>::empty()
                            =~= pieces.deep_view());
                        assert(split_zt(body) == pieces.deep_view());
                    }
                }
                let mut out: Vec<String> = Vec::new();
                let mut j: usize = 0;
                while j < pieces.len()
                    invariant
                        j <= pieces@.len(),
                        out.deep_view() == pieces.deep_view().take(j as int).map_values(
                            |u: Seq<u16>| wide::chars_of_utf16(u),
                        ),
                    decreases pieces.len() - j,
                {
                    let chars = wide::decode_wide(&pieces[j]);
                    let text = wide::chars_to_string(&chars);
                    let ghost out0 = out.deep_view();
                    proof {
                        assert(pieces@[j as int].deep_view() =~= pieces@[j as int]@);
                        assert(pieces.deep_view()[j as int] == pieces@[j as int]@);
                        assert(text@ == wide::chars_of_utf16(pieces.deep_view()[j as int]));
                    }
                    out.push(text);
                    proof {
                        assert(out.deep_view() =~= out0.push(text@));
                        assert(pieces.deep_view().take(j + 1) =~= pieces.deep_view().take(
                            j as int,
                        ).push(pieces.deep_view()[j as int]));
                        assert(pieces.deep_view().take(j + 1).map_values(|u: Seq<u16>|
                            wide::chars_of_utf16(u)) =~= pieces.deep_view().take(j as int).map_values(
                            |u: Seq<u16>| wide::chars_of_utf16(u)).push(wide::chars_of_utf16(
                            pieces.deep_view()[j as int])));
                    }
                    j = j + 1;
                }
                proof {
                    assert(pieces.deep_view().take(pieces.deep_view().len() as int)
                        =~= pieces.deep_view());
                    assert(out.deep_view() == spec_msz_texts(val@));
                }
                Ok(out)
            },
            _ => Err(RegError::TypeMismatch),
        }
    }
}

impl ToRegValue for Vec<String> {
    open spec fn encoded(&self) -> RegValueView {
        spec_encode_msz(self.deep_view())
    }

    fn to_reg_value(&self) -> (r: RegValue) {
        let mut units: Vec<u16> = Vec::new();
        let mut i: usize = 0;
        while i < self.len()
            invariant
                i <= self@.len(),
                units@ == msz_body(self.deep_view().take(i as int)),
            decreases self@.len() - i,
        {
            let mut enc = wide::encode_wide(self[i].as_str());
            enc.push(0);
            units.append(&mut enc);
            proof {
                let dv = self.deep_view();
                assert(dv.take(i + 1) =~= dv.take(i as int).push(dv[i as int]));
                lemma_msz_body_push(dv.take(i as int), dv[i as int]);
                assert(dv[i as int] == self@[i as int]@);
                assert(units@ =~= msz_body(dv.take(i + 1)));
            }
            i = i + 1;
        }
        units.push(0);
        proof {
            assert(self.deep_view().take(self.deep_view().len() as int) =~= self.deep_view());
            assert(units@ =~= msz_body(self.deep_view()) + seq![0u16]);
        }
        let bytes = wide::units_to_bytes(&units);
        RegValue { bytes, vtype: RegType::REG_MULTI_SZ }
    }
}


/// Encodes text as a string-kind raw value: UTF-16 units, one terminating
/// nul, little-endian bytes.
fn encode_text(s: &str) -> (r: RegValue)
    ensures
        r@ == spec_encode_sz(s@),
{
    let mut units = wide::encode_wide(s);
    units.push(0);
    proof {
        assert(units@ =~= wide::utf16(s@) + seq![0u16]);
    }
    let bytes = wide::units_to_bytes(&units);
    RegValue { bytes, vtype: RegType::REG_SZ }
}

} // verus!

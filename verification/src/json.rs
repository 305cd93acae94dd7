//! The wire format: one JSON object per line. Packets only ever carry flat
//! objects whose member values are strings, integers, booleans, null, or
//! arrays of those scalars, so the grammar here is exactly that subset.
//! Serialization and parsing are specified at the byte level; strings go
//! through UTF-8 (`vstd::utf8`) and the JSON escape rules.
use vstd::prelude::*;
use vstd::utf8::{decode_utf8, encode_scalar, encode_utf8, is_scalar, valid_utf8};

verus! {

/// A scalar JSON value.
pub enum Scalar {
    Null,
    Bool(bool),
    Int(i64),
    Str(String),
}

/// A member value: a scalar, or a flat array of scalars.
pub enum JsonValue {
    Sc(Scalar),
    Arr(Vec<Scalar>),
}

/// Mathematical model of a scalar.
#[verifier::ext_equal]
pub enum ScalarV {
    Null,
    Bool(bool),
    Int(int),
    Str(Seq<char>),
}

/// Mathematical model of a member value.
#[verifier::ext_equal]
pub enum ValueV {
    Sc(ScalarV),
    Arr(Seq<ScalarV>),
}

impl View for Scalar {
    type V = ScalarV;

    open spec fn view(&self) -> ScalarV {
        match self {
            Scalar::Null => ScalarV::Null,
            Scalar::Bool(b) => ScalarV::Bool(*b),
            Scalar::Int(n) => ScalarV::Int(*n as int),
            Scalar::Str(s) => ScalarV::Str(s@),
        }
    }
}

impl View for JsonValue {
    type V = ValueV;

    open spec fn view(&self) -> ValueV {
        match self {
            JsonValue::Sc(s) => ValueV::Sc(s@),
            JsonValue::Arr(es) => ValueV::Arr(es@.map_values(|e: Scalar| e@)),
        }
    }
}

/// Model of an object: its members in order, keys as character sequences.
pub open spec fn members_view(ms: Seq<(String, JsonValue)>) -> Seq<(Seq<char>, ValueV)> {
    ms.map_values(|m: (String, JsonValue)| (m.0@, m.1@))
}

// ------------------------------------------------------------------
// Serialization, specified bottom-up over the model types.
// ------------------------------------------------------------------
/// Lowercase hex digit for a nibble value.
pub open spec fn hex_char_of(n: int) -> u8
    recommends
        0 <= n < 16,
{
    if n < 10 {
        (0x30 + n) as u8
    } else {
        (0x57 + n) as u8
    }
}

/// JSON escape of one content byte of a string: `"` and `\` get a
/// backslash escape, control bytes become `\u00XX`, all else is copied.
pub open spec fn esc_byte(b: u8) -> Seq<u8> {
    if b == 0x22 {
        seq![0x5cu8, 0x22u8]
    } else if b == 0x5c {
        seq![0x5cu8, 0x5cu8]
    } else if b < 0x20 {
        seq![0x5cu8, 0x75u8, 0x30u8, 0x30u8, hex_char_of((b >> 4) as int), hex_char_of((b & 0x0f) as int)]
    } else {
        seq![b]
    }
}

pub open spec fn esc_bytes(bs: Seq<u8>) -> Seq<u8>
    decreases bs.len(),
{
    if bs.len() == 0 {
        Seq::empty()
    } else {
        esc_byte(bs[0]) + esc_bytes(bs.drop_first())
    }
}

/// A string literal: quote, escaped UTF-8 content, quote.
pub open spec fn ser_str(s: Seq<char>) -> Seq<u8> {
    seq![0x22u8] + esc_bytes(encode_utf8(s)) + seq![0x22u8]
}

/// Decimal digits of a natural number, most significant first.
pub open spec fn ser_nat(n: nat) -> Seq<u8>
    decreases n,
{
    if n < 10 {
        seq![(0x30 + n) as u8]
    } else {
        ser_nat(n / 10) + seq![(0x30 + n % 10) as u8]
    }
}

/// A decimal integer literal, with a leading minus sign when negative.
pub open spec fn ser_int(n: int) -> Seq<u8> {
    if n < 0 {
        seq![0x2du8] + ser_nat((-n) as nat)
    } else {
        ser_nat(n as nat)
    }
}

pub open spec fn ser_scalar(v: ScalarV) -> Seq<u8> {
    match v {
        ScalarV::Null => seq![0x6eu8, 0x75u8, 0x6cu8, 0x6cu8],
        ScalarV::Bool(b) => if b {
            seq![0x74u8, 0x72u8, 0x75u8, 0x65u8]
        } else {
            seq![0x66u8, 0x61u8, 0x6cu8, 0x73u8, 0x65u8]
        },
        ScalarV::Int(n) => ser_int(n),
        ScalarV::Str(s) => ser_str(s),
    }
}

/// Comma-separated array elements (at least one).
pub open spec fn ser_elems(es: Seq<ScalarV>) -> Seq<u8>
    recommends
        es.len() > 0,
    decreases es.len(),
{
    if es.len() <= 1 {
        ser_scalar(es[0])
    } else {
        ser_scalar(es[0]) + seq![0x2cu8] + ser_elems(es.drop_first())
    }
}

pub open spec fn ser_value(v: ValueV) -> Seq<u8> {
    match v {
        ValueV::Sc(s) => ser_scalar(s),
        ValueV::Arr(es) => if es.len() == 0 {
            seq![0x5bu8, 0x5du8]
        } else {
            seq![0x5bu8] + ser_elems(es) + seq![0x5du8]
        },
    }
}

pub open spec fn ser_member(m: (Seq<char>, ValueV)) -> Seq<u8> {
    ser_str(m.0) + seq![0x3au8] + ser_value(m.1)
}

/// Comma-separated members (at least one).
pub open spec fn ser_members(ms: Seq<(Seq<char>, ValueV)>) -> Seq<u8>
    recommends
        ms.len() > 0,
    decreases ms.len(),
{
    if ms.len() <= 1 {
        ser_member(ms[0])
    } else {
        ser_member(ms[0]) + seq![0x2cu8] + ser_members(ms.drop_first())
    }
}

/// A whole object, braces included.
pub open spec fn ser_object(ms: Seq<(Seq<char>, ValueV)>) -> Seq<u8> {
    if ms.len() == 0 {
        seq![0x7bu8, 0x7du8]
    } else {
        seq![0x7bu8] + ser_members(ms) + seq![0x7du8]
    }
}

// ------------------------------------------------------------------
// Parsing, specified as a recursive descent over (input, position).
// Every parser returns the parsed model value and the position just
// past what it consumed, or `None` on malformed input.
// ------------------------------------------------------------------
/// JSON insignificant whitespace.
pub open spec fn is_ws(b: u8) -> bool {
    b == 0x20 || b == 0x09 || b == 0x0a || b == 0x0d
}

/// First position at or after `i` holding a non-whitespace byte (or the end).
pub open spec fn skip_ws(s: Seq<u8>, i: int) -> int
    decreases s.len() - i,
{
    if 0 <= i < s.len() && is_ws(s[i]) {
        skip_ws(s, i + 1)
    } else {
        i
    }
}

/// Nibble value of a hex digit byte (either case), or -1.
pub open spec fn hex_val(b: u8) -> int {
    if 0x30 <= b <= 0x39 {
        b - 0x30
    } else if 0x61 <= b <= 0x66 {
        b - 0x57
    } else if 0x41 <= b <= 0x46 {
        b - 0x37
    } else {
        -1
    }
}

/// Scalar value named by a `\uXXXX` escape at `i` (position of the first
/// hex digit), or -1 when the four bytes are not all hex digits.
pub open spec fn hex4_val(s: Seq<u8>, i: int) -> int {
    if hex_val(s[i]) >= 0 && hex_val(s[i + 1]) >= 0 && hex_val(s[i + 2]) >= 0 && hex_val(
        s[i + 3],
    ) >= 0 {
        hex_val(s[i]) * 0x1000 + hex_val(s[i + 1]) * 0x100 + hex_val(s[i + 2]) * 16 + hex_val(
            s[i + 3],
        )
    } else {
        -1
    }
}

/// The continuation of a `\uXXXX` escape whose value `v` is a high
/// surrogate, `i` still naming the backslash that began it: the paired
/// low surrogate escape must follow at once, and together the two name
/// one supplementary character.
pub open spec fn parse_surrogate_pair(s: Seq<u8>, i: int, v: int) -> Option<(Seq<u8>, int)>
    recommends
        0xd800 <= v < 0xdc00,
    decreases s.len() - i, 0int,
{
    if i < 0 || i + 12 > s.len() {
        None
    } else if s[i + 6] == 0x5c && s[i + 7] == 0x75 {
        let w = hex4_val(s, i + 8);
        if 0xdc00 <= w < 0xe000 {
            let c = 0x10000 + (v - 0xd800) * 0x400 + (w - 0xdc00);
            match parse_string_body(s, i + 12) {
                Some((rest, j)) => Some((encode_scalar(c as u32) + rest, j)),
                None => None,
            }
        } else {
            None
        }
    } else {
        None
    }
}

/// String body parser, starting just after the opening quote; yields the
/// raw (unescaped) content bytes and the position after the closing quote.
pub open spec fn parse_string_body(s: Seq<u8>, i: int) -> Option<(Seq<u8>, int)>
    decreases s.len() - i, 1int,
{
    if i < 0 || i >= s.len() {
        None
    } else if s[i] == 0x22 {
        Some((Seq::empty(), i + 1))
    } else if s[i] == 0x5c {
        if i + 2 > s.len() {
            None
        } else {
            let e = s[i + 1];
            if e == 0x22 || e == 0x5c || e == 0x2f {
                match parse_string_body(s, i + 2) {
                    Some((rest, j)) => Some((seq![e] + rest, j)),
                    None => None,
                }
            } else if e == 0x62 || e == 0x66 || e == 0x6e || e == 0x72 || e == 0x74 {
                let c: u8 = if e == 0x62 {
                    0x08
                } else if e == 0x66 {
                    0x0c
                } else if e == 0x6e {
                    0x0a
                } else if e == 0x72 {
                    0x0d
                } else {
                    0x09
                };
                match parse_string_body(s, i + 2) {
                    Some((rest, j)) => Some((seq![c] + rest, j)),
                    None => None,
                }
            } else if e == 0x75 {
                if i + 6 > s.len() {
                    None
                } else {
                    let v = hex4_val(s, i + 2);
                    if v < 0 {
                        None
                    } else if 0xd800 <= v < 0xdc00 {
                        parse_surrogate_pair(s, i, v)
                    } else if 0xdc00 <= v < 0xe000 {
                        None
                    } else {
                        match parse_string_body(s, i + 6) {
                            Some((rest, j)) => Some((encode_scalar(v as u32) + rest, j)),
                            None => None,
                        }
                    }
                }
            } else {
                None
            }
        }
    } else if s[i] < 0x20 {
        None
    } else {
        match parse_string_body(s, i + 1) {
            Some((rest, j)) => Some((seq![s[i]] + rest, j)),
            None => None,
        }
    }
}

/// String parser, at the opening quote; yields the decoded characters.
pub open spec fn parse_string(s: Seq<u8>, i: int) -> Option<(Seq<char>, int)> {
    if 0 <= i < s.len() && s[i] == 0x22 {
        match parse_string_body(s, i + 1) {
            Some((raw, j)) => if valid_utf8(raw) {
                Some((decode_utf8(raw), j))
            } else {
                None
            },
            None => None,
        }
    } else {
        None
    }
}

pub open spec fn is_digit(b: u8) -> bool {
    0x30 <= b <= 0x39
}

/// First position at or after `i` holding a non-digit byte (or the end).
pub open spec fn digit_run_end(s: Seq<u8>, i: int) -> int
    decreases s.len() - i,
{
    if 0 <= i < s.len() && is_digit(s[i]) {
        digit_run_end(s, i + 1)
    } else {
        i
    }
}

/// Value of the decimal digits `s[i..j)`.
pub open spec fn digits_value(s: Seq<u8>, i: int, j: int) -> int
    decreases j - i,
{
    if i >= j {
        0
    } else {
        digits_value(s, i, j - 1) * 10 + (s[j - 1] - 0x30)
    }
}

/// Integer parser. Fails on an empty digit run, on a leading zero before
/// further digits, and on values outside the signed 64-bit range (runs
/// past 19 digits are out of range outright).
pub open spec fn parse_int(s: Seq<u8>, i: int) -> Option<(int, int)> {
    if !(0 <= i < s.len()) {
        None
    } else {
        let neg = s[i] == 0x2d;
        let k = if neg {
            i + 1
        } else {
            i
        };
        let e = digit_run_end(s, k);
        if e == k || e - k > 19 {
            None
        } else if e - k > 1 && s[k] == 0x30 {
            None
        } else {
            let v = if neg {
                -digits_value(s, k, e)
            } else {
                digits_value(s, k, e)
            };
            if -0x8000_0000_0000_0000 <= v < 0x8000_0000_0000_0000 {
                Some((v, e))
            } else {
                None
            }
        }
    }
}

/// True when `s[i..i+w)` spells the given keyword bytes.
pub open spec fn has_bytes_at(s: Seq<u8>, i: int, w: Seq<u8>) -> bool {
    i + w.len() <= s.len() && s.subrange(i, i + w.len()) == w
}

/// Scalar parser: a string, an integer, `true`, `false`, or `null`.
pub open spec fn parse_scalar(s: Seq<u8>, i: int) -> Option<(ScalarV, int)> {
    if !(0 <= i < s.len()) {
        None
    } else if s[i] == 0x22 {
        match parse_string(s, i) {
            Some((cs, j)) => Some((ScalarV::Str(cs), j)),
            None => None,
        }
    } else if s[i] == 0x2d || is_digit(s[i]) {
        match parse_int(s, i) {
            Some((n, j)) => Some((ScalarV::Int(n), j)),
            None => None,
        }
    } else if has_bytes_at(s, i, seq![0x74u8, 0x72u8, 0x75u8, 0x65u8]) {
        Some((ScalarV::Bool(true), i + 4))
    } else if has_bytes_at(s, i, seq![0x66u8, 0x61u8, 0x6cu8, 0x73u8, 0x65u8]) {
        Some((ScalarV::Bool(false), i + 5))
    } else if has_bytes_at(s, i, seq![0x6eu8, 0x75u8, 0x6cu8, 0x6cu8]) {
        Some((ScalarV::Null, i + 4))
    } else {
        None
    }
}

/// Array elements from the first element (not `]`) through the closing `]`.
pub open spec fn parse_elems(s: Seq<u8>, i: int) -> Option<(Seq<ScalarV>, int)>
    decreases s.len() - i,
{
    match parse_scalar(s, i) {
        None => None,
        Some((v, k)) => {
            let m = skip_ws(s, k);
            if 0 <= m < s.len() && s[m] == 0x2c {
                let n = skip_ws(s, m + 1);
                if i < n <= s.len() {
                    match parse_elems(s, n) {
                        Some((rest, j)) => Some((seq![v] + rest, j)),
                        None => None,
                    }
                } else {
                    None
                }
            } else if 0 <= m < s.len() && s[m] == 0x5d {
                Some((seq![v], m + 1))
            } else {
                None
            }
        },
    }
}

/// Member value parser: an array or a scalar.
pub open spec fn parse_value(s: Seq<u8>, i: int) -> Option<(ValueV, int)> {
    if !(0 <= i < s.len()) {
        None
    } else if s[i] == 0x5b {
        let j = skip_ws(s, i + 1);
        if 0 <= j < s.len() && s[j] == 0x5d {
            Some((ValueV::Arr(Seq::empty()), j + 1))
        } else {
            match parse_elems(s, j) {
                Some((es, k)) => Some((ValueV::Arr(es), k)),
                None => None,
            }
        }
    } else {
        match parse_scalar(s, i) {
            Some((v, j)) => Some((ValueV::Sc(v), j)),
            None => None,
        }
    }
}

/// Members from the first key (not `}`) through the closing `}`.
pub open spec fn parse_members(s: Seq<u8>, i: int) -> Option<
    (Seq<(Seq<char>, ValueV)>, int),
>
    decreases s.len() - i,
{
    match parse_string(s, i) {
        None => None,
        Some((key, a)) => {
            let b = skip_ws(s, a);
            if 0 <= b < s.len() && s[b] == 0x3a {
                let c = skip_ws(s, b + 1);
                match parse_value(s, c) {
                    None => None,
                    Some((v, d)) => {
                        let e = skip_ws(s, d);
                        if 0 <= e < s.len() && s[e] == 0x2c {
                            let f = skip_ws(s, e + 1);
                            if i < f <= s.len() {
                                match parse_members(s, f) {
                                    Some((rest, j)) => Some((seq![(key, v)] + rest, j)),
                                    None => None,
                                }
                            } else {
                                None
                            }
                        } else if 0 <= e < s.len() && s[e] == 0x7d {
                            Some((seq![(key, v)], e + 1))
                        } else {
                            None
                        }
                    },
                }
            } else {
                None
            }
        },
    }
}

/// A whole input line: one object, with whitespace allowed around it,
/// nothing else before the end of input.
pub open spec fn parse_top(s: Seq<u8>) -> Option<Seq<(Seq<char>, ValueV)>> {
    let i = skip_ws(s, 0);
    if 0 <= i < s.len() && s[i] == 0x7b {
        let j = skip_ws(s, i + 1);
        if 0 <= j < s.len() && s[j] == 0x7d {
            if skip_ws(s, j + 1) == s.len() {
                Some(Seq::empty())
            } else {
                None
            }
        } else {
            match parse_members(s, j) {
                Some((ms, k)) => if skip_ws(s, k) == s.len() {
                    Some(ms)
                } else {
                    None
                },
                None => None,
            }
        }
    } else {
        None
    }
}

// ------------------------------------------------------------------
// Executable serializer.
// ------------------------------------------------------------------
proof fn lemma_esc_bytes_push(bs: Seq<u8>, b: u8)
    ensures
        esc_bytes(bs.push(b)) == esc_bytes(bs) + esc_byte(b),
    decreases bs.len(),
{
    reveal_with_fuel(esc_bytes, 2);
    if bs.len() == 0 {
        assert(bs.push(b).drop_first() =~= Seq::<u8>::empty());
        assert(esc_bytes(bs.push(b)) =~= esc_byte(b));
        assert(esc_bytes(bs) + esc_byte(b) =~= esc_byte(b));
    } else {
        assert(bs.push(b).drop_first() =~= bs.drop_first().push(b));
        lemma_esc_bytes_push(bs.drop_first(), b);
        assert(esc_bytes(bs.push(b)) =~= esc_bytes(bs) + esc_byte(b));
    }
}

fn hex_char_exec(n: u8) -> (r: u8)
    requires
        n < 16,
    ensures
        r == hex_char_of(n as int),
{
    if n < 10 {
        0x30 + n
    } else {
        0x57 + n
    }
}

/// Appends the serialization of one string literal.
fn ser_str_exec(s: &str, out: &mut Vec<u8>)
    ensures
        final(out)@ == old(out)@ + ser_str(s@),
{
    let bytes: &[u8] = s.as_bytes();
    out.push(0x22u8);
    let n: usize = bytes.len();
    let mut i: usize = 0;
    while i < n
        invariant
            i <= n,
            n == bytes@.len(),
            bytes@ == encode_utf8(s@),
            out@ == old(out)@ + seq![0x22u8] + esc_bytes(bytes@.take(i as int)),
        decreases n - i,
    {
        let b = bytes[i];
        if b == 0x22 {
            out.push(0x5c);
            out.push(0x22);
        } else if b == 0x5c {
            out.push(0x5c);
            out.push(0x5c);
        } else if b < 0x20 {
            proof {
                assert(b >> 4 < 16 && b & 0x0f < 16) by (bit_vector);
            }
            out.push(0x5c);
            out.push(0x75);
            out.push(0x30);
            out.push(0x30);
            out.push(hex_char_exec(b >> 4));
            out.push(hex_char_exec(b & 0x0f));
        } else {
            out.push(b);
        }
        proof {
            lemma_esc_bytes_push(bytes@.take(i as int), b);
            assert(bytes@.take(i + 1 as int) =~= bytes@.take(i as int).push(b));
            assert(out@ =~= old(out)@ + seq![0x22u8] + esc_bytes(bytes@.take(i + 1 as int)));
        }
        i = i + 1;
    }
    out.push(0x22u8);
    proof {
        assert(bytes@.take(n as int) =~= bytes@);
        assert(out@ =~= old(out)@ + ser_str(s@));
    }
}

/// Appends the decimal digits of `n`.
fn ser_u64(n: u64, out: &mut Vec<u8>)
    ensures
        final(out)@ == old(out)@ + ser_nat(n as nat),
    decreases n,
{
    if n < 10 {
        out.push(0x30 + (n as u8));
        proof {
            assert(out@ =~= old(out)@ + ser_nat(n as nat));
        }
    } else {
        ser_u64(n / 10, out);
        out.push(0x30 + ((n % 10) as u8));
        proof {
            assert(out@ =~= old(out)@ + ser_nat(n as nat));
        }
    }
}

/// Appends the decimal form of `n`, sign included.
fn ser_i64(n: i64, out: &mut Vec<u8>)
    ensures
        final(out)@ == old(out)@ + ser_int(n as int),
{
    if n < 0 {
        out.push(0x2d);
        let m: u64 = (-(n as i128)) as u64;
        ser_u64(m, out);
        proof {
            assert(m as nat == (-(n as int)) as nat);
            assert(out@ =~= old(out)@ + ser_int(n as int));
        }
    } else {
        ser_u64(n as u64, out);
    }
}

/// Appends the serialization of one scalar.
fn ser_scalar_exec(v: &Scalar, out: &mut Vec<u8>)
    ensures
        final(out)@ == old(out)@ + ser_scalar(v@),
{
    match v {
        Scalar::Null => {
            out.push(0x6e);
            out.push(0x75);
            out.push(0x6c);
            out.push(0x6c);
            proof {
                assert(out@ =~= old(out)@ + ser_scalar(v@));
            }
        },
        Scalar::Bool(b) => {
            if *b {
                out.push(0x74);
                out.push(0x72);
                out.push(0x75);
                out.push(0x65);
            } else {
                out.push(0x66);
                out.push(0x61);
                out.push(0x6c);
                out.push(0x73);
                out.push(0x65);
            }
            proof {
                assert(out@ =~= old(out)@ + ser_scalar(v@));
            }
        },
        Scalar::Int(n) => {
            ser_i64(*n, out);
        },
        Scalar::Str(s) => {
            ser_str_exec(s.as_str(), out);
        },
    }
}

/// Appends the serialization of the elements `es[i..]`, comma-separated.
fn ser_elems_exec(es: &Vec<Scalar>, i: usize, out: &mut Vec<u8>)
    requires
        i < es@.len(),
    ensures
        final(out)@ == old(out)@ + ser_elems(es@.map_values(|e: Scalar| e@).skip(i as int)),
    decreases es@.len() - i,
{
    let ghost evs = es@.map_values(|e: Scalar| e@);
    let l = es.len();
    ser_scalar_exec(&es[i], out);
    if i + 1 < l {
        out.push(0x2c);
        ser_elems_exec(es, i + 1, out);
        proof {
            assert(evs.skip(i as int).drop_first() =~= evs.skip(i + 1 as int));
            assert(evs.skip(i as int)[0] == evs[i as int]);
            assert(out@ =~= old(out)@ + ser_elems(evs.skip(i as int)));
        }
    } else {
        proof {
            assert(evs.skip(i as int).len() == 1);
            assert(evs.skip(i as int)[0] == evs[i as int]);
            assert(out@ =~= old(out)@ + ser_elems(evs.skip(i as int)));
        }
    }
}

/// Appends the serialization of one member value.
fn ser_value_exec(v: &JsonValue, out: &mut Vec<u8>)
    ensures
        final(out)@ == old(out)@ + ser_value(v@),
{
    match v {
        JsonValue::Sc(sc) => {
            ser_scalar_exec(sc, out);
        },
        JsonValue::Arr(es) => {
            out.push(0x5b);
            if es.len() == 0 {
                out.push(0x5d);
                proof {
                    assert(es@.map_values(|e: Scalar| e@).len() == 0);
                    assert(out@ =~= old(out)@ + ser_value(v@));
                }
            } else {
                ser_elems_exec(es, 0, out);
                out.push(0x5d);
                proof {
                    let evs = es@.map_values(|e: Scalar| e@);
                    assert(evs.skip(0) =~= evs);
                    assert(out@ =~= old(out)@ + ser_value(v@));
                }
            }
        },
    }
}

/// Appends the serialization of the members `ms[i..]`, comma-separated.
fn ser_members_exec(ms: &Vec<(String, JsonValue)>, i: usize, out: &mut Vec<u8>)
    requires
        i < ms@.len(),
    ensures
        final(out)@ == old(out)@ + ser_members(members_view(ms@).skip(i as int)),
    decreases ms@.len() - i,
{
    let ghost mvs = members_view(ms@);
    ser_str_exec(ms[i].0.as_str(), out);
    out.push(0x3a);
    let l = ms.len();
    ser_value_exec(&ms[i].1, out);
    proof {
        assert(mvs.skip(i as int)[0] == mvs[i as int]);
        assert(ser_member(mvs[i as int]) == ser_str(ms@[i as int].0@) + seq![0x3au8] + ser_value(
            ms@[i as int].1@,
        ));
    }
    if i + 1 < l {
        out.push(0x2c);
        ser_members_exec(ms, i + 1, out);
        proof {
            assert(mvs.skip(i as int).drop_first() =~= mvs.skip(i + 1 as int));
            assert(out@ =~= old(out)@ + ser_members(mvs.skip(i as int)));
        }
    } else {
        proof {
            assert(mvs.skip(i as int).len() == 1);
            assert(out@ =~= old(out)@ + ser_members(mvs.skip(i as int)));
        }
    }
}

// ------------------------------------------------------------------
// Executable parser: a recursive descent that mirrors the parsing
// specification branch for branch.
// ------------------------------------------------------------------
/// Relies on String::from_utf8: it succeeds exactly on input that is valid
/// UTF-8, and the resulting string holds the characters the bytes encode.
#[verifier::external_body]
pub(crate) fn string_from_utf8(v: Vec<u8>) -> (r: Option<String>)
    ensures
        r is Some <==> valid_utf8(v@),
        r matches Some(s) ==> s@ == decode_utf8(v@),
{
    String::from_utf8(v).ok()
}

fn skip_ws_exec(s: &[u8], i: usize) -> (r: usize)
    requires
        i <= s@.len(),
    ensures
        r as int == skip_ws(s@, i as int),
        i <= r <= s@.len(),
    decreases s@.len() - i,
{
    if i < s.len() {
        let b = s[i];
        if b == 0x20 || b == 0x09 || b == 0x0a || b == 0x0d {
            return skip_ws_exec(s, i + 1);
        }
    }
    i
}

fn hex_val_exec(b: u8) -> (r: i8)
    ensures
        r as int == hex_val(b),
{
    if 0x30 <= b && b <= 0x39 {
        (b - 0x30) as i8
    } else if 0x61 <= b && b <= 0x66 {
        (b - 0x57) as i8
    } else if 0x41 <= b && b <= 0x46 {
        (b - 0x37) as i8
    } else {
        -1
    }
}

/// Mirrors [`parse_surrogate_pair`].
#[verifier::rlimit(60)]
#[verifier::spinoff_prover]
fn parse_surrogate_pair_exec(s: &[u8], i: usize, v: u32, out: &mut Vec<u8>) -> (r: Option<
    usize,
>)
    requires
        i <= s@.len(),
        0xd800 <= v < 0xdc00,
    ensures
        (match r {
            Some(j) => parse_surrogate_pair(s@, i as int, v as int) matches Some((raw, js))
                && j as int == js && final(out)@ == old(out)@ + raw && i < j <= s@.len(),
            None => parse_surrogate_pair(s@, i as int, v as int) is None,
        }),
    decreases s@.len() - i, 0int,
{
    if s.len() - i < 12 {
        return None;
    }
    if !(s[i + 6] == 0x5c && s[i + 7] == 0x75) {
        return None;
    }
    let g0 = hex_val_exec(s[i + 8]);
    let g1 = hex_val_exec(s[i + 9]);
    let g2 = hex_val_exec(s[i + 10]);
    let g3 = hex_val_exec(s[i + 11]);
    if g0 < 0 || g1 < 0 || g2 < 0 || g3 < 0 {
        proof {
            assert(hex4_val(s@, i + 8 as int) == -1);
        }
        return None;
    }
    let w: u32 = (g0 as u32) * 0x1000 + (g1 as u32) * 0x100 + (g2 as u32) * 16 + (g3 as u32);
    proof {
        assert(hex4_val(s@, i + 8 as int) == w as int);
    }
    if !(0xDC00 <= w && w < 0xE000) {
        return None;
    }
    let c: u32 = 0x10000 + (v - 0xD800) * 0x400 + (w - 0xDC00);
    proof {
        assert(is_scalar(c));
        assert(((c >> 18) & 0x7) <= 0x7 && ((c >> 12) & 0x3F) <= 0x3F && ((c >> 6) & 0x3F)
            <= 0x3F && (c & 0x3F) <= 0x3F) by (bit_vector);
    }
    out.push(0xF0 | ((c >> 18) & 0x7) as u8);
    out.push(0x80 | ((c >> 12) & 0x3F) as u8);
    out.push(0x80 | ((c >> 6) & 0x3F) as u8);
    out.push(0x80 | (c & 0x3F) as u8);
    proof {
        assert(out@ =~= old(out)@ + encode_scalar(c));
    }
    let r2 = parse_string_body_exec(s, i + 12, out);
    proof {
        if r2 is Some {
            let (rest, js) = parse_string_body(s@, i + 12 as int)->Some_0;
            assert(out@ =~= old(out)@ + (encode_scalar(c) + rest));
        }
    }
    r2
}

#[verifier::rlimit(100)]
#[verifier::spinoff_prover]
fn parse_string_body_exec(s: &[u8], i: usize, out: &mut Vec<u8>) -> (r: Option<usize>)
    requires
        i <= s@.len(),
    ensures
        (match r {
            Some(j) => parse_string_body(s@, i as int) matches Some((raw, js)) && j as int == js
                && final(out)@ == old(out)@ + raw && i < j <= s@.len(),
            None => parse_string_body(s@, i as int) is None,
        }),
    decreases s@.len() - i, 1int,
{
    if i >= s.len() {
        return None;
    }
    let b = s[i];
    if b == 0x22 {
        proof {
            assert(out@ =~= out@ + Seq::<u8>::empty());
        }
        Some(i + 1)
    } else if b == 0x5c {
        if i + 1 >= s.len() {
            return None;
        }
        let e = s[i + 1];
        if e == 0x22 || e == 0x5c || e == 0x2f {
            out.push(e);
            let r2 = parse_string_body_exec(s, i + 2, out);
            proof {
                if r2 is Some {
                    let (rest, js) = parse_string_body(s@, i + 2 as int)->Some_0;
                    assert(out@ =~= old(out)@ + (seq![e] + rest));
                }
            }
            r2
        } else if e == 0x62 || e == 0x66 || e == 0x6e || e == 0x72 || e == 0x74 {
            let c: u8 = if e == 0x62 {
                0x08
            } else if e == 0x66 {
                0x0c
            } else if e == 0x6e {
                0x0a
            } else if e == 0x72 {
                0x0d
            } else {
                0x09
            };
            out.push(c);
            let r2 = parse_string_body_exec(s, i + 2, out);
            proof {
                if r2 is Some {
                    let (rest, js) = parse_string_body(s@, i + 2 as int)->Some_0;
                    assert(out@ =~= old(out)@ + (seq![c] + rest));
                }
            }
            r2
        } else if e == 0x75 {
            if s.len() - i < 6 {
                return None;
            }
            let h0 = hex_val_exec(s[i + 2]);
            let h1 = hex_val_exec(s[i + 3]);
            let h2 = hex_val_exec(s[i + 4]);
            let h3 = hex_val_exec(s[i + 5]);
            if h0 < 0 || h1 < 0 || h2 < 0 || h3 < 0 {
                proof {
                    assert(hex4_val(s@, i + 2 as int) == -1);
                }
                return None;
            }
            let v: u32 = (h0 as u32) * 0x1000 + (h1 as u32) * 0x100 + (h2 as u32) * 16 + (
            h3 as u32);
            proof {
                assert(hex4_val(s@, i + 2 as int) == v as int);
            }
            if 0xD800 <= v && v < 0xDC00 {
                return parse_surrogate_pair_exec(s, i, v, out);
            }
            if 0xDC00 <= v && v <= 0xDFFF {
                return None;
            }
            proof {
                assert(is_scalar(v));
            }
            if v <= 0x7F {
                proof {
                    assert((v & 0x7F) <= 0x7F) by (bit_vector);
                }
                out.push((v & 0x7F) as u8);
            } else if v <= 0x7FF {
                proof {
                    assert(((v >> 6) & 0x1F) <= 0x1F && (v & 0x3F) <= 0x3F) by (bit_vector);
                }
                out.push(0xC0 | ((v >> 6) & 0x1F) as u8);
                out.push(0x80 | (v & 0x3F) as u8);
            } else {
                proof {
                    assert(((v >> 12) & 0x0F) <= 0x0F && ((v >> 6) & 0x3F) <= 0x3F && (v & 0x3F)
                        <= 0x3F) by (bit_vector);
                }
                out.push(0xE0 | ((v >> 12) & 0x0F) as u8);
                out.push(0x80 | ((v >> 6) & 0x3F) as u8);
                out.push(0x80 | (v & 0x3F) as u8);
            }
            let ghost mid = out@;
            proof {
                assert(mid =~= old(out)@ + encode_scalar(v));
            }
            let r2 = parse_string_body_exec(s, i + 6, out);
            proof {
                if r2 is Some {
                    let (rest, js) = parse_string_body(s@, i + 6 as int)->Some_0;
                    assert(out@ =~= old(out)@ + (encode_scalar(v) + rest));
                }
            }
            r2
        } else {
            None
        }
    } else if b < 0x20 {
        None
    } else {
        out.push(b);
        let r2 = parse_string_body_exec(s, i + 1, out);
        proof {
            if r2 is Some {
                let (rest, js) = parse_string_body(s@, i + 1 as int)->Some_0;
                assert(out@ =~= old(out)@ + (seq![b] + rest));
            }
        }
        r2
    }
}

fn parse_string_exec(s: &[u8], i: usize) -> (r: Option<(String, usize)>)
    requires
        i <= s@.len(),
    ensures
        (match r {
            Some((st, j)) => parse_string(s@, i as int) matches Some((cs, js)) && st@ == cs
                && j as int == js && i < j <= s@.len(),
            None => parse_string(s@, i as int) is None,
        }),
{
    if i >= s.len() {
        return None;
    }
    if s[i] != 0x22 {
        return None;
    }
    let mut raw: Vec<u8> = Vec::new();
    match parse_string_body_exec(s, i + 1, &mut raw) {
        None => None,
        Some(j) => {
            proof {
                let (rawspec, js) = parse_string_body(s@, i + 1 as int)->Some_0;
                assert(raw@ =~= rawspec);
            }
            match string_from_utf8(raw) {
                None => None,
                Some(st) => Some((st, j)),
            }
        },
    }
}

fn digit_run_end_exec(s: &[u8], i: usize) -> (r: usize)
    requires
        i <= s@.len(),
    ensures
        r as int == digit_run_end(s@, i as int),
        i <= r <= s@.len(),
    decreases s@.len() - i,
{
    if i < s.len() {
        let b = s[i];
        if 0x30 <= b && b <= 0x39 {
            return digit_run_end_exec(s, i + 1);
        }
    }
    i
}

spec fn pow10(k: nat) -> int
    decreases k,
{
    if k == 0 {
        1
    } else {
        10 * pow10((k - 1) as nat)
    }
}

proof fn lemma_pow10_pos(k: nat)
    ensures
        pow10(k) >= 1,
    decreases k,
{
    if k > 0 {
        lemma_pow10_pos((k - 1) as nat);
    }
}

proof fn lemma_pow10_mono(a: nat, b: nat)
    requires
        a <= b,
    ensures
        0 < pow10(a) <= pow10(b),
    decreases b,
{
    lemma_pow10_pos(a);
    if a < b {
        lemma_pow10_mono(a, (b - 1) as nat);
    }
}

/// Everything `digit_run_end` guarantees about the run it finds.
proof fn lemma_digit_run_facts(s: Seq<u8>, i: int)
    requires
        0 <= i <= s.len(),
    ensures
        i <= digit_run_end(s, i) <= s.len(),
        forall|m: int| i <= m < digit_run_end(s, i) ==> is_digit(s[m]),
        digit_run_end(s, i) == s.len() || !is_digit(s[digit_run_end(s, i)]),
    decreases s.len() - i,
{
    if i < s.len() && is_digit(s[i]) {
        lemma_digit_run_facts(s, i + 1);
    }
}

proof fn lemma_digits_value_bound(s: Seq<u8>, i: int, j: int)
    requires
        0 <= i <= j <= s.len(),
        forall|m: int| i <= m < j ==> is_digit(s[m]),
    ensures
        0 <= digits_value(s, i, j) < pow10((j - i) as nat),
    decreases j - i,
{
    if i < j {
        lemma_digits_value_bound(s, i, j - 1);
    }
}

fn parse_int_exec(s: &[u8], i: usize) -> (r: Option<(i64, usize)>)
    requires
        i <= s@.len(),
    ensures
        (match r {
            Some((n, j)) => parse_int(s@, i as int) == Some((n as int, j as int)) && i < j
                <= s@.len(),
            None => parse_int(s@, i as int) is None,
        }),
{
    if i >= s.len() {
        return None;
    }
    let neg = s[i] == 0x2d;
    let k = if neg {
        i + 1
    } else {
        i
    };
    let e = digit_run_end_exec(s, k);
    if e == k || e - k > 19 {
        return None;
    }
    if e - k > 1 && s[k] == 0x30 {
        return None;
    }
    proof {
        lemma_digit_run_facts(s@, k as int);
    }
    let mut acc: u64 = 0;
    let mut cur = k;
    while cur < e
        invariant
            k <= cur <= e <= s@.len(),
            e - k <= 19,
            e as int == digit_run_end(s@, k as int),
            forall|m: int| k <= m < e ==> is_digit(s@[m]),
            acc as int == digits_value(s@, k as int, cur as int),
        decreases e - cur,
    {
        proof {
            lemma_digits_value_bound(s@, k as int, cur as int);
            lemma_pow10_mono((cur - k) as nat, 18);
            assert(pow10(18) == 1_000_000_000_000_000_000) by {
                reveal_with_fuel(pow10, 19);
            }
        }
        let d = s[cur];
        acc = acc * 10 + ((d - 0x30) as u64);
        cur = cur + 1;
    }
    if neg {
        if acc > 0x8000_0000_0000_0000u64 {
            return None;
        }
        let n: i64 = if acc == 0x8000_0000_0000_0000u64 {
            i64::MIN
        } else {
            -(acc as i64)
        };
        Some((n, e))
    } else {
        if acc > 0x7fff_ffff_ffff_ffffu64 {
            return None;
        }
        Some((acc as i64, e))
    }
}

fn parse_scalar_exec(s: &[u8], i: usize) -> (r: Option<(Scalar, usize)>)
    requires
        i <= s@.len(),
    ensures
        (match r {
            Some((v, j)) => parse_scalar(s@, i as int) matches Some((vs, js)) && v@ == vs
                && j as int == js && i < j <= s@.len(),
            None => parse_scalar(s@, i as int) is None,
        }),
{
    if i >= s.len() {
        return None;
    }
    let b = s[i];
    if b == 0x22 {
        match parse_string_exec(s, i) {
            Some((st, j)) => Some((Scalar::Str(st), j)),
            None => None,
        }
    } else if b == 0x2d || (0x30 <= b && b <= 0x39) {
        match parse_int_exec(s, i) {
            Some((n, j)) => Some((Scalar::Int(n), j)),
            None => None,
        }
    } else if s.len() - i >= 4 && b == 0x74 && s[i + 1] == 0x72 && s[i + 2] == 0x75 && s[i + 3]
        == 0x65 {
        proof {
            assert(s@.subrange(i as int, i + 4 as int) =~= seq![0x74u8, 0x72u8, 0x75u8, 0x65u8]);
        }
        Some((Scalar::Bool(true), i + 4))
    } else if s.len() - i >= 5 && b == 0x66 && s[i + 1] == 0x61 && s[i + 2] == 0x6c && s[i + 3]
        == 0x73 && s[i + 4] == 0x65 {
        proof {
            assert(!has_bytes_at(s@, i as int, seq![0x74u8, 0x72u8, 0x75u8, 0x65u8]));
            assert(s@.subrange(i as int, i + 5 as int) =~= seq![
                0x66u8,
                0x61u8,
                0x6cu8,
                0x73u8,
                0x65u8,
            ]);
        }
        Some((Scalar::Bool(false), i + 5))
    } else if s.len() - i >= 4 && b == 0x6e && s[i + 1] == 0x75 && s[i + 2] == 0x6c && s[i + 3]
        == 0x6c {
        proof {
            assert(!has_bytes_at(s@, i as int, seq![0x74u8, 0x72u8, 0x75u8, 0x65u8]));
            assert(!has_bytes_at(s@, i as int, seq![0x66u8, 0x61u8, 0x6cu8, 0x73u8, 0x65u8]));
            assert(s@.subrange(i as int, i + 4 as int) =~= seq![0x6eu8, 0x75u8, 0x6cu8, 0x6cu8]);
        }
        Some((Scalar::Null, i + 4))
    } else {
        proof {
            assert(!has_bytes_at(s@, i as int, seq![0x74u8, 0x72u8, 0x75u8, 0x65u8]));
            assert(!has_bytes_at(s@, i as int, seq![0x66u8, 0x61u8, 0x6cu8, 0x73u8, 0x65u8]));
            assert(!has_bytes_at(s@, i as int, seq![0x6eu8, 0x75u8, 0x6cu8, 0x6cu8]));
        }
        None
    }
}

fn parse_elems_exec(s: &[u8], i: usize, out: &mut Vec<Scalar>) -> (r: Option<usize>)
    requires
        i <= s@.len(),
    ensures
        (match r {
            Some(j) => parse_elems(s@, i as int) matches Some((es, js)) && j as int == js
                && final(out)@.map_values(|e: Scalar| e@) == old(out)@.map_values(|e: Scalar| e@)
                + es && i < j <= s@.len(),
            None => parse_elems(s@, i as int) is None,
        }),
    decreases s@.len() - i,
{
    let ghost f = |e: Scalar| e@;
    match parse_scalar_exec(s, i) {
        None => None,
        Some((v, k)) => {
            let ghost vv = v@;
            out.push(v);
            proof {
                assert(out@.map_values(f) =~= old(out)@.map_values(f).push(vv));
            }
            let m = skip_ws_exec(s, k);
            if m < s.len() && s[m] == 0x2c {
                let n = skip_ws_exec(s, m + 1);
                let r2 = parse_elems_exec(s, n, out);
                proof {
                    if r2 is Some {
                        let (rest, js) = parse_elems(s@, n as int)->Some_0;
                        assert(out@.map_values(f) =~= old(out)@.map_values(f) + (seq![vv] + rest));
                    }
                }
                r2
            } else if m < s.len() && s[m] == 0x5d {
                proof {
                    assert(out@.map_values(f) =~= old(out)@.map_values(f) + seq![vv]);
                }
                Some(m + 1)
            } else {
                None
            }
        },
    }
}

fn parse_value_exec(s: &[u8], i: usize) -> (r: Option<(JsonValue, usize)>)
    requires
        i <= s@.len(),
    ensures
        (match r {
            Some((v, j)) => parse_value(s@, i as int) matches Some((vs, js)) && v@ == vs
                && j as int == js && i < j <= s@.len(),
            None => parse_value(s@, i as int) is None,
        }),
{
    if i >= s.len() {
        return None;
    }
    if s[i] == 0x5b {
        let j = skip_ws_exec(s, i + 1);
        if j < s.len() && s[j] == 0x5d {
            let es: Vec<Scalar> = Vec::new();
            proof {
                assert(es@.map_values(|e: Scalar| e@) =~= Seq::<ScalarV>::empty());
            }
            Some((JsonValue::Arr(es), j + 1))
        } else {
            let mut es: Vec<Scalar> = Vec::new();
            let r2 = parse_elems_exec(s, j, &mut es);
            match r2 {
                Some(k) => {
                    proof {
                        let (esspec, js) = parse_elems(s@, j as int)->Some_0;
                        assert(es@.map_values(|e: Scalar| e@) =~= esspec);
                    }
                    Some((JsonValue::Arr(es), k))
                },
                None => None,
            }
        }
    } else {
        match parse_scalar_exec(s, i) {
            Some((v, j)) => Some((JsonValue::Sc(v), j)),
            None => None,
        }
    }
}

fn parse_members_exec(s: &[u8], i: usize, out: &mut Vec<(String, JsonValue)>) -> (r: Option<
    usize,
>)
    requires
        i <= s@.len(),
    ensures
        (match r {
            Some(j) => parse_members(s@, i as int) matches Some((ms, js)) && j as int == js
                && members_view(final(out)@) == members_view(old(out)@) + ms && i < j <= s@.len(),
            None => parse_members(s@, i as int) is None,
        }),
    decreases s@.len() - i,
{
    match parse_string_exec(s, i) {
        None => None,
        Some((key, a)) => {
            let b = skip_ws_exec(s, a);
            if b < s.len() && s[b] == 0x3a {
                let c = skip_ws_exec(s, b + 1);
                match parse_value_exec(s, c) {
                    None => None,
                    Some((v, d)) => {
                        let ghost kv = (key@, v@);
                        out.push((key, v));
                        proof {
                            assert(members_view(out@) =~= members_view(old(out)@).push(kv));
                        }
                        let e = skip_ws_exec(s, d);
                        if e < s.len() && s[e] == 0x2c {
                            let f = skip_ws_exec(s, e + 1);
                            let r2 = parse_members_exec(s, f, out);
                            proof {
                                if r2 is Some {
                                    let (rest, js) = parse_members(s@, f as int)->Some_0;
                                    assert(members_view(out@) =~= members_view(old(out)@) + (seq![
                                        kv,
                                    ] + rest));
                                }
                            }
                            r2
                        } else if e < s.len() && s[e] == 0x7d {
                            proof {
                                assert(members_view(out@) =~= members_view(old(out)@) + seq![kv]);
                            }
                            Some(e + 1)
                        } else {
                            None
                        }
                    },
                }
            } else {
                None
            }
        },
    }
}

/// Parses a whole input line as one object. Mirrors [`parse_top`].
pub fn parse_top_exec(s: &[u8]) -> (r: Option<Vec<(String, JsonValue)>>)
    ensures
        (match r {
            Some(ms) => parse_top(s@) == Some(members_view(ms@)),
            None => parse_top(s@) is None,
        }),
{
    let i = skip_ws_exec(s, 0);
    if i < s.len() && s[i] == 0x7b {
        let j = skip_ws_exec(s, i + 1);
        if j < s.len() && s[j] == 0x7d {
            if skip_ws_exec(s, j + 1) == s.len() {
                let ms: Vec<(String, JsonValue)> = Vec::new();
                proof {
                    assert(members_view(ms@) =~= Seq::<(Seq<char>, ValueV)>::empty());
                }
                Some(ms)
            } else {
                None
            }
        } else {
            let mut ms: Vec<(String, JsonValue)> = Vec::new();
            match parse_members_exec(s, j, &mut ms) {
                Some(k) => {
                    if skip_ws_exec(s, k) == s.len() {
                        proof {
                            let (msspec, js) = parse_members(s@, j as int)->Some_0;
                            assert(members_view(ms@) =~= msspec);
                        }
                        Some(ms)
                    } else {
                        None
                    }
                },
                None => None,
            }
        }
    } else {
        None
    }
}

/// Appends the serialization of a whole object.
pub fn ser_object_exec(ms: &Vec<(String, JsonValue)>, out: &mut Vec<u8>)
    ensures
        final(out)@ == old(out)@ + ser_object(members_view(ms@)),
{
    out.push(0x7b);
    if ms.len() == 0 {
        out.push(0x7d);
        proof {
            assert(out@ =~= old(out)@ + ser_object(members_view(ms@)));
        }
    } else {
        ser_members_exec(ms, 0, out);
        out.push(0x7d);
        proof {
            assert(members_view(ms@).skip(0) =~= members_view(ms@));
            assert(out@ =~= old(out)@ + ser_object(members_view(ms@)));
        }
    }
}

// ------------------------------------------------------------------
// Round trip: parsing inverts serialization. The lemmas walk the same
// grammar bottom-up; each one places a serialized piece between an
// arbitrary prefix and suffix of the input.
// ------------------------------------------------------------------
/// Serializable scalars: integers must fit the wire's signed 64-bit range.
pub open spec fn wf_scalar(v: ScalarV) -> bool {
    match v {
        ScalarV::Int(n) => -0x8000_0000_0000_0000 <= n < 0x8000_0000_0000_0000,
        _ => true,
    }
}

pub open spec fn wf_value(v: ValueV) -> bool {
    match v {
        ValueV::Sc(sc) => wf_scalar(sc),
        ValueV::Arr(es) => forall|k: int| 0 <= k < es.len() ==> wf_scalar(es[k]),
    }
}

pub open spec fn wf_members(ms: Seq<(Seq<char>, ValueV)>) -> bool {
    forall|k: int| 0 <= k < ms.len() ==> wf_value(ms[k].1)
}

proof fn lemma_skip_ws_none(s: Seq<u8>, i: int)
    requires
        0 <= i <= s.len(),
        i == s.len() || !is_ws(s[i]),
    ensures
        skip_ws(s, i) == i,
{
}

proof fn lemma_skip_ws_all(s: Seq<u8>, i: int)
    requires
        0 <= i <= s.len(),
        forall|k: int| i <= k < s.len() ==> is_ws(s[k]),
    ensures
        skip_ws(s, i) == s.len(),
    decreases s.len() - i,
{
    if i < s.len() {
        lemma_skip_ws_all(s, i + 1);
    }
}

proof fn lemma_hex_char_val(n: int)
    requires
        0 <= n < 16,
    ensures
        hex_val(hex_char_of(n)) == n,
{
}

/// Unescaping the escape of `bs` (up to the closing quote) gives `bs` back.
proof fn lemma_parse_body_of_esc(pre: Seq<u8>, bs: Seq<u8>, post: Seq<u8>)
    ensures
        parse_string_body(pre + esc_bytes(bs) + seq![0x22u8] + post, pre.len() as int) == Some(
            (bs, (pre.len() + esc_bytes(bs).len() + 1) as int),
        ),
    decreases bs.len(),
{
    let s = pre + esc_bytes(bs) + seq![0x22u8] + post;
    let i = pre.len() as int;
    if bs.len() == 0 {
        assert(esc_bytes(bs).len() == 0);
        assert(s[i] == 0x22);
    } else {
        let b0 = bs[0];
        let rest = bs.drop_first();
        assert(esc_bytes(bs) == esc_byte(b0) + esc_bytes(rest));
        let pre2 = pre + esc_byte(b0);
        assert(s =~= pre2 + esc_bytes(rest) + seq![0x22u8] + post);
        lemma_parse_body_of_esc(pre2, rest, post);
        if b0 == 0x22 {
            assert(s[i] == 0x5c && s[i + 1] == 0x22);
            assert(seq![b0] + rest =~= bs);
        } else if b0 == 0x5c {
            assert(s[i] == 0x5c && s[i + 1] == 0x5c);
            assert(seq![b0] + rest =~= bs);
        } else if b0 < 0x20 {
            assert(s[i] == 0x5c && s[i + 1] == 0x75);
            assert(s[i + 2] == 0x30 && s[i + 3] == 0x30);
            assert(s[i + 4] == hex_char_of((b0 >> 4) as int));
            assert(s[i + 5] == hex_char_of((b0 & 0x0f) as int));
            assert(b0 >> 4 < 16 && b0 & 0x0f < 16) by (bit_vector);
            lemma_hex_char_val((b0 >> 4) as int);
            lemma_hex_char_val((b0 & 0x0f) as int);
            assert(hex_val(s[i + 2]) == 0 && hex_val(s[i + 3]) == 0);
            assert((b0 >> 4) * 16 + (b0 & 0x0f) == b0) by (bit_vector);
            assert(hex4_val(s, i + 2) == b0 as int);
            let v = b0 as u32;
            assert(is_scalar(v));
            assert(b0 < 0x20 ==> ((b0 as u32) & 0x7F) as u8 == b0) by (bit_vector);
            assert(encode_scalar(v) =~= seq![b0]);
            assert(i + 6 <= s.len());
            assert(parse_string_body(s, i) == Some((encode_scalar(v) + rest, i + 6
                + esc_bytes(rest).len() + 1)));
            assert(encode_scalar(v) + rest =~= bs);
        } else {
            assert(s[i] == b0);
            assert(s[i] != 0x22 && s[i] != 0x5c && !(s[i] < 0x20));
            assert(seq![b0] + rest =~= bs);
        }
    }
}

/// First byte of a serialized scalar: never whitespace, never a digit run
/// continuation hazard for the surrounding grammar.
proof fn lemma_ser_scalar_first(v: ScalarV)
    requires
        wf_scalar(v),
    ensures
        ser_scalar(v).len() > 0,
        !is_ws(ser_scalar(v)[0]),
        ser_scalar(v)[0] != 0x5d,
        ser_scalar(v)[0] != 0x5b,
        ser_scalar(v)[0] != 0x7d,
        ser_scalar(v)[0] != 0x2c,
        ser_scalar(v)[0] != 0x3a,
{
    match v {
        ScalarV::Int(n) => {
            if n < 0 {
            } else {
                lemma_ser_nat_digits(n as nat);
                assert(is_digit(ser_nat(n as nat)[0]));
            }
        },
        _ => {},
    }
}

/// Every byte of a serialized natural number is a decimal digit.
proof fn lemma_ser_nat_digits(n: nat)
    ensures
        ser_nat(n).len() > 0,
        forall|k: int| 0 <= k < ser_nat(n).len() ==> is_digit(#[trigger] ser_nat(n)[k]),
    decreases n,
{
    if n >= 10 {
        lemma_ser_nat_digits(n / 10);
        assert forall|k: int| 0 <= k < ser_nat(n).len() implies is_digit(
            #[trigger] ser_nat(n)[k],
        ) by {
            if k < ser_nat(n / 10).len() {
                assert(ser_nat(n)[k] == ser_nat(n / 10)[k]);
            } else {
                assert(ser_nat(n)[k] == (0x30 + n % 10) as u8);
            }
        }
    }
}

/// A multi-digit rendering never starts with a zero digit.
proof fn lemma_ser_nat_no_leading_zero(n: nat)
    requires
        n >= 10,
    ensures
        ser_nat(n)[0] != 0x30,
    decreases n,
{
    lemma_ser_nat_digits(n / 10);
    assert(ser_nat(n)[0] == ser_nat(n / 10)[0]);
    if n / 10 < 10 {
        assert(ser_nat(n / 10) == seq![(0x30 + n / 10) as u8]);
    } else {
        lemma_ser_nat_no_leading_zero(n / 10);
    }
}

/// A run of digits bounded by a non-digit ends exactly at the bound.
proof fn lemma_digit_run_exact(s: Seq<u8>, i: int, j: int)
    requires
        0 <= i <= j <= s.len(),
        forall|m: int| i <= m < j ==> is_digit(s[m]),
        j == s.len() || !is_digit(s[j]),
    ensures
        digit_run_end(s, i) == j,
    decreases j - i,
{
    if i < j {
        lemma_digit_run_exact(s, i + 1, j);
    }
}

/// The digits of `n` evaluate back to `n`.
proof fn lemma_digits_value_of_ser(s: Seq<u8>, i: int, n: nat)
    requires
        0 <= i,
        i + ser_nat(n).len() <= s.len(),
        s.subrange(i, i + ser_nat(n).len()) == ser_nat(n),
    ensures
        digits_value(s, i, i + ser_nat(n).len()) == n,
    decreases n,
{
    reveal_with_fuel(digits_value, 3);
    let l = ser_nat(n).len() as int;
    if n < 10 {
        assert(ser_nat(n) == seq![(0x30 + n) as u8]);
        assert(l == 1);
        assert(s.subrange(i, i + 1) == ser_nat(n));
        assert(s.subrange(i, i + 1)[0] == s[i]);
        assert(s[i] == (0x30 + n) as u8);
        assert(digits_value(s, i, i + 1) == s[i] - 0x30);
    } else {
        let lh = ser_nat(n / 10).len() as int;
        assert(ser_nat(n) == ser_nat(n / 10) + seq![(0x30 + n % 10) as u8]);
        assert(s.subrange(i, i + lh) =~= ser_nat(n / 10));
        lemma_digits_value_of_ser(s, i, n / 10);
        assert(s[i + l - 1] == ser_nat(n)[l - 1]);
        assert(ser_nat(n)[l - 1] == (0x30 + n % 10) as u8);
        assert(digits_value(s, i, i + l) == digits_value(s, i, i + l - 1) * 10 + (s[i + l - 1]
            - 0x30));
    }
}

/// Digit-count bound: a value below `pow10(k)` has at most `k` digits.
proof fn lemma_ser_nat_len(n: nat, k: nat)
    requires
        k >= 1,
        n < pow10(k),
    ensures
        ser_nat(n).len() <= k,
    decreases n,
{
    if n >= 10 {
        assert(pow10(k) == 10 * pow10((k - 1) as nat));
        assert(n / 10 < pow10((k - 1) as nat)) by (nonlinear_arith)
            requires
                n < 10 * pow10((k - 1) as nat),
                n >= 10,
        ;
        if k - 1 >= 1 {
            lemma_ser_nat_len(n / 10, (k - 1) as nat);
        } else {
            lemma_pow10_pos((k - 1) as nat);
        }
    }
}

/// Parsing the serialization of an in-range integer gives it back.
proof fn lemma_parse_int_of_ser(pre: Seq<u8>, n: int, post: Seq<u8>)
    requires
        -0x8000_0000_0000_0000 <= n < 0x8000_0000_0000_0000,
        post.len() > 0,
        !is_digit(post[0]),
    ensures
        parse_int(pre + ser_int(n) + post, pre.len() as int) == Some(
            (n, (pre.len() + ser_int(n).len()) as int),
        ),
{
    let s = pre + ser_int(n) + post;
    let i = pre.len() as int;
    let m: nat = if n < 0 { (-n) as nat } else { n as nat };
    let k: int = if n < 0 { i + 1 } else { i };
    let l = ser_nat(m).len() as int;
    lemma_ser_nat_digits(m);
    assert(pow10(19) == 10_000_000_000_000_000_000) by {
        reveal_with_fuel(pow10, 20);
    }
    lemma_ser_nat_len(m, 19);
    assert forall|q: int| k <= q < k + l implies is_digit(s[q]) by {
        assert(s[q] == ser_nat(m)[q - k]);
    }
    assert(s[k + l] == post[0]);
    lemma_digit_run_exact(s, k, k + l);
    assert(s.subrange(k, k + l) =~= ser_nat(m));
    lemma_digits_value_of_ser(s, k, m);
    if l > 1 {
        lemma_ser_nat_no_leading_zero(m);
        assert(s[k] == ser_nat(m)[0]);
    }
    if n < 0 {
        assert(s[i] == 0x2d);
    } else {
        assert(s[i] == ser_nat(m)[0]);
        assert(is_digit(s[i]));
        assert(s[i] != 0x2d);
    }
}

/// Parsing the serialization of a string gives it back.
proof fn lemma_parse_string_of_ser(pre: Seq<u8>, cs: Seq<char>, post: Seq<u8>)
    ensures
        parse_string(pre + ser_str(cs) + post, pre.len() as int) == Some(
            (cs, (pre.len() + ser_str(cs).len()) as int),
        ),
{
    broadcast use vstd::utf8::encode_utf8_valid_utf8, vstd::utf8::encode_utf8_decode_utf8;

    let s = pre + ser_str(cs) + post;
    let i = pre.len() as int;
    let bs = encode_utf8(cs);
    assert(s[i] == 0x22);
    let pre2 = pre + seq![0x22u8];
    assert(s =~= pre2 + esc_bytes(bs) + seq![0x22u8] + post);
    lemma_parse_body_of_esc(pre2, bs, post);
    assert(parse_string_body(s, i + 1) == Some((bs, i + 1 + esc_bytes(bs).len() + 1)));
    assert(ser_str(cs).len() == esc_bytes(bs).len() + 2);
}

/// Parsing the serialization of a well-formed scalar gives it back.
proof fn lemma_parse_scalar_of_ser(pre: Seq<u8>, v: ScalarV, post: Seq<u8>)
    requires
        wf_scalar(v),
        post.len() > 0,
        !is_digit(post[0]),
    ensures
        parse_scalar(pre + ser_scalar(v) + post, pre.len() as int) == Some(
            (v, (pre.len() + ser_scalar(v).len()) as int),
        ),
{
    let s = pre + ser_scalar(v) + post;
    let i = pre.len() as int;
    lemma_ser_scalar_first(v);
    assert(s[i] == ser_scalar(v)[0]);
    match v {
        ScalarV::Str(cs) => {
            assert(s =~= pre + ser_str(cs) + post);
            lemma_parse_string_of_ser(pre, cs, post);
        },
        ScalarV::Int(n) => {
            assert(s =~= pre + ser_int(n) + post);
            if n < 0 {
                assert(s[i] == 0x2d);
            } else {
                lemma_ser_nat_digits(n as nat);
                assert(is_digit(s[i]));
            }
            assert(s[i] != 0x22);
            lemma_parse_int_of_ser(pre, n, post);
        },
        ScalarV::Bool(b) => {
            if b {
                assert(s[i] == 0x74);
                assert(s.subrange(i, i + 4) =~= seq![0x74u8, 0x72u8, 0x75u8, 0x65u8]);
                assert(has_bytes_at(s, i, seq![0x74u8, 0x72u8, 0x75u8, 0x65u8]));
            } else {
                assert(s[i] == 0x66);
                assert(!has_bytes_at(s, i, seq![0x74u8, 0x72u8, 0x75u8, 0x65u8]));
                assert(s.subrange(i, i + 5) =~= seq![0x66u8, 0x61u8, 0x6cu8, 0x73u8, 0x65u8]);
            }
        },
        ScalarV::Null => {
            assert(s[i] == 0x6e);
            assert(!has_bytes_at(s, i, seq![0x74u8, 0x72u8, 0x75u8, 0x65u8]));
            assert(!has_bytes_at(s, i, seq![0x66u8, 0x61u8, 0x6cu8, 0x73u8, 0x65u8]));
            assert(s.subrange(i, i + 4) =~= seq![0x6eu8, 0x75u8, 0x6cu8, 0x6cu8]);
        },
    }
}

/// Parsing serialized array elements (and the closing bracket) gives them back.
#[verifier::rlimit(100)]
proof fn lemma_parse_elems_of_ser(pre: Seq<u8>, es: Seq<ScalarV>, post: Seq<u8>)
    requires
        es.len() > 0,
        forall|k: int| 0 <= k < es.len() ==> wf_scalar(es[k]),
    ensures
        parse_elems(pre + ser_elems(es) + seq![0x5du8] + post, pre.len() as int) == Some(
            (es, (pre.len() + ser_elems(es).len() + 1) as int),
        ),
    decreases es.len(),
{
    let s = pre + ser_elems(es) + seq![0x5du8] + post;
    let i = pre.len() as int;
    let e0 = es[0];
    if es.len() == 1 {
        assert(ser_elems(es) == ser_scalar(e0));
        assert(s =~= pre + ser_scalar(e0) + (seq![0x5du8] + post));
        lemma_parse_scalar_of_ser(pre, e0, seq![0x5du8] + post);
        let k = i + ser_scalar(e0).len();
        assert(s[k] == 0x5d);
        lemma_skip_ws_none(s, k);
        assert(seq![e0] =~= es);
    } else {
        let rest = es.drop_first();
        assert(ser_elems(es) == ser_scalar(e0) + seq![0x2cu8] + ser_elems(rest));
        assert(s =~= pre + ser_scalar(e0) + (seq![0x2cu8] + ser_elems(rest) + seq![0x5du8]
            + post));
        lemma_parse_scalar_of_ser(pre, e0, seq![0x2cu8] + ser_elems(rest) + seq![0x5du8] + post);
        let k = i + ser_scalar(e0).len();
        assert(s[k] == 0x2c);
        lemma_skip_ws_none(s, k);
        let pre2 = pre + ser_scalar(e0) + seq![0x2cu8];
        assert(s =~= pre2 + ser_elems(rest) + seq![0x5du8] + post);
        lemma_parse_elems_of_ser(pre2, rest, post);
        lemma_ser_scalar_first(rest[0]);
        assert(s[k + 1] == ser_elems(rest)[0]);
        assert(ser_elems(rest)[0] == ser_scalar(rest[0])[0]);
        lemma_skip_ws_none(s, k + 1);
        assert(seq![e0] + rest =~= es);
    }
}

/// Parsing the serialization of a well-formed member value gives it back.
proof fn lemma_parse_value_of_ser(pre: Seq<u8>, v: ValueV, post: Seq<u8>)
    requires
        wf_value(v),
        post.len() > 0,
        !is_digit(post[0]),
    ensures
        parse_value(pre + ser_value(v) + post, pre.len() as int) == Some(
            (v, (pre.len() + ser_value(v).len()) as int),
        ),
{
    let s = pre + ser_value(v) + post;
    let i = pre.len() as int;
    match v {
        ValueV::Sc(sc) => {
            lemma_ser_scalar_first(sc);
            assert(s[i] == ser_scalar(sc)[0]);
            assert(s[i] != 0x5b);
            assert(s =~= pre + ser_scalar(sc) + post);
            lemma_parse_scalar_of_ser(pre, sc, post);
        },
        ValueV::Arr(es) => {
            assert(s[i] == 0x5b);
            if es.len() == 0 {
                assert(s[i + 1] == 0x5d);
                lemma_skip_ws_none(s, i + 1);
                assert(es =~= Seq::<ScalarV>::empty());
            } else {
                lemma_ser_scalar_first(es[0]);
                assert(ser_elems(es)[0] == ser_scalar(es[0])[0]);
                assert(s[i + 1] == ser_elems(es)[0]);
                lemma_skip_ws_none(s, i + 1);
                assert(s[i + 1] != 0x5d);
                let pre2 = pre + seq![0x5bu8];
                assert(s =~= pre2 + ser_elems(es) + seq![0x5du8] + post);
                lemma_parse_elems_of_ser(pre2, es, post);
            }
        },
    }
}

/// Parsing one serialized member: the key, the colon, and the value.
proof fn lemma_parse_member_of_ser(pre: Seq<u8>, m0: (Seq<char>, ValueV), post: Seq<u8>)
    requires
        wf_value(m0.1),
        post.len() > 0,
        !is_digit(post[0]),
    ensures
        ({
            let s = pre + ser_member(m0) + post;
            let i = pre.len() as int;
            let key_end = i + ser_str(m0.0).len();
            let d = i + ser_member(m0).len();
            parse_string(s, i) == Some((m0.0, key_end as int)) && skip_ws(s, key_end as int)
                == key_end && s[key_end as int] == 0x3a && skip_ws(s, key_end + 1) == key_end + 1
                && parse_value(s, key_end + 1) == Some((m0.1, d as int))
        }),
{
    let s = pre + ser_member(m0) + post;
    let i = pre.len() as int;
    let key_end = i + ser_str(m0.0).len() as int;
    assert(s =~= pre + ser_str(m0.0) + (seq![0x3au8] + ser_value(m0.1) + post));
    lemma_parse_string_of_ser(pre, m0.0, seq![0x3au8] + ser_value(m0.1) + post);
    assert(s[key_end] == 0x3a);
    lemma_skip_ws_none(s, key_end);
    let pre2 = pre + ser_str(m0.0) + seq![0x3au8];
    assert(s =~= pre2 + ser_value(m0.1) + post);
    lemma_ser_value_first(m0.1);
    assert(s[key_end + 1] == ser_value(m0.1)[0]);
    lemma_skip_ws_none(s, key_end + 1);
    lemma_parse_value_of_ser(pre2, m0.1, post);
}

/// One final member, then the closing brace.
#[verifier::rlimit(60)]
#[verifier::spinoff_prover]
proof fn lemma_parse_members_last(pre: Seq<u8>, m0: (Seq<char>, ValueV), post: Seq<u8>)
    requires
        wf_value(m0.1),
    ensures
        parse_members(pre + ser_member(m0) + seq![0x7du8] + post, pre.len() as int) == Some(
            (seq![m0], (pre.len() + ser_member(m0).len() + 1) as int),
        ),
{
    let s = pre + ser_member(m0) + seq![0x7du8] + post;
    let i = pre.len() as int;
    let d = i + ser_member(m0).len() as int;
    assert(s =~= pre + ser_member(m0) + (seq![0x7du8] + post));
    lemma_parse_member_of_ser(pre, m0, seq![0x7du8] + post);
    assert(s[d] == 0x7d);
    lemma_skip_ws_none(s, d);
}

/// One member, a comma, then however many more members.
#[verifier::rlimit(60)]
#[verifier::spinoff_prover]
proof fn lemma_parse_members_cons(
    pre: Seq<u8>,
    m0: (Seq<char>, ValueV),
    rest: Seq<(Seq<char>, ValueV)>,
    post: Seq<u8>,
)
    requires
        wf_value(m0.1),
        rest.len() > 0,
        parse_members(
            pre + ser_member(m0) + seq![0x2cu8] + ser_members(rest) + seq![0x7du8] + post,
            (pre + ser_member(m0) + seq![0x2cu8]).len() as int,
        ) == Some(
            (
                rest,
                ((pre + ser_member(m0) + seq![0x2cu8]).len() + ser_members(rest).len()
                    + 1) as int,
            ),
        ),
    ensures
        parse_members(
            pre + ser_member(m0) + seq![0x2cu8] + ser_members(rest) + seq![0x7du8] + post,
            pre.len() as int,
        ) == Some(
            (
                seq![m0] + rest,
                (pre.len() + ser_member(m0).len() + 1 + ser_members(rest).len() + 1) as int,
            ),
        ),
{
    let s = pre + ser_member(m0) + seq![0x2cu8] + ser_members(rest) + seq![0x7du8] + post;
    let i = pre.len() as int;
    let d = i + ser_member(m0).len() as int;
    assert(s =~= pre + ser_member(m0) + (seq![0x2cu8] + ser_members(rest) + seq![0x7du8]
        + post));
    lemma_parse_member_of_ser(pre, m0, seq![0x2cu8] + ser_members(rest) + seq![0x7du8] + post);
    assert(s[d] == 0x2c);
    lemma_skip_ws_none(s, d);
    assert(ser_members(rest)[0] == ser_member(rest[0])[0]);
    assert(ser_member(rest[0])[0] == ser_str(rest[0].0)[0]);
    assert(ser_str(rest[0].0)[0] == 0x22);
    assert(s[d + 1] == ser_members(rest)[0]);
    lemma_skip_ws_none(s, d + 1);
}

/// Parsing serialized members (and the closing brace) gives them back.
proof fn lemma_parse_members_of_ser(pre: Seq<u8>, ms: Seq<(Seq<char>, ValueV)>, post: Seq<u8>)
    requires
        ms.len() > 0,
        wf_members(ms),
    ensures
        parse_members(pre + ser_members(ms) + seq![0x7du8] + post, pre.len() as int) == Some(
            (ms, (pre.len() + ser_members(ms).len() + 1) as int),
        ),
    decreases ms.len(),
{
    let m0 = ms[0];
    if ms.len() == 1 {
        assert(ser_members(ms) == ser_member(m0));
        lemma_parse_members_last(pre, m0, post);
        assert(seq![m0] =~= ms);
    } else {
        let rest = ms.drop_first();
        assert(ser_members(ms) == ser_member(m0) + seq![0x2cu8] + ser_members(rest));
        let pre3 = pre + ser_member(m0) + seq![0x2cu8];
        assert(pre + ser_members(ms) + seq![0x7du8] + post =~= pre3 + ser_members(rest) + seq![
            0x7du8,
        ] + post);
        lemma_parse_members_of_ser(pre3, rest, post);
        lemma_parse_members_cons(pre, m0, rest, post);
        assert(seq![m0] + rest =~= ms);
    }
}

/// First byte of a serialized member value: `[` or a scalar's first byte.
proof fn lemma_ser_value_first(v: ValueV)
    requires
        wf_value(v),
    ensures
        ser_value(v).len() > 0,
        !is_ws(ser_value(v)[0]),
        ser_value(v)[0] != 0x7d,
        ser_value(v)[0] != 0x2c,
{
    match v {
        ValueV::Sc(sc) => {
            lemma_ser_scalar_first(sc);
        },
        ValueV::Arr(es) => {
            if es.len() > 0 {
                lemma_ser_scalar_first(es[0]);
            }
        },
    }
}

/// Parsing the serialization of a whole object, followed by nothing but
/// whitespace, gives its members back.
pub proof fn lemma_parse_top_of_ser(ms: Seq<(Seq<char>, ValueV)>, post: Seq<u8>)
    requires
        ms.len() > 0,
        wf_members(ms),
        forall|k: int| 0 <= k < post.len() ==> is_ws(post[k]),
    ensures
        parse_top(ser_object(ms) + post) == Some(ms),
{
    let s = ser_object(ms) + post;
    assert(ser_object(ms) == seq![0x7bu8] + ser_members(ms) + seq![0x7du8]);
    assert(s[0] == 0x7b);
    lemma_skip_ws_none(s, 0);
    assert(ser_members(ms)[0] == ser_member(ms[0])[0]);
    assert(ser_member(ms[0])[0] == ser_str(ms[0].0)[0]);
    assert(s[1] == ser_members(ms)[0]);
    assert(s[1] == 0x22);
    lemma_skip_ws_none(s, 1);
    let pre = seq![0x7bu8];
    assert(s =~= pre + ser_members(ms) + seq![0x7du8] + post);
    lemma_parse_members_of_ser(pre, ms, post);
    let k: int = 2 + ser_members(ms).len() as int;
    assert forall|q: int| k <= q < s.len() implies is_ws(s[q]) by {
        assert(s[q] == post[q - k]);
    }
    lemma_skip_ws_all(s, k);
}

/// Character-for-character string equality.
pub(crate) fn str_eq(a: &str, b: &str) -> (r: bool)
    ensures
        r == (a@ == b@),
{
    let sa = a.to_owned();
    let sb = b.to_owned();
    sa == sb
}

} // verus!

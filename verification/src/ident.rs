//! 128-bit message identifiers, carried on the wire in the usual hyphenated
//! lowercase hex form (8-4-4-4-12 digits). Parsing accepts either case;
//! formatting emits lowercase. Both directions are verified against one
//! character-level model, with a proved round trip.
use vstd::arithmetic::div_mod::{lemma_div_denominator, lemma_mod_breakdown, lemma_small_mod};
use vstd::prelude::*;
use vstd::utf8::{decode_utf8, encode_scalar, encode_utf8, valid_utf8};

verus! {

/// A 128-bit identifier.
#[derive(Clone, Copy, PartialEq, Eq, Structural, Debug, Hash)]
pub struct Uuid {
    pub value: u128,
}

/// Sixteen to the `k`.
pub open spec fn p16(k: nat) -> int
    decreases k,
{
    if k == 0 {
        1
    } else {
        16 * p16((k - 1) as nat)
    }
}

/// Lowercase hex digit for a nibble value.
pub open spec fn nib_char(n: int) -> char
    recommends
        0 <= n < 16,
{
    if n < 10 {
        (0x30 + n) as char
    } else {
        (0x57 + n) as char
    }
}

/// Nibble value of a hex digit (either case), or -1.
pub open spec fn nib_val(c: char) -> int {
    if 0x30 <= c as u32 <= 0x39 {
        c as u32 - 0x30
    } else if 0x61 <= c as u32 <= 0x66 {
        c as u32 - 0x57
    } else if 0x41 <= c as u32 <= 0x46 {
        c as u32 - 0x37
    } else {
        -1
    }
}

/// The low `k` nibbles of `u` in hex, most significant first.
pub open spec fn hex_chars(u: int, k: nat) -> Seq<char>
    recommends
        0 <= u,
    decreases k,
{
    if k == 0 {
        Seq::empty()
    } else {
        hex_chars(u / 16, (k - 1) as nat) + seq![nib_char(u % 16)]
    }
}

/// Value of a hex digit string.
pub open spec fn hex_value(s: Seq<char>) -> int
    decreases s.len(),
{
    if s.len() == 0 {
        0
    } else {
        hex_value(s.drop_last()) * 16 + nib_val(s.last())
    }
}

pub open spec fn all_hex(s: Seq<char>) -> bool {
    forall|k: int| 0 <= k < s.len() ==> nib_val(#[trigger] s[k]) >= 0
}

/// The hyphenated form: 8-4-4-4-12 hex digits.
pub open spec fn uuid_chars(u: int) -> Seq<char> {
    let h = hex_chars(u, 32);
    h.subrange(0, 8) + seq!['-'] + h.subrange(8, 12) + seq!['-'] + h.subrange(12, 16) + seq![
        '-',
    ] + h.subrange(16, 20) + seq!['-'] + h.subrange(20, 32)
}

/// Parses the hyphenated form; `None` unless the shape and digits are right.
pub open spec fn parse_uuid_chars(s: Seq<char>) -> Option<u128> {
    if s.len() == 36 && s[8] == '-' && s[13] == '-' && s[18] == '-' && s[23] == '-' {
        let h = s.subrange(0, 8) + s.subrange(9, 13) + s.subrange(14, 18) + s.subrange(19, 23)
            + s.subrange(24, 36);
        if all_hex(h) {
            Some(hex_value(h) as u128)
        } else {
            None
        }
    } else {
        None
    }
}

proof fn lemma_p16_pos(k: nat)
    ensures
        p16(k) >= 1,
    decreases k,
{
    if k > 0 {
        lemma_p16_pos((k - 1) as nat);
    }
}

proof fn lemma_hex_chars_len(u: int, k: nat)
    ensures
        hex_chars(u, k).len() == k,
    decreases k,
{
    if k > 0 {
        lemma_hex_chars_len(u / 16, (k - 1) as nat);
    }
}

proof fn lemma_hex_chars_hex(u: int, k: nat)
    requires
        0 <= u,
    ensures
        all_hex(hex_chars(u, k)),
        forall|j: int| 0 <= j < k ==> 0x2d <= ((#[trigger] hex_chars(u, k)[j]) as u32) <= 0x66,
    decreases k,
{
    lemma_hex_chars_len(u, k);
    if k > 0 {
        lemma_hex_chars_hex(u / 16, (k - 1) as nat);
        lemma_hex_chars_len(u / 16, (k - 1) as nat);
        let h = hex_chars(u, k);
        assert forall|j: int| 0 <= j < k implies nib_val(#[trigger] h[j]) >= 0 && 0x2d <= h[j]
            as u32 <= 0x66 by {
            if j < k - 1 {
                assert(h[j] == hex_chars(u / 16, (k - 1) as nat)[j]);
            } else {
                assert(h[j] == nib_char(u % 16));
            }
        }
    }
}

/// Evaluating the hex digits of `u` gives `u` back, modulo the digit count.
proof fn lemma_hex_value_of_chars(u: int, k: nat)
    requires
        0 <= u,
    ensures
        hex_value(hex_chars(u, k)) == u % p16(k),
    decreases k,
{
    lemma_p16_pos(k);
    if k == 0 {
        assert(u % 1 == 0) by {
            lemma_small_mod(0, 1);
            lemma_mod_breakdown(u, 1, 1);
        }
    } else {
        let km = (k - 1) as nat;
        lemma_hex_value_of_chars(u / 16, km);
        lemma_p16_pos(km);
        let h = hex_chars(u, k);
        assert(h.drop_last() =~= hex_chars(u / 16, km));
        assert(h.last() == nib_char(u % 16));
        assert(0 <= u % 16 < 16);
        assert(nib_val(nib_char(u % 16)) == u % 16);
        lemma_mod_breakdown(u, 16, p16(km));
        assert(p16(k) == 16 * p16(km));
    }
}

proof fn lemma_hex_value_bound(s: Seq<char>)
    ensures
        hex_value(s) < p16(s.len()),
        all_hex(s) ==> hex_value(s) >= 0,
    decreases s.len(),
{
    if s.len() == 0 {
    } else {
        lemma_hex_value_bound(s.drop_last());
        lemma_p16_pos((s.len() - 1) as nat);
        assert(nib_val(s.last()) <= 15);
        if all_hex(s) {
            assert(all_hex(s.drop_last())) by {
                assert(forall|k: int|
                    0 <= k < s.len() - 1 ==> s.drop_last()[k] == #[trigger] s[k]);
            }
        }
    }
}

/// Parsing the hyphenated form of `u` gives `u` back.
pub proof fn lemma_uuid_round_trip(u: u128)
    ensures
        parse_uuid_chars(uuid_chars(u as int)) == Some(u),
{
    let h = hex_chars(u as int, 32);
    lemma_hex_chars_len(u as int, 32);
    lemma_hex_chars_hex(u as int, 32);
    let s = uuid_chars(u as int);
    assert(s.len() == 36);
    assert(s[8] == '-' && s[13] == '-' && s[18] == '-' && s[23] == '-');
    let h2 = s.subrange(0, 8) + s.subrange(9, 13) + s.subrange(14, 18) + s.subrange(19, 23)
        + s.subrange(24, 36);
    assert(h2 =~= h);
    lemma_hex_value_of_chars(u as int, 32);
    assert(p16(32) == 0x1_0000_0000_0000_0000_0000_0000_0000_0000) by {
        reveal_with_fuel(p16, 33);
    }
    assert((u as int) % p16(32) == u as int) by {
        lemma_small_mod(u as nat, p16(32) as nat);
    }
}

// ------------------------------------------------------------------
// Executable formatting and parsing.
// ------------------------------------------------------------------
/// The bytes of an ASCII character sequence, one byte per character.
pub open spec fn ascii_bytes(cs: Seq<char>) -> Seq<u8> {
    cs.map_values(|c: char| (c as u32) as u8)
}

/// For characters below 0x80, UTF-8 is the identity embedding.
proof fn lemma_encode_ascii(cs: Seq<char>)
    requires
        forall|k: int| 0 <= k < cs.len() ==> ((#[trigger] cs[k]) as u32) < 0x80,
    ensures
        encode_utf8(cs) == ascii_bytes(cs),
    decreases cs.len(),
{
    if cs.len() == 0 {
        assert(encode_utf8(cs) =~= ascii_bytes(cs));
    } else {
        let c = cs[0];
        let v = c as u32;
        assert(v < 0x80 ==> (v & 0x7F) as u8 == v as u8) by (bit_vector);
        assert(encode_scalar(v) =~= seq![(v as u32) as u8]);
        lemma_encode_ascii(cs.drop_first());
        assert(encode_utf8(cs) =~= ascii_bytes(cs));
    }
}

/// Appends the ASCII bytes of the low `k` hex digits of `u`.
fn push_hex(u: u128, k: usize, out: &mut Vec<u8>)
    ensures
        final(out)@ == old(out)@ + ascii_bytes(hex_chars(u as int, k as nat)),
    decreases k,
{
    if k == 0 {
        proof {
            assert(out@ =~= old(out)@ + ascii_bytes(hex_chars(u as int, 0)));
        }
    } else {
        push_hex(u / 16, k - 1, out);
        let nib: u8 = (u % 16) as u8;
        let b: u8 = if nib < 10 {
            0x30 + nib
        } else {
            0x57 + nib
        };
        out.push(b);
        proof {
            assert((u / 16) as int == (u as int) / 16);
            assert(nib as int == (u as int) % 16);
            assert(b == (nib_char((u as int) % 16) as u32) as u8);
            assert(out@ =~= old(out)@ + ascii_bytes(hex_chars(u as int, k as nat)));
        }
    }
}

impl Uuid {
    /// The hyphenated lowercase hex form.
    pub fn to_hyphenated(&self) -> (r: String)
        ensures
            r@ == uuid_chars(self.value as int),
    {
        let u = self.value;
        let ghost cs = uuid_chars(u as int);
        proof {
            lemma_hex_chars_len(u as int, 32);
            lemma_hex_chars_hex(u as int, 32);
        }
        let mut bytes: Vec<u8> = Vec::new();
        proof {
            assert(p16(24) == 0x1_0000_0000_0000_0000_0000_0000) by {
                reveal_with_fuel(p16, 25);
            }
            assert(p16(20) == 0x1_0000_0000_0000_0000_0000) by {
                reveal_with_fuel(p16, 21);
            }
            assert(p16(16) == 0x1_0000_0000_0000_0000) by {
                reveal_with_fuel(p16, 17);
            }
            assert(p16(12) == 0x1_0000_0000_0000) by {
                reveal_with_fuel(p16, 13);
            }
        }
        push_hex(u / 0x1_0000_0000_0000_0000_0000_0000u128, 8, &mut bytes);
        bytes.push(0x2d);
        push_hex(u / 0x1_0000_0000_0000_0000_0000u128, 4, &mut bytes);
        bytes.push(0x2d);
        push_hex(u / 0x1_0000_0000_0000_0000u128, 4, &mut bytes);
        bytes.push(0x2d);
        push_hex(u / 0x1_0000_0000_0000u128, 4, &mut bytes);
        bytes.push(0x2d);
        push_hex(u, 12, &mut bytes);
        proof {
            lemma_uuid_pieces(u as int);
            assert(forall|k: int| 0 <= k < cs.len() ==> ((#[trigger] cs[k]) as u32) < 0x80);
            lemma_encode_ascii(cs);
            assert(bytes@ =~= ascii_bytes(cs));
            assert(valid_utf8(bytes@)) by {
                broadcast use vstd::utf8::encode_utf8_valid_utf8;

            }
            broadcast use vstd::utf8::encode_utf8_decode_utf8;

        }
        match crate::json::string_from_utf8(bytes) {
            Some(s) => s,
            None => {
                proof {
                    assert(false);
                }
                String::new()
            },
        }
    }

    /// Parses the hyphenated hex form, either case.
    pub fn parse(s: &str) -> (r: Option<Uuid>)
        ensures
            (match r {
                Some(id) => parse_uuid_chars(s@) == Some(id.value),
                None => parse_uuid_chars(s@) is None,
            }),
    {
        if s.unicode_len() != 36 {
            return None;
        }
        if s.get_char(8) != '-' || s.get_char(13) != '-' || s.get_char(18) != '-' || s.get_char(
            23,
        ) != '-' {
            return None;
        }
        let ghost h = s@.subrange(0, 8) + s@.subrange(9, 13) + s@.subrange(14, 18) + s@.subrange(
            19,
            23,
        ) + s@.subrange(24, 36);
        let mut acc: u128 = 0;
        let mut j: usize = 0;
        while j < 32
            invariant
            0 <= j <= 32,
            s@.len() == 36,
            h.len() == 32,
            h == s@.subrange(0, 8) + s@.subrange(9, 13) + s@.subrange(14, 18) + s@.subrange(
                19,
                23,
            ) + s@.subrange(24, 36),
            acc as int == hex_value(h.subrange(0, j as int)),
            forall|q: int| 0 <= q < j ==> nib_val(#[trigger] h[q]) >= 0,
            decreases 32 - j,
        {
            let i: usize = if j < 8 {
                j
            } else if j < 12 {
                j + 1
            } else if j < 16 {
                j + 2
            } else if j < 20 {
                j + 3
            } else {
                j + 4
            };
            let c = s.get_char(i);
            proof {
                assert(h[j as int] == s@[i as int]);
            }
            let x = c as u32;
            let v: u32 = if 0x30 <= x && x <= 0x39 {
                x - 0x30
            } else if 0x61 <= x && x <= 0x66 {
                x - 0x57
            } else if 0x41 <= x && x <= 0x46 {
                x - 0x37
            } else {
                return None;
            };
            proof {
                assert(v as int == nib_val(c));
                lemma_hex_value_bound(h.subrange(0, j as int));
                lemma_p16_mono((j as nat), 31);
                assert(p16(31) == 0x1000_0000_0000_0000_0000_0000_0000_0000) by {
                    reveal_with_fuel(p16, 32);
                }
                assert(h.subrange(0, j + 1 as int).drop_last() =~= h.subrange(0, j as int));
            }
            acc = acc * 16 + (v as u128);
            j = j + 1;
        }
        proof {
            assert(h.subrange(0, 32) =~= h);
        }
        Some(Uuid { value: acc })
    }

    /// A fresh random identifier.
    pub fn new_v4() -> (r: Uuid)
        ensures
            (r.value >> 76) & 0xf == 4,
            (r.value >> 62) & 0x3 == 2,
    {
        Uuid { value: fresh_v4_value() }
    }
}

proof fn lemma_p16_mono(a: nat, b: nat)
    requires
        a <= b,
    ensures
        0 < p16(a) <= p16(b),
    decreases b,
{
    lemma_p16_pos(a);
    if a < b {
        lemma_p16_mono(a, (b - 1) as nat);
    }
}

/// A prefix of a hex rendering is the rendering of the shifted value.
proof fn lemma_hex_prefix(u: int, n: nat, m: nat)
    requires
        0 <= u,
        m <= n,
    ensures
        hex_chars(u, n).subrange(0, m as int) == hex_chars(u / p16((n - m) as nat), m),
    decreases n,
{
    lemma_hex_chars_len(u, n);
    if m == n {
        assert(hex_chars(u, n).subrange(0, m as int) =~= hex_chars(u, n));
        assert(p16(0) == 1);
        lemma_div_by_one(u);
    } else {
        let nm = (n - 1) as nat;
        lemma_hex_chars_len(u / 16, nm);
        lemma_hex_prefix(u / 16, nm, m);
        assert(hex_chars(u, n).subrange(0, m as int) =~= hex_chars(u / 16, nm).subrange(
            0,
            m as int,
        ));
        let d = p16((nm - m) as nat);
        lemma_p16_pos((nm - m) as nat);
        lemma_div_denominator(u, 16, d);
        assert(p16((n - m) as nat) == 16 * d);
    }
}

proof fn lemma_div_by_one(u: int)
    requires
        0 <= u,
    ensures
        u / 1 == u,
{
}

/// A suffix of a hex rendering is the rendering of the same value, shorter.
proof fn lemma_hex_suffix(u: int, n: nat, k: nat)
    requires
        0 <= u,
        k <= n,
    ensures
        hex_chars(u, n).subrange((n - k) as int, n as int) == hex_chars(u, k),
    decreases n,
{
    lemma_hex_chars_len(u, n);
    if k == n {
        assert(hex_chars(u, n).subrange(0, n as int) =~= hex_chars(u, n));
    } else if k == 0 {
        assert(hex_chars(u, n).subrange(n as int, n as int) =~= hex_chars(u, 0));
    } else {
        let nm = (n - 1) as nat;
        lemma_hex_chars_len(u / 16, nm);
        lemma_hex_suffix(u / 16, nm, (k - 1) as nat);
        lemma_hex_chars_len(u / 16, (k - 1) as nat);
        assert(hex_chars(u, n).subrange((n - k) as int, n as int) =~= hex_chars(
            u / 16,
            (k - 1) as nat,
        ) + seq![nib_char(u % 16)]);
    }
}

/// The five hyphen-separated groups of the hyphenated form are the hex
/// renderings of the five corresponding divisions of the value.
proof fn lemma_uuid_pieces(u: int)
    requires
        0 <= u,
    ensures
        hex_chars(u, 32).subrange(0, 8) == hex_chars(u / p16(24), 8),
        hex_chars(u, 32).subrange(8, 12) == hex_chars(u / p16(20), 4),
        hex_chars(u, 32).subrange(12, 16) == hex_chars(u / p16(16), 4),
        hex_chars(u, 32).subrange(16, 20) == hex_chars(u / p16(12), 4),
        hex_chars(u, 32).subrange(20, 32) == hex_chars(u, 12),
{
    let h = hex_chars(u, 32);
    lemma_hex_chars_len(u, 32);
    proof_div_nonneg(u, 20);
    proof_div_nonneg(u, 16);
    proof_div_nonneg(u, 12);
    lemma_hex_prefix(u, 32, 8);
    lemma_hex_suffix(u, 32, 12);
    lemma_hex_prefix(u, 32, 12);
    lemma_hex_chars_len(u / p16(20), 12);
    lemma_hex_suffix(u / p16(20), 12, 4);
    assert(h.subrange(8, 12) =~= h.subrange(0, 12).subrange(8, 12));
    lemma_hex_prefix(u, 32, 16);
    lemma_hex_chars_len(u / p16(16), 16);
    lemma_hex_suffix(u / p16(16), 16, 4);
    assert(h.subrange(12, 16) =~= h.subrange(0, 16).subrange(12, 16));
    lemma_hex_prefix(u, 32, 20);
    lemma_hex_chars_len(u / p16(12), 20);
    lemma_hex_suffix(u / p16(12), 20, 4);
    assert(h.subrange(16, 20) =~= h.subrange(0, 20).subrange(16, 20));
}

proof fn proof_div_nonneg(u: int, k: nat)
    requires
        0 <= u,
    ensures
        0 <= u / p16(k),
{
    lemma_p16_pos(k);
    vstd::arithmetic::div_mod::lemma_div_pos_is_pos(u, p16(k));
}

/// Relies on uuid::Uuid::new_v4: a random value whose version nibble is 4
/// and whose variant bits are the RFC 4122 pattern.
#[verifier::external_body]
fn fresh_v4_value() -> (r: u128)
    ensures
        (r >> 76) & 0xf == 4,
        (r >> 62) & 0x3 == 2,
{
    uuid::Uuid::new_v4().as_u128()
}

} // verus!

//! The demo page's result envelopes: JSON text written by hand (string
//! escaping, base64 for binaries) and the base64 decoder for binaries
//! handed back in.
use vstd::prelude::*;
use crate::text::{push_char, push_str, push_u64, dec_digits};
use vstd::string::StringSliceAdditionalSpecFns;

verus! {

broadcast use vstd::string::group_string_axioms;

/// A lowercase hex digit.
pub open spec fn hex_digit(d: nat) -> char {
    if d < 10 {
        (48 + d) as char
    } else {
        (87 + d) as char
    }
}

/// The JSON escape of one character.
pub open spec fn escape_char(c: char) -> Seq<char> {
    if c == '"' {
        seq!['\\', '"']
    } else if c == '\\' {
        seq!['\\', '\\']
    } else if c == '\n' {
        seq!['\\', 'n']
    } else if c == '\r' {
        seq!['\\', 'r']
    } else if c == '\t' {
        seq!['\\', 't']
    } else if (c as u32) < 0x20 {
        seq!['\\', 'u', '0', '0', hex_digit((c as nat) / 16), hex_digit((c as nat) % 16)]
    } else {
        seq![c]
    }
}

/// The JSON escape of a text, character by character.
pub open spec fn escape_text(s: Seq<char>) -> Seq<char>
    decreases s.len(),
{
    if s.len() == 0 {
        Seq::empty()
    } else {
        escape_text(s.drop_last()) + escape_char(s.last())
    }
}

/// A JSON string literal for the text.
pub open spec fn json_string(s: Seq<char>) -> Seq<char> {
    seq!['"'] + escape_text(s) + seq!['"']
}

fn push_escaped(out: &mut String, c: char)
    ensures
        final(out)@ == old(out)@ + escape_char(c),
{
    if c == '"' {
        push_char(out, '\\');
        push_char(out, '"');
    } else if c == '\\' {
        push_char(out, '\\');
        push_char(out, '\\');
    } else if c == '\n' {
        push_char(out, '\\');
        push_char(out, 'n');
    } else if c == '\r' {
        push_char(out, '\\');
        push_char(out, 'r');
    } else if c == '\t' {
        push_char(out, '\\');
        push_char(out, 't');
    } else if (c as u32) < 0x20 {
        let v = c as u32;
        let hi = (v / 16) as u8;
        let lo = (v % 16) as u8;
        push_char(out, '\\');
        push_char(out, 'u');
        push_char(out, '0');
        push_char(out, '0');
        push_char(out, (48u8 + hi) as char);
        push_char(out, if lo < 10 { (48u8 + lo) as char } else { (87u8 + lo) as char });
    } else {
        push_char(out, c);
    }
    assert(out@ =~= old(out)@ + escape_char(c));
}

/// Appends `s` as a JSON string literal: quoted, with `"`, `\`, and the
/// control characters escaped.
pub fn json_escape(s: &str, out: &mut String)
    ensures
        final(out)@ == old(out)@ + json_string(s@),
{
    push_char(out, '"');
    let ghost start = out@;
    for c in it: s.chars()
        invariant
            it.seq() == s@,
            out@ == start + escape_text(s@.subrange(0, it.index() as int)),
    {
        proof {
            assert(s@.subrange(0, it.index() + 1).drop_last() =~= s@.subrange(0, it.index() as int));
        }
        push_escaped(out, c);
    }
    proof {
        assert(s@.subrange(0, s@.len() as int) =~= s@);
    }
    push_char(out, '"');
    assert(out@ =~= old(out)@ + json_string(s@));
}


/// The base64 digit for a sextet `v < 64`.
pub open spec fn b64_digit(v: nat) -> char {
    if v < 26 {
        (65 + v) as char
    } else if v < 52 {
        (71 + v) as char
    } else if v < 62 {
        (v - 4) as char
    } else if v == 62 {
        '+'
    } else {
        '/'
    }
}

/// The 24-bit word of the three-byte group starting at `i` (missing
/// bytes read as zero).
pub open spec fn group_word(b: Seq<u8>, i: int) -> nat {
    let b0 = b[i] as nat;
    let b1 = if i + 1 < b.len() { b[i + 1] as nat } else { 0 };
    let b2 = if i + 2 < b.len() { b[i + 2] as nat } else { 0 };
    b0 * 65536 + b1 * 256 + b2
}

/// Sextet `p` (0 = most significant) of a 24-bit word.
pub open spec fn sextet(w: nat, p: int) -> nat {
    if p == 0 {
        (w / 262144) % 64
    } else if p == 1 {
        (w / 4096) % 64
    } else if p == 2 {
        (w / 64) % 64
    } else {
        w % 64
    }
}

/// Character `j` of the base64 text of `b`: each three-byte group gives
/// four digits, a short last group padded with `=`.
pub open spec fn b64_char_at(b: Seq<u8>, j: int) -> char {
    let i = (j / 4) * 3;
    let p = j % 4;
    if p == 2 && i + 1 >= b.len() {
        '='
    } else if p == 3 && i + 2 >= b.len() {
        '='
    } else {
        b64_digit(sextet(group_word(b, i), p))
    }
}

/// The standard base64 text (with `=` padding) of `b`.
pub open spec fn b64_text(b: Seq<u8>) -> Seq<char> {
    Seq::new((4 * ((b.len() + 2) / 3)) as nat, |j: int| b64_char_at(b, j))
}

fn b64_digit_char(v: u32) -> (c: char)
    requires
        v < 64,
    ensures
        c == b64_digit(v as nat),
{
    if v < 26 {
        (65u8 + v as u8) as char
    } else if v < 52 {
        (71u8 + v as u8) as char
    } else if v < 62 {
        (v as u8 - 4u8) as char
    } else if v == 62 {
        '+'
    } else {
        '/'
    }
}

/// Base64 (standard alphabet, `=` padding) of `bytes`.
pub fn base64(bytes: &[u8]) -> (out: String)
    ensures
        out@ == b64_text(bytes@),
{
    let mut out = String::new();
    let n = bytes.len();
    let mut i: usize = 0;
    while i < n
        invariant
            n == bytes@.len(),
            i <= n,
            i % 3 == 0 || i == n,
            out@.len() == 4 * ((i + 2) / 3),
            forall|j: int| 0 <= j < out@.len() ==> out@[j] == b64_char_at(bytes@, j),
        decreases n - i,
    {
        let b0 = bytes[i] as u32;
        let b1 = if i + 1 < n { bytes[i + 1] as u32 } else { 0 };
        let b2 = if i + 2 < n { bytes[i + 2] as u32 } else { 0 };
        let w = (b0 << 16u32) | (b1 << 8u32) | b2;
        assert(w == b0 * 65536 + b1 * 256 + b2 && (w >> 18u32) & 63 == (w / 262144) % 64 && (w
            >> 12u32) & 63 == (w / 4096) % 64 && (w >> 6u32) & 63 == (w / 64) % 64 && w & 63 == w
            % 64) by (bit_vector)
            requires
                b0 < 256 && b1 < 256 && b2 < 256,
                w == (b0 << 16u32) | (b1 << 8u32) | b2,
        ;
        let ghost before = out@;
        let ghost k = out@.len() as int;
        push_char(&mut out, b64_digit_char((w >> 18u32) & 63));
        push_char(&mut out, b64_digit_char((w >> 12u32) & 63));
        push_char(&mut out, if i + 1 < n { b64_digit_char((w >> 6u32) & 63) } else { '=' });
        push_char(&mut out, if i + 2 < n { b64_digit_char(w & 63) } else { '=' });
        proof {
            assert(group_word(bytes@, i as int) == w as nat);
            assert forall|j: int| 0 <= j < out@.len() implies out@[j] == b64_char_at(bytes@, j) by {
                if j >= k {
                    assert((j / 4) * 3 == i);
                }
            }
        }
        i = if n - i > 3 { i + 3 } else { n };
    }
    proof {
        assert(out@ =~= b64_text(bytes@));
    }
    out
}


/// The sextet a base64 digit stands for.
pub open spec fn b64_value(c: u8) -> Option<u32> {
    if 65 <= c <= 90 {
        Some((c - 65) as u32)
    } else if 97 <= c <= 122 {
        Some((c - 71) as u32)
    } else if 48 <= c <= 57 {
        Some((c + 4) as u32)
    } else if c == 43 {
        Some(62u32)
    } else if c == 47 {
        Some(63u32)
    } else {
        None
    }
}

/// The decoder's state: the octets so far, the bit buffer, and how many
/// buffered bits are not yet emitted.
pub type DecodeState = (Seq<u8>, u32, u32);

/// One digit into the decoder: six bits in; a whole octet out whenever
/// eight are pending.
pub open spec fn dec_step(st: DecodeState, v: u32) -> DecodeState {
    let buf = (st.1 << 6u32) | v;
    let bits = st.2 + 6;
    if bits >= 8 {
        (st.0.push((buf >> ((bits - 8) as u32)) as u8), buf, (bits - 8) as u32)
    } else {
        (st.0, buf, bits as u32)
    }
}

/// Decoding the digits `s` (no padding among them): `None` at the first
/// character outside the alphabet.
pub open spec fn dec_run(s: Seq<u8>) -> Option<DecodeState>
    decreases s.len(),
{
    if s.len() == 0 {
        Some((Seq::empty(), 0u32, 0u32))
    } else {
        match dec_run(s.drop_last()) {
            None => None,
            Some(st) => match b64_value(s.last()) {
                None => None,
                Some(v) => Some(dec_step(st, v)),
            },
        }
    }
}

/// The position of the first `=` (the length when there is none).
pub open spec fn pad_index(s: Seq<u8>) -> int
    decreases s.len(),
{
    if s.len() == 0 {
        0
    } else if s[0] == 61 {
        0
    } else {
        1 + pad_index(s.skip(1))
    }
}

/// The octets base64 text decodes to: the digits before the first `=`,
/// or `None` when one of them is outside the alphabet.
pub open spec fn b64_decoded(s: Seq<u8>) -> Option<Seq<u8>> {
    match dec_run(s.take(pad_index(s))) {
        Some(st) => Some(st.0),
        None => None,
    }
}

proof fn lemma_pad_index(s: Seq<u8>, i: int)
    requires
        0 <= i <= s.len(),
        forall|j: int| 0 <= j < i ==> s[j] != 61,
        i == s.len() || s[i] == 61,
    ensures
        pad_index(s) == i,
    decreases i,
{
    if i > 0 {
        let t = s.skip(1);
        assert forall|j: int| 0 <= j < i - 1 implies t[j] != 61 by {
            assert(t[j] == s[j + 1]);
        }
        lemma_pad_index(t, i - 1);
    }
}

proof fn lemma_pad_at_least(s: Seq<u8>, i: int)
    requires
        0 <= i <= s.len(),
        forall|j: int| 0 <= j < i ==> s[j] != 61,
    ensures
        i <= pad_index(s) <= s.len(),
    decreases s.len(),
{
    if s.len() > 0 && s[0] != 61 {
        let t = s.skip(1);
        if i > 0 {
            assert forall|j: int| 0 <= j < i - 1 implies t[j] != 61 by {
                assert(t[j] == s[j + 1]);
            }
            lemma_pad_at_least(t, i - 1);
        } else {
            lemma_pad_at_least(t, 0);
        }
    }
}

proof fn lemma_dec_none_extends(s: Seq<u8>, k: int, m: int)
    requires
        0 <= k <= m <= s.len(),
        dec_run(s.take(k)) is None,
    ensures
        dec_run(s.take(m)) is None,
    decreases m - k,
{
    if m > k {
        lemma_dec_none_extends(s, k, m - 1);
        assert(s.take(m).drop_last() =~= s.take(m - 1));
    }
}

fn b64_value_of(c: u8) -> (r: Option<u32>)
    ensures
        r == b64_value(c),
{
    if 65 <= c && c <= 90 {
        Some((c - 65) as u32)
    } else if 97 <= c && c <= 122 {
        Some((c - 71) as u32)
    } else if 48 <= c && c <= 57 {
        Some((c + 4) as u32)
    } else if c == 43 {
        Some(62)
    } else if c == 47 {
        Some(63)
    } else {
        None
    }
}

/// Decodes base64 text: digits up to the first `=` (whatever follows is
/// ignored), `None` at any other character outside the alphabet.
pub fn base64_decode(s: &str) -> (r: Option<Vec<u8>>)
    ensures
        match r {
            Some(v) => b64_decoded(s.spec_bytes()) == Some(v@),
            None => b64_decoded(s.spec_bytes()) is None,
        },
{
    let bytes = s.as_bytes();
    let ghost sb = bytes@;
    let mut out: Vec<u8> = Vec::new();
    let mut buf: u32 = 0;
    let mut bits: u32 = 0;
    let mut i: usize = 0;
    while i < bytes.len() && bytes[i] != 61
        invariant
            sb == bytes@,
            sb == s.spec_bytes(),
            i <= sb.len(),
            forall|j: int| 0 <= j < i ==> sb[j] != 61,
            dec_run(sb.take(i as int)) == Some((out@, buf, bits)),
            bits < 8,
        decreases sb.len() - i,
    {
        let c = bytes[i];
        let v = match b64_value_of(c) {
            Some(v) => v,
            None => {
                proof {
                    assert(sb.take(i + 1).drop_last() =~= sb.take(i as int));
                    assert(dec_run(sb.take(i + 1)) is None);
                    lemma_pad_at_least(sb, i as int + 1);
                    lemma_dec_none_extends(sb, i as int + 1, pad_index(sb));
                    assert(b64_decoded(sb) is None);
                }
                return None;
            },
        };
        proof {
            assert(sb.take(i + 1).drop_last() =~= sb.take(i as int));
        }
        buf = (buf << 6u32) | v;
        bits = bits + 6;
        if bits >= 8 {
            bits = bits - 8;
            out.push(#[verifier::truncate] ((buf >> bits) as u8));
        }
        i += 1;
    }
    proof {
        lemma_pad_index(sb, i as int);
    }
    Some(out)
}


proof fn lemma_digit(v: nat)
    requires
        v < 64,
    ensures
        b64_value(b64_digit(v) as u8) == Some(v as u32),
        b64_digit(v) != '=',
        (b64_digit(v) as nat) < 128,
{
}

proof fn lemma_snoc(s: Seq<u8>, m: int)
    requires
        0 <= m < s.len(),
    ensures
        dec_run(s.take(m + 1)) == match dec_run(s.take(m)) {
            None => None,
            Some(st) => match b64_value(s[m]) {
                None => None,
                Some(v) => Some(dec_step(st, v)),
            },
        },
{
    assert(s.take(m + 1).drop_last() =~= s.take(m));
}

proof fn lemma_quad_bits(buf: u32, w: u32)
    requires
        w < 0x100_0000,
    ensures
        ({
            let v0 = (w >> 18u32) & 63;
            let v1 = (w >> 12u32) & 63;
            let v2 = (w >> 6u32) & 63;
            let v3 = w & 63;
            let b1 = (buf << 6u32) | v0;
            let b2 = (b1 << 6u32) | v1;
            let b3 = (b2 << 6u32) | v2;
            let b4 = (b3 << 6u32) | v3;
            &&& (b2 >> 4u32) as u8 == (w >> 16u32) as u8
            &&& (b3 >> 2u32) as u8 == (w >> 8u32) as u8
            &&& (b4 >> 0u32) as u8 == w as u8
        }),
{
    assert({
        let v0 = (w >> 18u32) & 63;
        let v1 = (w >> 12u32) & 63;
        let v2 = (w >> 6u32) & 63;
        let v3 = w & 63;
        let b1 = (buf << 6u32) | v0;
        let b2 = (b1 << 6u32) | v1;
        let b3 = (b2 << 6u32) | v2;
        let b4 = (b3 << 6u32) | v3;
        &&& (b2 >> 4u32) as u8 == (w >> 16u32) as u8
        &&& (b3 >> 2u32) as u8 == (w >> 8u32) as u8
        &&& (b4 >> 0u32) as u8 == w as u8
    }) by (bit_vector)
        requires
            w < 0x100_0000,
    ;
}

proof fn lemma_word_bits(w: u32)
    requires
        w < 0x100_0000,
    ensures
        (w >> 18u32) & 63 == (w / 262144) % 64,
        (w >> 12u32) & 63 == (w / 4096) % 64,
        (w >> 6u32) & 63 == (w / 64) % 64,
        w & 63 == w % 64,
        (w >> 16u32) as u8 == w / 65536,
        (w >> 8u32) as u8 == (w / 256) % 256,
        w as u8 == w % 256,
{
    assert((w >> 18u32) & 63 == (w / 262144) % 64 && (w >> 12u32) & 63 == (w / 4096) % 64 && (w
        >> 6u32) & 63 == (w / 64) % 64 && w & 63 == w % 64 && (w >> 16u32) as u8 == w / 65536 && (w
        >> 8u32) as u8 == (w / 256) % 256 && w as u8 == w % 256) by (bit_vector)
        requires
            w < 0x100_0000,
    ;
}


proof fn lemma_group_parts(b0: u8, b1: u8, b2: u8)
    ensures
        ({
            let w = b0 as nat * 65536 + b1 as nat * 256 + b2 as nat;
            &&& w < 0x100_0000
            &&& w / 65536 == b0
            &&& (w / 256) % 256 == b1
            &&& w % 256 == b2
        }),
{
    let w = b0 as nat * 65536 + b1 as nat * 256 + b2 as nat;
    assert(w / 65536 == b0) by (nonlinear_arith)
        requires
            w == b0 as nat * 65536 + b1 as nat * 256 + b2 as nat,
            b1 < 256,
            b2 < 256,
    ;
    assert(w / 256 == b0 as nat * 256 + b1 as nat) by (nonlinear_arith)
        requires
            w == b0 as nat * 65536 + b1 as nat * 256 + b2 as nat,
            b2 < 256,
    ;
    assert(w % 256 == b2) by (nonlinear_arith)
        requires
            w == b0 as nat * 65536 + b1 as nat * 256 + b2 as nat,
            b2 < 256,
    ;
    assert((b0 as nat * 256 + b1 as nat) % 256 == b1) by (nonlinear_arith)
        requires
            b1 < 256,
    ;
}

/// The base64 text of `b`, as the octets it is sent as.
pub open spec fn b64_octets(b: Seq<u8>) -> Seq<u8> {
    vstd::utf8::encode_utf8(b64_text(b))
}

proof fn lemma_text_octets(b: Seq<u8>)
    ensures
        b64_octets(b).len() == b64_text(b).len(),
        forall|j: int|
            0 <= j < b64_text(b).len() ==> #[trigger] b64_octets(b)[j] == b64_char_at(b, j) as u8,
{
    let e = b64_text(b);
    assert forall|j: int| 0 <= j < e.len() implies '\0' <= #[trigger] e[j] <= '\u{7f}' by {
        let i = (j / 4) * 3;
        let p = j % 4;
        if !(p == 2 && i + 1 >= b.len()) && !(p == 3 && i + 2 >= b.len()) {
            lemma_digit(sextet(group_word(b, i), p));
        }
    }
    vstd::utf8::is_ascii_chars_encode_utf8(e);
}

proof fn lemma_digit_at(b: Seq<u8>, j: int)
    requires
        0 <= j < b64_text(b).len(),
        !((j % 4 == 2 && (j / 4) * 3 + 1 >= b.len()) || (j % 4 == 3 && (j / 4) * 3 + 2 >= b.len())),
    ensures
        b64_value(b64_octets(b)[j]) == Some(sextet(group_word(b, (j / 4) * 3), j % 4) as u32),
        b64_octets(b)[j] != 61,
{
    lemma_text_octets(b);
    lemma_digit(sextet(group_word(b, (j / 4) * 3), j % 4));
}

proof fn lemma_groups(b: Seq<u8>, k: int) -> (buf: u32)
    requires
        0 <= k <= b.len() / 3,
    ensures
        dec_run(b64_octets(b).take(4 * k)) == Some((b.take(3 * k), buf, 0u32)),
    decreases k,
{
    let s = b64_octets(b);
    lemma_text_octets(b);
    if k == 0 {
        assert(s.take(0) =~= Seq::<u8>::empty());
        assert(b.take(0) =~= Seq::<u8>::empty());
        0u32
    } else {
        let k0 = k - 1;
        let buf0 = lemma_groups(b, k0);
        let i = 3 * k0;
        let m = 4 * k0;
        let b0 = b[i];
        let b1 = b[i + 1];
        let b2 = b[i + 2];
        lemma_group_parts(b0, b1, b2);
        let wn = group_word(b, i);
        let w = wn as u32;
        lemma_word_bits(w);
        lemma_quad_bits(buf0, w);
        assert((m / 4) * 3 == i && ((m + 1) / 4) * 3 == i && ((m + 2) / 4) * 3 == i && ((m + 3) / 4)
            * 3 == i);
        lemma_digit_at(b, m);
        lemma_digit_at(b, m + 1);
        lemma_digit_at(b, m + 2);
        lemma_digit_at(b, m + 3);
        lemma_snoc(s, m);
        lemma_snoc(s, m + 1);
        lemma_snoc(s, m + 2);
        lemma_snoc(s, m + 3);
        let v0 = (w >> 18u32) & 63;
        let v1 = (w >> 12u32) & 63;
        let v2 = (w >> 6u32) & 63;
        let v3 = w & 63;
        let c1 = (buf0 << 6u32) | v0;
        let c2 = (c1 << 6u32) | v1;
        let c3 = (c2 << 6u32) | v2;
        let c4 = (c3 << 6u32) | v3;
        let o = b.take(i);
        assert(dec_run(s.take(m + 1)) == Some((o, c1, 6u32)));
        assert(dec_run(s.take(m + 2)) == Some((o.push(b0), c2, 4u32)));
        assert(dec_run(s.take(m + 3)) == Some((o.push(b0).push(b1), c3, 2u32)));
        assert(dec_run(s.take(m + 4)) == Some((o.push(b0).push(b1).push(b2), c4, 0u32)));
        assert(o.push(b0).push(b1).push(b2) =~= b.take(3 * k));
        c4
    }
}


proof fn lemma_pair_bits(buf: u32, w: u32)
    requires
        w < 0x100_0000,
    ensures
        ({
            let b1 = (buf << 6u32) | ((w >> 18u32) & 63);
            let b2 = (b1 << 6u32) | ((w >> 12u32) & 63);
            let b3 = (b2 << 6u32) | ((w >> 6u32) & 63);
            &&& (b2 >> 4u32) as u8 == (w >> 16u32) as u8
            &&& (b3 >> 2u32) as u8 == (w >> 8u32) as u8
        }),
{
    lemma_quad_bits(buf, w);
}

/// The base64 transport is lossless: decoding the text `base64` writes
/// for any octets gives those octets back.
pub proof fn law_base64_round_trip(b: Seq<u8>)
    ensures
        b64_decoded(b64_octets(b)) == Some(b),
{
    let s = b64_octets(b);
    let e = b64_text(b);
    lemma_text_octets(b);
    let n = b.len() as int;
    let q = n / 3;
    let r = n % 3;
    let p = if r == 0 { 4 * q } else if r == 1 { 4 * q + 2 } else { 4 * q + 3 };
    assert(e.len() == 4 * ((n + 2) / 3));
    assert forall|j: int| 0 <= j < p implies s[j] != 61 by {
        assert((j / 4) * 3 + 1 < n || j % 4 < 2);
        assert((j / 4) * 3 + 2 < n || j % 4 < 3);
        lemma_digit_at(b, j);
    }
    if r != 0 {
        assert(s[p] == b64_char_at(b, p) as u8);
    }
    lemma_pad_index(s, p);
    let buf = lemma_groups(b, q);
    let m = 4 * q;
    let i = 3 * q;
    let d = s.take(p);
    assert(d.take(m) =~= s.take(m));
    if r == 0 {
        assert(d =~= s.take(m));
        assert(b.take(i) =~= b);
    } else {
        let b0 = b[i];
        let b1 = if r == 2 { b[i + 1] } else { 0u8 };
        lemma_group_parts(b0, b1, 0);
        let wn = group_word(b, i);
        assert(wn == b0 as nat * 65536 + b1 as nat * 256);
        let w = wn as u32;
        lemma_word_bits(w);
        lemma_pair_bits(buf, w);
        assert((m / 4) * 3 == i && ((m + 1) / 4) * 3 == i && ((m + 2) / 4) * 3 == i);
        lemma_digit_at(b, m);
        lemma_digit_at(b, m + 1);
        lemma_snoc(d, m);
        lemma_snoc(d, m + 1);
        assert(d[m] == s[m] && d[m + 1] == s[m + 1]);
        let c1 = (buf << 6u32) | ((w >> 18u32) & 63);
        let c2 = (c1 << 6u32) | ((w >> 12u32) & 63);
        let o = b.take(i);
        assert(dec_run(d.take(m + 1)) == Some((o, c1, 6u32)));
        assert(dec_run(d.take(m + 2)) == Some((o.push(b0), c2, 4u32)));
        if r == 1 {
            assert(d.take(m + 2) =~= d);
            assert(o.push(b0) =~= b);
        } else {
            lemma_digit_at(b, m + 2);
            lemma_snoc(d, m + 2);
            assert(d[m + 2] == s[m + 2]);
            let c3 = (c2 << 6u32) | ((w >> 6u32) & 63);
            assert(dec_run(d.take(m + 3)) == Some((o.push(b0).push(b1), c3, 2u32)));
            assert(d.take(m + 3) =~= d);
            assert(o.push(b0).push(b1) =~= b);
        }
    }
}


/// A comma-separated run of JSON string literals.
pub open spec fn json_items(items: Seq<Seq<char>>) -> Seq<char>
    decreases items.len(),
{
    if items.len() == 0 {
        Seq::empty()
    } else if items.len() == 1 {
        json_string(items[0])
    } else {
        json_items(items.drop_last()) + seq![','] + json_string(items.last())
    }
}

/// A JSON string literal, or `null`.
pub open spec fn json_opt(o: Option<Seq<char>>) -> Seq<char> {
    match o {
        Some(t) => json_string(t),
        None => "null"@,
    }
}

/// The text of an optional string.
pub open spec fn opt_text(o: Option<&str>) -> Option<Seq<char>> {
    match o {
        Some(t) => Some(t@),
        None => None,
    }
}

/// The run envelope's JSON: the accumulated output lines, the trap
/// channel, the returned-err channel, the budgets used, and whether a
/// frame was parked.
pub open spec fn run_json(
    output: Seq<Seq<char>>,
    trap: Option<Seq<char>>,
    err: Option<Seq<char>>,
    fuel_used: u64,
    heap: u64,
    parked: bool,
) -> Seq<char> {
    "{\"output\":["@ + json_items(output) + "],\"trap\":"@ + json_opt(trap) + ",\"err\":"@
        + json_opt(err) + ",\"fuelUsed\":"@ + dec_digits(fuel_used as nat) + ",\"heapBytes\":"@
        + dec_digits(heap as nat) + ",\"parked\":"@ + (if parked {
        "true"@
    } else {
        "false"@
    }) + "}"@
}

fn push_opt(json: &mut String, o: Option<&str>)
    ensures
        final(json)@ == old(json)@ + json_opt(opt_text(o)),
{
    match o {
        Some(t) => json_escape(t, json),
        None => push_str(json, "null"),
    }
}

/// Assembles a run envelope's JSON. The two failure channels stay
/// distinct: `trap` carries panics and budget/lifecycle failures, `err`
/// a returned failure.
pub fn run_envelope(
    output: &[String],
    trap: Option<&str>,
    err: Option<&str>,
    fuel_used: u64,
    heap: u64,
    parked: bool,
) -> (json: String)
    ensures
        json@ == run_json(
            output@.map_values(|l: String| l@),
            opt_text(trap),
            opt_text(err),
            fuel_used,
            heap,
            parked,
        ),
{
    let ghost lines = output@.map_values(|l: String| l@);
    let mut json = String::new();
    push_str(&mut json, "{\"output\":[");
    let ghost start = json@;
    let mut i: usize = 0;
    while i < output.len()
        invariant
            lines == output@.map_values(|l: String| l@),
            i <= output@.len(),
            json@ == start + json_items(lines.take(i as int)),
        decreases output@.len() - i,
    {
        let ghost before = json@;
        if i > 0 {
            push_char(&mut json, ',');
        }
        json_escape(output[i].as_str(), &mut json);
        proof {
            assert(lines.take(i + 1).drop_last() =~= lines.take(i as int));
            if i == 0 {
                assert(json_items(lines.take(0)) =~= Seq::<char>::empty());
            }
        }
        i += 1;
    }
    proof {
        assert(lines.take(output@.len() as int) =~= lines);
    }
    push_str(&mut json, "],\"trap\":");
    push_opt(&mut json, trap);
    push_str(&mut json, ",\"err\":");
    push_opt(&mut json, err);
    push_str(&mut json, ",\"fuelUsed\":");
    push_u64(&mut json, fuel_used);
    push_str(&mut json, ",\"heapBytes\":");
    push_u64(&mut json, heap);
    push_str(&mut json, ",\"parked\":");
    push_str(&mut json, if parked { "true" } else { "false" });
    push_str(&mut json, "}");
    proof {
        assert(json@ =~= run_json(lines, opt_text(trap), opt_text(err), fuel_used, heap, parked));
    }
    json
}

/// The base64 run entry's first step: the program bytes to run, or —
/// for text that is not base64 — the envelope that answers it: no output,
/// the `bad base64` trap, nothing used, nothing parked.
pub fn run_b64_input(s: &str) -> (r: Result<Vec<u8>, String>)
    ensures
        match r {
            Ok(b) => b64_decoded(s.spec_bytes()) == Some(b@),
            Err(json) => b64_decoded(s.spec_bytes()) is None && json@ == run_json(
                Seq::empty(),
                Some("bad base64"@),
                None,
                0,
                0,
                false,
            ),
        },
{
    match base64_decode(s) {
        Some(b) => Ok(b),
        None => {
            let lines: Vec<String> = Vec::new();
            let json = run_envelope(lines.as_slice(), Some("bad base64"), None, 0, 0, false);
            proof {
                assert(lines@.map_values(|l: String| l@) =~= Seq::<Seq<char>>::empty());
            }
            Err(json)
        },
    }
}

} // verus!

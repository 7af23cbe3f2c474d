use vstd::prelude::*;

verus! {

use vstd::string::StrSliceExecFns;
use vstd::utf8::{encode_scalar, encode_utf8};

/// UTF-8 encoding of one character, following `vstd::utf8::encode_scalar`.
pub fn encode_char_utf8(c: char) -> (r: Vec<u8>)
    ensures
        r@ == encode_scalar(c as u32),
{
    broadcast use vstd::utf8::char_is_scalar;

    let v: u32 = c as u32;
    let mut r: Vec<u8> = Vec::new();
    if v < 0x80 {
        r.push((v & 0x7F) as u8);
    } else if v < 0x800 {
        r.push(0xC0u8 | (((v >> 6u32) & 0x1F) as u8));
        r.push(0x80u8 | ((v & 0x3F) as u8));
    } else if v < 0x10000 {
        r.push(0xE0u8 | (((v >> 12u32) & 0x0F) as u8));
        r.push(0x80u8 | (((v >> 6u32) & 0x3F) as u8));
        r.push(0x80u8 | ((v & 0x3F) as u8));
    } else {
        r.push(0xF0u8 | (((v >> 18u32) & 0x7) as u8));
        r.push(0x80u8 | (((v >> 12u32) & 0x3F) as u8));
        r.push(0x80u8 | (((v >> 6u32) & 0x3F) as u8));
        r.push(0x80u8 | ((v & 0x3F) as u8));
    }
    proof {
        assert(r@ =~= encode_scalar(c as u32));
    }
    r
}

pub proof fn lemma_encode_utf8_snoc(s: Seq<char>, c: char)
    ensures
        encode_utf8(s.push(c)) == encode_utf8(s) + encode_scalar(c as u32),
    decreases s.len(),
{
    let e = encode_scalar(c as u32);
    if s.len() == 0 {
        assert(s.push(c).drop_first() =~= Seq::<char>::empty());
        assert(encode_utf8(s.push(c)) == e + encode_utf8(Seq::<char>::empty()));
        assert(e + Seq::<u8>::empty() =~= e);
        assert(Seq::<u8>::empty() + e =~= e);
    } else {
        lemma_encode_utf8_snoc(s.drop_first(), c);
        assert(s.push(c).drop_first() =~= s.drop_first().push(c));
        let h = encode_scalar(s[0] as u32);
        let t = encode_utf8(s.drop_first());
        assert(encode_utf8(s.push(c)) == h + (t + e));
        assert(h + (t + e) =~= (h + t) + e);
    }
}

/// UTF-8 encoding of a character sequence, following `vstd::utf8::encode_utf8`.
pub fn encode_chars(cs: &Vec<char>) -> (r: Vec<u8>)
    ensures
        r@ == encode_utf8(cs@),
{
    let mut r: Vec<u8> = Vec::new();
    let mut i: usize = 0;
    while i < cs.len()
        invariant
            i <= cs.len(),
            r@ == encode_utf8(cs@.take(i as int)),
        decreases cs.len() - i,
    {
        let mut b = encode_char_utf8(cs[i]);
        proof {
            assert(cs@.take(i + 1) =~= cs@.take(i as int).push(cs@[i as int]));
            lemma_encode_utf8_snoc(cs@.take(i as int), cs@[i as int]);
        }
        r.append(&mut b);
        i += 1;
    }
    proof {
        assert(cs@.take(cs@.len() as int) =~= cs@);
    }
    r
}

/// A fresh copy of a character vector.
pub fn dup_chars(s: &Vec<char>) -> (r: Vec<char>)
    ensures
        r@ == s@,
{
    let mut r: Vec<char> = Vec::new();
    let mut i: usize = 0;
    while i < s.len()
        invariant
            i <= s.len(),
            r@ == s@.take(i as int),
        decreases s.len() - i,
    {
        r.push(s[i]);
        proof {
            assert(s@.take(i + 1) =~= s@.take(i as int).push(s@[i as int]));
        }
        i += 1;
    }
    proof {
        assert(s@.take(s@.len() as int) =~= s@);
    }
    r
}

/// The characters of a string slice, in order.
pub fn str_chars(s: &str) -> (r: Vec<char>)
    ensures
        r@ == s@,
{
    let n = s.unicode_len();
    let mut r: Vec<char> = Vec::new();
    let mut i: usize = 0;
    while i < n
        invariant
            i <= n,
            n == s@.len(),
            r@ == s@.take(i as int),
        decreases n - i,
    {
        r.push(s.get_char(i));
        proof {
            assert(s@.take(i + 1) =~= s@.take(i as int).push(s@[i as int]));
        }
        i += 1;
    }
    proof {
        assert(s@.take(s@.len() as int) =~= s@);
    }
    r
}

/// Whether a character vector spells the same text as a string slice.
pub fn chars_eq_str(v: &Vec<char>, s: &str) -> (b: bool)
    ensures
        b == (v@ == s@),
{
    let n = s.unicode_len();
    if v.len() != n {
        proof {
            assert(v@ != s@) by {
                if v@ == s@ {
                    assert(v@.len() == s@.len());
                }
            }
        }
        return false;
    }
    let mut i: usize = 0;
    while i < n
        invariant
            i <= n,
            n == s@.len(),
            v@.len() == n,
            forall|j: int| 0 <= j < i ==> v@[j] == s@[j],
        decreases n - i,
    {
        if v[i] != s.get_char(i) {
            proof {
                assert(v@ != s@) by {
                    if v@ == s@ {
                        assert(v@[i as int] == s@[i as int]);
                    }
                }
            }
            return false;
        }
        i += 1;
    }
    proof {
        assert(v@ =~= s@);
    }
    true
}

/// The decimal digits of `n`, most significant first.
pub open spec fn dec_chars(n: u32) -> Seq<char>
    decreases n,
{
    if n < 10 {
        seq![digit_char(n % 10)]
    } else {
        dec_chars(n / 10).push(digit_char(n % 10))
    }
}

pub open spec fn digit_char(d: u32) -> char {
    ((d + 0x30) as u8) as char
}

/// Renders `n` in decimal.
pub fn render_dec(n: u32) -> (r: Vec<char>)
    ensures
        r@ == dec_chars(n),
    decreases n,
{
    if n < 10 {
        let mut r: Vec<char> = Vec::new();
        r.push(((n % 10 + 0x30) as u8) as char);
        proof {
            assert(r@ =~= dec_chars(n));
        }
        r
    } else {
        let mut r = render_dec(n / 10);
        r.push(((n % 10 + 0x30) as u8) as char);
        r
    }
}

/// Lowercase hexadecimal rendering, two digits per byte, following the way a
/// digest is customarily printed.
pub open spec fn hex_digit(d: u8) -> char
    recommends
        d < 16,
{
    if d < 10 {
        ((d + 0x30) as u8) as char
    } else {
        ((d + 0x57) as u8) as char
    }
}

pub open spec fn hex_of(bs: Seq<u8>) -> Seq<char>
    decreases bs.len(),
{
    if bs.len() == 0 {
        Seq::empty()
    } else {
        seq![hex_digit(bs[0] / 16), hex_digit(bs[0] % 16)] + hex_of(bs.drop_first())
    }
}

pub proof fn lemma_hex_of_snoc(bs: Seq<u8>, b: u8)
    ensures
        hex_of(bs.push(b)) == hex_of(bs) + seq![hex_digit(b / 16), hex_digit(b % 16)],
    decreases bs.len(),
{
    let e = seq![hex_digit(b / 16), hex_digit(b % 16)];
    if bs.len() == 0 {
        assert(bs.push(b).drop_first() =~= Seq::<u8>::empty());
        assert(bs.push(b)[0] == b);
        assert(hex_of(bs.push(b)) == e + hex_of(Seq::<u8>::empty()));
        assert(e + Seq::<char>::empty() =~= e);
        assert(hex_of(bs) + e =~= e);
    } else {
        lemma_hex_of_snoc(bs.drop_first(), b);
        assert(bs.push(b).drop_first() =~= bs.drop_first().push(b));
        let h = seq![hex_digit(bs[0] / 16), hex_digit(bs[0] % 16)];
        let t = hex_of(bs.drop_first());
        assert(hex_of(bs.push(b)) == h + (t + e));
        assert(h + (t + e) =~= (h + t) + e);
    }
}

pub fn hex_chars(bs: &Vec<u8>) -> (r: Vec<char>)
    ensures
        r@ == hex_of(bs@),
{
    let mut r: Vec<char> = Vec::new();
    let mut i: usize = 0;
    while i < bs.len()
        invariant
            i <= bs.len(),
            r@ == hex_of(bs@.take(i as int)),
        decreases bs.len() - i,
    {
        let b = bs[i];
        let hi = b / 16;
        let lo = b % 16;
        r.push(if hi < 10 { ((hi + 0x30) as u8) as char } else { ((hi + 0x57) as u8) as char });
        r.push(if lo < 10 { ((lo + 0x30) as u8) as char } else { ((lo + 0x57) as u8) as char });
        proof {
            assert(bs@.take(i + 1) =~= bs@.take(i as int).push(bs@[i as int]));
            lemma_hex_of_snoc(bs@.take(i as int), bs@[i as int]);
            assert(r@ == hex_of(bs@.take(i + 1)));
        }
        i += 1;
    }
    proof {
        assert(bs@.take(bs@.len() as int) =~= bs@);
    }
    r
}

/// The big-endian bytes of a 128-bit value.
pub open spec fn u128_be_bytes(x: u128) -> Seq<u8> {
    seq![
        ((x >> 120u128) & 0xFF) as u8,
        ((x >> 112u128) & 0xFF) as u8,
        ((x >> 104u128) & 0xFF) as u8,
        ((x >> 96u128) & 0xFF) as u8,
        ((x >> 88u128) & 0xFF) as u8,
        ((x >> 80u128) & 0xFF) as u8,
        ((x >> 72u128) & 0xFF) as u8,
        ((x >> 64u128) & 0xFF) as u8,
        ((x >> 56u128) & 0xFF) as u8,
        ((x >> 48u128) & 0xFF) as u8,
        ((x >> 40u128) & 0xFF) as u8,
        ((x >> 32u128) & 0xFF) as u8,
        ((x >> 24u128) & 0xFF) as u8,
        ((x >> 16u128) & 0xFF) as u8,
        ((x >> 8u128) & 0xFF) as u8,
        (x & 0xFF) as u8,
    ]
}

pub fn u128_to_be(x: u128) -> (r: Vec<u8>)
    ensures
        r@ == u128_be_bytes(x),
{
    let mut r: Vec<u8> = Vec::new();
    r.push(((x >> 120u128) & 0xFF) as u8);
    r.push(((x >> 112u128) & 0xFF) as u8);
    r.push(((x >> 104u128) & 0xFF) as u8);
    r.push(((x >> 96u128) & 0xFF) as u8);
    r.push(((x >> 88u128) & 0xFF) as u8);
    r.push(((x >> 80u128) & 0xFF) as u8);
    r.push(((x >> 72u128) & 0xFF) as u8);
    r.push(((x >> 64u128) & 0xFF) as u8);
    r.push(((x >> 56u128) & 0xFF) as u8);
    r.push(((x >> 48u128) & 0xFF) as u8);
    r.push(((x >> 40u128) & 0xFF) as u8);
    r.push(((x >> 32u128) & 0xFF) as u8);
    r.push(((x >> 24u128) & 0xFF) as u8);
    r.push(((x >> 16u128) & 0xFF) as u8);
    r.push(((x >> 8u128) & 0xFF) as u8);
    r.push((x & 0xFF) as u8);
    proof {
        assert(r@ =~= u128_be_bytes(x));
    }
    r
}

} // verus!

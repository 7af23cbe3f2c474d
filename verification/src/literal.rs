use vstd::prelude::*;

verus! {

use vstd::utf8::{encode_utf8, is_scalar};
use crate::chars::{chars_eq_str, encode_chars};

/// Relies on `char::from_u32` of std: it returns the character with the given
/// scalar value exactly when the value is a Unicode scalar (at most 0x10FFFF
/// and not a surrogate).
pub assume_specification[ char::from_u32 ](v: u32) -> (r: Option<char>)
    ensures
        r is Some <==> is_scalar(v),
        r matches Some(c) ==> c as u32 == v,
;

/// A decimal digit character.
pub open spec fn is_dec_digit(c: char) -> bool {
    0x30 <= c as u32 && c as u32 <= 0x39
}

/// A sequence of ASCII characters.
pub open spec fn ascii_chars(cs: Seq<char>) -> bool {
    forall|i: int| 0 <= i < cs.len() ==> (#[trigger] cs[i] as u32) <= 0x7F
}

/// Value of a hexadecimal digit, or -1.
pub open spec fn hex_digit_val(c: char) -> int {
    if '0' <= c && c <= '9' {
        c as u32 - 0x30
    } else if 'a' <= c && c <= 'f' {
        c as u32 - 0x57
    } else if 'A' <= c && c <= 'F' {
        c as u32 - 0x37
    } else {
        -1
    }
}

pub open spec fn is_ws(c: char) -> bool {
    c == ' ' || c == '\t' || c == '\n' || c == '\r'
}

/// Length of the longest prefix of hexadecimal digits.
pub open spec fn hex_run_len(s: Seq<char>) -> nat
    decreases s.len(),
{
    if s.len() == 0 || hex_digit_val(s[0]) < 0 {
        0
    } else {
        1 + hex_run_len(s.drop_first())
    }
}

/// Length of the longest prefix of whitespace characters.
pub open spec fn ws_run_len(s: Seq<char>) -> nat
    decreases s.len(),
{
    if s.len() == 0 || !is_ws(s[0]) {
        0
    } else {
        1 + ws_run_len(s.drop_first())
    }
}

pub proof fn lemma_ws_run_le(s: Seq<char>)
    ensures
        ws_run_len(s) <= s.len(),
    decreases s.len(),
{
    if s.len() > 0 && is_ws(s[0]) {
        lemma_ws_run_le(s.drop_first());
    }
}

/// Value of a sequence of hexadecimal digits, most significant first.
pub open spec fn hex_value(ds: Seq<char>) -> int
    decreases ds.len(),
{
    if ds.len() == 0 {
        0
    } else {
        hex_value(ds.drop_last()) * 16 + hex_digit_val(ds.last())
    }
}

pub proof fn lemma_hex_value_bound(ds: Seq<char>)
    requires
        forall|i: int| 0 <= i < ds.len() ==> hex_digit_val(ds[i]) >= 0,
        ds.len() <= 6,
    ensures
        0 <= hex_value(ds) < 0x1000000,
        ds.len() < 6 ==> hex_value(ds) < 0x100000,
        ds.len() < 5 ==> hex_value(ds) < 0x10000,
        ds.len() < 4 ==> hex_value(ds) < 0x1000,
        ds.len() < 3 ==> hex_value(ds) < 0x100,
        ds.len() < 2 ==> hex_value(ds) < 0x10,
    decreases ds.len(),
{
    if ds.len() > 0 {
        lemma_hex_value_bound(ds.drop_last());
        assert(hex_digit_val(ds.last()) < 16);
    }
}

/// Resolution of one simple escape character.
pub open spec fn esc_char(e: char) -> Option<char> {
    if e == 'n' {
        Some('\n')
    } else if e == 'r' {
        Some('\r')
    } else if e == 't' {
        Some('\t')
    } else if e == '\\' {
        Some('\\')
    } else if e == '\'' {
        Some('\'')
    } else if e == '"' {
        Some('"')
    } else if e == '0' {
        Some('\0')
    } else {
        None
    }
}

pub open spec fn opt_cons_char(c: char, r: Option<Seq<char>>) -> Option<Seq<char>> {
    match r {
        Some(t) => Some(seq![c] + t),
        None => None,
    }
}

pub open spec fn opt_cons_byte(b: u8, r: Option<Seq<u8>>) -> Option<Seq<u8>> {
    match r {
        Some(t) => Some(seq![b] + t),
        None => None,
    }
}

/// The decoded characters of the body of a character or string literal:
/// simple escapes, `\xNN` up to 0x7F, `\u{NNNNNN}` for a Unicode scalar, and
/// a backslash before a newline that removes the following whitespace.
pub open spec fn unescape_str(s: Seq<char>) -> Option<Seq<char>>
    decreases s.len(),
    via unescape_str_dec
{
    if s.len() == 0 {
        Some(Seq::empty())
    } else if s[0] != '\\' {
        opt_cons_char(s[0], unescape_str(s.drop_first()))
    } else if s.len() < 2 {
        None
    } else if esc_char(s[1]) is Some {
        opt_cons_char(esc_char(s[1]).unwrap(), unescape_str(s.skip(2)))
    } else if s[1] == 'x' {
        if s.len() >= 4 && hex_digit_val(s[2]) >= 0 && hex_digit_val(s[3]) >= 0 {
            let v = hex_digit_val(s[2]) * 16 + hex_digit_val(s[3]);
            if v <= 0x7F {
                opt_cons_char((v as u32) as char, unescape_str(s.skip(4)))
            } else {
                None
            }
        } else {
            None
        }
    } else if s[1] == 'u' {
        if s.len() >= 4 && s[2] == '{' {
            let k = hex_run_len(s.skip(3)) as int;
            if 1 <= k <= 6 && s.len() > 3 + k && s[3 + k] == '}' {
                let v = hex_value(s.subrange(3, 3 + k));
                if is_scalar(v as u32) {
                    opt_cons_char((v as u32) as char, unescape_str(s.skip(3 + k + 1)))
                } else {
                    None
                }
            } else {
                None
            }
        } else {
            None
        }
    } else if s[1] == '\n' {
        unescape_str(s.skip(2 + ws_run_len(s.skip(2)) as int))
    } else {
        None
    }
}

#[via_fn]
proof fn unescape_str_dec(s: Seq<char>) {
    if s.len() >= 2 {
        lemma_ws_run_le(s.skip(2));
    }
}

/// The decoded bytes of the body of a byte or byte-string literal: simple
/// escapes, `\xNN` up to 0xFF, plain characters up to 0x7F, and a backslash
/// before a newline that removes the following whitespace.
pub open spec fn unescape_bytes(s: Seq<char>) -> Option<Seq<u8>>
    decreases s.len(),
    via unescape_bytes_dec
{
    if s.len() == 0 {
        Some(Seq::empty())
    } else if s[0] != '\\' {
        if s[0] as u32 <= 0x7F {
            opt_cons_byte((s[0] as u32) as u8, unescape_bytes(s.drop_first()))
        } else {
            None
        }
    } else if s.len() < 2 {
        None
    } else if esc_char(s[1]) is Some {
        opt_cons_byte((esc_char(s[1]).unwrap() as u32) as u8, unescape_bytes(s.skip(2)))
    } else if s[1] == 'x' {
        if s.len() >= 4 && hex_digit_val(s[2]) >= 0 && hex_digit_val(s[3]) >= 0 {
            let v = hex_digit_val(s[2]) * 16 + hex_digit_val(s[3]);
            opt_cons_byte(v as u8, unescape_bytes(s.skip(4)))
        } else {
            None
        }
    } else if s[1] == '\n' {
        unescape_bytes(s.skip(2 + ws_run_len(s.skip(2)) as int))
    } else {
        None
    }
}

#[via_fn]
proof fn unescape_bytes_dec(s: Seq<char>) {
    if s.len() >= 2 {
        lemma_ws_run_le(s.skip(2));
    }
}

/// Length of the longest prefix of `#` characters.
pub open spec fn hash_run_len(s: Seq<char>) -> nat
    decreases s.len(),
{
    if s.len() == 0 || s[0] != '#' {
        0
    } else {
        1 + hash_run_len(s.drop_first())
    }
}

/// The body of a raw string after its marker: `n` hashes, a quote, the body,
/// a quote, and `n` hashes again. Raw bodies have no escapes.
pub open spec fn raw_body(s: Seq<char>) -> Option<Seq<char>> {
    let n = hash_run_len(s) as int;
    if s.len() >= 2 * n + 2 && s[n] == '"' && s[s.len() - 1 - n] == '"' && (forall|i: int|
        s.len() - n <= i < s.len() ==> s[i] == '#') {
        Some(s.subrange(n + 1, s.len() - 1 - n))
    } else {
        None
    }
}

/// The canonical digest contribution of a literal with the given raw text:
/// booleans and numbers contribute their raw spelling, character and string
/// literals their decoded characters in UTF-8, byte and byte-string literals
/// their decoded byte values. Unrecognized raw text yields `None`.
pub open spec fn canon_lit(raw: Seq<char>) -> Option<Seq<u8>> {
    if raw == "true"@ || raw == "false"@ {
        Some(encode_utf8(raw))
    } else if raw.len() > 0 && is_dec_digit(raw[0]) {
        Some(encode_utf8(raw))
    } else if raw.len() >= 2 && raw[0] == '"' && raw.last() == '"' {
        match unescape_str(raw.subrange(1, raw.len() - 1)) {
            Some(cs) => Some(encode_utf8(cs)),
            None => None,
        }
    } else if raw.len() >= 2 && raw[0] == '\'' && raw.last() == '\'' {
        match unescape_str(raw.subrange(1, raw.len() - 1)) {
            Some(cs) => if cs.len() == 1 {
                Some(encode_utf8(cs))
            } else {
                None
            },
            None => None,
        }
    } else if raw.len() >= 1 && raw[0] == 'r' {
        match raw_body(raw.drop_first()) {
            Some(cs) => Some(encode_utf8(cs)),
            None => None,
        }
    } else if raw.len() >= 3 && raw[0] == 'b' && raw[1] == '\'' && raw.last() == '\'' {
        match unescape_bytes(raw.subrange(2, raw.len() - 1)) {
            Some(bs) => if bs.len() == 1 {
                Some(bs)
            } else {
                None
            },
            None => None,
        }
    } else if raw.len() >= 3 && raw[0] == 'b' && raw[1] == '"' && raw.last() == '"' {
        match unescape_bytes(raw.subrange(2, raw.len() - 1)) {
            Some(bs) => Some(bs),
            None => None,
        }
    } else if raw.len() >= 2 && raw[0] == 'b' && raw[1] == 'r' {
        match raw_body(raw.skip(2)) {
            Some(cs) => if ascii_chars(cs) {
                Some(encode_utf8(cs))
            } else {
                None
            },
            None => None,
        }
    } else {
        None
    }
}

/// Value of one hexadecimal digit character, if it is one.
pub fn hex_val_opt(c: char) -> (r: Option<u8>)
    ensures
        r is Some <==> hex_digit_val(c) >= 0,
        r matches Some(v) ==> v as int == hex_digit_val(c),
{
    let u = c as u32;
    if 0x30 <= u && u <= 0x39 {
        Some((u - 0x30) as u8)
    } else if 0x61 <= u && u <= 0x66 {
        Some((u - 0x57) as u8)
    } else if 0x41 <= u && u <= 0x46 {
        Some((u - 0x37) as u8)
    } else {
        None
    }
}

/// Length of the run of hexadecimal digits at `i`, stopping before `end`.
fn hex_run_from(s: &Vec<char>, i: usize, end: usize) -> (k: usize)
    requires
        i <= end <= s.len(),
    ensures
        k as nat == hex_run_len(s@.subrange(i as int, end as int)),
        i + k <= end,
        forall|j: int| i <= j < i + k ==> hex_digit_val(s@[j]) >= 0,
    decreases end - i,
{
    proof {
        assert(s@.subrange(i as int, end as int).len() == end - i);
    }
    if i == end {
        0
    } else {
        let t0 = s[i];
        proof {
            assert(s@.subrange(i as int, end as int)[0] == s@[i as int]);
        }
        match hex_val_opt(t0) {
            None => 0,
            Some(_) => {
                let k2 = hex_run_from(s, i + 1, end);
                proof {
                    assert(s@.subrange(i as int, end as int).drop_first() =~= s@.subrange(
                        i + 1,
                        end as int,
                    ));
                }
                1 + k2
            },
        }
    }
}

/// Length of the run of whitespace characters at `i`, stopping before `end`.
fn ws_run_from(s: &Vec<char>, i: usize, end: usize) -> (k: usize)
    requires
        i <= end <= s.len(),
    ensures
        k as nat == ws_run_len(s@.subrange(i as int, end as int)),
        i + k <= end,
    decreases end - i,
{
    proof {
        assert(s@.subrange(i as int, end as int).len() == end - i);
    }
    if i == end {
        0
    } else {
        let c = s[i];
        proof {
            assert(s@.subrange(i as int, end as int)[0] == s@[i as int]);
        }
        if c == ' ' || c == '\t' || c == '\n' || c == '\r' {
            let k2 = ws_run_from(s, i + 1, end);
            proof {
                assert(s@.subrange(i as int, end as int).drop_first() =~= s@.subrange(
                    i + 1,
                    end as int,
                ));
            }
            1 + k2
        } else {
            0
        }
    }
}

/// Length of the run of `#` characters at `i`, stopping before `end`.
fn hash_run_from(s: &Vec<char>, i: usize, end: usize) -> (k: usize)
    requires
        i <= end <= s.len(),
    ensures
        k as nat == hash_run_len(s@.subrange(i as int, end as int)),
        i + k <= end,
    decreases end - i,
{
    proof {
        assert(s@.subrange(i as int, end as int).len() == end - i);
    }
    if i == end {
        0
    } else {
        let c = s[i];
        proof {
            assert(s@.subrange(i as int, end as int)[0] == s@[i as int]);
        }
        if c == '#' {
            let k2 = hash_run_from(s, i + 1, end);
            proof {
                assert(s@.subrange(i as int, end as int).drop_first() =~= s@.subrange(
                    i + 1,
                    end as int,
                ));
            }
            1 + k2
        } else {
            0
        }
    }
}

/// Value of the `k` hexadecimal digits starting at `i`.
fn hex_value_from(s: &Vec<char>, i: usize, k: usize) -> (v: u32)
    requires
        i + k <= s.len(),
        k <= 6,
        forall|j: int| i <= j < i + k ==> hex_digit_val(s@[j]) >= 0,
    ensures
        v as int == hex_value(s@.subrange(i as int, i + k as int)),
        v < 0x1000000,
    decreases k,
{
    if k == 0 {
        proof {
            assert(s@.subrange(i as int, i as int) =~= Seq::<char>::empty());
        }
        0
    } else {
        let prev = hex_value_from(s, i, k - 1);
        let d = match hex_val_opt(s[i + k - 1]) {
            Some(d) => d,
            None => {
                proof {
                    assert(false);
                }
                0
            },
        };
        proof {
            let sub = s@.subrange(i as int, i + k as int);
            let sub2 = s@.subrange(i as int, i + (k - 1) as int);
            assert(sub.drop_last() =~= sub2);
            assert(sub.last() == s@[i + k - 1]);
            assert(forall|j: int| 0 <= j < sub2.len() ==> hex_digit_val(sub2[j]) >= 0);
            lemma_hex_value_bound(sub2);
        }
        prev * 16 + (d as u32)
    }
}

/// Copies the characters in `[i, end)`.
fn copy_range(s: &Vec<char>, i: usize, end: usize) -> (r: Vec<char>)
    requires
        i <= end <= s.len(),
    ensures
        r@ == s@.subrange(i as int, end as int),
{
    let mut r: Vec<char> = Vec::new();
    let mut j: usize = i;
    while j < end
        invariant
            i <= j <= end <= s.len(),
            r@ == s@.subrange(i as int, j as int),
        decreases end - j,
    {
        r.push(s[j]);
        proof {
            assert(s@.subrange(i as int, j + 1) =~= s@.subrange(i as int, j as int).push(
                s@[j as int],
            ));
        }
        j += 1;
    }
    r
}

/// Decodes the escapes of a character or string literal body in `[i, end)`.
#[verifier::rlimit(100)]
fn unescape_str_range(s: &Vec<char>, i: usize, end: usize) -> (r: Option<Vec<char>>)
    requires
        i <= end <= s.len(),
    ensures
        ({
            let sp = unescape_str(s@.subrange(i as int, end as int));
            match r {
                Some(v) => sp == Some(v@),
                None => sp is None,
            }
        }),
    decreases end - i,
{
    broadcast use vstd::utf8::char_u32_cast;

    let ghost t = s@.subrange(i as int, end as int);
    proof {
        assert(t.len() == end - i);
    }
    if i == end {
        proof {
            assert(t =~= Seq::<char>::empty());
        }
        let v: Vec<char> = Vec::new();
        proof {
            assert(v@ =~= Seq::<char>::empty());
        }
        Some(v)
    } else {
        let c0 = s[i];
        proof {
            assert(t[0] == s@[i as int]);
        }
        if c0 != '\\' {
            proof {
                assert(t.drop_first() =~= s@.subrange(i + 1, end as int));
            }
            match unescape_str_range(s, i + 1, end) {
                Some(mut v) => {
                    v.insert(0, c0);
                    proof {
                        assert(v@ =~= seq![c0] + v@.drop_first());
                    }
                    Some(v)
                },
                None => None,
            }
        } else if i + 1 == end {
            None
        } else {
            let c1 = s[i + 1];
            proof {
                assert(t[1] == s@[i + 1]);
            }
            let esc: Option<char> = if c1 == 'n' {
                Some('\n')
            } else if c1 == 'r' {
                Some('\r')
            } else if c1 == 't' {
                Some('\t')
            } else if c1 == '\\' {
                Some('\\')
            } else if c1 == '\'' {
                Some('\'')
            } else if c1 == '"' {
                Some('"')
            } else if c1 == '0' {
                Some('\0')
            } else {
                None
            };
            proof {
                assert(esc == esc_char(t[1]));
            }
            if let Some(ec) = esc {
                proof {
                    assert(t.skip(2) =~= s@.subrange(i + 2, end as int));
                }
                match unescape_str_range(s, i + 2, end) {
                    Some(mut v) => {
                        v.insert(0, ec);
                        proof {
                            assert(v@ =~= seq![ec] + v@.drop_first());
                        }
                        Some(v)
                    },
                    None => None,
                }
            } else if c1 == 'x' {
                if end - i >= 4 {
                    match (hex_val_opt(s[i + 2]), hex_val_opt(s[i + 3])) {
                        (Some(a), Some(b)) => {
                            proof {
                                assert(t[2] == s@[i + 2]);
                                assert(t[3] == s@[i + 3]);
                            }
                            let v: u32 = (a as u32) * 16 + (b as u32);
                            if v <= 0x7F {
                                proof {
                                    assert(is_scalar(v));
                                }
                                let ch = match char::from_u32(v) {
                                    Some(ch) => ch,
                                    None => {
                                        proof {
                                            assert(false);
                                        }
                                        ' '
                                    },
                                };
                                proof {
                                    assert(t.skip(4) =~= s@.subrange(i + 4, end as int));
                                    vstd::utf8::char_u32_cast(ch, v);
                                    assert(ch == ((v as u32) as char));
                                }
                                match unescape_str_range(s, i + 4, end) {
                                    Some(mut w) => {
                                        w.insert(0, ch);
                                        proof {
                                            assert(w@ =~= seq![ch] + w@.drop_first());
                                        }
                                        Some(w)
                                    },
                                    None => None,
                                }
                            } else {
                                None
                            }
                        },
                        _ => None,
                    }
                } else {
                    None
                }
            } else if c1 == 'u' {
                if end - i >= 4 && s[i + 2] == '{' {
                    proof {
                        assert(t[2] == s@[i + 2]);
                        assert(t.skip(3) =~= s@.subrange(i + 3, end as int));
                    }
                    let k = hex_run_from(s, i + 3, end);
                    if 1 <= k && k <= 6 && i + 3 + k < end && s[i + 3 + k] == '}' {
                        proof {
                            assert(t[3 + k] == s@[i + 3 + k]);
                            assert(t.subrange(3, 3 + k as int) =~= s@.subrange(
                                i + 3,
                                i + 3 + k as int,
                            ));
                        }
                        let v = hex_value_from(s, i + 3, k);
                        if v <= 0x10FFFF && !(0xD800 <= v && v <= 0xDFFF) {
                            proof {
                                assert(is_scalar(v));
                            }
                            let ch = match char::from_u32(v) {
                                Some(ch) => ch,
                                None => {
                                    proof {
                                        assert(false);
                                    }
                                    ' '
                                },
                            };
                            proof {
                                assert(t.skip(3 + k + 1) =~= s@.subrange(i + 3 + k + 1, end as int));
                                vstd::utf8::char_u32_cast(ch, v);
                                assert(ch == ((v as u32) as char));
                            }
                            match unescape_str_range(s, i + 3 + k + 1, end) {
                                Some(mut w) => {
                                    w.insert(0, ch);
                                    proof {
                                        assert(w@ =~= seq![ch] + w@.drop_first());
                                    }
                                    Some(w)
                                },
                                None => None,
                            }
                        } else {
                            proof {
                                assert(!is_scalar(v));
                            }
                            None
                        }
                    } else {
                        None
                    }
                } else {
                    None
                }
            } else if c1 == '\n' {
                proof {
                    assert(t.skip(2) =~= s@.subrange(i + 2, end as int));
                }
                let w = ws_run_from(s, i + 2, end);
                proof {
                    assert(t.skip(2 + ws_run_len(t.skip(2)) as int) =~= s@.subrange(
                        i + 2 + w as int,
                        end as int,
                    ));
                }
                unescape_str_range(s, i + 2 + w, end)
            } else {
                None
            }
        }
    }
}

/// Decodes the escapes of a byte or byte-string literal body in `[i, end)`.
#[verifier::rlimit(50)]
fn unescape_bytes_range(s: &Vec<char>, i: usize, end: usize) -> (r: Option<Vec<u8>>)
    requires
        i <= end <= s.len(),
    ensures
        ({
            let sp = unescape_bytes(s@.subrange(i as int, end as int));
            match r {
                Some(v) => sp == Some(v@),
                None => sp is None,
            }
        }),
    decreases end - i,
{
    let ghost t = s@.subrange(i as int, end as int);
    proof {
        assert(t.len() == end - i);
    }
    if i == end {
        proof {
            assert(t =~= Seq::<char>::empty());
        }
        let v: Vec<u8> = Vec::new();
        proof {
            assert(v@ =~= Seq::<u8>::empty());
        }
        Some(v)
    } else {
        let c0 = s[i];
        proof {
            assert(t[0] == s@[i as int]);
        }
        if c0 != '\\' {
            if (c0 as u32) <= 0x7F {
                proof {
                    assert(t.drop_first() =~= s@.subrange(i + 1, end as int));
                }
                match unescape_bytes_range(s, i + 1, end) {
                    Some(mut v) => {
                        let b = (c0 as u32) as u8;
                        v.insert(0, b);
                        proof {
                            assert(v@ =~= seq![b] + v@.drop_first());
                        }
                        Some(v)
                    },
                    None => None,
                }
            } else {
                None
            }
        } else if i + 1 == end {
            None
        } else {
            let c1 = s[i + 1];
            proof {
                assert(t[1] == s@[i + 1]);
            }
            let esc: Option<char> = if c1 == 'n' {
                Some('\n')
            } else if c1 == 'r' {
                Some('\r')
            } else if c1 == 't' {
                Some('\t')
            } else if c1 == '\\' {
                Some('\\')
            } else if c1 == '\'' {
                Some('\'')
            } else if c1 == '"' {
                Some('"')
            } else if c1 == '0' {
                Some('\0')
            } else {
                None
            };
            proof {
                assert(esc == esc_char(t[1]));
            }
            if let Some(ec) = esc {
                proof {
                    assert(t.skip(2) =~= s@.subrange(i + 2, end as int));
                }
                match unescape_bytes_range(s, i + 2, end) {
                    Some(mut v) => {
                        let b = (ec as u32) as u8;
                        v.insert(0, b);
                        proof {
                            assert(v@ =~= seq![b] + v@.drop_first());
                        }
                        Some(v)
                    },
                    None => None,
                }
            } else if c1 == 'x' {
                if end - i >= 4 {
                    match (hex_val_opt(s[i + 2]), hex_val_opt(s[i + 3])) {
                        (Some(a), Some(b)) => {
                            proof {
                                assert(t[2] == s@[i + 2]);
                                assert(t[3] == s@[i + 3]);
                                assert(t.skip(4) =~= s@.subrange(i + 4, end as int));
                            }
                            let v: u8 = a * 16 + b;
                            match unescape_bytes_range(s, i + 4, end) {
                                Some(mut w) => {
                                    w.insert(0, v);
                                    proof {
                                        assert(w@ =~= seq![v] + w@.drop_first());
                                    }
                                    Some(w)
                                },
                                None => None,
                            }
                        },
                        _ => None,
                    }
                } else {
                    None
                }
            } else if c1 == '\n' {
                proof {
                    assert(t.skip(2) =~= s@.subrange(i + 2, end as int));
                }
                let w = ws_run_from(s, i + 2, end);
                proof {
                    assert(t.skip(2 + ws_run_len(t.skip(2)) as int) =~= s@.subrange(
                        i + 2 + w as int,
                        end as int,
                    ));
                }
                unescape_bytes_range(s, i + 2 + w, end)
            } else {
                None
            }
        }
    }
}

/// Checks that every character in `[i, end)` is ASCII.
fn all_ascii_range(s: &Vec<char>, i: usize, end: usize) -> (b: bool)
    requires
        i <= end <= s.len(),
    ensures
        b == ascii_chars(s@.subrange(i as int, end as int)),
{
    let ghost t = s@.subrange(i as int, end as int);
    let mut j: usize = i;
    while j < end
        invariant
            i <= j <= end <= s.len(),
            t == s@.subrange(i as int, end as int),
            forall|q: int| 0 <= q < j - i ==> (#[trigger] t[q] as u32) <= 0x7F,
        decreases end - j,
    {
        if (s[j] as u32) > 0x7F {
            proof {
                assert(t[j - i] == s@[j as int]);
                assert(!((t[j - i] as u32) <= 0x7F));
            }
            return false;
        }
        proof {
            assert(t[j - i] == s@[j as int]);
        }
        j += 1;
    }
    true
}

/// The canonical digest contribution of a literal token with raw text `raw`,
/// following `canon_lit`. `None` means the raw text is not a literal this
/// grammar recognizes.
#[verifier::rlimit(100)]
pub fn canon_literal(raw: &Vec<char>) -> (r: Option<Vec<u8>>)
    ensures
        ({
            let sp = canon_lit(raw@);
            match r {
                Some(v) => sp == Some(v@),
                None => sp is None,
            }
        }),
{
    let n = raw.len();
    if chars_eq_str(raw, "true") || chars_eq_str(raw, "false") {
        Some(encode_chars(raw))
    } else if n > 0 && (raw[0] as u32) >= 0x30 && (raw[0] as u32) <= 0x39 {
        Some(encode_chars(raw))
    } else if n >= 2 && raw[0] == '"' && raw[n - 1] == '"' {
        match unescape_str_range(raw, 1, n - 1) {
            Some(cs) => Some(encode_chars(&cs)),
            None => None,
        }
    } else if n >= 2 && raw[0] == '\'' && raw[n - 1] == '\'' {
        match unescape_str_range(raw, 1, n - 1) {
            Some(cs) => if cs.len() == 1 {
                Some(encode_chars(&cs))
            } else {
                None
            },
            None => None,
        }
    } else if n >= 1 && raw[0] == 'r' {
        let ghost t = raw@.drop_first();
        proof {
            assert(t =~= raw@.subrange(1, n as int));
        }
        let h = hash_run_from(raw, 1, n);
        if n >= 3 && h <= (n - 3) / 2 && raw[1 + h] == '"' && raw[n - 1 - h] == '"' && hashes_after(
            raw,
            n - h,
            n,
        ) {
            proof {
                assert((n - 1) as int >= 2 * (h as int) + 2);
                assert(t[h as int] == raw@[1 + h]);
                assert(t[t.len() - 1 - h] == raw@[n - 1 - h]);
                assert(forall|q: int|
                    t.len() - h <= q < t.len() ==> t[q] == raw@[q + 1]);
                assert(raw_body(t) == Some(t.subrange(h + 1, t.len() - 1 - h)));
                assert(t.subrange(h + 1, t.len() - 1 - h) =~= raw@.subrange(
                    h + 2,
                    n - 1 - h,
                ));
            }
            let body = copy_range(raw, h + 2, n - 1 - h);
            Some(encode_chars(&body))
        } else {
            proof {
                if raw_body(t) is Some {
                    assert(t.len() == n - 1);
                    assert(t.len() >= 2 * (h as int) + 2);
                    assert(n >= 3 && h <= (n - 3) / 2);
                    assert(raw@[1 + h] == t[h as int]);
                    assert(raw@[n - 1 - h] == t[t.len() - 1 - h]);
                    assert(forall|q: int| n - h <= q < n ==> raw@[q] == t[q - 1]);
                    assert(false);
                }
            }
            None
        }
    } else if n >= 3 && raw[0] == 'b' && raw[1] == '\'' && raw[n - 1] == '\'' {
        match unescape_bytes_range(raw, 2, n - 1) {
            Some(bs) => if bs.len() == 1 {
                Some(bs)
            } else {
                None
            },
            None => None,
        }
    } else if n >= 3 && raw[0] == 'b' && raw[1] == '"' && raw[n - 1] == '"' {
        match unescape_bytes_range(raw, 2, n - 1) {
            Some(bs) => Some(bs),
            None => None,
        }
    } else if n >= 2 && raw[0] == 'b' && raw[1] == 'r' {
        let ghost t = raw@.skip(2);
        proof {
            assert(t =~= raw@.subrange(2, n as int));
        }
        let h = hash_run_from(raw, 2, n);
        if n >= 4 && h <= (n - 4) / 2 && raw[2 + h] == '"' && raw[n - 1 - h] == '"' && hashes_after(
            raw,
            n - h,
            n,
        ) {
            proof {
                assert((n - 2) as int >= 2 * (h as int) + 2);
                assert(t[h as int] == raw@[2 + h]);
                assert(t[t.len() - 1 - h] == raw@[n - 1 - h]);
                assert(forall|q: int|
                    t.len() - h <= q < t.len() ==> t[q] == raw@[q + 2]);
                assert(raw_body(t) == Some(t.subrange(h + 1, t.len() - 1 - h)));
                assert(t.subrange(h + 1, t.len() - 1 - h) =~= raw@.subrange(
                    h + 3,
                    n - 1 - h,
                ));
            }
            let body = copy_range(raw, h + 3, n - 1 - h);
            if all_ascii_range(raw, h + 3, n - 1 - h) {
                proof {
                    assert(ascii_chars(body@));
                }
                Some(encode_chars(&body))
            } else {
                None
            }
        } else {
            proof {
                if raw_body(t) is Some {
                    assert(t.len() == n - 2);
                    assert(t.len() >= 2 * (h as int) + 2);
                    assert(n >= 4 && h <= (n - 4) / 2);
                    assert(raw@[2 + h] == t[h as int]);
                    assert(raw@[n - 1 - h] == t[t.len() - 1 - h]);
                    assert(forall|q: int| n - h <= q < n ==> raw@[q] == t[q - 2]);
                    assert(false);
                }
            }
            None
        }
    } else {
        None
    }
}

/// Checks that every character in `[i, end)` is `#`.
fn hashes_after(s: &Vec<char>, i: usize, end: usize) -> (b: bool)
    requires
        i <= end <= s.len(),
    ensures
        b == (forall|q: int| i <= q < end ==> s@[q] == '#'),
{
    let mut j: usize = i;
    while j < end
        invariant
            i <= j <= end <= s.len(),
            forall|q: int| i <= q < j ==> s@[q] == '#',
        decreases end - j,
    {
        if s[j] != '#' {
            return false;
        }
        j += 1;
    }
    true
}

} // verus!

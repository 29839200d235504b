//! The executable recursive-descent parser. Every function returns exactly
//! what the spec functions of `grammar` say, error for error and position
//! for position.

use vstd::prelude::*;
use vstd::slice::slice_to_vec;
use vstd::string::StringSliceAdditionalSpecFns;
use crate::grammar::{
    lemma_sp_members_pos, lemma_sp_value_pos, sp_constructor, sp_document, sp_items, sp_members,
    sp_value,
};
use crate::numbers::{canon_num_of, canonical_number, num_in_range};
use crate::text::{
    COLON, COMMA, D0, D9, LA, LBRACE, LBRACK, LE, LF, LF_HEX, LPAR, LZ, MINUS, PLUS, RBRACE,
    DOT, RBRACK, RPAR, SLASH, TAB, TICK, UA, UB, UD, UE, UF, UN, UND, UT, UZ, all_digits,
    bn_value,
    decimal_value, digits_end, find_from, hex_decode, hex_nibble, is_alpha, is_digit,
    is_number_lexeme, is_space, is_word_byte, lemma_digits_end, lemma_find_from_is,
    lemma_skip_at, lemma_word_end, number_end, skip_at, word_end, CR, SP,
};
use crate::value::{
    DTXTError, DTXTObject, DTXTValue, ErrorSpec, ValueSpec, lemma_view_entries_index,
    lemma_view_values_index, object_insert, spec_insert, view_entries, view_value, view_values,
};

verus! {

/// Relies on `memchr::memchr`: the index of the first occurrence of
/// `needle` in `haystack`, or nothing when the byte does not occur.
pub assume_specification [ memchr::memchr ](needle: u8, haystack: &[u8]) -> (r: Option<usize>)
    ensures
        match r {
            Option::Some(k) => k < haystack@.len() && haystack@[k as int] == needle && forall|
                j: int,
            | 0 <= j < k ==> haystack@[j] != needle,
            Option::None => forall|j: int| 0 <= j < haystack@.len() ==> haystack@[j] != needle,
        },
;

fn is_space_x(b: u8) -> (r: bool)
    ensures
        r == is_space(b),
{
    b == SP || b == TAB || b == CR || b == LF
}

fn is_digit_x(b: u8) -> (r: bool)
    ensures
        r == is_digit(b),
{
    D0 <= b && b <= D9
}

fn is_alpha_x(b: u8) -> (r: bool)
    ensures
        r == is_alpha(b),
{
    (UA <= b && b <= UZ) || (LA <= b && b <= LZ)
}

fn is_word_byte_x(b: u8) -> (r: bool)
    ensures
        r == is_word_byte(b),
{
    is_digit_x(b) || is_alpha_x(b) || b == UND
}

/// Consumes whitespace and `//` line comments from `pos`. The comment scan
/// leans on `memchr` for the next newline.
fn skip_insignificant(s: &[u8], pos: usize) -> (r: usize)
    requires
        pos <= s@.len(),
    ensures
        r == skip_at(s@, pos as int),
        pos <= r <= s@.len(),
{
    let n = s.len();
    let mut i: usize = pos;
    loop
        invariant
            pos <= i <= n,
            n == s@.len(),
            skip_at(s@, pos as int) == skip_at(s@, i as int),
        decreases n - i,
    {
        if i >= n {
            return i;
        }
        let b = s[i];
        if is_space_x(b) {
            i = i + 1;
        } else if b == SLASH && i + 1 < n && s[i + 1] == SLASH {
            let sub = &s[i + 2..n];
            match memchr::memchr(LF, sub) {
                Some(rel) => {
                    proof {
                        assert(forall|j: int|
                            i + 2 <= j < i + 2 + rel ==> s@[j] == sub@[j - (i + 2)]);
                        lemma_find_from_is(s@, i + 2, LF, i + 2 + rel);
                    }
                    i = i + 2 + rel + 1;
                },
                None => {
                    proof {
                        assert(forall|j: int| i + 2 <= j < n ==> s@[j] == sub@[j - (i + 2)]);
                        lemma_find_from_is(s@, i + 2, LF, n as int);
                    }
                    i = n;
                },
            }
        } else {
            return i;
        }
    }
}

/// The end of the run of decimal digits starting at `pos`.
fn scan_digits(s: &[u8], pos: usize) -> (r: usize)
    requires
        pos <= s@.len(),
    ensures
        r == digits_end(s@, pos as int),
        pos <= r <= s@.len(),
{
    let n = s.len();
    let mut i: usize = pos;
    while i < n && is_digit_x(s[i])
        invariant
            pos <= i <= n,
            n == s@.len(),
            digits_end(s@, pos as int) == digits_end(s@, i as int),
        decreases n - i,
    {
        i = i + 1;
    }
    i
}

/// The end of the run of word bytes starting at `pos`.
fn scan_word(s: &[u8], pos: usize) -> (r: usize)
    requires
        pos <= s@.len(),
    ensures
        r == word_end(s@, pos as int),
        pos <= r <= s@.len(),
{
    let n = s.len();
    let mut i: usize = pos;
    while i < n && is_word_byte_x(s[i])
        invariant
            pos <= i <= n,
            n == s@.len(),
            word_end(s@, pos as int) == word_end(s@, i as int),
        decreases n - i,
    {
        i = i + 1;
    }
    i
}

/// An object key at `pos`: the longest run of word bytes, owned. A key
/// may be empty; the grammar does not reject that.
fn parse_key_at(s: &[u8], pos: usize) -> (r: (Vec<u8>, usize))
    requires
        pos <= s@.len(),
    ensures
        r.1 == word_end(s@, pos as int),
        pos <= r.1 <= s@.len(),
        r.0@ == s@.subrange(pos as int, r.1 as int),
{
    let k = scan_word(s, pos);
    (slice_to_vec(&s[pos..k]), k)
}

/// The number lexeme starting at `pos`: its end, and whether it matched the
/// numeric grammar in full.
fn scan_number(s: &[u8], pos: usize) -> (r: (usize, bool))
    requires
        pos < s@.len(),
    ensures
        r.0 as int == number_end(s@, pos as int).0,
        r.1 == number_end(s@, pos as int).1,
        pos <= r.0 <= s@.len(),
{
    let n = s.len();
    let j0 = if s[pos] == MINUS {
        pos + 1
    } else {
        pos
    };
    if j0 >= n || !is_digit_x(s[j0]) {
        return (j0, false);
    }
    proof {
        lemma_digits_end(s@, j0 as int);
    }
    let j1 = if s[j0] == D0 {
        j0 + 1
    } else {
        scan_digits(s, j0)
    };
    let j2 = if j1 < n && s[j1] == DOT {
        if j1 + 1 < n && is_digit_x(s[j1 + 1]) {
            scan_digits(s, j1 + 1)
        } else {
            return (j1 + 1, false);
        }
    } else {
        j1
    };
    if j2 < n && (s[j2] == LE || s[j2] == UE) {
        let j3 = if j2 + 1 < n && (s[j2 + 1] == PLUS || s[j2 + 1] == MINUS) {
            j2 + 2
        } else {
            j2 + 1
        };
        if j3 < n && is_digit_x(s[j3]) {
            (scan_digits(s, j3), true)
        } else {
            (j3, false)
        }
    } else {
        (j2, true)
    }
}

pub proof fn lemma_decimal_value_nonneg(d: Seq<u8>)
    requires
        all_digits(d),
    ensures
        decimal_value(d) >= 0,
    decreases d.len(),
{
    if d.len() > 0 {
        assert(all_digits(d.drop_last())) by {
            assert(forall|j: int| 0 <= j < d.len() - 1 ==> d.drop_last()[j] == d[j]);
        }
        lemma_decimal_value_nonneg(d.drop_last());
        assert(is_digit(d.last()));
    }
}

/// A digit string is worth at least any of its prefixes.
pub proof fn lemma_decimal_value_take(d: Seq<u8>, m: int)
    requires
        all_digits(d),
        0 <= m <= d.len(),
    ensures
        decimal_value(d.take(m)) <= decimal_value(d),
    decreases d.len(),
{
    if m == d.len() {
        assert(d.take(m) =~= d);
    } else {
        let head = d.drop_last();
        assert(all_digits(head)) by {
            assert(forall|j: int| 0 <= j < d.len() - 1 ==> head[j] == d[j]);
        }
        assert(head.take(m) =~= d.take(m));
        lemma_decimal_value_take(head, m);
        lemma_decimal_value_nonneg(head);
        assert(is_digit(d.last()));
    }
}

/// The signed 64-bit integer a `BN` payload denotes, if it denotes one.
fn parse_bn(payload: &[u8]) -> (r: Option<i64>)
    ensures
        match bn_value(payload@) {
            Option::Some(v) => r matches Some(rv) && rv as int == v,
            Option::None => r is None,
        },
{
    let n = payload.len();
    let neg = n > 0 && payload[0] == MINUS;
    let start: usize = if n > 0 && (payload[0] == MINUS || payload[0] == PLUS) {
        1
    } else {
        0
    };
    let ghost d = if payload@.len() > 0 && (payload@[0] == MINUS || payload@[0] == PLUS) {
        payload@.drop_first()
    } else {
        payload@
    };
    proof {
        assert(d =~= payload@.subrange(start as int, n as int));
    }
    if start >= n {
        return None;
    }
    let mut mag: u64 = 0;
    let mut i: usize = start;
    while i < n
        invariant
            start <= i <= n,
            n == payload@.len(),
            start <= 1,
            d == payload@.subrange(start as int, n as int),
            d == (if payload@.len() > 0 && (payload@[0] == MINUS || payload@[0] == PLUS) {
                payload@.drop_first()
            } else {
                payload@
            }),
            mag as int == decimal_value(payload@.subrange(start as int, i as int)),
            all_digits(payload@.subrange(start as int, i as int)),
        decreases n - i,
    {
        let b = payload[i];
        if !is_digit_x(b) {
            proof {
                assert(0 <= i - start < d.len());
                assert(d[i - start] == b);
                assert(!is_digit(d[i - start]));
                assert(!all_digits(d));
            }
            return None;
        }
        let ghost pre = payload@.subrange(start as int, i as int);
        let ghost ext = payload@.subrange(start as int, i + 1 as int);
        proof {
            assert(ext.drop_last() =~= pre);
            assert(ext.last() == b);
            assert(decimal_value(ext) == decimal_value(pre) * 10 + (b - D0));
            assert(all_digits(ext)) by {
                assert(forall|j: int| 0 <= j < ext.len() - 1 ==> ext[j] == pre[j]);
            }
        }
        let step = match mag.checked_mul(10) {
            Some(m) => m.checked_add((b - D0) as u64),
            None => None,
        };
        match step {
            Some(m2) => {
                mag = m2;
            },
            None => {
                proof {
                    assert(mag * 10 + (b - D0) > u64::MAX);
                    assert(decimal_value(ext) > u64::MAX);
                    if all_digits(d) {
                        lemma_decimal_value_take(d, i + 1 - start as int);
                        assert(d.take(i + 1 - start as int) =~= ext);
                        assert(decimal_value(d) > u64::MAX);
                    }
                }
                return None;
            },
        }
        i = i + 1;
    }
    proof {
        assert(payload@.subrange(start as int, n as int) =~= d);
        lemma_decimal_value_nonneg(d);
    }
    if neg {
        if mag <= 9_223_372_036_854_775_807u64 {
            Some(-(mag as i64))
        } else if mag == 9_223_372_036_854_775_808u64 {
            Some(i64::MIN)
        } else {
            None
        }
    } else {
        if mag <= 9_223_372_036_854_775_807u64 {
            Some(mag as i64)
        } else {
            None
        }
    }
}

fn hex_nibble_x(b: u8) -> (r: Option<u8>)
    ensures
        r == hex_nibble(b),
        r matches Some(v) ==> v <= 15,
{
    if D0 <= b && b <= D9 {
        Some(b - D0)
    } else if UA <= b && b <= UF {
        Some(b - UA + 10)
    } else if LA <= b && b <= LF_HEX {
        Some(b - LA + 10)
    } else {
        None
    }
}

/// The bytes a `B` payload denotes, if it denotes any.
fn decode_hex(payload: &[u8]) -> (r: Option<Vec<u8>>)
    ensures
        match hex_decode(payload@) {
            Option::Some(bs) => r matches Some(v) && v@ == bs,
            Option::None => r is None,
        },
    decreases payload@.len(),
{
    let n = payload.len();
    if n == 0 {
        return Some(Vec::new());
    }
    if n == 1 {
        return None;
    }
    let hi = hex_nibble_x(payload[0]);
    let lo = hex_nibble_x(payload[1]);
    match (hi, lo) {
        (Some(h), Some(l)) => {
            let rest_slice = &payload[2..n];
            proof {
                assert(rest_slice@ =~= payload@.subrange(2, n as int));
            }
            match decode_hex(rest_slice) {
                Some(mut rest) => {
                    let byte: u8 = h * 16 + l;
                    rest.insert(0, byte);
                    proof {
                        assert(rest@ =~= seq![byte] + rest@.subrange(1, rest@.len() as int));
                        assert(rest@.subrange(1, rest@.len() as int) =~= hex_decode(
                            payload@.subrange(2, n as int),
                        )->0);
                    }
                    Some(rest)
                },
                None => None,
            }
        },
        _ => None,
    }
}

/// Whether the executable step `r` returned just what the spec step `sp`
/// says: the same tree and end position, or the same error.
pub open spec fn step_matches(sp: crate::grammar::StepSpec, r: (
    Result<DTXTValue, DTXTError>,
    usize,
)) -> bool {
    match sp {
        Ok((v, p)) => r.0 matches Ok(rv) && rv@ == v && r.1 as int == p,
        Err(e) => r.0 matches Err(re) && re@ == e,
    }
}

/// A backtick string starting at `pos` (which holds the opening backtick):
/// everything up to the next backtick, verbatim.
fn parse_string_at(s: &[u8], pos: usize) -> (r: (Result<DTXTValue, DTXTError>, usize))
    requires
        pos < s@.len(),
        s@[pos as int] == TICK,
    ensures
        ({
            let e = find_from(s@, pos as int + 1, TICK);
            if e >= s@.len() {
                r.0 matches Err(re) && re@ == ErrorSpec::UnexpectedEOF
            } else {
                r.0 matches Ok(v) && v@ == ValueSpec::Str(s@.subrange(pos as int + 1, e)) && r.1
                    as int == e + 1
            }
        }),
{
    let n = s.len();
    let sub = &s[pos + 1..n];
    match memchr::memchr(TICK, sub) {
        Some(rel) => {
            proof {
                assert(forall|j: int|
                    pos + 1 <= j < pos + 1 + rel ==> s@[j] == sub@[j - (pos + 1)]);
                lemma_find_from_is(s@, pos as int + 1, TICK, pos + 1 + rel);
            }
            let e = pos + 1 + rel;
            (Ok(DTXTValue::Str(slice_to_vec(&s[pos + 1..e]))), e + 1)
        },
        None => {
            proof {
                assert(forall|j: int| pos + 1 <= j < n ==> s@[j] == sub@[j - (pos + 1)]);
                lemma_find_from_is(s@, pos as int + 1, TICK, n as int);
            }
            (Err(DTXTError::UnexpectedEOF), pos)
        },
    }
}

/// A number starting at `pos`: the lexeme is matched byte by byte, then
/// handed to the outside converter for its canonical text.
fn parse_number_at(s: &[u8], pos: usize) -> (r: (Result<DTXTValue, DTXTError>, usize))
    requires
        pos < s@.len(),
    ensures
        ({
            let sc = number_end(s@, pos as int);
            let lex = s@.subrange(pos as int, sc.0);
            if !sc.1 {
                r.0 matches Err(re) && re@ == ErrorSpec::InvalidNumber(lex)
            } else if is_number_lexeme(lex) && num_in_range(lex) {
                r.0 matches Ok(v) && v@ == ValueSpec::Number(canon_num_of(lex)) && r.1 as int
                    == sc.0
            } else {
                r.0 matches Err(re) && re@ == ErrorSpec::InvalidNumber(lex)
            }
        }),
{
    let (end, ok) = scan_number(s, pos);
    let lexeme = &s[pos..end];
    if !ok {
        return (Err(DTXTError::InvalidNumber(slice_to_vec(lexeme))), end);
    }
    proof {
        crate::text::lemma_number_end_edges(s@, pos as int);
        assert(lexeme@.len() > 0);
        assert(lexeme@[0] == s@[pos as int]);
        assert(lexeme@[lexeme@.len() - 1] == s@[end - 1]);
        assert(!is_space(lexeme@[0]));
        assert(!is_space(lexeme@[lexeme@.len() - 1]));
    }
    match canonical_number(lexeme) {
        Some(c) => (Ok(DTXTValue::Number(c)), end),
        None => (Err(DTXTError::InvalidNumber(slice_to_vec(lexeme))), end),
    }
}

/// A constructor form starting at `pos`: an identifier, `(`, a payload up
/// to the first `)`.
fn parse_constructor_at(s: &[u8], pos: usize) -> (r: (Result<DTXTValue, DTXTError>, usize))
    requires
        pos <= s@.len(),
    ensures
        step_matches(sp_constructor(s@, pos as int), r),
{
    let n = s.len();
    let k = scan_word(s, pos);
    if k >= n || s[k] != LPAR {
        return (Err(DTXTError::InvalidConstructor(slice_to_vec(&s[pos..k]))), k);
    }
    let sub = &s[k + 1..n];
    match memchr::memchr(RPAR, sub) {
        None => {
            proof {
                assert(forall|j: int| k + 1 <= j < n ==> s@[j] == sub@[j - (k + 1)]);
                lemma_find_from_is(s@, k as int + 1, RPAR, n as int);
            }
            (Err(DTXTError::UnexpectedEOF), k)
        },
        Some(rel) => {
            proof {
                assert(forall|j: int| k + 1 <= j < k + 1 + rel ==> s@[j] == sub@[j - (k + 1)]);
                lemma_find_from_is(s@, k as int + 1, RPAR, k + 1 + rel);
            }
            let e = k + 1 + rel;
            let payload = &s[k + 1..e];
            let name_len = k - pos;
            if name_len == 1 && s[pos] == UD {
                proof {
                    assert(s@.subrange(pos as int, k as int) =~= seq![UD]);
                }
                (Ok(DTXTValue::Date(slice_to_vec(payload))), e + 1)
            } else if name_len == 2 && s[pos] == UB && s[pos + 1] == UN {
                proof {
                    assert(s@.subrange(pos as int, k as int) =~= seq![UB, UN]);
                    assert(s@.subrange(pos as int, k as int) != seq![UD]);
                }
                match parse_bn(payload) {
                    Some(num) => (Ok(DTXTValue::BigInt(num)), e + 1),
                    None => {
                        let mut msg: Vec<u8> = Vec::new();
                        msg.push(UB);
                        msg.push(UN);
                        msg.push(LPAR);
                        msg.extend_from_slice(payload);
                        msg.push(RPAR);
                        proof {
                            assert(msg@ =~= seq![UB, UN, LPAR] + payload@ + seq![RPAR]);
                        }
                        (Err(DTXTError::InvalidConstructor(msg)), e + 1)
                    },
                }
            } else if name_len == 1 && s[pos] == UB {
                proof {
                    let name = s@.subrange(pos as int, k as int);
                    assert(name =~= seq![UB]);
                    assert(name != seq![UD]) by {
                        assert(name[0] == UB);
                        assert(seq![UD][0] == UD);
                    }
                    assert(name != seq![UB, UN]);
                }
                match decode_hex(payload) {
                    Some(bytes) => (Ok(DTXTValue::Bytes(bytes)), e + 1),
                    None => {
                        let mut msg: Vec<u8> = Vec::new();
                        msg.push(UB);
                        msg.push(LPAR);
                        msg.extend_from_slice(payload);
                        msg.push(RPAR);
                        proof {
                            assert(msg@ =~= seq![UB, LPAR] + payload@ + seq![RPAR]);
                        }
                        (Err(DTXTError::InvalidConstructor(msg)), e + 1)
                    },
                }
            } else {
                proof {
                    let name = s@.subrange(pos as int, k as int);
                    assert(name.len() == k - pos);
                    assert(name != seq![UD]) by {
                        if name == seq![UD] {
                            assert(name[0] == seq![UD][0]);
                            assert(s@[pos as int] == UD);
                        }
                    }
                    assert(name != seq![UB, UN]) by {
                        if name == seq![UB, UN] {
                            assert(name[0] == seq![UB, UN][0]);
                            assert(name[1] == seq![UB, UN][1]);
                            assert(s@[pos as int] == UB && s@[pos as int + 1] == UN);
                        }
                    }
                    assert(name != seq![UB]) by {
                        if name == seq![UB] {
                            assert(name[0] == seq![UB][0]);
                            assert(s@[pos as int] == UB);
                        }
                    }
                }
                (Err(DTXTError::InvalidConstructor(slice_to_vec(&s[pos..k]))), k)
            }
        },
    }
}

/// An object whose `{` stands at `pos`: members folded by sorted last-wins
/// insertion, to the closing `}`.
fn parse_object_at(s: &[u8], pos: usize) -> (r: (Result<DTXTObject, DTXTError>, usize))
    requires
        pos < s@.len(),
        s@[pos as int] == LBRACE,
    ensures
        ({
            let sp = sp_members(s@, skip_at(s@, pos as int + 1), Seq::<(Seq<u8>, ValueSpec)>::empty());
            match sp {
                Ok((entries, p)) => r.0 matches Ok(o) && view_entries(o@) == entries && r.1 as int
                    == p,
                Err(e) => r.0 matches Err(re) && re@ == e,
            }
        }),
    decreases s@.len() - pos, 0int,
{
    let n = s.len();
    let mut entries: DTXTObject = Vec::new();
    let mut i = skip_insignificant(s, pos + 1);
    let ghost start = i as int;
    proof {
        assert(view_entries(entries@) =~= Seq::<(Seq<u8>, ValueSpec)>::empty());
    }
    loop
        invariant
            pos + 1 <= i <= n,
            n == s@.len(),
            pos < n,
            s@[pos as int] == LBRACE,
            start == skip_at(s@, pos as int + 1),
            sp_members(s@, start, Seq::<(Seq<u8>, ValueSpec)>::empty()) == sp_members(
                s@,
                i as int,
                view_entries(entries@),
            ),
        decreases n - i,
    {
        if i >= n {
            return (Err(DTXTError::UnexpectedEOF), i);
        }
        if s[i] == RBRACE {
            return (Ok(entries), i + 1);
        }
        let (key, k) = parse_key_at(s, i);
        let m = skip_insignificant(s, k);
        if m >= n {
            return (Err(DTXTError::UnexpectedEOF), m);
        }
        if s[m] != COLON {
            let c = s[m];
            proof {
                assert(((c as char) as u8) == c);
            }
            return (Err(DTXTError::UnexpectedChar(m, c as char)), m);
        }
        let (vres, p) = parse_value_at(s, m + 1);
        proof {
            lemma_sp_value_pos(s@, m as int + 1);
        }
        match vres {
            Err(e) => {
                return (Err(e), p);
            },
            Ok(v) => {
                let ghost acc_old = view_entries(entries@);
                let ghost key_view = key@;
                let ghost v_view = v@;
                object_insert(&mut entries, key, v);
                let q = skip_insignificant(s, p);
                let next = if q < n && s[q] == COMMA {
                    skip_insignificant(s, q + 1)
                } else {
                    q
                };
                proof {
                    assert(view_entries(entries@) == spec_insert(acc_old, key_view, v_view));
                }
                i = next;
            },
        }
    }
}

/// An array whose `[` stands at `pos`: elements in order, to the closing
/// `]`.
fn parse_array_at(s: &[u8], pos: usize) -> (r: (Result<Vec<DTXTValue>, DTXTError>, usize))
    requires
        pos < s@.len(),
        s@[pos as int] == LBRACK,
    ensures
        ({
            let sp = sp_items(s@, skip_at(s@, pos as int + 1), Seq::<ValueSpec>::empty());
            match sp {
                Ok((items, p)) => r.0 matches Ok(o) && view_values(o@) == items && r.1 as int == p,
                Err(e) => r.0 matches Err(re) && re@ == e,
            }
        }),
    decreases s@.len() - pos, 0int,
{
    let n = s.len();
    let mut items: Vec<DTXTValue> = Vec::new();
    let mut i = skip_insignificant(s, pos + 1);
    let ghost start = i as int;
    proof {
        assert(view_values(items@) =~= Seq::<ValueSpec>::empty());
    }
    loop
        invariant
            pos + 1 <= i <= n,
            n == s@.len(),
            pos < n,
            s@[pos as int] == LBRACK,
            start == skip_at(s@, pos as int + 1),
            sp_items(s@, start, Seq::<ValueSpec>::empty()) == sp_items(
                s@,
                i as int,
                view_values(items@),
            ),
        decreases n - i,
    {
        if i >= n {
            return (Err(DTXTError::UnexpectedEOF), i);
        }
        if s[i] == RBRACK {
            return (Ok(items), i + 1);
        }
        let (vres, p) = parse_value_at(s, i);
        proof {
            lemma_sp_value_pos(s@, i as int);
        }
        match vres {
            Err(e) => {
                return (Err(e), p);
            },
            Ok(v) => {
                let ghost acc_old = view_values(items@);
                let ghost v_view = v@;
                proof {
                    crate::value::lemma_view_values_push(items@, v);
                }
                items.push(v);
                let q = skip_insignificant(s, p);
                let next = if q < n && s[q] == COMMA {
                    skip_insignificant(s, q + 1)
                } else {
                    q
                };
                proof {
                    assert(view_values(items@) == acc_old.push(v_view));
                }
                i = next;
            },
        }
    }
}

/// One value starting at `pos`: insignificant bytes are skipped, then the
/// first byte decides the production, as the grammar says.
fn parse_value_at(s: &[u8], pos: usize) -> (r: (Result<DTXTValue, DTXTError>, usize))
    requires
        pos <= s@.len(),
    ensures
        step_matches(sp_value(s@, pos as int), r),
    decreases s@.len() - pos, 1int,
{
    let n = s.len();
    let j = skip_insignificant(s, pos);
    if j >= n {
        return (Err(DTXTError::UnexpectedEOF), j);
    }
    let b = s[j];
    if b == LBRACE {
        proof {
            lemma_skip_at(s@, j as int + 1);
        }
        let (res, p) = parse_object_at(s, j);
        match res {
            Ok(entries) => (Ok(DTXTValue::Object(entries)), p),
            Err(e) => (Err(e), p),
        }
    } else if b == LBRACK {
        proof {
            lemma_skip_at(s@, j as int + 1);
        }
        let (res, p) = parse_array_at(s, j);
        match res {
            Ok(items) => (Ok(DTXTValue::Array(items)), p),
            Err(e) => (Err(e), p),
        }
    } else if b == TICK {
        parse_string_at(s, j)
    } else if b == MINUS || is_digit_x(b) {
        parse_number_at(s, j)
    } else if b == UT && !(j + 1 < n && s[j + 1] == LPAR) {
        (Ok(DTXTValue::Bool(true)), j + 1)
    } else if b == UF && !(j + 1 < n && s[j + 1] == LPAR) {
        (Ok(DTXTValue::Bool(false)), j + 1)
    } else if b == UN && !(j + 1 < n && s[j + 1] == LPAR) {
        (Ok(DTXTValue::Null), j + 1)
    } else if is_alpha_x(b) || b == UND {
        parse_constructor_at(s, j)
    } else {
        proof {
            assert(((b as char) as u8) == b);
        }
        (Err(DTXTError::UnexpectedChar(j, b as char)), j)
    }
}

/// A whole document starting at `pos`: one object, then only insignificant
/// bytes to the end of the input. On success the returned position is the
/// input's length.
fn parse_document_at(s: &[u8], pos: usize) -> (r: (Result<DTXTObject, DTXTError>, usize))
    requires
        pos <= s@.len(),
    ensures
        ({
            match sp_document(s@, pos as int) {
                Ok(entries) => r.0 matches Ok(o) && view_entries(o@) == entries && r.1 == s@.len(),
                Err(e) => r.0 matches Err(re) && re@ == e,
            }
        }),
{
    let n = s.len();
    let j = skip_insignificant(s, pos);
    if j >= n {
        return (Err(DTXTError::UnexpectedEOF), j);
    }
    if s[j] != LBRACE {
        let c = s[j];
        proof {
            assert(((c as char) as u8) == c);
        }
        return (Err(DTXTError::UnexpectedChar(j, c as char)), j);
    }
    proof {
        lemma_skip_at(s@, j as int + 1);
    }
    let (res, p) = parse_object_at(s, j);
    match res {
        Err(e) => (Err(e), p),
        Ok(entries) => {
            proof {
                lemma_sp_members_pos(s@, skip_at(s@, j as int + 1), Seq::<(Seq<u8>, ValueSpec)>::empty());
            }
            let q = skip_insignificant(s, p);
            if q < n {
                (Err(DTXTError::TrailingData(q)), q)
            } else {
                (Ok(entries), q)
            }
        },
    }
}

/// Parses one DTXT document: exactly one object, then optional
/// insignificant bytes. The entries come back sorted by key, each key held
/// once, the last occurrence in source order having won.
pub fn parse(input: &str) -> (r: Result<DTXTObject, DTXTError>)
    ensures
        match sp_document(input.spec_bytes(), 0) {
            Ok(entries) => r matches Ok(o) && view_entries(o@) == entries,
            Err(e) => r matches Err(re) && re@ == e,
        },
{
    let bytes = input.as_bytes();
    let (res, _) = parse_document_at(bytes, 0);
    res
}

/// A parser over one input buffer. The buffer must outlive the parser; the
/// values handed out are owned copies.
pub struct DTXTParser<'a> {
    input: &'a [u8],
    pos: usize,
}

impl<'a> DTXTParser<'a> {
    /// The bytes being parsed.
    pub closed spec fn input_bytes(&self) -> Seq<u8> {
        self.input@
    }

    /// The cursor's position.
    pub closed spec fn position(&self) -> int {
        self.pos as int
    }

    pub fn new(input: &'a str) -> (r: Self)
        ensures
            r.input_bytes() == input.spec_bytes(),
            r.position() == 0,
    {
        DTXTParser { input: input.as_bytes(), pos: 0 }
    }

    /// Parses the document from the cursor on; on success the cursor rests
    /// at the end of the input.
    pub fn parse(&mut self) -> (r: Result<DTXTObject, DTXTError>)
        requires
            old(self).position() <= old(self).input_bytes().len(),
        ensures
            final (self).input_bytes() == old(self).input_bytes(),
            match sp_document(old(self).input_bytes(), old(self).position()) {
                Ok(entries) => r matches Ok(o) && view_entries(o@) == entries
                    && final (self).position() == old(self).input_bytes().len(),
                Err(e) => r matches Err(re) && re@ == e,
            },
    {
        let (res, p) = parse_document_at(self.input, self.pos);
        match res {
            Ok(o) => {
                self.pos = p;
                Ok(o)
            },
            Err(e) => Err(e),
        }
    }
}

} // verus!


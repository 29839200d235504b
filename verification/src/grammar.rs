//! The grammar, as one recursive-descent specification over byte sequences.
//! The executable parser is proved to return exactly what these functions
//! say, error for error and position for position.

use vstd::prelude::*;
use crate::numbers::{canon_num_of, num_in_range};
use crate::text::{
    COLON, COMMA, LBRACE, LBRACK, LPAR, MINUS, RBRACE, RBRACK, RPAR, TICK, UB, UD, UF, UN, UND,
    UT, bn_value, find_from, hex_decode, is_alpha, is_digit, is_number_lexeme, lemma_find_from,
    lemma_number_end, lemma_skip_at, lemma_word_end, number_end, skip_at, word_end,
};
use crate::value::{ErrorSpec, ValueSpec, spec_insert};

verus! {

/// One parsed value and the position just after it, or the error the parse
/// ends in.
pub type StepSpec = Result<(ValueSpec, int), ErrorSpec>;

/// The constructor form `Ident ( payload )` at position `j`, which must hold
/// a word byte. Only `D`, `BN` and `B` are defined; anything else, a missing
/// `(`, or a bad payload is an `InvalidConstructor`.
pub open spec fn sp_constructor(s: Seq<u8>, j: int) -> StepSpec {
    let k = word_end(s, j);
    let name = s.subrange(j, k);
    if k >= s.len() || s[k] != LPAR {
        Err(ErrorSpec::InvalidConstructor(name))
    } else {
        let e = find_from(s, k + 1, RPAR);
        if e >= s.len() {
            Err(ErrorSpec::UnexpectedEOF)
        } else {
            let payload = s.subrange(k + 1, e);
            if name == seq![UD] {
                Ok((ValueSpec::Date(payload), e + 1))
            } else if name == seq![UB, UN] {
                match bn_value(payload) {
                    Option::Some(n) => Ok((ValueSpec::BigInt(n), e + 1)),
                    Option::None => Err(
                        ErrorSpec::InvalidConstructor(seq![UB, UN, LPAR] + payload + seq![RPAR]),
                    ),
                }
            } else if name == seq![UB] {
                match hex_decode(payload) {
                    Option::Some(bs) => Ok((ValueSpec::Bytes(bs), e + 1)),
                    Option::None => Err(
                        ErrorSpec::InvalidConstructor(seq![UB, LPAR] + payload + seq![RPAR]),
                    ),
                }
            } else {
                Err(ErrorSpec::InvalidConstructor(name))
            }
        }
    }
}

/// One value at position `i`: insignificant bytes are skipped, then the
/// first byte decides the production. The impossible-position branches
/// (`j < i` and the like) never hold — `lemma_sp_value_pos` shows positions
/// only move forward — and stand only to ground the recursion.
pub open spec fn sp_value(s: Seq<u8>, i: int) -> StepSpec
    decreases s.len() - i, 0int,
{
    let j = skip_at(s, i);
    if j < i || j >= s.len() {
        Err(ErrorSpec::UnexpectedEOF)
    } else {
        let b = s[j];
        if b == LBRACE {
            let p0 = skip_at(s, j + 1);
            if p0 < j + 1 || p0 > s.len() {
                Err(ErrorSpec::UnexpectedEOF)
            } else {
                match sp_members(s, p0, Seq::empty()) {
                    Ok((entries, p)) => Ok((ValueSpec::Object(entries), p)),
                    Err(e) => Err(e),
                }
            }
        } else if b == LBRACK {
            let p0 = skip_at(s, j + 1);
            if p0 < j + 1 || p0 > s.len() {
                Err(ErrorSpec::UnexpectedEOF)
            } else {
                match sp_items(s, p0, Seq::empty()) {
                    Ok((items, p)) => Ok((ValueSpec::Array(items), p)),
                    Err(e) => Err(e),
                }
            }
        } else if b == TICK {
            let e = find_from(s, j + 1, TICK);
            if e >= s.len() {
                Err(ErrorSpec::UnexpectedEOF)
            } else {
                Ok((ValueSpec::Str(s.subrange(j + 1, e)), e + 1))
            }
        } else if b == MINUS || is_digit(b) {
            let r = number_end(s, j);
            if !r.1 {
                Err(ErrorSpec::InvalidNumber(s.subrange(j, r.0)))
            } else {
                let lexeme = s.subrange(j, r.0);
                if is_number_lexeme(lexeme) && num_in_range(lexeme) {
                    Ok((ValueSpec::Number(canon_num_of(lexeme)), r.0))
                } else {
                    Err(ErrorSpec::InvalidNumber(lexeme))
                }
            }
        } else if b == UT && !(j + 1 < s.len() && s[j + 1] == LPAR) {
            Ok((ValueSpec::Bool(true), j + 1))
        } else if b == UF && !(j + 1 < s.len() && s[j + 1] == LPAR) {
            Ok((ValueSpec::Bool(false), j + 1))
        } else if b == UN && !(j + 1 < s.len() && s[j + 1] == LPAR) {
            Ok((ValueSpec::Null, j + 1))
        } else if is_alpha(b) || b == UND {
            sp_constructor(s, j)
        } else {
            Err(ErrorSpec::UnexpectedChar(j, b))
        }
    }
}

/// The members of an object from position `i` (already past insignificant
/// bytes) to the closing `}`, folded into `acc` by sorted last-wins
/// insertion. A member is a word-byte key (possibly empty), `:`, a value,
/// then one optional `,`.
pub open spec fn sp_members(s: Seq<u8>, i: int, acc: Seq<(Seq<u8>, ValueSpec)>) -> Result<
    (Seq<(Seq<u8>, ValueSpec)>, int),
    ErrorSpec,
>
    decreases s.len() - i, 0int,
{
    if i < 0 || i >= s.len() {
        Err(ErrorSpec::UnexpectedEOF)
    } else if s[i] == RBRACE {
        Ok((acc, i + 1))
    } else {
        let k = word_end(s, i);
        let key = s.subrange(i, k);
        let m = skip_at(s, k);
        if m < i || m >= s.len() {
            Err(ErrorSpec::UnexpectedEOF)
        } else if s[m] != COLON {
            Err(ErrorSpec::UnexpectedChar(m, s[m]))
        } else {
            match sp_value(s, m + 1) {
                Err(e) => Err(e),
                Ok((v, p)) => {
                    let acc2 = spec_insert(acc, key, v);
                    let q = skip_at(s, p);
                    let r = if q < s.len() && s[q] == COMMA {
                        skip_at(s, q + 1)
                    } else {
                        q
                    };
                    if r <= i || r > s.len() {
                        Err(ErrorSpec::UnexpectedEOF)
                    } else {
                        sp_members(s, r, acc2)
                    }
                },
            }
        }
    }
}

/// The elements of an array from position `i` (already past insignificant
/// bytes) to the closing `]`, in order, each followed by one optional `,`.
pub open spec fn sp_items(s: Seq<u8>, i: int, acc: Seq<ValueSpec>) -> Result<
    (Seq<ValueSpec>, int),
    ErrorSpec,
>
    decreases s.len() - i, 1int,
{
    if i < 0 || i >= s.len() {
        Err(ErrorSpec::UnexpectedEOF)
    } else if s[i] == RBRACK {
        Ok((acc, i + 1))
    } else {
        match sp_value(s, i) {
            Err(e) => Err(e),
            Ok((v, p)) => {
                let q = skip_at(s, p);
                let r = if q < s.len() && s[q] == COMMA {
                    skip_at(s, q + 1)
                } else {
                    q
                };
                if r <= i || r > s.len() {
                    Err(ErrorSpec::UnexpectedEOF)
                } else {
                    sp_items(s, r, acc.push(v))
                }
            },
        }
    }
}

/// A whole document from position `i`: one object, then only insignificant
/// bytes to the end of the input. Anything else after the object is
/// `TrailingData` at its position.
pub open spec fn sp_document(s: Seq<u8>, i: int) -> Result<
    Seq<(Seq<u8>, ValueSpec)>,
    ErrorSpec,
> {
    let j = skip_at(s, i);
    if j < i || j >= s.len() {
        Err(ErrorSpec::UnexpectedEOF)
    } else if s[j] != LBRACE {
        Err(ErrorSpec::UnexpectedChar(j, s[j]))
    } else {
        let p0 = skip_at(s, j + 1);
        if p0 < j + 1 || p0 > s.len() {
            Err(ErrorSpec::UnexpectedEOF)
        } else {
            match sp_members(s, p0, Seq::empty()) {
                Ok((entries, p)) => {
                    let q = skip_at(s, p);
                    if q < s.len() {
                        Err(ErrorSpec::TrailingData(q))
                    } else {
                        Ok(entries)
                    }
                },
                Err(e) => Err(e),
            }
        }
    }
}

/// Positions only move forward: a parsed value ends strictly after it
/// began, and within the input.
pub proof fn lemma_sp_value_pos(s: Seq<u8>, i: int)
    requires
        0 <= i <= s.len(),
    ensures
        sp_value(s, i) matches Ok((v, p)) ==> i < p <= s.len(),
    decreases s.len() - i, 0int,
{
    lemma_skip_at(s, i);
    let j = skip_at(s, i);
    if !(j < i || j >= s.len()) {
        let b = s[j];
        if b == LBRACE || b == LBRACK {
            lemma_skip_at(s, j + 1);
            let p0 = skip_at(s, j + 1);
            if !(p0 < j + 1 || p0 > s.len()) {
                if b == LBRACE {
                    lemma_sp_members_pos(s, p0, Seq::empty());
                } else {
                    lemma_sp_items_pos(s, p0, Seq::empty());
                }
            }
        } else if b == TICK {
            lemma_find_from(s, j + 1, TICK);
        } else if b == MINUS || is_digit(b) {
            lemma_number_end(s, j);
        } else if is_alpha(b) || b == UND {
            lemma_word_end(s, j);
            let k = word_end(s, j);
            if !(k >= s.len() || s[k] != LPAR) {
                lemma_find_from(s, k + 1, RPAR);
            }
        }
    }
}

pub proof fn lemma_sp_members_pos(s: Seq<u8>, i: int, acc: Seq<(Seq<u8>, ValueSpec)>)
    requires
        0 <= i <= s.len(),
    ensures
        sp_members(s, i, acc) matches Ok((entries, p)) ==> i < p <= s.len(),
    decreases s.len() - i, 0int,
{
    if !(i < 0 || i >= s.len()) && s[i] != RBRACE {
        lemma_word_end(s, i);
        let k = word_end(s, i);
        lemma_skip_at(s, k);
        let m = skip_at(s, k);
        if !(m < i || m >= s.len()) && s[m] == COLON {
            lemma_sp_value_pos(s, m + 1);
            match sp_value(s, m + 1) {
                Err(_) => {},
                Ok((v, p)) => {
                    let acc2 = spec_insert(acc, s.subrange(i, k), v);
                    lemma_skip_at(s, p);
                    let q = skip_at(s, p);
                    if q < s.len() && s[q] == COMMA {
                        lemma_skip_at(s, q + 1);
                    }
                    let r = if q < s.len() && s[q] == COMMA {
                        skip_at(s, q + 1)
                    } else {
                        q
                    };
                    if !(r <= i || r > s.len()) {
                        lemma_sp_members_pos(s, r, acc2);
                    }
                },
            }
        }
    }
}

pub proof fn lemma_sp_items_pos(s: Seq<u8>, i: int, acc: Seq<ValueSpec>)
    requires
        0 <= i <= s.len(),
    ensures
        sp_items(s, i, acc) matches Ok((items, p)) ==> i < p <= s.len(),
    decreases s.len() - i, 1int,
{
    if !(i < 0 || i >= s.len()) && s[i] != RBRACK {
        lemma_sp_value_pos(s, i);
        match sp_value(s, i) {
            Err(_) => {},
            Ok((v, p)) => {
                lemma_skip_at(s, p);
                let q = skip_at(s, p);
                if q < s.len() && s[q] == COMMA {
                    lemma_skip_at(s, q + 1);
                }
                let r = if q < s.len() && s[q] == COMMA {
                    skip_at(s, q + 1)
                } else {
                    q
                };
                if !(r <= i || r > s.len()) {
                    lemma_sp_items_pos(s, r, acc.push(v));
                }
            },
        }
    }
}

} // verus!

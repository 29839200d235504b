//! Byte-level scanning: character classes, whitespace and comment skipping,
//! and the lexemes of the grammar (numbers, identifiers, hex and decimal
//! payloads), all as spec functions over byte sequences, with the lemmas
//! that characterize them.

use vstd::prelude::*;

verus! {

// Byte values of the characters the grammar speaks of.
pub const SP: u8 = 32;

pub const TAB: u8 = 9;

pub const CR: u8 = 13;

pub const LF: u8 = 10;

pub const SLASH: u8 = 47;

pub const MINUS: u8 = 45;

pub const PLUS: u8 = 43;

pub const DOT: u8 = 46;

pub const D0: u8 = 48;

pub const D9: u8 = 57;

/// `e`
pub const LE: u8 = 101;

/// `E`
pub const UE: u8 = 69;

/// `A`
pub const UA: u8 = 65;

/// `B`
pub const UB: u8 = 66;

/// `D`
pub const UD: u8 = 68;

/// `F`
pub const UF: u8 = 70;

/// `N`
pub const UN: u8 = 78;

/// `T`
pub const UT: u8 = 84;

/// `Z`
pub const UZ: u8 = 90;

/// `a`
pub const LA: u8 = 97;

/// `f`
pub const LF_HEX: u8 = 102;

/// `z`
pub const LZ: u8 = 122;

/// `_`
pub const UND: u8 = 95;

/// `{`
pub const LBRACE: u8 = 123;

/// `}`
pub const RBRACE: u8 = 125;

/// `[`
pub const LBRACK: u8 = 91;

/// `]`
pub const RBRACK: u8 = 93;

/// The backtick string delimiter.
pub const TICK: u8 = 96;

pub const COLON: u8 = 58;

pub const COMMA: u8 = 44;

/// `(`
pub const LPAR: u8 = 40;

/// `)`
pub const RPAR: u8 = 41;

/// The bytes the format treats as insignificant between tokens.
pub open spec fn is_space(b: u8) -> bool {
    b == SP || b == TAB || b == CR || b == LF
}

pub open spec fn is_digit(b: u8) -> bool {
    D0 <= b && b <= D9
}

pub open spec fn is_alpha(b: u8) -> bool {
    (UA <= b && b <= UZ) || (LA <= b && b <= LZ)
}

/// Whether a byte may appear in an object key or a constructor identifier.
pub open spec fn is_word_byte(b: u8) -> bool {
    is_digit(b) || is_alpha(b) || b == UND
}

/// The first position at or after `i` holding byte `b`, or the input's length
/// if none does.
pub open spec fn find_from(s: Seq<u8>, i: int, b: u8) -> int
    decreases s.len() - i,
    when 0 <= i <= s.len()
{
    if i >= s.len() {
        s.len() as int
    } else if s[i] == b {
        i
    } else {
        find_from(s, i + 1, b)
    }
}

/// The first position at or after `i` whose byte is not a decimal digit.
pub open spec fn digits_end(s: Seq<u8>, i: int) -> int
    decreases s.len() - i,
    when 0 <= i <= s.len()
{
    if i < s.len() && is_digit(s[i]) {
        digits_end(s, i + 1)
    } else {
        i
    }
}

/// The first position at or after `i` whose byte is not a word byte.
pub open spec fn word_end(s: Seq<u8>, i: int) -> int
    decreases s.len() - i,
    when 0 <= i <= s.len()
{
    if i < s.len() && is_word_byte(s[i]) {
        word_end(s, i + 1)
    } else {
        i
    }
}

/// The position after every run of whitespace and every `//` line comment
/// starting at `i` has been consumed. A comment runs through the next
/// newline, or to the end of the input if none follows.
pub open spec fn skip_at(s: Seq<u8>, i: int) -> int
    decreases s.len() - i,
    when 0 <= i <= s.len()
{
    if i >= s.len() {
        i
    } else if is_space(s[i]) {
        skip_at(s, i + 1)
    } else if s[i] == SLASH && i + 1 < s.len() && s[i + 1] == SLASH {
        let k = find_from(s, i + 2, LF);
        let next = if k < i + 2 {
            i + 2
        } else if k >= s.len() {
            s.len() as int
        } else {
            k + 1
        };
        skip_at(s, next)
    } else {
        i
    }
}

pub proof fn lemma_find_from(s: Seq<u8>, i: int, b: u8)
    requires
        0 <= i <= s.len(),
    ensures
        i <= find_from(s, i, b) <= s.len(),
        find_from(s, i, b) < s.len() ==> s[find_from(s, i, b)] == b,
        forall|j: int| i <= j < find_from(s, i, b) ==> s[j] != b,
    decreases s.len() - i,
{
    if i < s.len() && s[i] != b {
        lemma_find_from(s, i + 1, b);
    }
}

/// The first occurrence pinned down: a position before which `b` does not
/// occur, and which holds `b` unless it is the end, is the find.
pub proof fn lemma_find_from_is(s: Seq<u8>, i: int, b: u8, x: int)
    requires
        0 <= i <= x <= s.len(),
        forall|j: int| i <= j < x ==> s[j] != b,
        x < s.len() ==> s[x] == b,
    ensures
        find_from(s, i, b) == x,
    decreases x - i,
{
    if i < x {
        lemma_find_from_is(s, i + 1, b, x);
    }
}

pub proof fn lemma_digits_end(s: Seq<u8>, i: int)
    requires
        0 <= i <= s.len(),
    ensures
        i <= digits_end(s, i) <= s.len(),
        digits_end(s, i) < s.len() ==> !is_digit(s[digits_end(s, i)]),
        forall|j: int| i <= j < digits_end(s, i) ==> is_digit(s[j]),
    decreases s.len() - i,
{
    if i < s.len() && is_digit(s[i]) {
        lemma_digits_end(s, i + 1);
    }
}

pub proof fn lemma_word_end(s: Seq<u8>, i: int)
    requires
        0 <= i <= s.len(),
    ensures
        i <= word_end(s, i) <= s.len(),
        word_end(s, i) < s.len() ==> !is_word_byte(s[word_end(s, i)]),
        forall|j: int| i <= j < word_end(s, i) ==> is_word_byte(s[j]),
    decreases s.len() - i,
{
    if i < s.len() && is_word_byte(s[i]) {
        lemma_word_end(s, i + 1);
    }
}

pub proof fn lemma_skip_at(s: Seq<u8>, i: int)
    requires
        0 <= i <= s.len(),
    ensures
        i <= skip_at(s, i) <= s.len(),
    decreases s.len() - i,
{
    if i < s.len() {
        if is_space(s[i]) {
            lemma_skip_at(s, i + 1);
        } else if s[i] == SLASH && i + 1 < s.len() && s[i + 1] == SLASH {
            lemma_find_from(s, i + 2, LF);
            let k = find_from(s, i + 2, LF);
            let next = if k < i + 2 {
                i + 2
            } else if k >= s.len() {
                s.len() as int
            } else {
                k + 1
            };
            lemma_skip_at(s, next);
        }
    }
}

/// A position where the skip has nothing to consume stays put.
pub proof fn lemma_skip_at_fixed(s: Seq<u8>, i: int)
    requires
        0 <= i <= s.len(),
        i < s.len() ==> !is_space(s[i]) && s[i] != SLASH,
    ensures
        skip_at(s, i) == i,
{
}

/// A run of whitespace is skipped through: the skip from its start is the
/// skip from its end.
pub proof fn lemma_skip_at_spaces(s: Seq<u8>, i: int, j: int)
    requires
        0 <= i <= j <= s.len(),
        forall|x: int| i <= x < j ==> is_space(#[trigger] s[x]),
    ensures
        skip_at(s, i) == skip_at(s, j),
    decreases j - i,
{
    if i < j {
        lemma_skip_at_spaces(s, i + 1, j);
    }
}

/// The end of the number lexeme starting at `i`, and whether the lexeme
/// matched the numeric grammar
/// `'-'? ('0' | [1-9][0-9]*) ('.' [0-9]+)? ([eE][+-]?[0-9]+)?` in full.
/// On a failure the end points just past the bytes the scan had committed to.
pub open spec fn number_end(s: Seq<u8>, i: int) -> (int, bool) {
    let j0 = if i < s.len() && s[i] == MINUS {
        i + 1
    } else {
        i
    };
    if j0 >= s.len() || !is_digit(s[j0]) {
        (j0, false)
    } else {
        let j1 = if s[j0] == D0 {
            j0 + 1
        } else {
            digits_end(s, j0)
        };
        let fr = if j1 < s.len() && s[j1] == DOT {
            if j1 + 1 < s.len() && is_digit(s[j1 + 1]) {
                (digits_end(s, j1 + 1), true)
            } else {
                (j1 + 1, false)
            }
        } else {
            (j1, true)
        };
        if !fr.1 {
            fr
        } else {
            let j2 = fr.0;
            if j2 < s.len() && (s[j2] == LE || s[j2] == UE) {
                let j3 = if j2 + 1 < s.len() && (s[j2 + 1] == PLUS || s[j2 + 1] == MINUS) {
                    j2 + 2
                } else {
                    j2 + 1
                };
                if j3 < s.len() && is_digit(s[j3]) {
                    (digits_end(s, j3), true)
                } else {
                    (j3, false)
                }
            } else {
                (j2, true)
            }
        }
    }
}

/// Whether `t` is, in full, one lexeme of the numeric grammar.
pub open spec fn is_number_lexeme(t: Seq<u8>) -> bool {
    t.len() > 0 && (t[0] == MINUS || is_digit(t[0])) && number_end(t, 0) == (t.len() as int, true)
}

pub proof fn lemma_number_end(s: Seq<u8>, i: int)
    requires
        0 <= i < s.len(),
        s[i] == MINUS || is_digit(s[i]),
    ensures
        i < number_end(s, i).0 <= s.len(),
    decreases s.len() - i,
{
    let j0 = if s[i] == MINUS {
        i + 1
    } else {
        i
    };
    if !(j0 >= s.len() || !is_digit(s[j0])) {
        lemma_digits_end(s, j0);
        let j1 = if s[j0] == D0 {
            j0 + 1
        } else {
            digits_end(s, j0)
        };
        if j1 < s.len() && s[j1] == DOT {
            if j1 + 1 < s.len() && is_digit(s[j1 + 1]) {
                lemma_digits_end(s, j1 + 1);
            }
        }
        let fr = if j1 < s.len() && s[j1] == DOT {
            if j1 + 1 < s.len() && is_digit(s[j1 + 1]) {
                (digits_end(s, j1 + 1), true)
            } else {
                (j1 + 1, false)
            }
        } else {
            (j1, true)
        };
        if fr.1 {
            let j2 = fr.0;
            if j2 < s.len() && (s[j2] == LE || s[j2] == UE) {
                let j3 = if j2 + 1 < s.len() && (s[j2 + 1] == PLUS || s[j2 + 1] == MINUS) {
                    j2 + 2
                } else {
                    j2 + 1
                };
                if j3 < s.len() && is_digit(s[j3]) {
                    lemma_digits_end(s, j3);
                }
            }
        }
    }
}

/// A lexeme the scan accepted begins with a sign or digit and ends with a
/// digit.
pub proof fn lemma_number_end_edges(s: Seq<u8>, i: int)
    requires
        0 <= i <= s.len(),
        number_end(s, i).1,
    ensures
        i < number_end(s, i).0 <= s.len(),
        s[i] == MINUS || is_digit(s[i]),
        is_digit(s[number_end(s, i).0 - 1]),
{
    let j0 = if i < s.len() && s[i] == MINUS {
        i + 1
    } else {
        i
    };
    assert(j0 < s.len() && is_digit(s[j0]));
    lemma_number_end(s, i);
    lemma_digits_end(s, j0);
    let j1 = if s[j0] == D0 {
        j0 + 1
    } else {
        digits_end(s, j0)
    };
    assert(is_digit(s[j1 - 1]));
    if j1 < s.len() && s[j1] == DOT {
        assert(j1 + 1 < s.len() && is_digit(s[j1 + 1]));
        lemma_digits_end(s, j1 + 1);
    }
    let fr = if j1 < s.len() && s[j1] == DOT {
        (digits_end(s, j1 + 1), true)
    } else {
        (j1, true)
    };
    let j2 = fr.0;
    assert(is_digit(s[j2 - 1]));
    if j2 < s.len() && (s[j2] == LE || s[j2] == UE) {
        let j3 = if j2 + 1 < s.len() && (s[j2 + 1] == PLUS || s[j2 + 1] == MINUS) {
            j2 + 2
        } else {
            j2 + 1
        };
        assert(j3 < s.len() && is_digit(s[j3]));
        lemma_digits_end(s, j3);
        assert(is_digit(s[digits_end(s, j3) - 1]));
    }
}

/// The numeric value of a run of decimal digit bytes, most significant first.
pub open spec fn decimal_value(d: Seq<u8>) -> int
    decreases d.len(),
{
    if d.len() == 0 {
        0
    } else {
        decimal_value(d.drop_last()) * 10 + (d.last() - D0)
    }
}

pub open spec fn all_digits(d: Seq<u8>) -> bool {
    forall|j: int| 0 <= j < d.len() ==> is_digit(#[trigger] d[j])
}

/// The signed 64-bit integer a `BN` payload denotes: an optional sign,
/// then at least one digit, nothing else, and a value in range.
pub open spec fn bn_value(t: Seq<u8>) -> Option<int> {
    let neg = t.len() > 0 && t[0] == MINUS;
    let d = if t.len() > 0 && (t[0] == MINUS || t[0] == PLUS) {
        t.drop_first()
    } else {
        t
    };
    if d.len() == 0 || !all_digits(d) {
        Option::None
    } else {
        let v = if neg {
            -decimal_value(d)
        } else {
            decimal_value(d)
        };
        if i64::MIN <= v <= i64::MAX {
            Option::Some(v)
        } else {
            Option::None
        }
    }
}

/// The numeric value of one hex digit byte, upper or lower case.
pub open spec fn hex_nibble(b: u8) -> Option<u8> {
    if D0 <= b && b <= D9 {
        Option::Some((b - D0) as u8)
    } else if UA <= b && b <= UF {
        Option::Some((b - UA + 10) as u8)
    } else if LA <= b && b <= LF_HEX {
        Option::Some((b - LA + 10) as u8)
    } else {
        Option::None
    }
}

/// The bytes a `B` payload denotes: two hex digits per byte, most
/// significant nibble first; an odd length or a non-hex byte is a failure.
pub open spec fn hex_decode(t: Seq<u8>) -> Option<Seq<u8>>
    decreases t.len(),
{
    if t.len() == 0 {
        Option::Some(Seq::empty())
    } else if t.len() == 1 {
        Option::None
    } else {
        match (hex_nibble(t[0]), hex_nibble(t[1]), hex_decode(t.subrange(2, t.len() as int))) {
            (Option::Some(hi), Option::Some(lo), Option::Some(rest)) => Option::Some(
                seq![(hi * 16 + lo) as u8] + rest,
            ),
            _ => Option::None,
        }
    }
}

/// One byte as two upper-case hex digit bytes.
pub open spec fn hex_digit_upper(n: u8) -> u8 {
    if n < 10 {
        (D0 + n) as u8
    } else {
        (UA + (n - 10)) as u8
    }
}

/// A byte string as upper-case hex text, two digits per byte.
pub open spec fn hex_encode(bs: Seq<u8>) -> Seq<u8>
    decreases bs.len(),
{
    if bs.len() == 0 {
        Seq::empty()
    } else {
        seq![hex_digit_upper(bs[0] / 16), hex_digit_upper(bs[0] % 16)] + hex_encode(
            bs.drop_first(),
        )
    }
}

/// A natural number as decimal digit bytes, most significant first.
pub open spec fn decimal_of_nat(n: nat) -> Seq<u8>
    decreases n,
{
    if n < 10 {
        seq![(D0 + n) as u8]
    } else {
        decimal_of_nat(n / 10) + seq![(D0 + n % 10) as u8]
    }
}

/// An integer as decimal digit bytes with a leading `-` when negative.
pub open spec fn decimal_of_int(n: int) -> Seq<u8> {
    if n < 0 {
        seq![MINUS] + decimal_of_nat((-n) as nat)
    } else {
        decimal_of_nat(n as nat)
    }
}

} // verus!

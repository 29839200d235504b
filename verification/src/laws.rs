//! The laws of the format: parsing canonical text gives back the very tree
//! it was printed from, and printing is therefore idempotent across a
//! parse. Proved for compact text over the spec functions the parser and
//! stringifier are verified against.

use vstd::prelude::*;
use crate::emit::{
    sp_compact_entries, sp_compact_entries_tail, sp_compact_items, sp_compact_items_tail,
    sp_compact_value, sp_indent_entries, sp_indent_items, sp_indent_value, sp_repeat,
};
use crate::grammar::{sp_document, sp_items, sp_members, sp_value};
use crate::numbers::{canon_num_of, num_in_range};
use crate::text::{
    COLON, COMMA, D0, D9, DOT, LBRACE, LBRACK, LE, LPAR, MINUS, RBRACE, RBRACK, RPAR, TICK, UA,
    UB, UD, UE, UF, UN, UT, all_digits, bn_value, decimal_of_int, decimal_of_nat, decimal_value,
    digits_end, hex_decode, hex_digit_upper, hex_encode, hex_nibble, is_digit,
    is_number_lexeme, is_space, is_word_byte, lemma_digits_end, lemma_find_from_is,
    lemma_skip_at, lemma_skip_at_fixed, lemma_skip_at_spaces, number_end, skip_at, word_end,
};
use crate::value::{ValueSpec, entries_sorted, lex_lt, spec_insert};

verus! {

/// No occurrence of `b` anywhere in `t`.
pub open spec fn free_of(t: Seq<u8>, b: u8) -> bool {
    forall|j: int| 0 <= j < t.len() ==> t[j] != b
}

/// Every byte of `k` may stand in a key.
pub open spec fn word_key(k: Seq<u8>) -> bool {
    forall|j: int| 0 <= j < k.len() ==> is_word_byte(#[trigger] k[j])
}

/// The trees the grammar can produce: strings without their delimiter,
/// dates without the closing parenthesis, numbers in canonical in-range
/// form, big integers in range, and objects sorted by word-byte keys.
pub open spec fn producible(v: ValueSpec) -> bool
    decreases v,
{
    match v {
        ValueSpec::Str(t) => free_of(t, TICK),
        ValueSpec::Number(t) => is_number_lexeme(t) && num_in_range(t) && canon_num_of(t) == t,
        ValueSpec::Bool(_) => true,
        ValueSpec::Null => true,
        ValueSpec::BigInt(n) => i64::MIN <= n <= i64::MAX,
        ValueSpec::Date(t) => free_of(t, RPAR),
        ValueSpec::Bytes(_) => true,
        ValueSpec::Array(items) => producible_items(items),
        ValueSpec::Object(entries) => entries_sorted(entries) && producible_entries(entries),
    }
}

pub open spec fn producible_items(items: Seq<ValueSpec>) -> bool
    decreases items,
{
    if items.len() == 0 {
        true
    } else {
        producible(items[0]) && producible_items(items.subrange(1, items.len() as int))
    }
}

pub open spec fn producible_entries(entries: Seq<(Seq<u8>, ValueSpec)>) -> bool
    decreases entries,
{
    if entries.len() == 0 {
        true
    } else {
        word_key(entries[0].0) && producible(entries[0].1) && producible_entries(
            entries.subrange(1, entries.len() as int),
        )
    }
}

/// A decimal rendering is nothing but digits, and at least one.
proof fn lemma_decimal_of_nat_digits(m: nat)
    ensures
        decimal_of_nat(m).len() > 0,
        all_digits(decimal_of_nat(m)),
    decreases m,
{
    if m >= 10 {
        lemma_decimal_of_nat_digits(m / 10);
        let d = decimal_of_nat(m);
        assert(d == decimal_of_nat(m / 10) + seq![(D0 + m % 10) as u8]);
        assert(forall|j: int|
            0 <= j < d.len() - 1 ==> d[j] == decimal_of_nat(m / 10)[j]);
        assert(is_digit(d[d.len() - 1]));
    }
}

/// Reading a decimal rendering back gives the number.
proof fn lemma_decimal_value_of_nat(m: nat)
    ensures
        decimal_value(decimal_of_nat(m)) == m,
    decreases m,
{
    if m < 10 {
        let d = decimal_of_nat(m);
        assert(d == seq![(D0 + m) as u8]);
        assert(d.last() == (D0 + m) as u8);
        assert((D0 + m) as u8 == D0 + m);
        assert(d.drop_last() =~= Seq::<u8>::empty());
        assert(decimal_value(d) == decimal_value(Seq::<u8>::empty()) * 10 + (d.last() - D0));
    } else {
        lemma_decimal_value_of_nat(m / 10);
        let d = decimal_of_nat(m);
        assert(d.drop_last() =~= decimal_of_nat(m / 10));
        assert(d.last() == (D0 + m % 10) as u8);
        assert((D0 + m % 10) as u8 == D0 + m % 10);
        assert(decimal_value(d) == decimal_value(d.drop_last()) * 10 + (d.last() - D0));
    }
}

/// `BN` payloads round-trip: the decimal of an in-range integer reads back
/// as that integer.
proof fn lemma_bn_of_decimal(n: int)
    requires
        i64::MIN <= n <= i64::MAX,
    ensures
        bn_value(decimal_of_int(n)) == Option::Some(n),
{
    if n >= 0 {
        lemma_decimal_of_nat_digits(n as nat);
        lemma_decimal_value_of_nat(n as nat);
        let t = decimal_of_int(n);
        assert(t == decimal_of_nat(n as nat));
        assert(is_digit(t[0]));
        assert(t[0] != MINUS && t[0] != crate::text::PLUS);
    } else {
        lemma_decimal_of_nat_digits((-n) as nat);
        lemma_decimal_value_of_nat((-n) as nat);
        let t = decimal_of_int(n);
        assert(t == seq![MINUS] + decimal_of_nat((-n) as nat));
        assert(t[0] == MINUS);
        assert(t.drop_first() =~= decimal_of_nat((-n) as nat));
    }
}

/// Hex text is hex digits, two per byte.
proof fn lemma_hex_encode_shape(bs: Seq<u8>)
    ensures
        hex_encode(bs).len() == 2 * bs.len(),
        forall|j: int|
            0 <= j < hex_encode(bs).len() ==> (is_digit(#[trigger] hex_encode(bs)[j]) || (UA
                <= hex_encode(bs)[j] && hex_encode(bs)[j] <= UF)),
    decreases bs.len(),
{
    if bs.len() > 0 {
        lemma_hex_encode_shape(bs.drop_first());
        let he = hex_encode(bs);
        let rest = hex_encode(bs.drop_first());
        assert(he == seq![hex_digit_upper(bs[0] / 16), hex_digit_upper(bs[0] % 16)] + rest);
        assert(forall|j: int| 2 <= j < he.len() ==> he[j] == rest[j - 2]);
    }
}

/// An upper-case hex digit reads back as its value.
proof fn lemma_hex_nibble_of_digit(x: u8)
    requires
        x < 16,
    ensures
        hex_nibble(hex_digit_upper(x)) == Option::Some(x),
{
}

/// Hex round-trips: decoding an encoding gives the bytes back.
proof fn lemma_hex_decode_of_encode(bs: Seq<u8>)
    ensures
        hex_decode(hex_encode(bs)) == Option::Some(bs),
    decreases bs.len(),
{
    if bs.len() == 0 {
        assert(hex_encode(bs).len() == 0);
        assert(hex_decode(hex_encode(bs)) == Option::Some(Seq::<u8>::empty()));
        assert(bs =~= Seq::<u8>::empty());
    } else {
        lemma_hex_decode_of_encode(bs.drop_first());
        lemma_hex_encode_shape(bs.drop_first());
        let he = hex_encode(bs);
        let rest = hex_encode(bs.drop_first());
        assert(he == seq![hex_digit_upper(bs[0] / 16), hex_digit_upper(bs[0] % 16)] + rest);
        assert(he.len() >= 2);
        assert(he[0] == hex_digit_upper(bs[0] / 16));
        assert(he[1] == hex_digit_upper(bs[0] % 16));
        lemma_hex_nibble_of_digit(bs[0] / 16);
        lemma_hex_nibble_of_digit(bs[0] % 16);
        assert(he.subrange(2, he.len() as int) =~= rest);
        assert((bs[0] / 16) * 16 + (bs[0] % 16) == bs[0]);
        assert(seq![bs[0]] + bs.drop_first() =~= bs);
    }
}

/// A word run pinned down, as `lemma_find_from_is` pins a find.
proof fn lemma_word_end_is(s: Seq<u8>, i: int, x: int)
    requires
        0 <= i <= x <= s.len(),
        forall|j: int| i <= j < x ==> is_word_byte(#[trigger] s[j]),
        x < s.len() ==> !is_word_byte(s[x]),
    ensures
        word_end(s, i) == x,
    decreases x - i,
{
    if i < x {
        lemma_word_end_is(s, i + 1, x);
    }
}

/// A digit run of an embedded lexeme scans the same, shifted, as long as
/// the byte just past the lexeme is not a digit.
proof fn lemma_digits_end_embed(s: Seq<u8>, i: int, t: Seq<u8>, x: int)
    requires
        0 <= i,
        i + t.len() <= s.len(),
        s.subrange(i, i + t.len()) == t,
        0 <= x <= t.len(),
        i + t.len() < s.len() ==> !is_digit(s[i + t.len()]),
    ensures
        digits_end(s, i + x) == i + digits_end(t, x),
    decreases t.len() - x,
{
    if x < t.len() {
        assert(t[x] == s.subrange(i, i + t.len())[x]);
        assert(t[x] == s[i + x]);
        if is_digit(t[x]) {
            lemma_digits_end_embed(s, i, t, x + 1);
        }
    }
}

/// A full number lexeme embedded in a larger text scans to its own end,
/// as long as the byte just past it cannot extend a number.
proof fn lemma_number_end_embed(s: Seq<u8>, i: int, t: Seq<u8>)
    requires
        0 <= i,
        i + t.len() <= s.len(),
        s.subrange(i, i + t.len()) == t,
        is_number_lexeme(t),
        i + t.len() < s.len() ==> !is_digit(s[i + t.len()]) && s[i + t.len()] != DOT && s[i
            + t.len()] != LE && s[i + t.len()] != UE,
    ensures
        number_end(s, i) == (i + t.len(), true),
{
    let n = t.len() as int;
    assert(forall|x: int| 0 <= x < n ==> t[x] == (#[trigger] s[i + x])) by {
        assert(forall|x: int|
            0 <= x < n ==> t[x] == (#[trigger] s.subrange(i, i + n)[x]));
    }
    assert(number_end(t, 0) == (n, true));
    let j0t = if t[0] == MINUS {
        1int
    } else {
        0int
    };
    assert(j0t < n && is_digit(t[j0t]));
    let j1t = if t[j0t] == D0 {
        j0t + 1
    } else {
        digits_end(t, j0t)
    };
    if t[j0t] != D0 {
        lemma_digits_end_embed(s, i, t, j0t);
    }
    lemma_digits_end(t, j0t);
    assert(j0t < j1t <= n);
    let frt = if j1t < n && t[j1t] == DOT {
        if j1t + 1 < n && is_digit(t[j1t + 1]) {
            (digits_end(t, j1t + 1), true)
        } else {
            (j1t + 1, false)
        }
    } else {
        (j1t, true)
    };
    assert(frt.1);
    let j2t = frt.0;
    if j1t < n && t[j1t] == DOT {
        assert(j1t + 1 < n && is_digit(t[j1t + 1]));
        lemma_digits_end_embed(s, i, t, j1t + 1);
        lemma_digits_end(t, j1t + 1);
    }
    assert(j1t <= j2t <= n);
    if j2t < n && (t[j2t] == LE || t[j2t] == UE) {
        let j3t = if j2t + 1 < n && (t[j2t + 1] == crate::text::PLUS || t[j2t + 1] == MINUS) {
            j2t + 2
        } else {
            j2t + 1
        };
        assert(j3t < n && is_digit(t[j3t]));
        lemma_digits_end_embed(s, i, t, j3t);
        lemma_digits_end(t, j3t);
        assert(digits_end(t, j3t) == n);
    } else {
        assert(j2t == n);
    }
}

/// The first byte a compact emission can start with: never whitespace, a
/// comment, or a closing token.
proof fn lemma_compact_head(v: ValueSpec)
    requires
        producible(v),
        sp_compact_value(v).len() > 0,
    ensures
        !is_space(sp_compact_value(v)[0]),
        sp_compact_value(v)[0] != crate::text::SLASH,
        sp_compact_value(v)[0] != RBRACK,
        sp_compact_value(v)[0] != RBRACE,
        sp_compact_value(v)[0] != COMMA,
{
    match v {
        ValueSpec::Str(t) => {
            assert(sp_compact_value(v)[0] == TICK);
        },
        ValueSpec::Number(t) => {
            assert(sp_compact_value(v)[0] == t[0]);
            assert(t[0] == MINUS || is_digit(t[0]));
        },
        ValueSpec::Bool(b) => {},
        ValueSpec::Null => {},
        ValueSpec::BigInt(_) => {
            assert(sp_compact_value(v)[0] == UB);
        },
        ValueSpec::Date(_) => {
            assert(sp_compact_value(v)[0] == UD);
        },
        ValueSpec::Bytes(_) => {
            assert(sp_compact_value(v)[0] == UB);
        },
        ValueSpec::Array(items) => {
            assert(sp_compact_value(v)[0] == LBRACK);
        },
        ValueSpec::Object(entries) => {
            assert(sp_compact_value(v)[0] == LBRACE);
        },
    }
}

/// Every compact emission is non-empty.
proof fn lemma_compact_nonempty(v: ValueSpec)
    requires
        producible(v),
    ensures
        sp_compact_value(v).len() > 0,
{
}

/// Inserting a key above every key of a sorted list appends.
proof fn lemma_insert_append(acc: Seq<(Seq<u8>, ValueSpec)>, key: Seq<u8>, value: ValueSpec)
    requires
        forall|j: int| 0 <= j < acc.len() ==> lex_lt((#[trigger] acc[j]).0, key),
    ensures
        spec_insert(acc, key, value) == acc + seq![(key, value)],
    decreases acc.len(),
{
    if acc.len() == 0 {
        assert(spec_insert(acc, key, value) =~= acc + seq![(key, value)]);
    } else {
        assert(lex_lt(acc[0].0, key));
        crate::value::lemma_lex_lt_asym(acc[0].0, key);
        assert(key != acc[0].0) by {
            crate::value::lemma_lex_lt_irrefl(key);
        }
        let tail = acc.drop_first();
        assert(forall|j: int| 0 <= j < tail.len() ==> lex_lt((#[trigger] tail[j]).0, key));
        lemma_insert_append(tail, key, value);
        assert(seq![acc[0]] + (tail + seq![(key, value)]) =~= acc + seq![(key, value)]);
    }
}

/// In a non-empty run, the separators are one comma and the next items.
proof fn lemma_items_tail_form(items: Seq<ValueSpec>)
    requires
        items.len() > 0,
    ensures
        sp_compact_items_tail(items) == seq![COMMA] + sp_compact_items(items),
{
    assert(seq![COMMA] + (sp_compact_value(items[0]) + sp_compact_items_tail(
        items.subrange(1, items.len() as int),
    )) =~= sp_compact_items_tail(items));
}

proof fn lemma_entries_tail_form(entries: Seq<(Seq<u8>, ValueSpec)>)
    requires
        entries.len() > 0,
    ensures
        sp_compact_entries_tail(entries) == seq![COMMA] + sp_compact_entries(entries),
{
    assert(seq![COMMA] + (entries[0].0 + seq![COLON] + sp_compact_value(entries[0].1)
        + sp_compact_entries_tail(entries.subrange(1, entries.len() as int)))
        =~= sp_compact_entries_tail(entries));
}

/// The bytes that may lawfully follow a compact value: a separator, a
/// closing delimiter, or the end of the input.
pub open spec fn value_terminated(s: Seq<u8>, p: int) -> bool {
    p >= s.len() || s[p] == COMMA || s[p] == RBRACK || s[p] == RBRACE
}

/// The scalar productions of the round-trip: everything but arrays and
/// objects.
#[verifier::rlimit(100)]
proof fn lemma_scalar_roundtrip(s: Seq<u8>, i: int, v: ValueSpec)
    requires
        producible(v),
        !(v is Array),
        !(v is Object),
        0 <= i,
        i + sp_compact_value(v).len() <= s.len(),
        s.subrange(i, i + sp_compact_value(v).len()) == sp_compact_value(v),
        value_terminated(s, i + sp_compact_value(v).len()),
    ensures
        sp_value(s, i) == Ok::<(ValueSpec, int), crate::value::ErrorSpec>((
            v,
            i + sp_compact_value(v).len(),
        )),
{
    let e = sp_compact_value(v);
    let n = e.len() as int;
    lemma_compact_nonempty(v);
    lemma_compact_head(v);
    assert(forall|j: int| i <= j < i + n ==> s[j] == e[j - i]) by {
        assert(forall|j: int| i <= j < i + n ==> s.subrange(i, i + n)[j - i] == s[j]);
    }
    assert(s[i] == e[0]);
    lemma_skip_at_fixed(s, i);
    match v {
        ValueSpec::Str(t) => {
            assert(e == seq![TICK] + t + seq![TICK]);
            assert(s[i] == TICK);
            assert(forall|j: int| i + 1 <= j < i + 1 + t.len() ==> s[j] == t[j - (i + 1)]);
            lemma_find_from_is(s, i + 1, TICK, i + 1 + t.len());
            assert(s.subrange(i + 1, i + 1 + t.len()) =~= t);
        },
        ValueSpec::Number(t) => {
            assert(e == t);
            assert(s.subrange(i, i + t.len()) == t);
            assert(t[0] == MINUS || is_digit(t[0]));
            assert(s[i] != TICK && s[i] != LBRACE && s[i] != LBRACK);
            if i + n < s.len() {
                assert(s[i + n] == COMMA || s[i + n] == RBRACK || s[i + n] == RBRACE);
            }
            lemma_number_end_embed(s, i, t);
            assert(s.subrange(i, i + t.len()) =~= t);
        },
        ValueSpec::Bool(b) => {
            assert(s[i] == UT || s[i] == UF);
            if i + 1 < s.len() && s[i + 1] == LPAR {
                assert(value_terminated(s, i + 1));
                assert(false);
            }
        },
        ValueSpec::Null => {
            assert(s[i] == UN);
            if i + 1 < s.len() && s[i + 1] == LPAR {
                assert(false);
            }
        },
        ValueSpec::BigInt(num) => {
            let payload = decimal_of_int(num);
            assert(e == seq![UB, UN, LPAR] + payload + seq![RPAR]);
            assert(s[i] == UB && s[i + 1] == UN && s[i + 2] == LPAR);
            assert(is_word_byte(UB) && is_word_byte(UN) && !is_word_byte(LPAR));
            lemma_word_end_is(s, i, i + 2);
            assert(s.subrange(i, i + 2) =~= seq![UB, UN]);
            lemma_decimal_of_nat_digits(if num >= 0 {
                num as nat
            } else {
                (-num) as nat
            });
            assert(forall|j: int|
                0 <= j < payload.len() ==> (is_digit(#[trigger] payload[j]) || payload[j]
                    == MINUS)) by {
                if num < 0 {
                    assert(payload == seq![MINUS] + decimal_of_nat((-num) as nat));
                    assert(forall|j: int|
                        1 <= j < payload.len() ==> #[trigger] payload[j] == decimal_of_nat(
                            (-num) as nat,
                        )[j - 1]);
                }
            }
            assert(forall|j: int| i + 3 <= j < i + 3 + payload.len() ==> s[j] != RPAR) by {
                assert(forall|j: int|
                    i + 3 <= j < i + 3 + payload.len() ==> s[j] == (#[trigger] payload[j - (i
                        + 3)]));
            }
            assert(s[i + 3 + payload.len()] == RPAR);
            lemma_find_from_is(s, i + 3, RPAR, i + 3 + payload.len());
            assert(s.subrange(i + 3, i + 3 + payload.len()) =~= payload);
            lemma_bn_of_decimal(num);
            assert(s.subrange(i, i + 2) != seq![UD]);
        },
        ValueSpec::Date(t) => {
            assert(e == seq![UD, LPAR] + t + seq![RPAR]);
            assert(s[i] == UD && s[i + 1] == LPAR);
            assert(is_word_byte(UD) && !is_word_byte(LPAR));
            lemma_word_end_is(s, i, i + 1);
            assert(s.subrange(i, i + 1) =~= seq![UD]);
            assert(forall|j: int| i + 2 <= j < i + 2 + t.len() ==> s[j] != RPAR) by {
                assert(forall|j: int|
                    i + 2 <= j < i + 2 + t.len() ==> s[j] == (#[trigger] t[j - (i + 2)]));
            }
            assert(s[i + 2 + t.len()] == RPAR);
            lemma_find_from_is(s, i + 2, RPAR, i + 2 + t.len());
            assert(s.subrange(i + 2, i + 2 + t.len()) =~= t);
        },
        ValueSpec::Bytes(bs) => {
            let payload = hex_encode(bs);
            assert(e == seq![UB, LPAR] + payload + seq![RPAR]);
            assert(s[i] == UB && s[i + 1] == LPAR);
            assert(is_word_byte(UB) && !is_word_byte(LPAR));
            lemma_word_end_is(s, i, i + 1);
            assert(s.subrange(i, i + 1) =~= seq![UB]);
            lemma_hex_encode_shape(bs);
            assert(forall|j: int| i + 2 <= j < i + 2 + payload.len() ==> s[j] != RPAR) by {
                assert(forall|j: int|
                    i + 2 <= j < i + 2 + payload.len() ==> s[j] == (#[trigger] payload[j - (i
                        + 2)]));
            }
            assert(s[i + 2 + payload.len()] == RPAR);
            lemma_find_from_is(s, i + 2, RPAR, i + 2 + payload.len());
            assert(s.subrange(i + 2, i + 2 + payload.len()) =~= payload);
            lemma_hex_decode_of_encode(bs);
            assert(s.subrange(i, i + 1) != seq![UD]) by {
                assert(seq![UB][0] == UB && seq![UD][0] == UD);
                assert(s.subrange(i, i + 1) =~= seq![UB]);
            }
            assert(s.subrange(i, i + 1) != seq![UB, UN]);
        },
        ValueSpec::Array(_) => {
        },
        ValueSpec::Object(_) => {
        },
    }
}

/// Parsing a compact emission from within a larger text yields the very
/// tree it was printed from, ending just past the emission.
#[verifier::rlimit(100)]
proof fn lemma_value_roundtrip(s: Seq<u8>, i: int, v: ValueSpec)
    requires
        producible(v),
        0 <= i,
        i + sp_compact_value(v).len() <= s.len(),
        s.subrange(i, i + sp_compact_value(v).len()) == sp_compact_value(v),
        value_terminated(s, i + sp_compact_value(v).len()),
    ensures
        sp_value(s, i) == Ok::<(ValueSpec, int), crate::value::ErrorSpec>((
            v,
            i + sp_compact_value(v).len(),
        )),
    decreases v,
{
    let e = sp_compact_value(v);
    let n = e.len() as int;
    lemma_compact_nonempty(v);
    lemma_compact_head(v);
    assert(forall|j: int| i <= j < i + n ==> s[j] == e[j - i]) by {
        assert(forall|j: int| i <= j < i + n ==> s.subrange(i, i + n)[j - i] == s[j]);
    }
    assert(s[i] == e[0]);
    lemma_skip_at_fixed(s, i);
    assert(skip_at(s, i) == i);
    match v {
        ValueSpec::Array(items) => {
            assert(s[i] == LBRACK);
            if items.len() == 0 {
                assert(e == seq![LBRACK, RBRACK]);
                assert(s[i + 1] == RBRACK);
                lemma_skip_at_fixed(s, i + 1);
                assert(s.subrange(i + 1, i + 2) =~= sp_compact_items(items) + seq![RBRACK]);
                lemma_items_roundtrip(s, i + 1, Seq::empty(), items);
                assert(Seq::<ValueSpec>::empty() + items =~= items);
            } else {
                assert(e == seq![LBRACK] + sp_compact_items(items) + seq![RBRACK]);
                let enc = sp_compact_items(items);
                assert(s.subrange(i + 1, i + 1 + enc.len() + 1) =~= enc + seq![RBRACK]) by {
                    assert(forall|x: int|
                        0 <= x < enc.len() + 1 ==> (enc + seq![RBRACK])[x] == e[1 + x]);
                }
                assert(sp_compact_value(items[0]).len() > 0) by {
                    lemma_compact_nonempty(items[0]);
                }
                assert(s[i + 1] == sp_compact_value(items[0])[0]) by {
                    assert(enc[0] == sp_compact_value(items[0])[0]);
                }
                lemma_compact_head(items[0]);
                lemma_skip_at_fixed(s, i + 1);
                lemma_items_roundtrip(s, i + 1, Seq::empty(), items);
                assert(Seq::<ValueSpec>::empty() + items =~= items);
            }
        },
        ValueSpec::Object(entries) => {
            assert(s[i] == LBRACE);
            if entries.len() == 0 {
                assert(e == seq![LBRACE, RBRACE]);
                assert(s[i + 1] == RBRACE);
                lemma_skip_at_fixed(s, i + 1);
                assert(s.subrange(i + 1, i + 2) =~= sp_compact_entries(entries) + seq![RBRACE]);
                assert(Seq::<(Seq<u8>, ValueSpec)>::empty() + entries =~= entries);
                lemma_entries_roundtrip(s, i + 1, Seq::empty(), entries);
            } else {
                assert(e == seq![LBRACE] + sp_compact_entries(entries) + seq![RBRACE]);
                let enc = sp_compact_entries(entries);
                assert(s.subrange(i + 1, i + 1 + enc.len() + 1) =~= enc + seq![RBRACE]) by {
                    assert(forall|x: int|
                        0 <= x < enc.len() + 1 ==> (enc + seq![RBRACE])[x] == e[1 + x]);
                }
                let key = entries[0].0;
                assert(enc == key + seq![COLON] + sp_compact_value(entries[0].1)
                    + sp_compact_entries_tail(entries.subrange(1, entries.len() as int)));
                assert(s[i + 1] == enc[0]);
                if key.len() == 0 {
                    assert(enc[0] == COLON);
                } else {
                    assert(enc[0] == key[0]);
                    assert(is_word_byte(key[0]));
                }
                lemma_skip_at_fixed(s, i + 1);
                assert(Seq::<(Seq<u8>, ValueSpec)>::empty() + entries =~= entries);
                lemma_entries_roundtrip(s, i + 1, Seq::empty(), entries);
            }
        },
        _ => {
            lemma_scalar_roundtrip(s, i, v);
        },
    }
}

/// From a position where elements (or the closing bracket) begin, the
/// element loop collects exactly the printed elements.
#[verifier::rlimit(100)]
proof fn lemma_items_roundtrip(
    s: Seq<u8>,
    i: int,
    acc: Seq<ValueSpec>,
    rest: Seq<ValueSpec>,
)
    requires
        producible_items(rest),
        0 <= i,
        i + sp_compact_items(rest).len() + 1 <= s.len(),
        s.subrange(i, i + sp_compact_items(rest).len() + 1) == sp_compact_items(rest) + seq![
            RBRACK,
        ],
    ensures
        sp_items(s, i, acc) == Ok::<(Seq<ValueSpec>, int), crate::value::ErrorSpec>((
            acc + rest,
            i + sp_compact_items(rest).len() + 1,
        )),
    decreases rest,
{
    let enc = sp_compact_items(rest);
    let m = enc.len() as int;
    assert(forall|j: int| i <= j < i + m + 1 ==> s[j] == (enc + seq![RBRACK])[j - i]) by {
        assert(forall|j: int|
            i <= j < i + m + 1 ==> s.subrange(i, i + m + 1)[j - i] == s[j]);
    }
    if rest.len() == 0 {
        assert(s[i] == RBRACK);
        assert(acc + rest =~= acc);
    } else {
        let v0 = rest[0];
        let tail_vals = rest.subrange(1, rest.len() as int);
        let e0 = sp_compact_value(v0);
        assert(producible(v0));
        lemma_compact_nonempty(v0);
        lemma_compact_head(v0);
        assert(enc == e0 + sp_compact_items_tail(tail_vals));
        assert(s[i] == e0[0]);
        assert(s[i] != RBRACK);
        assert(s.subrange(i, i + e0.len()) =~= e0) by {
            assert(forall|x: int| 0 <= x < e0.len() ==> enc[x] == e0[x]);
        }
        let p = i + e0.len();
        if tail_vals.len() == 0 {
            assert(sp_compact_items_tail(tail_vals) =~= Seq::<u8>::empty());
            assert(m == e0.len());
            assert(s[p] == RBRACK);
            assert(value_terminated(s, p));
            lemma_value_roundtrip(s, i, v0);
            lemma_skip_at_fixed(s, p);
            assert(s.subrange(p, p + 1) =~= sp_compact_items(tail_vals) + seq![RBRACK]);
            lemma_items_roundtrip(s, p, acc.push(v0), tail_vals);
            assert(acc.push(v0) + tail_vals =~= acc + rest);
        } else {
            lemma_items_tail_form(tail_vals);
            assert(sp_compact_items_tail(tail_vals) == seq![COMMA] + sp_compact_items(
                tail_vals,
            ));
            assert(s[p] == COMMA) by {
                assert(enc[e0.len() as int] == sp_compact_items_tail(tail_vals)[0]);
            }
            assert(value_terminated(s, p));
            lemma_value_roundtrip(s, i, v0);
            lemma_skip_at_fixed(s, p);
            let r = p + 1;
            let enc2 = sp_compact_items(tail_vals);
            assert(s.subrange(r, r + enc2.len() + 1) =~= enc2 + seq![RBRACK]) by {
                assert(forall|x: int|
                    0 <= x < enc2.len() + 1 ==> (enc2 + seq![RBRACK])[x] == (enc + seq![
                        RBRACK,
                    ])[e0.len() + 1 + x]);
            }
            assert(producible_items(tail_vals));
            assert(producible(tail_vals[0]));
            assert(sp_compact_value(tail_vals[0]).len() > 0) by {
                lemma_compact_nonempty(tail_vals[0]);
            }
            assert(s[r] == sp_compact_value(tail_vals[0])[0]) by {
                assert(enc2[0] == sp_compact_value(tail_vals[0])[0]);
            }
            lemma_compact_head(tail_vals[0]);
            lemma_skip_at_fixed(s, r);
            lemma_items_roundtrip(s, r, acc.push(v0), tail_vals);
            assert(acc.push(v0) + tail_vals =~= acc + rest);
            assert(i + m + 1 == r + enc2.len() + 1);
        }
    }
}

/// From a position where members (or the closing brace) begin, the member
/// loop inserts exactly the printed members, in their printed order.
#[verifier::rlimit(100)]
proof fn lemma_entries_roundtrip(
    s: Seq<u8>,
    i: int,
    acc: Seq<(Seq<u8>, ValueSpec)>,
    rest: Seq<(Seq<u8>, ValueSpec)>,
)
    requires
        producible_entries(rest),
        entries_sorted(acc + rest),
        0 <= i,
        i + sp_compact_entries(rest).len() + 1 <= s.len(),
        s.subrange(i, i + sp_compact_entries(rest).len() + 1) == sp_compact_entries(rest) + seq![
            RBRACE,
        ],
    ensures
        sp_members(s, i, acc) == Ok::<(Seq<(Seq<u8>, ValueSpec)>, int), crate::value::ErrorSpec>((
            acc + rest,
            i + sp_compact_entries(rest).len() + 1,
        )),
    decreases rest,
{
    let enc = sp_compact_entries(rest);
    let m = enc.len() as int;
    assert(forall|j: int| i <= j < i + m + 1 ==> s[j] == (enc + seq![RBRACE])[j - i]) by {
        assert(forall|j: int|
            i <= j < i + m + 1 ==> s.subrange(i, i + m + 1)[j - i] == s[j]);
    }
    if rest.len() == 0 {
        assert(s[i] == RBRACE);
        assert(acc + rest =~= acc);
    } else {
        let key = rest[0].0;
        let v0 = rest[0].1;
        let tail_ents = rest.subrange(1, rest.len() as int);
        let e0 = sp_compact_value(v0);
        assert(word_key(key) && producible(v0));
        lemma_compact_nonempty(v0);
        lemma_compact_head(v0);
        assert(enc == key + seq![COLON] + e0 + sp_compact_entries_tail(tail_ents));
        assert(forall|x: int| 0 <= x < key.len() ==> enc[x] == key[x]);
        assert(enc[key.len() as int] == COLON);
        assert(s[i] != RBRACE) by {
            if key.len() == 0 {
                assert(s[i] == COLON);
            } else {
                assert(s[i] == key[0]);
                assert(is_word_byte(key[0]));
            }
        }
        assert(forall|x: int| i <= x < i + key.len() ==> is_word_byte(#[trigger] s[x]));
        assert(!is_word_byte(COLON));
        lemma_word_end_is(s, i, i + key.len());
        assert(s.subrange(i, i + key.len()) =~= key);
        lemma_skip_at_fixed(s, i + key.len());
        let vp = i + key.len() + 1;
        assert(s.subrange(vp, vp + e0.len()) =~= e0) by {
            assert(forall|x: int| 0 <= x < e0.len() ==> enc[key.len() + 1 + x] == e0[x]);
        }
        let p = vp + e0.len();
        assert(forall|j: int| 0 <= j < acc.len() ==> lex_lt((#[trigger] acc[j]).0, key)) by {
            assert(forall|j: int| 0 <= j < acc.len() ==> (acc + rest)[j] == (#[trigger] acc[j]));
            assert((acc + rest)[acc.len() as int] == rest[0]);
        }
        lemma_insert_append(acc, key, v0);
        assert(acc + seq![(key, v0)] =~= acc.push(rest[0]));
        assert(acc.push(rest[0]) + tail_ents =~= acc + rest);
        if tail_ents.len() == 0 {
            assert(sp_compact_entries_tail(tail_ents) =~= Seq::<u8>::empty());
            assert(m == key.len() + 1 + e0.len());
            assert(s[p] == RBRACE);
            assert(value_terminated(s, p));
            lemma_value_roundtrip(s, vp, v0);
            lemma_skip_at_fixed(s, p);
            assert(s.subrange(p, p + 1) =~= sp_compact_entries(tail_ents) + seq![RBRACE]);
            lemma_entries_roundtrip(s, p, acc.push(rest[0]), tail_ents);
        } else {
            lemma_entries_tail_form(tail_ents);
            assert(s[p] == COMMA) by {
                assert(enc[key.len() as int + 1 + e0.len() as int] == sp_compact_entries_tail(tail_ents)[0]);
            }
            assert(value_terminated(s, p));
            lemma_value_roundtrip(s, vp, v0);
            lemma_skip_at_fixed(s, p);
            let r = p + 1;
            let enc2 = sp_compact_entries(tail_ents);
            assert(s.subrange(r, r + enc2.len() + 1) =~= enc2 + seq![RBRACE]) by {
                assert(forall|x: int|
                    0 <= x < enc2.len() + 1 ==> (enc2 + seq![RBRACE])[x] == (enc + seq![
                        RBRACE,
                    ])[key.len() + 1 + e0.len() + 1 + x]);
            }
            let key2 = tail_ents[0].0;
            assert(enc2 == key2 + seq![COLON] + sp_compact_value(tail_ents[0].1)
                + sp_compact_entries_tail(tail_ents.subrange(1, tail_ents.len() as int)));
            assert(s[r] == enc2[0]);
            assert(producible_entries(tail_ents));
            assert(word_key(key2));
            assert(!is_space(s[r]) && s[r] != crate::text::SLASH) by {
                if key2.len() == 0 {
                    assert(enc2[0] == COLON);
                } else {
                    assert(enc2[0] == key2[0]);
                    assert(is_word_byte(key2[0]));
                }
            }
            lemma_skip_at_fixed(s, r);
            lemma_entries_roundtrip(s, r, acc.push(rest[0]), tail_ents);
            assert(i + m + 1 == r + enc2.len() + 1);
        }
    }
}

/// Round-trip: parsing the compact text of a producible document tree
/// yields exactly that tree — every key, every value, every position of
/// every element, with nothing lost and nothing added.
pub proof fn lemma_parse_of_stringify_compact(entries: Seq<(Seq<u8>, ValueSpec)>)
    requires
        producible(ValueSpec::Object(entries)),
    ensures
        sp_document(sp_compact_value(ValueSpec::Object(entries)), 0) == Ok::<
            Seq<(Seq<u8>, ValueSpec)>,
            crate::value::ErrorSpec,
        >(entries),
{
    let s = sp_compact_value(ValueSpec::Object(entries));
    let n = s.len() as int;
    assert(s[0] == LBRACE);
    lemma_skip_at_fixed(s, 0);
    assert(Seq::<(Seq<u8>, ValueSpec)>::empty() + entries =~= entries);
    if entries.len() == 0 {
        assert(s == seq![LBRACE, RBRACE]);
        assert(s[1] == RBRACE);
        lemma_skip_at_fixed(s, 1);
        assert(s.subrange(1, 2) =~= sp_compact_entries(entries) + seq![RBRACE]);
        lemma_entries_roundtrip(s, 1, Seq::empty(), entries);
    } else {
        let enc = sp_compact_entries(entries);
        assert(s == seq![LBRACE] + enc + seq![RBRACE]);
        assert(s.subrange(1, 1 + enc.len() as int + 1) =~= enc + seq![RBRACE]) by {
            assert(forall|x: int| 0 <= x < enc.len() + 1 ==> (enc + seq![RBRACE])[x] == s[1 + x]);
        }
        let key = entries[0].0;
        assert(enc == key + seq![COLON] + sp_compact_value(entries[0].1)
            + sp_compact_entries_tail(entries.subrange(1, entries.len() as int)));
        assert(s[1] == enc[0]);
        assert(producible_entries(entries));
        assert(word_key(key));
        assert(!is_space(s[1]) && s[1] != crate::text::SLASH) by {
            if key.len() == 0 {
                assert(enc[0] == COLON);
            } else {
                assert(enc[0] == key[0]);
                assert(is_word_byte(key[0]));
            }
        }
        lemma_skip_at_fixed(s, 1);
        lemma_entries_roundtrip(s, 1, Seq::empty(), entries);
    }
}

/// An indent unit of nothing but whitespace, as indentation is meant to be.
pub open spec fn space_unit(unit: Seq<u8>) -> bool {
    forall|j: int| 0 <= j < unit.len() ==> is_space(#[trigger] unit[j])
}

/// Repeated whitespace is whitespace.
proof fn lemma_repeat_spaces(unit: Seq<u8>, n: nat)
    requires
        space_unit(unit),
    ensures
        forall|j: int| 0 <= j < sp_repeat(unit, n).len() ==> is_space(#[trigger] sp_repeat(unit, n)[j]),
    decreases n,
{
    if n > 0 {
        lemma_repeat_spaces(unit, (n - 1) as nat);
        let whole = sp_repeat(unit, n);
        let head = sp_repeat(unit, (n - 1) as nat);
        assert(whole == head + unit);
        assert(forall|j: int| 0 <= j < head.len() ==> whole[j] == head[j]);
        assert(forall|j: int|
            head.len() <= j < whole.len() ==> whole[j] == unit[j - head.len()]);
    }
}

/// What remains of an indented array from the start of a line: the line's
/// indentation, the element, `,` and a newline, then the rest; at the end
/// the closing line.
spec fn ind_items_region(items: Seq<ValueSpec>, unit: Seq<u8>, level: nat) -> Seq<u8>
    decreases items,
{
    if items.len() == 0 {
        sp_repeat(unit, level) + seq![RBRACK]
    } else {
        sp_repeat(unit, level + 1) + sp_indent_value(items[0], unit, level + 1)
            + seq![COMMA, crate::text::LF] + ind_items_region(
            items.subrange(1, items.len() as int),
            unit,
            level,
        )
    }
}

/// What remains of an indented object from the start of a line.
spec fn ind_entries_region(entries: Seq<(Seq<u8>, ValueSpec)>, unit: Seq<u8>, level: nat) -> Seq<
    u8,
>
    decreases entries,
{
    if entries.len() == 0 {
        sp_repeat(unit, level) + seq![RBRACE]
    } else {
        sp_repeat(unit, level + 1) + entries[0].0 + seq![COLON, crate::text::SP]
            + sp_indent_value(entries[0].1, unit, level + 1) + seq![COMMA, crate::text::LF]
            + ind_entries_region(entries.subrange(1, entries.len() as int), unit, level)
    }
}

/// The region is the printed elements followed by the closing line.
proof fn lemma_ind_items_region(items: Seq<ValueSpec>, unit: Seq<u8>, level: nat)
    ensures
        ind_items_region(items, unit, level) == sp_indent_items(items, unit, level)
            + sp_repeat(unit, level) + seq![RBRACK],
    decreases items,
{
    if items.len() == 0 {
        assert(ind_items_region(items, unit, level) =~= sp_indent_items(items, unit, level)
            + sp_repeat(unit, level) + seq![RBRACK]);
    } else {
        lemma_ind_items_region(items.subrange(1, items.len() as int), unit, level);
        assert(ind_items_region(items, unit, level) =~= sp_indent_items(items, unit, level)
            + sp_repeat(unit, level) + seq![RBRACK]);
    }
}

proof fn lemma_ind_entries_region(entries: Seq<(Seq<u8>, ValueSpec)>, unit: Seq<u8>, level: nat)
    ensures
        ind_entries_region(entries, unit, level) == sp_indent_entries(entries, unit, level)
            + sp_repeat(unit, level) + seq![RBRACE],
    decreases entries,
{
    if entries.len() == 0 {
        assert(ind_entries_region(entries, unit, level) =~= sp_indent_entries(entries, unit, level)
            + sp_repeat(unit, level) + seq![RBRACE]);
    } else {
        lemma_ind_entries_region(entries.subrange(1, entries.len() as int), unit, level);
        assert(ind_entries_region(entries, unit, level) =~= sp_indent_entries(
            entries,
            unit,
            level,
        ) + sp_repeat(unit, level) + seq![RBRACE]);
    }
}

/// The first byte of an indented emission: the same heads as compact.
proof fn lemma_indent_head(v: ValueSpec, unit: Seq<u8>, level: nat)
    requires
        producible(v),
    ensures
        sp_indent_value(v, unit, level).len() > 0,
        !is_space(sp_indent_value(v, unit, level)[0]),
        sp_indent_value(v, unit, level)[0] != crate::text::SLASH,
        sp_indent_value(v, unit, level)[0] != RBRACK,
        sp_indent_value(v, unit, level)[0] != RBRACE,
        sp_indent_value(v, unit, level)[0] != COMMA,
{
    match v {
        ValueSpec::Array(items) => {
            assert(sp_indent_value(v, unit, level)[0] == LBRACK);
        },
        ValueSpec::Object(entries) => {
            assert(sp_indent_value(v, unit, level)[0] == LBRACE);
        },
        _ => {
            assert(sp_indent_value(v, unit, level) == sp_compact_value(v));
            lemma_compact_nonempty(v);
            lemma_compact_head(v);
        },
    }
}

/// Parsing an indented emission from within a larger text yields the very
/// tree it was printed from.
#[verifier::rlimit(100)]
proof fn lemma_ind_value_roundtrip(s: Seq<u8>, i: int, v: ValueSpec, unit: Seq<u8>, level: nat)
    requires
        producible(v),
        space_unit(unit),
        0 <= i,
        i + sp_indent_value(v, unit, level).len() <= s.len(),
        s.subrange(i, i + sp_indent_value(v, unit, level).len()) == sp_indent_value(v, unit, level),
        value_terminated(s, i + sp_indent_value(v, unit, level).len()),
    ensures
        sp_value(s, i) == Ok::<(ValueSpec, int), crate::value::ErrorSpec>((
            v,
            i + sp_indent_value(v, unit, level).len(),
        )),
    decreases v, 0nat,
{
    let e = sp_indent_value(v, unit, level);
    let n = e.len() as int;
    lemma_indent_head(v, unit, level);
    assert(forall|j: int| i <= j < i + n ==> s[j] == e[j - i]) by {
        assert(forall|j: int| i <= j < i + n ==> s.subrange(i, i + n)[j - i] == s[j]);
    }
    assert(s[i] == e[0]);
    lemma_skip_at_fixed(s, i);
    match v {
        ValueSpec::Array(items) => {
            assert(s[i] == LBRACK);
            if items.len() == 0 {
                assert(e == seq![LBRACK, RBRACK]);
                assert(s[i + 1] == RBRACK);
                lemma_skip_at_fixed(s, i + 1);
                assert(s.subrange(i + 1, i + 2) =~= sp_compact_items(items) + seq![RBRACK]);
                lemma_items_roundtrip(s, i + 1, Seq::empty(), items);
                assert(Seq::<ValueSpec>::empty() + items =~= items);
            } else {
                lemma_ind_items_region(items, unit, level);
                let region = ind_items_region(items, unit, level);
                assert(e == seq![LBRACK, crate::text::LF] + region) by {
                    assert(e == seq![LBRACK, crate::text::LF] + sp_indent_items(
                        items,
                        unit,
                        level,
                    ) + sp_repeat(unit, level) + seq![RBRACK]);
                    assert(seq![LBRACK, crate::text::LF] + (sp_indent_items(items, unit, level)
                        + sp_repeat(unit, level) + seq![RBRACK]) =~= e);
                }
                assert(s.subrange(i + 2, i + 2 + region.len() as int) =~= region) by {
                    assert(forall|x: int| 0 <= x < region.len() ==> region[x] == e[2 + x]);
                }
                lemma_ind_items(s, i + 2, Seq::empty(), items, unit, level);
                assert(s[i + 1] == crate::text::LF);
                lemma_skip_at_spaces(s, i + 1, i + 2);
                lemma_skip_at(s, i + 1);
                lemma_skip_at(s, i + 2);
                assert(Seq::<ValueSpec>::empty() + items =~= items);
            }
        },
        ValueSpec::Object(entries) => {
            assert(s[i] == LBRACE);
            if entries.len() == 0 {
                assert(e == seq![LBRACE, RBRACE]);
                assert(s[i + 1] == RBRACE);
                lemma_skip_at_fixed(s, i + 1);
                assert(s.subrange(i + 1, i + 2) =~= sp_compact_entries(entries) + seq![RBRACE]);
                assert(Seq::<(Seq<u8>, ValueSpec)>::empty() + entries =~= entries);
                lemma_entries_roundtrip(s, i + 1, Seq::empty(), entries);
            } else {
                lemma_ind_entries_region(entries, unit, level);
                let region = ind_entries_region(entries, unit, level);
                assert(e == seq![LBRACE, crate::text::LF] + region) by {
                    assert(e == seq![LBRACE, crate::text::LF] + sp_indent_entries(
                        entries,
                        unit,
                        level,
                    ) + sp_repeat(unit, level) + seq![RBRACE]);
                    assert(seq![LBRACE, crate::text::LF] + (sp_indent_entries(entries, unit, level)
                        + sp_repeat(unit, level) + seq![RBRACE]) =~= e);
                }
                assert(s.subrange(i + 2, i + 2 + region.len() as int) =~= region) by {
                    assert(forall|x: int| 0 <= x < region.len() ==> region[x] == e[2 + x]);
                }
                assert(Seq::<(Seq<u8>, ValueSpec)>::empty() + entries =~= entries);
                lemma_ind_entries(s, i + 2, Seq::empty(), entries, unit, level);
                assert(s[i + 1] == crate::text::LF);
                lemma_skip_at_spaces(s, i + 1, i + 2);
                lemma_skip_at(s, i + 1);
                lemma_skip_at(s, i + 2);
            }
        },
        _ => {
            assert(e == sp_compact_value(v));
            lemma_value_roundtrip(s, i, v);
        },
    }
}

/// The shape of the first element line: where the element stands, what it
/// parses to, and where the rest of the region begins.
#[verifier::rlimit(100)]
proof fn lemma_ind_item_shape(
    s: Seq<u8>,
    i: int,
    rest: Seq<ValueSpec>,
    unit: Seq<u8>,
    level: nat,
)
    requires
        producible_items(rest),
        rest.len() > 0,
        space_unit(unit),
        0 <= i,
        i + ind_items_region(rest, unit, level).len() <= s.len(),
        s.subrange(i, i + ind_items_region(rest, unit, level).len()) == ind_items_region(
            rest,
            unit,
            level,
        ),
    ensures
        ({
            let rep = sp_repeat(unit, level + 1);
            let vind = sp_indent_value(rest[0], unit, level + 1);
            let vstart = i + rep.len() as int;
            let p = vstart + vind.len() as int;
            let region2 = ind_items_region(rest.subrange(1, rest.len() as int), unit, level);
            &&& skip_at(s, i) == vstart
            &&& vstart < s.len()
            &&& s[vstart] != RBRACK
            &&& sp_value(s, vstart) == Ok::<(ValueSpec, int), crate::value::ErrorSpec>((
                rest[0],
                p,
            ))
            &&& p < s.len()
            &&& skip_at(s, p) == p
            &&& s[p] == COMMA
            &&& skip_at(s, p + 1) == skip_at(s, p + 2)
            &&& p + 2 + region2.len() == i + ind_items_region(rest, unit, level).len()
            &&& p + 2 + region2.len() <= s.len()
            &&& s.subrange(p + 2, p + 2 + region2.len() as int) == region2
        }),
    decreases rest, 0nat,
{
    let region = ind_items_region(rest, unit, level);
    let m = region.len() as int;
    assert(forall|j: int| i <= j < i + m ==> s[j] == region[j - i]) by {
        assert(forall|j: int| i <= j < i + m ==> s.subrange(i, i + m)[j - i] == s[j]);
    }
    let rep = sp_repeat(unit, level + 1);
    let v0 = rest[0];
    let tail_vals = rest.subrange(1, rest.len() as int);
    let vind = sp_indent_value(v0, unit, level + 1);
    assert(producible(v0));
    assert(region == rep + vind + seq![COMMA, crate::text::LF] + ind_items_region(
        tail_vals,
        unit,
        level,
    ));
    lemma_repeat_spaces(unit, level + 1);
    assert(forall|x: int| i <= x < i + rep.len() ==> is_space(#[trigger] s[x]));
    lemma_skip_at_spaces(s, i, i + rep.len() as int);
    let vstart = i + rep.len() as int;
    lemma_indent_head(v0, unit, level + 1);
    assert(s[vstart] == vind[0]);
    lemma_skip_at_fixed(s, vstart);
    assert(s.subrange(vstart, vstart + vind.len() as int) =~= vind) by {
        assert(forall|x: int| 0 <= x < vind.len() ==> vind[x] == region[rep.len() + x]);
    }
    let p = vstart + vind.len() as int;
    assert(s[p] == COMMA);
    assert(value_terminated(s, p));
    lemma_ind_value_roundtrip(s, vstart, v0, unit, level + 1);
    lemma_skip_at_fixed(s, p);
    assert(s[p + 1] == crate::text::LF);
    lemma_skip_at_spaces(s, p + 1, p + 2);
    let region2 = ind_items_region(tail_vals, unit, level);
    assert(s.subrange(p + 2, p + 2 + region2.len() as int) =~= region2) by {
        assert(forall|x: int|
            0 <= x < region2.len() ==> region2[x] == region[rep.len() + vind.len() + 2 + x]);
    }
}

/// From the start of an element line, the element loop collects exactly
/// the printed elements and stops just past the closing line.
#[verifier::rlimit(100)]
proof fn lemma_ind_items(
    s: Seq<u8>,
    i: int,
    acc: Seq<ValueSpec>,
    rest: Seq<ValueSpec>,
    unit: Seq<u8>,
    level: nat,
)
    requires
        producible_items(rest),
        space_unit(unit),
        0 <= i,
        i + ind_items_region(rest, unit, level).len() <= s.len(),
        s.subrange(i, i + ind_items_region(rest, unit, level).len()) == ind_items_region(
            rest,
            unit,
            level,
        ),
    ensures
        sp_items(s, skip_at(s, i), acc) == Ok::<(Seq<ValueSpec>, int), crate::value::ErrorSpec>((
            acc + rest,
            i + ind_items_region(rest, unit, level).len(),
        )),
    decreases rest, 1nat,
{
    let region = ind_items_region(rest, unit, level);
    let m = region.len() as int;
    if rest.len() == 0 {
        assert(forall|j: int| i <= j < i + m ==> s[j] == region[j - i]) by {
            assert(forall|j: int| i <= j < i + m ==> s.subrange(i, i + m)[j - i] == s[j]);
        }
        let rep = sp_repeat(unit, level);
        assert(region == rep + seq![RBRACK]);
        lemma_repeat_spaces(unit, level);
        assert(forall|x: int| i <= x < i + rep.len() ==> is_space(#[trigger] s[x]));
        lemma_skip_at_spaces(s, i, i + rep.len() as int);
        assert(s[i + rep.len()] == RBRACK);
        lemma_skip_at_fixed(s, i + rep.len() as int);
        assert(acc + rest =~= acc);
    } else {
        lemma_ind_item_shape(s, i, rest, unit, level);
        let v0 = rest[0];
        let tail_vals = rest.subrange(1, rest.len() as int);
        assert(producible_items(tail_vals));
        let vstart = i + sp_repeat(unit, level + 1).len() as int;
        let p = vstart + sp_indent_value(v0, unit, level + 1).len() as int;
        let region2 = ind_items_region(tail_vals, unit, level);
        lemma_ind_items(s, p + 2, acc.push(v0), tail_vals, unit, level);
        lemma_skip_at(s, p + 1);
        lemma_skip_at(s, p + 2);
        assert(acc.push(v0) + tail_vals =~= acc + rest);
        assert(i + m == p + 2 + region2.len());
    }
}

#[verifier::rlimit(100)]
proof fn lemma_ind_member_shape(
    s: Seq<u8>,
    i: int,
    rest: Seq<(Seq<u8>, ValueSpec)>,
    unit: Seq<u8>,
    level: nat,
)
    requires
        producible_entries(rest),
        rest.len() > 0,
        space_unit(unit),
        0 <= i,
        i + ind_entries_region(rest, unit, level).len() <= s.len(),
        s.subrange(i, i + ind_entries_region(rest, unit, level).len()) == ind_entries_region(
            rest,
            unit,
            level,
        ),
    ensures
        ({
            let rep = sp_repeat(unit, level + 1);
            let key = rest[0].0;
            let vind = sp_indent_value(rest[0].1, unit, level + 1);
            let kstart = i + rep.len() as int;
            let cpos = kstart + key.len() as int;
            let p = cpos + 2 + vind.len() as int;
            let region2 = ind_entries_region(
                rest.subrange(1, rest.len() as int),
                unit,
                level,
            );
            &&& skip_at(s, i) == kstart
            &&& kstart < s.len()
            &&& s[kstart] != RBRACE
            &&& word_end(s, kstart) == cpos
            &&& s.subrange(kstart, cpos) == key
            &&& skip_at(s, cpos) == cpos
            &&& cpos < s.len()
            &&& s[cpos] == COLON
            &&& sp_value(s, cpos + 1) == Ok::<(ValueSpec, int), crate::value::ErrorSpec>((
                rest[0].1,
                p,
            ))
            &&& p < s.len()
            &&& skip_at(s, p) == p
            &&& s[p] == COMMA
            &&& skip_at(s, p + 1) == skip_at(s, p + 2)
            &&& p + 2 + region2.len() == i + ind_entries_region(rest, unit, level).len()
            &&& p + 2 + region2.len() <= s.len()
            &&& s.subrange(p + 2, p + 2 + region2.len() as int) == region2
        }),
    decreases rest, 0nat,
{
    let region = ind_entries_region(rest, unit, level);
    let m = region.len() as int;
    assert(forall|j: int| i <= j < i + m ==> s[j] == region[j - i]) by {
        assert(forall|j: int| i <= j < i + m ==> s.subrange(i, i + m)[j - i] == s[j]);
    }
    let rep = sp_repeat(unit, level + 1);
    let key = rest[0].0;
    let v0 = rest[0].1;
    let tail_ents = rest.subrange(1, rest.len() as int);
    let vind = sp_indent_value(v0, unit, level + 1);
    assert(word_key(key) && producible(v0));
    assert(region == rep + key + seq![COLON, crate::text::SP] + vind + seq![
        COMMA,
        crate::text::LF,
    ] + ind_entries_region(tail_ents, unit, level));
    lemma_repeat_spaces(unit, level + 1);
    assert(forall|x: int| i <= x < i + rep.len() ==> is_space(#[trigger] s[x]));
    lemma_skip_at_spaces(s, i, i + rep.len() as int);
    let kstart = i + rep.len() as int;
    assert(forall|x: int|
        kstart <= x < kstart + key.len() ==> is_word_byte(#[trigger] s[x])) by {
        assert(forall|x: int|
            kstart <= x < kstart + key.len() ==> s[x] == key[x - kstart]);
    }
    let cpos = kstart + key.len() as int;
    assert(s[cpos] == COLON);
    assert(!is_space(s[kstart]) && s[kstart] != crate::text::SLASH && s[kstart] != RBRACE) by {
        if key.len() == 0 {
            assert(s[kstart] == COLON);
        } else {
            assert(s[kstart] == key[0]);
            assert(is_word_byte(key[0]));
        }
    }
    lemma_skip_at_fixed(s, kstart);
    assert(!is_word_byte(COLON));
    lemma_word_end_is(s, kstart, cpos);
    assert(s.subrange(kstart, cpos) =~= key);
    lemma_skip_at_fixed(s, cpos);
    assert(s[cpos + 1] == crate::text::SP);
    let vstart = cpos + 2;
    lemma_indent_head(v0, unit, level + 1);
    assert(s.subrange(vstart, vstart + vind.len() as int) =~= vind) by {
        assert(forall|x: int|
            0 <= x < vind.len() ==> vind[x] == region[rep.len() + key.len() + 2 + x]);
    }
    assert(s[vstart] == vind[0]);
    let p = vstart + vind.len() as int;
    assert(s[p] == COMMA);
    assert(value_terminated(s, p));
    lemma_ind_value_roundtrip(s, vstart, v0, unit, level + 1);
    lemma_skip_at_spaces(s, cpos + 1, vstart);
    lemma_skip_at_fixed(s, vstart);
    assert(skip_at(s, cpos + 1) == vstart);
    assert(sp_value(s, cpos + 1) == sp_value(s, vstart)) by {
        lemma_skip_at(s, cpos + 1);
    }
    lemma_skip_at_fixed(s, p);
    assert(s[p + 1] == crate::text::LF);
    lemma_skip_at_spaces(s, p + 1, p + 2);
    let region2 = ind_entries_region(tail_ents, unit, level);
    assert(s.subrange(p + 2, p + 2 + region2.len() as int) =~= region2) by {
        assert(forall|x: int|
            0 <= x < region2.len() ==> region2[x] == region[rep.len() + key.len() + 2
                + vind.len() + 2 + x]);
    }
}

/// From the start of a member line, the member loop inserts exactly the
/// printed members and stops just past the closing line.
#[verifier::rlimit(100)]
proof fn lemma_ind_entries(
    s: Seq<u8>,
    i: int,
    acc: Seq<(Seq<u8>, ValueSpec)>,
    rest: Seq<(Seq<u8>, ValueSpec)>,
    unit: Seq<u8>,
    level: nat,
)
    requires
        producible_entries(rest),
        entries_sorted(acc + rest),
        space_unit(unit),
        0 <= i,
        i + ind_entries_region(rest, unit, level).len() <= s.len(),
        s.subrange(i, i + ind_entries_region(rest, unit, level).len()) == ind_entries_region(
            rest,
            unit,
            level,
        ),
    ensures
        sp_members(s, skip_at(s, i), acc) == Ok::<
            (Seq<(Seq<u8>, ValueSpec)>, int),
            crate::value::ErrorSpec,
        >((acc + rest, i + ind_entries_region(rest, unit, level).len())),
    decreases rest, 1nat,
{
    let region = ind_entries_region(rest, unit, level);
    let m = region.len() as int;
    if rest.len() == 0 {
        assert(forall|j: int| i <= j < i + m ==> s[j] == region[j - i]) by {
            assert(forall|j: int| i <= j < i + m ==> s.subrange(i, i + m)[j - i] == s[j]);
        }
        let rep = sp_repeat(unit, level);
        assert(region == rep + seq![RBRACE]);
        lemma_repeat_spaces(unit, level);
        assert(forall|x: int| i <= x < i + rep.len() ==> is_space(#[trigger] s[x]));
        lemma_skip_at_spaces(s, i, i + rep.len() as int);
        assert(s[i + rep.len()] == RBRACE);
        lemma_skip_at_fixed(s, i + rep.len() as int);
        assert(acc + rest =~= acc);
    } else {
        lemma_ind_member_shape(s, i, rest, unit, level);
        let key = rest[0].0;
        let v0 = rest[0].1;
        let tail_ents = rest.subrange(1, rest.len() as int);
        assert(producible_entries(tail_ents));
        let kstart = i + sp_repeat(unit, level + 1).len() as int;
        let cpos = kstart + key.len() as int;
        let p = cpos + 2 + sp_indent_value(v0, unit, level + 1).len() as int;
        let region2 = ind_entries_region(tail_ents, unit, level);
        assert(forall|j: int| 0 <= j < acc.len() ==> lex_lt((#[trigger] acc[j]).0, key)) by {
            assert(forall|j: int| 0 <= j < acc.len() ==> (acc + rest)[j] == (#[trigger] acc[j]));
            assert((acc + rest)[acc.len() as int] == rest[0]);
        }
        lemma_insert_append(acc, key, v0);
        assert(acc + seq![(key, v0)] =~= acc.push(rest[0]));
        assert(acc.push(rest[0]) + tail_ents =~= acc + rest);
        lemma_ind_entries(s, p + 2, acc.push(rest[0]), tail_ents, unit, level);
        lemma_skip_at(s, p + 1);
        lemma_skip_at(s, p + 2);
        assert(i + m == p + 2 + region2.len());
    }
}

/// Round-trip in indented mode: with a whitespace indent unit, parsing the
/// indented text of a producible document tree yields exactly that tree.
pub proof fn lemma_parse_of_stringify_indented(
    entries: Seq<(Seq<u8>, ValueSpec)>,
    unit: Seq<u8>,
)
    requires
        producible(ValueSpec::Object(entries)),
        space_unit(unit),
    ensures
        sp_document(sp_indent_value(ValueSpec::Object(entries), unit, 0), 0) == Ok::<
            Seq<(Seq<u8>, ValueSpec)>,
            crate::value::ErrorSpec,
        >(entries),
{
    let s = sp_indent_value(ValueSpec::Object(entries), unit, 0);
    assert(s[0] == LBRACE);
    lemma_skip_at_fixed(s, 0);
    assert(Seq::<(Seq<u8>, ValueSpec)>::empty() + entries =~= entries);
    if entries.len() == 0 {
        assert(s == seq![LBRACE, RBRACE]);
        assert(s[1] == RBRACE);
        lemma_skip_at_fixed(s, 1);
        assert(s.subrange(1, 2) =~= sp_compact_entries(entries) + seq![RBRACE]);
        lemma_entries_roundtrip(s, 1, Seq::empty(), entries);
    } else {
        lemma_ind_entries_region(entries, unit, 0);
        let region = ind_entries_region(entries, unit, 0);
        assert(sp_repeat(unit, 0) =~= Seq::<u8>::empty());
        assert(s == seq![LBRACE, crate::text::LF] + region) by {
            assert(s == seq![LBRACE, crate::text::LF] + sp_indent_entries(entries, unit, 0)
                + sp_repeat(unit, 0) + seq![RBRACE]);
            assert(seq![LBRACE, crate::text::LF] + (sp_indent_entries(entries, unit, 0)
                + sp_repeat(unit, 0) + seq![RBRACE]) =~= s);
        }
        assert(s.subrange(2, 2 + region.len() as int) =~= region) by {
            assert(forall|x: int| 0 <= x < region.len() ==> region[x] == s[2 + x]);
        }
        lemma_ind_entries(s, 2, Seq::empty(), entries, unit, 0);
        assert(s[1] == crate::text::LF);
        lemma_skip_at_spaces(s, 1, 2);
        lemma_skip_at(s, 1);
        lemma_skip_at(s, 2);
    }
}

/// Canonicalization is idempotent: printing what a compact text parses to
/// gives that text back, byte for byte.
pub proof fn lemma_stringify_idempotent_compact(entries: Seq<(Seq<u8>, ValueSpec)>)
    requires
        producible(ValueSpec::Object(entries)),
    ensures
        ({
            let text = sp_compact_value(ValueSpec::Object(entries));
            sp_document(text, 0) matches Ok(back) && sp_compact_value(ValueSpec::Object(back))
                == text
        }),
{
    lemma_parse_of_stringify_compact(entries);
}

} // verus!

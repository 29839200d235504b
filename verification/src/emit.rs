//! The canonical stringifier. A value tree goes to text in one of two
//! modes: compact, with no inserted whitespace and `,` between neighbours;
//! or indented, where every element and member ends in `,` and a newline —
//! the trailing comma the grammar tolerates is put to use — and each
//! nesting level is indented one more unit. Objects are emitted in their
//! stored order, which the sorted insertion of parsing makes the canonical
//! ascending key order.

use vstd::prelude::*;
use vstd::string::StringSliceAdditionalSpecFns;
use crate::text::{
    COLON, COMMA, D0, LBRACE, LBRACK, LF, LPAR, MINUS, RBRACE, RBRACK, RPAR, SP, TICK, UB, UD,
    UF, UN, UT, decimal_of_int, decimal_of_nat, hex_digit_upper, hex_encode,
};
use crate::value::{DTXTError, DTXTValue, ErrorSpec, ValueSpec, view_value, view_values, view_entries, lemma_view_values_index, lemma_view_entries_index};

verus! {

/// `unit` written `n` times over.
pub open spec fn sp_repeat(unit: Seq<u8>, n: nat) -> Seq<u8>
    decreases n,
{
    if n == 0 {
        Seq::empty()
    } else {
        sp_repeat(unit, (n - 1) as nat) + unit
    }
}

/// A value in compact mode.
pub open spec fn sp_compact_value(v: ValueSpec) -> Seq<u8>
    decreases v,
{
    match v {
        ValueSpec::Str(t) => seq![TICK] + t + seq![TICK],
        ValueSpec::Number(t) => t,
        ValueSpec::Bool(b) => if b {
            seq![UT]
        } else {
            seq![UF]
        },
        ValueSpec::Null => seq![UN],
        ValueSpec::BigInt(n) => seq![UB, UN, LPAR] + decimal_of_int(n) + seq![RPAR],
        ValueSpec::Date(t) => seq![UD, LPAR] + t + seq![RPAR],
        ValueSpec::Bytes(b) => seq![UB, LPAR] + hex_encode(b) + seq![RPAR],
        ValueSpec::Array(items) => if items.len() == 0 {
            seq![LBRACK, RBRACK]
        } else {
            seq![LBRACK] + sp_compact_items(items) + seq![RBRACK]
        },
        ValueSpec::Object(entries) => if entries.len() == 0 {
            seq![LBRACE, RBRACE]
        } else {
            seq![LBRACE] + sp_compact_entries(entries) + seq![RBRACE]
        },
    }
}

/// The elements of a non-empty array, `,` between neighbours, none at the end.
pub open spec fn sp_compact_items(items: Seq<ValueSpec>) -> Seq<u8>
    decreases items,
{
    if items.len() == 0 {
        Seq::empty()
    } else {
        sp_compact_value(items[0]) + sp_compact_items_tail(items.subrange(1, items.len() as int))
    }
}

pub open spec fn sp_compact_items_tail(items: Seq<ValueSpec>) -> Seq<u8>
    decreases items,
{
    if items.len() == 0 {
        Seq::empty()
    } else {
        seq![COMMA] + sp_compact_value(items[0]) + sp_compact_items_tail(
            items.subrange(1, items.len() as int),
        )
    }
}

/// The members of a non-empty object, `key:value`, `,` between neighbours.
pub open spec fn sp_compact_entries(entries: Seq<(Seq<u8>, ValueSpec)>) -> Seq<u8>
    decreases entries,
{
    if entries.len() == 0 {
        Seq::empty()
    } else {
        entries[0].0 + seq![COLON] + sp_compact_value(entries[0].1) + sp_compact_entries_tail(
            entries.subrange(1, entries.len() as int),
        )
    }
}

pub open spec fn sp_compact_entries_tail(entries: Seq<(Seq<u8>, ValueSpec)>) -> Seq<u8>
    decreases entries,
{
    if entries.len() == 0 {
        Seq::empty()
    } else {
        seq![COMMA] + entries[0].0 + seq![COLON] + sp_compact_value(entries[0].1)
            + sp_compact_entries_tail(entries.subrange(1, entries.len() as int))
    }
}

/// A value in indented mode, standing at nesting depth `level`.
pub open spec fn sp_indent_value(v: ValueSpec, unit: Seq<u8>, level: nat) -> Seq<u8>
    decreases v,
{
    match v {
        ValueSpec::Array(items) => if items.len() == 0 {
            seq![LBRACK, RBRACK]
        } else {
            seq![LBRACK, LF] + sp_indent_items(items, unit, level) + sp_repeat(unit, level)
                + seq![RBRACK]
        },
        ValueSpec::Object(entries) => if entries.len() == 0 {
            seq![LBRACE, RBRACE]
        } else {
            seq![LBRACE, LF] + sp_indent_entries(entries, unit, level) + sp_repeat(unit, level)
                + seq![RBRACE]
        },
        _ => sp_compact_value(v),
    }
}

/// Each element on its own line: one more unit of indentation, the
/// element, `,` and a newline — the last one too.
pub open spec fn sp_indent_items(items: Seq<ValueSpec>, unit: Seq<u8>, level: nat) -> Seq<u8>
    decreases items,
{
    if items.len() == 0 {
        Seq::empty()
    } else {
        sp_repeat(unit, level + 1) + sp_indent_value(items[0], unit, level + 1) + seq![COMMA, LF]
            + sp_indent_items(items.subrange(1, items.len() as int), unit, level)
    }
}

/// Each member on its own line: indentation, `key: value`, `,`, newline.
pub open spec fn sp_indent_entries(
    entries: Seq<(Seq<u8>, ValueSpec)>,
    unit: Seq<u8>,
    level: nat,
) -> Seq<u8>
    decreases entries,
{
    if entries.len() == 0 {
        Seq::empty()
    } else {
        sp_repeat(unit, level + 1) + entries[0].0 + seq![COLON, SP] + sp_indent_value(
            entries[0].1,
            unit,
            level + 1,
        ) + seq![COMMA, LF] + sp_indent_entries(
            entries.subrange(1, entries.len() as int),
            unit,
            level,
        )
    }
}

/// What `stringify` returns: compact without an indent unit, indented with one.
pub open spec fn sp_stringify(v: ValueSpec, ind: Option<Seq<u8>>) -> Seq<u8> {
    match ind {
        Option::None => sp_compact_value(v),
        Option::Some(unit) => sp_indent_value(v, unit, 0),
    }
}

/// One unsigned integer in decimal, most significant digit first.
fn emit_decimal_u64(n: u64, out: &mut Vec<u8>)
    ensures
        final (out)@ == old(out)@ + decimal_of_nat(n as nat),
    decreases n,
{
    if n < 10 {
        out.push(D0 + (n as u8));
        proof {
            assert(final (out)@ =~= old(out)@ + decimal_of_nat(n as nat));
        }
    } else {
        emit_decimal_u64(n / 10, out);
        out.push(D0 + ((n % 10) as u8));
        proof {
            assert(final (out)@ =~= old(out)@ + decimal_of_nat(n as nat));
        }
    }
}

/// One signed integer in decimal, `-` first when negative.
fn emit_decimal_i64(n: i64, out: &mut Vec<u8>)
    ensures
        final (out)@ == old(out)@ + decimal_of_int(n as int),
{
    if n >= 0 {
        emit_decimal_u64(n as u64, out);
    } else {
        out.push(MINUS);
        let mag: u64 = ((-(n + 1)) as u64) + 1;
        proof {
            assert(mag as int == -(n as int));
        }
        emit_decimal_u64(mag, out);
        proof {
            assert(final (out)@ =~= old(out)@ + (seq![MINUS] + decimal_of_nat((-(n as int)) as nat)));
        }
    }
}

fn hex_digit_upper_x(n: u8) -> (r: u8)
    requires
        n < 16,
    ensures
        r == hex_digit_upper(n),
{
    if n < 10 {
        D0 + n
    } else {
        crate::text::UA + (n - 10)
    }
}

/// A byte string as upper-case hex, two digits per byte.
fn emit_hex(bytes: &Vec<u8>, out: &mut Vec<u8>)
    ensures
        final (out)@ == old(out)@ + hex_encode(bytes@),
{
    let n = bytes.len();
    proof {
        assert(bytes@.subrange(0, n as int) =~= bytes@);
    }
    let mut i: usize = 0;
    while i < n
        invariant
            i <= n,
            n == bytes@.len(),
            out@ + hex_encode(bytes@.subrange(i as int, n as int)) == old(out)@ + hex_encode(
                bytes@,
            ),
        decreases n - i,
    {
        let ghost pending = bytes@.subrange(i as int, n as int);
        let ghost before = out@;
        let b = bytes[i];
        out.push(hex_digit_upper_x(b / 16));
        out.push(hex_digit_upper_x(b % 16));
        proof {
            assert(pending[0] == b);
            assert(pending.drop_first() =~= bytes@.subrange(i + 1 as int, n as int));
            assert(hex_encode(pending) == seq![hex_digit_upper(b / 16), hex_digit_upper(b % 16)]
                + hex_encode(bytes@.subrange(i + 1 as int, n as int)));
            assert(out@ + hex_encode(bytes@.subrange(i + 1 as int, n as int)) =~= before
                + hex_encode(pending));
        }
        i = i + 1;
    }
    proof {
        assert(bytes@.subrange(n as int, n as int) =~= Seq::<u8>::empty());
        assert(out@ =~= old(out)@ + hex_encode(bytes@));
    }
}

/// A value in compact mode, appended to `out`.
#[verifier::loop_isolation(false)]
pub(crate) fn emit_compact(v: &DTXTValue, out: &mut Vec<u8>)
    ensures
        final (out)@ == old(out)@ + sp_compact_value(view_value(*v)),
    decreases *v,
{
    match v {
        DTXTValue::Str(t) => {
            out.push(TICK);
            out.extend_from_slice(t.as_slice());
            out.push(TICK);
            proof {
                assert(out@ =~= old(out)@ + (seq![TICK] + t@ + seq![TICK]));
            }
        },
        DTXTValue::Number(t) => {
            out.extend_from_slice(t.as_slice());
            proof {
                assert(out@ =~= old(out)@ + t@);
            }
        },
        DTXTValue::Bool(b) => {
            out.push(if *b {
                UT
            } else {
                UF
            });
            proof {
                assert(out@ =~= old(out)@ + sp_compact_value(view_value(*v)));
            }
        },
        DTXTValue::Null => {
            out.push(UN);
            proof {
                assert(out@ =~= old(out)@ + seq![UN]);
            }
        },
        DTXTValue::BigInt(n) => {
            out.push(UB);
            out.push(UN);
            out.push(LPAR);
            emit_decimal_i64(*n, out);
            out.push(RPAR);
            proof {
                assert(out@ =~= old(out)@ + (seq![UB, UN, LPAR] + decimal_of_int(*n as int)
                    + seq![RPAR]));
            }
        },
        DTXTValue::Date(t) => {
            out.push(UD);
            out.push(LPAR);
            out.extend_from_slice(t.as_slice());
            out.push(RPAR);
            proof {
                assert(out@ =~= old(out)@ + (seq![UD, LPAR] + t@ + seq![RPAR]));
            }
        },
        DTXTValue::Bytes(b) => {
            out.push(UB);
            out.push(LPAR);
            emit_hex(b, out);
            out.push(RPAR);
            proof {
                assert(out@ =~= old(out)@ + (seq![UB, LPAR] + hex_encode(b@) + seq![RPAR]));
            }
        },
        DTXTValue::Array(arr) => {
            proof {
                lemma_view_values_index(arr@);
            }
            let ghost its = view_values(arr@);
            if arr.len() == 0 {
                out.push(LBRACK);
                out.push(RBRACK);
                proof {
                    assert(out@ =~= old(out)@ + seq![LBRACK, RBRACK]);
                }
            } else {
                out.push(LBRACK);
                proof {
                    assert(decreases_to!(*v => arr@[0]));
                }
                emit_compact(&arr[0], out);
                proof {
                    assert(out@ + sp_compact_items_tail(its.subrange(1, its.len() as int))
                        + seq![RBRACK] =~= old(out)@ + sp_compact_value(ValueSpec::Array(its)));
                }
                let mut i: usize = 1;
                while i < arr.len()
                    invariant
                        1 <= i <= arr@.len(),
                        *v == DTXTValue::Array(*arr),
                        its == view_values(arr@),
                        its.len() == arr@.len(),
                        out@ + sp_compact_items_tail(its.subrange(i as int, its.len() as int))
                            + seq![RBRACK] == old(out)@ + sp_compact_value(ValueSpec::Array(its)),
                    decreases arr@.len() - i,
                {
                    proof {
                        lemma_view_values_index(arr@);
                    }
                    let ghost pend = its.subrange(i as int, its.len() as int);
                    let ghost before = out@;
                    out.push(COMMA);
                    proof {
                        assert(decreases_to!(*v => arr@[i as int]));
                    }
                    emit_compact(&arr[i], out);
                    proof {
                        assert(pend[0] == its[i as int]);
                        assert(pend.subrange(1, pend.len() as int) =~= its.subrange(
                            i + 1 as int,
                            its.len() as int,
                        ));
                        assert(sp_compact_items_tail(pend) == seq![COMMA] + sp_compact_value(
                            pend[0],
                        ) + sp_compact_items_tail(its.subrange(i + 1 as int, its.len() as int)));
                        assert(out@ + sp_compact_items_tail(
                            its.subrange(i + 1 as int, its.len() as int),
                        ) =~= before + sp_compact_items_tail(pend));
                    }
                    i = i + 1;
                }
                proof {
                    assert(its.subrange(arr@.len() as int, its.len() as int) =~= Seq::<
                        ValueSpec,
                    >::empty());
                }
                out.push(RBRACK);
                proof {
                    assert(out@ =~= old(out)@ + sp_compact_value(ValueSpec::Array(its)));
                }
            }
        },
        DTXTValue::Object(entries) => {
            proof {
                lemma_view_entries_index(entries@);
            }
            let ghost ents = view_entries(entries@);
            if entries.len() == 0 {
                out.push(LBRACE);
                out.push(RBRACE);
                proof {
                    assert(out@ =~= old(out)@ + seq![LBRACE, RBRACE]);
                }
            } else {
                out.push(LBRACE);
                let first = &entries[0];
                out.extend_from_slice(first.0.as_slice());
                out.push(COLON);
                proof {
                    assert(decreases_to!(*v => entries@[0].1));
                }
                emit_compact(&first.1, out);
                proof {
                    assert(out@ + sp_compact_entries_tail(ents.subrange(1, ents.len() as int))
                        + seq![RBRACE] =~= old(out)@ + sp_compact_value(
                        ValueSpec::Object(ents),
                    ));
                }
                let mut i: usize = 1;
                while i < entries.len()
                    invariant
                        1 <= i <= entries@.len(),
                        *v == DTXTValue::Object(*entries),
                        ents == view_entries(entries@),
                        ents.len() == entries@.len(),
                        out@ + sp_compact_entries_tail(ents.subrange(i as int, ents.len() as int))
                            + seq![RBRACE] == old(out)@ + sp_compact_value(
                            ValueSpec::Object(ents),
                        ),
                    decreases entries@.len() - i,
                {
                    proof {
                        lemma_view_entries_index(entries@);
                    }
                    let ghost pend = ents.subrange(i as int, ents.len() as int);
                    let ghost before = out@;
                    out.push(COMMA);
                    let pair = &entries[i];
                    out.extend_from_slice(pair.0.as_slice());
                    out.push(COLON);
                    proof {
                        assert(decreases_to!(*v => entries@[i as int].1));
                    }
                    emit_compact(&pair.1, out);
                    proof {
                        assert(pend[0] == ents[i as int]);
                        assert(pend.subrange(1, pend.len() as int) =~= ents.subrange(
                            i + 1 as int,
                            ents.len() as int,
                        ));
                        assert(sp_compact_entries_tail(pend) == seq![COMMA] + pend[0].0
                            + seq![COLON] + sp_compact_value(pend[0].1)
                            + sp_compact_entries_tail(
                            ents.subrange(i + 1 as int, ents.len() as int),
                        ));
                        assert(out@ + sp_compact_entries_tail(
                            ents.subrange(i + 1 as int, ents.len() as int),
                        ) =~= before + sp_compact_entries_tail(pend));
                    }
                    i = i + 1;
                }
                proof {
                    assert(ents.subrange(entries@.len() as int, ents.len() as int) =~= Seq::<
                        (Seq<u8>, ValueSpec),
                    >::empty());
                }
                out.push(RBRACE);
                proof {
                    assert(out@ =~= old(out)@ + sp_compact_value(ValueSpec::Object(ents)));
                }
            }
        },
    }
}

/// A value in indented mode at depth `level`, appended to `out`. The
/// caller hands the current indentation in full as `prefix`.
#[verifier::loop_isolation(false)]
#[verifier::rlimit(60)]
pub(crate) fn emit_indented(
    v: &DTXTValue,
    out: &mut Vec<u8>,
    unit: &[u8],
    prefix: &[u8],
    Ghost(level): Ghost<nat>,
)
    requires
        prefix@ == sp_repeat(unit@, level),
    ensures
        final (out)@ == old(out)@ + sp_indent_value(view_value(*v), unit@, level),
    decreases *v,
{
    match v {
        DTXTValue::Array(arr) => {
            proof {
                lemma_view_values_index(arr@);
            }
            let ghost its = view_values(arr@);
            if arr.len() == 0 {
                out.push(LBRACK);
                out.push(RBRACK);
                proof {
                    assert(out@ =~= old(out)@ + seq![LBRACK, RBRACK]);
                }
            } else {
                out.push(LBRACK);
                out.push(LF);
                let mut child_prefix: Vec<u8> = vstd::slice::slice_to_vec(prefix);
                child_prefix.extend_from_slice(unit);
                proof {
                    assert(child_prefix@ =~= sp_repeat(unit@, level + 1));
                    assert(its.subrange(0, its.len() as int) =~= its);
                    assert(out@ + sp_indent_items(its.subrange(0, its.len() as int), unit@, level)
                        + sp_repeat(unit@, level) + seq![RBRACK] =~= old(out)@ + sp_indent_value(
                        ValueSpec::Array(its),
                        unit@,
                        level,
                    ));
                }
                let mut i: usize = 0;
                while i < arr.len()
                    invariant
                        i <= arr@.len(),
                        *v == DTXTValue::Array(*arr),
                        its == view_values(arr@),
                        its.len() == arr@.len(),
                        child_prefix@ == sp_repeat(unit@, level + 1),
                        out@ + sp_indent_items(
                            its.subrange(i as int, its.len() as int),
                            unit@,
                            level,
                        ) + sp_repeat(unit@, level) + seq![RBRACK] == old(out)@ + sp_indent_value(
                            ValueSpec::Array(its),
                            unit@,
                            level,
                        ),
                    decreases arr@.len() - i,
                {
                    proof {
                        lemma_view_values_index(arr@);
                    }
                    let ghost pend = its.subrange(i as int, its.len() as int);
                    let ghost before = out@;
                    out.extend_from_slice(child_prefix.as_slice());
                    proof {
                        assert(decreases_to!(*v => arr@[i as int]));
                    }
                    emit_indented(&arr[i], out, unit, child_prefix.as_slice(), Ghost(level + 1));
                    out.push(COMMA);
                    out.push(LF);
                    proof {
                        assert(pend[0] == its[i as int]);
                        assert(pend.subrange(1, pend.len() as int) =~= its.subrange(
                            i + 1 as int,
                            its.len() as int,
                        ));
                        assert(sp_indent_items(pend, unit@, level) == sp_repeat(unit@, level + 1)
                            + sp_indent_value(pend[0], unit@, level + 1) + seq![COMMA, LF]
                            + sp_indent_items(
                            its.subrange(i + 1 as int, its.len() as int),
                            unit@,
                            level,
                        ));
                        assert(out@ + sp_indent_items(
                            its.subrange(i + 1 as int, its.len() as int),
                            unit@,
                            level,
                        ) =~= before + sp_indent_items(pend, unit@, level));
                    }
                    i = i + 1;
                }
                proof {
                    assert(its.subrange(arr@.len() as int, its.len() as int) =~= Seq::<
                        ValueSpec,
                    >::empty());
                }
                out.extend_from_slice(prefix);
                out.push(RBRACK);
                proof {
                    assert(out@ =~= old(out)@ + sp_indent_value(
                        ValueSpec::Array(its),
                        unit@,
                        level,
                    ));
                }
            }
        },
        DTXTValue::Object(entries) => {
            proof {
                lemma_view_entries_index(entries@);
            }
            let ghost ents = view_entries(entries@);
            if entries.len() == 0 {
                out.push(LBRACE);
                out.push(RBRACE);
                proof {
                    assert(out@ =~= old(out)@ + seq![LBRACE, RBRACE]);
                }
            } else {
                out.push(LBRACE);
                out.push(LF);
                let mut child_prefix: Vec<u8> = vstd::slice::slice_to_vec(prefix);
                child_prefix.extend_from_slice(unit);
                proof {
                    assert(child_prefix@ =~= sp_repeat(unit@, level + 1));
                    assert(ents.subrange(0, ents.len() as int) =~= ents);
                    assert(out@ + sp_indent_entries(
                        ents.subrange(0, ents.len() as int),
                        unit@,
                        level,
                    ) + sp_repeat(unit@, level) + seq![RBRACE] =~= old(out)@ + sp_indent_value(
                        ValueSpec::Object(ents),
                        unit@,
                        level,
                    ));
                }
                let mut i: usize = 0;
                while i < entries.len()
                    invariant
                        i <= entries@.len(),
                        *v == DTXTValue::Object(*entries),
                        ents == view_entries(entries@),
                        ents.len() == entries@.len(),
                        child_prefix@ == sp_repeat(unit@, level + 1),
                        out@ + sp_indent_entries(
                            ents.subrange(i as int, ents.len() as int),
                            unit@,
                            level,
                        ) + sp_repeat(unit@, level) + seq![RBRACE] == old(out)@ + sp_indent_value(
                            ValueSpec::Object(ents),
                            unit@,
                            level,
                        ),
                    decreases entries@.len() - i,
                {
                    proof {
                        lemma_view_entries_index(entries@);
                    }
                    let ghost pend = ents.subrange(i as int, ents.len() as int);
                    let ghost before = out@;
                    out.extend_from_slice(child_prefix.as_slice());
                    let pair = &entries[i];
                    out.extend_from_slice(pair.0.as_slice());
                    out.push(COLON);
                    out.push(SP);
                    proof {
                        assert(decreases_to!(*v => entries@[i as int].1));
                    }
                    emit_indented(&pair.1, out, unit, child_prefix.as_slice(), Ghost(level + 1));
                    out.push(COMMA);
                    out.push(LF);
                    proof {
                        assert(pend[0] == ents[i as int]);
                        assert(pend.subrange(1, pend.len() as int) =~= ents.subrange(
                            i + 1 as int,
                            ents.len() as int,
                        ));
                        assert(sp_indent_entries(pend, unit@, level) == sp_repeat(unit@, level + 1)
                            + pend[0].0 + seq![COLON, SP] + sp_indent_value(
                            pend[0].1,
                            unit@,
                            level + 1,
                        ) + seq![COMMA, LF] + sp_indent_entries(
                            ents.subrange(i + 1 as int, ents.len() as int),
                            unit@,
                            level,
                        ));
                        assert(out@ + sp_indent_entries(
                            ents.subrange(i + 1 as int, ents.len() as int),
                            unit@,
                            level,
                        ) =~= before + sp_indent_entries(pend, unit@, level));
                    }
                    i = i + 1;
                }
                proof {
                    assert(ents.subrange(entries@.len() as int, ents.len() as int) =~= Seq::<
                        (Seq<u8>, ValueSpec),
                    >::empty());
                }
                out.extend_from_slice(prefix);
                out.push(RBRACE);
                proof {
                    assert(out@ =~= old(out)@ + sp_indent_value(
                        ValueSpec::Object(ents),
                        unit@,
                        level,
                    ));
                }
            }
        },
        _ => {
            emit_compact(v, out);
        },
    }
}

/// What each error reads as: the diagnostic line callers surface.
pub open spec fn spec_message(e: ErrorSpec) -> Seq<u8> {
    match e {
        ErrorSpec::UnexpectedChar(p, b) => "Unexpected char at ".spec_bytes() + decimal_of_int(p)
            + ": ".spec_bytes() + seq![b],
        ErrorSpec::UnexpectedEOF => "Unexpected end of file".spec_bytes(),
        ErrorSpec::InvalidNumber(t) => "Invalid number: ".spec_bytes() + t,
        ErrorSpec::InvalidConstructor(t) => "Invalid constructor: ".spec_bytes() + t,
        ErrorSpec::TrailingData(p) => "Trailing data at position ".spec_bytes() + decimal_of_int(
            p,
        ),
    }
}

impl DTXTError {
    /// The diagnostic line for this error, as text bytes.
    pub fn message(&self) -> (r: Vec<u8>)
        ensures
            r@ == spec_message(self@),
    {
        let mut out: Vec<u8> = Vec::new();
        match self {
            DTXTError::UnexpectedChar(p, c) => {
                out.extend_from_slice("Unexpected char at ".as_bytes());
                emit_decimal_u64(*p as u64, &mut out);
                out.extend_from_slice(": ".as_bytes());
                out.push(*c as u8);
                proof {
                    assert(out@ =~= spec_message(self@));
                }
            },
            DTXTError::UnexpectedEOF => {
                out.extend_from_slice("Unexpected end of file".as_bytes());
                proof {
                    assert(out@ =~= spec_message(self@));
                }
            },
            DTXTError::InvalidNumber(t) => {
                out.extend_from_slice("Invalid number: ".as_bytes());
                out.extend_from_slice(t.as_slice());
                proof {
                    assert(out@ =~= spec_message(self@));
                }
            },
            DTXTError::InvalidConstructor(t) => {
                out.extend_from_slice("Invalid constructor: ".as_bytes());
                out.extend_from_slice(t.as_slice());
                proof {
                    assert(out@ =~= spec_message(self@));
                }
            },
            DTXTError::TrailingData(p) => {
                out.extend_from_slice("Trailing data at position ".as_bytes());
                emit_decimal_u64(*p as u64, &mut out);
                proof {
                    assert(out@ =~= spec_message(self@));
                }
            },
        }
        out
    }
}

} // verus!

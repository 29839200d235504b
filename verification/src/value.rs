//! The value model: the tree a document parses to, and the errors a parse
//! can end in.
//!
//! Objects are kept as association lists sorted by key in ascending byte
//! order, with each key held once. That order is the canonical emission
//! order, so the stringifier can walk an object as it stands.

use vstd::prelude::*;

verus! {

/// The mathematical shape of a value tree: what contracts and proofs speak of.
///
/// Text payloads are byte sequences; a number is carried as its canonical
/// decimal text; an object is a sequence of key/value pairs sorted strictly
/// by key.
pub enum ValueSpec {
    Str(Seq<u8>),
    Number(Seq<u8>),
    Bool(bool),
    Null,
    BigInt(int),
    Date(Seq<u8>),
    Bytes(Seq<u8>),
    Array(Seq<ValueSpec>),
    Object(Seq<(Seq<u8>, ValueSpec)>),
}

/// A DTXT value.
///
/// `Str`, `Date` and object keys hold UTF-8 text as bytes; `Number` holds
/// the number's canonical decimal text (shortest text that reads back to
/// the same double); `BigInt` carries an exact signed 64-bit integer.
#[derive(Debug, PartialEq)]
pub enum DTXTValue {
    Str(Vec<u8>),
    Number(Vec<u8>),
    Bool(bool),
    Null,
    BigInt(i64),
    Date(Vec<u8>),
    Bytes(Vec<u8>),
    Array(Vec<DTXTValue>),
    Object(Vec<(Vec<u8>, DTXTValue)>),
}

/// The entries of a parsed document: the top level of DTXT is always an object.
pub type DTXTObject = Vec<(Vec<u8>, DTXTValue)>;

/// Everything a parse can fail with. Positions are byte offsets into the input.
#[derive(Debug, Clone, PartialEq, Eq)]
pub enum DTXTError {
    /// A byte appeared where the grammar required something else.
    UnexpectedChar(usize, char),
    /// The input ended inside an open structure, string or constructor payload.
    UnexpectedEOF,
    /// A numeric lexeme could not be converted to a double.
    InvalidNumber(Vec<u8>),
    /// An unknown constructor, a known one with a malformed payload, or a
    /// constructor identifier with no following `(`.
    InvalidConstructor(Vec<u8>),
    /// Bytes other than whitespace and comments remained after the object.
    TrailingData(usize),
}

/// The mathematical shape of a parse error.
pub enum ErrorSpec {
    UnexpectedChar(int, u8),
    UnexpectedEOF,
    InvalidNumber(Seq<u8>),
    InvalidConstructor(Seq<u8>),
    TrailingData(int),
}

pub open spec fn view_value(v: DTXTValue) -> ValueSpec
    decreases v,
{
    match v {
        DTXTValue::Str(t) => ValueSpec::Str(t@),
        DTXTValue::Number(t) => ValueSpec::Number(t@),
        DTXTValue::Bool(b) => ValueSpec::Bool(b),
        DTXTValue::Null => ValueSpec::Null,
        DTXTValue::BigInt(n) => ValueSpec::BigInt(n as int),
        DTXTValue::Date(t) => ValueSpec::Date(t@),
        DTXTValue::Bytes(t) => ValueSpec::Bytes(t@),
        DTXTValue::Array(items) => ValueSpec::Array(view_values(items@)),
        DTXTValue::Object(entries) => ValueSpec::Object(view_entries(entries@)),
    }
}

pub open spec fn view_values(items: Seq<DTXTValue>) -> Seq<ValueSpec>
    decreases items,
{
    if items.len() == 0 {
        Seq::empty()
    } else {
        seq![view_value(items[0])] + view_values(items.drop_first())
    }
}

pub open spec fn view_entries(entries: Seq<(Vec<u8>, DTXTValue)>) -> Seq<(Seq<u8>, ValueSpec)>
    decreases entries,
{
    if entries.len() == 0 {
        Seq::empty()
    } else {
        seq![(entries[0].0@, view_value(entries[0].1))] + view_entries(entries.drop_first())
    }
}

impl View for DTXTValue {
    type V = ValueSpec;

    open spec fn view(&self) -> ValueSpec {
        view_value(*self)
    }
}

impl View for DTXTError {
    type V = ErrorSpec;

    open spec fn view(&self) -> ErrorSpec {
        match *self {
            DTXTError::UnexpectedChar(p, c) => ErrorSpec::UnexpectedChar(p as int, c as u8),
            DTXTError::UnexpectedEOF => ErrorSpec::UnexpectedEOF,
            DTXTError::InvalidNumber(t) => ErrorSpec::InvalidNumber(t@),
            DTXTError::InvalidConstructor(t) => ErrorSpec::InvalidConstructor(t@),
            DTXTError::TrailingData(p) => ErrorSpec::TrailingData(p as int),
        }
    }
}

/// Strict ascending byte-lexicographic order on keys.
pub open spec fn lex_lt(a: Seq<u8>, b: Seq<u8>) -> bool
    decreases a.len(),
{
    if b.len() == 0 {
        false
    } else if a.len() == 0 {
        true
    } else if a[0] < b[0] {
        true
    } else if a[0] > b[0] {
        false
    } else {
        lex_lt(a.drop_first(), b.drop_first())
    }
}

/// Insertion into a sorted association list: the new pair lands at its key's
/// place, and a pair already under that key is replaced (last wins).
pub open spec fn spec_insert(
    entries: Seq<(Seq<u8>, ValueSpec)>,
    key: Seq<u8>,
    value: ValueSpec,
) -> Seq<(Seq<u8>, ValueSpec)>
    decreases entries.len(),
{
    if entries.len() == 0 {
        seq![(key, value)]
    } else if lex_lt(key, entries[0].0) {
        seq![(key, value)] + entries
    } else if key == entries[0].0 {
        seq![(key, value)] + entries.drop_first()
    } else {
        seq![entries[0]] + spec_insert(entries.drop_first(), key, value)
    }
}

/// The value under a key in a sorted association list, if any.
pub open spec fn spec_lookup(entries: Seq<(Seq<u8>, ValueSpec)>, key: Seq<u8>) -> Option<ValueSpec>
    decreases entries.len(),
{
    if entries.len() == 0 {
        Option::None
    } else if entries[0].0 == key {
        Option::Some(entries[0].1)
    } else {
        spec_lookup(entries.drop_first(), key)
    }
}

/// Keys strictly ascending: sorted with no duplicates.
pub open spec fn entries_sorted(entries: Seq<(Seq<u8>, ValueSpec)>) -> bool {
    forall|i: int, j: int|
        0 <= i < j < entries.len() ==> lex_lt(#[trigger] entries[i].0, #[trigger] entries[j].0)
}

pub proof fn lemma_view_values_index(items: Seq<DTXTValue>)
    ensures
        view_values(items).len() == items.len(),
        forall|i: int|
            0 <= i < items.len() ==> #[trigger] view_values(items)[i] == view_value(items[i]),
    decreases items.len(),
{
    if items.len() > 0 {
        lemma_view_values_index(items.drop_first());
    }
}

pub proof fn lemma_view_entries_index(entries: Seq<(Vec<u8>, DTXTValue)>)
    ensures
        view_entries(entries).len() == entries.len(),
        forall|i: int|
            0 <= i < entries.len() ==> #[trigger] view_entries(entries)[i] == (
                entries[i].0@,
                view_value(entries[i].1),
            ),
    decreases entries.len(),
{
    if entries.len() > 0 {
        lemma_view_entries_index(entries.drop_first());
    }
}

pub proof fn lemma_view_values_push(items: Seq<DTXTValue>, v: DTXTValue)
    ensures
        view_values(items.push(v)) == view_values(items).push(view_value(v)),
{
    lemma_view_values_index(items);
    lemma_view_values_index(items.push(v));
    assert(view_values(items.push(v)) =~= view_values(items).push(view_value(v)));
}

/// Two keys neither of which is below the other are the same key.
pub proof fn lemma_lex_lt_total(a: Seq<u8>, b: Seq<u8>)
    requires
        !lex_lt(a, b),
        !lex_lt(b, a),
    ensures
        a == b,
    decreases a.len(),
{
    if a.len() > 0 && b.len() > 0 {
        lemma_lex_lt_total(a.drop_first(), b.drop_first());
        assert(a =~= seq![a[0]] + a.drop_first());
        assert(b =~= seq![b[0]] + b.drop_first());
    }
}

/// Where the scan for a key's place stops, `spec_insert` either replaces in
/// place or splices the new pair in.
pub proof fn lemma_spec_insert_at(
    es: Seq<(Seq<u8>, ValueSpec)>,
    key: Seq<u8>,
    value: ValueSpec,
    idx: int,
)
    requires
        0 <= idx <= es.len(),
        forall|j: int| 0 <= j < idx ==> lex_lt(#[trigger] es[j].0, key),
        idx < es.len() ==> !lex_lt(es[idx].0, key),
    ensures
        spec_insert(es, key, value) == if idx < es.len() && es[idx].0 == key {
            es.update(idx, (key, value))
        } else {
            es.subrange(0, idx) + seq![(key, value)] + es.subrange(idx, es.len() as int)
        },
    decreases idx,
{
    if idx == 0 {
        if es.len() == 0 {
            assert(spec_insert(es, key, value) =~= es.subrange(0, 0) + seq![(key, value)]
                + es.subrange(0, 0));
        } else if lex_lt(key, es[0].0) {
            assert(spec_insert(es, key, value) =~= es.subrange(0, 0) + seq![(key, value)]
                + es.subrange(0, es.len() as int));
        } else {
            lemma_lex_lt_total(key, es[0].0);
            assert(key == es[0].0);
            assert(spec_insert(es, key, value) =~= es.update(0, (key, value)));
        }
    } else {
        assert(lex_lt(es[0].0, key));
        assert(!lex_lt(key, es[0].0)) by {
            if lex_lt(key, es[0].0) {
                lemma_lex_lt_asym(key, es[0].0);
            }
        }
        assert(key != es[0].0) by {
            if key == es[0].0 {
                lemma_lex_lt_irrefl(key);
            }
        }
        let tail = es.drop_first();
        assert(forall|j: int| 0 <= j < idx - 1 ==> lex_lt(#[trigger] tail[j].0, key));
        lemma_spec_insert_at(tail, key, value, idx - 1);
        if idx < es.len() && es[idx].0 == key {
            assert(tail[idx - 1].0 == key);
            assert(seq![es[0]] + tail.update(idx - 1, (key, value)) =~= es.update(
                idx,
                (key, value),
            ));
        } else {
            assert(seq![es[0]] + (tail.subrange(0, idx - 1) + seq![(key, value)] + tail.subrange(
                idx - 1,
                tail.len() as int,
            )) =~= es.subrange(0, idx) + seq![(key, value)] + es.subrange(idx, es.len() as int));
        }
    }
}

/// The order is strict: nothing is below itself.
pub proof fn lemma_lex_lt_irrefl(a: Seq<u8>)
    ensures
        !lex_lt(a, a),
    decreases a.len(),
{
    if a.len() > 0 {
        lemma_lex_lt_irrefl(a.drop_first());
    }
}

/// The order is asymmetric.
pub proof fn lemma_lex_lt_asym(a: Seq<u8>, b: Seq<u8>)
    requires
        lex_lt(a, b),
    ensures
        !lex_lt(b, a),
    decreases a.len(),
{
    if a.len() > 0 && b.len() > 0 && a[0] == b[0] {
        lemma_lex_lt_asym(a.drop_first(), b.drop_first());
    }
}

/// A key absent from a prefix is found, if at all, past it.
pub proof fn lemma_spec_lookup_skip(es: Seq<(Seq<u8>, ValueSpec)>, key: Seq<u8>, k: int)
    requires
        0 <= k <= es.len(),
        forall|j: int| 0 <= j < k ==> (#[trigger] es[j].0) != key,
    ensures
        spec_lookup(es, key) == spec_lookup(es.subrange(k, es.len() as int), key),
    decreases k,
{
    if k > 0 {
        let tail = es.drop_first();
        assert(es[0].0 != key);
        assert(forall|j: int| 0 <= j < k - 1 ==> (#[trigger] tail[j].0) == es[j + 1].0);
        lemma_spec_lookup_skip(tail, key, k - 1);
        assert(tail.subrange(k - 1, tail.len() as int) =~= es.subrange(k, es.len() as int));
    } else {
        assert(es.subrange(0, es.len() as int) =~= es);
    }
}

/// Whether `a` comes strictly before `b` in ascending byte order.
pub fn lex_less(a: &[u8], b: &[u8]) -> (r: bool)
    ensures
        r == lex_lt(a@, b@),
{
    let mut k: usize = 0;
    proof {
        assert(a@.subrange(0, a@.len() as int) =~= a@);
        assert(b@.subrange(0, b@.len() as int) =~= b@);
    }
    loop
        invariant
            k <= a@.len(),
            k <= b@.len(),
            forall|j: int| 0 <= j < k ==> a@[j] == b@[j],
            lex_lt(a@, b@) == lex_lt(a@.subrange(k as int, a@.len() as int), b@.subrange(k as int, b@.len() as int)),
        decreases a@.len() - k,
    {
        let ghost x = a@.subrange(k as int, a@.len() as int);
        let ghost y = b@.subrange(k as int, b@.len() as int);
        if k >= a.len() || k >= b.len() {
            proof {
                if k >= b.len() {
                    assert(y.len() == 0);
                } else {
                    assert(x.len() == 0 && y.len() > 0);
                }
            }
            return a.len() < b.len();
        }
        let ab = a[k];
        let bb = b[k];
        proof {
            assert(x[0] == ab && y[0] == bb);
        }
        if ab < bb {
            return true;
        } else if ab > bb {
            return false;
        }
        proof {
            assert(x.drop_first() =~= a@.subrange(k + 1 as int, a@.len() as int));
            assert(y.drop_first() =~= b@.subrange(k + 1 as int, b@.len() as int));
        }
        k = k + 1;
    }
}

/// Whether two byte strings hold the same bytes.
pub fn bytes_equal(a: &[u8], b: &[u8]) -> (r: bool)
    ensures
        r == (a@ == b@),
{
    if a.len() != b.len() {
        return false;
    }
    let mut k: usize = 0;
    while k < a.len()
        invariant
            a@.len() == b@.len(),
            k <= a@.len(),
            forall|j: int| 0 <= j < k ==> a@[j] == b@[j],
        decreases a@.len() - k,
    {
        if a[k] != b[k] {
            return false;
        }
        k = k + 1;
    }
    proof {
        assert(a@ =~= b@);
    }
    true
}

/// Puts `value` under `key`: at the key's place in ascending order, and in
/// place of any pair already under that key — the later insertion wins.
pub fn object_insert(entries: &mut DTXTObject, key: Vec<u8>, value: DTXTValue)
    ensures
        view_entries(final (entries)@) == spec_insert(
            view_entries(old(entries)@),
            key@,
            view_value(value),
        ),
{
    let ghost es0 = view_entries(entries@);
    proof {
        lemma_view_entries_index(entries@);
    }
    let mut idx: usize = 0;
    while idx < entries.len() && lex_less(entries[idx].0.as_slice(), key.as_slice())
        invariant
            idx <= entries@.len(),
            forall|j: int| 0 <= j < idx ==> lex_lt(#[trigger] es0[j].0, key@),
            es0 == view_entries(entries@),
            forall|i: int|
                0 <= i < entries@.len() ==> #[trigger] es0[i] == (
                    entries@[i].0@,
                    view_value(entries@[i].1),
                ),
        decreases entries@.len() - idx,
    {
        idx = idx + 1;
    }
    proof {
        lemma_spec_insert_at(es0, key@, view_value(value), idx as int);
    }
    if idx < entries.len() && bytes_equal(entries[idx].0.as_slice(), key.as_slice()) {
        entries[idx] = (key, value);
        proof {
            lemma_view_entries_update(old(entries)@, idx as int, (key, value));
        }
    } else {
        entries.insert(idx, (key, value));
        proof {
            lemma_view_entries_insert(old(entries)@, idx as int, (key, value));
        }
    }
}

pub proof fn lemma_view_entries_update(
    entries: Seq<(Vec<u8>, DTXTValue)>,
    idx: int,
    pair: (Vec<u8>, DTXTValue),
)
    requires
        0 <= idx < entries.len(),
    ensures
        view_entries(entries.update(idx, pair)) == view_entries(entries).update(
            idx,
            (pair.0@, view_value(pair.1)),
        ),
{
    lemma_view_entries_index(entries);
    lemma_view_entries_index(entries.update(idx, pair));
    assert(view_entries(entries.update(idx, pair)) =~= view_entries(entries).update(
        idx,
        (pair.0@, view_value(pair.1)),
    ));
}

pub proof fn lemma_view_entries_insert(
    entries: Seq<(Vec<u8>, DTXTValue)>,
    idx: int,
    pair: (Vec<u8>, DTXTValue),
)
    requires
        0 <= idx <= entries.len(),
    ensures
        view_entries(entries.insert(idx, pair)) == view_entries(entries).subrange(0, idx) + seq![
            (pair.0@, view_value(pair.1)),
        ] + view_entries(entries).subrange(idx, entries.len() as int),
{
    lemma_view_entries_index(entries);
    lemma_view_entries_index(entries.insert(idx, pair));
    assert(view_entries(entries.insert(idx, pair)) =~= view_entries(entries).subrange(0, idx)
        + seq![(pair.0@, view_value(pair.1))] + view_entries(entries).subrange(
        idx,
        entries.len() as int,
    ));
}

/// Where `key` stands in the object, if anywhere.
pub fn object_index_of(entries: &DTXTObject, key: &[u8]) -> (r: Option<usize>)
    ensures
        match r {
            Option::Some(i) => i < entries@.len() && entries@[i as int].0@ == key@ && spec_lookup(
                view_entries(entries@),
                key@,
            ) == Option::Some(view_value(entries@[i as int].1)),
            Option::None => spec_lookup(view_entries(entries@), key@) is None,
        },
{
    proof {
        lemma_view_entries_index(entries@);
    }
    let ghost es = view_entries(entries@);
    let mut idx: usize = 0;
    while idx < entries.len()
        invariant
            idx <= entries@.len(),
            es == view_entries(entries@),
            es.len() == entries@.len(),
            forall|j: int| 0 <= j < idx ==> (#[trigger] es[j].0) != key@,
            forall|i: int|
                0 <= i < entries@.len() ==> #[trigger] es[i] == (
                    entries@[i].0@,
                    view_value(entries@[i].1),
                ),
        decreases entries@.len() - idx,
    {
        if bytes_equal(entries[idx].0.as_slice(), key) {
            proof {
                lemma_spec_lookup_skip(es, key@, idx as int);
                assert(es.subrange(idx as int, es.len() as int)[0] == es[idx as int]);
            }
            return Some(idx);
        }
        idx = idx + 1;
    }
    proof {
        lemma_spec_lookup_skip(es, key@, idx as int);
    }
    None
}

} // verus!

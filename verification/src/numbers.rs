//! Numbers. The format has one numeric kind, an IEEE-754 double, and the
//! tree stores each number as its canonical decimal text: the shortest text
//! that reads back to the very same double. Producing that text from a
//! lexeme is the one step of the pipeline done by outside code.

use vstd::prelude::*;
use crate::text::{is_number_lexeme, is_space};

verus! {

/// The canonical decimal text of the double that the number lexeme `s`
/// denotes. A name only: what it is on given bytes comes from the outside
/// converters, not from any contract.
pub uninterp spec fn canon_num_of(s: Seq<u8>) -> Seq<u8>;

/// Whether the double that the number lexeme `s` denotes is finite, so that
/// the lexeme has a canonical text at all. A lexeme whose magnitude
/// overflows a double is the one way number conversion fails.
pub uninterp spec fn num_in_range(s: Seq<u8>) -> bool;

/// Relies on `serde_json::from_str::<serde_json::Number>` to read a decimal
/// lexeme exactly: it succeeds just when the whole input matches the JSON
/// numeric grammar — the same grammar `is_number_lexeme` states — and the
/// double fits (the crate's `float_roundtrip` feature is on, so the nearest
/// double is chosen; a magnitude that overflows is refused). Relies on
/// `serde_json::Number::as_f64` to yield that double, and on
/// `ryu::Buffer::format_finite` for the shortest decimal text that reads
/// back to the same double. Ryu's output is again a lexeme of the numeric
/// grammar, in range, and its canonical text is itself: that is the
/// round-trip guarantee the two crates document.
///
/// The reader tolerates whitespace around a number, so the conversion is
/// asked only about unpadded text: without that tolerance, it succeeds
/// just when the whole input is an in-range lexeme of the grammar.
#[verifier::external_body]
pub(crate) fn canonical_number(lexeme: &[u8]) -> (r: Option<Vec<u8>>)
    requires
        lexeme@.len() > 0,
        !is_space(lexeme@[0]),
        !is_space(lexeme@[lexeme@.len() - 1]),
    ensures
        r is Some ==> is_number_lexeme(lexeme@) && num_in_range(lexeme@),
        is_number_lexeme(lexeme@) && num_in_range(lexeme@) ==> r is Some,
        r matches Some(c) ==> c@ == canon_num_of(lexeme@) && is_number_lexeme(c@) && num_in_range(
            c@,
        ) && canon_num_of(c@) == c@,
{
    let s = match std::str::from_utf8(lexeme) {
        Ok(s) => s,
        Err(_) => return None,
    };
    let n: serde_json::Number = match serde_json::from_str(s) {
        Ok(n) => n,
        Err(_) => return None,
    };
    let x = match n.as_f64() {
        Some(x) => x,
        None => return None,
    };
    let mut buf = ryu::Buffer::new();
    Some(buf.format_finite(x).as_bytes().to_vec())
}

} // verus!

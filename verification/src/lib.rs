//! DTXT: a compact, human-readable, JSON-adjacent serialization format.
//!
//! The crate parses DTXT text into a value tree and turns a value tree back
//! into canonical DTXT text. Beyond the JSON value model it carries big
//! integers, dates and byte strings through a small constructor syntax, and
//! tolerates `//` line comments and trailing commas.

use vstd::prelude::*;

pub mod emit;
pub mod grammar;
pub mod laws;
pub mod numbers;
pub mod parser;
pub mod text;
pub mod value;

pub use parser::{DTXTParser, parse};
pub use value::{DTXTError, DTXTObject, DTXTValue, object_index_of, object_insert};

use crate::emit::{emit_compact, emit_indented, sp_repeat, sp_stringify};
use vstd::string::StringSliceAdditionalSpecFns;

verus! {

/// Turns a value tree into canonical DTXT text: compact with no indent
/// unit, indented with one. Total: every tree has a text.
pub fn stringify(value: &DTXTValue, indent: Option<&str>) -> (r: Vec<u8>)
    ensures
        r@ == sp_stringify(
            value@,
            match indent {
                Option::Some(u) => Option::Some(u.spec_bytes()),
                Option::None => Option::None,
            },
        ),
{
    let mut out: Vec<u8> = Vec::new();
    match indent {
        None => {
            emit_compact(value, &mut out);
        },
        Some(u) => {
            let unit = u.as_bytes();
            let empty_prefix: Vec<u8> = Vec::new();
            proof {
                assert(empty_prefix@ =~= sp_repeat(unit@, 0));
            }
            emit_indented(value, &mut out, unit, empty_prefix.as_slice(), Ghost(0nat));
        },
    }
    proof {
        assert(Seq::<u8>::empty() + sp_stringify(
            value@,
            match indent {
                Option::Some(u) => Option::Some(u.spec_bytes()),
                Option::None => Option::None,
            },
        ) =~= sp_stringify(
            value@,
            match indent {
                Option::Some(u) => Option::Some(u.spec_bytes()),
                Option::None => Option::None,
            },
        ));
    }
    out
}

} // verus!

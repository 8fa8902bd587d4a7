//! From the text of a JSON document to the text of its `key value` lines.

use vstd::prelude::*;
use vstd::string::StringExecFns;
use crate::entries::{Entry, KeyValues};
use crate::error::{ConvertError, Fault};
use crate::flatten::{flatten, flattened};
use crate::parse::{parse, parsed};
use crate::text::push_char;

verus! {

/// Reads the JSON document in `input` and flattens it.
///
/// Fails with [`ConvertError::JsonParse`] where `input` is not a JSON
/// document, and as flattening does where a key or a string of the document
/// cannot be sanitized.
pub fn convert(input: &str) -> (r: Result<KeyValues, ConvertError>)
    ensures
        match parsed(input@) {
            Err(words) => r matches Err(e) && e@ == Fault::JsonParse(words),
            Ok(document) => match flattened(document) {
                Ok(map) => r matches Ok(output) && output.wf() && output@ == map,
                Err(fault) => r matches Err(e) && e@ == fault,
            },
        },
{
    match parse(input) {
        Ok(document) => flatten(&document),
        Err(e) => Err(e),
    }
}

/// The line of an entry: its key, one blank, its value, and a line feed.
pub open spec fn line(entry: Entry) -> Seq<char> {
    entry.0 + seq![' '] + entry.1 + seq!['\n']
}

/// The lines of `entries`, one after the other.
pub open spec fn rendered(entries: Seq<Entry>) -> Seq<char>
    decreases entries.len(),
{
    if entries.len() == 0 {
        Seq::empty()
    } else {
        rendered(entries.drop_last()) + line(entries.last())
    }
}

/// Writes the entries of `output` out, one line each, in key order.
pub fn render(output: &KeyValues) -> (text: String)
    ensures
        text@ == rendered(output.entries()),
{
    let mut text = String::new();
    let mut i: usize = 0;
    assert(output.entries().take(0) =~= Seq::<Entry>::empty());
    while i < output.len()
        invariant
            i <= output.entries().len(),
            text@ == rendered(output.entries().take(i as int)),
        decreases output.entries().len() - i,
    {
        let ghost before = text@;
        text.append(output.key(i));
        push_char(&mut text, ' ');
        text.append(output.value(i));
        push_char(&mut text, '\n');
        proof {
            let entries = output.entries();
            assert(entries.take(i + 1).drop_last() =~= entries.take(i as int));
            assert(entries.take(i + 1).last() == entries[i as int]);
            assert(text@ =~= before + line(entries[i as int]));
        }
        i += 1;
    }
    assert(output.entries().take(i as int) =~= output.entries());
    text
}

} // verus!

//! Cleaning of keys and of string values before they are put on a line.

use vstd::prelude::*;
use crate::error::{ConvertError, Fault, Place};
use crate::text::{chars_of, contains_char, push_char};

verus! {

/// What a character of a key becomes: a blank or a tab turns into a hyphen.
pub open spec fn key_char(c: char) -> char {
    if c == ' ' || c == '\t' {
        '-'
    } else {
        c
    }
}

/// The sanitized form of a key, or why it has none.
///
/// A line break in the key is reported first, with the key as it is; then a
/// NUL character. Any other key has each blank and tab replaced by a hyphen.
pub open spec fn sanitized_key(key: Seq<char>) -> Result<Seq<char>, Fault> {
    if key.contains('\n') || key.contains('\r') {
        Err(Fault::KeyNewline(key))
    } else if key.contains('\0') {
        Err(Fault::NulChar(Place::Key))
    } else {
        Ok(key.map_values(|c: char| key_char(c)))
    }
}

/// Line endings made uniform: a carriage return together with the line feed
/// that follows it, or a carriage return alone, becomes one line feed.
pub open spec fn normalized(text: Seq<char>) -> Seq<char>
    decreases text.len(),
{
    if text.len() == 0 {
        text
    } else if text[0] == '\r' && text.len() >= 2 && text[1] == '\n' {
        seq!['\n'] + normalized(text.skip(2))
    } else if text[0] == '\r' {
        seq!['\n'] + normalized(text.skip(1))
    } else {
        seq![text[0]] + normalized(text.skip(1))
    }
}

/// Every line feed written as a backslash followed by the letter `n`.
pub open spec fn escaped(text: Seq<char>) -> Seq<char>
    decreases text.len(),
{
    if text.len() == 0 {
        text
    } else if text[0] == '\n' {
        seq!['\\', 'n'] + escaped(text.skip(1))
    } else {
        seq![text[0]] + escaped(text.skip(1))
    }
}

/// The sanitized form of a string value, or why it has none.
///
/// A value with a NUL character is refused. Any other value has its line
/// endings made uniform and then escaped, so that it fits on one line.
pub open spec fn sanitized_value(value: Seq<char>) -> Result<Seq<char>, Fault> {
    if value.contains('\0') {
        Err(Fault::NulChar(Place::Value))
    } else {
        Ok(escaped(normalized(value)))
    }
}

/// A character that sanitizing a key neither refuses nor replaces.
pub open spec fn clean_key_char(c: char) -> bool {
    c != '\n' && c != '\r' && c != '\0' && c != ' ' && c != '\t'
}

/// A key made of such characters alone.
pub open spec fn key_clean(key: Seq<char>) -> bool {
    forall|i: int| 0 <= i < key.len() ==> clean_key_char(#[trigger] key[i])
}

/// A character that sanitizing a value neither refuses nor rewrites.
pub open spec fn plain_char(c: char) -> bool {
    c != '\0' && c != '\r' && c != '\n'
}

/// A value made of such characters alone: it fits on one line as it is.
pub open spec fn value_plain(value: Seq<char>) -> bool {
    forall|i: int| 0 <= i < value.len() ==> plain_char(#[trigger] value[i])
}

/// Sanitizing leaves a clean key as it is.
pub proof fn lemma_clean_key_kept(key: Seq<char>)
    requires
        key_clean(key),
    ensures
        sanitized_key(key) == Ok::<Seq<char>, Fault>(key),
{
    assert(key.map_values(|c: char| key_char(c)) =~= key);
}

/// What sanitizing a key gives is clean.
pub proof fn lemma_sanitized_key_clean(key: Seq<char>)
    ensures
        sanitized_key(key) matches Ok(clean) ==> key_clean(clean),
{
    if let Ok(clean) = sanitized_key(key) {
        assert forall|i: int| 0 <= i < clean.len() implies clean_key_char(#[trigger] clean[i]) by {
            assert(key.contains(key[i]));
        }
    }
}

/// Sanitizing a key twice is the same as sanitizing it once.
pub proof fn lemma_sanitized_key_idempotent(key: Seq<char>)
    ensures
        sanitized_key(key) matches Ok(clean) ==> sanitized_key(clean) == Ok::<Seq<char>, Fault>(
            clean,
        ),
{
    lemma_sanitized_key_clean(key);
    if let Ok(clean) = sanitized_key(key) {
        lemma_clean_key_kept(clean);
    }
}

/// Uniform line endings hold no carriage return, and no NUL that was not
/// there before.
proof fn lemma_normalized_chars(text: Seq<char>)
    ensures
        forall|i: int| 0 <= i < normalized(text).len() ==> #[trigger] normalized(text)[i] != '\r',
        !text.contains('\0') ==> !normalized(text).contains('\0'),
    decreases text.len(),
{
    if text.len() > 0 {
        let step: int = if text[0] == '\r' && text.len() >= 2 && text[1] == '\n' {
            2
        } else {
            1
        };
        let rest = text.skip(step);
        lemma_normalized_chars(rest);
        if !text.contains('\0') {
            assert forall|i: int| 0 <= i < rest.len() implies rest[i] != '\0' by {
                assert(text.contains(text[i + step]));
            }
            assert(text.contains(text[0]));
        }
    }
}

/// Escaping leaves no line feed, and no carriage return or NUL that was not
/// there before.
proof fn lemma_escaped_chars(text: Seq<char>)
    requires
        forall|i: int| 0 <= i < text.len() ==> text[i] != '\r' && text[i] != '\0',
    ensures
        value_plain(escaped(text)),
    decreases text.len(),
{
    if text.len() > 0 {
        lemma_escaped_chars(text.skip(1));
    }
}

/// Sanitizing leaves a plain value as it is.
pub proof fn lemma_plain_value_kept(value: Seq<char>)
    requires
        value_plain(value),
    ensures
        sanitized_value(value) == Ok::<Seq<char>, Fault>(value),
{
    lemma_plain_unchanged(value);
}

proof fn lemma_plain_unchanged(value: Seq<char>)
    requires
        value_plain(value),
    ensures
        normalized(value) == value,
        escaped(value) == value,
    decreases value.len(),
{
    if value.len() > 0 {
        lemma_plain_unchanged(value.skip(1));
        assert(seq![value[0]] + value.skip(1) =~= value);
    }
}

/// What sanitizing a value gives is plain.
pub proof fn lemma_sanitized_value_plain(value: Seq<char>)
    ensures
        sanitized_value(value) matches Ok(clean) ==> value_plain(clean),
{
    if !value.contains('\0') {
        lemma_normalized_chars(value);
        let uniform = normalized(value);
        assert forall|i: int| 0 <= i < uniform.len() implies uniform[i] != '\r' && uniform[i]
            != '\0' by {
            assert(uniform.contains(uniform[i]));
        }
        lemma_escaped_chars(uniform);
    }
}

/// Sanitizing a value twice is the same as sanitizing it once.
pub proof fn lemma_sanitized_value_idempotent(value: Seq<char>)
    ensures
        sanitized_value(value) matches Ok(clean) ==> sanitized_value(clean) == Ok::<
            Seq<char>,
            Fault,
        >(clean),
{
    lemma_sanitized_value_plain(value);
    if let Ok(clean) = sanitized_value(value) {
        lemma_plain_value_kept(clean);
    }
}

/// Sanitizes an object key.
pub fn sanitize_key(key: &str) -> (r: Result<String, ConvertError>)
    ensures
        match sanitized_key(key@) {
            Ok(clean) => r matches Ok(text) && text@ == clean,
            Err(fault) => r matches Err(e) && e@ == fault,
        },
{
    let chars = chars_of(key);
    if contains_char(&chars, '\n') || contains_char(&chars, '\r') {
        return Err(ConvertError::KeyNewline(key.to_owned()));
    }
    if contains_char(&chars, '\0') {
        return Err(ConvertError::NulChar(Place::Key));
    }
    let mut clean = String::new();
    let mut i: usize = 0;
    while i < chars.len()
        invariant
            i <= chars.len(),
            clean@.len() == i,
            forall|j: int| 0 <= j < i ==> clean@[j] == key_char(chars@[j]),
        decreases chars.len() - i,
    {
        let c = chars[i];
        if c == ' ' || c == '\t' {
            push_char(&mut clean, '-');
        } else {
            push_char(&mut clean, c);
        }
        i += 1;
    }
    assert(clean@ =~= key@.map_values(|c: char| key_char(c)));
    Ok(clean)
}

/// Makes the line endings of `chars` uniform.
pub fn normalize_line_endings(chars: &Vec<char>) -> (out: Vec<char>)
    ensures
        out@ == normalized(chars@),
{
    let mut out: Vec<char> = Vec::new();
    let mut i: usize = 0;
    assert(chars@.skip(0) == chars@);
    assert(out@ + normalized(chars@) == normalized(chars@));
    while i < chars.len()
        invariant
            i <= chars.len(),
            out@ + normalized(chars@.skip(i as int)) == normalized(chars@),
        decreases chars.len() - i,
    {
        let ghost rest = chars@.skip(i as int);
        let c = chars[i];
        if c == '\r' && i + 1 < chars.len() && chars[i + 1] == '\n' {
            assert(rest.skip(2) == chars@.skip(i + 2));
            out.push('\n');
            i += 2;
        } else if c == '\r' {
            assert(rest.skip(1) == chars@.skip(i + 1));
            out.push('\n');
            i += 1;
        } else {
            assert(rest.skip(1) == chars@.skip(i + 1));
            out.push(c);
            i += 1;
        }
    }
    out
}

/// Writes `chars` out with every line feed escaped.
pub fn escape_line_feeds(chars: &Vec<char>) -> (out: String)
    ensures
        out@ == escaped(chars@),
{
    let mut out = String::new();
    let mut i: usize = 0;
    assert(chars@.skip(0) == chars@);
    assert(out@ + escaped(chars@) == escaped(chars@));
    while i < chars.len()
        invariant
            i <= chars.len(),
            out@ + escaped(chars@.skip(i as int)) == escaped(chars@),
        decreases chars.len() - i,
    {
        let ghost rest = chars@.skip(i as int);
        assert(rest.skip(1) == chars@.skip(i + 1));
        let c = chars[i];
        if c == '\n' {
            push_char(&mut out, '\\');
            push_char(&mut out, 'n');
        } else {
            push_char(&mut out, c);
        }
        i += 1;
    }
    out
}

/// Sanitizes a string value.
pub fn sanitize_value(value: &str) -> (r: Result<String, ConvertError>)
    ensures
        match sanitized_value(value@) {
            Ok(clean) => r matches Ok(text) && text@ == clean,
            Err(fault) => r matches Err(e) && e@ == fault,
        },
{
    let chars = chars_of(value);
    if contains_char(&chars, '\0') {
        return Err(ConvertError::NulChar(Place::Value));
    }
    let uniform = normalize_line_endings(&chars);
    Ok(escape_line_feeds(&uniform))
}

} // verus!

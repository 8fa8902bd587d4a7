//! Paths: the keys under which the leaves of a document are put.

use vstd::prelude::*;
use vstd::string::StringExecFns;
use crate::text::push_char;

verus! {

/// The decimal digit that stands for `d`.
pub open spec fn digit(d: nat) -> char {
    if d == 0 {
        '0'
    } else if d == 1 {
        '1'
    } else if d == 2 {
        '2'
    } else if d == 3 {
        '3'
    } else if d == 4 {
        '4'
    } else if d == 5 {
        '5'
    } else if d == 6 {
        '6'
    } else if d == 7 {
        '7'
    } else if d == 8 {
        '8'
    } else {
        '9'
    }
}

/// The decimal numeral of `n`, without leading zeros.
pub open spec fn decimal(n: nat) -> Seq<char>
    decreases n,
{
    if n < 10 {
        seq![digit(n)]
    } else {
        decimal(n / 10).push(digit(n % 10))
    }
}

/// The path of a child. Under the root of a document it is the child's
/// segment alone. Under any other parent it is the parent's path, a dot and
/// the child's segment, also where the parent's path is empty.
pub open spec fn child_path(parent: Seq<char>, root: bool, segment: Seq<char>) -> Seq<char> {
    if root {
        segment
    } else {
        parent + seq!['.'] + segment
    }
}

/// The digit for a number below ten.
fn digit_char(d: usize) -> (c: char)
    requires
        d < 10,
    ensures
        c == digit(d as nat),
{
    if d == 0 {
        '0'
    } else if d == 1 {
        '1'
    } else if d == 2 {
        '2'
    } else if d == 3 {
        '3'
    } else if d == 4 {
        '4'
    } else if d == 5 {
        '5'
    } else if d == 6 {
        '6'
    } else if d == 7 {
        '7'
    } else if d == 8 {
        '8'
    } else {
        '9'
    }
}

/// Writes an index out in decimal.
pub fn decimal_text(n: usize) -> (text: String)
    ensures
        text@ == decimal(n as nat),
    decreases n,
{
    if n < 10 {
        let mut text = String::new();
        push_char(&mut text, digit_char(n));
        assert(text@ =~= seq![digit(n as nat)]);
        text
    } else {
        let mut text = decimal_text(n / 10);
        push_char(&mut text, digit_char(n % 10));
        text
    }
}

/// Builds the path of a child from its parent's path and its own segment;
/// `root` says whether the parent is the root of the document.
pub fn join_path(parent: &str, root: bool, segment: &str) -> (path: String)
    ensures
        path@ == child_path(parent@, root, segment@),
{
    if root {
        segment.to_owned()
    } else {
        let mut path = parent.to_owned();
        push_char(&mut path, '.');
        path.append(segment);
        assert(path@ =~= parent@ + seq!['.'] + segment@);
        path
    }
}

} // verus!

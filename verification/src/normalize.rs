//! Line-ending normalization.
//!
//! Before scanning, every line break convention (`\r\n`, `\r`, or `\n`) is
//! rewritten to the single canonical terminator `\n`, so that the scanner
//! never has to treat `\r` specially.  The rewriting is a pure, total
//! function of the input; [`normalize_spec`] states it, and the executable
//! side calls the `normalized-line-endings` crate through a trusted wrapper.

use normalized_line_endings::Normalized;
use vstd::prelude::*;

verus! {

/// The character sequence with every line break rewritten to `\n`: a `\r`
/// that is immediately followed by `\n` is dropped together with it in favour
/// of a single `\n`, and a lone `\r` becomes `\n`.  Every other character is
/// kept as it is.
pub open spec fn normalize_spec(s: Seq<char>) -> Seq<char>
    decreases s.len(),
{
    if s.len() == 0 {
        Seq::empty()
    } else if s[0] == '\r' {
        if s.len() >= 2 && s[1] == '\n' {
            seq!['\n'] + normalize_spec(s.skip(2))
        } else {
            seq!['\n'] + normalize_spec(s.skip(1))
        }
    } else {
        seq![s[0]] + normalize_spec(s.skip(1))
    }
}

/// Relies on `normalized_line_endings::Normalized::normalized`: an iterator
/// adapter that yields the input characters with `\r\n` and lone `\r` both
/// replaced by a single `\n`, and every other character unchanged.
#[verifier::external_body]
pub(crate) fn normalized_chars(input: &str) -> (r: Vec<char>)
    ensures
        r@ == normalize_spec(input@),
{
    input.chars().normalized().collect()
}

} // verus!

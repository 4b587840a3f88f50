//! Implementation of the KIVI deserialization functions.

use crate::model::KeyValuePairs;
use crate::normalize::normalize_spec;
use crate::normalize::normalized_chars;
use crate::scan::init_state;
use crate::scan::scan_from;
use crate::scan::scan_spec;
use crate::scan::step;
use crate::scan::trim_chars;
use crate::scan::Mode;
use crate::scan::ScanState;
use vstd::prelude::*;

verus! {

/// Relies on `String`'s `FromIterator<char>` implementation: collecting an
/// iterator of characters yields the string of exactly those characters.
#[verifier::external_body]
fn string_from_chars(cs: &Vec<char>) -> (r: String)
    ensures
        r@ == cs@,
{
    cs.iter().collect()
}

/// Returns `true` when `c` is one of the configured marker characters.
fn is_allowed_marker(markers: &Vec<char>, c: char) -> (r: bool)
    ensures
        r == markers@.contains(c),
{
    let mut i: usize = 0;
    while i < markers.len()
        invariant
            i <= markers@.len(),
            forall|j: int| 0 <= j < i ==> markers@[j] != c,
        decreases markers@.len() - i,
    {
        if markers[i] == c {
            return true;
        }
        i = i + 1;
    }
    false
}

/// Scans a normalized character sequence into key-value pairs: the executable
/// counterpart of [`scan_spec`], one [`step`] per character with one
/// character of lookahead.
fn scan_chars(cs: &Vec<char>, markers: &Vec<char>) -> (r: KeyValuePairs)
    ensures
        r.wf(),
        r@ == scan_spec(cs@, markers@),
{
    let n = cs.len();
    let mut mode = Mode::Key;
    let mut buffer: Vec<char> = Vec::new();
    let mut key: Vec<char> = Vec::new();
    let mut output = KeyValuePairs::new();
    proof {
        assert(ScanState { mode: mode, buffer: buffer@, key: key@, out: output@ } =~~= init_state());
    }
    let mut i: usize = 0;
    while i < n
        invariant
            i <= n,
            n == cs@.len(),
            output.wf(),
            scan_from(
                cs@,
                i as int,
                ScanState { mode: mode, buffer: buffer@, key: key@, out: output@ },
                markers@,
            ) == scan_spec(cs@, markers@),
        decreases n - i,
    {
        let ghost st0 = ScanState { mode: mode, buffer: buffer@, key: key@, out: output@ };
        let c = cs[i];
        let ghost next: Option<char> = if i + 1 < cs@.len() {
            Some(cs@[i as int + 1])
        } else {
            None
        };
        match mode {
            Mode::Key => {
                if is_allowed_marker(markers, c) {
                    mode = Mode::QuotedKey(c);
                    buffer = Vec::new();
                } else if c == '\n' {
                    let t = trim_chars(&buffer);
                    if t.len() > 0 {
                        key = t;
                        buffer = Vec::new();
                        mode = Mode::Value;
                    } else {
                        buffer = Vec::new();
                    }
                } else {
                    buffer.push(c);
                }
            },
            Mode::QuotedKey(m) => {
                if c == m && i + 1 < n && cs[i + 1] == '\n' {
                    key = buffer;
                    buffer = Vec::new();
                    mode = Mode::Value;
                } else {
                    buffer.push(c);
                }
            },
            Mode::Value => {
                if is_allowed_marker(markers, c) {
                    mode = Mode::QuotedValue(c);
                    buffer = Vec::new();
                } else if c == '\n' {
                    let t = trim_chars(&buffer);
                    if t.len() > 0 {
                        let k = string_from_chars(&key);
                        let v = string_from_chars(&t);
                        output.push_pair(k, v);
                        key = Vec::new();
                        buffer = Vec::new();
                        mode = Mode::Key;
                    } else {
                        buffer = Vec::new();
                    }
                } else {
                    buffer.push(c);
                    if i + 1 == n {
                        let t = trim_chars(&buffer);
                        if t.len() > 0 {
                            let k = string_from_chars(&key);
                            let v = string_from_chars(&t);
                            output.push_pair(k, v);
                            key = Vec::new();
                            buffer = Vec::new();
                            mode = Mode::Key;
                        } else {
                            buffer = Vec::new();
                        }
                    }
                }
            },
            Mode::QuotedValue(m) => {
                if c == m && i + 1 < n && cs[i + 1] == '\n' {
                    let k = string_from_chars(&key);
                    let v = string_from_chars(&buffer);
                    output.push_pair(k, v);
                    key = Vec::new();
                    buffer = Vec::new();
                    mode = Mode::Key;
                } else {
                    buffer.push(c);
                }
            },
        }
        proof {
            let stepped = step(st0, c, next, markers@);
            let st1 = ScanState { mode: mode, buffer: buffer@, key: key@, out: output@ };
            assert(st1 =~~= stepped);
            assert(scan_from(cs@, i as int, st0, markers@) == scan_from(
                cs@,
                i as int + 1,
                st1,
                markers@,
            ));
        }
        i = i + 1;
    }
    output
}

/// Loads key-value pairs from a string in KIVI format using the quotation
/// mark (U+0022) as the default multiline marker.
///
/// The input's line endings are normalized first, then the scan commits one
/// pair for every key line that is followed by a value line.  The scan is
/// total: malformed input never fails, it only yields fewer pairs.
pub fn load_from_string(input: &str) -> (r: KeyValuePairs)
    ensures
        r.wf(),
        r@ == scan_spec(normalize_spec(input@), seq!['"']),
{
    let mut markers: Vec<char> = Vec::new();
    markers.push('"');
    proof {
        assert(markers@ =~= seq!['"']);
    }
    let cs = normalized_chars(input);
    scan_chars(&cs, &markers)
}

/// Loads key-value pairs from a string in KIVI format using custom multiline
/// markers.
///
/// Every character of `markers` may open a key span or a value span; a span
/// closes only on the same character that opened it, immediately followed by
/// the line terminator.
pub fn load_from_string_markers(input: &str, markers: &[char]) -> (r: KeyValuePairs)
    ensures
        r.wf(),
        r@ == scan_spec(normalize_spec(input@), markers@),
{
    let cs = normalized_chars(input);
    let mv = vstd::slice::slice_to_vec(markers);
    scan_chars(&cs, &mv)
}

} // verus!

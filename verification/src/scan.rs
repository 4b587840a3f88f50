//! The scanner state machine, as a specification.
//!
//! The KIVI grammar is total: every character sequence is scanned into a
//! (possibly empty) sequence of key-value pairs.  The meaning of a scan is
//! given here as a pure function: [`scan_spec`] folds [`step`] over the input,
//! one character at a time with one character of lookahead, exactly as the
//! executable scanner does.

use vstd::prelude::*;

verus! {

/// Whether a character counts as whitespace when a plain token is trimmed.
///
/// This names the result of `char::is_whitespace` (the Unicode `White_Space`
/// property), which depends on the character alone.
pub uninterp spec fn is_whitespace_char(c: char) -> bool;

/// Relies on `char::is_whitespace`: whether the character has the Unicode
/// `White_Space` property, a function of the character alone.
#[verifier::external_body]
pub(crate) fn char_is_whitespace(c: char) -> (r: bool)
    ensures
        r == is_whitespace_char(c),
{
    c.is_whitespace()
}

/// The sequence with its leading whitespace removed.
pub open spec fn trim_start_spec(s: Seq<char>) -> Seq<char>
    decreases s.len(),
{
    if s.len() > 0 && is_whitespace_char(s[0]) {
        trim_start_spec(s.drop_first())
    } else {
        s
    }
}

/// The sequence with its trailing whitespace removed.
pub open spec fn trim_end_spec(s: Seq<char>) -> Seq<char>
    decreases s.len(),
{
    if s.len() > 0 && is_whitespace_char(s.last()) {
        trim_end_spec(s.drop_last())
    } else {
        s
    }
}

/// The sequence with its surrounding whitespace removed, as `str::trim` does.
pub open spec fn trim_spec(s: Seq<char>) -> Seq<char> {
    trim_end_spec(trim_start_spec(s))
}

/// The mode of the scanner: what kind of token the current buffer belongs to.
/// A quoted mode carries the marker character that opened the span; the span
/// closes only on that same character.
#[derive(Clone, Copy, PartialEq, Eq, Structural)]
pub enum Mode {
    /// Reading a plain key.
    Key,
    /// Reading a quoted key opened by the carried marker.
    QuotedKey(char),
    /// Reading a plain value.
    Value,
    /// Reading a quoted value opened by the carried marker.
    QuotedValue(char),
}

/// The full state of the scanner between two characters.
#[verifier::ext_equal]
pub struct ScanState {
    /// The current mode.
    pub mode: Mode,
    /// The characters of the token being read.
    pub buffer: Seq<char>,
    /// The committed key whose value is being read.
    pub key: Seq<char>,
    /// The pairs committed so far, in order.
    pub out: Seq<(Seq<char>, Seq<char>)>,
}

/// The state in which a scan starts: reading a key, everything empty.
pub open spec fn init_state() -> ScanState {
    ScanState {
        mode: Mode::Key,
        buffer: Seq::empty(),
        key: Seq::empty(),
        out: Seq::empty(),
    }
}

/// One transition of the scanner: it consumes the character `c` with the
/// lookahead `next` (`None` at the end of the input) under the marker set
/// `markers`.
///
/// Plain tokens are trimmed of surrounding whitespace and dropped when the
/// trim leaves nothing; quoted tokens are kept verbatim.  A quoted span closes
/// only when its own marker is immediately followed by the line terminator;
/// anywhere else the marker is literal content.  A value is also committed
/// when the input ends in the middle of a plain value line.
pub open spec fn step(st: ScanState, c: char, next: Option<char>, markers: Seq<char>) -> ScanState {
    match st.mode {
        Mode::Key => {
            if markers.contains(c) {
                ScanState { mode: Mode::QuotedKey(c), buffer: Seq::empty(), ..st }
            } else if c == '\n' {
                let t = trim_spec(st.buffer);
                if t.len() > 0 {
                    ScanState { mode: Mode::Value, buffer: Seq::empty(), key: t, ..st }
                } else {
                    ScanState { buffer: Seq::empty(), ..st }
                }
            } else {
                ScanState { buffer: st.buffer.push(c), ..st }
            }
        },
        Mode::QuotedKey(m) => {
            if c == m && next == Some('\n') {
                ScanState { mode: Mode::Value, buffer: Seq::empty(), key: st.buffer, ..st }
            } else {
                ScanState { buffer: st.buffer.push(c), ..st }
            }
        },
        Mode::Value => {
            if markers.contains(c) {
                ScanState { mode: Mode::QuotedValue(c), buffer: Seq::empty(), ..st }
            } else if c == '\n' {
                let t = trim_spec(st.buffer);
                if t.len() > 0 {
                    ScanState {
                        mode: Mode::Key,
                        buffer: Seq::empty(),
                        key: Seq::empty(),
                        out: st.out.push((st.key, t)),
                    }
                } else {
                    ScanState { buffer: Seq::empty(), ..st }
                }
            } else if next is None {
                let t = trim_spec(st.buffer.push(c));
                if t.len() > 0 {
                    ScanState {
                        mode: Mode::Key,
                        buffer: Seq::empty(),
                        key: Seq::empty(),
                        out: st.out.push((st.key, t)),
                    }
                } else {
                    ScanState { buffer: Seq::empty(), ..st }
                }
            } else {
                ScanState { buffer: st.buffer.push(c), ..st }
            }
        },
        Mode::QuotedValue(m) => {
            if c == m && next == Some('\n') {
                ScanState {
                    mode: Mode::Key,
                    buffer: Seq::empty(),
                    key: Seq::empty(),
                    out: st.out.push((st.key, st.buffer)),
                }
            } else {
                ScanState { buffer: st.buffer.push(c), ..st }
            }
        },
    }
}

/// The pairs that a scan of `s` commits when it continues from position `i`
/// in state `st`.
pub open spec fn scan_from(
    s: Seq<char>,
    i: int,
    st: ScanState,
    markers: Seq<char>,
) -> Seq<(Seq<char>, Seq<char>)>
    decreases s.len() - i,
{
    if i < 0 || i >= s.len() {
        st.out
    } else {
        let next = if i + 1 < s.len() {
            Some(s[i + 1])
        } else {
            None
        };
        scan_from(s, i + 1, step(st, s[i], next, markers), markers)
    }
}

/// The ordered sequence of key-value pairs that scanning the normalized
/// character sequence `s` under the marker set `markers` commits.
pub open spec fn scan_spec(s: Seq<char>, markers: Seq<char>) -> Seq<(Seq<char>, Seq<char>)> {
    scan_from(s, 0, init_state(), markers)
}

/// When the first `k` characters of `s` are whitespace and the one after them
/// (if any) is not, trimming the start removes exactly those `k` characters.
proof fn lemma_trim_start_prefix(s: Seq<char>, k: int)
    requires
        0 <= k <= s.len(),
        forall|j: int| 0 <= j < k ==> is_whitespace_char(s[j]),
        k == s.len() || !is_whitespace_char(s[k]),
    ensures
        trim_start_spec(s) == s.subrange(k, s.len() as int),
    decreases k,
{
    if k == 0 {
        assert(s.subrange(0, s.len() as int) =~= s);
    } else {
        assert(is_whitespace_char(s[0]));
        let d = s.drop_first();
        assert(forall|j: int| 0 <= j < k - 1 ==> is_whitespace_char(#[trigger] d[j]));
        lemma_trim_start_prefix(d, k - 1);
        assert(d.subrange(k - 1, d.len() as int) =~= s.subrange(k, s.len() as int));
    }
}

/// When the characters of `s` from position `k` on are whitespace and the one
/// before them (if any) is not, trimming the end removes exactly those
/// characters.
proof fn lemma_trim_end_suffix(s: Seq<char>, k: int)
    requires
        0 <= k <= s.len(),
        forall|j: int| k <= j < s.len() ==> is_whitespace_char(s[j]),
        k == 0 || !is_whitespace_char(s[k - 1]),
    ensures
        trim_end_spec(s) == s.subrange(0, k),
    decreases s.len() - k,
{
    if k == s.len() {
        assert(s.subrange(0, k) =~= s);
    } else {
        assert(is_whitespace_char(s.last()));
        let d = s.drop_last();
        lemma_trim_end_suffix(d, k);
        assert(d.subrange(0, k) =~= s.subrange(0, k));
    }
}

/// Trimming a sequence of whitespace alone leaves nothing.
pub proof fn lemma_trim_all_whitespace(s: Seq<char>)
    requires
        forall|t: int| 0 <= t < s.len() ==> is_whitespace_char(s[t]),
    ensures
        trim_spec(s).len() == 0,
{
    lemma_trim_start_prefix(s, s.len() as int);
    assert(trim_start_spec(s) =~= Seq::<char>::empty());
}

/// The start-trimmed sequence keeps no leading whitespace.
proof fn lemma_trim_start_head(s: Seq<char>)
    ensures
        trim_start_spec(s).len() > 0 ==> !is_whitespace_char(trim_start_spec(s)[0]),
    decreases s.len(),
{
    if s.len() > 0 && is_whitespace_char(s[0]) {
        lemma_trim_start_head(s.drop_first());
    }
}

/// The end-trimmed sequence keeps no trailing whitespace.
proof fn lemma_trim_end_last(s: Seq<char>)
    ensures
        trim_end_spec(s).len() > 0 ==> !is_whitespace_char(trim_end_spec(s).last()),
    decreases s.len(),
{
    if s.len() > 0 && is_whitespace_char(s.last()) {
        lemma_trim_end_last(s.drop_last());
    }
}

/// The end-trimmed sequence is a prefix of the original.
proof fn lemma_trim_end_is_prefix(s: Seq<char>)
    ensures
        trim_end_spec(s).len() <= s.len(),
        trim_end_spec(s) == s.take(trim_end_spec(s).len() as int),
    decreases s.len(),
{
    if s.len() > 0 && is_whitespace_char(s.last()) {
        lemma_trim_end_is_prefix(s.drop_last());
        assert(s.drop_last().take(trim_end_spec(s).len() as int) =~= s.take(
            trim_end_spec(s).len() as int,
        ));
    } else {
        assert(s.take(s.len() as int) =~= s);
    }
}

/// The start-trimmed sequence is a suffix of the original.
proof fn lemma_trim_start_is_suffix(s: Seq<char>)
    ensures
        trim_start_spec(s).len() <= s.len(),
        trim_start_spec(s) == s.skip(s.len() - trim_start_spec(s).len()),
    decreases s.len(),
{
    if s.len() > 0 && is_whitespace_char(s[0]) {
        lemma_trim_start_is_suffix(s.drop_first());
        let d = s.drop_first();
        let l = trim_start_spec(s).len();
        assert(d.skip(d.len() - l) =~= s.skip(s.len() - l));
    } else {
        assert(s.skip(0) =~= s);
    }
}

/// Trimming is idempotent, and a trimmed token carries no surrounding
/// whitespace of its own.
pub proof fn lemma_trim_idempotent(s: Seq<char>)
    ensures
        trim_spec(trim_spec(s)) == trim_spec(s),
        trim_spec(s).len() > 0 ==> !is_whitespace_char(trim_spec(s)[0]),
        trim_spec(s).len() > 0 ==> !is_whitespace_char(trim_spec(s).last()),
{
    let a = trim_start_spec(s);
    let t = trim_end_spec(a);
    lemma_trim_start_head(s);
    lemma_trim_end_last(a);
    lemma_trim_end_is_prefix(a);
    if t.len() > 0 {
        assert(t[0] == a[0]);
        assert(!is_whitespace_char(t[0]));
        assert(!is_whitespace_char(t.last()));
        assert(trim_start_spec(t) == t);
        assert(trim_end_spec(t) == t);
    } else {
        assert(t =~= Seq::<char>::empty());
        assert(trim_start_spec(t) == t);
        assert(trim_end_spec(t) == t);
    }
}

/// Every character of the trimmed token is a character of the original.
pub proof fn lemma_trim_chars_of(s: Seq<char>)
    ensures
        forall|i: int|
            0 <= i < trim_spec(s).len() ==> exists|j: int|
                0 <= j < s.len() && s[j] == #[trigger] trim_spec(s)[i],
{
    let a = trim_start_spec(s);
    lemma_trim_start_is_suffix(s);
    lemma_trim_end_is_prefix(a);
    assert forall|i: int| 0 <= i < trim_spec(s).len() implies exists|j: int|
        0 <= j < s.len() && s[j] == #[trigger] trim_spec(s)[i] by {
        let lo = s.len() - a.len();
        assert(trim_spec(s)[i] == a[i]);
        assert(a[i] == s[lo + i]);
    }
}

/// Removes the surrounding whitespace of a character sequence, as the scanner
/// does with every plain token before testing it for emptiness.
pub(crate) fn trim_chars(cs: &Vec<char>) -> (r: Vec<char>)
    ensures
        r@ == trim_spec(cs@),
{
    let n = cs.len();
    let mut lo: usize = 0;
    while lo < n && char_is_whitespace(cs[lo])
        invariant
            0 <= lo <= n,
            n == cs@.len(),
            forall|j: int| 0 <= j < lo ==> is_whitespace_char(cs@[j]),
        decreases n - lo,
    {
        lo = lo + 1;
    }
    if lo == n {
        proof {
            lemma_trim_start_prefix(cs@, n as int);
            assert(cs@.subrange(n as int, n as int).len() == 0);
            assert(trim_spec(cs@) =~= Seq::<char>::empty());
        }
        return Vec::new();
    }
    let mut hi: usize = n;
    while hi > lo && char_is_whitespace(cs[hi - 1])
        invariant
            lo < hi <= n,
            n == cs@.len(),
            !is_whitespace_char(cs@[lo as int]),
            forall|j: int| hi <= j < n ==> is_whitespace_char(cs@[j]),
        decreases hi,
    {
        hi = hi - 1;
    }
    proof {
        assert(hi > lo);
        lemma_trim_start_prefix(cs@, lo as int);
        let t = cs@.subrange(lo as int, n as int);
        assert(forall|j: int| hi - lo <= j < t.len() ==> is_whitespace_char(#[trigger] t[j]));
        assert(!is_whitespace_char(t[hi - lo - 1]));
        lemma_trim_end_suffix(t, hi - lo);
        assert(trim_spec(cs@) =~= cs@.subrange(lo as int, hi as int));
    }
    let sub = vstd::slice::slice_subrange(cs.as_slice(), lo, hi);
    vstd::slice::slice_to_vec(sub)
}

} // verus!

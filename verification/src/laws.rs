//! Laws of the normalizer and of the scanner, stated and proved once for all
//! inputs.

use crate::normalize::normalize_spec;
use crate::scan::init_state;
use crate::scan::is_whitespace_char;
use crate::scan::lemma_trim_all_whitespace;
use crate::scan::lemma_trim_chars_of;
use crate::scan::lemma_trim_idempotent;
use crate::scan::scan_from;
use crate::scan::scan_spec;
use crate::scan::step;
use crate::scan::trim_spec;
use crate::scan::Mode;
use crate::scan::ScanState;
use vstd::prelude::*;

verus! {

/// Normalization is the identity on input without carriage returns; in
/// particular, normalizing twice is the same as normalizing once.
pub proof fn lemma_normalize_identity(s: Seq<char>)
    requires
        forall|i: int| 0 <= i < s.len() ==> s[i] != '\r',
    ensures
        normalize_spec(s) == s,
    decreases s.len(),
{
    if s.len() == 0 {
        assert(normalize_spec(s) =~= s);
    } else {
        lemma_normalize_identity(s.skip(1));
        assert(seq![s[0]] + s.skip(1) =~= s);
    }
}

/// The normalized output never contains a carriage return.
pub proof fn lemma_normalize_no_carriage_return(s: Seq<char>)
    ensures
        forall|i: int| 0 <= i < normalize_spec(s).len() ==> normalize_spec(s)[i] != '\r',
    decreases s.len(),
{
    if s.len() == 0 {
    } else if s[0] == '\r' {
        if s.len() >= 2 && s[1] == '\n' {
            lemma_normalize_no_carriage_return(s.skip(2));
            let tail = normalize_spec(s.skip(2));
            assert(normalize_spec(s) == seq!['\n'] + tail);
            assert forall|i: int| 0 <= i < normalize_spec(s).len() implies normalize_spec(s)[i]
                != '\r' by {
                if i > 0 {
                    assert(normalize_spec(s)[i] == tail[i - 1]);
                }
            }
        } else {
            lemma_normalize_no_carriage_return(s.skip(1));
            let tail = normalize_spec(s.skip(1));
            assert(normalize_spec(s) == seq!['\n'] + tail);
            assert forall|i: int| 0 <= i < normalize_spec(s).len() implies normalize_spec(s)[i]
                != '\r' by {
                if i > 0 {
                    assert(normalize_spec(s)[i] == tail[i - 1]);
                }
            }
        }
    } else {
        lemma_normalize_no_carriage_return(s.skip(1));
        let tail = normalize_spec(s.skip(1));
        assert(normalize_spec(s) == seq![s[0]] + tail);
        assert forall|i: int| 0 <= i < normalize_spec(s).len() implies normalize_spec(s)[i]
            != '\r' by {
            if i > 0 {
                assert(normalize_spec(s)[i] == tail[i - 1]);
            }
        }
    }
}

/// A line break written `\r\n` normalizes as the same text with the break
/// written `\n`, wherever it stands, as long as the text before it does not
/// itself end in a bare `\r` (which would pair with the inserted character).
pub proof fn lemma_normalize_crlf(a: Seq<char>, b: Seq<char>)
    requires
        a.len() == 0 || a.last() != '\r',
    ensures
        normalize_spec(a + seq!['\r', '\n'] + b) == normalize_spec(a + seq!['\n'] + b),
    decreases a.len(),
{
    let l = a + seq!['\r', '\n'] + b;
    let r = a + seq!['\n'] + b;
    if a.len() == 0 {
        assert(l[0] == '\r' && l.len() >= 2 && l[1] == '\n');
        assert(l.skip(2) =~= b);
        assert(r[0] == '\n');
        assert(r.skip(1) =~= b);
        assert(normalize_spec(l) =~= normalize_spec(r));
    } else if a[0] == '\r' {
        // `a.last() != '\r'` rules out a one-character `a`, so the lookahead
        // stays inside `a`.
        assert(a.len() >= 2);
        if a[1] == '\n' {
            lemma_normalize_crlf(a.skip(2), b);
            assert(l.skip(2) =~= a.skip(2) + seq!['\r', '\n'] + b);
            assert(r.skip(2) =~= a.skip(2) + seq!['\n'] + b);
            assert(l[0] == '\r' && l[1] == '\n');
            assert(r[0] == '\r' && r[1] == '\n');
        } else {
            lemma_normalize_crlf(a.skip(1), b);
            assert(l.skip(1) =~= a.skip(1) + seq!['\r', '\n'] + b);
            assert(r.skip(1) =~= a.skip(1) + seq!['\n'] + b);
            assert(l[0] == '\r' && l[1] == a[1] && l[1] != '\n');
            assert(r[0] == '\r' && r[1] == a[1] && r[1] != '\n');
        }
    } else {
        lemma_normalize_crlf(a.skip(1), b);
        assert(l.skip(1) =~= a.skip(1) + seq!['\r', '\n'] + b);
        assert(r.skip(1) =~= a.skip(1) + seq!['\n'] + b);
        assert(l[0] == a[0] && r[0] == a[0]);
        assert(normalize_spec(l) =~= normalize_spec(r));
    }
}

/// A line break written as a lone `\r` normalizes as the same text with the
/// break written `\n`, as long as the text before it does not end in a bare
/// `\r` and the text after it does not begin with `\n` (either neighbour
/// would pair with the carriage return).
pub proof fn lemma_normalize_cr(a: Seq<char>, b: Seq<char>)
    requires
        a.len() == 0 || a.last() != '\r',
        b.len() == 0 || b[0] != '\n',
    ensures
        normalize_spec(a + seq!['\r'] + b) == normalize_spec(a + seq!['\n'] + b),
    decreases a.len(),
{
    let l = a + seq!['\r'] + b;
    let r = a + seq!['\n'] + b;
    if a.len() == 0 {
        assert(l[0] == '\r');
        assert(!(l.len() >= 2 && l[1] == '\n'));
        assert(l.skip(1) =~= b);
        assert(r[0] == '\n');
        assert(r.skip(1) =~= b);
        assert(normalize_spec(l) =~= normalize_spec(r));
    } else if a[0] == '\r' {
        assert(a.len() >= 2);
        if a[1] == '\n' {
            lemma_normalize_cr(a.skip(2), b);
            assert(l.skip(2) =~= a.skip(2) + seq!['\r'] + b);
            assert(r.skip(2) =~= a.skip(2) + seq!['\n'] + b);
            assert(l[0] == '\r' && l[1] == '\n');
            assert(r[0] == '\r' && r[1] == '\n');
        } else {
            lemma_normalize_cr(a.skip(1), b);
            assert(l.skip(1) =~= a.skip(1) + seq!['\r'] + b);
            assert(r.skip(1) =~= a.skip(1) + seq!['\n'] + b);
            assert(l[0] == '\r' && l[1] == a[1] && l[1] != '\n');
            assert(r[0] == '\r' && r[1] == a[1] && r[1] != '\n');
        }
    } else {
        lemma_normalize_cr(a.skip(1), b);
        assert(l.skip(1) =~= a.skip(1) + seq!['\r'] + b);
        assert(r.skip(1) =~= a.skip(1) + seq!['\n'] + b);
        assert(l[0] == a[0] && r[0] == a[0]);
        assert(normalize_spec(l) =~= normalize_spec(r));
    }
}

/// Scanning is insensitive to what stands before the current position: the
/// continuation of a scan in the combined input `p + s`, once it has passed
/// `p`, commits what the same continuation commits in `s` alone.
proof fn lemma_scan_from_shift(
    p: Seq<char>,
    s: Seq<char>,
    i: int,
    st: ScanState,
    markers: Seq<char>,
)
    requires
        0 <= i <= s.len(),
    ensures
        scan_from(p + s, p.len() + i, st, markers) == scan_from(s, i, st, markers),
    decreases s.len() - i,
{
    let t = p + s;
    if i == s.len() {
        assert(scan_from(t, p.len() + i, st, markers) == st.out);
    } else {
        assert(t[p.len() + i] == s[i]);
        let next = if i + 1 < s.len() {
            Some(s[i + 1])
        } else {
            None
        };
        assert((if p.len() + i + 1 < t.len() {
            Some(t[p.len() + i + 1])
        } else {
            None
        }) == next);
        lemma_scan_from_shift(p, s, i + 1, step(st, s[i], next, markers), markers);
    }
}

/// In an input whose only line terminator, if any, stands at the very end,
/// no value line can follow a key line, so the scan commits nothing.  In
/// particular a single key line, terminated or not, yields an empty result.
pub proof fn lemma_single_line_empty(s: Seq<char>, markers: Seq<char>)
    requires
        forall|i: int| 0 <= i < s.len() && s[i] == '\n' ==> i == s.len() - 1,
    ensures
        scan_spec(s, markers) =~= Seq::empty(),
{
    lemma_key_modes_no_commit(s, markers, 0, init_state());
}

/// While the input offers no terminator before its final character, the
/// scanner stays in one of the two key modes (or reaches a value mode only
/// for the final terminator itself) and commits nothing.
proof fn lemma_key_modes_no_commit(s: Seq<char>, markers: Seq<char>, i: int, st: ScanState)
    requires
        0 <= i <= s.len(),
        forall|j: int| i <= j < s.len() && s[j] == '\n' ==> j == s.len() - 1,
        st.mode is Key || st.mode is QuotedKey,
    ensures
        scan_from(s, i, st, markers) == st.out,
    decreases s.len() - i,
{
    if i == s.len() {
    } else {
        let c = s[i];
        let next = if i + 1 < s.len() {
            Some(s[i + 1])
        } else {
            None
        };
        let st1 = step(st, c, next, markers);
        assert(scan_from(s, i, st, markers) == scan_from(s, i + 1, st1, markers));
        assert(st1.out == st.out);
        if st1.mode is Key || st1.mode is QuotedKey {
            lemma_key_modes_no_commit(s, markers, i + 1, st1);
        } else {
            // The step moved to a value mode, so it consumed either a line
            // terminator or the closing marker right before one; either way
            // only the final terminator of the input remains.
            assert(st1.mode is Value);
            assert(st1.buffer.len() == 0);
            if c == '\n' {
                assert(i == s.len() - 1);
                assert(scan_from(s, i + 1, st1, markers) == st1.out);
            } else {
                // A quoted key closed: the lookahead was the terminator, so
                // it is the last character of the input.
                assert(next == Some('\n'));
                assert(i + 1 < s.len() && s[i + 1] == '\n');
                assert(i + 1 == s.len() - 1);
                let c2 = s[i + 1];
                let st2 = step(st1, c2, None, markers);
                assert(st1.buffer =~= Seq::<char>::empty());
                assert(trim_spec(st1.buffer).len() == 0);
                assert(st2.out == st1.out);
                assert(scan_from(s, i + 2, st2, markers) == st2.out);
            }
        }
    }
}

/// While the characters it reads are neither markers nor terminators, a
/// plain-key or plain-value mode only accumulates them into its buffer.
proof fn lemma_plain_run(s: Seq<char>, markers: Seq<char>, i: int, j: int, st: ScanState)
    requires
        0 <= i <= j <= s.len(),
        st.mode is Key || st.mode is Value,
        st.mode is Value ==> j < s.len(),
        forall|t: int| i <= t < j ==> !markers.contains(#[trigger] s[t]) && s[t] != '\n',
    ensures
        scan_from(s, i, st, markers) == scan_from(
            s,
            j,
            ScanState { buffer: st.buffer + s.subrange(i, j), ..st },
            markers,
        ),
    decreases j - i,
{
    if i == j {
        assert(st.buffer + s.subrange(i, j) =~= st.buffer);
        assert(ScanState { buffer: st.buffer + s.subrange(i, j), ..st } =~~= st);
    } else {
        let c = s[i];
        let next = if i + 1 < s.len() {
            Some(s[i + 1])
        } else {
            None
        };
        let st1 = step(st, c, next, markers);
        assert(scan_from(s, i, st, markers) == scan_from(s, i + 1, st1, markers));
        assert(st1 =~~= ScanState { buffer: st.buffer.push(c), ..st });
        lemma_plain_run(s, markers, i + 1, j, st1);
        assert(st1.buffer + s.subrange(i + 1, j) =~= st.buffer + s.subrange(i, j));
        assert(ScanState { buffer: st1.buffer + s.subrange(i + 1, j), ..st1 } =~~= ScanState {
            buffer: st.buffer + s.subrange(i, j),
            ..st
        });
    }
}

/// Inside a quoted span, every character is literal content while the opening
/// marker is never immediately followed by the line terminator.
proof fn lemma_quoted_run(
    s: Seq<char>,
    markers: Seq<char>,
    i: int,
    j: int,
    st: ScanState,
    q: char,
)
    requires
        0 <= i <= j <= s.len(),
        st.mode == Mode::QuotedKey(q) || st.mode == Mode::QuotedValue(q),
        forall|t: int| i <= t < j && #[trigger] s[t] == q ==> !(t + 1 < s.len() && s[t + 1] == '\n'),
    ensures
        scan_from(s, i, st, markers) == scan_from(
            s,
            j,
            ScanState { buffer: st.buffer + s.subrange(i, j), ..st },
            markers,
        ),
    decreases j - i,
{
    if i == j {
        assert(st.buffer + s.subrange(i, j) =~= st.buffer);
        assert(ScanState { buffer: st.buffer + s.subrange(i, j), ..st } =~~= st);
    } else {
        let c = s[i];
        let next = if i + 1 < s.len() {
            Some(s[i + 1])
        } else {
            None
        };
        let st1 = step(st, c, next, markers);
        assert(scan_from(s, i, st, markers) == scan_from(s, i + 1, st1, markers));
        assert(st1 =~~= ScanState { buffer: st.buffer.push(c), ..st });
        lemma_quoted_run(s, markers, i + 1, j, st1, q);
        assert(st1.buffer + s.subrange(i + 1, j) =~= st.buffer + s.subrange(i, j));
        assert(ScanState { buffer: st1.buffer + s.subrange(i + 1, j), ..st1 } =~~= ScanState {
            buffer: st.buffer + s.subrange(i, j),
            ..st
        });
    }
}

/// An unterminated quoted key commits nothing: when the input opens a quoted
/// key whose marker is never again immediately followed by the line
/// terminator, the whole scan yields the empty result.
pub proof fn lemma_unterminated_quoted_key(s: Seq<char>, markers: Seq<char>)
    requires
        s.len() > 0,
        markers.contains(s[0]),
        forall|t: int| 1 <= t < s.len() && #[trigger] s[t] == s[0] ==> !(t + 1 < s.len() && s[t + 1]
            == '\n'),
    ensures
        scan_spec(s, markers) =~= Seq::empty(),
{
    let st0 = init_state();
    let next = if 1 < s.len() {
        Some(s[1])
    } else {
        None
    };
    let st1 = step(st0, s[0], next, markers);
    assert(scan_spec(s, markers) == scan_from(s, 1, st1, markers));
    assert(st1.mode == Mode::QuotedKey(s[0]));
    lemma_quoted_run(s, markers, 1, s.len() as int, st1, s[0]);
}

/// A key line followed by a value line, both plain (no marker characters, no
/// terminator inside), scans to exactly one pair: the trimmed key mapped to
/// the trimmed value.  Surrounding whitespace of either token is immaterial.
pub proof fn lemma_plain_pair(k: Seq<char>, v: Seq<char>, markers: Seq<char>)
    requires
        !markers.contains('\n'),
        forall|t: int| 0 <= t < k.len() ==> !markers.contains(#[trigger] k[t]) && k[t] != '\n',
        forall|t: int| 0 <= t < v.len() ==> !markers.contains(#[trigger] v[t]) && v[t] != '\n',
        trim_spec(k).len() > 0,
        trim_spec(v).len() > 0,
    ensures
        scan_spec(k + seq!['\n'] + v + seq!['\n'], markers) =~= seq![
            (trim_spec(k), trim_spec(v)),
        ],
{
    let s = k + seq!['\n'] + v + seq!['\n'];
    let kl = k.len() as int;
    assert(forall|t: int| 0 <= t < kl ==> s[t] == k[t]);
    lemma_plain_run(s, markers, 0, kl, init_state());
    let stk = ScanState { buffer: init_state().buffer + s.subrange(0, kl), ..init_state() };
    assert(stk.buffer =~= k);
    let nextk = if kl + 1 < s.len() {
        Some(s[kl + 1])
    } else {
        None
    };
    let stv0 = step(stk, s[kl], nextk, markers);
    assert(s[kl] == '\n');
    assert(scan_from(s, kl, stk, markers) == scan_from(s, kl + 1, stv0, markers));
    assert(stv0.mode is Value && stv0.key == trim_spec(k) && stv0.buffer =~= Seq::<char>::empty()
        && stv0.out =~= Seq::<(Seq<char>, Seq<char>)>::empty());
    let e = s.len() - 1;
    assert(forall|t: int| kl + 1 <= t < e ==> s[t] == v[t - kl - 1]);
    lemma_plain_run(s, markers, kl + 1, e, stv0);
    let stv = ScanState { buffer: stv0.buffer + s.subrange(kl + 1, e), ..stv0 };
    assert(stv.buffer =~= v);
    assert(s[e] == '\n');
    let stf = step(stv, s[e], None, markers);
    assert(scan_from(s, e, stv, markers) == scan_from(s, e + 1, stf, markers));
    assert(stf.out =~= seq![(trim_spec(k), trim_spec(v))]);
    assert(scan_from(s, s.len() as int, stf, markers) == stf.out);
}

/// The end of the input commits a pending plain value even without a trailing
/// terminator: a key line followed by an unterminated plain value line scans
/// to the same single pair as its terminated form.
pub proof fn lemma_plain_pair_at_end(k: Seq<char>, v: Seq<char>, markers: Seq<char>)
    requires
        !markers.contains('\n'),
        forall|t: int| 0 <= t < k.len() ==> !markers.contains(#[trigger] k[t]) && k[t] != '\n',
        forall|t: int| 0 <= t < v.len() ==> !markers.contains(#[trigger] v[t]) && v[t] != '\n',
        v.len() > 0,
        trim_spec(k).len() > 0,
        trim_spec(v).len() > 0,
    ensures
        scan_spec(k + seq!['\n'] + v, markers) =~= seq![(trim_spec(k), trim_spec(v))],
{
    let s = k + seq!['\n'] + v;
    let kl = k.len() as int;
    assert(forall|t: int| 0 <= t < kl ==> s[t] == k[t]);
    lemma_plain_run(s, markers, 0, kl, init_state());
    let stk = ScanState { buffer: init_state().buffer + s.subrange(0, kl), ..init_state() };
    assert(stk.buffer =~= k);
    let nextk = if kl + 1 < s.len() {
        Some(s[kl + 1])
    } else {
        None
    };
    let stv0 = step(stk, s[kl], nextk, markers);
    assert(s[kl] == '\n');
    assert(scan_from(s, kl, stk, markers) == scan_from(s, kl + 1, stv0, markers));
    assert(stv0.mode is Value && stv0.key == trim_spec(k) && stv0.buffer =~= Seq::<char>::empty()
        && stv0.out =~= Seq::<(Seq<char>, Seq<char>)>::empty());
    let e = s.len() - 1;
    assert(forall|t: int| kl + 1 <= t < e ==> s[t] == v[t - kl - 1]);
    lemma_plain_run(s, markers, kl + 1, e, stv0);
    let stv = ScanState { buffer: stv0.buffer + s.subrange(kl + 1, e), ..stv0 };
    assert(stv.buffer =~= v.drop_last());
    assert(s[e] == v.last());
    let stf = step(stv, s[e], None, markers);
    assert(stv.buffer.push(s[e]) =~= v);
    assert(scan_from(s, e, stv, markers) == scan_from(s, e + 1, stf, markers));
    assert(stf.out =~= seq![(trim_spec(k), trim_spec(v))]);
    assert(scan_from(s, s.len() as int, stf, markers) == stf.out);
}

/// A quoted key span followed by a quoted value span scans to exactly one
/// pair, both tokens kept verbatim: no trimming, no escape processing.  The
/// spans may use different markers and their content may hold terminators and
/// marker characters, as long as no interior occurrence of the span's own
/// marker is immediately followed by the terminator (such an occurrence would
/// close the span early; anywhere else the marker is literal content).
pub proof fn lemma_quoted_pair(
    k: Seq<char>,
    v: Seq<char>,
    m: char,
    m2: char,
    markers: Seq<char>,
)
    requires
        !markers.contains('\n'),
        markers.contains(m),
        markers.contains(m2),
        forall|t: int| 0 <= t < k.len() - 1 && #[trigger] k[t] == m ==> k[t + 1] != '\n',
        forall|t: int| 0 <= t < v.len() - 1 && #[trigger] v[t] == m2 ==> v[t + 1] != '\n',
    ensures
        scan_spec(
            seq![m] + k + seq![m, '\n'] + seq![m2] + v + seq![m2, '\n'],
            markers,
        ) =~= seq![(k, v)],
{
    let s = seq![m] + k + seq![m, '\n'] + seq![m2] + v + seq![m2, '\n'];
    let kl = k.len() as int;
    let vl = v.len() as int;
    assert(s.len() == kl + vl + 6);
    assert(forall|t: int| 1 <= t < 1 + kl ==> s[t] == k[t - 1]);
    assert(s[0] == m && s[1 + kl] == m && s[2 + kl] == '\n');
    assert(s[3 + kl] == m2 && s[4 + kl + vl] == m2 && s[5 + kl + vl] == '\n');
    assert(forall|t: int| 4 + kl <= t < 4 + kl + vl ==> s[t] == v[t - 4 - kl]);
    // Opening the quoted key.
    let st0 = init_state();
    let next0 = if 1 < s.len() {
        Some(s[1])
    } else {
        None
    };
    let st1 = step(st0, s[0], next0, markers);
    assert(scan_spec(s, markers) == scan_from(s, 1, st1, markers));
    assert(st1.mode == Mode::QuotedKey(m));
    // The key content is literal: no interior `m` is followed by `\n`.
    assert(forall|t: int| 1 <= t < 1 + kl && #[trigger] s[t] == m ==> !(t + 1 < s.len() && s[t + 1]
        == '\n'));
    lemma_quoted_run(s, markers, 1, 1 + kl, st1, m);
    let stk = ScanState { buffer: st1.buffer + s.subrange(1, 1 + kl), ..st1 };
    assert(stk.buffer =~= k);
    // Closing the quoted key: the marker is immediately followed by `\n`.
    let stc = step(stk, s[1 + kl], Some(s[2 + kl]), markers);
    assert(scan_from(s, 1 + kl, stk, markers) == scan_from(s, 2 + kl, stc, markers));
    assert(stc.mode is Value && stc.key == k && stc.buffer =~= Seq::<char>::empty());
    // The terminator after the closed key span is a blank value line.
    let stb = step(stc, s[2 + kl], Some(s[3 + kl]), markers);
    assert(scan_from(s, 2 + kl, stc, markers) == scan_from(s, 3 + kl, stb, markers));
    assert(trim_spec(stc.buffer).len() == 0);
    assert(stb.mode is Value && stb.key == k && stb.buffer =~= Seq::<char>::empty() && stb.out
        =~= Seq::<(Seq<char>, Seq<char>)>::empty());
    // Opening the quoted value.
    let sto = step(stb, s[3 + kl], Some(s[4 + kl]), markers);
    assert(scan_from(s, 3 + kl, stb, markers) == scan_from(s, 4 + kl, sto, markers));
    assert(sto.mode == Mode::QuotedValue(m2));
    // The value content is literal as well.
    assert(forall|t: int| 4 + kl <= t < 4 + kl + vl && #[trigger] s[t] == m2 ==> !(t + 1 < s.len()
        && s[t + 1] == '\n'));
    lemma_quoted_run(s, markers, 4 + kl, 4 + kl + vl, sto, m2);
    let stv = ScanState { buffer: sto.buffer + s.subrange(4 + kl, 4 + kl + vl), ..sto };
    assert(stv.buffer =~= v);
    // Closing the quoted value commits the pair.
    let stf = step(stv, s[4 + kl + vl], Some(s[5 + kl + vl]), markers);
    assert(scan_from(s, 4 + kl + vl, stv, markers) == scan_from(s, 5 + kl + vl, stf, markers));
    assert(stf.out =~= seq![(k, v)]);
    assert(stf.mode is Key && stf.buffer =~= Seq::<char>::empty());
    // The final terminator is a blank line before a key: nothing more commits.
    let ste = step(stf, s[5 + kl + vl], None, markers);
    assert(scan_from(s, 5 + kl + vl, stf, markers) == scan_from(s, 6 + kl + vl, ste, markers));
    assert(trim_spec(stf.buffer).len() == 0);
    assert(ste.out =~= seq![(k, v)]);
    assert(scan_from(s, s.len() as int, ste, markers) == ste.out);
}

/// Trimmed-surrounding-whitespace equivalence: a plain key line and a plain
/// value line scan to the same result as their trimmed forms.
pub proof fn lemma_plain_pair_trim_equivalence(k: Seq<char>, v: Seq<char>, markers: Seq<char>)
    requires
        !markers.contains('\n'),
        forall|t: int| 0 <= t < k.len() ==> !markers.contains(#[trigger] k[t]) && k[t] != '\n',
        forall|t: int| 0 <= t < v.len() ==> !markers.contains(#[trigger] v[t]) && v[t] != '\n',
        trim_spec(k).len() > 0,
        trim_spec(v).len() > 0,
    ensures
        scan_spec(k + seq!['\n'] + v + seq!['\n'], markers) == scan_spec(
            trim_spec(k) + seq!['\n'] + trim_spec(v) + seq!['\n'],
            markers,
        ),
{
    lemma_plain_pair(k, v, markers);
    lemma_trim_idempotent(k);
    lemma_trim_idempotent(v);
    lemma_trim_chars_of(k);
    lemma_trim_chars_of(v);
    assert forall|t: int| 0 <= t < trim_spec(k).len() implies !markers.contains(
        #[trigger] trim_spec(k)[t],
    ) && trim_spec(k)[t] != '\n' by {
        let j = choose|j: int| 0 <= j < k.len() && k[j] == trim_spec(k)[t];
        assert(!markers.contains(k[j]));
    }
    assert forall|t: int| 0 <= t < trim_spec(v).len() implies !markers.contains(
        #[trigger] trim_spec(v)[t],
    ) && trim_spec(v)[t] != '\n' by {
        let j = choose|j: int| 0 <= j < v.len() && v[j] == trim_spec(v)[t];
        assert(!markers.contains(v[j]));
    }
    lemma_plain_pair(trim_spec(k), trim_spec(v), markers);
}

/// Blank-line tolerance, at any point where a token is not yet under way: in
/// a plain-key or plain-value mode with an empty buffer (before a key,
/// between a key and its value, or between two pairs), a line of nothing but
/// whitespace is skipped and the scan continues as if it were not there.
pub proof fn lemma_blank_line_skipped_in_state(
    w: Seq<char>,
    s: Seq<char>,
    st: ScanState,
    markers: Seq<char>,
)
    requires
        !markers.contains('\n'),
        st.mode is Key || st.mode is Value,
        st.buffer.len() == 0,
        forall|t: int|
            0 <= t < w.len() ==> is_whitespace_char(#[trigger] w[t]) && !markers.contains(w[t])
                && w[t] != '\n',
    ensures
        scan_from(w + seq!['\n'] + s, 0, st, markers) == scan_from(s, 0, st, markers),
{
    let full = w + seq!['\n'] + s;
    let wl = w.len() as int;
    assert(forall|t: int| 0 <= t < wl ==> full[t] == w[t]);
    lemma_plain_run(full, markers, 0, wl, st);
    let stw = ScanState { buffer: st.buffer + full.subrange(0, wl), ..st };
    assert(stw.buffer =~= w);
    let nextw = if wl + 1 < full.len() {
        Some(full[wl + 1])
    } else {
        None
    };
    assert(full[wl] == '\n');
    let st1 = step(stw, full[wl], nextw, markers);
    lemma_trim_all_whitespace(w);
    assert(scan_from(full, wl, stw, markers) == scan_from(full, wl + 1, st1, markers));
    assert(st1 =~~= st);
    assert(full =~= (w + seq!['\n']) + s);
    lemma_scan_from_shift(w + seq!['\n'], s, 0, st1, markers);
}

/// Blank-line tolerance: a line of nothing but whitespace before a key is
/// skipped, so the scan of the remaining input is unchanged.
pub proof fn lemma_blank_line_skipped(w: Seq<char>, s: Seq<char>, markers: Seq<char>)
    requires
        !markers.contains('\n'),
        forall|t: int|
            0 <= t < w.len() ==> is_whitespace_char(#[trigger] w[t]) && !markers.contains(w[t])
                && w[t] != '\n',
    ensures
        scan_spec(w + seq!['\n'] + s, markers) == scan_spec(s, markers),
{
    lemma_blank_line_skipped_in_state(w, s, init_state(), markers);
}

} // verus!

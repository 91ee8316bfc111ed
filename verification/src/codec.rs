//! Streaming frame codec.
//!
//! On a stream transport, messages travel back-to-back as JSON-encoded
//! values with no length prefix.  The decoder is streaming: it consumes as
//! many complete values as the buffered bytes allow and retains the residual
//! partial value for the next read, so message boundaries may fall anywhere
//! across reads.
//!
//! This module finds those boundaries.  [`scan_step`] is a byte-level state
//! machine; [`scan_from`] runs it to locate the end of the first complete
//! value in a buffer, and [`split_from`] applies that repeatedly to cut a
//! buffer into frames.  The executable [`split_frames`] is proved to agree
//! with them exactly.  Boundary finding is purely structural: whether a
//! complete frame is also well-formed JSON is a separate question, answered
//! by [`frame_is_valid_json`].

use vstd::prelude::*;

verus! {

/// Scanner state while looking for the end of one value.
pub enum ScanSt {
    /// Before the value: leading whitespace is skipped.
    Start,
    /// Inside a `{`- or `[`-delimited value; `depth` open brackets are
    /// unclosed, and `in_str`/`esc` track string literals within, whose
    /// bytes are never structural.
    Nested { depth: nat, in_str: bool, esc: bool },
    /// Inside a top-level string value.
    TopStr { esc: bool },
    /// Inside a top-level number.  A number is never complete at the end of
    /// the buffer — more digits could still arrive — so it ends only at the
    /// first byte that cannot continue it, and that byte is not consumed.
    Num,
    /// Inside a top-level literal word (`true`, `false`, `null`), ended like
    /// a number by the first non-letter.
    Lit,
}

/// What one byte does to the scan.
pub enum ScanStep {
    /// The value goes on; keep scanning in this state.
    Into(ScanSt),
    /// The value is complete, this byte included.
    EndAt,
    /// The value was complete before this byte; the byte is not consumed.
    EndBefore,
    /// This byte cannot begin a value: the stream is corrupt.
    Bad,
}

/// What a scan of a buffer finds.
pub enum ScanResult {
    /// One complete value; the frame is the buffer up to this end position.
    Complete(int),
    /// The buffer ends inside a value: keep the bytes, wait for more.
    Incomplete,
    /// Nothing but whitespace.
    AllWs,
    /// A byte that cannot begin a value: the stream is corrupt.
    Malformed,
}

pub open spec fn is_ws(b: u8) -> bool {
    b == 0x20 || b == 0x09 || b == 0x0a || b == 0x0d
}

pub open spec fn is_digit(b: u8) -> bool {
    0x30 <= b <= 0x39
}

/// Bytes that may continue a number once it has begun: digits, signs, the
/// decimal point and the exponent marks.
pub open spec fn is_num_byte(b: u8) -> bool {
    is_digit(b) || b == 0x2d || b == 0x2b || b == 0x2e || b == 0x65 || b == 0x45
}

pub open spec fn is_letter(b: u8) -> bool {
    0x61 <= b <= 0x7a
}

/// Bytes that may begin a literal word: `t`, `f`, `n`.
pub open spec fn is_lit_start(b: u8) -> bool {
    b == 0x74 || b == 0x66 || b == 0x6e
}

/// One step of the scanner: what byte `b` does in state `st`.
pub open spec fn scan_step(st: ScanSt, b: u8) -> ScanStep {
    match st {
        ScanSt::Start => {
            if is_ws(b) {
                ScanStep::Into(ScanSt::Start)
            } else if b == 0x7b || b == 0x5b {  // { [
                ScanStep::Into(ScanSt::Nested { depth: 1, in_str: false, esc: false })
            } else if b == 0x22 {  // "
                ScanStep::Into(ScanSt::TopStr { esc: false })
            } else if is_digit(b) || b == 0x2d {
                ScanStep::Into(ScanSt::Num)
            } else if is_lit_start(b) {
                ScanStep::Into(ScanSt::Lit)
            } else {
                ScanStep::Bad
            }
        },
        ScanSt::Nested { depth, in_str, esc } => {
            if in_str {
                if esc {
                    ScanStep::Into(ScanSt::Nested { depth, in_str: true, esc: false })
                } else if b == 0x5c {  // backslash
                    ScanStep::Into(ScanSt::Nested { depth, in_str: true, esc: true })
                } else if b == 0x22 {
                    ScanStep::Into(ScanSt::Nested { depth, in_str: false, esc: false })
                } else {
                    ScanStep::Into(ScanSt::Nested { depth, in_str: true, esc: false })
                }
            } else if b == 0x22 {
                ScanStep::Into(ScanSt::Nested { depth, in_str: true, esc: false })
            } else if b == 0x7b || b == 0x5b {
                ScanStep::Into(ScanSt::Nested { depth: depth + 1, in_str: false, esc: false })
            } else if b == 0x7d || b == 0x5d {  // } ]
                if depth == 1 {
                    ScanStep::EndAt
                } else {
                    ScanStep::Into(
                        ScanSt::Nested { depth: (depth - 1) as nat, in_str: false, esc: false },
                    )
                }
            } else {
                ScanStep::Into(ScanSt::Nested { depth, in_str: false, esc: false })
            }
        },
        ScanSt::TopStr { esc } => {
            if esc {
                ScanStep::Into(ScanSt::TopStr { esc: false })
            } else if b == 0x5c {
                ScanStep::Into(ScanSt::TopStr { esc: true })
            } else if b == 0x22 {
                ScanStep::EndAt
            } else {
                ScanStep::Into(ScanSt::TopStr { esc: false })
            }
        },
        ScanSt::Num => {
            if is_num_byte(b) {
                ScanStep::Into(ScanSt::Num)
            } else {
                ScanStep::EndBefore
            }
        },
        ScanSt::Lit => {
            if is_letter(b) {
                ScanStep::Into(ScanSt::Lit)
            } else {
                ScanStep::EndBefore
            }
        },
    }
}

/// Scan `s` from position `i` in state `st`, looking for the end of the
/// value whose scan is in progress.  `Complete(e)` means the value ends at
/// `e`: bytes before `e` belong to it, bytes from `e` on do not.
pub open spec fn scan_from(s: Seq<u8>, i: int, st: ScanSt) -> ScanResult
    decreases s.len() - i,
{
    if i < 0 || s.len() <= i {
        match st {
            ScanSt::Start => ScanResult::AllWs,
            _ => ScanResult::Incomplete,
        }
    } else {
        match scan_step(st, s[i]) {
            ScanStep::Into(st2) => scan_from(s, i + 1, st2),
            ScanStep::EndAt => ScanResult::Complete(i + 1),
            ScanStep::EndBefore => ScanResult::Complete(i),
            ScanStep::Bad => ScanResult::Malformed,
        }
    }
}

/// The scan of a buffer for its first frame.
pub open spec fn scan_frame(s: Seq<u8>) -> ScanResult {
    scan_from(s, 0, ScanSt::Start)
}

/// A complete scan never ends before its start nor past the buffer, and a
/// scan begun in `Start` consumes at least one byte.
pub proof fn lemma_scan_bounds(s: Seq<u8>, i: int, st: ScanSt)
    ensures
        scan_from(s, i, st) matches ScanResult::Complete(e) ==> {
            &&& i <= e <= s.len()
            &&& (st is Start ==> i < e)
        },
    decreases s.len() - i,
{
    if 0 <= i < s.len() {
        match scan_step(st, s[i]) {
            ScanStep::Into(st2) => lemma_scan_bounds(s, i + 1, st2),
            _ => (),
        }
    }
}

/// What the executable scanner reports for one frame.
pub enum FrameScan {
    Complete(usize),
    Incomplete,
    AllWs,
    Malformed,
}

/// The executable scanner's state, paired with its `depth`, `in_str` and
/// `esc` locals by [`est`].
enum Mode {
    Start,
    Nested,
    TopStr,
    Num,
    Lit,
}

/// The abstract state that the scanner's locals stand for.
spec fn est(m: Mode, depth: usize, in_str: bool, esc: bool) -> ScanSt {
    match m {
        Mode::Start => ScanSt::Start,
        Mode::Nested => ScanSt::Nested { depth: depth as nat, in_str, esc },
        Mode::TopStr => ScanSt::TopStr { esc },
        Mode::Num => ScanSt::Num,
        Mode::Lit => ScanSt::Lit,
    }
}

/// Scan `buf` from position `from` for the end of the first complete value,
/// exactly as [`scan_from`] describes.
pub fn scan_at(buf: &Vec<u8>, from: usize) -> (r: FrameScan)
    requires
        from <= buf@.len(),
    ensures
        ({
            let sr = scan_from(buf@, from as int, ScanSt::Start);
            &&& (r matches FrameScan::Complete(e) ==> sr == ScanResult::Complete(e as int))
            &&& (r is Incomplete ==> sr is Incomplete)
            &&& (r is AllWs ==> sr is AllWs)
            &&& (r is Malformed ==> sr is Malformed)
        }),
{
    let mut j: usize = from;
    let mut mode: Mode = Mode::Start;
    let mut depth: usize = 0;
    let mut in_str: bool = false;
    let mut esc: bool = false;
    while j < buf.len()
        invariant
            from <= j <= buf@.len(),
            scan_from(buf@, from as int, ScanSt::Start) == scan_from(
                buf@,
                j as int,
                est(mode, depth, in_str, esc),
            ),
            mode matches Mode::Nested ==> 1 <= depth <= j - from,
            mode matches Mode::Nested && !in_str ==> !esc,
        decreases buf@.len() - j,
    {
        let b = buf[j];
        match mode {
            Mode::Start => {
                if b == 0x20 || b == 0x09 || b == 0x0a || b == 0x0d {
                    // whitespace before the value
                } else if b == 0x7b || b == 0x5b {
                    mode = Mode::Nested;
                    depth = 1;
                    in_str = false;
                    esc = false;
                } else if b == 0x22 {
                    mode = Mode::TopStr;
                    esc = false;
                } else if (0x30 <= b && b <= 0x39) || b == 0x2d {
                    mode = Mode::Num;
                } else if b == 0x74 || b == 0x66 || b == 0x6e {
                    mode = Mode::Lit;
                } else {
                    return FrameScan::Malformed;
                }
            },
            Mode::Nested => {
                if in_str {
                    if esc {
                        esc = false;
                    } else if b == 0x5c {
                        esc = true;
                    } else if b == 0x22 {
                        in_str = false;
                    }
                } else if b == 0x22 {
                    in_str = true;
                    esc = false;
                } else if b == 0x7b || b == 0x5b {
                    depth = depth + 1;
                } else if b == 0x7d || b == 0x5d {
                    if depth == 1 {
                        return FrameScan::Complete(j + 1);
                    } else {
                        depth = depth - 1;
                    }
                }
            },
            Mode::TopStr => {
                if esc {
                    esc = false;
                } else if b == 0x5c {
                    esc = true;
                } else if b == 0x22 {
                    return FrameScan::Complete(j + 1);
                }
            },
            Mode::Num => {
                if (0x30 <= b && b <= 0x39) || b == 0x2d || b == 0x2b || b == 0x2e || b == 0x65
                    || b == 0x45 {
                    // the number goes on
                } else {
                    return FrameScan::Complete(j);
                }
            },
            Mode::Lit => {
                if 0x61 <= b && b <= 0x7a {
                    // the word goes on
                } else {
                    return FrameScan::Complete(j);
                }
            },
        }
        j = j + 1;
    }
    match mode {
        Mode::Start => FrameScan::AllWs,
        _ => FrameScan::Incomplete,
    }
}

/// Cut `s` into complete frames from position `i` on.  Yields the frames,
/// the position up to which the buffer was consumed, and whether the scan
/// hit a byte that cannot begin a value.  An incomplete or all-whitespace
/// tail is left unconsumed; a corrupt tail is consumed whole, so that the
/// stream drops it rather than jam on it forever.
pub open spec fn split_from(s: Seq<u8>, i: int) -> (Seq<Seq<u8>>, int, bool)
    decreases s.len() - i,
{
    match scan_from(s, i, ScanSt::Start) {
        ScanResult::Complete(e) => {
            if i < e <= s.len() {
                let rest = split_from(s, e);
                (seq![s.subrange(i, e)] + rest.0, rest.1, rest.2)
            } else {
                // never reached: a complete scan ends within the buffer,
                // past its start (`lemma_scan_bounds`)
                (Seq::empty(), i, false)
            }
        },
        ScanResult::Incomplete => (Seq::empty(), i, false),
        ScanResult::AllWs => (Seq::empty(), i, false),
        ScanResult::Malformed => (Seq::empty(), s.len() as int, true),
    }
}

/// The complete frames at the front of `s`.
pub open spec fn frames_of(s: Seq<u8>) -> Seq<Seq<u8>> {
    split_from(s, 0).0
}

/// How much of `s` the frames (and any dropped corrupt tail) consume.
pub open spec fn split_end(s: Seq<u8>) -> int {
    split_from(s, 0).1
}

/// Whether the unconsumed part of `s` begins with a byte that cannot begin
/// a value.
pub open spec fn split_corrupt(s: Seq<u8>) -> bool {
    split_from(s, 0).2
}

/// The unconsumed tail of `s`: the bytes of a partial value still waiting
/// for the rest.  Empty when the scan was corrupt, since a corrupt tail is
/// dropped.
pub open spec fn residual_of(s: Seq<u8>) -> Seq<u8> {
    s.subrange(split_end(s), s.len() as int)
}

/// The consumed position never runs backwards nor past the buffer.
pub proof fn lemma_split_end_bounds(s: Seq<u8>, i: int)
    requires
        0 <= i <= s.len(),
    ensures
        i <= split_from(s, i).1 <= s.len(),
    decreases s.len() - i,
{
    lemma_scan_bounds(s, i, ScanSt::Start);
    match scan_from(s, i, ScanSt::Start) {
        ScanResult::Complete(e) => {
            lemma_split_end_bounds(s, e);
        },
        _ => (),
    }
}

/// Copy of `buf[a..b]` as a fresh vector.
fn copy_range(buf: &Vec<u8>, a: usize, b: usize) -> (r: Vec<u8>)
    requires
        a <= b <= buf@.len(),
    ensures
        r@ == buf@.subrange(a as int, b as int),
{
    vstd::slice::slice_to_vec(vstd::slice::slice_subrange(buf.as_slice(), a, b))
}

/// Cut `buf` into its complete frames, exactly as [`split_from`] describes:
/// returns the frames, the number of consumed bytes, and whether the
/// unconsumed part was corrupt.
pub fn split_frames(buf: &Vec<u8>) -> (r: (Vec<Vec<u8>>, usize, bool))
    ensures
        r.0.deep_view() == frames_of(buf@),
        r.1 == split_end(buf@),
        r.2 == split_corrupt(buf@),
{
    let mut frames: Vec<Vec<u8>> = Vec::new();
    let mut pos: usize = 0;
    loop
        invariant
            pos <= buf@.len(),
            split_from(buf@, 0).0 == frames.deep_view() + split_from(buf@, pos as int).0,
            split_from(buf@, 0).1 == split_from(buf@, pos as int).1,
            split_from(buf@, 0).2 == split_from(buf@, pos as int).2,
        decreases buf@.len() - pos,
    {
        proof {
            lemma_scan_bounds(buf@, pos as int, ScanSt::Start);
        }
        match scan_at(buf, pos) {
            FrameScan::Complete(e) => {
                let ghost prev = frames.deep_view();
                let f = copy_range(buf, pos, e);
                frames.push(f);
                proof {
                    assert(frames.deep_view() =~~= prev.push(f@));
                    assert(split_from(buf@, 0).0 =~= frames.deep_view() + split_from(
                        buf@,
                        e as int,
                    ).0);
                }
                pos = e;
            },
            FrameScan::Incomplete => {
                return (frames, pos, false);
            },
            FrameScan::AllWs => {
                return (frames, pos, false);
            },
            FrameScan::Malformed => {
                return (frames, buf.len(), true);
            },
        }
    }
}

/// Whether `bytes` parse as exactly one JSON value (surrounding
/// whitespace allowed): the acceptance test the codec applies to each
/// complete frame.  The answer is a function of the bytes alone.
pub uninterp spec fn json_accepts(bytes: Seq<u8>) -> bool;

/// Relies on `serde_json::from_slice`: deserializing a byte slice into
/// `serde_json::Value` reads the whole slice as one JSON value and
/// succeeds or fails deterministically — the outcome depends on the bytes
/// alone.
#[verifier::external_body]
pub fn frame_is_valid_json(frame: &Vec<u8>) -> (r: bool)
    ensures
        r == json_accepts(frame@),
{
    serde_json::from_slice::<serde_json::Value>(frame.as_slice()).is_ok()
}

/// The frame predicate used throughout: a frame is good when it holds one
/// well-formed JSON value.
pub open spec fn json_pred() -> spec_fn(Seq<u8>) -> bool {
    |f: Seq<u8>| json_accepts(f)
}

/// The complete, well-formed frames at the front of `s`: what one buffered
/// read hands to the application.  A complete frame that is not well-formed
/// JSON is skipped; it fails neither the read nor the connection.
pub open spec fn good_frames(s: Seq<u8>) -> Seq<Seq<u8>> {
    frames_of(s).filter(json_pred())
}

/// Taking one more element extends a filter by at most that element.
pub proof fn lemma_filter_take_step<A>(s: Seq<A>, pred: spec_fn(A) -> bool, k: int)
    requires
        0 <= k < s.len(),
    ensures
        s.take(k + 1).filter(pred) == if pred(s[k]) {
            s.take(k).filter(pred).push(s[k])
        } else {
            s.take(k).filter(pred)
        },
{
    reveal(Seq::filter);
    let t = s.take(k + 1);
    assert(t.drop_last() =~= s.take(k));
    assert(t.last() == s[k]);
}

/// A buffer with no complete frame at its front: what a decoder may hold
/// between reads — a partial value, or whitespace, or nothing.
pub open spec fn pending(s: Seq<u8>) -> bool {
    scan_frame(s) is Incomplete || scan_frame(s) is AllWs
}

/// A frame that delimits itself: scanned alone, it is complete at exactly
/// its own length.  Every JSON object or string frame is of this kind.
pub open spec fn delimited(f: Seq<u8>) -> bool {
    scan_frame(f) == ScanResult::Complete(f.len() as int)
}

/// A finished scan does not change when more bytes arrive after the buffer:
/// a complete value stays complete with the same end, and a corrupt scan
/// stays corrupt.
pub proof fn lemma_scan_extend(s: Seq<u8>, t: Seq<u8>, i: int, st: ScanSt)
    ensures
        scan_from(s, i, st) matches ScanResult::Complete(e) ==> scan_from(s + t, i, st)
            == ScanResult::Complete(e),
        scan_from(s, i, st) is Malformed ==> scan_from(s + t, i, st) is Malformed,
    decreases s.len() - i,
{
    if 0 <= i < s.len() {
        assert((s + t)[i] == s[i]);
        match scan_step(st, s[i]) {
            ScanStep::Into(st2) => lemma_scan_extend(s, t, i + 1, st2),
            _ => (),
        }
    }
}

/// Scanning a suffix in place: the scan of `s` from `j` is the scan of the
/// suffix `s[i..]` from `j - i`, with every end position shifted by `i`.
pub proof fn lemma_scan_shift(s: Seq<u8>, i: int, j: int, st: ScanSt)
    requires
        0 <= i <= j <= s.len(),
    ensures
        ({
            let suf = s.subrange(i, s.len() as int);
            match scan_from(s, j, st) {
                ScanResult::Complete(e) => scan_from(suf, j - i, st) == ScanResult::Complete(
                    e - i,
                ),
                r => scan_from(suf, j - i, st) == r,
            }
        }),
    decreases s.len() + 1 - j,
{
    let suf = s.subrange(i, s.len() as int);
    if j < s.len() {
        assert(suf[j - i] == s[j]);
        match scan_step(st, s[j]) {
            ScanStep::Into(st2) => lemma_scan_shift(s, i, j + 1, st2),
            _ => (),
        }
    }
}

/// Splitting a suffix in place: the frames are the same, and the consumed
/// position shifts by the suffix's start.
pub proof fn lemma_split_shift(s: Seq<u8>, i: int, j: int)
    requires
        0 <= i <= j <= s.len(),
    ensures
        ({
            let suf = s.subrange(i, s.len() as int);
            &&& split_from(s, j).0 == split_from(suf, j - i).0
            &&& split_from(s, j).1 == i + split_from(suf, j - i).1
            &&& split_from(s, j).2 == split_from(suf, j - i).2
        }),
    decreases s.len() - j,
{
    let suf = s.subrange(i, s.len() as int);
    lemma_scan_shift(s, i, j, ScanSt::Start);
    lemma_scan_bounds(s, j, ScanSt::Start);
    match scan_from(s, j, ScanSt::Start) {
        ScanResult::Complete(e) => {
            assert(s.subrange(j, e) =~= suf.subrange(j - i, e - i));
            lemma_split_shift(s, i, e);
            assert(split_from(s, j).0 =~= split_from(suf, j - i).0);
        },
        _ => (),
    }
}

/// One read after another: appending `t` to a non-corrupt buffer yields the
/// buffer's own frames, then whatever the retained residual followed by `t`
/// yields.  This is why a decoder may hand out the complete frames and keep
/// only the residual: no frame is lost or reordered at a read boundary.
pub proof fn lemma_split_append(s: Seq<u8>, t: Seq<u8>)
    requires
        !split_corrupt(s),
    ensures
        frames_of(s + t) == frames_of(s) + frames_of(residual_of(s) + t),
        split_end(s + t) == split_end(s) + split_end(residual_of(s) + t),
        split_corrupt(s + t) == split_corrupt(residual_of(s) + t),
    decreases s.len(),
{
    lemma_split_append_at(s, t, 0);
}

proof fn lemma_split_append_at(s: Seq<u8>, t: Seq<u8>, i: int)
    requires
        0 <= i <= s.len(),
        !split_from(s, i).2,
    ensures
        ({
            let c = split_from(s, i).1;
            let rt = s.subrange(c, s.len() as int) + t;
            &&& split_from(s + t, i).0 == split_from(s, i).0 + split_from(rt, 0).0
            &&& split_from(s + t, i).1 == c + split_from(rt, 0).1
            &&& split_from(s + t, i).2 == split_from(rt, 0).2
        }),
    decreases s.len() - i,
{
    lemma_scan_bounds(s, i, ScanSt::Start);
    lemma_scan_extend(s, t, i, ScanSt::Start);
    lemma_split_end_bounds(s, i);
    match scan_from(s, i, ScanSt::Start) {
        ScanResult::Complete(e) => {
            assert((s + t).subrange(i, e) =~= s.subrange(i, e));
            lemma_split_append_at(s, t, e);
            assert(split_from(s + t, i).0 =~= split_from(s, i).0 + split_from(
                s.subrange(split_from(s, i).1, s.len() as int) + t,
                0,
            ).0);
        },
        ScanResult::Malformed => (),
        _ => {
            // Incomplete or AllWs: nothing of `s` beyond `i` was consumed,
            // so the split of `s + t` from `i` is the split of the
            // unconsumed tail plus `t`, shifted into place.
            lemma_split_shift(s + t, i, i);
            assert((s + t).subrange(i, (s + t).len() as int) =~= s.subrange(i, s.len() as int)
                + t);
            assert(split_from(s + t, i).0 =~= split_from(
                s.subrange(i, s.len() as int) + t,
                0,
            ).0);
        },
    }
}

/// A corrupt buffer stays corrupt, whatever arrives after it.
pub proof fn lemma_corrupt_extend(s: Seq<u8>, t: Seq<u8>)
    requires
        split_corrupt(s),
    ensures
        split_corrupt(s + t),
{
    lemma_corrupt_extend_at(s, t, 0);
}

proof fn lemma_corrupt_extend_at(s: Seq<u8>, t: Seq<u8>, i: int)
    requires
        0 <= i <= s.len(),
        split_from(s, i).2,
    ensures
        split_from(s + t, i).2,
    decreases s.len() - i,
{
    lemma_scan_bounds(s, i, ScanSt::Start);
    lemma_scan_extend(s, t, i, ScanSt::Start);
    match scan_from(s, i, ScanSt::Start) {
        ScanResult::Complete(e) => lemma_corrupt_extend_at(s, t, e),
        _ => (),
    }
}

/// Cutting a concatenation of self-delimiting frames gives back exactly
/// those frames, consumes every byte, and finds no corruption: encoding a
/// batch of values back-to-back and splitting the result is the identity.
pub proof fn lemma_split_concat(fs: Seq<Seq<u8>>)
    requires
        forall|k: int| 0 <= k < fs.len() ==> delimited(#[trigger] fs[k]),
    ensures
        frames_of(fs.flatten()) == fs,
        split_end(fs.flatten()) == fs.flatten().len(),
        !split_corrupt(fs.flatten()),
    decreases fs.len(),
{
    if fs.len() == 0 {
        assert(fs.flatten() =~= Seq::<u8>::empty());
        assert(frames_of(fs.flatten()) =~= fs);
    } else {
        let f = fs.first();
        let rest = fs.drop_first();
        let s = fs.flatten();
        assert(s == f + rest.flatten());
        assert(delimited(f));
        lemma_scan_bounds(f, 0, ScanSt::Start);
        lemma_scan_extend(f, rest.flatten(), 0, ScanSt::Start);
        assert(scan_from(s, 0, ScanSt::Start) == ScanResult::Complete(f.len() as int));
        assert(s.subrange(0, f.len() as int) =~= f);
        lemma_split_shift(s, f.len() as int, f.len() as int);
        assert(s.subrange(f.len() as int, s.len() as int) =~= rest.flatten());
        assert(forall|k: int|
            0 <= k < rest.len() ==> delimited(#[trigger] rest[k]) && rest[k] == fs[k + 1]);
        lemma_split_concat(rest);
        assert(frames_of(s) =~= fs);
    }
}

/// A decoder's life over a sequence of reads: starting from the retained
/// bytes `buf`, feed each chunk in turn; collect every frame delivered
/// along the way and keep the final residual.
pub open spec fn feed_all(buf: Seq<u8>, chunks: Seq<Seq<u8>>) -> (Seq<Seq<u8>>, Seq<u8>)
    decreases chunks.len(),
{
    if chunks.len() == 0 {
        (Seq::empty(), buf)
    } else {
        let prev = feed_all(buf, chunks.drop_last());
        (
            prev.0 + good_frames(prev.1 + chunks.last()),
            residual_of(prev.1 + chunks.last()),
        )
    }
}

/// Feeding a stream chunk by chunk delivers exactly the good frames of the
/// whole stream, however the chunk boundaries fall, and retains exactly the
/// whole stream's residual.
pub proof fn lemma_feed_all(buf: Seq<u8>, chunks: Seq<Seq<u8>>)
    requires
        pending(buf),
        !split_corrupt(buf + chunks.flatten()),
    ensures
        feed_all(buf, chunks).0 == good_frames(buf + chunks.flatten()),
        feed_all(buf, chunks).1 == residual_of(buf + chunks.flatten()),
    decreases chunks.len(),
{
    if chunks.len() == 0 {
        assert(buf + chunks.flatten() =~= buf);
        assert(frames_of(buf) =~= Seq::<Seq<u8>>::empty());
        assert(good_frames(buf) =~= Seq::<Seq<u8>>::empty());
        assert(residual_of(buf) =~= buf);
    } else {
        let cs = chunks.drop_last();
        let c = chunks.last();
        let w = buf + cs.flatten();
        chunks.lemma_flatten_and_flatten_alt_are_equivalent();
        cs.lemma_flatten_and_flatten_alt_are_equivalent();
        assert(chunks.flatten_alt() == cs.flatten_alt() + c);
        assert(buf + chunks.flatten() =~= w + c);
        if split_corrupt(w) {
            lemma_corrupt_extend(w, c);
            assert(false);
        }
        lemma_feed_all(buf, cs);
        lemma_split_append(w, c);
        Seq::filter_distributes_over_add(
            frames_of(w),
            frames_of(residual_of(w) + c),
            json_pred(),
        );
        lemma_split_end_bounds(w, 0);
        lemma_split_end_bounds(residual_of(w) + c, 0);
        assert(residual_of(w + c) =~= residual_of(residual_of(w) + c));
        assert(feed_all(buf, chunks).0 == good_frames(buf + chunks.flatten()));
    }
}

/// All-good frames pass the filter unchanged.
pub proof fn lemma_filter_all_good(fs: Seq<Seq<u8>>)
    requires
        forall|k: int| 0 <= k < fs.len() ==> json_accepts(#[trigger] fs[k]),
    ensures
        fs.filter(json_pred()) == fs,
    decreases fs.len(),
{
    reveal(Seq::filter);
    if fs.len() > 0 {
        lemma_filter_all_good(fs.drop_last());
        assert(fs.filter(json_pred()) =~= fs);
    }
}

/// Appending one more piece extends the concatenation at its end.
pub proof fn lemma_push_flatten<A>(xs: Seq<Seq<A>>, x: Seq<A>)
    ensures
        xs.push(x).flatten() == xs.flatten() + x,
{
    xs.push(x).lemma_flatten_and_flatten_alt_are_equivalent();
    xs.lemma_flatten_and_flatten_alt_are_equivalent();
    assert(xs.push(x).drop_last() =~= xs);
    assert(xs.push(x).flatten_alt() == xs.flatten_alt() + x);
}

/// In-order, exactly-once delivery across arbitrary read boundaries: if a
/// peer sends the frames `fs` — each self-delimiting and well-formed — as
/// one byte stream, and that stream reaches a fresh decoder cut into any
/// chunks whatever, then feeding the chunks in order delivers exactly `fs`,
/// in order, and leaves nothing behind.
pub proof fn lemma_stream_delivery(chunks: Seq<Seq<u8>>, fs: Seq<Seq<u8>>)
    requires
        forall|k: int|
            0 <= k < fs.len() ==> delimited(#[trigger] fs[k]) && json_accepts(fs[k]),
        chunks.flatten() == fs.flatten(),
    ensures
        feed_all(Seq::empty(), chunks).0 == fs,
        feed_all(Seq::empty(), chunks).1 == Seq::<u8>::empty(),
{
    let s = fs.flatten();
    lemma_split_concat(fs);
    assert(Seq::empty() + chunks.flatten() =~= s);
    lemma_feed_all(Seq::empty(), chunks);
    lemma_filter_all_good(fs);
    assert(residual_of(s) =~= Seq::<u8>::empty());
}

/// Streaming decode state for one stream connection: the residual bytes of
/// a partial value, retained and combined with the next read.
pub struct StreamDecoder {
    buf: Vec<u8>,
}

impl View for StreamDecoder {
    type V = Seq<u8>;

    closed spec fn view(&self) -> Seq<u8> {
        self.buf@
    }
}

impl StreamDecoder {
    /// A fresh decoder holds no bytes.
    pub fn new() -> (r: StreamDecoder)
        ensures
            r@ == Seq::<u8>::empty(),
    {
        StreamDecoder { buf: Vec::new() }
    }

    /// Take one read's bytes: the buffered stream grows by `data`, every
    /// complete well-formed frame in it comes out, in stream order, and the
    /// partial tail stays buffered for the next read.
    pub fn feed(&mut self, data: &Vec<u8>) -> (frames: Vec<Vec<u8>>)
        ensures
            frames.deep_view() == good_frames(old(self)@ + data@),
            final(self)@ == residual_of(old(self)@ + data@),
    {
        let mut i: usize = 0;
        while i < data.len()
            invariant
                i <= data@.len(),
                self.buf@ == old(self)@ + data@.take(i as int),
            decreases data@.len() - i,
        {
            self.buf.push(data[i]);
            proof {
                assert(old(self)@ + data@.take(i + 1) =~= (old(self)@ + data@.take(i as int)).push(
                    data@[i as int],
                ));
            }
            i = i + 1;
        }
        proof {
            assert(self.buf@ =~= old(self)@ + data@);
        }
        let ghost whole = self.buf@;
        let (parts, consumed, _corrupt) = split_frames(&self.buf);
        proof {
            lemma_split_end_bounds(self.buf@, 0);
        }
        let rest = copy_range(&self.buf, consumed, self.buf.len());
        self.buf = rest;
        proof {
            assert(self.buf@ == residual_of(whole));
        }
        let good = filter_valid_frames(&parts);
        proof {
            assert(good.deep_view() == good_frames(whole));
        }
        good
    }
}

/// Keep, in order, exactly the frames that hold one well-formed JSON value.
pub fn filter_valid_frames(frames: &Vec<Vec<u8>>) -> (r: Vec<Vec<u8>>)
    ensures
        r.deep_view() == frames.deep_view().filter(json_pred()),
{
    let mut good: Vec<Vec<u8>> = Vec::new();
    let mut k: usize = 0;
    while k < frames.len()
        invariant
            k <= frames@.len(),
            good.deep_view() == frames.deep_view().take(k as int).filter(json_pred()),
        decreases frames@.len() - k,
    {
        proof {
            lemma_filter_take_step(frames.deep_view(), json_pred(), k as int);
            assert(frames.deep_view()[k as int] =~= frames@[k as int]@);
        }
        if frame_is_valid_json(&frames[k]) {
            let ghost prev = good.deep_view();
            let f = copy_range(&frames[k], 0, frames[k].len());
            proof {
                assert(f@ =~= frames.deep_view()[k as int]);
            }
            good.push(f);
            proof {
                assert(good.deep_view() =~~= prev.push(f@));
            }
        }
        k = k + 1;
    }
    proof {
        assert(frames.deep_view().take(frames.deep_view().len() as int) =~= frames.deep_view());
    }
    good
}

} // verus!

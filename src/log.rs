//! The log as bytes: lines, records at offsets, and replay into an index.
use vstd::prelude::*;

use crate::command::{decode_spec, CommandView};

verus! {

/// The byte that ends each record.
pub const NEWLINE: u8 = 10;

/// The position of the first newline at or after `p`, or the log's length
/// where there is none.
pub open spec fn line_end(log: Seq<u8>, p: int) -> int
    decreases log.len() - p,
{
    if p >= log.len() {
        log.len() as int
    } else if p >= 0 && log[p] == NEWLINE {
        p
    } else {
        line_end(log, p + 1)
    }
}

/// The bytes of the line that starts at `p`, without its newline.
pub open spec fn record_at(log: Seq<u8>, p: int) -> Seq<u8> {
    log.subrange(p, line_end(log, p))
}

/// Whether a record starts at `p`: at the start of the log or after a newline.
pub open spec fn is_line_start(log: Seq<u8>, p: int) -> bool {
    p == 0 || (0 < p <= log.len() && log[p - 1] == NEWLINE)
}

/// Whether the log is empty or ends with a newline.
pub open spec fn is_clean(log: Seq<u8>) -> bool {
    log.len() == 0 || log.last() == NEWLINE
}

/// The index after one record at offset `p`.
pub open spec fn apply(index: Map<Seq<char>, usize>, c: Option<CommandView>, p: int) -> Map<
    Seq<char>,
    usize,
> {
    match c {
        Some(CommandView::Write { key, value: _ }) => index.insert(key, p as usize),
        Some(CommandView::Remove { key }) => index.remove(key),
        None => index,
    }
}

/// Replays the newline-terminated records from offset `p` onwards into
/// `index`. A record that does not decode is skipped; a last line without a
/// newline is no record.
pub open spec fn replay_from(log: Seq<u8>, p: int, index: Map<Seq<char>, usize>) -> Map<
    Seq<char>,
    usize,
>
    decreases log.len() - p,
{
    let e = line_end(log, p);
    if p < 0 || e >= log.len() || e < p {
        index
    } else {
        replay_from(log, e + 1, apply(index, decode_spec(record_at(log, p)), p))
    }
}

/// The index that replaying the whole log builds.
pub open spec fn replay(log: Seq<u8>) -> Map<Seq<char>, usize> {
    replay_from(log, 0, Map::empty())
}

/// Whether the line at `p` is the record that the index points at for its key.
pub open spec fn is_live(line: Seq<u8>, index: Map<Seq<char>, usize>, p: int) -> bool {
    &&& decode_spec(line) matches Some(CommandView::Write { key, value: _ })
    &&& index.contains_key(key)
    &&& index[key] as int == p
}

/// The newline-terminated lines from `p` onwards that the index points at,
/// each with its newline, in the order of the log.
pub open spec fn live_lines(log: Seq<u8>, p: int, index: Map<Seq<char>, usize>) -> Seq<u8>
    decreases log.len() - p,
{
    let e = line_end(log, p);
    if p < 0 || e >= log.len() || e < p {
        Seq::empty()
    } else if is_live(record_at(log, p), index, p) {
        record_at(log, p).push(NEWLINE) + live_lines(log, e + 1, index)
    } else {
        live_lines(log, e + 1, index)
    }
}

/// The compacted log: one record for each key that replay finds, the one
/// replay points it at, and nothing else.
pub open spec fn compacted(log: Seq<u8>) -> Seq<u8> {
    live_lines(log, 0, replay(log))
}

/// A line ends at or after its start, at a newline or at the end of the log.
pub proof fn lemma_line_end_bounds(log: Seq<u8>, p: int)
    requires
        0 <= p,
    ensures
        p <= log.len() ==> p <= line_end(log, p) <= log.len(),
        line_end(log, p) < log.len() ==> log[line_end(log, p)] == NEWLINE,
        forall|i: int| p <= i < line_end(log, p) ==> log[i] != NEWLINE,
    decreases log.len() - p,
{
    if p < log.len() && log[p] != NEWLINE {
        lemma_line_end_bounds(log, p + 1);
    }
}

/// A line found by scanning: where no newline lies in `[p, e)` and `e` holds
/// a newline or is the end, the line that starts at `p` ends at `e`.
pub proof fn lemma_line_end_at(log: Seq<u8>, p: int, e: int)
    requires
        0 <= p <= e <= log.len(),
        forall|i: int| p <= i < e ==> log[i] != NEWLINE,
        e == log.len() || log[e] == NEWLINE,
    ensures
        line_end(log, p) == e,
    decreases e - p,
{
    if p < e {
        lemma_line_end_at(log, p + 1, e);
    }
}

/// Bytes added after a newline-terminated line do not change where it ends.
pub proof fn lemma_line_end_extend(log: Seq<u8>, x: Seq<u8>, p: int)
    requires
        0 <= p,
        line_end(log, p) < log.len(),
    ensures
        line_end(log + x, p) == line_end(log, p),
        record_at(log + x, p) == record_at(log, p),
    decreases log.len() - p,
{
    lemma_line_end_bounds(log, p);
    if log[p] != NEWLINE {
        lemma_line_end_extend(log, x, p + 1);
    }
    assert(record_at(log + x, p) =~= record_at(log, p));
}

/// A line without a newline, appended with its newline, is the record at the
/// old end of the log.
pub proof fn lemma_appended_line(log: Seq<u8>, line: Seq<u8>)
    requires
        !line.contains(NEWLINE),
    ensures
        line_end(log + line.push(NEWLINE), log.len() as int) == log.len() + line.len(),
        record_at(log + line.push(NEWLINE), log.len() as int) == line,
{
    let full = log + line.push(NEWLINE);
    let p = log.len() as int;
    let e = p + line.len();
    assert forall|i: int| p <= i < e implies full[i] != NEWLINE by {
        assert(full[i] == line[i - p]);
    }
    lemma_line_end_at(full, p, e);
    assert(record_at(full, p) =~= line);
}

/// In a clean log, every line that starts before its end is terminated there.
pub proof fn lemma_clean_line_end(log: Seq<u8>, p: int)
    requires
        is_clean(log),
        0 <= p < log.len(),
    ensures
        line_end(log, p) < log.len(),
{
    lemma_line_end_bounds(log, p);
    if line_end(log, p) == log.len() {
        assert(log[log.len() - 1] != NEWLINE);
    }
}

/// Replay over a clean log followed by more bytes: the clean part first.
pub proof fn lemma_replay_extend(log: Seq<u8>, x: Seq<u8>, p: int, index: Map<Seq<char>, usize>)
    requires
        is_clean(log),
        0 <= p <= log.len(),
    ensures
        replay_from(log + x, p, index) == replay_from(
            log + x,
            log.len() as int,
            replay_from(log, p, index),
        ),
    decreases log.len() - p,
{
    lemma_line_end_bounds(log, p);
    if p < log.len() {
        lemma_clean_line_end(log, p);
        lemma_line_end_extend(log, x, p);
        lemma_line_end_bounds(log + x, p);
        let e = line_end(log, p);
        lemma_replay_extend(
            log,
            x,
            e + 1,
            apply(index, decode_spec(record_at(log, p)), p),
        );
    }
}

/// Replay of a clean log with one more line appended: the old replay, then
/// that line.
pub proof fn lemma_replay_append(log: Seq<u8>, line: Seq<u8>)
    requires
        is_clean(log),
        !line.contains(NEWLINE),
    ensures
        replay(log + line.push(NEWLINE)) == apply(
            replay(log),
            decode_spec(line),
            log.len() as int,
        ),
        is_clean(log + line.push(NEWLINE)),
{
    let full = log + line.push(NEWLINE);
    lemma_replay_extend(log, line.push(NEWLINE), 0, Map::empty());
    lemma_appended_line(log, line);
    let next = apply(replay(log), decode_spec(line), log.len() as int);
    let e = (log.len() + line.len()) as int;
    assert(replay_from(full, e + 1, next) == next);
}

/// Replay stops at the first line that has no newline.
pub proof fn lemma_replay_at_end(log: Seq<u8>, p: int, index: Map<Seq<char>, usize>)
    requires
        0 <= p,
        line_end(log, p) >= log.len(),
    ensures
        replay_from(log, p, index) == index,
{
}

/// The live lines of a clean log followed by more bytes: the clean part first.
pub proof fn lemma_live_lines_extend(log: Seq<u8>, x: Seq<u8>, p: int, index: Map<Seq<char>, usize>)
    requires
        is_clean(log),
        0 <= p <= log.len(),
    ensures
        live_lines(log + x, p, index) == live_lines(log, p, index) + live_lines(
            log + x,
            log.len() as int,
            index,
        ),
    decreases log.len() - p,
{
    lemma_line_end_bounds(log, p);
    if p < log.len() {
        lemma_clean_line_end(log, p);
        lemma_line_end_extend(log, x, p);
        lemma_line_end_bounds(log + x, p);
        let e = line_end(log, p);
        lemma_live_lines_extend(log, x, e + 1, index);
        let line = record_at(log, p);
        let tail = live_lines(log + x, log.len() as int, index);
        assert(line.push(NEWLINE) + live_lines(log, e + 1, index) + tail =~= line.push(NEWLINE) + (
        live_lines(log, e + 1, index) + tail));
    } else {
        assert(live_lines(log, p, index) + live_lines(log + x, p, index) =~= live_lines(
            log + x,
            p,
            index,
        ));
    }
}

/// The live lines before offset `bound` depend only on which keys the index
/// points at offsets below `bound`.
pub proof fn lemma_live_lines_same(
    log: Seq<u8>,
    p: int,
    a: Map<Seq<char>, usize>,
    b: Map<Seq<char>, usize>,
)
    requires
        0 <= p,
        forall|k: Seq<char>|
            #![trigger a.contains_key(k)]
            #![trigger b.contains_key(k)]
            (a.contains_key(k) && a[k] < log.len() ==> b.contains_key(k) && b[k] == a[k]) && (
            b.contains_key(k) && b[k] < log.len() ==> a.contains_key(k) && a[k] == b[k]),
    ensures
        live_lines(log, p, a) == live_lines(log, p, b),
    decreases log.len() - p,
{
    lemma_line_end_bounds(log, p);
    if p < log.len() && line_end(log, p) < log.len() {
        lemma_live_lines_same(log, line_end(log, p) + 1, a, b);
        let line = record_at(log, p);
        if let Some(CommandView::Write { key, value: _ }) = decode_spec(line) {
            assert(a.contains_key(key) ==> b.contains_key(key) || a[key] as int != p);
            assert(b.contains_key(key) ==> a.contains_key(key) || b[key] as int != p);
        }
    }
}

/// A line appended to a clean log, and live there, is the only live line
/// from the old end on.
pub proof fn lemma_live_lines_last(log: Seq<u8>, line: Seq<u8>, index: Map<Seq<char>, usize>)
    requires
        !line.contains(NEWLINE),
        is_live(line, index, log.len() as int),
    ensures
        live_lines(log + line.push(NEWLINE), log.len() as int, index) == line.push(NEWLINE),
{
    let full = log + line.push(NEWLINE);
    lemma_appended_line(log, line);
    let e = (log.len() + line.len()) as int;
    assert(live_lines(full, e + 1, index) == Seq::<u8>::empty());
    assert(line.push(NEWLINE) + Seq::<u8>::empty() =~= line.push(NEWLINE));
}

/// The line that starts at `p`, and the position where it ends.
pub fn line_at(log: &Vec<u8>, p: usize) -> (r: (Vec<u8>, usize))
    requires
        p <= log@.len(),
    ensures
        r.1 == line_end(log@, p as int),
        r.0@ == record_at(log@, p as int),
{
    let mut line: Vec<u8> = Vec::new();
    let mut e: usize = p;
    while e < log.len() && log[e] != NEWLINE
        invariant
            p <= e <= log@.len(),
            forall|i: int| p <= i < e ==> log@[i] != NEWLINE,
            line@ == log@.subrange(p as int, e as int),
        decreases log@.len() - e,
    {
        line.push(log[e]);
        e = e + 1;
        assert(line@ =~= log@.subrange(p as int, e as int));
    }
    proof {
        lemma_line_end_at(log@, p as int, e as int);
    }
    (line, e)
}

/// Appends a line and its newline to the log.
pub fn push_line(log: &mut Vec<u8>, line: &Vec<u8>)
    ensures
        final(log)@ == old(log)@ + line@.push(NEWLINE),
{
    let mut i: usize = 0;
    while i < line.len()
        invariant
            i <= line@.len(),
            log@ == old(log)@ + line@.subrange(0, i as int),
        decreases line@.len() - i,
    {
        log.push(line[i]);
        i = i + 1;
        assert(log@ =~= old(log)@ + line@.subrange(0, i as int));
    }
    log.push(NEWLINE);
    assert(log@ =~= old(log)@ + line@.push(NEWLINE));
}

} // verus!

//! The store: a log, and an index from each live key to its record.
use vstd::hash_map::StringHashMap;
use vstd::prelude::*;

use crate::command::{decode, decode_spec, encode, line_of, Command, CommandView};
use crate::log::{
    apply, is_clean, is_line_start, lemma_appended_line, lemma_line_end_bounds,
    lemma_line_end_extend, lemma_replay_append, lemma_replay_at_end, line_at, line_end, push_line,
    record_at, replay, replay_from, NEWLINE, live_lines, compacted, is_live,
    lemma_live_lines_extend, lemma_live_lines_same, lemma_live_lines_last,
};

verus! {

/// What can go wrong in a store operation.
#[derive(Debug, Clone, Copy, PartialEq, Eq, Structural)]
pub enum KvError {
    /// `remove` was asked for a key that the store does not hold.
    KeyNotFound,
    /// The bytes at an offset do not decode as a record.
    Decode,
}

/// The value that the record at `p` writes, or the empty string where it
/// writes none.
pub open spec fn value_of(log: Seq<u8>, p: int) -> Seq<char> {
    match decode_spec(record_at(log, p)) {
        Some(CommandView::Write { key: _, value }) => value,
        _ => Seq::empty(),
    }
}

/// The contents that an index over a log stands for: each key, with the
/// value of the record that the index points at.
pub open spec fn view_of(log: Seq<u8>, index: Map<Seq<char>, usize>) -> Map<Seq<char>, Seq<char>> {
    index.map_values(|p: usize| value_of(log, p as int))
}

/// The contents that a log holds, as replay finds them.
pub open spec fn state_of_log(log: Seq<u8>) -> Map<Seq<char>, Seq<char>> {
    view_of(log, replay(log))
}

/// Whether the index entry of `k` points at a newline-terminated record,
/// at the start of a line, that writes `k`.
pub open spec fn entry_ok(log: Seq<u8>, index: Map<Seq<char>, usize>, k: Seq<char>) -> bool {
    let p = index[k] as int;
    &&& p < log.len()
    &&& is_line_start(log, p)
    &&& line_end(log, p) < log.len()
    &&& decode_spec(record_at(log, p)) matches Some(CommandView::Write { key, value: _ })
    &&& key == k
}

/// Whether every index entry is in order.
pub open spec fn entries_ok(log: Seq<u8>, index: Map<Seq<char>, usize>) -> bool {
    forall|k: Seq<char>| #[trigger] index.contains_key(k) ==> entry_ok(log, index, k)
}

/// The contents after one command.
pub open spec fn apply_command(m: Map<Seq<char>, Seq<char>>, c: CommandView) -> Map<
    Seq<char>,
    Seq<char>,
> {
    match c {
        CommandView::Write { key, value } => m.insert(key, value),
        CommandView::Remove { key } => m.remove(key),
    }
}

/// What a lookup of `k` in the contents `m` gives.
pub open spec fn lookup(m: Map<Seq<char>, Seq<char>>, k: Seq<char>) -> Option<Seq<char>> {
    if m.contains_key(k) {
        Some(m[k])
    } else {
        None
    }
}

/// The value of an optional string.
pub open spec fn value_view(o: Option<String>) -> Option<Seq<char>> {
    match o {
        Some(s) => Some(s@),
        None => None,
    }
}

/// A key-value store over a log of commands held in memory. Whoever keeps
/// the log on disk writes [`KvStore::contents`] after each change.
pub struct KvStore {
    log: Vec<u8>,
    index: StringHashMap<usize>,
}

impl View for KvStore {
    type V = Map<Seq<char>, Seq<char>>;

    closed spec fn view(&self) -> Map<Seq<char>, Seq<char>> {
        view_of(self.log@, self.index@)
    }
}

proof fn lemma_view_extend(log: Seq<u8>, x: Seq<u8>, index: Map<Seq<char>, usize>)
    requires
        entries_ok(log, index),
    ensures
        entries_ok(log + x, index),
        view_of(log + x, index) == view_of(log, index),
{
    assert forall|k: Seq<char>| #[trigger] index.contains_key(k) implies entry_ok(
        log + x,
        index,
        k,
    ) && value_of(log + x, index[k] as int) == value_of(log, index[k] as int) by {
        let p = index[k] as int;
        lemma_line_end_extend(log, x, p);
        if p > 0 {
            assert((log + x)[p - 1] == log[p - 1]);
        }
    }
    assert(view_of(log + x, index) =~= view_of(log, index));
}

impl KvStore {
    /// The bytes of the log.
    pub closed spec fn log_bytes(&self) -> Seq<u8> {
        self.log@
    }

    /// The index is the replay of the log, and points each key at the record
    /// that writes it.
    pub closed spec fn wf(&self) -> bool {
        &&& entries_ok(self.log@, self.index@)
        &&& self.index@ == replay(self.log@)
    }

    /// Opens a store over the bytes of a log, and rebuilds the index by
    /// replaying it. Lines that do not decode are skipped, and a last line
    /// without a newline is no record.
    pub fn open(contents: Vec<u8>) -> (r: KvStore)
        ensures
            r.wf(),
            r.log_bytes() == contents@,
            r@ == state_of_log(contents@),
    {
        let log = contents;
        let mut index: StringHashMap<usize> = StringHashMap::new();
        let mut pos: usize = 0;
        while pos < log.len()
            invariant
                pos <= log@.len(),
                pos == log@.len() || is_line_start(log@, pos as int),
                replay(log@) == replay_from(log@, pos as int, index@),
                entries_ok(log@, index@),
                forall|k: Seq<char>| #[trigger] index@.contains_key(k) ==> index@[k] < pos,
            decreases log@.len() - pos,
        {
            let (line, e) = line_at(&log, pos);
            proof {
                lemma_line_end_bounds(log@, pos as int);
            }
            if e >= log.len() {
                proof {
                    lemma_replay_at_end(log@, pos as int, index@);
                }
                pos = log.len();
            } else {
                let ghost before = index@;
                match decode(line.as_slice()) {
                    Ok(Command::Write { key, value: _ }) => {
                        index.insert(key, pos);
                    },
                    Ok(Command::Remove { key }) => {
                        index.remove(key.as_str());
                    },
                    Err(_) => {},
                }
                assert(index@ == apply(before, decode_spec(record_at(log@, pos as int)), pos as int));
                pos = e + 1;
            }
        }
        KvStore { log, index }
    }

    /// The bytes of the log, to be kept on disk.
    pub fn contents(&self) -> (r: &Vec<u8>)
        ensures
            r@ == self.log_bytes(),
    {
        &self.log
    }

    /// Rewrites the log to hold one record for each key of the index, in the
    /// order of the old log, and rebuilds the index over the new log.
    fn rewrite(&mut self)
        requires
            entries_ok(old(self).log@, old(self).index@),
        ensures
            final(self).wf(),
            final(self)@ == view_of(old(self).log@, old(self).index@),
            final(self).log@ == live_lines(old(self).log@, 0, old(self).index@),
            live_lines(final(self).log@, 0, final(self).index@) == final(self).log@,
            final(self).log@.len() <= old(self).log@.len(),
    {
        let ghost old_log = self.log@;
        let ghost old_index = self.index@;
        let mut new_log: Vec<u8> = Vec::new();
        let mut new_index: StringHashMap<usize> = StringHashMap::new();
        let mut pos: usize = 0;
        proof {
            assert(replay_from(new_log@, 0, Map::empty()) == Map::<Seq<char>, usize>::empty());
            assert(live_lines(new_log@, 0, new_index@) == Seq::<u8>::empty());
        }
        while pos < self.log.len()
            invariant
                self.log@ == old_log,
                self.index@ == old_index,
                entries_ok(old_log, old_index),
                pos <= old_log.len(),
                pos == old_log.len() || is_line_start(old_log, pos as int),
                is_clean(new_log@),
                new_index@ == replay(new_log@),
                entries_ok(new_log@, new_index@),
                new_log@.len() <= pos,
                live_lines(new_log@, 0, new_index@) == new_log@,
                new_log@ + live_lines(old_log, pos as int, old_index) == live_lines(
                    old_log,
                    0,
                    old_index,
                ),
                forall|k: Seq<char>| #[trigger]
                    new_index@.contains_key(k) <==> (old_index.contains_key(k) && old_index[k]
                        < pos),
                forall|k: Seq<char>| #[trigger]
                    new_index@.contains_key(k) ==> value_of(new_log@, new_index@[k] as int)
                        == value_of(old_log, old_index[k] as int),
            decreases old_log.len() - pos,
        {
            let (line, e) = line_at(&self.log, pos);
            proof {
                lemma_line_end_bounds(old_log, pos as int);
            }
            if e >= self.log.len() {
                proof {
                    assert forall|k: Seq<char>| #[trigger] old_index.contains_key(k) implies old_index[k]
                        < pos by {
                        let q = old_index[k] as int;
                        assert(entry_ok(old_log, old_index, k));
                        if q > pos {
                            assert(old_log[q - 1] == NEWLINE);
                        }
                    }
                }
                proof {
                    assert(new_log@ + live_lines(old_log, pos as int, old_index) =~= new_log@);
                    assert(new_log@ + live_lines(old_log, old_log.len() as int, old_index)
                        =~= new_log@);
                }
                pos = self.log.len();
            } else {
                let ghost n0 = new_log@;
                let ghost j0 = new_index@;
                proof {
                    assert forall|k: Seq<char>| #[trigger]
                        old_index.contains_key(k) && pos <= old_index[k] <= e implies old_index[k]
                        == pos by {
                        let q = old_index[k] as int;
                        assert(entry_ok(old_log, old_index, k));
                        if q > pos {
                            assert(old_log[q - 1] == NEWLINE);
                        }
                    }
                    assert(!line@.contains(NEWLINE));
                }
                match decode(line.as_slice()) {
                    Ok(Command::Write { key, value: _ }) => {
                        let live = match self.index.get(key.as_str()) {
                            Some(q) => *q == pos,
                            None => false,
                        };
                        if live {
                            let at = new_log.len();
                            push_line(&mut new_log, &line);
                            proof {
                                lemma_view_extend(n0, line@.push(NEWLINE), j0);
                                lemma_replay_append(n0, line@);
                                lemma_appended_line(n0, line@);
                            }
                            new_index.insert(key, at);
                            proof {
                                lemma_live_lines_extend(n0, line@.push(NEWLINE), 0, new_index@);
                                lemma_live_lines_same(n0, 0, j0, new_index@);
                                assert(is_live(line@, new_index@, at as int));
                                lemma_live_lines_last(n0, line@, new_index@);
                                assert(entry_ok(new_log@, new_index@, key@));
                                assert forall|k: Seq<char>| #[trigger]
                                    new_index@.contains_key(k) implies value_of(
                                    new_log@,
                                    new_index@[k] as int,
                                ) == value_of(old_log, old_index[k] as int) by {
                                    if k != key@ {
                                        assert(j0.contains_key(k));
                                        assert(view_of(new_log@, j0)[k] == view_of(n0, j0)[k]);
                                    } else {
                                        assert(old_index[k] == pos);
                                        assert(record_at(new_log@, at as int) == line@);
                                        assert(record_at(old_log, pos as int) == line@);
                                    }
                                }
                            }
                        }
                    },
                    _ => {},
                }
                proof {
                    let rest = live_lines(old_log, e + 1, old_index);
                    assert(record_at(old_log, pos as int) == line@);
                    if is_live(line@, old_index, pos as int) {
                        assert(new_log@ == n0 + line@.push(NEWLINE));
                        assert(new_log@ + rest =~= n0 + (line@.push(NEWLINE) + rest));
                    } else {
                        assert(new_log@ == n0);
                    }
                }
                pos = e + 1;
            }
        }
        proof {
            assert(view_of(new_log@, new_index@) =~= view_of(old_log, old_index));
        }
        self.log = new_log;
        self.index = new_index;
    }

    /// Appends the record of a command, points the index at it (or drops the
    /// key from the index), then compacts the log.
    fn write_record(&mut self, command: Command)
        requires
            old(self).wf(),
        ensures
            final(self).wf(),
            final(self)@ == apply_command(old(self)@, command@),
    {
        let ghost log0 = self.log@;
        let ghost index0 = self.index@;
        let n = self.log.len();
        if n > 0 && self.log[n - 1] != NEWLINE {
            self.log.push(NEWLINE);
            proof {
                lemma_view_extend(log0, seq![NEWLINE], index0);
                assert(log0 + seq![NEWLINE] =~= self.log@);
            }
        }
        let ghost log1 = self.log@;
        let pos = self.log.len();
        let mut record = encode(&command);
        let ghost line = line_of(command@);
        self.log.append(&mut record);
        proof {
            assert(is_clean(log1));
            lemma_view_extend(log1, line.push(NEWLINE), index0);
            lemma_appended_line(log1, line);
            assert(self.log@ == log1 + line.push(NEWLINE));
        }
        let ghost log2 = self.log@;
        match command {
            Command::Write { key, value } => {
                let ghost k = key@;
                self.index.insert(key, pos);
                proof {
                    assert(entry_ok(log2, self.index@, k));
                    assert(view_of(log2, self.index@) =~= view_of(log0, index0).insert(k, value@));
                }
            },
            Command::Remove { key } => {
                self.index.remove(key.as_str());
                proof {
                    assert(view_of(log2, self.index@) =~= view_of(log0, index0).remove(key@));
                }
            },
        }
        self.rewrite();
    }

    /// Compacts the log: rewrites it to hold one record for each live key.
    /// The contents stay the same, and the log does not grow.
    pub fn compact_log(&mut self)
        requires
            old(self).wf(),
        ensures
            final(self).wf(),
            final(self)@ == old(self)@,
            final(self).log_bytes() == compacted(old(self).log_bytes()),
            compacted(final(self).log_bytes()) == final(self).log_bytes(),
            final(self).log_bytes().len() <= old(self).log_bytes().len(),
    {
        self.rewrite();
    }

    /// Sets `key` to `value`, replacing any earlier value.
    pub fn set(&mut self, key: String, value: String) -> (r: Result<(), KvError>)
        requires
            old(self).wf(),
        ensures
            r is Ok,
            final(self).wf(),
            final(self)@ == old(self)@.insert(key@, value@),
    {
        self.write_record(Command::Write { key, value });
        Ok(())
    }

    /// The value of `key`, or `None` where the store does not hold it.
    pub fn get(&mut self, key: String) -> (r: Result<Option<String>, KvError>)
        requires
            old(self).wf(),
        ensures
            *final(self) == *old(self),
            r matches Ok(o) && value_view(o) == lookup(old(self)@, key@),
    {
        let found: Option<usize> = match self.index.get(key.as_str()) {
            Some(p) => Some(*p),
            None => None,
        };
        match found {
            None => Ok(None),
            Some(p) => {
                proof {
                    assert(entry_ok(self.log@, self.index@, key@));
                }
                match self.read_record(p) {
                    Ok(Some(Command::Write { key: _, value })) => Ok(Some(value)),
                    Ok(_) => Ok(None),
                    Err(e) => Err(e),
                }
            },
        }
    }

    /// Removes `key`; fails with [`KvError::KeyNotFound`], and changes
    /// nothing, where the store does not hold it.
    pub fn remove(&mut self, key: String) -> (r: Result<(), KvError>)
        requires
            old(self).wf(),
        ensures
            final(self).wf(),
            match r {
                Ok(()) => old(self)@.contains_key(key@) && final(self)@ == old(self)@.remove(key@),
                Err(e) => e == KvError::KeyNotFound && !old(self)@.contains_key(key@) && *final(self)
                    == *old(self),
            },
    {
        match self.get(key.clone()) {
            Ok(Some(_)) => {
                self.write_record(Command::Remove { key });
                Ok(())
            },
            Ok(None) => Err(KvError::KeyNotFound),
            Err(e) => Err(e),
        }
    }

    /// The contents of a well-formed store are those that replaying its log
    /// finds.
    pub proof fn lemma_view_is_replay(&self)
        requires
            self.wf(),
        ensures
            self@ == state_of_log(self.log_bytes()),
    {
    }

    /// Reads the record at a byte offset: `None` at or beyond the end of the
    /// log, an error where the line there does not decode.
    pub fn read_record(&self, position: usize) -> (r: Result<Option<Command>, KvError>)
        ensures
            position >= self.log_bytes().len() ==> r matches Ok(None),
            position < self.log_bytes().len() ==> match decode_spec(
                record_at(self.log_bytes(), position as int),
            ) {
                Some(c) => r matches Ok(Some(x)) && x@ == c,
                None => r == Err::<Option<Command>, KvError>(KvError::Decode),
            },
    {
        if position >= self.log.len() {
            return Ok(None);
        }
        let (line, _) = line_at(&self.log, position);
        match decode(line.as_slice()) {
            Ok(c) => Ok(Some(c)),
            Err(e) => Err(e),
        }
    }
}

} // verus!

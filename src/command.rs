//! One log record: a command, and its encoding as a line of JSON text.
//!
//! A record is a compact JSON array of strings on one line: the tag
//! `"Write"`, the key and the value, or the tag `"Remove"` and the key, as in
//! `["Write","a","1"]` and `["Remove","a"]`. A line in any other shape (a JSON
//! object among them) is no record: replay skips it, and compaction drops it.
use vstd::prelude::*;

use crate::log::NEWLINE;

verus! {

/// A command recorded in the log.
#[derive(Debug)]
pub enum Command {
    /// `key` now maps to `value`.
    Write { key: String, value: String },
    /// `key` has been deleted.
    Remove { key: String },
}

/// The mathematical value of a [`Command`].
pub enum CommandView {
    Write { key: Seq<char>, value: Seq<char> },
    Remove { key: Seq<char> },
}

impl View for Command {
    type V = CommandView;

    open spec fn view(&self) -> CommandView {
        match self {
            Command::Write { key, value } => CommandView::Write { key: key@, value: value@ },
            Command::Remove { key } => CommandView::Remove { key: key@ },
        }
    }
}

/// The JSON text that serde_json writes for a list of strings.
pub uninterp spec fn json_list(items: Seq<Seq<char>>) -> Seq<u8>;

/// The list of strings that serde_json reads from a JSON text, if it holds one.
pub uninterp spec fn parse_json_list(text: Seq<u8>) -> Option<Seq<Seq<char>>>;

/// The values of a list of strings.
pub open spec fn strings_view(v: Seq<String>) -> Seq<Seq<char>> {
    v.map_values(|s: String| s@)
}

/// Relies on `serde_json::to_vec` for a `Vec<String>`: it writes a compact JSON
/// array that `serde_json::from_slice` reads back as the same list. Its string
/// escaper writes a newline (and every other control character) as an escape
/// sequence, so the text holds no newline byte. Writing a list of strings into
/// memory has no failing case.
#[verifier::external_body]
fn to_json_list(items: &Vec<String>) -> (r: Vec<u8>)
    ensures
        r@ == json_list(strings_view(items@)),
        parse_json_list(r@) == Some(strings_view(items@)),
        !r@.contains(NEWLINE),
{
    match serde_json::to_vec(items) {
        Ok(bytes) => bytes,
        Err(_) => Vec::new(),
    }
}

/// Relies on `serde_json::from_slice::<Vec<String>>`: reads a JSON array of
/// strings, or fails.
#[verifier::external_body]
fn from_json_list(text: &[u8]) -> (r: Option<Vec<String>>)
    ensures
        match r {
            Some(v) => parse_json_list(text@) == Some(strings_view(v@)),
            None => parse_json_list(text@) is None,
        },
{
    serde_json::from_slice::<Vec<String>>(text).ok()
}

/// The tag that opens the record of a write.
pub open spec fn write_tag() -> Seq<char> {
    "Write"@
}

/// The tag that opens the record of a removal.
pub open spec fn remove_tag() -> Seq<char> {
    "Remove"@
}

/// The fields of a command's record: its tag, then its key, then its value.
pub open spec fn fields_of(c: CommandView) -> Seq<Seq<char>> {
    match c {
        CommandView::Write { key, value } => seq![write_tag(), key, value],
        CommandView::Remove { key } => seq![remove_tag(), key],
    }
}

/// The command that a list of fields stands for, if any.
pub open spec fn command_of_fields(f: Seq<Seq<char>>) -> Option<CommandView> {
    if f.len() == 3 && f[0] == write_tag() {
        Some(CommandView::Write { key: f[1], value: f[2] })
    } else if f.len() == 2 && f[0] == remove_tag() {
        Some(CommandView::Remove { key: f[1] })
    } else {
        None
    }
}

/// The line of text (without its newline) that records a command.
pub open spec fn line_of(c: CommandView) -> Seq<u8> {
    json_list(fields_of(c))
}

/// The command that a line of the log holds, or `None` where it holds none.
pub open spec fn decode_spec(line: Seq<u8>) -> Option<CommandView> {
    match parse_json_list(line) {
        Some(f) => command_of_fields(f),
        None => None,
    }
}

pub proof fn lemma_tags_differ()
    ensures
        write_tag() != remove_tag(),
{
    reveal_strlit("Write");
    reveal_strlit("Remove");
    assert(write_tag().len() != remove_tag().len());
}

/// Encodes a command as one newline-terminated record. The line before the
/// newline holds no newline, and decodes back to the same command.
pub fn encode(command: &Command) -> (r: Vec<u8>)
    ensures
        r@ == line_of(command@).push(NEWLINE),
        !line_of(command@).contains(NEWLINE),
        decode_spec(line_of(command@)) == Some(command@),
{
    let mut fields: Vec<String> = Vec::new();
    match command {
        Command::Write { key, value } => {
            fields.push("Write".to_owned());
            fields.push(key.clone());
            fields.push(value.clone());
        },
        Command::Remove { key } => {
            fields.push("Remove".to_owned());
            fields.push(key.clone());
        },
    }
    proof {
        lemma_tags_differ();
        assert(strings_view(fields@) =~= fields_of(command@));
    }
    let mut r = to_json_list(&fields);
    r.push(NEWLINE);
    r
}

/// Decodes one line of the log (without its newline).
pub fn decode(line: &[u8]) -> (r: Result<Command, crate::store::KvError>)
    ensures
        match r {
            Ok(c) => decode_spec(line@) == Some(c@),
            Err(e) => decode_spec(line@) is None && e == crate::store::KvError::Decode,
        },
{
    match from_json_list(line) {
        None => Err(crate::store::KvError::Decode),
        Some(fields) => {
            proof {
                reveal_strlit("Write");
                reveal_strlit("Remove");
            }
            let ghost f = strings_view(fields@);
            let write_name = "Write".to_owned();
            let remove_name = "Remove".to_owned();
            if fields.len() == 3 && fields[0] == write_name {
                assert(f[0] == write_tag());
                Ok(Command::Write { key: fields[1].clone(), value: fields[2].clone() })
            } else if fields.len() == 2 && fields[0] == remove_name {
                assert(f[0] == remove_tag());
                Ok(Command::Remove { key: fields[1].clone() })
            } else {
                proof {
                    if f.len() == 3 {
                        assert(f[0] == fields@[0]@);
                    }
                    if f.len() == 2 {
                        assert(f[0] == fields@[0]@);
                    }
                }
                Err(crate::store::KvError::Decode)
            }
        },
    }
}

} // verus!

//! Commands as JSON text, for people and tools that read the log.
//!
//! An entry names its command in words and renders as one JSON object:
//! `{"command":"set","key":"a","value":"1"}`.

use vstd::prelude::*;
use vstd::string::*;
use crate::error::KvsError;
use crate::record::{Command, CommandView};

verus! {

/// The error type of `serde_json`.
#[verifier::external_type_specification]
#[verifier::external_body]
pub struct ExJsonError(serde_json::Error);

/// The lower-case hexadecimal digit of a number below 16.
pub open spec fn hex_digit(n: int) -> char {
    if n == 0 {
        '0'
    } else if n == 1 {
        '1'
    } else if n == 2 {
        '2'
    } else if n == 3 {
        '3'
    } else if n == 4 {
        '4'
    } else if n == 5 {
        '5'
    } else if n == 6 {
        '6'
    } else if n == 7 {
        '7'
    } else if n == 8 {
        '8'
    } else if n == 9 {
        '9'
    } else if n == 10 {
        'a'
    } else if n == 11 {
        'b'
    } else if n == 12 {
        'c'
    } else if n == 13 {
        'd'
    } else if n == 14 {
        'e'
    } else {
        'f'
    }
}

/// A character as it stands inside a JSON string literal: the double quote
/// and the backslash behind a backslash, the control characters below
/// U+0020 by their short escape or as `\u00` and two hexadecimal digits,
/// every other character as it is.
pub open spec fn escaped(c: char) -> Seq<char> {
    if c == '"' {
        seq!['\\', '"']
    } else if c == '\\' {
        seq!['\\', '\\']
    } else if c == '\u{8}' {
        seq!['\\', 'b']
    } else if c == '\t' {
        seq!['\\', 't']
    } else if c == '\n' {
        seq!['\\', 'n']
    } else if c == '\u{c}' {
        seq!['\\', 'f']
    } else if c == '\r' {
        seq!['\\', 'r']
    } else if (c as u32) < 0x20 {
        seq!['\\', 'u', '0', '0', hex_digit(c as int / 16), hex_digit(c as int % 16)]
    } else {
        seq![c]
    }
}

/// The characters of a text, each as it stands inside a JSON string
/// literal.
pub open spec fn escaped_text(text: Seq<char>) -> Seq<char>
    decreases text.len(),
{
    if text.len() == 0 {
        Seq::empty()
    } else {
        escaped_text(text.drop_last()) + escaped(text.last())
    }
}

/// The JSON string literal of a text: the escaped text between double
/// quotes.
pub open spec fn json_string(text: Seq<char>) -> Seq<char> {
    seq!['"'] + escaped_text(text) + seq!['"']
}

/// `serde_json::to_string` on a string slice. It writes into a vector of
/// bytes, which takes every write, so it succeeds on every text; what it
/// writes is a double quote, each character of the text as it is or by
/// its escape, and a double quote.
#[verifier::external_body]
fn quote(text: &str) -> (r: Result<String, serde_json::Error>)
    ensures
        r is Ok,
        r matches Ok(quoted) ==> quoted@ == json_string(text@),
{
    serde_json::to_string(text)
}

/// A command in words: what it does, to which key, with which value.
#[derive(Debug, Clone, PartialEq, Eq)]
pub struct Entry {
    command: String,
    key: String,
    value: String,
}

/// An entry as a mathematical value.
pub struct EntryView {
    pub command: Seq<char>,
    pub key: Seq<char>,
    pub value: Seq<char>,
}

impl View for Entry {
    type V = EntryView;

    closed spec fn view(&self) -> EntryView {
        EntryView { command: self.command@, key: self.key@, value: self.value@ }
    }
}

/// The JSON object of an entry, from the JSON string literals of its
/// fields.
pub open spec fn object_text(command: Seq<char>, key: Seq<char>, value: Seq<char>) -> Seq<char> {
    "{\"command\":"@ + command + ",\"key\":"@ + key + ",\"value\":"@ + value + "}"@
}

/// The entry of a command: `set` with the key and the value, or `rm` with
/// the key and an empty value.
pub open spec fn entry_of(command: CommandView) -> EntryView {
    match command {
        CommandView::Put { key, value } => EntryView { command: "set"@, key, value },
        CommandView::Remove { key } => EntryView { command: "rm"@, key, value: Seq::empty() },
    }
}

impl Entry {
    /// The entry with the given fields.
    pub fn new(command: &str, key: &str, value: &str) -> (entry: Entry)
        ensures
            entry@ == (EntryView { command: command@, key: key@, value: value@ }),
    {
        Entry { command: command.to_owned(), key: key.to_owned(), value: value.to_owned() }
    }

    /// The entry of a command.
    pub fn of(command: &Command) -> (entry: Entry)
        ensures
            entry@ == entry_of(command@),
    {
        match command {
            Command::Put { key, value } => Entry::new("set", key.as_str(), value.as_str()),
            Command::Remove { key } => {
                let entry = Entry::new("rm", key.as_str(), "");
                proof {
                    reveal_strlit("");
                    assert(""@ =~= Seq::<char>::empty());
                }
                entry
            },
        }
    }

    /// The entry as one JSON object with the members `command`, `key` and
    /// `value`, each a JSON string literal.
    pub fn to_json(&self) -> (r: Result<String, KvsError>)
        ensures
            r matches Ok(json) && json@ == object_text(
                json_string(self@.command),
                json_string(self@.key),
                json_string(self@.value),
            ),
    {
        let command = quote(self.command.as_str());
        let key = quote(self.key.as_str());
        let value = quote(self.value.as_str());
        Entry::assemble(command, key, value)
    }

    /// Puts the JSON string literals of the three fields into one JSON
    /// object, or gives a `Generic` error where one of them is missing.
    pub fn assemble(
        command: Result<String, serde_json::Error>,
        key: Result<String, serde_json::Error>,
        value: Result<String, serde_json::Error>,
    ) -> (r: Result<String, KvsError>)
        ensures
            match (command, key, value) {
                (Ok(c), Ok(k), Ok(v)) => r matches Ok(json) && json@ == object_text(c@, k@, v@),
                _ => r matches Err(e) && e.is_generic("failed json serialization"@),
            },
    {
        match (command, key, value) {
            (Ok(c), Ok(k), Ok(v)) => {
                let mut json = "{\"command\":".to_owned();
                json.append(c.as_str());
                json.append(",\"key\":");
                json.append(k.as_str());
                json.append(",\"value\":");
                json.append(v.as_str());
                json.append("}");
                Ok(json)
            },
            _ => Err(KvsError::Generic("failed json serialization".to_owned())),
        }
    }
}

} // verus!

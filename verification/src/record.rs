//! Commands and their encoding as log records.
//!
//! A record is a tag byte followed by length-prefixed fields, so a reader
//! finds where it ends without looking for a delimiter:
//!
//! ```text
//! set:     01  key length  key  value length  value
//! remove:  02  key length  key
//! ```
//!
//! A length is a count of bytes in four bytes, little endian. Keys and
//! values are stored as UTF-8.

use vstd::prelude::*;
use vstd::bytes::*;
use vstd::slice::*;
use vstd::utf8::*;
use vstd::string::*;
use crate::error::KvsError;

verus! {

/// The tag byte of a set record.
pub const TAG_SET: u8 = 1;

/// The tag byte of a remove record.
pub const TAG_REMOVE: u8 = 2;

/// The longest key, in bytes of UTF-8, that a record can hold.
pub const MAX_KEY_BYTES: usize = 0xffff_ffff;

/// The longest value, in bytes of UTF-8, that a record can hold.
pub const MAX_VALUE_BYTES: usize = 0xffff_ffff;

/// A change to the store, as the log records it.
#[derive(Debug, Clone, PartialEq, Eq)]
pub enum Command {
    /// Bind `key` to `value`.
    Put { key: String, value: String },
    /// Drop the binding of `key`.
    Remove { key: String },
}

/// A command as a mathematical value.
pub enum CommandView {
    Put { key: Seq<char>, value: Seq<char> },
    Remove { key: Seq<char> },
}

impl CommandView {
    /// The key that the command is about.
    pub open spec fn key(self) -> Seq<char> {
        match self {
            CommandView::Put { key, .. } => key,
            CommandView::Remove { key } => key,
        }
    }
}

impl View for Command {
    type V = CommandView;

    open spec fn view(&self) -> CommandView {
        match self {
            Command::Put { key, value } => CommandView::Put { key: key@, value: value@ },
            Command::Remove { key } => CommandView::Remove { key: key@ },
        }
    }
}

/// Whether the fields of the command fit their length prefixes.
pub open spec fn encodable(command: CommandView) -> bool {
    match command {
        CommandView::Put { key, value } => {
            &&& encode_utf8(key).len() <= MAX_KEY_BYTES
            &&& encode_utf8(value).len() <= MAX_VALUE_BYTES
        },
        CommandView::Remove { key } => encode_utf8(key).len() <= MAX_KEY_BYTES,
    }
}

/// A key as it stands in a record: its length in four bytes, then its UTF-8.
pub open spec fn key_field(key: Seq<char>) -> Seq<u8> {
    spec_u32_to_le_bytes(encode_utf8(key).len() as u32) + encode_utf8(key)
}

/// A value as it stands in a record: its length in four bytes, then its UTF-8.
pub open spec fn value_field(value: Seq<char>) -> Seq<u8> {
    spec_u32_to_le_bytes(encode_utf8(value).len() as u32) + encode_utf8(value)
}

/// The record of a command.
pub open spec fn encoding(command: CommandView) -> Seq<u8> {
    match command {
        CommandView::Put { key, value } => seq![TAG_SET] + key_field(key) + value_field(value),
        CommandView::Remove { key } => seq![TAG_REMOVE] + key_field(key),
    }
}

/// The command whose record starts at `at`, with the record's length, or
/// `None` where no well-formed record starts there.
pub open spec fn decode_at(bytes: Seq<u8>, at: int) -> Option<(CommandView, int)> {
    if at < 0 || at + 5 > bytes.len() {
        None
    } else {
        let tag: u8 = bytes[at];
        let key_len: int = spec_u32_from_le_bytes(bytes.subrange(at + 1, at + 5)) as int;
        let key_end: int = at + 5 + key_len;
        if key_end > bytes.len() || !valid_utf8(bytes.subrange(at + 5, key_end)) {
            None
        } else {
            let key = decode_utf8(bytes.subrange(at + 5, key_end));
            if tag == TAG_REMOVE {
                Some((CommandView::Remove { key }, key_end - at))
            } else if tag != TAG_SET || key_end + 4 > bytes.len() {
                None
            } else {
                let value_len: int = spec_u32_from_le_bytes(
                    bytes.subrange(key_end, key_end + 4),
                ) as int;
                let end: int = key_end + 4 + value_len;
                if end > bytes.len() || !valid_utf8(bytes.subrange(key_end + 4, end)) {
                    None
                } else {
                    let value = decode_utf8(bytes.subrange(key_end + 4, end));
                    Some((CommandView::Put { key, value }, end - at))
                }
            }
        }
    }
}

/// A record has at least a tag and a key length, and lies inside the bytes.
pub proof fn lemma_decode_bounds(bytes: Seq<u8>, at: int)
    requires
        decode_at(bytes, at) is Some,
    ensures
        0 <= at,
        decode_at(bytes, at).unwrap().1 >= 5,
        at + decode_at(bytes, at).unwrap().1 <= bytes.len(),
{
}

/// Decoding reads the bytes of the record and no others: where two byte
/// strings agree on the record, they decode alike.
pub proof fn lemma_decode_local(a: Seq<u8>, at: int, b: Seq<u8>, to: int)
    requires
        decode_at(a, at) is Some,
        0 <= to,
        to + decode_at(a, at).unwrap().1 <= b.len(),
        a.subrange(at, at + decode_at(a, at).unwrap().1) == b.subrange(
            to,
            to + decode_at(a, at).unwrap().1,
        ),
    ensures
        decode_at(b, to) == decode_at(a, at),
{
    let n: int = decode_at(a, at).unwrap().1;
    let ra = a.subrange(at, at + n);
    let rb = b.subrange(to, to + n);
    assert(a[at] == ra[0]);
    assert(b[to] == rb[0]);
    assert(a.subrange(at + 1, at + 5) =~= ra.subrange(1, 5));
    assert(b.subrange(to + 1, to + 5) =~= rb.subrange(1, 5));
    let key_len: int = spec_u32_from_le_bytes(a.subrange(at + 1, at + 5)) as int;
    assert(a.subrange(at + 5, at + 5 + key_len) =~= ra.subrange(5, 5 + key_len));
    assert(b.subrange(to + 5, to + 5 + key_len) =~= rb.subrange(5, 5 + key_len));
    if a[at] == TAG_SET {
        let ke: int = 5 + key_len;
        assert(a.subrange(at + ke, at + ke + 4) =~= ra.subrange(ke, ke + 4));
        assert(b.subrange(to + ke, to + ke + 4) =~= rb.subrange(ke, ke + 4));
        let value_len: int = spec_u32_from_le_bytes(a.subrange(at + ke, at + ke + 4)) as int;
        assert(a.subrange(at + ke + 4, at + ke + 4 + value_len) =~= ra.subrange(
            ke + 4,
            ke + 4 + value_len,
        ));
        assert(b.subrange(to + ke + 4, to + ke + 4 + value_len) =~= rb.subrange(
            ke + 4,
            ke + 4 + value_len,
        ));
    }
}

/// A record decodes to the command it was made from, wherever it stands.
pub proof fn lemma_decode_encoding(before: Seq<u8>, command: CommandView, after: Seq<u8>)
    requires
        encodable(command),
    ensures
        decode_at(before + encoding(command) + after, before.len() as int) == Some(
            (command, encoding(command).len() as int),
        ),
{
    broadcast use encode_utf8_valid_utf8, encode_utf8_decode_utf8;

    lemma_auto_spec_u32_to_from_le_bytes();
    let bytes = before + encoding(command) + after;
    let at: int = before.len() as int;
    let key = command.key();
    let kb = encode_utf8(key);
    let kl = spec_u32_to_le_bytes(kb.len() as u32);
    assert(kl.len() == 4);
    assert(bytes.subrange(at + 1, at + 5) =~= kl);
    assert(spec_u32_from_le_bytes(kl) == kb.len() as u32);
    let key_end: int = at + 5 + kb.len();
    assert(bytes.subrange(at + 5, key_end) =~= kb);
    match command {
        CommandView::Put { key, value } => {
            let vb = encode_utf8(value);
            let vl = spec_u32_to_le_bytes(vb.len() as u32);
            assert(vl.len() == 4);
            assert(bytes[at] == TAG_SET);
            assert(bytes.subrange(key_end, key_end + 4) =~= vl);
            assert(spec_u32_from_le_bytes(vl) == vb.len() as u32);
            assert(bytes.subrange(key_end + 4, key_end + 4 + vb.len()) =~= vb);
        },
        CommandView::Remove { key } => {
            assert(bytes[at] == TAG_REMOVE);
        },
    }
}

/// A record is the encoding of the command it decodes to: each command has
/// one record, and no other bytes decode to it.
pub proof fn lemma_decode_is_encoding(bytes: Seq<u8>, at: int)
    requires
        decode_at(bytes, at) is Some,
    ensures
        encodable(decode_at(bytes, at).unwrap().0),
        bytes.subrange(at, at + decode_at(bytes, at).unwrap().1) == encoding(
            decode_at(bytes, at).unwrap().0,
        ),
{
    broadcast use decode_utf8_encode_utf8;

    lemma_auto_spec_u32_to_from_le_bytes();
    let (command, length) = decode_at(bytes, at).unwrap();
    let record = bytes.subrange(at, at + length);
    let key_prefix = bytes.subrange(at + 1, at + 5);
    let key_len: int = spec_u32_from_le_bytes(key_prefix) as int;
    let key_end: int = at + 5 + key_len;
    let key_bytes = bytes.subrange(at + 5, key_end);
    assert(encode_utf8(command.key()) == key_bytes);
    assert(spec_u32_to_le_bytes(key_len as u32) == key_prefix);
    match command {
        CommandView::Put { key, value } => {
            let value_prefix = bytes.subrange(key_end, key_end + 4);
            let value_len: int = spec_u32_from_le_bytes(value_prefix) as int;
            let value_bytes = bytes.subrange(key_end + 4, key_end + 4 + value_len);
            assert(encode_utf8(value) == value_bytes);
            assert(spec_u32_to_le_bytes(value_len as u32) == value_prefix);
            assert(record =~= seq![TAG_SET] + (key_prefix + key_bytes) + (value_prefix
                + value_bytes));
        },
        CommandView::Remove { key } => {
            assert(record =~= seq![TAG_REMOVE] + (key_prefix + key_bytes));
        },
    }
}

/// `String::from_utf8` of std: the text whose UTF-8 encoding is `bytes`.
/// There is one exactly when the bytes are valid UTF-8.
#[verifier::external_body]
fn text_from_utf8(bytes: Vec<u8>) -> (r: Option<String>)
    ensures
        r is Some <==> valid_utf8(bytes@),
        r matches Some(text) ==> encode_utf8(text@) == bytes@,
{
    String::from_utf8(bytes).ok()
}

impl Command {
    /// The command that binds `key` to `value`.
    pub fn set(key: String, value: String) -> (command: Command)
        ensures
            command@ == (CommandView::Put { key: key@, value: value@ }),
    {
        Command::Put { key, value }
    }

    /// The command that drops the binding of `key`.
    pub fn remove(key: String) -> (command: Command)
        ensures
            command@ == (CommandView::Remove { key: key@ }),
    {
        Command::Remove { key }
    }

    /// The record of this command, or `Serialization` where a field is
    /// longer than its length prefix can say.
    pub fn encode(&self) -> (r: Result<Vec<u8>, KvsError>)
        ensures
            encodable(self@) ==> (r matches Ok(bytes) && bytes@ == encoding(self@)),
            !encodable(self@) ==> r == Err::<Vec<u8>, KvsError>(KvsError::Serialization),
    {
        match self {
            Command::Put { key, value } => {
                let key_bytes = key.as_str().as_bytes();
                let value_bytes = value.as_str().as_bytes();
                if key_bytes.len() > MAX_KEY_BYTES || value_bytes.len() > MAX_VALUE_BYTES {
                    return Err(KvsError::Serialization);
                }
                let mut out: Vec<u8> = Vec::new();
                out.push(TAG_SET);
                let mut key_len = u32_to_le_bytes(key_bytes.len() as u32);
                out.append(&mut key_len);
                out.extend_from_slice(key_bytes);
                let mut value_len = u32_to_le_bytes(value_bytes.len() as u32);
                out.append(&mut value_len);
                out.extend_from_slice(value_bytes);
                assert(out@ =~= encoding(self@));
                Ok(out)
            },
            Command::Remove { key } => {
                let key_bytes = key.as_str().as_bytes();
                if key_bytes.len() > MAX_KEY_BYTES {
                    return Err(KvsError::Serialization);
                }
                let mut out: Vec<u8> = Vec::new();
                out.push(TAG_REMOVE);
                let mut key_len = u32_to_le_bytes(key_bytes.len() as u32);
                out.append(&mut key_len);
                out.extend_from_slice(key_bytes);
                assert(out@ =~= encoding(self@));
                Ok(out)
            },
        }
    }

    /// Reads the record that starts at `at`: the command and the record's
    /// length, or `None` where no well-formed record starts there.
    pub fn decode(bytes: &[u8], at: usize) -> (r: Option<(Command, usize)>)
        ensures
            match r {
                Some((command, length)) => decode_at(bytes@, at as int) == Some(
                    (command@, length as int),
                ),
                None => decode_at(bytes@, at as int) is None,
            },
    {
        broadcast use encode_utf8_decode_utf8;

        let len: usize = bytes.len();
        if at > len || len - at < 5 {
            return None;
        }
        let tag: u8 = bytes[at];
        if tag != TAG_SET && tag != TAG_REMOVE {
            return None;
        }
        let key_len: usize = u32_from_le_bytes(slice_subrange(bytes, at + 1, at + 5)) as usize;
        let key_start: usize = at + 5;
        if len - key_start < key_len {
            return None;
        }
        let key_end: usize = key_start + key_len;
        let key = match text_from_utf8(slice_to_vec(slice_subrange(bytes, key_start, key_end))) {
            Some(key) => key,
            None => {
                return None;
            },
        };
        if tag == TAG_REMOVE {
            return Some((Command::Remove { key }, key_end - at));
        }
        if len - key_end < 4 {
            return None;
        }
        let value_start: usize = key_end + 4;
        let value_len: usize = u32_from_le_bytes(
            slice_subrange(bytes, key_end, value_start),
        ) as usize;
        if len - value_start < value_len {
            return None;
        }
        let end: usize = value_start + value_len;
        let value = match text_from_utf8(slice_to_vec(slice_subrange(bytes, value_start, end))) {
            Some(value) => value,
            None => {
                return None;
            },
        };
        Some((Command::Put { key, value }, end - at))
    }
}

} // verus!

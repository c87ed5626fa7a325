//! The log record format.
//!
//! A record is a tag byte (`0` for `Put`, `1` for `Remove`) followed by one
//! field (the key) or two fields (key, then value). A field is the length of
//! the string's UTF-8 bytes as a little-endian `u64`, followed by those bytes.
//! Records are self-delimiting, so a log is simply their concatenation.

use vstd::prelude::*;
use vstd::bytes::{spec_u64_from_le_bytes, spec_u64_to_le_bytes, u64_from_le_bytes, u64_to_le_bytes};
use vstd::utf8::{decode_utf8, encode_utf8, valid_utf8};

verus! {

/// Tag byte of a `Put` record.
pub const TAG_PUT: u8 = 0;

/// Tag byte of a `Remove` record.
pub const TAG_REMOVE: u8 = 1;

/// One entry of the log.
pub enum Command {
    Put { key: String, value: String },
    Remove { key: String },
}

/// What a command means, with its strings as character sequences.
pub enum CommandView {
    Put { key: Seq<char>, value: Seq<char> },
    Remove { key: Seq<char> },
}

impl CommandView {
    pub open spec fn key(self) -> Seq<char> {
        match self {
            CommandView::Put { key, .. } => key,
            CommandView::Remove { key } => key,
        }
    }
}

impl View for Command {
    type V = CommandView;

    open spec fn view(&self) -> CommandView {
        match self {
            Command::Put { key, value } => CommandView::Put { key: key@, value: value@ },
            Command::Remove { key } => CommandView::Remove { key: key@ },
        }
    }
}

/// The bytes of one field: the UTF-8 length as a little-endian `u64`, then the UTF-8 bytes.
pub open spec fn field_bytes(s: Seq<char>) -> Seq<u8> {
    spec_u64_to_le_bytes(encode_utf8(s).len() as u64) + encode_utf8(s)
}

/// The bytes of one record.
pub open spec fn record_bytes(c: CommandView) -> Seq<u8> {
    match c {
        CommandView::Put { key, value } => seq![TAG_PUT] + field_bytes(key) + field_bytes(value),
        CommandView::Remove { key } => seq![TAG_REMOVE] + field_bytes(key),
    }
}

/// A string whose UTF-8 encoding fits the `u64` length prefix.
pub open spec fn fits_field(s: Seq<char>) -> bool {
    encode_utf8(s).len() <= u64::MAX
}

/// A command all of whose fields fit their length prefix.
pub open spec fn fits_record(c: CommandView) -> bool {
    match c {
        CommandView::Put { key, value } => fits_field(key) && fits_field(value),
        CommandView::Remove { key } => fits_field(key),
    }
}

/// The field that starts at `pos` in `b`, with the offset just past it, if
/// one is there: eight length bytes, then that many bytes of valid UTF-8.
pub open spec fn parse_field(b: Seq<u8>, pos: int) -> Option<(Seq<char>, int)> {
    if 0 <= pos && pos + 8 <= b.len() {
        let n = spec_u64_from_le_bytes(b.subrange(pos, pos + 8)) as int;
        let end = pos + 8 + n;
        if end <= b.len() && valid_utf8(b.subrange(pos + 8, end)) {
            Some((decode_utf8(b.subrange(pos + 8, end)), end))
        } else {
            None
        }
    } else {
        None
    }
}

/// The record that starts at `pos` in `b`, with the offset just past it, if
/// the bytes there form one.
pub open spec fn parse_record(b: Seq<u8>, pos: int) -> Option<(CommandView, int)> {
    if 0 <= pos < b.len() {
        if b[pos] == TAG_PUT {
            match parse_field(b, pos + 1) {
                Some((key, mid)) => match parse_field(b, mid) {
                    Some((value, end)) => Some((CommandView::Put { key, value }, end)),
                    None => None,
                },
                None => None,
            }
        } else if b[pos] == TAG_REMOVE {
            match parse_field(b, pos + 1) {
                Some((key, end)) => Some((CommandView::Remove { key }, end)),
                None => None,
            }
        } else {
            None
        }
    } else {
        None
    }
}

/// Relies on `String::from_utf8`: it accepts every valid UTF-8 sequence, and
/// the string it returns holds exactly the given bytes.
#[verifier::external_body]
fn string_from_utf8(b: Vec<u8>) -> (r: Option<String>)
    ensures
        match r {
            Some(s) => encode_utf8(s@) == b@,
            None => !valid_utf8(b@),
        },
{
    String::from_utf8(b).ok()
}

/// Appends `b` to `out`.
pub(crate) fn append_bytes(out: &mut Vec<u8>, b: &[u8])
    ensures
        final(out)@ == old(out)@ + b@,
{
    let mut i: usize = 0;
    while i < b.len()
        invariant
            i <= b@.len(),
            out@ == old(out)@ + b@.subrange(0, i as int),
        decreases b@.len() - i,
    {
        out.push(b[i]);
        i = i + 1;
        assert(b@.subrange(0, i as int) == b@.subrange(0, i - 1) + seq![b@[i - 1]]);
    }
    assert(b@.subrange(0, b@.len() as int) == b@);
}

/// Appends the field of `s` to `out`.
fn push_field(out: &mut Vec<u8>, s: &String)
    ensures
        final(out)@ == old(out)@ + field_bytes(s@),
        fits_field(s@),
{
    let b = s.as_str().as_bytes();
    let n = b.len();
    let len_bytes = u64_to_le_bytes(n as u64);
    append_bytes(out, len_bytes.as_slice());
    append_bytes(out, b);
    assert(final(out)@ == old(out)@ + field_bytes(s@));
}

/// Encodes one command as a record.
pub fn encode(cmd: &Command) -> (r: Vec<u8>)
    ensures
        r@ == record_bytes(cmd@),
        fits_record(cmd@),
{
    let mut out: Vec<u8> = Vec::new();
    match cmd {
        Command::Put { key, value } => {
            out.push(TAG_PUT);
            push_field(&mut out, key);
            push_field(&mut out, value);
        },
        Command::Remove { key } => {
            out.push(TAG_REMOVE);
            push_field(&mut out, key);
        },
    }
    out
}

/// Reads the field that starts at `pos`.
fn read_field(b: &Vec<u8>, pos: usize) -> (r: Option<(String, usize)>)
    ensures
        match r {
            Some((s, end)) => parse_field(b@, pos as int) == Some((s@, end as int)),
            None => parse_field(b@, pos as int) is None,
        },
{
    if pos > b.len() || b.len() - pos < 8 {
        return None;
    }
    let len_slice = vstd::slice::slice_subrange(b.as_slice(), pos, pos + 8);
    let n = u64_from_le_bytes(len_slice);
    if n > (b.len() - pos - 8) as u64 {
        return None;
    }
    let end = pos + 8 + n as usize;
    let bytes = vstd::slice::slice_to_vec(vstd::slice::slice_subrange(b.as_slice(), pos + 8, end));
    match string_from_utf8(bytes) {
        Some(s) => {
            proof {
                vstd::utf8::encode_utf8_valid_utf8(s@);
                vstd::utf8::encode_utf8_decode_utf8(s@);
            }
            Some((s, end))
        },
        None => None,
    }
}

/// Decodes the record that starts at `pos`, returning it with the offset just
/// past it; `None` where the bytes there form no record (or `pos` is at or
/// past the end).
pub fn decode_at(b: &Vec<u8>, pos: usize) -> (r: Option<(Command, usize)>)
    ensures
        match r {
            Some((c, end)) => parse_record(b@, pos as int) == Some((c@, end as int)),
            None => parse_record(b@, pos as int) is None,
        },
{
    if pos >= b.len() {
        return None;
    }
    let tag = b[pos];
    if tag == TAG_PUT {
        match read_field(b, pos + 1) {
            Some((key, mid)) => match read_field(b, mid) {
                Some((value, end)) => Some((Command::Put { key, value }, end)),
                None => None,
            },
            None => None,
        }
    } else if tag == TAG_REMOVE {
        match read_field(b, pos + 1) {
            Some((key, end)) => Some((Command::Remove { key }, end)),
            None => None,
        }
    } else {
        None
    }
}

} // verus!

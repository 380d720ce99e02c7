use vstd::prelude::*;
use vstd::bytes::{
    lemma_auto_spec_u64_to_from_le_bytes, spec_u64_from_le_bytes, spec_u64_to_le_bytes,
    u64_from_le_bytes, u64_to_le_bytes,
};
use vstd::slice::{slice_subrange, slice_to_vec};
use vstd::utf8::{decode_utf8, encode_utf8, encode_utf8_decode_utf8, encode_utf8_valid_utf8, valid_utf8};

verus! {

/// Tag byte that opens an encoded `Put` record.
pub const TAG_SET: u8 = 0;

/// Tag byte that opens an encoded `Remove` record.
pub const TAG_REMOVE: u8 = 1;

/// One mutation of the store, as it is appended to a segment.
#[derive(Debug, Clone)]
pub enum Command {
    Put { key: String, value: String },
    Remove { key: String },
}

/// A command with its texts seen as character sequences.
pub enum CommandView {
    Put { key: Seq<char>, value: Seq<char> },
    Remove { key: Seq<char> },
}

impl View for Command {
    type V = CommandView;

    open spec fn view(&self) -> CommandView {
        match self {
            Command::Put { key, value } => CommandView::Put { key: key@, value: value@ },
            Command::Remove { key } => CommandView::Remove { key: key@ },
        }
    }
}

/// What decoding the front of a byte sequence gives: a value and the number
/// of bytes it took, or a stream that stops inside a value, or bytes that no
/// encoding produces.
pub enum Parse<T> {
    Done(T, nat),
    Incomplete,
    Malformed,
}

/// The UTF-8 bytes of a text, preceded by their count as eight little-endian bytes.
pub open spec fn field_bytes(s: Seq<char>) -> Seq<u8> {
    spec_u64_to_le_bytes(encode_utf8(s).len() as u64) + encode_utf8(s)
}

/// A text whose UTF-8 length a length prefix can hold.
pub open spec fn text_fits(s: Seq<char>) -> bool {
    encode_utf8(s).len() <= u64::MAX
}

pub open spec fn command_fits(c: CommandView) -> bool {
    match c {
        CommandView::Put { key, value } => text_fits(key) && text_fits(value),
        CommandView::Remove { key } => text_fits(key),
    }
}

/// The encoding of a record: its tag, then its key, then (for `Put`) its value.
pub open spec fn encode_spec(c: CommandView) -> Seq<u8> {
    match c {
        CommandView::Put { key, value } => seq![TAG_SET] + field_bytes(key) + field_bytes(value),
        CommandView::Remove { key } => seq![TAG_REMOVE] + field_bytes(key),
    }
}

/// Decodes one length-prefixed text at the front of `s`.
pub open spec fn parse_field(s: Seq<u8>) -> Parse<Seq<char>> {
    if s.len() < 8 {
        Parse::Incomplete
    } else {
        let n = spec_u64_from_le_bytes(s.subrange(0, 8)) as int;
        if s.len() - 8 < n {
            Parse::Incomplete
        } else if !valid_utf8(s.subrange(8, 8 + n)) {
            Parse::Malformed
        } else {
            Parse::Done(decode_utf8(s.subrange(8, 8 + n)), (8 + n) as nat)
        }
    }
}

/// Decodes the second text of a `Put` record whose tag and key took `n` bytes.
pub open spec fn parse_set_value(s: Seq<u8>, key: Seq<char>, n: nat) -> Parse<CommandView> {
    match parse_field(s.subrange(n as int, s.len() as int)) {
        Parse::Done(value, m) => Parse::Done(CommandView::Put { key, value }, n + m),
        Parse::Incomplete => Parse::Incomplete,
        Parse::Malformed => Parse::Malformed,
    }
}

/// Decodes one record at the front of `s`.
pub open spec fn parse_record(s: Seq<u8>) -> Parse<CommandView> {
    if s.len() == 0 {
        Parse::Incomplete
    } else if s[0] != TAG_SET && s[0] != TAG_REMOVE {
        Parse::Malformed
    } else {
        match parse_field(s.subrange(1, s.len() as int)) {
            Parse::Done(key, n) => if s[0] == TAG_SET {
                parse_set_value(s, key, n + 1)
            } else {
                Parse::Done(CommandView::Remove { key }, n + 1)
            },
            Parse::Incomplete => Parse::Incomplete,
            Parse::Malformed => Parse::Malformed,
        }
    }
}

proof fn lemma_parse_field(s: Seq<char>, rest: Seq<u8>)
    requires
        text_fits(s),
    ensures
        parse_field(field_bytes(s) + rest) == Parse::Done(s, field_bytes(s).len()),
        field_bytes(s).len() == 8 + encode_utf8(s).len(),
{
    lemma_auto_spec_u64_to_from_le_bytes();
    broadcast use encode_utf8_valid_utf8, encode_utf8_decode_utf8;

    let b = encode_utf8(s);
    let all = field_bytes(s) + rest;
    assert(all.subrange(0, 8) =~= spec_u64_to_le_bytes(b.len() as u64));
    assert(all.subrange(8, 8 + b.len() as int) =~= b);
}

/// Decoding the encoding of a record, followed by any bytes, gives back that
/// record and the length of its encoding.
pub proof fn lemma_decode_encode(c: CommandView, rest: Seq<u8>)
    requires
        command_fits(c),
    ensures
        parse_record(encode_spec(c) + rest) == Parse::Done(c, encode_spec(c).len()),
{
    let all = encode_spec(c) + rest;
    match c {
        CommandView::Put { key, value } => {
            let fk = field_bytes(key);
            let fv = field_bytes(value);
            assert(all.subrange(1, all.len() as int) =~= fk + (fv + rest));
            lemma_parse_field(key, fv + rest);
            assert(all.subrange(1 + fk.len() as int, all.len() as int) =~= fv + rest);
            lemma_parse_field(value, rest);
        },
        CommandView::Remove { key } => {
            assert(all.subrange(1, all.len() as int) =~= field_bytes(key) + rest);
            lemma_parse_field(key, rest);
        },
    }
}

proof fn lemma_field_prefix(s: Seq<u8>, m: int)
    requires
        parse_field(s) is Done,
        parse_field(s)->Done_1 <= m <= s.len(),
    ensures
        parse_field(s.subrange(0, m)) == parse_field(s),
        0 < parse_field(s)->Done_1 <= s.len(),
{
    let t = s.subrange(0, m);
    assert(t.subrange(0, 8) =~= s.subrange(0, 8));
    let n = spec_u64_from_le_bytes(s.subrange(0, 8)) as int;
    assert(t.subrange(8, 8 + n) =~= s.subrange(8, 8 + n));
}

/// A decoded record and its length stay the same when the bytes after it are
/// cut off, and the length is positive and within the input.
pub proof fn lemma_parse_prefix(s: Seq<u8>, m: int)
    requires
        parse_record(s) is Done,
        parse_record(s)->Done_1 <= m <= s.len(),
    ensures
        parse_record(s.subrange(0, m)) == parse_record(s),
        0 < parse_record(s)->Done_1 <= s.len(),
{
    let t = s.subrange(0, m);
    let s1 = s.subrange(1, s.len() as int);
    assert(t.subrange(1, m) =~= s1.subrange(0, m - 1));
    let n = parse_field(s1)->Done_1 as int;
    if s[0] == TAG_SET {
        let s2 = s.subrange(n + 1, s.len() as int);
        assert(t.subrange(n + 1, m) =~= s2.subrange(0, m - n - 1));
        lemma_field_prefix(s2, m - n - 1);
    }
    lemma_field_prefix(s1, m - 1);
}

proof fn lemma_field_cut(s: Seq<u8>, m: int)
    requires
        parse_field(s) is Done,
        0 <= m < parse_field(s)->Done_1,
    ensures
        parse_field(s.subrange(0, m)) is Incomplete,
{
    let t = s.subrange(0, m);
    if m >= 8 {
        assert(t.subrange(0, 8) =~= s.subrange(0, 8));
    }
}

/// Bytes cut off inside a record decode as a record cut short.
pub proof fn lemma_parse_cut(s: Seq<u8>, m: int)
    requires
        parse_record(s) is Done,
        0 <= m < parse_record(s)->Done_1,
    ensures
        parse_record(s.subrange(0, m)) is Incomplete,
{
    let t = s.subrange(0, m);
    if m > 0 {
        let s1 = s.subrange(1, s.len() as int);
        let n = parse_field(s1)->Done_1 as int;
        assert(t.subrange(1, m) =~= s1.subrange(0, m - 1));
        lemma_field_prefix(s1, n);
        if m - 1 < n {
            lemma_field_cut(s1, m - 1);
        } else {
            lemma_field_prefix(s1, m - 1);
            let s2 = s.subrange(n + 1, s.len() as int);
            assert(t.subrange(n + 1, m) =~= s2.subrange(0, m - n - 1));
            lemma_field_cut(s2, m - n - 1);
        }
    }
}

proof fn lemma_field_extend(s: Seq<u8>, t: Seq<u8>)
    requires
        parse_field(s) is Done,
    ensures
        parse_field(s + t) == parse_field(s),
{
    let u = s + t;
    assert(u.subrange(0, 8) =~= s.subrange(0, 8));
    let n = spec_u64_from_le_bytes(s.subrange(0, 8)) as int;
    assert(u.subrange(8, 8 + n) =~= s.subrange(8, 8 + n));
}

/// A decoded record stays the same when more bytes follow it.
pub proof fn lemma_parse_extend(s: Seq<u8>, t: Seq<u8>)
    requires
        parse_record(s) is Done,
    ensures
        parse_record(s + t) == parse_record(s),
{
    let u = s + t;
    let s1 = s.subrange(1, s.len() as int);
    assert(u.subrange(1, u.len() as int) =~= s1 + t);
    lemma_field_extend(s1, t);
    assert(u[0] == s[0]);
    if s[0] == TAG_SET {
        let n = parse_field(s1)->Done_1 as int;
        let s2 = s.subrange(n + 1, s.len() as int);
        assert(u.subrange(n + 1, u.len() as int) =~= s2 + t);
        lemma_field_extend(s2, t);
    }
}

/// Relies on String::from_utf8: it accepts exactly the valid UTF-8 byte
/// sequences, and the string it gives holds the characters they encode.
#[verifier::external_body]
fn string_from_utf8(bytes: Vec<u8>) -> (r: Option<String>)
    ensures
        r is Some <==> valid_utf8(bytes@),
        r matches Some(s) ==> s@ == decode_utf8(bytes@),
{
    String::from_utf8(bytes).ok()
}

fn push_field(out: &mut Vec<u8>, s: &String)
    ensures
        final(out)@ == old(out)@ + field_bytes(s@),
        text_fits(s@),
{
    let mut bytes = s.as_str().as_bytes_vec();
    let mut len = u64_to_le_bytes(bytes.len() as u64);
    out.append(&mut len);
    out.append(&mut bytes);
    assert(final(out)@ =~= old(out)@ + field_bytes(s@));
}

/// Encodes a record as a self-delimiting byte string.
pub fn encode(c: &Command) -> (r: Vec<u8>)
    ensures
        r@ == encode_spec(c@),
        command_fits(c@),
{
    let mut out: Vec<u8> = Vec::new();
    match c {
        Command::Put { key, value } => {
            out.push(TAG_SET);
            push_field(&mut out, key);
            push_field(&mut out, value);
        },
        Command::Remove { key } => {
            out.push(TAG_REMOVE);
            push_field(&mut out, key);
        },
    }
    assert(out@ =~= encode_spec(c@));
    out
}

/// The outcome of decoding one record from a byte stream.
pub enum Decoded {
    Record(Command, usize),
    Incomplete,
    Malformed,
}

impl View for Decoded {
    type V = Parse<CommandView>;

    open spec fn view(&self) -> Parse<CommandView> {
        match self {
            Decoded::Record(c, n) => Parse::Done(c@, *n as nat),
            Decoded::Incomplete => Parse::Incomplete,
            Decoded::Malformed => Parse::Malformed,
        }
    }
}

enum FieldDecoded {
    Text(String, usize),
    Incomplete,
    Malformed,
}

spec fn field_view(f: FieldDecoded) -> Parse<Seq<char>> {
    match f {
        FieldDecoded::Text(s, n) => Parse::Done(s@, n as nat),
        FieldDecoded::Incomplete => Parse::Incomplete,
        FieldDecoded::Malformed => Parse::Malformed,
    }
}

fn decode_field(buf: &[u8], pos: usize) -> (r: FieldDecoded)
    requires
        pos <= buf@.len(),
    ensures
        field_view(r) == parse_field(buf@.subrange(pos as int, buf@.len() as int)),
        r matches FieldDecoded::Text(_, n) ==> pos + n <= buf@.len(),
{
    let ghost s = buf@.subrange(pos as int, buf@.len() as int);
    let avail = buf.len() - pos;
    if avail < 8 {
        return FieldDecoded::Incomplete;
    }
    let n = u64_from_le_bytes(slice_subrange(buf, pos, pos + 8));
    assert(buf@.subrange(pos as int, pos + 8) =~= s.subrange(0, 8));
    if ((avail - 8) as u64) < n {
        return FieldDecoded::Incomplete;
    }
    let n = n as usize;
    let bytes = slice_to_vec(slice_subrange(buf, pos + 8, pos + 8 + n));
    assert(bytes@ =~= s.subrange(8, 8 + n));
    match string_from_utf8(bytes) {
        Some(text) => FieldDecoded::Text(text, 8 + n),
        None => FieldDecoded::Malformed,
    }
}

/// Decodes the record that starts at `pos` in `buf`.
pub fn decode(buf: &[u8], pos: usize) -> (r: Decoded)
    requires
        pos <= buf@.len(),
    ensures
        r@ == parse_record(buf@.subrange(pos as int, buf@.len() as int)),
        r matches Decoded::Record(_, n) ==> 0 < n && pos + n <= buf@.len(),
{
    let ghost s = buf@.subrange(pos as int, buf@.len() as int);
    if pos == buf.len() {
        return Decoded::Incomplete;
    }
    let tag = buf[pos];
    if tag != TAG_SET && tag != TAG_REMOVE {
        return Decoded::Malformed;
    }
    assert(buf@.subrange(pos + 1, buf@.len() as int) =~= s.subrange(1, s.len() as int));
    match decode_field(buf, pos + 1) {
        FieldDecoded::Text(key, n) => {
            if tag == TAG_REMOVE {
                Decoded::Record(Command::Remove { key }, n + 1)
            } else {
                let at = pos + 1 + n;
                assert(buf@.subrange(at as int, buf@.len() as int) =~= s.subrange(
                    (n + 1) as int,
                    s.len() as int,
                ));
                match decode_field(buf, at) {
                    FieldDecoded::Text(value, m) => Decoded::Record(
                        Command::Put { key, value },
                        n + 1 + m,
                    ),
                    FieldDecoded::Incomplete => Decoded::Incomplete,
                    FieldDecoded::Malformed => Decoded::Malformed,
                }
            }
        },
        FieldDecoded::Incomplete => Decoded::Incomplete,
        FieldDecoded::Malformed => Decoded::Malformed,
    }
}

} // verus!

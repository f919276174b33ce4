//! The fields of the wire format: integers, texts, options and lists.
use vstd::prelude::*;
use vstd::utf8::*;

use crate::bytes;
use crate::bytes::{copy_range, put_bytes, put_u64};
use crate::mvcc;
use crate::text;
use crate::text::{decimal_text, join2, join4, text_from_utf8};

verus! {

/// Why bytes are no message, or a path is none of this server's.
#[derive(Debug, PartialEq, Eq)]
pub enum GrpcCodecError {
    InvalidPayload(String),
    UnsupportedMethodPath(String),
}

/// A [`GrpcCodecError`] over its characters.
pub enum GrpcCodecErrorV {
    InvalidPayload(Seq<char>),
    UnsupportedMethodPath(Seq<char>),
}

impl View for GrpcCodecError {
    type V = GrpcCodecErrorV;

    open spec fn view(&self) -> GrpcCodecErrorV {
        match self {
            GrpcCodecError::InvalidPayload(message) => GrpcCodecErrorV::InvalidPayload(message@),
            GrpcCodecError::UnsupportedMethodPath(path) =>
                GrpcCodecErrorV::UnsupportedMethodPath(path@),
        }
    }
}

impl GrpcCodecErrorV {
    /// The text that the error displays.
    pub open spec fn display(self) -> Seq<char> {
        match self {
            GrpcCodecErrorV::InvalidPayload(message) => "invalid gRPC payload: "@ + message,
            GrpcCodecErrorV::UnsupportedMethodPath(path) => "unsupported gRPC method path: "@
                + path,
        }
    }
}

impl Clone for GrpcCodecError {
    fn clone(&self) -> (r: Self)
        ensures
            r == *self,
    {
        match self {
            GrpcCodecError::InvalidPayload(message) => GrpcCodecError::InvalidPayload(
                message.clone(),
            ),
            GrpcCodecError::UnsupportedMethodPath(path) => GrpcCodecError::UnsupportedMethodPath(
                path.clone(),
            ),
        }
    }
}

impl GrpcCodecError {
    /// The error as a message for people.
    pub fn to_string(&self) -> (r: String)
        ensures
            r@ == self@.display(),
    {
        match self {
            GrpcCodecError::InvalidPayload(message) => join2(
                "invalid gRPC payload: ",
                message.as_str(),
            ),
            GrpcCodecError::UnsupportedMethodPath(path) => join2(
                "unsupported gRPC method path: ",
                path.as_str(),
            ),
        }
    }
}

/// A text: its length in bytes, then its bytes.
#[verifier::opaque]
pub open spec fn text_bytes(t: Seq<char>) -> Seq<u8> {
    bytes::le64(encode_utf8(t).len() as u64) + encode_utf8(t)
}

/// A number that may be absent, behind a flag.
#[verifier::opaque]
pub open spec fn option_u64_bytes(value: Option<u64>) -> Seq<u8> {
    match value {
        Some(x) => seq![1u8] + bytes::le64(x),
        None => seq![0u8],
    }
}

/// A text that may be absent, behind a flag.
#[verifier::opaque]
pub open spec fn option_text_bytes(value: Option<Seq<char>>) -> Seq<u8> {
    match value {
        Some(t) => seq![1u8] + text_bytes(t),
        None => seq![0u8],
    }
}

/// Texts, one after the other.
pub open spec fn texts_bytes(values: Seq<Seq<char>>) -> Seq<u8>
    decreases values.len(),
{
    if values.len() == 0 {
        Seq::empty()
    } else {
        texts_bytes(values.drop_last()) + text_bytes(values.last())
    }
}

/// A field and the place behind it, or the message of the fault.
pub type Field<T> = Result<(T, int), Seq<char>>;

/// The message for a field that needs more bytes than there are.
pub open spec fn short_message(b: Seq<u8>, p: int, size: int, field: Seq<char>) -> Seq<char> {
    "field "@ + field + " expected "@ + text::decimal(size as nat) + " bytes but "@ + text::decimal(
        (b.len() - p) as nat,
    ) + " remain"@
}

pub open spec fn u8_field(b: Seq<u8>, p: int, field: Seq<char>) -> Field<u8> {
    if b.len() - p < 1 {
        Err(short_message(b, p, 1, field))
    } else {
        Ok((b[p], p + 1))
    }
}

pub open spec fn u64_field(b: Seq<u8>, p: int, field: Seq<char>) -> Field<u64> {
    if b.len() - p < 8 {
        Err(short_message(b, p, 8, field))
    } else {
        Ok((bytes::u64_at(b, p), p + 8))
    }
}

/// A length, which must fit the machine.
pub open spec fn len_field(b: Seq<u8>, p: int, field: Seq<char>) -> Field<int> {
    match u64_field(b, p, field) {
        Err(message) => Err(message),
        Ok((value, q)) => if value > usize::MAX {
            Err(
                "field "@ + field + " length "@ + text::decimal(value as nat)
                    + " does not fit in usize"@,
            )
        } else {
            Ok((value as int, q))
        },
    }
}

#[verifier::opaque]
pub open spec fn text_field(b: Seq<u8>, p: int, field: Seq<char>) -> Field<Seq<char>> {
    match len_field(b, p, field) {
        Err(message) => Err(message),
        Ok((len, q)) => if b.len() - q < len {
            Err(short_message(b, q, len, field))
        } else if !valid_utf8(b.subrange(q, q + len)) {
            Err(
                "field "@ + field + " is not utf8: "@ + text::utf8_error_form(
                    b.subrange(q, q + len),
                ),
            )
        } else {
            Ok((decode_utf8(b.subrange(q, q + len)), q + len))
        },
    }
}

/// The message for a flag that is neither zero nor one.
pub open spec fn flag_message(flag: u8, field: Seq<char>) -> Seq<char> {
    "field "@ + field + " has invalid option flag "@ + text::decimal(flag as nat)
}

#[verifier::opaque]
pub open spec fn option_u64_field(b: Seq<u8>, p: int, field: Seq<char>) -> Field<Option<u64>> {
    match u8_field(b, p, field) {
        Err(message) => Err(message),
        Ok((flag, q)) => if flag == 0 {
            Ok((None, q))
        } else if flag == 1 {
            match u64_field(b, q, field) {
                Err(message) => Err(message),
                Ok((value, end)) => Ok((Some(value), end)),
            }
        } else {
            Err(flag_message(flag, field))
        },
    }
}

#[verifier::opaque]
pub open spec fn option_text_field(b: Seq<u8>, p: int, field: Seq<char>) -> Field<
    Option<Seq<char>>,
> {
    match u8_field(b, p, field) {
        Err(message) => Err(message),
        Ok((flag, q)) => if flag == 0 {
            Ok((None, q))
        } else if flag == 1 {
            match text_field(b, q, field) {
                Err(message) => Err(message),
                Ok((value, end)) => Ok((Some(value), end)),
            }
        } else {
            Err(flag_message(flag, field))
        },
    }
}

/// A number of texts, one after the other.
pub open spec fn texts_field(b: Seq<u8>, p: int, n: nat, field: Seq<char>) -> Field<Seq<Seq<char>>>
    decreases n,
{
    if n == 0 {
        Ok((Seq::empty(), p))
    } else {
        match text_field(b, p, field) {
            Err(message) => Err(message),
            Ok((value, q)) => match texts_field(b, q, (n - 1) as nat, field) {
                Err(message) => Err(message),
                Ok((rest, end)) => Ok((seq![value] + rest, end)),
            },
        }
    }
}

/// Builds a message.
#[derive(Debug)]
pub struct BinaryEncoder {
    pub bytes: Vec<u8>,
}

impl BinaryEncoder {
    pub fn new() -> (r: Self)
        ensures
            r.bytes@ == Seq::<u8>::empty(),
    {
        BinaryEncoder { bytes: Vec::new() }
    }

    pub fn write_u8(&mut self, value: u8)
        ensures
            final(self).bytes@ == old(self).bytes@ + seq![value],
    {
        self.bytes.push(value);
        assert(self.bytes@ =~= old(self).bytes@ + seq![value]);
    }

    pub fn write_u64(&mut self, value: u64)
        ensures
            final(self).bytes@ == old(self).bytes@ + bytes::le64(value),
    {
        put_u64(&mut self.bytes, value);
    }

    pub fn write_len(&mut self, value: usize)
        ensures
            final(self).bytes@ == old(self).bytes@ + bytes::le64(value as u64),
    {
        put_u64(&mut self.bytes, value as u64);
    }

    pub fn write_string(&mut self, value: &str)
        ensures
            final(self).bytes@ == old(self).bytes@ + text_bytes(value@),
    {
        proof {
            reveal(text_bytes);
        }
        let data = value.as_bytes();
        self.write_len(data.len());
        put_bytes(&mut self.bytes, data);
        assert(self.bytes@ =~= old(self).bytes@ + text_bytes(value@));
    }

    pub fn write_option_u64(&mut self, value: Option<u64>)
        ensures
            final(self).bytes@ == old(self).bytes@ + option_u64_bytes(value),
    {
        proof {
            reveal(option_u64_bytes);
        }
        match value {
            Some(x) => {
                self.write_u8(1);
                self.write_u64(x);
            },
            None => {
                self.write_u8(0);
            },
        }
        assert(self.bytes@ =~= old(self).bytes@ + option_u64_bytes(value));
    }

    pub fn write_option_string(&mut self, value: &Option<String>)
        ensures
            final(self).bytes@ == old(self).bytes@ + option_text_bytes(mvcc::text_view(*value)),
    {
        proof {
            reveal(option_text_bytes);
        }
        match value {
            Some(t) => {
                self.write_u8(1);
                self.write_string(t.as_str());
            },
            None => {
                self.write_u8(0);
            },
        }
        assert(self.bytes@ =~= old(self).bytes@ + option_text_bytes(mvcc::text_view(*value)));
    }

    /// Writes texts one after the other.
    pub fn write_strings(&mut self, values: &Vec<String>)
        ensures
            final(self).bytes@ == old(self).bytes@ + texts_bytes(text::texts(values@)),
    {
        let ghost before = self.bytes@;
        let ghost all = text::texts(values@);
        let mut i: usize = 0;
        assert(before =~= before + texts_bytes(all.take(0)));
        while i < values.len()
            invariant
                i <= values@.len(),
                all == text::texts(values@),
                self.bytes@ == before + texts_bytes(all.take(i as int)),
            decreases values@.len() - i,
        {
            assert(all.take(i + 1).drop_last() =~= all.take(i as int));
            assert(all.take(i + 1).last() == values@[i as int]@);
            self.write_string(values[i].as_str());
            assert(self.bytes@ =~= before + texts_bytes(all.take(i + 1)));
            i += 1;
        }
        assert(all.take(i as int) =~= all);
    }

    pub fn into_bytes(self) -> (r: Vec<u8>)
        ensures
            r@ == self.bytes@,
    {
        self.bytes
    }
}

/// Reads a message.
#[derive(Debug)]
pub struct BinaryDecoder<'a> {
    pub bytes: &'a [u8],
    pub cursor: usize,
}

/// What a reading step makes of a decoder: on success it stands behind what was
/// read.
pub open spec fn reads<T, W>(
    before: BinaryDecoder<'_>,
    after: BinaryDecoder<'_>,
    r: Result<T, GrpcCodecError>,
    value: spec_fn(T) -> W,
    expected: Field<W>,
) -> bool {
    &&& after.bytes == before.bytes
    &&& after.wf()
    &&& match expected {
        Ok((w, end)) => r matches Ok(v) && value(v) == w && after.cursor == end,
        Err(message) => r matches Err(e) && e@ == GrpcCodecErrorV::InvalidPayload(message),
    }
}

fn invalid(message: String) -> (r: GrpcCodecError)
    ensures
        r@ == GrpcCodecErrorV::InvalidPayload(message@),
{
    GrpcCodecError::InvalidPayload(message)
}

impl<'a> BinaryDecoder<'a> {
    pub open spec fn wf(&self) -> bool {
        self.cursor <= self.bytes@.len()
    }

    pub fn new(bytes: &'a [u8]) -> (r: Self)
        ensures
            r.wf(),
            r.bytes == bytes,
            r.cursor == 0,
    {
        BinaryDecoder { bytes, cursor: 0 }
    }

    fn remaining(&self) -> (r: usize)
        requires
            self.wf(),
        ensures
            r == self.bytes@.len() - self.cursor,
    {
        self.bytes.len() - self.cursor
    }

    fn ensure_remaining(&self, size: usize, field: &str) -> (r: Result<(), GrpcCodecError>)
        requires
            self.wf(),
        ensures
            if self.bytes@.len() - self.cursor < size {
                r matches Err(e) && e@ == GrpcCodecErrorV::InvalidPayload(
                    short_message(self.bytes@, self.cursor as int, size as int, field@),
                )
            } else {
                r is Ok
            },
    {
        if self.remaining() < size {
            let head = join4(
                "field ",
                field,
                " expected ",
                decimal_text(size as u128).as_str(),
            );
            let message = join4(
                head.as_str(),
                " bytes but ",
                decimal_text(self.remaining() as u128).as_str(),
                " remain",
            );
            return Err(invalid(message));
        }
        Ok(())
    }

    pub fn read_u8(&mut self, field: &str) -> (r: Result<u8, GrpcCodecError>)
        requires
            old(self).wf(),
        ensures
            reads(
                *old(self),
                *final(self),
                r,
                |v: u8| v,
                u8_field(old(self).bytes@, old(self).cursor as int, field@),
            ),
    {
        match self.ensure_remaining(1, field) {
            Ok(()) => {},
            Err(error) => {
                return Err(error);
            },
        }
        let _length: usize = self.bytes.len();
        let value: u8 = self.bytes[self.cursor];
        self.cursor += 1;
        Ok(value)
    }

    pub fn read_u64(&mut self, field: &str) -> (r: Result<u64, GrpcCodecError>)
        requires
            old(self).wf(),
        ensures
            reads(
                *old(self),
                *final(self),
                r,
                |v: u64| v,
                u64_field(old(self).bytes@, old(self).cursor as int, field@),
            ),
    {
        match self.ensure_remaining(8, field) {
            Ok(()) => {},
            Err(error) => {
                return Err(error);
            },
        }
        let _length: usize = self.bytes.len();
        let value: u64 = bytes::read_u64(self.bytes, self.cursor);
        self.cursor += 8;
        Ok(value)
    }

    pub fn read_len(&mut self, field: &str) -> (r: Result<usize, GrpcCodecError>)
        requires
            old(self).wf(),
        ensures
            reads(
                *old(self),
                *final(self),
                r,
                |v: usize| v as int,
                len_field(old(self).bytes@, old(self).cursor as int, field@),
            ),
    {
        let value: u64 = match self.read_u64(field) {
            Ok(value) => value,
            Err(error) => {
                return Err(error);
            },
        };
        if value > usize::MAX as u64 {
            let head = join4(
                "field ",
                field,
                " length ",
                decimal_text(value as u128).as_str(),
            );
            return Err(invalid(join2(head.as_str(), " does not fit in usize")));
        }
        Ok(value as usize)
    }

    pub fn read_string(&mut self, field: &str) -> (r: Result<String, GrpcCodecError>)
        requires
            old(self).wf(),
        ensures
            reads(
                *old(self),
                *final(self),
                r,
                |v: String| v@,
                text_field(old(self).bytes@, old(self).cursor as int, field@),
            ),
    {
        proof {
            reveal(text_field);
        }
        let len: usize = match self.read_len(field) {
            Ok(len) => len,
            Err(error) => {
                return Err(error);
            },
        };
        match self.ensure_remaining(len, field) {
            Ok(()) => {},
            Err(error) => {
                return Err(error);
            },
        }
        let _length: usize = self.bytes.len();
        let data = copy_range(self.bytes, self.cursor, self.cursor + len);
        self.cursor += len;
        match text_from_utf8(data) {
            Ok(value) => Ok(value),
            Err(error) => Err(invalid(not_utf8_message(field, error.as_str()))),
        }
    }

    pub fn read_option_u64(&mut self, field: &str) -> (r: Result<Option<u64>, GrpcCodecError>)
        requires
            old(self).wf(),
        ensures
            reads(
                *old(self),
                *final(self),
                r,
                |v: Option<u64>| v,
                option_u64_field(old(self).bytes@, old(self).cursor as int, field@),
            ),
    {
        proof {
            reveal(option_u64_field);
        }
        let flag: u8 = match self.read_u8(field) {
            Ok(flag) => flag,
            Err(error) => {
                return Err(error);
            },
        };
        if flag == 0 {
            Ok(None)
        } else if flag == 1 {
            match self.read_u64(field) {
                Ok(value) => Ok(Some(value)),
                Err(error) => Err(error),
            }
        } else {
            Err(bad_flag(flag, field))
        }
    }

    pub fn read_option_string(&mut self, field: &str) -> (r: Result<
        Option<String>,
        GrpcCodecError,
    >)
        requires
            old(self).wf(),
        ensures
            reads(
                *old(self),
                *final(self),
                r,
                |v: Option<String>| mvcc::text_view(v),
                option_text_field(old(self).bytes@, old(self).cursor as int, field@),
            ),
    {
        proof {
            reveal(option_text_field);
        }
        let flag: u8 = match self.read_u8(field) {
            Ok(flag) => flag,
            Err(error) => {
                return Err(error);
            },
        };
        if flag == 0 {
            Ok(None)
        } else if flag == 1 {
            match self.read_string(field) {
                Ok(value) => Ok(Some(value)),
                Err(error) => Err(error),
            }
        } else {
            Err(bad_flag(flag, field))
        }
    }

    /// Reads a number of texts, one after the other.
    pub fn read_strings(&mut self, count: usize, field: &str) -> (r: Result<
        Vec<String>,
        GrpcCodecError,
    >)
        requires
            old(self).wf(),
        ensures
            reads(
                *old(self),
                *final(self),
                r,
                |v: Vec<String>| text::texts(v@),
                texts_field(old(self).bytes@, old(self).cursor as int, count as nat, field@),
            ),
    {
        let mut values: Vec<String> = Vec::new();
        let mut i: usize = 0;
        let ghost b = self.bytes@;
        let ghost start = self.cursor as int;
        let ghost whole = texts_field(b, start, count as nat, field@);
        proof {
            if whole is Ok {
                assert(whole->Ok_0.0 =~= text::texts(values@) + whole->Ok_0.0);
            }
        }
        while i < count
            invariant
                i <= count,
                self.wf(),
                self.bytes == old(self).bytes,
                b == self.bytes@,
                start == old(self).cursor,
                whole == texts_field(b, start, count as nat, field@),
                whole == match texts_field(b, self.cursor as int, (count - i) as nat, field@) {
                    Ok((rest, end)) => Ok::<(Seq<Seq<char>>, int), Seq<char>>(
                        (text::texts(values@) + rest, end),
                    ),
                    Err(message) => Err(message),
                },
            decreases count - i,
        {
            let ghost seen = text::texts(values@);
            let value = match self.read_string(field) {
                Ok(value) => value,
                Err(error) => {
                    return Err(error);
                },
            };
            let ghost v = value@;
            values.push(value);
            proof {
                assert(text::texts(values@) =~= seen.push(v));
                let tail = texts_field(b, self.cursor as int, (count - i - 1) as nat, field@);
                if tail is Ok {
                    assert(seen + (seq![v] + tail->Ok_0.0) =~= seen.push(v) + tail->Ok_0.0);
                }
            }
            i += 1;
        }
        assert(text::texts(values@) + Seq::<Seq<char>>::empty() =~= text::texts(values@));
        Ok(values)
    }

    /// Refuses bytes that nothing was read from.
    pub fn finish(self) -> (r: Result<(), GrpcCodecError>)
        requires
            self.wf(),
        ensures
            if self.cursor == self.bytes@.len() {
                r is Ok
            } else {
                r matches Err(e) && e@ == GrpcCodecErrorV::InvalidPayload(
                    trailing_message((self.bytes@.len() - self.cursor) as nat),
                )
            },
    {
        if self.cursor == self.bytes.len() {
            return Ok(());
        }
        let message = join2(
            decimal_text((self.bytes.len() - self.cursor) as u128).as_str(),
            " trailing bytes remain",
        );
        Err(invalid(message))
    }
}

/// The message for bytes behind the end of a message.
pub open spec fn trailing_message(n: nat) -> Seq<char> {
    text::decimal(n) + " trailing bytes remain"@
}

/// The message for a text whose bytes are refused with `error`.
pub fn not_utf8_message(field: &str, error: &str) -> (r: String)
    ensures
        r@ == "field "@ + field@ + " is not utf8: "@ + error@,
{
    join4("field ", field, " is not utf8: ", error)
}

fn bad_flag(flag: u8, field: &str) -> (r: GrpcCodecError)
    ensures
        r@ == GrpcCodecErrorV::InvalidPayload(flag_message(flag, field@)),
{
    invalid(
        join4("field ", field, " has invalid option flag ", decimal_text(flag as u128).as_str()),
    )
}

/// The piece stands at the place.
pub open spec fn holds_at(b: Seq<u8>, p: int, piece: Seq<u8>) -> bool {
    0 <= p && p + piece.len() <= b.len() && b.subrange(p, p + piece.len() as int) == piece
}

/// A piece of two parts stands where its parts stand.
pub proof fn holds_in_parts(b: Seq<u8>, p: int, x: Seq<u8>, y: Seq<u8>)
    requires
        holds_at(b, p, x + y),
    ensures
        holds_at(b, p, x),
        holds_at(b, p + x.len(), y),
{
    assert(b.subrange(p, p + x.len()) =~= (x + y).subrange(0, x.len() as int));
    assert((x + y).subrange(0, x.len() as int) =~= x);
    let q = p + x.len();
    assert(b.subrange(q, q + y.len()) =~= (x + y).subrange(x.len() as int, (x + y).len() as int));
    assert((x + y).subrange(x.len() as int, (x + y).len() as int) =~= y);
}

/// A byte is read back.
pub proof fn u8_reads_back(b: Seq<u8>, p: int, value: u8, field: Seq<char>)
    requires
        holds_at(b, p, seq![value]),
    ensures
        u8_field(b, p, field) == Ok::<(u8, int), Seq<char>>((value, p + 1)),
{
    assert(b.subrange(p, p + 1)[0] == value);
}

/// A number is read back.
pub proof fn u64_reads_back(b: Seq<u8>, p: int, value: u64, field: Seq<char>)
    requires
        holds_at(b, p, bytes::le64(value)),
    ensures
        u64_field(b, p, field) == Ok::<(u64, int), Seq<char>>((value, p + 8)),
        bytes::le64(value).len() == 8,
{
    bytes::le_lengths();
    bytes::u64_reads_back(b, p, value);
}

/// A text that this machine can hold.
pub open spec fn fits(t: Seq<char>) -> bool {
    encode_utf8(t).len() <= usize::MAX
}

/// A text is read back.
pub proof fn text_reads_back(b: Seq<u8>, p: int, t: Seq<char>, field: Seq<char>)
    requires
        fits(t),
        holds_at(b, p, text_bytes(t)),
    ensures
        text_field(b, p, field) == Ok::<(Seq<char>, int), Seq<char>>(
            (t, p + text_bytes(t).len()),
        ),
{
    reveal(text_bytes);
    reveal(text_field);
    let data = encode_utf8(t);
    let len = data.len() as u64;
    holds_in_parts(b, p, bytes::le64(len), data);
    u64_reads_back(b, p, len, field);
    encode_utf8_valid_utf8(t);
    encode_utf8_decode_utf8(t);
}

/// A number that may be absent is read back.
pub proof fn option_u64_reads_back(b: Seq<u8>, p: int, value: Option<u64>, field: Seq<char>)
    requires
        holds_at(b, p, option_u64_bytes(value)),
    ensures
        option_u64_field(b, p, field) == Ok::<(Option<u64>, int), Seq<char>>(
            (value, p + option_u64_bytes(value).len()),
        ),
{
    reveal(option_u64_bytes);
    reveal(option_u64_field);
    match value {
        Some(x) => {
            holds_in_parts(b, p, seq![1u8], bytes::le64(x));
            u8_reads_back(b, p, 1, field);
            u64_reads_back(b, p + 1, x, field);
        },
        None => {
            u8_reads_back(b, p, 0, field);
        },
    }
}

/// A text that may be absent is read back.
pub proof fn option_text_reads_back(
    b: Seq<u8>,
    p: int,
    value: Option<Seq<char>>,
    field: Seq<char>,
)
    requires
        value matches Some(t) ==> fits(t),
        holds_at(b, p, option_text_bytes(value)),
    ensures
        option_text_field(b, p, field) == Ok::<(Option<Seq<char>>, int), Seq<char>>(
            (value, p + option_text_bytes(value).len()),
        ),
{
    reveal(option_text_bytes);
    reveal(option_text_field);
    match value {
        Some(t) => {
            holds_in_parts(b, p, seq![1u8], text_bytes(t));
            u8_reads_back(b, p, 1, field);
            text_reads_back(b, p + 1, t, field);
        },
        None => {
            u8_reads_back(b, p, 0, field);
        },
    }
}

/// The bytes of one part after those of another are the bytes of both.
pub proof fn texts_bytes_in_parts(a: Seq<Seq<char>>, c: Seq<Seq<char>>)
    ensures
        texts_bytes(a + c) == texts_bytes(a) + texts_bytes(c),
    decreases c.len(),
{
    if c.len() == 0 {
        assert(a + c =~= a);
        assert(texts_bytes(a) + texts_bytes(c) =~= texts_bytes(a));
    } else {
        assert((a + c).drop_last() =~= a + c.drop_last());
        texts_bytes_in_parts(a, c.drop_last());
        assert(texts_bytes(a) + (texts_bytes(c.drop_last()) + text_bytes(c.last()))
            =~= texts_bytes(a) + texts_bytes(c.drop_last()) + text_bytes(c.last()));
    }
}

/// Texts are read back.
pub proof fn texts_read_back(b: Seq<u8>, p: int, values: Seq<Seq<char>>, field: Seq<char>)
    requires
        forall|i: int| 0 <= i < values.len() ==> fits(#[trigger] values[i]),
        holds_at(b, p, texts_bytes(values)),
    ensures
        texts_field(b, p, values.len(), field) == Ok::<(Seq<Seq<char>>, int), Seq<char>>(
            (values, p + texts_bytes(values).len()),
        ),
    decreases values.len(),
{
    if values.len() == 0 {
        assert(values =~= Seq::<Seq<char>>::empty());
    } else {
        let first = values[0];
        let rest = values.skip(1);
        assert(values =~= seq![first] + rest);
        texts_bytes_in_parts(seq![first], rest);
        assert(seq![first].drop_last() =~= Seq::<Seq<char>>::empty());
        assert(texts_bytes(Seq::<Seq<char>>::empty()) =~= Seq::<u8>::empty());
        assert(texts_bytes(seq![first]) =~= text_bytes(first));
        holds_in_parts(b, p, text_bytes(first), texts_bytes(rest));
        assert(fits(values[0]));
        text_reads_back(b, p, first, field);
        assert forall|i: int| 0 <= i < rest.len() implies fits(#[trigger] rest[i]) by {
            assert(fits(values[i + 1]));
        }
        texts_read_back(b, p + text_bytes(first).len(), rest, field);
    }
}

} // verus!

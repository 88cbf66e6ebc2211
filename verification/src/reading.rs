//! Files as they were read, and the lines that they are made of.

use crate::errors::{ParseError, ParseErrorView};
use vstd::prelude::*;
use vstd::slice::{slice_subrange, slice_to_vec};
use vstd::utf8::{
    char_is_scalar, char_u32_cast, decode_utf8, decode_utf8_encode_utf8, encode_scalar, encode_utf8,
    encode_utf8_decode_utf8, encode_utf8_valid_utf8, is_scalar, valid_utf8,
};

verus! {

/// The bytes that could be read of a file.
pub struct FileText {
    /// Everything that was read.
    pub bytes: Vec<u8>,
    /// What the system said when the bytes ran out before the file did.
    pub failure: Option<String>,
}

impl FileText {
    /// What the system said when reading broke off, if it did.
    pub open spec fn failed(self) -> Option<Seq<char>> {
        match self.failure {
            Some(reason) => Some(reason@),
            None => None,
        }
    }
}

/// The byte that ends a line.
pub const NEWLINE: u8 = 10;

/// How many bytes the first line of `rest` takes, its newline included.
pub open spec fn line_length(rest: Seq<u8>) -> nat
    decreases rest.len(),
{
    if rest.len() == 0 {
        0
    } else if rest[0] == NEWLINE {
        1
    } else {
        1 + line_length(rest.drop_first())
    }
}

/// The first line of `rest`, its newline included, as bytes.
pub open spec fn first_line(rest: Seq<u8>) -> Seq<u8> {
    rest.take(line_length(rest) as int)
}

/// How many bytes behind a line that is not UTF-8 are kept to show.
pub const SAMPLE_LENGTH: usize = 512;

/// The first bytes of `rest`.
pub open spec fn sample(rest: Seq<u8>) -> Seq<u8> {
    if rest.len() > SAMPLE_LENGTH {
        rest.take(SAMPLE_LENGTH as int)
    } else {
        rest
    }
}

/// What reading a line gives where `rest` is still unread: the line, which is empty at the end
/// of the file, or why there is none. A line that reading broke off in is not handed out.
pub open spec fn next_line(rest: Seq<u8>, failed: Option<Seq<char>>) -> Result<
    Seq<char>,
    ParseErrorView,
> {
    let line = first_line(rest);
    if failed is Some && !(line.len() > 0 && line.last() == NEWLINE) {
        Err(ParseErrorView::ReadFailed(failed->0))
    } else if !valid_utf8(line) {
        Err(ParseErrorView::InvalidUtf8(sample(rest.skip(line.len() as int))))
    } else {
        Ok(decode_utf8(line))
    }
}

/// `done`, and then what was read behind it.
pub open spec fn after<T, E>(done: Seq<T>, rest: Result<Seq<T>, E>) -> Result<Seq<T>, E> {
    match rest {
        Ok(more) => Ok(done + more),
        Err(error) => Err(error),
    }
}

/// What `core::str::from_utf8` says of bytes that are not UTF-8. Nothing is made of it.
#[verifier::external_type_specification]
#[verifier::external_body]
pub struct ExUtf8Error(core::str::Utf8Error);

/// `core::str::from_utf8` accepts exactly the byte strings that are valid UTF-8, and hands the
/// same bytes back as text.
pub assume_specification[ core::str::from_utf8 ](v: &[u8]) -> (text: Result<
    &str,
    core::str::Utf8Error,
>)
    ensures
        text is Ok <==> valid_utf8(v@),
        text matches Ok(s) ==> s@ == decode_utf8(v@),
;

/// A line takes at least one byte of what is left, and no more than that.
pub proof fn lemma_line_length(rest: Seq<u8>)
    ensures
        line_length(rest) <= rest.len(),
        rest.len() > 0 ==> line_length(rest) > 0,
    decreases rest.len(),
{
    if rest.len() > 0 {
        lemma_line_length(rest.drop_first());
    }
}

/// A line ends with the first newline, or with the file.
proof fn lemma_line_end(rest: Seq<u8>, n: int)
    requires
        0 <= n <= rest.len(),
        forall|i: int| 0 <= i < n ==> rest[i] != NEWLINE,
        n < rest.len() ==> rest[n] == NEWLINE,
    ensures
        line_length(rest) == if n < rest.len() { n + 1 } else { n },
    decreases rest.len(),
{
    if n > 0 {
        let tail = rest.drop_first();
        assert forall|i: int| 0 <= i < n - 1 implies tail[i] != NEWLINE by {
            assert(tail[i] == rest[i + 1]);
        }
        lemma_line_end(tail, n - 1);
    }
}

/// A whole line of text: it ends with a newline, and holds no other.
pub open spec fn is_line(line: Seq<char>) -> bool {
    &&& line.len() > 0
    &&& line.last() == '\n'
    &&& forall|i: int| 0 <= i < line.len() - 1 ==> #[trigger] line[i] != '\n'
}

/// In UTF-8 the byte of a newline stands for a newline and for nothing else.
proof fn lemma_newline_byte(scalar: u32)
    requires
        is_scalar(scalar),
    ensures
        encode_scalar(scalar).len() > 0,
        scalar == 10 ==> encode_scalar(scalar) == seq![NEWLINE],
        scalar != 10 ==> forall|i: int|
            0 <= i < encode_scalar(scalar).len() ==> #[trigger] encode_scalar(scalar)[i] != NEWLINE,
{
    assert(scalar <= 0x7f ==> (scalar & 0x7f) as u8 == scalar) by (bit_vector);
    assert(forall|b: u8| #[trigger] (0xc0 | b) >= 0xc0) by (bit_vector);
    assert(forall|b: u8| #[trigger] (0xe0 | b) >= 0xe0) by (bit_vector);
    assert(forall|b: u8| #[trigger] (0xf0 | b) >= 0xf0) by (bit_vector);
    assert(forall|b: u8| #[trigger] (0x80 | b) >= 0x80) by (bit_vector);
}

/// Bytes before the first newline belong to the first line.
proof fn lemma_line_length_extends(start: Seq<u8>, rest: Seq<u8>)
    requires
        forall|i: int| 0 <= i < start.len() ==> #[trigger] start[i] != NEWLINE,
    ensures
        line_length(start + rest) == start.len() + line_length(rest),
    decreases start.len(),
{
    if start.len() == 0 {
        assert(start + rest =~= rest);
    } else {
        assert((start + rest).drop_first() =~= start.drop_first() + rest);
        lemma_line_length_extends(start.drop_first(), rest);
    }
}

/// The first line of encoded text ends where the first line of the text does.
proof fn lemma_encoded_line(line: Seq<char>, rest: Seq<u8>)
    requires
        is_line(line),
    ensures
        line_length(encode_utf8(line) + rest) == encode_utf8(line).len(),
        encode_utf8(line).len() > 0,
        encode_utf8(line).last() == NEWLINE,
    decreases line.len(),
{
    let first = encode_scalar(line[0] as u32);
    let tail = line.drop_first();
    char_is_scalar(line[0]);
    lemma_newline_byte(line[0] as u32);
    assert(encode_utf8(line) == first + encode_utf8(tail));
    if line.len() == 1 {
        assert(encode_utf8(tail) =~= seq![]);
        assert(encode_utf8(line) =~= seq![NEWLINE]);
    } else {
        assert(line[0] as u32 != 10) by {
            assert(line[0] != '\n');
            char_u32_cast(line[0], line[0] as u32);
        }
        assert(tail.last() == line.last());
        assert(forall|i: int| 0 <= i < tail.len() ==> tail[i] == line[i + 1]);
        lemma_encoded_line(tail, rest);
        lemma_line_length_extends(first, encode_utf8(tail) + rest);
        assert(encode_utf8(line) + rest =~= first + (encode_utf8(tail) + rest));
    }
}

/// Encoding one text behind another encodes both.
pub proof fn lemma_encode_concat(a: Seq<char>, b: Seq<char>)
    ensures
        encode_utf8(a + b) == encode_utf8(a) + encode_utf8(b),
    decreases a.len(),
{
    if a.len() == 0 {
        assert(a + b =~= b);
        assert(encode_utf8(a) + encode_utf8(b) =~= encode_utf8(b));
    } else {
        assert((a + b).drop_first() =~= a.drop_first() + b);
        lemma_encode_concat(a.drop_first(), b);
        assert(encode_utf8(a + b) =~= encode_utf8(a) + encode_utf8(b));
    }
}

/// A whole line that was written is read back, whatever stands behind it and whether or not
/// reading breaks off there.
pub proof fn law_line_reads_back(line: Seq<char>, rest: Seq<u8>, failed: Option<Seq<char>>)
    requires
        is_line(line),
    ensures
        next_line(encode_utf8(line) + rest, failed) == Ok::<_, ParseErrorView>(line),
        line_length(encode_utf8(line) + rest) == encode_utf8(line).len(),
        encode_utf8(line).len() > 0,
{
    lemma_encoded_line(line, rest);
    assert(first_line(encode_utf8(line) + rest) =~= encode_utf8(line));
    encode_utf8_valid_utf8(line);
    encode_utf8_decode_utf8(line);
}

/// Text without a newline is encoded without the byte of one.
proof fn lemma_no_newline_byte(text: Seq<char>)
    requires
        forall|i: int| 0 <= i < text.len() ==> #[trigger] text[i] != '\n',
    ensures
        forall|i: int|
            0 <= i < encode_utf8(text).len() ==> #[trigger] encode_utf8(text)[i] != NEWLINE,
        text.len() > 0 ==> encode_utf8(text).len() > 0,
    decreases text.len(),
{
    if text.len() > 0 {
        let first = encode_scalar(text[0] as u32);
        let tail = text.drop_first();
        assert(text[0] as u32 != 10) by {
            assert(text[0] != '\n');
            char_u32_cast(text[0], text[0] as u32);
        }
        char_is_scalar(text[0]);
        lemma_newline_byte(text[0] as u32);
        assert(forall|i: int| 0 <= i < tail.len() ==> tail[i] == text[i + 1]);
        lemma_no_newline_byte(tail);
        assert(encode_utf8(text) == first + encode_utf8(tail));
    }
}

/// A last line that was written without a newline is read back at the end of the file.
pub proof fn law_last_line_reads_back(line: Seq<char>)
    requires
        forall|i: int| 0 <= i < line.len() ==> #[trigger] line[i] != '\n',
    ensures
        next_line(encode_utf8(line), None) == Ok::<_, ParseErrorView>(line),
        line_length(encode_utf8(line)) == encode_utf8(line).len(),
        line.len() > 0 ==> encode_utf8(line).len() > 0,
{
    let bytes = encode_utf8(line);
    let nothing = Seq::<u8>::empty();
    lemma_no_newline_byte(line);
    lemma_line_length_extends(bytes, nothing);
    assert(bytes + nothing =~= bytes);
    assert(first_line(bytes) =~= bytes);
    encode_utf8_valid_utf8(line);
    encode_utf8_decode_utf8(line);
}

/// A line reaches to the first newline, or to the end of what is left. It is handed out as the text
/// whose encoding it is. It is not handed out where reading broke off before a newline, nor where
/// it is not UTF-8; then up to 512 of the bytes behind it are shown.
pub proof fn law_next_line(rest: Seq<u8>, failed: Option<Seq<char>>, n: int)
    requires
        0 <= n <= rest.len(),
        forall|i: int| 0 <= i < n ==> #[trigger] rest[i] != 10,
        n < rest.len() ==> rest[n] == 10,
    ensures
        ({
            let end = if n < rest.len() {
                n + 1
            } else {
                n
            };
            let broken = n == rest.len() && failed is Some;
            &&& line_length(rest) == end
            &&& match next_line(rest, failed) {
                Ok(text) => !broken && encode_utf8(text) == rest.take(end),
                Err(ParseErrorView::ReadFailed(reason)) => broken && failed == Some(reason),
                Err(ParseErrorView::InvalidUtf8(shown)) => {
                    &&& !broken
                    &&& !valid_utf8(rest.take(end))
                    &&& shown.is_prefix_of(rest.skip(end))
                    &&& shown.len() == if rest.len() - end < 512 {
                        rest.len() - end
                    } else {
                        512
                    }
                },
                Err(_) => false,
            }
        }),
{
    lemma_line_end(rest, n);
    let end = line_length(rest) as int;
    let line = first_line(rest);
    if n < rest.len() {
        assert(line.last() == rest[n]);
    } else if n > 0 {
        assert(line.last() == rest[n - 1]);
    }
    if valid_utf8(line) {
        decode_utf8_encode_utf8(line);
    }
    let shown = sample(rest.skip(end));
    assert(shown =~= rest.skip(end).take(shown.len() as int));
}

/// A file says why reading it broke off exactly if it did.
pub proof fn law_failed(file: FileText)
    ensures
        file.failed() is Some <==> file.failure is Some,
        file.failure is Some ==> file.failed()->0 == file.failure->0@,
{
}

/// Where the bytes of a newline stand in encoded text.
proof fn lemma_newline_at(text: Seq<char>, i: int)
    requires
        0 <= i < text.len(),
        text[i] == '\n',
    ensures
        encode_utf8(text.take(i)).len() < encode_utf8(text).len(),
        encode_utf8(text)[encode_utf8(text.take(i)).len() as int] == NEWLINE,
        i < text.len() - 1 ==> encode_utf8(text.take(i)).len() < encode_utf8(text).len() - 1,
{
    let behind = text.skip(i);
    let later = behind.drop_first();
    assert(text =~= text.take(i) + behind);
    lemma_encode_concat(text.take(i), behind);
    char_is_scalar(behind[0]);
    char_u32_cast('\n', 10);
    lemma_newline_byte(behind[0] as u32);
    assert(encode_utf8(behind) == encode_scalar(behind[0] as u32) + encode_utf8(later));
    if i < text.len() - 1 {
        char_is_scalar(later[0]);
        lemma_newline_byte(later[0] as u32);
        assert(encode_utf8(later) == encode_scalar(later[0] as u32) + encode_utf8(
            later.drop_first(),
        ));
    }
}

/// Text whose encoding has one newline, at its end, is a whole line.
pub proof fn lemma_is_line(text: Seq<char>)
    requires
        encode_utf8(text).len() > 0,
        encode_utf8(text).last() == NEWLINE,
        forall|i: int|
            0 <= i < encode_utf8(text).len() - 1 ==> #[trigger] encode_utf8(text)[i] != NEWLINE,
    ensures
        is_line(text),
{
    let bytes = encode_utf8(text);
    assert forall|i: int| 0 <= i < text.len() - 1 implies #[trigger] text[i] != '\n' by {
        if text[i] == '\n' {
            lemma_newline_at(text, i);
        }
    }
    assert(text.len() > 0);
    if text.last() != '\n' {
        lemma_no_newline_byte(text);
        assert(bytes[bytes.len() - 1] == NEWLINE);
    }
}

/// Where the first line of `rest` ends before its newline.
pub proof fn lemma_newline_found(rest: Seq<u8>) -> (n: int)
    ensures
        0 <= n <= rest.len(),
        forall|i: int| 0 <= i < n ==> #[trigger] rest[i] != NEWLINE,
        n < rest.len() ==> rest[n] == NEWLINE,
    decreases rest.len(),
{
    if rest.len() == 0 || rest[0] == NEWLINE {
        0
    } else {
        let tail = rest.drop_first();
        let n = lemma_newline_found(tail);
        assert forall|i: int| 0 <= i < n + 1 implies #[trigger] rest[i] != NEWLINE by {
            if i > 0 {
                assert(tail[i - 1] == rest[i]);
            }
        }
        if n < tail.len() {
            assert(tail[n] == rest[n + 1]);
        }
        n + 1
    }
}

/// Reads the line that starts at `pos`: the line, and where the next one starts.
pub fn read_line(file: &FileText, pos: usize) -> (read: Result<(&str, usize), ParseError>)
    requires
        pos <= file.bytes@.len(),
    ensures
        match next_line(file.bytes@.skip(pos as int), file.failed()) {
            Ok(line) => {
                &&& read is Ok
                &&& read->Ok_0.0@ == line
                &&& read->Ok_0.1 == pos + line_length(file.bytes@.skip(pos as int))
            },
            Err(error) => read is Err && read->Err_0@ == error,
        },
{
    let ghost rest = file.bytes@.skip(pos as int);
    let length: usize = file.bytes.len();
    let mut end: usize = pos;
    while end < length && file.bytes[end] != NEWLINE
        invariant
            pos <= end <= length,
            length == file.bytes@.len(),
            rest == file.bytes@.skip(pos as int),
            forall|i: int| 0 <= i < end - pos ==> rest[i] != NEWLINE,
        decreases length - end,
    {
        end = end + 1;
    }
    proof {
        lemma_line_end(rest, end - pos);
    }
    let complete: bool = end < length;
    if complete {
        end = end + 1;
    }
    assert(file.bytes@.subrange(pos as int, end as int) =~= first_line(rest));
    if !complete {
        if let Some(reason) = &file.failure {
            return Err(ParseError::ReadFailed(reason.clone()));
        }
    }
    match core::str::from_utf8(slice_subrange(file.bytes.as_slice(), pos, end)) {
        Ok(line) => Ok((line, end)),
        Err(_) => {
            let shown: usize = if length - end > SAMPLE_LENGTH {
                end + SAMPLE_LENGTH
            } else {
                length
            };
            let bytes = slice_to_vec(slice_subrange(file.bytes.as_slice(), end, shown));
            assert(bytes@ =~= sample(rest.skip(end - pos)));
            Err(ParseError::InvalidUtf8(bytes))
        },
    }
}

} // verus!

//! The requests to metadata servers that `mdsc` lists.

use crate::errors::{ParseError, ParseErrorView};
use crate::numbers::{
    decimal, get_num_from_regex, law_decimal_reads_back, law_unsigned, number_value, unsigned,
};
use crate::patterns::{
    capture, compile, compiled, group_text, law_mds_groups, law_mds_groups_exist, mds_groups,
    MdsLine, MDS_REQUEST,
};
use crate::reading::{
    after, is_line, law_last_line_reads_back, law_line_reads_back, law_next_line,
    lemma_encode_concat, lemma_is_line, lemma_line_length, lemma_newline_found, line_length,
    next_line, read_line, FileText,
};
use vstd::prelude::*;
use vstd::utf8::encode_utf8;

verus! {

/// The requests of one client.
#[derive(Debug, PartialEq, Eq)]
pub struct Mdsc {
    pub requests: Vec<MdsRequest>,
}

/// A request to a metadata server, or one that none has yet.
#[derive(Debug, PartialEq, Eq)]
pub struct MdsRequest {
    pub tid: u64,
    pub op: String,
    pub target: Option<u32>,
}

/// An [`MdsRequest`] with its operation as a sequence of characters.
pub struct MdsRequestView {
    pub tid: u64,
    pub op: Seq<char>,
    pub target: Option<u32>,
}

impl View for MdsRequest {
    type V = MdsRequestView;

    open spec fn view(&self) -> MdsRequestView {
        MdsRequestView { tid: self.tid, op: self.op@, target: self.target }
    }
}

impl View for Mdsc {
    type V = Seq<MdsRequestView>;

    open spec fn view(&self) -> Seq<MdsRequestView> {
        self.requests@.map_values(|request: MdsRequest| request@)
    }
}

/// The request that a line lists, or why it lists none.
pub open spec fn mds_request(line: Seq<char>) -> Result<MdsRequestView, ParseErrorView> {
    match mds_groups(line) {
        None => Err(ParseErrorView::InvalidRequestLine(line)),
        Some((tid, target, op)) => match (unsigned(tid, u64::MAX as nat), target) {
            (Some(tid), None) => Ok(MdsRequestView { tid: tid as u64, op, target: None }),
            (Some(tid), Some(target)) => match unsigned(target, u32::MAX as nat) {
                Some(target) => Ok(
                    MdsRequestView { tid: tid as u64, op, target: Some(target as u32) },
                ),
                None => Err(ParseErrorView::InvalidField),
            },
            (None, _) => Err(ParseErrorView::InvalidField),
        },
    }
}

/// The requests that the lines of `rest` list, up to the end of the file.
pub open spec fn mdsc(rest: Seq<u8>, failed: Option<Seq<char>>) -> Result<
    Seq<MdsRequestView>,
    ParseErrorView,
>
    decreases rest.len(),
{
    match next_line(rest, failed) {
        Err(error) => Err(error),
        Ok(line) => if rest.len() == 0 {
            Ok(seq![])
        } else {
            match mds_request(line) {
                Err(error) => Err(error),
                Ok(request) => {
                    proof {
                        lemma_line_length(rest);
                    }
                    match mdsc(rest.skip(line_length(rest) as int), failed) {
                        Err(error) => Err(error),
                        Ok(requests) => Ok(seq![request] + requests),
                    }
                },
            }
        },
    }
}

/// A line that opens with the parts of a request, numbers in decimal and the operation taken as
/// far as it goes, lists that request.
pub proof fn law_mds_request_reads_back(request: MdsRequestView, parts: MdsLine, line: Seq<char>)
    requires
        parts.opens_longest(line),
        parts.tid == decimal(request.tid as nat),
        parts.target is Some <==> request.target is Some,
        request.target is Some ==> parts.target->0 == decimal(request.target->0 as nat),
        parts.op == request.op,
    ensures
        mds_request(line) == Ok::<_, ParseErrorView>(request),
{
    law_mds_groups(parts, line);
    law_decimal_reads_back(request.tid as nat);
    if request.target is Some {
        law_decimal_reads_back(request.target->0 as nat);
    }
}

/// A line that lists a request puts it before those of the lines that follow.
proof fn lemma_mds_line(
    line: Seq<char>,
    request: MdsRequestView,
    rest: Seq<u8>,
    failed: Option<Seq<char>>,
)
    requires
        is_line(line),
        mds_request(line) == Ok::<_, ParseErrorView>(request),
    ensures
        mdsc(encode_utf8(line) + rest, failed) == after(seq![request], mdsc(rest, failed)),
{
    let all = encode_utf8(line) + rest;
    law_line_reads_back(line, rest, failed);
    assert(all.skip(line_length(all) as int) =~= rest);
}

/// Lines that list requests are listed in their order, and what follows them is read as if it
/// stood alone.
pub proof fn law_mds_lines(
    lines: Seq<Seq<char>>,
    requests: Seq<MdsRequestView>,
    rest: Seq<u8>,
    failed: Option<Seq<char>>,
)
    requires
        lines.len() == requests.len(),
        forall|i: int|
            0 <= i < lines.len() ==> is_line(#[trigger] lines[i]) && mds_request(lines[i]) == Ok::<
                _,
                ParseErrorView,
            >(requests[i]),
    ensures
        mdsc(encode_utf8(lines.flatten()) + rest, failed) == after(requests, mdsc(rest, failed)),
    decreases lines.len(),
{
    let all = encode_utf8(lines.flatten()) + rest;
    if lines.len() == 0 {
        assert(all =~= rest);
        if let Ok(more) = mdsc(rest, failed) {
            assert(requests + more =~= more);
        }
    } else {
        let line = lines[0];
        let later = lines.drop_first();
        let tail = encode_utf8(later.flatten()) + rest;
        lemma_encode_concat(line, later.flatten());
        assert(all =~= encode_utf8(line) + tail);
        lemma_mds_line(line, requests[0], tail, failed);
        assert forall|i: int| 0 <= i < later.len() implies is_line(#[trigger] later[i])
            && mds_request(later[i]) == Ok::<_, ParseErrorView>(requests.drop_first()[i]) by {
            assert(later[i] == lines[i + 1]);
        }
        law_mds_lines(later, requests.drop_first(), rest, failed);
        if let Ok(more) = mdsc(rest, failed) {
            assert(seq![requests[0]] + (requests.drop_first() + more) =~= requests + more);
        }
    }
}

/// A file of lines that list requests, read to its end, gives back those requests.
pub proof fn law_mdsc_reads_back(lines: Seq<Seq<char>>, requests: Seq<MdsRequestView>)
    requires
        lines.len() == requests.len(),
        forall|i: int|
            0 <= i < lines.len() ==> is_line(#[trigger] lines[i]) && mds_request(lines[i]) == Ok::<
                _,
                ParseErrorView,
            >(requests[i]),
    ensures
        mdsc(encode_utf8(lines.flatten()), None) == Ok::<_, ParseErrorView>(requests),
{
    let nothing = Seq::<u8>::empty();
    law_mds_lines(lines, requests, nothing, None);
    assert(encode_utf8(lines.flatten()) + nothing =~= encode_utf8(lines.flatten()));
    assert(mdsc(nothing, None) == Ok::<Seq<MdsRequestView>, ParseErrorView>(seq![]));
    assert(requests + Seq::<MdsRequestView>::empty() =~= requests);
}

/// The last line of a file needs no newline.
pub proof fn law_mdsc_end_needs_no_newline(
    lines: Seq<Seq<char>>,
    requests: Seq<MdsRequestView>,
    last: Seq<char>,
    request: MdsRequestView,
)
    requires
        lines.len() == requests.len(),
        forall|i: int|
            0 <= i < lines.len() ==> is_line(#[trigger] lines[i]) && mds_request(lines[i]) == Ok::<
                _,
                ParseErrorView,
            >(requests[i]),
        forall|i: int| 0 <= i < last.len() ==> #[trigger] last[i] != '\n',
        mds_request(last) == Ok::<_, ParseErrorView>(request),
    ensures
        mdsc(encode_utf8(lines.flatten() + last), None) == Ok::<_, ParseErrorView>(
            requests.push(request),
        ),
{
    let ending = encode_utf8(last);
    let nothing = Seq::<u8>::empty();
    lemma_encode_concat(lines.flatten(), last);
    law_last_line_reads_back(last);
    law_mds_groups_exist(last);
    let parts = choose|parts: MdsLine| #[trigger] parts.opens(last);
    assert(parts.tid.len() > 0);
    assert(ending.skip(line_length(ending) as int) =~= nothing);
    assert(mdsc(nothing, None) == Ok::<Seq<MdsRequestView>, ParseErrorView>(seq![]));
    assert(seq![request] + Seq::<MdsRequestView>::empty() =~= seq![request]);
    law_mds_lines(lines, requests, ending, None);
    assert(requests + seq![request] =~= requests.push(request));
}

/// The numbers of a request are what the digits in its line are worth, and its operation is what
/// stands there; where a number does not fit its field, that is what is wrong.
pub proof fn law_mds_request(parts: MdsLine, line: Seq<char>)
    requires
        parts.opens_longest(line),
    ensures
        match mds_request(line) {
            Ok(request) => {
                &&& request.tid == number_value(parts.tid)
                &&& request.op == parts.op
                &&& request.target is Some <==> parts.target is Some
                &&& request.target is Some ==> request.target->0 == number_value(parts.target->0)
            },
            Err(error) => {
                &&& error is InvalidField
                &&& number_value(parts.tid) > u64::MAX || parts.target is Some && number_value(
                    parts.target->0,
                ) > u32::MAX
            },
        },
{
    law_mds_groups(parts, line);
    law_unsigned(parts.tid, u64::MAX as nat);
    if parts.target is Some {
        law_unsigned(parts.target->0, u32::MAX as nat);
    }
}

/// A line that no parts open is refused, and shown whole.
pub proof fn law_mds_line_refused(line: Seq<char>)
    requires
        forall|parts: MdsLine| !#[trigger] parts.opens(line),
    ensures
        mds_request(line) == Err::<MdsRequestView, _>(ParseErrorView::InvalidRequestLine(line)),
{
    law_mds_groups_exist(line);
}

/// What becomes of the lines of a file: whole lines that list requests, as many as there are, and
/// then what tells the outcome. That is the end of the file, be it behind one more request
/// without a newline; or a line that cannot be read or lists no request.
pub proof fn law_mds_outcome(rest: Seq<u8>, failed: Option<Seq<char>>) -> (reading: (
    Seq<Seq<char>>,
    Seq<MdsRequestView>,
    Seq<u8>,
))
    ensures
        ({
            let (lines, requests, tail) = reading;
            let outcome = mdsc(rest, failed);
            &&& lines.len() == requests.len()
            &&& forall|i: int| #![trigger lines[i]]
                0 <= i < lines.len() ==> {
                    &&& lines[i].len() > 0 && lines[i].last() == '\n'
                    &&& !lines[i].drop_last().contains('\n')
                    &&& mds_request(lines[i]) == Ok::<_, ParseErrorView>(requests[i])
                }
            &&& rest == encode_utf8(lines.flatten()) + tail
            &&& match next_line(tail, failed) {
                Err(error) => outcome == Err::<Seq<MdsRequestView>, _>(error),
                Ok(line) => if tail.len() == 0 {
                    outcome == Ok::<_, ParseErrorView>(requests)
                } else {
                    match mds_request(line) {
                        Err(error) => outcome == Err::<Seq<MdsRequestView>, _>(error),
                        Ok(request) => !tail.contains(10) && outcome == Ok::<_, ParseErrorView>(
                            requests.push(request),
                        ),
                    }
                },
            }
        }),
    decreases rest.len(),
{
    let nothing = Seq::<u8>::empty();
    let none = Seq::<Seq<char>>::empty();
    let n = lemma_newline_found(rest);
    law_next_line(rest, failed, n);
    lemma_line_length(rest);
    assert(none.flatten() =~= seq![]);
    assert(rest =~= encode_utf8(none.flatten()) + rest);
    match next_line(rest, failed) {
        Ok(line) if rest.len() > 0 && mds_request(line) is Ok => {
            let request = mds_request(line)->Ok_0;
            let length = line_length(rest) as int;
            if n < rest.len() {
                let (later, requests, tail) = law_mds_outcome(rest.skip(length), failed);
                let lines = seq![line] + later;
                lemma_is_line(line);
                lemma_encode_concat(line, later.flatten());
                assert(lines.drop_first() =~= later);
                assert(lines.flatten() =~= line + later.flatten());
                assert(rest =~= rest.take(length) + rest.skip(length));
                assert(rest =~= encode_utf8(lines.flatten()) + tail);
                if let Ok(last) = next_line(tail, failed) {
                    if let Ok(last) = mds_request(last) {
                        assert((seq![request] + requests).push(last) =~= seq![request]
                            + requests.push(last));
                    }
                }
                (lines, seq![request] + requests, tail)
            } else {
                assert(rest.skip(length) =~= nothing);
                assert(mdsc(nothing, None) == Ok::<Seq<MdsRequestView>, ParseErrorView>(seq![]));
                assert(seq![request] + Seq::<MdsRequestView>::empty() =~= Seq::<
                    MdsRequestView,
                >::empty().push(request));
                (none, seq![], rest)
            }
        },
        _ => (none, seq![], rest),
    }
}

/// A list holds its requests as they are.
pub proof fn law_mdsc_view(list: Mdsc)
    ensures
        list@.len() == list.requests@.len(),
        forall|i: int|
            0 <= i < list@.len() ==> (#[trigger] list@[i]).tid == list.requests@[i].tid
                && list@[i].op == list.requests@[i].op@ && list@[i].target
                == list.requests@[i].target,
{
}

/// Takes apart a line.
fn parse_line(expression: &regex::Regex, line: &str) -> (request: Result<MdsRequest, ParseError>)
    requires
        *expression == compiled(MDS_REQUEST@),
    ensures
        match mds_request(line@) {
            Ok(expected) => request is Ok && request->Ok_0@ == expected,
            Err(error) => request is Err && request->Err_0@ == error,
        },
{
    match capture(expression, line, "tid", "target", "op") {
        None => {
            proof {
                law_mds_groups_exist(line@);
            }
            Err(ParseError::InvalidRequestLine(line.to_owned()))
        },
        Some((tid, target, op)) => {
            proof {
                let parts = choose|parts: MdsLine| #[trigger]
                    parts.opens_longest(line@) && group_text(tid) == Some(parts.tid)
                        && group_text(target) == parts.target && group_text(op) == Some(parts.op);
                law_mds_groups(parts, line@);
            }
            let tid: u64 = get_num_from_regex(tid, u64::MAX)?;
            let op: String = op.unwrap();
            let target: Option<u32> = match target {
                Some(group) => Some(get_num_from_regex(Some(group), u32::MAX as u64)? as u32),
                None => None,
            };
            Ok(MdsRequest { tid, op, target })
        },
    }
}

/// Reads the requests that an `mdsc` file lists.
pub fn parse_mdsc(file: &FileText) -> (parsed: Result<Mdsc, ParseError>)
    ensures
        match mdsc(file.bytes@, file.failed()) {
            Ok(requests) => parsed is Ok && parsed->Ok_0@ == requests,
            Err(error) => parsed is Err && parsed->Err_0@ == error,
        },
{
    let mut list = Mdsc { requests: Vec::new() };
    let expression = compile(MDS_REQUEST);
    let mut pos: usize = 0;
    proof {
        assert(file.bytes@.skip(0) =~= file.bytes@);
        if let Ok(all) = mdsc(file.bytes@, file.failed()) {
            assert(list@ + all =~= all);
        }
    }
    loop
        invariant
            pos <= file.bytes@.len(),
            expression == compiled(MDS_REQUEST@),
            mdsc(file.bytes@, file.failed()) == after(
                list@,
                mdsc(file.bytes@.skip(pos as int), file.failed()),
            ),
        ensures
            mdsc(file.bytes@, file.failed()) == Ok::<_, ParseErrorView>(list@),
        decreases file.bytes@.len() - pos,
    {
        let ghost rest = file.bytes@.skip(pos as int);
        let ghost listed = list@;
        proof {
            lemma_line_length(rest);
        }
        let (line, next) = read_line(file, pos)?;
        if next == pos {
            assert(list@ + Seq::<MdsRequestView>::empty() =~= list@);
            break;
        }
        list.requests.push(parse_line(&expression, line)?);
        proof {
            let later = file.bytes@.skip(next as int);
            assert(rest.skip(line_length(rest) as int) =~= later);
            if let Ok(more) = mdsc(later, file.failed()) {
                assert(listed + (seq![list@.last()] + more) =~= list@ + more);
            }
        }
        pos = next;
    }
    Ok(list)
}

} // verus!

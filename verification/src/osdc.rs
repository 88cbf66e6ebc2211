//! The requests to OSDs that `osdc` lists.

use crate::errors::{ParseError, ParseErrorView};
use crate::numbers::{
    decimal, get_num_from_regex, law_decimal_reads_back, law_unsigned, number_value, unsigned,
};
use crate::patterns::{
    capture, compile, compiled, group_text, law_osd_groups, law_osd_groups_exist, osd_groups,
    OsdLine, OSD_REQUEST,
};
use crate::reading::{
    after, is_line, law_last_line_reads_back, law_line_reads_back, law_next_line,
    lemma_encode_concat, lemma_is_line, lemma_line_length, lemma_newline_found, line_length,
    next_line, read_line, FileText,
};
use crate::text::starts_with;
use vstd::prelude::*;
use vstd::utf8::encode_utf8;

verus! {

/// The requests of one client.
#[derive(Debug, PartialEq, Eq)]
pub struct Osdc {
    pub requests: Vec<OsdRequest>,
}

/// A request to an OSD.
#[derive(Debug, PartialEq, Eq)]
pub struct OsdRequest {
    pub tid: u64,
    pub pool: u32,
    pub target: u32,
}

impl View for Osdc {
    type V = Seq<OsdRequest>;

    open spec fn view(&self) -> Seq<OsdRequest> {
        self.requests@
    }
}

/// The request that a line lists, or why it lists none.
pub open spec fn osd_request(line: Seq<char>) -> Result<OsdRequest, ParseErrorView> {
    match osd_groups(line) {
        None => Err(ParseErrorView::InvalidRequestLine(line)),
        Some((tid, target, pool)) => match (
            unsigned(tid, u64::MAX as nat),
            unsigned(pool, u32::MAX as nat),
            unsigned(target, u32::MAX as nat),
        ) {
            (Some(tid), Some(pool), Some(target)) => Ok(
                OsdRequest { tid: tid as u64, pool: pool as u32, target: target as u32 },
            ),
            _ => Err(ParseErrorView::InvalidField),
        },
    }
}

/// The requests that the lines of `rest` list, up to the line that ends them.
pub open spec fn osd_requests(rest: Seq<u8>, failed: Option<Seq<char>>) -> Result<
    Seq<OsdRequest>,
    ParseErrorView,
>
    decreases rest.len(),
{
    match next_line(rest, failed) {
        Err(error) => Err(error),
        Ok(line) => if "LINGER REQUESTS"@.is_prefix_of(line) {
            Ok(seq![])
        } else if rest.len() == 0 {
            Err(ParseErrorView::InvalidRequestLine(line))
        } else {
            match osd_request(line) {
                Err(error) => Err(error),
                Ok(request) => {
                    proof {
                        lemma_line_length(rest);
                    }
                    match osd_requests(rest.skip(line_length(rest) as int), failed) {
                        Err(error) => Err(error),
                        Ok(requests) => Ok(seq![request] + requests),
                    }
                },
            }
        },
    }
}

/// The requests that an `osdc` file lists between its header and the line that ends them.
pub open spec fn osdc(bytes: Seq<u8>, failed: Option<Seq<char>>) -> Result<
    Seq<OsdRequest>,
    ParseErrorView,
> {
    match next_line(bytes, failed) {
        Err(error) => Err(error),
        Ok(line) => if !"REQUESTS "@.is_prefix_of(line) {
            Err(ParseErrorView::InvalidFirstLine)
        } else {
            osd_requests(bytes.skip(line_length(bytes) as int), failed)
        },
    }
}

/// An empty line lists no request.
proof fn lemma_empty_line()
    ensures
        osd_request(seq![]) == Err::<OsdRequest, _>(ParseErrorView::InvalidRequestLine(seq![])),
{
    law_osd_groups_exist(seq![]);
    assert forall|parts: OsdLine| !#[trigger] parts.opens(seq![]) by {
        if parts.opens(seq![]) {
            assert(parts.head().len() > 0);
        }
    }
}

/// A line that opens with the parts of a request, numbers in decimal, lists that request.
pub proof fn law_osd_request_reads_back(request: OsdRequest, parts: OsdLine, line: Seq<char>)
    requires
        parts.opens(line),
        parts.tid == decimal(request.tid as nat),
        parts.pool == decimal(request.pool as nat),
        parts.target == decimal(request.target as nat),
    ensures
        osd_request(line) == Ok::<_, ParseErrorView>(request),
{
    law_osd_groups(parts, line);
    law_decimal_reads_back(request.tid as nat);
    law_decimal_reads_back(request.pool as nat);
    law_decimal_reads_back(request.target as nat);
}

/// The line that ends the requests lists none itself.
proof fn lemma_end_lists_nothing(line: Seq<char>)
    requires
        "LINGER REQUESTS"@.is_prefix_of(line),
    ensures
        osd_request(line) is Err,
{
    reveal_strlit("LINGER REQUESTS");
    law_osd_groups_exist(line);
    assert forall|parts: OsdLine| !#[trigger] parts.opens(line) by {
        if parts.opens(line) {
            assert(line[0] == "LINGER REQUESTS"@[0]);
            assert(line[0] == (parts.head() + parts.tail())[0]);
            assert(line[0] == parts.tid[0]);
        }
    }
}

/// A line that lists a request puts it before those of the lines that follow.
proof fn lemma_osd_line(
    line: Seq<char>,
    request: OsdRequest,
    rest: Seq<u8>,
    failed: Option<Seq<char>>,
)
    requires
        is_line(line),
        osd_request(line) == Ok::<_, ParseErrorView>(request),
    ensures
        osd_requests(encode_utf8(line) + rest, failed) == after(
            seq![request],
            osd_requests(rest, failed),
        ),
{
    let all = encode_utf8(line) + rest;
    law_line_reads_back(line, rest, failed);
    if "LINGER REQUESTS"@.is_prefix_of(line) {
        lemma_end_lists_nothing(line);
    }
    assert(all.skip(line_length(all) as int) =~= rest);
}

/// Lines that list requests are listed in their order, and what follows them is read as if it
/// stood alone.
pub proof fn law_osd_lines(
    lines: Seq<Seq<char>>,
    requests: Seq<OsdRequest>,
    rest: Seq<u8>,
    failed: Option<Seq<char>>,
)
    requires
        lines.len() == requests.len(),
        forall|i: int|
            0 <= i < lines.len() ==> is_line(#[trigger] lines[i]) && osd_request(lines[i]) == Ok::<
                _,
                ParseErrorView,
            >(requests[i]),
    ensures
        osd_requests(encode_utf8(lines.flatten()) + rest, failed) == after(
            requests,
            osd_requests(rest, failed),
        ),
    decreases lines.len(),
{
    let all = encode_utf8(lines.flatten()) + rest;
    if lines.len() == 0 {
        assert(all =~= rest);
        if let Ok(more) = osd_requests(rest, failed) {
            assert(requests + more =~= more);
        }
    } else {
        let line = lines[0];
        let later = lines.drop_first();
        let tail = encode_utf8(later.flatten()) + rest;
        lemma_encode_concat(line, later.flatten());
        assert(all =~= encode_utf8(line) + tail);
        lemma_osd_line(line, requests[0], tail, failed);
        assert forall|i: int| 0 <= i < later.len() implies is_line(#[trigger] later[i])
            && osd_request(later[i]) == Ok::<_, ParseErrorView>(requests.drop_first()[i]) by {
            assert(later[i] == lines[i + 1]);
        }
        law_osd_lines(later, requests.drop_first(), rest, failed);
        if let Ok(more) = osd_requests(rest, failed) {
            assert(seq![requests[0]] + (requests.drop_first() + more) =~= requests + more);
        }
    }
}

/// A file with a header, lines that list requests and a line that ends them gives back those
/// requests, whatever bytes follow and whether or not reading breaks off among them.
pub proof fn law_osdc_reads_back(
    header: Seq<char>,
    lines: Seq<Seq<char>>,
    requests: Seq<OsdRequest>,
    end: Seq<char>,
    rest: Seq<u8>,
    failed: Option<Seq<char>>,
)
    requires
        is_line(header),
        "REQUESTS "@.is_prefix_of(header),
        lines.len() == requests.len(),
        forall|i: int|
            0 <= i < lines.len() ==> is_line(#[trigger] lines[i]) && osd_request(lines[i]) == Ok::<
                _,
                ParseErrorView,
            >(requests[i]),
        is_line(end),
        "LINGER REQUESTS"@.is_prefix_of(end),
    ensures
        osdc(encode_utf8(header + lines.flatten() + end) + rest, failed) == Ok::<
            _,
            ParseErrorView,
        >(requests),
{
    let all = encode_utf8(header + lines.flatten() + end) + rest;
    let ending = encode_utf8(end) + rest;
    let listing = encode_utf8(lines.flatten()) + ending;
    lemma_encode_concat(header + lines.flatten(), end);
    lemma_encode_concat(header, lines.flatten());
    assert(all =~= encode_utf8(header) + listing);
    law_line_reads_back(header, listing, failed);
    assert(all.skip(line_length(all) as int) =~= listing);
    law_line_reads_back(end, rest, failed);
    law_osd_lines(lines, requests, ending, failed);
    assert(requests + Seq::<OsdRequest>::empty() =~= requests);
}

/// The line that ends the requests needs no newline at the end of a file.
pub proof fn law_osdc_end_needs_no_newline(
    header: Seq<char>,
    lines: Seq<Seq<char>>,
    requests: Seq<OsdRequest>,
    end: Seq<char>,
)
    requires
        is_line(header),
        "REQUESTS "@.is_prefix_of(header),
        lines.len() == requests.len(),
        forall|i: int|
            0 <= i < lines.len() ==> is_line(#[trigger] lines[i]) && osd_request(lines[i]) == Ok::<
                _,
                ParseErrorView,
            >(requests[i]),
        forall|i: int| 0 <= i < end.len() ==> #[trigger] end[i] != '\n',
        "LINGER REQUESTS"@.is_prefix_of(end),
    ensures
        osdc(encode_utf8(header + lines.flatten() + end), None) == Ok::<_, ParseErrorView>(
            requests,
        ),
{
    let all = encode_utf8(header + lines.flatten() + end);
    let ending = encode_utf8(end);
    let listing = encode_utf8(lines.flatten()) + ending;
    lemma_encode_concat(header + lines.flatten(), end);
    lemma_encode_concat(header, lines.flatten());
    assert(all =~= encode_utf8(header) + listing);
    law_line_reads_back(header, listing, None);
    assert(all.skip(line_length(all) as int) =~= listing);
    law_last_line_reads_back(end);
    law_osd_lines(lines, requests, ending, None);
    assert(requests + Seq::<OsdRequest>::empty() =~= requests);
}

/// A file that ends before the line that ends the requests is refused, however many it lists.
pub proof fn law_osdc_needs_end(
    header: Seq<char>,
    lines: Seq<Seq<char>>,
    requests: Seq<OsdRequest>,
)
    requires
        is_line(header),
        "REQUESTS "@.is_prefix_of(header),
        lines.len() == requests.len(),
        forall|i: int|
            0 <= i < lines.len() ==> is_line(#[trigger] lines[i]) && osd_request(lines[i]) == Ok::<
                _,
                ParseErrorView,
            >(requests[i]),
    ensures
        osdc(encode_utf8(header + lines.flatten()), None) == Err::<Seq<OsdRequest>, _>(
            ParseErrorView::InvalidRequestLine(seq![]),
        ),
{
    let all = encode_utf8(header + lines.flatten());
    let nothing = Seq::<u8>::empty();
    let listing = encode_utf8(lines.flatten()) + nothing;
    lemma_encode_concat(header, lines.flatten());
    assert(all =~= encode_utf8(header) + listing);
    law_line_reads_back(header, listing, None);
    assert(all.skip(line_length(all) as int) =~= listing);
    law_osd_lines(lines, requests, nothing, None);
    reveal_strlit("LINGER REQUESTS");
    assert(next_line(nothing, None) == Ok::<Seq<char>, ParseErrorView>(seq![]));
}

/// The numbers of a request are what the digits in its line are worth; where one does not fit its
/// field, that is what is wrong.
pub proof fn law_osd_request(parts: OsdLine, line: Seq<char>)
    requires
        parts.opens(line),
    ensures
        match osd_request(line) {
            Ok(request) => {
                &&& request.tid == number_value(parts.tid)
                &&& request.pool == number_value(parts.pool)
                &&& request.target == number_value(parts.target)
            },
            Err(error) => {
                &&& error is InvalidField
                &&& number_value(parts.tid) > u64::MAX || number_value(parts.pool) > u32::MAX
                    || number_value(parts.target) > u32::MAX
            },
        },
{
    law_osd_groups(parts, line);
    law_unsigned(parts.tid, u64::MAX as nat);
    law_unsigned(parts.pool, u32::MAX as nat);
    law_unsigned(parts.target, u32::MAX as nat);
}

/// A line that no parts open is refused, and shown whole.
pub proof fn law_osd_line_refused(line: Seq<char>)
    requires
        forall|parts: OsdLine| !#[trigger] parts.opens(line),
    ensures
        osd_request(line) == Err::<OsdRequest, _>(ParseErrorView::InvalidRequestLine(line)),
{
    law_osd_groups_exist(line);
}

/// What becomes of the lines behind the header: whole lines that list requests, as many as there
/// are, and then what tells the outcome. That is the line that ends the requests; or a line that
/// cannot be read or lists no request; or the end of the file, be it behind one more request
/// without a newline.
pub proof fn law_osd_outcome(rest: Seq<u8>, failed: Option<Seq<char>>) -> (reading: (
    Seq<Seq<char>>,
    Seq<OsdRequest>,
    Seq<u8>,
))
    ensures
        ({
            let (lines, requests, tail) = reading;
            let outcome = osd_requests(rest, failed);
            &&& lines.len() == requests.len()
            &&& forall|i: int| #![trigger lines[i]]
                0 <= i < lines.len() ==> {
                    &&& lines[i].len() > 0 && lines[i].last() == '\n'
                    &&& !lines[i].drop_last().contains('\n')
                    &&& !"LINGER REQUESTS"@.is_prefix_of(lines[i])
                    &&& osd_request(lines[i]) == Ok::<_, ParseErrorView>(requests[i])
                }
            &&& rest == encode_utf8(lines.flatten()) + tail
            &&& match next_line(tail, failed) {
                Err(error) => outcome == Err::<Seq<OsdRequest>, _>(error),
                Ok(line) => if "LINGER REQUESTS"@.is_prefix_of(line) {
                    outcome == Ok::<_, ParseErrorView>(requests)
                } else {
                    match osd_request(line) {
                        Err(error) => outcome == Err::<Seq<OsdRequest>, _>(error),
                        Ok(_) => !tail.contains(10) && outcome == Err::<Seq<OsdRequest>, _>(
                            ParseErrorView::InvalidRequestLine(seq![]),
                        ),
                    }
                },
            }
        }),
    decreases rest.len(),
{
    let nothing = Seq::<u8>::empty();
    let none = Seq::<Seq<char>>::empty();
    let n = lemma_newline_found(rest);
    law_next_line(rest, failed, n);
    lemma_empty_line();
    lemma_line_length(rest);
    assert(none.flatten() =~= seq![]);
    assert(rest =~= encode_utf8(none.flatten()) + rest);
    match next_line(rest, failed) {
        Ok(line) if !"LINGER REQUESTS"@.is_prefix_of(line) && osd_request(line) is Ok => {
            let length = line_length(rest) as int;
            if n < rest.len() {
                let (later, requests, tail) = law_osd_outcome(rest.skip(length), failed);
                let lines = seq![line] + later;
                lemma_is_line(line);
                lemma_encode_concat(line, later.flatten());
                assert(lines.drop_first() =~= later);
                assert(lines.flatten() =~= line + later.flatten());
                assert(rest =~= rest.take(length) + rest.skip(length));
                assert(rest =~= encode_utf8(lines.flatten()) + tail);
                (lines, seq![osd_request(line)->Ok_0] + requests, tail)
            } else {
                assert(rest.len() > 0);
                assert(rest.skip(length) =~= nothing);
                law_next_line(nothing, failed, 0);
                assert(next_line(nothing, None) == Ok::<Seq<char>, ParseErrorView>(seq![]));
                reveal_strlit("LINGER REQUESTS");
                (none, seq![], rest)
            }
        },
        _ => (none, seq![], rest),
    }
}

/// A file opens with its header; the lines behind it tell the rest.
pub proof fn law_osdc_header(bytes: Seq<u8>, failed: Option<Seq<char>>)
    ensures
        match next_line(bytes, failed) {
            Err(error) => osdc(bytes, failed) == Err::<Seq<OsdRequest>, _>(error),
            Ok(header) => if "REQUESTS "@.is_prefix_of(header) {
                &&& encode_utf8(header).is_prefix_of(bytes)
                &&& osdc(bytes, failed) == osd_requests(
                    bytes.skip(encode_utf8(header).len() as int),
                    failed,
                )
            } else {
                osdc(bytes, failed) == Err::<Seq<OsdRequest>, _>(ParseErrorView::InvalidFirstLine)
            },
        },
{
    let n = lemma_newline_found(bytes);
    law_next_line(bytes, failed, n);
}

/// A list holds its requests as they are.
pub proof fn law_osdc_view(list: Osdc)
    ensures
        list@.len() == list.requests@.len(),
        forall|i: int| 0 <= i < list@.len() ==> #[trigger] list@[i] == list.requests@[i],
{
}

/// Takes apart a line that lists a request.
fn parse_line(expression: &regex::Regex, line: &str) -> (request: Result<OsdRequest, ParseError>)
    requires
        *expression == compiled(OSD_REQUEST@),
    ensures
        match osd_request(line@) {
            Ok(expected) => request == Ok::<OsdRequest, ParseError>(expected),
            Err(error) => request is Err && request->Err_0@ == error,
        },
{
    match capture(expression, line, "tid", "target", "pool") {
        None => {
            proof {
                law_osd_groups_exist(line@);
            }
            Err(ParseError::InvalidRequestLine(line.to_owned()))
        },
        Some((tid, target, pool)) => {
            proof {
                let parts = choose|parts: OsdLine| #[trigger]
                    parts.opens(line@) && group_text(tid) == Some(parts.tid)
                        && group_text(target) == Some(parts.target)
                        && group_text(pool) == Some(parts.pool);
                law_osd_groups(parts, line@);
            }
            let tid: u64 = get_num_from_regex(tid, u64::MAX)?;
            let pool: u64 = get_num_from_regex(pool, u32::MAX as u64)?;
            let target: u64 = get_num_from_regex(target, u32::MAX as u64)?;
            Ok(OsdRequest { tid, pool: pool as u32, target: target as u32 })
        },
    }
}

/// Reads the requests that an `osdc` file lists.
pub fn parse_osdc(file: &FileText) -> (parsed: Result<Osdc, ParseError>)
    ensures
        match osdc(file.bytes@, file.failed()) {
            Ok(requests) => parsed is Ok && parsed->Ok_0@ == requests,
            Err(error) => parsed is Err && parsed->Err_0@ == error,
        },
{
    let mut list = Osdc { requests: Vec::new() };
    assert(file.bytes@.skip(0) =~= file.bytes@);
    let (line, next) = read_line(file, 0)?;
    if !starts_with(line, "REQUESTS ") {
        return Err(ParseError::InvalidFirstLine);
    }
    let expression = compile(OSD_REQUEST);
    let mut pos: usize = next;
    proof {
        lemma_line_length(file.bytes@);
    }
    loop
        invariant
            pos <= file.bytes@.len(),
            expression == compiled(OSD_REQUEST@),
            osdc(file.bytes@, file.failed()) == after(
                list@,
                osd_requests(file.bytes@.skip(pos as int), file.failed()),
            ),
        ensures
            osdc(file.bytes@, file.failed()) == Ok::<_, ParseErrorView>(list@),
        decreases file.bytes@.len() - pos,
    {
        let ghost rest = file.bytes@.skip(pos as int);
        let ghost listed = list@;
        proof {
            lemma_line_length(rest);
            lemma_empty_line();
        }
        let (line, next) = read_line(file, pos)?;
        if starts_with(line, "LINGER REQUESTS") {
            break;
        }
        list.requests.push(parse_line(&expression, line)?);
        proof {
            let later = file.bytes@.skip(next as int);
            assert(rest.skip(line_length(rest) as int) =~= later);
            if let Ok(more) = osd_requests(later, file.failed()) {
                assert(listed + (seq![list@.last()] + more) =~= list@ + more);
            }
        }
        pos = next;
    }
    Ok(list)
}

} // verus!

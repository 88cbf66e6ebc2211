//! Bringing the waiting requests up to date with what the clients list.

use crate::errors::{ParseError, ParseErrorView};
use crate::mdsc::{mdsc, parse_mdsc, MdsRequestView};
use crate::osdc::{osdc, parse_osdc, OsdRequest};
use crate::reading::{first_line, FileText};
use crate::tracking::{
    law_longest_time, law_next_round, law_order_is_free, longest_wait, newcomers_have_one_target,
    next_round, track, PromData,
};
use vstd::prelude::*;
use vstd::string::StringExecFns;

verus! {

/// How opening and reading a file went.
pub enum FileRead {
    /// There is no such file; this is what the system said.
    NotFound(String),
    /// The file could not be opened; this is what the system said.
    Failed(String),
    /// This could be read of it.
    Text(FileText),
}

/// The files of a client.
pub struct ClientFiles {
    pub osdc: FileRead,
    pub mdsc: FileRead,
}

/// How reading a directory entry went.
pub enum EntryRead {
    /// The directory could not be read any further; this is what the system said.
    Failed(String),
    /// The entry is a client with these files.
    Client(ClientFiles),
}

/// How reading the directory of clients went.
pub enum DirRead {
    /// There is no such directory; this is what the system said.
    NotFound(String),
    /// The directory could not be read; this is what the system said.
    Failed(String),
    /// It has these entries.
    Entries(Vec<EntryRead>),
}

/// Why an update had to be given up.
#[derive(Debug, PartialEq, Eq)]
pub enum UpdateError {
    /// The directory of clients could not be read.
    Directory(String),
    /// The `osdc` file of a client could not be opened.
    OpenOsdc(String),
    /// The `osdc` file of a client could not be understood.
    ParseOsdc(ParseError),
    /// The `mdsc` file of a client could not be opened.
    OpenMdsc(String),
    /// The `mdsc` file of a client could not be understood.
    ParseMdsc(ParseError),
}

/// An [`UpdateError`] with its text as a sequence of characters.
pub enum UpdateErrorView {
    Directory(Seq<char>),
    OpenOsdc(Seq<char>),
    ParseOsdc(ParseErrorView),
    OpenMdsc(Seq<char>),
    ParseMdsc(ParseErrorView),
}

impl View for UpdateError {
    type V = UpdateErrorView;

    open spec fn view(&self) -> UpdateErrorView {
        match self {
            UpdateError::Directory(reason) => UpdateErrorView::Directory(reason@),
            UpdateError::OpenOsdc(reason) => UpdateErrorView::OpenOsdc(reason@),
            UpdateError::ParseOsdc(error) => UpdateErrorView::ParseOsdc(error@),
            UpdateError::OpenMdsc(reason) => UpdateErrorView::OpenMdsc(reason@),
            UpdateError::ParseMdsc(error) => UpdateErrorView::ParseMdsc(error@),
        }
    }
}

impl UpdateErrorView {
    /// The sentence that describes the error.
    pub open spec fn text(self) -> Seq<char> {
        match self {
            UpdateErrorView::Directory(reason) => "Error reading debug filesystem: "@ + reason,
            UpdateErrorView::OpenOsdc(reason) => "Error opening osdc on debug filesystem: "@
                + reason,
            UpdateErrorView::ParseOsdc(error) => "Error parsing osdc on debug filesystem: "@
                + error.text(),
            UpdateErrorView::OpenMdsc(reason) => "Error opening mdsc on debug filesystem: "@
                + reason,
            UpdateErrorView::ParseMdsc(error) => "Error parsing mdsc on debug filesystem: "@
                + error.text(),
        }
    }
}

impl UpdateError {
    /// The sentence that describes the error.
    pub fn message(&self) -> (message: String)
        ensures
            message@ == self@.text(),
    {
        match self {
            UpdateError::Directory(reason) => {
                "Error reading debug filesystem: ".to_owned().concat(reason.as_str())
            },
            UpdateError::OpenOsdc(reason) => {
                "Error opening osdc on debug filesystem: ".to_owned().concat(reason.as_str())
            },
            UpdateError::ParseOsdc(error) => {
                let reason: String = error.message();
                "Error parsing osdc on debug filesystem: ".to_owned().concat(reason.as_str())
            },
            UpdateError::OpenMdsc(reason) => {
                "Error opening mdsc on debug filesystem: ".to_owned().concat(reason.as_str())
            },
            UpdateError::ParseMdsc(error) => {
                let reason: String = error.message();
                "Error parsing mdsc on debug filesystem: ".to_owned().concat(reason.as_str())
            },
        }
    }
}

/// The longest that any request has been waiting.
#[derive(Debug, Clone, Copy, PartialEq, Eq)]
pub struct Longest {
    pub osd: u64,
    pub mds: u64,
}

/// The requests that clients list, each with its target.
pub struct Seen {
    pub osd: Seq<(u64, u32)>,
    pub mds: Seq<(u64, Option<u32>)>,
}

/// The requests to OSDs that a client lists.
pub open spec fn osd_seen(file: FileRead) -> Result<Seq<(u64, u32)>, UpdateErrorView> {
    match file {
        FileRead::NotFound(reason) => Err(UpdateErrorView::OpenOsdc(reason@)),
        FileRead::Failed(reason) => Err(UpdateErrorView::OpenOsdc(reason@)),
        FileRead::Text(text) => match osdc(text.bytes@, text.failed()) {
            Ok(requests) => Ok(
                requests.map_values(|request: OsdRequest| (request.tid, request.target)),
            ),
            Err(error) => Err(UpdateErrorView::ParseOsdc(error)),
        },
    }
}

/// The requests to metadata servers that a client lists. It need not have the file.
pub open spec fn mds_seen(file: FileRead) -> Result<Seq<(u64, Option<u32>)>, UpdateErrorView> {
    match file {
        FileRead::NotFound(_) => Ok(seq![]),
        FileRead::Failed(reason) => Err(UpdateErrorView::OpenMdsc(reason@)),
        FileRead::Text(text) => match mdsc(text.bytes@, text.failed()) {
            Ok(requests) => Ok(
                requests.map_values(|request: MdsRequestView| (request.tid, request.target)),
            ),
            Err(error) => Err(UpdateErrorView::ParseMdsc(error)),
        },
    }
}

/// The requests that a directory entry lists.
pub open spec fn entry_seen(entry: EntryRead) -> Result<Seen, UpdateErrorView> {
    match entry {
        EntryRead::Failed(reason) => Err(UpdateErrorView::Directory(reason@)),
        EntryRead::Client(files) => match osd_seen(files.osdc) {
            Err(error) => Err(error),
            Ok(osd) => match mds_seen(files.mdsc) {
                Err(error) => Err(error),
                Ok(mds) => Ok(Seen { osd, mds }),
            },
        },
    }
}

/// The requests that the entries list, or what is wrong with the first that is not in order.
pub open spec fn all_seen(entries: Seq<EntryRead>) -> Result<Seen, UpdateErrorView>
    decreases entries.len(),
{
    if entries.len() == 0 {
        Ok(Seen { osd: seq![], mds: seq![] })
    } else {
        match all_seen(entries.drop_last()) {
            Err(error) => Err(error),
            Ok(before) => match entry_seen(entries.last()) {
                Err(error) => Err(error),
                Ok(seen) => Ok(Seen { osd: before.osd + seen.osd, mds: before.mds + seen.mds }),
            },
        }
    }
}

/// What an update has to work with: the requests that are listed, or nothing if the directory
/// may be missing and is.
pub open spec fn listed(dir: DirRead, no_ceph_ok: bool) -> Result<Option<Seen>, UpdateErrorView> {
    match dir {
        DirRead::NotFound(reason) => if no_ceph_ok {
            Ok(None)
        } else {
            Err(UpdateErrorView::Directory(reason@))
        },
        DirRead::Failed(reason) => Err(UpdateErrorView::Directory(reason@)),
        DirRead::Entries(entries) => match all_seen(entries@) {
            Ok(seen) => Ok(Some(seen)),
            Err(error) => Err(error),
        },
    }
}

/// The requests to OSDs that a client lists.
fn read_osdc(file: &FileRead) -> (read: Result<Vec<(u64, u32)>, UpdateError>)
    ensures
        match osd_seen(*file) {
            Ok(seen) => read is Ok && read->Ok_0@ == seen,
            Err(error) => read is Err && read->Err_0@ == error,
        },
{
    match file {
        FileRead::NotFound(reason) => Err(UpdateError::OpenOsdc(reason.clone())),
        FileRead::Failed(reason) => Err(UpdateError::OpenOsdc(reason.clone())),
        FileRead::Text(text) => match parse_osdc(text) {
            Err(error) => Err(UpdateError::ParseOsdc(error)),
            Ok(list) => {
                let mut seen: Vec<(u64, u32)> = Vec::new();
                let mut i: usize = 0;
                while i < list.requests.len()
                    invariant
                        i <= list.requests@.len(),
                        seen@ == list@.take(i as int).map_values(
                            |request: OsdRequest| (request.tid, request.target),
                        ),
                    decreases list.requests@.len() - i,
                {
                    let request = &list.requests[i];
                    seen.push((request.tid, request.target));
                    i = i + 1;
                }
                assert(list@.take(i as int) =~= list@);
                Ok(seen)
            },
        },
    }
}

/// The requests to metadata servers that a client lists.
fn read_mdsc(file: &FileRead) -> (read: Result<Vec<(u64, Option<u32>)>, UpdateError>)
    ensures
        match mds_seen(*file) {
            Ok(seen) => read is Ok && read->Ok_0@ == seen,
            Err(error) => read is Err && read->Err_0@ == error,
        },
{
    match file {
        FileRead::NotFound(_) => Ok(Vec::new()),
        FileRead::Failed(reason) => Err(UpdateError::OpenMdsc(reason.clone())),
        FileRead::Text(text) => match parse_mdsc(text) {
            Err(error) => Err(UpdateError::ParseMdsc(error)),
            Ok(list) => {
                let mut seen: Vec<(u64, Option<u32>)> = Vec::new();
                let mut i: usize = 0;
                while i < list.requests.len()
                    invariant
                        i <= list.requests@.len(),
                        seen@ == list@.take(i as int).map_values(
                            |request: MdsRequestView| (request.tid, request.target),
                        ),
                    decreases list.requests@.len() - i,
                {
                    let request = &list.requests[i];
                    seen.push((request.tid, request.target));
                    i = i + 1;
                }
                assert(list@.take(i as int) =~= list@);
                Ok(seen)
            },
        },
    }
}

/// The requests that the entries list: those to OSDs, and those to metadata servers.
fn read_entries(entries: &Vec<EntryRead>) -> (read: Result<
    (Vec<(u64, u32)>, Vec<(u64, Option<u32>)>),
    UpdateError,
>)
    ensures
        match all_seen(entries@) {
            Ok(seen) => read is Ok && read->Ok_0.0@ == seen.osd && read->Ok_0.1@ == seen.mds,
            Err(error) => read is Err && read->Err_0@ == error,
        },
{
    let mut osd: Vec<(u64, u32)> = Vec::new();
    let mut mds: Vec<(u64, Option<u32>)> = Vec::new();
    let mut i: usize = 0;
    while i < entries.len()
        invariant
            i <= entries@.len(),
            all_seen(entries@.take(i as int)) == Ok::<_, UpdateErrorView>(
                Seen { osd: osd@, mds: mds@ },
            ),
        decreases entries@.len() - i,
    {
        proof {
            assert(entries@.take(i + 1).drop_last() =~= entries@.take(i as int));
            lemma_first_error(entries@, i + 1);
        }
        match &entries[i] {
            EntryRead::Failed(reason) => {
                return Err(UpdateError::Directory(reason.clone()));
            },
            EntryRead::Client(files) => {
                let mut more_osd = read_osdc(&files.osdc)?;
                let mut more_mds = read_mdsc(&files.mdsc)?;
                osd.append(&mut more_osd);
                mds.append(&mut more_mds);
            },
        }
        i = i + 1;
    }
    assert(entries@.take(i as int) =~= entries@);
    Ok((osd, mds))
}

/// What is wrong with the first entries is wrong with all of them.
proof fn lemma_first_error(entries: Seq<EntryRead>, i: int)
    requires
        0 <= i <= entries.len(),
    ensures
        all_seen(entries.take(i)) is Err ==> all_seen(entries) == all_seen(entries.take(i)),
    decreases entries.len() - i,
{
    if i == entries.len() {
        assert(entries.take(i) =~= entries);
    } else {
        assert(entries.take(i + 1).drop_last() =~= entries.take(i));
        lemma_first_error(entries, i + 1);
    }
}

/// Brings the waiting requests up to date with what the clients list at `now`: the longest that
/// requests have been waiting, or nothing if there is nothing to report.
///
/// The time of the update is noted in any case. The requests are left as they are unless all
/// that is listed was understood.
pub fn update_data(data: &mut PromData, now: u64, dir: &DirRead, no_ceph_ok: bool) -> (longest:
    Result<Option<Longest>, UpdateError>)
    ensures
        final(data).updated == now,
        old(data).well_formed() && old(data).updated <= now ==> final(data).well_formed(),
        match listed(*dir, no_ceph_ok) {
            Ok(Some(seen)) => {
                &&& longest is Ok
                &&& longest->Ok_0 == Some(
                    Longest {
                        osd: longest_wait(old(data).osd_requests@, seen.osd, now),
                        mds: longest_wait(old(data).mds_requests@, seen.mds, now),
                    },
                )
                &&& final(data).osd_requests@ == next_round(
                    old(data).osd_requests@,
                    seen.osd,
                    now,
                )
                &&& final(data).mds_requests@ == next_round(
                    old(data).mds_requests@,
                    seen.mds,
                    now,
                )
            },
            Ok(None) => {
                &&& longest is Ok
                &&& longest->Ok_0 is None
                &&& final(data).osd_requests@ == old(data).osd_requests@
                &&& final(data).mds_requests@ == old(data).mds_requests@
            },
            Err(error) => {
                &&& longest is Err
                &&& longest->Err_0@ == error
                &&& final(data).osd_requests@ == old(data).osd_requests@
                &&& final(data).mds_requests@ == old(data).mds_requests@
            },
        },
{
    data.updated = now;
    let entries = match dir {
        DirRead::NotFound(reason) => {
            if no_ceph_ok {
                return Ok(None);
            }
            return Err(UpdateError::Directory(reason.clone()));
        },
        DirRead::Failed(reason) => {
            return Err(UpdateError::Directory(reason.clone()));
        },
        DirRead::Entries(entries) => entries,
    };
    let (osd, mds) = read_entries(entries)?;
    let (osd_requests, longest_osd) = track(&data.osd_requests, &osd, now);
    let (mds_requests, longest_mds) = track(&data.mds_requests, &mds, now);
    data.osd_requests = osd_requests;
    data.mds_requests = mds_requests;
    Ok(Some(Longest { osd: longest_osd, mds: longest_mds }))
}

/// If all entries are in order, so is each of them, and what it lists is listed.
proof fn lemma_entry_listed(entries: Seq<EntryRead>, i: int)
    requires
        0 <= i < entries.len(),
        all_seen(entries) is Ok,
    ensures
        entry_seen(entries[i]) is Ok,
        forall|request: (u64, u32)| #[trigger]
            entry_seen(entries[i])->Ok_0.osd.contains(request) ==> all_seen(
                entries,
            )->Ok_0.osd.contains(request),
        forall|request: (u64, Option<u32>)| #[trigger]
            entry_seen(entries[i])->Ok_0.mds.contains(request) ==> all_seen(
                entries,
            )->Ok_0.mds.contains(request),
    decreases entries.len(),
{
    broadcast use vstd::seq_lib::lemma_seq_concat_contains_all_elements;

    if i < entries.len() - 1 {
        assert(entries.drop_last()[i] == entries[i]);
        lemma_entry_listed(entries.drop_last(), i);
    }
}

/// Entries that are in order one by one are in order together.
proof fn lemma_all_in_order(entries: Seq<EntryRead>)
    requires
        forall|i: int| 0 <= i < entries.len() ==> entry_seen(#[trigger] entries[i]) is Ok,
    ensures
        all_seen(entries) is Ok,
    decreases entries.len(),
{
    if entries.len() > 0 {
        let before = entries.drop_last();
        assert forall|i: int| 0 <= i < before.len() implies entry_seen(
            #[trigger] before[i],
        ) is Ok by {
            assert(before[i] == entries[i]);
        }
        lemma_all_in_order(before);
        assert(entry_seen(entries[entries.len() - 1]) is Ok);
    }
}

/// What the entries list is listed by one of them.
proof fn lemma_listed_osd(entries: Seq<EntryRead>, request: (u64, u32)) -> (i: int)
    requires
        all_seen(entries) is Ok,
        all_seen(entries)->Ok_0.osd.contains(request),
    ensures
        0 <= i < entries.len(),
        entry_seen(entries[i])->Ok_0.osd.contains(request),
    decreases entries.len(),
{
    broadcast use vstd::seq_lib::lemma_seq_concat_contains_all_elements;

    if entry_seen(entries.last())->Ok_0.osd.contains(request) {
        entries.len() - 1
    } else {
        lemma_listed_osd(entries.drop_last(), request)
    }
}

/// What the entries list is listed by one of them.
proof fn lemma_listed_mds(entries: Seq<EntryRead>, request: (u64, Option<u32>)) -> (i: int)
    requires
        all_seen(entries) is Ok,
        all_seen(entries)->Ok_0.mds.contains(request),
    ensures
        0 <= i < entries.len(),
        entry_seen(entries[i])->Ok_0.mds.contains(request),
    decreases entries.len(),
{
    broadcast use vstd::seq_lib::lemma_seq_concat_contains_all_elements;

    if entry_seen(entries.last())->Ok_0.mds.contains(request) {
        entries.len() - 1
    } else {
        lemma_listed_mds(entries.drop_last(), request)
    }
}

/// What some of the entries list, all of them list.
proof fn lemma_fewer_entries(entries: Seq<EntryRead>, all: Seq<EntryRead>)
    requires
        forall|entry: EntryRead| #[trigger] entries.contains(entry) ==> all.contains(entry),
        all_seen(all) is Ok,
    ensures
        all_seen(entries) is Ok,
        forall|request: (u64, u32)| #[trigger]
            all_seen(entries)->Ok_0.osd.contains(request) ==> all_seen(all)->Ok_0.osd.contains(
                request,
            ),
        forall|request: (u64, Option<u32>)| #[trigger]
            all_seen(entries)->Ok_0.mds.contains(request) ==> all_seen(all)->Ok_0.mds.contains(
                request,
            ),
{
    assert forall|i: int| 0 <= i < entries.len() implies entry_seen(
        #[trigger] entries[i],
    ) is Ok by {
        assert(entries.contains(entries[i]));
        let j = choose|j: int| 0 <= j < all.len() && all[j] == entries[i];
        lemma_entry_listed(all, j);
    }
    lemma_all_in_order(entries);
    assert forall|request: (u64, u32)| #[trigger]
        all_seen(entries)->Ok_0.osd.contains(request) implies all_seen(all)->Ok_0.osd.contains(
        request,
    ) by {
        let i = lemma_listed_osd(entries, request);
        assert(entries.contains(entries[i]));
        let j = choose|j: int| 0 <= j < all.len() && all[j] == entries[i];
        lemma_entry_listed(all, j);
    }
    assert forall|request: (u64, Option<u32>)| #[trigger]
        all_seen(entries)->Ok_0.mds.contains(request) implies all_seen(all)->Ok_0.mds.contains(
        request,
    ) by {
        let i = lemma_listed_mds(entries, request);
        assert(entries.contains(entries[i]));
        let j = choose|j: int| 0 <= j < all.len() && all[j] == entries[i];
        lemma_entry_listed(all, j);
    }
}

/// Where all entries are in order, every request to an OSD that a client lists is seen, whatever
/// else the client lists.
pub proof fn law_osd_listed_is_seen(entries: Seq<EntryRead>, i: int)
    requires
        all_seen(entries) is Ok,
        0 <= i < entries.len(),
        entries[i] is Client,
        entries[i]->Client_0.osdc is Text,
    ensures
        ({
            let file = entries[i]->Client_0.osdc->Text_0;
            let list = osdc(file.bytes@, file.failed());
            &&& list is Ok
            &&& forall|j: int|
                0 <= j < list->Ok_0.len() ==> all_seen(entries)->Ok_0.osd.contains(
                    ((#[trigger] list->Ok_0[j]).tid, list->Ok_0[j].target),
                )
        }),
{
    let file = entries[i]->Client_0.osdc->Text_0;
    let list = osdc(file.bytes@, file.failed());
    lemma_entry_listed(entries, i);
    let seen = entry_seen(entries[i])->Ok_0.osd;
    assert forall|j: int| 0 <= j < list->Ok_0.len() implies all_seen(entries)->Ok_0.osd.contains(
        ((#[trigger] list->Ok_0[j]).tid, list->Ok_0[j].target),
    ) by {
        assert(seen[j] == (list->Ok_0[j].tid, list->Ok_0[j].target));
        assert(seen.contains(seen[j]));
    }
}

/// Where all entries are in order, every request to an OSD that is seen is listed by a client.
pub proof fn law_osd_seen_is_listed(entries: Seq<EntryRead>, request: (u64, u32)) -> (place: (
    int,
    int,
))
    requires
        all_seen(entries) is Ok,
        all_seen(entries)->Ok_0.osd.contains(request),
    ensures
        ({
            let (i, j) = place;
            let file = entries[i]->Client_0.osdc->Text_0;
            let list = osdc(file.bytes@, file.failed());
            &&& 0 <= i < entries.len()
            &&& entries[i] is Client && entries[i]->Client_0.osdc is Text
            &&& list is Ok && 0 <= j < list->Ok_0.len()
            &&& list->Ok_0[j].tid == request.0
            &&& list->Ok_0[j].target == request.1
        }),
{
    let i = lemma_listed_osd(entries, request);
    lemma_entry_listed(entries, i);
    let seen = entry_seen(entries[i])->Ok_0.osd;
    let j = choose|j: int| 0 <= j < seen.len() && seen[j] == request;
    (i, j)
}

/// After an update, a request to an OSD that some client lists waits. If it waited before, it is
/// not changed, and the longest wait is no less than the time since it was first seen; if it did
/// not, it waits since now.
pub proof fn law_osd_listed_waits(
    entries: Seq<EntryRead>,
    before: Map<u64, (u32, u64)>,
    now: u64,
    i: int,
    j: int,
)
    requires
        all_seen(entries) is Ok,
        0 <= i < entries.len(),
        entries[i] is Client,
        entries[i]->Client_0.osdc is Text,
        ({
            let file = entries[i]->Client_0.osdc->Text_0;
            0 <= j < osdc(file.bytes@, file.failed())->Ok_0.len()
        }),
    ensures
        ({
            let file = entries[i]->Client_0.osdc->Text_0;
            let tid = osdc(file.bytes@, file.failed())->Ok_0[j].tid;
            let seen = all_seen(entries)->Ok_0.osd;
            let after = next_round(before, seen, now);
            &&& after.contains_key(tid)
            &&& before.contains_key(tid) ==> after[tid] == before[tid]
            &&& before.contains_key(tid) ==> longest_wait(before, seen, now) >= now
                - before[tid].1
            &&& !before.contains_key(tid) ==> after[tid].1 == now
        }),
{
    let file = entries[i]->Client_0.osdc->Text_0;
    let request = osdc(file.bytes@, file.failed())->Ok_0[j];
    let seen = all_seen(entries)->Ok_0.osd;
    law_osd_listed_is_seen(entries, i);
    law_next_round(before, seen, now, request.tid);
    assert(seen.contains((request.tid, request.target)));
    let at = choose|at: int| 0 <= at < seen.len() && seen[at] == (request.tid, request.target);
    law_longest_time(before, seen, now);
    assert(before.contains_key(seen[at].0) ==> now - before[seen[at].0].1 <= longest_wait(
        before,
        seen,
        now,
    ));
}

/// Where all entries are in order, every request to a metadata server that a client lists is seen,
/// whatever else the client lists.
pub proof fn law_mds_listed_is_seen(entries: Seq<EntryRead>, i: int)
    requires
        all_seen(entries) is Ok,
        0 <= i < entries.len(),
        entries[i] is Client,
        entries[i]->Client_0.mdsc is Text,
    ensures
        ({
            let file = entries[i]->Client_0.mdsc->Text_0;
            let list = mdsc(file.bytes@, file.failed());
            &&& list is Ok
            &&& forall|j: int|
                0 <= j < list->Ok_0.len() ==> all_seen(entries)->Ok_0.mds.contains(
                    ((#[trigger] list->Ok_0[j]).tid, list->Ok_0[j].target),
                )
        }),
{
    let file = entries[i]->Client_0.mdsc->Text_0;
    let list = mdsc(file.bytes@, file.failed());
    lemma_entry_listed(entries, i);
    let seen = entry_seen(entries[i])->Ok_0.mds;
    assert forall|j: int| 0 <= j < list->Ok_0.len() implies all_seen(entries)->Ok_0.mds.contains(
        ((#[trigger] list->Ok_0[j]).tid, list->Ok_0[j].target),
    ) by {
        assert(seen[j] == (list->Ok_0[j].tid, list->Ok_0[j].target));
        assert(seen.contains(seen[j]));
    }
}

/// Where all entries are in order, every request to a metadata server that is seen is listed by a
/// client.
pub proof fn law_mds_seen_is_listed(
    entries: Seq<EntryRead>,
    request: (u64, Option<u32>),
) -> (place: (int, int))
    requires
        all_seen(entries) is Ok,
        all_seen(entries)->Ok_0.mds.contains(request),
    ensures
        ({
            let (i, j) = place;
            let file = entries[i]->Client_0.mdsc->Text_0;
            let list = mdsc(file.bytes@, file.failed());
            &&& 0 <= i < entries.len()
            &&& entries[i] is Client && entries[i]->Client_0.mdsc is Text
            &&& list is Ok && 0 <= j < list->Ok_0.len()
            &&& list->Ok_0[j].tid == request.0
            &&& list->Ok_0[j].target == request.1
        }),
{
    let i = lemma_listed_mds(entries, request);
    lemma_entry_listed(entries, i);
    let seen = entry_seen(entries[i])->Ok_0.mds;
    let j = choose|j: int| 0 <= j < seen.len() && seen[j] == request;
    (i, j)
}

/// After an update, a request to a metadata server that some client lists waits. If it waited
/// before, it is not changed, and the longest wait is no less than the time since it was first
/// seen; if it did not, it waits since now.
pub proof fn law_mds_listed_waits(
    entries: Seq<EntryRead>,
    before: Map<u64, (Option<u32>, u64)>,
    now: u64,
    i: int,
    j: int,
)
    requires
        all_seen(entries) is Ok,
        0 <= i < entries.len(),
        entries[i] is Client,
        entries[i]->Client_0.mdsc is Text,
        ({
            let file = entries[i]->Client_0.mdsc->Text_0;
            0 <= j < mdsc(file.bytes@, file.failed())->Ok_0.len()
        }),
    ensures
        ({
            let file = entries[i]->Client_0.mdsc->Text_0;
            let tid = mdsc(file.bytes@, file.failed())->Ok_0[j].tid;
            let seen = all_seen(entries)->Ok_0.mds;
            let after = next_round(before, seen, now);
            &&& after.contains_key(tid)
            &&& before.contains_key(tid) ==> after[tid] == before[tid]
            &&& before.contains_key(tid) ==> longest_wait(before, seen, now) >= now
                - before[tid].1
            &&& !before.contains_key(tid) ==> after[tid].1 == now
        }),
{
    let file = entries[i]->Client_0.mdsc->Text_0;
    let request = mdsc(file.bytes@, file.failed())->Ok_0[j];
    let seen = all_seen(entries)->Ok_0.mds;
    law_mds_listed_is_seen(entries, i);
    law_next_round(before, seen, now, request.tid);
    assert(seen.contains((request.tid, request.target)));
    let at = choose|at: int| 0 <= at < seen.len() && seen[at] == (request.tid, request.target);
    law_longest_time(before, seen, now);
    assert(before.contains_key(seen[at].0) ==> now - before[seen[at].0].1 <= longest_wait(
        before,
        seen,
        now,
    ));
}

/// Where all entries are in order, each is a client with a list of requests to OSDs and, unless
/// that is missing, one of requests to metadata servers. What is seen are their requests, client by
/// client and line by line.
pub proof fn law_seen_in_order(entries: Seq<EntryRead>)
    requires
        all_seen(entries) is Ok,
    ensures
        forall|i: int| #![trigger entries[i]]
            0 <= i < entries.len() ==> entries[i] is Client && entries[i]->Client_0.osdc is Text
                && entries[i]->Client_0.mdsc !is Failed,
        all_seen(entries)->Ok_0.osd == entries.map_values(
            |entry: EntryRead|
                {
                    let file = entry->Client_0.osdc->Text_0;
                    osdc(file.bytes@, file.failed())->Ok_0.map_values(
                        |request: OsdRequest| (request.tid, request.target),
                    )
                },
        ).flatten(),
        all_seen(entries)->Ok_0.mds == entries.map_values(
            |entry: EntryRead|
                {
                    let file = entry->Client_0.mdsc->Text_0;
                    if entry->Client_0.mdsc is NotFound {
                        seq![]
                    } else {
                        mdsc(file.bytes@, file.failed())->Ok_0.map_values(
                            |request: MdsRequestView| (request.tid, request.target),
                        )
                    }
                },
        ).flatten(),
    decreases entries.len(),
{
    let osd_of = |entry: EntryRead|
        {
            let file = entry->Client_0.osdc->Text_0;
            osdc(file.bytes@, file.failed())->Ok_0.map_values(
                |request: OsdRequest| (request.tid, request.target),
            )
        };
    let mds_of = |entry: EntryRead|
        {
            let file = entry->Client_0.mdsc->Text_0;
            if entry->Client_0.mdsc is NotFound {
                seq![]
            } else {
                mdsc(file.bytes@, file.failed())->Ok_0.map_values(
                    |request: MdsRequestView| (request.tid, request.target),
                )
            }
        };
    let osd = entries.map_values(osd_of);
    let mds = entries.map_values(mds_of);
    osd.lemma_flatten_and_flatten_alt_are_equivalent();
    mds.lemma_flatten_and_flatten_alt_are_equivalent();
    if entries.len() > 0 {
        let before = entries.drop_last();
        law_seen_in_order(before);
        before.map_values(osd_of).lemma_flatten_and_flatten_alt_are_equivalent();
        before.map_values(mds_of).lemma_flatten_and_flatten_alt_are_equivalent();
        assert(osd.drop_last() =~= before.map_values(osd_of));
        assert(mds.drop_last() =~= before.map_values(mds_of));
        assert forall|i: int| #![trigger entries[i]]
            0 <= i < entries.len() implies entries[i] is Client
            && entries[i]->Client_0.osdc is Text && entries[i]->Client_0.mdsc !is Failed by {
            if i < before.len() {
                assert(before[i] == entries[i]);
            }
        }
    }
}

/// If not all entries are in order, the first that is not tells what is wrong: it could not be
/// read; or else its list of requests to OSDs could not be opened or understood; or else that of
/// requests to metadata servers, which may be missing, could not.
pub proof fn law_first_problem(entries: Seq<EntryRead>) -> (i: int)
    requires
        all_seen(entries) is Err,
    ensures
        0 <= i < entries.len(),
        all_seen(entries.take(i)) is Ok,
        ({
            let error = all_seen(entries)->Err_0;
            match entries[i] {
                EntryRead::Failed(reason) => error == UpdateErrorView::Directory(reason@),
                EntryRead::Client(files) => match files.osdc {
                    FileRead::NotFound(reason) => error == UpdateErrorView::OpenOsdc(reason@),
                    FileRead::Failed(reason) => error == UpdateErrorView::OpenOsdc(reason@),
                    FileRead::Text(text) => match osdc(text.bytes@, text.failed()) {
                        Err(wrong) => error == UpdateErrorView::ParseOsdc(wrong),
                        Ok(_) => match files.mdsc {
                            FileRead::NotFound(_) => false,
                            FileRead::Failed(reason) => error == UpdateErrorView::OpenMdsc(reason@),
                            FileRead::Text(text) => mdsc(text.bytes@, text.failed()) is Err
                                && error == UpdateErrorView::ParseMdsc(
                                mdsc(text.bytes@, text.failed())->Err_0,
                            ),
                        },
                    },
                },
            }
        }),
    decreases entries.len(),
{
    let before = entries.drop_last();
    if all_seen(before) is Err {
        let i = law_first_problem(before);
        assert(before.take(i) =~= entries.take(i));
        assert(before[i] == entries[i]);
        i
    } else {
        assert(entries.take(entries.len() - 1) =~= before);
        entries.len() - 1
    }
}

/// The sequence in which a directory gives its entries matters neither for whether all of them are
/// in order nor for which requests they list. So an update finds the same requests waiting, since
/// the same times, and the same longest waits; and where each request that was not waiting yet is
/// listed with one target only, the targets are the same too.
pub proof fn law_entry_order_is_free(
    entries: Seq<EntryRead>,
    other: Seq<EntryRead>,
    osd: Map<u64, (u32, u64)>,
    mds: Map<u64, (Option<u32>, u64)>,
    now: u64,
)
    requires
        forall|entry: EntryRead| #[trigger] entries.contains(entry) <==> other.contains(entry),
    ensures
        all_seen(entries) is Ok <==> all_seen(other) is Ok,
        all_seen(entries) is Ok ==> {
            let seen = all_seen(entries)->Ok_0;
            let other_seen = all_seen(other)->Ok_0;
            &&& longest_wait(osd, seen.osd, now) == longest_wait(osd, other_seen.osd, now)
            &&& longest_wait(mds, seen.mds, now) == longest_wait(mds, other_seen.mds, now)
            &&& next_round(osd, seen.osd, now).dom() == next_round(osd, other_seen.osd, now).dom()
            &&& next_round(mds, seen.mds, now).dom() == next_round(mds, other_seen.mds, now).dom()
            &&& forall|tid: u64| #[trigger]
                next_round(osd, seen.osd, now).contains_key(tid) ==> next_round(
                    osd,
                    seen.osd,
                    now,
                )[tid].1 == next_round(osd, other_seen.osd, now)[tid].1
            &&& forall|tid: u64| #[trigger]
                next_round(mds, seen.mds, now).contains_key(tid) ==> next_round(
                    mds,
                    seen.mds,
                    now,
                )[tid].1 == next_round(mds, other_seen.mds, now)[tid].1
            &&& newcomers_have_one_target(osd, seen.osd) ==> next_round(osd, seen.osd, now)
                == next_round(osd, other_seen.osd, now)
            &&& newcomers_have_one_target(mds, seen.mds) ==> next_round(mds, seen.mds, now)
                == next_round(mds, other_seen.mds, now)
        },
{
    if all_seen(entries) is Ok {
        lemma_fewer_entries(other, entries);
    }
    if all_seen(other) is Ok {
        lemma_fewer_entries(entries, other);
        law_order_is_free(osd, all_seen(entries)->Ok_0.osd, all_seen(other)->Ok_0.osd, now);
        law_order_is_free(mds, all_seen(entries)->Ok_0.mds, all_seen(other)->Ok_0.mds, now);
    }
}

/// What a directory lists is what its entries list, and nothing but what is wrong with them makes
/// an update fail. A directory that could not be read is what is wrong itself.
pub proof fn law_listed(dir: DirRead, no_ceph_ok: bool)
    ensures
        dir is Entries ==> {
            let seen = all_seen(dir->Entries_0@);
            let found = listed(dir, no_ceph_ok);
            &&& seen is Ok ==> found is Ok && found->Ok_0 == Some(seen->Ok_0)
            &&& seen is Err ==> found is Err && found->Err_0 == seen->Err_0
        },
        dir is Failed ==> listed(dir, no_ceph_ok) == Err::<Option<Seen>, _>(
            UpdateErrorView::Directory(dir->Failed_0@),
        ),
        dir is NotFound && !no_ceph_ok ==> listed(dir, no_ceph_ok) == Err::<Option<Seen>, _>(
            UpdateErrorView::Directory(dir->NotFound_0@),
        ),
{
}

/// Seen as sequences, an error keeps its kind and all that it holds.
pub proof fn law_update_error_view(error: UpdateError)
    ensures
        error is Directory <==> error@ is Directory,
        error is OpenOsdc <==> error@ is OpenOsdc,
        error is ParseOsdc <==> error@ is ParseOsdc,
        error is OpenMdsc <==> error@ is OpenMdsc,
        error is ParseMdsc <==> error@ is ParseMdsc,
        error is Directory ==> error->Directory_0@ == error@->Directory_0,
        error is OpenOsdc ==> error->OpenOsdc_0@ == error@->OpenOsdc_0,
        error is ParseOsdc ==> error->ParseOsdc_0@ == error@->ParseOsdc_0,
        error is OpenMdsc ==> error->OpenMdsc_0@ == error@->OpenMdsc_0,
        error is ParseMdsc ==> error->ParseMdsc_0@ == error@->ParseMdsc_0,
{
}

/// The sentence about an error says what was tried, and closes with the reason.
pub proof fn law_update_error_text(error: UpdateErrorView)
    ensures
        ({
            let (opening, reason) = match error {
                UpdateErrorView::Directory(reason) => ("Error reading debug filesystem: "@, reason),
                UpdateErrorView::OpenOsdc(reason) => (
                    "Error opening osdc on debug filesystem: "@,
                    reason,
                ),
                UpdateErrorView::ParseOsdc(wrong) => (
                    "Error parsing osdc on debug filesystem: "@,
                    wrong.text(),
                ),
                UpdateErrorView::OpenMdsc(reason) => (
                    "Error opening mdsc on debug filesystem: "@,
                    reason,
                ),
                UpdateErrorView::ParseMdsc(wrong) => (
                    "Error parsing mdsc on debug filesystem: "@,
                    wrong.text(),
                ),
            };
            &&& opening.is_prefix_of(error.text())
            &&& reason.is_suffix_of(error.text())
            &&& error.text().len() == opening.len() + reason.len()
        }),
{
    let (opening, reason) = match error {
        UpdateErrorView::Directory(reason) => ("Error reading debug filesystem: "@, reason),
        UpdateErrorView::OpenOsdc(reason) => ("Error opening osdc on debug filesystem: "@, reason),
        UpdateErrorView::ParseOsdc(wrong) => (
            "Error parsing osdc on debug filesystem: "@,
            wrong.text(),
        ),
        UpdateErrorView::OpenMdsc(reason) => ("Error opening mdsc on debug filesystem: "@, reason),
        UpdateErrorView::ParseMdsc(wrong) => (
            "Error parsing mdsc on debug filesystem: "@,
            wrong.text(),
        ),
    };
    assert(error.text() == opening + reason);
    assert(opening =~= error.text().take(opening.len() as int));
    assert(reason =~= error.text().skip(opening.len() as int));
}

/// That there may be no clients changes nothing but what becomes of a missing directory.
pub proof fn law_no_ceph_ok(dir: DirRead)
    ensures
        dir is NotFound ==> listed(dir, true) == Ok::<Option<Seen>, UpdateErrorView>(None),
        dir is NotFound ==> listed(dir, false) is Err,
        dir !is NotFound ==> listed(dir, true) == listed(dir, false),
{
}

/// A client without an `mdsc` file counts like one whose `mdsc` file is empty.
pub proof fn law_missing_mdsc(reason: String, file: FileText)
    requires
        file.bytes@.len() == 0,
        file.failure is None,
    ensures
        mds_seen(FileRead::NotFound(reason)) == mds_seen(FileRead::Text(file)),
{
    assert(first_line(file.bytes@) =~= seq![]);
    let none = Seq::<MdsRequestView>::empty();
    assert(none.map_values(|request: MdsRequestView| (request.tid, request.target)) =~= seq![]);
}

} // verus!

use ceph_long_request_watcher::errors::ParseError;
use ceph_long_request_watcher::reading::FileText;
use ceph_long_request_watcher::render::render_requests;
use ceph_long_request_watcher::report::{sorted_requests, waits};
use ceph_long_request_watcher::tracking::{duration_since, track, PromData};
use ceph_long_request_watcher::update::{
    update_data, ClientFiles, DirRead, EntryRead, FileRead, Longest, UpdateError,
};
use std::collections::HashMap;

fn text(text: String) -> FileRead {
    FileRead::Text(FileText {
        bytes: text.into_bytes(),
        failure: None,
    })
}

fn osdc(requests: &[(u64, u32)]) -> FileRead {
    let lines: Vec<String> = requests
        .iter()
        .map(|(tid, target)| {
            format!("{}\tosd{}\t1.0\t1.0\t[1]/1\t[1]/1\te1\to\t0x1\t1\tread\n", tid, target)
        })
        .collect();
    text(format!("REQUESTS 1\n{}LINGER REQUESTS\n", lines.concat()))
}

fn mdsc(requests: &[(u64, Option<u32>)]) -> FileRead {
    let lines: Vec<String> = requests
        .iter()
        .map(|(tid, target)| match target {
            Some(target) => format!("{}\tmds{}\tgetattr\t#1\n", tid, target),
            None => format!("{}\t(no request)\tgetattr\t#1\n", tid),
        })
        .collect();
    text(lines.concat())
}

fn missing() -> FileRead {
    FileRead::NotFound("No such file or directory".to_owned())
}

fn client(osdc: FileRead, mdsc: FileRead) -> EntryRead {
    EntryRead::Client(ClientFiles { osdc, mdsc })
}

fn one(osd: &[(u64, u32)], mds: &[(u64, Option<u32>)]) -> DirRead {
    DirRead::Entries(vec![client(osdc(osd), mdsc(mds))])
}

fn update(data: &mut PromData, now: u64, dir: DirRead) -> Result<Option<Longest>, UpdateError> {
    update_data(data, now, &dir, false)
}

fn longest(osd: u64, mds: u64) -> Result<Option<Longest>, UpdateError> {
    Ok(Some(Longest { osd, mds }))
}

#[test]
fn waits_grow_from_the_round_a_request_is_first_seen_in() {
    let mut data = PromData::new(0);
    assert_eq!(update(&mut data, 10, one(&[(1, 7)], &[(1, None)])), longest(0, 0));
    assert_eq!(update(&mut data, 15, one(&[(1, 7), (2, 8)], &[(1, Some(3))])), longest(5, 5));
    assert_eq!(update(&mut data, 30, one(&[(2, 8), (1, 9)], &[])), longest(20, 0));
    assert_eq!(data.updated, 30);
    assert_eq!(data.osd_requests, HashMap::from([(1, (7, 10)), (2, (8, 15))]));
    assert_eq!(data.mds_requests, HashMap::new());
}

#[test]
fn a_request_that_comes_back_starts_anew() {
    let mut data = PromData::new(0);
    update(&mut data, 10, one(&[(1, 7)], &[])).unwrap();
    assert_eq!(update(&mut data, 20, one(&[], &[])), longest(0, 0));
    assert!(data.osd_requests.is_empty());
    assert_eq!(update(&mut data, 30, one(&[(1, 8)], &[])), longest(0, 0));
    assert_eq!(update(&mut data, 31, one(&[(1, 8)], &[])), longest(1, 0));
    assert_eq!(data.osd_requests, HashMap::from([(1, (8, 30))]));
}

#[test]
fn clients_are_taken_together() {
    let mut data = PromData::new(0);
    let dir = || {
        DirRead::Entries(vec![
            client(osdc(&[(1, 7)]), missing()),
            client(osdc(&[(2, 8), (1, 9)]), mdsc(&[(5, Some(0))])),
        ])
    };
    assert_eq!(update(&mut data, 10, dir()), longest(0, 0));
    assert_eq!(data.osd_requests, HashMap::from([(1, (7, 10)), (2, (8, 10))]));
    assert_eq!(data.mds_requests, HashMap::from([(5, (Some(0), 10))]));
    assert_eq!(update(&mut data, 12, dir()), longest(2, 2));
}

#[test]
fn the_order_of_requests_does_not_matter() {
    let before = HashMap::from([(1, (7u32, 5)), (2, (8, 6))]);
    let a = track(&before, &vec![(1, 7), (3, 9), (2, 8)], 20);
    let b = track(&before, &vec![(2, 8), (1, 7), (3, 9), (1, 7)], 20);
    assert_eq!(a, b);
    assert_eq!(a.1, 15);
    assert_eq!(a.0, HashMap::from([(1, (7, 5)), (2, (8, 6)), (3, (9, 20))]));
}

#[test]
fn only_targets_depend_on_the_order_of_requests() {
    let before = HashMap::from([(1, (7u32, 5))]);
    let a = track(&before, &vec![(1, 8), (1, 9), (2, 3), (2, 4)], 20);
    let b = track(&before, &vec![(2, 4), (1, 9), (2, 3), (1, 8)], 20);
    assert_eq!(a, (HashMap::from([(1, (7, 5)), (2, (3, 20))]), 15));
    assert_eq!(b, (HashMap::from([(1, (7, 5)), (2, (4, 20))]), 15));
}

#[test]
fn the_order_of_clients_does_not_matter() {
    let first = || client(osdc(&[(1, 7), (2, 8)]), mdsc(&[(5, Some(0))]));
    let second = || client(osdc(&[(3, 9)]), missing());
    let mut a = PromData::new(0);
    let mut b = PromData::new(0);
    update(&mut a, 10, one(&[(2, 8)], &[])).unwrap();
    update(&mut b, 10, one(&[(2, 8)], &[])).unwrap();
    let there = DirRead::Entries(vec![first(), second()]);
    let back = DirRead::Entries(vec![second(), first()]);
    assert_eq!(update(&mut a, 25, there), longest(15, 0));
    assert_eq!(update(&mut b, 25, back), longest(15, 0));
    assert_eq!(a.osd_requests, HashMap::from([(1, (7, 25)), (2, (8, 10)), (3, (9, 25))]));
    assert_eq!(a.osd_requests, b.osd_requests);
    assert_eq!(a.mds_requests, HashMap::from([(5, (Some(0), 25))]));
    assert_eq!(a.mds_requests, b.mds_requests);
    let bad = || client(text("bad\n".to_owned()), missing());
    assert!(update(&mut a, 30, DirRead::Entries(vec![first(), bad()])).is_err());
    assert!(update(&mut b, 30, DirRead::Entries(vec![bad(), first()])).is_err());
}

#[test]
fn no_wait_is_negative() {
    assert_eq!(duration_since(5, 7), 0);
    assert_eq!(duration_since(7, 5), 2);
    let before = HashMap::from([(1, (7u32, 50))]);
    assert_eq!(track(&before, &vec![(1, 7)], 20), (before.clone(), 0));
}

#[test]
fn there_may_be_no_clients() {
    let mut data = PromData::new(0);
    update(&mut data, 10, one(&[(1, 7)], &[(2, None)])).unwrap();
    let dir = DirRead::NotFound("No such file or directory".to_owned());
    assert_eq!(update_data(&mut data, 20, &dir, true), Ok(None));
    assert_eq!(data.updated, 20);
    assert_eq!(data.osd_requests, HashMap::from([(1, (7, 10))]));
    assert_eq!(data.mds_requests, HashMap::from([(2, (None, 10))]));
    assert_eq!(
        update_data(&mut data, 30, &dir, false),
        Err(UpdateError::Directory("No such file or directory".to_owned())),
    );
    assert_eq!(update(&mut data, 40, DirRead::Entries(vec![])), longest(0, 0));
    assert!(data.osd_requests.is_empty());
}

#[test]
fn the_first_error_is_reported() {
    let reason = || "Permission denied".to_owned();
    let bad = || text("bad\n".to_owned());
    let cases = vec![
        (DirRead::Failed(reason()), UpdateError::Directory(reason())),
        (
            DirRead::Entries(vec![EntryRead::Failed(reason()), client(bad(), bad())]),
            UpdateError::Directory(reason()),
        ),
        (
            DirRead::Entries(vec![client(FileRead::Failed(reason()), bad())]),
            UpdateError::OpenOsdc(reason()),
        ),
        (
            DirRead::Entries(vec![client(missing(), bad())]),
            UpdateError::OpenOsdc("No such file or directory".to_owned()),
        ),
        (
            DirRead::Entries(vec![client(bad(), FileRead::Failed(reason()))]),
            UpdateError::ParseOsdc(ParseError::InvalidFirstLine),
        ),
        (
            DirRead::Entries(vec![
                client(osdc(&[]), FileRead::Failed(reason())),
                EntryRead::Failed("later".to_owned()),
            ]),
            UpdateError::OpenMdsc(reason()),
        ),
        (
            DirRead::Entries(vec![
                client(osdc(&[(9, 9)]), missing()),
                client(osdc(&[]), bad()),
            ]),
            UpdateError::ParseMdsc(ParseError::InvalidRequestLine("bad\n".to_owned())),
        ),
    ];
    for (dir, error) in cases {
        let mut data = PromData::new(0);
        update(&mut data, 10, one(&[(1, 7)], &[])).unwrap();
        assert_eq!(update_data(&mut data, 20, &dir, true), Err(error));
        assert_eq!(data.updated, 20);
        assert_eq!(data.osd_requests, HashMap::from([(1, (7, 10))]));
    }
}

#[test]
fn update_error_messages() {
    let reason = || "why".to_owned();
    assert_eq!(
        UpdateError::Directory(reason()).message(),
        "Error reading debug filesystem: why",
    );
    assert_eq!(
        UpdateError::OpenOsdc(reason()).message(),
        "Error opening osdc on debug filesystem: why",
    );
    assert_eq!(
        UpdateError::ParseOsdc(ParseError::InvalidField).message(),
        "Error parsing osdc on debug filesystem: Invalid field",
    );
    assert_eq!(
        UpdateError::OpenMdsc(reason()).message(),
        "Error opening mdsc on debug filesystem: why",
    );
    assert_eq!(
        UpdateError::ParseMdsc(ParseError::InvalidRequestLine("x".to_owned())).message(),
        "Error parsing mdsc on debug filesystem: Invalid request line: x",
    );
}

#[test]
fn requests_are_listed_latest_first_and_then_by_target() {
    let osd = HashMap::from([
        (1, (30u32, 5)),
        (2, (4, 9)),
        (3, (20, 5)),
        (4, (20, 5)),
        (5, (1, 7)),
    ]);
    assert_eq!(
        sorted_requests(&osd),
        vec![(4, 9), (1, 7), (20, 5), (20, 5), (30, 5)],
    );
    assert_eq!(
        waits(&osd, 10),
        vec![(4, 1), (1, 3), (20, 5), (20, 5), (30, 5)],
    );
    let mds = HashMap::from([(1, (Some(0u32), 5)), (2, (None, 5)), (3, (Some(2), 6))]);
    assert_eq!(
        sorted_requests(&mds),
        vec![(Some(2), 6), (None, 5), (Some(0), 5)],
    );
    assert_eq!(sorted_requests(&HashMap::<u64, (u32, u64)>::new()), vec![]);
}

#[test]
fn the_longest_wait_is_listed_last() {
    let mut data = PromData::new(0);
    update(&mut data, 10, one(&[(1, 7)], &[])).unwrap();
    update(&mut data, 20, one(&[(1, 7), (2, 3)], &[])).unwrap();
    let reported = update(&mut data, 35, one(&[(2, 3), (1, 7), (3, 1)], &[]));
    assert_eq!(reported, longest(25, 0));
    assert_eq!(
        waits(&data.osd_requests, data.updated),
        vec![(1, 0), (3, 15), (7, 25)],
    );
}

#[test]
fn the_list_is_written() {
    let osd = vec![
        (7, "0.0".to_owned()),
        (12345, "123.4".to_owned()),
        (1234567, "100000.0".to_owned()),
    ];
    let mds = vec![(Some(0), "12.5".to_owned()), (None, "0.1".to_owned())];
    let expected = format!(
        "OSD:\nosd.{:<5} {:>5.1} second\nosd.{:<5} {:>5.1} second\nosd.{:<5} {:>5.1} second\nMDS:\nmds{} {:.1} second\n(none) {:.1} second\n",
        7, 0.0, 12345, 123.4, 1234567, 100000.0, 0, 12.5, 0.1,
    );
    assert_eq!(render_requests(&osd, &mds), expected);
    assert_eq!(
        render_requests(&osd[..1].to_vec(), &vec![]),
        "OSD:\nosd.7       0.0 second\nMDS:\n",
    );
}

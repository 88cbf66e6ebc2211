use ceph_long_request_watcher::errors::ParseError;
use ceph_long_request_watcher::mdsc::{parse_mdsc, MdsRequest, Mdsc};
use ceph_long_request_watcher::osdc::{parse_osdc, OsdRequest, Osdc};
use ceph_long_request_watcher::reading::{read_line, FileText};

fn file(text: &str) -> FileText {
    FileText {
        bytes: text.as_bytes().to_vec(),
        failure: None,
    }
}

#[test]
fn test_parse_osdc() {
    let file = file("REQUESTS 1 homeless 0\n8141767\tosd807\t40.3a421a86\t40.286s0\t[807,793,674,167]/807\t[807,793,674,167]/807\te1177852\trbd_data.39.380eda51faf086.0000000000076984\t0x400024\t1\twrite\nLINGER REQUESTS\n");
    let osdc = parse_osdc(&file).unwrap();
    assert_eq!(osdc, Osdc {
        requests: vec![
            OsdRequest {
                tid: 8141767,
                pool: 40,
                target: 807,
            },
        ],
    });
}

#[test]
fn test_parse_mdsc() {
    let file = file(
        "3923\tmds0\treaddir\t#10004c8cd1d\n8317\t(no request)\tgetattr\t#1\n",
    );
    let mdsc = parse_mdsc(&file).unwrap();
    assert_eq!(mdsc, Mdsc {
        requests: vec![
            MdsRequest {
                tid: 3923,
                op: "readdir".to_owned(),
                target: Some(0),
            },
            MdsRequest {
                tid: 8317,
                op: "getattr".to_owned(),
                target: None,
            },
        ],
    });
}

const LINE: &str = "8141767\tosd807\t40.3a421a86\t40.286s0\t[807,793,674,167]/807\t[807,793,674,167]/807\te1177852\trbd_data.39.380eda51faf086.0000000000076984\t0x400024\t1\twrite\n";

fn osdc(lines: &str) -> Result<Osdc, ParseError> {
    parse_osdc(&file(&format!("REQUESTS 1 homeless 0\n{}LINGER REQUESTS\n", lines)))
}

fn osd(tid: u64, pool: u32, target: u32) -> OsdRequest {
    OsdRequest { tid, pool, target }
}

fn mds(tid: u64, op: &str, target: Option<u32>) -> MdsRequest {
    MdsRequest {
        tid,
        op: op.to_owned(),
        target,
    }
}

#[test]
fn osdc_may_list_nothing() {
    assert_eq!(osdc("").unwrap().requests, vec![]);
}

#[test]
fn osdc_lists_in_order() {
    let second = LINE.replace("8141767", "7").replace("osd807", "osd3");
    let lines = format!("{}{}", LINE, second);
    assert_eq!(
        osdc(&lines).unwrap().requests,
        vec![osd(8141767, 40, 807), osd(7, 40, 3)],
    );
}

#[test]
fn osdc_line_with_every_option() {
    let line = "12\tosd0\t1.0\t2.zz\t[1]/1\t[,]/0\te1\tn/o\t0xf\tP\t0\t";
    assert_eq!(osdc(&format!("{}\n", line)).unwrap().requests, vec![osd(12, 1, 0)]);
    assert_eq!(
        osdc(&format!("{}read 1 2\n", line)).unwrap().requests,
        vec![osd(12, 1, 0)],
    );
}

#[test]
fn osdc_object_may_hold_tabs_and_any_letter() {
    let line = "12\tosd0\t1.0\t2.0\t[1]/1\t[1]/1\te1\tobjet\tété\t0xf\t0\tread\n";
    assert_eq!(osdc(line).unwrap().requests, vec![osd(12, 1, 0)]);
}

#[test]
fn osdc_lines_that_do_not_fit() {
    let bad = [
        "\n".to_owned(),
        LINE.replace("8141767", ""),
        LINE.replace("8141767", "-8141767"),
        LINE.replace("8141767", "+8141767"),
        LINE.replace("8141767", " 8141767"),
        LINE.replace("osd807", "mds807"),
        LINE.replace("osd807", "osd"),
        LINE.replace("40.3a421a86", "40-3a421a86"),
        LINE.replace("40.3a421a86", "40.3A421A86"),
        LINE.replace("[807,793,674,167]", "[]"),
        LINE.replace("/807", "/x"),
        LINE.replace("e1177852", "1177852"),
        LINE.replace("rbd_data", "rbd data"),
        LINE.replace("rbd_data", "names/rbd_data"),
        LINE.replace("0x400024", "0x40002g"),
        LINE.replace("0x400024", "400024"),
        LINE.replace("\t1\t", "\tP1\t"),
        LINE.replace("\twrite", ""),
    ];
    for line in bad.iter() {
        assert_eq!(osdc(line), Err(ParseError::InvalidRequestLine(line.clone())));
    }
}

#[test]
fn osdc_numbers_have_limits() {
    let big = LINE
        .replace("8141767", "18446744073709551615")
        .replace("osd807", "osd4294967295")
        .replace("\t40.3", "\t4294967295.3");
    assert_eq!(
        osdc(&big).unwrap().requests,
        vec![osd(u64::MAX, u32::MAX, u32::MAX)],
    );
    let bad = [
        LINE.replace("8141767", "18446744073709551616"),
        LINE.replace("8141767", "99999999999999999999999999"),
        LINE.replace("osd807", "osd4294967296"),
        LINE.replace("\t40.3", "\t4294967296.3"),
    ];
    for line in bad.iter() {
        assert_eq!(osdc(line), Err(ParseError::InvalidField));
    }
}

#[test]
fn osdc_numbers_may_have_leading_zeros() {
    assert_eq!(
        osdc(&LINE.replace("osd807", "osd000000000000807")).unwrap().requests,
        vec![osd(8141767, 40, 807)],
    );
}

#[test]
fn osdc_needs_its_header() {
    for text in ["", "\n", "REQUESTS\n", "requests 1\n", " REQUESTS 1\n", "LINGER REQUESTS\n"] {
        assert_eq!(parse_osdc(&file(text)), Err(ParseError::InvalidFirstLine));
    }
    assert!(parse_osdc(&file("REQUESTS \nLINGER REQUESTS")).is_ok());
}

#[test]
fn osdc_needs_its_end() {
    let text = format!("REQUESTS 1 homeless 0\n{}", LINE);
    assert_eq!(
        parse_osdc(&file(&text)),
        Err(ParseError::InvalidRequestLine("".to_owned())),
    );
}

#[test]
fn osdc_ignores_what_follows_its_end() {
    let mut bytes = format!("REQUESTS 1 homeless 0\n{}LINGER REQUESTS\n", LINE).into_bytes();
    bytes.extend_from_slice(b"\xff\xfe\nBACKOFFS\n");
    let file = FileText {
        bytes,
        failure: Some("Input/output error".to_owned()),
    };
    assert_eq!(parse_osdc(&file).unwrap().requests, vec![osd(8141767, 40, 807)]);
}

#[test]
fn osdc_stops_at_the_first_bad_line() {
    let lines = format!("{}bad\n{}worse\n", LINE, LINE);
    assert_eq!(
        osdc(&lines),
        Err(ParseError::InvalidRequestLine("bad\n".to_owned())),
    );
}

#[test]
fn reading_breaks_off() {
    let cut = |text: &str| FileText {
        bytes: text.as_bytes().to_vec(),
        failure: Some("Input/output error".to_owned()),
    };
    let failed = || ParseError::ReadFailed("Input/output error".to_owned());
    assert_eq!(parse_osdc(&cut("REQUESTS 1")), Err(failed()));
    assert_eq!(parse_osdc(&cut("REQUESTS 1\n")), Err(failed()));
    assert_eq!(parse_osdc(&cut("REQUESTS 1\nLINGER REQUESTS")), Err(failed()));
    assert!(parse_osdc(&cut("REQUESTS 1\nLINGER REQUESTS\n")).is_ok());
    assert_eq!(parse_mdsc(&cut("")), Err(failed()));
    assert_eq!(parse_mdsc(&cut("1\tmds0\top\t")), Err(failed()));
    assert_eq!(parse_mdsc(&cut("1\tmds0\top\t\n")), Err(failed()));
    assert_eq!(
        parse_mdsc(&cut("bad\n")),
        Err(ParseError::InvalidRequestLine("bad\n".to_owned())),
    );
}

#[test]
fn lines_must_be_utf8() {
    let file = |bytes: &[u8]| FileText {
        bytes: bytes.to_vec(),
        failure: None,
    };
    assert_eq!(
        parse_osdc(&file(b"REQUESTS \xff\nrest")),
        Err(ParseError::InvalidUtf8(b"rest".to_vec())),
    );
    assert_eq!(
        parse_mdsc(&file(b"1\tmds0\top\t\xc3\n")),
        Err(ParseError::InvalidUtf8(vec![])),
    );
    let mut long = b"\xed\xa0\x80\n".to_vec();
    long.extend_from_slice(&[b'x'; 600]);
    assert_eq!(
        parse_mdsc(&file(&long)),
        Err(ParseError::InvalidUtf8(vec![b'x'; 512])),
    );
    assert_eq!(
        parse_mdsc(&file("1\tmds0\tété\t\n".as_bytes())).unwrap().requests,
        vec![mds(1, "été", Some(0))],
    );
}

#[test]
fn mdsc_may_list_nothing() {
    assert_eq!(parse_mdsc(&file("")).unwrap().requests, vec![]);
}

#[test]
fn mdsc_last_line_needs_no_newline() {
    assert_eq!(
        parse_mdsc(&file("1\tmds2\tlookup\t")).unwrap().requests,
        vec![mds(1, "lookup", Some(2))],
    );
}

#[test]
fn mdsc_operation_goes_on_to_the_last_tab_before_a_space() {
    assert_eq!(
        parse_mdsc(&file("1\tmds2\ta\tb\tc d\te\n")).unwrap().requests,
        vec![mds(1, "a\tb", Some(2))],
    );
    assert_eq!(
        parse_mdsc(&file("1\tmds2\t(unsafe)\tcreate\t#1/x\n")).unwrap().requests,
        vec![mds(1, "(unsafe)\tcreate", Some(2))],
    );
    assert_eq!(
        parse_mdsc(&file("1\tmds2\t\t\t\n")).unwrap().requests,
        vec![mds(1, "\t", Some(2))],
    );
}

#[test]
fn mdsc_lines_that_do_not_fit() {
    let bad = [
        "\n",
        "\tmds0\top\t\n",
        "1 mds0\top\t\n",
        "1\tmds\top\t\n",
        "1\tosd0\top\t\n",
        "1\t(no  request)\top\t\n",
        "1\tmds0\t\t\n",
        "1\tmds0\top\n",
        "1\tmds0\to p\t\n",
        "1\tmds0\t op\t\n",
    ];
    for line in bad.iter() {
        assert_eq!(
            parse_mdsc(&file(&format!("2\tmds0\top\t\n{}", line))),
            Err(ParseError::InvalidRequestLine((*line).to_owned())),
        );
    }
}

#[test]
fn mdsc_numbers_have_limits() {
    assert_eq!(
        parse_mdsc(&file("18446744073709551615\tmds4294967295\top\t\n")).unwrap().requests,
        vec![mds(u64::MAX, "op", Some(u32::MAX))],
    );
    for text in [
        "18446744073709551616\tmds0\top\t\n",
        "18446744073709551616\t(no request)\top\t\n",
        "1\tmds4294967296\top\t\n",
    ] {
        assert_eq!(parse_mdsc(&file(text)), Err(ParseError::InvalidField));
    }
}

#[test]
fn parse_error_messages() {
    assert_eq!(ParseError::InvalidFirstLine.message(), "Invalid first line");
    assert_eq!(
        ParseError::InvalidRequestLine("x\n".to_owned()).message(),
        "Invalid request line: x\n",
    );
    assert_eq!(ParseError::InvalidField.message(), "Invalid field");
    assert_eq!(
        ParseError::InvalidUtf8(vec![1]).message(),
        "stream did not contain valid UTF-8",
    );
    assert_eq!(ParseError::ReadFailed("gone".to_owned()).message(), "gone");
}

#[test]
fn read_line_tells_where_the_next_one_starts() {
    let file = file("ab\n\ncd");
    assert_eq!(read_line(&file, 0), Ok(("ab\n", 3)));
    assert_eq!(read_line(&file, 3), Ok(("\n", 4)));
    assert_eq!(read_line(&file, 4), Ok(("cd", 6)));
    assert_eq!(read_line(&file, 6), Ok(("", 6)));
}

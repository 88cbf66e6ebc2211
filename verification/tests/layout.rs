//! Lines, most of them slightly damaged, against a recogniser written out by hand.

use ceph_long_request_watcher::errors::ParseError;
use ceph_long_request_watcher::mdsc::parse_mdsc;
use ceph_long_request_watcher::osdc::parse_osdc;
use ceph_long_request_watcher::reading::FileText;

enum Part {
    Text(&'static str),
    Run(fn(char) -> bool),
    Maybe(Vec<Part>),
}

use Part::{Maybe, Text};

fn digit(c: char) -> bool {
    c.is_ascii_digit()
}

fn seed(c: char) -> bool {
    c.is_ascii_digit() || c.is_ascii_lowercase()
}

fn list(c: char) -> bool {
    c.is_ascii_digit() || c == ','
}

fn object(c: char) -> bool {
    c != ' ' && c != '/'
}

fn hex(c: char) -> bool {
    c.is_ascii_digit() || ('a'..='f').contains(&c)
}

/// Where the parts can end if they start at one of `from`.
fn ends(parts: &[Part], line: &[char], from: Vec<usize>) -> Vec<usize> {
    let mut at = from;
    for part in parts {
        let mut next: Vec<usize> = Vec::new();
        for &start in &at {
            match part {
                Text(text) => {
                    let text: Vec<char> = text.chars().collect();
                    if line[start..].starts_with(&text) {
                        next.push(start + text.len());
                    }
                }
                Part::Run(accepted) => {
                    let mut end = start;
                    while end < line.len() && accepted(line[end]) {
                        end += 1;
                        next.push(end);
                    }
                }
                Maybe(parts) => {
                    next.push(start);
                    next.extend(ends(parts, line, vec![start]));
                }
            }
        }
        next.sort();
        next.dedup();
        at = next;
    }
    at
}

fn one_object(line: &[char], from: usize) -> Vec<usize> {
    if from + 1 < line.len() && object(line[from]) && line[from + 1] == '/' {
        vec![from, from + 2]
    } else {
        vec![from]
    }
}

fn osd_fits(line: &[char]) -> bool {
    let number = || Part::Run(digit);
    let before = [
        number(), Text("\tosd"), number(), Text("\t"), number(), Text("."), Part::Run(seed),
        Text("\t"), number(), Text("."), Part::Run(seed), Text("\t["), Part::Run(list),
        Text("]/"), number(), Text("\t["), Part::Run(list), Text("]/"), number(), Text("\te"),
        number(), Text("\t"),
    ];
    let behind = [
        Part::Run(object), Text("\t0x"), Part::Run(hex), Maybe(vec![Text("\tP")]), Text("\t"),
        number(), Text("\t"),
    ];
    let at = ends(&before, line, vec![0]);
    let at: Vec<usize> = at.iter().flat_map(|&at| one_object(line, at)).collect();
    !ends(&behind, line, at).is_empty()
}

/// The MDS and the operation, if the line fits.
fn mds_fits(line: &[char]) -> Option<String> {
    let at = ends(&[Part::Run(digit), Text("\t")], line, vec![0]);
    let mut starts = ends(&[Text("(no request)\t")], line, at.clone());
    starts.extend(ends(&[Text("mds"), Part::Run(digit), Text("\t")], line, at));
    assert!(starts.len() <= 1);
    let start = *starts.first()?;
    let end = *ends(&[Part::Run(|c| c != ' '), Text("\t")], line, vec![start]).last()?;
    Some(line[start..end - 1].iter().collect())
}

struct Dice(u64);

impl Dice {
    fn roll(&mut self, n: usize) -> usize {
        self.0 = self.0.wrapping_mul(6364136223846793005).wrapping_add(1442695040888963407);
        ((self.0 >> 33) % n as u64) as usize
    }
}

fn damage(line: &str, dice: &mut Dice) -> String {
    let letters: Vec<char> = "\t\t\t  //..,[]e0x9PazmdsoZé(".chars().collect();
    let mut line: Vec<char> = line.chars().collect();
    for _ in 0..dice.roll(4) {
        let at = dice.roll(line.len());
        match dice.roll(3) {
            0 => line[at] = letters[dice.roll(letters.len())],
            1 => line.insert(at, letters[dice.roll(letters.len())]),
            _ => {
                line.remove(at);
            }
        }
    }
    line.into_iter().collect()
}

fn file(text: String) -> FileText {
    FileText {
        bytes: text.into_bytes(),
        failure: None,
    }
}

#[test]
fn osdc_lines_are_told_apart() {
    let lines = [
        "12\tosd3\t4.5a\t6.7b\t[8,9]/8\t[8]/8\te1\tobj\t0xaf\t2\tread",
        "12\tosd3\t4.5a\t6.7b\t[8,9]/8\t[8]/8\te1\tn/obj\t0xaf\tP\t2\tread",
        "1\tosd2\t3.4\t5.6\t[7]/7\t[7]/7\te1\to\tp\t0x1\t1\t0x2\tP\t2\t",
    ];
    let mut dice = Dice(1);
    let mut fitting = 0;
    for round in 0..600 {
        let line = format!("{}\n", damage(lines[round % 3], &mut dice));
        let chars: Vec<char> = line.chars().collect();
        let parsed = parse_osdc(&file(format!("REQUESTS 1\n{}LINGER REQUESTS\n", line)));
        if osd_fits(&chars) {
            fitting += 1;
            let parts: Vec<&str> = line.split('\t').collect();
            let request = &parsed.unwrap().requests[0];
            assert_eq!(request.tid.to_string(), parts[0].trim_start_matches('0').to_owned());
            assert_eq!(format!("osd{}", request.target), parts[1]);
            assert_eq!(request.pool.to_string(), parts[2].split('.').next().unwrap());
        } else {
            assert_eq!(parsed, Err(ParseError::InvalidRequestLine(line)));
        }
    }
    assert!(fitting > 100 && fitting < 500);
}

#[test]
fn mdsc_lines_are_told_apart() {
    let lines = [
        "12\tmds3\treaddir\t#1",
        "12\t(no request)\tgetattr\t#1 a\tb",
        "1\tmds2\t(unsafe)\tcreate\t#1/x",
    ];
    let mut dice = Dice(2);
    let mut fitting = 0;
    for round in 0..600 {
        let line = format!("{}\n", damage(lines[round % 3], &mut dice));
        let chars: Vec<char> = line.chars().collect();
        let parsed = parse_mdsc(&file(line.clone()));
        match mds_fits(&chars) {
            Some(op) => {
                fitting += 1;
                assert_eq!(parsed.unwrap().requests[0].op, op);
            }
            None => assert_eq!(parsed, Err(ParseError::InvalidRequestLine(line))),
        }
    }
    assert!(fitting > 100 && fitting < 500);
}

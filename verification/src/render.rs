//! The text of the list of waiting requests.

use crate::numbers::{decimal, law_decimal, to_decimal};
use vstd::prelude::*;
use vstd::string::{StrSliceExecFns, StringExecFns};

verus! {

/// So many spaces.
pub open spec fn spaces(n: int) -> Seq<char> {
    Seq::new(
        if n > 0 {
            n as nat
        } else {
            0
        },
        |i: int| ' ',
    )
}

/// `text`, and behind it the spaces that it takes to fill `width`.
pub open spec fn fill_behind(text: Seq<char>, width: int) -> Seq<char> {
    text + spaces(width - text.len())
}

/// `text`, and before it the spaces that it takes to fill `width`.
pub open spec fn fill_before(text: Seq<char>, width: int) -> Seq<char> {
    spaces(width - text.len()) + text
}

/// The line for a request to an OSD that has been waiting for so many seconds.
pub open spec fn osd_text(target: u32, seconds: Seq<char>) -> Seq<char> {
    "osd."@ + fill_behind(decimal(target as nat), 5) + " "@ + fill_before(seconds, 5)
        + " second\n"@
}

/// The line for a request to a metadata server that has been waiting for so many seconds.
pub open spec fn mds_text(target: Option<u32>, seconds: Seq<char>) -> Seq<char> {
    match target {
        Some(number) => "mds"@ + decimal(number as nat) + " "@ + seconds + " second\n"@,
        None => "(none) "@ + seconds + " second\n"@,
    }
}

/// The line for a request to an OSD opens with the number of the OSD and closes with the seconds.
/// Between them there are spaces, one of them and as many as fill both columns.
pub proof fn law_osd_text(target: u32, seconds: Seq<char>)
    ensures
        ({
            let line = osd_text(target, seconds);
            let opening = "osd."@ + decimal(target as nat);
            let closing = seconds + " second\n"@;
            let column = decimal(target as nat).len();
            &&& opening.is_prefix_of(line)
            &&& closing.is_suffix_of(line)
            &&& opening.len() < line.len() - closing.len()
            &&& forall|i: int|
                opening.len() <= i < line.len() - closing.len() ==> #[trigger] line[i] == ' '
            &&& line.len() == "osd."@.len() + (if column < 5 { 5 } else { column }) + 1 + (
            if seconds.len() < 5 { 5 } else { seconds.len() }) + " second\n"@.len()
        }),
{
    let line = osd_text(target, seconds);
    let number = decimal(target as nat);
    let opening = "osd."@ + number;
    let closing = seconds + " second\n"@;
    let blank = spaces(5 - number.len()) + " "@ + spaces(5 - seconds.len());
    reveal_strlit(" ");
    assert(line =~= opening + blank + closing);
    assert(opening =~= line.take(opening.len() as int));
    assert(closing =~= line.skip(line.len() - closing.len()));
    assert forall|i: int| opening.len() <= i < line.len() - closing.len() implies #[trigger] line[i]
        == ' ' by {
        assert(line[i] == blank[i - opening.len()]);
    }
}

/// The line for a request to a metadata server is the number of the server, or that there is
/// none, then a space, then the seconds.
pub proof fn law_mds_text(target: Option<u32>, seconds: Seq<char>)
    ensures
        ({
            let line = mds_text(target, seconds);
            let closing = seconds + " second\n"@;
            &&& closing.is_suffix_of(line)
            &&& target is Some ==> {
                let opening = "mds"@ + decimal(target->0 as nat) + " "@;
                opening.is_prefix_of(line) && line.len() == opening.len() + closing.len()
            }
            &&& target is None ==> {
                let opening = "(none) "@;
                opening.is_prefix_of(line) && line.len() == opening.len() + closing.len()
            }
        }),
{
    let line = mds_text(target, seconds);
    let closing = seconds + " second\n"@;
    let opening = match target {
        Some(number) => "mds"@ + decimal(number as nat) + " "@,
        None => "(none) "@,
    };
    assert(line =~= opening + closing);
    assert(opening =~= line.take(opening.len() as int));
    assert(closing =~= line.skip(line.len() - closing.len()));
}

/// Two numbers that start at one place of a line, with a space behind each, are the same.
proof fn lemma_same_target(line: Seq<char>, at: int, a: nat, b: nat)
    requires
        0 <= at,
        at + decimal(a).len() < line.len(),
        at + decimal(b).len() < line.len(),
        forall|i: int| 0 <= i < decimal(a).len() ==> #[trigger] decimal(a)[i] == line[at + i],
        forall|i: int| 0 <= i < decimal(b).len() ==> #[trigger] decimal(b)[i] == line[at + i],
        line[at + decimal(a).len()] == ' ',
        line[at + decimal(b).len()] == ' ',
    ensures
        a == b,
{
    law_decimal(a);
    law_decimal(b);
    if decimal(a).len() < decimal(b).len() {
        assert('0' <= decimal(b)[decimal(a).len() as int] <= '9');
    } else if decimal(b).len() < decimal(a).len() {
        assert('0' <= decimal(a)[decimal(b).len() as int] <= '9');
    }
    assert(decimal(a) =~= decimal(b)) by {
        assert forall|i: int| 0 <= i < decimal(a).len() implies decimal(a)[i] == decimal(b)[i] by {
            assert(decimal(a)[i] == line[at + i]);
            assert(decimal(b)[i] == line[at + i]);
        }
    }
}

/// The line for a request to an OSD tells the OSD, and the seconds if they have no space in front.
pub proof fn law_osd_text_tells(a: u32, s: Seq<char>, b: u32, t: Seq<char>)
    requires
        osd_text(a, s) == osd_text(b, t),
    ensures
        a == b,
        (s.len() > 0 ==> s[0] != ' ') && (t.len() > 0 ==> t[0] != ' ') ==> s == t,
{
    let line = osd_text(a, s);
    law_osd_text(a, s);
    law_osd_text(b, t);
    reveal_strlit("osd.");
    let before_a = "osd."@ + decimal(a as nat);
    let before_b = "osd."@ + decimal(b as nat);
    let behind_s = s + " second\n"@;
    let behind_t = t + " second\n"@;
    assert forall|i: int| 0 <= i < decimal(a as nat).len() implies #[trigger] decimal(a as nat)[i]
        == line[4 + i] by {
        assert(before_a[4 + i] == line[4 + i]);
    }
    assert forall|i: int| 0 <= i < decimal(b as nat).len() implies #[trigger] decimal(b as nat)[i]
        == line[4 + i] by {
        assert(before_b[4 + i] == line[4 + i]);
    }
    assert(line[before_a.len() as int] == ' ');
    assert(line[before_b.len() as int] == ' ');
    lemma_same_target(line, 4, a as nat, b as nat);
    if (s.len() > 0 ==> s[0] != ' ') && (t.len() > 0 ==> t[0] != ' ') {
        if s.len() < t.len() {
            assert(behind_t[0] == line[line.len() - behind_t.len()]);
        } else if t.len() < s.len() {
            assert(behind_s[0] == line[line.len() - behind_s.len()]);
        }
        assert(behind_s == behind_t);
        assert(s =~= behind_s.take(s.len() as int));
        assert(t =~= behind_t.take(t.len() as int));
    }
}

/// The line for a request to a metadata server tells the server, or that there is none, and the
/// seconds.
pub proof fn law_mds_text_tells(a: Option<u32>, s: Seq<char>, b: Option<u32>, t: Seq<char>)
    requires
        mds_text(a, s) == mds_text(b, t),
    ensures
        a == b,
        s == t,
{
    let line = mds_text(a, s);
    law_mds_text(a, s);
    law_mds_text(b, t);
    reveal_strlit("mds");
    reveal_strlit("(none) ");
    reveal_strlit(" ");
    assert(line[0] == if a is Some { 'm' } else { '(' });
    assert(line[0] == if b is Some { 'm' } else { '(' });
    if a is Some {
        let before_a = "mds"@ + decimal(a->0 as nat) + " "@;
        let before_b = "mds"@ + decimal(b->0 as nat) + " "@;
        assert forall|i: int|
            0 <= i < decimal(a->0 as nat).len() implies #[trigger] decimal(a->0 as nat)[i]
            == line[3 + i] by {
            assert(before_a[3 + i] == line[3 + i]);
        }
        assert forall|i: int|
            0 <= i < decimal(b->0 as nat).len() implies #[trigger] decimal(b->0 as nat)[i]
            == line[3 + i] by {
            assert(before_b[3 + i] == line[3 + i]);
        }
        assert(before_a[before_a.len() - 1] == line[before_a.len() - 1]);
        assert(before_b[before_b.len() - 1] == line[before_b.len() - 1]);
        lemma_same_target(line, 3, a->0 as nat, b->0 as nat);
    }
    let behind_s = s + " second\n"@;
    let behind_t = t + " second\n"@;
    assert(behind_s == behind_t);
    assert(s =~= behind_s.take(s.len() as int));
    assert(t =~= behind_t.take(t.len() as int));
}

/// The lines for requests to OSDs.
pub open spec fn osd_lines(rows: Seq<(u32, String)>) -> Seq<char>
    decreases rows.len(),
{
    if rows.len() == 0 {
        seq![]
    } else {
        osd_lines(rows.drop_last()) + osd_text(rows.last().0, rows.last().1@)
    }
}

/// The lines for requests to metadata servers.
pub open spec fn mds_lines(rows: Seq<(Option<u32>, String)>) -> Seq<char>
    decreases rows.len(),
{
    if rows.len() == 0 {
        seq![]
    } else {
        mds_lines(rows.drop_last()) + mds_text(rows.last().0, rows.last().1@)
    }
}

/// Each request to an OSD has its line, and the lines follow each other.
pub proof fn law_osd_lines_follow(rows: Seq<(u32, String)>)
    ensures
        osd_lines(rows) == rows.map_values(
            |row: (u32, String)| osd_text(row.0, row.1@),
        ).flatten(),
    decreases rows.len(),
{
    let lines = rows.map_values(|row: (u32, String)| osd_text(row.0, row.1@));
    lines.lemma_flatten_and_flatten_alt_are_equivalent();
    if rows.len() > 0 {
        let fewer = rows.drop_last().map_values(|row: (u32, String)| osd_text(row.0, row.1@));
        law_osd_lines_follow(rows.drop_last());
        fewer.lemma_flatten_and_flatten_alt_are_equivalent();
        assert(lines.drop_last() =~= fewer);
    }
}

/// Each request to a metadata server has its line, and the lines follow each other.
pub proof fn law_mds_lines_follow(rows: Seq<(Option<u32>, String)>)
    ensures
        mds_lines(rows) == rows.map_values(
            |row: (Option<u32>, String)| mds_text(row.0, row.1@),
        ).flatten(),
    decreases rows.len(),
{
    let lines = rows.map_values(|row: (Option<u32>, String)| mds_text(row.0, row.1@));
    lines.lemma_flatten_and_flatten_alt_are_equivalent();
    if rows.len() > 0 {
        let fewer = rows.drop_last().map_values(
            |row: (Option<u32>, String)| mds_text(row.0, row.1@),
        );
        law_mds_lines_follow(rows.drop_last());
        fewer.lemma_flatten_and_flatten_alt_are_equivalent();
        assert(lines.drop_last() =~= fewer);
    }
}

/// Adds spaces.
fn append_spaces(text: &mut String, n: usize)
    ensures
        final(text)@ == old(text)@ + spaces(n as int),
{
    let ghost before = text@;
    let mut done: usize = 0;
    assert(before + spaces(0) =~= before);
    while done < n
        invariant
            done <= n,
            text@ == before + spaces(done as int),
        decreases n - done,
    {
        proof {
            reveal_strlit(" ");
        }
        text.append(" ");
        done = done + 1;
        assert(text@ =~= before + spaces(done as int));
    }
}

/// The list of waiting requests: those to OSDs, then those to metadata servers, each with its
/// target and, written with one decimal, the seconds that it has been waiting.
pub fn render_requests(osd: &Vec<(u32, String)>, mds: &Vec<(Option<u32>, String)>) -> (text:
    String)
    ensures
        text@ == "OSD:\n"@ + osd_lines(osd@) + "MDS:\n"@ + mds_lines(mds@),
{
    let mut text: String = "OSD:\n".to_owned();
    let mut i: usize = 0;
    assert(text@ + osd_lines(osd@.take(0)) =~= text@);
    while i < osd.len()
        invariant
            i <= osd@.len(),
            text@ == "OSD:\n"@ + osd_lines(osd@.take(i as int)),
        decreases osd@.len() - i,
    {
        let ghost before = text@;
        let target: String = to_decimal(osd[i].0 as u64);
        let seconds: &str = osd[i].1.as_str();
        let target_width: usize = target.as_str().unicode_len();
        let seconds_width: usize = seconds.unicode_len();
        text.append("osd.");
        text.append(target.as_str());
        append_spaces(&mut text, if target_width < 5 { 5 - target_width } else { 0 });
        text.append(" ");
        append_spaces(&mut text, if seconds_width < 5 { 5 - seconds_width } else { 0 });
        text.append(seconds);
        text.append(" second\n");
        assert(osd@.take(i + 1).drop_last() =~= osd@.take(i as int));
        assert(text@ =~= before + osd_text(osd@[i as int].0, osd@[i as int].1@));
        i = i + 1;
        assert(text@ =~= "OSD:\n"@ + osd_lines(osd@.take(i as int)));
    }
    assert(osd@.take(i as int) =~= osd@);
    text.append("MDS:\n");
    let ghost listed = text@;
    let mut i: usize = 0;
    assert(listed + mds_lines(mds@.take(0)) =~= listed);
    while i < mds.len()
        invariant
            i <= mds@.len(),
            text@ == listed + mds_lines(mds@.take(i as int)),
        decreases mds@.len() - i,
    {
        let ghost before = text@;
        let seconds: &str = mds[i].1.as_str();
        match mds[i].0 {
            Some(number) => {
                text.append("mds");
                let target: String = to_decimal(number as u64);
                text.append(target.as_str());
                text.append(" ");
            },
            None => {
                text.append("(none) ");
            },
        }
        text.append(seconds);
        text.append(" second\n");
        assert(mds@.take(i + 1).drop_last() =~= mds@.take(i as int));
        assert(text@ =~= before + mds_text(mds@[i as int].0, mds@[i as int].1@));
        i = i + 1;
        assert(text@ =~= listed + mds_lines(mds@.take(i as int)));
    }
    assert(mds@.take(i as int) =~= mds@);
    text
}

} // verus!

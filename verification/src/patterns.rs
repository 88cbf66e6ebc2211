//! The layout of the lines that the Ceph kernel client lists its requests in.
//!
//! Lines are taken apart by regular expressions. The layouts that the expressions describe are
//! stated here a second time, as [`OsdLine`] and [`MdsLine`], for contracts to speak of.

use crate::numbers::{is_digit, is_number};
use vstd::prelude::*;

verus! {

/// Matches a line of `osdc` that lists a request.
pub const OSD_REQUEST: &'static str = "^(?P<tid>[0-9]+)\
    \tosd(?P<target>[0-9]+)\
    \t(?P<pool>[0-9]+)\\.(?P<seed>[0-9a-z]+)\
    \t(?P<pgid>[0-9]+\\.[0-9a-z]+)\
    \t\\[(?P<up>[0-9,]+)\\]/[0-9]+\
    \t\\[(?P<acting>[0-9,]+)\\]/[0-9]+\
    \t(?P<epoch>e[0-9]+)\
    \t(?:(?P<namespace>[^ /])/)?(?P<oid>[^ /]+)\
    \t(?P<flags>0x[0-9a-f]+)\
    (?P<paused>\tP)?\
    \t(?P<attempts>[0-9]+)\
    \t";

/// Matches a line of `mdsc`.
pub const MDS_REQUEST: &'static str = "^(?P<tid>[0-9]+)\
    \t(\\(no request\\)|mds(?P<target>[0-9]+))\
    \t(?P<op>[^ ]+)\
    \t";

/// The expressions, spelled out: what may stand where, and the names of what is taken out.
pub proof fn law_expressions()
    ensures
        OSD_REQUEST@ == "^(?P<tid>[0-9]+)\
            \tosd(?P<target>[0-9]+)\
            \t(?P<pool>[0-9]+)\\.(?P<seed>[0-9a-z]+)\
            \t(?P<pgid>[0-9]+\\.[0-9a-z]+)\
            \t\\[(?P<up>[0-9,]+)\\]/[0-9]+\
            \t\\[(?P<acting>[0-9,]+)\\]/[0-9]+\
            \t(?P<epoch>e[0-9]+)\
            \t(?:(?P<namespace>[^ /])/)?(?P<oid>[^ /]+)\
            \t(?P<flags>0x[0-9a-f]+)\
            (?P<paused>\tP)?\
            \t(?P<attempts>[0-9]+)\
            \t"@,
        MDS_REQUEST@ == "^(?P<tid>[0-9]+)\
            \t(\\(no request\\)|mds(?P<target>[0-9]+))\
            \t(?P<op>[^ ]+)\
            \t"@,
{
}

/// Text that is not empty and has none but `accepted` characters.
pub open spec fn made_of(text: Seq<char>, accepted: spec_fn(char) -> bool) -> bool {
    &&& text.len() > 0
    &&& forall|i: int| 0 <= i < text.len() ==> accepted(#[trigger] text[i])
}

/// The characters of a placement seed.
pub open spec fn is_seed(text: Seq<char>) -> bool {
    made_of(text, |c: char| '0' <= c <= '9' || 'a' <= c <= 'z')
}

/// A list of OSD numbers.
pub open spec fn is_osd_list(text: Seq<char>) -> bool {
    made_of(text, |c: char| '0' <= c <= '9' || c == ',')
}

/// An object name.
pub open spec fn is_object(text: Seq<char>) -> bool {
    made_of(text, |c: char| c != ' ' && c != '/')
}

/// Hexadecimal digits.
pub open spec fn is_hex(text: Seq<char>) -> bool {
    made_of(text, |c: char| '0' <= c <= '9' || 'a' <= c <= 'f')
}

/// The characters that the parts of a line may have.
pub proof fn law_alphabets(text: Seq<char>)
    requires
        text.len() > 0,
    ensures
        is_number(text) <==> forall|c: char| #[trigger] text.contains(c) ==> '0' <= c <= '9',
        is_seed(text) <==> forall|c: char| #[trigger]
            text.contains(c) ==> '0' <= c <= '9' || 'a' <= c <= 'z',
        is_osd_list(text) <==> forall|c: char| #[trigger]
            text.contains(c) ==> '0' <= c <= '9' || c == ',',
        is_hex(text) <==> forall|c: char| #[trigger]
            text.contains(c) ==> '0' <= c <= '9' || 'a' <= c <= 'f',
        is_object(text) <==> !text.contains(' ') && !text.contains('/'),
{
    assert forall|i: int| 0 <= i < text.len() implies text.contains(#[trigger] text[i]) by {}
    if is_number(text) {
        assert forall|c: char| #[trigger] text.contains(c) implies '0' <= c <= '9' by {
            let i = choose|i: int| 0 <= i < text.len() && text[i] == c;
            assert(is_digit(text[i]));
        }
    }
}

/// Nothing is made of no characters.
pub proof fn law_no_part_is_empty()
    ensures
        !is_number(seq![]),
        !is_seed(seq![]),
        !is_osd_list(seq![]),
        !is_object(seq![]),
        !is_hex(seq![]),
{
}

/// The parts of an `osdc` line that lists a request.
pub struct OsdLine {
    pub tid: Seq<char>,
    pub target: Seq<char>,
    pub pool: Seq<char>,
    pub seed: Seq<char>,
    pub pg_pool: Seq<char>,
    pub pg_seed: Seq<char>,
    pub up: Seq<char>,
    pub up_primary: Seq<char>,
    pub acting: Seq<char>,
    pub acting_primary: Seq<char>,
    pub epoch: Seq<char>,
    pub namespace: Option<char>,
    pub oid: Seq<char>,
    pub flags: Seq<char>,
    pub paused: bool,
    pub attempts: Seq<char>,
}

impl OsdLine {
    /// Each part is spelled as it has to be.
    pub open spec fn well_formed(self) -> bool {
        &&& is_number(self.tid)
        &&& is_number(self.target)
        &&& is_number(self.pool)
        &&& is_seed(self.seed)
        &&& is_number(self.pg_pool)
        &&& is_seed(self.pg_seed)
        &&& is_osd_list(self.up)
        &&& is_number(self.up_primary)
        &&& is_osd_list(self.acting)
        &&& is_number(self.acting_primary)
        &&& is_number(self.epoch)
        &&& self.namespace is Some ==> is_object(seq![self.namespace->0])
        &&& is_object(self.oid)
        &&& is_hex(self.flags)
        &&& is_number(self.attempts)
    }

    /// The request's number, OSD and pool, up to the dot.
    pub open spec fn head(self) -> Seq<char> {
        self.tid + "\tosd"@ + self.target + "\t"@ + self.pool + "."@
    }

    /// The parts behind the dot.
    pub open spec fn tail(self) -> Seq<char> {
        let place = self.seed + "\t"@ + self.pg_pool + "."@ + self.pg_seed + "\t["@ + self.up
            + "]/"@ + self.up_primary + "\t["@ + self.acting + "]/"@ + self.acting_primary
            + "\te"@ + self.epoch + "\t"@;
        let namespace = if self.namespace is Some {
            seq![self.namespace->0, '/']
        } else {
            seq![]
        };
        let paused = if self.paused {
            "\tP"@
        } else {
            seq![]
        };
        place + namespace + self.oid + "\t0x"@ + self.flags + paused + "\t"@ + self.attempts
            + "\t"@
    }

    /// `line` begins with these parts.
    pub open spec fn opens(self, line: Seq<char>) -> bool {
        self.well_formed() && (self.head() + self.tail()).is_prefix_of(line)
    }
}

/// The parts of an `mdsc` line.
pub struct MdsLine {
    pub tid: Seq<char>,
    pub target: Option<Seq<char>>,
    pub op: Seq<char>,
}

impl MdsLine {
    /// Each part is spelled as it has to be.
    pub open spec fn well_formed(self) -> bool {
        &&& is_number(self.tid)
        &&& self.target is Some ==> is_number(self.target->0)
        &&& made_of(self.op, |c: char| c != ' ')
    }

    /// The request's number and MDS.
    pub open spec fn head(self) -> Seq<char> {
        let target = if self.target is Some {
            "mds"@ + self.target->0
        } else {
            "(no request)"@
        };
        self.tid + "\t"@ + target + "\t"@
    }

    /// `line` begins with these parts.
    pub open spec fn opens(self, line: Seq<char>) -> bool {
        self.well_formed() && (self.head() + self.op + "\t"@).is_prefix_of(line)
    }

    /// `line` begins with these parts, and with no longer operation: one that holds tabs is
    /// taken up to the last tab that can end it.
    pub open spec fn opens_longest(self, line: Seq<char>) -> bool {
        &&& self.opens(line)
        &&& forall|other: MdsLine| #[trigger]
            other.opens(line) ==> other.op.len() <= self.op.len()
    }
}

/// The number, OSD and pool that an `osdc` line lists.
#[verifier::opaque]
pub open spec fn osd_groups(line: Seq<char>) -> Option<(Seq<char>, Seq<char>, Seq<char>)> {
    if exists|parts: OsdLine| parts.opens(line) {
        let parts = choose|parts: OsdLine| parts.opens(line);
        Some((parts.tid, parts.target, parts.pool))
    } else {
        None
    }
}

/// The number, MDS and operation that an `mdsc` line lists.
#[verifier::opaque]
pub open spec fn mds_groups(line: Seq<char>) -> Option<
    (Seq<char>, Option<Seq<char>>, Seq<char>),
> {
    if exists|parts: MdsLine| parts.opens_longest(line) {
        let parts = choose|parts: MdsLine| parts.opens_longest(line);
        Some((parts.tid, parts.target, parts.op))
    } else {
        None
    }
}

/// A compiled regular expression.
#[verifier::external_type_specification]
#[verifier::external_body]
pub struct ExRegex(regex::Regex);

/// What `regex::Regex::new` makes of a pattern.
pub uninterp spec fn compiled(pattern: Seq<char>) -> regex::Regex;

/// `regex::Regex::new`, for the patterns of this module. Both are in the syntax that `regex`
/// documents, so compiling them cannot fail.
#[verifier::external_body]
pub(crate) fn compile(pattern: &str) -> (expression: regex::Regex)
    requires
        pattern@ == OSD_REQUEST@ || pattern@ == MDS_REQUEST@,
    ensures
        expression == compiled(pattern@),
{
    regex::Regex::new(pattern).unwrap()
}

/// The characters of a group that took part in a match.
pub open spec fn group_text(group: Option<String>) -> Option<Seq<char>> {
    match group {
        Some(text) => Some(text@),
        None => None,
    }
}

/// What the groups `tid`, `target` and `pool` of [`OSD_REQUEST`] hold for `line`: the parts that
/// the line begins with, and nothing where no parts fit.
pub open spec fn osd_captured(
    line: Seq<char>,
    groups: Option<(Option<String>, Option<String>, Option<String>)>,
) -> bool {
    match groups {
        Some((tid, target, pool)) => exists|parts: OsdLine| #[trigger]
            parts.opens(line) && group_text(tid) == Some(parts.tid) && group_text(target) == Some(
                parts.target,
            ) && group_text(pool) == Some(parts.pool),
        None => forall|parts: OsdLine| !#[trigger] parts.opens(line),
    }
}

/// What the groups `tid`, `target` and `op` of [`MDS_REQUEST`] hold for `line`: the parts that
/// the line begins with, and nothing where no parts fit. Repetition is greedy, so the operation
/// is the longest that fits.
pub open spec fn mds_captured(
    line: Seq<char>,
    groups: Option<(Option<String>, Option<String>, Option<String>)>,
) -> bool {
    match groups {
        Some((tid, target, op)) => exists|parts: MdsLine| #[trigger]
            parts.opens_longest(line) && group_text(tid) == Some(parts.tid) && group_text(target)
                == parts.target && group_text(op) == Some(parts.op),
        None => forall|parts: MdsLine| !#[trigger] parts.opens(line),
    }
}

/// `regex::Regex::captures`, and of what it finds the text of three groups, by
/// `regex::Captures::name` and `regex::Match::as_str`.
///
/// Claimed of it: on the two patterns of this module, asked for the groups that requests are
/// made from, it finds what the documented syntax of the patterns says.
#[verifier::external_body]
pub(crate) fn capture(
    expression: &regex::Regex,
    line: &str,
    first: &str,
    second: &str,
    third: &str,
) -> (groups: Option<(Option<String>, Option<String>, Option<String>)>)
    requires
        first@ == "tid"@,
        second@ == "target"@,
        ({
            ||| *expression == compiled(OSD_REQUEST@) && third@ == "pool"@
            ||| *expression == compiled(MDS_REQUEST@) && third@ == "op"@
        }),
    ensures
        *expression == compiled(OSD_REQUEST@) && third@ == "pool"@ ==> osd_captured(line@, groups),
        *expression == compiled(MDS_REQUEST@) && third@ == "op"@ ==> mds_captured(line@, groups),
{
    match expression.captures(line) {
        Some(found) => Some(
            (
                found.name(first).map(|group| group.as_str().to_owned()),
                found.name(second).map(|group| group.as_str().to_owned()),
                found.name(third).map(|group| group.as_str().to_owned()),
            ),
        ),
        None => None,
    }
}

/// Two runs of digits that start at one place of a text, and end where no digit follows, are the
/// same run.
proof fn lemma_same_number(text: Seq<char>, at: int, a: Seq<char>, b: Seq<char>)
    requires
        0 <= at,
        at + a.len() < text.len(),
        at + b.len() < text.len(),
        is_number(a),
        is_number(b),
        text.subrange(at, at + a.len()) == a,
        text.subrange(at, at + b.len()) == b,
        !is_digit(text[at + a.len()]),
        !is_digit(text[at + b.len()]),
    ensures
        a == b,
{
    if a.len() < b.len() {
        assert(b[a.len() as int] == text[at + a.len()]);
    } else if b.len() < a.len() {
        assert(a[b.len() as int] == text[at + b.len()]);
    }
}

/// Where the parts of `parts.head()` stand in a line that `parts` opens.
proof fn lemma_osd_head(parts: OsdLine, line: Seq<char>)
    requires
        parts.opens(line),
    ensures
        ({
            let tid = parts.tid.len() as int;
            let target = tid + 4 + parts.target.len();
            let pool = target + 1 + parts.pool.len();
            &&& pool < line.len()
            &&& line.subrange(0, tid) == parts.tid
            &&& line[tid] == '\t'
            &&& line.subrange(tid + 4, target) == parts.target
            &&& line[target] == '\t'
            &&& line.subrange(target + 1, pool) == parts.pool
            &&& line[pool] == '.'
        }),
{
    reveal_strlit("\tosd");
    reveal_strlit("\t");
    reveal_strlit(".");
    let head = parts.head();
    let whole = head + parts.tail();
    let tid = parts.tid.len() as int;
    let target = tid + 4 + parts.target.len();
    let pool = target + 1 + parts.pool.len();
    assert(head.len() == pool + 1);
    assert(forall|i: int| 0 <= i < head.len() ==> line[i] == whole[i] && whole[i] == head[i]);
    assert(line.subrange(0, tid) =~= parts.tid);
    assert(line.subrange(tid + 4, target) =~= parts.target);
    assert(line.subrange(target + 1, pool) =~= parts.pool);
}

/// The number, OSD and pool of an `osdc` line do not depend on how the rest of it is divided.
pub proof fn law_osd_groups(parts: OsdLine, line: Seq<char>)
    requires
        parts.opens(line),
    ensures
        osd_groups(line) == Some((parts.tid, parts.target, parts.pool)),
{
    reveal(osd_groups);
    let other = choose|other: OsdLine| other.opens(line);
    lemma_osd_head(parts, line);
    lemma_osd_head(other, line);
    lemma_same_number(line, 0, parts.tid, other.tid);
    let target = parts.tid.len() as int + 4;
    lemma_same_number(line, target, parts.target, other.target);
    lemma_same_number(line, target + parts.target.len() + 1, parts.pool, other.pool);
}

/// An `osdc` line has a number, an OSD and a pool exactly if some parts open it.
pub proof fn law_osd_groups_exist(line: Seq<char>)
    ensures
        osd_groups(line) is Some <==> exists|parts: OsdLine| #[trigger] parts.opens(line),
{
    reveal(osd_groups);
}

/// Where the parts of an `mdsc` line stand in a line that `parts` opens.
proof fn lemma_mds_head(parts: MdsLine, line: Seq<char>)
    requires
        parts.opens(line),
    ensures
        ({
            let tid = parts.tid.len() as int;
            let op = parts.head().len() as int;
            &&& op + parts.op.len() < line.len()
            &&& line.subrange(0, tid) == parts.tid
            &&& line[tid] == '\t'
            &&& line[tid + 1] == if parts.target is Some { 'm' } else { '(' }
            &&& parts.target is None ==> op == tid + 14
            &&& parts.target is Some ==> {
                &&& op == tid + 5 + parts.target->0.len()
                &&& line.subrange(tid + 4, op - 1) == parts.target->0
                &&& line[op - 1] == '\t'
            }
            &&& line.subrange(op, op + parts.op.len()) == parts.op
            &&& line[op + parts.op.len()] == '\t'
        }),
{
    reveal_strlit("mds");
    reveal_strlit("(no request)");
    reveal_strlit("\t");
    let head = parts.head();
    let whole = head + parts.op + "\t"@;
    let tid = parts.tid.len() as int;
    let op = head.len() as int;
    assert(forall|i: int| 0 <= i < whole.len() ==> line[i] == whole[i]);
    assert(forall|i: int| 0 <= i < op ==> whole[i] == head[i]);
    assert(line.subrange(0, tid) =~= parts.tid);
    if parts.target is Some {
        assert(line.subrange(tid + 4, op - 1) =~= parts.target->0);
    }
    assert(line.subrange(op, op + parts.op.len()) =~= parts.op);
}

/// Two ways to divide an `mdsc` line agree on the number and the MDS.
proof fn lemma_mds_same_head(a: MdsLine, b: MdsLine, line: Seq<char>)
    requires
        a.opens(line),
        b.opens(line),
    ensures
        a.tid == b.tid,
        a.target == b.target,
        a.head() == b.head(),
{
    lemma_mds_head(a, line);
    lemma_mds_head(b, line);
    lemma_same_number(line, 0, a.tid, b.tid);
    if a.target is Some {
        lemma_same_number(line, a.tid.len() as int + 4, a.target->0, b.target->0);
    }
}

/// An `mdsc` line has one longest division.
pub proof fn law_mds_groups(parts: MdsLine, line: Seq<char>)
    requires
        parts.opens_longest(line),
    ensures
        parts.opens(line),
        mds_groups(line) == Some((parts.tid, parts.target, parts.op)),
{
    reveal(mds_groups);
    let other = choose|other: MdsLine| other.opens_longest(line);
    lemma_mds_same_head(parts, other, line);
    lemma_mds_head(parts, line);
    lemma_mds_head(other, line);
    assert(parts.op =~= other.op);
}

/// An operation that no tab follows, up to the first space behind it or the end of the line, is
/// taken whole.
pub proof fn law_mds_operation(parts: MdsLine, line: Seq<char>)
    requires
        parts.opens(line),
        forall|i: int|
            #![trigger line[i]]
            parts.head().len() + parts.op.len() < i < line.len() && line[i] == '\t' ==> exists|
                j: int,
            |
                parts.head().len() + parts.op.len() < j < i && #[trigger] line[j] == ' ',
    ensures
        parts.opens_longest(line),
{
    let end = parts.head().len() + parts.op.len();
    assert forall|other: MdsLine| #[trigger] other.opens(line) implies other.op.len()
        <= parts.op.len() by {
        lemma_mds_same_head(parts, other, line);
        lemma_mds_head(other, line);
        if other.op.len() > parts.op.len() {
            let i = other.head().len() + other.op.len() as int;
            assert(line[i] == '\t');
            let j = choose|j: int| end < j < i && #[trigger] line[j] == ' ';
            assert(other.op[j - other.head().len()] == line[j]);
        }
    }
}

/// Parts that open a line can be made longest by moving the end of the operation.
proof fn lemma_mds_longest(parts: MdsLine, line: Seq<char>)
    requires
        parts.opens(line),
    ensures
        exists|longest: MdsLine| #[trigger] longest.opens_longest(line),
    decreases line.len() - parts.op.len(),
{
    lemma_mds_head(parts, line);
    if !parts.opens_longest(line) {
        let longer = choose|longer: MdsLine| #[trigger]
            longer.opens(line) && longer.op.len() > parts.op.len();
        lemma_mds_head(longer, line);
        lemma_mds_longest(longer, line);
    }
}

/// An `mdsc` line has a number and an operation exactly if some parts open it.
pub proof fn law_mds_groups_exist(line: Seq<char>)
    ensures
        mds_groups(line) is Some <==> exists|parts: MdsLine| #[trigger] parts.opens(line),
{
    reveal(mds_groups);
    if exists|parts: MdsLine| #[trigger] parts.opens(line) {
        lemma_mds_longest(choose|parts: MdsLine| #[trigger] parts.opens(line), line);
    }
}

/// How a line of `osdc` that lists a request is laid out.
pub proof fn law_osd_layout(parts: OsdLine, line: Seq<char>)
    ensures
        parts.opens(line) <==> {
            &&& is_number(parts.tid) && is_number(parts.target) && is_number(parts.pool)
            &&& is_seed(parts.seed) && is_number(parts.pg_pool) && is_seed(parts.pg_seed)
            &&& is_osd_list(parts.up) && is_number(parts.up_primary)
            &&& is_osd_list(parts.acting) && is_number(parts.acting_primary)
            &&& is_number(parts.epoch)
            &&& parts.namespace != Some(' ') && parts.namespace != Some('/')
            &&& is_object(parts.oid) && is_hex(parts.flags) && is_number(parts.attempts)
            &&& ((parts.tid + "\tosd"@ + parts.target + "\t"@ + parts.pool + "."@) + (parts.seed
                + "\t"@ + parts.pg_pool + "."@ + parts.pg_seed + "\t["@ + parts.up + "]/"@
                + parts.up_primary + "\t["@ + parts.acting + "]/"@ + parts.acting_primary
                + "\te"@ + parts.epoch + "\t"@ + (match parts.namespace {
                Some(namespace) => seq![namespace, '/'],
                None => seq![],
            }) + parts.oid + "\t0x"@ + parts.flags + (if parts.paused {
                "\tP"@
            } else {
                seq![]
            }) + "\t"@ + parts.attempts + "\t"@)).is_prefix_of(line)
        },
{
    if parts.namespace is Some {
        let namespace = seq![parts.namespace->0];
        assert(namespace[0] == parts.namespace->0);
    }
}

/// How a line of `mdsc` is laid out.
pub proof fn law_mds_layout(parts: MdsLine, line: Seq<char>)
    ensures
        parts.opens(line) <==> {
            &&& is_number(parts.tid)
            &&& parts.target is Some ==> is_number(parts.target->0)
            &&& parts.op.len() > 0 && !parts.op.contains(' ')
            &&& (parts.tid + "\t"@ + (match parts.target {
                Some(target) => "mds"@ + target,
                None => "(no request)"@,
            }) + "\t"@ + parts.op + "\t"@).is_prefix_of(line)
        },
{
}

/// An operation is taken as far as it goes: behind it, no tab comes before the first space.
pub proof fn law_mds_operation_ends(parts: MdsLine, line: Seq<char>, tab: int)
    requires
        parts.opens_longest(line),
        parts.head().len() + parts.op.len() < tab < line.len(),
        line[tab] == '\t',
    ensures
        exists|i: int| parts.head().len() + parts.op.len() < i < tab && #[trigger] line[i] == ' ',
{
    let start = parts.head().len() as int;
    let end = start + parts.op.len();
    lemma_mds_head(parts, line);
    if forall|i: int| end < i < tab ==> #[trigger] line[i] != ' ' {
        reveal_strlit("\t");
        let other = MdsLine { op: line.subrange(start, tab), ..parts };
        let whole = parts.head() + parts.op + "\t"@;
        let longer = other.head() + other.op + "\t"@;
        assert forall|i: int| 0 <= i < other.op.len() implies #[trigger] other.op[i] != ' ' by {
            if i < parts.op.len() {
                assert(parts.op[i] == line[start + i]);
            }
        }
        assert(longer =~= line.take(tab + 1)) by {
            assert forall|i: int| 0 <= i < start implies longer[i] == line[i] by {
                assert(whole[i] == line[i]);
            }
        }
        assert(other.opens(line));
    }
}

/// The groups that are captured of an `osdc` line are the parts that it begins with.
pub proof fn law_osd_captured(
    line: Seq<char>,
    groups: Option<(Option<String>, Option<String>, Option<String>)>,
)
    requires
        osd_captured(line, groups),
    ensures
        groups is None ==> osd_groups(line) is None,
        groups is Some ==> {
            let (tid, target, pool) = groups->0;
            &&& tid is Some && target is Some && pool is Some
            &&& osd_groups(line) == Some((tid->0@, target->0@, pool->0@))
        },
{
    law_osd_groups_exist(line);
    if groups is Some {
        let (tid, target, pool) = groups->0;
        let parts = choose|parts: OsdLine| #[trigger]
            parts.opens(line) && group_text(tid) == Some(parts.tid) && group_text(target) == Some(
                parts.target,
            ) && group_text(pool) == Some(parts.pool);
        law_osd_groups(parts, line);
    }
}

/// The groups that are captured of an `mdsc` line are the parts that it begins with.
pub proof fn law_mds_captured(
    line: Seq<char>,
    groups: Option<(Option<String>, Option<String>, Option<String>)>,
)
    requires
        mds_captured(line, groups),
    ensures
        groups is None ==> mds_groups(line) is None,
        groups is Some ==> {
            let (tid, target, op) = groups->0;
            &&& tid is Some && op is Some
            &&& target is Some ==> mds_groups(line) == Some((tid->0@, Some(target->0@), op->0@))
            &&& target is None ==> mds_groups(line) == Some((tid->0@, None::<Seq<char>>, op->0@))
        },
{
    law_mds_groups_exist(line);
    if groups is Some {
        let (tid, target, op) = groups->0;
        let parts = choose|parts: MdsLine| #[trigger]
            parts.opens_longest(line) && group_text(tid) == Some(parts.tid) && group_text(target)
                == parts.target && group_text(op) == Some(parts.op);
        law_mds_groups(parts, line);
    }
}

} // verus!

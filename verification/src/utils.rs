//! Reading `diff` output into hunks, the size test on hunks, and picking
//! the most recent of the candidate commits.
use vstd::prelude::*;
use crate::hunk::Hunk;
use crate::hunk::KIND_ADDITION;
use crate::hunk::KIND_CHANGE;
use crate::hunk::KIND_DELETION;
use crate::text::without_char;
use crate::text::split_pieces;
use crate::text::parse_decimal;
use crate::text::remove_char;
use crate::text::split_on;
use crate::text::parse_i64;
use crate::text::views;
use crate::text::is_digit;
use crate::text::all_digits;
use crate::text::digits_value;
use crate::text::lemma_digits_value_prefix;
use crate::text::lemma_without_char_absent;
use crate::text::lemma_split_absent;
use crate::text::lemma_split_join;
use regex::Regex;
use chrono::NaiveDateTime;
use crate::vertex::Vertex;

verus! {

/// The spans of a hunk can be measured in `i64`.
pub open spec fn spans_fit(h: Hunk) -> bool {
    i64::MIN <= h.left_to - h.left_from <= i64::MAX && i64::MIN <= h.right_to - h.right_from
        <= i64::MAX
}

/// The span the size test measures: the span of the new side when it is
/// not zero, else that of the old side when it is not zero, else 1.
pub open spec fn measured_span(h: Hunk) -> int {
    if h.right_to - h.right_from != 0 {
        h.right_to - h.right_from
    } else if h.left_to - h.left_from != 0 {
        h.left_to - h.left_from
    } else {
        1
    }
}

/// Whether the size test finds a hunk too large to be followed line by
/// line: its measured span is not positive or is more than four lines.
pub open spec fn is_large_span(h: Hunk) -> bool {
    measured_span(h) <= 0 || measured_span(h) > 4
}

/// The size test reads the new side: a hunk whose new side spans a
/// nonzero number of lines is large exactly when that span is not
/// positive or is more than four lines, whatever its old side spans; only
/// when the new side spans nothing is the old side's span read instead,
/// and a hunk spanning nothing on either side is never large.
pub proof fn lemma_size_test_reads_new_side(h: Hunk)
    ensures
        h.right_to - h.right_from != 0 ==> (is_large_span(h) <==> (h.right_to - h.right_from <= 0
            || h.right_to - h.right_from > 4)),
        h.right_to - h.right_from == 0 && h.left_to - h.left_from != 0 ==> (is_large_span(h) <==> (
        h.left_to - h.left_from <= 0 || h.left_to - h.left_from > 4)),
        h.right_to - h.right_from == 0 && h.left_to - h.left_from == 0 ==> !is_large_span(h),
{
}

/// Two hunks whose new sides span the same nonzero number of lines get the
/// same answer from the size test, however their old sides differ.
pub proof fn lemma_size_test_ignores_old_side(h1: Hunk, h2: Hunk)
    requires
        h1.right_to - h1.right_from != 0,
        h1.right_to - h1.right_from == h2.right_to - h2.right_from,
    ensures
        is_large_span(h1) == is_large_span(h2),
{
    lemma_size_test_reads_new_side(h1);
    lemma_size_test_reads_new_side(h2);
}

/// The share of a file that a hunk may take before it counts as large.
pub const SHARE_DENOMINATOR: i128 = 10;

/// The span a hunk may reach before it counts as large, whatever the file.
pub const SPAN_FLOOR: i128 = 4;

/// Whether `span` exceeds both a tenth of `file_size` and the floor.
fn exceeds_share(span: i128, file_size: i64) -> (b: bool)
    requires
        -0x1_0000_0000_0000_0000 < span < 0x1_0000_0000_0000_0000,
    ensures
        b == (span * SHARE_DENOMINATOR > file_size && span > SPAN_FLOOR),
{
    span * SHARE_DENOMINATOR > file_size as i128 && span > SPAN_FLOOR
}

/// The size test on a hunk: it is large when its span exceeds both a
/// tenth of the file and four lines, or when the ratio of its old span to
/// its new one lies outside `1/4 ..= 4`. The old span is the one measured
/// (see `measured_span`) and the new span counts as one line, so the
/// outcome does not depend on the file sizes.
pub fn large_modification(hunk: &Hunk, size_file_a: i64, size_file_b: i64) -> (r: Result<bool, ()>)
    requires
        spans_fit(*hunk),
    ensures
        r == Ok::<bool, ()>(is_large_span(*hunk)),
        hunk.right_to - hunk.right_from != 0 ==> r == Ok::<bool, ()>(
            hunk.right_to - hunk.right_from <= 0 || hunk.right_to - hunk.right_from > 4,
        ),
        hunk.right_to - hunk.right_from == 0 && hunk.left_to - hunk.left_from != 0 ==> r == Ok::<
            bool,
            (),
        >(hunk.left_to - hunk.left_from <= 0 || hunk.left_to - hunk.left_from > 4),
        hunk.right_to - hunk.right_from == 0 && hunk.left_to - hunk.left_from == 0 ==> r == Ok::<
            bool,
            (),
        >(false),
{
    proof {
        lemma_size_test_reads_new_side(*hunk);
    }
    let mut size_hunk_left: i64 = 1;
    if hunk.left_to - hunk.left_from != 0 {
        size_hunk_left = hunk.left_to - hunk.left_from;
    }
    let size_hunk_right: i64 = 1;
    if hunk.right_to - hunk.right_from != 0 {
        size_hunk_left = hunk.right_to - hunk.right_from;
    }
    let left = size_hunk_left as i128;
    let right = size_hunk_right as i128;
    if exceeds_share(left, size_file_a) || exceeds_share(right, size_file_b) {
        return Ok(true);
    }
    if left * SPAN_FLOOR < right || SPAN_FLOOR * right < left {
        return Ok(true);
    }
    Ok(false)
}


/// Whether `Regex::new(pattern)` succeeds.
pub uninterp spec fn regex_compiles(pattern: Seq<char>) -> bool;

/// What `Regex::is_match` answers for the regex of `pattern` on `text`:
/// whether it matches anywhere in `text`.
pub uninterp spec fn regex_matches(pattern: Seq<char>, text: Seq<char>) -> bool;

/// `Regex::new(pattern)` and, when the pattern compiles, `is_match(text)`
/// on the compiled regex. `None` when the pattern does not compile.
#[verifier::external_body]
fn pattern_matches(pattern: &str, text: &str) -> (r: Option<bool>)
    ensures
        r is Some <==> regex_compiles(pattern@),
        r matches Some(b) ==> b == regex_matches(pattern@, text@),
{
    match Regex::new(pattern) {
        Ok(re) => Some(re.is_match(text)),
        Err(_) => None,
    }
}

/// The header of a `diff` hunk that changes lines: `l[,l]c r[,r]`.
pub open spec fn change_pattern() -> Seq<char> {
    "(^)(\\d+)(,\\d+)?(c)(\\d+)(,\\d+)?"@
}

/// The header of a hunk that adds lines: `l[,l]a r[,r]`.
pub open spec fn addition_pattern() -> Seq<char> {
    "(^)(\\d+)(,\\d+)?(a)(\\d+)(,\\d+)?"@
}

/// The header of a hunk that deletes lines: `l[,l]d r[,r]`.
pub open spec fn deletion_pattern() -> Seq<char> {
    "(^)(\\d+)(,\\d+)?(d)(\\d+)(,\\d+)?"@
}

/// The bounds one side of a header gives: `from,to` or a single line.
pub open spec fn side_bounds(token: Seq<char>) -> Option<(int, int)> {
    let parts = split_pieces(token, ',');
    if parts.len() == 2 {
        match (parse_decimal(parts[0]), parse_decimal(parts[1])) {
            (Some(a), Some(b)) => Some((a, b)),
            _ => None,
        }
    } else {
        match parse_decimal(token) {
            Some(a) => Some((a, a)),
            None => None,
        }
    }
}

/// The hunk a header line gives once its kind letter is known: spaces are
/// dropped, the line is cut at the letter, and each side gives its bounds.
/// `None` where a side cannot be read as numbers (or there is no second
/// side). A letter other than `c`, `a` or `d` gives an empty hunk.
pub open spec fn hunk_from_header(line: Seq<char>, letter: char, kind: i64) -> Option<Hunk> {
    let tokens = split_pieces(without_char(line, ' '), letter);
    if tokens.len() < 2 {
        None
    } else if letter == 'c' || letter == 'a' || letter == 'd' {
        match (side_bounds(tokens[0]), side_bounds(tokens[1])) {
            (Some((lf, lt)), Some((rf, rt))) => Some(
                Hunk {
                    left_from: lf as i64,
                    left_to: lt as i64,
                    right_from: rf as i64,
                    right_to: rt as i64,
                    kind: kind,
                },
            ),
            _ => None,
        }
    } else {
        Some(Hunk { left_from: -1i64, left_to: -1i64, right_from: -1i64, right_to: -1i64, kind: kind })
    }
}

/// The empty hunk.
pub open spec fn empty_hunk() -> Hunk {
    Hunk { left_from: -1i64, left_to: -1i64, right_from: -1i64, right_to: -1i64, kind: -1i64 }
}

/// The hunk a line of `diff` output gives: a change, addition or deletion
/// header in that order of preference, the empty hunk for any other line.
/// `None` where the header cannot be read or a pattern does not compile.
pub open spec fn line_hunk(line: Seq<char>) -> Option<Hunk> {
    if !regex_compiles(change_pattern()) || !regex_compiles(addition_pattern())
        || !regex_compiles(deletion_pattern()) {
        None
    } else {
        hunk_by_kind(
            line,
            regex_matches(change_pattern(), line),
            regex_matches(addition_pattern(), line),
            regex_matches(deletion_pattern(), line),
        )
    }
}

/// The hunk of a line given which header patterns it matches: a change,
/// addition or deletion header in that order of preference, the empty
/// hunk when it matches none.
pub open spec fn hunk_by_kind(line: Seq<char>, is_change: bool, is_addition: bool, is_deletion: bool) -> Option<Hunk> {
    if is_change {
        hunk_from_header(line, 'c', KIND_CHANGE)
    } else if is_addition {
        hunk_from_header(line, 'a', KIND_ADDITION)
    } else if is_deletion {
        hunk_from_header(line, 'd', KIND_DELETION)
    } else {
        Some(empty_hunk())
    }
}

/// Whether a hunk holds lines: none of its bounds is `-1`.
pub open spec fn is_filled(h: Hunk) -> bool {
    h.left_from != -1 && h.left_to != -1 && h.right_from != -1 && h.right_to != -1
}

/// The filled hunks that the first `k` lines give, in order.
pub open spec fn hunks_of_lines(lines: Seq<Seq<char>>, k: int) -> Seq<Hunk>
    decreases k,
{
    if k <= 0 {
        Seq::empty()
    } else {
        let rest = hunks_of_lines(lines, k - 1);
        match line_hunk(lines[k - 1]) {
            Some(h) => if is_filled(h) {
                rest.push(h)
            } else {
                rest
            },
            None => rest,
        }
    }
}

/// Every line of `output` can be read.
pub open spec fn diff_readable(output: Seq<char>) -> bool {
    forall|i: int|
        0 <= i < split_pieces(output, '\n').len() ==> #[trigger] line_hunk(
            split_pieces(output, '\n')[i],
        ) is Some
}

/// The hunks of `diff` output.
pub open spec fn diff_hunks(output: Seq<char>) -> Seq<Hunk> {
    hunks_of_lines(split_pieces(output, '\n'), split_pieces(output, '\n').len() as int)
}

/// The bounds one side of a header gives (see `side_bounds`).
fn read_side(token: &String) -> (r: Option<(i64, i64)>)
    ensures
        match side_bounds(token@) {
            Some((a, b)) => r == Some((a as i64, b as i64)),
            None => r is None,
        },
{
    let parts = split_on(token.as_str(), ',');
    if parts.len() == 2 {
        proof {
            assert(views(parts@)[0] == parts@[0]@);
            assert(views(parts@)[1] == parts@[1]@);
        }
        match (parse_i64(parts[0].as_str()), parse_i64(parts[1].as_str())) {
            (Some(a), Some(b)) => Some((a, b)),
            _ => None,
        }
    } else {
        match parse_i64(token.as_str()) {
            Some(a) => Some((a, a)),
            None => None,
        }
    }
}

/// The hunk a header line gives for kind letter `letter` (see
/// `hunk_from_header`), or `None` where it cannot be read.
pub fn read_header(line: &String, letter: char, kind: i64) -> (r: Option<Hunk>)
    ensures
        r == hunk_from_header(line@, letter, kind),
{
    let clean = remove_char(line.as_str(), ' ');
    let tokens = split_on(clean.as_str(), letter);
    if tokens.len() < 2 {
        return None;
    }
    proof {
        assert(views(tokens@)[0] == tokens@[0]@);
        assert(views(tokens@)[1] == tokens@[1]@);
    }
    if letter == 'c' || letter == 'a' || letter == 'd' {
        match (read_side(&tokens[0]), read_side(&tokens[1])) {
            (Some((lf, lt)), Some((rf, rt))) => Some(
                Hunk { left_from: lf, left_to: lt, right_from: rf, right_to: rt, kind: kind },
            ),
            _ => None,
        }
    } else {
        Some(Hunk { left_from: -1, left_to: -1, right_from: -1, right_to: -1, kind: kind })
    }
}

/// The hunk of a header line whose kind letter is `token_letter`. The
/// header must be readable (see `hunk_from_header`).
pub fn generate_hunk(line: String, token_letter: char, kind: i64) -> (r: Result<Hunk, ()>)
    requires
        hunk_from_header(line@, token_letter, kind) is Some,
    ensures
        r == Ok::<Hunk, ()>(hunk_from_header(line@, token_letter, kind)->0),
{
    match read_header(&line, token_letter, kind) {
        Some(h) => Ok(h),
        None => Err(()),
    }
}

/// The hunk of a line of `diff` output given which of the change,
/// addition and deletion header patterns it matches (see `hunk_by_kind`),
/// or `None` where the header cannot be read.
pub fn hunk_of_line(line: &String, is_change: bool, is_addition: bool, is_deletion: bool) -> (r:
    Option<Hunk>)
    ensures
        r == hunk_by_kind(line@, is_change, is_addition, is_deletion),
{
    if is_change {
        read_header(line, 'c', KIND_CHANGE)
    } else if is_addition {
        read_header(line, 'a', KIND_ADDITION)
    } else if is_deletion {
        read_header(line, 'd', KIND_DELETION)
    } else {
        Some(Hunk::initialized())
    }
}

/// The hunk a line of `diff` output gives (see `line_hunk`), or `None`
/// where it cannot be read.
pub fn try_hunk_parsed(line: &String) -> (r: Option<Hunk>)
    ensures
        r == line_hunk(line@),
{
    let change = pattern_matches("(^)(\\d+)(,\\d+)?(c)(\\d+)(,\\d+)?", line.as_str());
    let addition = pattern_matches("(^)(\\d+)(,\\d+)?(a)(\\d+)(,\\d+)?", line.as_str());
    let deletion = pattern_matches("(^)(\\d+)(,\\d+)?(d)(\\d+)(,\\d+)?", line.as_str());
    match (change, addition, deletion) {
        (Some(is_change), Some(is_addition), Some(is_deletion)) => hunk_of_line(
            line,
            is_change,
            is_addition,
            is_deletion,
        ),
        _ => None,
    }
}

/// The hunk a readable line of `diff` output gives.
pub fn get_hunk_parsed(line: &String) -> (r: Result<Hunk, String>)
    requires
        line_hunk(line@) is Some,
    ensures
        r == Ok::<Hunk, String>(line_hunk(line@)->0),
{
    match try_hunk_parsed(line) {
        Some(h) => Ok(h),
        None => Err(String::new()),
    }
}

/// The hunks of readable `diff` output: one per change, addition or
/// deletion header, in order.
pub fn get_hunks(diff_output: &String) -> (r: Result<Vec<Hunk>, String>)
    requires
        diff_readable(diff_output@),
    ensures
        r matches Ok(v) && v@ == diff_hunks(diff_output@),
{
    let lines = split_on(diff_output.as_str(), '\n');
    let ghost ls = split_pieces(diff_output@, '\n');
    let mut hunks: Vec<Hunk> = Vec::new();
    let mut i: usize = 0;
    while i < lines.len()
        invariant
            i <= lines@.len() == ls.len(),
            views(lines@) == ls,
            diff_readable(diff_output@),
            ls == split_pieces(diff_output@, '\n'),
            hunks@ == hunks_of_lines(ls, i as int),
        decreases lines@.len() - i,
    {
        proof {
            assert(views(lines@)[i as int] == lines@[i as int]@);
            assert(line_hunk(ls[i as int]) is Some);
        }
        let parsed = get_hunk_parsed(&lines[i]);
        match parsed {
            Ok(hunk) => {
                if hunk.left_from != -1 && hunk.left_to != -1 && hunk.right_from != -1
                    && hunk.right_to != -1 {
                    hunks.push(hunk);
                }
            },
            Err(_) => {},
        }
        i = i + 1;
    }
    Ok(hunks)
}

/// The hunks of `diff` output, or `None` when a line of it cannot be read.
pub fn read_hunks(diff_output: &String) -> (r: Option<Vec<Hunk>>)
    ensures
        r is Some <==> diff_readable(diff_output@),
        r matches Some(v) ==> v@ == diff_hunks(diff_output@),
{
    let lines = split_on(diff_output.as_str(), '\n');
    let ghost ls = split_pieces(diff_output@, '\n');
    let mut i: usize = 0;
    while i < lines.len()
        invariant
            i <= lines@.len() == ls.len(),
            views(lines@) == ls,
            ls == split_pieces(diff_output@, '\n'),
            forall|j: int| 0 <= j < i ==> #[trigger] line_hunk(ls[j]) is Some,
        decreases lines@.len() - i,
    {
        proof {
            assert(views(lines@)[i as int] == lines@[i as int]@);
        }
        if try_hunk_parsed(&lines[i]).is_none() {
            return None;
        }
        i = i + 1;
    }
    match get_hunks(diff_output) {
        Ok(v) => Some(v),
        Err(_) => None,
    }
}


/// What `NaiveDateTime::parse_from_str(text, fmt)` gives, as the seconds
/// since 1970-01-01 00:00:00 and the nanoseconds past them of the date and
/// time read (any offset in `text` is read and then ignored); `None` when
/// `text` does not fit `fmt`.
pub uninterp spec fn naive_datetime_parse(text: Seq<char>, fmt: Seq<char>) -> Option<(i64, u32)>;

/// `NaiveDateTime::parse_from_str(text, fmt)`, with the date and time it
/// reads given as (`timestamp`, `timestamp_subsec_nanos`) of
/// `and_utc()`. Two such pairs compare, first by seconds then by
/// nanoseconds, as the date-times themselves do. The one value stated is
/// the start date of the search for the most recent commit: chrono's
/// documentation says the offset is ignored, so the text reads as
/// 1981-09-05 00:00:00, which is 368496000 seconds after 1970-01-01.
#[verifier::external_body]
fn parse_datetime(text: &str, fmt: &str) -> (r: Option<(i64, u32)>)
    ensures
        r == naive_datetime_parse(text@, fmt@),
        text@ == start_date_text() && fmt@ == date_format() ==> r == Some(
            (start_commit_date().seconds, start_commit_date().nanos),
        ),
{
    match NaiveDateTime::parse_from_str(text, fmt) {
        Ok(d) => Some((d.and_utc().timestamp(), d.and_utc().timestamp_subsec_nanos())),
        Err(_) => None,
    }
}

/// The date of a commit as git shows it, read without its time zone.
#[derive(Clone, Copy, Debug)]
pub struct CommitDate {
    pub seconds: i64,
    pub nanos: u32,
}

/// Whether `a` comes after `b`.
pub open spec fn is_later(a: CommitDate, b: CommitDate) -> bool {
    a.seconds > b.seconds || (a.seconds == b.seconds && a.nanos > b.nanos)
}

/// The format git's `--date=iso` dates are read with.
pub open spec fn date_format() -> Seq<char> {
    "%Y-%m-%d %H:%M:%S %z"@
}

/// The date the search for the most recent commit starts from.
pub open spec fn start_date_text() -> Seq<char> {
    "1981-09-05 00:00:00 +0100"@
}

/// That date read without its offset: 1981-09-05 00:00:00.
pub open spec fn start_commit_date() -> CommitDate {
    CommitDate { seconds: 368496000, nanos: 0 }
}

/// The date text read from git's output: spaces and line breaks dropped.
pub open spec fn date_text(raw: Seq<char>) -> Seq<char> {
    without_char(without_char(raw, ' '), '\n')
}

/// A date read as a `CommitDate`.
pub open spec fn as_commit_date(p: Option<(i64, u32)>) -> Option<CommitDate> {
    match p {
        Some((s, n)) => Some(CommitDate { seconds: s, nanos: n }),
        None => None,
    }
}

/// Reads the date `git show -s --date=iso --format="%cd"` prints for a
/// commit; `None` when it is not such a date.
pub fn parse_commit_date(raw: &String) -> (r: Option<CommitDate>)
    ensures
        r == as_commit_date(naive_datetime_parse(date_text(raw@), date_format())),
{
    let no_spaces = remove_char(raw.as_str(), ' ');
    let clean = remove_char(no_spaces.as_str(), '\n');
    match parse_datetime(clean.as_str(), "%Y-%m-%d %H:%M:%S %z") {
        Some((s, n)) => Some(CommitDate { seconds: s, nanos: n }),
        None => None,
    }
}

/// The candidates as plain values: each vertex's hash with its date.
pub open spec fn dated_view(v: Seq<(Vertex, CommitDate)>) -> Seq<(Seq<char>, CommitDate)> {
    v.map_values(|e: (Vertex, CommitDate)| (e.0.hash@, e.1))
}

/// The date and hash kept after the candidates were looked at in turn,
/// starting from `start` and the hash `" "`: a candidate replaces the kept
/// one when it is later, or when the kept date is still `start`.
pub open spec fn most_recent(cands: Seq<(Seq<char>, CommitDate)>, start: CommitDate) -> (
    CommitDate,
    Seq<char>,
)
    decreases cands.len(),
{
    if cands.len() == 0 {
        (start, " "@)
    } else {
        let (d, h) = most_recent(cands.drop_last(), start);
        let (ch, cd) = cands.last();
        if d == start || is_later(cd, d) {
            (cd, ch)
        } else {
            (d, h)
        }
    }
}

/// The hash `recent_vertex` answers.
pub open spec fn recent_hash(cands: Seq<(Seq<char>, CommitDate)>) -> Seq<char> {
    most_recent(cands, start_commit_date()).1
}

/// The hash of the most recent of the candidate commits, each given with
/// its date; `" "` when there is none. Of two candidates with the same
/// date the first one looked at is kept.
pub fn recent_vertex(vertexs: &Vec<(Vertex, CommitDate)>) -> (r: Result<String, ()>)
    ensures
        r is Ok,
        r->Ok_0@ == recent_hash(dated_view(vertexs@)),
{
    let start = match parse_datetime("1981-09-05 00:00:00 +0100", "%Y-%m-%d %H:%M:%S %z") {
        Some((s, n)) => CommitDate { seconds: s, nanos: n },
        None => {
            return Err(());
        },
    };
    let ghost cands = dated_view(vertexs@);
    let mut aux_date = start;
    let mut aux_vertex = Vertex::new();
    let mut i: usize = 0;
    while i < vertexs.len()
        invariant
            i <= vertexs@.len(),
            cands == dated_view(vertexs@),
            most_recent(cands.take(i as int), start) == (aux_date, aux_vertex.hash@),
        decreases vertexs@.len() - i,
    {
        let d = vertexs[i].1;
        proof {
            assert(cands.take(i + 1).drop_last() == cands.take(i as int));
            assert(cands.take(i + 1).last() == (vertexs@[i as int].0.hash@, d));
        }
        let keep_new = (aux_date.seconds == start.seconds && aux_date.nanos == start.nanos) || (
        d.seconds > aux_date.seconds || (d.seconds == aux_date.seconds && d.nanos > aux_date.nanos));
        if keep_new {
            aux_date = d;
            aux_vertex = Vertex {
                hash: vertexs[i].0.hash.clone(),
                line: vertexs[i].0.line,
                label: vertexs[i].0.label.clone(),
            };
        }
        i = i + 1;
    }
    proof {
        assert(cands.take(vertexs@.len() as int) == cands);
    }
    Ok(aux_vertex.hash)
}


/// The most recent commit is one of the candidates or `" "`; and when no
/// candidate carries the start date, the date kept is that of a candidate
/// and no candidate is later than it.
pub proof fn lemma_recent_vertex_is_latest(cands: Seq<(Seq<char>, CommitDate)>, start: CommitDate)
    ensures
        most_recent(cands, start).1 == " "@ || exists|i: int|
            0 <= i < cands.len() && cands[i] == (most_recent(cands, start).1, most_recent(
                cands,
                start,
            ).0),
        cands.len() > 0 && (forall|i: int| 0 <= i < cands.len() ==> (#[trigger] cands[i]).1 != start)
            ==> (exists|i: int|
            0 <= i < cands.len() && cands[i] == (most_recent(cands, start).1, most_recent(
                cands,
                start,
            ).0)) && forall|i: int|
            0 <= i < cands.len() ==> !is_later((#[trigger] cands[i]).1, most_recent(cands, start).0),
    decreases cands.len(),
{
    if cands.len() > 0 {
        let d = cands.drop_last();
        lemma_recent_vertex_is_latest(d, start);
        let (kd, kh) = most_recent(d, start);
        let last = cands.last();
        assert(last == cands[cands.len() - 1]);
        assert forall|i: int| 0 <= i < d.len() implies d[i] == cands[i] by {}
        if (forall|i: int| 0 <= i < cands.len() ==> (#[trigger] cands[i]).1 != start) {
            assert forall|i: int| 0 <= i < d.len() implies (#[trigger] d[i]).1 != start by {
                assert(d[i] == cands[i]);
            }
            if d.len() == 0 {
                assert(kd == start);
            } else {
                let w = choose|i: int| 0 <= i < d.len() && d[i] == (kh, kd);
                assert(cands[w].1 != start);
            }
        }
    }
}


/// The characters of one side of a hunk header: digits and commas.
pub open spec fn side_chars(t: Seq<char>) -> bool {
    forall|i: int| 0 <= i < t.len() ==> is_digit(#[trigger] t[i]) || t[i] == ','
}

/// A decimal numeral of one or more digits whose value fits an `i64`.
pub open spec fn numeral(d: Seq<char>) -> bool {
    d.len() > 0 && all_digits(d) && digits_value(d) <= i64::MAX
}

/// A header reads its two sides alike whatever its kind letter: for a
/// change, an addition or a deletion, the hunk holds the bounds of the old
/// side and of the new side, and the kind it is read for.
pub proof fn lemma_header_sides_read_alike(left: Seq<char>, right: Seq<char>, letter: char, kind: i64)
    requires
        letter == 'c' || letter == 'a' || letter == 'd',
        side_chars(left),
        side_chars(right),
    ensures
        hunk_from_header(left + seq![letter] + right, letter, kind) == match (
            side_bounds(left),
            side_bounds(right),
        ) {
            (Some((lf, lt)), Some((rf, rt))) => Some(
                Hunk {
                    left_from: lf as i64,
                    left_to: lt as i64,
                    right_from: rf as i64,
                    right_to: rt as i64,
                    kind: kind,
                },
            ),
            _ => None,
        },
{
    let line = left + seq![letter] + right;
    assert forall|i: int| 0 <= i < line.len() implies line[i] != ' ' by {
        if i < left.len() {
            assert(line[i] == left[i]);
        } else if i > left.len() {
            assert(line[i] == right[i - left.len() - 1]);
        }
    }
    lemma_without_char_absent(line, ' ');
    assert forall|i: int| 0 <= i < left.len() implies left[i] != letter by {}
    assert forall|i: int| 0 <= i < right.len() implies right[i] != letter by {}
    lemma_split_absent(left, letter);
    lemma_split_absent(right, letter);
    lemma_split_join(left, right, letter);
    assert(split_pieces(line, letter) =~= seq![left, right]);
}

/// One side of a header as `diff` writes it: `a` or `a,b`.
pub open spec fn side_text(a: Seq<char>, b: Option<Seq<char>>) -> Seq<char> {
    match b {
        Some(d) => a + seq![','] + d,
        None => a,
    }
}

/// The last line a side written `a` or `a,b` names.
pub open spec fn side_last(a: Seq<char>, b: Option<Seq<char>>) -> int {
    match b {
        Some(d) => digits_value(d),
        None => digits_value(a),
    }
}

/// A numeral's value is not negative.
proof fn lemma_numeral_nonnegative(d: Seq<char>)
    requires
        numeral(d),
    ensures
        0 <= digits_value(d) <= i64::MAX,
{
    lemma_digits_value_prefix(d, d.len() as int);
    assert(d.take(d.len() as int) == d);
}

/// A side written by `diff` holds digits and commas only.
proof fn lemma_side_text_chars(a: Seq<char>, b: Option<Seq<char>>)
    requires
        numeral(a),
        b matches Some(d) ==> numeral(d),
    ensures
        side_chars(side_text(a, b)),
{
    let t = side_text(a, b);
    assert forall|i: int| 0 <= i < t.len() implies is_digit(#[trigger] t[i]) || t[i] == ',' by {
        if i < a.len() {
            assert(t[i] == a[i]);
        } else if let Some(d) = b {
            if i > a.len() {
                assert(t[i] == d[i - a.len() - 1]);
            }
        }
    }
}

/// Every header line of `diff` output (`l[,l]` then `c`, `a` or `d` then
/// `r[,r]`, numerals that fit an `i64`) that is read as a header adds
/// exactly one hunk, after those of the lines before it: the hunk with the
/// bounds the header writes, a bound 0 (as in `0a1,2` or `1,2d0`)
/// included, and the header's kind.
pub proof fn lemma_header_hunk_kept(
    lines: Seq<Seq<char>>,
    k: int,
    letter: char,
    kind: i64,
    la: Seq<char>,
    lb: Option<Seq<char>>,
    ra: Seq<char>,
    rb: Option<Seq<char>>,
)
    requires
        0 <= k < lines.len(),
        letter == 'c' || letter == 'a' || letter == 'd',
        numeral(la),
        lb matches Some(d) ==> numeral(d),
        numeral(ra),
        rb matches Some(d) ==> numeral(d),
        lines[k] == side_text(la, lb) + seq![letter] + side_text(ra, rb),
        line_hunk(lines[k]) == hunk_from_header(lines[k], letter, kind),
    ensures
        hunks_of_lines(lines, k + 1) == hunks_of_lines(lines, k).push(
            Hunk {
                left_from: digits_value(la) as i64,
                left_to: side_last(la, lb) as i64,
                right_from: digits_value(ra) as i64,
                right_to: side_last(ra, rb) as i64,
                kind: kind,
            },
        ),
{
    lemma_side_text_chars(la, lb);
    lemma_side_text_chars(ra, rb);
    lemma_header_sides_read_alike(side_text(la, lb), side_text(ra, rb), letter, kind);
    lemma_side_bounds_readable(la, lb);
    lemma_side_bounds_readable(ra, rb);
    lemma_numeral_nonnegative(la);
    lemma_numeral_nonnegative(ra);
    if let Some(d) = lb {
        lemma_numeral_nonnegative(d);
    }
    if let Some(d) = rb {
        lemma_numeral_nonnegative(d);
    }
}

/// A side written `n` or `n,m` with numerals that fit an `i64` can be read.
pub proof fn lemma_side_bounds_readable(a: Seq<char>, b: Option<Seq<char>>)
    requires
        numeral(a),
        b matches Some(d) ==> numeral(d),
    ensures
        side_bounds(match b {
            Some(d) => a + seq![','] + d,
            None => a,
        }) == match b {
            Some(d) => Some((digits_value(a), digits_value(d))),
            None => Some((digits_value(a), digits_value(a))),
        },
{
    assert(a[0] != '-' && a[0] != '+') by {
        assert(is_digit(a[0]));
    }
    assert(parse_decimal(a) == Some(digits_value(a))) by {
        lemma_digits_value_prefix(a, 0);
        assert(a.take(0) =~= Seq::<char>::empty());
    }
    assert forall|i: int| 0 <= i < a.len() implies a[i] != ',' by {
        assert(is_digit(a[i]));
    }
    match b {
        Some(d) => {
            assert(d[0] != '-' && d[0] != '+') by {
                assert(is_digit(d[0]));
            }
            assert(parse_decimal(d) == Some(digits_value(d))) by {
                lemma_digits_value_prefix(d, 0);
                assert(d.take(0) =~= Seq::<char>::empty());
            }
            assert forall|i: int| 0 <= i < d.len() implies d[i] != ',' by {
                assert(is_digit(d[i]));
            }
            lemma_split_absent(a, ',');
            lemma_split_absent(d, ',');
            lemma_split_join(a, d, ',');
            assert(split_pieces(a + seq![','] + d, ',') =~= seq![a, d]);
        },
        None => {
            lemma_split_absent(a, ',');
        },
    }
}

} // verus!

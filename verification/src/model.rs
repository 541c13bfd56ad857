//! The entry data model: raw commit records as fetched from a repository
//! host, and the structured journal entries extracted from them.

use vstd::prelude::*;

use crate::parser::{
    find_match, first_match_from, lemma_first_match_wf, range_text, DateParts,
};
use crate::time::{valid_ymd, Timestamp};

verus! {

/// The end of the run of line feeds starting at `i`.
pub open spec fn nl_end(s: Seq<char>, i: int) -> int
    decreases s.len() - i,
        when 0 <= i <= s.len()
{
    if i < s.len() && s[i] == '\n' {
        nl_end(s, i + 1)
    } else {
        i
    }
}

pub proof fn lemma_nl_end(s: Seq<char>, i: int)
    requires
        0 <= i <= s.len(),
    ensures
        i <= nl_end(s, i) <= s.len(),
    decreases s.len() - i,
{
    if i < s.len() && s[i] == '\n' {
        lemma_nl_end(s, i + 1);
    }
}

/// A newline sequence at `i`: an optional carriage return followed by one or
/// more line feeds. Yields the position after the sequence.
pub open spec fn sep_at(s: Seq<char>, i: int) -> Option<int>
    recommends
        0 <= i <= s.len(),
{
    if i < s.len() && s[i] == '\n' {
        Some(nl_end(s, i))
    } else if i + 1 < s.len() && s[i] == '\r' && s[i + 1] == '\n' {
        Some(nl_end(s, i + 1))
    } else {
        None
    }
}

pub proof fn lemma_sep_at(s: Seq<char>, i: int)
    requires
        0 <= i <= s.len(),
        sep_at(s, i) is Some,
    ensures
        i < sep_at(s, i)->Some_0 <= s.len(),
{
    if i < s.len() && s[i] == '\n' {
        lemma_nl_end(s, i + 1);
    } else {
        lemma_nl_end(s, i + 2);
    }
}

/// The first position at or after `i` where a newline sequence starts, or
/// the end of the text.
pub open spec fn next_sep(s: Seq<char>, i: int) -> int
    decreases s.len() - i,
        when 0 <= i <= s.len()
{
    if i >= s.len() {
        i
    } else if sep_at(s, i) is Some {
        i
    } else {
        next_sep(s, i + 1)
    }
}

pub proof fn lemma_next_sep(s: Seq<char>, i: int)
    requires
        0 <= i <= s.len(),
    ensures
        i <= next_sep(s, i) <= s.len(),
        next_sep(s, i) < s.len() ==> sep_at(s, next_sep(s, i)) is Some,
    decreases s.len() - i,
{
    if i >= s.len() {
    } else if sep_at(s, i) is Some {
    } else {
        lemma_next_sep(s, i + 1);
    }
}

/// The character ranges of the text's lines: maximal stretches between
/// newline sequences. Always at least one line; an empty text has one empty
/// line.
pub open spec fn split_from(s: Seq<char>, i: int) -> Seq<(int, int)>
    decreases s.len() - i,
        when 0 <= i <= s.len()
        via split_from_dec
{
    let e = next_sep(s, i);
    if e >= s.len() {
        seq![(i, s.len() as int)]
    } else {
        seq![(i, e)] + split_from(s, sep_at(s, e)->Some_0)
    }
}

#[via_fn]
proof fn split_from_dec(s: Seq<char>, i: int) {
    if 0 <= i <= s.len() {
        lemma_next_sep(s, i);
        let e = next_sep(s, i);
        if e < s.len() {
            lemma_sep_at(s, e);
        }
    }
}

pub proof fn lemma_split_from(s: Seq<char>, i: int)
    requires
        0 <= i <= s.len(),
    ensures
        split_from(s, i).len() >= 1,
        forall|t: int|
            0 <= t < split_from(s, i).len() ==> {
                let r = #[trigger] split_from(s, i)[t];
                i <= r.0 <= r.1 <= s.len()
            },
    decreases s.len() - i,
{
    lemma_next_sep(s, i);
    let e = next_sep(s, i);
    if e >= s.len() {
    } else {
        lemma_sep_at(s, e);
        lemma_split_from(s, sep_at(s, e)->Some_0);
    }
}

/// The value of a run of decimal digits.
pub open spec fn digits_val(t: Seq<char>) -> int
    decreases t.len(),
{
    if t.len() == 0 {
        0
    } else {
        digits_val(t.drop_last()) * 10 + (t.last() as int - 48)
    }
}

/// Saturation at the largest signed 32-bit value.
pub open spec fn sat_i32(v: int) -> int {
    if v > i32::MAX as int {
        i32::MAX as int
    } else {
        v
    }
}

proof fn lemma_digits_val_nonneg(t: Seq<char>)
    requires
        forall|w: int| 0 <= w < t.len() ==> crate::parser::is_digit(#[trigger] t[w]),
    ensures
        digits_val(t) >= 0,
    decreases t.len(),
{
    if t.len() == 0 {
    } else {
        lemma_digits_val_nonneg(t.drop_last());
    }
}

/// The value of one duration component: 0 when absent, else the digits'
/// value, saturated.
pub open spec fn comp_val(o: Option<Seq<char>>) -> int {
    match o {
        None => 0,
        Some(t) => sat_i32(digits_val(t)),
    }
}

/// The annotated duration in minutes: hours times sixty plus minutes, each
/// component defaulting to zero, the result saturated.
pub open spec fn duration_spec(h: Option<Seq<char>>, m: Option<Seq<char>>) -> int {
    sat_i32(comp_val(h) * 60 + comp_val(m))
}

/// Reads the saturated value of the digit run `s[a..b]`.
fn digits_sat(s: &str, n: usize, a: usize, b: usize) -> (r: i32)
    requires
        n == s@.len(),
        a <= b <= n,
        forall|w: int| a <= w < b ==> crate::parser::is_digit(#[trigger] s@[w]),
    ensures
        r as int == sat_i32(digits_val(s@.subrange(a as int, b as int))),
        r >= 0,
{
    let mut w = a;
    let mut acc: i64 = 0;
    let mut sat = false;
    proof {
        assert(s@.subrange(a as int, a as int) =~= Seq::<char>::empty());
    }
    while w < b
        invariant
            a <= w <= b <= n,
            n == s@.len(),
            forall|v: int| a <= v < b ==> crate::parser::is_digit(#[trigger] s@[v]),
            !sat ==> acc == digits_val(s@.subrange(a as int, w as int)) && 0 <= acc
                <= i32::MAX as i64,
            sat ==> digits_val(s@.subrange(a as int, w as int)) > i32::MAX as int,
        decreases b - w,
    {
        let c = s.get_char(w);
        let d: i64 = (c as u32) as i64 - 48;
        proof {
            assert(crate::parser::is_digit(s@[w as int]));
            assert(0 <= d <= 9);
            assert(s@.subrange(a as int, w as int + 1).drop_last() =~= s@.subrange(
                a as int,
                w as int,
            ));
            assert(s@.subrange(a as int, w as int + 1).last() == s@[w as int]);
        }
        if sat {
            proof {
                let prev = digits_val(s@.subrange(a as int, w as int));
                assert(forall|v: int|
                    0 <= v < s@.subrange(a as int, w as int).len() ==> crate::parser::is_digit(
                        #[trigger] s@.subrange(a as int, w as int)[v],
                    ));
                lemma_digits_val_nonneg(s@.subrange(a as int, w as int));
                assert(prev * 10 + d > i32::MAX as int);
            }
        } else {
            let acc2 = acc * 10 + d;
            if acc2 > 2147483647 {
                sat = true;
            } else {
                acc = acc2;
            }
        }
        w += 1;
    }
    if sat {
        2147483647
    } else {
        acc as i32
    }
}

/// The timestamp of an explicit annotation date: midnight of the given day,
/// or `None` when the fields are no valid calendar date.
pub open spec fn ts_of_parts(s: Seq<char>, p: DateParts) -> Option<Timestamp> {
    let y = sat_i32(digits_val(s.subrange(p.year.0, p.year.1)));
    let m = sat_i32(digits_val(s.subrange(p.month.0, p.month.1)));
    let d = sat_i32(digits_val(s.subrange(p.day.0, p.day.1)));
    if valid_ymd(y, m, d) {
        Some(
            Timestamp {
                year: y as i32,
                month: m as u32,
                day: d as u32,
                hour: 0,
                minute: 0,
                second: 0,
            },
        )
    } else {
        None
    }
}

/// The mathematical value of an [`Annotation`].
pub struct AnnotationV {
    pub duration: int,
    pub done: bool,
    pub reference: Option<Seq<char>>,
    pub date: Option<Timestamp>,
}

/// The data of one annotation line: duration in minutes, completion status,
/// optional reference and optional explicit date.
pub struct Annotation {
    /// Time spent in minutes.
    pub duration: i32,
    /// The status word was `DONE`; absent or `WIP` means work in progress.
    pub done: bool,
    /// The ticket reference, if present.
    pub reference: Option<String>,
    /// The explicit date, if present and a valid calendar date.
    pub date: Option<Timestamp>,
}

impl View for Annotation {
    type V = AnnotationV;

    open spec fn view(&self) -> AnnotationV {
        AnnotationV {
            duration: self.duration as int,
            done: self.done,
            reference: match self.reference {
                Some(ref t) => Some(t@),
                None => None,
            },
            date: self.date,
        }
    }
}

/// The annotation data of a line, or `None` when the line holds none.
pub open spec fn ann_of_line(s: Seq<char>) -> Option<AnnotationV> {
    match first_match_from(s, 0) {
        None => None,
        Some(cp) => Some(
            AnnotationV {
                duration: duration_spec(range_text(s, cp.hours), range_text(s, cp.minutes)),
                done: cp.status is Some && cp.status->Some_0.1 - cp.status->Some_0.0 == 4,
                reference: range_text(s, cp.reference),
                date: match cp.date_parts {
                    None => None,
                    Some(p) => ts_of_parts(s, p),
                },
            },
        ),
    }
}

/// Scans one line and extracts its annotation data, or `None` when the line
/// holds no annotation.
pub fn extract_annotation(line: &str) -> (r: Option<Annotation>)
    ensures
        match r {
            None => ann_of_line(line@) is None,
            Some(ref a) => ann_of_line(line@) == Some(a@),
        },
{
    let n = line.unicode_len();
    match find_match(line, n) {
        None => None,
        Some(m) => {
            proof {
                lemma_first_match_wf(line@, 0);
            }
            let h: i32 = match m.hours {
                Some((a, b)) => digits_sat(line, n, a, b),
                None => 0,
            };
            let mi: i32 = match m.minutes {
                Some((a, b)) => digits_sat(line, n, a, b),
                None => 0,
            };
            let dur64: i64 = (h as i64) * 60 + (mi as i64);
            let duration: i32 = if dur64 > 2147483647 {
                2147483647
            } else {
                dur64 as i32
            };
            let done = match m.status {
                Some((a, b)) => b - a == 4,
                None => false,
            };
            let reference: Option<String> = match m.reference {
                Some((a, b)) => Some(line.substring_char(a, b).to_owned()),
                None => None,
            };
            let date: Option<Timestamp> = match m.date_parts {
                Some((yr, mr, dr)) => {
                    let y = digits_sat(line, n, yr.0, yr.1);
                    let mo = digits_sat(line, n, mr.0, mr.1);
                    let d = digits_sat(line, n, dr.0, dr.1);
                    if crate::time::valid_ymd_check(y, mo, d) {
                        Some(Timestamp::from_ymd(y, mo as u32, d as u32))
                    } else {
                        None
                    }
                },
                None => None,
            };
            Some(Annotation { duration, done, reference, date })
        },
    }
}

/// The text of line `t` of the message.
pub open spec fn line_text(msg: Seq<char>, lr: Seq<(int, int)>, t: int) -> Seq<char>
    recommends
        0 <= t < lr.len(),
{
    msg.subrange(lr[t].0, lr[t].1)
}

/// The first annotation among the lines from `t` on.
pub open spec fn first_annotation(msg: Seq<char>, lr: Seq<(int, int)>, t: int) -> Option<
    AnnotationV,
>
    decreases lr.len() - t,
        when 0 <= t <= lr.len()
{
    if t >= lr.len() {
        None
    } else {
        match ann_of_line(line_text(msg, lr, t)) {
            Some(a) => Some(a),
            None => first_annotation(msg, lr, t + 1),
        }
    }
}

/// The lines from `t` on that hold no annotation, in order.
pub open spec fn kept_lines(msg: Seq<char>, lr: Seq<(int, int)>, t: int) -> Seq<Seq<char>>
    decreases lr.len() - t,
        when 0 <= t <= lr.len()
{
    if t >= lr.len() {
        Seq::empty()
    } else if crate::parser::line_matches(line_text(msg, lr, t)) {
        kept_lines(msg, lr, t + 1)
    } else {
        seq![line_text(msg, lr, t)] + kept_lines(msg, lr, t + 1)
    }
}

/// The lines joined with single line feeds.
pub open spec fn join_lines(ls: Seq<Seq<char>>) -> Seq<char>
    decreases ls.len(),
{
    if ls.len() == 0 {
        Seq::empty()
    } else if ls.len() == 1 {
        ls[0]
    } else {
        ls[0] + seq!['\n'] + join_lines(ls.skip(1))
    }
}

proof fn lemma_join_push(ls: Seq<Seq<char>>, l: Seq<char>)
    ensures
        join_lines(ls.push(l)) == if ls.len() == 0 {
            l
        } else {
            join_lines(ls) + seq!['\n'] + l
        },
    decreases ls.len(),
{
    if ls.len() == 0 {
        assert(ls.push(l)[0] == l);
        assert(join_lines(ls.push(l)) == l);
    } else if ls.len() == 1 {
        assert(ls.push(l).skip(1) =~= seq![l]);
        assert(ls.push(l)[0] == ls[0]);
        assert(join_lines(seq![l]) == l);
        assert(join_lines(ls.push(l)) =~= ls[0] + seq!['\n'] + l);
    } else {
        lemma_join_push(ls.skip(1), l);
        assert(ls.push(l).skip(1) =~= ls.skip(1).push(l));
        assert(ls.push(l)[0] == ls[0]);
        assert(join_lines(ls.push(l)) =~= ls[0] + seq!['\n'] + (join_lines(ls.skip(1))
            + seq!['\n'] + l));
        assert(ls[0] + seq!['\n'] + (join_lines(ls.skip(1)) + seq!['\n'] + l) =~= (ls[0]
            + seq!['\n'] + join_lines(ls.skip(1))) + seq!['\n'] + l);
    }
}

/// What parsing a raw commit yields: `None` when no message line matches the
/// annotation grammar; else an entry whose summary is the first line, whose
/// description is the non-annotation lines joined by line feeds with the
/// status marker appended, whose duration and reference come from the first
/// annotation line, and whose date is the annotation's date when present and
/// valid, else the commit's author date.
pub open spec fn parse_spec(c: RawCommitV) -> Option<JournalEntryV> {
    let lr = split_from(c.message, 0);
    match first_annotation(c.message, lr, 1) {
        None => None,
        Some(ann) => Some(
            JournalEntryV {
                id: c.id,
                date: match ann.date {
                    Some(t) => t,
                    None => c.author_date,
                },
                summary: line_text(c.message, lr, 0),
                description: join_lines(kept_lines(c.message, lr, 1)) + (if ann.done {
                    (" [done]")@
                } else {
                    (" [in progress]")@
                }),
                duration: ann.duration as i32,
                reference: ann.reference,
                commit_url: c.url,
            },
        ),
    }
}

/// The mathematical value of a [`RawCommit`].
pub struct RawCommitV {
    pub id: Seq<char>,
    pub message: Seq<char>,
    pub author_date: Timestamp,
    pub url: Option<Seq<char>>,
}

/// One raw commit record, as handed over by the repository host: a stable
/// identifier, the free-text message, the author date and a permalink.
pub struct RawCommit {
    /// Stable, unique commit identifier.
    pub id: String,
    /// Multi-line free-text commit message.
    pub message: String,
    /// The commit's author date.
    pub author_date: Timestamp,
    /// Permalink to the commit, if available.
    pub url: Option<String>,
}

impl View for RawCommit {
    type V = RawCommitV;

    open spec fn view(&self) -> RawCommitV {
        RawCommitV {
            id: self.id@,
            message: self.message@,
            author_date: self.author_date,
            url: match self.url {
                Some(u) => Some(u@),
                None => None,
            },
        }
    }
}

/// The mathematical value of a [`JournalEntry`].
pub struct JournalEntryV {
    pub id: Seq<char>,
    pub date: Timestamp,
    pub summary: Seq<char>,
    pub description: Seq<char>,
    pub duration: i32,
    pub reference: Option<Seq<char>>,
    pub commit_url: Option<Seq<char>>,
}

/// One structured time-tracking entry, extracted from a commit message whose
/// body holds an annotation line.
#[derive(Debug)]
pub struct JournalEntry {
    /// The originating commit's identifier; doubles as the deduplication key.
    pub id: String,
    /// The entry's date: the annotation's explicit date if present and
    /// calendar-valid, else the commit's author date.
    pub date: Timestamp,
    /// First line of the commit message, verbatim.
    pub summary: String,
    /// Remaining message lines with every annotation line removed, joined by
    /// newlines and suffixed with a status marker.
    pub description: String,
    /// Time spent in minutes; may be negative for corrective adjustments.
    pub duration: i32,
    /// Free-form external ticket reference, if present in the annotation.
    pub reference: Option<String>,
    /// Permalink to the originating commit, if available.
    pub commit_url: Option<String>,
}

impl View for JournalEntry {
    type V = JournalEntryV;

    open spec fn view(&self) -> JournalEntryV {
        JournalEntryV {
            id: self.id@,
            date: self.date,
            summary: self.summary@,
            description: self.description@,
            duration: self.duration,
            reference: match self.reference {
                Some(r) => Some(r@),
                None => None,
            },
            commit_url: match self.commit_url {
                Some(u) => Some(u@),
                None => None,
            },
        }
    }
}

/// Computes `sep_at`.
fn sep_x(s: &str, n: usize, i: usize) -> (r: Option<usize>)
    requires
        n == s@.len(),
        i <= n,
    ensures
        match r {
            None => sep_at(s@, i as int) is None,
            Some(e) => sep_at(s@, i as int) == Some(e as int) && i < e <= n,
        },
{
    let start = if i < n && s.get_char(i) == '\n' {
        i
    } else if i < n && n - i > 1 && s.get_char(i) == '\r' && s.get_char(i + 1) == '\n' {
        i + 1
    } else {
        return None;
    };
    let mut e = start;
    while e < n && s.get_char(e) == '\n'
        invariant
            start <= e <= n,
            n == s@.len(),
            nl_end(s@, start as int) == nl_end(s@, e as int),
        decreases n - e,
    {
        e += 1;
    }
    proof {
        lemma_sep_at(s@, i as int);
    }
    Some(e)
}

/// Computes the line ranges of the text.
#[verifier::loop_isolation(false)]
fn split_ranges(s: &str, n: usize) -> (r: Vec<(usize, usize)>)
    requires
        n == s@.len(),
    ensures
        r@.len() == split_from(s@, 0).len(),
        r@.len() >= 1,
        forall|t: int|
            0 <= t < r@.len() ==> {
                let g = #[trigger] r@[t];
                (g.0 as int, g.1 as int) == split_from(s@, 0)[t] && g.0 <= g.1 <= n
            },
{
    let mut out: Vec<(usize, usize)> = Vec::new();
    let mut i: usize = 0;
    let ghost whole = split_from(s@, 0);
    proof {
        lemma_split_from(s@, 0);
    }
    loop
        invariant
            i <= n,
            n == s@.len(),
            out@.len() <= whole.len(),
            whole == out@.map_values(|g: (usize, usize)| (g.0 as int, g.1 as int)) + split_from(
                s@,
                i as int,
            ),
            forall|t: int|
                0 <= t < out@.len() ==> {
                    let g = #[trigger] out@[t];
                    g.0 <= g.1 <= n
                },
        decreases n - i,
    {
        let ghost rest = split_from(s@, i as int);
        proof {
            lemma_split_from(s@, i as int);
            lemma_next_sep(s@, i as int);
        }
        // find the next separator
        let mut e = i;
        while e < n && sep_x(s, n, e).is_none()
            invariant
                i <= e <= n,
                n == s@.len(),
                next_sep(s@, i as int) == next_sep(s@, e as int),
            decreases n - e,
        {
            e += 1;
        }
        proof {
            assert(next_sep(s@, i as int) == e as int);
        }
        if e == n {
            out.push((i, n));
            proof {
                assert(rest =~= seq![(i as int, n as int)]);
                assert(out@.map_values(|g: (usize, usize)| (g.0 as int, g.1 as int))
                    =~= out@.drop_last().map_values(|g: (usize, usize)| (g.0 as int, g.1 as int))
                    + seq![(i as int, n as int)]);
                assert(whole =~= out@.map_values(|g: (usize, usize)| (g.0 as int, g.1 as int))
                    + split_from(s@, n as int + 1).take(0));
                assert(whole == out@.map_values(|g: (usize, usize)| (g.0 as int, g.1 as int)));
            }
            return out;
        } else {
            let e2 = match sep_x(s, n, e) {
                Some(x) => x,
                None => {
                    proof {
                        assert(false);
                    }
                    n
                },
            };
            out.push((i, e));
            proof {
                assert(rest == seq![(i as int, e as int)] + split_from(s@, e2 as int));
                assert(out@.map_values(|g: (usize, usize)| (g.0 as int, g.1 as int))
                    =~= out@.drop_last().map_values(|g: (usize, usize)| (g.0 as int, g.1 as int))
                    + seq![(i as int, e as int)]);
                assert(whole =~= out@.map_values(|g: (usize, usize)| (g.0 as int, g.1 as int))
                    + split_from(s@, e2 as int));
                assert(split_from(s@, e2 as int).len() >= 1) by {
                    lemma_split_from(s@, e2 as int);
                }
            }
            i = e2;
        }
    }
}

impl JournalEntry {
    /// Parses one raw commit into a journal entry: the summary is the first
    /// message line; every further line matching the annotation grammar is
    /// removed from the description; the first matching line supplies the
    /// duration, status, reference and optional explicit date. A commit whose
    /// message holds no annotation line yields `None`.
    #[verifier::loop_isolation(false)]
    #[verifier::rlimit(60)]
    pub fn from(commit: &RawCommit) -> (r: Option<JournalEntry>)
        ensures
            match r {
                None => parse_spec(commit@) is None,
                Some(ref e) => parse_spec(commit@) == Some(e@),
            },
    {
        let msg = commit.message.as_str();
        let n = msg.unicode_len();
        let ranges = split_ranges(msg, n);
        let ghost lr = split_from(msg@, 0);

        let mut found = false;
        let mut ann = Annotation { duration: 0, done: false, reference: None, date: None };
        let ghost mut ann_v = AnnotationV {
            duration: 0,
            done: false,
            reference: None,
            date: None,
        };
        let mut desc = String::new();
        let mut any_kept = false;
        let ghost mut kept: Seq<Seq<char>> = Seq::empty();

        let mut t: usize = 1;
        while t < ranges.len()
            invariant
                1 <= t <= ranges@.len(),
                kept_lines(msg@, lr, 1) == kept + kept_lines(msg@, lr, t as int),
                first_annotation(msg@, lr, 1) == if found {
                    Some(ann_v)
                } else {
                    first_annotation(msg@, lr, t as int)
                },
                desc@ == join_lines(kept),
                any_kept <==> kept.len() > 0,
                found ==> ann@ == ann_v,
            decreases ranges@.len() - t,
        {
            let (a, b) = (ranges[t].0, ranges[t].1);
            let line = msg.substring_char(a, b);
            proof {
                assert(line@ == line_text(msg@, lr, t as int));
            }
            match extract_annotation(line) {
                None => {
                    // no annotation: the line stays in the description
                    proof {
                        assert(!crate::parser::line_matches(line@));
                        lemma_join_push(kept, line@);
                    }
                    if any_kept {
                        desc.append("\n");
                        proof {
                            reveal_strlit("\n");
                            assert(("\n")@ =~= seq!['\n']);
                        }
                    }
                    desc.append(line);
                    proof {
                        kept = kept.push(line@);
                        assert(kept_lines(msg@, lr, t as int) == seq![line@] + kept_lines(
                            msg@,
                            lr,
                            t as int + 1,
                        ));
                        assert(kept.push(line@).drop_last() =~= kept);
                        assert((kept.drop_last() + kept_lines(msg@, lr, t as int)).drop_last()
                            =~= kept.drop_last() + kept_lines(msg@, lr, t as int).drop_last());
                        assert(kept_lines(msg@, lr, 1) =~= kept + kept_lines(
                            msg@,
                            lr,
                            t as int + 1,
                        ));
                    }
                    any_kept = true;
                },
                Some(a2) => {
                    // an annotation line: strip it; the first one wins
                    proof {
                        assert(crate::parser::line_matches(line@));
                        assert(kept_lines(msg@, lr, t as int) == kept_lines(msg@, lr, t as int + 1));
                        assert(first_annotation(msg@, lr, t as int) == Some(a2@));
                    }
                    if !found {
                        found = true;
                        proof {
                            ann_v = a2@;
                        }
                        ann = a2;
                    }
                },
            }
            t += 1;
        }
        proof {
            assert(kept_lines(msg@, lr, ranges@.len() as int) =~= Seq::<Seq<char>>::empty());
            assert(kept_lines(msg@, lr, 1) =~= kept);
            assert(first_annotation(msg@, lr, ranges@.len() as int) is None);
        }
        if !found {
            return None;
        }
        if ann.done {
            desc.append(" [done]");
        } else {
            desc.append(" [in progress]");
        }
        let date = match ann.date {
            Some(d) => d,
            None => commit.author_date,
        };
        let summary = msg.substring_char(ranges[0].0, ranges[0].1).to_owned();
        proof {
            assert(summary@ == line_text(msg@, lr, 0));
        }
        Some(
            JournalEntry {
                id: commit.id.clone(),
                date,
                summary,
                description: desc,
                duration: ann.duration,
                reference: ann.reference,
                commit_url: match &commit.url {
                    Some(u) => Some(u.clone()),
                    None => None,
                },
            },
        )
    }

    /// Parses a batch of raw commits, in order; commits without an
    /// annotation line are dropped.
    pub fn from_repo_commits(commits: Vec<RawCommit>) -> (r: Vec<JournalEntry>)
        ensures
            crate::merge::entry_views(r@) == entries_of(commits@.map_values(|c: RawCommit| c@)),
    {
        let ghost cs = commits@.map_values(|c: RawCommit| c@);
        let mut out: Vec<JournalEntry> = Vec::new();
        let mut i: usize = 0;
        proof {
            assert(crate::merge::entry_views(out@) =~= Seq::<JournalEntryV>::empty());
            assert(cs.skip(0) =~= cs);
        }
        while i < commits.len()
            invariant
                i <= commits@.len(),
                cs == commits@.map_values(|c: RawCommit| c@),
                entries_of(cs) == crate::merge::entry_views(out@) + entries_of(
                    cs.skip(i as int),
                ),
            decreases commits@.len() - i,
        {
            let ghost pre = crate::merge::entry_views(out@);
            proof {
                assert(cs.skip(i as int)[0] == cs[i as int]);
                assert(cs[i as int] == commits@[i as int]@);
                assert(cs.skip(i as int).skip(1) =~= cs.skip(i as int + 1));
            }
            match JournalEntry::from(&commits[i]) {
                Some(e) => {
                    out.push(e);
                    proof {
                        assert(crate::merge::entry_views(out@) =~= pre.push(e@));
                        assert(entries_of(cs.skip(i as int)) == seq![e@] + entries_of(
                            cs.skip(i as int + 1),
                        ));
                        assert(pre + (seq![e@] + entries_of(cs.skip(i as int + 1))) =~= pre.push(
                            e@,
                        ) + entries_of(cs.skip(i as int + 1)));
                    }
                },
                None => {},
            }
            i += 1;
        }
        proof {
            assert(cs.skip(cs.len() as int).len() == 0);
            assert(entries_of(cs.skip(cs.len() as int)) =~= Seq::<JournalEntryV>::empty());
            assert(crate::merge::entry_views(out@) + Seq::<JournalEntryV>::empty()
                =~= crate::merge::entry_views(out@));
        }
        out
    }
}

/// The entries that a batch of raw commits yields, in order.
pub open spec fn entries_of(cs: Seq<RawCommitV>) -> Seq<JournalEntryV>
    decreases cs.len(),
{
    if cs.len() == 0 {
        Seq::empty()
    } else {
        match parse_spec(cs[0]) {
            Some(e) => seq![e] + entries_of(cs.skip(1)),
            None => entries_of(cs.skip(1)),
        }
    }
}

} // verus!

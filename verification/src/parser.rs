//! The tolerant annotation grammar: a line encodes time spent, an optional
//! status, an optional reference and an optional explicit date, for example
//! `5h10m-WIP-#1` or `[4h]` or `55m-DONE-25.09.2014`.
//!
//! A line matches when, at some position, it holds one or more time tokens
//! (`<N>h`, `<N>m`, each optionally bracket-delimited), optionally followed
//! by `-status` (`DONE` or `WIP`, case-insensitive), `-reference` (`#` and
//! the rest of the line) and `-date` (`YYYY-M-D` or `DD.M.YYYY`), each
//! optionally bracket-delimited. The leftmost match wins; of repeated time
//! tokens the last of each kind wins; a reference swallows the rest of the
//! line, so a date can only follow a status directly.

use vstd::prelude::*;

verus! {

/// The captured pieces of an annotation line, as character ranges.
pub struct CapturesPos {
    pub hours: Option<(int, int)>,
    pub minutes: Option<(int, int)>,
    pub status: Option<(int, int)>,
    pub reference: Option<(int, int)>,
    pub date: Option<(int, int)>,
    pub date_parts: Option<DateParts>,
}

/// The captured pieces of an annotation line, as text.
pub struct CapturesV {
    pub hours: Option<Seq<char>>,
    pub minutes: Option<Seq<char>>,
    pub status: Option<Seq<char>>,
    pub reference: Option<Seq<char>>,
    pub date: Option<Seq<char>>,
}

/// A decimal digit.
pub open spec fn is_digit(c: char) -> bool {
    '0' <= c && c <= '9'
}

/// The end of the digit run starting at `i`.
pub open spec fn digit_end(s: Seq<char>, i: int) -> int
    decreases s.len() - i,
        when 0 <= i <= s.len()
{
    if i < s.len() && is_digit(s[i]) {
        digit_end(s, i + 1)
    } else {
        i
    }
}

pub proof fn lemma_digit_end(s: Seq<char>, i: int)
    requires
        0 <= i <= s.len(),
    ensures
        i <= digit_end(s, i) <= s.len(),
    decreases s.len() - i,
{
    if i < s.len() && is_digit(s[i]) {
        lemma_digit_end(s, i + 1);
    }
}

/// One time token at `i`: an optional `[`, a digit run, then `h` (with up to
/// two closing brackets) or `m` (with up to one). Yields the position after
/// the token and the hour or minute digit range.
pub open spec fn rep_at(s: Seq<char>, i: int) -> Option<(int, Option<(int, int)>, Option<(int, int)>)>
    recommends
        0 <= i <= s.len(),
{
    let j = if i < s.len() && s[i] == '[' {
        i + 1
    } else {
        i
    };
    let k = digit_end(s, j);
    if k == j {
        None
    } else if k < s.len() && s[k] == 'h' {
        let p1 = if k + 1 < s.len() && s[k + 1] == ']' {
            k + 2
        } else {
            k + 1
        };
        let p2 = if p1 < s.len() && s[p1] == ']' {
            p1 + 1
        } else {
            p1
        };
        Some((p2, Some((j, k)), None))
    } else if k < s.len() && s[k] == 'm' {
        let p1 = if k + 1 < s.len() && s[k + 1] == ']' {
            k + 2
        } else {
            k + 1
        };
        Some((p1, None, Some((j, k))))
    } else {
        None
    }
}

pub proof fn lemma_rep_at_bounds(s: Seq<char>, i: int)
    requires
        0 <= i <= s.len(),
        rep_at(s, i) is Some,
    ensures
        i < rep_at(s, i)->Some_0.0 <= s.len(),
{
    let j = if i < s.len() && s[i] == '[' {
        i + 1
    } else {
        i
    };
    lemma_digit_end(s, j);
}

/// All time tokens from `i` on: applies `rep_at` while it matches; of
/// repeated hour or minute captures the last wins.
pub open spec fn reps_from(
    s: Seq<char>,
    i: int,
    h0: Option<(int, int)>,
    m0: Option<(int, int)>,
) -> (int, Option<(int, int)>, Option<(int, int)>)
    decreases s.len() - i,
        when 0 <= i <= s.len()
        via reps_from_dec
{
    match rep_at(s, i) {
        None => (i, h0, m0),
        Some((p, h, m)) => reps_from(
            s,
            p,
            if h is Some {
                h
            } else {
                h0
            },
            if m is Some {
                m
            } else {
                m0
            },
        ),
    }
}

#[via_fn]
proof fn reps_from_dec(s: Seq<char>, i: int, h0: Option<(int, int)>, m0: Option<(int, int)>) {
    if 0 <= i <= s.len() && rep_at(s, i) is Some {
        lemma_rep_at_bounds(s, i);
    }
}

pub proof fn lemma_reps_from_bounds(s: Seq<char>, i: int, h0: Option<(int, int)>, m0: Option<(int, int)>)
    requires
        0 <= i <= s.len(),
    ensures
        i <= reps_from(s, i, h0, m0).0 <= s.len(),
    decreases s.len() - i,
{
    match rep_at(s, i) {
        None => {},
        Some((p, h, m)) => {
            lemma_rep_at_bounds(s, i);
            lemma_reps_from_bounds(
                s,
                p,
                if h is Some {
                    h
                } else {
                    h0
                },
                if m is Some {
                    m
                } else {
                    m0
                },
            );
        },
    }
}

/// The two characters are equal up to ASCII case.
pub open spec fn eq_ci(c: char, lower: char) -> bool {
    c == lower || c as int == lower as int - 32
}

/// `DONE`, case-insensitive, at `q`.
pub open spec fn is_done(s: Seq<char>, q: int) -> bool {
    &&& q + 4 <= s.len()
    &&& eq_ci(s[q], 'd')
    &&& eq_ci(s[q + 1], 'o')
    &&& eq_ci(s[q + 2], 'n')
    &&& eq_ci(s[q + 3], 'e')
}

/// `WIP`, case-insensitive, at `q`.
pub open spec fn is_wip(s: Seq<char>, q: int) -> bool {
    &&& q + 3 <= s.len()
    &&& eq_ci(s[q], 'w')
    &&& eq_ci(s[q + 1], 'i')
    &&& eq_ci(s[q + 2], 'p')
}

/// One position further if a closing bracket stands at `e`.
pub open spec fn after_bracket(s: Seq<char>, e: int) -> int {
    if e < s.len() && s[e] == ']' {
        e + 1
    } else {
        e
    }
}

/// The status segment at `p`: `-`, an optional `[`, the status word, an
/// optional `]`. Yields the position after the segment and the status range,
/// or `(p, None)` when the segment is absent.
pub open spec fn status_at(s: Seq<char>, p: int) -> (int, Option<(int, int)>)
    recommends
        0 <= p <= s.len(),
{
    if p < s.len() && s[p] == '-' {
        let q = if p + 1 < s.len() && s[p + 1] == '[' {
            p + 2
        } else {
            p + 1
        };
        if is_done(s, q) {
            (after_bracket(s, q + 4), Some((q, q + 4)))
        } else if is_wip(s, q) {
            (after_bracket(s, q + 3), Some((q, q + 3)))
        } else {
            (p, None)
        }
    } else {
        (p, None)
    }
}

/// The reference segment at `p`: `-`, an optional `[`, then `#` and at least
/// one further character; the capture greedily runs to the end of the line.
pub open spec fn reference_at(s: Seq<char>, p: int) -> (int, Option<(int, int)>)
    recommends
        0 <= p <= s.len(),
{
    if p < s.len() && s[p] == '-' {
        let q = if p + 1 < s.len() && s[p + 1] == '[' {
            p + 2
        } else {
            p + 1
        };
        if q < s.len() && s[q] == '#' && q + 1 < s.len() {
            (s.len() as int, Some((q, s.len() as int)))
        } else {
            (p, None)
        }
    } else {
        (p, None)
    }
}

/// The year, month and day digit ranges of a date capture.
pub struct DateParts {
    pub year: (int, int),
    pub month: (int, int),
    pub day: (int, int),
}

/// A `YYYY-M-D` date at `q`: exactly four digits, `-`, one or two digits,
/// `-`, one or two digits. Yields the position after the day and the
/// component ranges.
pub open spec fn date_ymd_end(s: Seq<char>, q: int) -> Option<(int, DateParts)>
    recommends
        0 <= q,
{
    if q + 4 < s.len() && is_digit(s[q]) && is_digit(s[q + 1]) && is_digit(s[q + 2]) && is_digit(
        s[q + 3],
    ) && s[q + 4] == '-' {
        let u = q + 5;
        let v = if u + 2 < s.len() && is_digit(s[u]) && is_digit(s[u + 1]) && s[u + 2] == '-' {
            u + 3
        } else if u + 1 < s.len() && is_digit(s[u]) && s[u + 1] == '-' {
            u + 2
        } else {
            -1
        };
        if v >= 0 {
            if v < s.len() && is_digit(s[v]) {
                let e = if v + 1 < s.len() && is_digit(s[v + 1]) {
                    v + 2
                } else {
                    v + 1
                };
                Some(
                    (
                        e,
                        DateParts { year: (q, q + 4), month: (u, v - 1), day: (v, e) },
                    ),
                )
            } else {
                None
            }
        } else {
            None
        }
    } else {
        None
    }
}

/// A `DD.M.YYYY` date at `q`: exactly two digits, `.`, one or two digits,
/// `.`, exactly four digits. Yields the position after the year and the
/// component ranges.
pub open spec fn date_dmy_end(s: Seq<char>, q: int) -> Option<(int, DateParts)>
    recommends
        0 <= q,
{
    if q + 2 < s.len() && is_digit(s[q]) && is_digit(s[q + 1]) && s[q + 2] == '.' {
        let u = q + 3;
        let v = if u + 2 < s.len() && is_digit(s[u]) && is_digit(s[u + 1]) && s[u + 2] == '.' {
            u + 3
        } else if u + 1 < s.len() && is_digit(s[u]) && s[u + 1] == '.' {
            u + 2
        } else {
            -1
        };
        if v >= 0 {
            if v + 4 <= s.len() && is_digit(s[v]) && is_digit(s[v + 1]) && is_digit(s[v + 2])
                && is_digit(s[v + 3]) {
                Some(
                    (
                        v + 4,
                        DateParts { year: (v, v + 4), month: (u, v - 1), day: (q, q + 2) },
                    ),
                )
            } else {
                None
            }
        } else {
            None
        }
    } else {
        None
    }
}

/// The date segment at `p`: `-`, an optional `[`, a date in either form, an
/// optional `]`. Yields the position after the segment, the capture range
/// and the component ranges.
pub open spec fn date_at(s: Seq<char>, p: int) -> (int, Option<(int, int)>, Option<DateParts>)
    recommends
        0 <= p <= s.len(),
{
    if p < s.len() && s[p] == '-' {
        let q = if p + 1 < s.len() && s[p + 1] == '[' {
            p + 2
        } else {
            p + 1
        };
        match date_ymd_end(s, q) {
            Some((e, parts)) => (after_bracket(s, e), Some((q, e)), Some(parts)),
            None => match date_dmy_end(s, q) {
                Some((e, parts)) => (after_bracket(s, e), Some((q, e)), Some(parts)),
                None => (p, None, None),
            },
        }
    } else {
        (p, None, None)
    }
}

/// A whole annotation match starting exactly at `i`: one or more time
/// tokens, then the optional status, reference and date segments.
pub open spec fn match_at(s: Seq<char>, i: int) -> Option<CapturesPos>
    recommends
        0 <= i <= s.len(),
{
    match rep_at(s, i) {
        None => None,
        Some((p0, h0, m0)) => {
            let r = reps_from(s, p0, h0, m0);
            let st = status_at(s, r.0);
            let rf = reference_at(s, st.0);
            let dt = date_at(s, rf.0);
            Some(
                CapturesPos {
                    hours: r.1,
                    minutes: r.2,
                    status: st.1,
                    reference: rf.1,
                    date: dt.1,
                    date_parts: dt.2,
                },
            )
        },
    }
}

/// The leftmost annotation match at or after `i`.
pub open spec fn first_match_from(s: Seq<char>, i: int) -> Option<CapturesPos>
    decreases s.len() - i,
        when 0 <= i <= s.len()
{
    if i >= s.len() {
        None
    } else if match_at(s, i) is Some {
        match_at(s, i)
    } else {
        first_match_from(s, i + 1)
    }
}

/// The text of a captured range.
pub open spec fn range_text(s: Seq<char>, r: Option<(int, int)>) -> Option<Seq<char>> {
    match r {
        None => None,
        Some((a, b)) => Some(s.subrange(a, b)),
    }
}

/// The captures of a line, or `None` when the line holds no annotation.
pub open spec fn line_captures(s: Seq<char>) -> Option<CapturesV> {
    match first_match_from(s, 0) {
        None => None,
        Some(cp) => Some(
            CapturesV {
                hours: range_text(s, cp.hours),
                minutes: range_text(s, cp.minutes),
                status: range_text(s, cp.status),
                reference: range_text(s, cp.reference),
                date: range_text(s, cp.date),
            },
        ),
    }
}

/// A line is an annotation line exactly when the grammar matches somewhere
/// in it.
pub open spec fn line_matches(s: Seq<char>) -> bool {
    first_match_from(s, 0) is Some
}

/// The range is a non-empty run of digits within the line.
pub open spec fn digit_range(s: Seq<char>, r: Option<(int, int)>) -> bool {
    match r {
        None => true,
        Some((a, b)) => {
            &&& 0 <= a < b <= s.len()
            &&& forall|w: int| a <= w < b ==> is_digit(#[trigger] s[w])
        },
    }
}

pub proof fn lemma_digit_end_digits(s: Seq<char>, i: int)
    requires
        0 <= i <= s.len(),
    ensures
        forall|w: int| i <= w < digit_end(s, i) ==> is_digit(#[trigger] s[w]),
    decreases s.len() - i,
{
    lemma_digit_end(s, i);
    if i < s.len() && is_digit(s[i]) {
        lemma_digit_end_digits(s, i + 1);
    }
}

proof fn lemma_rep_at_digits(s: Seq<char>, i: int)
    requires
        0 <= i <= s.len(),
        rep_at(s, i) is Some,
    ensures
        digit_range(s, rep_at(s, i)->Some_0.1),
        digit_range(s, rep_at(s, i)->Some_0.2),
{
    let j = if i < s.len() && s[i] == '[' {
        i + 1
    } else {
        i
    };
    lemma_digit_end(s, j);
    lemma_digit_end_digits(s, j);
}

proof fn lemma_reps_from_digits(
    s: Seq<char>,
    i: int,
    h0: Option<(int, int)>,
    m0: Option<(int, int)>,
)
    requires
        0 <= i <= s.len(),
        digit_range(s, h0),
        digit_range(s, m0),
    ensures
        digit_range(s, reps_from(s, i, h0, m0).1),
        digit_range(s, reps_from(s, i, h0, m0).2),
    decreases s.len() - i,
{
    match rep_at(s, i) {
        None => {},
        Some((p, h, m)) => {
            lemma_rep_at_bounds(s, i);
            lemma_rep_at_digits(s, i);
            lemma_reps_from_digits(
                s,
                p,
                if h is Some {
                    h
                } else {
                    h0
                },
                if m is Some {
                    m
                } else {
                    m0
                },
            );
        },
    }
}

/// Everything a consumer needs of a match is well-formed: hour, minute and
/// date components are digit runs, the status is the three- or four-letter
/// word, and every range lies within the line.
pub open spec fn match_wf(s: Seq<char>, cp: CapturesPos) -> bool {
    &&& digit_range(s, cp.hours)
    &&& digit_range(s, cp.minutes)
    &&& match cp.status {
        None => true,
        Some((a, b)) => 0 <= a <= b <= s.len() && (b - a == 3 || b - a == 4),
    }
    &&& match cp.reference {
        None => true,
        Some((a, b)) => 0 <= a <= b <= s.len(),
    }
    &&& match cp.date {
        None => true,
        Some((a, b)) => 0 <= a <= b <= s.len(),
    }
    &&& match cp.date_parts {
        None => true,
        Some(p) => {
            &&& digit_range(s, Some(p.year))
            &&& digit_range(s, Some(p.month))
            &&& digit_range(s, Some(p.day))
            &&& p.year.1 - p.year.0 == 4
        },
    }
}

proof fn lemma_match_at_wf(s: Seq<char>, i: int)
    requires
        0 <= i <= s.len(),
        match_at(s, i) is Some,
    ensures
        match_wf(s, match_at(s, i)->Some_0),
{
    let r0 = rep_at(s, i);
    lemma_rep_at_bounds(s, i);
    lemma_rep_at_digits(s, i);
    let (p0, h0, m0) = r0->Some_0;
    lemma_reps_from_digits(s, p0, h0, m0);
    lemma_reps_from_bounds(s, p0, h0, m0);
}

pub proof fn lemma_first_match_wf(s: Seq<char>, i: int)
    requires
        0 <= i <= s.len(),
        first_match_from(s, i) is Some,
    ensures
        match_wf(s, first_match_from(s, i)->Some_0),
    decreases s.len() - i,
{
    if i >= s.len() {
    } else if match_at(s, i) is Some {
        lemma_match_at_wf(s, i);
    } else {
        lemma_first_match_wf(s, i + 1);
    }
}

/// A position range as mathematical integers.
pub open spec fn orng(o: Option<(usize, usize)>) -> Option<(int, int)> {
    match o {
        None => None,
        Some((a, b)) => Some((a as int, b as int)),
    }
}

/// The range is well-formed and within a line of length `n`.
pub open spec fn rng_ok(o: Option<(usize, usize)>, n: usize) -> bool {
    match o {
        None => true,
        Some((a, b)) => a <= b <= n,
    }
}

/// The captured pieces of an annotation line as positions, executable form.
pub struct MatchPos {
    pub hours: Option<(usize, usize)>,
    pub minutes: Option<(usize, usize)>,
    pub status: Option<(usize, usize)>,
    pub reference: Option<(usize, usize)>,
    pub date: Option<(usize, usize)>,
    pub date_parts: Option<((usize, usize), (usize, usize), (usize, usize))>,
}

/// The executable match positions agree with the specified capture
/// positions, and all ranges lie within the line.
pub open spec fn match_pos_ok(m: MatchPos, c: CapturesPos, n: usize) -> bool {
    &&& orng(m.hours) == c.hours
    &&& orng(m.minutes) == c.minutes
    &&& orng(m.status) == c.status
    &&& orng(m.reference) == c.reference
    &&& orng(m.date) == c.date
    &&& match (m.date_parts, c.date_parts) {
        (None, None) => true,
        (Some((y, mo, d)), Some(p)) => {
            &&& orng(Some(y)) == Some(p.year)
            &&& orng(Some(mo)) == Some(p.month)
            &&& orng(Some(d)) == Some(p.day)
            &&& rng_ok(Some(y), n)
            &&& rng_ok(Some(mo), n)
            &&& rng_ok(Some(d), n)
        },
        _ => false,
    }
    &&& rng_ok(m.hours, n)
    &&& rng_ok(m.minutes, n)
    &&& rng_ok(m.status, n)
    &&& rng_ok(m.reference, n)
    &&& rng_ok(m.date, n)
}

/// Decides `is_digit`.
fn digit_x(c: char) -> (r: bool)
    ensures
        r == is_digit(c),
{
    '0' <= c && c <= '9'
}

/// Decides `eq_ci`.
fn eq_ci_x(c: char, lower: char) -> (r: bool)
    ensures
        r == eq_ci(c, lower),
{
    c == lower || (c as u32) + 32 == (lower as u32)
}

/// Computes `digit_end`.
fn digit_end_x(s: &str, n: usize, i: usize) -> (r: usize)
    requires
        n == s@.len(),
        i <= n,
    ensures
        r == digit_end(s@, i as int),
        i <= r <= n,
{
    let mut r = i;
    while r < n && digit_x(s.get_char(r))
        invariant
            i <= r <= n,
            n == s@.len(),
            digit_end(s@, i as int) == digit_end(s@, r as int),
        decreases n - r,
    {
        r += 1;
    }
    r
}

/// Computes `rep_at`.
#[verifier::loop_isolation(false)]
fn rep_x(s: &str, n: usize, i: usize) -> (r: Option<(usize, Option<(usize, usize)>, Option<(usize, usize)>)>)
    requires
        n == s@.len(),
        i <= n,
    ensures
        match r {
            None => rep_at(s@, i as int) is None,
            Some((p, h, m)) => {
                &&& rep_at(s@, i as int) == Some((p as int, orng(h), orng(m)))
                &&& i < p <= n
                &&& rng_ok(h, n)
                &&& rng_ok(m, n)
            },
        },
{
    let j = if i < n && s.get_char(i) == '[' {
        i + 1
    } else {
        i
    };
    let k = digit_end_x(s, n, j);
    if k == j {
        None
    } else if k < n && s.get_char(k) == 'h' {
        let p1 = if k + 1 < n && s.get_char(k + 1) == ']' {
            k + 2
        } else {
            k + 1
        };
        let p2 = if p1 < n && s.get_char(p1) == ']' {
            p1 + 1
        } else {
            p1
        };
        Some((p2, Some((j, k)), None))
    } else if k < n && s.get_char(k) == 'm' {
        let p1 = if k + 1 < n && s.get_char(k + 1) == ']' {
            k + 2
        } else {
            k + 1
        };
        Some((p1, None, Some((j, k))))
    } else {
        None
    }
}

/// Computes `reps_from`.
#[verifier::loop_isolation(false)]
fn reps_x(s: &str, n: usize, i: usize, h0: Option<(usize, usize)>, m0: Option<(usize, usize)>) -> (r: (
    usize,
    Option<(usize, usize)>,
    Option<(usize, usize)>,
))
    requires
        n == s@.len(),
        i <= n,
        rng_ok(h0, n),
        rng_ok(m0, n),
    ensures
        reps_from(s@, i as int, orng(h0), orng(m0)) == (r.0 as int, orng(r.1), orng(r.2)),
        r.0 <= n,
        rng_ok(r.1, n),
        rng_ok(r.2, n),
{
    let mut p = i;
    let mut h = h0;
    let mut m = m0;
    let mut go = true;
    while go
        invariant
            i <= p <= n,
            rng_ok(h, n),
            rng_ok(m, n),
            reps_from(s@, i as int, orng(h0), orng(m0)) == reps_from(s@, p as int, orng(h), orng(m)),
            !go ==> rep_at(s@, p as int) is None,
        decreases n - p + (if go {
            1int
        } else {
            0int
        }),
    {
        match rep_x(s, n, p) {
            None => {
                go = false;
            },
            Some((p2, h2, m2)) => {
                proof {
                    assert(reps_from(s@, p as int, orng(h), orng(m)) == reps_from(
                        s@,
                        p2 as int,
                        if orng(h2) is Some {
                            orng(h2)
                        } else {
                            orng(h)
                        },
                        if orng(m2) is Some {
                            orng(m2)
                        } else {
                            orng(m)
                        },
                    ));
                }
                p = p2;
                if h2.is_some() {
                    h = h2;
                }
                if m2.is_some() {
                    m = m2;
                }
            },
        }
    }
    (p, h, m)
}

/// Computes `status_at`.
#[verifier::loop_isolation(false)]
fn status_x(s: &str, n: usize, p: usize) -> (r: (usize, Option<(usize, usize)>))
    requires
        n == s@.len(),
        p <= n,
    ensures
        status_at(s@, p as int) == (r.0 as int, orng(r.1)),
        r.0 <= n,
        rng_ok(r.1, n),
{
    if p < n && s.get_char(p) == '-' {
        let q = if p + 1 < n && s.get_char(p + 1) == '[' {
            p + 2
        } else {
            p + 1
        };
        if q <= n && n - q >= 4 && eq_ci_x(s.get_char(q), 'd') && eq_ci_x(s.get_char(q + 1), 'o') && eq_ci_x(
            s.get_char(q + 2),
            'n',
        ) && eq_ci_x(s.get_char(q + 3), 'e') {
            let e = if q + 4 < n && s.get_char(q + 4) == ']' {
                q + 5
            } else {
                q + 4
            };
            (e, Some((q, q + 4)))
        } else if q <= n && n - q >= 3 && eq_ci_x(s.get_char(q), 'w') && eq_ci_x(s.get_char(q + 1), 'i')
            && eq_ci_x(s.get_char(q + 2), 'p') {
            let e = if q + 3 < n && s.get_char(q + 3) == ']' {
                q + 4
            } else {
                q + 3
            };
            (e, Some((q, q + 3)))
        } else {
            (p, None)
        }
    } else {
        (p, None)
    }
}

/// Computes `reference_at`.
#[verifier::loop_isolation(false)]
fn reference_x(s: &str, n: usize, p: usize) -> (r: (usize, Option<(usize, usize)>))
    requires
        n == s@.len(),
        p <= n,
    ensures
        reference_at(s@, p as int) == (r.0 as int, orng(r.1)),
        r.0 <= n,
        rng_ok(r.1, n),
{
    if p < n && s.get_char(p) == '-' {
        let q = if p + 1 < n && s.get_char(p + 1) == '[' {
            p + 2
        } else {
            p + 1
        };
        if q < n && s.get_char(q) == '#' && q + 1 < n {
            (n, Some((q, n)))
        } else {
            (p, None)
        }
    } else {
        (p, None)
    }
}

/// Computes `date_at`.
#[verifier::loop_isolation(false)]
#[verifier::rlimit(80)]
fn date_x(s: &str, n: usize, p: usize) -> (r: (
    usize,
    Option<(usize, usize)>,
    Option<((usize, usize), (usize, usize), (usize, usize))>,
))
    requires
        n == s@.len(),
        p <= n,
    ensures
        date_at(s@, p as int).0 == r.0 as int,
        date_at(s@, p as int).1 == orng(r.1),
        r.0 <= n,
        rng_ok(r.1, n),
        match (r.2, date_at(s@, p as int).2) {
            (None, None) => true,
            (Some((y, mo, d)), Some(parts)) => {
                &&& orng(Some(y)) == Some(parts.year)
                &&& orng(Some(mo)) == Some(parts.month)
                &&& orng(Some(d)) == Some(parts.day)
                &&& rng_ok(Some(y), n)
                &&& rng_ok(Some(mo), n)
                &&& rng_ok(Some(d), n)
            },
            _ => false,
        },
{
    if p < n && s.get_char(p) == '-' {
        let q = if p + 1 < n && s.get_char(p + 1) == '[' {
            p + 2
        } else {
            p + 1
        };
        // YYYY-M-D
        if q <= n && n - q > 4 && digit_x(s.get_char(q)) && digit_x(s.get_char(q + 1)) && digit_x(
            s.get_char(q + 2),
        ) && digit_x(s.get_char(q + 3)) && s.get_char(q + 4) == '-' {
            let u = q + 5;
            let v = if n - u > 2 && digit_x(s.get_char(u)) && digit_x(s.get_char(u + 1))
                && s.get_char(u + 2) == '-' {
                u + 3
            } else if n - u > 1 && digit_x(s.get_char(u)) && s.get_char(u + 1) == '-' {
                u + 2
            } else {
                0
            };
            if v > 0 && v < n && digit_x(s.get_char(v)) {
                let e = if v + 1 < n && digit_x(s.get_char(v + 1)) {
                    v + 2
                } else {
                    v + 1
                };
                let e2 = if e < n && s.get_char(e) == ']' {
                    e + 1
                } else {
                    e
                };
                return (e2, Some((q, e)), Some(((q, q + 4), (u, v - 1), (v, e))));
            }
        }
        // DD.M.YYYY
        if q <= n && n - q > 2 && digit_x(s.get_char(q)) && digit_x(s.get_char(q + 1)) && s.get_char(
            q + 2,
        ) == '.' {
            let u = q + 3;
            let v = if n - u > 2 && digit_x(s.get_char(u)) && digit_x(s.get_char(u + 1))
                && s.get_char(u + 2) == '.' {
                u + 3
            } else if n - u > 1 && digit_x(s.get_char(u)) && s.get_char(u + 1) == '.' {
                u + 2
            } else {
                0
            };
            if v > 0 && v <= n && n - v >= 4 && digit_x(s.get_char(v)) && digit_x(s.get_char(v + 1))
                && digit_x(s.get_char(v + 2)) && digit_x(s.get_char(v + 3)) {
                let e = v + 4;
                let e2 = if e < n && s.get_char(e) == ']' {
                    e + 1
                } else {
                    e
                };
                return (e2, Some((q, e)), Some(((v, v + 4), (u, v - 1), (q, q + 2))));
            }
        }
        (p, None, None)
    } else {
        (p, None, None)
    }
}

/// Computes `match_at`.
#[verifier::loop_isolation(false)]
fn match_x(s: &str, n: usize, i: usize) -> (r: Option<MatchPos>)
    requires
        n == s@.len(),
        i <= n,
    ensures
        match r {
            None => match_at(s@, i as int) is None,
            Some(m) => {
                &&& match_at(s@, i as int) is Some
                &&& match_pos_ok(m, match_at(s@, i as int)->Some_0, n)
            },
        },
{
    match rep_x(s, n, i) {
        None => None,
        Some((p0, h0, m0)) => {
            let rr = reps_x(s, n, p0, h0, m0);
            let st = status_x(s, n, rr.0);
            let rf = reference_x(s, n, st.0);
            let dt = date_x(s, n, rf.0);
            Some(
                MatchPos {
                    hours: rr.1,
                    minutes: rr.2,
                    status: st.1,
                    reference: rf.1,
                    date: dt.1,
                    date_parts: dt.2,
                },
            )
        },
    }
}

/// Finds the leftmost annotation match in the line.
#[verifier::loop_isolation(false)]
pub fn find_match(s: &str, n: usize) -> (r: Option<MatchPos>)
    requires
        n == s@.len(),
    ensures
        match r {
            None => first_match_from(s@, 0) is None,
            Some(m) => {
                &&& first_match_from(s@, 0) is Some
                &&& match_pos_ok(m, first_match_from(s@, 0)->Some_0, n)
            },
        },
{
    let mut i: usize = 0;
    while i < n
        invariant
            i <= n,
            first_match_from(s@, 0) == first_match_from(s@, i as int),
        decreases n - i,
    {
        match match_x(s, n, i) {
            Some(m) => {
                return Some(m);
            },
            None => {
                i += 1;
            },
        }
    }
    None
}

/// The captured pieces of an annotation line, as owned text.
pub struct AnnotationCaptures {
    pub hours: Option<String>,
    pub minutes: Option<String>,
    pub status: Option<String>,
    pub reference: Option<String>,
    pub date: Option<String>,
}

impl View for AnnotationCaptures {
    type V = CapturesV;

    open spec fn view(&self) -> CapturesV {
        CapturesV {
            hours: match self.hours {
                Some(ref t) => Some(t@),
                None => None,
            },
            minutes: match self.minutes {
                Some(ref t) => Some(t@),
                None => None,
            },
            status: match self.status {
                Some(ref t) => Some(t@),
                None => None,
            },
            reference: match self.reference {
                Some(ref t) => Some(t@),
                None => None,
            },
            date: match self.date {
                Some(ref t) => Some(t@),
                None => None,
            },
        }
    }
}

/// The text of one captured range.
fn take_range(s: &str, n: usize, r: Option<(usize, usize)>) -> (t: Option<String>)
    requires
        n == s@.len(),
        rng_ok(r, n),
    ensures
        match t {
            None => orng(r) is None,
            Some(ref w) => orng(r) is Some && Some(w@) == range_text(s@, orng(r)),
        },
{
    match r {
        Some((a, b)) => Some(s.substring_char(a, b).to_owned()),
        None => None,
    }
}

/// Scans one line for an annotation and hands back its captured pieces, or
/// `None` when the line holds no annotation.
pub fn captures(line: &str) -> (r: Option<AnnotationCaptures>)
    ensures
        match r {
            None => line_captures(line@) is None,
            Some(ref c) => line_captures(line@) == Some(c@),
        },
{
    let n = line.unicode_len();
    match find_match(line, n) {
        None => None,
        Some(m) => Some(
            AnnotationCaptures {
                hours: take_range(line, n, m.hours),
                minutes: take_range(line, n, m.minutes),
                status: take_range(line, n, m.status),
                reference: take_range(line, n, m.reference),
                date: take_range(line, n, m.date),
            },
        ),
    }
}

} // verus!

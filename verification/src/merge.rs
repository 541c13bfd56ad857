//! The merge-reconciler: inserts a batch of journal entries into the grid at
//! the right positions, discarding entries whose identifier is already
//! recorded at the matching anchor row, and refusing grids whose anchor rows
//! are not ordered ascending by date.
//!
//! The executable merge is specified against a functional model: the batch is
//! brought into ascending pop order ([`sort_spec`]), the grid's rows are
//! walked front to back ([`walk`]), and whatever remains is appended
//! ([`merge_model`]).

use vstd::prelude::*;

use crate::grid::{anchor, anchor_date, Grid, Row, RowData, RowDataV, RowV};
use crate::model::{JournalEntry, JournalEntryV};
use crate::time::Timestamp;

verus! {

/// Why a merge was refused.
#[derive(Debug, PartialEq, Eq, Structural)]
pub enum MergeError {
    /// The grid's anchor rows are not ordered ascending by date.
    OrderingCorruption,
}

/// The views of a sequence of entries.
pub open spec fn entry_views(es: Seq<JournalEntry>) -> Seq<JournalEntryV> {
    es.map_values(|e: JournalEntry| e@)
}

/// The data row that records an entry: all six fields of the entry placed in
/// their cells.
pub open spec fn row_of(e: JournalEntryV) -> RowV {
    RowV::Data(
        RowDataV {
            date: Some(e.date),
            summary: e.summary,
            description: e.description,
            duration: Some(e.duration as i64),
            id: e.id,
            link: e.commit_url,
            reference: e.reference,
        },
    )
}

/// The rows that record a sequence of entries, in order.
pub open spec fn rows_of(es: Seq<JournalEntryV>) -> Seq<RowV> {
    es.map_values(|e: JournalEntryV| row_of(e))
}

/// The entries are in non-decreasing date order.
pub open spec fn sorted_asc(es: Seq<JournalEntryV>) -> bool {
    forall|i: int, j: int|
        0 <= i < j < es.len() ==> #[trigger] es[i].date.spec_le(#[trigger] es[j].date)
}

/// Inserts `e` into the sorted sequence `s`, before the first element whose
/// date is not strictly earlier. Among equal dates the inserted element comes
/// first, which matches a stable descending sort consumed from the tail.
pub open spec fn insert_asc(e: JournalEntryV, s: Seq<JournalEntryV>) -> Seq<JournalEntryV>
    decreases s.len(),
{
    if s.len() == 0 {
        seq![e]
    } else if s[0].date.spec_lt(e.date) {
        seq![s[0]] + insert_asc(e, s.skip(1))
    } else {
        seq![e] + s
    }
}

/// The batch in ascending pop order: a stable descending sort read from the
/// tail, expressed as repeated insertion.
pub open spec fn sort_spec(s: Seq<JournalEntryV>) -> Seq<JournalEntryV>
    decreases s.len(),
{
    if s.len() == 0 {
        Seq::empty()
    } else {
        insert_asc(s.last(), sort_spec(s.drop_last()))
    }
}

/// Pops the leading entries whose date is at or before the anchor date `d`:
/// an entry whose identifier equals the anchor's `id` is already recorded and
/// leaves no row; every other popped entry becomes a row. Returns the new
/// rows in pop order and the remaining entries.
pub open spec fn pop_at(es: Seq<JournalEntryV>, d: Timestamp, id: Seq<char>) -> (Seq<RowV>, Seq<
    JournalEntryV,
>)
    decreases es.len(),
{
    if es.len() == 0 {
        (Seq::empty(), es)
    } else if es[0].date.spec_le(d) {
        let r = pop_at(es.skip(1), d, id);
        if es[0].id == id {
            r
        } else {
            (seq![row_of(es[0])] + r.0, r.1)
        }
    } else {
        (Seq::empty(), es)
    }
}

/// The anchor rows of `rows` are non-decreasing by date, and none is earlier
/// than `prev`.
pub open spec fn anchors_ok(rows: Seq<RowV>, prev: Option<Timestamp>) -> bool
    decreases rows.len(),
{
    if rows.len() == 0 {
        true
    } else if !anchor(rows[0]) {
        anchors_ok(rows.skip(1), prev)
    } else {
        let d = anchor_date(rows[0]);
        &&& (prev is Some ==> !d.spec_lt(prev->0))
        &&& anchors_ok(rows.skip(1), Some(d))
    }
}

/// The walk over the grid's rows (header excluded): rows that are no anchors
/// are kept and skipped; at each anchor row the due entries are popped in
/// front of it; an anchor earlier than its predecessor refuses the merge.
/// Returns the walked rows with the new rows in place, and the entries that
/// remain.
pub open spec fn walk(rows: Seq<RowV>, prev: Option<Timestamp>, es: Seq<JournalEntryV>) -> Option<
    (Seq<RowV>, Seq<JournalEntryV>),
>
    decreases rows.len(),
{
    if rows.len() == 0 {
        Some((Seq::empty(), es))
    } else if !anchor(rows[0]) {
        match walk(rows.skip(1), prev, es) {
            None => None,
            Some(r) => Some((seq![rows[0]] + r.0, r.1)),
        }
    } else {
        let d = anchor_date(rows[0]);
        if prev is Some && d.spec_lt(prev->0) {
            None
        } else {
            let p = pop_at(es, d, rows[0]->Data_0.id);
            match walk(rows.skip(1), Some(d), p.1) {
                None => None,
                Some(r) => Some((p.0 + seq![rows[0]] + r.0, r.1)),
            }
        }
    }
}

/// The whole merge on an entry batch already in ascending pop order: an empty
/// grid receives a header row and all entries; otherwise the rows after the
/// header position are walked and the remaining entries, all newer than every
/// anchor, are appended at the end.
pub open spec fn merge_model(rows: Seq<RowV>, es: Seq<JournalEntryV>) -> Option<Seq<RowV>> {
    if rows.len() == 0 {
        if es.len() == 0 {
            Some(rows)
        } else {
            Some(seq![RowV::Header] + rows_of(es))
        }
    } else {
        match walk(rows.skip(1), None, es) {
            None => None,
            Some(r) => Some(seq![rows[0]] + r.0 + rows_of(r.1)),
        }
    }
}

/// The walk succeeds exactly when the anchor rows are ordered, whatever the
/// entries are.
pub proof fn lemma_anchors_ok_walk(
    rows: Seq<RowV>,
    prev: Option<Timestamp>,
    es: Seq<JournalEntryV>,
)
    ensures
        anchors_ok(rows, prev) <==> walk(rows, prev, es) is Some,
    decreases rows.len(),
{
    if rows.len() == 0 {
    } else if !anchor(rows[0]) {
        lemma_anchors_ok_walk(rows.skip(1), prev, es);
    } else {
        let d = anchor_date(rows[0]);
        if prev is Some && d.spec_lt(prev->0) {
        } else {
            let p = pop_at(es, d, rows[0]->Data_0.id);
            lemma_anchors_ok_walk(rows.skip(1), Some(d), p.1);
            if anchors_ok(rows, prev) {
            } else {
                lemma_anchors_ok_walk(rows.skip(1), Some(d), es);
            }
        }
    }
}

/// Splitting `insert_asc` at the insertion position: if everything before
/// `p` is strictly earlier than `e` and the element at `p` (if any) is not,
/// the insertion puts `e` exactly at `p`.
proof fn lemma_insert_asc_at(e: JournalEntryV, s: Seq<JournalEntryV>, p: int)
    requires
        0 <= p <= s.len(),
        forall|i: int| 0 <= i < p ==> (#[trigger] s[i]).date.spec_lt(e.date),
        p < s.len() ==> !s[p].date.spec_lt(e.date),
    ensures
        insert_asc(e, s) == s.take(p) + seq![e] + s.skip(p),
    decreases p,
{
    if p == 0 {
        if s.len() == 0 {
            assert(insert_asc(e, s) =~= s.take(0) + seq![e] + s.skip(0));
        } else {
            assert(insert_asc(e, s) =~= s.take(0) + seq![e] + s.skip(0));
        }
    } else {
        assert(s[0].date.spec_lt(e.date));
        lemma_insert_asc_at(e, s.skip(1), p - 1);
        assert(s.skip(1).take(p - 1) =~= s.take(p).skip(1));
        assert(s.skip(1).skip(p - 1) =~= s.skip(p));
        assert(insert_asc(e, s) =~= seq![s[0]] + insert_asc(e, s.skip(1)));
        assert(seq![s[0]] + (s.skip(1).take(p - 1) + seq![e] + s.skip(1).skip(p - 1)) =~= s.take(p)
            + seq![e] + s.skip(p));
    }
}

/// Inserting into a sorted sequence keeps it sorted.
proof fn lemma_insert_asc_sorted(e: JournalEntryV, s: Seq<JournalEntryV>)
    requires
        sorted_asc(s),
    ensures
        sorted_asc(insert_asc(e, s)),
    decreases s.len(),
{
    if s.len() == 0 {
    } else if s[0].date.spec_lt(e.date) {
        assert(sorted_asc(s.skip(1)));
        lemma_insert_asc_sorted(e, s.skip(1));
        let r = seq![s[0]] + insert_asc(e, s.skip(1));
        let t = insert_asc(e, s.skip(1));
        assert forall|i: int, j: int| 0 <= i < j < r.len() implies #[trigger] r[i].date.spec_le(
            #[trigger] r[j].date,
        ) by {
            if i == 0 {
                lemma_insert_mem(e, s.skip(1), t[j - 1]);
                if t[j - 1] == e {
                    assert(s[0].date.spec_le(e.date));
                } else {
                    let w = choose|w: int| 0 <= w < s.skip(1).len() && s.skip(1)[w] == t[j - 1];
                    assert(s[0].date.spec_le(s[w + 1].date));
                }
            }
        }
    } else {
        let r = seq![e] + s;
        assert forall|i: int, j: int| 0 <= i < j < r.len() implies #[trigger] r[i].date.spec_le(
            #[trigger] r[j].date,
        ) by {
            if i == 0 {
                if j == 1 {
                    assert(!s[0].date.spec_lt(e.date));
                } else {
                    assert(!s[0].date.spec_lt(e.date));
                    assert(s[0].date.spec_le(s[j - 1].date));
                }
            }
        }
    }
}

/// Every element of an insertion result is the inserted element or one of the
/// sequence's own.
proof fn lemma_insert_mem(e: JournalEntryV, s: Seq<JournalEntryV>, x: JournalEntryV)
    requires
        insert_asc(e, s).contains(x),
    ensures
        x == e || exists|w: int| 0 <= w < s.len() && s[w] == x,
    decreases s.len(),
{
    if s.len() == 0 {
    } else if s[0].date.spec_lt(e.date) {
        let r = seq![s[0]] + insert_asc(e, s.skip(1));
        let i = choose|i: int| 0 <= i < r.len() && r[i] == x;
        if i == 0 {
            assert(s[0] == x);
        } else {
            assert(insert_asc(e, s.skip(1)).contains(x)) by {
                assert(insert_asc(e, s.skip(1))[i - 1] == x);
            }
            lemma_insert_mem(e, s.skip(1), x);
            if x != e {
                let w = choose|w: int| 0 <= w < s.skip(1).len() && s.skip(1)[w] == x;
                assert(s[w + 1] == x);
            }
        }
    } else {
        let r = seq![e] + s;
        let i = choose|i: int| 0 <= i < r.len() && r[i] == x;
        if i != 0 {
            assert(s[i - 1] == x);
        }
    }
}

/// Every element of the sorted batch is an element of the batch.
pub proof fn lemma_sort_contains(s: Seq<JournalEntryV>, x: JournalEntryV)
    requires
        sort_spec(s).contains(x),
    ensures
        s.contains(x),
    decreases s.len(),
{
    if s.len() == 0 {
    } else {
        lemma_insert_mem(s.last(), sort_spec(s.drop_last()), x);
        if x == s.last() {
            assert(s[s.len() - 1] == x);
        } else {
            let w = choose|w: int|
                0 <= w < sort_spec(s.drop_last()).len() && sort_spec(s.drop_last())[w] == x;
            lemma_sort_contains(s.drop_last(), x);
            let v = choose|v: int| 0 <= v < s.drop_last().len() && s.drop_last()[v] == x;
            assert(s[v] == x);
        }
    }
}

/// The sorted batch is sorted.
pub proof fn lemma_sort_sorted(s: Seq<JournalEntryV>)
    ensures
        sorted_asc(sort_spec(s)),
    decreases s.len(),
{
    if s.len() == 0 {
    } else {
        lemma_sort_sorted(s.drop_last());
        lemma_insert_asc_sorted(s.last(), sort_spec(s.drop_last()));
    }
}

/// Brings the batch into ascending pop order.
fn sort_entries(entries: Vec<JournalEntry>) -> (r: Vec<JournalEntry>)
    ensures
        entry_views(r@) == sort_spec(entry_views(entries@)),
        sorted_asc(entry_views(r@)),
{
    let ghost orig = entry_views(entries@);
    let mut rest = entries;
    let mut out: Vec<JournalEntry> = Vec::new();
    let ghost mut done: Seq<JournalEntryV> = Seq::empty();
    proof {
        assert(entry_views(out@) =~= sort_spec(done));
        assert(done =~= orig.take(0));
    }
    let ghost mut i: int = 0;
    while rest.len() > 0
        invariant
            0 <= i,
            i + rest@.len() == orig.len(),
            done == orig.take(i),
            entry_views(rest@) =~= orig.skip(i),
            entry_views(out@) == sort_spec(done),
        decreases rest@.len(),
    {
        let ghost rest0 = rest@;
        let e = rest.remove(0);
        proof {
            assert(entry_views(rest0)[0] == rest0[0]@);
            assert(e@ == orig.skip(i)[0]);
            assert(e@ == orig[i]);
            assert(rest@ =~= rest0.skip(1));
            assert(entry_views(rest@) =~= entry_views(rest0).skip(1));
            assert(entry_views(rest@) =~= orig.skip(i + 1));
        }
        // find the first position whose date is not strictly earlier
        let mut p: usize = 0;
        while p < out.len() && out[p].date.lt(&e.date)
            invariant
                p <= out@.len(),
                forall|w: int|
                    0 <= w < p ==> (#[trigger] entry_views(out@)[w]).date.spec_lt(e@.date),
            decreases out@.len() - p,
        {
            proof {
                assert(entry_views(out@)[p as int].date == out@[p as int]@.date);
            }
            p += 1;
        }
        proof {
            lemma_insert_asc_at(e@, entry_views(out@), p as int);
        }
        let ghost pre = entry_views(out@);
        out.insert(p, e);
        proof {
            assert(entry_views(out@) =~= pre.take(p as int) + seq![e@] + pre.skip(p as int));
            assert(entry_views(out@) == insert_asc(e@, pre));
            let done2 = orig.take(i + 1);
            assert(done2.drop_last() =~= done);
            assert(done2.last() == orig[i]);
            assert(sort_spec(done2) == insert_asc(e@, sort_spec(done)));
            done = done2;
            i = i + 1;
        }
    }
    proof {
        assert(orig.take(orig.len() as int) =~= orig);
        lemma_sort_sorted(orig);
    }
    out
}

/// Decides whether the anchor rows after the header position are ordered
/// ascending by date.
fn check_anchors(g: &Grid) -> (r: bool)
    requires
        g@.len() >= 1,
    ensures
        r == anchors_ok(g@.skip(1), None),
{
    let mut i: usize = 1;
    let mut prev: Option<Timestamp> = None;
    while i < g.rows.len()
        invariant
            1 <= i <= g@.len(),
            g@.len() == g.rows@.len(),
            anchors_ok(g@.skip(1), None) <==> anchors_ok(g@.skip(i as int), prev),
        decreases g@.len() - i,
    {
        proof {
            assert(g@.skip(i as int)[0] == g@[i as int]);
            assert(g@.skip(i as int).skip(1) =~= g@.skip(i as int + 1));
        }
        match &g.rows[i] {
            Row::Header => {
                proof {
                    assert(g@[i as int] == g.rows@[i as int]@);
                    assert(!anchor(g@[i as int]));
                }
            },
            Row::Data(rd) => {
                if rd.date.is_some() && !rd.id.as_str().is_empty() {
                    let d = rd.date.unwrap();
                    proof {
                        assert(g@[i as int] == g.rows@[i as int]@);
                        assert(anchor(g@[i as int]));
                        assert(anchor_date(g@[i as int]) == d);
                    }
                    match prev {
                        Some(p) => {
                            if d.lt(&p) {
                                proof {
                                    assert(!anchors_ok(g@.skip(i as int), prev));
                                }
                                return false;
                            }
                        },
                        None => {},
                    }
                    prev = Some(d);
                } else {
                    proof {
                        assert(g@[i as int] == g.rows@[i as int]@);
                        assert(!anchor(g@[i as int]));
                    }
                }
            },
        }
        i += 1;
    }
    proof {
        assert(g@.skip(g@.len() as int).len() == 0);
    }
    true
}

/// Builds the data row that records `entry` and inserts it at `row_num`,
/// shifting the subsequent rows down by one.
pub fn insert_entry(grid: &mut Grid, row_num: usize, entry: &JournalEntry)
    requires
        row_num <= old(grid)@.len(),
    ensures
        final(grid)@ == old(grid)@.insert(row_num as int, row_of(entry@)),
{
    let row = Row::Data(
        RowData {
            date: Some(entry.date),
            summary: entry.summary.clone(),
            description: entry.description.clone(),
            duration: Some(entry.duration as i64),
            id: entry.id.clone(),
            link: match &entry.commit_url {
                Some(u) => Some(u.clone()),
                None => None,
            },
            reference: match &entry.reference {
                Some(r) => Some(r.clone()),
                None => None,
            },
        },
    );
    proof {
        assert(row@ == row_of(entry@));
    }
    grid.rows.insert(row_num, row);
    proof {
        assert(grid@ =~= old(grid)@.insert(row_num as int, row_of(entry@)));
    }
}

/// Appends rows for the entries from position `k` on, oldest first.
fn append_entries(grid: &mut Grid, es: &Vec<JournalEntry>, k: usize)
    requires
        k <= es@.len(),
    ensures
        final(grid)@ == old(grid)@ + rows_of(entry_views(es@).skip(k as int)),
{
    let ghost base = grid@;
    let ghost asc = entry_views(es@);
    let mut idx = k;
    proof {
        assert(grid@ =~= base + rows_of(asc.subrange(k as int, k as int)));
    }
    while idx < es.len()
        invariant
            k <= idx <= es@.len(),
            entry_views(es@) == asc,
            grid@ == base + rows_of(asc.subrange(k as int, idx as int)),
        decreases es@.len() - idx,
    {
        let n = grid.rows.len();
        proof {
            assert(n == grid@.len());
        }
        insert_entry(grid, n, &es[idx]);
        proof {
            assert(es@[idx as int]@ == asc[idx as int]);
            assert(asc.subrange(k as int, idx as int + 1) =~= asc.subrange(
                k as int,
                idx as int,
            ).push(asc[idx as int]));
            assert(rows_of(asc.subrange(k as int, idx as int + 1)) =~= rows_of(
                asc.subrange(k as int, idx as int),
            ).push(row_of(asc[idx as int])));
            assert(grid@ =~= base + rows_of(asc.subrange(k as int, idx as int + 1)));
        }
        idx += 1;
    }
    proof {
        assert(asc.subrange(k as int, asc.len() as int) =~= asc.skip(k as int));
    }
}

/// Merges the batch into the grid: brings the batch into ascending pop order,
/// inserts each missing entry in front of its anchor row, discards entries
/// whose identifier is already recorded at their anchor, appends the entries
/// newer than every anchor at the end (after a header row if the grid was
/// empty), and returns the final highest row index. Fails, leaving the grid
/// untouched, exactly when the grid's anchor rows are not ordered ascending
/// by date.
#[verifier::loop_isolation(false)]
#[verifier::rlimit(60)]
pub fn merge_entries(grid: &mut Grid, entries: Vec<JournalEntry>) -> (r: Result<
    usize,
    MergeError,
>)
    ensures
        match r {
            Ok(n) => {
                &&& Some(final(grid)@) == merge_model(
                    old(grid)@,
                    sort_spec(entry_views(entries@)),
                )
                &&& n == final(grid)@.len()
            },
            Err(e) => {
                &&& merge_model(old(grid)@, sort_spec(entry_views(entries@))) is None
                &&& old(grid)@.len() > 0 && !anchors_ok(old(grid)@.skip(1), None)
                &&& final(grid)@ == old(grid)@
                &&& e == MergeError::OrderingCorruption
            },
        },
{
    let ghost rows0 = grid@;
    let es = sort_entries(entries);
    let ghost asc0 = entry_views(es@);

    if grid.rows.len() == 0 {
        if es.len() == 0 {
            return Ok(0);
        }
        grid.rows.push(Row::Header);
        proof {
            assert(grid@ =~= seq![RowV::Header]);
        }
        append_entries(grid, &es, 0);
        proof {
            assert(asc0.skip(0) =~= asc0);
        }
        return Ok(grid.rows.len());
    }

    if !check_anchors(grid) {
        proof {
            lemma_anchors_ok_walk(rows0.skip(1), None, asc0);
        }
        return Err(MergeError::OrderingCorruption);
    }
    proof {
        lemma_anchors_ok_walk(rows0.skip(1), None, asc0);
        assert(asc0.skip(0) =~= asc0);
        assert(grid@.subrange(1, 1) + walk(rows0.skip(1), None, asc0)->Some_0.0 =~= walk(
            rows0.skip(1),
            None,
            asc0,
        )->Some_0.0);
    }

    let mut c: usize = 1;
    let ghost mut j: int = 1;
    let mut k: usize = 0;
    let mut prev: Option<Timestamp> = None;
    while c < grid.rows.len()
        invariant
            entry_views(es@) == asc0,
            1 <= c <= grid@.len(),
            1 <= j <= rows0.len(),
            k <= asc0.len(),
            grid@.len() - c == rows0.len() - j,
            grid@.skip(c as int) == rows0.skip(j),
            grid@[0] == rows0[0],
            anchors_ok(rows0.skip(j), prev),
            walk(rows0.skip(1), None, asc0) is Some,
            walk(rows0.skip(j), prev, asc0.skip(k as int)) is Some,
            walk(rows0.skip(1), None, asc0)->Some_0.0 == grid@.subrange(1, c as int) + walk(
                rows0.skip(j),
                prev,
                asc0.skip(k as int),
            )->Some_0.0,
            walk(rows0.skip(1), None, asc0)->Some_0.1 == walk(
                rows0.skip(j),
                prev,
                asc0.skip(k as int),
            )->Some_0.1,
        decreases grid@.len() - c,
    {
        let ghost c0 = c as int;
        let ghost j0 = j;
        let ghost k0 = k as int;
        let ghost gpre = grid@;
        let ghost prev0 = prev;

        proof {
            assert(rows0.skip(j0)[0] == gpre[c0]);
            assert(gpre[c0] == grid.rows@[c0]@);
            assert(rows0.skip(j0).skip(1) =~= rows0.skip(j0 + 1));
        }

        let mut is_anchor = false;
        let mut d = Timestamp { year: 0, month: 0, day: 0, hour: 0, minute: 0, second: 0 };
        let mut aid = String::new();
        match &grid.rows[c] {
            Row::Header => {},
            Row::Data(rd) => {
                if rd.date.is_some() && !rd.id.as_str().is_empty() {
                    is_anchor = true;
                    d = rd.date.unwrap();
                    aid = rd.id.clone();
                }
            },
        }

        if !is_anchor {
            proof {
                assert(!anchor(rows0.skip(j0)[0]));
                let w2 = walk(rows0.skip(j0 + 1), prev0, asc0.skip(k0));
                assert(walk(rows0.skip(j0), prev0, asc0.skip(k0)) == match w2 {
                    Option::<(Seq<RowV>, Seq<JournalEntryV>)>::None => Option::<
                        (Seq<RowV>, Seq<JournalEntryV>),
                    >::None,
                    Some(r) => Some((seq![rows0.skip(j0)[0]] + r.0, r.1)),
                });
                j = j0 + 1;
            }
            c += 1;
            proof {
                let w2 = walk(rows0.skip(j), prev, asc0.skip(k as int));
                assert(grid@.subrange(1, c as int) =~= gpre.subrange(1, c0) + seq![rows0[j0]]);
                assert(gpre.subrange(1, c0) + (seq![rows0[j0]] + w2->Some_0.0) =~= grid@.subrange(
                    1,
                    c as int,
                ) + w2->Some_0.0);
                assert(grid@.skip(c as int) =~= rows0.skip(j));
            }
        } else {
            proof {
                assert(anchor(rows0.skip(j0)[0]));
                assert(anchor_date(rows0.skip(j0)[0]) == d);
                assert(rows0.skip(j0)[0]->Data_0.id == aid@);
            }
            prev = Some(d);
            while k < es.len() && es[k].date.le(&d)
                invariant
                    entry_views(es@) == asc0,
                    k0 <= k <= asc0.len(),
                    c0 <= c < grid@.len(),
                    c0 < gpre.len(),
                    grid@.len() == gpre.len() + (c - c0),
                    grid@.subrange(0, c0) == gpre.subrange(0, c0),
                    grid@.skip(c as int) == gpre.skip(c0),
                    pop_at(asc0.skip(k0), d, aid@).0 == grid@.subrange(c0, c as int) + pop_at(
                        asc0.skip(k as int),
                        d,
                        aid@,
                    ).0,
                    pop_at(asc0.skip(k0), d, aid@).1 == pop_at(asc0.skip(k as int), d, aid@).1,
                decreases asc0.len() - k,
            {
                proof {
                    assert(entry_views(es@)[k as int] == es@[k as int]@);
                    assert(asc0.skip(k as int)[0] == asc0[k as int]);
                    assert(asc0.skip(k as int).skip(1) =~= asc0.skip(k as int + 1));
                    assert(asc0[k as int].date.spec_le(d));
                }
                let dup = es[k].id == aid;
                if dup {
                    proof {
                        assert(asc0[k as int].id == aid@);
                    }
                    k += 1;
                } else {
                    let ghost gmid = grid@;
                    insert_entry(grid, c, &es[k]);
                    proof {
                        assert(es@[k as int]@ == asc0[k as int]);
                        assert(grid@ == gmid.insert(c as int, row_of(asc0[k as int])));
                        gmid.insert_ensures(c as int, row_of(asc0[k as int]));
                        assert(grid@.len() == gmid.len() + 1);
                        assert(forall|w: int| 0 <= w < c0 ==> grid@[w] == gmid[w]);
                        assert(asc0[k as int].id != aid@);
                        assert(grid@.subrange(0, c0) =~= gmid.subrange(0, c0));
                        assert(grid@.skip(c as int + 1) =~= gmid.skip(c as int));
                        assert(grid@.subrange(c0, c as int + 1) =~= gmid.subrange(c0, c as int)
                            + seq![row_of(asc0[k as int])]);
                        let rest = pop_at(asc0.skip(k as int + 1), d, aid@);
                        assert(pop_at(asc0.skip(k as int), d, aid@).0 =~= seq![
                            row_of(asc0[k as int]),
                        ] + rest.0);
                        assert(gmid.subrange(c0, c as int) + (seq![row_of(asc0[k as int])]
                            + rest.0) =~= grid@.subrange(c0, c as int + 1) + rest.0);
                    }
                    let glen = grid.rows.len();
                    proof {
                        assert(c < glen);
                    }
                    c += 1;
                    k += 1;
                }
            }
            proof {
                if k < es@.len() {
                    assert(entry_views(es@)[k as int] == es@[k as int]@);
                    assert(asc0.skip(k as int)[0] == asc0[k as int]);
                    assert(!asc0[k as int].date.spec_le(d));
                }
                let p = pop_at(asc0.skip(k0), d, aid@);
                assert(pop_at(asc0.skip(k as int), d, aid@).0 =~= Seq::<RowV>::empty());
                assert(p.0 =~= grid@.subrange(c0, c as int));
                assert(p.1 == asc0.skip(k as int));

                let w2 = walk(rows0.skip(j0 + 1), Some(d), p.1);
                lemma_anchors_ok_walk(rows0.skip(j0 + 1), Some(d), p.1);
                assert(walk(rows0.skip(j0), prev0, asc0.skip(k0)) == match w2 {
                    Option::<(Seq<RowV>, Seq<JournalEntryV>)>::None => Option::<
                        (Seq<RowV>, Seq<JournalEntryV>),
                    >::None,
                    Some(r) => Some((p.0 + seq![rows0.skip(j0)[0]] + r.0, r.1)),
                });
                assert(w2 is Some);
                j = j0 + 1;
            }
            let glen = grid.rows.len();
            proof {
                assert(c < glen);
            }
            c += 1;
            proof {
                let p = pop_at(asc0.skip(k0), d, aid@);
                let w2 = walk(rows0.skip(j), prev, asc0.skip(k as int));
                assert(grid@.skip(c as int - 1)[0] == gpre.skip(c0)[0]);
                assert(grid@[c as int - 1] == gpre[c0]);
                assert forall|w: int| 0 <= w < c0 implies grid@[w] == gpre[w] by {
                    assert(grid@.subrange(0, c0)[w] == gpre.subrange(0, c0)[w]);
                }
                assert(grid@[0] == rows0[0]);
                assert(p.0 =~= grid@.subrange(c0, c as int - 1));
                assert(grid@.subrange(1, c as int) =~= gpre.subrange(1, c0) + p.0 + seq![
                    rows0[j0],
                ]);
                assert(gpre.subrange(1, c0) + ((p.0 + seq![rows0[j0]]) + w2->Some_0.0)
                    =~= grid@.subrange(1, c as int) + w2->Some_0.0);
                assert(grid@.skip(c as int) =~= rows0.skip(j));
            }
        }
    }

    proof {
        assert(j == rows0.len());
        assert(rows0.skip(j).len() == 0);
        let w0 = walk(rows0.skip(1), None, asc0);
        assert(w0->Some_0.0 == grid@.subrange(1, grid@.len() as int));
        assert(w0->Some_0.1 == asc0.skip(k as int));
    }
    let ghost gwalk = grid@;
    append_entries(grid, &es, k);
    proof {
        let w0 = walk(rows0.skip(1), None, asc0);
        assert(seq![rows0[0]] + gwalk.subrange(1, gwalk.len() as int) =~= gwalk);
        assert(seq![rows0[0]] + w0->Some_0.0 + rows_of(w0->Some_0.1) =~= gwalk + rows_of(
            asc0.skip(k as int),
        ));
        assert(grid@ == gwalk + rows_of(asc0.skip(k as int)));
    }
    Ok(grid.rows.len())
}

} // verus!

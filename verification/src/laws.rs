//! The merge-reconciler's guarantees, proved of the functional model that
//! [`crate::merge::merge_entries`] is specified against: completeness (new
//! entries appear exactly once, existing rows are kept), order preservation
//! (anchor rows stay non-decreasing by date), and idempotence (merging the
//! same batch twice equals merging it once).

use vstd::prelude::*;

use crate::grid::{anchor, anchor_date, RowV};
use crate::merge::{
    insert_asc, merge_model, pop_at, row_of, rows_of, sort_spec, sorted_asc, walk,
};
use crate::model::JournalEntryV;
use crate::time::Timestamp;

verus! {

/// How many rows carry the identifier `id` in their identifier cell.
pub open spec fn count_id_rows(rows: Seq<RowV>, id: Seq<char>) -> nat
    decreases rows.len(),
{
    if rows.len() == 0 {
        0
    } else {
        (if rows[0] is Data && rows[0]->Data_0.id == id {
            1nat
        } else {
            0nat
        }) + count_id_rows(rows.skip(1), id)
    }
}

/// How many entries carry the identifier `id`.
pub open spec fn count_id_entries(es: Seq<JournalEntryV>, id: Seq<char>) -> nat
    decreases es.len(),
{
    if es.len() == 0 {
        0
    } else {
        (if es[0].id == id {
            1nat
        } else {
            0nat
        }) + count_id_entries(es.skip(1), id)
    }
}

/// How many rows equal the row `r`.
pub open spec fn count_row(rows: Seq<RowV>, r: RowV) -> nat
    decreases rows.len(),
{
    if rows.len() == 0 {
        0
    } else {
        (if rows[0] == r {
            1nat
        } else {
            0nat
        }) + count_row(rows.skip(1), r)
    }
}

/// Some row of `rows` carries the identifier `id`.
pub open spec fn has_id(rows: Seq<RowV>, id: Seq<char>) -> bool {
    exists|i: int| 0 <= i < rows.len() && rows[i] is Data && rows[i]->Data_0.id == id
}

proof fn lemma_count_id_rows_single(x: RowV, id: Seq<char>)
    ensures
        count_id_rows(seq![x], id) == (if x is Data && x->Data_0.id == id {
            1nat
        } else {
            0nat
        }),
{
    assert(seq![x].skip(1) =~= Seq::<RowV>::empty());
    assert(count_id_rows(Seq::<RowV>::empty(), id) == 0);
}

proof fn lemma_count_row_single(x: RowV, r: RowV)
    ensures
        count_row(seq![x], r) == (if x == r {
            1nat
        } else {
            0nat
        }),
{
    assert(seq![x].skip(1) =~= Seq::<RowV>::empty());
    assert(count_row(Seq::<RowV>::empty(), r) == 0);
}

proof fn lemma_count_id_entries_single(x: JournalEntryV, id: Seq<char>)
    ensures
        count_id_entries(seq![x], id) == (if x.id == id {
            1nat
        } else {
            0nat
        }),
{
    assert(seq![x].skip(1) =~= Seq::<JournalEntryV>::empty());
    assert(count_id_entries(Seq::<JournalEntryV>::empty(), id) == 0);
}

proof fn lemma_count_id_rows_concat(a: Seq<RowV>, b: Seq<RowV>, id: Seq<char>)
    ensures
        count_id_rows(a + b, id) == count_id_rows(a, id) + count_id_rows(b, id),
    decreases a.len(),
{
    if a.len() == 0 {
        assert(a + b =~= b);
    } else {
        assert((a + b).skip(1) =~= a.skip(1) + b);
        lemma_count_id_rows_concat(a.skip(1), b, id);
    }
}

proof fn lemma_count_row_concat(a: Seq<RowV>, b: Seq<RowV>, r: RowV)
    ensures
        count_row(a + b, r) == count_row(a, r) + count_row(b, r),
    decreases a.len(),
{
    if a.len() == 0 {
        assert(a + b =~= b);
    } else {
        assert((a + b).skip(1) =~= a.skip(1) + b);
        lemma_count_row_concat(a.skip(1), b, r);
    }
}

proof fn lemma_count_id_entries_concat(a: Seq<JournalEntryV>, b: Seq<JournalEntryV>, id: Seq<char>)
    ensures
        count_id_entries(a + b, id) == count_id_entries(a, id) + count_id_entries(b, id),
    decreases a.len(),
{
    if a.len() == 0 {
        assert(a + b =~= b);
    } else {
        assert((a + b).skip(1) =~= a.skip(1) + b);
        lemma_count_id_entries_concat(a.skip(1), b, id);
    }
}

/// The rows recording a sequence of entries carry exactly the entries'
/// identifiers.
proof fn lemma_count_id_rows_of(es: Seq<JournalEntryV>, id: Seq<char>)
    ensures
        count_id_rows(rows_of(es), id) == count_id_entries(es, id),
    decreases es.len(),
{
    if es.len() == 0 {
    } else {
        assert(rows_of(es).skip(1) =~= rows_of(es.skip(1)));
        lemma_count_id_rows_of(es.skip(1), id);
    }
}

/// Popping at an anchor whose identifier differs from `id` loses no entry
/// carrying `id`: each becomes a row.
proof fn lemma_pop_at_count(es: Seq<JournalEntryV>, d: Timestamp, aid: Seq<char>, id: Seq<char>)
    requires
        aid != id,
    ensures
        count_id_rows(pop_at(es, d, aid).0, id) + count_id_entries(pop_at(es, d, aid).1, id)
            == count_id_entries(es, id),
    decreases es.len(),
{
    if es.len() == 0 {
    } else if es[0].date.spec_le(d) {
        lemma_pop_at_count(es.skip(1), d, aid, id);
        let r = pop_at(es.skip(1), d, aid);
        if es[0].id == aid {
            assert(es[0].id != id);
            assert(pop_at(es, d, aid) == r);
            assert(count_id_entries(es, id) == count_id_entries(es.skip(1), id));
        } else {
            assert(pop_at(es, d, aid) == (seq![row_of(es[0])] + r.0, r.1));
            lemma_count_id_rows_concat(seq![row_of(es[0])], r.0, id);
            lemma_count_id_rows_single(row_of(es[0]), id);
        }
    } else {
        assert(pop_at(es, d, aid) == (Seq::<RowV>::empty(), es));
        assert(count_id_rows(Seq::<RowV>::empty(), id) == 0);
    }
}

/// The walk loses no entry carrying an identifier that no existing row has:
/// each such entry either becomes a row or stays in the remainder.
proof fn lemma_walk_count_id(
    rows: Seq<RowV>,
    prev: Option<Timestamp>,
    es: Seq<JournalEntryV>,
    id: Seq<char>,
)
    requires
        !has_id(rows, id),
        walk(rows, prev, es) is Some,
    ensures
        count_id_rows(walk(rows, prev, es)->Some_0.0, id) + count_id_entries(
            walk(rows, prev, es)->Some_0.1,
            id,
        ) == count_id_entries(es, id),
    decreases rows.len(),
{
    if rows.len() == 0 {
    } else if !anchor(rows[0]) {
        assert(!has_id(rows.skip(1), id)) by {
            assert(forall|i: int|
                0 <= i < rows.skip(1).len() ==> #[trigger] rows.skip(1)[i] == rows[i + 1]);
        }
        lemma_walk_count_id(rows.skip(1), prev, es, id);
        let r = walk(rows.skip(1), prev, es)->Some_0;
        lemma_count_id_rows_concat(seq![rows[0]], r.0, id);
        lemma_count_id_rows_single(rows[0], id);
        assert(!(rows[0] is Data && rows[0]->Data_0.id == id)) by {
            if rows[0] is Data && rows[0]->Data_0.id == id {
                assert(has_id(rows, id)) by {
                    assert(0 <= 0 < rows.len() && rows[0] is Data && rows[0]->Data_0.id == id);
                }
            }
        }
        assert(walk(rows, prev, es)->Some_0.0 == seq![rows[0]] + r.0);
    } else {
        let d = anchor_date(rows[0]);
        let aid = rows[0]->Data_0.id;
        assert(aid != id) by {
            if aid == id {
                assert(has_id(rows, id)) by {
                    assert(0 <= 0 < rows.len() && rows[0] is Data && rows[0]->Data_0.id == id);
                }
            }
        }
        let p = pop_at(es, d, aid);
        lemma_pop_at_count(es, d, aid, id);
        assert(!has_id(rows.skip(1), id)) by {
            assert(forall|i: int|
                0 <= i < rows.skip(1).len() ==> #[trigger] rows.skip(1)[i] == rows[i + 1]);
        }
        lemma_walk_count_id(rows.skip(1), Some(d), p.1, id);
        let r = walk(rows.skip(1), Some(d), p.1)->Some_0;
        lemma_count_id_rows_concat(p.0 + seq![rows[0]], r.0, id);
        lemma_count_id_rows_concat(p.0, seq![rows[0]], id);
        lemma_count_id_rows_single(rows[0], id);
    }
}

/// The walk keeps every existing row: nothing is removed or overwritten.
proof fn lemma_walk_keeps_rows(
    rows: Seq<RowV>,
    prev: Option<Timestamp>,
    es: Seq<JournalEntryV>,
    r: RowV,
)
    requires
        walk(rows, prev, es) is Some,
    ensures
        count_row(walk(rows, prev, es)->Some_0.0, r) >= count_row(rows, r),
    decreases rows.len(),
{
    if rows.len() == 0 {
    } else if !anchor(rows[0]) {
        lemma_walk_keeps_rows(rows.skip(1), prev, es, r);
        let w = walk(rows.skip(1), prev, es)->Some_0;
        lemma_count_row_concat(seq![rows[0]], w.0, r);
        lemma_count_row_single(rows[0], r);
    } else {
        let d = anchor_date(rows[0]);
        let p = pop_at(es, d, rows[0]->Data_0.id);
        lemma_walk_keeps_rows(rows.skip(1), Some(d), p.1, r);
        let w = walk(rows.skip(1), Some(d), p.1)->Some_0;
        lemma_count_row_concat(p.0 + seq![rows[0]], w.0, r);
        lemma_count_row_concat(p.0, seq![rows[0]], r);
        lemma_count_row_single(rows[0], r);
    }
}

/// Sorting the batch neither adds nor drops entries with a given identifier.
proof fn lemma_insert_asc_count(e: JournalEntryV, s: Seq<JournalEntryV>, id: Seq<char>)
    ensures
        count_id_entries(insert_asc(e, s), id) == count_id_entries(seq![e], id)
            + count_id_entries(s, id),
    decreases s.len(),
{
    lemma_count_id_entries_single(e, id);
    if s.len() == 0 {
        assert(insert_asc(e, s) =~= seq![e]);
    } else if s[0].date.spec_lt(e.date) {
        lemma_insert_asc_count(e, s.skip(1), id);
        lemma_count_id_entries_concat(seq![s[0]], insert_asc(e, s.skip(1)), id);
        lemma_count_id_entries_single(s[0], id);
        assert(count_id_entries(s, id) == count_id_entries(seq![s[0]], id) + count_id_entries(s.skip(1), id));
    } else {
        lemma_count_id_entries_concat(seq![e], s, id);
    }
}

/// The sorted batch carries each identifier exactly as often as the batch.
pub proof fn lemma_sort_count(s: Seq<JournalEntryV>, id: Seq<char>)
    ensures
        count_id_entries(sort_spec(s), id) == count_id_entries(s, id),
    decreases s.len(),
{
    if s.len() == 0 {
    } else {
        lemma_sort_count(s.drop_last(), id);
        lemma_insert_asc_count(s.last(), sort_spec(s.drop_last()), id);
        assert(s =~= s.drop_last() + seq![s.last()]);
        lemma_count_id_entries_concat(s.drop_last(), seq![s.last()], id);
        lemma_count_id_entries_single(s.last(), id);
        assert(count_id_entries(s.drop_last() + seq![s.last()], id) == count_id_entries(s, id));
    }
}

/// Completeness, first half: an entry batch identifier that no row of the
/// dataset carries appears in the merged output exactly as often as in the
/// batch — in particular, an entry with a fresh, unique identifier appears
/// exactly once.
pub proof fn lemma_completeness_new_ids(
    rows: Seq<RowV>,
    batch: Seq<JournalEntryV>,
    out: Seq<RowV>,
    id: Seq<char>,
)
    requires
        !has_id(rows, id),
        merge_model(rows, sort_spec(batch)) == Some(out),
    ensures
        count_id_rows(out, id) == count_id_entries(batch, id),
{
    let es = sort_spec(batch);
    lemma_sort_count(batch, id);
    if rows.len() == 0 {
        if es.len() == 0 {
            assert(count_id_entries(batch, id) == 0);
        } else {
            lemma_count_id_rows_concat(seq![RowV::Header], rows_of(es), id);
            lemma_count_id_rows_single(RowV::Header, id);
            lemma_count_id_rows_of(es, id);
        }
    } else {
        assert(!has_id(rows.skip(1), id)) by {
            assert(forall|i: int|
                0 <= i < rows.skip(1).len() ==> #[trigger] rows.skip(1)[i] == rows[i + 1]);
        }
        lemma_walk_count_id(rows.skip(1), None, es, id);
        let w = walk(rows.skip(1), None, es)->Some_0;
        lemma_count_id_rows_concat(seq![rows[0]] + w.0, rows_of(w.1), id);
        lemma_count_id_rows_concat(seq![rows[0]], w.0, id);
        lemma_count_id_rows_single(rows[0], id);
        assert(!(rows[0] is Data && rows[0]->Data_0.id == id)) by {
            if rows[0] is Data && rows[0]->Data_0.id == id {
                assert(has_id(rows, id)) by {
                    assert(0 <= 0 < rows.len() && rows[0] is Data && rows[0]->Data_0.id == id);
                }
            }
        }
        lemma_count_id_rows_of(w.1, id);
        assert(out =~= (seq![rows[0]] + w.0) + rows_of(w.1));
    }
}

/// Popping keeps the remainder sorted and strictly after the anchor date,
/// and yields rows that are dated at or before the anchor date, mutually
/// non-decreasing, and drawn from the entry sequence.
proof fn lemma_pop_at_order(es: Seq<JournalEntryV>, d: Timestamp, aid: Seq<char>)
    requires
        sorted_asc(es),
    ensures
        sorted_asc(pop_at(es, d, aid).1),
        forall|i: int|
            0 <= i < pop_at(es, d, aid).1.len() ==> d.spec_lt(
                (#[trigger] pop_at(es, d, aid).1[i]).date,
            ),
        forall|w: int|
            0 <= w < pop_at(es, d, aid).0.len() ==> {
                let r = #[trigger] pop_at(es, d, aid).0[w];
                r is Data && r->Data_0.date is Some && r->Data_0.date->0.spec_le(d)
            },
        forall|w: int|
            0 <= w < pop_at(es, d, aid).0.len() ==> exists|i: int|
                0 <= i < es.len() && #[trigger] pop_at(es, d, aid).0[w] == row_of(es[i]),
        forall|w1: int, w2: int|
            0 <= w1 < w2 < pop_at(es, d, aid).0.len()
                ==> (#[trigger] pop_at(es, d, aid).0[w1])->Data_0.date->0.spec_le(
                (#[trigger] pop_at(es, d, aid).0[w2])->Data_0.date->0,
            ),
        forall|i: int|
            0 <= i < pop_at(es, d, aid).1.len() ==> exists|w: int|
                0 <= w < es.len() && #[trigger] pop_at(es, d, aid).1[i] == es[w],
    decreases es.len(),
{
    if es.len() == 0 {
    } else if es[0].date.spec_le(d) {
        assert(sorted_asc(es.skip(1))) by {
            assert(forall|i: int|
                0 <= i < es.skip(1).len() ==> #[trigger] es.skip(1)[i] == es[i + 1]);
        }
        lemma_pop_at_order(es.skip(1), d, aid);
        let r = pop_at(es.skip(1), d, aid);
        assert(forall|i: int| 0 <= i < es.skip(1).len() ==> #[trigger] es.skip(1)[i] == es[i + 1]);
        if es[0].id == aid {
        } else {
            let p0 = seq![row_of(es[0])] + r.0;
            assert forall|w: int| 0 <= w < p0.len() implies exists|i: int|
                0 <= i < es.len() && #[trigger] p0[w] == row_of(es[i]) by {
                if w == 0 {
                    assert(p0[0] == row_of(es[0]));
                } else {
                    let i = choose|i: int|
                        0 <= i < es.skip(1).len() && r.0[w - 1] == row_of(es.skip(1)[i]);
                    assert(p0[w] == row_of(es[i + 1]));
                }
            }
            assert forall|w1: int, w2: int| 0 <= w1 < w2 < p0.len() implies (
            #[trigger] p0[w1])->Data_0.date->0.spec_le((#[trigger] p0[w2])->Data_0.date->0) by {
                if w1 == 0 {
                    let i = choose|i: int|
                        0 <= i < es.skip(1).len() && r.0[w2 - 1] == row_of(es.skip(1)[i]);
                    assert(es[0].date.spec_le(es[i + 1].date));
                }
            }
        }
    } else {
        assert forall|i: int| 0 <= i < es.len() implies d.spec_lt((#[trigger] es[i]).date) by {
            assert(d.spec_lt(es[0].date));
            if i > 0 {
                assert(es[0].date.spec_le(es[i].date));
                crate::time::lemma_le_trans(d, es[0].date, es[i].date);
                if d == es[i].date {
                    crate::time::lemma_le_total(es[0].date, es[i].date);
                    assert(false);
                }
            }
        }
    }
}

/// The walk keeps the anchor rows sorted: the output's anchors are
/// non-decreasing, at or after `prev`, and strictly before every remaining
/// entry; the remainder stays sorted and is drawn from the entries.
proof fn lemma_walk_order(rows: Seq<RowV>, prev: Option<Timestamp>, es: Seq<JournalEntryV>)
    requires
        sorted_asc(es),
        walk(rows, prev, es) is Some,
        prev is Some ==> forall|i: int|
            0 <= i < es.len() ==> (prev->0).spec_lt((#[trigger] es[i]).date),
    ensures
        sorted_asc(walk(rows, prev, es)->Some_0.1),
        forall|w1: int, w2: int|
            0 <= w1 < w2 < walk(rows, prev, es)->Some_0.0.len() && anchor(
                #[trigger] walk(rows, prev, es)->Some_0.0[w1],
            ) && anchor(#[trigger] walk(rows, prev, es)->Some_0.0[w2]) ==> anchor_date(
                walk(rows, prev, es)->Some_0.0[w1],
            ).spec_le(anchor_date(walk(rows, prev, es)->Some_0.0[w2])),
        forall|w: int|
            0 <= w < walk(rows, prev, es)->Some_0.0.len() && anchor(
                #[trigger] walk(rows, prev, es)->Some_0.0[w],
            ) && prev is Some ==> (prev->0).spec_le(
                anchor_date(walk(rows, prev, es)->Some_0.0[w]),
            ),
        forall|w: int, i: int|
            0 <= w < walk(rows, prev, es)->Some_0.0.len() && anchor(
                #[trigger] walk(rows, prev, es)->Some_0.0[w],
            ) && 0 <= i < walk(rows, prev, es)->Some_0.1.len() ==> anchor_date(
                walk(rows, prev, es)->Some_0.0[w],
            ).spec_lt((#[trigger] walk(rows, prev, es)->Some_0.1[i]).date),
        forall|i: int|
            0 <= i < walk(rows, prev, es)->Some_0.1.len() ==> exists|w: int|
                0 <= w < es.len() && #[trigger] walk(rows, prev, es)->Some_0.1[i] == es[w],
    decreases rows.len(),
{
    let out = walk(rows, prev, es)->Some_0.0;
    let rem = walk(rows, prev, es)->Some_0.1;
    if rows.len() == 0 {
        assert(forall|i: int| 0 <= i < rem.len() ==> #[trigger] rem[i] == es[i]);
    } else if !anchor(rows[0]) {
        lemma_walk_order(rows.skip(1), prev, es);
        let o = walk(rows.skip(1), prev, es)->Some_0.0;
        assert(out == seq![rows[0]] + o);
        assert(forall|w: int| 1 <= w < out.len() ==> #[trigger] out[w] == o[w - 1]);
        assert(!anchor(out[0]));
    } else {
        let d = anchor_date(rows[0]);
        let aid = rows[0]->Data_0.id;
        let p = pop_at(es, d, aid);
        lemma_pop_at_order(es, d, aid);
        lemma_walk_order(rows.skip(1), Some(d), p.1);
        let o = walk(rows.skip(1), Some(d), p.1)->Some_0.0;
        assert(out == p.0 + seq![rows[0]] + o);
        let n = p.0.len() as int;
        assert(forall|w: int| 0 <= w < n ==> #[trigger] out[w] == p.0[w]);
        assert(out[n] == rows[0]);
        assert(forall|w: int| n + 1 <= w < out.len() ==> #[trigger] out[w] == o[w - n - 1]);
        assert(prev is Some ==> (prev->0).spec_le(d));
        // every anchor among the popped rows lies at or after prev and at or
        // before d
        assert forall|w: int| 0 <= w < n && anchor(#[trigger] out[w]) implies anchor_date(
            out[w],
        ).spec_le(d) && (prev is Some ==> (prev->0).spec_le(anchor_date(out[w]))) by {
            let i = choose|i: int| 0 <= i < es.len() && p.0[w] == row_of(es[i]);
            assert(anchor_date(out[w]) == es[i].date);
        }
        // the remainder lies strictly after d
        assert forall|i: int| 0 <= i < rem.len() implies d.spec_lt((#[trigger] rem[i]).date) by {
            let w = choose|w: int| 0 <= w < p.1.len() && rem[i] == p.1[w];
        }
        // anchors in the walked tail lie at or after d
        assert(forall|w: int|
            0 <= w < o.len() && anchor(#[trigger] o[w]) ==> d.spec_le(anchor_date(o[w])));
    }
}

/// Order preservation: after a successful merge the valid anchor rows of the
/// output are non-decreasing by date. The row in the header position is not
/// examined by the merge, so it is required not to be an anchor.
pub proof fn lemma_order_preservation(rows: Seq<RowV>, batch: Seq<JournalEntryV>, out: Seq<RowV>)
    requires
        rows.len() > 0 ==> !anchor(rows[0]),
        merge_model(rows, sort_spec(batch)) == Some(out),
    ensures
        forall|i: int, j: int|
            0 <= i < j < out.len() && anchor(#[trigger] out[i]) && anchor(#[trigger] out[j])
                ==> anchor_date(out[i]).spec_le(anchor_date(out[j])),
{
    let es = sort_spec(batch);
    crate::merge::lemma_sort_sorted(batch);
    if rows.len() == 0 {
        if es.len() == 0 {
        } else {
            assert(out == seq![RowV::Header] + rows_of(es));
            assert(forall|w: int| 1 <= w < out.len() ==> #[trigger] out[w] == row_of(es[w - 1]));
            assert(!anchor(out[0]));
            assert forall|i: int, j: int|
                0 <= i < j < out.len() && anchor(#[trigger] out[i]) && anchor(
                    #[trigger] out[j],
                ) implies anchor_date(out[i]).spec_le(anchor_date(out[j])) by {
                assert(anchor_date(out[i]) == es[i - 1].date);
                assert(anchor_date(out[j]) == es[j - 1].date);
            }
        }
    } else {
        lemma_walk_order(rows.skip(1), None, es);
        let w = walk(rows.skip(1), None, es)->Some_0;
        assert(out == seq![rows[0]] + w.0 + rows_of(w.1));
        let n = w.0.len() as int;
        assert(forall|i: int| 1 <= i < n + 1 ==> #[trigger] out[i] == w.0[i - 1]);
        assert(forall|i: int| n + 1 <= i < out.len() ==> #[trigger] out[i] == row_of(w.1[i - n - 1]));
        assert(!anchor(out[0]));
        assert forall|i: int, j: int|
            0 <= i < j < out.len() && anchor(#[trigger] out[i]) && anchor(
                #[trigger] out[j],
            ) implies anchor_date(out[i]).spec_le(anchor_date(out[j])) by {
            if i >= 1 && j < n + 1 {
            } else if i >= n + 1 {
                assert(anchor_date(out[i]) == w.1[i - n - 1].date);
                assert(anchor_date(out[j]) == w.1[j - n - 1].date);
            } else if i >= 1 && j >= n + 1 {
                assert(anchor_date(out[j]) == w.1[j - n - 1].date);
            }
        }
    }
}

/// No two entries share a date under different identifiers.
pub open spec fn ties_same_id(es: Seq<JournalEntryV>) -> bool {
    forall|i: int, j: int|
        0 <= i < es.len() && 0 <= j < es.len() && (#[trigger] es[i]).date == (
        #[trigger] es[j]).date ==> es[i].id == es[j].id
}

/// Every entry carries a non-empty identifier.
pub open spec fn ids_nonempty(es: Seq<JournalEntryV>) -> bool {
    forall|i: int| 0 <= i < es.len() ==> (#[trigger] es[i]).id.len() > 0
}

/// No entry's identifier is carried by any data row.
pub open spec fn fresh_ids(rows: Seq<RowV>, es: Seq<JournalEntryV>) -> bool {
    forall|i: int, j: int|
        0 <= i < rows.len() && 0 <= j < es.len() && (#[trigger] rows[i]) is Data ==> rows[i]->Data_0.id
            != (#[trigger] es[j]).id
}

proof fn lemma_lt_le_trans(a: Timestamp, b: Timestamp, c: Timestamp)
    requires
        a.spec_lt(b),
        b.spec_le(c),
    ensures
        a.spec_lt(c),
{
    crate::time::lemma_le_trans(a, b, c);
    if a == c {
        crate::time::lemma_le_total(b, c);
    }
}

proof fn lemma_le_lt_trans(a: Timestamp, b: Timestamp, c: Timestamp)
    requires
        a.spec_le(b),
        b.spec_lt(c),
    ensures
        a.spec_lt(c),
{
    crate::time::lemma_le_trans(a, b, c);
    if a == c {
        crate::time::lemma_le_total(a, b);
    }
}

proof fn lemma_rows_of_concat(a: Seq<JournalEntryV>, b: Seq<JournalEntryV>)
    ensures
        rows_of(a + b) == rows_of(a) + rows_of(b),
{
    assert(rows_of(a + b) =~= rows_of(a) + rows_of(b));
}

/// Popping with an identifier that no entry carries keeps every popped
/// entry: the result is the rows of a maximal date-bounded prefix.
proof fn lemma_pop_fresh(es: Seq<JournalEntryV>, d: Timestamp, aid: Seq<char>)
    requires
        forall|i: int| 0 <= i < es.len() ==> (#[trigger] es[i]).id != aid,
    ensures
        exists|c: int|
            {
                &&& 0 <= c <= es.len()
                &&& pop_at(es, d, aid) == (rows_of(es.take(c)), #[trigger] es.skip(c))
                &&& forall|i: int| 0 <= i < c ==> (#[trigger] es[i]).date.spec_le(d)
                &&& (c < es.len() ==> !es[c].date.spec_le(d))
            },
    decreases es.len(),
{
    if es.len() == 0 {
        assert(pop_at(es, d, aid) == (rows_of(es.take(0)), es.skip(0))) by {
            assert(es.take(0) =~= es);
            assert(es.skip(0) =~= es);
            assert(rows_of(es) =~= Seq::<RowV>::empty());
        }
    } else if es[0].date.spec_le(d) {
        assert(forall|i: int|
            0 <= i < es.skip(1).len() ==> (#[trigger] es.skip(1)[i]).id != aid) by {
            assert(forall|i: int|
                0 <= i < es.skip(1).len() ==> #[trigger] es.skip(1)[i] == es[i + 1]);
        }
        lemma_pop_fresh(es.skip(1), d, aid);
        let c1 = choose|c1: int|
            {
                &&& 0 <= c1 <= es.skip(1).len()
                &&& pop_at(es.skip(1), d, aid) == (
                    rows_of(es.skip(1).take(c1)),
                    #[trigger] es.skip(1).skip(c1),
                )
                &&& forall|i: int| 0 <= i < c1 ==> (#[trigger] es.skip(1)[i]).date.spec_le(d)
                &&& (c1 < es.skip(1).len() ==> !es.skip(1)[c1].date.spec_le(d))
            };
        let c = c1 + 1;
        assert(es[0].id != aid);
        assert(es.take(c) =~= seq![es[0]] + es.skip(1).take(c1));
        lemma_rows_of_concat(seq![es[0]], es.skip(1).take(c1));
        assert(rows_of(seq![es[0]]) =~= seq![row_of(es[0])]);
        assert(es.skip(1).skip(c1) =~= es.skip(c));
        assert(pop_at(es, d, aid) == (rows_of(es.take(c)), es.skip(c)));
        assert(forall|i: int| 0 <= i < c ==> (#[trigger] es[i]).date.spec_le(d)) by {
            assert(forall|i: int|
                1 <= i < c ==> #[trigger] es[i] == es.skip(1)[i - 1]);
        }
        assert(c < es.len() ==> !es[c].date.spec_le(d)) by {
            if c < es.len() {
                assert(es[c] == es.skip(1)[c1]);
            }
        }
    } else {
        assert(pop_at(es, d, aid) == (rows_of(es.take(0)), es.skip(0))) by {
            assert(es.take(0) =~= Seq::<JournalEntryV>::empty());
            assert(rows_of(es.take(0)) =~= Seq::<RowV>::empty());
            assert(es.skip(0) =~= es);
        }
    }
}

/// Re-popping the batch at one of its own rows discards exactly that row's
/// date ties, which all carry the row's identifier.
proof fn lemma_pop_ties(s: Seq<JournalEntryV>, k: int, kp: int)
    requires
        sorted_asc(s),
        ties_same_id(s),
        0 <= k < s.len(),
        k <= kp <= s.len(),
    ensures
        exists|e: int|
            {
                &&& kp <= e <= s.len()
                &&& k + 1 <= e
                &&& pop_at(s.skip(kp), s[k].date, s[k].id) == (
                    Seq::<RowV>::empty(),
                    #[trigger] s.skip(e),
                )
                &&& forall|i: int| e <= i < s.len() ==> s[k].date.spec_lt((#[trigger] s[i]).date)
                &&& forall|i: int| kp <= i < e ==> (#[trigger] s[i]).date == s[k].date
            },
    decreases s.len() - kp,
{
    if kp == s.len() {
        let e = kp;
        assert(s.skip(kp).len() == 0);
        assert(pop_at(s.skip(kp), s[k].date, s[k].id) == (Seq::<RowV>::empty(), s.skip(e)));
    } else if s[kp].date.spec_le(s[k].date) {
        assert(s[k].date.spec_le(s[kp].date));
        crate::time::lemma_le_total(s[k].date, s[kp].date);
        assert(s[kp].date == s[k].date);
        assert(s[kp].id == s[k].id);
        assert(s.skip(kp)[0] == s[kp]);
        assert(s.skip(kp).skip(1) =~= s.skip(kp + 1));
        lemma_pop_ties(s, k, kp + 1);
        let e = choose|e: int|
            {
                &&& kp + 1 <= e <= s.len()
                &&& k + 1 <= e
                &&& pop_at(s.skip(kp + 1), s[k].date, s[k].id) == (
                    Seq::<RowV>::empty(),
                    #[trigger] s.skip(e),
                )
                &&& forall|i: int| e <= i < s.len() ==> s[k].date.spec_lt((#[trigger] s[i]).date)
                &&& forall|i: int| kp + 1 <= i < e ==> (#[trigger] s[i]).date == s[k].date
            };
        assert(pop_at(s.skip(kp), s[k].date, s[k].id) == (Seq::<RowV>::empty(), s.skip(e)));
    } else {
        let e = kp;
        assert(s.skip(kp)[0] == s[kp]);
        assert(s[k].date.spec_lt(s[kp].date)) by {
            crate::time::lemma_le_total(s[k].date, s[kp].date);
        }
        assert(k + 1 <= e) by {
            if kp == k {
                assert(s[k].date.spec_le(s[k].date));
            }
        }
        assert forall|i: int| e <= i < s.len() implies s[k].date.spec_lt(
            (#[trigger] s[i]).date,
        ) by {
            assert(s[kp].date.spec_le(s[i].date));
            lemma_lt_le_trans(s[k].date, s[kp].date, s[i].date);
        }
        assert(pop_at(s.skip(kp), s[k].date, s[k].id) == (Seq::<RowV>::empty(), s.skip(e)));
    }
}

/// Walking the rows of the batch's own segment discards each entry at its
/// own row and changes nothing, whatever rows follow the segment.
#[verifier::rlimit(60)]
proof fn lemma_self_walk(
    s: Seq<JournalEntryV>,
    k: int,
    kp: int,
    c: int,
    prev: Option<Timestamp>,
    rest: Seq<RowV>,
)
    requires
        sorted_asc(s),
        ties_same_id(s),
        ids_nonempty(s),
        0 <= k <= c <= s.len(),
        k <= kp <= c,
        forall|i: int, j: int|
            0 <= i < c <= j < s.len() ==> (#[trigger] s[i]).date.spec_lt((#[trigger] s[j]).date),
        prev is Some ==> forall|i: int|
            k <= i < s.len() ==> (prev->0).spec_le((#[trigger] s[i]).date),
    ensures
        walk(rows_of(s.subrange(k, c)) + rest, prev, s.skip(kp)) == match walk(
            rest,
            if c > k {
                Some(s[c - 1].date)
            } else {
                prev
            },
            s.skip(c),
        ) {
            None => None,
            Some(o) => Some((rows_of(s.subrange(k, c)) + o.0, o.1)),
        },
    decreases c - k,
{
    if k == c {
        assert(rows_of(s.subrange(k, c)) =~= Seq::<RowV>::empty());
        assert(rows_of(s.subrange(k, c)) + rest =~= rest);
        assert(kp == c);
        match walk(rest, prev, s.skip(c)) {
            None => {},
            Some(o) => {
                assert(rows_of(s.subrange(k, c)) + o.0 =~= o.0);
            },
        }
    } else {
        let rows = rows_of(s.subrange(k, c)) + rest;
        let d = s[k].date;
        assert(rows[0] == row_of(s[k])) by {
            assert(s.subrange(k, c)[0] == s[k]);
        }
        assert(anchor(rows[0]));
        assert(anchor_date(rows[0]) == d);
        assert(rows[0]->Data_0.id == s[k].id);
        assert(prev is Some ==> !d.spec_lt(prev->0)) by {
            if prev is Some && d.spec_lt(prev->0) {
                crate::time::lemma_le_total(prev->0, d);
            }
        }
        lemma_pop_ties(s, k, kp);
        let e = choose|e: int|
            {
                &&& kp <= e <= s.len()
                &&& k + 1 <= e
                &&& pop_at(s.skip(kp), s[k].date, s[k].id) == (
                    Seq::<RowV>::empty(),
                    #[trigger] s.skip(e),
                )
                &&& forall|i: int| e <= i < s.len() ==> s[k].date.spec_lt((#[trigger] s[i]).date)
                &&& forall|i: int| kp <= i < e ==> (#[trigger] s[i]).date == s[k].date
            };
        assert(e <= c) by {
            if e > c {
                assert(s[c].date == s[k].date);
                assert(s[k].date.spec_lt(s[c].date));
            }
        }
        assert(rows.skip(1) =~= rows_of(s.subrange(k + 1, c)) + rest) by {
            assert(forall|i: int|
                0 <= i < s.subrange(k + 1, c).len() ==> #[trigger] s.subrange(k + 1, c)[i] == s.subrange(
                    k,
                    c,
                )[i + 1]);
        }
        lemma_self_walk(s, k + 1, e, c, Some(d), rest);
        let tail = walk(
            rest,
            if c > k + 1 {
                Some(s[c - 1].date)
            } else {
                Some(d)
            },
            s.skip(c),
        );
        assert((if c > k + 1 {
            Some(s[c - 1].date)
        } else {
            Some(d)
        }) == Some(s[c - 1].date)) by {
            if c == k + 1 {
            }
        }
        match tail {
            None => {},
            Some(o) => {
                assert(Seq::<RowV>::empty() + seq![rows[0]] + (rows_of(s.subrange(k + 1, c))
                    + o.0) =~= rows_of(s.subrange(k, c)) + o.0) by {
                    assert(forall|i: int|
                        0 <= i < s.subrange(k + 1, c).len() ==> #[trigger] s.subrange(k + 1, c)[i]
                            == s.subrange(k, c)[i + 1]);
                }
            },
        }
    }
}

/// Re-walking a merged result with the same batch changes nothing: each
/// entry is discarded at its own row.
#[verifier::rlimit(60)]
proof fn lemma_idem_walk(rows: Seq<RowV>, prev: Option<Timestamp>, es: Seq<JournalEntryV>)
    requires
        sorted_asc(es),
        ties_same_id(es),
        ids_nonempty(es),
        fresh_ids(rows, es),
        prev is Some ==> forall|i: int|
            0 <= i < es.len() ==> (prev->0).spec_lt((#[trigger] es[i]).date),
        walk(rows, prev, es) is Some,
    ensures
        walk(
            walk(rows, prev, es)->Some_0.0 + rows_of(walk(rows, prev, es)->Some_0.1),
            prev,
            es,
        ) == Some(
            (
                walk(rows, prev, es)->Some_0.0 + rows_of(walk(rows, prev, es)->Some_0.1),
                Seq::<JournalEntryV>::empty(),
            ),
        ),
    decreases rows.len(),
{
    let out = walk(rows, prev, es)->Some_0.0;
    let rem = walk(rows, prev, es)->Some_0.1;
    if rows.len() == 0 {
        assert(out =~= Seq::<RowV>::empty());
        assert(rem == es);
        lemma_self_walk(es, 0, 0, es.len() as int, prev, Seq::<RowV>::empty());
        assert(es.subrange(0, es.len() as int) =~= es);
        assert(es.skip(0) =~= es);
        assert(rows_of(es) + Seq::<RowV>::empty() =~= rows_of(es));
        assert(walk(Seq::<RowV>::empty(), if es.len() > 0 {
            Some(es[es.len() - 1].date)
        } else {
            prev
        }, es.skip(es.len() as int)) == Some(
            (Seq::<RowV>::empty(), es.skip(es.len() as int)),
        ));
        assert(es.skip(es.len() as int) =~= Seq::<JournalEntryV>::empty());
        assert(out + rows_of(rem) =~= rows_of(es));
    } else if !anchor(rows[0]) {
        assert(fresh_ids(rows.skip(1), es)) by {
            assert(forall|i: int|
                0 <= i < rows.skip(1).len() ==> #[trigger] rows.skip(1)[i] == rows[i + 1]);
        }
        lemma_idem_walk(rows.skip(1), prev, es);
        let o2 = walk(rows.skip(1), prev, es)->Some_0;
        assert(out == seq![rows[0]] + o2.0);
        assert(rem == o2.1);
        let t = out + rows_of(rem);
        assert(t =~= seq![rows[0]] + (o2.0 + rows_of(o2.1)));
        assert(t[0] == rows[0]);
        assert(t.skip(1) =~= o2.0 + rows_of(o2.1));
        assert(walk(t, prev, es) == Some((seq![rows[0]] + (o2.0 + rows_of(o2.1)), Seq::<
            JournalEntryV,
        >::empty())));
        assert(seq![rows[0]] + (o2.0 + rows_of(o2.1)) =~= t);
    } else {
        let d = anchor_date(rows[0]);
        let aid = rows[0]->Data_0.id;
        assert(forall|i: int| 0 <= i < es.len() ==> (#[trigger] es[i]).id != aid);
        lemma_pop_fresh(es, d, aid);
        let c = choose|c: int|
            {
                &&& 0 <= c <= es.len()
                &&& pop_at(es, d, aid) == (rows_of(es.take(c)), #[trigger] es.skip(c))
                &&& forall|i: int| 0 <= i < c ==> (#[trigger] es[i]).date.spec_le(d)
                &&& (c < es.len() ==> !es[c].date.spec_le(d))
            };
        assert(c < es.len() ==> d.spec_lt(es[c].date)) by {
            if c < es.len() {
                crate::time::lemma_le_total(d, es[c].date);
            }
        }
        // the tail entries are strictly newer than the anchor
        assert forall|i: int| c <= i < es.len() implies d.spec_lt((#[trigger] es[i]).date) by {
            assert(es[c].date.spec_le(es[i].date));
            lemma_lt_le_trans(d, es[c].date, es[i].date);
        }
        let o2 = walk(rows.skip(1), Some(d), es.skip(c))->Some_0;
        assert(out == rows_of(es.take(c)) + seq![rows[0]] + o2.0);
        assert(rem == o2.1);
        assert(sorted_asc(es.skip(c)) && ties_same_id(es.skip(c)) && ids_nonempty(es.skip(c)))
            by {
            assert(forall|i: int|
                0 <= i < es.skip(c).len() ==> #[trigger] es.skip(c)[i] == es[i + c]);
        }
        assert(fresh_ids(rows.skip(1), es.skip(c))) by {
            assert(forall|i: int|
                0 <= i < rows.skip(1).len() ==> #[trigger] rows.skip(1)[i] == rows[i + 1]);
            assert(forall|i: int|
                0 <= i < es.skip(c).len() ==> #[trigger] es.skip(c)[i] == es[i + c]);
        }
        assert(forall|i: int|
            0 <= i < es.skip(c).len() ==> d.spec_lt((#[trigger] es.skip(c)[i]).date)) by {
            assert(forall|i: int|
                0 <= i < es.skip(c).len() ==> #[trigger] es.skip(c)[i] == es[i + c]);
        }
        lemma_idem_walk(rows.skip(1), Some(d), es.skip(c));
        let t2 = o2.0 + rows_of(o2.1);
        // the second pass first re-walks the rows of the popped entries
        let rest = seq![rows[0]] + t2;
        lemma_self_walk(es, 0, 0, c, prev, rest);
        assert(es.subrange(0, c) =~= es.take(c));
        assert(es.skip(0) =~= es);
        let t = out + rows_of(rem);
        assert(t =~= rows_of(es.take(c)) + rest);
        // the anchor row is reached with every popped entry discarded
        let prev2 = if c > 0 {
            Some(es[c - 1].date)
        } else {
            prev
        };
        assert(prev2 is Some ==> !d.spec_lt(prev2->0)) by {
            if c > 0 {
                assert(es[c - 1].date.spec_le(d));
                if d.spec_lt(es[c - 1].date) {
                    crate::time::lemma_le_total(es[c - 1].date, d);
                }
            } else {
                if prev is Some && d.spec_lt(prev->0) {
                }
            }
        }
        assert(pop_at(es.skip(c), d, aid) == (Seq::<RowV>::empty(), es.skip(c))) by {
            if c < es.len() {
                assert(es.skip(c)[0] == es[c]);
            }
        }
        assert(rest[0] == rows[0]);
        assert(rest.skip(1) =~= t2);
        assert(walk(t2, Some(d), es.skip(c)) == Some((t2, Seq::<JournalEntryV>::empty())));
        assert(walk(rest, prev2, es.skip(c)) == Some(
            (Seq::<RowV>::empty() + seq![rows[0]] + t2, Seq::<JournalEntryV>::empty()),
        ));
        assert(walk(t, prev, es) == Some(
            (
                rows_of(es.take(c)) + (Seq::<RowV>::empty() + seq![rows[0]] + t2),
                Seq::<JournalEntryV>::empty(),
            ),
        ));
        assert(rows_of(es.take(c)) + (Seq::<RowV>::empty() + seq![rows[0]] + t2) =~= t);
    }
}

/// Idempotence: merging the same batch a second time changes nothing — every
/// entry is recognized by its identifier at the row that recorded it. This
/// holds for batches of entries with non-empty identifiers that are not yet
/// recorded in the dataset, where entries sharing a date share an identifier.
pub proof fn lemma_idempotence(rows: Seq<RowV>, batch: Seq<JournalEntryV>, out: Seq<RowV>)
    requires
        rows.len() > 0 ==> !anchor(rows[0]),
        ties_same_id(batch),
        ids_nonempty(batch),
        fresh_ids(rows, batch),
        merge_model(rows, sort_spec(batch)) == Some(out),
    ensures
        merge_model(out, sort_spec(batch)) == Some(out),
{
    let es = sort_spec(batch);
    crate::merge::lemma_sort_sorted(batch);
    assert(ties_same_id(es) && ids_nonempty(es) && fresh_ids(rows, es)) by {
        assert forall|i: int| 0 <= i < es.len() implies batch.contains(#[trigger] es[i]) by {
            assert(es.contains(es[i]));
            crate::merge::lemma_sort_contains(batch, es[i]);
        }
        assert forall|i: int, j: int|
            0 <= i < es.len() && 0 <= j < es.len() && (#[trigger] es[i]).date == (
            #[trigger] es[j]).date implies es[i].id == es[j].id by {
            let bi = choose|bi: int| 0 <= bi < batch.len() && batch[bi] == es[i];
            let bj = choose|bj: int| 0 <= bj < batch.len() && batch[bj] == es[j];
            assert(batch[bi].date == batch[bj].date);
        }
        assert forall|i: int| 0 <= i < es.len() implies (#[trigger] es[i]).id.len() > 0 by {
            let bi = choose|bi: int| 0 <= bi < batch.len() && batch[bi] == es[i];
        }
        assert forall|i: int, j: int|
            0 <= i < rows.len() && 0 <= j < es.len() && (#[trigger] rows[i]) is Data implies rows[i]->Data_0.id
            != (#[trigger] es[j]).id by {
            let bj = choose|bj: int| 0 <= bj < batch.len() && batch[bj] == es[j];
        }
    }
    if rows.len() == 0 {
        if es.len() == 0 {
            assert(out == rows);
        } else {
            assert(out == seq![RowV::Header] + rows_of(es));
            assert(out.len() > 0);
            assert(out[0] == RowV::Header);
            assert(!anchor(out[0]));
            lemma_self_walk(es, 0, 0, es.len() as int, None, Seq::<RowV>::empty());
            assert(es.subrange(0, es.len() as int) =~= es);
            assert(es.skip(0) =~= es);
            assert(es.skip(es.len() as int) =~= Seq::<JournalEntryV>::empty());
            assert(walk(Seq::<RowV>::empty(), Some(es[es.len() - 1].date), es.skip(
                es.len() as int,
            )) == Some((Seq::<RowV>::empty(), es.skip(es.len() as int))));
            assert(rows_of(es) + Seq::<RowV>::empty() =~= rows_of(es));
            assert(out.skip(1) =~= rows_of(es));
            assert(walk(out.skip(1), None, es) == Some(
                (rows_of(es), Seq::<JournalEntryV>::empty()),
            ));
            assert(rows_of(Seq::<JournalEntryV>::empty()) =~= Seq::<RowV>::empty());
            assert(seq![out[0]] + rows_of(es) + rows_of(Seq::<JournalEntryV>::empty()) =~= out);
        }
    } else {
        assert(fresh_ids(rows.skip(1), es)) by {
            assert(forall|i: int|
                0 <= i < rows.skip(1).len() ==> #[trigger] rows.skip(1)[i] == rows[i + 1]);
        }
        lemma_idem_walk(rows.skip(1), None, es);
        let w = walk(rows.skip(1), None, es)->Some_0;
        assert(out == seq![rows[0]] + w.0 + rows_of(w.1));
        assert(out.len() > 0);
        assert(out[0] == rows[0]);
        assert(!anchor(out[0]));
        assert(out.skip(1) =~= w.0 + rows_of(w.1));
        assert(walk(out.skip(1), None, es) == Some(
            (w.0 + rows_of(w.1), Seq::<JournalEntryV>::empty()),
        ));
        assert(rows_of(Seq::<JournalEntryV>::empty()) =~= Seq::<RowV>::empty());
        assert(seq![out[0]] + (w.0 + rows_of(w.1)) + rows_of(Seq::<JournalEntryV>::empty())
            =~= out);
    }
}

/// Completeness, second half: every row present before the merge is still
/// present afterwards, with at least its old multiplicity.
pub proof fn lemma_completeness_rows_kept(
    rows: Seq<RowV>,
    batch: Seq<JournalEntryV>,
    out: Seq<RowV>,
    r: RowV,
)
    requires
        merge_model(rows, sort_spec(batch)) == Some(out),
    ensures
        count_row(out, r) >= count_row(rows, r),
{
    let es = sort_spec(batch);
    if rows.len() == 0 {
        if es.len() == 0 {
        } else {
            lemma_count_row_concat(seq![RowV::Header], rows_of(es), r);
            lemma_count_row_single(RowV::Header, r);
        }
    } else {
        lemma_walk_keeps_rows(rows.skip(1), None, es, r);
        let w = walk(rows.skip(1), None, es)->Some_0;
        lemma_count_row_concat(seq![rows[0]] + w.0, rows_of(w.1), r);
        lemma_count_row_concat(seq![rows[0]], w.0, r);
        lemma_count_row_single(rows[0], r);
        assert(out =~= (seq![rows[0]] + w.0) + rows_of(w.1));
        assert(count_row(rows, r) == (if rows[0] == r {
            1nat
        } else {
            0nat
        }) + count_row(rows.skip(1), r));
    }
}

} // verus!

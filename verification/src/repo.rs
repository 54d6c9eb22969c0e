use vstd::prelude::*;

verus! {

use crate::model::{
    cat_sums, grand_sum, lemma_cat_sums_take_succ, lemma_matching_rows_elems,
    lemma_pct_rows_elems, lemma_sums_take_le, lemma_total_sum_take_succ, lemma_views_fields_ok,
    matching_rows, pct_of, pct_rows, rank_ge, rank_ge_exec, ranked_prefix, sorted_by, total_sum,
    views, word_matches, Category, InsightSummary, InsightView, RankKey,
};
use crate::text::contains_bytes;

/// Inserting an element anywhere in a sequence adds it to the multiset of
/// elements and changes nothing else.
pub proof fn lemma_to_multiset_insert(s: Seq<InsightView>, pos: int, x: InsightView)
    requires
        0 <= pos <= s.len(),
    ensures
        s.insert(pos, x).to_multiset() == s.to_multiset().insert(x),
{
    broadcast use vstd::seq_lib::group_to_multiset_ensures;

    let t = s.insert(pos, x);
    assert(t.remove(pos) =~= s);
    assert(t[pos] == x);
    assert(s.to_multiset() == t.to_multiset().remove(x));
    assert(t.contains(x));
    assert(t.to_multiset().count(x) > 0);
    assert(t.to_multiset() =~= s.to_multiset().insert(x));
}

/// Appending to a sequence of records appends its value to the sequence of
/// values.
pub proof fn lemma_views_push(s: Seq<InsightSummary>, r: InsightSummary)
    ensures
        views(s.push(r)) == views(s).push(r@),
{
    assert(views(s.push(r)) =~= views(s).push(r@));
}

/// A sequence that is, element for element, a permutation of a filtered
/// sequence holds only elements that pass the filter's predicate.
pub proof fn lemma_perm_elems_match(a: Seq<InsightView>, b: Seq<InsightView>, w: Seq<u8>)
    requires
        a.to_multiset() == matching_rows(b, w).to_multiset(),
    ensures
        forall|i: int| 0 <= i < a.len() ==> word_matches(#[trigger] a[i], w),
{
    broadcast use vstd::seq_lib::group_to_multiset_ensures;

    lemma_matching_rows_elems(b, w);
    assert forall|i: int| 0 <= i < a.len() implies word_matches(#[trigger] a[i], w) by {
        assert(a.contains(a[i]));
        assert(matching_rows(b, w).to_multiset().count(a[i]) > 0);
        assert(matching_rows(b, w).contains(a[i]));
        let j = choose|j: int| 0 <= j < matching_rows(b, w).len() && matching_rows(b, w)[j] == a[i];
        assert(word_matches(matching_rows(b, w)[j], w));
    }
}

/// Same statement for the percentage filter.
pub proof fn lemma_perm_elems_pct(
    a: Seq<InsightView>,
    b: Seq<InsightView>,
    cat: Category,
    threshold: int,
)
    requires
        a.to_multiset() == pct_rows(b, cat, threshold).to_multiset(),
    ensures
        forall|i: int| 0 <= i < a.len() ==> pct_of(#[trigger] a[i], cat) > threshold,
{
    broadcast use vstd::seq_lib::group_to_multiset_ensures;

    lemma_pct_rows_elems(b, cat, threshold);
    assert forall|i: int| 0 <= i < a.len() implies pct_of(#[trigger] a[i], cat) > threshold by {
        assert(a.contains(a[i]));
        assert(pct_rows(b, cat, threshold).to_multiset().count(a[i]) > 0);
        assert(pct_rows(b, cat, threshold).contains(a[i]));
        let j = choose|j: int|
            0 <= j < pct_rows(b, cat, threshold).len() && pct_rows(b, cat, threshold)[j] == a[i];
        assert(pct_of(pct_rows(b, cat, threshold)[j], cat) > threshold);
    }
}

/// First position whose element ranks strictly below `row`, scanning a
/// descending sequence from the front.
fn find_pos(out: &Vec<InsightSummary>, row: &InsightSummary, k: RankKey) -> (pos: usize)
    ensures
        pos <= out@.len(),
        forall|j: int| 0 <= j < pos ==> rank_ge(views(out@)[j], row@, k),
        pos < out@.len() ==> !rank_ge(views(out@)[pos as int], row@, k),
{
    let mut pos: usize = 0;
    while pos < out.len()
        invariant
            pos <= out@.len(),
            forall|j: int| 0 <= j < pos ==> rank_ge(views(out@)[j], row@, k),
        decreases out@.len() - pos,
    {
        if !rank_ge_exec(&out[pos], row, k) {
            return pos;
        }
        pos = pos + 1;
    }
    pos
}

/// Insertion sort: a descending reordering of the input rows under `k`.
pub(crate) fn sort_rows(v: &Vec<InsightSummary>, k: RankKey) -> (out: Vec<InsightSummary>)
    ensures
        views(out@).to_multiset() == views(v@).to_multiset(),
        sorted_by(views(out@), k),
        out@.len() == v@.len(),
{
    let mut out: Vec<InsightSummary> = Vec::new();
    let mut i: usize = 0;
    proof {
        broadcast use vstd::seq_lib::group_to_multiset_ensures;

        assert(views(v@.take(0)) =~= views(out@));
    }
    while i < v.len()
        invariant
            i <= v@.len(),
            views(out@).to_multiset() == views(v@.take(i as int)).to_multiset(),
            sorted_by(views(out@), k),
            out@.len() == i,
        decreases v@.len() - i,
    {
        let row = (&v[i]).clone();
        let pos = find_pos(&out, &row, k);
        proof {
            broadcast use vstd::seq_lib::group_to_multiset_ensures;

            let ov = views(out@);
            let nv = views(out@.insert(pos as int, row));
            assert(nv =~= ov.insert(pos as int, row@));
            ov.insert_ensures(pos as int, row@);
            lemma_to_multiset_insert(ov, pos as int, row@);
            lemma_views_push(v@.take(i as int), v@[i as int]);
            assert(v@.take(i + 1) =~= v@.take(i as int).push(v@[i as int]));
            // the inserted element is ranked no higher than everything before
            // it and no lower than everything after it
            assert forall|a: int, b: int| 0 <= a < b < nv.len() implies rank_ge(
                nv[a],
                nv[b],
                k,
            ) by {
                if b < pos {
                    assert(nv[a] == ov[a] && nv[b] == ov[b]);
                    assert(rank_ge(ov[a], ov[b], k));
                } else if a > pos {
                    assert(nv[a] == ov[a - 1] && nv[b] == ov[b - 1]);
                    assert(rank_ge(ov[a - 1], ov[b - 1], k));
                } else if a < pos && b == pos {
                    assert(nv[a] == ov[a] && nv[b] == row@);
                    assert(rank_ge(ov[a], row@, k));
                } else if a == pos {
                    assert(nv[a] == row@ && nv[b] == ov[b - 1]);
                    assert(!rank_ge(ov[pos as int], row@, k));
                    if b - 1 > pos {
                        assert(rank_ge(ov[pos as int], ov[b - 1], k));
                    }
                    assert(rank_ge(row@, ov[b - 1], k));
                } else {
                    assert(a < pos && b > pos);
                    assert(nv[a] == ov[a] && nv[b] == ov[b - 1]);
                    assert(rank_ge(ov[a], row@, k));
                    assert(!rank_ge(ov[pos as int], row@, k));
                    if b - 1 > pos {
                        assert(rank_ge(ov[pos as int], ov[b - 1], k));
                    }
                    assert(rank_ge(row@, ov[b - 1], k));
                    assert(rank_ge(ov[a], ov[b - 1], k));
                }
            }
        }
        out.insert(pos, row);
        i = i + 1;
    }
    proof {
        assert(v@.take(v@.len() as int) =~= v@);
    }
    out
}

/// Rows whose percentage in `cat` strictly exceeds the threshold, kept in
/// table order.
pub(crate) fn filter_pct(rows: &Vec<InsightSummary>, cat: Category, threshold: u32) -> (out: Vec<
    InsightSummary,
>)
    ensures
        views(out@) == pct_rows(views(rows@), cat, threshold as int),
{
    let mut out: Vec<InsightSummary> = Vec::new();
    let mut i: usize = 0;
    proof {
        assert(views(rows@.take(0)) =~= Seq::<InsightView>::empty());
        assert(views(out@) =~= pct_rows(views(rows@.take(0)), cat, threshold as int));
    }
    while i < rows.len()
        invariant
            i <= rows@.len(),
            views(out@) == pct_rows(views(rows@.take(i as int)), cat, threshold as int),
        decreases rows@.len() - i,
    {
        let keep = match cat {
            Category::Positive => rows[i].positive_pct > threshold,
            Category::Negative => rows[i].negative_pct > threshold,
        };
        proof {
            let prev = views(rows@.take(i as int));
            let next = views(rows@.take(i + 1));
            lemma_views_push(rows@.take(i as int), rows@[i as int]);
            assert(rows@.take(i + 1) =~= rows@.take(i as int).push(rows@[i as int]));
            assert(next == prev.push(rows@[i as int]@));
            assert(next.drop_last() =~= prev);
            assert(next.last() == rows@[i as int]@);
        }
        let ghost prev_out = out@;
        if keep {
            out.push(rows[i].clone());
            proof {
                assert(views(out@) =~= views(prev_out).push(rows@[i as int]@));
            }
        }
        i = i + 1;
    }
    proof {
        assert(rows@.take(rows@.len() as int) =~= rows@);
    }
    out
}

/// Rows whose word contains `w` as a contiguous run of bytes, kept in table
/// order.
pub(crate) fn filter_word(rows: &Vec<InsightSummary>, w: &Vec<u8>) -> (out: Vec<InsightSummary>)
    ensures
        views(out@) == matching_rows(views(rows@), w@),
{
    let mut out: Vec<InsightSummary> = Vec::new();
    let mut i: usize = 0;
    proof {
        assert(views(rows@.take(0)) =~= Seq::<InsightView>::empty());
        assert(views(out@) =~= matching_rows(views(rows@.take(0)), w@));
    }
    while i < rows.len()
        invariant
            i <= rows@.len(),
            views(out@) == matching_rows(views(rows@.take(i as int)), w@),
        decreases rows@.len() - i,
    {
        let keep = contains_bytes(&rows[i].word, w);
        proof {
            let prev = views(rows@.take(i as int));
            let next = views(rows@.take(i + 1));
            lemma_views_push(rows@.take(i as int), rows@[i as int]);
            assert(rows@.take(i + 1) =~= rows@.take(i as int).push(rows@[i as int]));
            assert(next == prev.push(rows@[i as int]@));
            assert(next.drop_last() =~= prev);
            assert(next.last() == rows@[i as int]@);
        }
        let ghost prev_out = out@;
        if keep {
            out.push(rows[i].clone());
            proof {
                assert(views(out@) =~= views(prev_out).push(rows@[i as int]@));
            }
        }
        i = i + 1;
    }
    proof {
        assert(rows@.take(rows@.len() as int) =~= rows@);
    }
    out
}

/// The in-memory relation of insight records, with the fixed read queries
/// the service issues against it.
pub struct InsightRepository {
    pub rows: Vec<InsightSummary>,
}

impl InsightRepository {
    /// The mathematical contents of the table, in storage order.
    pub open spec fn table(&self) -> Seq<InsightView> {
        views(self.rows@)
    }

    pub fn new(rows: Vec<InsightSummary>) -> (s: Self)
        ensures
            s.rows == rows,
    {
        InsightRepository { rows }
    }

    /// All rows, ordered by `total_count` descending.
    pub fn list_all(&self) -> (r: Vec<InsightSummary>)
        ensures
            views(r@).to_multiset() == self.table().to_multiset(),
            sorted_by(views(r@), RankKey::ByTotal),
            r@.len() == self.table().len(),
    {
        sort_rows(&self.rows, RankKey::ByTotal)
    }

    /// Number of rows in the table.
    pub fn count_all(&self) -> (r: usize)
        ensures
            r == self.table().len(),
    {
        self.rows.len()
    }

    /// Sum of `total_count` over all rows; 0 for an empty table.
    pub fn sum_total_count(&self) -> (r: u64)
        requires
            total_sum(self.table()) <= u64::MAX,
        ensures
            r == total_sum(self.table()),
    {
        let ghost vs = self.table();
        proof {
            lemma_views_fields_ok(self.rows@);
            assert(vs.take(0) =~= Seq::<InsightView>::empty());
        }
        let mut acc: u64 = 0;
        let mut i: usize = 0;
        while i < self.rows.len()
            invariant
                i <= self.rows@.len(),
                vs == self.table(),
                vs.len() == self.rows@.len(),
                total_sum(vs) <= u64::MAX,
                crate::model::count_fields_ok(vs),
                acc == total_sum(vs.take(i as int)),
            decreases self.rows@.len() - i,
        {
            proof {
                lemma_total_sum_take_succ(vs, i as int);
                lemma_sums_take_le(vs, i + 1);
                lemma_sums_take_le(vs, i as int);
            }
            acc = acc + self.rows[i].total_count as u64;
            i = i + 1;
        }
        proof {
            assert(vs.take(vs.len() as int) =~= vs);
        }
        acc
    }

    /// Column-wise sums of the three per-category counts; all 0 for an empty
    /// table.
    pub fn sum_by_category(&self) -> (r: (u64, u64, u64))
        requires
            grand_sum(self.table()) <= u64::MAX,
        ensures
            r.0 == cat_sums(self.table()).0,
            r.1 == cat_sums(self.table()).1,
            r.2 == cat_sums(self.table()).2,
    {
        let ghost vs = self.table();
        proof {
            lemma_views_fields_ok(self.rows@);
            assert(vs.take(0) =~= Seq::<InsightView>::empty());
        }
        let mut pos_acc: u64 = 0;
        let mut neg_acc: u64 = 0;
        let mut neu_acc: u64 = 0;
        let mut i: usize = 0;
        while i < self.rows.len()
            invariant
                i <= self.rows@.len(),
                vs == self.table(),
                vs.len() == self.rows@.len(),
                grand_sum(vs) <= u64::MAX,
                crate::model::count_fields_ok(vs),
                pos_acc == cat_sums(vs.take(i as int)).0,
                neg_acc == cat_sums(vs.take(i as int)).1,
                neu_acc == cat_sums(vs.take(i as int)).2,
            decreases self.rows@.len() - i,
        {
            proof {
                lemma_cat_sums_take_succ(vs, i as int);
                lemma_sums_take_le(vs, i + 1);
                lemma_sums_take_le(vs, i as int);
            }
            pos_acc = pos_acc + self.rows[i].positive_count as u64;
            neg_acc = neg_acc + self.rows[i].negative_count as u64;
            neu_acc = neu_acc + self.rows[i].neutral_count as u64;
            i = i + 1;
        }
        proof {
            assert(vs.take(vs.len() as int) =~= vs);
        }
        (pos_acc, neg_acc, neu_acc)
    }

    /// Rows whose percentage in `cat` strictly exceeds `threshold`
    /// (hundredths), ordered by that percentage descending with
    /// `total_count` as the tie-breaker, capped at `limit` rows.
    pub fn top_by_percentage(&self, cat: Category, threshold: u32, limit: usize) -> (r: Vec<
        InsightSummary,
    >)
        ensures
            sorted_by(views(r@), RankKey::ByPct(cat)),
            forall|i: int|
                0 <= i < r@.len() ==> pct_of(#[trigger] views(r@)[i], cat) > threshold as int,
            r@.len() == ({
                let pool = pct_rows(self.table(), cat, threshold as int);
                if limit <= pool.len() {
                    limit as int
                } else {
                    pool.len() as int
                }
            }),
            ranked_prefix(
                views(r@),
                pct_rows(self.table(), cat, threshold as int),
                RankKey::ByPct(cat),
                limit as int,
            ),
    {
        let filtered = filter_pct(&self.rows, cat, threshold);
        let mut sorted = sort_rows(&filtered, RankKey::ByPct(cat));
        let ghost full = views(sorted@);
        let ghost pool = pct_rows(self.table(), cat, threshold as int);
        sorted.truncate(limit);
        proof {
            assert(full.to_multiset() == pool.to_multiset());
            lemma_perm_elems_pct(full, self.table(), cat, threshold as int);
            if limit <= full.len() {
                assert(views(sorted@) =~= full.take(limit as int));
            } else {
                assert(views(sorted@) =~= full.take(full.len() as int));
            }
        }
        sorted
    }

    /// All rows ordered by `total_count` descending, capped at `limit` rows.
    pub fn sample_ordered_by_total(&self, limit: usize) -> (r: Vec<InsightSummary>)
        ensures
            sorted_by(views(r@), RankKey::ByTotal),
            r@.len() == (if limit <= self.table().len() {
                limit as int
            } else {
                self.table().len() as int
            }),
            ranked_prefix(views(r@), self.table(), RankKey::ByTotal, limit as int),
    {
        let mut sorted = sort_rows(&self.rows, RankKey::ByTotal);
        let ghost full = views(sorted@);
        sorted.truncate(limit);
        proof {
            if limit <= full.len() {
                assert(views(sorted@) =~= full.take(limit as int));
            } else {
                assert(views(sorted@) =~= full.take(full.len() as int));
            }
        }
        sorted
    }

    /// Rows whose word contains `w` as a contiguous run of bytes, ordered by
    /// `total_count` descending.
    pub fn search_by_word(&self, w: &Vec<u8>) -> (r: Vec<InsightSummary>)
        requires
            w@.len() >= 1,
        ensures
            views(r@).to_multiset() == matching_rows(self.table(), w@).to_multiset(),
            sorted_by(views(r@), RankKey::ByTotal),
            r@.len() == matching_rows(self.table(), w@).len(),
            forall|i: int| 0 <= i < r@.len() ==> word_matches(#[trigger] views(r@)[i], w@),
    {
        let filtered = filter_word(&self.rows, w);
        let sorted = sort_rows(&filtered, RankKey::ByTotal);
        proof {
            lemma_perm_elems_match(views(sorted@), self.table(), w@);
        }
        sorted
    }
}

} // verus!

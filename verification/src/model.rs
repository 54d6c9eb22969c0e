use vstd::prelude::*;

verus! {

use crate::text::{is_substring_of, lower_seq};

/// One pre-aggregated sentiment record for a single word.
///
/// Texts are held as UTF-8 bytes, and the three percentages are held in
/// hundredths of a percent, so a stored value of 8025 stands for 80.25%.
pub struct InsightSummary {
    pub id: i32,
    pub word: Vec<u8>,
    pub total_count: u32,
    pub positive_count: u32,
    pub negative_count: u32,
    pub neutral_count: u32,
    pub positive_pct: u32,
    pub negative_pct: u32,
    pub neutral_pct: u32,
    pub created_at: Vec<u8>,
}

/// The mathematical value of an [`InsightSummary`].
#[verifier::ext_equal]
pub struct InsightView {
    pub id: int,
    pub word: Seq<u8>,
    pub total_count: int,
    pub positive_count: int,
    pub negative_count: int,
    pub neutral_count: int,
    pub positive_pct: int,
    pub negative_pct: int,
    pub neutral_pct: int,
    pub created_at: Seq<u8>,
}

impl View for InsightSummary {
    type V = InsightView;

    open spec fn view(&self) -> InsightView {
        InsightView {
            id: self.id as int,
            word: self.word@,
            total_count: self.total_count as int,
            positive_count: self.positive_count as int,
            negative_count: self.negative_count as int,
            neutral_count: self.neutral_count as int,
            positive_pct: self.positive_pct as int,
            negative_pct: self.negative_pct as int,
            neutral_pct: self.neutral_pct as int,
            created_at: self.created_at@,
        }
    }
}

impl Clone for InsightSummary {
    fn clone(&self) -> (r: Self)
        ensures
            r@ == self@,
    {
        let r = InsightSummary {
            id: self.id,
            word: crate::text::copy_bytes(&self.word),
            total_count: self.total_count,
            positive_count: self.positive_count,
            negative_count: self.negative_count,
            neutral_count: self.neutral_count,
            positive_pct: self.positive_pct,
            negative_pct: self.negative_pct,
            neutral_pct: self.neutral_pct,
            created_at: crate::text::copy_bytes(&self.created_at),
        };
        proof {
            assert(r@ =~= self@);
        }
        r
    }
}

/// The values of a sequence of records.
pub open spec fn views(s: Seq<InsightSummary>) -> Seq<InsightView> {
    s.map_values(|r: InsightSummary| r@)
}

/// The two sentiment categories that can be ranked by percentage.
#[derive(Clone, Copy)]
pub enum Category {
    Positive,
    Negative,
}

/// The sort orders used by the repository: by volume alone, or by a
/// category's percentage with volume as the tie-breaker.
#[derive(Clone, Copy)]
pub enum RankKey {
    ByTotal,
    ByPct(Category),
}

/// The percentage of a record in the given category, in hundredths.
pub open spec fn pct_of(r: InsightView, cat: Category) -> int {
    match cat {
        Category::Positive => r.positive_pct,
        Category::Negative => r.negative_pct,
    }
}

/// The lexicographic rank of a record under a sort order; sorts are
/// descending in this pair.
pub open spec fn rank_of(r: InsightView, k: RankKey) -> (int, int) {
    match k {
        RankKey::ByTotal => (r.total_count, 0),
        RankKey::ByPct(cat) => (pct_of(r, cat), r.total_count),
    }
}

/// `a` may stand no later than `b` in a descending order under `k`.
pub open spec fn rank_ge(a: InsightView, b: InsightView, k: RankKey) -> bool {
    rank_of(a, k).0 > rank_of(b, k).0 || (rank_of(a, k).0 == rank_of(b, k).0 && rank_of(a, k).1
        >= rank_of(b, k).1)
}

/// The sequence is descending under the order `k`.
pub open spec fn sorted_by(s: Seq<InsightView>, k: RankKey) -> bool {
    forall|i: int, j: int| 0 <= i < j < s.len() ==> rank_ge(s[i], s[j], k)
}

/// Exec comparison matching [`rank_ge`].
pub(crate) fn rank_ge_exec(a: &InsightSummary, b: &InsightSummary, k: RankKey) -> (r: bool)
    ensures
        r == rank_ge(a@, b@, k),
{
    match k {
        RankKey::ByTotal => a.total_count >= b.total_count,
        RankKey::ByPct(cat) => {
            let pa = match cat {
                Category::Positive => a.positive_pct,
                Category::Negative => a.negative_pct,
            };
            let pb = match cat {
                Category::Positive => b.positive_pct,
                Category::Negative => b.negative_pct,
            };
            pa > pb || (pa == pb && a.total_count >= b.total_count)
        },
    }
}

/// Sum of `total_count` over a sequence of record values.
pub open spec fn total_sum(s: Seq<InsightView>) -> int
    decreases s.len(),
{
    if s.len() == 0 {
        0
    } else {
        total_sum(s.drop_last()) + s.last().total_count
    }
}

/// Column-wise sums of the three per-category counts.
pub open spec fn cat_sums(s: Seq<InsightView>) -> (int, int, int)
    decreases s.len(),
{
    if s.len() == 0 {
        (0, 0, 0)
    } else {
        let rest = cat_sums(s.drop_last());
        (
            rest.0 + s.last().positive_count,
            rest.1 + s.last().negative_count,
            rest.2 + s.last().neutral_count,
        )
    }
}

/// The grand total of all per-category counts.
pub open spec fn grand_sum(s: Seq<InsightView>) -> int {
    cat_sums(s).0 + cat_sums(s).1 + cat_sums(s).2
}

/// The record values are in range for a table whose fields came from the
/// machine representation: every count fits the unsigned column type.
pub open spec fn count_fields_ok(s: Seq<InsightView>) -> bool {
    forall|i: int|
        0 <= i < s.len() ==> {
            &&& #[trigger] s[i].total_count >= 0
            &&& s[i].positive_count >= 0
            &&& s[i].negative_count >= 0
            &&& s[i].neutral_count >= 0
        }
}

pub proof fn lemma_total_sum_take_succ(s: Seq<InsightView>, i: int)
    requires
        0 <= i < s.len(),
    ensures
        total_sum(s.take(i + 1)) == total_sum(s.take(i)) + s[i].total_count,
{
    assert(s.take(i + 1).drop_last() =~= s.take(i));
    assert(s.take(i + 1).last() == s[i]);
}

pub proof fn lemma_cat_sums_take_succ(s: Seq<InsightView>, i: int)
    requires
        0 <= i < s.len(),
    ensures
        cat_sums(s.take(i + 1)).0 == cat_sums(s.take(i)).0 + s[i].positive_count,
        cat_sums(s.take(i + 1)).1 == cat_sums(s.take(i)).1 + s[i].negative_count,
        cat_sums(s.take(i + 1)).2 == cat_sums(s.take(i)).2 + s[i].neutral_count,
{
    assert(s.take(i + 1).drop_last() =~= s.take(i));
    assert(s.take(i + 1).last() == s[i]);
}

/// Sums over a prefix of a table with in-range fields never exceed the sums
/// over the whole table.
pub proof fn lemma_sums_take_le(s: Seq<InsightView>, i: int)
    requires
        0 <= i <= s.len(),
        count_fields_ok(s),
    ensures
        0 <= total_sum(s.take(i)) <= total_sum(s),
        0 <= cat_sums(s.take(i)).0 <= cat_sums(s).0,
        0 <= cat_sums(s.take(i)).1 <= cat_sums(s).1,
        0 <= cat_sums(s.take(i)).2 <= cat_sums(s).2,
    decreases s.len() - i,
{
    if i == s.len() {
        assert(s.take(i) =~= s);
        lemma_sums_nonneg(s);
    } else {
        lemma_total_sum_take_succ(s, i);
        lemma_cat_sums_take_succ(s, i);
        lemma_sums_take_le(s, i + 1);
        lemma_sums_nonneg(s.take(i));
    }
}

/// All sums over a table with in-range fields are non-negative.
pub proof fn lemma_sums_nonneg(s: Seq<InsightView>)
    requires
        count_fields_ok(s),
    ensures
        total_sum(s) >= 0,
        cat_sums(s).0 >= 0,
        cat_sums(s).1 >= 0,
        cat_sums(s).2 >= 0,
    decreases s.len(),
{
    if s.len() > 0 {
        assert(count_fields_ok(s.drop_last())) by {
            assert(forall|i: int|
                0 <= i < s.len() - 1 ==> s.drop_last()[i] == #[trigger] s[i]);
        }
        lemma_sums_nonneg(s.drop_last());
        assert(s.last() == s[s.len() - 1]);
    }
}

/// The values of real records always have in-range count fields.
pub proof fn lemma_views_fields_ok(s: Seq<InsightSummary>)
    ensures
        count_fields_ok(views(s)),
{
}

/// Rows whose percentage in `cat` strictly exceeds `threshold` (hundredths),
/// in table order.
pub open spec fn pct_rows(s: Seq<InsightView>, cat: Category, threshold: int) -> Seq<InsightView>
    decreases s.len(),
{
    if s.len() == 0 {
        Seq::empty()
    } else {
        let rest = pct_rows(s.drop_last(), cat, threshold);
        if pct_of(s.last(), cat) > threshold {
            rest.push(s.last())
        } else {
            rest
        }
    }
}

/// A record whose word contains `w` as a contiguous run of bytes, blind to
/// ASCII case, as the store's pattern matching is.
pub open spec fn word_matches(r: InsightView, w: Seq<u8>) -> bool {
    is_substring_of(lower_seq(w), lower_seq(r.word))
}

/// Rows whose word contains `w`, in table order.
pub open spec fn matching_rows(s: Seq<InsightView>, w: Seq<u8>) -> Seq<InsightView>
    decreases s.len(),
{
    if s.len() == 0 {
        Seq::empty()
    } else {
        let rest = matching_rows(s.drop_last(), w);
        if word_matches(s.last(), w) {
            rest.push(s.last())
        } else {
            rest
        }
    }
}

/// Every row a percentage filter keeps does exceed the threshold.
pub proof fn lemma_pct_rows_elems(s: Seq<InsightView>, cat: Category, threshold: int)
    ensures
        forall|i: int|
            0 <= i < pct_rows(s, cat, threshold).len() ==> pct_of(
                #[trigger] pct_rows(s, cat, threshold)[i],
                cat,
            ) > threshold,
        pct_rows(s, cat, threshold).len() <= s.len(),
    decreases s.len(),
{
    if s.len() > 0 {
        lemma_pct_rows_elems(s.drop_last(), cat, threshold);
    }
}

/// Every row a word filter keeps does contain the word.
pub proof fn lemma_matching_rows_elems(s: Seq<InsightView>, w: Seq<u8>)
    ensures
        forall|i: int|
            0 <= i < matching_rows(s, w).len() ==> word_matches(
                #[trigger] matching_rows(s, w)[i],
                w,
            ),
        matching_rows(s, w).len() <= s.len(),
    decreases s.len(),
{
    if s.len() > 0 {
        lemma_matching_rows_elems(s.drop_last(), w);
    }
}

/// `out` is what is left of some descending reordering of `pool` under `k`
/// after keeping only the first `limit` rows.
pub open spec fn ranked_prefix(
    out: Seq<InsightView>,
    pool: Seq<InsightView>,
    k: RankKey,
    limit: int,
) -> bool {
    exists|full: Seq<InsightView>|
        {
            &&& #[trigger] full.to_multiset() == pool.to_multiset()
            &&& full.len() == pool.len()
            &&& sorted_by(full, k)
            &&& out == full.take(if limit <= pool.len() { limit } else { pool.len() as int })
        }
}

/// The kinds of failure a real row store can report.
pub enum RepositoryErrorKind {
    ConnectionFailure,
    QueryFailure,
    DecodeFailure,
}

/// The uniform envelope wrapped around every endpoint payload.
pub struct ApiResponse<T> {
    pub success: bool,
    pub data: T,
    pub message: Vec<u8>,
}

/// The request-scoped aggregate behind the dashboard endpoint.
///
/// The three ratios are percentages in hundredths of a percent.
pub struct DashboardStats {
    pub total_insight_count: u64,
    pub total_feedback_count: u64,
    pub positive_ratio: u32,
    pub negative_ratio: u32,
    pub neutral_ratio: u32,
    pub top_positive: Vec<InsightSummary>,
    pub top_negative: Vec<InsightSummary>,
    pub sample_all: Vec<InsightSummary>,
}

} // verus!

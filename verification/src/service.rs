use vstd::prelude::*;

verus! {

use crate::model::{
    cat_sums, grand_sum, matching_rows, pct_of, pct_rows, ranked_prefix, sorted_by, total_sum,
    views, word_matches, ApiResponse, Category, DashboardStats, InsightSummary, RankKey,
    RepositoryErrorKind, lemma_sums_nonneg, lemma_views_fields_ok,
};
use crate::repo::InsightRepository;
use crate::text::{append_bytes, ascii_seq, lit_bytes};
use vstd::arithmetic::div_mod::{
    lemma_div_is_ordered, lemma_fundamental_div_mod, lemma_fundamental_div_mod_converse,
    lemma_mod_bound,
};

/// Percentage points threshold (in hundredths) above which a row counts as a
/// top row for its category.
pub const TOP_THRESHOLD: u32 = 7000;

/// A category share, in hundredths of a percent, rounded half away from
/// zero to the nearest hundredth; 0 when the grand total is 0.
pub open spec fn ratio_h(x: int, g: int) -> int {
    if g <= 0 {
        0
    } else {
        (20000 * x + g) / (2 * g)
    }
}

/// The rounded percentage of `x` in a grand total of `g`, in hundredths.
pub fn compute_ratio(x: u64, g: u64) -> (r: u32)
    requires
        x <= g,
    ensures
        r == ratio_h(x as int, g as int),
        r <= 10000,
{
    if g == 0 {
        return 0;
    }
    let num: u128 = 20000u128 * (x as u128) + (g as u128);
    let den: u128 = 2u128 * (g as u128);
    let q: u128 = num / den;
    proof {
        let xi = x as int;
        let gi = g as int;
        lemma_div_is_ordered(20000 * xi + gi, 20001 * gi, 2 * gi);
        lemma_fundamental_div_mod_converse(20001 * gi, 2 * gi, 10000, gi);
    }
    q as u32
}

/// The three rounded category shares always add up to the whole, within one
/// hundredth of a percent either way, whenever the grand total is positive.
pub proof fn lemma_ratios_sum_to_whole(p: int, n: int, u: int)
    requires
        p >= 0,
        n >= 0,
        u >= 0,
        p + n + u > 0,
    ensures
        9999 <= ratio_h(p, p + n + u) + ratio_h(n, p + n + u) + ratio_h(u, p + n + u) <= 10001,
{
    let g = p + n + u;
    let d = 2 * g;
    let rp = (20000 * p + g) / d;
    let rn = (20000 * n + g) / d;
    let ru = (20000 * u + g) / d;
    lemma_fundamental_div_mod(20000 * p + g, d);
    lemma_fundamental_div_mod(20000 * n + g, d);
    lemma_fundamental_div_mod(20000 * u + g, d);
    lemma_mod_bound(20000 * p + g, d);
    lemma_mod_bound(20000 * n + g, d);
    lemma_mod_bound(20000 * u + g, d);
    let mp = (20000 * p + g) % d;
    let mn = (20000 * n + g) % d;
    let mu = (20000 * u + g) % d;
    let s = rp + rn + ru;
    assert(20003 * g == d * s + (mp + mn + mu)) by {
        assert(20000 * p + 20000 * n + 20000 * u == 20000 * g) by (nonlinear_arith)
            requires
                g == p + n + u,
        ;
        assert(d * rp + d * rn + d * ru == d * s) by (nonlinear_arith)
            requires
                s == rp + rn + ru,
        ;
    }
    assert(d * s > 19996 * g + g);
    assert(d * s <= 20003 * g);
    assert(s > 9998) by (nonlinear_arith)
        requires
            d == 2 * g,
            g > 0,
            d * s > 19996 * g + g,
    ;
    assert(s < 10002) by (nonlinear_arith)
        requires
            d == 2 * g,
            g > 0,
            d * s <= 20003 * g,
    ;
}

pub open spec fn msg_summary() -> Seq<u8> {
    ascii_seq("Successfully retrieved all insights summary"@)
}

pub open spec fn msg_dashboard() -> Seq<u8> {
    ascii_seq("Successfully retrieved dashboard statistics"@)
}

pub open spec fn msg_top_positive() -> Seq<u8> {
    ascii_seq("Successfully retrieved top positive insights"@)
}

pub open spec fn msg_top_negative() -> Seq<u8> {
    ascii_seq("Successfully retrieved top negative insights"@)
}

pub open spec fn msg_word_required() -> Seq<u8> {
    ascii_seq("Word parameter is required"@)
}

pub open spec fn msg_failure() -> Seq<u8> {
    ascii_seq("Internal server error"@)
}

/// Message for a successful word lookup; it quotes the search term.
pub open spec fn msg_for_word(w: Seq<u8>) -> Seq<u8> {
    ascii_seq("Successfully retrieved insights for '"@) + w + ascii_seq("'"@)
}

/// All rows, ordered by volume, in the uniform envelope.
pub fn get_summary(repo: &InsightRepository) -> (r: ApiResponse<Vec<InsightSummary>>)
    ensures
        r.success,
        views(r.data@).to_multiset() == repo.table().to_multiset(),
        sorted_by(views(r.data@), RankKey::ByTotal),
        r.data@.len() == repo.table().len(),
        r.message@ == msg_summary(),
{
    proof {
        reveal_strlit("Successfully retrieved all insights summary");
    }
    ApiResponse {
        success: true,
        data: repo.list_all(),
        message: lit_bytes("Successfully retrieved all insights summary"),
    }
}

/// The derived dashboard aggregate, in the uniform envelope.
pub fn get_dashboard(repo: &InsightRepository) -> (r: ApiResponse<DashboardStats>)
    requires
        total_sum(repo.table()) <= u64::MAX,
        grand_sum(repo.table()) <= u64::MAX,
    ensures
        r.success,
        r.message@ == msg_dashboard(),
        r.data.total_insight_count == repo.table().len(),
        r.data.total_feedback_count == total_sum(repo.table()),
        r.data.positive_ratio == ratio_h(cat_sums(repo.table()).0, grand_sum(repo.table())),
        r.data.negative_ratio == ratio_h(cat_sums(repo.table()).1, grand_sum(repo.table())),
        r.data.neutral_ratio == ratio_h(cat_sums(repo.table()).2, grand_sum(repo.table())),
        grand_sum(repo.table()) == 0 ==> r.data.positive_ratio == 0 && r.data.negative_ratio == 0
            && r.data.neutral_ratio == 0,
        grand_sum(repo.table()) > 0 ==> 9999 <= r.data.positive_ratio + r.data.negative_ratio
            + r.data.neutral_ratio <= 10001,
        ranked_prefix(
            views(r.data.top_positive@),
            pct_rows(repo.table(), Category::Positive, TOP_THRESHOLD as int),
            RankKey::ByPct(Category::Positive),
            5,
        ),
        ranked_prefix(
            views(r.data.top_negative@),
            pct_rows(repo.table(), Category::Negative, TOP_THRESHOLD as int),
            RankKey::ByPct(Category::Negative),
            5,
        ),
        ranked_prefix(views(r.data.sample_all@), repo.table(), RankKey::ByTotal, 20),
        forall|i: int|
            0 <= i < r.data.top_positive@.len() ==> pct_of(
                #[trigger] views(r.data.top_positive@)[i],
                Category::Positive,
            ) > TOP_THRESHOLD as int,
        forall|i: int|
            0 <= i < r.data.top_negative@.len() ==> pct_of(
                #[trigger] views(r.data.top_negative@)[i],
                Category::Negative,
            ) > TOP_THRESHOLD as int,
        sorted_by(views(r.data.top_positive@), RankKey::ByPct(Category::Positive)),
        sorted_by(views(r.data.top_negative@), RankKey::ByPct(Category::Negative)),
        sorted_by(views(r.data.sample_all@), RankKey::ByTotal),
{
    let total = repo.count_all();
    let feedback = repo.sum_total_count();
    let (pos, neg, neu) = repo.sum_by_category();
    proof {
        lemma_views_fields_ok(repo.rows@);
        lemma_sums_nonneg(repo.table());
    }
    let grand: u64 = pos + neg + neu;
    proof {
        if grand > 0 {
            lemma_ratios_sum_to_whole(pos as int, neg as int, neu as int);
        }
    }
    let positive_ratio = compute_ratio(pos, grand);
    let negative_ratio = compute_ratio(neg, grand);
    let neutral_ratio = compute_ratio(neu, grand);
    let top_positive = repo.top_by_percentage(Category::Positive, TOP_THRESHOLD, 5);
    let top_negative = repo.top_by_percentage(Category::Negative, TOP_THRESHOLD, 5);
    let sample_all = repo.sample_ordered_by_total(20);
    let stats = DashboardStats {
        total_insight_count: total as u64,
        total_feedback_count: feedback,
        positive_ratio,
        negative_ratio,
        neutral_ratio,
        top_positive,
        top_negative,
        sample_all,
    };
    proof {
        reveal_strlit("Successfully retrieved dashboard statistics");
    }
    ApiResponse {
        success: true,
        data: stats,
        message: lit_bytes("Successfully retrieved dashboard statistics"),
    }
}

/// Rows over the positive threshold, ordered, capped at ten.
pub fn get_top_positive(repo: &InsightRepository) -> (r: ApiResponse<Vec<InsightSummary>>)
    ensures
        r.success,
        r.message@ == msg_top_positive(),
        ranked_prefix(
            views(r.data@),
            pct_rows(repo.table(), Category::Positive, TOP_THRESHOLD as int),
            RankKey::ByPct(Category::Positive),
            10,
        ),
        sorted_by(views(r.data@), RankKey::ByPct(Category::Positive)),
        forall|i: int|
            0 <= i < r.data@.len() ==> pct_of(#[trigger] views(r.data@)[i], Category::Positive)
                > TOP_THRESHOLD as int,
{
    proof {
        reveal_strlit("Successfully retrieved top positive insights");
    }
    ApiResponse {
        success: true,
        data: repo.top_by_percentage(Category::Positive, TOP_THRESHOLD, 10),
        message: lit_bytes("Successfully retrieved top positive insights"),
    }
}

/// Rows over the negative threshold, ordered, capped at ten.
pub fn get_top_negative(repo: &InsightRepository) -> (r: ApiResponse<Vec<InsightSummary>>)
    ensures
        r.success,
        r.message@ == msg_top_negative(),
        ranked_prefix(
            views(r.data@),
            pct_rows(repo.table(), Category::Negative, TOP_THRESHOLD as int),
            RankKey::ByPct(Category::Negative),
            10,
        ),
        sorted_by(views(r.data@), RankKey::ByPct(Category::Negative)),
        forall|i: int|
            0 <= i < r.data@.len() ==> pct_of(#[trigger] views(r.data@)[i], Category::Negative)
                > TOP_THRESHOLD as int,
{
    proof {
        reveal_strlit("Successfully retrieved top negative insights");
    }
    ApiResponse {
        success: true,
        data: repo.top_by_percentage(Category::Negative, TOP_THRESHOLD, 10),
        message: lit_bytes("Successfully retrieved top negative insights"),
    }
}

/// Substring lookup; an absent or empty word is a caller-side error that
/// yields a failure envelope and a client-error status.
pub fn get_by_word(repo: &InsightRepository, word: Option<&Vec<u8>>) -> (r: (
    ApiResponse<Vec<InsightSummary>>,
    u16,
))
    ensures
        ({
            match word {
                None => !r.0.success && r.0.data@.len() == 0 && r.0.message@ == msg_word_required()
                    && r.1 == 400,
                Some(w) => {
                    if w@.len() == 0 {
                        !r.0.success && r.0.data@.len() == 0 && r.0.message@
                            == msg_word_required() && r.1 == 400
                    } else {
                        &&& r.0.success
                        &&& views(r.0.data@).to_multiset() == matching_rows(
                            repo.table(),
                            w@,
                        ).to_multiset()
                        &&& sorted_by(views(r.0.data@), RankKey::ByTotal)
                        &&& r.0.data@.len() == matching_rows(repo.table(), w@).len()
                        &&& (forall|i: int|
                            0 <= i < r.0.data@.len() ==> word_matches(
                                #[trigger] views(r.0.data@)[i],
                                w@,
                            ))
                        &&& r.0.message@ == msg_for_word(w@)
                        &&& r.1 == 200
                    }
                },
            }
        }),
{
    match word {
        Some(w) if w.len() > 0 => {
            let data = repo.search_by_word(w);
            proof {
                reveal_strlit("Successfully retrieved insights for '");
                reveal_strlit("'");
            }
            let mut message = lit_bytes("Successfully retrieved insights for '");
            append_bytes(&mut message, w);
            message.push(39u8);
            proof {
                assert(message@ =~= msg_for_word(w@));
            }
            (ApiResponse { success: true, data, message }, 200)
        },
        _ => {
            proof {
                reveal_strlit("Word parameter is required");
            }
            (
                ApiResponse {
                    success: false,
                    data: Vec::new(),
                    message: lit_bytes("Word parameter is required"),
                },
                400,
            )
        },
    }
}

/// The generic failure envelope the boundary returns when the row store
/// itself fails; never produced by the verified read path.
pub fn failure_response() -> (r: ApiResponse<Vec<InsightSummary>>)
    ensures
        !r.success,
        r.data@.len() == 0,
        r.message@ == msg_failure(),
{
    proof {
        reveal_strlit("Internal server error");
    }
    ApiResponse { success: false, data: Vec::new(), message: lit_bytes("Internal server error") }
}

/// What the boundary sends when a repository query fails: the generic
/// failure envelope and a server-error status, whatever the failure kind;
/// no retry happens at this layer.
pub fn repository_failure(kind: RepositoryErrorKind) -> (r: (
    ApiResponse<Vec<InsightSummary>>,
    u16,
))
    ensures
        !r.0.success,
        r.0.data@.len() == 0,
        r.0.message@ == msg_failure(),
        r.1 == 500,
{
    match kind {
        RepositoryErrorKind::ConnectionFailure => (failure_response(), 500),
        RepositoryErrorKind::QueryFailure => (failure_response(), 500),
        RepositoryErrorKind::DecodeFailure => (failure_response(), 500),
    }
}

} // verus!

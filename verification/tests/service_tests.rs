use employee_insights::model::{ApiResponse, Category, InsightSummary, RepositoryErrorKind};
use employee_insights::repo::InsightRepository;
use employee_insights::service::{
    compute_ratio, failure_response, get_by_word, get_dashboard, get_summary, get_top_negative,
    get_top_positive, repository_failure,
};

fn row(
    id: i32,
    word: &str,
    total: u32,
    pos: u32,
    neg: u32,
    neu: u32,
    ppct: u32,
    npct: u32,
    upct: u32,
) -> InsightSummary {
    InsightSummary {
        id,
        word: word.as_bytes().to_vec(),
        total_count: total,
        positive_count: pos,
        negative_count: neg,
        neutral_count: neu,
        positive_pct: ppct,
        negative_pct: npct,
        neutral_pct: upct,
        created_at: b"2024-01-01 00:00:00".to_vec(),
    }
}

#[test]
fn summary_is_sorted_by_total_desc() {
    let repo = InsightRepository::new(vec![
        row(1, "alpha", 5, 5, 0, 0, 10000, 0, 0),
        row(2, "beta", 100, 50, 25, 25, 5000, 2500, 2500),
        row(3, "gamma", 50, 10, 30, 10, 2000, 6000, 2000),
    ]);
    let r = get_summary(&repo);
    assert!(r.success);
    assert_eq!(r.message, b"Successfully retrieved all insights summary".to_vec());
    let totals: Vec<u32> = r.data.iter().map(|x| x.total_count).collect();
    assert_eq!(totals, vec![100, 50, 5]);
    let words: Vec<Vec<u8>> = r.data.iter().map(|x| x.word.clone()).collect();
    assert_eq!(words, vec![b"beta".to_vec(), b"gamma".to_vec(), b"alpha".to_vec()]);
}

#[test]
fn dashboard_two_row_scenario() {
    // great: 100 mentions, 80 positive (80%); bad: 50 mentions, 40 negative (80%)
    let repo = InsightRepository::new(vec![
        row(1, "great", 100, 80, 10, 10, 8000, 1000, 1000),
        row(2, "bad", 50, 5, 40, 5, 1000, 8000, 1000),
    ]);
    let r = get_dashboard(&repo);
    assert!(r.success);
    assert_eq!(r.message, b"Successfully retrieved dashboard statistics".to_vec());
    assert_eq!(r.data.total_insight_count, 2);
    assert_eq!(r.data.total_feedback_count, 150);
    // sums: pos 85, neg 50, neu 15, grand 150
    // 85/150 = 56.666..% -> 5667 hundredths; 50/150 -> 3333; 15/150 -> 1000
    assert_eq!(r.data.positive_ratio, 5667);
    assert_eq!(r.data.negative_ratio, 3333);
    assert_eq!(r.data.neutral_ratio, 1000);
    // the three ratios stay within two hundredths of the whole
    let sum = r.data.positive_ratio + r.data.negative_ratio + r.data.neutral_ratio;
    assert!(10000 - 2 <= sum && sum <= 10000 + 2);
    assert_eq!(r.data.top_positive.len(), 1);
    assert_eq!(r.data.top_positive[0].word, b"great".to_vec());
    assert_eq!(r.data.top_negative.len(), 1);
    assert_eq!(r.data.top_negative[0].word, b"bad".to_vec());
    assert_eq!(r.data.sample_all.len(), 2);
    assert_eq!(r.data.sample_all[0].word, b"great".to_vec());
}

#[test]
fn dashboard_empty_table_has_zero_ratios() {
    let repo = InsightRepository::new(vec![]);
    let r = get_dashboard(&repo);
    assert!(r.success);
    assert_eq!(r.data.total_insight_count, 0);
    assert_eq!(r.data.total_feedback_count, 0);
    assert_eq!(r.data.positive_ratio, 0);
    assert_eq!(r.data.negative_ratio, 0);
    assert_eq!(r.data.neutral_ratio, 0);
    assert!(r.data.top_positive.is_empty());
    assert!(r.data.top_negative.is_empty());
    assert!(r.data.sample_all.is_empty());
}

#[test]
fn top_by_percentage_filters_sorts_and_caps() {
    let repo = InsightRepository::new(vec![
        row(1, "a", 10, 8, 1, 1, 8000, 1000, 1000),
        row(2, "b", 90, 70, 10, 10, 7778, 1111, 1111),
        row(3, "c", 40, 30, 5, 5, 7500, 1250, 1250),
        row(4, "d", 20, 14, 3, 3, 7000, 1500, 1500),  // exactly 70%: excluded
        row(5, "e", 30, 10, 10, 10, 3333, 3333, 3334),
        row(6, "f", 60, 48, 6, 6, 8000, 1000, 1000),
        row(7, "g", 25, 20, 3, 2, 8000, 1200, 800),
        row(8, "h", 99, 75, 12, 12, 7576, 1212, 1212),
    ]);
    let top = repo.top_by_percentage(Category::Positive, 7000, 5);
    assert_eq!(top.len(), 5);
    for t in &top {
        assert!(t.positive_pct > 7000);
    }
    for pair in top.windows(2) {
        let a = (pair[0].positive_pct, pair[0].total_count);
        let b = (pair[1].positive_pct, pair[1].total_count);
        assert!(a >= b);
    }
    // six rows pass the filter; the five best stay, the worst (7500) is cut
    let pcts: Vec<u32> = top.iter().map(|t| t.positive_pct).collect();
    assert_eq!(pcts, vec![8000, 8000, 8000, 7778, 7576]);
    // ties on 8000 are ordered by volume
    let first_three: Vec<u32> = top.iter().take(3).map(|t| t.total_count).collect();
    assert_eq!(first_three, vec![60, 25, 10]);
}

#[test]
fn top_positive_endpoint() {
    let repo = InsightRepository::new(vec![
        row(1, "good", 10, 9, 1, 0, 9000, 1000, 0),
        row(2, "meh", 10, 5, 5, 0, 5000, 5000, 0),
    ]);
    let r = get_top_positive(&repo);
    assert!(r.success);
    assert_eq!(r.message, b"Successfully retrieved top positive insights".to_vec());
    assert_eq!(r.data.len(), 1);
    assert_eq!(r.data[0].word, b"good".to_vec());
}

#[test]
fn top_negative_endpoint() {
    let repo = InsightRepository::new(vec![
        row(1, "awful", 10, 1, 9, 0, 1000, 9000, 0),
        row(2, "meh", 10, 5, 5, 0, 5000, 5000, 0),
    ]);
    let r = get_top_negative(&repo);
    assert!(r.success);
    assert_eq!(r.message, b"Successfully retrieved top negative insights".to_vec());
    assert_eq!(r.data.len(), 1);
    assert_eq!(r.data[0].word, b"awful".to_vec());
}

#[test]
fn by_word_missing_parameter_is_rejected() {
    let repo = InsightRepository::new(vec![row(1, "foobar", 10, 5, 3, 2, 5000, 3000, 2000)]);
    let (r, status) = get_by_word(&repo, None);
    assert!(!r.success);
    assert!(r.data.is_empty());
    assert_eq!(r.message, b"Word parameter is required".to_vec());
    assert_eq!(status, 400);
}

#[test]
fn by_word_empty_parameter_is_rejected() {
    let repo = InsightRepository::new(vec![row(1, "foobar", 10, 5, 3, 2, 5000, 3000, 2000)]);
    let empty: Vec<u8> = Vec::new();
    let (r, status) = get_by_word(&repo, Some(&empty));
    assert!(!r.success);
    assert!(r.data.is_empty());
    assert_eq!(r.message, b"Word parameter is required".to_vec());
    assert_eq!(status, 400);
}

#[test]
fn by_word_matches_substrings_anywhere() {
    let repo = InsightRepository::new(vec![
        row(1, "foobar", 10, 5, 3, 2, 5000, 3000, 2000),
        row(2, "barfoo", 30, 10, 10, 10, 3333, 3333, 3334),
        row(3, "baz", 20, 10, 5, 5, 5000, 2500, 2500),
    ]);
    let needle = b"foo".to_vec();
    let (r, status) = get_by_word(&repo, Some(&needle));
    assert!(r.success);
    assert_eq!(status, 200);
    assert_eq!(r.message, b"Successfully retrieved insights for 'foo'".to_vec());
    let words: Vec<Vec<u8>> = r.data.iter().map(|x| x.word.clone()).collect();
    assert_eq!(words, vec![b"barfoo".to_vec(), b"foobar".to_vec()]);
}

#[test]
fn by_word_is_blind_to_ascii_case() {
    let repo = InsightRepository::new(vec![
        row(1, "FooBar", 10, 5, 3, 2, 5000, 3000, 2000),
        row(2, "other", 30, 10, 10, 10, 3333, 3333, 3334),
    ]);
    let needle = b"FOO".to_vec();
    let (r, status) = get_by_word(&repo, Some(&needle));
    assert!(r.success);
    assert_eq!(status, 200);
    assert_eq!(r.data.len(), 1);
    assert_eq!(r.data[0].word, b"FooBar".to_vec());
}

#[test]
fn by_word_no_match_is_empty_success() {
    let repo = InsightRepository::new(vec![row(1, "foobar", 10, 5, 3, 2, 5000, 3000, 2000)]);
    let needle = b"zzz".to_vec();
    let (r, status) = get_by_word(&repo, Some(&needle));
    assert!(r.success);
    assert_eq!(status, 200);
    assert!(r.data.is_empty());
}

#[test]
fn repository_counts_and_sums() {
    let repo = InsightRepository::new(vec![
        row(1, "a", 7, 4, 2, 1, 5714, 2857, 1429),
        row(2, "b", 13, 3, 9, 1, 2308, 6923, 769),
    ]);
    assert_eq!(repo.count_all(), 2);
    assert_eq!(repo.sum_total_count(), 20);
    let (p, n, u) = repo.sum_by_category();
    assert_eq!((p, n, u), (7, 11, 2));
}

#[test]
fn ratio_rounds_half_away_from_zero() {
    // 1/3 of the whole: 33.33%
    assert_eq!(compute_ratio(1, 3), 3333);
    // exactly one half: 50.00%
    assert_eq!(compute_ratio(1, 2), 5000);
    // 3/8000 of the whole: 0.0375% -> 0.04%
    assert_eq!(compute_ratio(3, 8000), 4);
    // 1/20000: 0.005% -> rounds up to 0.01%
    assert_eq!(compute_ratio(1, 20000), 1);
    // empty grand total yields zero, not an error
    assert_eq!(compute_ratio(0, 0), 0);
}

#[test]
fn failure_envelope_is_well_formed() {
    let r: ApiResponse<Vec<InsightSummary>> = failure_response();
    assert!(!r.success);
    assert!(r.data.is_empty());
    assert_eq!(r.message, b"Internal server error".to_vec());
}

#[test]
fn repository_failure_maps_every_kind_to_a_server_error() {
    for kind in [
        RepositoryErrorKind::ConnectionFailure,
        RepositoryErrorKind::QueryFailure,
        RepositoryErrorKind::DecodeFailure,
    ] {
        let (r, status) = repository_failure(kind);
        assert_eq!(status, 500);
        assert!(!r.success);
        assert!(r.data.is_empty());
        assert_eq!(r.message, b"Internal server error".to_vec());
    }
}

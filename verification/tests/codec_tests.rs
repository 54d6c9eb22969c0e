use employee_insights::codec::encode_response;
use employee_insights::decode::decode_response;
use employee_insights::model::{ApiResponse, InsightSummary};

fn sample_rows() -> Vec<InsightSummary> {
    vec![
        InsightSummary {
            id: 7,
            word: b"great".to_vec(),
            total_count: 100,
            positive_count: 80,
            negative_count: 10,
            neutral_count: 10,
            positive_pct: 8000,
            negative_pct: 1000,
            neutral_pct: 1000,
            created_at: b"2024-01-01 00:00:00".to_vec(),
        },
        InsightSummary {
            id: -3,
            word: b"odd \"quoted\" \\ word".to_vec(),
            total_count: 4294967295,
            positive_count: 0,
            negative_count: 4294967295,
            neutral_count: 0,
            positive_pct: 0,
            negative_pct: 10000,
            neutral_pct: 25,
            created_at: b"".to_vec(),
        },
    ]
}

#[test]
fn round_trip_preserves_all_fields_and_order() {
    let resp = ApiResponse {
        success: true,
        data: sample_rows(),
        message: b"Successfully retrieved all insights summary".to_vec(),
    };
    let bytes = encode_response(&resp);
    let back = decode_response(&bytes).expect("canonical bytes must decode");
    assert_eq!(back.success, resp.success);
    assert_eq!(back.message, resp.message);
    assert_eq!(back.data.len(), resp.data.len());
    for (a, b) in resp.data.iter().zip(back.data.iter()) {
        assert_eq!(a.id, b.id);
        assert_eq!(a.word, b.word);
        assert_eq!(a.total_count, b.total_count);
        assert_eq!(a.positive_count, b.positive_count);
        assert_eq!(a.negative_count, b.negative_count);
        assert_eq!(a.neutral_count, b.neutral_count);
        assert_eq!(a.positive_pct, b.positive_pct);
        assert_eq!(a.negative_pct, b.negative_pct);
        assert_eq!(a.neutral_pct, b.neutral_pct);
        assert_eq!(a.created_at, b.created_at);
    }
}

#[test]
fn round_trip_empty_failure_envelope() {
    let resp: ApiResponse<Vec<InsightSummary>> = ApiResponse {
        success: false,
        data: Vec::new(),
        message: b"Internal server error".to_vec(),
    };
    let bytes = encode_response(&resp);
    let back = decode_response(&bytes).expect("canonical bytes must decode");
    assert!(!back.success);
    assert!(back.data.is_empty());
    assert_eq!(back.message, b"Internal server error".to_vec());
}

#[test]
fn encoding_of_small_envelope_is_exact() {
    let resp: ApiResponse<Vec<InsightSummary>> = ApiResponse {
        success: true,
        data: Vec::new(),
        message: b"ok".to_vec(),
    };
    let bytes = encode_response(&resp);
    assert_eq!(bytes, b"{\"success\":true,\"data\":[],\"message\":\"ok\"}".to_vec());
}

#[test]
fn encoding_is_valid_json_for_outside_readers() {
    let resp = ApiResponse {
        success: true,
        data: sample_rows(),
        message: b"hello".to_vec(),
    };
    let bytes = encode_response(&resp);
    let v: serde_json::Value = serde_json::from_slice(&bytes).expect("library output parses");
    assert_eq!(v["success"], serde_json::Value::Bool(true));
    assert_eq!(v["message"].as_str().unwrap(), "hello");
    let rows = v["data"].as_array().unwrap();
    assert_eq!(rows.len(), 2);
    assert_eq!(rows[0]["id"].as_i64().unwrap(), 7);
    assert_eq!(rows[0]["word"].as_str().unwrap(), "great");
    assert_eq!(rows[0]["total_count"].as_u64().unwrap(), 100);
    assert_eq!(rows[0]["positive_pct"].as_f64().unwrap(), 80.0);
    assert_eq!(rows[1]["id"].as_i64().unwrap(), -3);
    assert_eq!(rows[1]["word"].as_str().unwrap(), "odd \"quoted\" \\ word");
    assert_eq!(rows[1]["negative_pct"].as_f64().unwrap(), 100.0);
    assert_eq!(rows[1]["neutral_pct"].as_f64().unwrap(), 0.25);
    assert_eq!(rows[1]["total_count"].as_u64().unwrap(), 4294967295);
}

#[test]
fn decode_rejects_malformed_input() {
    assert!(decode_response(&b"nonsense".to_vec()).is_none());
    assert!(decode_response(&b"".to_vec()).is_none());
    assert!(decode_response(&b"{\"success\":true,\"data\":[],\"message\":\"ok\"".to_vec()).is_none());
}

use vstd::prelude::*;

verus! {

use crate::codec::{resp_view, RespView};
use crate::model::{views, ApiResponse, InsightSummary, InsightView};
use crate::text::{ascii_seq, lit_bytes};

/// An ASCII decimal digit.
pub open spec fn is_digit(b: u8) -> bool {
    48 <= b <= 57
}

/// Reads a maximal run of digits from position `i`, with `acc` already read;
/// fails only when the value would not fit the unsigned column type.
pub open spec fn dec_digits(s: Seq<u8>, i: int, acc: int) -> Option<(int, int)>
    recommends
        0 <= i <= s.len(),
    decreases s.len() - i,
{
    if i < 0 || i >= s.len() || !is_digit(s[i]) {
        Some((acc, i))
    } else {
        let a2 = acc * 10 + (s[i] - 48);
        if a2 > u32::MAX as int {
            None
        } else {
            dec_digits(s, i + 1, a2)
        }
    }
}

/// Reads an unsigned decimal number: at least one digit.
pub open spec fn dec_u32(s: Seq<u8>, i: int) -> Option<(int, int)> {
    if 0 <= i < s.len() && is_digit(s[i]) {
        dec_digits(s, i, 0)
    } else {
        None
    }
}

/// Reads a signed decimal number in the range of the `id` column.
pub open spec fn dec_i32(s: Seq<u8>, i: int) -> Option<(int, int)> {
    if 0 <= i < s.len() && s[i] == 45 {
        match dec_u32(s, i + 1) {
            Some((v, j)) => if v <= 2147483648 {
                Some((-v, j))
            } else {
                None
            },
            None => None,
        }
    } else {
        match dec_u32(s, i) {
            Some((v, j)) => if v <= 2147483647 {
                Some((v, j))
            } else {
                None
            },
            None => None,
        }
    }
}

/// Reads a percentage with exactly two decimal places, as hundredths.
pub open spec fn dec_pct(s: Seq<u8>, i: int) -> Option<(int, int)> {
    match dec_u32(s, i) {
        Some((v, j)) => if j + 3 <= s.len() && s[j] == 46 && is_digit(s[j + 1]) && is_digit(
            s[j + 2],
        ) && v * 100 + (s[j + 1] - 48) * 10 + (s[j + 2] - 48) <= u32::MAX as int {
            Some((v * 100 + (s[j + 1] - 48) * 10 + (s[j + 2] - 48), j + 3))
        } else {
            None
        },
        None => None,
    }
}

/// Reads the body of a JSON string after the opening quote, undoing the
/// escapes the encoder writes.
pub open spec fn dec_str_body(s: Seq<u8>, i: int, acc: Seq<u8>) -> Option<(Seq<u8>, int)>
    recommends
        0 <= i <= s.len(),
    decreases s.len() - i,
{
    if i < 0 || i >= s.len() {
        None
    } else if s[i] == 34 {
        Some((acc, i + 1))
    } else if s[i] == 92 {
        if i + 1 < s.len() && (s[i + 1] == 34 || s[i + 1] == 92) {
            dec_str_body(s, i + 2, acc.push(s[i + 1]))
        } else {
            None
        }
    } else {
        dec_str_body(s, i + 1, acc.push(s[i]))
    }
}

/// Reads a quoted JSON string.
pub open spec fn dec_str(s: Seq<u8>, i: int) -> Option<(Seq<u8>, int)> {
    if 0 <= i < s.len() && s[i] == 34 {
        dec_str_body(s, i + 1, Seq::empty())
    } else {
        None
    }
}

/// Reads an exact literal.
pub open spec fn dec_lit(s: Seq<u8>, i: int, lit: Seq<u8>) -> Option<int> {
    if 0 <= i && i + lit.len() <= s.len() && s.subrange(i, i + lit.len()) == lit {
        Some(i + lit.len())
    } else {
        None
    }
}

/// Reads a JSON boolean.
pub open spec fn dec_bool(s: Seq<u8>, i: int) -> Option<(bool, int)> {
    match dec_lit(s, i, ascii_seq("true"@)) {
        Some(j) => Some((true, j)),
        None => match dec_lit(s, i, ascii_seq("false"@)) {
            Some(j) => Some((false, j)),
            None => None,
        },
    }
}

/// Reads one record object with its fields in the encoder's order.
pub open spec fn dec_row(s: Seq<u8>, i: int) -> Option<(InsightView, int)> {
    match dec_lit(s, i, ascii_seq("{\"id\":"@)) {
        None => None,
        Some(j1) => match dec_i32(s, j1) {
            None => None,
            Some((id, j2)) => match dec_lit(s, j2, ascii_seq(",\"word\":"@)) {
                None => None,
                Some(j3) => match dec_str(s, j3) {
                    None => None,
                    Some((word, j4)) => match dec_lit(s, j4, ascii_seq(",\"total_count\":"@)) {
                        None => None,
                        Some(j5) => match dec_u32(s, j5) {
                            None => None,
                            Some((total, j6)) => match dec_lit(
                                s,
                                j6,
                                ascii_seq(",\"positive_count\":"@),
                            ) {
                                None => None,
                                Some(j7) => match dec_u32(s, j7) {
                                    None => None,
                                    Some((posc, j8)) => match dec_lit(
                                        s,
                                        j8,
                                        ascii_seq(",\"negative_count\":"@),
                                    ) {
                                        None => None,
                                        Some(j9) => match dec_u32(s, j9) {
                                            None => None,
                                            Some((negc, j10)) => dec_row_rest(
                                                s,
                                                j10,
                                                id,
                                                word,
                                                total,
                                                posc,
                                                negc,
                                            ),
                                        },
                                    },
                                },
                            },
                        },
                    },
                },
            },
        },
    }
}

/// Reads the tail of a record object, from the neutral count on.
pub open spec fn dec_row_rest(
    s: Seq<u8>,
    i: int,
    id: int,
    word: Seq<u8>,
    total: int,
    posc: int,
    negc: int,
) -> Option<(InsightView, int)> {
    match dec_lit(s, i, ascii_seq(",\"neutral_count\":"@)) {
        None => None,
        Some(j1) => match dec_u32(s, j1) {
            None => None,
            Some((neuc, j2)) => match dec_lit(s, j2, ascii_seq(",\"positive_pct\":"@)) {
                None => None,
                Some(j3) => match dec_pct(s, j3) {
                    None => None,
                    Some((ppct, j4)) => match dec_lit(s, j4, ascii_seq(",\"negative_pct\":"@)) {
                        None => None,
                        Some(j5) => match dec_pct(s, j5) {
                            None => None,
                            Some((npct, j6)) => match dec_lit(
                                s,
                                j6,
                                ascii_seq(",\"neutral_pct\":"@),
                            ) {
                                None => None,
                                Some(j7) => match dec_pct(s, j7) {
                                    None => None,
                                    Some((upct, j8)) => match dec_lit(
                                        s,
                                        j8,
                                        ascii_seq(",\"created_at\":"@),
                                    ) {
                                        None => None,
                                        Some(j9) => match dec_str(s, j9) {
                                            None => None,
                                            Some((created, j10)) => if j10 < s.len() && s[j10]
                                                == 125 {
                                                Some(
                                                    (
                                                        InsightView {
                                                            id,
                                                            word,
                                                            total_count: total,
                                                            positive_count: posc,
                                                            negative_count: negc,
                                                            neutral_count: neuc,
                                                            positive_pct: ppct,
                                                            negative_pct: npct,
                                                            neutral_pct: upct,
                                                            created_at: created,
                                                        },
                                                        j10 + 1,
                                                    ),
                                                )
                                            } else {
                                                None
                                            },
                                        },
                                    },
                                },
                            },
                        },
                    },
                },
            },
        },
    }
}

/// Reads the remaining row objects of a list, after at least one is known
/// to follow.
pub open spec fn dec_rows_tail(s: Seq<u8>, i: int, acc: Seq<InsightView>) -> Option<
    (Seq<InsightView>, int),
>
    recommends
        0 <= i <= s.len(),
    decreases s.len() - i,
{
    if i < 0 {
        None
    } else {
        match dec_row(s, i) {
            None => None,
            Some((rv, j)) => if j <= i || j >= s.len() {
                None
            } else if s[j] == 44 {
                dec_rows_tail(s, j + 1, acc.push(rv))
            } else if s[j] == 93 {
                Some((acc.push(rv), j + 1))
            } else {
                None
            },
        }
    }
}

/// Reads a row list up to and including its closing bracket; the opening
/// bracket has already been consumed.
pub open spec fn dec_rows(s: Seq<u8>, i: int) -> Option<(Seq<InsightView>, int)> {
    if 0 <= i < s.len() && s[i] == 93 {
        Some((Seq::empty(), i + 1))
    } else {
        dec_rows_tail(s, i, Seq::empty())
    }
}

/// Reads a whole envelope; the input must be consumed exactly.
pub open spec fn dec_resp(s: Seq<u8>) -> Option<RespView> {
    match dec_lit(s, 0, ascii_seq("{\"success\":"@)) {
        None => None,
        Some(j1) => match dec_bool(s, j1) {
            None => None,
            Some((b, j2)) => match dec_lit(s, j2, ascii_seq(",\"data\":["@)) {
                None => None,
                Some(j3) => match dec_rows(s, j3) {
                    None => None,
                    Some((rs, j4)) => match dec_lit(s, j4, ascii_seq(",\"message\":"@)) {
                        None => None,
                        Some(j5) => match dec_str(s, j5) {
                            None => None,
                            Some((m, j6)) => if j6 + 1 == s.len() && s[j6] == 125 {
                                Some(RespView { success: b, rows: rs, message: m })
                            } else {
                                None
                            },
                        },
                    },
                },
            },
        },
    }
}

/// Exec mirror of [`dec_digits`].
fn parse_digits(b: &Vec<u8>, i: usize, acc: u32) -> (r: Option<(u32, usize)>)
    requires
        i <= b@.len(),
    ensures
        ({
            let d = dec_digits(b@, i as int, acc as int);
            match r {
                Some(p) => d == Some((p.0 as int, p.1 as int)) && p.1 <= b@.len(),
                None => d is None,
            }
        }),
    decreases b@.len() - i,
{
    if i == b.len() {
        return Some((acc, i));
    }
    let c = b[i];
    if c < 48 || c > 57 {
        return Some((acc, i));
    }
    let a2: u64 = acc as u64 * 10 + (c - 48) as u64;
    if a2 > u32::MAX as u64 {
        return None;
    }
    parse_digits(b, i + 1, a2 as u32)
}

/// Exec mirror of [`dec_u32`].
fn parse_u32(b: &Vec<u8>, i: usize) -> (r: Option<(u32, usize)>)
    requires
        i <= b@.len(),
    ensures
        ({
            let d = dec_u32(b@, i as int);
            match r {
                Some(p) => d == Some((p.0 as int, p.1 as int)) && p.1 <= b@.len(),
                None => d is None,
            }
        }),
{
    if i < b.len() && 48 <= b[i] && b[i] <= 57 {
        parse_digits(b, i, 0)
    } else {
        None
    }
}

/// Exec mirror of [`dec_i32`].
fn parse_i32(b: &Vec<u8>, i: usize) -> (r: Option<(i32, usize)>)
    requires
        i <= b@.len(),
    ensures
        ({
            let d = dec_i32(b@, i as int);
            match r {
                Some(p) => d == Some((p.0 as int, p.1 as int)) && p.1 <= b@.len(),
                None => d is None,
            }
        }),
{
    if i < b.len() && b[i] == 45 {
        match parse_u32(b, i + 1) {
            Some((v, j)) => {
                if v <= 2147483648 {
                    Some(((-(v as i64)) as i32, j))
                } else {
                    None
                }
            },
            None => None,
        }
    } else {
        match parse_u32(b, i) {
            Some((v, j)) => {
                if v <= 2147483647 {
                    Some((v as i32, j))
                } else {
                    None
                }
            },
            None => None,
        }
    }
}

/// Exec mirror of [`dec_pct`].
fn parse_pct(b: &Vec<u8>, i: usize) -> (r: Option<(u32, usize)>)
    requires
        i <= b@.len(),
    ensures
        ({
            let d = dec_pct(b@, i as int);
            match r {
                Some(p) => d == Some((p.0 as int, p.1 as int)) && p.1 <= b@.len(),
                None => d is None,
            }
        }),
{
    match parse_u32(b, i) {
        Some((v, j)) => {
            if b.len() >= 3 && j <= b.len() - 3 && b[j] == 46 && 48 <= b[j + 1] && b[j + 1] <= 57
                && 48 <= b[j + 2] && b[j + 2] <= 57 {
                let h: u64 = (v as u64) * 100 + ((b[j + 1] - 48) as u64) * 10 + ((b[j + 2]
                    - 48) as u64);
                if h <= u32::MAX as u64 {
                    Some((h as u32, j + 3))
                } else {
                    None
                }
            } else {
                None
            }
        },
        None => None,
    }
}

/// Exec mirror of [`dec_str_body`].
fn parse_str_body(b: &Vec<u8>, i: usize, acc: Vec<u8>) -> (r: Option<(Vec<u8>, usize)>)
    requires
        i <= b@.len(),
    ensures
        ({
            let d = dec_str_body(b@, i as int, acc@);
            match r {
                Some(p) => d == Some((p.0@, p.1 as int)) && p.1 <= b@.len(),
                None => d is None,
            }
        }),
    decreases b@.len() - i,
{
    if i == b.len() {
        return None;
    }
    let c = b[i];
    if c == 34 {
        Some((acc, i + 1))
    } else if c == 92 {
        if i + 1 < b.len() && (b[i + 1] == 34 || b[i + 1] == 92) {
            let mut acc = acc;
            acc.push(b[i + 1]);
            parse_str_body(b, i + 2, acc)
        } else {
            None
        }
    } else {
        let mut acc = acc;
        acc.push(c);
        parse_str_body(b, i + 1, acc)
    }
}

/// Exec mirror of [`dec_str`].
fn parse_str(b: &Vec<u8>, i: usize) -> (r: Option<(Vec<u8>, usize)>)
    requires
        i <= b@.len(),
    ensures
        ({
            let d = dec_str(b@, i as int);
            match r {
                Some(p) => d == Some((p.0@, p.1 as int)) && p.1 <= b@.len(),
                None => d is None,
            }
        }),
{
    if i < b.len() && b[i] == 34 {
        parse_str_body(b, i + 1, Vec::new())
    } else {
        None
    }
}

/// Exec mirror of [`dec_lit`].
fn parse_lit(b: &Vec<u8>, i: usize, lit: &Vec<u8>) -> (r: Option<usize>)
    requires
        i <= b@.len(),
    ensures
        ({
            let d = dec_lit(b@, i as int, lit@);
            match r {
                Some(j) => d == Some(j as int) && j <= b@.len(),
                None => d is None,
            }
        }),
{
    let n = b.len();
    if lit.len() > n - i {
        return None;
    }
    let mut j: usize = 0;
    while j < lit.len()
        invariant
            n == b@.len(),
            i + lit@.len() <= n,
            j <= lit@.len(),
            forall|t: int| 0 <= t < j ==> b@[i + t] == #[trigger] lit@[t],
        decreases lit@.len() - j,
    {
        proof {
            assert(i + j < b@.len());
        }
        if b[i + j] != lit[j] {
            proof {
                assert(b@.subrange(i as int, i + lit@.len())[j as int] == b@[i + j]);
            }
            return None;
        }
        j = j + 1;
    }
    proof {
        assert(b@.subrange(i as int, i + lit@.len()) =~= lit@);
    }
    Some(i + lit.len())
}

/// Exec mirror of [`dec_bool`].
fn parse_bool(b: &Vec<u8>, i: usize) -> (r: Option<(bool, usize)>)
    requires
        i <= b@.len(),
    ensures
        ({
            let d = dec_bool(b@, i as int);
            match r {
                Some(p) => d == Some((p.0, p.1 as int)) && p.1 <= b@.len(),
                None => d is None,
            }
        }),
{
    proof {
        reveal_strlit("true");
        reveal_strlit("false");
    }
    let t = lit_bytes("true");
    match parse_lit(b, i, &t) {
        Some(j) => Some((true, j)),
        None => {
            let f = lit_bytes("false");
            match parse_lit(b, i, &f) {
                Some(j) => Some((false, j)),
                None => None,
            }
        },
    }
}

/// Exec mirror of [`dec_row`].
fn parse_row(b: &Vec<u8>, i: usize) -> (r: Option<(InsightSummary, usize)>)
    requires
        i <= b@.len(),
    ensures
        ({
            let d = dec_row(b@, i as int);
            match r {
                Some(p) => d == Some((p.0@, p.1 as int)) && p.1 <= b@.len(),
                None => d is None,
            }
        }),
{
    proof {
        reveal_strlit("{\"id\":");
        reveal_strlit(",\"word\":");
        reveal_strlit(",\"total_count\":");
        reveal_strlit(",\"positive_count\":");
        reveal_strlit(",\"negative_count\":");
        reveal_strlit(",\"neutral_count\":");
        reveal_strlit(",\"positive_pct\":");
        reveal_strlit(",\"negative_pct\":");
        reveal_strlit(",\"neutral_pct\":");
        reveal_strlit(",\"created_at\":");
    }
    let l = lit_bytes("{\"id\":");
    let Some(j1) = parse_lit(b, i, &l) else { return None };
    let Some((id, j2)) = parse_i32(b, j1) else { return None };
    let l = lit_bytes(",\"word\":");
    let Some(j3) = parse_lit(b, j2, &l) else { return None };
    let Some((word, j4)) = parse_str(b, j3) else { return None };
    let l = lit_bytes(",\"total_count\":");
    let Some(j5) = parse_lit(b, j4, &l) else { return None };
    let Some((total, j6)) = parse_u32(b, j5) else { return None };
    let l = lit_bytes(",\"positive_count\":");
    let Some(j7) = parse_lit(b, j6, &l) else { return None };
    let Some((posc, j8)) = parse_u32(b, j7) else { return None };
    let l = lit_bytes(",\"negative_count\":");
    let Some(j9) = parse_lit(b, j8, &l) else { return None };
    let Some((negc, j10)) = parse_u32(b, j9) else { return None };
    let l = lit_bytes(",\"neutral_count\":");
    let Some(j11) = parse_lit(b, j10, &l) else { return None };
    let Some((neuc, j12)) = parse_u32(b, j11) else { return None };
    let l = lit_bytes(",\"positive_pct\":");
    let Some(j13) = parse_lit(b, j12, &l) else { return None };
    let Some((ppct, j14)) = parse_pct(b, j13) else { return None };
    let l = lit_bytes(",\"negative_pct\":");
    let Some(j15) = parse_lit(b, j14, &l) else { return None };
    let Some((npct, j16)) = parse_pct(b, j15) else { return None };
    let l = lit_bytes(",\"neutral_pct\":");
    let Some(j17) = parse_lit(b, j16, &l) else { return None };
    let Some((upct, j18)) = parse_pct(b, j17) else { return None };
    let l = lit_bytes(",\"created_at\":");
    let Some(j19) = parse_lit(b, j18, &l) else { return None };
    let Some((created, j20)) = parse_str(b, j19) else { return None };
    if j20 < b.len() && b[j20] == 125 {
        let row = InsightSummary {
            id,
            word,
            total_count: total,
            positive_count: posc,
            negative_count: negc,
            neutral_count: neuc,
            positive_pct: ppct,
            negative_pct: npct,
            neutral_pct: upct,
            created_at: created,
        };
        proof {
            assert(row@ =~= (dec_row(b@, i as int)->Some_0).0);
        }
        Some((row, j20 + 1))
    } else {
        None
    }
}

/// Exec mirror of [`dec_rows_tail`].
fn parse_rows_tail(b: &Vec<u8>, i: usize, acc: Vec<InsightSummary>) -> (r: Option<
    (Vec<InsightSummary>, usize),
>)
    requires
        i <= b@.len(),
    ensures
        ({
            let d = dec_rows_tail(b@, i as int, views(acc@));
            match r {
                Some(p) => d == Some((views(p.0@), p.1 as int)) && p.1 <= b@.len(),
                None => d is None,
            }
        }),
    decreases b@.len() - i,
{
    let Some((row, j)) = parse_row(b, i) else { return None };
    if j <= i || j >= b.len() {
        return None;
    }
    if b[j] == 44 {
        let ghost prev = acc@;
        let mut acc = acc;
        acc.push(row);
        proof {
            assert(views(acc@) =~= views(prev).push(row@));
        }
        parse_rows_tail(b, j + 1, acc)
    } else if b[j] == 93 {
        let ghost prev = acc@;
        let mut acc = acc;
        acc.push(row);
        proof {
            assert(views(acc@) =~= views(prev).push(row@));
        }
        Some((acc, j + 1))
    } else {
        None
    }
}

/// Exec mirror of [`dec_rows`].
fn parse_rows(b: &Vec<u8>, i: usize) -> (r: Option<(Vec<InsightSummary>, usize)>)
    requires
        i <= b@.len(),
    ensures
        ({
            let d = dec_rows(b@, i as int);
            match r {
                Some(p) => d == Some((views(p.0@), p.1 as int)) && p.1 <= b@.len(),
                None => d is None,
            }
        }),
{
    if i < b.len() && b[i] == 93 {
        let empty: Vec<InsightSummary> = Vec::new();
        proof {
            assert(views(empty@) =~= Seq::<InsightView>::empty());
        }
        Some((empty, i + 1))
    } else {
        let empty: Vec<InsightSummary> = Vec::new();
        proof {
            assert(views(empty@) =~= Seq::<InsightView>::empty());
        }
        parse_rows_tail(b, i, empty)
    }
}

/// Decodes an envelope from its JSON bytes; accepts exactly the encoder's
/// output shape and consumes the whole input.
pub fn decode_response(b: &Vec<u8>) -> (r: Option<ApiResponse<Vec<InsightSummary>>>)
    ensures
        ({
            match r {
                Some(resp) => dec_resp(b@) == Some(resp_view(&resp)),
                None => dec_resp(b@) is None,
            }
        }),
{
    proof {
        reveal_strlit("{\"success\":");
        reveal_strlit(",\"data\":[");
        reveal_strlit(",\"message\":");
    }
    let l = lit_bytes("{\"success\":");
    let Some(j1) = parse_lit(b, 0, &l) else { return None };
    let Some((success, j2)) = parse_bool(b, j1) else { return None };
    let l = lit_bytes(",\"data\":[");
    let Some(j3) = parse_lit(b, j2, &l) else { return None };
    let Some((data, j4)) = parse_rows(b, j3) else { return None };
    let l = lit_bytes(",\"message\":");
    let Some(j5) = parse_lit(b, j4, &l) else { return None };
    let Some((message, j6)) = parse_str(b, j5) else { return None };
    if j6 < b.len() && j6 + 1 == b.len() && b[j6] == 125 {
        let resp = ApiResponse { success, data, message };
        proof {
            assert(resp_view(&resp) =~= dec_resp(b@)->Some_0);
        }
        Some(resp)
    } else {
        None
    }
}

} // verus!

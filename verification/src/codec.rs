use vstd::prelude::*;

verus! {

use crate::model::{views, ApiResponse, InsightSummary, InsightView};
use crate::text::{append_bytes, ascii_seq, lit_bytes};

/// The value of an envelope holding a list of records.
#[verifier::ext_equal]
pub struct RespView {
    pub success: bool,
    pub rows: Seq<InsightView>,
    pub message: Seq<u8>,
}

/// The mathematical value of an [`ApiResponse`] over a row list.
pub open spec fn resp_view(r: &ApiResponse<Vec<InsightSummary>>) -> RespView {
    RespView { success: r.success, rows: views(r.data@), message: r.message@ }
}

/// Decimal digits of a non-negative integer, most significant first.
pub open spec fn digits(n: int) -> Seq<u8>
    recommends
        n >= 0,
    decreases n,
{
    if n < 10 {
        seq![(48 + n) as u8]
    } else {
        digits(n / 10).push((48 + n % 10) as u8)
    }
}

/// JSON rendering of a signed integer.
pub open spec fn enc_i32(n: int) -> Seq<u8> {
    if n < 0 {
        seq![45u8] + digits(-n)
    } else {
        digits(n)
    }
}

/// The escape of one byte inside a JSON string: quotes and backslashes get
/// a backslash, every other byte stands for itself.
pub open spec fn esc_byte(b: u8) -> Seq<u8> {
    if b == 34 || b == 92 {
        seq![92u8, b]
    } else {
        seq![b]
    }
}

/// The escaped body of a JSON string.
pub open spec fn esc(w: Seq<u8>) -> Seq<u8>
    decreases w.len(),
{
    if w.len() == 0 {
        Seq::empty()
    } else {
        esc_byte(w[0]) + esc(w.drop_first())
    }
}

/// A JSON string: quote, escaped body, quote.
pub open spec fn enc_str(w: Seq<u8>) -> Seq<u8> {
    seq![34u8] + esc(w) + seq![34u8]
}

/// A percentage held in hundredths, rendered with two decimal places.
pub open spec fn enc_pct(h: int) -> Seq<u8> {
    digits(h / 100) + seq![46u8, (48 + (h % 100) / 10) as u8, (48 + h % 10) as u8]
}

/// JSON rendering of a boolean.
pub open spec fn enc_bool(b: bool) -> Seq<u8> {
    if b {
        ascii_seq("true"@)
    } else {
        ascii_seq("false"@)
    }
}

/// The front half of a record object: identifier, word and the counts.
pub open spec fn enc_row_head(r: InsightView) -> Seq<u8> {
    ascii_seq("{\"id\":"@) + enc_i32(r.id) + ascii_seq(",\"word\":"@) + enc_str(r.word)
        + ascii_seq(",\"total_count\":"@) + digits(r.total_count) + ascii_seq(
        ",\"positive_count\":"@,
    ) + digits(r.positive_count) + ascii_seq(",\"negative_count\":"@) + digits(r.negative_count)
}

/// The back half of a record object: the neutral count, the percentages,
/// the timestamp, and the closing brace.
pub open spec fn enc_row_rest(r: InsightView) -> Seq<u8> {
    ascii_seq(",\"neutral_count\":"@) + digits(r.neutral_count) + ascii_seq(
        ",\"positive_pct\":"@,
    ) + enc_pct(r.positive_pct) + ascii_seq(",\"negative_pct\":"@) + enc_pct(r.negative_pct)
        + ascii_seq(",\"neutral_pct\":"@) + enc_pct(r.neutral_pct) + ascii_seq(
        ",\"created_at\":"@,
    ) + enc_str(r.created_at) + seq![125u8]
}

/// One record as a JSON object, fields in a fixed order.
pub open spec fn enc_row(r: InsightView) -> Seq<u8> {
    enc_row_head(r) + enc_row_rest(r)
}

/// Comma-separated row objects, without the brackets.
pub open spec fn enc_rows_inner(rs: Seq<InsightView>) -> Seq<u8>
    decreases rs.len(),
{
    if rs.len() == 0 {
        Seq::empty()
    } else if rs.len() == 1 {
        enc_row(rs[0])
    } else {
        enc_row(rs[0]) + seq![44u8] + enc_rows_inner(rs.drop_first())
    }
}

/// The whole envelope as JSON.
pub open spec fn enc_resp(v: RespView) -> Seq<u8> {
    ascii_seq("{\"success\":"@) + enc_bool(v.success) + ascii_seq(",\"data\":["@)
        + enc_rows_inner(v.rows) + seq![93u8] + ascii_seq(",\"message\":"@) + enc_str(v.message)
        + seq![125u8]
}

/// Appending one more row to a non-empty list appends a comma and the row.
pub proof fn lemma_rows_inner_push(rs: Seq<InsightView>, r: InsightView)
    requires
        rs.len() >= 1,
    ensures
        enc_rows_inner(rs.push(r)) == enc_rows_inner(rs) + seq![44u8] + enc_rows_inner(
            seq![r],
        ),
    decreases rs.len(),
{
    let p = rs.push(r);
    assert(p[0] == rs[0]);
    if rs.len() == 1 {
        assert(p.drop_first() =~= seq![r]);
        assert(enc_rows_inner(p) == enc_row(p[0]) + seq![44u8] + enc_rows_inner(p.drop_first()));
        assert(enc_rows_inner(rs) == enc_row(rs[0]));
    } else {
        assert(p.drop_first() =~= rs.drop_first().push(r));
        lemma_rows_inner_push(rs.drop_first(), r);
        assert(enc_rows_inner(p) == enc_row(p[0]) + seq![44u8] + enc_rows_inner(
            rs.drop_first().push(r),
        ));
        assert(enc_row(rs[0]) + seq![44u8] + (enc_rows_inner(rs.drop_first()) + seq![44u8]
            + enc_rows_inner(seq![r])) =~= (enc_row(rs[0]) + seq![44u8] + enc_rows_inner(
            rs.drop_first(),
        )) + seq![44u8] + enc_rows_inner(seq![r]));
    }
}

/// Writes the decimal digits of `n`.
pub(crate) fn push_u32(out: &mut Vec<u8>, n: u32)
    ensures
        final(out)@ == old(out)@ + digits(n as int),
    decreases n,
{
    if n >= 10 {
        push_u32(out, n / 10);
        out.push(48 + (n % 10) as u8);
        proof {
            assert(out@ =~= old(out)@ + digits(n as int));
        }
    } else {
        out.push(48 + n as u8);
        proof {
            assert(out@ =~= old(out)@ + digits(n as int));
        }
    }
}

/// Writes a signed integer.
pub(crate) fn push_i32(out: &mut Vec<u8>, v: i32)
    ensures
        final(out)@ == old(out)@ + enc_i32(v as int),
{
    if v < 0 {
        out.push(45);
        let m: u32 = (-(v as i64)) as u32;
        push_u32(out, m);
        proof {
            assert(out@ =~= old(out)@ + enc_i32(v as int));
        }
    } else {
        push_u32(out, v as u32);
    }
}

/// Writes a JSON string with quotes and backslashes escaped.
pub(crate) fn push_str(out: &mut Vec<u8>, w: &Vec<u8>)
    ensures
        final(out)@ == old(out)@ + enc_str(w@),
{
    out.push(34);
    let mut i: usize = 0;
    while i < w.len()
        invariant
            i <= w@.len(),
            out@ == old(out)@ + seq![34u8] + esc(w@.take(i as int)),
        decreases w@.len() - i,
    {
        let b = w[i];
        let ghost pre = out@;
        if b == 34 || b == 92 {
            out.push(92);
        }
        out.push(b);
        proof {
            lemma_esc_push(w@.take(i as int), w@[i as int]);
            assert(w@.take(i + 1) =~= w@.take(i as int).push(w@[i as int]));
            assert(out@ =~= old(out)@ + seq![34u8] + esc(w@.take(i + 1)));
        }
        i = i + 1;
    }
    out.push(34);
    proof {
        assert(w@.take(w@.len() as int) =~= w@);
        assert(out@ =~= old(out)@ + enc_str(w@));
    }
}

/// Escaping one more byte appends that byte's escape.
pub proof fn lemma_esc_push(s: Seq<u8>, b: u8)
    ensures
        esc(s.push(b)) == esc(s) + esc_byte(b),
    decreases s.len(),
{
    let p = s.push(b);
    if s.len() == 0 {
        assert(p.len() == 1 && p[0] == b);
        assert(p.drop_first() =~= Seq::<u8>::empty());
        assert(esc(Seq::<u8>::empty()) == Seq::<u8>::empty());
        assert(esc(p) == esc_byte(b) + esc(p.drop_first()));
        assert(esc_byte(b) + Seq::<u8>::empty() =~= esc_byte(b));
        assert(esc(s) + esc_byte(b) =~= esc_byte(b));
    } else {
        assert(p.drop_first() =~= s.drop_first().push(b));
        lemma_esc_push(s.drop_first(), b);
        assert(esc_byte(s[0]) + (esc(s.drop_first()) + esc_byte(b)) =~= (esc_byte(s[0]) + esc(
            s.drop_first(),
        )) + esc_byte(b));
    }
}

/// Writes a percentage held in hundredths with two decimal places.
pub(crate) fn push_pct(out: &mut Vec<u8>, h: u32)
    ensures
        final(out)@ == old(out)@ + enc_pct(h as int),
{
    push_u32(out, h / 100);
    out.push(46);
    out.push(48 + ((h % 100) / 10) as u8);
    out.push(48 + (h % 10) as u8);
    proof {
        assert(out@ =~= old(out)@ + enc_pct(h as int));
    }
}

/// Writes one record object.
#[verifier::rlimit(80)]
pub(crate) fn push_row(out: &mut Vec<u8>, r: &InsightSummary)
    ensures
        final(out)@ == old(out)@ + enc_row(r@),
{
    proof {
        reveal_strlit("{\"id\":");
        reveal_strlit(",\"word\":");
        reveal_strlit(",\"total_count\":");
        reveal_strlit(",\"positive_count\":");
        reveal_strlit(",\"negative_count\":");
        reveal_strlit(",\"neutral_count\":");
        reveal_strlit(",\"positive_pct\":");
        reveal_strlit(",\"negative_pct\":");
        reveal_strlit(",\"neutral_pct\":");
        reveal_strlit(",\"created_at\":");
    }
    let l = lit_bytes("{\"id\":");
    append_bytes(out, &l);
    push_i32(out, r.id);
    let l = lit_bytes(",\"word\":");
    append_bytes(out, &l);
    push_str(out, &r.word);
    let l = lit_bytes(",\"total_count\":");
    append_bytes(out, &l);
    push_u32(out, r.total_count);
    let l = lit_bytes(",\"positive_count\":");
    append_bytes(out, &l);
    push_u32(out, r.positive_count);
    let l = lit_bytes(",\"negative_count\":");
    append_bytes(out, &l);
    push_u32(out, r.negative_count);
    let l = lit_bytes(",\"neutral_count\":");
    append_bytes(out, &l);
    push_u32(out, r.neutral_count);
    let l = lit_bytes(",\"positive_pct\":");
    append_bytes(out, &l);
    push_pct(out, r.positive_pct);
    let l = lit_bytes(",\"negative_pct\":");
    append_bytes(out, &l);
    push_pct(out, r.negative_pct);
    let l = lit_bytes(",\"neutral_pct\":");
    append_bytes(out, &l);
    push_pct(out, r.neutral_pct);
    let l = lit_bytes(",\"created_at\":");
    append_bytes(out, &l);
    push_str(out, &r.created_at);
    out.push(125);
    proof {
        assert(out@ =~= old(out)@ + enc_row(r@));
    }
}

/// Encodes the whole envelope as JSON bytes.
#[verifier::rlimit(80)]
pub fn encode_response(r: &ApiResponse<Vec<InsightSummary>>) -> (out: Vec<u8>)
    ensures
        out@ == enc_resp(resp_view(r)),
{
    proof {
        reveal_strlit("{\"success\":");
        reveal_strlit("true");
        reveal_strlit("false");
        reveal_strlit(",\"data\":[");
        reveal_strlit(",\"message\":");
    }
    let mut out = lit_bytes("{\"success\":");
    let b = if r.success {
        lit_bytes("true")
    } else {
        lit_bytes("false")
    };
    append_bytes(&mut out, &b);
    let l = lit_bytes(",\"data\":[");
    append_bytes(&mut out, &l);
    let ghost head = out@;
    let rows = &r.data;
    let mut i: usize = 0;
    while i < rows.len()
        invariant
            i <= rows@.len(),
            out@ == head + enc_rows_inner(views(rows@).take(i as int)),
        decreases rows@.len() - i,
    {
        let ghost pre = views(rows@).take(i as int);
        if i > 0 {
            out.push(44);
        }
        push_row(&mut out, &rows[i]);
        proof {
            assert(views(rows@).take(i + 1) =~= pre.push(views(rows@)[i as int]));
            if i == 0 {
                assert(views(rows@).take(1) =~= seq![views(rows@)[0]]);
                assert(enc_rows_inner(seq![views(rows@)[0]]) == enc_row(views(rows@)[0]));
                assert(out@ =~= head + enc_rows_inner(views(rows@).take(1)));
            } else {
                lemma_rows_inner_push(pre, views(rows@)[i as int]);
                assert(enc_rows_inner(seq![views(rows@)[i as int]]) == enc_row(
                    views(rows@)[i as int],
                )) by {
                    assert(seq![views(rows@)[i as int]].len() == 1);
                }
                assert(out@ =~= head + enc_rows_inner(views(rows@).take(i + 1)));
            }
        }
        i = i + 1;
    }
    proof {
        assert(views(rows@).take(rows@.len() as int) =~= views(rows@));
    }
    out.push(93);
    let l = lit_bytes(",\"message\":");
    append_bytes(&mut out, &l);
    push_str(&mut out, &r.message);
    out.push(125);
    proof {
        assert(out@ =~= enc_resp(resp_view(r)));
    }
    out
}

} // verus!

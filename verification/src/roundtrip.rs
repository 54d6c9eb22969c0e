use vstd::prelude::*;

verus! {

use crate::codec::{
    digits, enc_bool, enc_i32, enc_pct, enc_resp, enc_row, enc_row_head, enc_row_rest,
    enc_rows_inner, enc_str, esc, esc_byte, resp_view, RespView,
};
use crate::decode::{
    dec_bool, dec_digits, dec_i32, dec_lit, dec_pct, dec_resp, dec_row, dec_row_rest, dec_rows,
    dec_rows_tail, dec_str, dec_str_body, dec_u32, is_digit,
};
use crate::model::{views, ApiResponse, InsightSummary, InsightView};
use crate::text::ascii_seq;

/// Powers of ten.
pub open spec fn pow10(k: nat) -> int
    decreases k,
{
    if k == 0 {
        1
    } else {
        10 * pow10((k - 1) as nat)
    }
}

/// Every byte is an ASCII digit.
pub open spec fn all_digits(ds: Seq<u8>) -> bool {
    forall|t: int| 0 <= t < ds.len() ==> is_digit(#[trigger] ds[t])
}

/// The number a digit string denotes.
pub open spec fn val(ds: Seq<u8>) -> int
    decreases ds.len(),
{
    if ds.len() == 0 {
        0
    } else {
        val(ds.drop_last()) * 10 + (ds.last() - 48)
    }
}

pub proof fn lemma_pow10_pos(k: nat)
    ensures
        pow10(k) >= 1,
    decreases k,
{
    if k > 0 {
        lemma_pow10_pos((k - 1) as nat);
    }
}

pub proof fn lemma_val_nonneg(ds: Seq<u8>)
    requires
        all_digits(ds),
    ensures
        val(ds) >= 0,
    decreases ds.len(),
{
    if ds.len() > 0 {
        assert(all_digits(ds.drop_last())) by {
            assert(forall|t: int|
                0 <= t < ds.len() - 1 ==> ds.drop_last()[t] == #[trigger] ds[t]);
        }
        lemma_val_nonneg(ds.drop_last());
        assert(ds.last() == ds[ds.len() - 1]);
    }
}

/// The digit string of `n` is non-empty, all digits, and denotes `n`.
pub proof fn lemma_digits_props(n: int)
    requires
        n >= 0,
    ensures
        digits(n).len() >= 1,
        all_digits(digits(n)),
        val(digits(n)) == n,
    decreases n,
{
    if n < 10 {
        let ds = digits(n);
        assert(ds =~= seq![(48 + n) as u8]);
        assert(ds.drop_last() =~= Seq::<u8>::empty());
        assert(val(Seq::<u8>::empty()) == 0);
        assert(val(ds) == (48 + n) as u8 - 48);
    } else {
        lemma_digits_props(n / 10);
        let ds = digits(n);
        let e = digits(n / 10);
        assert(ds == e.push((48 + n % 10) as u8));
        assert(ds.drop_last() =~= e);
        assert(ds.last() == (48 + n % 10) as u8);
        assert(val(ds) == val(e) * 10 + ((48 + n % 10) as u8 - 48));
        assert(forall|t: int|
            0 <= t < ds.len() ==> is_digit(#[trigger] ds[t]) == if t < e.len() {
                is_digit(e[t])
            } else {
                is_digit((48 + n % 10) as u8)
            });
    }
}

/// Reading the value of a digit string one byte at a time from the front.
pub proof fn lemma_val_front(ds: Seq<u8>)
    requires
        ds.len() >= 1,
        all_digits(ds),
    ensures
        val(ds) == (ds[0] - 48) * pow10((ds.len() - 1) as nat) + val(ds.drop_first()),
    decreases ds.len(),
{
    if ds.len() == 1 {
        assert(ds.drop_last() =~= Seq::<u8>::empty());
        assert(ds.drop_first() =~= Seq::<u8>::empty());
        assert(val(Seq::<u8>::empty()) == 0);
        assert(val(ds) == (ds[0] - 48));
        assert((ds.len() - 1) as nat == 0);
        assert(pow10(0) == 1);
        assert((ds[0] - 48) * 1 == ds[0] - 48) by (nonlinear_arith);
    } else {
        let e = ds.drop_last();
        assert(all_digits(e)) by {
            assert(forall|t: int| 0 <= t < ds.len() - 1 ==> e[t] == #[trigger] ds[t]);
        }
        lemma_val_front(e);
        let d0 = ds[0] - 48;
        let p = pow10((ds.len() - 2) as nat);
        assert(e[0] == ds[0]);
        assert(val(e) == d0 * p + val(e.drop_first()));
        assert(ds.drop_first().drop_last() =~= e.drop_first());
        assert(ds.drop_first().last() == ds.last());
        assert(val(ds.drop_first()) == val(e.drop_first()) * 10 + (ds.last() - 48));
        assert(val(ds) == val(e) * 10 + (ds.last() - 48));
        assert(val(e) * 10 == d0 * p * 10 + val(e.drop_first()) * 10);
        assert(d0 * p * 10 == d0 * (10 * p)) by (nonlinear_arith);
        assert(pow10((ds.len() - 1) as nat) == 10 * p);
    }
}

/// A maximal digit run that spells a digit string, followed by a non-digit
/// or the end of the input, is read back as its value.
pub proof fn lemma_dec_digit_string(s: Seq<u8>, i: int, ds: Seq<u8>, a: int)
    requires
        0 <= i,
        ds.len() >= 1,
        i + ds.len() <= s.len(),
        all_digits(ds),
        s.subrange(i, i + ds.len()) == ds,
        a >= 0,
        a * pow10(ds.len() as nat) + val(ds) <= u32::MAX as int,
        i + ds.len() == s.len() || !is_digit(s[i + ds.len()]),
    ensures
        dec_digits(s, i, a) == Some((a * pow10(ds.len() as nat) + val(ds), i + ds.len())),
    decreases ds.len(),
{
    assert(ds[0] == s.subrange(i, i + ds.len())[0]);
    assert(s[i] == ds[0]);
    let d0 = (s[i] - 48) as int;
    let a2 = a * 10 + d0;
    let dsr = ds.drop_first();
    let lp = (ds.len() - 1) as nat;
    let p = pow10(lp);
    lemma_val_front(ds);
    assert(a * pow10(ds.len() as nat) == (a * 10) * p) by (nonlinear_arith)
        requires
            pow10(ds.len() as nat) == 10 * pow10(lp),
            p == pow10(lp),
    ;
    assert((a * 10) * p + d0 * p == a2 * p) by (nonlinear_arith)
        requires
            a2 == a * 10 + d0,
    ;
    assert(a * pow10(ds.len() as nat) + val(ds) == a2 * p + val(dsr));
    lemma_pow10_pos(lp);
    assert(all_digits(dsr)) by {
        assert(forall|t: int| 0 <= t < dsr.len() ==> dsr[t] == #[trigger] ds[t + 1]);
    }
    lemma_val_nonneg(dsr);
    assert(a2 * p >= a2) by (nonlinear_arith)
        requires
            p >= 1,
            a2 >= 0,
    ;
    assert(a2 <= u32::MAX as int);
    if ds.len() == 1 {
        assert(dsr =~= Seq::<u8>::empty());
        assert(val(ds) == d0);
        assert(dec_digits(s, i + 1, a2) == Some((a2, i + 1)));
        assert(a2 * p == a2 * 1);
    } else {
        assert(s.subrange(i + 1, i + 1 + dsr.len()) =~= dsr) by {
            assert(forall|t: int|
                0 <= t < dsr.len() ==> s.subrange(i + 1, i + 1 + dsr.len())[t] == s[i + 1 + t]
                    && #[trigger] dsr[t] == ds[t + 1] && ds[t + 1] == s.subrange(
                    i,
                    i + ds.len(),
                )[t + 1]);
        }
        lemma_dec_digit_string(s, i + 1, dsr, a2);
    }
}

/// The digits of `n`, followed by a non-digit or the end, decode to `n`.
pub proof fn lemma_dec_u32_complete(s: Seq<u8>, i: int, n: int)
    requires
        0 <= n <= u32::MAX as int,
        0 <= i,
        i + digits(n).len() <= s.len(),
        s.subrange(i, i + digits(n).len()) == digits(n),
        i + digits(n).len() == s.len() || !is_digit(s[i + digits(n).len()]),
    ensures
        dec_u32(s, i) == Some((n, i + digits(n).len())),
{
    lemma_digits_props(n);
    assert(digits(n)[0] == s.subrange(i, i + digits(n).len())[0]);
    assert(s[i] == digits(n)[0]);
    assert(is_digit(s[i]));
    lemma_pow10_pos(digits(n).len() as nat);
    assert(0 * pow10(digits(n).len() as nat) == 0) by (nonlinear_arith);
    lemma_dec_digit_string(s, i, digits(n), 0);
}

/// The rendering of a signed integer, followed by a non-digit or the end,
/// decodes to that integer.
pub proof fn lemma_dec_i32_complete(s: Seq<u8>, i: int, n: int)
    requires
        -2147483648 <= n <= 2147483647,
        0 <= i,
        i + enc_i32(n).len() <= s.len(),
        s.subrange(i, i + enc_i32(n).len()) == enc_i32(n),
        i + enc_i32(n).len() == s.len() || !is_digit(s[i + enc_i32(n).len()]),
    ensures
        dec_i32(s, i) == Some((n, i + enc_i32(n).len())),
{
    if n < 0 {
        let m = -n;
        let e = enc_i32(n);
        assert(e == seq![45u8] + digits(m));
        assert(e[0] == 45u8);
        assert(s[i] == e[0]);
        assert forall|t: int| 0 <= t < digits(m).len() implies s.subrange(
            i + 1,
            i + 1 + digits(m).len(),
        )[t] == digits(m)[t] by {
            assert(s.subrange(i + 1, i + 1 + digits(m).len())[t] == s[i + 1 + t]);
            assert(s.subrange(i, i + e.len())[t + 1] == s[i + (t + 1)]);
            assert(e[t + 1] == digits(m)[t]);
        }
        assert(s.subrange(i + 1, i + 1 + digits(m).len()) =~= digits(m));
        lemma_dec_u32_complete(s, i + 1, m);
    } else {
        lemma_digits_props(n);
        assert(digits(n)[0] == s.subrange(i, i + digits(n).len())[0]);
        assert(s[i] == digits(n)[0]);
        assert(is_digit(s[i]));
        assert(s[i] != 45);
        lemma_dec_u32_complete(s, i, n);
    }
}

/// The two-decimal rendering of a percentage decodes to its hundredths.
pub proof fn lemma_dec_pct_complete(s: Seq<u8>, i: int, h: int)
    requires
        0 <= h <= u32::MAX as int,
        0 <= i,
        i + enc_pct(h).len() <= s.len(),
        s.subrange(i, i + enc_pct(h).len()) == enc_pct(h),
    ensures
        dec_pct(s, i) == Some((h, i + enc_pct(h).len())),
{
    let v = h / 100;
    let ds = digits(v);
    let e = enc_pct(h);
    let tail = seq![46u8, (48 + (h % 100) / 10) as u8, (48 + h % 10) as u8];
    assert(e == ds + tail);
    assert(e.len() == ds.len() + 3);
    assert forall|t: int| 0 <= t < ds.len() implies s.subrange(i, i + ds.len())[t] == ds[t] by {
        assert(s.subrange(i, i + ds.len())[t] == s[i + t]);
        assert(s.subrange(i, i + e.len())[t] == s[i + t]);
        assert(e[t] == ds[t]);
    }
    assert(s.subrange(i, i + ds.len()) =~= ds);
    let j = i + ds.len();
    assert(s.subrange(i, i + e.len())[ds.len() as int] == s[i + ds.len()]);
    assert(e[ds.len() as int] == tail[0]);
    assert(s[j] == 46u8);
    lemma_dec_u32_complete(s, i, v);
    assert(s.subrange(i, i + e.len())[ds.len() + 1 as int] == s[i + (ds.len() + 1)]);
    assert(e[ds.len() + 1 as int] == tail[1]);
    assert(s.subrange(i, i + e.len())[ds.len() + 2 as int] == s[i + (ds.len() + 2)]);
    assert(e[ds.len() + 2 as int] == tail[2]);
    assert(s[j + 1] == (48 + (h % 100) / 10) as u8);
    assert(s[j + 2] == (48 + h % 10) as u8);
    let d1 = (s[j + 1] - 48) as int;
    let d2 = (s[j + 2] - 48) as int;
    assert(d1 == (h % 100) / 10);
    assert(d2 == h % 10);
    assert(h % 10 == (h % 100) % 10) by (nonlinear_arith)
        requires
            h >= 0,
    ;
    assert(v * 100 + d1 * 10 + d2 == h);
}

/// A subrange equal to a two-part concatenation splits into the two parts.
pub proof fn lemma_split(s: Seq<u8>, i: int, a: Seq<u8>, b: Seq<u8>)
    requires
        0 <= i,
        i + a.len() + b.len() <= s.len(),
        s.subrange(i, i + a.len() + b.len()) == a + b,
    ensures
        s.subrange(i, i + a.len()) == a,
        s.subrange(i + a.len(), i + a.len() + b.len()) == b,
{
    assert forall|t: int| 0 <= t < a.len() implies s.subrange(i, i + a.len())[t] == a[t] by {
        assert(s.subrange(i, i + a.len() + b.len())[t] == s[i + t]);
        assert(s.subrange(i, i + a.len())[t] == s[i + t]);
    }
    assert(s.subrange(i, i + a.len()) =~= a);
    assert forall|t: int| 0 <= t < b.len() implies s.subrange(
        i + a.len(),
        i + a.len() + b.len(),
    )[t] == b[t] by {
        assert(s.subrange(i, i + a.len() + b.len())[a.len() + t] == s[i + (a.len() + t)]);
        assert(s.subrange(i + a.len(), i + a.len() + b.len())[t] == s[(i + a.len()) + t]);
    }
    assert(s.subrange(i + a.len(), i + a.len() + b.len()) =~= b);
}

/// A subrange equality gives each named piece of a concatenation.
pub proof fn lemma_piece(s: Seq<u8>, i: int, full: Seq<u8>, off: int, p: Seq<u8>)
    requires
        0 <= i,
        i + full.len() <= s.len(),
        s.subrange(i, i + full.len()) == full,
        0 <= off,
        off + p.len() <= full.len(),
        forall|t: int| 0 <= t < p.len() ==> full[off + t] == #[trigger] p[t],
    ensures
        s.subrange(i + off, i + off + p.len()) == p,
{
    assert forall|t: int| 0 <= t < p.len() implies s.subrange(i + off, i + off + p.len())[t]
        == p[t] by {
        assert(s.subrange(i, i + full.len())[off + t] == s[i + (off + t)]);
        assert(s.subrange(i + off, i + off + p.len())[t] == s[(i + off) + t]);
    }
    assert(s.subrange(i + off, i + off + p.len()) =~= p);
}

/// The escaped body of a string plus its closing quote reads back as the
/// original bytes appended to the accumulator.
pub proof fn lemma_dec_str_body_complete(s: Seq<u8>, i: int, w: Seq<u8>, acc: Seq<u8>)
    requires
        0 <= i,
        i + esc(w).len() + 1 <= s.len(),
        s.subrange(i, i + esc(w).len() + 1) == esc(w) + seq![34u8],
    ensures
        dec_str_body(s, i, acc) == Some((acc + w, i + esc(w).len() + 1)),
    decreases w.len(),
{
    let body = esc(w) + seq![34u8];
    if w.len() == 0 {
        assert(esc(w).len() == 0);
        assert(s.subrange(i, i + 1)[0] == s[i]);
        assert(body[0] == 34u8);
        assert(s[i] == 34u8);
        assert(acc + w =~= acc);
    } else {
        let c = w[0];
        let wr = w.drop_first();
        assert(esc(w) == esc_byte(c) + esc(wr));
        let eb = esc_byte(c);
        assert(forall|t: int| 0 <= t < body.len() ==> s.subrange(i, i + body.len())[t] == #[trigger] s[i + t]);
        if c == 34 || c == 92 {
            assert(eb == seq![92u8, c]);
            assert(body[0] == 92u8);
            assert(s.subrange(i, i + body.len())[0] == s[i + 0]);
            assert(s[i] == 92u8);
            assert(body[1] == c);
            assert(s.subrange(i, i + body.len())[1] == s[i + 1]);
            assert(s[i + 1] == c);
            assert forall|t: int| 0 <= t < esc(wr).len() + 1 implies s.subrange(
                i + 2,
                i + 2 + esc(wr).len() + 1,
            )[t] == (esc(wr) + seq![34u8])[t] by {
                assert(s.subrange(i, i + body.len())[t + 2] == s[i + (t + 2)]);
                assert(s.subrange(i + 2, i + 2 + esc(wr).len() + 1)[t] == s[(i + 2) + t]);
                assert(body[t + 2] == (esc(wr) + seq![34u8])[t]);
            }
            assert(s.subrange(i + 2, i + 2 + esc(wr).len() + 1) =~= esc(wr) + seq![34u8]);
            lemma_dec_str_body_complete(s, i + 2, wr, acc.push(c));
            assert(acc.push(c) + wr =~= acc + w);
        } else {
            assert(eb == seq![c]);
            assert(body[0] == c);
            assert(s.subrange(i, i + body.len())[0] == s[i + 0]);
            assert(s[i] == c);
            assert forall|t: int| 0 <= t < esc(wr).len() + 1 implies s.subrange(
                i + 1,
                i + 1 + esc(wr).len() + 1,
            )[t] == (esc(wr) + seq![34u8])[t] by {
                assert(s.subrange(i, i + body.len())[t + 1] == s[i + (t + 1)]);
                assert(s.subrange(i + 1, i + 1 + esc(wr).len() + 1)[t] == s[(i + 1) + t]);
                assert(body[t + 1] == (esc(wr) + seq![34u8])[t]);
            }
            assert(s.subrange(i + 1, i + 1 + esc(wr).len() + 1) =~= esc(wr) + seq![34u8]);
            lemma_dec_str_body_complete(s, i + 1, wr, acc.push(c));
            assert(acc.push(c) + wr =~= acc + w);
        }
    }
}

/// A whole encoded string reads back as the original bytes.
pub proof fn lemma_dec_str_complete(s: Seq<u8>, i: int, w: Seq<u8>)
    requires
        0 <= i,
        i + enc_str(w).len() <= s.len(),
        s.subrange(i, i + enc_str(w).len()) == enc_str(w),
    ensures
        dec_str(s, i) == Some((w, i + enc_str(w).len())),
{
    let e = enc_str(w);
    assert(e == seq![34u8] + esc(w) + seq![34u8]);
    assert(s.subrange(i, i + e.len())[0] == s[i + 0]);
    assert(e[0] == 34u8);
    assert(s[i] == 34u8);
    assert forall|t: int| 0 <= t < esc(w).len() + 1 implies s.subrange(
        i + 1,
        i + 1 + esc(w).len() + 1,
    )[t] == (esc(w) + seq![34u8])[t] by {
        assert(s.subrange(i, i + e.len())[t + 1] == s[i + (t + 1)]);
        assert(s.subrange(i + 1, i + 1 + esc(w).len() + 1)[t] == s[(i + 1) + t]);
        assert(e[t + 1] == (esc(w) + seq![34u8])[t]);
    }
    assert(s.subrange(i + 1, i + 1 + esc(w).len() + 1) =~= esc(w) + seq![34u8]);
    lemma_dec_str_body_complete(s, i + 1, w, Seq::empty());
    assert(Seq::<u8>::empty() + w =~= w);
}

/// The record value is representable in the machine column types.
pub open spec fn row_fits(r: InsightView) -> bool {
    &&& -2147483648 <= r.id <= 2147483647
    &&& 0 <= r.total_count <= u32::MAX as int
    &&& 0 <= r.positive_count <= u32::MAX as int
    &&& 0 <= r.negative_count <= u32::MAX as int
    &&& 0 <= r.neutral_count <= u32::MAX as int
    &&& 0 <= r.positive_pct <= u32::MAX as int
    &&& 0 <= r.negative_pct <= u32::MAX as int
    &&& 0 <= r.neutral_pct <= u32::MAX as int
}

pub open spec fn rows_fit(rs: Seq<InsightView>) -> bool {
    forall|t: int| 0 <= t < rs.len() ==> row_fits(#[trigger] rs[t])
}

/// Reading back one encoded record.
#[verifier::rlimit(60)]
pub proof fn lemma_dec_row_rest_complete(s: Seq<u8>, i: int, rv: InsightView)
    requires
        row_fits(rv),
        0 <= i,
        i + enc_row_rest(rv).len() <= s.len(),
        s.subrange(i, i + enc_row_rest(rv).len()) == enc_row_rest(rv),
    ensures
        dec_row_rest(s, i, rv.id, rv.word, rv.total_count, rv.positive_count, rv.negative_count) == Some((rv, i + enc_row_rest(rv).len())),
{
    reveal_strlit(",\"neutral_count\":");
    reveal_strlit(",\"positive_pct\":");
    reveal_strlit(",\"negative_pct\":");
    reveal_strlit(",\"neutral_pct\":");
    reveal_strlit(",\"created_at\":");
    let full = enc_row_rest(rv);
    let q1 = ascii_seq(",\"neutral_count\":"@);
    let q2 = digits(rv.neutral_count);
    let q3 = ascii_seq(",\"positive_pct\":"@);
    let q4 = enc_pct(rv.positive_pct);
    let q5 = ascii_seq(",\"negative_pct\":"@);
    let q6 = enc_pct(rv.negative_pct);
    let q7 = ascii_seq(",\"neutral_pct\":"@);
    let q8 = enc_pct(rv.neutral_pct);
    let q9 = ascii_seq(",\"created_at\":"@);
    let q10 = enc_str(rv.created_at);
    let q11 = seq![125u8];
    let o1: int = 0;
    let o2: int = o1 + q1.len();
    let o3: int = o2 + q2.len();
    let o4: int = o3 + q3.len();
    let o5: int = o4 + q4.len();
    let o6: int = o5 + q5.len();
    let o7: int = o6 + q6.len();
    let o8: int = o7 + q7.len();
    let o9: int = o8 + q8.len();
    let o10: int = o9 + q9.len();
    let o11: int = o10 + q10.len();
    let a1 = q1;
    let a2 = q1 + q2;
    let a3 = q1 + q2 + q3;
    let a4 = q1 + q2 + q3 + q4;
    let a5 = q1 + q2 + q3 + q4 + q5;
    let a6 = q1 + q2 + q3 + q4 + q5 + q6;
    let a7 = q1 + q2 + q3 + q4 + q5 + q6 + q7;
    let a8 = q1 + q2 + q3 + q4 + q5 + q6 + q7 + q8;
    let a9 = q1 + q2 + q3 + q4 + q5 + q6 + q7 + q8 + q9;
    let a10 = q1 + q2 + q3 + q4 + q5 + q6 + q7 + q8 + q9 + q10;
    assert(full == a10 + q11);
    lemma_split(s, i, a10, q11);
    assert(s.subrange(i, i + a10.len()) == a9 + q10);
    lemma_split(s, i, a9, q10);
    assert(s.subrange(i, i + a9.len()) == a8 + q9);
    lemma_split(s, i, a8, q9);
    assert(s.subrange(i, i + a8.len()) == a7 + q8);
    lemma_split(s, i, a7, q8);
    assert(s.subrange(i, i + a7.len()) == a6 + q7);
    lemma_split(s, i, a6, q7);
    assert(s.subrange(i, i + a6.len()) == a5 + q6);
    lemma_split(s, i, a5, q6);
    assert(s.subrange(i, i + a5.len()) == a4 + q5);
    lemma_split(s, i, a4, q5);
    assert(s.subrange(i, i + a4.len()) == a3 + q4);
    lemma_split(s, i, a3, q4);
    assert(s.subrange(i, i + a3.len()) == a2 + q3);
    lemma_split(s, i, a2, q3);
    assert(s.subrange(i, i + a2.len()) == a1 + q2);
    lemma_split(s, i, a1, q2);
    assert(s.subrange(i + o1, i + o1 + q1.len()) == q1);
    assert(s.subrange(i + o2, i + o2 + q2.len()) == q2);
    assert(s.subrange(i + o3, i + o3 + q3.len()) == q3);
    assert(s.subrange(i + o4, i + o4 + q4.len()) == q4);
    assert(s.subrange(i + o5, i + o5 + q5.len()) == q5);
    assert(s.subrange(i + o6, i + o6 + q6.len()) == q6);
    assert(s.subrange(i + o7, i + o7 + q7.len()) == q7);
    assert(s.subrange(i + o8, i + o8 + q8.len()) == q8);
    assert(s.subrange(i + o9, i + o9 + q9.len()) == q9);
    assert(s.subrange(i + o10, i + o10 + q10.len()) == q10);
    assert(s.subrange(i + o11, i + o11 + q11.len()) == q11);
    assert(s.subrange(i + o3, i + o3 + q3.len())[0] == s[(i + o3) + 0]);
    assert(q3[0] == 44u8);
    assert(s[i + o3] == 44u8);
    assert(!is_digit(s[i + o3]));
    lemma_dec_u32_complete(s, i + o2, rv.neutral_count);
    lemma_dec_pct_complete(s, i + o4, rv.positive_pct);
    lemma_dec_pct_complete(s, i + o6, rv.negative_pct);
    lemma_dec_pct_complete(s, i + o8, rv.neutral_pct);
    lemma_dec_str_complete(s, i + o10, rv.created_at);
    assert(s.subrange(i + o11, i + o11 + q11.len())[0] == s[(i + o11) + 0]);
    assert(s[i + o11] == 125u8);
    assert(i + o11 < s.len());
    assert(dec_row_rest(s, i, rv.id, rv.word, rv.total_count, rv.positive_count, rv.negative_count)
        == Some((rv, i + full.len())));
}

/// Reading back one encoded record, front half and all.
#[verifier::rlimit(60)]
pub proof fn lemma_dec_row_complete(s: Seq<u8>, i: int, rv: InsightView)
    requires
        row_fits(rv),
        0 <= i,
        i + enc_row(rv).len() <= s.len(),
        s.subrange(i, i + enc_row(rv).len()) == enc_row(rv),
    ensures
        dec_row(s, i) == Some((rv, i + enc_row(rv).len())),
{
    reveal_strlit("{\"id\":");
    reveal_strlit(",\"word\":");
    reveal_strlit(",\"total_count\":");
    reveal_strlit(",\"positive_count\":");
    reveal_strlit(",\"negative_count\":");
    reveal_strlit(",\"neutral_count\":");
    let full = enc_row(rv);
    let q1 = ascii_seq("{\"id\":"@);
    let q2 = enc_i32(rv.id);
    let q3 = ascii_seq(",\"word\":"@);
    let q4 = enc_str(rv.word);
    let q5 = ascii_seq(",\"total_count\":"@);
    let q6 = digits(rv.total_count);
    let q7 = ascii_seq(",\"positive_count\":"@);
    let q8 = digits(rv.positive_count);
    let q9 = ascii_seq(",\"negative_count\":"@);
    let q10 = digits(rv.negative_count);
    let o1: int = 0;
    let o2: int = o1 + q1.len();
    let o3: int = o2 + q2.len();
    let o4: int = o3 + q3.len();
    let o5: int = o4 + q4.len();
    let o6: int = o5 + q5.len();
    let o7: int = o6 + q6.len();
    let o8: int = o7 + q7.len();
    let o9: int = o8 + q8.len();
    let o10: int = o9 + q9.len();
    let a1 = q1;
    let a2 = q1 + q2;
    let a3 = q1 + q2 + q3;
    let a4 = q1 + q2 + q3 + q4;
    let a5 = q1 + q2 + q3 + q4 + q5;
    let a6 = q1 + q2 + q3 + q4 + q5 + q6;
    let a7 = q1 + q2 + q3 + q4 + q5 + q6 + q7;
    let a8 = q1 + q2 + q3 + q4 + q5 + q6 + q7 + q8;
    let a9 = q1 + q2 + q3 + q4 + q5 + q6 + q7 + q8 + q9;
    assert(full == enc_row_head(rv) + enc_row_rest(rv));
    lemma_split(s, i, enc_row_head(rv), enc_row_rest(rv));
    assert(s.subrange(i, i + enc_row_head(rv).len()) == a9 + q10);
    lemma_split(s, i, a9, q10);
    assert(s.subrange(i, i + a9.len()) == a8 + q9);
    lemma_split(s, i, a8, q9);
    assert(s.subrange(i, i + a8.len()) == a7 + q8);
    lemma_split(s, i, a7, q8);
    assert(s.subrange(i, i + a7.len()) == a6 + q7);
    lemma_split(s, i, a6, q7);
    assert(s.subrange(i, i + a6.len()) == a5 + q6);
    lemma_split(s, i, a5, q6);
    assert(s.subrange(i, i + a5.len()) == a4 + q5);
    lemma_split(s, i, a4, q5);
    assert(s.subrange(i, i + a4.len()) == a3 + q4);
    lemma_split(s, i, a3, q4);
    assert(s.subrange(i, i + a3.len()) == a2 + q3);
    lemma_split(s, i, a2, q3);
    assert(s.subrange(i, i + a2.len()) == a1 + q2);
    lemma_split(s, i, a1, q2);
    assert(s.subrange(i + o1, i + o1 + q1.len()) == q1);
    assert(s.subrange(i + o2, i + o2 + q2.len()) == q2);
    assert(s.subrange(i + o3, i + o3 + q3.len()) == q3);
    assert(s.subrange(i + o4, i + o4 + q4.len()) == q4);
    assert(s.subrange(i + o5, i + o5 + q5.len()) == q5);
    assert(s.subrange(i + o6, i + o6 + q6.len()) == q6);
    assert(s.subrange(i + o7, i + o7 + q7.len()) == q7);
    assert(s.subrange(i + o8, i + o8 + q8.len()) == q8);
    assert(s.subrange(i + o9, i + o9 + q9.len()) == q9);
    assert(s.subrange(i + o10, i + o10 + q10.len()) == q10);
    assert(s.subrange(i + o3, i + o3 + q3.len())[0] == s[(i + o3) + 0]);
    assert(q3[0] == 44u8);
    assert(s[i + o3] == 44u8);
    assert(!is_digit(s[i + o3]));
    assert(s.subrange(i + o7, i + o7 + q7.len())[0] == s[(i + o7) + 0]);
    assert(q7[0] == 44u8);
    assert(s[i + o7] == 44u8);
    assert(!is_digit(s[i + o7]));
    assert(s.subrange(i + o9, i + o9 + q9.len())[0] == s[(i + o9) + 0]);
    assert(q9[0] == 44u8);
    assert(s[i + o9] == 44u8);
    assert(!is_digit(s[i + o9]));
    lemma_dec_i32_complete(s, i + o2, rv.id);
    lemma_dec_str_complete(s, i + o4, rv.word);
    lemma_dec_u32_complete(s, i + o6, rv.total_count);
    lemma_dec_u32_complete(s, i + o8, rv.positive_count);
    let rest = enc_row_rest(rv);
    let oR: int = o10 + q10.len();
    assert(s.subrange(i + oR, i + oR + rest.len()) == rest);
    assert(s.subrange(i + oR, i + oR + rest.len())[0] == s[(i + oR) + 0]);
    assert(rest[0] == 44u8);
    assert(s[i + oR] == 44u8);
    assert(!is_digit(s[i + oR]));
    lemma_dec_u32_complete(s, i + o10, rv.negative_count);
    lemma_dec_row_rest_complete(s, i + oR, rv);
    assert(dec_row(s, i) == Some((rv, i + full.len())));
}

/// Reading back one or more encoded rows followed by the closing bracket.
#[verifier::rlimit(60)]
pub proof fn lemma_dec_rows_tail_complete(s: Seq<u8>, i: int, rs: Seq<InsightView>, acc: Seq<
    InsightView,
>)
    requires
        rs.len() >= 1,
        rows_fit(rs),
        0 <= i,
        i + enc_rows_inner(rs).len() + 1 <= s.len(),
        s.subrange(i, i + enc_rows_inner(rs).len() + 1) == enc_rows_inner(rs) + seq![93u8],
    ensures
        dec_rows_tail(s, i, acc) == Some((acc + rs, i + enc_rows_inner(rs).len() + 1)),
    decreases rs.len(),
{
    let r0 = rs[0];
    assert(row_fits(r0));
    let er = enc_row(r0);
    let inner = enc_rows_inner(rs);
    assert(er.len() >= 1);
    if rs.len() == 1 {
        assert(inner == er);
        lemma_split(s, i, er, seq![93u8]);
        lemma_dec_row_complete(s, i, r0);
        let j = i + er.len();
        assert(s.subrange(j, j + 1)[0] == s[j + 0]);
        assert(s[j] == 93u8);
        assert(dec_rows_tail(s, i, acc) == Some((acc.push(r0), j + 1)));
        assert(acc.push(r0) =~= acc + rs);
    } else {
        let rr = rs.drop_first();
        let innerR = enc_rows_inner(rr);
        assert(inner == er + seq![44u8] + innerR);
        lemma_split(s, i, inner, seq![93u8]);
        assert(s.subrange(i, i + inner.len()) == (er + seq![44u8]) + innerR);
        lemma_split(s, i, er + seq![44u8], innerR);
        assert(s.subrange(i, i + (er + seq![44u8]).len()) == er + seq![44u8]);
        lemma_split(s, i, er, seq![44u8]);
        lemma_dec_row_complete(s, i, r0);
        let j = i + er.len();
        assert(s.subrange(j, j + 1)[0] == s[j + 0]);
        assert(s[j] == 44u8);
        assert forall|t: int| 0 <= t < innerR.len() + 1 implies s.subrange(
            j + 1,
            j + 1 + innerR.len() + 1,
        )[t] == (innerR + seq![93u8])[t] by {
            assert(s.subrange(j + 1, j + 1 + innerR.len() + 1)[t] == s[(j + 1) + t]);
            if t < innerR.len() {
                assert(s.subrange(i + (er + seq![44u8]).len(), i + inner.len())[t] == s[(i + (er
                    + seq![44u8]).len()) + t]);
            } else {
                assert(s.subrange(i + inner.len(), i + inner.len() + 1)[0] == s[(i + inner.len())
                    + 0]);
            }
        }
        assert(s.subrange(j + 1, j + 1 + innerR.len() + 1) =~= innerR + seq![93u8]);
        assert(rows_fit(rr)) by {
            assert(forall|t: int| 0 <= t < rr.len() ==> rr[t] == #[trigger] rs[t + 1]);
        }
        lemma_dec_rows_tail_complete(s, j + 1, rr, acc.push(r0));
        assert(acc.push(r0) + rr =~= acc + rs);
        assert(j + 1 + innerR.len() + 1 == i + inner.len() + 1);
    }
}

/// Reading back an encoded row list.
pub proof fn lemma_dec_rows_complete(s: Seq<u8>, i: int, rs: Seq<InsightView>)
    requires
        rows_fit(rs),
        0 <= i,
        i + enc_rows_inner(rs).len() + 1 <= s.len(),
        s.subrange(i, i + enc_rows_inner(rs).len() + 1) == enc_rows_inner(rs) + seq![93u8],
    ensures
        dec_rows(s, i) == Some((rs, i + enc_rows_inner(rs).len() + 1)),
{
    let inner = enc_rows_inner(rs);
    let full = inner + seq![93u8];
    if rs.len() == 0 {
        assert(inner.len() == 0);
        assert(s.subrange(i, i + full.len())[0] == s[i + 0]);
        assert(full[0] == 93u8);
        assert(s[i] == 93u8);
        assert(Seq::<InsightView>::empty() =~= rs);
    } else {
        reveal_strlit("{\"id\":");
        let er = enc_row(rs[0]);
        assert(er == enc_row_head(rs[0]) + enc_row_rest(rs[0]));
        assert(er[0] == 123u8);
        assert(inner[0] == er[0]);
        assert(s.subrange(i, i + full.len())[0] == s[i + 0]);
        assert(full[0] == inner[0]);
        assert(s[i] == 123u8);
        lemma_dec_rows_tail_complete(s, i, rs, Seq::empty());
        assert(Seq::<InsightView>::empty() + rs =~= rs);
    }
}

/// Reading back an encoded boolean.
pub proof fn lemma_dec_bool_complete(s: Seq<u8>, i: int, bv: bool)
    requires
        0 <= i,
        i + enc_bool(bv).len() <= s.len(),
        s.subrange(i, i + enc_bool(bv).len()) == enc_bool(bv),
    ensures
        dec_bool(s, i) == Some((bv, i + enc_bool(bv).len())),
{
    reveal_strlit("true");
    reveal_strlit("false");
    if bv {
        assert(enc_bool(bv) == ascii_seq("true"@));
        assert(dec_lit(s, i, ascii_seq("true"@)) == Some(i + 4));
    } else {
        assert(enc_bool(bv) == ascii_seq("false"@));
        assert(s.subrange(i, i + 5)[0] == s[i + 0]);
        assert(s[i] == 102u8);
        if i + 4 <= s.len() {
            assert(s.subrange(i, i + 4)[0] == s[i + 0]);
            assert(s.subrange(i, i + 4) != ascii_seq("true"@)) by {
                assert(ascii_seq("true"@)[0] == 116u8);
                assert(s.subrange(i, i + 4)[0] == 102u8);
            }
        }
        assert(dec_lit(s, i, ascii_seq("true"@)) is None);
        assert(dec_lit(s, i, ascii_seq("false"@)) == Some(i + 5));
    }
}

/// Decoding inverts encoding: a law of the wire format. Every envelope,
/// whatever its rows and message hold, comes back field for field and in
/// the same row order.
#[verifier::rlimit(60)]
pub proof fn lemma_dec_resp_complete(v: RespView)
    requires
        rows_fit(v.rows),
    ensures
        dec_resp(enc_resp(v)) == Some(v),
{
    reveal_strlit("{\"success\":");
    reveal_strlit(",\"data\":[");
    reveal_strlit(",\"message\":");
    let s = enc_resp(v);
    let k1 = ascii_seq("{\"success\":"@);
    let b = enc_bool(v.success);
    let k2 = ascii_seq(",\"data\":["@);
    let inner = enc_rows_inner(v.rows);
    let k3 = ascii_seq(",\"message\":"@);
    let m = enc_str(v.message);
    let o1: int = 0;
    let o2: int = o1 + k1.len();
    let o3: int = o2 + b.len();
    let o4: int = o3 + k2.len();
    let o5: int = o4 + inner.len() + 1;
    let o6: int = o5 + k3.len();
    let o7: int = o6 + m.len();
    assert(s.len() == o7 + 1);
    assert(s.subrange(0, s.len() as int) =~= s);
    let a6 = k1 + b + k2 + inner + seq![93u8] + k3 + m;
    let a5 = k1 + b + k2 + inner + seq![93u8] + k3;
    let a4 = k1 + b + k2 + inner + seq![93u8];
    let a3 = k1 + b + k2 + inner;
    let a2 = k1 + b + k2;
    let a1 = k1 + b;
    assert(s == a6 + seq![125u8]);
    lemma_split(s, 0, a6, seq![125u8]);
    lemma_split(s, 0, a5, m);
    lemma_split(s, 0, a4, k3);
    lemma_split(s, 0, a3, seq![93u8]);
    lemma_split(s, 0, a2, inner);
    lemma_split(s, 0, a1, k2);
    lemma_split(s, 0, k1, b);
    assert forall|t: int| 0 <= t < inner.len() + 1 implies s.subrange(o4, o4 + inner.len() + 1)[t]
        == (inner + seq![93u8])[t] by {
        assert(s.subrange(o4, o4 + inner.len() + 1)[t] == s[o4 + t]);
        if t < inner.len() {
            assert(s.subrange(o4, o4 + inner.len())[t] == s[o4 + t]);
        } else {
            assert(s.subrange(o4 + inner.len(), o5)[0] == s[(o4 + inner.len()) + 0]);
        }
    }
    assert(s.subrange(o4, o4 + inner.len() + 1) =~= inner + seq![93u8]);
    assert(dec_lit(s, 0, k1) == Some(o2));
    lemma_dec_bool_complete(s, o2, v.success);
    assert(dec_bool(s, o2) == Some((v.success, o3)));
    assert(dec_lit(s, o3, k2) == Some(o4));
    lemma_dec_rows_complete(s, o4, v.rows);
    assert(dec_rows(s, o4) == Some((v.rows, o5)));
    assert(dec_lit(s, o5, k3) == Some(o6));
    lemma_dec_str_complete(s, o6, v.message);
    assert(dec_str(s, o6) == Some((v.message, o7)));
    assert(s.subrange(o7, o7 + 1)[0] == s[o7 + 0]);
    assert(s[o7] == 125u8);
    assert(o7 + 1 == s.len());
    assert(dec_resp(s) == Some(RespView { success: v.success, rows: v.rows, message: v.message }));
    assert(RespView { success: v.success, rows: v.rows, message: v.message } =~= v);
}

/// Round trip: encoding an envelope and decoding the bytes gives back the
/// very same value, for every envelope the library can hold.
pub proof fn lemma_codec_round_trip(r: &ApiResponse<Vec<InsightSummary>>)
    ensures
        dec_resp(enc_resp(resp_view(r))) == Some(resp_view(r)),
{
    assert(rows_fit(resp_view(r).rows)) by {
        assert(forall|t: int|
            0 <= t < r.data@.len() ==> views(r.data@)[t] == #[trigger] r.data@[t]@);
    }
    lemma_dec_resp_complete(resp_view(r));
}

} // verus!

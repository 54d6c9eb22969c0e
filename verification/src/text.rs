use vstd::prelude::*;

verus! {

use vstd::string::StrSliceExecFns;

/// The bytes of a sequence of ASCII characters, one byte per character.
pub open spec fn ascii_seq(s: Seq<char>) -> Seq<u8> {
    Seq::new(s.len(), |i: int| s[i] as u8)
}

/// Bytes of an ASCII string literal, with the view pinned down.
pub(crate) fn lit_bytes(s: &str) -> (v: Vec<u8>)
    requires
        vstd::string::is_ascii(s),
    ensures
        v@ == ascii_seq(s@),
{
    let v = s.as_bytes_vec();
    proof {
        vstd::string::is_ascii_spec_bytes(s);
        assert(v@ =~= ascii_seq(s@));
    }
    v
}

/// An element-for-element copy of a byte vector.
pub(crate) fn copy_bytes(v: &Vec<u8>) -> (r: Vec<u8>)
    ensures
        r@ == v@,
{
    let mut r: Vec<u8> = Vec::new();
    let mut i: usize = 0;
    while i < v.len()
        invariant
            i <= v.len(),
            r@ == v@.subrange(0, i as int),
        decreases v.len() - i,
    {
        r.push(v[i]);
        i = i + 1;
        proof {
            assert(r@ =~= v@.subrange(0, i as int));
        }
    }
    proof {
        assert(v@.subrange(0, v@.len() as int) =~= v@);
    }
    r
}

/// Appends every byte of `src` to `dst`.
pub(crate) fn append_bytes(dst: &mut Vec<u8>, src: &Vec<u8>)
    ensures
        final(dst)@ == old(dst)@ + src@,
{
    let mut i: usize = 0;
    while i < src.len()
        invariant
            i <= src.len(),
            dst@ == old(dst)@ + src@.subrange(0, i as int),
        decreases src.len() - i,
    {
        dst.push(src[i]);
        i = i + 1;
        proof {
            assert(old(dst)@ + src@.subrange(0, i - 1) + seq![src@[i - 1]] =~= old(dst)@
                + src@.subrange(0, i as int));
        }
    }
    proof {
        assert(old(dst)@ + src@.subrange(0, src@.len() as int) =~= old(dst)@ + src@);
    }
}

/// Whether `needle` occurs as a contiguous run of bytes anywhere inside `hay`.
pub open spec fn is_substring_of(needle: Seq<u8>, hay: Seq<u8>) -> bool {
    exists|k: int|
        0 <= k && k + needle.len() <= hay.len() && #[trigger] hay.subrange(k, k + needle.len())
            == needle
}

/// An ASCII capital letter folded to its small form; every other byte is
/// itself. This is the case folding the store's pattern matching applies.
pub open spec fn lower_byte(b: u8) -> u8 {
    if 65 <= b <= 90 {
        (b + 32) as u8
    } else {
        b
    }
}

/// A byte string with every ASCII capital folded.
pub open spec fn lower_seq(s: Seq<u8>) -> Seq<u8> {
    s.map_values(|b: u8| lower_byte(b))
}

/// Exec mirror of [`lower_byte`].
fn lower_exec(b: u8) -> (r: u8)
    ensures
        r == lower_byte(b),
{
    if 65 <= b && b <= 90 {
        b + 32
    } else {
        b
    }
}

/// Substring scan over byte vectors, blind to ASCII case.
pub(crate) fn contains_bytes(hay: &Vec<u8>, needle: &Vec<u8>) -> (r: bool)
    ensures
        r == is_substring_of(lower_seq(needle@), lower_seq(hay@)),
{
    let ghost lh = lower_seq(hay@);
    let ghost ln = lower_seq(needle@);
    let n = needle.len();
    let h = hay.len();
    if n == 0 {
        proof {
            assert(lh.subrange(0, 0 + ln.len() as int) =~= ln);
        }
        return true;
    }
    if n > h {
        proof {
            assert(!is_substring_of(ln, lh));
        }
        return false;
    }
    let mut k: usize = 0;
    while k <= h - n
        invariant
            lh == lower_seq(hay@),
            ln == lower_seq(needle@),
            n == needle@.len(),
            h == hay@.len(),
            1 <= n <= h,
            k <= h - n + 1,
            forall|k2: int| 0 <= k2 < k ==> #[trigger] lh.subrange(k2, k2 + ln.len()) != ln,
        decreases h - n - k + 1,
    {
        let mut j: usize = 0;
        let mut mismatch = false;
        while j < n
            invariant
                lh == lower_seq(hay@),
                ln == lower_seq(needle@),
                n == needle@.len(),
                h == hay@.len(),
                k + n <= h,
                j <= n,
                !mismatch ==> forall|j2: int| 0 <= j2 < j ==> lh[k + j2] == #[trigger] ln[j2],
                mismatch ==> lh.subrange(k as int, k + ln.len()) != ln,
            decreases n - j,
        {
            if lower_exec(hay[k + j]) != lower_exec(needle[j]) {
                proof {
                    assert(lh.subrange(k as int, k + ln.len())[j as int] == lh[k + j]);
                }
                mismatch = true;
                j = n;
            } else {
                j = j + 1;
            }
        }
        if !mismatch {
            proof {
                assert(lh.subrange(k as int, k + ln.len()) =~= ln);
            }
            return true;
        }
        k = k + 1;
    }
    proof {
        assert forall|k2: int| 0 <= k2 && k2 + ln.len() <= lh.len() implies #[trigger] lh.subrange(
            k2,
            k2 + ln.len(),
        ) != ln by {
            assert(k2 < k);
        }
    }
    false
}

} // verus!

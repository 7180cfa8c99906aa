//! Small verified helpers on byte strings.
//!
//! All daemon-facing text (configuration lines, JSON, paths, identifiers) is
//! handled as raw bytes throughout the crate, so equality, trimming and
//! decimal conversion are provided here once.

use vstd::prelude::*;
use vstd::string::StrSliceExecFns;

verus! {

/// The bytes of an ASCII character sequence.
pub open spec fn ascii_bytes(s: Seq<char>) -> Seq<u8> {
    Seq::new(s.len(), |i: int| s[i] as u8)
}

/// The UTF-8 bytes of an ASCII string.  Used to bring string literals (the
/// configuration keywords, the JSON member names) into byte form.
pub fn str_bytes(s: &str) -> (r: Vec<u8>)
    requires
        s.is_ascii(),
    ensures
        r@ == ascii_bytes(s@),
{
    proof {
        vstd::string::is_ascii_spec_bytes(s);
    }
    let r = s.as_bytes_vec();
    assert(r@ =~= ascii_bytes(s@));
    r
}

/// ASCII space, tab, carriage return or line feed.
pub open spec fn is_ws(c: u8) -> bool {
    c == 32 || c == 9 || c == 13 || c == 10
}

/// Exec mirror of [`is_ws`].
pub fn ws_byte(c: u8) -> (r: bool)
    ensures
        r == is_ws(c),
{
    c == 32 || c == 9 || c == 13 || c == 10
}

/// `s` with leading and trailing ASCII whitespace removed.
pub open spec fn spec_trim(s: Seq<u8>) -> Seq<u8>
    decreases s.len(),
{
    if s.len() == 0 {
        s
    } else if is_ws(s[0]) {
        spec_trim(s.subrange(1, s.len() as int))
    } else if is_ws(s[s.len() - 1]) {
        spec_trim(s.subrange(0, s.len() - 1))
    } else {
        s
    }
}

/// For byte vectors the deep view is the plain view.
pub broadcast proof fn lemma_bytes_deep_view(v: Vec<u8>)
    ensures
        #[trigger] v.deep_view() == v@,
{
    assert(v.deep_view() =~= v@);
}

/// Appending one byte string to a list appends its bytes to the deep view.
pub proof fn lemma_deep_view_push(v: Vec<Vec<u8>>, before: Seq<Seq<u8>>, prior: Seq<Vec<u8>>, x: Vec<u8>)
    requires
        v@ == prior.push(x),
        before.len() == prior.len(),
        forall|k: int| 0 <= k < prior.len() ==> #[trigger] prior[k].deep_view() == before[k],
    ensures
        v.deep_view() == before.push(x@),
{
    broadcast use lemma_bytes_deep_view;

    assert forall|k: int| 0 <= k < v.deep_view().len() implies v.deep_view()[k] == before.push(
        x@,
    )[k] by {
        if k < before.len() {
            assert(v@[k] == prior[k]);
        } else {
            assert(v@[k] == x);
        }
    }
    assert(v.deep_view() =~= before.push(x@));
}

/// Byte-string equality.
pub fn bytes_eq(a: &[u8], b: &[u8]) -> (r: bool)
    ensures
        r == (a@ == b@),
{
    if a.len() != b.len() {
        assert(a@ != b@);
        return false;
    }
    let mut i: usize = 0;
    while i < a.len()
        invariant
            i <= a.len(),
            a@.len() == b@.len(),
            forall|j: int| 0 <= j < i ==> a@[j] == b@[j],
        decreases a.len() - i,
    {
        if a[i] != b[i] {
            assert(a@ != b@);
            return false;
        }
        i += 1;
    }
    assert(a@ =~= b@);
    true
}

/// Copy of a byte slice as an owned vector.
pub fn bytes_of(s: &[u8]) -> (r: Vec<u8>)
    ensures
        r@ == s@,
{
    let mut out: Vec<u8> = Vec::new();
    let mut i: usize = 0;
    while i < s.len()
        invariant
            i <= s.len(),
            out@ == s@.subrange(0, i as int),
        decreases s.len() - i,
    {
        out.push(s[i]);
        assert(out@ =~= s@.subrange(0, i + 1 as int));
        i += 1;
    }
    assert(out@ =~= s@);
    out
}

/// `s` with leading and trailing ASCII whitespace removed.
pub fn trim(s: &[u8]) -> (r: Vec<u8>)
    ensures
        r@ == spec_trim(s@),
{
    let mut lo: usize = 0;
    let mut hi: usize = s.len();
    assert(s@.subrange(0, s@.len() as int) =~= s@);
    while lo < hi && ws_byte(s[lo])
        invariant
            lo <= hi <= s.len(),
            spec_trim(s@) == spec_trim(s@.subrange(lo as int, hi as int)),
        decreases hi - lo,
    {
        proof {
            lemma_trim_step_front(s@.subrange(lo as int, hi as int));
            assert(s@.subrange(lo as int, hi as int).subrange(
                1,
                (hi - lo) as int,
            ) =~= s@.subrange(lo + 1 as int, hi as int));
        }
        lo += 1;
    }
    while lo < hi && ws_byte(s[hi - 1])
        invariant
            lo <= hi <= s.len(),
            spec_trim(s@) == spec_trim(s@.subrange(lo as int, hi as int)),
            lo < hi ==> !is_ws(s@[lo as int]),
        decreases hi - lo,
    {
        proof {
            lemma_trim_step_back(s@.subrange(lo as int, hi as int));
            assert(s@.subrange(lo as int, hi as int).subrange(
                0,
                (hi - lo - 1) as int,
            ) =~= s@.subrange(lo as int, (hi - 1) as int));
        }
        hi -= 1;
    }
    proof {
        lemma_trim_fixed(s@.subrange(lo as int, hi as int));
    }
    let mut out: Vec<u8> = Vec::new();
    let mut i: usize = lo;
    while i < hi
        invariant
            lo <= i <= hi <= s.len(),
            out@ == s@.subrange(lo as int, i as int),
        decreases hi - i,
    {
        out.push(s[i]);
        assert(out@ =~= s@.subrange(lo as int, i + 1 as int));
        i += 1;
    }
    assert(out@ =~= s@.subrange(lo as int, hi as int));
    out
}

/// Copy of the byte range `[from, to)` of a slice.
pub fn bytes_range(s: &[u8], from: usize, to: usize) -> (r: Vec<u8>)
    requires
        from <= to <= s@.len(),
    ensures
        r@ == s@.subrange(from as int, to as int),
{
    let mut out: Vec<u8> = Vec::new();
    let mut i: usize = from;
    while i < to
        invariant
            from <= i <= to <= s@.len(),
            out@ == s@.subrange(from as int, i as int),
        decreases to - i,
    {
        out.push(s[i]);
        assert(out@ =~= s@.subrange(from as int, i + 1 as int));
        i += 1;
    }
    out
}

/// Append a byte slice to a vector.
pub fn push_all(dst: &mut Vec<u8>, src: &[u8])
    ensures
        final(dst)@ == old(dst)@ + src@,
{
    let mut i: usize = 0;
    while i < src.len()
        invariant
            i <= src.len(),
            dst@ == old(dst)@ + src@.subrange(0, i as int),
        decreases src.len() - i,
    {
        dst.push(src[i]);
        assert(dst@ =~= old(dst)@ + src@.subrange(0, i + 1 as int));
        i += 1;
    }
    assert(dst@ =~= old(dst)@ + src@);
}

/// The first index at or after `i` where byte `c` occurs, or the length of
/// `s` when it does not.
pub open spec fn scan(s: Seq<u8>, c: u8, i: int) -> int
    decreases s.len() - i,
{
    if i < 0 || i >= s.len() {
        s.len() as int
    } else if s[i] == c {
        i
    } else {
        scan(s, c, i + 1)
    }
}

pub proof fn lemma_scan_bounds(s: Seq<u8>, c: u8, i: int)
    requires
        0 <= i <= s.len(),
    ensures
        i <= scan(s, c, i) <= s.len(),
        scan(s, c, i) < s.len() ==> s[scan(s, c, i)] == c,
        forall|j: int| i <= j < scan(s, c, i) ==> s[j] != c,
    decreases s.len() - i,
{
    if i < s.len() && s[i] != c {
        lemma_scan_bounds(s, c, i + 1);
    }
}

/// Exec mirror of [`scan`].
pub fn find_byte(s: &[u8], c: u8, from: usize) -> (r: usize)
    requires
        from <= s@.len(),
    ensures
        r == scan(s@, c, from as int),
        from <= r <= s@.len(),
        r < s@.len() ==> s@[r as int] == c,
{
    proof {
        lemma_scan_bounds(s@, c, from as int);
    }
    let mut i: usize = from;
    while i < s.len()
        invariant
            from <= i <= s@.len(),
            scan(s@, c, from as int) == scan(s@, c, i as int),
        decreases s.len() - i,
    {
        if s[i] == c {
            return i;
        }
        i += 1;
    }
    i
}

/// The decimal digits of `n`, most significant first.
pub open spec fn dec_repr(n: nat) -> Seq<u8>
    decreases n,
{
    if n < 10 {
        seq![(48 + n) as u8]
    } else {
        dec_repr(n / 10).push((48 + n % 10) as u8)
    }
}

/// `n` written in decimal.
pub fn u32_to_dec(n: u32) -> (r: Vec<u8>)
    ensures
        r@ == dec_repr(n as nat),
    decreases n,
{
    if n < 10 {
        let mut out: Vec<u8> = Vec::new();
        out.push(48 + (n as u8));
        assert(out@ =~= dec_repr(n as nat));
        out
    } else {
        assert(n / 10 < n && n / 10 >= 1) by (nonlinear_arith)
            requires
                n >= 10,
        ;
        let mut out = u32_to_dec(n / 10);
        out.push(48 + ((n % 10) as u8));
        out
    }
}

/// True when `s` is a nonempty run of ASCII decimal digits.
pub open spec fn is_digits(s: Seq<u8>) -> bool {
    s.len() > 0 && forall|i: int| 0 <= i < s.len() ==> 48 <= #[trigger] s[i] <= 57
}

/// The numeric value of a digit run, most significant digit first.
pub open spec fn dec_value(s: Seq<u8>) -> int
    decreases s.len(),
{
    if s.len() == 0 {
        0
    } else {
        dec_value(s.drop_last()) * 10 + (s.last() - 48)
    }
}

proof fn lemma_dec_value_nonneg(s: Seq<u8>)
    requires
        forall|j: int| 0 <= j < s.len() ==> 48 <= #[trigger] s[j] <= 57,
    ensures
        dec_value(s) >= 0,
    decreases s.len(),
{
    if s.len() > 0 {
        lemma_dec_value_nonneg(s.drop_last());
        assert(dec_value(s.drop_last()) * 10 >= 0) by (nonlinear_arith)
            requires
                dec_value(s.drop_last()) >= 0,
        ;
    }
}

proof fn lemma_dec_value_prefix_le(s: Seq<u8>, i: int)
    requires
        0 <= i <= s.len(),
    ensures
        is_digits(s) ==> dec_value(s.subrange(0, i)) <= dec_value(s),
    decreases s.len() - i,
{
    if i < s.len() {
        lemma_dec_value_prefix_le(s, i + 1);
        if is_digits(s) {
            let p = s.subrange(0, i + 1);
            assert(p.drop_last() =~= s.subrange(0, i));
            let v = dec_value(s.subrange(0, i));
            assert(forall|j: int|
                0 <= j < i ==> 48 <= #[trigger] s.subrange(0, i)[j] <= 57);
            lemma_dec_value_nonneg(s.subrange(0, i));
            assert(v * 10 + (p.last() - 48) >= v) by (nonlinear_arith)
                requires
                    v >= 0,
                    p.last() >= 48,
            ;
        }
    } else {
        assert(s.subrange(0, i) =~= s);
    }
}

/// Parse a nonempty digit run as a `u32`.  Returns `None` when `s` is not a
/// digit run or the value does not fit.
pub fn parse_u32(s: &[u8]) -> (r: Option<u32>)
    ensures
        r == (if is_digits(s@) && dec_value(s@) <= u32::MAX {
            Some(dec_value(s@) as u32)
        } else {
            None::<u32>
        }),
        is_digits(s@) ==> dec_value(s@) >= 0,
{
    proof {
        if is_digits(s@) {
            lemma_dec_value_nonneg(s@);
        }
    }
    if s.len() == 0 {
        return None;
    }
    let mut acc: u64 = 0;
    let mut i: usize = 0;
    while i < s.len()
        invariant
            0 < s@.len(),
            i <= s@.len(),
            forall|j: int| 0 <= j < i ==> 48 <= #[trigger] s@[j] <= 57,
            acc == dec_value(s@.subrange(0, i as int)),
            acc <= u32::MAX,
        decreases s.len() - i,
    {
        let c = s[i];
        if c < 48 || c > 57 {
            assert(!is_digits(s@));
            return None;
        }
        assert(acc * 10 + (c - 48) <= 0xffff_ffffu64 * 10 + 9) by (nonlinear_arith)
            requires
                acc <= u32::MAX,
                c <= 57,
        ;
        let next: u64 = acc * 10 + ((c - 48) as u64);
        proof {
            assert(s@.subrange(0, i + 1 as int).drop_last() =~= s@.subrange(0, i as int));
        }
        if next > 0xffff_ffffu64 {
            proof {
                lemma_dec_value_prefix_le(s@, i + 1 as int);
            }
            return None;
        }
        acc = next;
        i += 1;
    }
    assert(s@.subrange(0, s@.len() as int) =~= s@);
    Some(acc as u32)
}

/// Parse a nonempty digit run as a `u64`.  Returns `None` when `s` is not a
/// digit run or the value does not fit.
pub fn parse_u64(s: &[u8]) -> (r: Option<u64>)
    ensures
        r == (if is_digits(s@) && dec_value(s@) <= u64::MAX {
            Some(dec_value(s@) as u64)
        } else {
            None::<u64>
        }),
        is_digits(s@) ==> dec_value(s@) >= 0,
{
    proof {
        if is_digits(s@) {
            lemma_dec_value_nonneg(s@);
        }
    }
    if s.len() == 0 {
        return None;
    }
    let mut acc: u128 = 0;
    let mut i: usize = 0;
    while i < s.len()
        invariant
            0 < s@.len(),
            i <= s@.len(),
            forall|j: int| 0 <= j < i ==> 48 <= #[trigger] s@[j] <= 57,
            acc == dec_value(s@.subrange(0, i as int)),
            acc <= u64::MAX,
        decreases s.len() - i,
    {
        let c = s[i];
        if c < 48 || c > 57 {
            assert(!is_digits(s@));
            return None;
        }
        assert(acc * 10 + (c - 48) <= 0xffff_ffff_ffff_ffffu128 * 10 + 9) by (nonlinear_arith)
            requires
                acc <= u64::MAX,
                c <= 57,
        ;
        let next: u128 = acc * 10 + ((c - 48) as u128);
        proof {
            assert(s@.subrange(0, i + 1 as int).drop_last() =~= s@.subrange(0, i as int));
        }
        if next > 0xffff_ffff_ffff_ffffu128 {
            proof {
                lemma_dec_value_prefix_le(s@, i + 1 as int);
            }
            return None;
        }
        acc = next;
        i += 1;
    }
    assert(s@.subrange(0, s@.len() as int) =~= s@);
    Some(acc as u64)
}

/// Decimal digits are digits.
pub proof fn lemma_dec_repr_digits(n: nat)
    ensures
        is_digits(dec_repr(n)),
    decreases n,
{
    if n < 10 {
        assert(48 <= (48 + n) as u8 <= 57);
    } else {
        assert(n / 10 < n && n % 10 < 10) by (nonlinear_arith)
            requires
                n >= 10,
        ;
        lemma_dec_repr_digits(n / 10);
        let d = dec_repr(n / 10);
        let whole = d.push((48 + n % 10) as u8);
        assert(forall|j: int| 0 <= j < whole.len() - 1 ==> whole[j] == d[j]);
        assert(48 <= whole[whole.len() - 1] <= 57);
    }
}

/// Reading a number's decimal digits back gives the number.
pub proof fn lemma_dec_value_of_repr(n: nat)
    ensures
        dec_value(dec_repr(n)) == n,
    decreases n,
{
    if n < 10 {
        let s = dec_repr(n);
        assert(s =~= seq![(48 + n) as u8]);
        assert(s.drop_last() =~= Seq::<u8>::empty());
        assert(dec_value(s.drop_last()) == 0);
        assert(s.last() == (48 + n) as u8);
        assert(s.last() - 48 == n);
        assert(dec_value(s) == dec_value(s.drop_last()) * 10 + (s.last() - 48));
    } else {
        assert(n / 10 < n && n % 10 < 10 && (n / 10) * 10 + n % 10 == n) by (nonlinear_arith)
            requires
                n >= 10,
        ;
        lemma_dec_value_of_repr(n / 10);
        let s = dec_repr(n);
        assert(s.drop_last() =~= dec_repr(n / 10));
        assert(s.last() == (48 + n % 10) as u8);
        assert(s.last() - 48 == n % 10);
        assert(dec_value(s) == dec_value(s.drop_last()) * 10 + (s.last() - 48));
        assert(dec_value(s.drop_last()) == n / 10);
    }
}

pub proof fn lemma_trim_step_front(s: Seq<u8>)
    requires
        s.len() > 0,
        is_ws(s[0]),
    ensures
        spec_trim(s) == spec_trim(s.subrange(1, s.len() as int)),
{
}

pub proof fn lemma_trim_step_back(s: Seq<u8>)
    requires
        s.len() > 0,
        !is_ws(s[0]),
        is_ws(s[s.len() - 1]),
    ensures
        spec_trim(s) == spec_trim(s.subrange(0, s.len() - 1)),
{
}

pub proof fn lemma_trim_fixed(s: Seq<u8>)
    requires
        s.len() > 0 ==> !is_ws(s[0]),
        s.len() > 0 ==> !is_ws(s[s.len() - 1]),
    ensures
        spec_trim(s) == s,
{
}

} // verus!

//! Byte-level parsing of the raw transaction fields.
//!
//! Fields arrive as raw bytes. Numbers are written in ASCII decimal;
//! amounts may carry a fractional part of one to four digits after a `.`
//! and are read as fixed-point values in units of 1/10_000. Parsing never
//! panics: malformed text yields `None` and the row is rejected.

use vstd::prelude::*;

verus! {

/// ASCII whitespace, as trimmed from the ends of a numeric field.
pub open spec fn is_ascii_space(b: u8) -> bool {
    b == 32 || (9 <= b && b <= 13)
}

/// An ASCII decimal digit `0`..`9`.
pub open spec fn is_ascii_digit(b: u8) -> bool {
    48 <= b && b <= 57
}

/// A non-empty run of ASCII decimal digits.
pub open spec fn all_digits(s: Seq<u8>) -> bool {
    s.len() > 0 && forall|j: int| 0 <= j < s.len() ==> is_ascii_digit(#[trigger] s[j])
}

/// The value of a digit string, most significant digit first.
pub open spec fn digits_val(s: Seq<u8>) -> int
    decreases s.len(),
{
    if s.len() == 0 {
        0
    } else {
        digits_val(s.drop_last()) * 10 + (s.last() - 48)
    }
}

/// `s` with leading ASCII whitespace removed.
pub open spec fn trim_front(s: Seq<u8>) -> Seq<u8>
    decreases s.len(),
{
    if s.len() > 0 && is_ascii_space(s[0]) {
        trim_front(s.drop_first())
    } else {
        s
    }
}

/// `s` with trailing ASCII whitespace removed.
pub open spec fn trim_back(s: Seq<u8>) -> Seq<u8>
    decreases s.len(),
{
    if s.len() > 0 && is_ascii_space(s.last()) {
        trim_back(s.drop_last())
    } else {
        s
    }
}

/// `s` with ASCII whitespace removed from both ends.
pub open spec fn trimmed(s: Seq<u8>) -> Seq<u8> {
    trim_back(trim_front(s))
}

/// The index of the first `.` in `s`, or -1 if there is none.
pub open spec fn dot_index(s: Seq<u8>) -> int
    decreases s.len(),
{
    if s.len() == 0 {
        -1
    } else if s[0] == 46 {
        0
    } else if dot_index(s.drop_first()) == -1 {
        -1
    } else {
        dot_index(s.drop_first()) + 1
    }
}

/// What a fractional digit string of the given length is worth per unit:
/// the scale that brings it to 1/10_000ths.
pub open spec fn frac_scale(len: int) -> int {
    if len == 1 {
        1000
    } else if len == 2 {
        100
    } else if len == 3 {
        10
    } else {
        1
    }
}

/// The signed 32-bit integer a byte string denotes: an optional `+` or `-`
/// sign followed by at least one digit, rejecting values outside the type's
/// range. Mirrors what `i32` can hold of ordinary decimal text.
pub open spec fn parse_i32(s: Seq<u8>) -> Option<i32> {
    if s.len() > 0 && (s[0] == 43 || s[0] == 45) {
        if all_digits(s.drop_first()) {
            if s[0] == 45 {
                if digits_val(s.drop_first()) <= 0x8000_0000 {
                    Some((-digits_val(s.drop_first())) as i32)
                } else {
                    None
                }
            } else {
                if digits_val(s.drop_first()) <= 0x7fff_ffff {
                    Some(digits_val(s.drop_first()) as i32)
                } else {
                    None
                }
            }
        } else {
            None
        }
    } else if all_digits(s) {
        if digits_val(s) <= 0x7fff_ffff {
            Some(digits_val(s) as i32)
        } else {
            None
        }
    } else {
        None
    }
}

/// The fixed-point amount a byte string denotes, in 1/10_000ths: digits,
/// optionally followed by `.` and one to four fractional digits. `None`
/// for anything else, and for values beyond what a `u64` balance can hold.
pub open spec fn parse_amount(s: Seq<u8>) -> Option<u64> {
    if dot_index(s) == -1 {
        if all_digits(s) && digits_val(s) * 10000 <= u64::MAX {
            Some((digits_val(s) * 10000) as u64)
        } else {
            None
        }
    } else {
        let ip = s.subrange(0, dot_index(s));
        let fp = s.subrange(dot_index(s) + 1, s.len() as int);
        if all_digits(ip) && 1 <= fp.len() <= 4 && all_digits(fp) {
            if digits_val(ip) * 10000 + digits_val(fp) * frac_scale(fp.len() as int)
                <= u64::MAX {
                Some(
                    (digits_val(ip) * 10000 + digits_val(fp) * frac_scale(
                        fp.len() as int,
                    )) as u64,
                )
            } else {
                None
            }
        } else {
            None
        }
    }
}

proof fn lemma_digits_val_nonneg(s: Seq<u8>)
    requires
        forall|j: int| 0 <= j < s.len() ==> is_ascii_digit(#[trigger] s[j]),
    ensures
        digits_val(s) >= 0,
    decreases s.len(),
{
    if s.len() > 0 {
        assert forall|j: int| 0 <= j < s.drop_last().len() implies is_ascii_digit(
            #[trigger] s.drop_last()[j],
        ) by {
            assert(s.drop_last()[j] == s[j]);
        }
        lemma_digits_val_nonneg(s.drop_last());
    }
}

/// Reading more digits never makes the value smaller.
proof fn lemma_digits_val_prefix_le(s: Seq<u8>, k: int)
    requires
        forall|j: int| 0 <= j < s.len() ==> is_ascii_digit(#[trigger] s[j]),
        0 <= k <= s.len(),
    ensures
        digits_val(s.subrange(0, k)) <= digits_val(s),
    decreases s.len(),
{
    if k == s.len() {
        assert(s.subrange(0, k) =~= s);
    } else {
        assert forall|j: int| 0 <= j < s.drop_last().len() implies is_ascii_digit(
            #[trigger] s.drop_last()[j],
        ) by {
            assert(s.drop_last()[j] == s[j]);
        }
        lemma_digits_val_nonneg(s.drop_last());
        assert(s.subrange(0, k) =~= s.drop_last().subrange(0, k));
        lemma_digits_val_prefix_le(s.drop_last(), k);
    }
}

proof fn lemma_trim_front_subrange(s: Seq<u8>, k: int)
    requires
        0 <= k <= s.len(),
        forall|j: int| 0 <= j < k ==> is_ascii_space(#[trigger] s[j]),
        k < s.len() ==> !is_ascii_space(s[k]),
    ensures
        trim_front(s) == s.subrange(k, s.len() as int),
    decreases k,
{
    if k == 0 {
        assert(s.subrange(0, s.len() as int) =~= s);
    } else {
        assert(is_ascii_space(s[0]));
        let t = s.drop_first();
        assert forall|j: int| 0 <= j < k - 1 implies is_ascii_space(#[trigger] t[j]) by {
            assert(t[j] == s[j + 1]);
        }
        lemma_trim_front_subrange(t, k - 1);
        assert(t.subrange(k - 1, t.len() as int) =~= s.subrange(k, s.len() as int));
    }
}

proof fn lemma_trim_back_subrange(s: Seq<u8>, k: int)
    requires
        0 <= k <= s.len(),
        forall|j: int| k <= j < s.len() ==> is_ascii_space(#[trigger] s[j]),
        k > 0 ==> !is_ascii_space(s[k - 1]),
    ensures
        trim_back(s) == s.subrange(0, k),
    decreases s.len() - k,
{
    if k == s.len() {
        assert(s.subrange(0, k) =~= s);
    } else {
        assert(is_ascii_space(s.last()));
        let t = s.drop_last();
        assert forall|j: int| k <= j < t.len() implies is_ascii_space(#[trigger] t[j]) by {
            assert(t[j] == s[j]);
        }
        assert(k > 0 ==> t[k - 1] == s[k - 1]);
        lemma_trim_back_subrange(t, k);
        assert(t.subrange(0, k) =~= s.subrange(0, k));
    }
}

proof fn lemma_dot_index_at(s: Seq<u8>, k: int)
    requires
        0 <= k < s.len(),
        s[k] == 46,
        forall|j: int| 0 <= j < k ==> #[trigger] s[j] != 46,
    ensures
        dot_index(s) == k,
    decreases k,
{
    if k > 0 {
        let t = s.drop_first();
        assert forall|j: int| 0 <= j < k - 1 implies #[trigger] t[j] != 46 by {
            assert(t[j] == s[j + 1]);
        }
        assert(t[k - 1] == s[k]);
        lemma_dot_index_at(t, k - 1);
    }
}

proof fn lemma_dot_index_none(s: Seq<u8>)
    requires
        forall|j: int| 0 <= j < s.len() ==> #[trigger] s[j] != 46,
    ensures
        dot_index(s) == -1,
    decreases s.len(),
{
    if s.len() > 0 {
        let t = s.drop_first();
        assert forall|j: int| 0 <= j < t.len() implies #[trigger] t[j] != 46 by {
            assert(t[j] == s[j + 1]);
        }
        lemma_dot_index_none(t);
    }
}

fn is_space_byte(b: u8) -> (r: bool)
    ensures
        r == is_ascii_space(b),
{
    b == 32 || (9 <= b && b <= 13)
}

/// Copies `v` with ASCII whitespace removed from both ends.
pub fn trim_bytes(v: &Vec<u8>) -> (r: Vec<u8>)
    ensures
        r@ == trimmed(v@),
{
    let n = v.len();
    let mut start: usize = 0;
    while start < n && is_space_byte(v[start])
        invariant
            start <= n == v.len(),
            forall|j: int| 0 <= j < start ==> is_ascii_space(#[trigger] v@[j]),
        decreases n - start,
    {
        start += 1;
    }
    let mut end: usize = n;
    while end > start && is_space_byte(v[end - 1])
        invariant
            start <= end <= n == v.len(),
            forall|j: int| end <= j < n ==> is_ascii_space(#[trigger] v@[j]),
        decreases end,
    {
        end -= 1;
    }
    proof {
        lemma_trim_front_subrange(v@, start as int);
        let t = v@.subrange(start as int, n as int);
        assert forall|j: int| end - start <= j < t.len() implies is_ascii_space(
            #[trigger] t[j],
        ) by {
            assert(t[j] == v@[start + j]);
        }
        assert(end > start ==> t[end - start - 1] == v@[end - 1]);
        lemma_trim_back_subrange(t, end - start);
        assert(t.subrange(0, end - start) =~= v@.subrange(start as int, end as int));
    }
    let mut r: Vec<u8> = Vec::new();
    let mut i: usize = start;
    while i < end
        invariant
            start <= i <= end <= v.len(),
            r@ =~= v@.subrange(start as int, i as int),
        decreases end - i,
    {
        r.push(v[i]);
        i += 1;
    }
    assert(r@ =~= v@.subrange(start as int, end as int));
    r
}

/// Reads the digit run `v[from..to]`, refusing values above `cap`:
/// `Some` exactly when the range is a non-empty run of digits whose value
/// is within the cap.
fn digits_value_capped(v: &Vec<u8>, from: usize, to: usize, cap: u64) -> (r: Option<u64>)
    requires
        from <= to <= v.len(),
        10 * cap + 9 <= u64::MAX,
    ensures
        match r {
            Some(x) => all_digits(v@.subrange(from as int, to as int)) && x == digits_val(
                v@.subrange(from as int, to as int),
            ) && x <= cap,
            None => !(all_digits(v@.subrange(from as int, to as int)) && digits_val(
                v@.subrange(from as int, to as int),
            ) <= cap),
        },
{
    let ghost s = v@.subrange(from as int, to as int);
    if from == to {
        assert(s.len() == 0);
        return None;
    }
    let mut acc: u64 = 0;
    let mut i: usize = from;
    while i < to
        invariant
            from <= i <= to <= v.len(),
            s == v@.subrange(from as int, to as int),
            10 * cap + 9 <= u64::MAX,
            forall|j: int| 0 <= j < i - from ==> is_ascii_digit(#[trigger] s[j]),
            acc == digits_val(s.subrange(0, i - from)),
            acc <= cap,
        decreases to - i,
    {
        let b = v[i];
        assert(s[i - from] == v@[i as int]);
        if b < 48 || b > 57 {
            assert(!all_digits(s));
            return None;
        }
        let d: u64 = (b - 48) as u64;
        let next: u64 = acc * 10 + d;
        proof {
            let p = s.subrange(0, i + 1 - from);
            assert(p.drop_last() =~= s.subrange(0, i - from));
            assert(p.last() == s[i - from]);
            assert(digits_val(p) == acc * 10 + d);
        }
        if next > cap {
            proof {
                if all_digits(s) {
                    lemma_digits_val_prefix_le(s, i + 1 - from);
                    lemma_digits_val_nonneg(s);
                }
            }
            return None;
        }
        acc = next;
        i += 1;
    }
    assert(s.subrange(0, to - from) =~= s);
    assert(all_digits(s));
    Some(acc)
}

/// Reads a signed 32-bit integer; `None` exactly where `parse_i32` says so.
pub fn parse_i32_bytes(v: &Vec<u8>) -> (r: Option<i32>)
    ensures
        r == parse_i32(v@),
{
    let n = v.len();
    if n == 0 {
        return None;
    }
    let b0 = v[0];
    if b0 == 43 || b0 == 45 {
        assert(v@.subrange(1, n as int) =~= v@.drop_first());
        match digits_value_capped(v, 1, n, 0x8000_0000) {
            None => None,
            Some(mag) => {
                if b0 == 45 {
                    if mag == 0x8000_0000 {
                        Some(i32::MIN)
                    } else {
                        Some(-(mag as i32))
                    }
                } else {
                    if mag > 0x7fff_ffff {
                        None
                    } else {
                        Some(mag as i32)
                    }
                }
            },
        }
    } else {
        assert(v@.subrange(0, n as int) =~= v@);
        match digits_value_capped(v, 0, n, 0x8000_0000) {
            None => {
                proof {
                    if all_digits(v@) && digits_val(v@) <= 0x7fff_ffff {
                        assert(digits_val(v@) <= 0x8000_0000);
                    }
                }
                None
            },
            Some(x) => {
                if x > 0x7fff_ffff {
                    None
                } else {
                    Some(x as i32)
                }
            },
        }
    }
}

/// Reads a fixed-point amount in 1/10_000ths; `None` exactly where
/// `parse_amount` says so.
pub fn parse_amount_bytes(v: &Vec<u8>) -> (r: Option<u64>)
    ensures
        r == parse_amount(v@),
{
    let n = v.len();
    let mut i: usize = 0;
    while i < n && v[i] != 46
        invariant
            i <= n == v.len(),
            forall|j: int| 0 <= j < i ==> #[trigger] v@[j] != 46,
        decreases n - i,
    {
        i += 1;
    }
    if i == n {
        // no fractional part
        proof {
            lemma_dot_index_none(v@);
            assert(v@.subrange(0, n as int) =~= v@);
        }
        match digits_value_capped(v, 0, n, 1844674407370955) {
            None => {
                proof {
                    if all_digits(v@) && digits_val(v@) * 10000 <= u64::MAX {
                        lemma_digits_val_nonneg(v@);
                        assert(digits_val(v@) <= 1844674407370955) by {
                            if digits_val(v@) >= 1844674407370956 {
                                assert(digits_val(v@) * 10000 >= 1844674407370956 * 10000);
                            }
                        }
                    }
                }
                None
            },
            Some(x) => Some(x * 10000),
        }
    } else {
        proof {
            lemma_dot_index_at(v@, i as int);
        }
        let ghost ip = v@.subrange(0, i as int);
        let ghost fp = v@.subrange(i as int + 1, n as int);
        let flen = n - i - 1;
        if flen < 1 || flen > 4 {
            return None;
        }
        let scale: u64 = if flen == 1 {
            1000
        } else if flen == 2 {
            100
        } else if flen == 3 {
            10
        } else {
            1
        };
        assert(scale == frac_scale(fp.len() as int));
        match digits_value_capped(v, 0, i, 1844674407370955) {
            None => {
                proof {
                    if all_digits(ip) && digits_val(ip) * 10000 + digits_val(fp) * frac_scale(
                        fp.len() as int,
                    ) <= u64::MAX && all_digits(fp) {
                        lemma_digits_val_nonneg(ip);
                        lemma_digits_val_nonneg(fp);
                        assert(digits_val(ip) <= 1844674407370955) by {
                            if digits_val(ip) >= 1844674407370956 {
                                assert(digits_val(ip) * 10000 >= 1844674407370956 * 10000);
                            }
                        }
                    }
                }
                None
            },
            Some(ival) => {
                match digits_value_capped(v, i + 1, n, 9999) {
                    None => {
                        proof {
                            if all_digits(fp) {
                                assert(fp.len() <= 4);
                                lemma_digits_val_fits(fp);
                            }
                        }
                        None
                    },
                    Some(fval) => {
                        let base: u64 = ival * 10000;
                        proof {
                            assert(fval * scale <= 9999000) by (nonlinear_arith)
                                requires
                                    fval <= 9999,
                                    scale <= 1000,
                            ;
                        }
                        let fscaled: u64 = fval * scale;
                        if fscaled > u64::MAX - base {
                            None
                        } else {
                            Some(base + fscaled)
                        }
                    },
                }
            },
        }
    }
}

/// Ten to the `n`-th power.
spec fn ten_to(n: nat) -> int
    decreases n,
{
    if n == 0 {
        1
    } else {
        10 * ten_to((n - 1) as nat)
    }
}

/// A digit string's value stays below ten to its length.
proof fn lemma_digits_val_bound(s: Seq<u8>)
    requires
        forall|j: int| 0 <= j < s.len() ==> is_ascii_digit(#[trigger] s[j]),
    ensures
        digits_val(s) < ten_to(s.len()),
    decreases s.len(),
{
    if s.len() > 0 {
        assert forall|j: int| 0 <= j < s.drop_last().len() implies is_ascii_digit(
            #[trigger] s.drop_last()[j],
        ) by {
            assert(s.drop_last()[j] == s[j]);
        }
        lemma_digits_val_bound(s.drop_last());
        lemma_digits_val_nonneg(s.drop_last());
        assert(ten_to(s.len()) == 10 * ten_to((s.len() - 1) as nat));
    }
}

/// A digit string of at most four digits stays below 10_000.
proof fn lemma_digits_val_fits(s: Seq<u8>)
    requires
        forall|j: int| 0 <= j < s.len() ==> is_ascii_digit(#[trigger] s[j]),
        s.len() <= 4,
    ensures
        digits_val(s) < 10000,
{
    lemma_digits_val_bound(s);
    assert(ten_to(0) == 1);
    assert(ten_to(1) == 10);
    assert(ten_to(2) == 100);
    assert(ten_to(3) == 1000);
    assert(ten_to(4) == 10000);
}

} // verus!

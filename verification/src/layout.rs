//! Layout arithmetic: how many buckets and control-byte groups a table of a
//! given length and load factor has.

use vstd::prelude::*;

verus! {

/// Number of control bytes that one step of a probe reads.
pub const MAX_GROUP_WIDTH: usize = 16;

/// Number of control bytes that are read together: a step reads its group
/// in sub-groups of this width before the probe moves on.
pub const SUB_GROUP_WIDTH: usize = 8;

/// Control byte of a bucket that holds no entry.
pub const EMPTY: u8 = 0x80;

/// Bucket count for `len` entries at load factor `num / den`: the least count
/// that is at least `len` and keeps the load at or below the factor.
pub open spec fn spec_bucket_count(len: int, num: int, den: int) -> int {
    let scaled = (len * den + num - 1) / num;
    if scaled < len {
        len
    } else {
        scaled
    }
}

/// Number of control-byte groups that cover `cap` buckets.
pub open spec fn spec_group_count(cap: int) -> int {
    (cap + 15) / 16
}

/// Physical length of the control-byte array: `cap` rounded up to whole groups.
pub open spec fn spec_control_count(cap: int) -> int {
    spec_group_count(cap) * 16
}

/// Whether the layout of `len` entries at `load_factor` fits the machine.
pub open spec fn layout_fits(len: usize, load_factor: (usize, usize)) -> bool {
    &&& load_factor.0 > 0
    &&& spec_bucket_count(len as int, load_factor.0 as int, load_factor.1 as int) + 15
        <= usize::MAX
}

proof fn lemma_ceil_div(x: int, m: int)
    requires
        x >= 0,
        m > 0,
    ensures
        ((x + m - 1) / m) * m >= x,
        ((x + m - 1) / m - 1) * m < x,
        (x + m - 1) / m >= 0,
{
    vstd::arithmetic::div_mod::lemma_fundamental_div_mod(x + m - 1, m);
    vstd::arithmetic::div_mod::lemma_mod_bound(x + m - 1, m);
    vstd::arithmetic::div_mod::lemma_div_pos_is_pos(x + m - 1, m);
    let q = (x + m - 1) / m;
    assert(q * m == m * q) by (nonlinear_arith);
    assert((q - 1) * m == q * m - m) by (nonlinear_arith);
}

/// The bucket count never drops below the length, the achieved load never
/// exceeds `num / den`, and no smaller count above the length would do.
pub proof fn lemma_load_factor_bound(len: int, num: int, den: int)
    requires
        len >= 0,
        num > 0,
        den >= 0,
    ensures
        spec_bucket_count(len, num, den) >= len,
        len * den <= spec_bucket_count(len, num, den) * num,
        spec_bucket_count(len, num, den) > len ==> (spec_bucket_count(len, num, den) - 1) * num
            < len * den,
{
    assert(len * den >= 0) by (nonlinear_arith)
        requires
            len >= 0,
            den >= 0,
    ;
    lemma_ceil_div(len * den, num);
    let scaled = (len * den + num - 1) / num;
    let b = spec_bucket_count(len, num, den);
    assert(b * num >= scaled * num) by (nonlinear_arith)
        requires
            b >= scaled,
            num > 0,
    ;
}

/// Computes `(bucket_count, group_count)` for a table of `len` entries.
pub fn layout(len: usize, load_factor: (usize, usize)) -> (r: (usize, usize))
    requires
        layout_fits(len, load_factor),
    ensures
        r.0 == spec_bucket_count(len as int, load_factor.0 as int, load_factor.1 as int),
        r.1 == spec_group_count(r.0 as int),
        r.0 >= len,
        len == 0 ==> r.0 == 0,
{
    let n: u128 = len as u128;
    let d: u128 = load_factor.1 as u128;
    let m: u128 = load_factor.0 as u128;
    proof {
        assert(n * d <= 0xffff_ffff_ffff_ffff * 0xffff_ffff_ffff_ffff) by (nonlinear_arith)
            requires
                0 <= n <= 0xffff_ffff_ffff_ffff,
                0 <= d <= 0xffff_ffff_ffff_ffff,
        ;
        lemma_load_factor_bound(len as int, load_factor.0 as int, load_factor.1 as int);
        if len == 0 {
            assert(n * d == 0) by (nonlinear_arith)
                requires
                    n == 0,
            ;
        }
    }
    let scaled: u128 = (n * d + (m - 1)) / m;
    let cap: usize = if scaled < n {
        len
    } else {
        scaled as usize
    };
    let groups: usize = (cap + 15) / 16;
    (cap, groups)
}

/// Computes the layout where it fits the machine.
pub fn checked_layout(len: usize, load_factor: (usize, usize)) -> (r: Option<(usize, usize)>)
    ensures
        r is Some == layout_fits(len, load_factor),
        r is Some ==> r.unwrap().0 == spec_bucket_count(
            len as int,
            load_factor.0 as int,
            load_factor.1 as int,
        ) && r.unwrap().1 == spec_group_count(r.unwrap().0 as int),
{
    if load_factor.0 == 0 {
        return None;
    }
    let n: u128 = len as u128;
    let d: u128 = load_factor.1 as u128;
    let m: u128 = load_factor.0 as u128;
    proof {
        assert(n * d <= 0xffff_ffff_ffff_ffff * 0xffff_ffff_ffff_ffff) by (nonlinear_arith)
            requires
                0 <= n <= 0xffff_ffff_ffff_ffff,
                0 <= d <= 0xffff_ffff_ffff_ffff,
        ;
    }
    let scaled: u128 = (n * d + (m - 1)) / m;
    let cap: u128 = if scaled < n {
        n
    } else {
        scaled
    };
    if cap > (usize::MAX - 15) as u128 {
        None
    } else {
        Some(layout(len, load_factor))
    }
}

} // verus!

//! Page arithmetic: how a resource of `total_len` bytes is split into
//! fixed-size pages, and how the pages partition `[0, total_len)`.

use vstd::prelude::*;

verus! {

/// Number of pages needed to cover `total_len` bytes with pages of
/// `page_size` bytes each: the ceiling of `total_len / page_size`.
pub open spec fn spec_page_count(total_len: int, page_size: int) -> int
    recommends
        page_size > 0,
        total_len >= 0,
{
    if total_len % page_size == 0 {
        total_len / page_size
    } else {
        total_len / page_size + 1
    }
}

/// First byte offset of page `i`.
pub open spec fn spec_page_start(i: int, page_size: int) -> int {
    i * page_size
}

/// One past the last byte offset of page `i`: the page is cut off at
/// `total_len`.
pub open spec fn spec_page_end(i: int, page_size: int, total_len: int) -> int {
    if (i + 1) * page_size <= total_len {
        (i + 1) * page_size
    } else {
        total_len
    }
}

/// Byte length of page `i`.
pub open spec fn spec_page_len(i: int, page_size: int, total_len: int) -> int {
    spec_page_end(i, page_size, total_len) - spec_page_start(i, page_size)
}

/// Computes `ceil(total_len / page_size)`, the number of pages.
pub fn get_page_count(total_len: u64, page_size: u64) -> (r: u64)
    requires
        page_size > 0,
    ensures
        r == spec_page_count(total_len as int, page_size as int),
{
    let d = total_len / page_size;
    if total_len % page_size != 0 {
        proof {
            let t = total_len as int;
            let p = page_size as int;
            if p == 1 {
                assert(t % 1 == 0) by (nonlinear_arith);
            }
            assert(t / p < u64::MAX) by (nonlinear_arith)
                requires
                    p >= 2,
                    0 <= t <= u64::MAX,
            ;
        }
        d + 1
    } else {
        d
    }
}

/// A positive resource length needs at least one page.
pub proof fn lemma_page_count_pos(total_len: int, page_size: int)
    requires
        total_len > 0,
        page_size > 0,
    ensures
        spec_page_count(total_len, page_size) >= 1,
{
    vstd::arithmetic::div_mod::lemma_fundamental_div_mod(total_len, page_size);
    vstd::arithmetic::div_mod::lemma_mod_bound(total_len, page_size);
    let d = total_len / page_size;
    let r = total_len % page_size;
    assert(d >= 1 || r != 0) by (nonlinear_arith)
        requires
            total_len > 0,
            page_size > 0,
            total_len == page_size * d + r,
            0 <= r < page_size;
    assert(d >= 0) by (nonlinear_arith)
        requires
            total_len > 0,
            page_size > 0,
            d == total_len / page_size;
}

/// Byte length of the final page of a resource of `file_size` bytes split
/// into pages of `page_size` bytes. When `file_size` is an exact multiple of
/// `page_size` the remainder degenerates to zero, so that case is answered
/// with a full `page_size` instead of the bare remainder.
pub fn last_page_len(file_size: u64, page_size: u64) -> (r: u64)
    requires
        page_size > 0,
        file_size > 0,
    ensures
        r == file_size as int - page_size as int * (spec_page_count(
            file_size as int,
            page_size as int,
        ) - 1),
        1 <= r <= page_size,
{
    let rem = file_size % page_size;
    proof {
        let t = file_size as int;
        let p = page_size as int;
        vstd::arithmetic::div_mod::lemma_fundamental_div_mod(t, p);
        vstd::arithmetic::div_mod::lemma_mod_bound(t, p);
        if t % p == 0 {
            assert(t - p * (t / p - 1) == t - p * (t / p) + p) by (nonlinear_arith);
            assert(t / p >= 1) by (nonlinear_arith)
                requires
                    t > 0,
                    p > 0,
                    t == p * (t / p) + t % p,
                    t % p == 0;
        } else {
            assert(t - p * ((t / p + 1) - 1) == t - p * (t / p)) by (nonlinear_arith);
        }
    }
    if rem == 0 {
        page_size
    } else {
        rem
    }
}

/// The pages of size `page_size` partition `[0, total_len)` exactly: the
/// first page starts at 0, consecutive pages abut, every page is non-empty,
/// the last page ends at `total_len`, and its length is
/// `total_len - page_size * (page_count - 1)`.
pub proof fn lemma_pages_partition(total_len: int, page_size: int)
    requires
        total_len > 0,
        page_size > 0,
    ensures
        spec_page_count(total_len, page_size) >= 1,
        spec_page_start(0, page_size) == 0,
        forall|i: int|
            0 <= i < spec_page_count(total_len, page_size) ==> spec_page_start(i, page_size)
                < spec_page_end(i, page_size, total_len),
        forall|i: int|
            0 <= i < spec_page_count(total_len, page_size) - 1 ==> spec_page_end(
                i,
                page_size,
                total_len,
            ) == spec_page_start(i + 1, page_size),
        forall|i: int, j: int|
            0 <= i < j < spec_page_count(total_len, page_size) ==> spec_page_end(
                i,
                page_size,
                total_len,
            ) <= spec_page_start(j, page_size),
        spec_page_end(spec_page_count(total_len, page_size) - 1, page_size, total_len)
            == total_len,
        spec_page_len(spec_page_count(total_len, page_size) - 1, page_size, total_len) == total_len
            - page_size * (spec_page_count(total_len, page_size) - 1),
{
    let n = spec_page_count(total_len, page_size);
    let d = total_len / page_size;
    let r = total_len % page_size;
    vstd::arithmetic::div_mod::lemma_fundamental_div_mod(total_len, page_size);
    vstd::arithmetic::div_mod::lemma_mod_bound(total_len, page_size);
    assert(d >= 0) by (nonlinear_arith)
        requires
            total_len > 0,
            page_size > 0,
            d == total_len / page_size;
    // total_len lies in ((n-1)*page_size, n*page_size]
    assert((n - 1) * page_size < total_len && total_len <= n * page_size) by (nonlinear_arith)
        requires
            page_size > 0,
            0 <= r < page_size,
            d >= 0,
            total_len == page_size * d + r,
            n == if r == 0 {
                d
            } else {
                d + 1
            },
            total_len > 0;
    assert forall|i: int| 0 <= i < n implies spec_page_start(i, page_size) < spec_page_end(
        i,
        page_size,
        total_len,
    ) by {
        assert(i * page_size < (i + 1) * page_size) by (nonlinear_arith)
            requires
                page_size > 0;
        assert(i * page_size < total_len) by (nonlinear_arith)
            requires
                page_size > 0,
                0 <= i <= n - 1,
                (n - 1) * page_size < total_len;
    }
    assert forall|i: int| 0 <= i < n - 1 implies spec_page_end(i, page_size, total_len)
        == spec_page_start(i + 1, page_size) by {
        assert((i + 1) * page_size <= (n - 1) * page_size) by (nonlinear_arith)
            requires
                page_size > 0,
                i + 1 <= n - 1;
    }
    assert forall|i: int, j: int| 0 <= i < j < n implies spec_page_end(i, page_size, total_len)
        <= spec_page_start(j, page_size) by {
        assert((i + 1) * page_size <= j * page_size) by (nonlinear_arith)
            requires
                page_size > 0,
                i + 1 <= j;
    }
}

} // verus!

//! Buddy allocator for 4 KiB physical pages.
//!
//! A free list per order (order `k` holds blocks of `2^k` pages), a bitmap
//! with one bit per page (set = allocated), block splitting on allocation and
//! buddy coalescing on release.
//!
//! The allocator is modelled by a sequence of page states (`page_allocated`),
//! the number of pages it manages (`total`) and the number of allocated pages
//! (`used`).  Its invariant (`wf`) ties the bitmap to the page states, keeps
//! `used` equal to the number of allocated pages, and keeps every listed free
//! block inside the managed range, made only of free pages and disjoint from
//! every other listed block.  The free lists themselves (`lists`) are part of
//! the model: `init` lists every free page (`lists_cover`) in naturally
//! aligned blocks (`lists_aligned`), allocation and release say exactly how
//! the lists change, and both keep the two properties (release keeps
//! alignment for an aligned address, and coverage while its list has room).
use vstd::prelude::*;

verus! {

/// Page size: 4 KiB.
pub const PAGE_SIZE: u64 = 4096;
pub const PAGE_SHIFT: u32 = 12;
/// Number of orders: blocks of `2^0` up to `2^10` pages.
pub const MAX_ORDER: usize = 11;

/// Maximum number of pages tracked (2 GiB of RAM).
pub const MAX_PAGES: usize = 524288;
/// One bit per page, packed into 64-bit words.
const BITMAP_SIZE: usize = 8192;
/// Capacity of each per-order free list.
pub const MAX_FREE_ENTRIES: usize = 8192;
/// Addresses below 1 MiB (device tree and firmware) are never handed out.
pub const RESERVED_LOW: u64 = 0x100000;

// ---------------------------------------------------------------------------
// Arithmetic model
// ---------------------------------------------------------------------------

/// Number of pages in a block of order `k`: `2^k`.
pub open spec fn bsize(k: int) -> int
    decreases k,
{
    if k <= 0 {
        1
    } else {
        2 * bsize(k - 1)
    }
}

pub proof fn lemma_bsize_pos(k: int)
    ensures
        bsize(k) >= 1,
    decreases k,
{
    if k > 0 {
        lemma_bsize_pos(k - 1);
    }
}

pub proof fn lemma_bsize_mono(a: int, b: int)
    requires
        0 <= a <= b,
    ensures
        bsize(a) <= bsize(b),
    decreases b - a,
{
    if a < b {
        lemma_bsize_mono(a, b - 1);
        lemma_bsize_pos(b - 1);
    }
}

proof fn lemma_bsize_max()
    ensures
        bsize(10) == 1024,
{
    reveal_with_fuel(bsize, 11);
}

proof fn lemma_bsize_bound(k: int)
    requires
        0 <= k < MAX_ORDER,
    ensures
        1 <= bsize(k) <= 1024,
{
    lemma_bsize_pos(k);
    lemma_bsize_mono(k, 10);
    lemma_bsize_max();
}

proof fn lemma_shl_bsize(k: usize)
    requires
        k < MAX_ORDER,
    ensures
        (1usize << k) as int == bsize(k as int),
    decreases k,
{
    if k == 0 {
        assert(1usize << 0usize == 1usize) by (bit_vector);
    } else {
        lemma_shl_bsize((k - 1) as usize);
        let j = (k - 1) as usize;
        assert((1usize << k) == 2 * (1usize << j)) by (bit_vector)
            requires
                j < 10usize,
                k == j + 1,
        ;
    }
}

/// `2^order` as a machine integer.
fn order_pages(order: usize) -> (r: usize)
    requires
        order < MAX_ORDER,
    ensures
        r as int == bsize(order as int),
        1 <= r <= 1024,
{
    proof {
        lemma_shl_bsize(order);
        lemma_bsize_bound(order as int);
    }
    1usize << order
}

/// Flipping bit `k` of a page number moves it by exactly `2^k` pages.
proof fn lemma_xor_buddy(c: usize, k: usize)
    requires
        k < MAX_ORDER,
    ensures
        (c ^ (1usize << k)) == c + (1usize << k) || (c ^ (1usize << k)) + (1usize << k) == c,
{
    assert((c ^ (1usize << k)) == c + (1usize << k) || (c ^ (1usize << k)) + (1usize << k) == c)
        by (bit_vector)
        requires
            k < 11usize,
    ;
}

proof fn lemma_pow2_bsize(k: nat)
    ensures
        vstd::arithmetic::power2::pow2(k) == bsize(k as int),
    decreases k,
{
    if k == 0 {
        vstd::arithmetic::power2::lemma2_to64();
    } else {
        vstd::arithmetic::power2::lemma_pow2_unfold(k);
        lemma_pow2_bsize((k - 1) as nat);
    }
}

/// Merging a block aligned at order `c` with its buddy (the page number with
/// bit `c` flipped) gives a block, at the lower of the two, aligned at `c + 1`.
proof fn lemma_xor_merge(x: usize, c: usize)
    requires
        c < 10,
        x < MAX_PAGES,
        (x as int) % bsize(c as int) == 0,
    ensures
        (x ^ (1usize << c)) < x ==> ((x ^ (1usize << c)) as int) % bsize(c + 1) == 0,
        x < (x ^ (1usize << c)) ==> (x as int) % bsize(c + 1) == 0,
{
    lemma_shl_bsize(c);
    lemma_bsize_pos(c as int);
    vstd::bits::lemma_usize_shr_is_div(x, c);
    lemma_pow2_bsize(c as nat);
    let q = x >> c;
    let bs = bsize(c as int);
    assert(bsize(c + 1) == 2 * bs);
    assert(q as int == x as int / bs);
    assert(x as int == q * bs) by (nonlinear_arith)
        requires
            (x as int) % bs == 0,
            bs >= 1,
            q as int == x as int / bs,
    ;
    assert((x >> c) & 1 == 0 ==> x ^ (1usize << c) == x + (1usize << c)) by (bit_vector)
        requires
            c < 10usize,
            x < 0x100000usize,
    ;
    assert((x >> c) & 1 == 1 ==> (x ^ (1usize << c)) + (1usize << c) == x) by (bit_vector)
        requires
            c < 10usize,
            x < 0x100000usize,
    ;
    assert((x >> c) & 1 == (x >> c) % 2) by (bit_vector);
    if q % 2 == 0 {
        assert(x as int == (q / 2) * bsize(c + 1)) by (nonlinear_arith)
            requires
                x as int == q * bs,
                bsize(c + 1) == 2 * bs,
                q % 2 == 0,
        ;
        vstd::arithmetic::div_mod::lemma_mod_multiples_basic((q / 2) as int, bsize(c + 1));
    } else {
        let b = x ^ (1usize << c);
        let h: int = (q - 1) / 2;
        assert(q - 1 == 2 * h);
        assert((q - 1) * bs == q * bs - bs) by (nonlinear_arith);
        assert((2 * h) * bs == h * (2 * bs)) by (nonlinear_arith);
        assert(b as int == h * bsize(c + 1));
        vstd::arithmetic::div_mod::lemma_mod_multiples_basic(h, bsize(c + 1));
    }
}

// ---------------------------------------------------------------------------
// Bitmap model
// ---------------------------------------------------------------------------

/// Bit `j` of word `w`.
pub open spec fn word_bit(w: u64, j: u64) -> bool {
    (w >> j) & 1u64 == 1u64
}

proof fn lemma_bit_set(w: u64, b: u64)
    requires
        b < 64,
    ensures
        forall|j: u64| j < 64 ==> #[trigger] word_bit(w | (1u64 << b), j) == (j == b || word_bit(w, j)),
{
    assert forall|j: u64| j < 64 implies #[trigger] word_bit(w | (1u64 << b), j) == (j == b
        || word_bit(w, j)) by {
        assert(((w | (1u64 << b)) >> j) & 1u64 == 1u64 <==> (j == b || (w >> j) & 1u64 == 1u64))
            by (bit_vector)
            requires
                b < 64u64,
                j < 64u64,
        ;
    }
}

proof fn lemma_bit_clear(w: u64, b: u64)
    requires
        b < 64,
    ensures
        forall|j: u64| j < 64 ==> #[trigger] word_bit(w & !(1u64 << b), j) == (j != b && word_bit(w, j)),
{
    assert forall|j: u64| j < 64 implies #[trigger] word_bit(w & !(1u64 << b), j) == (j != b
        && word_bit(w, j)) by {
        assert(((w & !(1u64 << b)) >> j) & 1u64 == 1u64 <==> (j != b && (w >> j) & 1u64 == 1u64))
            by (bit_vector)
            requires
                b < 64u64,
                j < 64u64,
        ;
    }
}

proof fn lemma_bit_test(w: u64, b: u64)
    requires
        b < 64,
    ensures
        (w & (1u64 << b) != 0) == word_bit(w, b),
{
    assert((w & (1u64 << b) != 0u64) <==> ((w >> b) & 1u64 == 1u64)) by (bit_vector)
        requires
            b < 64u64,
    ;
}

proof fn lemma_bit_zero()
    ensures
        forall|j: u64| j < 64 ==> !#[trigger] word_bit(0u64, j),
{
    assert forall|j: u64| j < 64 implies !#[trigger] word_bit(0u64, j) by {
        assert((0u64 >> j) & 1u64 == 0u64) by (bit_vector);
    }
}

// ---------------------------------------------------------------------------
// Counting allocated pages
// ---------------------------------------------------------------------------

/// Number of `true` entries among the first `n` entries of `s`.
pub open spec fn count_true(s: Seq<bool>, n: int) -> nat
    decreases n,
{
    if n <= 0 {
        0
    } else {
        count_true(s, n - 1) + if s[n - 1] {
            1nat
        } else {
            0nat
        }
    }
}

proof fn lemma_count_bound(s: Seq<bool>, n: int)
    requires
        0 <= n,
    ensures
        count_true(s, n) <= n,
    decreases n,
{
    if n > 0 {
        lemma_count_bound(s, n - 1);
    }
}

proof fn lemma_count_update(s: Seq<bool>, p: int, v: bool, n: int)
    requires
        0 <= p < s.len(),
        0 <= n <= s.len(),
    ensures
        count_true(s.update(p, v), n) + (if p < n && s[p] {
            1int
        } else {
            0int
        }) == count_true(s, n) + (if p < n && v {
            1int
        } else {
            0int
        }),
    decreases n,
{
    if n > 0 {
        lemma_count_update(s, p, v, n - 1);
    }
}

/// Counting does not look past `n`: two sequences that agree below `n` count alike.
proof fn lemma_count_agree(s: Seq<bool>, t: Seq<bool>, n: int)
    requires
        0 <= n <= s.len(),
        n <= t.len(),
        forall|p: int| 0 <= p < n ==> s[p] == t[p],
    ensures
        count_true(s, n) == count_true(t, n),
    decreases n,
{
    if n > 0 {
        lemma_count_agree(s, t, n - 1);
    }
}

proof fn lemma_count_all(s: Seq<bool>, n: int)
    requires
        0 <= n <= s.len(),
        forall|p: int| 0 <= p < n ==> #[trigger] s[p],
    ensures
        count_true(s, n) == n,
    decreases n,
{
    if n > 0 {
        lemma_count_all(s, n - 1);
    }
}

proof fn lemma_count_full(s: Seq<bool>, n: int)
    requires
        0 <= n <= s.len(),
        count_true(s, n) == n,
    ensures
        forall|p: int| 0 <= p < n ==> #[trigger] s[p],
    decreases n,
{
    if n > 0 {
        lemma_count_bound(s, n - 1);
        if !s[n - 1] {
            assert(count_true(s, n) == count_true(s, n - 1));
        }
        lemma_count_full(s, n - 1);
    }
}

/// Number of pages among the first `n` of a RAM region at `ram_base` that
/// initialisation keeps back (see `page_reserved`).
pub open spec fn reserved_count(ram_base: int, kernel_start: int, kernel_end: int, n: int) -> nat
    decreases n,
{
    if n <= 0 {
        0
    } else {
        reserved_count(ram_base, kernel_start, kernel_end, n - 1) + if page_reserved(
            ram_base,
            n - 1,
            kernel_start,
            kernel_end,
        ) {
            1nat
        } else {
            0nat
        }
    }
}

/// With RAM that starts above the first MiB and a kernel image on page
/// boundaries inside the first `n` pages, exactly the kernel's pages are
/// reserved.
pub proof fn lemma_reserved_kernel_only(ram_base: int, kernel_start: int, kernel_end: int, n: int)
    requires
        ram_base >= 0x100000,
        ram_base <= kernel_start <= kernel_end <= ram_base + n * PAGE_SIZE,
        (kernel_start - ram_base) % (PAGE_SIZE as int) == 0,
        (kernel_end - ram_base) % (PAGE_SIZE as int) == 0,
    ensures
        reserved_count(ram_base, kernel_start, kernel_end, n) == (kernel_end - kernel_start) / (
        PAGE_SIZE as int),
{
    let a = (kernel_start - ram_base) / (PAGE_SIZE as int);
    let b = (kernel_end - ram_base) / (PAGE_SIZE as int);
    assert(kernel_start == ram_base + a * PAGE_SIZE);
    assert(kernel_end == ram_base + b * PAGE_SIZE);
    assert(b <= n);
    lemma_reserved_interval(ram_base, kernel_start, kernel_end, a, b, n);
    assert((kernel_end - kernel_start) / (PAGE_SIZE as int) == b - a);
}

proof fn lemma_reserved_interval(ram_base: int, kernel_start: int, kernel_end: int, a: int, b: int, m: int)
    requires
        ram_base >= 0x100000,
        0 <= a <= b,
        kernel_start == ram_base + a * PAGE_SIZE,
        kernel_end == ram_base + b * PAGE_SIZE,
    ensures
        reserved_count(ram_base, kernel_start, kernel_end, m) == if m <= a {
            0
        } else if m <= b {
            m - a
        } else {
            b - a
        },
    decreases m,
{
    if m > 0 {
        lemma_reserved_interval(ram_base, kernel_start, kernel_end, a, b, m - 1);
        let p = m - 1;
        assert(page_reserved(ram_base, p, kernel_start, kernel_end) == (a <= p < b));
    }
}

proof fn lemma_count_reserved(s: Seq<bool>, ram_base: int, kernel_start: int, kernel_end: int, n: int)
    requires
        0 <= n <= s.len(),
        forall|p: int| 0 <= p < n ==> #[trigger] s[p] == page_reserved(ram_base, p, kernel_start, kernel_end),
    ensures
        count_true(s, n) == reserved_count(ram_base, kernel_start, kernel_end, n),
    decreases n,
{
    if n > 0 {
        lemma_count_reserved(s, ram_base, kernel_start, kernel_end, n - 1);
    }
}

/// Appending `len` free pages does not change the count.
proof fn lemma_count_extend_free(s: Seq<bool>, a: int, len: int)
    requires
        0 <= a,
        0 <= len,
        a + len <= s.len(),
        forall|p: int| a <= p < a + len ==> !s[p],
    ensures
        count_true(s, a + len) == count_true(s, a),
    decreases len,
{
    if len > 0 {
        lemma_count_extend_free(s, a, len - 1);
    }
}

// ---------------------------------------------------------------------------
// Free lists model
// ---------------------------------------------------------------------------

/// Two blocks `[a, a + 2^ka)` and `[b, b + 2^kb)` share no page.
pub open spec fn blocks_disjoint(a: int, ka: int, b: int, kb: int) -> bool {
    a + bsize(ka) <= b || b + bsize(kb) <= a
}

/// A block lies inside the first `total` pages and holds only free pages.
pub open spec fn block_free(pages: Seq<bool>, total: int, e: int, k: int) -> bool {
    &&& 0 <= e
    &&& e + bsize(k) <= total
    &&& forall|p: int| e <= p < e + bsize(k) ==> !#[trigger] pages[p]
}

/// Every listed block is free and no two listed blocks overlap.
pub open spec fn lists_ok(ls: Seq<Seq<u32>>, pages: Seq<bool>, total: int) -> bool {
    &&& ls.len() == MAX_ORDER
    &&& forall|k: int, i: int|
        0 <= k < MAX_ORDER && 0 <= i < ls[k].len() ==> block_free(
            pages,
            total,
            #[trigger] ls[k][i] as int,
            k,
        )
    &&& forall|k1: int, i1: int, k2: int, i2: int|
        0 <= k1 < MAX_ORDER && 0 <= i1 < ls[k1].len() && 0 <= k2 < MAX_ORDER && 0 <= i2
            < ls[k2].len() && !(k1 == k2 && i1 == i2) ==> blocks_disjoint(
            #[trigger] ls[k1][i1] as int,
            k1,
            #[trigger] ls[k2][i2] as int,
            k2,
        )
}

/// A block that is free and overlaps no listed block: it may be added to a list.
pub open spec fn block_fresh(ls: Seq<Seq<u32>>, pages: Seq<bool>, total: int, e: int, k: int) -> bool {
    &&& block_free(pages, total, e, k)
    &&& forall|k2: int, i2: int|
        0 <= k2 < MAX_ORDER && 0 <= i2 < ls[k2].len() ==> blocks_disjoint(
            e,
            k,
            #[trigger] ls[k2][i2] as int,
            k2,
        )
}

proof fn lemma_lists_push(ls: Seq<Seq<u32>>, pages: Seq<bool>, total: int, e: u32, k: int)
    requires
        lists_ok(ls, pages, total),
        0 <= k < MAX_ORDER,
        block_fresh(ls, pages, total, e as int, k),
    ensures
        lists_ok(ls.update(k, ls[k].push(e)), pages, total),
{
    let nl = ls.update(k, ls[k].push(e));
    assert forall|k1: int, i1: int| 0 <= k1 < MAX_ORDER && 0 <= i1 < nl[k1].len() implies block_free(
        pages,
        total,
        #[trigger] nl[k1][i1] as int,
        k1,
    ) by {
        if k1 == k && i1 == ls[k].len() {
        } else {
            assert(nl[k1][i1] == ls[k1][i1]);
        }
    }
    assert forall|k1: int, i1: int, k2: int, i2: int|
        0 <= k1 < MAX_ORDER && 0 <= i1 < nl[k1].len() && 0 <= k2 < MAX_ORDER && 0 <= i2
            < nl[k2].len() && !(k1 == k2 && i1 == i2) implies blocks_disjoint(
        #[trigger] nl[k1][i1] as int,
        k1,
        #[trigger] nl[k2][i2] as int,
        k2,
    ) by {
        let new1 = k1 == k && i1 == ls[k].len();
        let new2 = k2 == k && i2 == ls[k].len();
        if new1 {
            assert(nl[k2][i2] == ls[k2][i2]);
        } else if new2 {
            assert(nl[k1][i1] == ls[k1][i1]);
        } else {
            assert(nl[k1][i1] == ls[k1][i1]);
            assert(nl[k2][i2] == ls[k2][i2]);
        }
    }
}

/// Removing the entry at index `i` of list `k` (by moving the last entry there)
/// keeps the lists valid, and the removed block becomes fresh.
proof fn lemma_lists_swap_remove(ls: Seq<Seq<u32>>, pages: Seq<bool>, total: int, k: int, i: int)
    requires
        lists_ok(ls, pages, total),
        0 <= k < MAX_ORDER,
        0 <= i < ls[k].len(),
    ensures
        lists_ok(ls.update(k, ls[k].update(i, ls[k].last()).drop_last()), pages, total),
        block_fresh(
            ls.update(k, ls[k].update(i, ls[k].last()).drop_last()),
            pages,
            total,
            ls[k][i] as int,
            k,
        ),
{
    let last = ls[k].len() - 1;
    let nl = ls.update(k, ls[k].update(i, ls[k].last()).drop_last());
    // index map from the new lists to the old ones
    assert forall|k1: int, i1: int| 0 <= k1 < MAX_ORDER && 0 <= i1 < nl[k1].len() implies nl[k1][i1]
        == ls[k1][if k1 == k && i1 == i {
        last
    } else {
        i1
    }] by {}
    assert forall|k1: int, i1: int| 0 <= k1 < MAX_ORDER && 0 <= i1 < nl[k1].len() implies block_free(
        pages,
        total,
        #[trigger] nl[k1][i1] as int,
        k1,
    ) by {
        let j1 = if k1 == k && i1 == i {
            last
        } else {
            i1
        };
        assert(nl[k1][i1] == ls[k1][j1]);
    }
    assert forall|k1: int, i1: int, k2: int, i2: int|
        0 <= k1 < MAX_ORDER && 0 <= i1 < nl[k1].len() && 0 <= k2 < MAX_ORDER && 0 <= i2
            < nl[k2].len() && !(k1 == k2 && i1 == i2) implies blocks_disjoint(
        #[trigger] nl[k1][i1] as int,
        k1,
        #[trigger] nl[k2][i2] as int,
        k2,
    ) by {
        let j1 = if k1 == k && i1 == i {
            last
        } else {
            i1
        };
        let j2 = if k2 == k && i2 == i {
            last
        } else {
            i2
        };
        assert(nl[k1][i1] == ls[k1][j1]);
        assert(nl[k2][i2] == ls[k2][j2]);
    }
    assert(block_free(pages, total, ls[k][i] as int, k));
    assert forall|k2: int, i2: int| 0 <= k2 < MAX_ORDER && 0 <= i2 < nl[k2].len() implies blocks_disjoint(
        ls[k][i] as int,
        k,
        #[trigger] nl[k2][i2] as int,
        k2,
    ) by {
        let j2 = if k2 == k && i2 == i {
            last
        } else {
            i2
        };
        assert(nl[k2][i2] == ls[k2][j2]);
    }
}

/// Pages that were free stay free: every listed block stays valid.
proof fn lemma_lists_pages_freed(ls: Seq<Seq<u32>>, pages: Seq<bool>, pages2: Seq<bool>, total: int)
    requires
        lists_ok(ls, pages, total),
        forall|p: int| 0 <= p < total && !pages[p] ==> !pages2[p],
    ensures
        lists_ok(ls, pages2, total),
{
    assert forall|k: int, i: int| 0 <= k < MAX_ORDER && 0 <= i < ls[k].len() implies block_free(
        pages2,
        total,
        #[trigger] ls[k][i] as int,
        k,
    ) by {
        let e = ls[k][i] as int;
        assert(block_free(pages, total, e, k));
        assert forall|p: int| e <= p < e + bsize(k) implies !#[trigger] pages2[p] by {
            assert(!pages[p]);
        }
    }
}

/// Pages change only inside a range that overlaps no listed block.
proof fn lemma_lists_pages_outside(
    ls: Seq<Seq<u32>>,
    pages: Seq<bool>,
    pages2: Seq<bool>,
    total: int,
    a: int,
    ka: int,
)
    requires
        lists_ok(ls, pages, total),
        forall|k2: int, i2: int|
            0 <= k2 < MAX_ORDER && 0 <= i2 < ls[k2].len() ==> blocks_disjoint(
                a,
                ka,
                #[trigger] ls[k2][i2] as int,
                k2,
            ),
        forall|p: int| 0 <= p < total && !(a <= p < a + bsize(ka)) ==> pages2[p] == pages[p],
    ensures
        lists_ok(ls, pages2, total),
{
    assert forall|k: int, i: int| 0 <= k < MAX_ORDER && 0 <= i < ls[k].len() implies block_free(
        pages2,
        total,
        #[trigger] ls[k][i] as int,
        k,
    ) by {
        let e = ls[k][i] as int;
        assert(block_free(pages, total, e, k));
        assert(blocks_disjoint(a, ka, e, k));
        assert forall|p: int| e <= p < e + bsize(k) implies !#[trigger] pages2[p] by {
            assert(!pages[p]);
        }
    }
}

/// Page `p` lies in some block listed in `ls`.
pub open spec fn listed_in(ls: Seq<Seq<u32>>, p: int) -> bool {
    exists|k: int, i: int|
        0 <= k < MAX_ORDER && 0 <= i < ls[k].len() && #[trigger] ls[k][i] <= p && p < ls[k][i] + bsize(k)
}

/// Every listed block of order `k` starts at a multiple of `2^k`.
pub open spec fn aligned_ok(ls: Seq<Seq<u32>>) -> bool {
    forall|k: int, i: int|
        0 <= k < MAX_ORDER && 0 <= i < ls[k].len() ==> (#[trigger] ls[k][i]) as int % bsize(k) == 0
}

/// The free lists after a block is taken from list `j` (its top entry) and
/// split down to order `order`: list `j` loses its top, and each order `k`
/// in `[order, j)` receives the upper half `top + 2^k` split off at that order.
pub open spec fn split_lists(ls: Seq<Seq<u32>>, order: int, j: int) -> Seq<Seq<u32>> {
    Seq::new(
        MAX_ORDER as nat,
        |k: int|
            if k == j {
                ls[j].drop_last()
            } else if order <= k < j {
                seq![(ls[j].last() + bsize(k)) as u32]
            } else {
                ls[k]
            },
    )
}

/// `bsize(k)` divides `bsize(j)` for `k <= j`.
proof fn lemma_bsize_divides(a: int, k: int, j: int)
    requires
        0 <= k <= j,
        a % bsize(j) == 0,
    ensures
        a % bsize(k) == 0,
    decreases j - k,
{
    if k < j {
        lemma_bsize_pos(j - 1);
        assert(bsize(j) == 2 * bsize(j - 1));
        let q = a / bsize(j);
        assert(a == q * bsize(j)) by (nonlinear_arith)
            requires
                a % bsize(j) == 0,
                bsize(j) >= 1,
                q == a / bsize(j),
        ;
        assert(a == (2 * q) * bsize(j - 1)) by (nonlinear_arith)
            requires
                a == q * bsize(j),
                bsize(j) == 2 * bsize(j - 1),
        ;
        vstd::arithmetic::div_mod::lemma_mod_multiples_basic(2 * q, bsize(j - 1));
        lemma_bsize_divides(a, k, j - 1);
    }
}

/// Every free page among the first `total` lies in a block listed in `ls`.
pub open spec fn cover_ok_lists(ls: Seq<Seq<u32>>, pages: Seq<bool>, total: int) -> bool {
    forall|p: int| 0 <= p < total && !#[trigger] pages[p] ==> listed_in(ls, p)
}

/// Taking the top block off list `j` leaves every free page outside it listed.
proof fn lemma_cover_after_pop(ls: Seq<Seq<u32>>, pages: Seq<bool>, total: int, j: int)
    requires
        lists_ok(ls, pages, total),
        cover_ok_lists(ls, pages, total),
        0 <= j < MAX_ORDER,
        ls[j].len() > 0,
    ensures
        forall|p: int|
            0 <= p < total && !pages[p] && !(ls[j].last() <= p < ls[j].last() + bsize(j))
                ==> #[trigger] listed_in(ls.update(j, ls[j].drop_last()), p),
{
    let nl = ls.update(j, ls[j].drop_last());
    assert forall|p: int|
        0 <= p < total && !pages[p] && !(ls[j].last() <= p < ls[j].last() + bsize(j)) implies #[trigger] listed_in(
        nl,
        p,
    ) by {
        assert(listed_in(ls, p));
        let (k, i) = choose|k: int, i: int|
            0 <= k < MAX_ORDER && 0 <= i < ls[k].len() && #[trigger] ls[k][i] <= p && p < ls[k][i]
                + bsize(k);
        if k == j && i == ls[j].len() - 1 {
        } else {
            assert(nl[k][i] == ls[k][i]);
        }
    }
}

/// The buddy of the block of order `c` at page `m`: `m` with bit `c` flipped.
pub open spec fn buddy_of(m: int, c: int) -> int {
    ((m as usize) ^ (1usize << (c as usize))) as int
}

/// `s1` is `s0` after a released block of order `order` at page `pfn` was
/// merged with its free buddies into the block of order `c` at page `m`, which
/// holds it: each order in `[order, c)` lost one listed block, lying inside
/// `[m, m + 2^c)` (the buddy merged at that order); order `c` received `m`
/// when its list had room; no other list changed.
pub open spec fn merged_lists(s0: Seq<Seq<u32>>, s1: Seq<Seq<u32>>, pfn: int, order: int, m: int, c: int) -> bool {
    &&& merge_progress(s0, s1.update(c, s0[c]), pfn, order, m, c)
    &&& s1.len() == MAX_ORDER
    &&& s0[c].len() < MAX_FREE_ENTRIES ==> s1[c] == s0[c].push(m as u32)
    &&& s0[c].len() >= MAX_FREE_ENTRIES ==> s1[c] == s0[c]
}

/// The merge loop of `free` has reached the block of order `c` at page `m`:
/// it holds the released block, each order in `[order, c)` lost one listed
/// block lying inside it, and no other list changed.
pub open spec fn merge_progress(s0: Seq<Seq<u32>>, s1: Seq<Seq<u32>>, pfn: int, order: int, m: int, c: int) -> bool {
    &&& 0 <= order <= c < MAX_ORDER
    &&& m <= pfn
    &&& pfn + bsize(order) <= m + bsize(c)
    &&& s1.len() == MAX_ORDER
    &&& forall|k: int| 0 <= k < MAX_ORDER && !(order <= k < c) ==> #[trigger] s1[k] == s0[k]
    &&& forall|k: int| order <= k < c ==> #[trigger] removed_within(s0[k], s1[k], m, bsize(c))
}

/// `t` is `s` with one entry, lying in `[m, m + n)`, taken out (the top entry
/// moves into its place).
pub open spec fn removed_within(s: Seq<u32>, t: Seq<u32>, m: int, n: int) -> bool {
    exists|i: int|
        0 <= i < s.len() && m <= #[trigger] s[i] < m + n && t == s.update(i, s.last()).drop_last()
}

proof fn lemma_merge_step(
    ls0: Seq<Seq<u32>>,
    ls: Seq<Seq<u32>>,
    pfn: int,
    order: int,
    cur: int,
    c: int,
    m: int,
    j: int,
)
    requires
        merge_progress(ls0, ls, pfn, order, cur, c),
        c + 1 < MAX_ORDER,
        0 <= j < ls[c].len(),
        bsize(c + 1) == 2 * bsize(c),
        m <= cur,
        cur + bsize(c) <= m + bsize(c + 1),
        m <= ls[c][j] < m + bsize(c + 1),
    ensures
        merge_progress(ls0, ls.update(c, ls[c].update(j, ls[c].last()).drop_last()), pfn, order, m, c + 1),
{
    let nl = ls.update(c, ls[c].update(j, ls[c].last()).drop_last());
    assert(ls[c] == ls0[c]);
    assert forall|k: int| order <= k < c + 1 implies #[trigger] removed_within(ls0[k], nl[k], m, bsize(c + 1)) by {
        if k == c {
            assert(m <= ls0[c][j] < m + bsize(c + 1));
        } else {
            assert(removed_within(ls0[k], ls[k], cur, bsize(c)));
            let i = choose|i: int|
                0 <= i < ls0[k].len() && cur <= #[trigger] ls0[k][i] < cur + bsize(c) && ls[k] == ls0[k].update(i, ls0[k].last()).drop_last();
            assert(nl[k] == ls[k]);
            assert(m <= ls0[k][i] < m + bsize(c + 1));
        }
    }
    assert forall|k: int| 0 <= k < MAX_ORDER && !(order <= k < c + 1) implies #[trigger] nl[k] == ls0[k] by {
        assert(nl[k] == ls[k]);
    }
}

/// Taking the entry at `j` off list `c` keeps listed every page that it does
/// not hold.
proof fn lemma_listed_swap_remove(ls: Seq<Seq<u32>>, c: int, j: int, p: int)
    requires
        ls.len() == MAX_ORDER,
        0 <= c < MAX_ORDER,
        0 <= j < ls[c].len(),
        listed_in(ls, p),
        !(ls[c][j] <= p < ls[c][j] + bsize(c)),
    ensures
        listed_in(ls.update(c, ls[c].update(j, ls[c].last()).drop_last()), p),
{
    let nl = ls.update(c, ls[c].update(j, ls[c].last()).drop_last());
    let (k, i) = choose|k: int, i: int|
        0 <= k < MAX_ORDER && 0 <= i < ls[k].len() && #[trigger] ls[k][i] <= p && p < ls[k][i] + bsize(k);
    if k == c && i == ls[c].len() - 1 {
        assert(nl[c][j] == ls[c][i]);
    } else {
        assert(nl[k][i] == ls[k][i]);
    }
}

/// No free list is at its capacity.
pub open spec fn lists_roomy(ls: Seq<Seq<u32>>) -> bool {
    forall|k: int| 0 <= k < MAX_ORDER ==> #[trigger] ls[k].len() < MAX_FREE_ENTRIES
}

// ---------------------------------------------------------------------------
// Free list capacity at initialisation
// ---------------------------------------------------------------------------

/// Whether initialisation may list the block of order `order` at page `pfn`:
/// it is naturally aligned, lies among the first `total` pages, starts at or
/// above 1 MiB and overlaps no page of the kernel image.
pub open spec fn fits_at(pfn: int, order: int, total: int, ram_base: int, kernel_start: int, kernel_end: int) -> bool {
    &&& pfn % bsize(order) == 0
    &&& pfn + bsize(order) <= total
    &&& ram_base + pfn * PAGE_SIZE >= RESERVED_LOW
    &&& !(ram_base + (pfn + bsize(order)) * PAGE_SIZE > kernel_start && ram_base + pfn * PAGE_SIZE < kernel_end)
}

/// A block that initialisation lists at order `k`: it fits, and the block of
/// the next order at the same page does not (the largest that fits there).
pub open spec fn init_block_ok(e: int, k: int, total: int, ram_base: int, kernel_start: int, kernel_end: int) -> bool {
    &&& fits_at(e, k, total, ram_base, kernel_start, kernel_end)
    &&& (k == MAX_ORDER - 1 || !fits_at(e, k + 1, total, ram_base, kernel_start, kernel_end))
}

/// The free lists that initialisation builds: every listed block is the
/// largest that fits at its page, and each list is in increasing page order.
/// With the free lists covering every free page and holding disjoint blocks,
/// this fixes the lists.
pub open spec fn init_layout(ls: Seq<Seq<u32>>, total: int, ram_base: int, kernel_start: int, kernel_end: int) -> bool {
    &&& forall|k: int, i: int|
        0 <= k < MAX_ORDER && 0 <= i < ls[k].len() ==> #[trigger] init_block_ok(
            ls[k][i] as int,
            k,
            total,
            ram_base,
            kernel_start,
            kernel_end,
        )
    &&& forall|k: int, i: int, j: int| 0 <= k < MAX_ORDER && 0 <= i < j < ls[k].len() ==> #[trigger] ls[k][i] < #[trigger] ls[k][j]
}

/// First page of the 1024-page window that holds page `q`.
spec fn win(q: int) -> int {
    (q / 1024) * 1024
}

/// Page `q` is kept free at initialisation but its window is not listed
/// whole: only such pages go to lists of order below the largest.
spec fn edge_page(ram_base: int, kernel_start: int, kernel_end: int, total: int, q: int) -> bool {
    &&& !page_reserved(ram_base, q, kernel_start, kernel_end)
    &&& !fits_at(win(q), 10, total, ram_base, kernel_start, kernel_end)
}

spec fn edge_count(ram_base: int, kernel_start: int, kernel_end: int, total: int, n: int) -> nat
    decreases n,
{
    if n <= 0 {
        0
    } else {
        edge_count(ram_base, kernel_start, kernel_end, total, n - 1) + if edge_page(
            ram_base,
            kernel_start,
            kernel_end,
            total,
            n - 1,
        ) {
            1nat
        } else {
            0nat
        }
    }
}

/// Number of pages below `n` in the window that starts at `w`.
spec fn in_win(w: int, n: int) -> int {
    if n <= w {
        0
    } else if n <= w + 1024 {
        n - w
    } else {
        1024
    }
}

proof fn lemma_edge_mono(ram_base: int, kernel_start: int, kernel_end: int, total: int, a: int, b: int)
    requires
        a <= b,
    ensures
        edge_count(ram_base, kernel_start, kernel_end, total, a) <= edge_count(
            ram_base,
            kernel_start,
            kernel_end,
            total,
            b,
        ),
    decreases b - a,
{
    if a < b {
        lemma_edge_mono(ram_base, kernel_start, kernel_end, total, a, b - 1);
    }
}

proof fn lemma_edge_extend(ram_base: int, kernel_start: int, kernel_end: int, total: int, a: int, len: int)
    requires
        0 <= a,
        0 <= len,
        forall|q: int| a <= q < a + len ==> #[trigger] edge_page(ram_base, kernel_start, kernel_end, total, q),
    ensures
        edge_count(ram_base, kernel_start, kernel_end, total, a + len) == edge_count(
            ram_base,
            kernel_start,
            kernel_end,
            total,
            a,
        ) + len,
    decreases len,
{
    if len > 0 {
        lemma_edge_extend(ram_base, kernel_start, kernel_end, total, a, len - 1);
        assert(edge_page(ram_base, kernel_start, kernel_end, total, a + len - 1));
    }
}

/// An edge page lies in the window of the first page, of the last managed
/// page, of the page where the kernel starts, or of its last page.
proof fn lemma_edge_windows(ram_base: int, kernel_start: int, kernel_end: int, total: int, q: int)
    requires
        0 <= ram_base,
        0 <= q < total,
        edge_page(ram_base, kernel_start, kernel_end, total, q),
    ensures
        win(q) == 0 || win(q) == win(total - 1) || win(q) == win((kernel_start - ram_base) / 4096) || win(q)
            == win((kernel_end - ram_base - 1) / 4096),
{
    lemma_bsize_max();
    let a = win(q);
    assert(a % 1024 == 0);
    assert(a <= q < a + 1024);
    let addr = ram_base + q * 4096;
    if a + 1024 > total {
        assert(win(total - 1) == a);
    } else if ram_base + a * 4096 < 0x100000 {
        assert(a == 0);
    } else {
        assert(ram_base + (a + 1024) * 4096 > kernel_start && ram_base + a * 4096 < kernel_end);
        if addr + 4096 <= kernel_start {
            let t = (kernel_start - ram_base) / 4096;
            assert(a <= t < a + 1024);
            assert(win(t) == a);
        } else {
            assert(addr >= kernel_end);
            let u = (kernel_end - ram_base - 1) / 4096;
            assert(a <= u < a + 1024);
            assert(win(u) == a);
        }
    }
}

/// At most four windows hold edge pages, so there are at most 4096 of them.
proof fn lemma_edge_bound(ram_base: int, kernel_start: int, kernel_end: int, total: int, n: int)
    requires
        0 <= ram_base,
        0 <= n <= total,
    ensures
        edge_count(ram_base, kernel_start, kernel_end, total, n) <= in_win(0, n) + in_win(win(total - 1), n)
            + in_win(win((kernel_start - ram_base) / 4096), n) + in_win(
            win((kernel_end - ram_base - 1) / 4096),
            n,
        ),
        edge_count(ram_base, kernel_start, kernel_end, total, n) <= 4096,
    decreases n,
{
    if n > 0 {
        lemma_edge_bound(ram_base, kernel_start, kernel_end, total, n - 1);
        if edge_page(ram_base, kernel_start, kernel_end, total, n - 1) {
            lemma_edge_windows(ram_base, kernel_start, kernel_end, total, n - 1);
        }
    }
}

/// A block of order `k <= 10` at a page aligned to `2^k` stays inside one
/// 1024-page window.
proof fn lemma_block_in_window(pfn: int, k: int)
    requires
        0 <= pfn,
        0 <= k <= 10,
        pfn % bsize(k) == 0,
    ensures
        pfn + bsize(k) <= win(pfn) + 1024,
        forall|q: int| pfn <= q < pfn + bsize(k) ==> #[trigger] win(q) == win(pfn),
{
    lemma_bsize_max();
    lemma_bsize_pos(k);
    lemma_bsize_pos(10 - k);
    lemma_bsize_add(k, 10 - k);
    let b = bsize(k);
    let c = bsize(10 - k);
    assert(b * c == 1024);
    let r = pfn % 1024;
    vstd::arithmetic::div_mod::lemma_mod_mod(pfn, b, c);
    assert(r % b == 0);
    let m = r / b;
    assert(r == m * b) by (nonlinear_arith)
        requires
            r % b == 0,
            b >= 1,
            m == r / b,
    ;
    assert(m < c) by (nonlinear_arith)
        requires
            r == m * b,
            r < 1024,
            b * c == 1024,
            b >= 1,
    ;
    assert(r + b <= 1024) by (nonlinear_arith)
        requires
            r == m * b,
            m + 1 <= c,
            b * c == 1024,
            b >= 1,
    ;
    assert(pfn == win(pfn) + r);
}

proof fn lemma_bsize_add(a: int, b: int)
    requires
        0 <= a,
        0 <= b,
    ensures
        bsize(a + b) == bsize(a) * bsize(b),
    decreases b,
{
    if b > 0 {
        lemma_bsize_add(a, b - 1);
        assert(bsize(a + b) == 2 * bsize(a + b - 1));
        assert(bsize(b) == 2 * bsize(b - 1));
        assert(bsize(a) * (2 * bsize(b - 1)) == 2 * (bsize(a) * bsize(b - 1))) by (nonlinear_arith);
    }
}

/// The counts that bound the free lists during initialisation, after a page
/// was kept back.
proof fn lemma_init_skip_counts(
    ls: Seq<Seq<u32>>,
    pfn: int,
    ram_base: int,
    kernel_start: int,
    kernel_end: int,
    total: int,
)
    requires
        0 <= pfn,
        0 <= ram_base,
        !fits_at(pfn, 10, total, ram_base, kernel_start, kernel_end),
        pfn % 1024 != 0 ==> !fits_at(win(pfn), 10, total, ram_base, kernel_start, kernel_end),
        forall|k: int|
            0 <= k < 10 ==> #[trigger] ls[k].len() * bsize(k) <= edge_count(
                ram_base,
                kernel_start,
                kernel_end,
                total,
                pfn,
            ),
    ensures
        (pfn + 1) % 1024 != 0 ==> !fits_at(win(pfn + 1), 10, total, ram_base, kernel_start, kernel_end),
        forall|k: int|
            0 <= k < 10 ==> #[trigger] ls[k].len() * bsize(k) <= edge_count(
                ram_base,
                kernel_start,
                kernel_end,
                total,
                pfn + 1,
            ),
{
    lemma_edge_mono(ram_base, kernel_start, kernel_end, total, pfn, pfn + 1);
    if (pfn + 1) % 1024 != 0 {
        if pfn % 1024 == 0 {
            assert(win(pfn + 1) == pfn);
            assert(win(pfn) == pfn);
        } else {
            assert(win(pfn + 1) == win(pfn));
        }
    }
}

/// The counts that bound the free lists during initialisation, after the
/// block of order `order` at `pfn` was offered to its list.
proof fn lemma_init_push_counts(
    ls: Seq<Seq<u32>>,
    nl: Seq<Seq<u32>>,
    pfn: int,
    order: int,
    ram_base: int,
    kernel_start: int,
    kernel_end: int,
    total: int,
)
    requires
        0 <= pfn,
        0 <= ram_base,
        0 <= order < MAX_ORDER,
        ls.len() == MAX_ORDER,
        fits_at(pfn, order, total, ram_base, kernel_start, kernel_end),
        order < 10 ==> !fits_at(pfn, 10, total, ram_base, kernel_start, kernel_end),
        nl.len() == MAX_ORDER,
        forall|k: int| 0 <= k < MAX_ORDER && k != order ==> #[trigger] nl[k] == ls[k],
        nl[order].len() <= ls[order].len() + 1,
        forall|q: int| pfn <= q < pfn + bsize(order) ==> !#[trigger] page_reserved(ram_base, q, kernel_start, kernel_end),
        pfn % 1024 != 0 ==> !fits_at(win(pfn), 10, total, ram_base, kernel_start, kernel_end),
        forall|k: int|
            0 <= k < 10 ==> #[trigger] ls[k].len() * bsize(k) <= edge_count(
                ram_base,
                kernel_start,
                kernel_end,
                total,
                pfn,
            ),
        ls[10].len() * 1024 <= pfn,
    ensures
        (pfn + bsize(order)) % 1024 != 0 ==> !fits_at(
            win(pfn + bsize(order)),
            10,
            total,
            ram_base,
            kernel_start,
            kernel_end,
        ),
        forall|k: int|
            0 <= k < 10 ==> #[trigger] nl[k].len() * bsize(k) <= edge_count(
                ram_base,
                kernel_start,
                kernel_end,
                total,
                pfn + bsize(order),
            ),
        nl[10].len() * 1024 <= pfn + bsize(order),
{
    lemma_bsize_max();
    lemma_bsize_pos(order);
    let b = bsize(order);
    let e0 = edge_count(ram_base, kernel_start, kernel_end, total, pfn);
    lemma_edge_mono(ram_base, kernel_start, kernel_end, total, pfn, pfn + b);
    if order == 10 {
        assert(pfn % 1024 == 0);
        assert((pfn + b) % 1024 == 0);
        assert forall|k: int| 0 <= k < 10 implies #[trigger] nl[k].len() * bsize(k) <= edge_count(
            ram_base,
            kernel_start,
            kernel_end,
            total,
            pfn + b,
        ) by {
            assert(nl[k] == ls[k]);
        }
    } else {
        lemma_block_in_window(pfn, order);
        let w = win(pfn);
        assert(!fits_at(w, 10, total, ram_base, kernel_start, kernel_end)) by {
            if pfn % 1024 == 0 {
                assert(w == pfn);
            }
        }
        assert forall|q: int| pfn <= q < pfn + b implies #[trigger] edge_page(
            ram_base,
            kernel_start,
            kernel_end,
            total,
            q,
        ) by {
            assert(win(q) == w);
            assert(!page_reserved(ram_base, q, kernel_start, kernel_end));
        }
        lemma_edge_extend(ram_base, kernel_start, kernel_end, total, pfn, b);
        assert forall|k: int| 0 <= k < 10 implies #[trigger] nl[k].len() * bsize(k) <= edge_count(
            ram_base,
            kernel_start,
            kernel_end,
            total,
            pfn + b,
        ) by {
            if k == order {
                assert(nl[k].len() * b <= ls[k].len() * b + b) by (nonlinear_arith)
                    requires
                        nl[k].len() <= ls[k].len() + 1,
                        b >= 1,
                ;
            } else {
                assert(nl[k] == ls[k]);
            }
        }
        assert(nl[10] == ls[10]);
        if (pfn + b) % 1024 != 0 {
            assert(pfn + b < w + 1024);
            assert(win(pfn + b) == w);
        }
    }
}

// ---------------------------------------------------------------------------
// Free stack
// ---------------------------------------------------------------------------

/// A stack of page frame numbers: the free list of one order.
struct FreeStack {
    entries: Vec<u32>,
    count: usize,
}

impl FreeStack {
    spec fn wf(&self) -> bool {
        self.entries.len() == MAX_FREE_ENTRIES && self.count <= MAX_FREE_ENTRIES
    }

    /// The page frame numbers on the stack, bottom first.
    spec fn elems(&self) -> Seq<u32> {
        self.entries@.take(self.count as int)
    }

    fn new() -> (s: Self)
        ensures
            s.wf(),
            s.elems() == Seq::<u32>::empty(),
    {
        let mut entries: Vec<u32> = Vec::new();
        let mut i: usize = 0;
        while i < MAX_FREE_ENTRIES
            invariant
                i <= MAX_FREE_ENTRIES,
                entries.len() == i,
            decreases MAX_FREE_ENTRIES - i,
        {
            entries.push(0);
            i += 1;
        }
        let s = FreeStack { entries, count: 0 };
        assert(s.elems() =~= Seq::<u32>::empty());
        s
    }

    fn push(&mut self, pfn: u32) -> (r: bool)
        requires
            old(self).wf(),
        ensures
            final(self).wf(),
            r == (old(self).count < MAX_FREE_ENTRIES),
            r ==> final(self).elems() == old(self).elems().push(pfn),
            !r ==> final(self).elems() == old(self).elems(),
    {
        if self.count < MAX_FREE_ENTRIES {
            let ghost before = self.elems();
            self.entries.set(self.count, pfn);
            self.count += 1;
            assert(self.elems() =~= before.push(pfn));
            true
        } else {
            false
        }
    }

    fn pop(&mut self) -> (r: Option<u32>)
        requires
            old(self).wf(),
        ensures
            final(self).wf(),
            old(self).elems().len() > 0 ==> r == Some(old(self).elems().last()) && final(self).elems() == old(self).elems().drop_last(),
            old(self).elems().len() == 0 ==> r is None && final(self).elems() == old(self).elems(),
    {
        if self.count > 0 {
            let ghost before = self.elems();
            self.count -= 1;
            assert(self.elems() =~= before.drop_last());
            Some(self.entries[self.count])
        } else {
            None
        }
    }

    fn is_empty(&self) -> (r: bool)
        requires
            self.wf(),
        ensures
            r == (self.elems().len() == 0),
    {
        self.count == 0
    }

    /// Remove one occurrence of `pfn`, moving the top entry into its place.
    fn remove_value(&mut self, pfn: u32) -> (r: bool)
        requires
            old(self).wf(),
        ensures
            final(self).wf(),
            r == old(self).elems().contains(pfn),
            r ==> exists|i: int|
                0 <= i < old(self).elems().len() && old(self).elems()[i] == pfn && final(self).elems() == old(self).elems().update(i, old(self).elems().last()).drop_last(),
            !r ==> final(self).elems() == old(self).elems(),
    {
        let ghost before = self.elems();
        let mut i: usize = 0;
        while i < self.count
            invariant
                self.wf(),
                self.elems() == before,
                before == old(self).elems(),
                i <= self.count,
                forall|j: int| 0 <= j < i ==> before[j] != pfn,
            decreases self.count - i,
        {
            if self.entries[i] == pfn {
                assert(before[i as int] == pfn);
                self.count -= 1;
                let top = self.entries[self.count];
                self.entries.set(i, top);
                assert(self.elems() =~= before.update(i as int, before.last()).drop_last());
                return true;
            }
            i += 1;
        }
        proof {
            if before.contains(pfn) {
                let j = choose|j: int| 0 <= j < before.len() && before[j] == pfn;
                assert(before[j] != pfn);
            }
        }
        false
    }
}

// ---------------------------------------------------------------------------
// Buddy allocator
// ---------------------------------------------------------------------------

/// Whether page `p` of a RAM region that starts at `ram_base` is kept back at
/// initialisation: it touches the first MiB or the kernel image.
pub open spec fn page_reserved(ram_base: int, p: int, kernel_start: int, kernel_end: int) -> bool {
    let a = ram_base + p * PAGE_SIZE;
    a < 0x100000 || (a + PAGE_SIZE > kernel_start && a < kernel_end)
}

pub struct BuddyAllocator {
    /// Free lists per order.
    free_lists: Vec<FreeStack>,
    /// Bit set = page allocated.
    bitmap: Vec<u64>,
    /// Physical address of the first managed page.
    base_addr: u64,
    /// Pages managed.
    total_pages: usize,
    /// Pages currently allocated.
    allocated_pages: usize,
    initialized: bool,
    /// One entry per trackable page: whether it is allocated.
    pages: Ghost<Seq<bool>>,
}

impl BuddyAllocator {
    // ----- model -----

    /// Physical address of the first managed page.
    pub closed spec fn base(&self) -> int {
        self.base_addr as int
    }

    /// Number of managed pages.
    pub closed spec fn total(&self) -> int {
        self.total_pages as int
    }

    /// Number of allocated pages.
    pub closed spec fn used(&self) -> int {
        self.allocated_pages as int
    }

    pub closed spec fn initialized_spec(&self) -> bool {
        self.initialized
    }

    /// Whether page `p` (counted from the base) is allocated.
    pub closed spec fn page_allocated(&self, p: int) -> bool {
        self.pages@[p]
    }

    /// The free list of order `k`, bottom first.
    pub open spec fn free_list(&self, k: int) -> Seq<u32> {
        self.lists()[k]
    }

    /// All pages of `[start, start + n)` are allocated.
    pub open spec fn range_allocated(&self, start: int, n: int) -> bool {
        forall|p: int| start <= p < start + n ==> #[trigger] self.page_allocated(p)
    }

    /// All pages of `[start, start + n)` are free.
    pub open spec fn range_free(&self, start: int, n: int) -> bool {
        forall|p: int| start <= p < start + n ==> !#[trigger] self.page_allocated(p)
    }

    /// Page number of a physical address.
    pub open spec fn pfn_of(&self, addr: u64) -> int {
        (addr - self.base()) / (PAGE_SIZE as int)
    }

    /// The merge in `free` goes on past the block of order `c` at page `m`:
    /// its buddy lies in the managed pages, all its pages are free, and it is
    /// on `list_c`, the free list of order `c`.
    pub open spec fn buddy_mergeable(&self, list_c: Seq<u32>, m: int, c: int) -> bool {
        let b = buddy_of(m, c);
        &&& 0 <= b
        &&& b + bsize(c) <= self.total()
        &&& self.range_free(b, bsize(c))
        &&& list_c.contains(b as u32)
    }

    /// Whether `free(addr, order)` releases pages (rather than ignoring the
    /// call): the allocator is set up, the order is valid, and the whole
    /// block at `addr` lies in the managed range and is allocated.
    pub open spec fn free_releases(&self, addr: u64, order: usize) -> bool {
        &&& self.initialized_spec()
        &&& order < MAX_ORDER
        &&& addr >= self.base()
        &&& self.pfn_of(addr) + bsize(order as int) <= self.total()
        &&& self.range_allocated(self.pfn_of(addr), bsize(order as int))
    }

    /// Everything but the page states and the count of used pages is unchanged.
    pub open spec fn same_frame(&self, other: &Self) -> bool {
        &&& self.base() == other.base()
        &&& self.total() == other.total()
        &&& self.initialized_spec() == other.initialized_spec()
    }

    /// `s1` is `s0` after a successful allocation of `2^order` pages at `addr`:
    /// the pages were free, are now allocated, and nothing else changed.
    pub open spec fn allocated_block(s0: &Self, s1: &Self, order: usize, addr: u64) -> bool {
        let pfn = s0.pfn_of(addr);
        &&& s0.initialized_spec()
        &&& order < MAX_ORDER
        &&& s1.same_frame(s0)
        &&& addr >= s0.base()
        &&& addr == s0.base() + pfn * PAGE_SIZE
        &&& 0 <= pfn
        &&& pfn + bsize(order as int) <= s0.total()
        &&& s0.range_free(pfn, bsize(order as int))
        &&& s1.range_allocated(pfn, bsize(order as int))
        &&& forall|p: int|
            0 <= p < s0.total() && !(pfn <= p < pfn + bsize(order as int))
                ==> #[trigger] s1.page_allocated(p) == s0.page_allocated(p)
        &&& s1.used() == s0.used() + bsize(order as int)
    }

    /// `s1` is `s0` after `2^order` pages at `addr` were released: they are
    /// now free, and no other page changed.
    pub open spec fn released_block(s0: &Self, s1: &Self, order: usize, addr: u64) -> bool {
        let pfn = s0.pfn_of(addr);
        &&& s1.same_frame(s0)
        &&& s1.range_free(pfn, bsize(order as int))
        &&& forall|p: int|
            0 <= p < s0.total() && !(pfn <= p < pfn + bsize(order as int))
                ==> #[trigger] s1.page_allocated(p) == s0.page_allocated(p)
        &&& s1.used() == s0.used() - bsize(order as int)
    }

    /// The free lists of every order, smallest order first.
    pub closed spec fn lists(&self) -> Seq<Seq<u32>> {
        Seq::new(MAX_ORDER as nat, |k: int| self.free_lists@[k].elems())
    }

    /// Every free managed page lies in a listed block.
    pub open spec fn lists_cover(&self) -> bool {
        forall|p: int|
            0 <= p < self.total() && !#[trigger] self.page_allocated(p) ==> listed_in(self.lists(), p)
    }

    /// Every listed block of order `k` starts at a multiple of `2^k` pages.
    pub open spec fn lists_aligned(&self) -> bool {
        aligned_ok(self.lists())
    }

    /// The smallest order `>= order` whose free list holds a block
    /// (`MAX_ORDER` if there is none).
    pub open spec fn first_nonempty(&self, order: int) -> int
        decreases MAX_ORDER - order,
    {
        if order >= MAX_ORDER {
            MAX_ORDER as int
        } else if self.free_list(order).len() > 0 {
            order
        } else {
            self.first_nonempty(order + 1)
        }
    }

    spec fn bitmap_linked(&self) -> bool {
        &&& self.bitmap.len() == BITMAP_SIZE
        &&& self.pages@.len() == MAX_PAGES
        &&& forall|p: int|
            0 <= p < MAX_PAGES ==> #[trigger] self.pages@[p] == word_bit(
                self.bitmap@[p / 64],
                (p % 64) as u64,
            )
    }

    spec fn stacks_ok(&self) -> bool {
        &&& self.free_lists.len() == MAX_ORDER
        &&& forall|k: int| 0 <= k < MAX_ORDER ==> #[trigger] self.free_lists@[k].wf()
    }

    /// The allocator invariant.
    pub closed spec fn wf(&self) -> bool {
        &&& self.stacks_ok()
        &&& self.bitmap_linked()
        &&& self.total_pages <= MAX_PAGES
        &&& self.base_addr + self.total_pages * PAGE_SIZE <= u64::MAX
        &&& self.allocated_pages == count_true(self.pages@, self.total_pages as int)
        &&& lists_ok(self.lists(), self.pages@, self.total_pages as int)
        &&& !self.initialized ==> {
            &&& self.total_pages == 0
            &&& forall|k: int| 0 <= k < MAX_ORDER ==> (#[trigger] self.lists()[k]).len() == 0
            &&& forall|p: int| 0 <= p < MAX_PAGES ==> !#[trigger] self.pages@[p]
        }
    }

    pub proof fn lemma_used_le_total(&self)
        requires
            self.wf(),
        ensures
            0 <= self.used() <= self.total(),
            self.total() <= MAX_PAGES,
            self.base() + self.total() * PAGE_SIZE <= u64::MAX,
    {
        lemma_count_bound(self.pages@, self.total_pages as int);
    }

    // ----- construction -----

    pub fn new() -> (a: Self)
        ensures
            a.wf(),
            !a.initialized_spec(),
            a.total() == 0,
            a.used() == 0,
    {
        let mut free_lists: Vec<FreeStack> = Vec::new();
        let mut k: usize = 0;
        while k < MAX_ORDER
            invariant
                k <= MAX_ORDER,
                free_lists.len() == k,
                forall|j: int|
                    0 <= j < k ==> (#[trigger] free_lists@[j]).wf() && free_lists@[j].elems().len()
                        == 0,
            decreases MAX_ORDER - k,
        {
            free_lists.push(FreeStack::new());
            k += 1;
        }
        let mut bitmap: Vec<u64> = Vec::new();
        let mut w: usize = 0;
        while w < BITMAP_SIZE
            invariant
                w <= BITMAP_SIZE,
                bitmap.len() == w,
                forall|j: int| 0 <= j < w ==> bitmap@[j] == 0u64,
            decreases BITMAP_SIZE - w,
        {
            bitmap.push(0);
            w += 1;
        }
        let a = BuddyAllocator {
            free_lists,
            bitmap,
            base_addr: 0,
            total_pages: 0,
            allocated_pages: 0,
            initialized: false,
            pages: Ghost(Seq::new(MAX_PAGES as nat, |p: int| false)),
        };
        proof {
            lemma_bit_zero();
            assert forall|p: int| 0 <= p < MAX_PAGES implies #[trigger] a.pages@[p] == word_bit(
                a.bitmap@[p / 64],
                (p % 64) as u64,
            ) by {
                assert(a.bitmap@[p / 64] == 0u64);
            }
            assert forall|k: int| 0 <= k < MAX_ORDER implies (#[trigger] a.lists()[k]).len() == 0 by {}
        }
        a
    }

    // ----- bitmap -----

    fn set_allocated(&mut self, pfn: usize)
        requires
            old(self).bitmap_linked(),
        ensures
            final(self).bitmap_linked(),
            pfn < MAX_PAGES ==> final(self).pages@ == old(self).pages@.update(pfn as int, true),
            pfn >= MAX_PAGES ==> final(self).pages@ == old(self).pages@,
            final(self).free_lists == old(self).free_lists,
            final(self).base_addr == old(self).base_addr,
            final(self).total_pages == old(self).total_pages,
            final(self).allocated_pages == old(self).allocated_pages,
            final(self).initialized == old(self).initialized,
    {
        if pfn < MAX_PAGES {
            let w = pfn / 64;
            let b = (pfn % 64) as u64;
            let old_word = self.bitmap[w];
            let new_word = old_word | (1u64 << b);
            proof {
                lemma_bit_set(old_word, b);
            }
            self.bitmap.set(w, new_word);
            let ghost old_pages = self.pages@;
            self.pages = Ghost(self.pages@.update(pfn as int, true));
            assert forall|p: int| 0 <= p < MAX_PAGES implies #[trigger] self.pages@[p] == word_bit(
                self.bitmap@[p / 64],
                (p % 64) as u64,
            ) by {
                if p / 64 == w as int {
                    assert(word_bit(new_word, (p % 64) as u64) == ((p % 64) as u64 == b || word_bit(
                        old_word,
                        (p % 64) as u64,
                    )));
                    assert(old_pages[p] == word_bit(old_word, (p % 64) as u64));
                } else {
                    assert(old_pages[p] == word_bit(self.bitmap@[p / 64], (p % 64) as u64));
                }
            }
        }
    }

    fn clear_allocated(&mut self, pfn: usize)
        requires
            old(self).bitmap_linked(),
        ensures
            final(self).bitmap_linked(),
            pfn < MAX_PAGES ==> final(self).pages@ == old(self).pages@.update(pfn as int, false),
            pfn >= MAX_PAGES ==> final(self).pages@ == old(self).pages@,
            final(self).free_lists == old(self).free_lists,
            final(self).base_addr == old(self).base_addr,
            final(self).total_pages == old(self).total_pages,
            final(self).allocated_pages == old(self).allocated_pages,
            final(self).initialized == old(self).initialized,
    {
        if pfn < MAX_PAGES {
            let w = pfn / 64;
            let b = (pfn % 64) as u64;
            let old_word = self.bitmap[w];
            let new_word = old_word & !(1u64 << b);
            proof {
                lemma_bit_clear(old_word, b);
            }
            self.bitmap.set(w, new_word);
            let ghost old_pages = self.pages@;
            self.pages = Ghost(self.pages@.update(pfn as int, false));
            assert forall|p: int| 0 <= p < MAX_PAGES implies #[trigger] self.pages@[p] == word_bit(
                self.bitmap@[p / 64],
                (p % 64) as u64,
            ) by {
                if p / 64 == w as int {
                    assert(word_bit(new_word, (p % 64) as u64) == ((p % 64) as u64 != b && word_bit(
                        old_word,
                        (p % 64) as u64,
                    )));
                    assert(old_pages[p] == word_bit(old_word, (p % 64) as u64));
                } else {
                    assert(old_pages[p] == word_bit(self.bitmap@[p / 64], (p % 64) as u64));
                }
            }
        }
    }

    fn is_allocated(&self, pfn: usize) -> (r: bool)
        requires
            self.bitmap_linked(),
        ensures
            pfn < MAX_PAGES ==> r == self.pages@[pfn as int],
            pfn >= MAX_PAGES ==> r,
    {
        if pfn < MAX_PAGES {
            let w = self.bitmap[pfn / 64];
            proof {
                lemma_bit_test(w, (pfn % 64) as u64);
                assert(self.pages@[pfn as int] == word_bit(
                    self.bitmap@[pfn as int / 64],
                    (pfn as int % 64) as u64,
                ));
            }
            w & (1u64 << ((pfn % 64) as u64)) != 0
        } else {
            true
        }
    }

    /// Whether the `2^order` pages from `pfn` are all managed and free.
    fn is_buddy_free(&self, pfn: usize, order: usize) -> (r: bool)
        requires
            self.bitmap_linked(),
            self.total_pages <= MAX_PAGES,
            order < MAX_ORDER,
            pfn < MAX_PAGES,
        ensures
            r == (pfn + bsize(order as int) <= self.total_pages && forall|p: int|
                pfn <= p < pfn + bsize(order as int) ==> !self.pages@[p]),
    {
        let pages = order_pages(order);
        let mut i: usize = 0;
        while i < pages
            invariant
                self.bitmap_linked(),
                self.total_pages <= MAX_PAGES,
                pfn < MAX_PAGES,
                pages == bsize(order as int),
                pages <= 1024,
                i <= pages,
                i == 0 || pfn + i <= self.total_pages,
                forall|p: int| pfn <= p < pfn + i ==> !self.pages@[p],
            decreases pages - i,
        {
            if pfn + i >= self.total_pages || self.is_allocated(pfn + i) {
                return false;
            }
            i += 1;
        }
        true
    }

    fn remove_from_free_list(&mut self, pfn: u32, order: usize) -> (r: bool)
        requires
            old(self).stacks_ok(),
            order < MAX_ORDER,
        ensures
            final(self).stacks_ok(),
            r == old(self).lists()[order as int].contains(pfn),
            r ==> exists|i: int|
                0 <= i < old(self).lists()[order as int].len() && old(self).lists()[order as int][i]
                    == pfn && final(self).lists() == old(self).lists().update(
                    order as int,
                    old(self).lists()[order as int].update(
                        i,
                        old(self).lists()[order as int].last(),
                    ).drop_last(),
                ),
            !r ==> final(self).lists() == old(self).lists(),
            final(self).bitmap == old(self).bitmap,
            final(self).pages == old(self).pages,
            final(self).base_addr == old(self).base_addr,
            final(self).total_pages == old(self).total_pages,
            final(self).allocated_pages == old(self).allocated_pages,
            final(self).initialized == old(self).initialized,
    {
        let ghost ls = self.lists();
        let r = self.free_lists[order].remove_value(pfn);
        proof {
            assert forall|k: int| 0 <= k < MAX_ORDER implies #[trigger] self.free_lists@[k].wf() by {
                if k != order as int {
                    assert(self.free_lists@[k] == old(self).free_lists@[k]);
                }
            }
            if r {
                let i = choose|i: int|
                    0 <= i < ls[order as int].len() && ls[order as int][i] == pfn
                        && self.free_lists@[order as int].elems() == ls[order as int].update(
                        i,
                        ls[order as int].last(),
                    ).drop_last();
                assert(self.lists() =~= ls.update(
                    order as int,
                    ls[order as int].update(i, ls[order as int].last()).drop_last(),
                ));
            } else {
                assert(self.lists() =~= ls);
            }
        }
        r
    }

    /// Push a block on the free list of its order.
    fn push_block(&mut self, order: usize, pfn: u32)
        requires
            old(self).stacks_ok(),
            order < MAX_ORDER,
        ensures
            final(self).stacks_ok(),
            final(self).lists() == old(self).lists().update(
                order as int,
                old(self).lists()[order as int].push(pfn),
            ) || final(self).lists() == old(self).lists(),
            old(self).lists()[order as int].len() < MAX_FREE_ENTRIES ==> final(self).lists() == old(
                self,
            ).lists().update(order as int, old(self).lists()[order as int].push(pfn)),
            old(self).lists()[order as int].len() >= MAX_FREE_ENTRIES ==> final(self).lists() == old(self).lists(),
            final(self).bitmap == old(self).bitmap,
            final(self).pages == old(self).pages,
            final(self).base_addr == old(self).base_addr,
            final(self).total_pages == old(self).total_pages,
            final(self).allocated_pages == old(self).allocated_pages,
            final(self).initialized == old(self).initialized,
    {
        let ghost ls = self.lists();
        proof {
            assert(self.free_lists@[order as int].wf());
            assert(ls[order as int] == self.free_lists@[order as int].elems());
        }
        let pushed = self.free_lists[order].push(pfn);
        proof {
            assert forall|k: int| 0 <= k < MAX_ORDER implies #[trigger] self.free_lists@[k].wf() by {
                if k != order as int {
                    assert(self.free_lists@[k] == old(self).free_lists@[k]);
                }
            }
            if pushed {
                assert(self.lists() =~= ls.update(order as int, ls[order as int].push(pfn)));
            } else {
                assert(self.lists() =~= ls);
            }
        }
    }

    /// Pop a block from the free list of order `order`.
    fn pop_block(&mut self, order: usize) -> (r: Option<u32>)
        requires
            old(self).stacks_ok(),
            order < MAX_ORDER,
        ensures
            final(self).stacks_ok(),
            old(self).lists()[order as int].len() > 0 ==> r == Some(
                old(self).lists()[order as int].last(),
            ) && final(self).lists() == old(self).lists().update(
                order as int,
                old(self).lists()[order as int].drop_last(),
            ),
            old(self).lists()[order as int].len() == 0 ==> r is None && final(self).lists() == old(self).lists(),
            final(self).bitmap == old(self).bitmap,
            final(self).pages == old(self).pages,
            final(self).base_addr == old(self).base_addr,
            final(self).total_pages == old(self).total_pages,
            final(self).allocated_pages == old(self).allocated_pages,
            final(self).initialized == old(self).initialized,
    {
        let ghost ls = self.lists();
        let r = self.free_lists[order].pop();
        proof {
            assert forall|k: int| 0 <= k < MAX_ORDER implies #[trigger] self.free_lists@[k].wf() by {
                if k != order as int {
                    assert(self.free_lists@[k] == old(self).free_lists@[k]);
                }
            }
            if ls[order as int].len() > 0 {
                assert(self.lists() =~= ls.update(order as int, ls[order as int].drop_last()));
            } else {
                assert(self.lists() =~= ls);
            }
        }
        r
    }

    fn list_is_empty(&self, order: usize) -> (r: bool)
        requires
            self.stacks_ok(),
            order < MAX_ORDER,
        ensures
            r == (self.lists()[order as int].len() == 0),
    {
        self.free_lists[order].is_empty()
    }

    // ----- public operations -----

    /// Whether page `p` of a block that is considered at initialisation may be
    /// put on a free list as one block of order `order`.
    fn block_fits(
        pfn: usize,
        order: usize,
        total: usize,
        ram_base: u64,
        kernel_start: u64,
        kernel_end: u64,
    ) -> (r: bool)
        requires
            order < MAX_ORDER,
            pfn < total <= MAX_PAGES,
            ram_base + total * PAGE_SIZE <= u64::MAX,
        ensures
            r == fits_at(
                pfn as int,
                order as int,
                total as int,
                ram_base as int,
                kernel_start as int,
                kernel_end as int,
            ),
    {
        let block_pages = order_pages(order);
        if pfn % block_pages == 0 && pfn + block_pages <= total {
            let block_start = ram_base + (pfn as u64) * PAGE_SIZE;
            let block_end = block_start + (block_pages as u64) * PAGE_SIZE;
            let overlaps_reserved = block_start < RESERVED_LOW;
            let overlaps_kernel = block_end > kernel_start && block_start < kernel_end;
            !overlaps_reserved && !overlaps_kernel
        } else {
            false
        }
    }

    /// Initialise with the RAM region `[ram_base, ram_base + ram_size)`.
    /// Pages touching the first MiB or the kernel image stay allocated; every
    /// other page goes on a free list, in the largest naturally aligned block
    /// that holds no reserved page.
    pub fn init(&mut self, ram_base: u64, ram_size: u64, kernel_start: u64, kernel_end: u64)
        requires
            old(self).wf(),
            !old(self).initialized_spec(),
            ram_base + ram_size <= u64::MAX,
        ensures
            final(self).wf(),
            final(self).initialized_spec(),
            final(self).base() == ram_base,
            final(self).total() == if ram_size / PAGE_SIZE > MAX_PAGES {
                MAX_PAGES as int
            } else {
                (ram_size / PAGE_SIZE) as int
            },
            forall|p: int|
                0 <= p < final(self).total() ==> #[trigger] final(self).page_allocated(p)
                    == page_reserved(ram_base as int, p, kernel_start as int, kernel_end as int),
            final(self).used() == reserved_count(
                ram_base as int,
                kernel_start as int,
                kernel_end as int,
                final(self).total(),
            ),
            final(self).lists_aligned(),
            final(self).lists_cover(),
            init_layout(
                final(self).lists(),
                final(self).total(),
                ram_base as int,
                kernel_start as int,
                kernel_end as int,
            ),
    {
        self.base_addr = ram_base;
        let total = ram_size / PAGE_SIZE;
        self.total_pages = if total > MAX_PAGES as u64 {
            MAX_PAGES
        } else {
            total as usize
        };
        assert(self.total_pages * PAGE_SIZE <= ram_size);
        proof {
            assert(lists_ok(self.lists(), self.pages@, self.total_pages as int)) by {
                assert forall|k: int| 0 <= k < MAX_ORDER implies (#[trigger] self.lists()[k]).len()
                    == 0 by {
                    assert(old(self).lists()[k].len() == 0);
                }
            }
        }
        let mut pfn: usize = 0;
        while pfn < self.total_pages
            invariant
                self.stacks_ok(),
                self.bitmap_linked(),
                self.base_addr == ram_base,
                !self.initialized,
                self.total_pages <= MAX_PAGES,
                self.total_pages * PAGE_SIZE <= ram_size,
                ram_base + ram_size <= u64::MAX,
                self.total_pages == (if ram_size / PAGE_SIZE > MAX_PAGES {
                    MAX_PAGES as int
                } else {
                    (ram_size / PAGE_SIZE) as int
                }),
                pfn <= self.total_pages,
                lists_ok(self.lists(), self.pages@, self.total_pages as int),
                forall|k: int, i: int|
                    0 <= k < MAX_ORDER && 0 <= i < self.lists()[k].len() ==> #[trigger] self.lists()[k][i]
                        + bsize(k) <= pfn,
                forall|p: int|
                    0 <= p < pfn ==> #[trigger] self.pages@[p] == page_reserved(
                        ram_base as int,
                        p,
                        kernel_start as int,
                        kernel_end as int,
                    ),
                forall|p: int| pfn <= p < MAX_PAGES ==> !#[trigger] self.pages@[p],
                self.allocated_pages == count_true(self.pages@, pfn as int),
                aligned_ok(self.lists()),
                init_layout(
                    self.lists(),
                    self.total_pages as int,
                    ram_base as int,
                    kernel_start as int,
                    kernel_end as int,
                ),
                lists_roomy(self.lists()) ==> forall|p: int|
                    0 <= p < pfn && !#[trigger] self.pages@[p] ==> listed_in(self.lists(), p),
                pfn as int % 1024 != 0 ==> !fits_at(
                    win(pfn as int),
                    10,
                    self.total_pages as int,
                    ram_base as int,
                    kernel_start as int,
                    kernel_end as int,
                ),
                forall|k: int|
                    0 <= k < 10 ==> #[trigger] self.lists()[k].len() * bsize(k) <= edge_count(
                        ram_base as int,
                        kernel_start as int,
                        kernel_end as int,
                        self.total_pages as int,
                        pfn as int,
                    ),
                self.lists()[10].len() * 1024 <= pfn,
            decreases self.total_pages - pfn,
        {
            let page_addr = ram_base + (pfn as u64) * PAGE_SIZE;
            if page_addr < RESERVED_LOW || (page_addr >= kernel_start && page_addr < kernel_end) {
                let ghost pg = self.pages@;
                proof {
                    lemma_bsize_max();
                    assert(!fits_at(
                        pfn as int,
                        10,
                        self.total_pages as int,
                        ram_base as int,
                        kernel_start as int,
                        kernel_end as int,
                    ));
                }
                self.mark_reserved_page(pfn, ram_base, kernel_start, kernel_end);
                proof {
                    lemma_init_skip_counts(
                        self.lists(),
                        pfn as int,
                        ram_base as int,
                        kernel_start as int,
                        kernel_end as int,
                        self.total_pages as int,
                    );
                    if lists_roomy(self.lists()) {
                        assert forall|p: int| 0 <= p < pfn + 1 && !#[trigger] self.pages@[p] implies listed_in(
                            self.lists(),
                            p,
                        ) by {
                            assert(p != pfn);
                            assert(!pg[p]);
                        }
                    }
                }
                pfn += 1;
                continue;
            }
            let mut order = MAX_ORDER - 1;
            while order > 0 && !Self::block_fits(
                pfn,
                order,
                self.total_pages,
                ram_base,
                kernel_start,
                kernel_end,
            )
                invariant
                    order < MAX_ORDER,
                    pfn < self.total_pages <= MAX_PAGES,
                    ram_base + self.total_pages * PAGE_SIZE <= u64::MAX,
                    forall|o: int|
                        order < o < MAX_ORDER ==> !#[trigger] fits_at(
                            pfn as int,
                            o,
                            self.total_pages as int,
                            ram_base as int,
                            kernel_start as int,
                            kernel_end as int,
                        ),
                decreases order,
            {
                order -= 1;
            }
            if Self::block_fits(pfn, order, self.total_pages, ram_base, kernel_start, kernel_end) {
                let block_pages = order_pages(order);
                let ghost ls = self.lists();
                proof {
                    // the new block lies past every listed block and holds free pages
                    assert(block_free(self.pages@, self.total_pages as int, pfn as int, order as int));
                    assert forall|k2: int, i2: int|
                        0 <= k2 < MAX_ORDER && 0 <= i2 < ls[k2].len() implies blocks_disjoint(
                        pfn as int,
                        order as int,
                        #[trigger] ls[k2][i2] as int,
                        k2,
                    ) by {}
                    lemma_lists_push(
                        ls,
                        self.pages@,
                        self.total_pages as int,
                        pfn as u32,
                        order as int,
                    );
                    lemma_count_extend_free(self.pages@, pfn as int, block_pages as int);
                    assert forall|p: int| pfn <= p < pfn + block_pages implies #[trigger] self.pages@[p]
                        == page_reserved(
                        ram_base as int,
                        p,
                        kernel_start as int,
                        kernel_end as int,
                    ) by {
                        assert(p * PAGE_SIZE >= pfn * PAGE_SIZE);
                        assert((p + 1) * PAGE_SIZE <= (pfn + block_pages) * PAGE_SIZE);
                    }
                }
                self.push_block(order, pfn as u32);
                proof {
                    let nl = self.lists();
                    assert forall|k: int, i: int|
                        0 <= k < MAX_ORDER && 0 <= i < self.lists()[k].len() implies #[trigger] self.lists()[k][i]
                        + bsize(k) <= pfn + block_pages by {
                        if !(k == order as int && i == ls[k].len()) {
                            assert(self.lists()[k][i] == ls[k][i]);
                        }
                    }
                    assert forall|k: int, i: int|
                        0 <= k < MAX_ORDER && 0 <= i < nl[k].len() implies (#[trigger] nl[k][i]) as int
                        % bsize(k) == 0 by {
                        if !(k == order as int && i == ls[k].len()) {
                            assert(nl[k][i] == ls[k][i]);
                        }
                    }
                    assert forall|q: int| pfn <= q < pfn + block_pages implies !#[trigger] page_reserved(
                        ram_base as int,
                        q,
                        kernel_start as int,
                        kernel_end as int,
                    ) by {
                        assert(self.pages@[q] == page_reserved(
                            ram_base as int,
                            q,
                            kernel_start as int,
                            kernel_end as int,
                        ));
                        assert(!self.pages@[q]);
                    }
                    assert forall|k: int, i: int|
                        0 <= k < MAX_ORDER && 0 <= i < nl[k].len() implies #[trigger] init_block_ok(
                        nl[k][i] as int,
                        k,
                        self.total_pages as int,
                        ram_base as int,
                        kernel_start as int,
                        kernel_end as int,
                    ) by {
                        if !(k == order as int && i == ls[k].len()) {
                            assert(nl[k][i] == ls[k][i]);
                            assert(init_block_ok(
                                ls[k][i] as int,
                                k,
                                self.total_pages as int,
                                ram_base as int,
                                kernel_start as int,
                                kernel_end as int,
                            ));
                        } else {
                            assert(nl[k][i] == pfn as u32);
                        }
                    }
                    assert forall|k: int, i: int, j: int|
                        0 <= k < MAX_ORDER && 0 <= i < j < nl[k].len() implies #[trigger] nl[k][i] < #[trigger] nl[k][j] by {
                        if k == order as int && j == ls[k].len() {
                            assert(nl[k][i] == ls[k][i]);
                            assert(ls[k][i] + bsize(k) <= pfn);
                            lemma_bsize_pos(k);
                        } else {
                            assert(nl[k][i] == ls[k][i]);
                            assert(nl[k][j] == ls[k][j]);
                        }
                    }
                    lemma_init_push_counts(
                        ls,
                        nl,
                        pfn as int,
                        order as int,
                        ram_base as int,
                        kernel_start as int,
                        kernel_end as int,
                        self.total_pages as int,
                    );
                    if lists_roomy(nl) {
                        assert(nl == ls.update(order as int, ls[order as int].push(pfn as u32))) by {
                            assert(nl[order as int].len() < MAX_FREE_ENTRIES);
                        }
                        assert(lists_roomy(ls)) by {
                            assert forall|k: int| 0 <= k < MAX_ORDER implies #[trigger] ls[k].len()
                                < MAX_FREE_ENTRIES by {
                                assert(nl[k].len() < MAX_FREE_ENTRIES);
                            }
                        }
                        assert forall|p: int| 0 <= p < pfn + block_pages && !#[trigger] self.pages@[p] implies listed_in(
                            nl,
                            p,
                        ) by {
                            if p >= pfn {
                                assert(nl[order as int][ls[order as int].len() as int] == pfn as u32);
                            } else {
                                assert(listed_in(ls, p));
                                let (k, i) = choose|k: int, i: int|
                                    0 <= k < MAX_ORDER && 0 <= i < ls[k].len() && #[trigger] ls[k][i] <= p
                                        && p < ls[k][i] + bsize(k);
                                assert(nl[k][i] == ls[k][i]);
                            }
                        }
                    }
                }
                pfn += block_pages;
            } else {
                let ghost pg = self.pages@;
                proof {
                    assert(order == 0);
                    assert(!fits_at(
                        pfn as int,
                        10,
                        self.total_pages as int,
                        ram_base as int,
                        kernel_start as int,
                        kernel_end as int,
                    ));
                }
                self.mark_reserved_page(pfn, ram_base, kernel_start, kernel_end);
                proof {
                    lemma_init_skip_counts(
                        self.lists(),
                        pfn as int,
                        ram_base as int,
                        kernel_start as int,
                        kernel_end as int,
                        self.total_pages as int,
                    );
                    if lists_roomy(self.lists()) {
                        assert forall|p: int| 0 <= p < pfn + 1 && !#[trigger] self.pages@[p] implies listed_in(
                            self.lists(),
                            p,
                        ) by {
                            assert(p != pfn);
                            assert(!pg[p]);
                        }
                    }
                }
                pfn += 1;
            }
        }
        self.initialized = true;
        proof {
            lemma_edge_bound(
                ram_base as int,
                kernel_start as int,
                kernel_end as int,
                self.total_pages as int,
                self.total_pages as int,
            );
            assert forall|k: int| 0 <= k < MAX_ORDER implies #[trigger] self.lists()[k].len()
                < MAX_FREE_ENTRIES by {
                if k < 10 {
                    lemma_bsize_pos(k);
                    assert(self.lists()[k].len() * bsize(k) <= 4096);
                    assert(self.lists()[k].len() <= 4096) by (nonlinear_arith)
                        requires
                            self.lists()[k].len() * bsize(k) <= 4096,
                            bsize(k) >= 1,
                    ;
                }
            }
            assert(lists_roomy(self.lists()));
            if lists_roomy(self.lists()) {
                assert forall|p: int| 0 <= p < self.total() && !#[trigger] self.page_allocated(p) implies listed_in(
                    self.lists(),
                    p,
                ) by {
                    assert(!self.pages@[p]);
                }
            }
            lemma_count_reserved(
                self.pages@,
                ram_base as int,
                kernel_start as int,
                kernel_end as int,
                self.total_pages as int,
            );
        }
    }

    /// One step of `init`: page `pfn` stays allocated.
    fn mark_reserved_page(&mut self, pfn: usize, ram_base: u64, kernel_start: u64, kernel_end: u64)
        requires
            old(self).stacks_ok(),
            old(self).bitmap_linked(),
            pfn < old(self).total_pages <= MAX_PAGES,
            lists_ok(old(self).lists(), old(self).pages@, old(self).total_pages as int),
            forall|k: int, i: int|
                0 <= k < MAX_ORDER && 0 <= i < old(self).lists()[k].len() ==> #[trigger] old(self).lists()[k][i] + bsize(k) <= pfn,
            forall|p: int| pfn <= p < MAX_PAGES ==> !#[trigger] old(self).pages@[p],
            old(self).allocated_pages == count_true(old(self).pages@, pfn as int),
        ensures
            final(self).stacks_ok(),
            final(self).bitmap_linked(),
            final(self).pages@ == old(self).pages@.update(pfn as int, true),
            lists_ok(final(self).lists(), final(self).pages@, final(self).total_pages as int),
            final(self).lists() == old(self).lists(),
            final(self).allocated_pages == count_true(final(self).pages@, pfn + 1),
            final(self).base_addr == old(self).base_addr,
            final(self).total_pages == old(self).total_pages,
            final(self).initialized == old(self).initialized,
    {
        let ghost pages0 = self.pages@;
        self.set_allocated(pfn);
        proof {
            lemma_count_update(pages0, pfn as int, true, pfn as int + 1);
            lemma_count_agree(pages0.update(pfn as int, true), pages0, pfn as int);
            lemma_count_bound(pages0, pfn as int);
            let ls = self.lists();
            assert(self.lists() == old(self).lists());
            assert forall|k2: int, i2: int| 0 <= k2 < MAX_ORDER && 0 <= i2 < ls[k2].len() implies blocks_disjoint(
                pfn as int,
                0,
                #[trigger] ls[k2][i2] as int,
                k2,
            ) by {}
            lemma_lists_pages_outside(ls, pages0, self.pages@, self.total_pages as int, pfn as int, 0);
        }
        self.allocated_pages += 1;
    }

    proof fn lemma_first_nonempty(&self, order: int, c: int)
        requires
            0 <= order <= c <= MAX_ORDER,
            forall|k: int| order <= k < c ==> #[trigger] self.free_list(k).len() == 0,
            c < MAX_ORDER ==> self.free_list(c).len() > 0,
        ensures
            self.first_nonempty(order) == c,
        decreases c - order,
    {
        if order < c {
            self.lemma_first_nonempty(order + 1, c);
        }
    }

    /// With every free page listed, the lists are all empty exactly when every
    /// page is allocated.
    proof fn lemma_cover_empty(&self)
        requires
            self.wf(),
            self.lists_cover(),
        ensures
            (forall|k: int| 0 <= k < MAX_ORDER ==> #[trigger] self.free_list(k).len() == 0) <==> self.used()
                == self.total(),
    {
        let n = self.total_pages as int;
        let ls = self.lists();
        if forall|k: int| 0 <= k < MAX_ORDER ==> #[trigger] self.free_list(k).len() == 0 {
            assert forall|p: int| 0 <= p < n implies #[trigger] self.pages@[p] by {
                if !self.pages@[p] {
                    assert(!self.page_allocated(p));
                    assert(listed_in(ls, p));
                    let (k, i) = choose|k: int, i: int|
                        0 <= k < MAX_ORDER && 0 <= i < ls[k].len() && #[trigger] ls[k][i] <= p && p < ls[k][i]
                            + bsize(k);
                    assert(self.free_list(k).len() == 0);
                }
            }
            lemma_count_all(self.pages@, n);
        }
        if self.used() == self.total() {
            lemma_count_full(self.pages@, n);
            assert forall|k: int| 0 <= k < MAX_ORDER implies #[trigger] self.free_list(k).len() == 0 by {
                if self.free_list(k).len() > 0 {
                    let e = ls[k][0] as int;
                    assert(block_free(self.pages@, n, e, k));
                    lemma_bsize_pos(k);
                    assert(!self.pages@[e]);
                }
            }
        }
    }

    /// Find the smallest order `>= order` whose free list is not empty
    /// (`MAX_ORDER` if there is none).
    fn find_order(&self, order: usize) -> (c: usize)
        requires
            self.stacks_ok(),
            order < MAX_ORDER,
        ensures
            order <= c <= MAX_ORDER,
            c < MAX_ORDER ==> self.lists()[c as int].len() > 0,
            forall|k: int| order <= k < c ==> #[trigger] self.lists()[k].len() == 0,
    {
        let mut current_order = order;
        while current_order < MAX_ORDER
            invariant
                self.stacks_ok(),
                order <= current_order <= MAX_ORDER,
                forall|k: int| order <= k < current_order ==> #[trigger] self.lists()[k].len() == 0,
            decreases MAX_ORDER - current_order,
        {
            if !self.list_is_empty(current_order) {
                return current_order;
            }
            current_order += 1;
        }
        current_order
    }

    /// Allocate `2^order` contiguous pages; returns the physical address of the
    /// first, or `None` before initialisation, for an order out of range, or
    /// when no free list of order `>= order` holds a block.
    pub fn alloc_block(&mut self, order: usize) -> (r: Option<u64>)
        requires
            old(self).wf(),
        ensures
            final(self).wf(),
            final(self).same_frame(old(self)),
            (!old(self).initialized_spec() || order >= MAX_ORDER) ==> r is None,
            (old(self).initialized_spec() && order < MAX_ORDER) ==> (r is None <==> forall|k: int|
                order <= k < MAX_ORDER ==> #[trigger] old(self).free_list(k).len() == 0),
            r is None ==> *final(self) == *old(self),
            r matches Some(addr) ==> {
                let j = old(self).first_nonempty(order as int);
                &&& Self::allocated_block(old(self), final(self), order, addr)
                &&& old(self).pfn_of(addr) == old(self).free_list(j).last()
                &&& final(self).lists() == split_lists(old(self).lists(), order as int, j)
            },
            old(self).lists_aligned() ==> final(self).lists_aligned(),
            old(self).lists_aligned() ==> (r matches Some(addr) ==> old(self).pfn_of(addr) % bsize(
                order as int,
            ) == 0),
            old(self).lists_cover() ==> final(self).lists_cover(),
    {
        if !self.initialized || order >= MAX_ORDER {
            return None;
        }
        let mut current_order = self.find_order(order);
        if current_order >= MAX_ORDER {
            proof {
                assert forall|k: int| order <= k < MAX_ORDER implies #[trigger] old(self).free_list(k).len()
                    == 0 by {
                    assert(self.lists()[k] == self.free_list(k));
                }
            }
            return None;
        }
        let ghost ls0 = self.lists();
        let ghost pages0 = self.pages@;
        let ghost total = self.total_pages as int;
        let ghost j = current_order as int;
        proof {
            self.lemma_first_nonempty(order as int, j);
            assert(self.lists()[current_order as int] == self.free_list(current_order as int));
            assert(ls0[current_order as int].len() > 0);
            lemma_lists_swap_remove(
                ls0,
                pages0,
                total,
                current_order as int,
                ls0[current_order as int].len() - 1,
            );
            assert(ls0[current_order as int].update(
                ls0[current_order as int].len() - 1,
                ls0[current_order as int].last(),
            ).drop_last() =~= ls0[current_order as int].drop_last());
        }
        let popped = self.pop_block(current_order);
        let pfn: usize = match popped {
            Some(p) => p as usize,
            None => {
                return None;
            },
        };
        proof {
            lemma_bsize_bound(current_order as int);
            assert(self.lists() =~= Seq::new(
                MAX_ORDER as nat,
                |k: int|
                    if k == j {
                        ls0[j].drop_last()
                    } else if current_order <= k < j {
                        seq![(pfn + bsize(k)) as u32]
                    } else {
                        ls0[k]
                    },
            ));
            if cover_ok_lists(ls0, pages0, total) {
                lemma_cover_after_pop(ls0, pages0, total, j);
            }
            if aligned_ok(ls0) {
                assert(ls0[j][ls0[j].len() - 1] as int % bsize(j) == 0);
                assert forall|k: int, i: int|
                    0 <= k < MAX_ORDER && 0 <= i < self.lists()[k].len() implies (
                    #[trigger] self.lists()[k][i]) as int % bsize(k) == 0 by {
                    assert(self.lists()[k][i] == ls0[k][i]);
                }
            }
        }
        // split down to the requested order
        while current_order > order
            invariant
                self.stacks_ok(),
                self.bitmap_linked(),
                self.pages@ == pages0,
                self.total_pages == total,
                self.total_pages <= MAX_PAGES,
                self.base_addr == old(self).base_addr,
                self.allocated_pages == old(self).allocated_pages,
                self.initialized,
                self.base_addr + self.total_pages * PAGE_SIZE <= u64::MAX,
                self.allocated_pages == count_true(self.pages@, self.total_pages as int),
                order <= current_order <= j < MAX_ORDER,
                lists_ok(self.lists(), pages0, total),
                block_fresh(self.lists(), pages0, total, pfn as int, current_order as int),
                pfn == ls0[j].last(),
                ls0.len() == MAX_ORDER,
                forall|k: int| order <= k < j ==> #[trigger] ls0[k].len() == 0,
                self.lists() == Seq::new(
                    MAX_ORDER as nat,
                    |k: int|
                        if k == j {
                            ls0[j].drop_last()
                        } else if current_order <= k < j {
                            seq![(pfn + bsize(k)) as u32]
                        } else {
                            ls0[k]
                        },
                ),
                cover_ok_lists(ls0, pages0, total) ==> forall|p: int|
                    0 <= p < total && !pages0[p] && !(pfn <= p < pfn + bsize(current_order as int))
                        ==> #[trigger] listed_in(self.lists(), p),
                aligned_ok(ls0) ==> aligned_ok(self.lists()) && pfn as int % bsize(
                    current_order as int,
                ) == 0,
            decreases current_order,
        {
            current_order -= 1;
            let half = order_pages(current_order);
            let buddy_pfn = pfn + half;
            let ghost ls = self.lists();
            proof {
                let c = current_order as int;
                assert(bsize(c + 1) == 2 * bsize(c));
                assert(block_fresh(ls, pages0, total, buddy_pfn as int, c)) by {
                    assert forall|k2: int, i2: int|
                        0 <= k2 < MAX_ORDER && 0 <= i2 < ls[k2].len() implies blocks_disjoint(
                        buddy_pfn as int,
                        c,
                        #[trigger] ls[k2][i2] as int,
                        k2,
                    ) by {
                        assert(blocks_disjoint(pfn as int, c + 1, ls[k2][i2] as int, k2));
                    }
                }
                lemma_lists_push(ls, pages0, total, buddy_pfn as u32, c);
                assert(ls[c] == ls0[c]);
                assert(ls[c].len() == 0);
            }
            self.push_block(current_order, buddy_pfn as u32);
            proof {
                let c = current_order as int;
                let nl = self.lists();
                assert(nl == ls.update(c, ls[c].push(buddy_pfn as u32)));
                assert forall|k2: int, i2: int|
                    0 <= k2 < MAX_ORDER && 0 <= i2 < nl[k2].len() implies blocks_disjoint(
                    pfn as int,
                    c,
                    #[trigger] nl[k2][i2] as int,
                    k2,
                ) by {
                    if k2 == c && i2 == ls[c].len() {
                        assert(nl[k2][i2] == buddy_pfn as u32);
                    } else {
                        assert(nl[k2][i2] == ls[k2][i2]);
                        assert(blocks_disjoint(pfn as int, c + 1, ls[k2][i2] as int, k2));
                    }
                }
                assert(ls[c].push(buddy_pfn as u32) =~= seq![(pfn + bsize(c)) as u32]);
                assert(nl =~= Seq::new(
                    MAX_ORDER as nat,
                    |k: int|
                        if k == j {
                            ls0[j].drop_last()
                        } else if current_order <= k < j {
                            seq![(pfn + bsize(k)) as u32]
                        } else {
                            ls0[k]
                        },
                ));
                if cover_ok_lists(ls0, pages0, total) {
                    assert forall|p: int|
                        0 <= p < total && !pages0[p] && !(pfn <= p < pfn + bsize(c)) implies #[trigger] listed_in(
                        nl,
                        p,
                    ) by {
                        if pfn + bsize(c) <= p < pfn + bsize(c + 1) {
                            assert(nl[c][0] == buddy_pfn as u32);
                            assert(nl[c][0] <= p < nl[c][0] + bsize(c));
                        } else {
                            assert(listed_in(ls, p));
                            let (k, i) = choose|k: int, i: int|
                                0 <= k < MAX_ORDER && 0 <= i < ls[k].len() && #[trigger] ls[k][i] <= p
                                    && p < ls[k][i] + bsize(k);
                            assert(nl[k][i] == ls[k][i]);
                        }
                    }
                }
                if aligned_ok(ls0) {
                    lemma_bsize_divides(pfn as int, c, c + 1);
                    vstd::arithmetic::div_mod::lemma_mod_adds(pfn as int, bsize(c), bsize(c));
                    vstd::arithmetic::div_mod::lemma_mod_self_0(bsize(c));
                    assert forall|k: int, i: int|
                        0 <= k < MAX_ORDER && 0 <= i < nl[k].len() implies (#[trigger] nl[k][i]) as int
                        % bsize(k) == 0 by {
                        if k == c && i == ls[c].len() {
                            assert(nl[k][i] == buddy_pfn as u32);
                        } else {
                            assert(nl[k][i] == ls[k][i]);
                        }
                    }
                }
            }
        }
        // mark the pages of the block allocated
        let block_pages = order_pages(order);
        let ghost ls1 = self.lists();
        let mut i: usize = 0;
        while i < block_pages
            invariant
                self.stacks_ok(),
                self.bitmap_linked(),
                self.lists() == ls1,
                self.total_pages == total,
                self.total_pages <= MAX_PAGES,
                self.base_addr == old(self).base_addr,
                self.allocated_pages == old(self).allocated_pages,
                self.initialized,
                block_pages == bsize(order as int),
                i <= block_pages,
                pfn + block_pages <= total,
                lists_ok(ls1, pages0, total),
                block_fresh(ls1, pages0, total, pfn as int, order as int),
                lists_ok(ls1, self.pages@, total),
                forall|p: int|
                    0 <= p < MAX_PAGES ==> #[trigger] self.pages@[p] == (pages0[p] || (pfn <= p
                        < pfn + i)),
                count_true(self.pages@, total) == old(self).allocated_pages + i,
            decreases block_pages - i,
        {
            let ghost pg = self.pages@;
            self.set_allocated(pfn + i);
            proof {
                lemma_count_update(pg, (pfn + i) as int, true, total);
                assert(!pg[(pfn + i) as int]);
                assert forall|p: int| 0 <= p < total && !(pfn <= p < pfn + bsize(order as int)) implies self.pages@[p]
                    == pg[p] by {}
                lemma_lists_pages_outside(ls1, pg, self.pages@, total, pfn as int, order as int);
                assert(self.pages@ =~= pg.update((pfn + i) as int, true));
            }
            i += 1;
        }
        proof {
            lemma_count_bound(self.pages@, total);
        }
        self.allocated_pages += block_pages;
        let addr = self.base_addr + (pfn as u64) * PAGE_SIZE;
        proof {
            assert(old(self).pfn_of(addr) == pfn as int);
            assert(self.lists() =~= split_lists(ls0, order as int, j));
            if old(self).lists_cover() {
                assert forall|p: int| 0 <= p < total && !#[trigger] pages0[p] implies listed_in(ls0, p) by {
                    assert(!old(self).page_allocated(p));
                }
                assert forall|p: int| 0 <= p < self.total() && !#[trigger] self.page_allocated(p) implies listed_in(
                    self.lists(),
                    p,
                ) by {
                    assert(!pages0[p]);
                }
            }
        }
        Some(addr)
    }

    /// Allocate a single page.
    pub fn alloc_page(&mut self) -> (r: Option<u64>)
        requires
            old(self).wf(),
        ensures
            final(self).wf(),
            final(self).same_frame(old(self)),
            !old(self).initialized_spec() ==> r is None,
            old(self).initialized_spec() ==> (r is None <==> forall|k: int|
                0 <= k < MAX_ORDER ==> #[trigger] old(self).free_list(k).len() == 0),
            r is None ==> *final(self) == *old(self),
            old(self).initialized_spec() && old(self).lists_cover() ==> (r is None <==> old(self).used()
                == old(self).total()),
            old(self).lists_cover() ==> final(self).lists_cover(),
            old(self).lists_aligned() ==> final(self).lists_aligned(),
            r matches Some(addr) ==> {
                let pfn = old(self).pfn_of(addr);
                &&& addr >= old(self).base()
                &&& addr == old(self).base() + pfn * PAGE_SIZE
                &&& 0 <= pfn < old(self).total()
                &&& !old(self).page_allocated(pfn)
                &&& final(self).page_allocated(pfn)
                &&& forall|p: int|
                    0 <= p < old(self).total() && p != pfn ==> #[trigger] final(self).page_allocated(p)
                        == old(self).page_allocated(p)
                &&& final(self).used() == old(self).used() + 1
            },
    {
        proof {
            if self.initialized && self.lists_cover() {
                self.lemma_cover_empty();
            }
        }
        let r = self.alloc_block(0);
        proof {
            if let Some(addr) = r {
                let pfn = old(self).pfn_of(addr);
                assert(bsize(0) == 1);
                assert(old(self).range_free(pfn, 1));
                assert(!old(self).page_allocated(pfn));
                assert(self.range_allocated(pfn, 1));
                assert(self.page_allocated(pfn));
            }
        }
        r
    }

    /// Release the `2^order` pages at `addr`.  The call is ignored before
    /// initialisation, for an order out of range, for an address outside the
    /// managed pages, and when a page of the block is already free (double
    /// free).  Neighbouring free buddies are merged into larger blocks, and
    /// the merged block goes on the list of its order.
    pub fn free(&mut self, addr: u64, order: usize)
        requires
            old(self).wf(),
        ensures
            final(self).wf(),
            final(self).same_frame(old(self)),
            !old(self).free_releases(addr, order) ==> *final(self) == *old(self),
            old(self).free_releases(addr, order) ==> Self::released_block(
                old(self),
                final(self),
                order,
                addr,
            ),
            old(self).free_releases(addr, order) ==> exists|m: int, c: int|
                merged_lists(
                    old(self).lists(),
                    final(self).lists(),
                    old(self).pfn_of(addr),
                    order as int,
                    m,
                    c,
                ) && (c == MAX_ORDER - 1 || !final(self).buddy_mergeable(old(self).free_list(c), m, c)),
            old(self).lists_cover() && (forall|k: int|
                0 <= k < MAX_ORDER ==> #[trigger] old(self).free_list(k).len() < MAX_FREE_ENTRIES)
                ==> final(self).lists_cover(),
            old(self).lists_aligned() && old(self).pfn_of(addr) % bsize(order as int) == 0
                ==> final(self).lists_aligned(),
    {
        if !self.initialized || order >= MAX_ORDER {
            return;
        }
        if addr < self.base_addr {
            return;
        }
        let pfn64 = (addr - self.base_addr) / PAGE_SIZE;
        proof {
            lemma_bsize_pos(order as int);
            assert(old(self).pfn_of(addr) == pfn64);
        }
        if pfn64 >= self.total_pages as u64 {
            return;
        }
        let pfn = pfn64 as usize;
        if !self.is_allocated(pfn) {
            proof {
                assert(!old(self).page_allocated(pfn as int));
            }
            return;
        }
        let block_pages = order_pages(order);
        if block_pages > self.total_pages || pfn > self.total_pages - block_pages {
            return;
        }
        let mut j: usize = 0;
        while j < block_pages
            invariant
                self == old(self),
                self.wf(),
                old(self).pfn_of(addr) == pfn,
                block_pages == bsize(order as int),
                pfn + block_pages <= self.total_pages,
                j <= block_pages,
                forall|p: int| pfn <= p < pfn + j ==> #[trigger] self.page_allocated(p),
            decreases block_pages - j,
        {
            if !self.is_allocated(pfn + j) {
                proof {
                    assert(!old(self).page_allocated(pfn + j));
                }
                return;
            }
            j += 1;
        }
        let ghost total = self.total_pages as int;
        let ghost pages0 = self.pages@;
        let ghost ls0 = self.lists();
        proof {
            assert forall|p: int| pfn <= p < pfn + block_pages implies #[trigger] pages0[p] by {
                assert(old(self).page_allocated(p));
            }
        }
        let mut i: usize = 0;
        while i < block_pages
            invariant
                self.stacks_ok(),
                self.bitmap_linked(),
                self.lists() == ls0,
                self.total_pages == total,
                self.total_pages <= MAX_PAGES,
                self.base_addr == old(self).base_addr,
                self.allocated_pages == old(self).allocated_pages,
                self.initialized,
                block_pages == bsize(order as int),
                i <= block_pages,
                pfn + block_pages <= total,
                forall|p: int| pfn <= p < pfn + block_pages ==> #[trigger] pages0[p],
                old(self).allocated_pages == count_true(pages0, total),
                lists_ok(ls0, self.pages@, total),
                forall|p: int|
                    0 <= p < MAX_PAGES ==> #[trigger] self.pages@[p] == (pages0[p] && !(pfn <= p
                        < pfn + i)),
                count_true(self.pages@, total) + i == old(self).allocated_pages,
            decreases block_pages - i,
        {
            let ghost pg = self.pages@;
            self.clear_allocated(pfn + i);
            proof {
                lemma_count_update(pg, (pfn + i) as int, false, total);
                assert(pg[(pfn + i) as int]);
                lemma_lists_pages_freed(ls0, pg, self.pages@, total);
                assert(self.pages@ =~= pg.update((pfn + i) as int, false));
            }
            i += 1;
        }
        proof {
            lemma_count_bound(self.pages@, total);
        }
        self.allocated_pages -= block_pages;
        let ghost pages1 = self.pages@;
        // the released block is free and overlaps no listed block
        proof {
            assert forall|k2: int, i2: int|
                0 <= k2 < MAX_ORDER && 0 <= i2 < ls0[k2].len() implies blocks_disjoint(
                pfn as int,
                order as int,
                #[trigger] ls0[k2][i2] as int,
                k2,
            ) by {
                let e = ls0[k2][i2] as int;
                assert(block_free(pages0, total, e, k2));
                lemma_bsize_pos(k2);
                lemma_bsize_pos(order as int);
                if !blocks_disjoint(pfn as int, order as int, e, k2) {
                    let q = if e >= pfn { e } else { pfn as int };
                    assert(pages0[q]);
                    assert(!pages0[q]);
                }
            }
            assert(block_fresh(ls0, pages1, total, pfn as int, order as int));
        }
        // coalesce with free buddies
        let mut current_pfn = pfn;
        let mut current_order = order;
        proof {
            if cover_ok_lists(ls0, pages0, total) {
                assert forall|p: int|
                    0 <= p < total && !pages1[p] && !(pfn <= p < pfn + bsize(order as int)) implies #[trigger] listed_in(
                    ls0,
                    p,
                ) by {
                    assert(!pages0[p]);
                }
            }
        }
        while current_order < MAX_ORDER - 1
            invariant
                self.stacks_ok(),
                self.bitmap_linked(),
                self.pages@ == pages1,
                self.total_pages == total,
                self.total_pages <= MAX_PAGES,
                self.base_addr == old(self).base_addr,
                self.base_addr + self.total_pages * PAGE_SIZE <= u64::MAX,
                self.initialized,
                self.allocated_pages == count_true(pages1, total),
                order <= current_order < MAX_ORDER,
                current_pfn < MAX_PAGES,
                lists_ok(self.lists(), pages1, total),
                block_fresh(self.lists(), pages1, total, current_pfn as int, current_order as int),
                ls0.len() == MAX_ORDER,
                merge_progress(ls0, self.lists(), pfn as int, order as int, current_pfn as int, current_order as int),
                cover_ok_lists(ls0, pages0, total) ==> forall|p: int|
                    0 <= p < total && !pages1[p] && !(current_pfn <= p < current_pfn + bsize(
                        current_order as int,
                    )) ==> #[trigger] listed_in(self.lists(), p),
                aligned_ok(ls0) && pfn as int % bsize(order as int) == 0 ==> aligned_ok(self.lists())
                    && current_pfn as int % bsize(current_order as int) == 0,
            ensures
                self.stacks_ok(),
                self.bitmap_linked(),
                self.pages@ == pages1,
                self.total_pages == total,
                self.total_pages <= MAX_PAGES,
                self.base_addr == old(self).base_addr,
                self.base_addr + self.total_pages * PAGE_SIZE <= u64::MAX,
                self.initialized,
                self.allocated_pages == count_true(pages1, total),
                order <= current_order < MAX_ORDER,
                current_pfn < MAX_PAGES,
                lists_ok(self.lists(), pages1, total),
                block_fresh(self.lists(), pages1, total, current_pfn as int, current_order as int),
                merge_progress(ls0, self.lists(), pfn as int, order as int, current_pfn as int, current_order as int),
                cover_ok_lists(ls0, pages0, total) ==> forall|p: int|
                    0 <= p < total && !pages1[p] && !(current_pfn <= p < current_pfn + bsize(
                        current_order as int,
                    )) ==> #[trigger] listed_in(self.lists(), p),
                aligned_ok(ls0) && pfn as int % bsize(order as int) == 0 ==> aligned_ok(self.lists())
                    && current_pfn as int % bsize(current_order as int) == 0,
                current_order == MAX_ORDER - 1 || !self.buddy_mergeable(
                    self.lists()[current_order as int],
                    current_pfn as int,
                    current_order as int,
                ),
            decreases MAX_ORDER - current_order,
        {
            let bp = order_pages(current_order);
            let buddy_pfn = current_pfn ^ bp;
            proof {
                lemma_shl_bsize(current_order);
                lemma_xor_buddy(current_pfn, current_order);
                lemma_bsize_pos(current_order as int);
                assert(bp == 1usize << current_order);
                assert(buddy_of(current_pfn as int, current_order as int) == buddy_pfn as int);
            }
            if buddy_pfn >= self.total_pages {
                break;
            }
            if !self.is_buddy_free(buddy_pfn, current_order) {
                break;
            }
            let ghost ls = self.lists();
            let removed = self.remove_from_free_list(buddy_pfn as u32, current_order);
            if !removed {
                break;
            }
            let ghost m = if buddy_pfn < current_pfn {
                buddy_pfn as int
            } else {
                current_pfn as int
            };
            proof {
                let c = current_order as int;
                let j = choose|j: int|
                    0 <= j < ls[c].len() && ls[c][j] == buddy_pfn as u32 && self.lists() == ls.update(
                        c,
                        ls[c].update(j, ls[c].last()).drop_last(),
                    );
                lemma_lists_swap_remove(ls, pages1, total, c, j);
                let nl = self.lists();
                assert(bsize(c + 1) == 2 * bsize(c));
                // the merged block is the union of the two halves
                assert(block_fresh(nl, pages1, total, m, c + 1)) by {
                    assert(block_free(pages1, total, buddy_pfn as int, c));
                    assert(block_free(pages1, total, current_pfn as int, c));
                    assert forall|p: int| m <= p < m + bsize(c + 1) implies !#[trigger] pages1[p] by {
                        if buddy_pfn as int <= p < buddy_pfn + bsize(c) {
                        } else {
                        }
                    }
                    assert forall|k2: int, i2: int|
                        0 <= k2 < MAX_ORDER && 0 <= i2 < nl[k2].len() implies blocks_disjoint(
                        m,
                        c + 1,
                        #[trigger] nl[k2][i2] as int,
                        k2,
                    ) by {
                        let j2 = if k2 == c && i2 == j {
                            ls[c].len() - 1
                        } else {
                            i2
                        };
                        assert(nl[k2][i2] == ls[k2][j2]);
                        lemma_bsize_pos(k2);
                        assert(blocks_disjoint(current_pfn as int, c, ls[k2][j2] as int, k2));
                        assert(blocks_disjoint(buddy_pfn as int, c, nl[k2][i2] as int, k2));
                    }
                }
                lemma_merge_step(ls0, ls, pfn as int, order as int, current_pfn as int, c, m, j);
                if cover_ok_lists(ls0, pages0, total) {
                    assert forall|p: int|
                        0 <= p < total && !pages1[p] && !(m <= p < m + bsize(c + 1)) implies #[trigger] listed_in(
                        nl,
                        p,
                    ) by {
                        assert(listed_in(ls, p));
                        lemma_listed_swap_remove(ls, c, j, p);
                    }
                }
                if aligned_ok(ls0) && pfn as int % bsize(order as int) == 0 {
                    lemma_xor_merge(current_pfn, current_order);
                    assert forall|k: int, i: int|
                        0 <= k < MAX_ORDER && 0 <= i < nl[k].len() implies (#[trigger] nl[k][i]) as int
                        % bsize(k) == 0 by {
                        let i0 = if k == c && i == j {
                            ls[c].len() - 1
                        } else {
                            i
                        };
                        assert(nl[k][i] == ls[k][i0]);
                    }
                }
            }
            if buddy_pfn < current_pfn {
                current_pfn = buddy_pfn;
            }
            current_order += 1;
        }
        let ghost ls2 = self.lists();
        proof {
            lemma_lists_push(ls2, pages1, total, current_pfn as u32, current_order as int);
        }
        self.push_block(current_order, current_pfn as u32);
        proof {
            assert forall|p: int|
                0 <= p < total && !(pfn <= p < pfn + bsize(order as int)) implies #[trigger] self.page_allocated(p)
                == old(self).page_allocated(p) by {
                assert(pages1[p] == (pages0[p] && !(pfn <= p < pfn + block_pages)));
            }
            let c = current_order as int;
            let nl = self.lists();
            assert(ls2[c] == ls0[c]);
            assert(merged_lists(ls0, nl, pfn as int, order as int, current_pfn as int, c));
            if c != MAX_ORDER - 1 {
                let b = buddy_of(current_pfn as int, c);
                lemma_shl_bsize(current_order);
                lemma_xor_buddy(current_pfn, current_order);
                assert(b != current_pfn as int);
                assert(ls2[c] == old(self).free_list(c));
                if self.buddy_mergeable(old(self).free_list(c), current_pfn as int, c) {
                    assert(ls2[c].contains(b as u32));
                    assert(self.range_free(b, bsize(c)));
                    assert(ls2.len() == MAX_ORDER);
                    assert(self.buddy_mergeable(ls2[c], current_pfn as int, c));
                }
            }
            if old(self).lists_cover() && forall|k: int| 0 <= k < MAX_ORDER ==> #[trigger] old(self).free_list(k).len() < MAX_FREE_ENTRIES {
                assert forall|p: int| 0 <= p < total && !#[trigger] pages0[p] implies listed_in(ls0, p) by {
                    assert(!old(self).page_allocated(p));
                }
                assert(old(self).free_list(c).len() < MAX_FREE_ENTRIES);
                assert(nl == ls2.update(c, ls2[c].push(current_pfn as u32)));
                assert forall|p: int| 0 <= p < self.total() && !#[trigger] self.page_allocated(p) implies listed_in(
                    nl,
                    p,
                ) by {
                    if current_pfn <= p < current_pfn + bsize(c) {
                        assert(nl[c][ls2[c].len() as int] == current_pfn as u32);
                    } else {
                        assert(listed_in(ls2, p));
                        let (k, i) = choose|k: int, i: int|
                            0 <= k < MAX_ORDER && 0 <= i < ls2[k].len() && #[trigger] ls2[k][i] <= p
                                && p < ls2[k][i] + bsize(k);
                        assert(nl[k][i] == ls2[k][i]);
                    }
                }
            }
            if old(self).lists_aligned() && old(self).pfn_of(addr) % bsize(order as int) == 0 {
                assert forall|k: int, i: int|
                    0 <= k < MAX_ORDER && 0 <= i < nl[k].len() implies (#[trigger] nl[k][i]) as int
                    % bsize(k) == 0 by {
                    if !(k == c && i == ls2[c].len()) {
                        assert(nl[k][i] == ls2[k][i]);
                    }
                }
            }
        }
    }

    /// Release a single page.
    pub fn free_page(&mut self, addr: u64)
        requires
            old(self).wf(),
        ensures
            final(self).wf(),
            final(self).same_frame(old(self)),
            !old(self).free_releases(addr, 0) ==> *final(self) == *old(self),
            old(self).free_releases(addr, 0) ==> {
                let pfn = old(self).pfn_of(addr);
                &&& !final(self).page_allocated(pfn)
                &&& forall|p: int|
                    0 <= p < old(self).total() && p != pfn ==> #[trigger] final(self).page_allocated(p)
                        == old(self).page_allocated(p)
                &&& final(self).used() == old(self).used() - 1
            },
    {
        proof {
            assert(bsize(0) == 1);
        }
        self.free(addr, 0);
    }

    /// `(total pages, allocated pages, free pages)`.
    pub fn stats(&self) -> (r: (usize, usize, usize))
        requires
            self.wf(),
        ensures
            r.0 == self.total(),
            r.1 == self.used(),
            r.2 == self.total() - self.used(),
            r.0 == r.1 + r.2,
    {
        proof {
            self.lemma_used_le_total();
        }
        (self.total_pages, self.allocated_pages, self.total_pages - self.allocated_pages)
    }

    pub fn is_initialized(&self) -> (r: bool)
        ensures
            r == self.initialized_spec(),
    {
        self.initialized
    }
}


/// Releasing a block right after allocating it gives every page back its
/// former state and restores the number of used pages.
pub proof fn law_free_undoes_alloc(
    s0: &BuddyAllocator,
    s1: &BuddyAllocator,
    s2: &BuddyAllocator,
    order: usize,
    addr: u64,
)
    requires
        BuddyAllocator::allocated_block(s0, s1, order, addr),
        BuddyAllocator::released_block(s1, s2, order, addr),
    ensures
        s1.free_releases(addr, order),
        s2.used() == s0.used(),
        s2.same_frame(s0),
        forall|p: int| 0 <= p < s0.total() ==> #[trigger] s2.page_allocated(p) == s0.page_allocated(p),
{
    let pfn = s0.pfn_of(addr);
    lemma_bsize_pos(order as int);
    assert(s1.page_allocated(pfn));
    assert forall|p: int| 0 <= p < s0.total() implies #[trigger] s2.page_allocated(p)
        == s0.page_allocated(p) by {
        if pfn <= p < pfn + bsize(order as int) {
            assert(!s0.page_allocated(p));
            assert(!s2.page_allocated(p));
        } else {
            assert(s1.page_allocated(p) == s0.page_allocated(p));
        }
    }
}

/// Two allocations in a row hand out blocks that share no page.
pub proof fn law_allocations_disjoint(
    s0: &BuddyAllocator,
    s1: &BuddyAllocator,
    s2: &BuddyAllocator,
    order1: usize,
    addr1: u64,
    order2: usize,
    addr2: u64,
)
    requires
        BuddyAllocator::allocated_block(s0, s1, order1, addr1),
        BuddyAllocator::allocated_block(s1, s2, order2, addr2),
    ensures
        blocks_disjoint(s0.pfn_of(addr1), order1 as int, s1.pfn_of(addr2), order2 as int),
        addr1 != addr2,
{
    let p1 = s0.pfn_of(addr1);
    let p2 = s1.pfn_of(addr2);
    lemma_bsize_pos(order1 as int);
    lemma_bsize_pos(order2 as int);
    if !blocks_disjoint(p1, order1 as int, p2, order2 as int) {
        let q = if p1 >= p2 { p1 } else { p2 };
        assert(s1.page_allocated(q));
        assert(!s1.page_allocated(q));
    }
}

/// While the pages that initialisation kept back (the first MiB and the
/// kernel image) stay allocated, an allocation hands out none of them, and
/// they all stay allocated afterwards.
pub proof fn law_alloc_avoids_reserved(
    s0: &BuddyAllocator,
    s1: &BuddyAllocator,
    order: usize,
    addr: u64,
    ram_base: int,
    kernel_start: int,
    kernel_end: int,
)
    requires
        BuddyAllocator::allocated_block(s0, s1, order, addr),
        forall|p: int|
            0 <= p < s0.total() && #[trigger] page_reserved(ram_base, p, kernel_start, kernel_end)
                ==> s0.page_allocated(p),
    ensures
        forall|p: int|
            s0.pfn_of(addr) <= p < s0.pfn_of(addr) + bsize(order as int) ==> !#[trigger] page_reserved(
                ram_base,
                p,
                kernel_start,
                kernel_end,
            ),
        forall|p: int|
            0 <= p < s1.total() && #[trigger] page_reserved(ram_base, p, kernel_start, kernel_end)
                ==> s1.page_allocated(p),
{
    let pfn = s0.pfn_of(addr);
    assert forall|p: int|
        pfn <= p < pfn + bsize(order as int) implies !#[trigger] page_reserved(
        ram_base,
        p,
        kernel_start,
        kernel_end,
    ) by {
        assert(!s0.page_allocated(p));
    }
    assert forall|p: int|
        0 <= p < s1.total() && #[trigger] page_reserved(ram_base, p, kernel_start, kernel_end) implies s1.page_allocated(
        p,
    ) by {
        if pfn <= p < pfn + bsize(order as int) {
        } else {
            assert(s1.page_allocated(p) == s0.page_allocated(p));
        }
    }
}

} // verus!


//! First-fit dynamic memory allocator.
//!
//! The allocator owns one contiguous address region `[base, base + size)`
//! and describes it as a chain of blocks, each prefixed by a fixed-size
//! header. The chain is kept in block-address order and always tiles the
//! region exactly: every block starts where its predecessor ends, the first
//! block starts at `base` and the last one ends at `base + size`.
//!
//! The chain lives inside the managed region on the real machine; here it
//! is modeled arena-style, as a vector of header records keyed by their
//! block start addresses, so headers are never destroyed while linked and
//! the tiling invariant can be stated and proved directly. Every operation
//! is proved to preserve that invariant, so the fatal broken-chain state
//! that the in-place structure would have to abort on cannot arise.
//!
//! The allocator is a plain value reached only through exclusive
//! references: within one core Rust's ownership rules already serialize
//! calls. The allocator provides no mutual exclusion across cores of its
//! own; an embedding program that lets both cores allocate must route
//! every `alloc_with_options`/`dealloc` call through one shared lock (on
//! the dual-core target, a hardware spinlock).

use vstd::prelude::*;

verus! {

use vstd::arithmetic::power2::{
    pow2, lemma_pow2_adds, lemma_pow2_pos, lemma_pow2_strictly_increases, lemma2_to64,
};
use vstd::arithmetic::div_mod::{
    lemma_fundamental_div_mod, lemma_mod_multiples_basic, lemma_mod_division_less_than_divisor,
    lemma_mod_pos_bound, lemma_add_mod_noop, lemma_sub_mod_noop,
};

/// Size in bytes of one block header; a power of two, so that header
/// addresses stay header-aligned under the effective-alignment policy.
pub const HEADER_SIZE: usize = 16;

/// Failure of a sizing helper: the request cannot be normalized.
#[derive(Clone, Copy, Debug, PartialEq, Eq, Structural)]
pub enum SizeError {
    /// A size of zero was requested where a positive one is needed.
    ZeroSize,
    /// No representable rounded-up size exists for the request.
    OutOfRange,
}

/// `n` is a power of two.
pub open spec fn is_pow2(n: int) -> bool {
    exists|k: nat| n == pow2(k)
}

/// The least power of two that is greater than or equal to `v`, for `v >= 1`.
pub open spec fn pow2_ceil(v: int) -> int
    decreases v,
{
    if v <= 1 {
        1
    } else {
        2 * pow2_ceil((v + 1) / 2)
    }
}

/// `pow2_ceil` returns a power of two in `[v, 2 * v)`; being a power of two
/// in that window also pins it as the least power of two `>= v`.
pub proof fn lemma_pow2_ceil_props(v: int)
    requires
        v >= 1,
    ensures
        is_pow2(pow2_ceil(v)),
        pow2_ceil(v) >= v,
        pow2_ceil(v) < 2 * v,
    decreases v,
{
    if v <= 1 {
        assert(pow2(0) == 1) by {
            lemma2_to64();
        }
        assert(is_pow2(1));
    } else {
        let c = (v + 1) / 2;
        assert(1 <= c < v);
        lemma_pow2_ceil_props(c);
        let p = pow2_ceil(c);
        let k = choose|k: nat| p == pow2(k);
        assert(2 * p == pow2(k + 1)) by {
            lemma_pow2_adds(k, 1);
            lemma2_to64();
        }
        assert(is_pow2(2 * p));
        assert(2 * c >= v);
        // p < 2 * c, hence p <= 2 * c - 1, hence 2 * p <= 4 * c - 2 <= 2 * v;
        // equality would force p == v with v odd and v >= 3, which no power
        // of two above 1 can be.
        if 2 * p == 2 * v {
            assert(p == v);
            assert(v % 2 == 1) by {
                assert(c == (v + 1) / 2);
                assert(p <= 2 * c - 1);
            }
            lemma_pow2_even_or_one(p);
        }
        assert(2 * p <= 2 * v);
        assert(2 * p != 2 * v);
    }
}

/// A power of two is either 1 or even.
proof fn lemma_pow2_even_or_one(p: int)
    requires
        is_pow2(p),
    ensures
        p == 1 || p % 2 == 0,
{
    let k = choose|k: nat| p == pow2(k);
    if k == 0 {
        assert(pow2(0) == 1) by {
            lemma2_to64();
        }
    } else {
        assert(pow2(k) == pow2((k - 1) as nat) * pow2(1)) by {
            lemma_pow2_adds((k - 1) as nat, 1);
        }
        assert(pow2(1) == 2) by {
            lemma2_to64();
        }
        lemma_mod_multiples_basic(pow2((k - 1) as nat) as int, 2);
    }
}

/// Distinct powers of two are at least a factor of two apart.
pub proof fn lemma_pow2_ordering(p: int, q: int)
    requires
        is_pow2(p),
        is_pow2(q),
        p < q,
    ensures
        2 * p <= q,
{
    let i = choose|i: nat| p == pow2(i);
    let j = choose|j: nat| q == pow2(j);
    if i >= j {
        if i == j {
            assert(p == q);
        } else {
            lemma_pow2_strictly_increases(j, i);
        }
    } else {
        assert(i + 1 <= j);
        if i + 1 < j {
            lemma_pow2_strictly_increases(i + 1, j);
        }
        assert(pow2(i + 1) == pow2(i) * pow2(1)) by {
            lemma_pow2_adds(i, 1);
        }
        assert(pow2(1) == 2) by {
            lemma2_to64();
        }
    }
}

/// A power of two divides every larger power of two.
pub proof fn lemma_pow2_divides(m: int, p: int)
    requires
        is_pow2(m),
        is_pow2(p),
        m <= p,
    ensures
        p % m == 0,
{
    let i = choose|i: nat| m == pow2(i);
    let j = choose|j: nat| p == pow2(j);
    if j < i {
        lemma_pow2_strictly_increases(j, i);
        assert(false);
    }
    assert(pow2(j) == pow2((j - i) as nat) * pow2(i)) by {
        lemma_pow2_adds((j - i) as nat, i);
    }
    lemma_pow2_pos(i);
    lemma_mod_multiples_basic(pow2((j - i) as nat) as int, pow2(i) as int);
}

/// Rounds `v` up to the nearest power of two.
///
/// Fails for `v == 0` and for any `v` whose rounded-up value would not fit
/// in a `usize`.
pub fn round_up_to_nearest_pow2(v: usize) -> (r: Result<usize, SizeError>)
    ensures
        r matches Ok(p) ==> v >= 1 && p as int == pow2_ceil(v as int),
        r matches Err(e) ==> e == SizeError::OutOfRange && (v == 0 || pow2_ceil(
            v as int,
        ) > usize::MAX),
{
    if v == 0 {
        return Err(SizeError::OutOfRange);
    }
    let mut p: usize = 1;
    proof {
        lemma_pow2_ceil_props(v as int);
        assert(pow2(0) == 1) by {
            lemma2_to64();
        }
    }
    while p < v
        invariant
            1 <= v,
            1 <= p,
            is_pow2(p as int),
            (p as int) < 2 * (v as int),
        decreases 2 * (v as int) - p as int,
    {
        if p > usize::MAX / 2 {
            // The next doubling would leave usize; no representable power
            // of two reaches v.
            proof {
                lemma_pow2_ceil_props(v as int);
                let c = pow2_ceil(v as int);
                if c <= usize::MAX {
                    // c is a power of two >= v > p, so c >= 2 * p > usize::MAX.
                    lemma_pow2_ordering(p as int, c);
                    assert(2 * (p as int) > usize::MAX);
                }
            }
            return Err(SizeError::OutOfRange);
        }
        p = p * 2;
        proof {
            let k = choose|k: nat| (p as int) / 2 == pow2(k);
            assert(p as int == pow2(k + 1)) by {
                lemma_pow2_adds(k, 1);
                lemma2_to64();
            }
        }
    }
    proof {
        // p is a power of two with v <= p < 2 * v, as is pow2_ceil(v):
        // two such powers of two must coincide.
        lemma_pow2_ceil_props(v as int);
        let c = pow2_ceil(v as int);
        if c < p {
            lemma_pow2_ordering(c, p as int);
        }
        if p < c {
            lemma_pow2_ordering(p as int, c);
        }
    }
    Ok(p)
}

/// Rounds `v` up to the nearest multiple of four bytes.
///
/// Fails for `v == 0` and when the rounded-up value would not fit in a
/// `usize`.
pub fn round_up_to_nearest_4bytes(v: usize) -> (r: Result<usize, SizeError>)
    ensures
        r matches Ok(p) ==> v >= 1 && p % 4 == 0 && p >= v && (p as int) < v as int + 4,
        r matches Err(e) ==> if v == 0 {
            e == SizeError::ZeroSize
        } else {
            e == SizeError::OutOfRange && v as int + 3 > usize::MAX
        },
{
    if v == 0 {
        return Err(SizeError::ZeroSize);
    }
    if v > usize::MAX - 3 {
        return Err(SizeError::OutOfRange);
    }
    let r = ((v + 3) / 4) * 4;
    proof {
        lemma_fundamental_div_mod(v as int + 3, 4);
        lemma_fundamental_div_mod(v as int, 4);
        lemma_mod_division_less_than_divisor(v as int, 4);
        lemma_mod_multiples_basic(((v + 3) / 4) as int, 4);
        lemma_mod_division_less_than_divisor(v as int + 3, 4);
    }
    Ok(r)
}

/// Metadata record standing for one block of the managed region.
///
/// `addr` is the address of the block's first byte, where the header itself
/// sits; the payload, if the block is allocated, starts `HEADER_SIZE` bytes
/// later. `size` covers the whole block, header included. The chain link of
/// the in-memory structure is implicit here: headers are kept in a vector
/// in block-address order, and a header is never removed from it.
#[derive(Clone, Copy, Debug, PartialEq, Eq, Structural)]
pub struct Header {
    /// Start address of the block (and of this header).
    pub addr: usize,
    /// Total bytes covered by the block, header included.
    pub size: usize,
    /// Whether the block currently backs a live allocation.
    pub is_allocated: bool,
    /// Unused; reserved for future metadata, and part of the fixed layout.
    pub reserved: usize,
}

impl Header {
    /// First address past the block.
    pub open spec fn spec_end_addr(self) -> int {
        self.addr + self.size
    }

    pub fn end_addr(&self) -> (r: usize)
        requires
            self.addr + self.size <= usize::MAX,
        ensures
            r as int == self.spec_end_addr(),
    {
        self.addr + self.size
    }

    pub fn is_allocated(&self) -> (r: bool)
        ensures
            r == self.is_allocated,
    {
        self.is_allocated
    }

    /// Conservative capacity test: the block can serve a request of
    /// (normalized) `size` and `align` if it has room for the payload, a
    /// header for the new block, a possible trailing padding header, and
    /// worst-case alignment slack.
    pub open spec fn spec_can_provide(self, size: int, align: int) -> bool {
        self.size >= size + 2 * HEADER_SIZE + align
    }

    pub fn can_provide(&self, size: usize, align: usize) -> (r: bool)
        requires
            size + 2 * HEADER_SIZE + align <= usize::MAX,
        ensures
            r == self.spec_can_provide(size as int, align as int),
    {
        self.size >= size + 2 * HEADER_SIZE + align
    }
}

/// The central invariant: the chain's block extents exactly tile the region
/// `[base, base + size)`. Blocks are adjacent (each starts where its
/// predecessor ends), the first starts at `base`, the last ends at
/// `base + size`, and every block is at least one header large with
/// header-aligned start address and size.
pub open spec fn chain_wf(hs: Seq<Header>, base: int, size: int) -> bool {
    &&& hs.len() >= 1
    &&& hs[0].addr == base
    &&& hs[hs.len() - 1].spec_end_addr() == base + size
    &&& forall|i: int|
        #![trigger hs[i]]
        0 <= i < hs.len() - 1 ==> hs[i + 1].addr == hs[i].spec_end_addr()
    &&& forall|i: int|
        #![trigger hs[i]]
        0 <= i < hs.len() ==> hs[i].size >= HEADER_SIZE && hs[i].addr as int % (HEADER_SIZE as int)
            == 0 && hs[i].size as int % (HEADER_SIZE as int) == 0
}

/// A request size is representable if it is positive and its power-of-two
/// rounding still fits in a `usize`.
pub open spec fn size_ok(size: int) -> bool {
    1 <= size && pow2_ceil(size) <= usize::MAX
}

/// Effective allocation size: the requested size rounded up to a power of
/// two, but never below one header.
pub open spec fn eff_size(size: int) -> int {
    if pow2_ceil(size) >= HEADER_SIZE {
        pow2_ceil(size)
    } else {
        HEADER_SIZE as int
    }
}

/// Effective alignment: the requested alignment, but never below the header
/// size, so that payload addresses are always header-aligned.
pub open spec fn eff_align(align: int) -> int {
    if align >= HEADER_SIZE {
        align
    } else {
        HEADER_SIZE as int
    }
}

/// Whether block `h` is free and passes the capacity test for a request of
/// normalized size `s` and alignment `a`.
pub open spec fn fits(h: Header, s: int, a: int) -> bool {
    !h.is_allocated && h.spec_can_provide(s, a)
}

/// Chain position of the first block at or after position `i` that can
/// serve the request, if any: the first-fit policy.
pub open spec fn first_fit_from(hs: Seq<Header>, s: int, a: int, i: int) -> Option<int>
    decreases hs.len() - i,
{
    if i < 0 || i >= hs.len() {
        None
    } else if fits(hs[i], s, a) {
        Some(i)
    } else {
        first_fit_from(hs, s, a, i + 1)
    }
}

/// `x` rounded down to a multiple of `a`.
pub open spec fn align_down(x: int, a: int) -> int {
    x - x % a
}

/// Payload address of an allocation carved from free block `h`: the
/// allocation is placed at the top (high-address end) of the block, aligned
/// down to `a`.
pub open spec fn carve_addr(h: Header, s: int, a: int) -> int {
    align_down(h.spec_end_addr() - s, a)
}

/// The blocks that replace free block `h` when an allocation of normalized
/// size `s` and alignment `a` is carved from it: the shrunk free block, the
/// new allocated block and, if the allocated block stops short of `h`'s old
/// end, a free padding block covering the gap.
pub open spec fn carved_blocks(h: Header, s: int, a: int) -> Seq<Header> {
    let p = carve_addr(h, s, a);
    let shrunk = Header {
        addr: h.addr,
        size: (p - HEADER_SIZE - h.addr) as usize,
        is_allocated: h.is_allocated,
        reserved: h.reserved,
    };
    let allocated = Header {
        addr: (p - HEADER_SIZE) as usize,
        size: (s + HEADER_SIZE) as usize,
        is_allocated: true,
        reserved: 0,
    };
    if p + s == h.spec_end_addr() {
        seq![shrunk, allocated]
    } else {
        seq![
            shrunk,
            allocated,
            Header {
                addr: (p + s) as usize,
                size: (h.spec_end_addr() - p - s) as usize,
                is_allocated: false,
                reserved: 0,
            },
        ]
    }
}

/// The full effect of one allocation request on a chain: the chain after
/// the call and the returned payload address, if any. Unrepresentable sizes
/// and requests no free block can serve change nothing and return nothing.
pub open spec fn spec_alloc(hs: Seq<Header>, size: int, align: int) -> (Seq<Header>, Option<int>) {
    if !size_ok(size) {
        (hs, None::<int>)
    } else {
        let s = eff_size(size);
        let a = eff_align(align);
        match first_fit_from(hs, s, a, 0) {
            None => (hs, None::<int>),
            Some(i) => (
                hs.take(i) + carved_blocks(hs[i], s, a) + hs.skip(i + 1),
                Some(carve_addr(hs[i], s, a)),
            ),
        }
    }
}

/// `h` with its allocation state cleared.
pub open spec fn mark_free(h: Header) -> Header {
    Header { addr: h.addr, size: h.size, is_allocated: false, reserved: h.reserved }
}

/// The effect of deallocating payload address `ptr` on a chain: the block
/// whose header sits exactly one header before `ptr` becomes free; nothing
/// else changes, and the chain topology is untouched.
pub open spec fn spec_dealloc(hs: Seq<Header>, ptr: int) -> Seq<Header> {
    Seq::new(
        hs.len(),
        |i: int|
            if hs[i].addr + HEADER_SIZE == ptr {
                mark_free(hs[i])
            } else {
                hs[i]
            },
    )
}

/// Blocks of a well-formed chain sit in strictly increasing address order:
/// an earlier block ends no later than a later block starts.
pub proof fn lemma_chain_order(hs: Seq<Header>, base: int, size: int, i: int, j: int)
    requires
        chain_wf(hs, base, size),
        0 <= i < j < hs.len(),
    ensures
        hs[i].spec_end_addr() <= hs[j].addr,
    decreases j - i,
{
    if j > i + 1 {
        lemma_chain_order(hs, base, size, i + 1, j);
    }
}

/// Every block of a well-formed chain lies inside the region.
pub proof fn lemma_chain_extents(hs: Seq<Header>, base: int, size: int)
    requires
        chain_wf(hs, base, size),
    ensures
        forall|i: int|
            #![trigger hs[i]]
            0 <= i < hs.len() ==> base <= hs[i].addr && hs[i].spec_end_addr() <= base + size,
{
    assert forall|i: int| #![trigger hs[i]] 0 <= i < hs.len() implies base <= hs[i].addr
        && hs[i].spec_end_addr() <= base + size by {
        if i > 0 {
            lemma_chain_order(hs, base, size, 0, i);
        }
        if i < hs.len() - 1 {
            lemma_chain_order(hs, base, size, i, hs.len() - 1);
        }
    }
}

/// Tiling, stated pointwise: every address of the region is covered by
/// exactly one block of a well-formed chain — no gaps, no overlaps.
pub proof fn lemma_chain_covers(hs: Seq<Header>, base: int, size: int, addr: int)
    requires
        chain_wf(hs, base, size),
        base <= addr < base + size,
    ensures
        exists|i: int|
            0 <= i < hs.len() && (#[trigger] hs[i].addr) <= addr < hs[i].spec_end_addr(),
        forall|i: int, j: int|
            #![trigger hs[i], hs[j]]
            0 <= i < hs.len() && hs[i].addr <= addr < hs[i].spec_end_addr() && 0 <= j < hs.len()
                && hs[j].addr <= addr < hs[j].spec_end_addr() ==> i == j,
{
    lemma_chain_covers_from(hs, base, size, addr, 0);
    assert forall|i: int, j: int|
        #![trigger hs[i], hs[j]]
        0 <= i < hs.len() && hs[i].addr <= addr < hs[i].spec_end_addr() && 0 <= j < hs.len()
            && hs[j].addr <= addr < hs[j].spec_end_addr() implies i == j by {
        if i < j {
            lemma_chain_order(hs, base, size, i, j);
        }
        if j < i {
            lemma_chain_order(hs, base, size, j, i);
        }
    }
}

proof fn lemma_chain_covers_from(hs: Seq<Header>, base: int, size: int, addr: int, k: int)
    requires
        chain_wf(hs, base, size),
        0 <= k < hs.len(),
        hs[k].addr <= addr < base + size,
    ensures
        exists|i: int|
            0 <= i < hs.len() && (#[trigger] hs[i].addr) <= addr < hs[i].spec_end_addr(),
    decreases hs.len() - k,
{
    if addr < hs[k].spec_end_addr() {
        assert(0 <= k < hs.len() && hs[k].addr <= addr < hs[k].spec_end_addr());
    } else {
        assert(k < hs.len() - 1);
        lemma_chain_covers_from(hs, base, size, addr, k + 1);
    }
}

/// First-fit finds a block if and only if some block fits.
pub proof fn lemma_first_fit_exists(hs: Seq<Header>, s: int, a: int, k: int)
    requires
        0 <= k <= hs.len(),
    ensures
        first_fit_from(hs, s, a, k) is None <==> forall|j: int|
            k <= j < hs.len() ==> !fits(#[trigger] hs[j], s, a),
        first_fit_from(hs, s, a, k) matches Some(i) ==> k <= i < hs.len() && fits(hs[i], s, a)
            && forall|j: int| k <= j < i ==> !fits(#[trigger] hs[j], s, a),
    decreases hs.len() - k,
{
    if k < hs.len() && !fits(hs[k], s, a) {
        lemma_first_fit_exists(hs, s, a, k + 1);
    }
}

/// Divisibility is transitive: a multiple of a multiple of `b` is a
/// multiple of `b`.
proof fn lemma_divides_transitive(x: int, a: int, b: int)
    requires
        a > 0,
        b > 0,
        x % a == 0,
        a % b == 0,
    ensures
        x % b == 0,
{
    lemma_fundamental_div_mod(x, a);
    lemma_fundamental_div_mod(a, b);
    assert(x == b * ((a / b) * (x / a))) by (nonlinear_arith)
        requires
            x == a * (x / a) + x % a,
            a == b * (a / b) + a % b,
            x % a == 0,
            a % b == 0,
    ;
    lemma_mod_multiples_basic((a / b) * (x / a), b);
}

/// Facts about the normalized size and alignment of a representable
/// request: both are header-aligned, at least one header large, and the
/// normalized size still covers the request while the normalized alignment
/// is still a multiple of the requested one.
pub proof fn lemma_eff_facts(size: int, align: int)
    requires
        size_ok(size),
        is_pow2(align),
    ensures
        HEADER_SIZE <= eff_size(size) <= usize::MAX,
        eff_size(size) % (HEADER_SIZE as int) == 0,
        eff_size(size) >= size,
        align >= 1,
        HEADER_SIZE <= eff_align(align),
        eff_align(align) % (HEADER_SIZE as int) == 0,
        is_pow2(eff_align(align)),
        eff_align(align) % align == 0,
{
    lemma_pow2_ceil_props(size);
    assert(pow2(4) == 16) by {
        lemma2_to64();
    }
    assert(is_pow2(16));
    let k = choose|k: nat| align == pow2(k);
    lemma_pow2_pos(k);
    if eff_size(size) > HEADER_SIZE {
        lemma_pow2_divides(HEADER_SIZE as int, eff_size(size));
    } else {
        lemma_mod_multiples_basic(1, HEADER_SIZE as int);
    }
    if align > HEADER_SIZE {
        lemma_pow2_divides(HEADER_SIZE as int, align);
        lemma_mod_multiples_basic(1, align);
    } else {
        lemma_mod_multiples_basic(1, HEADER_SIZE as int);
        lemma_pow2_divides(align, HEADER_SIZE as int);
    }
}

/// The geometry of one carve, from the block-level view: where the payload,
/// the new header and the optional padding land, and that together they
/// partition the old block into header-aligned pieces of legal sizes.
pub proof fn lemma_carve_facts(h: Header, s: int, a: int)
    requires
        fits(h, s, a),
        h.addr as int % (HEADER_SIZE as int) == 0,
        h.size as int % (HEADER_SIZE as int) == 0,
        h.addr + h.size <= usize::MAX,
        HEADER_SIZE <= s,
        s % (HEADER_SIZE as int) == 0,
        HEADER_SIZE <= a,
        a % (HEADER_SIZE as int) == 0,
    ensures
        ({
            let p = carve_addr(h, s, a);
            let end = h.spec_end_addr();
            &&& p % a == 0
            &&& p % (HEADER_SIZE as int) == 0
            &&& p + s <= end
            &&& h.addr + 3 * HEADER_SIZE <= p
            &&& (p - HEADER_SIZE - h.addr) % (HEADER_SIZE as int) == 0
            &&& (end - p - s) % (HEADER_SIZE as int) == 0
            &&& (end - p - s == 0 || end - p - s >= HEADER_SIZE)
        }),
{
    let end = h.spec_end_addr();
    let x = end - s;
    let p = carve_addr(h, s, a);
    assert(x >= h.addr + 2 * HEADER_SIZE + a);
    lemma_mod_pos_bound(x, a);
    // p == x - x % a is the multiple of `a` just below or at x.
    assert(x - a < p <= x);
    lemma_fundamental_div_mod(x, a);
    lemma_mod_multiples_basic(x / a, a);
    assert(p == a * (x / a));
    assert(p % a == 0) by {
        lemma_mod_multiples_basic(x / a, a);
        assert(p == (x / a) * a) by (nonlinear_arith)
            requires
                p == a * (x / a),
        ;
    }
    lemma_divides_transitive(p, a, HEADER_SIZE as int);
    // The remaining free prefix keeps at least one header of room.
    assert(h.addr + 2 * HEADER_SIZE < p);
    assert((p - h.addr) % (HEADER_SIZE as int) == 0) by {
        lemma_sub_mod_noop(p, h.addr as int, HEADER_SIZE as int);
    }
    assert(h.addr + 3 * HEADER_SIZE <= p);
    assert((p - HEADER_SIZE - h.addr) % (HEADER_SIZE as int) == 0) by {
        lemma_sub_mod_noop(p - h.addr, HEADER_SIZE as int, HEADER_SIZE as int);
        lemma_mod_multiples_basic(1, HEADER_SIZE as int);
    }
    // The optional padding gap is a header-aligned number of bytes.
    assert((end - p - s) % (HEADER_SIZE as int) == 0) by {
        lemma_add_mod_noop(h.addr as int, h.size as int, HEADER_SIZE as int);
        lemma_sub_mod_noop(end, p, HEADER_SIZE as int);
        lemma_sub_mod_noop(end - p, s, HEADER_SIZE as int);
    }
}

/// Carving preserves the tiling invariant: replacing the fitting free block
/// by the shrunk free block, the allocated block and the optional padding
/// block leaves a chain that still tiles the region exactly.
/// A replacement sequence is a legal stand-in for one block of a chain: it
/// is itself adjacent, covers exactly the block's extent, and all its
/// blocks are legal.
spec fn replaces_block(cb: Seq<Header>, h: Header) -> bool {
    &&& cb.len() >= 1
    &&& cb[0].addr == h.addr
    &&& cb[cb.len() - 1].spec_end_addr() == h.spec_end_addr()
    &&& forall|j: int|
        #![trigger cb[j]]
        0 <= j < cb.len() - 1 ==> cb[j + 1].addr == cb[j].spec_end_addr()
    &&& forall|j: int|
        #![trigger cb[j]]
        0 <= j < cb.len() ==> cb[j].size >= HEADER_SIZE && cb[j].addr as int % (HEADER_SIZE as int)
            == 0 && cb[j].size as int % (HEADER_SIZE as int) == 0
}

/// The blocks of one carve are a legal stand-in for the carved block.
proof fn lemma_carved_blocks_replace(h: Header, s: int, a: int)
    requires
        fits(h, s, a),
        h.addr as int % (HEADER_SIZE as int) == 0,
        h.size as int % (HEADER_SIZE as int) == 0,
        h.addr + h.size <= usize::MAX,
        HEADER_SIZE <= s,
        s % (HEADER_SIZE as int) == 0,
        HEADER_SIZE <= a,
        a % (HEADER_SIZE as int) == 0,
    ensures
        replaces_block(carved_blocks(h, s, a), h),
{
    lemma_carve_facts(h, s, a);
    let p = carve_addr(h, s, a);
    let end = h.spec_end_addr();
    let cb = carved_blocks(h, s, a);
    assert(cb[0].addr == h.addr && cb[0].spec_end_addr() == p - HEADER_SIZE);
    assert(cb[1].addr as int == p - HEADER_SIZE && cb[1].spec_end_addr() == p + s);
    if p + s != end {
        assert(cb[2].addr as int == p + s && cb[2].spec_end_addr() == end);
    }
}

/// Pointwise description of a one-block splice: elements before the
/// replaced block stay, the stand-in takes its place, the rest shift.
proof fn lemma_splice_index(hs: Seq<Header>, i: int, cb: Seq<Header>)
    requires
        0 <= i < hs.len(),
        cb.len() >= 1,
    ensures
        (hs.take(i) + cb + hs.skip(i + 1)).len() == hs.len() + cb.len() - 1,
        forall|j: int|
            0 <= j < i ==> (hs.take(i) + cb + hs.skip(i + 1))[j] == #[trigger] hs[j],
        forall|j: int|
            0 <= j < cb.len() ==> (hs.take(i) + cb + hs.skip(i + 1))[i + j] == #[trigger] cb[j],
        forall|j: int|
            i + cb.len() <= j < hs.len() + cb.len() - 1 ==> (hs.take(i) + cb + hs.skip(i + 1))[j]
                == #[trigger] hs[j - cb.len() + 1],
{
}

/// After a splice, every block of the new chain is still at least one
/// header large with header-aligned start and size.
#[verifier::spinoff_prover]
proof fn lemma_splice_blocks_legal(hs: Seq<Header>, base: int, size: int, i: int, cb: Seq<Header>)
    requires
        chain_wf(hs, base, size),
        0 <= i < hs.len(),
        replaces_block(cb, hs[i]),
    ensures
        forall|j: int|
            #![trigger (hs.take(i) + cb + hs.skip(i + 1))[j]]
            0 <= j < (hs.take(i) + cb + hs.skip(i + 1)).len() ==> (hs.take(i) + cb + hs.skip(
                i + 1,
            ))[j].size >= HEADER_SIZE && (hs.take(i) + cb + hs.skip(i + 1))[j].addr as int % (
            HEADER_SIZE as int) == 0 && (hs.take(i) + cb + hs.skip(i + 1))[j].size as int % (
            HEADER_SIZE as int) == 0,
{
    let c = cb.len() as int;
    let nhs = hs.take(i) + cb + hs.skip(i + 1);
    lemma_splice_index(hs, i, cb);
    assert forall|j: int|
        #![trigger nhs[j]]
        0 <= j < nhs.len() implies nhs[j].size >= HEADER_SIZE && nhs[j].addr as int % (
    HEADER_SIZE as int) == 0 && nhs[j].size as int % (HEADER_SIZE as int) == 0 by {
        if j < i {
            assert(nhs[j] == hs[j]);
        } else if j < i + c {
            assert(nhs[j] == cb[j - i]);
        } else {
            assert(nhs[j] == hs[j - c + 1]);
        }
    }
}

/// After a splice, every block of the new chain still starts where its
/// predecessor ends.
#[verifier::spinoff_prover]
proof fn lemma_splice_adjacent(hs: Seq<Header>, base: int, size: int, i: int, cb: Seq<Header>)
    requires
        chain_wf(hs, base, size),
        0 <= i < hs.len(),
        replaces_block(cb, hs[i]),
    ensures
        forall|j: int|
            #![trigger (hs.take(i) + cb + hs.skip(i + 1))[j]]
            0 <= j < (hs.take(i) + cb + hs.skip(i + 1)).len() - 1 ==> (hs.take(i) + cb + hs.skip(
                i + 1,
            ))[j + 1].addr == (hs.take(i) + cb + hs.skip(i + 1))[j].spec_end_addr(),
{
    let c = cb.len() as int;
    let nhs = hs.take(i) + cb + hs.skip(i + 1);
    lemma_splice_index(hs, i, cb);
    assert forall|j: int|
        #![trigger nhs[j]]
        0 <= j < nhs.len() - 1 implies nhs[j + 1].addr == nhs[j].spec_end_addr() by {
        if j < i - 1 {
            assert(nhs[j] == hs[j]);
            assert(nhs[j + 1] == hs[j + 1]);
        } else if j == i - 1 {
            assert(nhs[j] == hs[j]);
            assert(nhs[j + 1] == cb[0]);
        } else if j < i + c - 1 {
            assert(nhs[j] == cb[j - i]);
            assert(nhs[j + 1] == cb[j - i + 1]);
        } else if j == i + c - 1 {
            assert(nhs[j] == cb[c - 1]);
            assert(nhs[j + 1] == hs[i + 1]);
            assert(cb[c - 1].spec_end_addr() == hs[i].spec_end_addr());
        } else {
            assert(nhs[j] == hs[j - c + 1]);
            assert(nhs[j + 1] == hs[j - c + 2]);
        }
    }
}

/// Replacing one block of a well-formed chain by a legal stand-in keeps the
/// chain well-formed: the tiling invariant survives the splice.
#[verifier::spinoff_prover]
proof fn lemma_splice_preserves_wf(hs: Seq<Header>, base: int, size: int, i: int, cb: Seq<Header>)
    requires
        chain_wf(hs, base, size),
        0 <= i < hs.len(),
        replaces_block(cb, hs[i]),
    ensures
        chain_wf(hs.take(i) + cb + hs.skip(i + 1), base, size),
{
    let c = cb.len() as int;
    let nhs = hs.take(i) + cb + hs.skip(i + 1);
    lemma_splice_index(hs, i, cb);
    lemma_splice_blocks_legal(hs, base, size, i, cb);
    lemma_splice_adjacent(hs, base, size, i, cb);
    assert(nhs[0].addr == base) by {
        if i == 0 {
            assert(nhs[0] == cb[0]);
        } else {
            assert(nhs[0] == hs[0]);
        }
    }
    assert(nhs[nhs.len() - 1].spec_end_addr() == base + size) by {
        if i == hs.len() - 1 {
            assert(nhs[nhs.len() - 1] == cb[c - 1]);
            assert(cb[c - 1].spec_end_addr() == hs[i].spec_end_addr());
        } else {
            assert(nhs[nhs.len() - 1] == hs[hs.len() - 1]);
        }
    }
}

/// A well-formed chain has at most one block per header-size granule of
/// the region: block start addresses grow by at least one header per step.
pub proof fn lemma_chain_addr_lower(hs: Seq<Header>, base: int, size: int, j: int)
    requires
        chain_wf(hs, base, size),
        0 <= j < hs.len(),
    ensures
        hs[j].addr >= base + HEADER_SIZE * j,
    decreases j,
{
    if j > 0 {
        lemma_chain_addr_lower(hs, base, size, j - 1);
    }
}

/// A well-formed chain over a region of `size` bytes has at most
/// `size / HEADER_SIZE` blocks.
pub proof fn lemma_chain_len_bound(hs: Seq<Header>, base: int, size: int)
    requires
        chain_wf(hs, base, size),
    ensures
        HEADER_SIZE * hs.len() <= size,
{
    let j = hs.len() - 1;
    lemma_chain_addr_lower(hs, base, size, j);
    assert(hs[j].addr + hs[j].size == base + size);
}

/// The spliced chain of a carve, built up the way the executable code
/// builds it: overwrite the carved block with the shrunk one, then insert
/// the allocated block and, if present, the padding block after it.
proof fn lemma_carve_chain_shape(hs: Seq<Header>, i: int, s: int, a: int)
    requires
        0 <= i < hs.len(),
    ensures
        ({
            let cb = carved_blocks(hs[i], s, a);
            let spliced = hs.take(i) + cb + hs.skip(i + 1);
            if cb.len() == 2 {
                spliced =~= hs.update(i, cb[0]).insert(i + 1, cb[1])
            } else {
                spliced =~= hs.update(i, cb[0]).insert(i + 1, cb[1]).insert(i + 2, cb[2])
            }
        }),
{
    let cb = carved_blocks(hs[i], s, a);
    let spliced = hs.take(i) + cb + hs.skip(i + 1);
    lemma_splice_index(hs, i, cb);
    let u = hs.update(i, cb[0]);
    u.insert_ensures(i + 1, cb[1]);
    let v = u.insert(i + 1, cb[1]);
    if cb.len() == 2 {
        assert forall|j: int| 0 <= j < spliced.len() implies spliced[j] == v[j] by {
            if j < i {
                assert(spliced[j] == hs[j]);
            } else if j == i {
                assert(spliced[j] == cb[0]);
            } else if j == i + 1 {
                assert(spliced[j] == cb[1]);
            } else {
                assert(spliced[j] == hs[j - 1]);
                assert(v[j] == u[j - 1]);
            }
        }
        assert(spliced =~= v);
    } else {
        v.insert_ensures(i + 2, cb[2]);
        let w = v.insert(i + 2, cb[2]);
        assert forall|j: int| 0 <= j < spliced.len() implies spliced[j] == w[j] by {
            if j < i {
                assert(spliced[j] == hs[j]);
                assert(w[j] == v[j]);
            } else if j == i {
                assert(spliced[j] == cb[0]);
                assert(w[j] == v[j]);
            } else if j == i + 1 {
                assert(spliced[j] == cb[1]);
                assert(w[j] == v[j]);
            } else if j == i + 2 {
                assert(spliced[j] == cb[2]);
            } else {
                assert(spliced[j] == hs[j - 2]);
                assert(w[j] == v[j - 1]);
                assert(v[j - 1] == u[j - 2]);
            }
        }
        assert(spliced =~= w);
    }
}

/// Carving preserves the tiling invariant: replacing the fitting free block
/// by the shrunk free block, the allocated block and the optional padding
/// block leaves a chain that still tiles the region exactly.
pub proof fn lemma_carve_preserves_wf(hs: Seq<Header>, base: int, size: int, i: int, s: int, a: int)
    requires
        chain_wf(hs, base, size),
        base + size <= usize::MAX,
        0 <= i < hs.len(),
        fits(hs[i], s, a),
        HEADER_SIZE <= s,
        s % (HEADER_SIZE as int) == 0,
        HEADER_SIZE <= a,
        a % (HEADER_SIZE as int) == 0,
    ensures
        chain_wf(hs.take(i) + carved_blocks(hs[i], s, a) + hs.skip(i + 1), base, size),
{
    lemma_chain_extents(hs, base, size);
    lemma_carved_blocks_replace(hs[i], s, a);
    lemma_splice_preserves_wf(hs, base, size, i, carved_blocks(hs[i], s, a));
}

/// Everything a successful allocation guarantees, derived once at the spec
/// level: the exact result of `spec_alloc`, the alignment of the returned
/// address, the carved block that backs it, and the preserved tiling.
pub proof fn lemma_alloc_success(hs: Seq<Header>, base: int, rsize: int, size: int, align: int, i: int)
    requires
        chain_wf(hs, base, rsize),
        base + rsize <= usize::MAX,
        size_ok(size),
        is_pow2(align),
        first_fit_from(hs, eff_size(size), eff_align(align), 0) == Some(i),
    ensures
        ({
            let s = eff_size(size);
            let a = eff_align(align);
            let p = carve_addr(hs[i], s, a);
            let nhs = hs.take(i) + carved_blocks(hs[i], s, a) + hs.skip(i + 1);
            &&& 0 <= i < hs.len()
            &&& fits(hs[i], s, a)
            &&& spec_alloc(hs, size, align) == (nhs, Some(p))
            &&& p % align == 0
            &&& p % (HEADER_SIZE as int) == 0
            &&& s >= size
            &&& 0 <= i + 1 < nhs.len()
            &&& nhs[i + 1].addr + HEADER_SIZE == p
            &&& nhs[i + 1].is_allocated
            &&& nhs[i + 1].size == s + HEADER_SIZE
            &&& chain_wf(nhs, base, rsize)
        }),
{
    let s = eff_size(size);
    let a = eff_align(align);
    lemma_eff_facts(size, align);
    lemma_first_fit_exists(hs, s, a, 0);
    lemma_chain_extents(hs, base, rsize);
    lemma_carve_facts(hs[i], s, a);
    let p = carve_addr(hs[i], s, a);
    lemma_divides_transitive(p, a, align);
    lemma_divides_transitive(p, a, HEADER_SIZE as int);
    let cb = carved_blocks(hs[i], s, a);
    lemma_splice_index(hs, i, cb);
    assert((hs.take(i) + cb + hs.skip(i + 1))[i + 1] == cb[1]);
    lemma_carve_preserves_wf(hs, base, rsize, i, s, a);
}

/// Total bytes held by free blocks of a chain.
pub open spec fn free_bytes(hs: Seq<Header>) -> int
    decreases hs.len(),
{
    if hs.len() == 0 {
        0
    } else {
        free_bytes(hs.drop_last()) + if hs.last().is_allocated {
            0
        } else {
            hs.last().size as int
        }
    }
}

proof fn lemma_free_bytes_nonneg(hs: Seq<Header>)
    ensures
        free_bytes(hs) >= 0,
    decreases hs.len(),
{
    if hs.len() > 0 {
        lemma_free_bytes_nonneg(hs.drop_last());
    }
}

proof fn lemma_free_bytes_add(x: Seq<Header>, y: Seq<Header>)
    ensures
        free_bytes(x + y) == free_bytes(x) + free_bytes(y),
    decreases y.len(),
{
    if y.len() == 0 {
        assert(x + y =~= x);
    } else {
        lemma_free_bytes_add(x, y.drop_last());
        assert((x + y).drop_last() =~= x + y.drop_last());
        assert((x + y).last() == y.last());
    }
}

/// A chain splits, around any position, into the part before, the block
/// itself, and the part after.
proof fn lemma_chain_split(hs: Seq<Header>, i: int)
    requires
        0 <= i < hs.len(),
    ensures
        free_bytes(hs) == free_bytes(hs.take(i)) + free_bytes(seq![hs[i]]) + free_bytes(
            hs.skip(i + 1),
        ),
{
    assert(hs =~= hs.take(i) + seq![hs[i]] + hs.skip(i + 1));
    lemma_free_bytes_add(hs.take(i) + seq![hs[i]], hs.skip(i + 1));
    lemma_free_bytes_add(hs.take(i), seq![hs[i]]);
}

/// Exhaustion accounting: a successful allocation needs at least
/// `eff_size + 2 * HEADER_SIZE + eff_align` bytes of free space and
/// consumes exactly `eff_size + HEADER_SIZE` of them. Since every
/// normalized request consumes at least `2 * HEADER_SIZE` bytes of the
/// finite free pool and needs at least `4 * HEADER_SIZE` available,
/// repeated allocation must eventually return a failure.
/// The blocks of one carve hold exactly `HEADER_SIZE + s` fewer free bytes
/// than the block they replace.
proof fn lemma_free_bytes_carved(h: Header, s: int, a: int)
    requires
        fits(h, s, a),
        h.addr as int % (HEADER_SIZE as int) == 0,
        h.size as int % (HEADER_SIZE as int) == 0,
        h.addr + h.size <= usize::MAX,
        HEADER_SIZE <= s,
        s % (HEADER_SIZE as int) == 0,
        HEADER_SIZE <= a,
        a % (HEADER_SIZE as int) == 0,
    ensures
        free_bytes(carved_blocks(h, s, a)) == h.size - s - HEADER_SIZE,
{
    lemma_carve_facts(h, s, a);
    let cb = carved_blocks(h, s, a);
    let p = carve_addr(h, s, a);
    assert(cb[0].size as int == p - HEADER_SIZE - h.addr);
    if cb.len() == 2 {
        let d1 = cb.drop_last();
        assert(cb.last() == cb[1]);
        assert(d1.last() == cb[0]);
        assert(d1.drop_last() =~= Seq::<Header>::empty());
        assert(free_bytes(d1.drop_last()) == 0);
        assert(free_bytes(d1) == cb[0].size as int);
        assert(free_bytes(cb) == cb[0].size as int);
        assert(p + s == h.spec_end_addr());
    } else {
        let d1 = cb.drop_last();
        let d2 = d1.drop_last();
        assert(cb.last() == cb[2]);
        assert(d1.last() == cb[1]);
        assert(d2.last() == cb[0]);
        assert(d2.drop_last() =~= Seq::<Header>::empty());
        assert(free_bytes(d2.drop_last()) == 0);
        assert(free_bytes(d2) == cb[0].size as int);
        assert(free_bytes(d1) == cb[0].size as int);
        assert(free_bytes(cb) == cb[0].size as int + cb[2].size as int);
        assert(cb[2].size as int == h.spec_end_addr() - p - s);
    }
}

#[verifier::rlimit(60)]
pub proof fn lemma_alloc_consumes(hs: Seq<Header>, base: int, rsize: int, size: int, align: int)
    requires
        chain_wf(hs, base, rsize),
        base + rsize <= usize::MAX,
        is_pow2(align),
        spec_alloc(hs, size, align).1 is Some,
    ensures
        free_bytes(hs) >= eff_size(size) + 2 * HEADER_SIZE + eff_align(align),
        free_bytes(spec_alloc(hs, size, align).0) == free_bytes(hs) - (eff_size(size)
            + HEADER_SIZE),
{
    let s = eff_size(size);
    let a = eff_align(align);
    let i = first_fit_from(hs, s, a, 0)->Some_0;
    lemma_first_fit_exists(hs, s, a, 0);
    lemma_eff_facts(size, align);
    let h = hs[i];
    lemma_chain_extents(hs, base, rsize);
    lemma_free_bytes_carved(h, s, a);
    let cb = carved_blocks(h, s, a);
    lemma_chain_split(hs, i);
    lemma_free_bytes_add(hs.take(i) + cb, hs.skip(i + 1));
    lemma_free_bytes_add(hs.take(i), cb);
    lemma_free_bytes_nonneg(hs.take(i));
    lemma_free_bytes_nonneg(hs.skip(i + 1));
    assert(free_bytes(seq![hs[i]]) == h.size as int) by {
        assert(!h.is_allocated);
        assert(seq![hs[i]].last() == hs[i]);
        assert(seq![hs[i]].drop_last() =~= Seq::<Header>::empty());
        assert(free_bytes(Seq::<Header>::empty()) == 0);
    }
    assert(spec_alloc(hs, size, align).0 == hs.take(i) + cb + hs.skip(i + 1));
}

/// No aliasing with live blocks: a successful allocation's payload is
/// disjoint from the extent of every block that was already allocated.
pub proof fn lemma_alloc_no_alias(
    hs: Seq<Header>,
    base: int,
    rsize: int,
    size: int,
    align: int,
    j: int,
)
    requires
        chain_wf(hs, base, rsize),
        base + rsize <= usize::MAX,
        is_pow2(align),
        spec_alloc(hs, size, align).1 is Some,
        0 <= j < hs.len(),
        hs[j].is_allocated,
    ensures
        ({
            let p = spec_alloc(hs, size, align).1->Some_0;
            p + eff_size(size) <= hs[j].addr || hs[j].addr + hs[j].size <= p
        }),
{
    let s = eff_size(size);
    let a = eff_align(align);
    let i = first_fit_from(hs, s, a, 0)->Some_0;
    lemma_alloc_success(hs, base, rsize, size, align, i);
    lemma_eff_facts(size, align);
    lemma_chain_extents(hs, base, rsize);
    lemma_carve_facts(hs[i], s, a);
    if j < i {
        lemma_chain_order(hs, base, rsize, j, i);
    } else {
        lemma_chain_order(hs, base, rsize, i, j);
    }
}

/// Deallocate/allocate round trip: after allocating a block and
/// deallocating it again, a request whose normalized demand fits inside
/// the freed block is guaranteed to succeed. (The freed block offers
/// `eff_size + HEADER_SIZE` bytes, and a request needs
/// `eff_size' + 2 * HEADER_SIZE + eff_align'` of them; when the first
/// request was roomy enough this covers every equal-or-smaller request.)
pub proof fn lemma_dealloc_alloc_round_trip(
    hs: Seq<Header>,
    base: int,
    rsize: int,
    size: int,
    align: int,
    size2: int,
    align2: int,
)
    requires
        chain_wf(hs, base, rsize),
        base + rsize <= usize::MAX,
        is_pow2(align),
        is_pow2(align2),
        spec_alloc(hs, size, align).1 is Some,
        size_ok(size2),
        eff_size(size2) + 2 * HEADER_SIZE + eff_align(align2) <= eff_size(size) + HEADER_SIZE,
    ensures
        ({
            let (hs1, po) = spec_alloc(hs, size, align);
            let hs2 = spec_dealloc(hs1, po->Some_0);
            spec_alloc(hs2, size2, align2).1 is Some
        }),
{
    let s = eff_size(size);
    let a = eff_align(align);
    let i = first_fit_from(hs, s, a, 0)->Some_0;
    lemma_alloc_success(hs, base, rsize, size, align, i);
    let (hs1, po) = spec_alloc(hs, size, align);
    let p = po->Some_0;
    let hs2 = spec_dealloc(hs1, p);
    assert(hs2[i + 1].addr + HEADER_SIZE == p && !hs2[i + 1].is_allocated && hs2[i + 1].size == s
        + HEADER_SIZE);
    assert(fits(hs2[i + 1], eff_size(size2), eff_align(align2)));
    lemma_first_fit_exists(hs2, eff_size(size2), eff_align(align2), 0);
}

/// First-fit allocator over one contiguous region, in the tradition of the
/// classic K&R free-list walker.
pub struct FirstFitAllocator {
    headers: Vec<Header>,
    base: usize,
    region_size: usize,
}

impl FirstFitAllocator {
    /// The chain of block headers, in block-address order.
    pub closed spec fn chain(self) -> Seq<Header> {
        self.headers@
    }

    /// Start address of the managed region.
    pub closed spec fn spec_base(self) -> int {
        self.base as int
    }

    /// Size in bytes of the managed region.
    pub closed spec fn spec_region_size(self) -> int {
        self.region_size as int
    }

    /// Well-formedness: before `init_heap` the allocator manages nothing;
    /// afterwards the chain tiles the region and the region sits on
    /// header-aligned addresses within the address space.
    pub open spec fn wf(self) -> bool {
        if self.chain().len() == 0 {
            self.spec_base() == 0 && self.spec_region_size() == 0
        } else {
            &&& chain_wf(self.chain(), self.spec_base(), self.spec_region_size())
            &&& self.spec_base() % (HEADER_SIZE as int) == 0
            &&& self.spec_base() + self.spec_region_size() <= usize::MAX
        }
    }

    /// A fresh allocator that manages no region yet; every allocation
    /// request fails until `init_heap` hands it one.
    pub fn new() -> (r: Self)
        ensures
            r.wf(),
            r.chain().len() == 0,
    {
        FirstFitAllocator { headers: Vec::new(), base: 0, region_size: 0 }
    }

    /// Hands the region `[heap_addr, heap_addr + heap_size)` to the
    /// allocator and establishes the first header, covering the whole
    /// region and marked free.
    ///
    /// Must be called exactly once, before any allocation: the `requires`
    /// clause rejects a second call. The region must be header-aligned at
    /// both ends so that the alignment guarantees of allocation hold.
    pub fn init_heap(&mut self, heap_addr: usize, heap_size: usize)
        requires
            old(self).chain().len() == 0,
            heap_addr % HEADER_SIZE == 0,
            heap_size % HEADER_SIZE == 0,
            heap_size >= HEADER_SIZE,
            heap_addr + heap_size <= usize::MAX,
        ensures
            final(self).wf(),
            final(self).spec_base() == heap_addr,
            final(self).spec_region_size() == heap_size,
            final(self).chain() =~= seq![
                Header { addr: heap_addr, size: heap_size, is_allocated: false, reserved: 0 },
            ],
    {
        self.headers.push(Header { addr: heap_addr, size: heap_size, is_allocated: false, reserved: 0 });
        self.base = heap_addr;
        self.region_size = heap_size;
    }

    /// Carves an allocation of normalized size `s` and alignment `a` out of
    /// the fitting free block at chain position `i`, and returns the
    /// payload address.
    #[verifier::rlimit(80)]
    fn provide_at(&mut self, i: usize, s: usize, a: usize) -> (r: usize)
        requires
            old(self).wf(),
            i < old(self).chain().len(),
            fits(old(self).chain()[i as int], s as int, a as int),
            HEADER_SIZE <= s,
            s as int % (HEADER_SIZE as int) == 0,
            HEADER_SIZE <= a,
            a as int % (HEADER_SIZE as int) == 0,
            s + 2 * HEADER_SIZE + a <= usize::MAX,
        ensures
            final(self).wf(),
            final(self).spec_base() == old(self).spec_base(),
            final(self).spec_region_size() == old(self).spec_region_size(),
            final(self).chain() == old(self).chain().take(i as int) + carved_blocks(
                old(self).chain()[i as int],
                s as int,
                a as int,
            ) + old(self).chain().skip(i as int + 1),
            r as int == carve_addr(old(self).chain()[i as int], s as int, a as int),
    {
        let ghost hs0 = self.chain();
        let ghost base = self.spec_base();
        let ghost rsize = self.spec_region_size();
        proof {
            lemma_chain_extents(hs0, base, rsize);
            lemma_carve_facts(hs0[i as int], s as int, a as int);
        }
        let n = self.headers.len();
        let h = self.headers[i];
        let end = h.addr + h.size;
        let x = end - s;
        proof {
            lemma_fundamental_div_mod(x as int, a as int);
            lemma_mod_pos_bound(x as int, a as int);
            assert((x as int / a as int) * (a as int) == (a as int) * (x as int / a as int));
        }
        let alloc_addr = (x / a) * a;
        proof {
            assert(alloc_addr as int == carve_addr(hs0[i as int], s as int, a as int));
        }
        proof {
            lemma_chain_len_bound(hs0, base, rsize);
        }
        let shrunk = Header {
            addr: h.addr,
            size: (alloc_addr - HEADER_SIZE) - h.addr,
            is_allocated: h.is_allocated,
            reserved: h.reserved,
        };
        let allocated = Header {
            addr: alloc_addr - HEADER_SIZE,
            size: s + HEADER_SIZE,
            is_allocated: true,
            reserved: 0,
        };
        let ghost cb = carved_blocks(hs0[i as int], s as int, a as int);
        proof {
            assert(cb[0] == shrunk);
            assert(cb[1] == allocated);
        }
        self.headers[i] = shrunk;
        self.headers.insert(i + 1, allocated);
        let alloc_end = alloc_addr + s;
        if alloc_end != end {
            let padding = Header {
                addr: alloc_end,
                size: end - alloc_end,
                is_allocated: false,
                reserved: 0,
            };
            proof {
                assert(cb.len() == 3 && cb[2] == padding);
            }
            self.headers.insert(i + 2, padding);
        }
        proof {
            lemma_carve_chain_shape(hs0, i as int, s as int, a as int);
            assert(self.chain() == hs0.take(i as int) + cb + hs0.skip(i as int + 1));
            lemma_carved_blocks_replace(hs0[i as int], s as int, a as int);
            lemma_splice_preserves_wf(hs0, base, rsize, i as int, cb);
        }
        alloc_addr
    }

    /// Serves an allocation request of `size` bytes at alignment `align`.
    ///
    /// The request is normalized (size rounded up to a power of two and to
    /// at least one header; alignment raised to at least one header), the
    /// chain is walked from its head, and the allocation is carved out of
    /// the first free block that passes the capacity test. Returns the
    /// payload address on success; returns `None`, leaving the allocator
    /// untouched, when the size cannot be normalized or no free block can
    /// serve the request.
    ///
    /// Callers must pass a power-of-two alignment, as ambient allocation
    /// contracts guarantee; the returned address is then a multiple of it.
    pub fn alloc_with_options(&mut self, size: usize, align: usize) -> (r: Option<usize>)
        requires
            old(self).wf(),
            is_pow2(align as int),
        ensures
            final(self).wf(),
            final(self).spec_base() == old(self).spec_base(),
            final(self).spec_region_size() == old(self).spec_region_size(),
            final(self).chain() == spec_alloc(old(self).chain(), size as int, align as int).0,
            match r {
                Some(p) => spec_alloc(old(self).chain(), size as int, align as int).1 == Some(
                    p as int,
                ),
                None => spec_alloc(old(self).chain(), size as int, align as int).1 is None,
            },
            r is None ==> final(self).chain() == old(self).chain(),
            // Alignment guarantee: a returned address is a multiple of the
            // requested alignment (and of the header size).
            r matches Some(p) ==> p as int % (align as int) == 0 && p as int % (HEADER_SIZE as int)
                == 0,
            // No false success: a returned address is the payload of an
            // allocated chain block whose usable size covers the request.
            r matches Some(p) ==> eff_size(size as int) >= size && exists|j: int|
                0 <= j < final(self).chain().len() && (#[trigger] final(self).chain()[j]).addr
                    + HEADER_SIZE == p && final(self).chain()[j].is_allocated
                    && final(self).chain()[j].size == eff_size(size as int) + HEADER_SIZE,
    {
        let ghost hs0 = self.chain();
        let rounded = match round_up_to_nearest_pow2(size) {
            Ok(p) => p,
            Err(_) => {
                return None;
            },
        };
        let s = if rounded < HEADER_SIZE {
            HEADER_SIZE
        } else {
            rounded
        };
        let a = if align < HEADER_SIZE {
            HEADER_SIZE
        } else {
            align
        };
        proof {
            lemma_eff_facts(size as int, align as int);
            assert(s as int == eff_size(size as int));
            assert(a as int == eff_align(align as int));
        }
        if s > usize::MAX - 2 * HEADER_SIZE || a > usize::MAX - 2 * HEADER_SIZE - s {
            // The capacity test could never pass: no block is this large.
            proof {
                lemma_first_fit_exists(hs0, s as int, a as int, 0);
            }
            return None;
        }
        match self.find_first_fit(s, a) {
            Some(i) => {
                proof {
                    lemma_alloc_success(
                        hs0,
                        old(self).spec_base(),
                        old(self).spec_region_size(),
                        size as int,
                        align as int,
                        i as int,
                    );
                }
                let p = self.provide_at(i, s, a);
                Some(p)
            },
            None => None,
        }
    }

    /// Walks the chain from its head and returns the position of the first
    /// free block that passes the capacity test for normalized size `s`
    /// and alignment `a`, if any.
    fn find_first_fit(&self, s: usize, a: usize) -> (r: Option<usize>)
        requires
            s + 2 * HEADER_SIZE + a <= usize::MAX,
        ensures
            match r {
                Some(i) => 0 <= i < self.chain().len() && first_fit_from(
                    self.chain(),
                    s as int,
                    a as int,
                    0,
                ) == Some(i as int),
                None => first_fit_from(self.chain(), s as int, a as int, 0) is None,
            },
    {
        let n = self.headers.len();
        let mut i: usize = 0;
        while i < n
            invariant
                n == self.chain().len(),
                i <= n,
                s + 2 * HEADER_SIZE + a <= usize::MAX,
                first_fit_from(self.chain(), s as int, a as int, 0) == first_fit_from(
                    self.chain(),
                    s as int,
                    a as int,
                    i as int,
                ),
            decreases n - i,
        {
            let h = self.headers[i];
            if !h.is_allocated() && h.can_provide(s, a) {
                proof {
                    assert(fits(self.chain()[i as int], s as int, a as int));
                    assert(first_fit_from(self.chain(), s as int, a as int, i as int) == Some(
                        i as int,
                    ));
                }
                return Some(i);
            }
            i = i + 1;
        }
        None
    }

    /// Releases the allocation whose payload starts at `ptr`: the block
    /// whose header sits exactly one header before `ptr` becomes free.
    ///
    /// The caller must guarantee that `ptr` was returned by a successful
    /// allocation that has not been deallocated since; the `requires`
    /// clause states exactly that an allocated block with this payload
    /// address is in the chain. The chain topology does not change, and no
    /// merging with neighboring free blocks takes place.
    pub fn dealloc(&mut self, ptr: usize)
        requires
            old(self).wf(),
            exists|i: int|
                0 <= i < old(self).chain().len() && (#[trigger] old(self).chain()[i]).addr
                    + HEADER_SIZE == ptr && old(self).chain()[i].is_allocated,
        ensures
            final(self).wf(),
            final(self).spec_base() == old(self).spec_base(),
            final(self).spec_region_size() == old(self).spec_region_size(),
            final(self).chain() == spec_dealloc(old(self).chain(), ptr as int),
    {
        let ghost hs0 = self.chain();
        let mut i: usize = 0;
        let n = self.headers.len();
        while i < n
            invariant
                self == old(self),
                old(self).wf(),
                hs0 == self.chain(),
                n == hs0.len(),
                i <= n,
                exists|k: int|
                    0 <= k < hs0.len() && (#[trigger] hs0[k]).addr + HEADER_SIZE == ptr
                        && hs0[k].is_allocated,
                forall|k: int| 0 <= k < i ==> (#[trigger] hs0[k]).addr + HEADER_SIZE != ptr,
            decreases n - i,
        {
            let h = self.headers[i];
            proof {
                lemma_chain_extents(hs0, self.spec_base(), self.spec_region_size());
            }
            if h.addr + HEADER_SIZE == ptr {
                self.headers[i] = Header {
                    addr: h.addr,
                    size: h.size,
                    is_allocated: false,
                    reserved: h.reserved,
                };
                proof {
                    assert forall|j: int| 0 <= j < hs0.len() implies self.chain()[j] == spec_dealloc(
                        hs0,
                        ptr as int,
                    )[j] by {
                        if j != i as int {
                            if hs0[j].addr + HEADER_SIZE == ptr {
                                if j < i as int {
                                    lemma_chain_order(
                                        hs0,
                                        old(self).spec_base(),
                                        old(self).spec_region_size(),
                                        j,
                                        i as int,
                                    );
                                } else {
                                    lemma_chain_order(
                                        hs0,
                                        old(self).spec_base(),
                                        old(self).spec_region_size(),
                                        i as int,
                                        j,
                                    );
                                }
                            }
                        }
                    }
                    assert(self.chain() =~= spec_dealloc(hs0, ptr as int));
                }
                return ;
            }
            i = i + 1;
        }
        proof {
            let k = choose|k: int|
                0 <= k < hs0.len() && (#[trigger] hs0[k]).addr + HEADER_SIZE == ptr
                    && hs0[k].is_allocated;
            assert(hs0[k].addr + HEADER_SIZE != ptr);
            assert(false);
        }
    }

    /// Number of headers currently in the chain.
    pub fn header_count(&self) -> (r: usize)
        ensures
            r == self.chain().len(),
    {
        self.headers.len()
    }

    /// The header at chain position `i`.
    pub fn header_at(&self, i: usize) -> (r: Header)
        requires
            i < self.chain().len(),
        ensures
            r == self.chain()[i as int],
    {
        self.headers[i]
    }

    /// Start address of the managed region.
    pub fn base(&self) -> (r: usize)
        ensures
            r as int == self.spec_base(),
    {
        self.base
    }

    /// Size in bytes of the managed region.
    pub fn region_size(&self) -> (r: usize)
        ensures
            r as int == self.spec_region_size(),
    {
        self.region_size
    }
}

} // verus!

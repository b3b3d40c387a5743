//! Buddy physical page allocator — the kernel's page-granular allocator.
//!
//! Free blocks are kept in per-order free-lists (orders `0..MAX_ORDER`, block
//! `= 2^order` frames). `alloc` splits the smallest sufficient block down;
//! `free` coalesces with its buddy up the orders; `free_range` seeds the lists
//! from a contiguous run. A [`PageInfo`] per frame (the mem-map) holds each
//! frame's state and its free-list links.
//!
//! The abstract state ([`BuddyView`]) is the state of every frame plus the
//! contents of every free-list; each operation's contract states the new
//! abstract state exactly, over the spec functions below.

use vstd::prelude::*;
use vstd::arithmetic::power2::{
    pow2, lemma_pow2_pos, lemma_pow2_unfold, lemma_pow2_adds, lemma_pow2_strictly_increases,
    lemma2_to64,
};
use vstd::bits::{
    lemma_u32_shl_is_mul, lemma_u32_pow2_no_overflow, lemma_u32_shr_is_div, lemma_u64_shl_is_mul,
    lemma_u64_pow2_no_overflow,
};

use crate::arch::mm::PhysAddr;
use crate::mm::frame::PAGE_SIZE;

verus! {

broadcast use {vstd::arithmetic::power2::lemma_pow2_pos, vstd::seq_lib::group_seq_properties};

/// Number of orders: blocks span `2^0 ..= 2^(MAX_ORDER - 1)` frames.
pub const MAX_ORDER: usize = 11;

/// Link value meaning "no frame".
pub const RAW_NONE: u32 = 0xFFFF_FFFF;

/// A frame number relative to the allocator's `dram_base`.
#[derive(Clone, Copy, PartialEq, Eq, Debug, Structural)]
pub struct Pfn(u32);

impl View for Pfn {
    type V = u32;

    closed spec fn view(&self) -> u32 {
        self.0
    }
}

impl Pfn {
    pub fn new_unchecked(raw: u32) -> (r: Self)
        ensures
            r@ == raw,
    {
        Self(raw)
    }

    pub fn index(self) -> (r: usize)
        ensures
            r == self@,
    {
        self.0 as usize
    }

    pub fn raw(self) -> (r: u32)
        ensures
            r == self@,
    {
        self.0
    }
}

/// What a frame currently is.
#[derive(Clone, Copy, PartialEq, Eq, Debug, Structural)]
pub enum PageState {
    /// Not managed (outside RAM, or not yet handed to the allocator).
    Reserved,
    /// Head of a free block.
    Free,
    /// Head of an allocated block.
    Allocated,
    /// A non-head frame of a block.
    Tail,
}

/// Per-frame descriptor of the mem-map.
#[derive(Clone, Copy, Debug)]
pub struct PageInfo {
    next: u32,
    prev: u32,
    count: u32,
    order: u8,
    state: PageState,
    flags: u16,
}

/// The abstract state of one frame: heads carry their block's order.
#[derive(PartialEq, Eq)]
pub enum FrameState {
    Reserved,
    Free(nat),
    Allocated(nat),
    Tail,
}

/// The abstract state of the allocator.
pub struct BuddyView {
    /// State of each managed frame (indexed by relative frame number).
    pub states: Seq<FrameState>,
    /// `lists[k]` is the free-list of order `k`, head first.
    pub lists: Seq<Seq<u32>>,
    /// The free-frame counter.
    pub free_frames: nat,
}

pub closed spec fn frame_state_of(p: PageInfo) -> FrameState {
    match p.state {
        PageState::Reserved => FrameState::Reserved,
        PageState::Free => FrameState::Free(p.order as nat),
        PageState::Allocated => FrameState::Allocated(p.order as nat),
        PageState::Tail => FrameState::Tail,
    }
}

/// Whether a frame state is the head of a block (free or allocated).
pub open spec fn is_head(s: FrameState) -> bool {
    s is Free || s is Allocated
}

/// The order of a block head.
pub open spec fn head_order(s: FrameState) -> nat {
    match s {
        FrameState::Free(o) => o,
        FrameState::Allocated(o) => o,
        _ => 0,
    }
}

/// Frames held by the free-lists of orders `< n`: `Σ |lists[k]| · 2^k`.
pub open spec fn mass(lists: Seq<Seq<u32>>, n: nat) -> nat
    decreases n,
{
    if n == 0 {
        0
    } else {
        mass(lists, (n - 1) as nat) + lists[n - 1].len() * pow2((n - 1) as nat)
    }
}

/// The buddy of block `p` at order `k`: the other half of the enclosing
/// order-`k+1` block.
pub open spec fn buddy_of(p: nat, k: nat) -> nat {
    if (p / pow2(k)) % 2 == 0 {
        p + pow2(k)
    } else {
        (p - pow2(k)) as nat
    }
}

/// The structural invariant of an abstract state, with one block `x` (of
/// current order `xk`) exempt from the list/head rules — the block an
/// operation is working on. `x < 0` exempts nothing.
pub open spec fn view_inv(v: BuddyView, x: int, xk: nat) -> bool {
    let nr = v.states.len();
    &&& nr < RAW_NONE
    &&& v.lists.len() == MAX_ORDER
    // every listed frame is a free head of the list's order
    &&& forall|k: int, i: int|
        0 <= k < MAX_ORDER && 0 <= i < v.lists[k].len() ==> {
            &&& #[trigger] v.lists[k][i] < nr
            &&& v.states[v.lists[k][i] as int] == FrameState::Free(k as nat)
            &&& v.lists[k][i] != x
        }
    &&& forall|k: int| 0 <= k < MAX_ORDER ==> (#[trigger] v.lists[k]).no_duplicates()
    // every free head is listed in its order's list
    &&& forall|p: int|
        0 <= p < nr && p != x && (#[trigger] v.states[p]) is Free ==> {
            &&& head_order(v.states[p]) < MAX_ORDER
            &&& v.lists[head_order(v.states[p]) as int].contains(p as u32)
        }
    // every block head is aligned, in range, and its other frames are tails
    &&& forall|p: int|
        0 <= p < nr && p != x && is_head(#[trigger] v.states[p]) ==> {
            &&& head_order(v.states[p]) < MAX_ORDER
            &&& p % (pow2(head_order(v.states[p])) as int) == 0
            &&& p + pow2(head_order(v.states[p])) <= nr
        }
    &&& forall|p: int, q: int|
        0 <= p < nr && p != x && is_head(#[trigger] v.states[p]) && p < q < p + pow2(
            head_order(v.states[p]),
        ) ==> #[trigger] v.states[q] == FrameState::Tail
    // the exempt block
    &&& x >= 0 ==> {
        &&& x < nr
        &&& xk < MAX_ORDER
        &&& x % (pow2(xk) as int) == 0
        &&& x + pow2(xk) <= nr
        &&& forall|q: int| x < q < x + pow2(xk) ==> #[trigger] v.states[q] == FrameState::Tail
    }
}

/// Well-formedness of an abstract state: the structural invariant with
/// nothing exempt, and the counter equal to the frames held by the lists.
pub open spec fn view_wf(v: BuddyView) -> bool {
    &&& view_inv(v, -1, 0)
    &&& v.free_frames == mass(v.lists, MAX_ORDER as nat)
}


/// The lowest order `>= k` whose free-list is non-empty.
pub open spec fn first_nonempty(lists: Seq<Seq<u32>>, k: nat) -> Option<nat>
    decreases MAX_ORDER - k,
{
    if k >= MAX_ORDER {
        None
    } else if lists[k as int].len() > 0 {
        Some(k)
    } else {
        first_nonempty(lists, k + 1)
    }
}

/// One split step of block `b` at order `j + 1`: its upper half becomes a
/// free order-`j` block at the front of list `j`.
pub open spec fn split_step(v: BuddyView, b: nat, j: nat) -> BuddyView {
    let half = b + pow2(j);
    BuddyView {
        states: v.states.update(half as int, FrameState::Free(j)),
        lists: v.lists.update(j as int, seq![half as u32] + v.lists[j as int]),
        free_frames: v.free_frames,
    }
}

/// Split block `b` from order `k` down to order `o`, freeing each upper half.
pub open spec fn split_view(v: BuddyView, b: nat, k: nat, o: nat) -> BuddyView
    decreases k,
{
    if k <= o {
        v
    } else {
        split_view(split_step(v, b, (k - 1) as nat), b, (k - 1) as nat, o)
    }
}

/// The result of allocating an order-`o` block: the head `b` of the lowest
/// non-empty list of order `k >= o` is taken, split down to order `o`, and
/// marked allocated; the counter drops by `2^o`. `None`, with no change, when
/// every list of order `>= o` is empty.
pub open spec fn alloc_view(v: BuddyView, o: nat) -> (BuddyView, Option<u32>) {
    match first_nonempty(v.lists, o) {
        None => (v, None),
        Some(k) => {
            let b = v.lists[k as int][0];
            let v1 = BuddyView {
                states: v.states,
                lists: v.lists.update(k as int, v.lists[k as int].drop_first()),
                free_frames: v.free_frames,
            };
            let v2 = split_view(v1, b as nat, k, o);
            (
                BuddyView {
                    states: v2.states.update(b as int, FrameState::Allocated(o)),
                    lists: v2.lists,
                    free_frames: (v.free_frames - pow2(o)) as nat,
                },
                Some(b),
            )
        },
    }
}

/// Free block `cur` of order `k`, merging it with its buddy for as long as
/// the buddy is a free block of the same order (and the merged order stays
/// below `MAX_ORDER`). The merged block's head is the lower of the two; the
/// upper becomes a tail. The final block goes to the front of its list.
pub open spec fn coalesce(v: BuddyView, cur: nat, k: nat) -> BuddyView
    decreases MAX_ORDER - k,
{
    let b = buddy_of(cur, k);
    if k + 1 < MAX_ORDER && b < v.states.len() && v.states[b as int] == FrameState::Free(k) {
        let head = if cur < b {
            cur
        } else {
            b
        };
        let tail = if cur < b {
            b
        } else {
            cur
        };
        let v1 = BuddyView {
            states: v.states.update(tail as int, FrameState::Tail),
            lists: v.lists.update(k as int, v.lists[k as int].remove(v.lists[k as int].index_of(b as u32))),
            free_frames: v.free_frames,
        };
        coalesce(v1, head, k + 1)
    } else {
        BuddyView {
            states: v.states.update(cur as int, FrameState::Free(k)),
            lists: v.lists.update(k as int, seq![cur as u32] + v.lists[k as int]),
            free_frames: v.free_frames,
        }
    }
}

/// The result of freeing the allocated order-`o` block at `pfn`.
pub open spec fn free_view(v: BuddyView, pfn: nat, o: nat) -> BuddyView {
    coalesce(
        BuddyView { states: v.states, lists: v.lists, free_frames: v.free_frames + pow2(o) },
        pfn,
        o,
    )
}

/// Search upward from order `o` for the largest order a block at `p` may
/// have: aligned to it, no larger than `rem` frames, below `MAX_ORDER`.
pub open spec fn max_order_from(p: nat, rem: nat, o: nat) -> nat
    decreases MAX_ORDER - o,
{
    if o + 1 < MAX_ORDER && p % pow2(o + 1) == 0 && pow2(o + 1) <= rem {
        max_order_from(p, rem, o + 1)
    } else {
        o
    }
}

/// The largest order of a block placed at `p` with `rem` frames remaining.
pub open spec fn max_order_spec(p: nat, rem: nat) -> nat {
    max_order_from(p, rem, 0)
}

/// The order found is at least the starting order, below `MAX_ORDER`, keeps
/// the block within `rem` frames, and keeps `p` aligned.
pub proof fn lemma_max_order_props(p: nat, rem: nat, o: nat)
    requires
        o < MAX_ORDER,
        pow2(o) <= rem,
        p % pow2(o) == 0,
    ensures
        o <= max_order_from(p, rem, o) < MAX_ORDER,
        pow2(max_order_from(p, rem, o)) <= rem,
        p % pow2(max_order_from(p, rem, o)) == 0,
    decreases MAX_ORDER - o,
{
    if o + 1 < MAX_ORDER && p % pow2(o + 1) == 0 && pow2(o + 1) <= rem {
        lemma_max_order_props(p, rem, o + 1);
    }
}

/// The search from order `o` stops at the largest order it may: no order
/// above the one found, below `MAX_ORDER`, has `p` aligned to it with its
/// block fitting in `rem` frames.
proof fn lemma_max_order_from_maximal(p: nat, rem: nat, o: nat)
    requires
        o < MAX_ORDER,
        p % pow2(o) == 0,
        pow2(o) <= rem,
    ensures
        forall|j: nat|
            max_order_from(p, rem, o) < j < MAX_ORDER ==> !(p % pow2(j) == 0 && pow2(j) <= rem),
    decreases MAX_ORDER - o,
{
    if o + 1 < MAX_ORDER && p % pow2(o + 1) == 0 && pow2(o + 1) <= rem {
        lemma_max_order_from_maximal(p, rem, o + 1);
    } else {
        assert forall|j: nat| o < j < MAX_ORDER implies !(p % pow2(j) == 0 && pow2(j) <= rem) by {
            if p % pow2(j) == 0 && pow2(j) <= rem {
                lemma_aligned_lower(p, j, o + 1);
                if o + 1 < j {
                    lemma_pow2_strictly_increases(o + 1, j);
                }
            }
        }
    }
}

/// The order `free_range` gives a block at `p` with `rem` frames left is
/// the largest one possible: `p` is aligned to it, the block fits in `rem`,
/// it is below `MAX_ORDER`, and no larger order below `MAX_ORDER` has both.
pub proof fn lemma_max_order_maximal(p: nat, rem: nat)
    requires
        rem >= 1,
    ensures
        max_order_spec(p, rem) < MAX_ORDER,
        p % pow2(max_order_spec(p, rem)) == 0,
        pow2(max_order_spec(p, rem)) <= rem,
        forall|j: nat|
            max_order_spec(p, rem) < j < MAX_ORDER ==> !(p % pow2(j) == 0 && pow2(j) <= rem),
{
    lemma2_to64();
    lemma_max_order_props(p, rem, 0);
    lemma_max_order_from_maximal(p, rem, 0);
}

/// Place a free block of order `o` at `p`: head free, other frames tails,
/// head at the front of list `o`, counter up by `2^o`.
pub open spec fn place_block(v: BuddyView, p: nat, o: nat) -> BuddyView {
    BuddyView {
        states: Seq::new(
            v.states.len(),
            |q: int|
                if q == p {
                    FrameState::Free(o)
                } else if p < q < p + pow2(o) {
                    FrameState::Tail
                } else {
                    v.states[q]
                },
        ),
        lists: v.lists.update(o as int, seq![p as u32] + v.lists[o as int]),
        free_frames: v.free_frames + pow2(o),
    }
}

/// The state of a fresh allocator over `nr` frames: every frame reserved,
/// every free-list empty, nothing counted free.
pub open spec fn fresh_view(nr: nat) -> BuddyView {
    BuddyView {
        states: Seq::new(nr, |q: int| FrameState::Reserved),
        lists: Seq::new(MAX_ORDER as nat, |k: int| Seq::<u32>::empty()),
        free_frames: 0,
    }
}

/// Carve the frames `[p, end)` greedily into maximal aligned free blocks,
/// lowest address first.
pub open spec fn carve(v: BuddyView, p: nat, end: nat) -> BuddyView
    decreases end - p,
{
    if p >= end {
        v
    } else {
        let o = max_order_spec(p, (end - p) as nat);
        proof {
            lemma_pow2_pos(o);
            lemma2_to64();
            lemma_max_order_props(p, (end - p) as nat, 0);
        }
        carve(place_block(v, p, o), p + pow2(o), end)
    }
}

/// Freeing an aligned run of `2^k` frames (`k < MAX_ORDER`) makes one
/// free block of order `k` at its start, and an allocation of order `k`
/// right after hands out exactly that block.
pub proof fn lemma_aligned_run_allocates(v: BuddyView, p: nat, k: nat)
    requires
        v.lists.len() == MAX_ORDER,
        k < MAX_ORDER,
        p % pow2(k) == 0,
        p + pow2(k) <= v.states.len(),
        v.states.len() < RAW_NONE,
    ensures
        carve(v, p, p + pow2(k)).states[p as int] == FrameState::Free(k),
        alloc_view(carve(v, p, p + pow2(k)), k).1 == Some(p as u32),
{
    lemma2_to64();
    let rem = pow2(k);
    lemma_max_order_maximal(p, rem);
    let m = max_order_spec(p, rem);
    if m < k {
        assert(!(p % pow2(k) == 0 && pow2(k) <= rem));
    }
    if m > k {
        lemma_pow2_strictly_increases(k, m);
    }
    assert(m == k);
    let w = place_block(v, p, k);
    assert(carve(v, p, p + pow2(k)) == carve(w, p + pow2(k), p + pow2(k)));
    assert(carve(v, p, p + pow2(k)) == w);
    assert(w.lists[k as int].len() > 0);
    assert(first_nonempty(w.lists, k) == Some(k));
    assert(w.lists[k as int][0] == p as u32);
}

/// Replacing one list changes the mass by that list's difference.
pub proof fn lemma_mass_update(lists: Seq<Seq<u32>>, k: int, l: Seq<u32>, n: nat)
    requires
        0 <= k < lists.len(),
        n <= lists.len(),
    ensures
        k < n ==> mass(lists.update(k, l), n) == mass(lists, n) - lists[k].len() * pow2(k as nat)
            + l.len() * pow2(k as nat),
        k >= n ==> mass(lists.update(k, l), n) == mass(lists, n),
    decreases n,
{
    if n > 0 {
        lemma_mass_update(lists, k, l, (n - 1) as nat);
    }
}

/// A list's blocks are part of the mass.
pub proof fn lemma_mass_ge(lists: Seq<Seq<u32>>, k: int, n: nat)
    requires
        0 <= k < n,
        n <= lists.len(),
    ensures
        mass(lists, n) >= lists[k].len() * pow2(k as nat),
    decreases n,
{
    if k < n - 1 {
        lemma_mass_ge(lists, k, (n - 1) as nat);
    }
}

/// Alignment to a power of two implies alignment to every smaller one.
pub proof fn lemma_aligned_lower(p: nat, k: nat, j: nat)
    requires
        p % pow2(k) == 0,
        j <= k,
    ensures
        p % pow2(j) == 0,
{
    lemma_pow2_adds(j, (k - j) as nat);
    let a = pow2(j) as int;
    let b = pow2((k - j) as nat) as int;
    vstd::arithmetic::div_mod::lemma_fundamental_div_mod(p as int, a * b);
    let m = p as int / (a * b);
    assert(p == (m * b) * a) by (nonlinear_arith)
        requires
            p == (a * b) * m + 0,
    ;
    vstd::arithmetic::div_mod::lemma_mod_multiples_basic(m * b, a);
}

/// The upper half of an aligned order-`k` block is aligned to order `j < k`.
pub proof fn lemma_half_aligned(b: nat, k: nat, j: nat)
    requires
        b % pow2(k) == 0,
        j < k,
    ensures
        (b + pow2(j)) % pow2(j) == 0,
        b % pow2(j) == 0,
{
    lemma_aligned_lower(b, k, j);
    vstd::arithmetic::div_mod::lemma_mod_add_multiples_vanish(b as int, pow2(j) as int);
}

/// Merging an aligned order-`k` block with its buddy gives an aligned
/// order-`k+1` block whose head is the lower of the two.
pub proof fn lemma_merge_aligned(cur: nat, k: nat)
    requires
        cur % pow2(k) == 0,
    ensures
        buddy_of(cur, k) % pow2(k) == 0,
        cur < buddy_of(cur, k) ==> buddy_of(cur, k) == cur + pow2(k) && cur % pow2(k + 1) == 0,
        cur >= buddy_of(cur, k) ==> cur == buddy_of(cur, k) + pow2(k) && buddy_of(cur, k) % pow2(
            k + 1,
        ) == 0,
{
    let p = pow2(k) as int;
    lemma_pow2_unfold(k + 1);
    assert(pow2(k + 1) == 2 * p);
    vstd::arithmetic::div_mod::lemma_fundamental_div_mod(cur as int, p);
    let m = cur as int / p;
    assert(cur == m * p);
    assert(m >= 0) by (nonlinear_arith)
        requires
            cur == m * p,
            p > 0,
            cur >= 0,
    ;
    if m % 2 == 0 {
        let h = m / 2;
        assert(cur == h * (2 * p)) by (nonlinear_arith)
            requires
                cur == m * p,
                m == 2 * h,
        ;
        vstd::arithmetic::div_mod::lemma_mod_multiples_basic(h, 2 * p);
        assert(buddy_of(cur, k) == cur + p);
        assert(cur + p == (m + 1) * p) by (nonlinear_arith)
            requires
                cur == m * p,
        ;
        vstd::arithmetic::div_mod::lemma_mod_multiples_basic(m + 1, p);
    } else {
        let h = (m - 1) / 2;
        assert(m >= 1);
        assert(cur - p == h * (2 * p)) by (nonlinear_arith)
            requires
                cur == m * p,
                m - 1 == 2 * h,
        ;
        assert(h >= 0);
        vstd::arithmetic::div_mod::lemma_mod_multiples_basic(h, 2 * p);
        assert(cur - p == (m - 1) * p) by (nonlinear_arith)
            requires
                cur == m * p,
        ;
        vstd::arithmetic::div_mod::lemma_mod_multiples_basic(m - 1, p);
        assert(cur >= p);
    }
}

/// Flipping bit `k` of a frame number yields its order-`k` buddy.
pub proof fn lemma_xor_is_buddy(x: u32, k: u32)
    requires
        k < 32,
    ensures
        (x ^ (1u32 << k)) as nat == buddy_of(x as nat, k as nat),
{
    lemma_u32_pow2_no_overflow(k as nat);
    lemma_u32_shl_is_mul(1, k);
    lemma_u32_shr_is_div(x, k);
    let y = x >> k;
    assert(y & 1 == y % 2) by (bit_vector);
    assert(k < 32 && (x >> k) & 1 == 0 ==> x ^ (1u32 << k) == x + (1u32 << k)) by (bit_vector);
    assert(k < 32 && (x >> k) & 1 == 1 ==> x ^ (1u32 << k) == x - (1u32 << k)) by (bit_vector);
    assert((x >> k) & 1 == 0 || (x >> k) & 1 == 1) by (bit_vector);
}

/// The buddy relation is an involution: the buddy of a block's buddy is the
/// block itself.
pub proof fn lemma_buddy_involution(p: nat, k: nat)
    ensures
        buddy_of(buddy_of(p, k), k) == p,
{
    let q = pow2(k) as int;
    vstd::arithmetic::div_mod::lemma_fundamental_div_mod(p as int, q);
    let m = p as int / q;
    let r = p as int % q;
    assert(0 <= r < q) by {
        vstd::arithmetic::div_mod::lemma_mod_bound(p as int, q);
    }
    assert(m >= 0) by {
        vstd::arithmetic::div_mod::lemma_div_pos_is_pos(p as int, q);
    }
    if m % 2 == 0 {
        // buddy = p + q, whose quotient is m + 1 (odd)
        assert(p + q == (m + 1) * q + r) by (nonlinear_arith)
            requires
                p == q * m + r,
        ;
        vstd::arithmetic::div_mod::lemma_fundamental_div_mod_converse(p + q, q, m + 1, r);
    } else {
        assert(p - q == (m - 1) * q + r) by (nonlinear_arith)
            requires
                p == q * m + r,
        ;
        assert(m >= 1);
        assert(p - q >= 0) by (nonlinear_arith)
            requires
                p - q == (m - 1) * q + r,
                m >= 1,
                r >= 0,
                q > 0,
        ;
        vstd::arithmetic::div_mod::lemma_fundamental_div_mod_converse(p - q, q, m - 1, r);
    }
}


/// `first_nonempty` finds a non-empty list at or above the start order, with
/// every list in between empty.
pub proof fn lemma_first_nonempty(lists: Seq<Seq<u32>>, o: nat)
    requires
        lists.len() == MAX_ORDER,
    ensures
        first_nonempty(lists, o) matches Some(k) ==> {
            &&& o <= k < MAX_ORDER
            &&& lists[k as int].len() > 0
            &&& forall|j: int| o <= j < k ==> (#[trigger] lists[j]).len() == 0
        },
        first_nonempty(lists, o) is None ==> forall|j: int|
            o <= j < MAX_ORDER ==> (#[trigger] lists[j]).len() == 0,
    decreases MAX_ORDER - o,
{
    if o < MAX_ORDER && lists[o as int].len() == 0 {
        lemma_first_nonempty(lists, o + 1);
    }
}

/// Taking the head `b` of a non-empty list `k` leaves a state where only `b`
/// (still marked free at order `k`) is exempt, with the counter `2^k` above
/// the lists' mass.
pub proof fn lemma_pop_inv(v: BuddyView, k: nat)
    requires
        view_wf(v),
        k < MAX_ORDER,
        v.lists[k as int].len() > 0,
    ensures
        ({
            let b = v.lists[k as int][0];
            let v1 = BuddyView {
                states: v.states,
                lists: v.lists.update(k as int, v.lists[k as int].drop_first()),
                free_frames: v.free_frames,
            };
            &&& view_inv(v1, b as int, k)
            &&& v1.free_frames == mass(v1.lists, MAX_ORDER as nat) + pow2(k)
            &&& v.states[b as int] == FrameState::Free(k)
            &&& b < v.states.len()
        }),
{
    let l = v.lists[k as int];
    let b = l[0];
    let v1 = BuddyView {
        states: v.states,
        lists: v.lists.update(k as int, l.drop_first()),
        free_frames: v.free_frames,
    };
    lemma_view_inv_shape(v, -1, 0);
    assert(v.states[b as int] == FrameState::Free(k));
    assert forall|kk: int, i: int| 0 <= kk < MAX_ORDER && 0 <= i < v1.lists[kk].len() implies {
        &&& #[trigger] v1.lists[kk][i] < v1.states.len()
        &&& v1.states[v1.lists[kk][i] as int] == FrameState::Free(kk as nat)
        &&& v1.lists[kk][i] != b
    } by {
        if kk == k as int {
            assert(v1.lists[kk][i] == l[i + 1]);
        } else {
            assert(v.lists[kk][i] != l[0]);
        }
    }
    assert forall|pp: int|
        0 <= pp < v1.states.len() && pp != b && (#[trigger] v1.states[pp]) is Free implies {
        &&& head_order(v1.states[pp]) < MAX_ORDER
        &&& v1.lists[head_order(v1.states[pp]) as int].contains(pp as u32)
    } by {
        let o = head_order(v.states[pp]) as int;
        assert(v.lists[o].contains(pp as u32));
        if o == k as int {
            let i = choose|i: int| 0 <= i < l.len() && l[i] == pp as u32;
            assert(i != 0);
            assert(l.drop_first()[i - 1] == pp as u32);
        }
    }
    assert forall|kk: int| 0 <= kk < MAX_ORDER implies (#[trigger] v1.lists[kk]).no_duplicates() by {
        if kk == k as int {
            assert forall|a: int, c: int|
                0 <= a < l.len() - 1 && 0 <= c < l.len() - 1 && a != c implies l.drop_first()[a]
                != l.drop_first()[c] by {
                assert(l.drop_first()[a] == l[a + 1] && l.drop_first()[c] == l[c + 1]);
            }
        }
    }
    let n = l.len() as int;
    let pk = pow2(k) as int;
    assert((n - 1) * pk == n * pk - pk) by (nonlinear_arith);
    lemma_mass_update(v.lists, k as int, l.drop_first(), MAX_ORDER as nat);
}

/// One split step preserves the invariant, halving the exempt block and
/// moving `2^j` frames from the exempt block into the lists.
pub proof fn lemma_split_step_inv(v: BuddyView, b: nat, j: nat)
    requires
        view_inv(v, b as int, j + 1),
        is_head(v.states[b as int]),
        v.free_frames == mass(v.lists, MAX_ORDER as nat) + pow2(j + 1),
    ensures
        view_inv(split_step(v, b, j), b as int, j),
        split_step(v, b, j).free_frames == mass(split_step(v, b, j).lists, MAX_ORDER as nat)
            + pow2(j),
        is_head(split_step(v, b, j).states[b as int]),
        split_step(v, b, j).states.len() == v.states.len(),
        b + pow2(j) < v.states.len(),
        v.states[(b + pow2(j)) as int] == FrameState::Tail,
{
    let h = b + pow2(j);
    let v2 = split_step(v, b, j);
    let nr = v.states.len();
    lemma_pow2_unfold(j + 1);
    assert(pow2(j + 1) == 2 * pow2(j));
    lemma_half_aligned(b, j + 1, j);
    assert(b < h < b + pow2(j + 1));
    assert(v.states[h as int] == FrameState::Tail);
    assert forall|kk: int, i: int| 0 <= kk < MAX_ORDER && 0 <= i < v2.lists[kk].len() implies {
        &&& #[trigger] v2.lists[kk][i] < nr
        &&& v2.states[v2.lists[kk][i] as int] == FrameState::Free(kk as nat)
        &&& v2.lists[kk][i] != b
    } by {
        if kk == j as int && i == 0 {
        } else if kk == j as int {
            assert(v2.lists[kk][i] == v.lists[kk][i - 1]);
            assert(v.states[v.lists[kk][i - 1] as int] == FrameState::Free(kk as nat));
        } else {
            assert(v.states[v.lists[kk][i] as int] == FrameState::Free(kk as nat));
        }
    }
    assert forall|kk: int| 0 <= kk < MAX_ORDER implies (#[trigger] v2.lists[kk]).no_duplicates() by {
        if kk == j as int {
            let l = v.lists[kk];
            let nl = v2.lists[kk];
            assert forall|a: int, c: int|
                0 <= a < nl.len() && 0 <= c < nl.len() && a != c implies nl[a] != nl[c] by {
                if a > 0 && c > 0 {
                    assert(nl[a] == l[a - 1] && nl[c] == l[c - 1]);
                } else if a == 0 {
                    assert(nl[c] == l[c - 1]);
                    assert(v.states[l[c - 1] as int] == FrameState::Free(kk as nat));
                } else {
                    assert(nl[a] == l[a - 1]);
                    assert(v.states[l[a - 1] as int] == FrameState::Free(kk as nat));
                }
            }
        }
    }
    assert forall|p: int|
        0 <= p < nr && p != b && (#[trigger] v2.states[p]) is Free implies {
        &&& head_order(v2.states[p]) < MAX_ORDER
        &&& v2.lists[head_order(v2.states[p]) as int].contains(p as u32)
    } by {
        if p == h {
            assert(v2.lists[j as int][0] == h as u32);
        } else {
            let o = head_order(v.states[p]) as int;
            assert(v.lists[o].contains(p as u32));
            let i = choose|i: int| 0 <= i < v.lists[o].len() && v.lists[o][i] == p as u32;
            if o == j as int {
                assert(v2.lists[o][i + 1] == p as u32);
            }
        }
    }
    assert forall|p: int| 0 <= p < nr && p != b && is_head(#[trigger] v2.states[p]) implies {
        &&& head_order(v2.states[p]) < MAX_ORDER
        &&& p % (pow2(head_order(v2.states[p])) as int) == 0
        &&& p + pow2(head_order(v2.states[p])) <= nr
    } by {
        if p == h {
        } else {
            assert(v2.states[p] == v.states[p]);
        }
    }
    assert forall|p: int, q: int|
        0 <= p < nr && p != b && is_head(#[trigger] v2.states[p]) && p < q < p + pow2(
            head_order(v2.states[p]),
        ) implies #[trigger] v2.states[q] == FrameState::Tail by {
        if p == h {
            assert(v.states[q] == FrameState::Tail);
        } else {
            assert(v2.states[p] == v.states[p]);
            if q == h {
                // h lies inside b's block, so p's block would contain b.
                assert(p < b) by {
                    if b < p && p < b + pow2(j + 1) {
                        assert(v.states[p] == FrameState::Tail);
                    }
                }
                assert(v.states[b as int] == FrameState::Tail);
            } else {
                assert(v.states[q] == FrameState::Tail);
            }
        }
    }
    assert forall|q: int| b < q < b + pow2(j) implies #[trigger] v2.states[q] == FrameState::Tail by {
        assert(v.states[q] == FrameState::Tail);
    }
    let n = v.lists[j as int].len() as int;
    let pj = pow2(j) as int;
    assert((n + 1) * pj == n * pj + pj) by (nonlinear_arith);
    lemma_mass_update(v.lists, j as int, seq![h as u32] + v.lists[j as int], MAX_ORDER as nat);
}

/// Marking the exempt block allocated at its current order restores
/// well-formedness, with the counter reduced by the block's size.
pub proof fn lemma_alloc_finish(v: BuddyView, b: nat, o: nat)
    requires
        view_inv(v, b as int, o),
        is_head(v.states[b as int]),
        v.free_frames == mass(v.lists, MAX_ORDER as nat) + pow2(o),
    ensures
        view_wf(
            BuddyView {
                states: v.states.update(b as int, FrameState::Allocated(o)),
                lists: v.lists,
                free_frames: (v.free_frames - pow2(o)) as nat,
            },
        ),
{
    let v2 = BuddyView {
        states: v.states.update(b as int, FrameState::Allocated(o)),
        lists: v.lists,
        free_frames: (v.free_frames - pow2(o)) as nat,
    };
    let nr = v.states.len();
    assert forall|kk: int, i: int| 0 <= kk < MAX_ORDER && 0 <= i < v2.lists[kk].len() implies {
        &&& #[trigger] v2.lists[kk][i] < nr
        &&& v2.states[v2.lists[kk][i] as int] == FrameState::Free(kk as nat)
        &&& v2.lists[kk][i] != -1int
    } by {
        assert(v.lists[kk][i] != b);
    }
    assert forall|p: int|
        0 <= p < nr && p != -1 && (#[trigger] v2.states[p]) is Free implies {
        &&& head_order(v2.states[p]) < MAX_ORDER
        &&& v2.lists[head_order(v2.states[p]) as int].contains(p as u32)
    } by {
        assert(p != b);
        assert(v2.states[p] == v.states[p]);
    }
    assert forall|p: int| 0 <= p < nr && p != -1 && is_head(#[trigger] v2.states[p]) implies {
        &&& head_order(v2.states[p]) < MAX_ORDER
        &&& p % (pow2(head_order(v2.states[p])) as int) == 0
        &&& p + pow2(head_order(v2.states[p])) <= nr
    } by {
        if p != b {
            assert(v2.states[p] == v.states[p]);
        }
    }
    assert forall|p: int, q: int|
        0 <= p < nr && p != -1 && is_head(#[trigger] v2.states[p]) && p < q < p + pow2(
            head_order(v2.states[p]),
        ) implies #[trigger] v2.states[q] == FrameState::Tail by {
        if p == b {
            assert(v.states[q] == FrameState::Tail);
        } else {
            assert(v2.states[p] == v.states[p]);
            if q == b {
                assert(v.states[b as int] == FrameState::Tail);
            } else {
                assert(v.states[q] == FrameState::Tail);
            }
        }
    }
}


/// Freeing an allocated block starts from a state where that block is the
/// exempt one and the counter already includes it.
pub proof fn lemma_free_start(v: BuddyView, pfn: nat, o: nat)
    requires
        view_wf(v),
        pfn < v.states.len(),
        v.states[pfn as int] == FrameState::Allocated(o),
    ensures
        ({
            let v0 = BuddyView {
                states: v.states,
                lists: v.lists,
                free_frames: v.free_frames + pow2(o),
            };
            &&& view_inv(v0, pfn as int, o)
            &&& v0.free_frames == mass(v0.lists, MAX_ORDER as nat) + pow2(o)
            &&& is_head(v0.states[pfn as int])
        }),
{
    let nr = v.states.len();
    assert(is_head(v.states[pfn as int]));
    assert forall|q: int| pfn < q < pfn + pow2(o) implies #[trigger] v.states[q]
        == FrameState::Tail by {
        assert(is_head(v.states[pfn as int]));
    }
    assert forall|kk: int, i: int| 0 <= kk < MAX_ORDER && 0 <= i < v.lists[kk].len() implies {
        &&& #[trigger] v.lists[kk][i] < nr
        &&& v.states[v.lists[kk][i] as int] == FrameState::Free(kk as nat)
        &&& v.lists[kk][i] != pfn
    } by {
        assert(v.states[v.lists[kk][i] as int] == FrameState::Free(kk as nat));
    }
}

/// Removing `l[i]` from a duplicate-free sequence leaves it duplicate-free
/// and without that element.
pub proof fn lemma_remove_no_dup(l: Seq<u32>, i: int)
    requires
        l.no_duplicates(),
        0 <= i < l.len(),
    ensures
        l.remove(i).no_duplicates(),
        !l.remove(i).contains(l[i]),
        forall|x: u32| x != l[i] && l.contains(x) ==> l.remove(i).contains(x),
        forall|x: u32| l.remove(i).contains(x) ==> l.contains(x),
{
    let r = l.remove(i);
    assert forall|a: int, c: int| 0 <= a < r.len() && 0 <= c < r.len() && a != c implies r[a]
        != r[c] by {
        let a1 = if a < i {
            a
        } else {
            a + 1
        };
        let c1 = if c < i {
            c
        } else {
            c + 1
        };
        assert(r[a] == l[a1] && r[c] == l[c1]);
    }
    assert forall|x: u32| x != l[i] && l.contains(x) implies r.contains(x) by {
        let j = choose|j: int| 0 <= j < l.len() && l[j] == x;
        if j < i {
            assert(r[j] == x);
        } else {
            assert(r[j - 1] == x);
        }
    }
    assert forall|x: u32| r.contains(x) implies l.contains(x) by {
        let j = choose|j: int| 0 <= j < r.len() && r[j] == x;
        if j < i {
            assert(l[j] == x);
        } else {
            assert(l[j + 1] == x);
        }
    }
    if r.contains(l[i]) {
        let j = choose|j: int| 0 <= j < r.len() && r[j] == l[i];
        if j < i {
            assert(l[j] == l[i]);
        } else {
            assert(l[j + 1] == l[i]);
        }
    }
}

/// One merge step of `coalesce` preserves the invariant: the merged block
/// (head = lower half) becomes the exempt block at the next order.
pub proof fn lemma_coalesce_step(v: BuddyView, cur: nat, k: nat)
    requires
        view_inv(v, cur as int, k),
        is_head(v.states[cur as int]),
        v.free_frames == mass(v.lists, MAX_ORDER as nat) + pow2(k),
        k + 1 < MAX_ORDER,
        buddy_of(cur, k) < v.states.len(),
        v.states[buddy_of(cur, k) as int] == FrameState::Free(k),
    ensures
        ({
            let b = buddy_of(cur, k);
            let head = if cur < b {
                cur
            } else {
                b
            };
            let tail = if cur < b {
                b
            } else {
                cur
            };
            let v1 = BuddyView {
                states: v.states.update(tail as int, FrameState::Tail),
                lists: v.lists.update(
                    k as int,
                    v.lists[k as int].remove(v.lists[k as int].index_of(b as u32)),
                ),
                free_frames: v.free_frames,
            };
            &&& v.lists[k as int].contains(b as u32)
            &&& 0 <= v.lists[k as int].index_of(b as u32) < v.lists[k as int].len()
            &&& v.lists[k as int][v.lists[k as int].index_of(b as u32)] == b as u32
            &&& view_inv(v1, head as int, k + 1)
            &&& is_head(v1.states[head as int])
            &&& v1.free_frames == mass(v1.lists, MAX_ORDER as nat) + pow2(k + 1)
            &&& head < v.states.len()
        }),
{
    let nr = v.states.len();
    let b = buddy_of(cur, k);
    let head = if cur < b {
        cur
    } else {
        b
    };
    let tail = if cur < b {
        b
    } else {
        cur
    };
    let l = v.lists[k as int];
    lemma_merge_aligned(cur, k);
    lemma_pow2_unfold(k + 1);
    assert(pow2(k + 1) == 2 * pow2(k));
    assert(b != cur);
    assert(l.contains(b as u32));
    let i = l.index_of(b as u32);
    assert(0 <= i < l.len() && l[i] == b as u32);
    lemma_remove_no_dup(l, i);
    let nl = l.remove(i);
    let v1 = BuddyView {
        states: v.states.update(tail as int, FrameState::Tail),
        lists: v.lists.update(k as int, nl),
        free_frames: v.free_frames,
    };
    assert(is_head(v.states[b as int]));
    assert forall|kk: int, j: int| 0 <= kk < MAX_ORDER && 0 <= j < v1.lists[kk].len() implies {
        &&& #[trigger] v1.lists[kk][j] < nr
        &&& v1.states[v1.lists[kk][j] as int] == FrameState::Free(kk as nat)
        &&& v1.lists[kk][j] != head
    } by {
        if kk == k as int {
            assert(nl.contains(nl[j]));
            assert(l.contains(nl[j]));
            let j1 = choose|j1: int| 0 <= j1 < l.len() && l[j1] == nl[j];
            assert(v.states[l[j1] as int] == FrameState::Free(k));
            assert(nl[j] != b as u32);
        } else {
            assert(v.states[v.lists[kk][j] as int] == FrameState::Free(kk as nat));
            if v.lists[kk][j] == b as u32 {
                assert(false);
            }
        }
    }
    assert forall|kk: int| 0 <= kk < MAX_ORDER implies (#[trigger] v1.lists[kk]).no_duplicates() by {
    }
    assert forall|p: int|
        0 <= p < nr && p != head && (#[trigger] v1.states[p]) is Free implies {
        &&& head_order(v1.states[p]) < MAX_ORDER
        &&& v1.lists[head_order(v1.states[p]) as int].contains(p as u32)
    } by {
        assert(p != tail);
        assert(v1.states[p] == v.states[p]);
        let o = head_order(v.states[p]) as int;
        assert(v.lists[o].contains(p as u32));
        if o == k as int {
            assert(p as u32 != b as u32);
        }
    }
    assert forall|p: int| 0 <= p < nr && p != head && is_head(#[trigger] v1.states[p]) implies {
        &&& head_order(v1.states[p]) < MAX_ORDER
        &&& p % (pow2(head_order(v1.states[p])) as int) == 0
        &&& p + pow2(head_order(v1.states[p])) <= nr
    } by {
        assert(p != tail);
        assert(v1.states[p] == v.states[p]);
    }
    assert forall|p: int, q: int|
        0 <= p < nr && p != head && is_head(#[trigger] v1.states[p]) && p < q < p + pow2(
            head_order(v1.states[p]),
        ) implies #[trigger] v1.states[q] == FrameState::Tail by {
        assert(p != tail);
        assert(v1.states[p] == v.states[p]);
        if q != tail {
            assert(v.states[q] == FrameState::Tail);
        }
    }
    assert forall|q: int| head < q < head + pow2(k + 1) implies #[trigger] v1.states[q]
        == FrameState::Tail by {
        if q == tail {
        } else if q < tail {
            if head == cur {
                assert(v.states[q] == FrameState::Tail);
            } else {
                assert(is_head(v.states[b as int]) && b < q < b + pow2(head_order(v.states[b as int])));
                assert(v.states[q] == FrameState::Tail);
            }
        } else {
            if tail == b {
                assert(is_head(v.states[b as int]) && b < q < b + pow2(head_order(v.states[b as int])));
                assert(v.states[q] == FrameState::Tail);
            } else {
                assert(v.states[q] == FrameState::Tail);
            }
        }
    }
    let n = l.len() as int;
    let pk = pow2(k) as int;
    assert((n - 1) * pk == n * pk - pk) by (nonlinear_arith);
    lemma_mass_update(v.lists, k as int, nl, MAX_ORDER as nat);
}

/// Finishing a free: the exempt block becomes a free block at its current
/// order, at the front of that order's list, restoring well-formedness.
pub proof fn lemma_free_finish(v: BuddyView, cur: nat, k: nat)
    requires
        view_inv(v, cur as int, k),
        is_head(v.states[cur as int]),
        v.free_frames == mass(v.lists, MAX_ORDER as nat) + pow2(k),
    ensures
        view_wf(
            BuddyView {
                states: v.states.update(cur as int, FrameState::Free(k)),
                lists: v.lists.update(k as int, seq![cur as u32] + v.lists[k as int]),
                free_frames: v.free_frames,
            },
        ),
{
    let nr = v.states.len();
    let l = v.lists[k as int];
    let nl = seq![cur as u32] + l;
    let v2 = BuddyView {
        states: v.states.update(cur as int, FrameState::Free(k)),
        lists: v.lists.update(k as int, nl),
        free_frames: v.free_frames,
    };
    assert forall|kk: int, i: int| 0 <= kk < MAX_ORDER && 0 <= i < v2.lists[kk].len() implies {
        &&& #[trigger] v2.lists[kk][i] < nr
        &&& v2.states[v2.lists[kk][i] as int] == FrameState::Free(kk as nat)
        &&& v2.lists[kk][i] != -1int
    } by {
        if kk == k as int && i > 0 {
            assert(v2.lists[kk][i] == l[i - 1]);
            assert(l[i - 1] != cur);
        } else if kk != k as int {
            assert(v.lists[kk][i] != cur);
        }
    }
    assert forall|kk: int| 0 <= kk < MAX_ORDER implies (#[trigger] v2.lists[kk]).no_duplicates() by {
        if kk == k as int {
            assert forall|a: int, c: int|
                0 <= a < nl.len() && 0 <= c < nl.len() && a != c implies nl[a] != nl[c] by {
                if a > 0 && c > 0 {
                    assert(nl[a] == l[a - 1] && nl[c] == l[c - 1]);
                } else if a == 0 {
                    assert(nl[c] == l[c - 1]);
                    assert(l[c - 1] != cur);
                } else {
                    assert(nl[a] == l[a - 1]);
                    assert(l[a - 1] != cur);
                }
            }
        }
    }
    assert forall|p: int|
        0 <= p < nr && p != -1 && (#[trigger] v2.states[p]) is Free implies {
        &&& head_order(v2.states[p]) < MAX_ORDER
        &&& v2.lists[head_order(v2.states[p]) as int].contains(p as u32)
    } by {
        if p == cur {
            assert(nl[0] == cur as u32);
        } else {
            let o = head_order(v.states[p]) as int;
            assert(v.lists[o].contains(p as u32));
            if o == k as int {
                let i = choose|i: int| 0 <= i < l.len() && l[i] == p as u32;
                assert(nl[i + 1] == p as u32);
            }
        }
    }
    assert forall|p: int| 0 <= p < nr && p != -1 && is_head(#[trigger] v2.states[p]) implies {
        &&& head_order(v2.states[p]) < MAX_ORDER
        &&& p % (pow2(head_order(v2.states[p])) as int) == 0
        &&& p + pow2(head_order(v2.states[p])) <= nr
    } by {
        if p != cur {
            assert(v2.states[p] == v.states[p]);
        }
    }
    assert forall|p: int, q: int|
        0 <= p < nr && p != -1 && is_head(#[trigger] v2.states[p]) && p < q < p + pow2(
            head_order(v2.states[p]),
        ) implies #[trigger] v2.states[q] == FrameState::Tail by {
        if p == cur {
            assert(v.states[q] == FrameState::Tail);
        } else {
            assert(v2.states[p] == v.states[p]);
            if q == cur {
                assert(v.states[cur as int] == FrameState::Tail);
            } else {
                assert(v.states[q] == FrameState::Tail);
            }
        }
    }
    let n = l.len() as int;
    let pk = pow2(k) as int;
    assert((n + 1) * pk == n * pk + pk) by (nonlinear_arith);
    lemma_mass_update(v.lists, k as int, nl, MAX_ORDER as nat);
}


/// Placing a free block over reserved, aligned, in-range frames preserves
/// well-formedness.
pub proof fn lemma_place_inv(v: BuddyView, p: nat, o: nat)
    requires
        view_wf(v),
        o < MAX_ORDER,
        p % pow2(o) == 0,
        p + pow2(o) <= v.states.len(),
        forall|q: int| p <= q < p + pow2(o) ==> #[trigger] v.states[q] == FrameState::Reserved,
    ensures
        view_wf(place_block(v, p, o)),
        place_block(v, p, o).states.len() == v.states.len(),
        forall|q: int|
            0 <= q < v.states.len() && !(p <= q < p + pow2(o)) ==> #[trigger] place_block(
                v,
                p,
                o,
            ).states[q] == v.states[q],
{
    let nr = v.states.len();
    let v2 = place_block(v, p, o);
    let l = v.lists[o as int];
    let nl = seq![p as u32] + l;
    assert(v2.states[p as int] == FrameState::Free(o));
    assert forall|kk: int, i: int| 0 <= kk < MAX_ORDER && 0 <= i < v.lists[kk].len() implies !(p
        <= #[trigger] v.lists[kk][i] < p + pow2(o)) by {
        assert(v.states[v.lists[kk][i] as int] == FrameState::Free(kk as nat));
    }
    assert forall|kk: int, i: int| 0 <= kk < MAX_ORDER && 0 <= i < v2.lists[kk].len() implies {
        &&& #[trigger] v2.lists[kk][i] < nr
        &&& v2.states[v2.lists[kk][i] as int] == FrameState::Free(kk as nat)
        &&& v2.lists[kk][i] != -1int
    } by {
        if kk == o as int && i > 0 {
            assert(v2.lists[kk][i] == l[i - 1]);
            assert(v.states[l[i - 1] as int] == FrameState::Free(kk as nat));
        } else if kk != o as int {
            assert(v.states[v.lists[kk][i] as int] == FrameState::Free(kk as nat));
        }
    }
    assert forall|kk: int| 0 <= kk < MAX_ORDER implies (#[trigger] v2.lists[kk]).no_duplicates() by {
        if kk == o as int {
            assert forall|a: int, c: int|
                0 <= a < nl.len() && 0 <= c < nl.len() && a != c implies nl[a] != nl[c] by {
                if a > 0 && c > 0 {
                    assert(nl[a] == l[a - 1] && nl[c] == l[c - 1]);
                } else if a == 0 {
                    assert(nl[c] == l[c - 1]);
                } else {
                    assert(nl[a] == l[a - 1]);
                }
            }
        }
    }
    assert forall|q: int| 0 <= q < nr && (#[trigger] v2.states[q]) is Free implies {
        &&& head_order(v2.states[q]) < MAX_ORDER
        &&& v2.lists[head_order(v2.states[q]) as int].contains(q as u32)
    } by {
        if q == p {
            assert(nl[0] == p as u32);
        } else {
            assert(v2.states[q] == v.states[q]);
            let oo = head_order(v.states[q]) as int;
            assert(v.lists[oo].contains(q as u32));
            if oo == o as int {
                let i = choose|i: int| 0 <= i < l.len() && l[i] == q as u32;
                assert(nl[i + 1] == q as u32);
            }
        }
    }
    assert forall|q: int| 0 <= q < nr && is_head(#[trigger] v2.states[q]) implies {
        &&& head_order(v2.states[q]) < MAX_ORDER
        &&& q % (pow2(head_order(v2.states[q])) as int) == 0
        &&& q + pow2(head_order(v2.states[q])) <= nr
    } by {
        if q != p {
            assert(v2.states[q] == v.states[q]);
        }
    }
    assert forall|a: int, q: int|
        0 <= a < nr && a != -1 && is_head(#[trigger] v2.states[a]) && a < q < a + pow2(
            head_order(v2.states[a]),
        ) implies #[trigger] v2.states[q] == FrameState::Tail by {
        if a != p {
            assert(v2.states[a] == v.states[a]);
            assert(v.states[q] == FrameState::Tail);
        }
    }
    let n = l.len() as int;
    let pk = pow2(o) as int;
    assert((n + 1) * pk == n * pk + pk) by (nonlinear_arith);
    lemma_mass_update(v.lists, o as int, nl, MAX_ORDER as nat);
}


/// Splitting down to order `j` is splitting down to `j + 1`, then one more
/// step at `j`.
pub proof fn lemma_split_view_last(v: BuddyView, b: nat, k: nat, j: nat)
    requires
        j < k,
    ensures
        split_view(v, b, k, j) == split_step(split_view(v, b, k, j + 1), b, j),
    decreases k,
{
    if k > j + 1 {
        lemma_split_view_last(split_step(v, b, (k - 1) as nat), b, (k - 1) as nat, j);
        assert(split_view(v, b, k, j) == split_view(
            split_step(v, b, (k - 1) as nat),
            b,
            (k - 1) as nat,
            j,
        ));
        assert(split_view(v, b, k, j + 1) == split_view(
            split_step(v, b, (k - 1) as nat),
            b,
            (k - 1) as nat,
            j + 1,
        ));
    } else {
        assert(split_view(v, b, k, j) == split_view(split_step(v, b, j), b, j, j));
        assert(split_view(split_step(v, b, j), b, j, j) == split_step(v, b, j));
        assert(split_view(v, b, k, j + 1) == v);
    }
}

/// Splitting from `k` down to `m` touches only the halves `b + 2^i`,
/// `m <= i < k`, and only the lists of orders `m..k`.
pub proof fn lemma_split_view_frame(v: BuddyView, b: nat, k: nat, m: nat)
    requires
        m <= k,
        k <= v.lists.len(),
        b + pow2(k) <= v.states.len(),
    ensures
        split_view(v, b, k, m).states.len() == v.states.len(),
        split_view(v, b, k, m).lists.len() == v.lists.len(),
        split_view(v, b, k, m).free_frames == v.free_frames,
        forall|q: int|
            0 <= q < v.states.len() && (forall|i: nat| m <= i < k ==> q != b + pow2(i))
                ==> #[trigger] split_view(v, b, k, m).states[q] == v.states[q],
        forall|i: int|
            0 <= i < v.lists.len() && (i < m || i >= k) ==> #[trigger] split_view(
                v,
                b,
                k,
                m,
            ).lists[i] == v.lists[i],
    decreases k,
{
    if k > m {
        lemma_pow2_strictly_increases((k - 1) as nat, k);
        let st = split_step(v, b, (k - 1) as nat);
        lemma_split_view_frame(st, b, (k - 1) as nat, m);
        assert(split_view(v, b, k, m) == split_view(st, b, (k - 1) as nat, m));
        assert forall|q: int|
            0 <= q < v.states.len() && (forall|i: nat| m <= i < k ==> q != b + pow2(i))
                implies #[trigger] split_view(v, b, k, m).states[q] == v.states[q] by {
            assert(q != b + pow2((k - 1) as nat));
            assert(forall|i: nat| m <= i < k - 1 ==> q != b + pow2(i));
        }
    }
}

/// A multiple of `2^(j+1)` has an even quotient by `2^j`.
pub proof fn lemma_even_quotient(p: nat, j: nat)
    requires
        p % pow2(j + 1) == 0,
    ensures
        (p / pow2(j)) % 2 == 0,
{
    let q = pow2(j) as int;
    lemma_pow2_unfold(j + 1);
    vstd::arithmetic::div_mod::lemma_fundamental_div_mod(p as int, 2 * q);
    let m = p as int / (2 * q);
    assert(p == (2 * m) * q) by (nonlinear_arith)
        requires
            p == (2 * q) * m + 0,
    ;
    vstd::arithmetic::div_mod::lemma_div_by_multiple(2 * m, q);
}

/// The state midway through freeing the block that an allocation split from
/// `b`'s order-`k` block: the halves of orders `>= j` are still free.
pub open spec fn unwind_state(v1: BuddyView, b: nat, k: nat, o: nat, j: nat, ff: nat) -> BuddyView {
    let t = split_view(v1, b, k, j);
    BuddyView { states: t.states.update(b as int, FrameState::Allocated(o)), lists: t.lists, free_frames: ff }
}

/// Freeing re-merges, one order at a time, the halves that the split freed.
pub proof fn lemma_unwind(v: BuddyView, b: nat, k: nat, o: nat, j: nat)
    requires
        view_wf(v),
        o <= j <= k < MAX_ORDER,
        v.lists[k as int].len() > 0,
        b == v.lists[k as int][0],
        k + 1 >= MAX_ORDER || buddy_of(b, k) >= v.states.len() || v.states[buddy_of(b, k) as int]
            != FrameState::Free(k),
    ensures
        coalesce(
            unwind_state(
                BuddyView {
                    states: v.states,
                    lists: v.lists.update(k as int, v.lists[k as int].drop_first()),
                    free_frames: v.free_frames,
                },
                b,
                k,
                o,
                j,
                v.free_frames,
            ),
            b,
            j,
        ) == v,
    decreases k - j,
{
    let v1 = BuddyView {
        states: v.states,
        lists: v.lists.update(k as int, v.lists[k as int].drop_first()),
        free_frames: v.free_frames,
    };
    let w = unwind_state(v1, b, k, o, j, v.free_frames);
    assert(v.states[b as int] == FrameState::Free(k));
    assert(is_head(v.states[b as int]));
    lemma_split_view_frame(v1, b, k, j);
    if j == k {
        let fin = BuddyView {
            states: w.states.update(b as int, FrameState::Free(k)),
            lists: w.lists.update(k as int, seq![b as u32] + w.lists[k as int]),
            free_frames: w.free_frames,
        };
        assert(fin.states =~= v.states);
        assert(fin.lists[k as int] =~= v.lists[k as int]);
        assert(fin.lists =~= v.lists);
        assert(coalesce(w, b, j) == fin);
    } else {
        let h = b + pow2(j);
        lemma_split_view_last(v1, b, k, j);
        lemma_split_view_frame(v1, b, k, j + 1);
        let t1 = split_view(v1, b, k, j + 1);
        let t = split_view(v1, b, k, j);
        assert(t == split_step(t1, b, j));
        lemma_pow2_strictly_increases(j, k);
        lemma_half_aligned(b, k, j);
        assert(b < h < b + pow2(k));
        assert(v.states[h as int] == FrameState::Tail);
        // the half was untouched by the splits above `j`
        assert forall|i: nat| j + 1 <= i < k implies h != b + pow2(i) by {
            lemma_pow2_strictly_increases(j, i);
        }
        assert(t1.states[h as int] == FrameState::Tail);
        assert(t1.lists[j as int] == v1.lists[j as int]);
        assert(v1.lists[j as int] == v.lists[j as int]);
        // the buddy of b at order j is the half, and it is free at order j
        assert((b / pow2(j)) % 2 == 0) by {
            lemma_aligned_lower(b, k, j + 1);
            lemma_even_quotient(b, j);
        }
        assert(buddy_of(b, j) == h);
        assert(w.states[h as int] == FrameState::Free(j));
        let l = t1.lists[j as int];
        let nl = seq![h as u32] + l;
        assert(!l.contains(h as u32)) by {
            if l.contains(h as u32) {
                let i = choose|i: int| 0 <= i < l.len() && l[i] == h as u32;
                assert(v.states[v.lists[j as int][i] as int] == FrameState::Free(j));
            }
        }
        assert(w.lists[j as int] == nl);
        assert(nl.index_of(h as u32) == 0) by {
            let i = nl.index_of(h as u32);
            assert(nl[0] == h as u32);
            assert(nl.contains(h as u32));
            if i != 0 {
                assert(nl[i] == l[i - 1]);
                assert(l.contains(h as u32));
            }
        }
        assert(nl.remove(0) =~= l);
        let w1 = unwind_state(v1, b, k, o, j + 1, v.free_frames);
        let step = BuddyView {
            states: w.states.update(h as int, FrameState::Tail),
            lists: w.lists.update(j as int, w.lists[j as int].remove(w.lists[j as int].index_of(h as u32))),
            free_frames: w.free_frames,
        };
        assert(step.states =~= w1.states);
        assert(step.lists =~= w1.lists);
        assert(step == w1);
        assert(coalesce(w, b, j) == coalesce(w1, b, j + 1));
        lemma_unwind(v, b, k, o, j + 1);
    }
}

/// Freeing a block right after allocating it restores the allocator's state
/// exactly, whenever the block it was split from could not itself have
/// merged with its buddy (a state that coalescing always produces).
pub proof fn lemma_free_undoes_alloc(v: BuddyView, o: nat)
    requires
        view_wf(v),
        alloc_view(v, o).1 is Some,
        ({
            let k = first_nonempty(v.lists, o)->0;
            let b = v.lists[k as int][0];
            k + 1 >= MAX_ORDER || buddy_of(b as nat, k) >= v.states.len()
                || v.states[buddy_of(b as nat, k) as int] != FrameState::Free(k)
        }),
    ensures
        free_view(alloc_view(v, o).0, alloc_view(v, o).1->0 as nat, o) == v,
{
    lemma_first_nonempty(v.lists, o);
    let k = first_nonempty(v.lists, o)->0;
    let b = v.lists[k as int][0];
    let v1 = BuddyView {
        states: v.states,
        lists: v.lists.update(k as int, v.lists[k as int].drop_first()),
        free_frames: v.free_frames,
    };
    lemma_mass_ge(v.lists, k as int, MAX_ORDER as nat);
    assert(v.free_frames >= pow2(o)) by {
        if o < k {
            lemma_pow2_strictly_increases(o, k);
        }
        assert(v.lists[k as int].len() * pow2(k) >= pow2(k)) by (nonlinear_arith)
            requires
                v.lists[k as int].len() >= 1,
        ;
    }
    let a = alloc_view(v, o).0;
    let start = BuddyView { states: a.states, lists: a.lists, free_frames: a.free_frames + pow2(o) };
    assert(start == unwind_state(v1, b as nat, k, o, o, v.free_frames));
    lemma_unwind(v, b as nat, k, o, o);
}

/// Carving a range adds exactly its length to the free-frame counter.
pub proof fn lemma_carve_conserves_mass(v: BuddyView, p: nat, end: nat)
    ensures
        carve(v, p, end).free_frames == v.free_frames + (if p <= end {
            end - p
        } else {
            0
        }),
    decreases end - p,
{
    if p < end {
        let o = max_order_spec(p, (end - p) as nat);
        lemma2_to64();
        lemma_max_order_props(p, (end - p) as nat, 0);
        lemma_carve_conserves_mass(place_block(v, p, o), p + pow2(o), end);
    }
}

/// Carving `[p, end)` touches no frame outside the range and leaves every
/// frame inside it part of a free block.
pub proof fn lemma_carve_frames(v: BuddyView, p: nat, end: nat, q: int)
    requires
        end <= v.states.len(),
        0 <= q < v.states.len(),
    ensures
        carve(v, p, end).states.len() == v.states.len(),
        q < p || q >= end ==> carve(v, p, end).states[q] == v.states[q],
        p <= q < end ==> carve(v, p, end).states[q] != FrameState::Reserved,
    decreases end - p,
{
    if p < end {
        let o = max_order_spec(p, (end - p) as nat);
        lemma2_to64();
        lemma_max_order_props(p, (end - p) as nat, 0);
        let w = place_block(v, p, o);
        lemma_carve_frames(w, p + pow2(o), end, q);
    }
}

/// With every list of order `>= o` empty, an allocation of order `o` fails
/// and changes nothing.
pub proof fn lemma_alloc_oom(v: BuddyView, o: nat)
    requires
        v.lists.len() == MAX_ORDER,
        forall|k: int| o <= k < MAX_ORDER ==> (#[trigger] v.lists[k]).len() == 0,
    ensures
        alloc_view(v, o).1 is None,
        alloc_view(v, o).0 == v,
{
    lemma_first_nonempty(v.lists, o);
}

/// The doubly-linked representation of list `l` in the mem-map.
spec fn links_ok(pages: Seq<PageInfo>, head: Option<Pfn>, l: Seq<u32>) -> bool {
    &&& head == (if l.len() == 0 {
        None::<Pfn>
    } else {
        Some(Pfn(l[0]))
    })
    &&& forall|i: int|
        0 <= i < l.len() ==> {
            &&& (#[trigger] pages[l[i] as int]).prev == (if i == 0 {
                RAW_NONE
            } else {
                l[i - 1]
            })
            &&& pages[l[i] as int].next == (if i + 1 == l.len() {
                RAW_NONE
            } else {
                l[i + 1]
            })
        }
}

/// A buddy allocator over a contiguous frame range `[dram_base, +nr_frames)`,
/// backed by a mem-map of one [`PageInfo`] per frame.
pub struct BuddyAllocator {
    pages: Vec<PageInfo>,
    dram_base: PhysAddr,
    nr_frames: usize,
    free_area: Vec<Option<Pfn>>,
    free_frames: usize,
    lists: Ghost<Seq<Seq<u32>>>,
}

impl View for BuddyAllocator {
    type V = BuddyView;

    closed spec fn view(&self) -> BuddyView {
        BuddyView {
            states: Seq::new(self.pages@.len(), |i: int| frame_state_of(self.pages@[i])),
            lists: self.lists@,
            free_frames: self.free_frames as nat,
        }
    }
}

impl BuddyAllocator {
    /// The representation invariant, apart from the abstract one.
    closed spec fn repr_ok(&self) -> bool {
        &&& self.pages@.len() == self.nr_frames
        &&& self.nr_frames < RAW_NONE
        &&& self.dram_base@ + self.nr_frames * PAGE_SIZE <= u64::MAX
        &&& self.free_area@.len() == MAX_ORDER
        &&& self.lists@.len() == MAX_ORDER
        &&& forall|k: int|
            0 <= k < MAX_ORDER ==> links_ok(
                self.pages@,
                #[trigger] self.free_area@[k],
                self.lists@[k],
            )
    }

    /// Well-formedness: the representation matches the abstract state, and
    /// the abstract state is well-formed.
    pub closed spec fn wf(&self) -> bool {
        &&& self.repr_ok()
        &&& view_wf(self@)
    }

    /// Number of frames managed.
    pub closed spec fn spec_nr_frames(&self) -> nat {
        self.nr_frames as nat
    }

    /// Physical address of frame 0.
    pub closed spec fn spec_dram_base(&self) -> u64 {
        self.dram_base@
    }

    /// Physical address of frame 0.
    pub fn dram_base(&self) -> (r: PhysAddr)
        ensures
            r@ == self.spec_dram_base(),
    {
        self.dram_base
    }

    /// Number of frames managed.
    pub fn nr_frames(&self) -> (r: usize)
        ensures
            r == self.spec_nr_frames(),
    {
        self.nr_frames
    }

    /// A well-formed allocator's abstract state covers exactly its frames,
    /// and its frames' addresses fit in 64 bits.
    pub proof fn lemma_wf_facts(&self)
        requires
            self.wf(),
        ensures
            view_wf(self@),
            self@.states.len() == self.spec_nr_frames(),
            self.spec_dram_base() + self.spec_nr_frames() * PAGE_SIZE <= u64::MAX,
    {
    }
}

/// The block an allocation hands out is a frame of the allocator.
pub proof fn lemma_alloc_in_range(v: BuddyView, o: nat)
    requires
        view_wf(v),
    ensures
        alloc_view(v, o).1 matches Some(b) ==> b < v.states.len(),
{
    lemma_first_nonempty(v.lists, o);
    if let Some(k) = first_nonempty(v.lists, o) {
        assert(v.lists[k as int][0] < v.states.len());
    }
}


/// What an allocation does, in the terms of the allocator's own fields: it
/// fails, changing nothing, exactly when every list of order `>= o` is
/// empty; otherwise the block it hands out is aligned to its size, lies in
/// range, is marked allocated at order `o`, and the counter drops by `2^o`.
pub proof fn lemma_alloc_effect(v: BuddyView, o: nat)
    requires
        view_wf(v),
    ensures
        alloc_view(v, o).1 is None <==> forall|j: int| o <= j < MAX_ORDER ==> (#[trigger] v.lists[j]).len() == 0,
        alloc_view(v, o).1 is None ==> alloc_view(v, o).0 == v,
        alloc_view(v, o).1 matches Some(b) ==> {
            let w = alloc_view(v, o).0;
            &&& (b as nat) % pow2(o) == 0
            &&& b + pow2(o) <= v.states.len()
            &&& w.states.len() == v.states.len()
            &&& w.states[b as int] == FrameState::Allocated(o)
            &&& w.free_frames + pow2(o) == v.free_frames
        },
{
    lemma_first_nonempty(v.lists, o);
    if let Some(k) = first_nonempty(v.lists, o) {
        let b = v.lists[k as int][0];
        assert(v.states[b as int] == FrameState::Free(k));
        assert(is_head(v.states[b as int]));
        lemma_aligned_lower(b as nat, k, o);
        lemma_pow2_strictly_increases(o, k + 1);
        if o < k {
            lemma_pow2_strictly_increases(o, k);
        }
        let v1 = BuddyView {
            states: v.states,
            lists: v.lists.update(k as int, v.lists[k as int].drop_first()),
            free_frames: v.free_frames,
        };
        lemma_split_view_frame(v1, b as nat, k, o);
        lemma_mass_ge(v.lists, k as int, MAX_ORDER as nat);
        assert(v.lists[k as int].len() * pow2(k) >= pow2(k)) by (nonlinear_arith)
            requires
                v.lists[k as int].len() >= 1,
        ;
        if o < k {
            assert(pow2(o) < pow2(k));
        }
    } else {
        assert forall|j: int| o <= j < MAX_ORDER implies (#[trigger] v.lists[j]).len() == 0 by {}
    }
    if forall|j: int| o <= j < MAX_ORDER ==> (#[trigger] v.lists[j]).len() == 0 {
        if let Some(k) = first_nonempty(v.lists, o) {
            assert(v.lists[k as int].len() == 0);
        }
    }
}

/// The link a raw `next`/`prev` value encodes.
pub closed spec fn link_of(raw: u32) -> Option<Pfn> {
    if raw == RAW_NONE {
        None
    } else {
        Some(Pfn(raw))
    }
}

/// The raw value encoding a link.
pub closed spec fn raw_of(link: Option<Pfn>) -> u32 {
    match link {
        Some(p) => p.0,
        None => RAW_NONE,
    }
}

/// The free-lists are in range, duplicate-free, and pairwise disjoint.
pub open spec fn lists_shape(lists: Seq<Seq<u32>>, nr: nat) -> bool {
    &&& lists.len() == MAX_ORDER
    &&& forall|k: int, i: int|
        0 <= k < MAX_ORDER && 0 <= i < lists[k].len() ==> #[trigger] lists[k][i] < nr
    &&& forall|k: int| 0 <= k < MAX_ORDER ==> (#[trigger] lists[k]).no_duplicates()
    &&& forall|k1: int, k2: int, i: int, j: int|
        0 <= k1 < MAX_ORDER && 0 <= k2 < MAX_ORDER && k1 != k2 && 0 <= i < lists[k1].len() && 0
            <= j < lists[k2].len() ==> #[trigger] lists[k1][i] != #[trigger] lists[k2][j]
}

/// The structural invariant implies the list shape.
pub proof fn lemma_view_inv_shape(v: BuddyView, x: int, xk: nat)
    requires
        view_inv(v, x, xk),
    ensures
        lists_shape(v.lists, v.states.len()),
{
    assert forall|k1: int, k2: int, i: int, j: int|
        0 <= k1 < MAX_ORDER && 0 <= k2 < MAX_ORDER && k1 != k2 && 0 <= i < v.lists[k1].len() && 0
            <= j < v.lists[k2].len() implies #[trigger] v.lists[k1][i] != #[trigger] v.lists[k2][j] by {
        if v.lists[k1][i] == v.lists[k2][j] {
            assert(v.states[v.lists[k1][i] as int] == FrameState::Free(k1 as nat));
            assert(v.states[v.lists[k2][j] as int] == FrameState::Free(k2 as nat));
        }
    }
}

impl PageInfo {
    fn next(&self) -> (r: Option<Pfn>)
        ensures
            r == link_of(self.next),
    {
        if self.next == RAW_NONE {
            return None;
        }
        Some(Pfn::new_unchecked(self.next))
    }

    fn prev(&self) -> (r: Option<Pfn>)
        ensures
            r == link_of(self.prev),
    {
        if self.prev == RAW_NONE {
            return None;
        }
        Some(Pfn::new_unchecked(self.prev))
    }

    fn set_next(&mut self, link: Option<Pfn>)
        ensures
            *final(self) == (PageInfo { next: raw_of(link), ..*old(self) }),
    {
        match link {
            Some(pfn) => self.next = pfn.raw(),
            None => self.next = RAW_NONE,
        }
    }

    fn set_prev(&mut self, link: Option<Pfn>)
        ensures
            *final(self) == (PageInfo { prev: raw_of(link), ..*old(self) }),
    {
        match link {
            Some(pfn) => self.prev = pfn.raw(),
            None => self.prev = RAW_NONE,
        }
    }

    fn order(&self) -> (r: u8)
        ensures
            r == self.order,
    {
        self.order
    }

    fn set_order(&mut self, order: u8)
        ensures
            *final(self) == (PageInfo { order, ..*old(self) }),
    {
        self.order = order
    }

    fn state(&self) -> (r: PageState)
        ensures
            r == self.state,
    {
        self.state
    }

    fn set_state(&mut self, state: PageState)
        ensures
            *final(self) == (PageInfo { state, ..*old(self) }),
    {
        self.state = state
    }

    fn count(&self) -> (r: u32)
        ensures
            r == self.count,
    {
        self.count
    }

    fn is_head(&self) -> (r: bool)
        ensures
            r == (self.state == PageState::Free || self.state == PageState::Allocated),
    {
        matches!(self.state, PageState::Free | PageState::Allocated)
    }

    fn is_free(&self) -> (r: bool)
        ensures
            r == (self.state == PageState::Free),
    {
        self.state == PageState::Free
    }

    fn mark_free(&mut self, order: u8)
        ensures
            *final(self) == (PageInfo { state: PageState::Free, order, ..*old(self) }),
    {
        self.state = PageState::Free;
        self.order = order
    }

    fn mark_allocated(&mut self, order: u8)
        ensures
            *final(self) == (PageInfo {
                state: PageState::Allocated,
                order,
                next: RAW_NONE,
                prev: RAW_NONE,
                ..*old(self)
            }),
    {
        self.state = PageState::Allocated;
        self.order = order;
        self.set_next(None);
        self.set_prev(None);
    }

    fn mark_tail(&mut self)
        ensures
            *final(self) == (PageInfo {
                state: PageState::Tail,
                next: RAW_NONE,
                prev: RAW_NONE,
                ..*old(self)
            }),
    {
        self.state = PageState::Tail;
        self.set_next(None);
        self.set_prev(None);
    }

    fn mark_reserved(&mut self)
        ensures
            *final(self) == (PageInfo {
                state: PageState::Reserved,
                next: RAW_NONE,
                prev: RAW_NONE,
                ..*old(self)
            }),
    {
        self.state = PageState::Reserved;
        self.set_next(None);
        self.set_prev(None);
    }
}

impl BuddyAllocator {
    /// Replace the descriptor of frame `i`.
    fn put_page(&mut self, i: usize, p: PageInfo)
        requires
            i < old(self).pages@.len(),
        ensures
            final(self).pages@ == old(self).pages@.update(i as int, p),
            final(self).free_area == old(self).free_area,
            final(self).lists == old(self).lists,
            final(self).nr_frames == old(self).nr_frames,
            final(self).free_frames == old(self).free_frames,
            final(self).dram_base == old(self).dram_base,
    {
        self.pages.set(i, p);
    }

    /// Replace the descriptor of a frame that is on no free-list.
    fn put_unlisted_page(&mut self, i: usize, p: PageInfo)
        requires
            old(self).repr_ok(),
            lists_shape(old(self).lists@, old(self).nr_frames as nat),
            i < old(self).pages@.len(),
            forall|k: int| 0 <= k < MAX_ORDER ==> !(#[trigger] old(self).lists@[k]).contains(i as u32),
        ensures
            final(self).repr_ok(),
            final(self).pages@ == old(self).pages@.update(i as int, p),
            final(self).free_area == old(self).free_area,
            final(self).lists == old(self).lists,
            final(self).nr_frames == old(self).nr_frames,
            final(self).free_frames == old(self).free_frames,
            final(self).dram_base == old(self).dram_base,
    {
        let ghost pg = self.pages@;
        self.pages.set(i, p);
        proof {
            assert forall|kk: int| 0 <= kk < MAX_ORDER implies links_ok(
                self.pages@,
                #[trigger] self.free_area@[kk],
                self.lists@[kk],
            ) by {
                let l = self.lists@[kk];
                assert(links_ok(pg, self.free_area@[kk], l));
                assert forall|j: int| 0 <= j < l.len() implies self.pages@[l[j] as int] == pg[l[j]
                    as int] by {
                    if l[j] == i as u32 {
                        assert(l.contains(i as u32));
                    }
                }
            }
        }
    }

    /// Push free frame `pfn` onto the front of list `order`.
    fn push_front(&mut self, order: u8, pfn: Pfn)
        requires
            old(self).repr_ok(),
            lists_shape(old(self).lists@, old(self).nr_frames as nat),
            (order as int) < MAX_ORDER,
            (pfn@ as int) < old(self).nr_frames,
            forall|k: int| 0 <= k < MAX_ORDER ==> !(#[trigger] old(self).lists@[k]).contains(pfn@),
        ensures
            final(self).repr_ok(),
            final(self).lists@ == old(self).lists@.update(
                order as int,
                seq![pfn@] + old(self).lists@[order as int],
            ),
            lists_shape(final(self).lists@, final(self).nr_frames as nat),
            final(self)@.states == old(self)@.states,
            final(self).nr_frames == old(self).nr_frames,
            final(self).free_frames == old(self).free_frames,
            final(self).dram_base == old(self).dram_base,
    {
        let ghost old_pages = self.pages@;
        let ghost l = self.lists@[order as int];
        let old_head = self.free_area[order as usize];

        let mut p = self.pages[pfn.index()];
        p.set_prev(None);
        p.set_next(old_head);
        self.put_page(pfn.index(), p);

        if let Some(h) = old_head {
            assert(h@ == l[0]);
            let mut hp = self.pages[h.index()];
            hp.set_prev(Some(pfn));
            self.put_page(h.index(), hp);
        }
        self.free_area.set(order as usize, Some(pfn));
        let ghost nl = seq![pfn@] + l;
        self.lists = Ghost(self.lists@.update(order as int, nl));
        proof {
            let lists = self.lists@;
            assert forall|k: int| 0 <= k < MAX_ORDER implies links_ok(
                self.pages@,
                #[trigger] self.free_area@[k],
                self.lists@[k],
            ) by {
                if k == order as int {
                    assert forall|i: int| 0 <= i < nl.len() implies {
                        &&& (#[trigger] self.pages@[nl[i] as int]).prev == (if i == 0 {
                            RAW_NONE
                        } else {
                            nl[i - 1]
                        })
                        &&& self.pages@[nl[i] as int].next == (if i + 1 == nl.len() {
                            RAW_NONE
                        } else {
                            nl[i + 1]
                        })
                    } by {
                        if i >= 2 {
                            assert(nl[i] == l[i - 1]);
                            assert(l[i - 1] != l[0]);
                        }
                    }
                } else {
                    let lk = old(self).lists@[k];
                    assert forall|i: int| 0 <= i < lk.len() implies self.pages@[lk[i] as int]
                        == old_pages[lk[i] as int] by {
                        assert(lk[i] != pfn@);
                        if l.len() > 0 {
                            assert(lk[i] != l[0]);
                        }
                    }
                }
            }
            assert(self@.states =~= old(self)@.states);
            assert forall|k1: int, k2: int, i: int, j: int|
                0 <= k1 < MAX_ORDER && 0 <= k2 < MAX_ORDER && k1 != k2 && 0 <= i
                    < lists[k1].len() && 0 <= j < lists[k2].len() implies #[trigger] lists[k1][i]
                != #[trigger] lists[k2][j] by {
                if k1 == order as int && i > 0 {
                    assert(lists[k1][i] == l[i - 1]);
                }
                if k2 == order as int && j > 0 {
                    assert(lists[k2][j] == l[j - 1]);
                }
            }
            assert forall|k: int| 0 <= k < MAX_ORDER implies (#[trigger] lists[k]).no_duplicates() by {
                if k == order as int {
                    assert forall|a: int, b: int|
                        0 <= a < nl.len() && 0 <= b < nl.len() && a != b implies nl[a] != nl[b] by {
                        if a > 0 && b > 0 {
                            assert(nl[a] == l[a - 1] && nl[b] == l[b - 1]);
                        } else if a == 0 {
                            assert(nl[b] == l[b - 1]);
                            assert(l.contains(l[b - 1]));
                        } else {
                            assert(nl[a] == l[a - 1]);
                            assert(l.contains(l[a - 1]));
                        }
                    }
                }
            }
        }
    }

    /// Remove the frame at position `i` of list `order`.
    fn unlink(&mut self, order: u8, pfn: Pfn, Ghost(i): Ghost<int>)
        requires
            old(self).repr_ok(),
            lists_shape(old(self).lists@, old(self).nr_frames as nat),
            (order as int) < MAX_ORDER,
            0 <= i < old(self).lists@[order as int].len(),
            old(self).lists@[order as int][i] == pfn@,
        ensures
            final(self).repr_ok(),
            final(self).lists@ == old(self).lists@.update(
                order as int,
                old(self).lists@[order as int].remove(i),
            ),
            lists_shape(final(self).lists@, final(self).nr_frames as nat),
            final(self)@.states == old(self)@.states,
            final(self).nr_frames == old(self).nr_frames,
            final(self).free_frames == old(self).free_frames,
            final(self).dram_base == old(self).dram_base,
    {
        let ghost old_pages = self.pages@;
        let ghost l = self.lists@[order as int];
        let ghost nl = l.remove(i);
        let p = self.pages[pfn.index()];
        proof {
            assert(links_ok(self.pages@, self.free_area@[order as int], l));
            assert(self.pages@[l[i] as int] == p);
            if i > 0 {
                assert(l[i - 1] < self.nr_frames);
            }
            if i + 1 < l.len() {
                assert(l[i + 1] < self.nr_frames);
            }
        }
        let prev = p.prev();
        let next = p.next();

        // fix forward-link for prev
        match prev {
            Some(pv) => {
                assert(pv@ == l[i - 1]);
                let mut q = self.pages[pv.index()];
                q.set_next(next);
                self.put_page(pv.index(), q);
            },
            None => {
                self.free_area.set(order as usize, next);
            },
        }
        if let Some(n) = next {
            assert(n@ == l[i + 1]);
            let mut q = self.pages[n.index()];
            q.set_prev(prev);
            self.put_page(n.index(), q);
        }
        self.lists = Ghost(self.lists@.update(order as int, nl));
        proof {
            let lists = self.lists@;
            assert forall|k: int| 0 <= k < MAX_ORDER implies links_ok(
                self.pages@,
                #[trigger] self.free_area@[k],
                self.lists@[k],
            ) by {
                if k == order as int {
                    assert forall|j: int| 0 <= j < nl.len() implies {
                        &&& (#[trigger] self.pages@[nl[j] as int]).prev == (if j == 0 {
                            RAW_NONE
                        } else {
                            nl[j - 1]
                        })
                        &&& self.pages@[nl[j] as int].next == (if j + 1 == nl.len() {
                            RAW_NONE
                        } else {
                            nl[j + 1]
                        })
                    } by {
                        if j < i {
                            assert(nl[j] == l[j]);
                            if j < i - 1 {
                                assert(l[j] != l[i - 1]);
                                if i + 1 < l.len() {
                                    assert(l[j] != l[i + 1]);
                                }
                            } else if i + 1 < l.len() {
                                assert(l[j] != l[i + 1]);
                            }
                        } else {
                            assert(nl[j] == l[j + 1]);
                            if j > i {
                                assert(l[j + 1] != l[i + 1]);
                                if i > 0 {
                                    assert(l[j + 1] != l[i - 1]);
                                }
                            } else if i > 0 {
                                assert(l[j + 1] != l[i - 1]);
                            }
                        }
                    }
                } else {
                    let lk = old(self).lists@[k];
                    assert forall|j: int| 0 <= j < lk.len() implies self.pages@[lk[j] as int]
                        == old_pages[lk[j] as int] by {
                        if i > 0 {
                            assert(lk[j] != l[i - 1]);
                        }
                        if i + 1 < l.len() {
                            assert(lk[j] != l[i + 1]);
                        }
                    }
                }
            }
            assert(self@.states =~= old(self)@.states);
            assert forall|k1: int, k2: int, a: int, b: int|
                0 <= k1 < MAX_ORDER && 0 <= k2 < MAX_ORDER && k1 != k2 && 0 <= a
                    < lists[k1].len() && 0 <= b < lists[k2].len() implies #[trigger] lists[k1][a]
                != #[trigger] lists[k2][b] by {
                if k1 == order as int {
                    if a < i {
                        assert(lists[k1][a] == l[a]);
                    } else {
                        assert(lists[k1][a] == l[a + 1]);
                    }
                }
                if k2 == order as int {
                    if b < i {
                        assert(lists[k2][b] == l[b]);
                    } else {
                        assert(lists[k2][b] == l[b + 1]);
                    }
                }
            }
            assert forall|k: int, a: int|
                0 <= k < MAX_ORDER && 0 <= a < lists[k].len() implies #[trigger] lists[k][a]
                < self.nr_frames by {
                if k == order as int {
                    if a < i {
                        assert(lists[k][a] == l[a]);
                    } else {
                        assert(lists[k][a] == l[a + 1]);
                    }
                }
            }
        }
    }

    /// Pop the head of list `order`.
    fn pop_front(&mut self, order: u8) -> (r: Option<Pfn>)
        requires
            old(self).repr_ok(),
            lists_shape(old(self).lists@, old(self).nr_frames as nat),
            (order as int) < MAX_ORDER,
        ensures
            final(self).repr_ok(),
            lists_shape(final(self).lists@, final(self).nr_frames as nat),
            old(self).lists@[order as int].len() == 0 ==> r is None && final(self).lists@ == old(self).lists@,
            old(self).lists@[order as int].len() > 0 ==> {
                &&& r == Some(Pfn(old(self).lists@[order as int][0]))
                &&& final(self).lists@ == old(self).lists@.update(
                    order as int,
                    old(self).lists@[order as int].drop_first(),
                )
            },
            final(self)@.states == old(self)@.states,
            final(self).nr_frames == old(self).nr_frames,
            final(self).free_frames == old(self).free_frames,
            final(self).dram_base == old(self).dram_base,
    {
        let head = self.free_area[order as usize];
        match head {
            None => None,
            Some(h) => {
                self.unlink(order, h, Ghost(0));
                let ghost l = old(self).lists@[order as int];
                assert(l.remove(0) =~= l.drop_first());
                Some(h)
            },
        }
    }
}


impl BuddyAllocator {
    /// The lowest order `>= order` with a non-empty free-list, or a value
    /// `>= MAX_ORDER` if there is none.
    fn first_free_order(&self, order: u8) -> (k: usize)
        requires
            self.wf(),
        ensures
            k >= MAX_ORDER ==> first_nonempty(self.lists@, order as nat) is None,
            k < MAX_ORDER ==> first_nonempty(self.lists@, order as nat) == Some(k as nat),
    {
        proof {
            lemma_first_nonempty(self.lists@, order as nat);
        }
        let mut k = order as usize;
        while k < MAX_ORDER && self.free_area[k].is_none()
            invariant
                self.wf(),
                order <= k,
                first_nonempty(self.lists@, order as nat) == first_nonempty(self.lists@, k as nat),
            decreases MAX_ORDER - k,
        {
            proof {
                assert(links_ok(self.pages@, self.free_area@[k as int], self.lists@[k as int]));
            }
            k += 1;
        }
        proof {
            if k < MAX_ORDER {
                assert(links_ok(self.pages@, self.free_area@[k as int], self.lists@[k as int]));
            }
        }
        k
    }

    /// Allocate a block of `2^order` frames; `None` when no free block of
    /// that order or larger exists.
    fn alloc_block(&mut self, order: u8) -> (r: Option<Pfn>)
        requires
            old(self).wf(),
        ensures
            final(self).wf(),
            final(self)@ == alloc_view(old(self)@, order as nat).0,
            r == (match alloc_view(old(self)@, order as nat).1 {
                Some(b) => Some(Pfn(b)),
                None => None,
            }),
            final(self).nr_frames == old(self).nr_frames,
            final(self).dram_base == old(self).dram_base,
    {
        let mut k = self.first_free_order(order);
        if k >= MAX_ORDER {
            return None;
        }
        proof {
            lemma_first_nonempty(self.lists@, order as nat);
            lemma_view_inv_shape(self@, -1, 0);
            lemma_pop_inv(self@, k as nat);
        }
        let ghost v0 = self@;
        let ghost k0 = k as nat;
        let block = match self.pop_front(k as u8) {
            Some(b) => b,
            None => {
                return None;
            },
        };
        let ghost b = block@ as nat;
        let ghost v1 = self@;
        proof {
            assert(v1.states =~= v0.states);
            assert(v1 == BuddyView {
                states: v0.states,
                lists: v0.lists.update(k0 as int, v0.lists[k0 as int].drop_first()),
                free_frames: v0.free_frames,
            });
        }
        while k > order as usize
            invariant
                self.repr_ok(),
                lists_shape(self.lists@, self.nr_frames as nat),
                order <= k <= k0 < MAX_ORDER,
                b < self.nr_frames,
                block@ == b,
                view_inv(self@, b as int, k as nat),
                is_head(self@.states[b as int]),
                self@.free_frames == mass(self.lists@, MAX_ORDER as nat) + pow2(k as nat),
                split_view(self@, b, k as nat, order as nat) == split_view(
                    v1,
                    b,
                    k0,
                    order as nat,
                ),
                self.nr_frames == old(self).nr_frames,
                self.dram_base == old(self).dram_base,
                self.free_frames == old(self).free_frames,
            decreases k,
        {
            k -= 1;
            let ghost vb = self@;
            proof {
                lemma_split_step_inv(vb, b, k as nat);
                lemma_u32_pow2_no_overflow(k as nat);
            }
            let size = order_frames(k as u8);
            let buddy = Pfn::new_unchecked(block.raw() + size);
            let mut bp = self.pages[buddy.index()];
            bp.mark_free(k as u8);
            proof {
                assert forall|kk: int| 0 <= kk < MAX_ORDER implies !(
                #[trigger] self.lists@[kk]).contains(buddy@) by {
                    if self.lists@[kk].contains(buddy@) {
                        let i = choose|i: int|
                            0 <= i < self.lists@[kk].len() && self.lists@[kk][i] == buddy@;
                        assert(vb.states[self.lists@[kk][i] as int] == FrameState::Free(
                            kk as nat,
                        ));
                    }
                }
            }
            self.put_unlisted_page(buddy.index(), bp);
            self.push_front(k as u8, buddy);
            proof {
                assert(self@.states =~= split_step(vb, b, k as nat).states);
                assert(self@.lists =~= split_step(vb, b, k as nat).lists);
                assert(self@ == split_step(vb, b, k as nat));
            }
        }
        proof {
            lemma_mass_ge(self.lists@, 0, MAX_ORDER as nat);
        }
        self.free_frames = self.free_frames - order_frames(order) as usize;
        let ghost vf = self@;
        let mut hp = self.pages[block.index()];
        hp.mark_allocated(order);
        proof {
            assert forall|kk: int| 0 <= kk < MAX_ORDER implies !(
            #[trigger] self.lists@[kk]).contains(block@) by {
                if self.lists@[kk].contains(block@) {
                    let i = choose|i: int|
                        0 <= i < self.lists@[kk].len() && self.lists@[kk][i] == block@;
                    assert(self.lists@[kk][i] != b);
                }
            }
        }
        self.put_unlisted_page(block.index(), hp);
        proof {
            lemma_alloc_finish(split_view(v1, b, k0, order as nat), b, order as nat);
            assert(self@.states =~= vf.states.update(b as int, FrameState::Allocated(order as nat)));
        }
        Some(block)
    }
}


impl BuddyAllocator {
    /// The order-`order` buddy of `pfn`, if it lies inside the managed range.
    fn buddy_pfn(&self, pfn: Pfn, order: u8) -> (r: Option<Pfn>)
        requires
            self.repr_ok(),
            (order as int) < MAX_ORDER,
        ensures
            buddy_of(pfn@ as nat, order as nat) < self.nr_frames ==> r == Some(
                Pfn(buddy_of(pfn@ as nat, order as nat) as u32),
            ),
            buddy_of(pfn@ as nat, order as nat) >= self.nr_frames ==> r is None,
    {
        proof {
            lemma_xor_is_buddy(pfn@, order as u32);
        }
        let n = pfn.raw() ^ (1u32 << order);
        if n as usize >= self.nr_frames {
            return None;
        }
        Some(Pfn::new_unchecked(n))
    }

    /// Return the allocated order-`order` block at `pfn`, merging it with free
    /// buddies as far as possible.
    fn free_block(&mut self, pfn: Pfn, order: u8)
        requires
            old(self).wf(),
            (order as int) < MAX_ORDER,
            (pfn@ as int) < old(self).nr_frames,
            old(self)@.states[pfn@ as int] == FrameState::Allocated(order as nat),
            old(self)@.free_frames + pow2(order as nat) <= usize::MAX,
        ensures
            final(self).wf(),
            final(self)@ == free_view(old(self)@, pfn@ as nat, order as nat),
            final(self).nr_frames == old(self).nr_frames,
            final(self).dram_base == old(self).dram_base,
    {
        proof {
            lemma_free_start(self@, pfn@ as nat, order as nat);
            lemma_u32_pow2_no_overflow(order as nat);
        }
        self.free_frames = self.free_frames + order_frames(order) as usize;
        let ghost v0 = self@;
        proof {
            assert(v0.states =~= old(self)@.states);
            assert(v0 == BuddyView {
                states: old(self)@.states,
                lists: old(self)@.lists,
                free_frames: old(self)@.free_frames + pow2(order as nat),
            });
            lemma_view_inv_shape(v0, pfn@ as int, order as nat);
        }

        let mut cur = pfn;
        let mut cur_order = order;

        while (cur_order as usize) < MAX_ORDER - 1
            invariant
                self.repr_ok(),
                lists_shape(self.lists@, self.nr_frames as nat),
                (cur_order as int) < MAX_ORDER,
                (cur@ as int) < self.nr_frames,
                view_inv(self@, cur@ as int, cur_order as nat),
                is_head(self@.states[cur@ as int]),
                self@.free_frames == mass(self.lists@, MAX_ORDER as nat) + pow2(cur_order as nat),
                coalesce(self@, cur@ as nat, cur_order as nat) == coalesce(
                    v0,
                    pfn@ as nat,
                    order as nat,
                ),
                self.nr_frames == old(self).nr_frames,
                self.dram_base == old(self).dram_base,
            ensures
                self.repr_ok(),
                lists_shape(self.lists@, self.nr_frames as nat),
                (cur_order as int) < MAX_ORDER,
                (cur@ as int) < self.nr_frames,
                view_inv(self@, cur@ as int, cur_order as nat),
                is_head(self@.states[cur@ as int]),
                self@.free_frames == mass(self.lists@, MAX_ORDER as nat) + pow2(cur_order as nat),
                coalesce(self@, cur@ as nat, cur_order as nat) == coalesce(
                    v0,
                    pfn@ as nat,
                    order as nat,
                ),
                self.nr_frames == old(self).nr_frames,
                self.dram_base == old(self).dram_base,
                !(cur_order + 1 < MAX_ORDER && buddy_of(cur@ as nat, cur_order as nat)
                    < self@.states.len() && self@.states[buddy_of(
                    cur@ as nat,
                    cur_order as nat,
                ) as int] == FrameState::Free(cur_order as nat)),
            decreases MAX_ORDER - cur_order,
        {
            let buddy = match self.buddy_pfn(cur, cur_order) {
                Some(b) => b,
                None => break,
            };
            let bp = self.pages[buddy.index()];
            if !(bp.is_free() && bp.order() == cur_order) {
                break;
            }
            let ghost v = self@;
            let ghost b = buddy@ as nat;
            proof {
                assert(v.states[b as int] == FrameState::Free(cur_order as nat));
                lemma_coalesce_step(v, cur@ as nat, cur_order as nat);
            }
            let ghost i = self.lists@[cur_order as int].index_of(buddy@);
            self.unlink(cur_order, buddy, Ghost(i));

            let (head, tail) = if cur.raw() < buddy.raw() {
                (cur, buddy)
            } else {
                (buddy, cur)
            };
            let mut tp = self.pages[tail.index()];
            tp.mark_tail();
            proof {
                lemma_remove_no_dup(v.lists[cur_order as int], i);
                assert forall|kk: int| 0 <= kk < MAX_ORDER implies !(
                #[trigger] self.lists@[kk]).contains(tail@) by {
                    if self.lists@[kk].contains(tail@) {
                        let j = choose|j: int|
                            0 <= j < self.lists@[kk].len() && self.lists@[kk][j] == tail@;
                        if kk != cur_order as int {
                            assert(v.lists[kk][j] == tail@);
                            assert(v.lists[kk][j] != cur@);
                            assert(v.states[v.lists[kk][j] as int] == FrameState::Free(kk as nat));
                        } else {
                            assert(v.lists[kk].contains(tail@));
                            assert(tail@ != cur@);
                        }
                    }
                }
            }
            self.put_unlisted_page(tail.index(), tp);
            cur = head;
            cur_order = cur_order + 1;
            proof {
                let tl = if (cur@ as nat) < b { b } else { cur@ as nat };
                assert(self@.states =~= v.states.update(tail@ as int, FrameState::Tail));
                assert(self@.lists =~= v.lists.update(
                    (cur_order - 1) as int,
                    v.lists[(cur_order - 1) as int].remove(i),
                ));
            }
        }
        let ghost v = self@;
        let mut cp = self.pages[cur.index()];
        cp.mark_free(cur_order);
        proof {
            assert forall|kk: int| 0 <= kk < MAX_ORDER implies !(
            #[trigger] self.lists@[kk]).contains(cur@) by {
                if self.lists@[kk].contains(cur@) {
                    let j = choose|j: int|
                        0 <= j < self.lists@[kk].len() && self.lists@[kk][j] == cur@;
                    assert(self.lists@[kk][j] != cur@);
                }
            }
        }
        self.put_unlisted_page(cur.index(), cp);
        self.push_front(cur_order, cur);
        proof {
            lemma_free_finish(v, cur@ as nat, cur_order as nat);
            assert(self@.states =~= v.states.update(cur@ as int, FrameState::Free(cur_order as nat)));
            assert(self@.lists =~= v.lists.update(
                cur_order as int,
                seq![cur@] + v.lists[cur_order as int],
            ));
        }
    }
}


impl BuddyAllocator {
    /// The largest order of a free block that may start at `pfn` with
    /// `remaining` frames left: aligned to it, no larger than `remaining`,
    /// below `MAX_ORDER`.
    fn max_order_at(&self, pfn: Pfn, remaining: usize) -> (r: u8)
        requires
            remaining >= 1,
        ensures
            r == max_order_spec(pfn@ as nat, remaining as nat),
            (r as int) < MAX_ORDER,
    {
        let mut o: u8 = 0;
        loop
            invariant
                (o as int) < MAX_ORDER,
                max_order_from(pfn@ as nat, remaining as nat, o as nat) == max_order_spec(
                    pfn@ as nat,
                    remaining as nat,
                ),
            ensures
                (o as int) < MAX_ORDER,
                max_order_from(pfn@ as nat, remaining as nat, o as nat) == max_order_spec(
                    pfn@ as nat,
                    remaining as nat,
                ),
                max_order_from(pfn@ as nat, remaining as nat, o as nat) == o,
            decreases MAX_ORDER - o,
        {
            if (o as usize) + 1 >= MAX_ORDER {
                break ;
            }
            proof {
                lemma_u64_pow2_no_overflow((o + 1) as nat);
                lemma_pow2_unfold((o + 1) as nat);
                lemma_u64_shl_is_mul(2, o as u64);
            }
            let next = 2u64 << o;
            if !((pfn.raw() as u64) % next == 0 && next <= remaining as u64) {
                break ;
            }
            o = o + 1;
        }
        o
    }

    /// Hand the frames `[start, start + count)` to the allocator, carved
    /// greedily into maximal aligned free blocks.
    pub fn free_range(&mut self, start: Pfn, count: usize)
        requires
            old(self).wf(),
            start@ + count <= old(self).spec_nr_frames(),
            forall|q: int|
                start@ <= q < start@ + count ==> #[trigger] old(self)@.states[q]
                    == FrameState::Reserved,
            old(self)@.free_frames + count <= usize::MAX,
        ensures
            final(self).wf(),
            final(self)@ == carve(old(self)@, start@ as nat, (start@ + count) as nat),
            final(self).spec_nr_frames() == old(self).spec_nr_frames(),
            final(self).spec_dram_base() == old(self).spec_dram_base(),
    {
        let mut pfn = start.raw();
        let end = pfn + count as u32;
        while pfn < end
            invariant
                self.wf(),
                start@ <= pfn <= end,
                end == start@ + count,
                end <= self.nr_frames,
                forall|q: int| pfn <= q < end ==> #[trigger] self@.states[q] == FrameState::Reserved,
                carve(self@, pfn as nat, end as nat) == carve(
                    old(self)@,
                    start@ as nat,
                    (start@ + count) as nat,
                ),
                self.free_frames + (end - pfn) <= usize::MAX,
                self.nr_frames == old(self).nr_frames,
                self.dram_base == old(self).dram_base,
            decreases end - pfn,
        {
            let order = self.max_order_at(Pfn::new_unchecked(pfn), (end - pfn) as usize);
            proof {
                lemma2_to64();
                lemma_max_order_props(pfn as nat, (end - pfn) as nat, 0);
                lemma_u32_pow2_no_overflow(order as nat);
                lemma_view_inv_shape(self@, -1, 0);
            }
            let size = order_frames(order);
            let ghost v = self@;
            let ghost p = pfn as nat;
            assert forall|q: int| p <= q < p + size implies #[trigger] v.states[q]
                == FrameState::Reserved by {}
            let mut i = 1u32;
            while i < size
                invariant
                    self.repr_ok(),
                    lists_shape(self.lists@, self.nr_frames as nat),
                    view_wf(v),
                    self.lists@ == v.lists,
                    self.free_frames == v.free_frames,
                    self.nr_frames == old(self).nr_frames,
                    self.dram_base == old(self).dram_base,
                    self@.states.len() == v.states.len(),
                    1 <= i <= size,
                    pfn as nat == p,
                    p + size <= end,
                    end <= self.nr_frames,
                    forall|q: int| p <= q < p + size ==> #[trigger] v.states[q]
                        == FrameState::Reserved,
                    forall|q: int|
                        0 <= q < v.states.len() ==> #[trigger] self@.states[q] == (if p < q < p
                            + i {
                            FrameState::Tail
                        } else {
                            v.states[q]
                        }),
                decreases size - i,
            {
                let idx = (pfn + i) as usize;
                let mut tp = self.pages[idx];
                tp.mark_tail();
                proof {
                    assert forall|kk: int| 0 <= kk < MAX_ORDER implies !(
                    #[trigger] self.lists@[kk]).contains(idx as u32) by {
                        if self.lists@[kk].contains(idx as u32) {
                            let j = choose|j: int|
                                0 <= j < self.lists@[kk].len() && self.lists@[kk][j] == idx as u32;
                            assert(v.states[v.lists[kk][j] as int] == FrameState::Free(kk as nat));
                            assert(v.states[idx as int] == FrameState::Reserved);
                        }
                    }
                }
                let ghost st = self@.states;
                let ghost pg = self.pages@;
                self.put_unlisted_page(idx, tp);
                proof {
                    assert forall|q: int| 0 <= q < st.len() implies #[trigger] self@.states[q] == (
                    if q == idx as int {
                        FrameState::Tail
                    } else {
                        st[q]
                    }) by {
                        assert(self@.states[q] == frame_state_of(self.pages@[q]));
                        assert(st[q] == frame_state_of(pg[q]));
                    }
                }
                i = i + 1;
            }
            let head = Pfn::new_unchecked(pfn);
            let mut hp = self.pages[pfn as usize];
            hp.mark_free(order);
            proof {
                assert forall|kk: int| 0 <= kk < MAX_ORDER implies !(
                #[trigger] self.lists@[kk]).contains(pfn) by {
                    if self.lists@[kk].contains(pfn) {
                        let j = choose|j: int|
                            0 <= j < self.lists@[kk].len() && self.lists@[kk][j] == pfn;
                        assert(v.states[v.lists[kk][j] as int] == FrameState::Free(kk as nat));
                        assert(v.states[pfn as int] == FrameState::Reserved);
                    }
                }
            }
            let ghost st = self@.states;
            let ghost pg = self.pages@;
            self.put_unlisted_page(pfn as usize, hp);
            proof {
                assert forall|q: int| 0 <= q < st.len() implies #[trigger] self@.states[q] == (
                if q == pfn as int {
                    FrameState::Free(order as nat)
                } else {
                    st[q]
                }) by {
                    assert(self@.states[q] == frame_state_of(self.pages@[q]));
                    assert(st[q] == frame_state_of(pg[q]));
                }
            }
            self.push_front(order, head);
            self.free_frames = self.free_frames + size as usize;
            pfn = pfn + size;
            proof {
                lemma_place_inv(v, p, order as nat);
                assert(self@.states =~= place_block(v, p, order as nat).states);
                assert(self@.lists =~= place_block(v, p, order as nat).lists);
                assert(self@ == place_block(v, p, order as nat));
            }
        }
    }
}


/// Size in bytes of one mem-map descriptor ([`PageInfo`]).
pub const PAGE_INFO_SIZE: usize = 16;

/// Physical address of frame `pfn` of an allocator based at `base`.
pub open spec fn pa_of_pfn(base: nat, pfn: nat) -> nat {
    base + pfn * (PAGE_SIZE as nat)
}

/// Frame number of physical address `pa` in an allocator based at `base`.
pub open spec fn pfn_of_pa(base: nat, pa: nat) -> nat {
    ((pa - base) / PAGE_SIZE as int) as nat
}

/// `pfn_of` and `pa_of` are mutual inverses: the frame of a frame's address
/// is that frame.
pub proof fn lemma_pfn_pa_round_trip(base: nat, pfn: nat)
    ensures
        pfn_of_pa(base, pa_of_pfn(base, pfn)) == pfn,
        pa_of_pfn(base, pfn) >= base,
{
    vstd::arithmetic::div_mod::lemma_div_multiples_vanish(pfn as int, PAGE_SIZE as int);
}

/// The mass of a set of empty lists is zero.
pub proof fn lemma_mass_empty(lists: Seq<Seq<u32>>, n: nat)
    requires
        n <= lists.len(),
        forall|k: int| 0 <= k < n ==> (#[trigger] lists[k]).len() == 0,
    ensures
        mass(lists, n) == 0,
    decreases n,
{
    if n > 0 {
        lemma_mass_empty(lists, (n - 1) as nat);
    }
}

impl BuddyAllocator {
    /// Build an allocator over `nr_frames` frames starting at `dram_base`,
    /// with every frame reserved and no free blocks — populate it with
    /// [`BuddyAllocator::free_range`].
    pub fn new(dram_base: PhysAddr, nr_frames: usize) -> (r: Self)
        requires
            nr_frames < RAW_NONE,
            dram_base@ + nr_frames * PAGE_SIZE <= u64::MAX,
        ensures
            r.wf(),
            r.spec_nr_frames() == nr_frames,
            r.spec_dram_base() == dram_base@,
            r@.states.len() == nr_frames,
            forall|q: int| 0 <= q < nr_frames ==> #[trigger] r@.states[q] == FrameState::Reserved,
            forall|k: int| 0 <= k < MAX_ORDER ==> (#[trigger] r@.lists[k]).len() == 0,
            r@.free_frames == 0,
            r@ == fresh_view(nr_frames as nat),
    {
        let mut pages: Vec<PageInfo> = Vec::with_capacity(nr_frames);
        let mut i: usize = 0;
        while i < nr_frames
            invariant
                i <= nr_frames,
                pages@.len() == i,
                forall|q: int| 0 <= q < i ==> (#[trigger] pages@[q]).state == PageState::Reserved,
            decreases nr_frames - i,
        {
            let mut p = PageInfo {
                next: RAW_NONE,
                prev: RAW_NONE,
                count: 0,
                order: 0,
                state: PageState::Free,
                flags: 0,
            };
            p.mark_reserved();
            pages.push(p);
            i = i + 1;
        }
        let mut free_area: Vec<Option<Pfn>> = Vec::new();
        let mut k: usize = 0;
        while k < MAX_ORDER
            invariant
                k <= MAX_ORDER,
                free_area@.len() == k,
                forall|j: int| 0 <= j < k ==> (#[trigger] free_area@[j]) is None,
            decreases MAX_ORDER - k,
        {
            free_area.push(None);
            k = k + 1;
        }
        let r = Self {
            pages,
            dram_base,
            nr_frames,
            free_area,
            free_frames: 0,
            lists: Ghost(Seq::new(MAX_ORDER as nat, |k: int| Seq::<u32>::empty())),
        };
        proof {
            lemma_mass_empty(r.lists@, MAX_ORDER as nat);
            assert forall|k: int| 0 <= k < MAX_ORDER implies links_ok(
                r.pages@,
                #[trigger] r.free_area@[k],
                r.lists@[k],
            ) by {}
            assert forall|q: int| 0 <= q < nr_frames implies #[trigger] r@.states[q]
                == FrameState::Reserved by {
                assert(r.pages@[q].state == PageState::Reserved);
            }
            assert(r@.states =~= fresh_view(nr_frames as nat).states);
            assert(r@.lists =~= fresh_view(nr_frames as nat).lists);
        }
        r
    }

    /// Number of free frames.
    pub fn free_frames(&self) -> (r: usize)
        ensures
            r == self@.free_frames,
    {
        self.free_frames
    }

    /// Physical address of frame `pfn`.
    fn pa_of(&self, pfn: Pfn) -> (r: PhysAddr)
        requires
            self.repr_ok(),
            (pfn@ as int) < self.nr_frames,
        ensures
            r@ == pa_of_pfn(self.dram_base@ as nat, pfn@ as nat),
    {
        proof {
            assert(pfn@ * PAGE_SIZE <= self.nr_frames * PAGE_SIZE) by (nonlinear_arith)
                requires
                    pfn@ <= self.nr_frames,
            ;
        }
        PhysAddr::from_u64(self.dram_base.as_u64() + pfn.raw() as u64 * PAGE_SIZE as u64)
    }

    /// Frame number of the page-aligned physical address `pa`, which must lie
    /// in the managed range.
    pub fn pfn_of(&self, pa: PhysAddr) -> (r: Pfn)
        requires
            self.wf(),
            self.spec_dram_base() <= pa@ < self.spec_dram_base() + self.spec_nr_frames() * PAGE_SIZE,
            pa@ % (PAGE_SIZE as u64) == 0,
        ensures
            r@ == pfn_of_pa(self.spec_dram_base() as nat, pa@ as nat),
            r@ < self.spec_nr_frames(),
    {
        let off = pa.as_u64() - self.dram_base.as_u64();
        proof {
            assert(off / (PAGE_SIZE as u64) < self.nr_frames) by (nonlinear_arith)
                requires
                    off < self.nr_frames * PAGE_SIZE,
            ;
        }
        Pfn::new_unchecked((off / PAGE_SIZE as u64) as u32)
    }

    /// Allocate `2^order` contiguous frames; the physical address of the
    /// block, or `None` when no free block of that order or larger exists.
    pub fn alloc_pages(&mut self, order: u8) -> (r: Option<PhysAddr>)
        requires
            old(self).wf(),
        ensures
            final(self).wf(),
            final(self)@ == alloc_view(old(self)@, order as nat).0,
            r is None <==> alloc_view(old(self)@, order as nat).1 is None,
            r matches Some(pa) ==> pa@ == pa_of_pfn(
                old(self).spec_dram_base() as nat,
                alloc_view(old(self)@, order as nat).1->0 as nat,
            ),
            final(self).spec_nr_frames() == old(self).spec_nr_frames(),
            final(self).spec_dram_base() == old(self).spec_dram_base(),
            // in the allocator's own terms
            r is None <==> forall|j: int|
                order <= j < MAX_ORDER ==> (#[trigger] old(self)@.lists[j]).len() == 0,
            r is None ==> final(self)@ == old(self)@,
            r matches Some(pa) ==> {
                let b = pfn_of_pa(old(self).spec_dram_base() as nat, pa@ as nat);
                &&& b % pow2(order as nat) == 0
                &&& b + pow2(order as nat) <= old(self).spec_nr_frames()
                &&& final(self)@.states[b as int] == FrameState::Allocated(order as nat)
                &&& final(self)@.free_frames + pow2(order as nat) == old(self)@.free_frames
            },
    {
        proof {
            old(self).lemma_wf_facts();
            lemma_alloc_effect(old(self)@, order as nat);
            if let Some(b) = alloc_view(old(self)@, order as nat).1 {
                lemma_pfn_pa_round_trip(old(self).spec_dram_base() as nat, b as nat);
            }
        }
        match self.alloc_block(order) {
            Some(pfn) => {
                proof {
                    let k = first_nonempty(old(self)@.lists, order as nat)->0;
                    lemma_first_nonempty(old(self)@.lists, order as nat);
                    assert(old(self)@.lists[k as int][0] < old(self).nr_frames);
                }
                Some(self.pa_of(pfn))
            },
            None => None,
        }
    }

    /// Allocate a single frame.
    pub fn alloc_page(&mut self) -> (r: Option<PhysAddr>)
        requires
            old(self).wf(),
        ensures
            final(self).wf(),
            final(self)@ == alloc_view(old(self)@, 0).0,
            r is None <==> alloc_view(old(self)@, 0).1 is None,
            r matches Some(pa) ==> pa@ == pa_of_pfn(
                old(self).spec_dram_base() as nat,
                alloc_view(old(self)@, 0).1->0 as nat,
            ),
            final(self).spec_nr_frames() == old(self).spec_nr_frames(),
            final(self).spec_dram_base() == old(self).spec_dram_base(),
    {
        self.alloc_pages(0)
    }

    /// Return the block of `2^order` frames at physical address `pa`, which
    /// an allocation of that order handed out.
    pub fn free_pages(&mut self, pa: PhysAddr, order: u8)
        requires
            old(self).wf(),
            old(self).spec_dram_base() <= pa@ < old(self).spec_dram_base()
                + old(self).spec_nr_frames() * PAGE_SIZE,
            pa@ % (PAGE_SIZE as u64) == 0,
            old(self)@.states[pfn_of_pa(old(self).spec_dram_base() as nat, pa@ as nat) as int]
                == FrameState::Allocated(order as nat),
            old(self)@.free_frames + pow2(order as nat) <= usize::MAX,
        ensures
            final(self).wf(),
            final(self)@ == free_view(
                old(self)@,
                pfn_of_pa(old(self).spec_dram_base() as nat, pa@ as nat),
                order as nat,
            ),
            final(self).spec_nr_frames() == old(self).spec_nr_frames(),
            final(self).spec_dram_base() == old(self).spec_dram_base(),
    {
        let pfn = self.pfn_of(pa);
        proof {
            assert(is_head(self@.states[pfn@ as int]));
        }
        self.free_block(pfn, order);
    }

    /// Frames needed for a mem-map of one descriptor per frame.
    pub fn memmap_frames(nr_frames: usize) -> (r: usize)
        requires
            nr_frames * PAGE_INFO_SIZE <= usize::MAX,
        ensures
            r == crate::mm::bootmem::ceil_div((nr_frames * PAGE_INFO_SIZE) as nat, PAGE_SIZE as nat),
            r * PAGE_SIZE >= nr_frames * PAGE_INFO_SIZE,
            r == 0 || (r - 1) * PAGE_SIZE < nr_frames * PAGE_INFO_SIZE,
    {
        let bytes = nr_frames * PAGE_INFO_SIZE;
        let r = bytes / PAGE_SIZE + if bytes % PAGE_SIZE != 0 {
            1
        } else {
            0
        };
        r
    }
}

/// `2^order` as a `u32`.
fn order_frames(order: u8) -> (r: u32)
    requires
        order < 32,
    ensures
        r == pow2(order as nat),
{
    proof {
        lemma_u32_pow2_no_overflow(order as nat);
        lemma_u32_shl_is_mul(1, order as u32);
    }
    1u32 << order
}

} // verus!

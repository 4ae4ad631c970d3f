//! The k-way run-coalescing merge that turns per-kind, draw-order-sorted
//! primitive sequences into the minimal sequence of homogeneous contiguous
//! batches reproducing the global paint order.
//!
//! The merge keeps one cursor per kind. At each step the kind whose next
//! element has the smallest `(order, kind-priority)` key wins; its run is
//! extended while the next element of the winning kind stays strictly below
//! every other kind's candidate key, and the run is emitted as one batch.

use vstd::prelude::*;

verus! {

/// The global paint-order key: higher orders draw later (on top).
pub type DrawOrder = u32;

/// The number of primitive kinds the compositor merges over.
pub const KIND_COUNT: usize = 2;

/// The closed set of primitive kinds.
///
/// Its total order is part of the compositor's observable contract: when two
/// primitives of different kinds carry the same draw order, the kind listed
/// first here is painted first (and thus shows up below the other).
#[derive(Debug, Clone, Copy, PartialEq, Eq, Structural)]
pub enum PrimitiveKind {
    Quad,
    MonochromeSprite,
}

/// The priority of a kind: its position in the fixed kind order.
pub open spec fn rank(k: PrimitiveKind) -> int {
    match k {
        PrimitiveKind::Quad => 0,
        PrimitiveKind::MonochromeSprite => 1,
    }
}

/// The kind sitting at a given priority; inverse of `rank`.
pub open spec fn kind_at(i: int) -> PrimitiveKind {
    if i == 0 {
        PrimitiveKind::Quad
    } else {
        PrimitiveKind::MonochromeSprite
    }
}

/// A batch descriptor: a non-empty half-open index range `[start, end)` into
/// the sequence of primitives of one kind, denoting a homogeneous contiguous
/// run that the backend draws with a single call.
#[derive(Debug, Clone, Copy, PartialEq, Eq, Structural)]
pub struct Batch {
    pub kind: PrimitiveKind,
    pub start: usize,
    pub end: usize,
}

/// Strict lexicographic order on `(draw order, kind priority)` keys.
pub open spec fn key_lt(o1: u32, k1: int, o2: u32, k2: int) -> bool {
    o1 < o2 || (o1 == o2 && k1 < k2)
}

/// A well-formed cursor state: one cursor per kind, each within its sequence.
pub open spec fn state_wf(orders: Seq<Seq<u32>>, cursors: Seq<usize>) -> bool {
    &&& orders.len() == KIND_COUNT
    &&& cursors.len() == KIND_COUNT
    &&& forall|i: int|
        0 <= i < KIND_COUNT ==> #[trigger] cursors[i] <= orders[i].len()
    &&& forall|i: int|
        0 <= i < KIND_COUNT ==> #[trigger] orders[i].len() <= usize::MAX
}

/// The candidate order of a kind: the order of the element at its cursor, or
/// `None` (a sentinel above every real key) once the kind is used up.
pub open spec fn cand(orders: Seq<Seq<u32>>, cursors: Seq<usize>, i: int) -> Option<u32> {
    if cursors[i] < orders[i].len() {
        Some(orders[i][cursors[i] as int])
    } else {
        None
    }
}

/// Strict order on candidate keys; `None` sorts above every real order.
pub open spec fn cand_lt(c1: Option<u32>, k1: int, c2: Option<u32>, k2: int) -> bool {
    match (c1, c2) {
        (Some(o1), Some(o2)) => key_lt(o1, k1, o2, k2),
        (Some(o1), None) => true,
        (None, Some(o2)) => false,
        (None, None) => k1 < k2,
    }
}

/// The kind index with the smallest candidate key among the first `n` kinds,
/// ties resolved toward the smaller index (i.e. the higher-priority kind).
pub open spec fn winner_upto(orders: Seq<Seq<u32>>, cursors: Seq<usize>, n: int) -> int
    decreases n,
{
    if n <= 1 {
        0
    } else {
        let w = winner_upto(orders, cursors, n - 1);
        if cand_lt(cand(orders, cursors, n - 1), n - 1, cand(orders, cursors, w), w) {
            n - 1
        } else {
            w
        }
    }
}

/// The kind index whose element is painted next: the smallest candidate key.
pub open spec fn winner(orders: Seq<Seq<u32>>, cursors: Seq<usize>) -> int {
    winner_upto(orders, cursors, KIND_COUNT as int)
}

/// Every kind's sequence is used up: nothing is left to batch.
pub open spec fn exhausted(orders: Seq<Seq<u32>>, cursors: Seq<usize>) -> bool {
    forall|i: int| 0 <= i < KIND_COUNT ==> #[trigger] cursors[i] >= orders[i].len()
}

/// An order `o` of kind `w` stays strictly below every other kind's candidate
/// key, so taking it cannot steal territory another kind should interleave.
pub open spec fn below_ceiling(
    orders: Seq<Seq<u32>>,
    cursors: Seq<usize>,
    w: int,
    o: u32,
) -> bool {
    forall|i: int|
        0 <= i < KIND_COUNT && i != w ==> cand_lt(
            Some(o),
            w,
            #[trigger] cand(orders, cursors, i),
            i,
        )
}

/// Where the current run of kind `w`, already extending up to index `j`,
/// stops: the first index whose element no longer sits below the ceiling.
pub open spec fn run_end(orders: Seq<Seq<u32>>, cursors: Seq<usize>, w: int, j: int) -> int
    decreases orders[w].len() - j,
{
    if j < orders[w].len() && below_ceiling(orders, cursors, w, orders[w][j]) {
        run_end(orders, cursors, w, j + 1)
    } else {
        j
    }
}

/// The number of primitives not yet consumed among the first `n` kinds.
pub open spec fn sum_remaining(orders: Seq<Seq<u32>>, cursors: Seq<usize>, n: int) -> int
    decreases n,
{
    if n <= 0 {
        0
    } else {
        sum_remaining(orders, cursors, n - 1) + orders[n - 1].len() - cursors[n - 1]
    }
}

/// The cursor state a compositing pass starts from: everything unconsumed.
pub open spec fn zero_cursors() -> Seq<usize> {
    Seq::new(KIND_COUNT as nat, |i: int| 0usize)
}

/// A sequence of draw orders that is non-decreasing.
pub open spec fn sorted_orders(s: Seq<u32>) -> bool {
    forall|i: int, j: int| 0 <= i <= j < s.len() ==> s[i] <= s[j]
}

/// Every kind's draw-order sequence is non-decreasing: the compositor's input
/// discipline.
pub open spec fn all_sorted(orders: Seq<Seq<u32>>) -> bool {
    forall|k: int| 0 <= k < KIND_COUNT ==> sorted_orders(#[trigger] orders[k])
}

/// A sequence whose adjacent pairs are non-decreasing is sorted.
pub proof fn lemma_sorted_from_adjacent(s: Seq<u32>)
    requires
        forall|t: int| 0 <= t < s.len() - 1 ==> #[trigger] s[t] <= s[t + 1],
    ensures
        sorted_orders(s),
{
    assert forall|i: int, j: int| 0 <= i <= j < s.len() implies s[i] <= s[j] by {
        lemma_le_by_steps(s, i, j);
    }
}

/// Helper for [`lemma_sorted_from_adjacent`]: chains adjacent pairs.
proof fn lemma_le_by_steps(s: Seq<u32>, i: int, j: int)
    requires
        forall|t: int| 0 <= t < s.len() - 1 ==> #[trigger] s[t] <= s[t + 1],
        0 <= i <= j < s.len(),
    ensures
        s[i] <= s[j],
    decreases j - i,
{
    if i < j {
        lemma_le_by_steps(s, i, j - 1);
        assert(s[j - 1] <= s[j]);
    }
}

/// `cand_lt` with fixed distinct kind indices is a strict total order.
pub(crate) proof fn lemma_cand_lt_order(
    a: Option<u32>,
    ka: int,
    b: Option<u32>,
    kb: int,
    c: Option<u32>,
    kc: int,
)
    ensures
        cand_lt(a, ka, b, kb) && cand_lt(b, kb, c, kc) ==> cand_lt(a, ka, c, kc),
        cand_lt(a, ka, b, kb) ==> !cand_lt(b, kb, a, ka),
        ka != kb ==> (cand_lt(a, ka, b, kb) || cand_lt(b, kb, a, ka)),
{
}

/// The winner among the first `n` kinds is in range and has a minimal key.
pub(crate) proof fn lemma_winner_upto_props(orders: Seq<Seq<u32>>, cursors: Seq<usize>, n: int)
    requires
        1 <= n,
    ensures
        0 <= winner_upto(orders, cursors, n) < n,
        forall|i: int|
            0 <= i < n ==> !cand_lt(
                #[trigger] cand(orders, cursors, i),
                i,
                cand(orders, cursors, winner_upto(orders, cursors, n)),
                winner_upto(orders, cursors, n),
            ),
    decreases n,
{
    if n > 1 {
        lemma_winner_upto_props(orders, cursors, n - 1);
        let w0 = winner_upto(orders, cursors, n - 1);
        let w = winner_upto(orders, cursors, n);
        if w == n - 1 {
            assert forall|i: int| 0 <= i < n implies !cand_lt(
                #[trigger] cand(orders, cursors, i),
                i,
                cand(orders, cursors, w),
                w,
            ) by {
                if i < n - 1 {
                    lemma_cand_lt_order(
                        cand(orders, cursors, i),
                        i,
                        cand(orders, cursors, n - 1),
                        n - 1,
                        cand(orders, cursors, w0),
                        w0,
                    );
                }
            }
        }
    }
}

/// The overall winner is in range, has a minimal key, and — unless everything
/// is exhausted — points at a real element.
pub proof fn lemma_winner_props(orders: Seq<Seq<u32>>, cursors: Seq<usize>)
    requires
        orders.len() == KIND_COUNT,
        cursors.len() == KIND_COUNT,
    ensures
        0 <= winner(orders, cursors) < KIND_COUNT,
        forall|i: int|
            0 <= i < KIND_COUNT ==> !cand_lt(
                #[trigger] cand(orders, cursors, i),
                i,
                cand(orders, cursors, winner(orders, cursors)),
                winner(orders, cursors),
            ),
        !exhausted(orders, cursors) ==> cursors[winner(orders, cursors)]
            < orders[winner(orders, cursors)].len(),
{
    lemma_winner_upto_props(orders, cursors, KIND_COUNT as int);
    let w = winner(orders, cursors);
    if !exhausted(orders, cursors) {
        let i = choose|i: int| 0 <= i < KIND_COUNT && cursors[i] < orders[i].len();
        assert(cand(orders, cursors, i) is Some);
        if cursors[w] >= orders[w].len() {
            assert(cand(orders, cursors, w) is None);
            assert(cand_lt(cand(orders, cursors, i), i, cand(orders, cursors, w), w));
        }
    }
}

/// A run neither moves backwards nor overruns its kind's sequence.
pub proof fn lemma_run_end_bounds(orders: Seq<Seq<u32>>, cursors: Seq<usize>, w: int, j: int)
    requires
        j <= orders[w].len(),
    ensures
        j <= run_end(orders, cursors, w, j) <= orders[w].len(),
    decreases orders[w].len() - j,
{
    if j < orders[w].len() && below_ceiling(orders, cursors, w, orders[w][j]) {
        lemma_run_end_bounds(orders, cursors, w, j + 1);
    }
}

/// Replacing one cursor shifts the remaining count by exactly the difference.
pub(crate) proof fn lemma_sum_remaining_update(
    orders: Seq<Seq<u32>>,
    cursors: Seq<usize>,
    w: int,
    v: usize,
    n: int,
)
    requires
        0 <= w < cursors.len(),
        n <= cursors.len(),
    ensures
        sum_remaining(orders, cursors.update(w, v), n) == sum_remaining(orders, cursors, n) + if w
            < n {
            cursors[w] - v
        } else {
            0
        },
    decreases n,
{
    if n > 0 {
        lemma_sum_remaining_update(orders, cursors, w, v, n - 1);
        let updated = cursors.update(w, v);
        assert(sum_remaining(orders, updated, n) == sum_remaining(orders, updated, n - 1)
            + orders[n - 1].len() - updated[n - 1]);
        if w == n - 1 {
            assert(updated[n - 1] == v);
        } else {
            assert(updated[n - 1] == cursors[n - 1]);
        }
    }
}

/// With every cursor in range, the remaining count cannot be negative.
pub(crate) proof fn lemma_sum_remaining_nonneg(orders: Seq<Seq<u32>>, cursors: Seq<usize>, n: int)
    requires
        forall|i: int| 0 <= i < n ==> #[trigger] cursors[i] <= orders[i].len(),
    ensures
        sum_remaining(orders, cursors, n) >= 0,
    decreases n,
{
    if n > 0 {
        lemma_sum_remaining_nonneg(orders, cursors, n - 1);
    }
}

/// The full batch sequence the compositor emits from a given cursor state:
/// while anything is left, the kind with the smallest candidate key opens a
/// batch at its cursor, the batch runs until the ceiling, and the merge goes
/// on with that kind's cursor moved past the batch.
pub open spec fn merge_batches(orders: Seq<Seq<u32>>, cursors: Seq<usize>) -> Seq<Batch>
    decreases sum_remaining(orders, cursors, KIND_COUNT as int),
        when state_wf(orders, cursors)
        via merge_batches_decreases
{
    if exhausted(orders, cursors) {
        Seq::<Batch>::empty()
    } else {
        let w = winner(orders, cursors);
        let s = cursors[w];
        let e = run_end(orders, cursors, w, s + 1);
        seq![Batch { kind: kind_at(w), start: s, end: e as usize }] + merge_batches(
            orders,
            cursors.update(w, e as usize),
        )
    }
}

#[via_fn]
proof fn merge_batches_decreases(orders: Seq<Seq<u32>>, cursors: Seq<usize>) {
    if !exhausted(orders, cursors) {
        let w = winner(orders, cursors);
        lemma_winner_props(orders, cursors);
        let s = cursors[w];
        let e = run_end(orders, cursors, w, s + 1);
        lemma_run_end_bounds(orders, cursors, w, s + 1);
        lemma_sum_remaining_update(orders, cursors, w, e as usize, KIND_COUNT as int);
        lemma_sum_remaining_nonneg(
            orders,
            cursors.update(w, e as usize),
            KIND_COUNT as int,
        );
    }
}

/// A kind whose candidate key is strictly below every other kind's is the
/// winner.
pub proof fn lemma_winner_unique(orders: Seq<Seq<u32>>, cursors: Seq<usize>, w: int)
    requires
        0 <= w < KIND_COUNT,
        forall|i: int|
            0 <= i < KIND_COUNT && i != w ==> cand_lt(
                cand(orders, cursors, w),
                w,
                #[trigger] cand(orders, cursors, i),
                i,
            ),
    ensures
        winner(orders, cursors) == w,
{
    lemma_winner_upto_unique(orders, cursors, w, KIND_COUNT as int);
}

/// Helper for [`lemma_winner_unique`], by induction over the prefix of kinds.
proof fn lemma_winner_upto_unique(orders: Seq<Seq<u32>>, cursors: Seq<usize>, w: int, n: int)
    requires
        0 <= w < n,
        forall|i: int|
            0 <= i < n && i != w ==> cand_lt(
                cand(orders, cursors, w),
                w,
                #[trigger] cand(orders, cursors, i),
                i,
            ),
    ensures
        winner_upto(orders, cursors, n) == w,
    decreases n,
{
    if n == 1 {
    } else if w == n - 1 {
        lemma_winner_upto_props(orders, cursors, n - 1);
    } else {
        lemma_winner_upto_unique(orders, cursors, w, n - 1);
        lemma_cand_lt_order(
            cand(orders, cursors, n - 1),
            n - 1,
            cand(orders, cursors, w),
            w,
            cand(orders, cursors, w),
            w,
        );
    }
}

/// What a finished run looks like: every element in it sits below the ceiling,
/// and the element after it (if any) does not.
pub proof fn lemma_run_end_props(orders: Seq<Seq<u32>>, cursors: Seq<usize>, w: int, j0: int)
    requires
        0 <= j0 <= orders[w].len(),
    ensures
        ({
            let e = run_end(orders, cursors, w, j0);
            &&& j0 <= e <= orders[w].len()
            &&& forall|j: int|
                j0 <= j < e ==> below_ceiling(orders, cursors, w, #[trigger] orders[w][j])
            &&& e < orders[w].len() ==> !below_ceiling(orders, cursors, w, orders[w][e])
        }),
    decreases orders[w].len() - j0,
{
    if j0 < orders[w].len() && below_ceiling(orders, cursors, w, orders[w][j0]) {
        lemma_run_end_props(orders, cursors, w, j0 + 1);
    }
}

/// One step of the merge, unfolded: the shape of the first batch, the cursor
/// state the rest is merged from, and the facts that keep both well-formed.
pub proof fn lemma_merge_step(orders: Seq<Seq<u32>>, cursors: Seq<usize>)
    requires
        state_wf(orders, cursors),
        !exhausted(orders, cursors),
    ensures
        ({
            let w = winner(orders, cursors);
            let s = cursors[w];
            let e = run_end(orders, cursors, w, s + 1);
            let moved = cursors.update(w, e as usize);
            &&& 0 <= w < KIND_COUNT
            &&& cursors[w] < orders[w].len()
            &&& s + 1 <= e <= orders[w].len()
            &&& state_wf(orders, moved)
            &&& 0 <= sum_remaining(orders, moved, KIND_COUNT as int) < sum_remaining(
                orders,
                cursors,
                KIND_COUNT as int,
            )
            &&& merge_batches(orders, cursors) == seq![
                Batch { kind: kind_at(w), start: s, end: e as usize },
            ] + merge_batches(orders, moved)
            &&& merge_batches(orders, cursors)[0] == Batch {
                kind: kind_at(w),
                start: s,
                end: e as usize,
            }
            &&& merge_batches(orders, cursors).drop_first() == merge_batches(orders, moved)
        }),
{
    lemma_winner_props(orders, cursors);
    let w = winner(orders, cursors);
    let s = cursors[w];
    let e = run_end(orders, cursors, w, s + 1);
    let moved = cursors.update(w, e as usize);
    lemma_run_end_bounds(orders, cursors, w, s + 1);
    lemma_sum_remaining_update(orders, cursors, w, e as usize, KIND_COUNT as int);
    lemma_sum_remaining_nonneg(orders, moved, KIND_COUNT as int);
    let b = Batch { kind: kind_at(w), start: s, end: e as usize };
    let rest = merge_batches(orders, moved);
    assert(merge_batches(orders, cursors) == seq![b] + rest);
    assert((seq![b] + rest)[0] == b);
    assert((seq![b] + rest).drop_first() =~= rest);
}

/// The kind sitting at a given priority, as executable code.
pub fn kind_of_index(i: usize) -> (k: PrimitiveKind)
    requires
        i < KIND_COUNT,
    ensures
        k == kind_at(i as int),
        rank(k) == i as int,
{
    if i == 0 {
        PrimitiveKind::Quad
    } else {
        PrimitiveKind::MonochromeSprite
    }
}

/// Compares two candidate keys, treating `None` as the sentinel above all.
fn cand_lt_exec(c1: Option<u32>, k1: usize, c2: Option<u32>, k2: usize) -> (r: bool)
    ensures
        r == cand_lt(c1, k1 as int, c2, k2 as int),
{
    match (c1, c2) {
        (Some(o1), Some(o2)) => o1 < o2 || (o1 == o2 && k1 < k2),
        (Some(_), None) => true,
        (None, Some(_)) => false,
        (None, None) => k1 < k2,
    }
}

/// The lazy batch producer: one cursor per kind into that kind's sequence of
/// draw orders. Each call to [`BatchIterator::next`] emits one batch and moves
/// the winning kind's cursor past it; once consumed it cannot be restarted.
pub struct BatchIterator {
    orders: Vec<Vec<u32>>,
    starts: Vec<usize>,
}

impl BatchIterator {
    /// The per-kind draw-order sequences being merged.
    pub closed spec fn orders_view(self) -> Seq<Seq<u32>> {
        self.orders@.map_values(|v: Vec<u32>| v@)
    }

    /// The per-kind cursors: everything before a cursor is already emitted.
    pub closed spec fn cursors(self) -> Seq<usize> {
        self.starts@
    }

    /// Well-formedness: one in-range cursor per kind.
    pub open spec fn wf(self) -> bool {
        state_wf(self.orders_view(), self.cursors())
    }

    /// The batches this iterator has yet to emit.
    pub open spec fn remaining(self) -> Seq<Batch> {
        merge_batches(self.orders_view(), self.cursors())
    }

    /// Builds a fresh iterator over one draw-order sequence per kind, indexed
    /// by kind priority, with every cursor at the start.
    pub fn new(orders: Vec<Vec<u32>>) -> (it: BatchIterator)
        requires
            orders@.len() == KIND_COUNT,
        ensures
            it.wf(),
            it.orders_view() == orders@.map_values(|v: Vec<u32>| v@),
            it.cursors() == zero_cursors(),
    {
        let mut starts: Vec<usize> = Vec::new();
        let mut i: usize = 0;
        while i < KIND_COUNT
            invariant
                i <= KIND_COUNT,
                starts@.len() == i,
                forall|j: int| 0 <= j < i ==> starts@[j] == 0usize,
            decreases KIND_COUNT - i,
        {
            starts.push(0);
            i += 1;
        }
        proof {
            assert forall|j: int| 0 <= j < KIND_COUNT implies #[trigger] orders@[j]@.len()
                <= usize::MAX by {
                assert(orders@[j]@.len() == orders@[j].len());
            }
        }
        BatchIterator { orders, starts }
    }

    /// The candidate key of one kind: the order at its cursor, if any is left.
    fn cand_at(&self, i: usize) -> (r: Option<u32>)
        requires
            self.wf(),
            i < KIND_COUNT,
        ensures
            r == cand(self.orders_view(), self.cursors(), i as int),
    {
        let s = self.starts[i];
        if s < self.orders[i].len() {
            Some(self.orders[i][s])
        } else {
            None
        }
    }

    /// Whether the order `o` of kind `w` sits strictly below every other
    /// kind's candidate key.
    fn is_below_ceiling(&self, w: usize, o: u32) -> (r: bool)
        requires
            self.wf(),
            w < KIND_COUNT,
        ensures
            r == below_ceiling(self.orders_view(), self.cursors(), w as int, o),
    {
        let mut i: usize = 0;
        let mut ok = true;
        while i < KIND_COUNT
            invariant
                self.wf(),
                w < KIND_COUNT,
                i <= KIND_COUNT,
                ok == forall|j: int|
                    0 <= j < i && j != w ==> cand_lt(
                        Some(o),
                        w as int,
                        #[trigger] cand(self.orders_view(), self.cursors(), j),
                        j,
                    ),
            decreases KIND_COUNT - i,
        {
            if i != w {
                let ci = self.cand_at(i);
                if !cand_lt_exec(Some(o), w, ci, i) {
                    ok = false;
                }
            }
            i += 1;
        }
        ok
    }

    /// Emits the next batch: the kind with the smallest candidate key opens a
    /// batch at its cursor and runs until the ceiling; `None` once every kind
    /// is used up, and from then on forever.
    pub fn next(&mut self) -> (r: Option<Batch>)
        requires
            old(self).wf(),
        ensures
            final(self).wf(),
            final(self).orders_view() == old(self).orders_view(),
            old(self).remaining().len() == 0 ==> r is None && final(self).cursors()
                == old(self).cursors(),
            old(self).remaining().len() > 0 ==> r == Some(old(self).remaining()[0])
                && final(self).remaining() == old(self).remaining().drop_first(),
    {
        let ghost orders0 = self.orders_view();
        let ghost cursors0 = self.cursors();
        let mut w: usize = 0;
        let mut i: usize = 1;
        while i < KIND_COUNT
            invariant
                self == old(self),
                self.wf(),
                1 <= i <= KIND_COUNT,
                w < i,
                w as int == winner_upto(orders0, cursors0, i as int),
                orders0 == self.orders_view(),
                cursors0 == self.cursors(),
            decreases KIND_COUNT - i,
        {
            let cw = self.cand_at(w);
            let ci = self.cand_at(i);
            if cand_lt_exec(ci, i, cw, w) {
                w = i;
            }
            i += 1;
        }
        proof {
            lemma_winner_props(orders0, cursors0);
        }
        match self.cand_at(w) {
            None => {
                proof {
                    assert forall|k: int| 0 <= k < KIND_COUNT implies cursors0[k]
                        >= orders0[k].len() by {
                        if cursors0[k] < orders0[k].len() {
                            assert(cand(orders0, cursors0, k) is Some);
                            assert(cand_lt(cand(orders0, cursors0, k), k, None, w as int));
                        }
                    }
                    assert(exhausted(orders0, cursors0));
                    assert(merge_batches(orders0, cursors0) =~= Seq::<Batch>::empty());
                }
                None
            },
            Some(_) => {
                let s = self.starts[w];
                let mut e = s + 1;
                while e < self.orders[w].len() && self.is_below_ceiling(w, self.orders[w][e])
                    invariant
                        self == old(self),
                        self.wf(),
                        w < KIND_COUNT,
                        orders0 == self.orders_view(),
                        cursors0 == self.cursors(),
                        cursors0[w as int] < orders0[w as int].len(),
                        s == cursors0[w as int],
                        s + 1 <= e <= orders0[w as int].len(),
                        run_end(orders0, cursors0, w as int, e as int) == run_end(
                            orders0,
                            cursors0,
                            w as int,
                            s + 1,
                        ),
                    decreases orders0[w as int].len() - e,
                {
                    e += 1;
                }
                let b = Batch { kind: kind_of_index(w), start: s, end: e };
                self.starts[w] = e;
                proof {
                    assert(!exhausted(orders0, cursors0));
                    assert(e as int == run_end(orders0, cursors0, w as int, s + 1));
                    let rest = merge_batches(orders0, cursors0.update(w as int, e));
                    assert(merge_batches(orders0, cursors0) == seq![b] + rest);
                    assert(self.cursors() =~= cursors0.update(w as int, e));
                    assert((seq![b] + rest).drop_first() =~= rest);
                    assert((seq![b] + rest)[0] == b);
                }
                Some(b)
            },
        }
    }
}

} // verus!

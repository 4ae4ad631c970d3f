//! The compositor's guarantees, stated and proved over whole compositing
//! passes: coverage of every kind's sequence, exact preservation of the global
//! paint order, and maximality of the emitted batches.

use vstd::prelude::*;

use crate::compositor::Batch;
use crate::compositor::KIND_COUNT;
use crate::compositor::PrimitiveKind;
use crate::compositor::all_sorted;
use crate::compositor::below_ceiling;
use crate::compositor::cand;
use crate::compositor::cand_lt;
use crate::compositor::exhausted;
use crate::compositor::kind_at;
use crate::compositor::lemma_merge_step;
use crate::compositor::lemma_run_end_props;
use crate::compositor::lemma_sum_remaining_nonneg;
use crate::compositor::lemma_sum_remaining_update;
use crate::compositor::lemma_winner_props;
use crate::compositor::lemma_winner_unique;
use crate::compositor::merge_batches;
use crate::compositor::rank;
use crate::compositor::run_end;
use crate::compositor::sorted_orders;
use crate::compositor::state_wf;
use crate::compositor::sum_remaining;
use crate::compositor::winner;
use crate::compositor::zero_cursors;
use crate::scene::Scene;

verus! {

/// The batches of one kind, in emission order.
pub open spec fn batches_of_kind(bs: Seq<Batch>, k: PrimitiveKind) -> Seq<Batch>
    decreases bs.len(),
{
    if bs.len() == 0 {
        Seq::<Batch>::empty()
    } else if bs[0].kind == k {
        seq![bs[0]] + batches_of_kind(bs.drop_first(), k)
    } else {
        batches_of_kind(bs.drop_first(), k)
    }
}

/// The ranges chain seamlessly from `from` to `to`: each is non-empty and
/// starts exactly where the previous one ended, so concatenating them visits
/// the index interval `[from, to)` once, in order, with nothing skipped.
pub open spec fn chained(bs: Seq<Batch>, from: int, to: int) -> bool
    decreases bs.len(),
{
    if bs.len() == 0 {
        from == to
    } else {
        &&& bs[0].start == from
        &&& bs[0].start < bs[0].end
        &&& chained(bs.drop_first(), bs[0].end as int, to)
    }
}

/// Coverage from any cursor state: the batches of kind `k` chain from the
/// kind's cursor to the end of its sequence.
proof fn lemma_coverage_from(orders: Seq<Seq<u32>>, cursors: Seq<usize>, k: int)
    requires
        state_wf(orders, cursors),
        0 <= k < KIND_COUNT,
    ensures
        chained(
            batches_of_kind(merge_batches(orders, cursors), kind_at(k)),
            cursors[k] as int,
            orders[k].len() as int,
        ),
    decreases sum_remaining(orders, cursors, KIND_COUNT as int),
{
    if exhausted(orders, cursors) {
        assert(merge_batches(orders, cursors) == Seq::<Batch>::empty());
        assert(cursors[k] >= orders[k].len());
    } else {
        lemma_merge_step(orders, cursors);
        let w = winner(orders, cursors);
        let s = cursors[w];
        let e = run_end(orders, cursors, w, s + 1);
        let moved = cursors.update(w, e as usize);
        lemma_coverage_from(orders, moved, k);
        let b = Batch { kind: kind_at(w), start: s, end: e as usize };
        let rest = merge_batches(orders, moved);
        let bs = merge_batches(orders, cursors);
        assert(bs == seq![b] + rest);
        assert(bs.len() > 0 && bs[0] == b && bs.drop_first() == rest);
        if k == w {
            assert(batches_of_kind(bs, kind_at(k)) == seq![b] + batches_of_kind(
                rest,
                kind_at(k),
            ));
            assert((seq![b] + batches_of_kind(rest, kind_at(k))).drop_first()
                =~= batches_of_kind(rest, kind_at(k)));
            assert((seq![b] + batches_of_kind(rest, kind_at(k)))[0] == b);
            assert(moved[k] == e as usize);
        } else {
            assert(kind_at(w) != kind_at(k));
            assert(batches_of_kind(bs, kind_at(k)) == batches_of_kind(rest, kind_at(k)));
            assert(moved[k] == cursors[k]);
        }
    }
}

/// Coverage: for every kind, concatenating the index ranges of that kind's
/// emitted batches, in emission order, reconstructs the kind's full sequence —
/// every element exactly once, in original order. This holds for any input,
/// sorted or not.
pub proof fn lemma_coverage(orders: Seq<Seq<u32>>, k: int)
    requires
        state_wf(orders, zero_cursors()),
        0 <= k < KIND_COUNT,
    ensures
        chained(
            batches_of_kind(merge_batches(orders, zero_cursors()), kind_at(k)),
            0,
            orders[k].len() as int,
        ),
{
    lemma_coverage_from(orders, zero_cursors(), k);
}

/// After a batch of kind `w` is emitted, `w` cannot win again immediately:
/// either `w` is used up, or the element that stopped the run is (weakly)
/// outkeyed by some other kind's candidate.
proof fn lemma_winner_changes(orders: Seq<Seq<u32>>, cursors: Seq<usize>)
    requires
        state_wf(orders, cursors),
        !exhausted(orders, cursors),
    ensures
        ({
            let w = winner(orders, cursors);
            let e = run_end(orders, cursors, w, cursors[w] + 1);
            let moved = cursors.update(w, e as usize);
            !exhausted(orders, moved) ==> winner(orders, moved) != w
        }),
{
    lemma_merge_step(orders, cursors);
    let w = winner(orders, cursors);
    let s = cursors[w];
    let e = run_end(orders, cursors, w, s + 1);
    let moved = cursors.update(w, e as usize);
    if !exhausted(orders, moved) {
        lemma_winner_props(orders, moved);
        let w2 = winner(orders, moved);
        if w2 == w {
            assert(moved[w] < orders[w].len());
            assert(e < orders[w].len());
            lemma_run_end_props(orders, cursors, w, s + 1);
            let oe = orders[w][e];
            assert(!below_ceiling(orders, cursors, w, oe));
            let i = choose|i: int|
                0 <= i < KIND_COUNT && i != w && !cand_lt(
                    Some(oe),
                    w,
                    #[trigger] cand(orders, cursors, i),
                    i,
                );
            assert(cand(orders, cursors, i) is Some);
            assert(cand(orders, moved, i) == cand(orders, cursors, i));
            assert(cand(orders, moved, w) == Some(oe));
            assert(cand_lt(cand(orders, moved, i), i, Some(oe), w));
            assert(!cand_lt(cand(orders, moved, i), i, cand(orders, moved, w2), w2));
            assert(false);
        }
    }
}

/// Maximality from any cursor state: adjacent batches never share a kind.
#[verifier::rlimit(50)]
proof fn lemma_maximality_from(orders: Seq<Seq<u32>>, cursors: Seq<usize>)
    requires
        state_wf(orders, cursors),
    ensures
        ({
            let bs = merge_batches(orders, cursors);
            forall|i: int| 0 <= i < bs.len() - 1 ==> #[trigger] bs[i].kind != bs[i + 1].kind
        }),
    decreases sum_remaining(orders, cursors, KIND_COUNT as int),
{
    let bs = merge_batches(orders, cursors);
    if exhausted(orders, cursors) {
        assert(bs == Seq::<Batch>::empty());
    } else {
        lemma_merge_step(orders, cursors);
        let w = winner(orders, cursors);
        let s = cursors[w];
        let e = run_end(orders, cursors, w, s + 1);
        let moved = cursors.update(w, e as usize);
        lemma_maximality_from(orders, moved);
        let rest = merge_batches(orders, moved);
        assert forall|i: int| 0 <= i < bs.len() - 1 implies #[trigger] bs[i].kind != bs[i
            + 1].kind by {
            if i == 0 {
                assert(rest.len() > 0);
                if exhausted(orders, moved) {
                    assert(rest == Seq::<Batch>::empty());
                    assert(false);
                }
                lemma_winner_changes(orders, cursors);
                lemma_merge_step(orders, moved);
                assert(bs[1] == rest[0]);
                assert(rest[0].kind == kind_at(winner(orders, moved)));
                assert(bs[0].kind == kind_at(w));
                assert(kind_at(winner(orders, moved)) != kind_at(w));
            } else {
                assert(bs[i] == rest[i - 1]);
                assert(bs[i + 1] == rest[i]);
            }
        }
    }
}

/// Maximality: no two consecutive emitted batches share a kind — runs are
/// coalesced as far as the global order allows. This holds for any input,
/// sorted or not.
pub proof fn lemma_maximality(orders: Seq<Seq<u32>>)
    requires
        state_wf(orders, zero_cursors()),
    ensures
        ({
            let bs = merge_batches(orders, zero_cursors());
            forall|i: int| 0 <= i < bs.len() - 1 ==> #[trigger] bs[i].kind != bs[i + 1].kind
        }),
{
    lemma_maximality_from(orders, zero_cursors());
}

/// Emptiness: a scene with no primitives of any kind yields no batches.
pub proof fn lemma_empty(orders: Seq<Seq<u32>>)
    requires
        state_wf(orders, zero_cursors()),
        forall|k: int| 0 <= k < KIND_COUNT ==> #[trigger] orders[k].len() == 0,
    ensures
        merge_batches(orders, zero_cursors()) == Seq::<Batch>::empty(),
{
    assert(exhausted(orders, zero_cursors()));
}

/// A run with no other kind left extends to the end of its sequence.
proof fn lemma_run_to_end(orders: Seq<Seq<u32>>, cursors: Seq<usize>, w: int, j: int)
    requires
        0 <= w < KIND_COUNT,
        0 <= j <= orders[w].len(),
        forall|i: int|
            0 <= i < KIND_COUNT && i != w ==> cand(orders, cursors, i) is None,
    ensures
        run_end(orders, cursors, w, j) == orders[w].len(),
    decreases orders[w].len() - j,
{
    if j < orders[w].len() {
        assert(below_ceiling(orders, cursors, w, orders[w][j]));
        lemma_run_to_end(orders, cursors, w, j + 1);
    }
}

/// A scene populated in a single kind yields exactly one batch, spanning that
/// kind's whole sequence.
pub proof fn lemma_single_kind(orders: Seq<Seq<u32>>, k: int)
    requires
        state_wf(orders, zero_cursors()),
        0 <= k < KIND_COUNT,
        orders[k].len() > 0,
        forall|i: int| 0 <= i < KIND_COUNT && i != k ==> #[trigger] orders[i].len() == 0,
    ensures
        merge_batches(orders, zero_cursors()) == seq![
            Batch { kind: kind_at(k), start: 0, end: orders[k].len() as usize },
        ],
{
    let zeros = zero_cursors();
    assert(cand(orders, zeros, k) is Some);
    assert(!exhausted(orders, zeros));
    assert forall|i: int| 0 <= i < KIND_COUNT && i != k implies cand_lt(
        cand(orders, zeros, k),
        k,
        #[trigger] cand(orders, zeros, i),
        i,
    ) by {
        assert(cand(orders, zeros, i) is None);
    }
    lemma_winner_unique(orders, zeros, k);
    lemma_merge_step(orders, zeros);
    lemma_run_to_end(orders, zeros, k, 1);
    let e = orders[k].len() as usize;
    let moved = zeros.update(k, e);
    assert(exhausted(orders, moved));
    assert(merge_batches(orders, moved) == Seq::<Batch>::empty());
    assert(merge_batches(orders, zeros) =~= seq![
        Batch { kind: kind_at(k), start: 0, end: e },
    ]);
}

/// Singleton: a scene with exactly one primitive yields exactly one batch of
/// length one, for that primitive's kind.
pub proof fn lemma_singleton(orders: Seq<Seq<u32>>, k: int)
    requires
        state_wf(orders, zero_cursors()),
        0 <= k < KIND_COUNT,
        orders[k].len() == 1,
        forall|i: int| 0 <= i < KIND_COUNT && i != k ==> #[trigger] orders[i].len() == 0,
    ensures
        merge_batches(orders, zero_cursors()) == seq![
            Batch { kind: kind_at(k), start: 0, end: 1 },
        ],
{
    lemma_single_kind(orders, k);
}

/// The stable merge of the per-kind sequences, element by element: at each
/// step the primitive with the least `(order, kind-priority)` key leaves,
/// front-first within its kind. For draw-order-sorted inputs this is exactly
/// the stable sort of all primitives by `(order, kind-priority)`: it is sorted
/// by that key ([`lemma_merge_elems_sorted`]) and visits each kind's sequence
/// in input order ([`lemma_merge_elems_projection`]).
pub open spec fn merge_elems(orders: Seq<Seq<u32>>, cursors: Seq<usize>) -> Seq<
    (u32, PrimitiveKind),
>
    decreases sum_remaining(orders, cursors, KIND_COUNT as int),
        when state_wf(orders, cursors)
        via merge_elems_decreases
{
    if exhausted(orders, cursors) {
        Seq::<(u32, PrimitiveKind)>::empty()
    } else {
        let w = winner(orders, cursors);
        let s = cursors[w];
        seq![(orders[w][s as int], kind_at(w))] + merge_elems(
            orders,
            cursors.update(w, (s + 1) as usize),
        )
    }
}

#[via_fn]
proof fn merge_elems_decreases(orders: Seq<Seq<u32>>, cursors: Seq<usize>) {
    if !exhausted(orders, cursors) {
        lemma_winner_props(orders, cursors);
        let w = winner(orders, cursors);
        let s = cursors[w];
        lemma_sum_remaining_update(orders, cursors, w, (s + 1) as usize, KIND_COUNT as int);
        lemma_sum_remaining_nonneg(
            orders,
            cursors.update(w, (s + 1) as usize),
            KIND_COUNT as int,
        );
    }
}

/// The primitives one batch covers, as `(order, kind)` keys, in order.
pub open spec fn batch_elems(orders: Seq<Seq<u32>>, b: Batch) -> Seq<(u32, PrimitiveKind)> {
    Seq::new((b.end - b.start) as nat, |t: int| (orders[rank(b.kind)][b.start + t], b.kind))
}

/// All primitives of a batch sequence, flattened in emission order.
pub open spec fn flatten_elems(orders: Seq<Seq<u32>>, bs: Seq<Batch>) -> Seq<
    (u32, PrimitiveKind),
>
    decreases bs.len(),
{
    if bs.len() == 0 {
        Seq::<(u32, PrimitiveKind)>::empty()
    } else {
        batch_elems(orders, bs[0]) + flatten_elems(orders, bs.drop_first())
    }
}

/// The keys of kind `w`'s elements with indices in `[j, e)`.
spec fn segment_elems(orders: Seq<Seq<u32>>, w: int, j: int, e: int) -> Seq<
    (u32, PrimitiveKind),
> {
    Seq::new((e - j) as nat, |t: int| (orders[w][j + t], kind_at(w)))
}

/// Within one batch's run, the element-wise merge takes exactly the run's
/// elements, in order: from index `j` onward it produces the keys of `[j, e)`
/// and then continues past the run.
proof fn lemma_run_elems(orders: Seq<Seq<u32>>, cursors: Seq<usize>, w: int, j: int)
    requires
        state_wf(orders, cursors),
        w == winner(orders, cursors),
        !exhausted(orders, cursors),
        cursors[w] <= j <= run_end(orders, cursors, w, cursors[w] + 1),
    ensures
        ({
            let e = run_end(orders, cursors, w, cursors[w] + 1);
            merge_elems(orders, cursors.update(w, j as usize)) == segment_elems(orders, w, j, e)
                + merge_elems(orders, cursors.update(w, e as usize))
        }),
    decreases run_end(orders, cursors, w, cursors[w] + 1) - j,
{
    let s = cursors[w];
    let e = run_end(orders, cursors, w, s + 1);
    lemma_merge_step(orders, cursors);
    lemma_run_end_props(orders, cursors, w, s + 1);
    let cj = cursors.update(w, j as usize);
    let ce = cursors.update(w, e as usize);
    if j == e {
        assert(segment_elems(orders, w, e, e) =~= Seq::<(u32, PrimitiveKind)>::empty());
        assert(segment_elems(orders, w, e, e) + merge_elems(orders, ce) =~= merge_elems(
            orders,
            ce,
        ));
    } else {
        if j == s {
            assert(cj =~= cursors);
            assert(winner(orders, cj) == w);
        } else {
            assert(below_ceiling(orders, cursors, w, orders[w][j]));
            assert forall|i: int| 0 <= i < KIND_COUNT && i != w implies cand_lt(
                cand(orders, cj, w),
                w,
                #[trigger] cand(orders, cj, i),
                i,
            ) by {
                assert(cand(orders, cj, i) == cand(orders, cursors, i));
                assert(cand(orders, cj, w) == Some(orders[w][j]));
            }
            lemma_winner_unique(orders, cj, w);
        }
        assert(cj[w] == j as usize && j < orders[w].len());
        assert(!exhausted(orders, cj));
        let cj1 = cj.update(w, (j + 1) as usize);
        assert(cj1 =~= cursors.update(w, (j + 1) as usize));
        assert(merge_elems(orders, cj) == seq![(orders[w][j], kind_at(w))] + merge_elems(
            orders,
            cj1,
        ));
        lemma_run_elems(orders, cursors, w, j + 1);
        assert(segment_elems(orders, w, j, e) =~= seq![(orders[w][j], kind_at(w))]
            + segment_elems(orders, w, j + 1, e));
        assert(seq![(orders[w][j], kind_at(w))] + (segment_elems(orders, w, j + 1, e)
            + merge_elems(orders, ce)) =~= segment_elems(orders, w, j, e) + merge_elems(
            orders,
            ce,
        ));
    }
}

/// Global order from any cursor state: the emitted batches, flattened into
/// their primitives, spell out the element-wise stable merge exactly.
proof fn lemma_global_order_from(orders: Seq<Seq<u32>>, cursors: Seq<usize>)
    requires
        state_wf(orders, cursors),
    ensures
        flatten_elems(orders, merge_batches(orders, cursors)) == merge_elems(orders, cursors),
    decreases sum_remaining(orders, cursors, KIND_COUNT as int),
{
    if exhausted(orders, cursors) {
        assert(merge_batches(orders, cursors) == Seq::<Batch>::empty());
        assert(merge_elems(orders, cursors) == Seq::<(u32, PrimitiveKind)>::empty());
    } else {
        lemma_merge_step(orders, cursors);
        let w = winner(orders, cursors);
        let s = cursors[w];
        let e = run_end(orders, cursors, w, s + 1);
        let moved = cursors.update(w, e as usize);
        let b = Batch { kind: kind_at(w), start: s, end: e as usize };
        let bs = merge_batches(orders, cursors);
        lemma_global_order_from(orders, moved);
        assert(flatten_elems(orders, bs) == batch_elems(orders, b) + flatten_elems(
            orders,
            merge_batches(orders, moved),
        ));
        lemma_run_elems(orders, cursors, w, s as int);
        assert(cursors.update(w, (s as int) as usize) =~= cursors);
        assert(merge_elems(orders, cursors) == segment_elems(orders, w, s as int, e)
            + merge_elems(orders, moved));
        assert(rank(kind_at(w)) == w);
        assert(batch_elems(orders, b) =~= segment_elems(orders, w, s as int, e));
    }
}

/// Global order equivalence: flattening the emitted batches into their
/// primitives' `(order, kind)` keys yields exactly the stable element-wise
/// merge of all primitives by `(order, kind-priority)`. The compositor only
/// re-encodes the globally sorted stream as maximal same-kind runs.
pub proof fn lemma_global_order(orders: Seq<Seq<u32>>)
    requires
        state_wf(orders, zero_cursors()),
    ensures
        flatten_elems(orders, merge_batches(orders, zero_cursors())) == merge_elems(
            orders,
            zero_cursors(),
        ),
{
    lemma_global_order_from(orders, zero_cursors());
}

/// The draw orders of one kind's elements in a key sequence, in order.
pub open spec fn elems_of_kind(es: Seq<(u32, PrimitiveKind)>, k: PrimitiveKind) -> Seq<u32>
    decreases es.len(),
{
    if es.len() == 0 {
        Seq::<u32>::empty()
    } else if es[0].1 == k {
        seq![es[0].0] + elems_of_kind(es.drop_first(), k)
    } else {
        elems_of_kind(es.drop_first(), k)
    }
}

/// Stability, from any cursor state: per kind, the element-wise merge takes
/// exactly the kind's unconsumed elements, in input order.
proof fn lemma_merge_elems_projection_from(orders: Seq<Seq<u32>>, cursors: Seq<usize>, k: int)
    requires
        state_wf(orders, cursors),
        0 <= k < KIND_COUNT,
    ensures
        elems_of_kind(merge_elems(orders, cursors), kind_at(k)) == orders[k].skip(
            cursors[k] as int,
        ),
    decreases sum_remaining(orders, cursors, KIND_COUNT as int),
{
    if exhausted(orders, cursors) {
        assert(merge_elems(orders, cursors) == Seq::<(u32, PrimitiveKind)>::empty());
        assert(orders[k].skip(cursors[k] as int) =~= Seq::<u32>::empty());
    } else {
        lemma_winner_props(orders, cursors);
        let w = winner(orders, cursors);
        let s = cursors[w];
        let os = orders[w][s as int];
        let moved = cursors.update(w, (s + 1) as usize);
        lemma_sum_remaining_update(orders, cursors, w, (s + 1) as usize, KIND_COUNT as int);
        lemma_sum_remaining_nonneg(orders, moved, KIND_COUNT as int);
        lemma_merge_elems_projection_from(orders, moved, k);
        let es = merge_elems(orders, cursors);
        let tail = merge_elems(orders, moved);
        assert(es == seq![(os, kind_at(w))] + tail);
        assert(es[0] == (os, kind_at(w)));
        assert(es.drop_first() =~= tail);
        if k == w {
            assert(elems_of_kind(es, kind_at(k)) == seq![os] + elems_of_kind(tail, kind_at(k)));
            assert(seq![os] + orders[w].skip(s as int + 1) =~= orders[w].skip(s as int));
        } else {
            assert(kind_at(w) != kind_at(k));
            assert(elems_of_kind(es, kind_at(k)) == elems_of_kind(tail, kind_at(k)));
            assert(moved[k] == cursors[k]);
        }
    }
}

/// Stability: per kind, the element-wise merge visits exactly that kind's
/// sequence, in input order. Together with [`lemma_merge_elems_sorted`] this
/// pins the merge down as the stable sort of all primitives by
/// `(order, kind-priority)`.
pub proof fn lemma_merge_elems_projection(orders: Seq<Seq<u32>>, k: int)
    requires
        state_wf(orders, zero_cursors()),
        0 <= k < KIND_COUNT,
    ensures
        elems_of_kind(merge_elems(orders, zero_cursors()), kind_at(k)) == orders[k],
{
    lemma_merge_elems_projection_from(orders, zero_cursors(), k);
    assert(orders[k].skip(0) =~= orders[k]);
}

/// Non-strict order on `(order, kind)` paint keys.
pub open spec fn elem_le(a: (u32, PrimitiveKind), b: (u32, PrimitiveKind)) -> bool {
    a.0 < b.0 || (a.0 == b.0 && rank(a.1) <= rank(b.1))
}

/// A key sequence that is non-decreasing.
pub open spec fn sorted_elems(s: Seq<(u32, PrimitiveKind)>) -> bool {
    forall|i: int, j: int| 0 <= i <= j < s.len() ==> elem_le(#[trigger] s[i], #[trigger] s[j])
}

/// Every element the merge still produces has a key at or above `(o0, k0)`,
/// provided every current candidate does.
proof fn lemma_merge_elems_lower_bound(
    orders: Seq<Seq<u32>>,
    cursors: Seq<usize>,
    o0: u32,
    k0: int,
)
    requires
        state_wf(orders, cursors),
        all_sorted(orders),
        0 <= k0 < KIND_COUNT,
        forall|i: int|
            0 <= i < KIND_COUNT ==> !cand_lt(
                #[trigger] cand(orders, cursors, i),
                i,
                Some(o0),
                k0,
            ),
    ensures
        forall|t: int|
            0 <= t < merge_elems(orders, cursors).len() ==> elem_le(
                (o0, kind_at(k0)),
                #[trigger] merge_elems(orders, cursors)[t],
            ),
    decreases sum_remaining(orders, cursors, KIND_COUNT as int),
{
    if !exhausted(orders, cursors) {
        lemma_winner_props(orders, cursors);
        let w = winner(orders, cursors);
        let s = cursors[w];
        let os = orders[w][s as int];
        let moved = cursors.update(w, (s + 1) as usize);
        lemma_sum_remaining_update(orders, cursors, w, (s + 1) as usize, KIND_COUNT as int);
        lemma_sum_remaining_nonneg(orders, moved, KIND_COUNT as int);
        assert forall|i: int| 0 <= i < KIND_COUNT implies !cand_lt(
            #[trigger] cand(orders, moved, i),
            i,
            Some(o0),
            k0,
        ) by {
            if i == w {
                if moved[w] < orders[w].len() {
                    assert(sorted_orders(orders[w]));
                    assert(orders[w][s as int] <= orders[w][s as int + 1]);
                }
            } else {
                assert(cand(orders, moved, i) == cand(orders, cursors, i));
            }
        }
        lemma_merge_elems_lower_bound(orders, moved, o0, k0);
        assert(rank(kind_at(k0)) == k0);
        assert(rank(kind_at(w)) == w);
        let es = merge_elems(orders, cursors);
        assert(es == seq![(os, kind_at(w))] + merge_elems(orders, moved));
        assert forall|t: int| 0 <= t < es.len() implies elem_le(
            (o0, kind_at(k0)),
            #[trigger] es[t],
        ) by {
            if t > 0 {
                assert(es[t] == merge_elems(orders, moved)[t - 1]);
            }
        }
    }
}

/// For sorted inputs, the element-wise merge is sorted by paint key.
proof fn lemma_merge_elems_sorted_from(orders: Seq<Seq<u32>>, cursors: Seq<usize>)
    requires
        state_wf(orders, cursors),
        all_sorted(orders),
    ensures
        sorted_elems(merge_elems(orders, cursors)),
    decreases sum_remaining(orders, cursors, KIND_COUNT as int),
{
    if !exhausted(orders, cursors) {
        lemma_winner_props(orders, cursors);
        let w = winner(orders, cursors);
        let s = cursors[w];
        let os = orders[w][s as int];
        let moved = cursors.update(w, (s + 1) as usize);
        lemma_sum_remaining_update(orders, cursors, w, (s + 1) as usize, KIND_COUNT as int);
        lemma_sum_remaining_nonneg(orders, moved, KIND_COUNT as int);
        lemma_merge_elems_sorted_from(orders, moved);
        assert forall|i: int| 0 <= i < KIND_COUNT implies !cand_lt(
            #[trigger] cand(orders, moved, i),
            i,
            Some(os),
            w,
        ) by {
            if i == w {
                if moved[w] < orders[w].len() {
                    assert(sorted_orders(orders[w]));
                    assert(orders[w][s as int] <= orders[w][s as int + 1]);
                }
            } else {
                assert(cand(orders, moved, i) == cand(orders, cursors, i));
                assert(!cand_lt(cand(orders, cursors, i), i, cand(orders, cursors, w), w));
            }
        }
        lemma_merge_elems_lower_bound(orders, moved, os, w);
        let es = merge_elems(orders, cursors);
        let tail = merge_elems(orders, moved);
        assert(es == seq![(os, kind_at(w))] + tail);
        assert(rank(kind_at(w)) == w);
        assert forall|i: int, j: int| 0 <= i <= j < es.len() implies elem_le(
            #[trigger] es[i],
            #[trigger] es[j],
        ) by {
            if i == 0 {
                if j > 0 {
                    assert(es[j] == tail[j - 1]);
                }
            } else {
                assert(es[i] == tail[i - 1]);
                assert(es[j] == tail[j - 1]);
            }
        }
    }
}

/// For draw-order-sorted inputs the element-wise merge is itself sorted by
/// `(order, kind-priority)`: together with [`lemma_global_order`] and
/// [`lemma_coverage`] this makes the flattened emission the stable sort of
/// all primitives by that key.
pub proof fn lemma_merge_elems_sorted(orders: Seq<Seq<u32>>)
    requires
        state_wf(orders, zero_cursors()),
        all_sorted(orders),
    ensures
        sorted_elems(merge_elems(orders, zero_cursors())),
{
    lemma_merge_elems_sorted_from(orders, zero_cursors());
}

/// Any scene that fits in memory gives a well-formed starting cursor state.
proof fn lemma_scene_state_wf<T: Copy>(s: Scene<T>)
    requires
        s.fits(),
    ensures
        state_wf(s.kind_orders(), zero_cursors()),
{
}

/// Coverage, over scenes: for every kind, the index ranges of that kind's
/// emitted batches chain over the kind's full sequence — every primitive is
/// drawn exactly once, in the order the builder appended it.
pub proof fn lemma_scene_coverage<T: Copy>(s: Scene<T>, k: int)
    requires
        s.fits(),
        0 <= k < KIND_COUNT,
    ensures
        chained(
            batches_of_kind(s.batches_spec(), kind_at(k)),
            0,
            s.kind_orders()[k].len() as int,
        ),
{
    lemma_scene_state_wf(s);
    lemma_coverage(s.kind_orders(), k);
}

/// Global order equivalence, over scenes: the emitted batches, flattened into
/// their primitives' `(order, kind)` keys, equal the stable element-wise merge
/// of the scene's primitives by `(order, kind-priority)`; for a scene obeying
/// the sort discipline that merge is sorted by paint key.
pub proof fn lemma_scene_global_order<T: Copy>(s: Scene<T>)
    requires
        s.fits(),
    ensures
        flatten_elems(s.kind_orders(), s.batches_spec()) == merge_elems(
            s.kind_orders(),
            zero_cursors(),
        ),
        s.sorted_by_order() ==> sorted_elems(merge_elems(s.kind_orders(), zero_cursors())),
        forall|k: int|
            0 <= k < KIND_COUNT ==> elems_of_kind(
                merge_elems(s.kind_orders(), zero_cursors()),
                kind_at(k),
            ) == #[trigger] s.kind_orders()[k],
{
    lemma_scene_state_wf(s);
    lemma_global_order(s.kind_orders());
    if s.sorted_by_order() {
        assert(all_sorted(s.kind_orders()));
        lemma_merge_elems_sorted(s.kind_orders());
    }
    assert forall|k: int| 0 <= k < KIND_COUNT implies elems_of_kind(
        merge_elems(s.kind_orders(), zero_cursors()),
        kind_at(k),
    ) == #[trigger] s.kind_orders()[k] by {
        lemma_merge_elems_projection(s.kind_orders(), k);
    }
}

/// Maximality, over scenes: no two consecutive emitted batches share a kind.
pub proof fn lemma_scene_maximality<T: Copy>(s: Scene<T>)
    requires
        s.fits(),
    ensures
        forall|i: int|
            0 <= i < s.batches_spec().len() - 1 ==> #[trigger] s.batches_spec()[i].kind
                != s.batches_spec()[i + 1].kind,
{
    lemma_scene_state_wf(s);
    lemma_maximality(s.kind_orders());
}

/// Emptiness: an empty scene yields zero batches.
pub proof fn lemma_scene_empty<T: Copy>(s: Scene<T>)
    requires
        s.quads@.len() == 0,
        s.monochrome_sprites@.len() == 0,
    ensures
        s.batches_spec() == Seq::<Batch>::empty(),
{
    lemma_scene_state_wf(s);
    lemma_empty(s.kind_orders());
}

/// Singleton: a scene with exactly one primitive yields exactly one batch, of
/// length one, for that primitive's kind.
pub proof fn lemma_scene_singleton<T: Copy>(s: Scene<T>)
    requires
        s.quads@.len() + s.monochrome_sprites@.len() == 1,
    ensures
        s.batches_spec() == seq![
            Batch {
                kind: (if s.quads@.len() == 1 {
                    PrimitiveKind::Quad
                } else {
                    PrimitiveKind::MonochromeSprite
                }),
                start: 0,
                end: 1,
            },
        ],
{
    lemma_scene_state_wf(s);
    if s.quads@.len() == 1 {
        lemma_singleton(s.kind_orders(), 0);
    } else {
        lemma_singleton(s.kind_orders(), 1);
    }
}

/// A scene populated in one kind only yields exactly one batch spanning that
/// kind's whole sequence.
pub proof fn lemma_scene_single_kind<T: Copy>(s: Scene<T>, k: int)
    requires
        s.fits(),
        0 <= k < KIND_COUNT,
        s.kind_orders()[k].len() > 0,
        forall|i: int|
            0 <= i < KIND_COUNT && i != k ==> #[trigger] s.kind_orders()[i].len() == 0,
    ensures
        s.batches_spec() == seq![
            Batch { kind: kind_at(k), start: 0, end: s.kind_orders()[k].len() as usize },
        ],
{
    lemma_scene_state_wf(s);
    lemma_single_kind(s.kind_orders(), k);
}

} // verus!

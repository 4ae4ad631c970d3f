//! The scene: one draw-order-sorted sequence of primitives per kind, and the
//! entry points that hand its contents to the compositor.

use vstd::prelude::*;

use crate::color::Hsla;
use crate::compositor::Batch;
use crate::compositor::BatchIterator;
use crate::compositor::DrawOrder;
use crate::compositor::KIND_COUNT;
use crate::compositor::lemma_sorted_from_adjacent;
use crate::compositor::merge_batches;
use crate::compositor::sorted_orders;
use crate::compositor::zero_cursors;
use crate::geometry::Bounds;
use crate::geometry::Corners;
use crate::geometry::Edges;

verus! {

/// A filled, bordered, rounded rectangle.
///
/// The field layout (including the padding slot after the 32-bit order) is the
/// record the rendering backend uploads verbatim for one instanced draw call.
#[derive(Debug, Clone, Copy, PartialEq, Eq)]
pub struct Quad<T: Copy> {
    pub order: DrawOrder,
    /// Unused; keeps the following vector fields 8-byte aligned in the
    /// GPU-visible record layout.
    pub pad: u32,
    pub bounds: Bounds<T>,
    pub background: Hsla<T>,
    pub border_color: Hsla<T>,
    pub corner_radii: Corners<T>,
    pub border_widths: Edges<T>,
}

/// A monochrome sprite: bounds filled with a single color.
#[derive(Debug, Clone, Copy, PartialEq, Eq)]
pub struct MonochromeSprite<T: Copy> {
    pub order: DrawOrder,
    pub bounds: Bounds<T>,
    pub color: Hsla<T>,
}

/// A primitive of any kind, as handed to [`Scene::add`].
#[derive(Debug, Clone, Copy, PartialEq, Eq)]
pub enum Primitive<T: Copy> {
    Quad(Quad<T>),
    MonochromeSprite(MonochromeSprite<T>),
}

/// A scene holds one sequence of primitives per kind, in insertion order.
///
/// The compositor merges these sequences; it relies on each one being
/// non-decreasing by draw order (see [`Scene::sorted_by_order`]) and performs
/// no sort of its own. Appending out of order is not detected and silently
/// yields batches in the wrong paint order.
pub struct Scene<T: Copy> {
    pub quads: Vec<Quad<T>>,
    pub monochrome_sprites: Vec<MonochromeSprite<T>>,
}

impl<T: Copy> Scene<T> {
    /// The per-kind draw-order sequences, indexed by kind priority.
    pub open spec fn kind_orders(self) -> Seq<Seq<u32>> {
        seq![
            self.quads@.map_values(|q: Quad<T>| q.order),
            self.monochrome_sprites@.map_values(|m: MonochromeSprite<T>| m.order),
        ]
    }

    /// Every kind's sequence is non-decreasing by draw order: the compositor's
    /// input discipline, which the scene builder must maintain.
    pub open spec fn sorted_by_order(self) -> bool {
        forall|k: int| 0 <= k < KIND_COUNT ==> sorted_orders(#[trigger] self.kind_orders()[k])
    }

    /// A machine bound met by every scene a program can actually hold: no
    /// kind's sequence is longer than a `usize` can index.
    pub open spec fn fits(self) -> bool {
        &&& self.quads@.len() <= usize::MAX
        &&& self.monochrome_sprites@.len() <= usize::MAX
    }

    /// The batch sequence a compositing pass over this scene emits.
    pub open spec fn batches_spec(self) -> Seq<Batch> {
        merge_batches(self.kind_orders(), zero_cursors())
    }

    /// An empty scene: no primitives of any kind.
    pub fn new() -> (s: Scene<T>)
        ensures
            s.quads@ == Seq::<Quad<T>>::empty(),
            s.monochrome_sprites@ == Seq::<MonochromeSprite<T>>::empty(),
    {
        Scene { quads: Vec::new(), monochrome_sprites: Vec::new() }
    }

    /// Appends a primitive to its kind's sequence. Keeping each sequence
    /// non-decreasing by draw order is the caller's responsibility.
    pub fn add(&mut self, prim: Primitive<T>)
        ensures
            (match prim {
                Primitive::Quad(q) => final(self).quads@ == old(self).quads@.push(q)
                    && final(self).monochrome_sprites@ == old(self).monochrome_sprites@,
                Primitive::MonochromeSprite(m) => final(self).monochrome_sprites@
                    == old(self).monochrome_sprites@.push(m)
                    && final(self).quads@ == old(self).quads@,
            }),
    {
        match prim {
            Primitive::Quad(q) => self.quads.push(q),
            Primitive::MonochromeSprite(m) => self.monochrome_sprites.push(m),
        }
    }

    /// Whether every kind's sequence really is non-decreasing by draw order:
    /// the executable form of [`Scene::sorted_by_order`]. The compositor never
    /// runs this itself — a violated sort discipline silently yields batches
    /// in the wrong paint order — but a builder can assert it in debug runs.
    pub fn is_sorted_by_order(&self) -> (r: bool)
        ensures
            r == self.sorted_by_order(),
    {
        let mut quads_ok = true;
        let mut i: usize = 1;
        while i < self.quads.len()
            invariant
                1 <= i,
                i < self.quads@.len() || i == 1 || i == self.quads@.len(),
                quads_ok == (forall|t: int|
                    0 <= t < i - 1 ==> (#[trigger] self.quads@[t].order) <= self.quads@[t
                        + 1].order),
            decreases self.quads@.len() - i,
        {
            if self.quads[i - 1].order > self.quads[i].order {
                quads_ok = false;
            }
            i += 1;
        }
        let mut sprites_ok = true;
        let mut i: usize = 1;
        while i < self.monochrome_sprites.len()
            invariant
                1 <= i,
                i < self.monochrome_sprites@.len() || i == 1 || i
                    == self.monochrome_sprites@.len(),
                sprites_ok == (forall|t: int|
                    0 <= t < i - 1 ==> (#[trigger] self.monochrome_sprites@[t].order)
                        <= self.monochrome_sprites@[t + 1].order),
            decreases self.monochrome_sprites@.len() - i,
        {
            if self.monochrome_sprites[i - 1].order > self.monochrome_sprites[i].order {
                sprites_ok = false;
            }
            i += 1;
        }
        let r = quads_ok && sprites_ok;
        proof {
            let qs = self.quads@.map_values(|q: Quad<T>| q.order);
            let ss = self.monochrome_sprites@.map_values(|m: MonochromeSprite<T>| m.order);
            assert(self.kind_orders()[0] == qs);
            assert(self.kind_orders()[1] == ss);
            if quads_ok {
                assert forall|t: int| 0 <= t < qs.len() - 1 implies #[trigger] qs[t] <= qs[t
                    + 1] by {
                    assert(self.quads@[t].order <= self.quads@[t + 1].order);
                }
                lemma_sorted_from_adjacent(qs);
            } else {
                let t = choose|t: int|
                    0 <= t < self.quads@.len() - 1 && !((#[trigger] self.quads@[t].order)
                        <= self.quads@[t + 1].order);
                assert(qs[t] > qs[t + 1]);
                assert(!sorted_orders(qs));
            }
            if sprites_ok {
                assert forall|t: int| 0 <= t < ss.len() - 1 implies #[trigger] ss[t] <= ss[t
                    + 1] by {
                    assert(self.monochrome_sprites@[t].order
                        <= self.monochrome_sprites@[t + 1].order);
                }
                lemma_sorted_from_adjacent(ss);
            } else {
                let t = choose|t: int|
                    0 <= t < self.monochrome_sprites@.len() - 1 && !((
                    #[trigger] self.monochrome_sprites@[t].order)
                        <= self.monochrome_sprites@[t + 1].order);
                assert(ss[t] > ss[t + 1]);
                assert(!sorted_orders(ss));
            }
            if r {
                assert forall|k: int| 0 <= k < KIND_COUNT implies sorted_orders(
                    #[trigger] self.kind_orders()[k],
                ) by {
                    if k == 0 {
                        assert(sorted_orders(qs));
                    } else {
                        assert(sorted_orders(ss));
                    }
                }
            }
        }
        r
    }

    /// Builds a fresh compositor over the scene's current contents. The
    /// iterator starts before the first batch; the scene must not change while
    /// it is being consumed (it borrows nothing, but works on a snapshot of
    /// the draw orders taken here).
    pub fn batches(&self) -> (it: BatchIterator)
        ensures
            it.wf(),
            it.orders_view() == self.kind_orders(),
            it.cursors() == zero_cursors(),
            it.remaining() == self.batches_spec(),
    {
        let mut quad_orders: Vec<u32> = Vec::new();
        let mut i: usize = 0;
        while i < self.quads.len()
            invariant
                i <= self.quads@.len(),
                quad_orders@.len() == i,
                forall|j: int| 0 <= j < i ==> quad_orders@[j] == self.quads@[j].order,
            decreases self.quads@.len() - i,
        {
            quad_orders.push(self.quads[i].order);
            i += 1;
        }
        let mut sprite_orders: Vec<u32> = Vec::new();
        let mut i: usize = 0;
        while i < self.monochrome_sprites.len()
            invariant
                i <= self.monochrome_sprites@.len(),
                sprite_orders@.len() == i,
                forall|j: int|
                    0 <= j < i ==> sprite_orders@[j] == self.monochrome_sprites@[j].order,
            decreases self.monochrome_sprites@.len() - i,
        {
            sprite_orders.push(self.monochrome_sprites[i].order);
            i += 1;
        }
        proof {
            assert(quad_orders@ =~= self.quads@.map_values(|q: Quad<T>| q.order));
            assert(sprite_orders@ =~= self.monochrome_sprites@.map_values(
                |m: MonochromeSprite<T>| m.order,
            ));
        }
        let mut orders: Vec<Vec<u32>> = Vec::new();
        orders.push(quad_orders);
        orders.push(sprite_orders);
        proof {
            assert(orders@.map_values(|v: Vec<u32>| v@) =~= self.kind_orders());
        }
        BatchIterator::new(orders)
    }

    /// Runs a whole compositing pass eagerly: every batch, in emission order.
    pub fn all_batches(&self) -> (r: Vec<Batch>)
        ensures
            r@ == self.batches_spec(),
    {
        let mut it = self.batches();
        let mut out: Vec<Batch> = Vec::new();
        proof {
            assert(out@ + it.remaining() =~= it.remaining());
        }
        let mut more = true;
        while more
            invariant
                it.wf(),
                more ==> out@ + it.remaining() == self.batches_spec(),
                !more ==> out@ == self.batches_spec() && it.remaining().len() == 0,
            decreases it.remaining().len() + (if more { 1int } else { 0int }),
        {
            let ghost prev_out = out@;
            let ghost prev_rem = it.remaining();
            match it.next() {
                Some(b) => {
                    out.push(b);
                    proof {
                        assert(prev_rem =~= seq![b] + it.remaining());
                        assert(out@ + it.remaining() =~= prev_out + prev_rem);
                    }
                },
                None => {
                    more = false;
                    proof {
                        assert(out@ + it.remaining() =~= out@);
                    }
                },
            }
        }
        out
    }
}

impl<T: Copy + PartialEq> PartialOrd for Quad<T> {
    /// Rectangles compare by draw order alone; the payload does not count.
    fn partial_cmp(&self, other: &Self) -> (r: Option<core::cmp::Ordering>) {
        if self.order < other.order {
            Some(core::cmp::Ordering::Less)
        } else if self.order == other.order {
            Some(core::cmp::Ordering::Equal)
        } else {
            Some(core::cmp::Ordering::Greater)
        }
    }
}

impl<T: Copy + PartialEq> vstd::std_specs::cmp::PartialOrdSpecImpl for Quad<T> {
    open spec fn obeys_partial_cmp_spec() -> bool {
        true
    }

    open spec fn partial_cmp_spec(&self, other: &Self) -> Option<core::cmp::Ordering> {
        if self.order < other.order {
            Some(core::cmp::Ordering::Less)
        } else if self.order == other.order {
            Some(core::cmp::Ordering::Equal)
        } else {
            Some(core::cmp::Ordering::Greater)
        }
    }
}

impl<T: Copy + PartialEq> PartialOrd for MonochromeSprite<T> {
    /// Sprites compare by draw order alone; the payload does not count.
    fn partial_cmp(&self, other: &Self) -> (r: Option<core::cmp::Ordering>) {
        if self.order < other.order {
            Some(core::cmp::Ordering::Less)
        } else if self.order == other.order {
            Some(core::cmp::Ordering::Equal)
        } else {
            Some(core::cmp::Ordering::Greater)
        }
    }
}

impl<T: Copy + PartialEq> vstd::std_specs::cmp::PartialOrdSpecImpl for MonochromeSprite<T> {
    open spec fn obeys_partial_cmp_spec() -> bool {
        true
    }

    open spec fn partial_cmp_spec(&self, other: &Self) -> Option<core::cmp::Ordering> {
        if self.order < other.order {
            Some(core::cmp::Ordering::Less)
        } else if self.order == other.order {
            Some(core::cmp::Ordering::Equal)
        } else {
            Some(core::cmp::Ordering::Greater)
        }
    }
}

impl<T: Copy> From<Quad<T>> for Primitive<T> {
    /// Wraps a rectangle as a primitive.
    fn from(quad: Quad<T>) -> (p: Primitive<T>) {
        Primitive::Quad(quad)
    }
}

impl<T: Copy> vstd::std_specs::convert::FromSpecImpl<Quad<T>> for Primitive<T> {
    open spec fn obeys_from_spec() -> bool {
        true
    }

    open spec fn from_spec(quad: Quad<T>) -> Primitive<T> {
        Primitive::Quad(quad)
    }
}

impl<T: Copy> From<MonochromeSprite<T>> for Primitive<T> {
    /// Wraps a sprite as a primitive.
    fn from(sprite: MonochromeSprite<T>) -> (p: Primitive<T>) {
        Primitive::MonochromeSprite(sprite)
    }
}

impl<T: Copy> vstd::std_specs::convert::FromSpecImpl<MonochromeSprite<T>> for Primitive<T> {
    open spec fn obeys_from_spec() -> bool {
        true
    }

    open spec fn from_spec(sprite: MonochromeSprite<T>) -> Primitive<T> {
        Primitive::MonochromeSprite(sprite)
    }
}

} // verus!

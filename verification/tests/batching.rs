//! Batching behaviour of the compositor on concrete scenes.

use compositor::Batch;
use compositor::Bounds;
use compositor::Corners;
use compositor::Edges;
use compositor::Hsla;
use compositor::MonochromeSprite;
use compositor::Point;
use compositor::PrimitiveKind;
use compositor::Quad;
use compositor::Scene;
use compositor::Size;

fn color(l: f32) -> Hsla<f32> {
    Hsla { h: 0.0, s: 0.0, l, a: 1.0 }
}

fn bounds(x: f32, y: f32) -> Bounds<f32> {
    Bounds { origin: Point { x, y }, size: Size { width: 10.0, height: 10.0 } }
}

fn quad(order: u32) -> Quad<f32> {
    Quad {
        order,
        pad: 0,
        bounds: bounds(1.0, 2.0),
        background: color(0.5),
        border_color: color(0.1),
        corner_radii: Corners {
            top_left: 1.0,
            top_right: 1.0,
            bottom_left: 1.0,
            bottom_right: 1.0,
        },
        border_widths: Edges { top: 1.0, right: 1.0, bottom: 1.0, left: 1.0 },
    }
}

fn sprite(order: u32) -> MonochromeSprite<f32> {
    MonochromeSprite { order, bounds: bounds(3.0, 4.0), color: color(0.9) }
}

fn scene_of(quad_orders: &[u32], sprite_orders: &[u32]) -> Scene<f32> {
    let mut s = Scene::new();
    for &o in quad_orders {
        s.quads.push(quad(o));
    }
    for &o in sprite_orders {
        s.monochrome_sprites.push(sprite(o));
    }
    s
}

fn batch(kind: PrimitiveKind, start: usize, end: usize) -> Batch {
    Batch { kind, start, end }
}

#[test]
fn empty_scene_yields_no_batches() {
    let s: Scene<f32> = Scene::new();
    assert_eq!(s.all_batches(), vec![]);
}

#[test]
fn singleton_quad_yields_one_batch_of_length_one() {
    let s = scene_of(&[42], &[]);
    assert_eq!(s.all_batches(), vec![batch(PrimitiveKind::Quad, 0, 1)]);
}

#[test]
fn singleton_sprite_yields_one_batch_of_length_one() {
    let s = scene_of(&[], &[42]);
    assert_eq!(s.all_batches(), vec![batch(PrimitiveKind::MonochromeSprite, 0, 1)]);
}

#[test]
fn single_kind_yields_one_batch_spanning_everything() {
    let s = scene_of(&[0, 1, 1, 9], &[]);
    assert_eq!(s.all_batches(), vec![batch(PrimitiveKind::Quad, 0, 4)]);
}

#[test]
fn tie_break_places_rectangle_before_sprite() {
    let s = scene_of(&[5], &[5]);
    assert_eq!(
        s.all_batches(),
        vec![
            batch(PrimitiveKind::Quad, 0, 1),
            batch(PrimitiveKind::MonochromeSprite, 0, 1),
        ]
    );
}

#[test]
fn tie_break_is_independent_of_insertion_order() {
    // Populate the sprite sequence before the quad sequence; the emitted
    // batches must still place the rectangle first.
    let mut s: Scene<f32> = Scene::new();
    s.monochrome_sprites.push(sprite(5));
    s.quads.push(quad(5));
    assert_eq!(
        s.all_batches(),
        vec![
            batch(PrimitiveKind::Quad, 0, 1),
            batch(PrimitiveKind::MonochromeSprite, 0, 1),
        ]
    );
}

#[test]
fn coalescing_scenario() {
    let s = scene_of(&[1, 1, 2], &[3]);
    assert_eq!(
        s.all_batches(),
        vec![
            batch(PrimitiveKind::Quad, 0, 3),
            batch(PrimitiveKind::MonochromeSprite, 0, 1),
        ]
    );
}

#[test]
fn interleaving_scenario() {
    let s = scene_of(&[1, 5], &[3]);
    assert_eq!(
        s.all_batches(),
        vec![
            batch(PrimitiveKind::Quad, 0, 1),
            batch(PrimitiveKind::MonochromeSprite, 0, 1),
            batch(PrimitiveKind::Quad, 1, 2),
        ]
    );
}

#[test]
fn mixed_scene_exact_batches() {
    let s = scene_of(&[1, 3, 3, 7], &[2, 3, 8, 9]);
    assert_eq!(
        s.all_batches(),
        vec![
            batch(PrimitiveKind::Quad, 0, 1),
            batch(PrimitiveKind::MonochromeSprite, 0, 1),
            batch(PrimitiveKind::Quad, 1, 3),
            batch(PrimitiveKind::MonochromeSprite, 1, 2),
            batch(PrimitiveKind::Quad, 3, 4),
            batch(PrimitiveKind::MonochromeSprite, 2, 4),
        ]
    );
}

#[test]
fn coverage_reconstructs_every_kind_exactly_once() {
    let s = scene_of(&[1, 3, 3, 7, 7, 7], &[2, 3, 8, 9, 9]);
    let batches = s.all_batches();
    let mut next_quad = 0;
    let mut next_sprite = 0;
    for b in &batches {
        assert!(b.start < b.end, "batches are non-empty");
        match b.kind {
            PrimitiveKind::Quad => {
                assert_eq!(b.start, next_quad, "quad ranges chain seamlessly");
                next_quad = b.end;
            }
            PrimitiveKind::MonochromeSprite => {
                assert_eq!(b.start, next_sprite, "sprite ranges chain seamlessly");
                next_sprite = b.end;
            }
        }
    }
    assert_eq!(next_quad, s.quads.len());
    assert_eq!(next_sprite, s.monochrome_sprites.len());
}

#[test]
fn flattened_emission_equals_stable_sort_by_order_and_kind() {
    let quad_orders = [1u32, 3, 3, 7, 7, 7];
    let sprite_orders = [2u32, 3, 8, 9, 9];
    let s = scene_of(&quad_orders, &sprite_orders);
    let mut flattened: Vec<(u32, u8)> = Vec::new();
    for b in s.all_batches() {
        for i in b.start..b.end {
            match b.kind {
                PrimitiveKind::Quad => flattened.push((s.quads[i].order, 0)),
                PrimitiveKind::MonochromeSprite => {
                    flattened.push((s.monochrome_sprites[i].order, 1))
                }
            }
        }
    }
    let mut reference: Vec<(u32, u8)> = quad_orders
        .iter()
        .map(|&o| (o, 0))
        .chain(sprite_orders.iter().map(|&o| (o, 1)))
        .collect();
    reference.sort(); // stable sort by (order, kind priority)
    assert_eq!(flattened, reference);
}

#[test]
fn no_two_consecutive_batches_share_a_kind() {
    let s = scene_of(&[1, 2, 2, 4, 4, 6], &[2, 3, 4, 5, 6]);
    let batches = s.all_batches();
    for pair in batches.windows(2) {
        assert_ne!(pair[0].kind, pair[1].kind);
    }
}

#[test]
fn largest_order_is_a_real_key_not_a_sentinel() {
    let s = scene_of(&[], &[u32::MAX]);
    assert_eq!(s.all_batches(), vec![batch(PrimitiveKind::MonochromeSprite, 0, 1)]);
    let both = scene_of(&[u32::MAX], &[u32::MAX]);
    assert_eq!(
        both.all_batches(),
        vec![
            batch(PrimitiveKind::Quad, 0, 1),
            batch(PrimitiveKind::MonochromeSprite, 0, 1),
        ]
    );
}

#[test]
fn iterator_is_lazy_and_stays_exhausted() {
    let s = scene_of(&[1, 5], &[3]);
    let mut it = s.batches();
    assert_eq!(it.next(), Some(batch(PrimitiveKind::Quad, 0, 1)));
    assert_eq!(it.next(), Some(batch(PrimitiveKind::MonochromeSprite, 0, 1)));
    assert_eq!(it.next(), Some(batch(PrimitiveKind::Quad, 1, 2)));
    assert_eq!(it.next(), None);
    assert_eq!(it.next(), None);
}

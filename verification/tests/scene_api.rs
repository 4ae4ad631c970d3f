//! The scene-building surface: value types, primitives and `Scene::add`.

use compositor::Bounds;
use compositor::Corners;
use compositor::Edges;
use compositor::Hsla;
use compositor::MonochromeSprite;
use compositor::Point;
use compositor::Primitive;
use compositor::Quad;
use compositor::Scene;
use compositor::Size;

fn color() -> Hsla<f32> {
    Hsla { h: 120.0, s: 1.0, l: 0.5, a: 1.0 }
}

fn bounds() -> Bounds<f32> {
    Bounds {
        origin: Point { x: 10.0, y: 10.0 },
        size: Size { width: 200.0, height: 200.0 },
    }
}

fn quad(order: u32) -> Quad<f32> {
    Quad {
        order,
        pad: 0,
        bounds: bounds(),
        background: color(),
        border_color: color(),
        corner_radii: Corners {
            top_left: 15.0,
            top_right: 15.0,
            bottom_left: 15.0,
            bottom_right: 15.0,
        },
        border_widths: Edges { top: 1.0, right: 1.0, bottom: 1.0, left: 1.0 },
    }
}

fn sprite(order: u32) -> MonochromeSprite<f32> {
    MonochromeSprite { order, bounds: bounds(), color: color() }
}

#[test]
fn add_appends_to_the_matching_kind() {
    let mut s: Scene<f32> = Scene::new();
    s.add(Primitive::Quad(quad(1)));
    s.add(Primitive::MonochromeSprite(sprite(2)));
    s.add(Primitive::Quad(quad(3)));
    assert_eq!(s.quads.len(), 2);
    assert_eq!(s.monochrome_sprites.len(), 1);
    assert_eq!(s.quads[0].order, 1);
    assert_eq!(s.quads[1].order, 3);
    assert_eq!(s.monochrome_sprites[0].order, 2);
}

#[test]
fn primitives_convert_from_their_records() {
    let p: Primitive<f32> = Primitive::from(quad(7));
    match p {
        Primitive::Quad(q) => assert_eq!(q.order, 7),
        Primitive::MonochromeSprite(_) => panic!("expected a quad"),
    }
    let p: Primitive<f32> = sprite(9).into();
    match p {
        Primitive::MonochromeSprite(m) => assert_eq!(m.order, 9),
        Primitive::Quad(_) => panic!("expected a sprite"),
    }
}

#[test]
fn value_types_compare_by_fields() {
    assert_eq!(Point { x: 1.0, y: 2.0 }, Point { x: 1.0, y: 2.0 });
    assert_ne!(Point { x: 1.0, y: 2.0 }, Point { x: 2.0, y: 1.0 });
    assert_eq!(Size { width: 3, height: 4 }, Size { width: 3, height: 4 });
    assert_eq!(bounds(), bounds());
    assert_eq!(quad(5), quad(5));
    assert_ne!(quad(5), quad(6));
    assert_eq!(sprite(5), sprite(5));
    assert_eq!(color(), color());
}

#[test]
fn primitive_records_order_by_draw_order_alone() {
    let mut low = quad(1);
    let high = quad(2);
    assert!(low < high);
    low.order = 2;
    low.background.l = 0.25; // payload differences do not count
    assert_eq!(low.partial_cmp(&high), Some(std::cmp::Ordering::Equal));
    assert!(sprite(3) > sprite(2));
    assert_eq!(sprite(3).partial_cmp(&sprite(3)), Some(std::cmp::Ordering::Equal));
}

#[test]
fn sortedness_check_accepts_non_decreasing_orders() {
    let mut s: Scene<f32> = Scene::new();
    assert!(s.is_sorted_by_order());
    s.quads.push(quad(1));
    s.quads.push(quad(1));
    s.quads.push(quad(4));
    s.monochrome_sprites.push(sprite(9));
    assert!(s.is_sorted_by_order());
}

#[test]
fn sortedness_check_flags_a_violation() {
    let mut s: Scene<f32> = Scene::new();
    s.quads.push(quad(4));
    s.quads.push(quad(1));
    assert!(!s.is_sorted_by_order());
    let mut t: Scene<f32> = Scene::new();
    t.monochrome_sprites.push(sprite(4));
    t.monochrome_sprites.push(sprite(1));
    assert!(!t.is_sorted_by_order());
}

#[test]
fn scene_with_integer_scalars_batches_too() {
    // The payload scalar is generic; draw order alone drives batching.
    let mut s: Scene<i64> = Scene::new();
    s.quads.push(Quad {
        order: 4,
        pad: 0,
        bounds: Bounds {
            origin: Point { x: 0, y: 0 },
            size: Size { width: 1, height: 1 },
        },
        background: Hsla { h: 0, s: 0, l: 0, a: 1 },
        border_color: Hsla { h: 0, s: 0, l: 0, a: 1 },
        corner_radii: Corners {
            top_left: 0,
            top_right: 0,
            bottom_left: 0,
            bottom_right: 0,
        },
        border_widths: Edges { top: 0, right: 0, bottom: 0, left: 0 },
    });
    let batches = s.all_batches();
    assert_eq!(batches.len(), 1);
    assert_eq!(batches[0].start, 0);
    assert_eq!(batches[0].end, 1);
}

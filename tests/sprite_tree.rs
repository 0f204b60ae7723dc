use sprite::sprite::Sprite;
use sprite::transform::{DrawItem, Op};

fn tex(w: u32, h: u32) -> Sprite<&'static str> {
    Sprite::from_texture("tex", w, h)
}

/// Applies a transform to a point, the last op first, as a matrix product would.
fn apply(ops: &[Op], p: (f64, f64)) -> (f64, f64) {
    let mut q = p;
    for op in ops.iter().rev() {
        q = match *op {
            Op::Translate(x, y) => (q.0 + x as f64, q.1 + y as f64),
            Op::RotateDeg(d) => {
                let r = (d as f64).to_radians();
                (q.0 * r.cos() - q.1 * r.sin(), q.0 * r.sin() + q.1 * r.cos())
            }
            Op::Scale(sx, sy) => (q.0 * sx as f64, q.1 * sy as f64),
            Op::FlipH => (-q.0, q.1),
            Op::FlipV => (q.0, -q.1),
        };
    }
    q
}

fn close(a: (f64, f64), b: (f64, f64)) -> bool {
    (a.0 - b.0).abs() < 1e-9 && (a.1 - b.1).abs() < 1e-9
}

#[test]
fn new_sprite_defaults() {
    let s = tex(64, 32);
    assert_eq!(s.anchor(), (500, 500));
    assert_eq!(s.position(), (0, 0));
    assert_eq!(s.rotation(), 0);
    assert!(!s.flip_x());
    assert!(!s.flip_y());
    assert_eq!(*s.texture(), "tex");
    assert_eq!(s.texture_size(), (64, 32));
}

#[test]
fn ids_differ() {
    let a = tex(1, 1);
    let b = tex(1, 1);
    assert_ne!(a.id(), b.id());
}

#[test]
fn setters_round_trip() {
    let mut s = tex(8, 8);
    s.set_anchor(0, 1000);
    s.set_position(-3, 7);
    s.set_rotation(45);
    s.set_flip_x(true);
    s.set_flip_y(true);
    s.set_texture("other", 16, 4);
    assert_eq!(s.anchor(), (0, 1000));
    assert_eq!(s.position(), (-3, 7));
    assert_eq!(s.rotation(), 45);
    assert!(s.flip_x());
    assert!(s.flip_y());
    assert_eq!(*s.texture(), "other");
    assert_eq!(s.texture_size(), (16, 4));
}

#[test]
fn bounding_box_centered_64() {
    let mut s = tex(64, 64);
    s.set_position(100, 100);
    assert_eq!(s.bounding_box(), (68, 68, 64, 64));
}

#[test]
fn bounding_box_corner_anchor_and_odd_size() {
    let mut s = tex(63, 10);
    s.set_position(5, 5);
    assert_eq!(s.bounding_box(), (5 - 31, 0, 63, 10));
    s.set_anchor(0, 0);
    assert_eq!(s.bounding_box(), (5, 5, 63, 10));
}

#[test]
fn bounding_box_ignores_rotation() {
    let mut s = tex(20, 40);
    s.set_rotation(90);
    assert_eq!(s.bounding_box(), (-10, -20, 20, 40));
}

#[test]
fn child_found_at_any_depth() {
    let mut root = tex(1, 1);
    let mut mid = tex(1, 1);
    let leaf = tex(1, 1);
    let leaf_id = mid.add_child(leaf);
    let mid_id = root.add_child(mid);
    let other = root.add_child(tex(2, 2));
    assert_eq!(root.child(mid_id).unwrap().id(), mid_id);
    assert_eq!(root.child(leaf_id).unwrap().id(), leaf_id);
    assert_eq!(root.child(other).unwrap().texture_size(), (2, 2));
    let late = root.child_mut(leaf_id).unwrap().add_child(tex(3, 3));
    assert_eq!(root.child(late).unwrap().texture_size(), (3, 3));
}

#[test]
fn child_missing_is_none() {
    let mut root = tex(1, 1);
    root.add_child(tex(1, 1));
    let stranger = tex(1, 1);
    assert!(root.child(stranger.id()).is_none());
    assert!(root.child_mut(stranger.id()).is_none());
    assert!(root.child(root.id()).is_none());
}

#[test]
fn child_mut_changes_the_tree() {
    let mut root = tex(1, 1);
    let mut mid = tex(1, 1);
    let leaf_id = mid.add_child(tex(1, 1));
    root.add_child(mid);
    root.child_mut(leaf_id).unwrap().set_position(9, -9);
    assert_eq!(root.child(leaf_id).unwrap().position(), (9, -9));
}

#[test]
fn draw_order_parent_then_children() {
    let mut root = tex(4, 4);
    let mut a = tex(4, 4);
    let a1 = a.add_child(tex(4, 4));
    let a_id = a.id();
    root.add_child(a);
    let b = root.add_child(tex(4, 4));
    let mut out: Vec<DrawItem> = Vec::new();
    root.draw(&Vec::new(), &mut out);
    let ids: Vec<u128> = out.iter().map(|d| d.id).collect();
    assert_eq!(ids, vec![root.id(), a_id, a1, b]);
    assert_eq!(out[0].rect, (-2, -2, 4, 4));
}

#[test]
fn transforms_compose_down_the_tree() {
    let mut parent = tex(10, 10);
    parent.set_position(10, 20);
    parent.set_rotation(90);
    let mut child = tex(10, 10);
    child.set_position(5, 0);
    let child_id = parent.add_child(child);
    let mut out: Vec<DrawItem> = Vec::new();
    parent.draw(&vec![Op::Translate(1, 1)], &mut out);
    let item = out.iter().find(|d| d.id == child_id).unwrap();
    assert_eq!(
        item.transform,
        vec![
            Op::Translate(1, 1),
            Op::Translate(10, 20),
            Op::RotateDeg(90),
            Op::Scale(1, 1),
            Op::Translate(5, 0),
            Op::RotateDeg(0),
            Op::Scale(1, 1),
        ]
    );
    // parent (1 + 10, 1 + 20), then the child's (5, 0) turned by 90 degrees
    assert!(close(apply(&item.transform, (0.0, 0.0)), (11.0, 26.0)));
}

#[test]
fn flip_x_shifts_x_only() {
    let mut s = tex(64, 32);
    s.set_anchor(250, 250);
    s.set_flip_x(true);
    let mut out: Vec<DrawItem> = Vec::new();
    s.draw(&Vec::new(), &mut out);
    assert_eq!(out[0].transform[3..].to_vec(), vec![Op::Translate(32, 0), Op::FlipH]);
    assert_eq!(out[0].rect, (-16, -8, 64, 32));
}

#[test]
fn flip_y_shifts_y_only() {
    let mut s = tex(64, 32);
    s.set_anchor(250, 250);
    s.set_flip_y(true);
    let mut out: Vec<DrawItem> = Vec::new();
    s.draw(&Vec::new(), &mut out);
    assert_eq!(out[0].transform[3..].to_vec(), vec![Op::Translate(0, 16), Op::FlipV]);
}

#[test]
fn flip_both_and_children_unflipped() {
    let mut s = tex(10, 10);
    s.set_flip_x(true);
    s.set_flip_y(true);
    let c = s.add_child(tex(10, 10));
    let mut out: Vec<DrawItem> = Vec::new();
    s.draw(&Vec::new(), &mut out);
    assert_eq!(
        out[0].transform[3..].to_vec(),
        vec![Op::Translate(0, 0), Op::FlipH, Op::Translate(0, 0), Op::FlipV]
    );
    assert_eq!(out[1].id, c);
    assert_eq!(out[1].transform.len(), 6);
}

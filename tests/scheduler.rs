use sprite::scene::{settle, ActionState, Behavior, Outcome, Scene, Status};
use sprite::sprite::Sprite;
use sprite::transform::DrawItem;

/// Moves its target right by `dt` per update, from where it stood when bound;
/// stops after `steps` updates (never, if `None`).
struct Slide {
    steps: Option<u32>,
    done: u32,
}

impl Behavior<&'static str, i32> for Slide {
    fn bind(&self, target: &Sprite<&'static str>) -> i32 {
        target.position().0
    }

    fn advance(&mut self, state: &mut i32, target: &mut Sprite<&'static str>, dt: u64) -> Status {
        *state += dt as i32;
        let y = target.position().1;
        target.set_position(*state, y);
        self.done += 1;
        match self.steps {
            Some(n) if self.done >= n => Status::Success,
            _ => Status::Running,
        }
    }
}

/// Fails on its first update without touching its target.
struct Refuse;

impl Behavior<&'static str, i32> for Refuse {
    fn bind(&self, _target: &Sprite<&'static str>) -> i32 {
        0
    }

    fn advance(&mut self, _state: &mut i32, _target: &mut Sprite<&'static str>, _dt: u64) -> Status {
        Status::Failure
    }
}

/// The behaviors these tests run, as one type.
enum Act {
    Slide(Slide),
    Refuse(Refuse),
}

impl Behavior<&'static str, i32> for Act {
    fn bind(&self, target: &Sprite<&'static str>) -> i32 {
        match self {
            Act::Slide(b) => b.bind(target),
            Act::Refuse(b) => b.bind(target),
        }
    }

    fn advance(&mut self, state: &mut i32, target: &mut Sprite<&'static str>, dt: u64) -> Status {
        match self {
            Act::Slide(b) => b.advance(state, target, dt),
            Act::Refuse(b) => b.advance(state, target, dt),
        }
    }
}

type World = Scene<&'static str, Act, i32>;

fn slide(steps: Option<u32>) -> Act {
    Act::Slide(Slide { steps, done: 0 })
}

fn tex() -> Sprite<&'static str> {
    Sprite::from_texture("tex", 8, 8)
}

#[test]
fn scene_lookup_at_any_depth() {
    let mut scene: World = Scene::new();
    let mut a = tex();
    let mut b = tex();
    let c = b.add_child(tex());
    let b_id = a.add_child(b);
    let a_id = scene.add_child(a);
    assert_eq!(scene.child(a_id).unwrap().id(), a_id);
    assert_eq!(scene.child(b_id).unwrap().id(), b_id);
    assert_eq!(scene.child(c).unwrap().id(), c);
    let d = scene.child_mut(c).unwrap().add_child(tex());
    assert_eq!(scene.child(d).unwrap().id(), d);
    assert!(scene.child(tex().id()).is_none());
}

#[test]
fn success_on_first_update_is_gone() {
    let mut scene: World = Scene::new();
    let id = scene.add_child(tex());
    scene.run_action(id, slide(Some(1)));
    assert_eq!(scene.running_count(id), 1);
    let log = scene.update(4);
    assert_eq!(log, vec![(id, vec![Outcome::Success])]);
    assert_eq!(scene.running_count(id), 0);
    assert_eq!(scene.child(id).unwrap().position(), (4, 0));
    assert!(scene.update(4).is_empty());
    assert_eq!(scene.child(id).unwrap().position(), (4, 0));
}

#[test]
fn endless_behavior_carries_its_state() {
    let mut scene: World = Scene::new();
    let mut s = tex();
    s.set_position(10, 3);
    let id = scene.add_child(s);
    scene.run_action(id, slide(None));
    for _ in 0..3 {
        let log = scene.update(5);
        assert_eq!(log, vec![(id, vec![Outcome::Running])]);
        assert_eq!(scene.running_count(id), 1);
    }
    assert_eq!(scene.child(id).unwrap().position(), (25, 3));
}

#[test]
fn binding_reads_the_target_at_first_update() {
    let mut scene: World = Scene::new();
    let id = scene.add_child(tex());
    scene.run_action(id, slide(None));
    scene.child_mut(id).unwrap().set_position(100, 0);
    scene.update(1);
    assert_eq!(scene.child(id).unwrap().position(), (101, 0));
}

#[test]
fn two_registrations_run_independently() {
    let mut scene: World = Scene::new();
    let id = scene.add_child(tex());
    scene.run_action(id, slide(Some(1)));
    scene.run_action(id, slide(None));
    assert_eq!(scene.running_count(id), 2);
    let log = scene.update(2);
    assert_eq!(log, vec![(id, vec![Outcome::Success, Outcome::Running])]);
    assert_eq!(scene.running_count(id), 1);
    // both moved it in turn: the second was bound after the first had moved it
    assert_eq!(scene.child(id).unwrap().position(), (4, 0));
    let log = scene.update(2);
    assert_eq!(log, vec![(id, vec![Outcome::Running])]);
    assert_eq!(scene.child(id).unwrap().position(), (6, 0));
}

#[test]
fn failure_is_dropped() {
    let mut scene: World = Scene::new();
    let id = scene.add_child(tex());
    scene.run_action(id, Act::Refuse(Refuse));
    assert_eq!(scene.update(1), vec![(id, vec![Outcome::Failure])]);
    assert_eq!(scene.running_count(id), 0);
}

#[test]
fn missing_target_is_reported() {
    let mut scene: World = Scene::new();
    let ghost = tex().id();
    scene.run_action(ghost, slide(None));
    assert_eq!(scene.update(1), vec![(ghost, vec![Outcome::TargetMissing])]);
    assert_eq!(scene.running_count(ghost), 0);
}

#[test]
fn entries_keep_insertion_order() {
    let mut scene: World = Scene::new();
    let a = scene.add_child(tex());
    let b = scene.add_child(tex());
    scene.run_action(b, slide(None));
    scene.run_action(a, slide(Some(2)));
    scene.run_action(b, slide(Some(1)));
    let log = scene.update(1);
    assert_eq!(
        log,
        vec![(b, vec![Outcome::Running, Outcome::Success]), (a, vec![Outcome::Running])]
    );
    let log = scene.update(1);
    assert_eq!(log, vec![(b, vec![Outcome::Running]), (a, vec![Outcome::Success])]);
    assert_eq!(scene.running_count(a), 0);
    assert_eq!(scene.running_count(b), 1);
}

#[test]
fn scene_draws_roots_in_order() {
    let mut scene: World = Scene::new();
    let mut a = tex();
    let a1 = a.add_child(tex());
    let a_id = scene.add_child(a);
    let b = scene.add_child(tex());
    let mut out: Vec<DrawItem> = Vec::new();
    scene.draw(&Vec::new(), &mut out);
    let ids: Vec<u128> = out.iter().map(|d| d.id).collect();
    assert_eq!(ids, vec![a_id, a1, b]);
}

#[test]
fn settle_keeps_only_running_pairs() {
    let (o, kept) = settle(Status::Running, 7u8, 42i32);
    assert_eq!(o, Outcome::Running);
    match kept {
        Some((b, ActionState::Bound(s))) => assert_eq!((b, s), (7, 42)),
        _ => panic!("a running pair is kept, bound"),
    }
    let (o, kept) = settle(Status::Success, 7u8, 42i32);
    assert_eq!(o, Outcome::Success);
    assert!(kept.is_none());
    let (o, kept) = settle(Status::Failure, 7u8, 42i32);
    assert_eq!(o, Outcome::Failure);
    assert!(kept.is_none());
}

#[test]
fn lookup_returns_the_added_sprite() {
    let mut scene: World = Scene::new();
    let mut p = tex();
    p.set_position(3, 4);
    let mut c = Sprite::from_texture("inner", 2, 6);
    c.set_rotation(30);
    let cid = p.add_child(c);
    let pid = scene.add_child(p);
    let found = scene.child(pid).unwrap();
    assert_eq!(found.position(), (3, 4));
    assert_eq!(found.child(cid).unwrap().rotation(), 30);
    let inner = scene.child_mut(cid).unwrap();
    assert_eq!(*inner.texture(), "inner");
    assert_eq!(inner.texture_size(), (2, 6));
    assert_eq!(scene.child_mut(pid).unwrap().id(), pid);
}

use vstd::prelude::*;

use crate::sprite::Sprite;
use crate::transform::{items_view, DrawItem, Op};

verus! {

/// What a behavior reports after it has been advanced.
#[derive(Clone, Copy, Debug, PartialEq, Eq, Structural)]
pub enum Status {
    Running,
    Success,
    Failure,
}

/// What became of one running pair during an update.
#[derive(Clone, Copy, Debug, PartialEq, Eq, Structural)]
pub enum Outcome {
    Running,
    Success,
    Failure,
    /// Its target could not be found in the tree; the pair was dropped.
    TargetMissing,
}

/// The continuation of a running action: none until its first update.
pub enum ActionState<S> {
    Unbound,
    Bound(S),
}

/// A behavior that drives one sprite over time, implemented by the caller: it
/// holds the evaluator's cursor and knows its leaf actions.
pub trait Behavior<T, S> {
    /// A fresh continuation, seeded from the target's attributes as they are now.
    fn bind(&self, target: &Sprite<T>) -> S;

    /// Advances by `dt` against the target, carrying the continuation along.
    fn advance(&mut self, state: &mut S, target: &mut Sprite<T>, dt: u64) -> Status;
}

/// Number of pairs that are still running after an update.
pub open spec fn kept_count(s: Seq<Outcome>) -> nat
    decreases s.len(),
{
    if s.len() == 0 {
        0
    } else {
        kept_count(s.drop_last()) + if s.last() == Outcome::Running {
            1nat
        } else {
            0nat
        }
    }
}

/// The table `(id, number of pairs)` that an update leaves behind, from what became
/// of each pair: entries keep their order, and one with no pair still running goes.
pub open spec fn kept_table(log: Seq<(u128, Seq<Outcome>)>) -> Seq<(u128, nat)>
    decreases log.len(),
{
    if log.len() == 0 {
        seq![]
    } else {
        let prev = kept_table(log.drop_last());
        let c = kept_count(log.last().1);
        if c > 0 {
            prev.push((log.last().0, c))
        } else {
            prev
        }
    }
}

pub open spec fn log_view(log: Seq<(u128, Vec<Outcome>)>) -> Seq<(u128, Seq<Outcome>)> {
    log.map_values(|e: (u128, Vec<Outcome>)| (e.0, e.1@))
}

/// `i` is the first entry of `t` for `id`.
pub open spec fn first_entry(t: Seq<(u128, nat)>, id: u128, i: int) -> bool {
    0 <= i < t.len() && t[i].0 == id && forall|j: int| 0 <= j < i ==> #[trigger] t[j].0 != id
}

/// The pairs kept of an entry are exactly those that reported `Running`.
pub proof fn lemma_kept_count_is_running(s: Seq<Outcome>)
    ensures
        kept_count(s) == s.filter(|o: Outcome| o == Outcome::Running).len(),
    decreases s.len(),
{
    reveal_with_fuel(Seq::filter, 1);
    if s.len() > 0 {
        lemma_kept_count_is_running(s.drop_last());
    }
}

/// An entry with a pair still running stays in the table, with the number of
/// its pairs that are still running.
pub proof fn lemma_entry_kept(log: Seq<(u128, Seq<Outcome>)>, i: int)
    requires
        0 <= i < log.len(),
        kept_count(log[i].1) > 0,
    ensures
        kept_table(log).contains((log[i].0, kept_count(log[i].1))),
    decreases log.len(),
{
    let t = kept_table(log);
    if i == log.len() - 1 {
        assert(t.last() == (log[i].0, kept_count(log[i].1)));
    } else {
        lemma_entry_kept(log.drop_last(), i);
        let prev = kept_table(log.drop_last());
        let k = choose|k: int| 0 <= k < prev.len() && prev[k] == (log[i].0, kept_count(log[i].1));
        assert(t[k] == prev[k]);
    }
}

/// An id none of whose pairs reported `Running` leaves the table.
pub proof fn lemma_finished_absent(log: Seq<(u128, Seq<Outcome>)>, id: u128)
    requires
        forall|i: int, j: int|
            0 <= i < log.len() && log[i].0 == id && 0 <= j < log[i].1.len() ==> #[trigger] log[i].1[j]
                != Outcome::Running,
    ensures
        forall|k: int| 0 <= k < kept_table(log).len() ==> #[trigger] kept_table(log)[k].0 != id,
    decreases log.len(),
{
    if log.len() > 0 {
        lemma_finished_absent(log.drop_last(), id);
        let last = log.last();
        if last.0 == id {
            lemma_no_running_none_kept(last.1);
        }
        let prev = kept_table(log.drop_last());
        let t = kept_table(log);
        assert forall|k: int| 0 <= k < t.len() implies #[trigger] t[k].0 != id by {
            if k < prev.len() {
                assert(t[k] == prev[k]);
            }
        }
    }
}

proof fn lemma_no_running_none_kept(s: Seq<Outcome>)
    requires
        forall|j: int| 0 <= j < s.len() ==> #[trigger] s[j] != Outcome::Running,
    ensures
        kept_count(s) == 0,
    decreases s.len(),
{
    if s.len() > 0 {
        lemma_no_running_none_kept(s.drop_last());
    }
}

/// An entry all of whose pairs still run stays in the table with all of them.
pub proof fn lemma_all_running_kept(log: Seq<(u128, Seq<Outcome>)>, i: int)
    requires
        0 <= i < log.len(),
        log[i].1.len() > 0,
        forall|j: int| 0 <= j < log[i].1.len() ==> #[trigger] log[i].1[j] == Outcome::Running,
    ensures
        kept_table(log).contains((log[i].0, log[i].1.len())),
{
    lemma_all_running_counted(log[i].1);
    lemma_entry_kept(log, i);
}

proof fn lemma_all_running_counted(s: Seq<Outcome>)
    requires
        forall|j: int| 0 <= j < s.len() ==> #[trigger] s[j] == Outcome::Running,
    ensures
        kept_count(s) == s.len(),
    decreases s.len(),
{
    if s.len() > 0 {
        lemma_all_running_counted(s.drop_last());
    }
}

/// The first entry of `t` for `id`, if there is one.
pub open spec fn entry_index(t: Seq<(u128, nat)>, id: u128) -> Option<int> {
    if exists|i: int| first_entry(t, id, i) {
        Some(choose|i: int| first_entry(t, id, i))
    } else {
        None
    }
}

proof fn lemma_entry_index(t: Seq<(u128, nat)>, id: u128, i: int)
    requires
        first_entry(t, id, i),
    ensures
        entry_index(t, id) == Some(i),
{
    let k = choose|k: int| first_entry(t, id, k);
    assert(first_entry(t, id, k));
    if k < i {
        assert(t[k].0 != id);
    } else if i < k {
        assert(t[i].0 != id);
    }
}

/// The table after one more pair is registered against `id`: the first entry
/// for `id` counts one more, or a new entry comes last.
pub open spec fn registered(t: Seq<(u128, nat)>, id: u128) -> Seq<(u128, nat)> {
    match entry_index(t, id) {
        Some(i) => t.update(i, (id, t[i].1 + 1)),
        None => t.push((id, 1nat)),
    }
}

/// The number of pairs running against `id`: those of its first entry.
pub open spec fn count_of(t: Seq<(u128, nat)>, id: u128) -> nat {
    match entry_index(t, id) {
        Some(i) => t[i].1,
        None => 0,
    }
}

/// Registrations against one id add up: each one more pair beside the others.
pub proof fn lemma_registrations_add_up(t: Seq<(u128, nat)>, id: u128)
    ensures
        count_of(registered(t, id), id) == count_of(t, id) + 1,
        count_of(registered(registered(t, id), id), id) == count_of(t, id) + 2,
{
    lemma_registered_count(t, id);
    lemma_registered_count(registered(t, id), id);
}

proof fn lemma_registered_count(t: Seq<(u128, nat)>, id: u128)
    ensures
        count_of(registered(t, id), id) == count_of(t, id) + 1,
{
    let u = registered(t, id);
    match entry_index(t, id) {
        Some(i) => {
            let k = choose|k: int| first_entry(t, id, k);
            lemma_entry_index(t, id, k);
            assert forall|j: int| 0 <= j < i implies #[trigger] u[j].0 != id by {
                assert(t[j].0 != id);
            }
            lemma_entry_index(u, id, i);
        },
        None => {
            let n = t.len() as int;
            assert forall|j: int| 0 <= j < n implies #[trigger] u[j].0 != id by {
                assert(u[j] == t[j]);
                if t[j].0 == id {
                    assert(exists|k: int| first_entry(t, id, k)) by {
                        lemma_first_exists(t, id, j);
                    }
                }
            }
            lemma_entry_index(u, id, n);
        },
    }
}

/// Where some entry is for `id`, a first one is.
proof fn lemma_first_exists(t: Seq<(u128, nat)>, id: u128, j: int)
    requires
        0 <= j < t.len(),
        t[j].0 == id,
    ensures
        exists|k: int| first_entry(t, id, k),
    decreases j,
{
    if forall|m: int| 0 <= m < j ==> #[trigger] t[m].0 != id {
        assert(first_entry(t, id, j));
    } else {
        let m = choose|m: int| 0 <= m < j && #[trigger] t[m].0 == id;
        lemma_first_exists(t, id, m);
    }
}

/// A sprite of `cs` carries `id`, or one of them holds it below.
pub open spec fn roots_has<T>(cs: Seq<Sprite<T>>, id: u128) -> bool {
    exists|i: int|
        0 <= i < cs.len() && ((#[trigger] cs[i]).spec_id() == id || cs[i].has(id))
}

/// `i` is the first sprite of `cs` that carries `id`.
pub open spec fn roots_direct_at<T>(cs: Seq<Sprite<T>>, id: u128, i: int) -> bool {
    0 <= i < cs.len() && cs[i].spec_id() == id && forall|j: int|
        0 <= j < i ==> #[trigger] cs[j].spec_id() != id
}

/// No sprite of `cs` carries `id`, and `i` is the first that holds it below.
pub open spec fn roots_deep_at<T>(cs: Seq<Sprite<T>>, id: u128, i: int) -> bool {
    &&& 0 <= i < cs.len()
    &&& cs[i].has(id)
    &&& forall|j: int| 0 <= j < i ==> !(#[trigger] cs[j]).has(id)
    &&& forall|j: int| 0 <= j < cs.len() ==> #[trigger] cs[j].spec_id() != id
}

/// The sprite a lookup of `id` in `cs` reaches: the first that carries it,
/// else the one found below the first that holds it.
pub open spec fn roots_find<T>(cs: Seq<Sprite<T>>, id: u128) -> Option<Sprite<T>> {
    if exists|i: int| roots_direct_at(cs, id, i) {
        Some(cs[choose|i: int| roots_direct_at(cs, id, i)])
    } else if exists|i: int| roots_deep_at(cs, id, i) {
        cs[choose|i: int| roots_deep_at(cs, id, i)].find(id)
    } else {
        None
    }
}

/// `new` is `old` with the sprite that a lookup of `id` reaches replaced by `sub`.
pub open spec fn roots_replaced<T>(old: Seq<Sprite<T>>, new: Seq<Sprite<T>>, id: u128, sub: Sprite<T>) -> bool {
    exists|i: int|
        #![trigger roots_direct_at(old, id, i)]
        #![trigger roots_deep_at(old, id, i)]
        0 <= i < old.len() && ((roots_direct_at(old, id, i) && new == old.update(i, sub)) || (
        roots_deep_at(old, id, i) && new =~= old.update(i, new[i]) && Sprite::replaced(
            old[i],
            new[i],
            id,
            sub,
        )))
}

proof fn lemma_roots_find_direct<T>(cs: Seq<Sprite<T>>, id: u128, i: int)
    requires
        roots_direct_at(cs, id, i),
    ensures
        roots_find(cs, id) == Some(cs[i]),
{
    let k = choose|k: int| roots_direct_at(cs, id, k);
    assert(roots_direct_at(cs, id, k));
    if k < i {
        assert(cs[k].spec_id() != id);
    } else if i < k {
        assert(cs[i].spec_id() != id);
    }
}

proof fn lemma_roots_find_deep<T>(cs: Seq<Sprite<T>>, id: u128, i: int)
    requires
        roots_deep_at(cs, id, i),
    ensures
        roots_find(cs, id) == cs[i].find(id),
{
    if exists|j: int| roots_direct_at(cs, id, j) {
        let j = choose|j: int| roots_direct_at(cs, id, j);
        assert(cs[j].spec_id() != id);
    }
    let k = choose|k: int| roots_deep_at(cs, id, k);
    assert(roots_deep_at(cs, id, k));
    if k < i {
        assert(!cs[k].has(id));
    } else if i < k {
        assert(!cs[i].has(id));
    }
}

proof fn lemma_roots_find_none<T>(cs: Seq<Sprite<T>>, id: u128)
    requires
        !roots_has(cs, id),
    ensures
        roots_find(cs, id).is_none(),
{
    if exists|j: int| roots_direct_at(cs, id, j) {
        let j = choose|j: int| roots_direct_at(cs, id, j);
        assert(cs[j].spec_id() == id);
    }
    if exists|j: int| roots_deep_at(cs, id, j) {
        let j = choose|j: int| roots_deep_at(cs, id, j);
        assert(cs[j].has(id));
    }
}

/// The outcome that a reported status stands for.
pub open spec fn outcome_of(status: Status) -> Outcome {
    match status {
        Status::Running => Outcome::Running,
        Status::Success => Outcome::Success,
        Status::Failure => Outcome::Failure,
    }
}

/// What becomes of a pair whose behavior reported `status` with continuation
/// `state`: its outcome, and the pair to keep, bound to that continuation,
/// exactly while it is running.
pub fn settle<B, S>(status: Status, behavior: B, state: S) -> (r: (Outcome, Option<(B, ActionState<S>)>))
    ensures
        r.0 == outcome_of(status),
        r.1.is_some() == (r.0 == Outcome::Running),
        r.1 matches Some(p) ==> p.0 == behavior && p.1 == ActionState::Bound(state),
{
    match status {
        Status::Running => (Outcome::Running, Some((behavior, ActionState::Bound(state)))),
        Status::Success => (Outcome::Success, None),
        Status::Failure => (Outcome::Failure, None),
    }
}

/// Each pair's outcome with its entry's id, entry by entry, pair by pair.
pub open spec fn flat(log: Seq<(u128, Seq<Outcome>)>) -> Seq<(u128, Outcome)>
    decreases log.len(),
{
    if log.len() == 0 {
        seq![]
    } else {
        flat(log.drop_last()) + pairs_of(log.last().0, log.last().1)
    }
}

pub open spec fn pairs_of(id: u128, os: Seq<Outcome>) -> Seq<(u128, Outcome)> {
    os.map_values(|o: Outcome| (id, o))
}

/// One pair's turn takes the roots from `a` to `b`: its target is missing exactly
/// when `id` does not resolve in `a`, and then nothing changes; otherwise only
/// the sprite that the lookup reaches is changed.
pub open spec fn step_ok<T>(a: Seq<Sprite<T>>, b: Seq<Sprite<T>>, step: (u128, Outcome)) -> bool {
    &&& (step.1 == Outcome::TargetMissing) == !roots_has(a, step.0)
    &&& step.1 == Outcome::TargetMissing ==> b == a
    &&& step.1 != Outcome::TargetMissing ==> exists|sub: Sprite<T>| roots_replaced(a, b, step.0, sub)
}

/// `ts` are the roots before each pair's turn and after the last one.
pub open spec fn trace<T>(ts: Seq<Seq<Sprite<T>>>, steps: Seq<(u128, Outcome)>) -> bool {
    &&& ts.len() == steps.len() + 1
    &&& forall|k: int| 0 <= k < steps.len() ==> step_ok(ts[k], ts[k + 1], #[trigger] steps[k])
}

/// The root sprites, and for each sprite id the behaviors running against it.
pub struct Scene<T, B, S> {
    children: Vec<Sprite<T>>,
    running: Vec<(u128, Vec<(B, ActionState<S>)>)>,
}

impl<T, B, S> Scene<T, B, S> {
    pub closed spec fn spec_children(&self) -> Seq<Sprite<T>> {
        self.children@
    }

    /// Each sprite id with the number of pairs running against it, in the
    /// order the ids were first given work.
    /// Each sprite id with the pairs running against it: behavior and continuation.
    pub closed spec fn pairs(&self) -> Seq<(u128, Seq<(B, ActionState<S>)>)> {
        self.running@.map_values(|e: (u128, Vec<(B, ActionState<S>)>)| (e.0, e.1@))
    }

    /// What the table, and the properties of the running pairs, say in terms
    /// of the pairs themselves.
    pub proof fn lemma_pairs(&self)
        ensures
            self.table() == self.pairs().map_values(
                |e: (u128, Seq<(B, ActionState<S>)>)| (e.0, e.1.len()),
            ),
            self.all_bound() == forall|i: int, j: int|
                0 <= i < self.pairs().len() && 0 <= j < self.pairs()[i].1.len() ==> (
                #[trigger] self.pairs()[i].1[j]).1 is Bound,
            self.wf() == forall|i: int|
                0 <= i < self.pairs().len() ==> (#[trigger] self.pairs()[i]).1.len() > 0,
            self.distinct_ids() == forall|i: int, j: int|
                0 <= i < j < self.pairs().len() ==> (#[trigger] self.pairs()[i]).0 != (
                #[trigger] self.pairs()[j]).0,
    {
        assert(self.table() =~= self.pairs().map_values(
            |e: (u128, Seq<(B, ActionState<S>)>)| (e.0, e.1.len()),
        ));
        assert(self.all_bound() == forall|i: int, j: int|
            0 <= i < self.pairs().len() && 0 <= j < self.pairs()[i].1.len() ==> (
            #[trigger] self.pairs()[i].1[j]).1 is Bound) by {
            if self.all_bound() {
                assert forall|i: int, j: int|
                    0 <= i < self.pairs().len() && 0 <= j < self.pairs()[i].1.len() implies (
                    #[trigger] self.pairs()[i].1[j]).1 is Bound by {
                    assert(self.running@[i].1@[j] == self.pairs()[i].1[j]);
                }
            }
            if forall|i: int, j: int|
                0 <= i < self.pairs().len() && 0 <= j < self.pairs()[i].1.len() ==> (
                #[trigger] self.pairs()[i].1[j]).1 is Bound {
                assert forall|i: int, j: int|
                    0 <= i < self.running@.len() && 0 <= j < self.running@[i].1@.len() implies (
                    #[trigger] self.running@[i].1@[j]).1 is Bound by {
                    assert(self.running@[i].1@[j] == self.pairs()[i].1[j]);
                }
            }
        }
        assert(self.wf() == forall|i: int|
            0 <= i < self.pairs().len() ==> (#[trigger] self.pairs()[i]).1.len() > 0) by {
            if self.wf() {
                assert forall|i: int| 0 <= i < self.pairs().len() implies (
                #[trigger] self.pairs()[i]).1.len() > 0 by {
                    assert(self.running@[i].1@.len() > 0);
                }
            }
            if forall|i: int| 0 <= i < self.pairs().len() ==> (#[trigger] self.pairs()[i]).1.len() > 0 {
                assert forall|i: int| 0 <= i < self.running@.len() implies (
                #[trigger] self.running@[i]).1@.len() > 0 by {
                    assert(self.pairs()[i].1.len() > 0);
                }
            }
        }
        assert(self.distinct_ids() == forall|i: int, j: int|
            0 <= i < j < self.pairs().len() ==> (#[trigger] self.pairs()[i]).0 != (
            #[trigger] self.pairs()[j]).0) by {
            if self.distinct_ids() {
                assert forall|i: int, j: int| 0 <= i < j < self.pairs().len() implies (
                #[trigger] self.pairs()[i]).0 != (#[trigger] self.pairs()[j]).0 by {
                    assert(self.running@[i].0 != self.running@[j].0);
                }
            }
            if forall|i: int, j: int|
                0 <= i < j < self.pairs().len() ==> (#[trigger] self.pairs()[i]).0 != (
                #[trigger] self.pairs()[j]).0 {
                assert forall|i: int, j: int| 0 <= i < j < self.running@.len() implies (
                #[trigger] self.running@[i]).0 != (#[trigger] self.running@[j]).0 by {
                    assert(self.pairs()[i].0 != self.pairs()[j].0);
                }
            }
        }
    }

    pub closed spec fn table(&self) -> Seq<(u128, nat)> {
        self.running@.map_values(|e: (u128, Vec<(B, ActionState<S>)>)| (e.0, e.1@.len()))
    }

    /// Every pair that has been through an update carries its continuation.
    pub closed spec fn all_bound(&self) -> bool {
        forall|i: int, j: int|
            0 <= i < self.running@.len() && 0 <= j < self.running@[i].1@.len() ==> (
            #[trigger] self.running@[i].1@[j]).1 is Bound
    }

    /// The running pairs agree, continuations included.
    pub closed spec fn same_running(a: Scene<T, B, S>, b: Scene<T, B, S>) -> bool {
        a.running == b.running
    }

    /// No entry of the table is left without a pair.
    pub closed spec fn wf(&self) -> bool {
        forall|i: int| 0 <= i < self.running@.len() ==> (#[trigger] self.running@[i]).1@.len() > 0
    }

    /// The table is a mapping: no two entries are for the same id.
    pub closed spec fn distinct_ids(&self) -> bool {
        forall|i: int, j: int|
            0 <= i < j < self.running@.len() ==> (#[trigger] self.running@[i]).0 != (
            #[trigger] self.running@[j]).0
    }

    /// A root carries `id`, or some root holds it below.
    pub open spec fn has(&self, id: u128) -> bool {
        roots_has(self.spec_children(), id)
    }

    /// The sprite a lookup of `id` reaches.
    pub open spec fn find(&self, id: u128) -> Option<Sprite<T>> {
        roots_find(self.spec_children(), id)
    }

    /// `new` is `old` with the sprite that a lookup of `id` reaches replaced by
    /// `sub`, and its running pairs kept.
    pub open spec fn replaced(old: Scene<T, B, S>, new: Scene<T, B, S>, id: u128, sub: Sprite<T>) -> bool {
        &&& Self::same_running(old, new)
        &&& roots_replaced(old.spec_children(), new.spec_children(), id, sub)
    }

    /// A sprite added to the scene can be looked up at once, and so can every
    /// sprite below it; whatever could be looked up before still can.
    pub proof fn lemma_added_child_found(before: Scene<T, B, S>, after: Scene<T, B, S>, c: Sprite<T>, id: u128)
        requires
            after.spec_children() == before.spec_children().push(c),
        ensures
            after.has(c.spec_id()),
            c.has(id) ==> after.has(id),
            before.has(id) ==> after.has(id),
    {
        let n = before.children@.len() as int;
        assert(after.children@[n] == c);
        if before.has(id) {
            let i = choose|i: int|
                0 <= i < before.children@.len() && ((#[trigger] before.children@[i]).spec_id() == id
                    || before.children@[i].has(id));
            assert(after.children@[i] == before.children@[i]);
        }
    }

    /// A change made to a sprite reached through `child_mut` stays reachable:
    /// the sprite itself (a child added to it, say), and every sprite below it.
    pub proof fn lemma_replaced_found(old: Scene<T, B, S>, new: Scene<T, B, S>, id: u128, sub: Sprite<T>, x: u128)
        requires
            Self::replaced(old, new, id, sub),
            sub.spec_id() == id,
        ensures
            new.has(id),
            sub.has(x) ==> new.has(x),
    {
        let o = old.spec_children();
        let n = new.spec_children();
        let i = choose|i: int|
            #![trigger roots_direct_at(o, id, i)]
            #![trigger roots_deep_at(o, id, i)]
            0 <= i < o.len() && ((roots_direct_at(o, id, i) && n == o.update(i, sub)) || (
            roots_deep_at(o, id, i) && n =~= o.update(i, n[i]) && Sprite::replaced(
                o[i],
                n[i],
                id,
                sub,
            )));
        if roots_direct_at(o, id, i) {
            assert(n[i] == sub);
            assert(sub.has(x) ==> n[i].has(x));
        } else {
            Sprite::lemma_replaced_found(o[i], n[i], id, sub, x);
            assert(n[i].has(id));
        }
    }

    /// A sprite added under an id that nothing in the scene held is what a
    /// lookup of that id reaches.
    pub proof fn lemma_added_child_find(before: Scene<T, B, S>, after: Scene<T, B, S>, c: Sprite<T>)
        requires
            after.spec_children() == before.spec_children().push(c),
            !before.has(c.spec_id()),
        ensures
            after.find(c.spec_id()) == Some(c),
    {
        let cs = after.spec_children();
        let n = before.spec_children().len() as int;
        assert forall|j: int| 0 <= j < n implies #[trigger] cs[j].spec_id() != c.spec_id() by {
            assert(cs[j] == before.spec_children()[j]);
            if cs[j].spec_id() == c.spec_id() {
                assert(roots_has(before.spec_children(), c.spec_id()));
            }
        }
        assert(roots_direct_at(cs, c.spec_id(), n));
        lemma_roots_find_direct(cs, c.spec_id(), n);
    }

    /// Scenes whose running pairs agree have the same pairs and table.
    pub proof fn lemma_same_running(a: Scene<T, B, S>, b: Scene<T, B, S>)
        requires
            Self::same_running(a, b),
        ensures
            a.pairs() == b.pairs(),
            a.table() == b.table(),
            a.wf() == b.wf(),
            a.distinct_ids() == b.distinct_ids(),
            a.all_bound() == b.all_bound(),
    {
    }

    pub fn new() -> (r: Scene<T, B, S>)
        ensures
            r.spec_children().len() == 0,
            r.table().len() == 0,
            r.pairs().len() == 0,
            r.wf(),
            r.distinct_ids(),
            r.all_bound(),
    {
        Scene { children: Vec::new(), running: Vec::new() }
    }
    pub fn add_child(&mut self, sprite: Sprite<T>) -> (r: u128)
        ensures
            r == sprite.spec_id(),
            final(self).spec_children() == old(self).spec_children().push(sprite),
            Self::same_running(*old(self), *final(self)),
    {
        let id = sprite.id();
        self.children.push(sprite);
        id
    }

    /// Looks `id` up among the roots, then depth first below each root in order.
    pub fn child(&self, id: u128) -> (r: Option<&Sprite<T>>)
        ensures
            r.is_some() == self.has(id),
            r.is_some() ==> r.unwrap().spec_id() == id,
            match r {
                Some(x) => self.find(id) == Some(*x),
                None => self.find(id).is_none(),
            },
    {
        match self.route(id) {
            None => {
                proof {
                    lemma_roots_find_none(self.spec_children(), id);
                }
                None
            },
            Some((i, true)) => {
                proof {
                    lemma_roots_find_direct(self.spec_children(), id, i as int);
                }
                Some(&self.children[i])
            },
            Some((i, false)) => {
                proof {
                    lemma_roots_find_deep(self.spec_children(), id, i as int);
                }
                self.children[i].child(id)
            },
        }
    }

    /// Where a lookup of `id` goes: `(i, true)` where root `i` carries it,
    /// `(i, false)` where it lies below root `i`.
    fn route(&self, id: u128) -> (r: Option<(usize, bool)>)
        ensures
            r.is_some() == self.has(id),
            r matches Some(p) ==> (p.1 ==> roots_direct_at(self.spec_children(), id, p.0 as int)) && (!p.1
                ==> roots_deep_at(self.spec_children(), id, p.0 as int)),
    {
        let n = self.children.len();
        let mut i: usize = 0;
        while i < n
            invariant
                i <= n,
                n == self.children@.len(),
                forall|j: int| 0 <= j < i ==> #[trigger] self.children@[j].spec_id() != id,
            decreases n - i,
        {
            if self.children[i].id() == id {
                return Some((i, true));
            }
            i += 1;
        }
        let mut i: usize = 0;
        while i < n
            invariant
                i <= n,
                n == self.children@.len(),
                forall|j: int| 0 <= j < n ==> #[trigger] self.children@[j].spec_id() != id,
                forall|j: int| 0 <= j < i ==> !(#[trigger] self.children@[j]).has(id),
            decreases n - i,
        {
            if self.children[i].child(id).is_some() {
                assert(self.children@[i as int].has(id));
                return Some((i, false));
            }
            i += 1;
        }
        None
    }

    /// Mutable counterpart of `child`: whatever the caller does to the sprite
    /// found is what becomes of it in the scene.
    pub fn child_mut(&mut self, id: u128) -> (r: Option<&mut Sprite<T>>)
        ensures
            r.is_some() == old(self).has(id),
            match r {
                Some(m) => m.spec_id() == id && old(self).find(id) == Some(*m) && Self::replaced(
                    *old(self),
                    *final(self),
                    id,
                    *final(m),
                ),
                None => *final(self) == *old(self),
            },
    {
        match self.route(id) {
            None => None,
            Some((i, direct)) => {
                let ghost pre = *self;
                let c = &mut self.children[i];
                if direct {
                    assert(roots_direct_at(pre.spec_children(), id, i as int));
                    proof {
                        lemma_roots_find_direct(pre.spec_children(), id, i as int);
                    }
                    Some(c)
                } else {
                    assert(roots_deep_at(pre.spec_children(), id, i as int));
                    proof {
                        lemma_roots_find_deep(pre.spec_children(), id, i as int);
                    }
                    c.child_mut(id)
                }
            },
        }
    }
    /// Appends, root by root in order, the images of each root's subtree under
    /// the transform `parent`.
    pub fn draw(&self, parent: &Vec<Op>, out: &mut Vec<DrawItem>)
        ensures
            items_view(final(out)@) == items_view(old(out)@) + Sprite::draws_from(
                self.spec_children(),
                parent@,
                self.spec_children().len(),
            ),
    {
        let ghost base = items_view(out@);
        let n = self.children.len();
        let mut i: usize = 0;
        while i < n
            invariant
                i <= n,
                n == self.children@.len(),
                items_view(out@) == base + Sprite::draws_from(self.children@, parent@, i as nat),
            decreases n - i,
        {
            self.children[i].draw(parent, out);
            i += 1;
            assert(Sprite::draws_from(self.children@, parent@, i as nat) == Sprite::draws_from(
                self.children@,
                parent@,
                (i - 1) as nat,
            ) + self.children@[i - 1].draws(parent@));
            assert(items_view(out@) =~= base + Sprite::draws_from(self.children@, parent@, i as nat));
        }
    }

    /// Registers one more behavior against `sprite_id`, beside those already
    /// running against it; it is bound to its target on the next update.
    pub fn run_action(&mut self, sprite_id: u128, behavior: B)
        ensures
            final(self).spec_children() == old(self).spec_children(),
            old(self).wf() ==> final(self).wf(),
            old(self).distinct_ids() ==> final(self).distinct_ids(),
            final(self).table() == registered(old(self).table(), sprite_id),
            final(self).pairs() == match entry_index(old(self).table(), sprite_id) {
                Some(i) => old(self).pairs().update(
                    i,
                    (sprite_id, old(self).pairs()[i].1.push((behavior, ActionState::Unbound))),
                ),
                None => old(self).pairs().push((sprite_id, seq![(behavior, ActionState::Unbound)])),
            },
    {
        let n = self.running.len();
        let mut i: usize = 0;
        while i < n
            invariant
                i <= n,
                n == self.running@.len(),
                forall|j: int| 0 <= j < i ==> #[trigger] self.running@[j].0 != sprite_id,
            ensures
                i <= n,
                forall|j: int| 0 <= j < i ==> #[trigger] self.running@[j].0 != sprite_id,
                i < n ==> self.running@[i as int].0 == sprite_id,
            decreases n - i,
        {
            if self.running[i].0 == sprite_id {
                break;
            }
            i += 1;
        }
        let ghost pre = *self;
        if i < n {
            proof {
                assert forall|j: int| 0 <= j < i implies #[trigger] pre.table()[j].0 != sprite_id by {
                    assert(pre.running@[j].0 != sprite_id);
                }
                assert(first_entry(pre.table(), sprite_id, i as int));
                lemma_entry_index(pre.table(), sprite_id, i as int);
            }
            let entry = &mut self.running[i];
            entry.1.push((behavior, ActionState::Unbound));
            assert(self.table() =~= pre.table().update(i as int, (sprite_id, pre.table()[i as int].1 + 1)));
            assert(self.pairs() =~= pre.pairs().update(
                i as int,
                (sprite_id, pre.pairs()[i as int].1.push((behavior, ActionState::Unbound))),
            ));
        } else {
            assert forall|j: int| 0 <= j < pre.table().len() implies #[trigger] pre.table()[j].0
                != sprite_id by {
                assert(pre.running@[j].0 != sprite_id);
            }
            let mut pairs = Vec::new();
            pairs.push((behavior, ActionState::Unbound));
            self.running.push((sprite_id, pairs));
            assert(self.table() =~= pre.table().push((sprite_id, 1nat)));
            assert(self.pairs() =~= pre.pairs().push((sprite_id, seq![(behavior, ActionState::Unbound)])));
        }
    }

    /// The number of pairs running against `sprite_id`.
    pub fn running_count(&self, sprite_id: u128) -> (r: usize)
        ensures
            r == count_of(self.table(), sprite_id),
    {
        let n = self.running.len();
        let mut i: usize = 0;
        while i < n
            invariant
                i <= n,
                n == self.running@.len(),
                forall|j: int| 0 <= j < i ==> #[trigger] self.running@[j].0 != sprite_id,
            decreases n - i,
        {
            if self.running[i].0 == sprite_id {
                proof {
                    assert forall|j: int| 0 <= j < i implies #[trigger] self.table()[j].0 != sprite_id by {
                        assert(self.running@[j].0 != sprite_id);
                    }
                    lemma_entry_index(self.table(), sprite_id, i as int);
                }
                return self.running[i].1.len();
            }
            i += 1;
        }
        assert forall|j: int| 0 <= j < self.table().len() implies #[trigger] self.table()[j].0
            != sprite_id by {
            assert(self.running@[j].0 != sprite_id);
        }
        0
    }

}

impl<T, B: Behavior<T, S>, S> Scene<T, B, S> {
    /// Advances every running pair by `dt`, entry by entry in table order and
    /// pair by pair in registration order, each against its target as earlier
    /// pairs left it. A pair is bound first if it is not yet; it is kept only
    /// while it reports `Running`, and dropped if its target is gone. Returns,
    /// for each entry of the table as it stood, its id and what became of each
    /// of its pairs.
    pub fn update(&mut self, dt: u64) -> (log: Vec<(u128, Vec<Outcome>)>)
        ensures
            log@.len() == old(self).table().len(),
            forall|i: int|
                0 <= i < log@.len() ==> (#[trigger] log@[i]).0 == old(self).table()[i].0
                    && log@[i].1@.len() == old(self).table()[i].1,
            final(self).table() == kept_table(log_view(log@)),
            final(self).wf(),
            final(self).all_bound(),
            old(self).distinct_ids() ==> final(self).distinct_ids(),
            exists|ts: Seq<Seq<Sprite<T>>>|
                trace(ts, flat(log_view(log@))) && ts[0] == old(self).spec_children() && ts.last()
                    == final(self).spec_children(),
    {
        let ghost start = *self;
        let ghost mut ts: Seq<Seq<Sprite<T>>> = seq![self.spec_children()];
        let mut pending: Vec<(u128, Vec<(B, ActionState<S>)>)> = Vec::new();
        std::mem::swap(&mut self.running, &mut pending);
        let n = pending.len();
        let mut log: Vec<(u128, Vec<Outcome>)> = Vec::new();
        while pending.len() > 0
            invariant
                pending@ == start.running@.subrange(log@.len() as int, n as int),
                n == start.running@.len(),
                log@.len() <= n,
                forall|i: int|
                    0 <= i < log@.len() ==> (#[trigger] log@[i]).0 == start.table()[i].0
                        && log@[i].1@.len() == start.table()[i].1,
                self.table() == kept_table(log_view(log@)),
                self.wf(),
                self.all_bound(),
                start.distinct_ids() ==> self.distinct_ids(),
                trace(ts, flat(log_view(log@))),
                ts[0] == start.spec_children(),
                ts.last() == self.spec_children(),
                forall|i: int|
                    0 <= i < self.running@.len() ==> exists|j: int|
                        0 <= j < log@.len() && start.running@[j].0 == (
                        #[trigger] self.running@[i]).0,
            decreases pending@.len(),
        {
            let (id, mut actions) = pending.remove(0);
            let ghost k = log@.len() as int;
            let ghost m = actions@.len();
            let ghost before = self.running;
            let mut kept: Vec<(B, ActionState<S>)> = Vec::new();
            let mut outs: Vec<Outcome> = Vec::new();
            while actions.len() > 0
                invariant
                    outs@.len() + actions@.len() == m,
                    kept@.len() == kept_count(outs@),
                    forall|j: int| 0 <= j < kept@.len() ==> (#[trigger] kept@[j]).1 is Bound,
                    self.running == before,
                    trace(ts, flat(log_view(log@)) + pairs_of(id, outs@)),
                    ts[0] == start.spec_children(),
                    ts.last() == self.spec_children(),
                decreases actions@.len(),
            {
                let (mut b, st) = actions.remove(0);
                let ghost o = outs@;
                let ghost a = self.spec_children();
                match self.child_mut(id) {
                    None => {
                        outs.push(Outcome::TargetMissing);
                    },
                    Some(target) => {
                        let mut s = match st {
                            ActionState::Unbound => b.bind(&*target),
                            ActionState::Bound(s) => s,
                        };
                        let status = b.advance(&mut s, target, dt);
                        let (outcome, keep) = settle(status, b, s);
                        outs.push(outcome);
                        match keep {
                            Some(pair) => {
                                kept.push(pair);
                            },
                            None => {},
                        }
                    },
                }
                proof {
                    let steps = flat(log_view(log@)) + pairs_of(id, o);
                    let last = (id, outs@.last());
                    assert(step_ok(a, self.spec_children(), last));
                    assert(pairs_of(id, outs@) =~= pairs_of(id, o).push(last));
                    let ts2 = ts.push(self.spec_children());
                    assert forall|k: int|
                        0 <= k < steps.len() + 1 implies step_ok(
                        ts2[k],
                        ts2[k + 1],
                        #[trigger] steps.push(last)[k],
                    ) by {
                        if k < steps.len() {
                            assert(steps.push(last)[k] == steps[k]);
                        }
                    }
                    assert(steps.push(last) =~= flat(log_view(log@)) + pairs_of(id, outs@));
                    ts = ts2;
                }
                assert(outs@.drop_last() == o);
            }
            let ghost prev_log = log@;
            let ghost prev_running = self.running@;
            assert(start.running@[k].0 == id);
            if kept.len() > 0 {
                self.running.push((id, kept));
                assert forall|i: int|
                    0 <= i < self.running@.len() implies exists|j: int|
                    0 <= j < k + 1 && start.running@[j].0 == (#[trigger] self.running@[i]).0 by {
                    if i < prev_running.len() {
                        assert(self.running@[i] == prev_running[i]);
                    } else {
                        assert(start.running@[k].0 == self.running@[i].0);
                    }
                }
                proof {
                    if start.distinct_ids() {
                        assert forall|a: int, b: int|
                            0 <= a < b < self.running@.len() implies (#[trigger] self.running@[a]).0 != (
                            #[trigger] self.running@[b]).0 by {
                            assert(self.running@[a] == prev_running[a]);
                            if b == prev_running.len() {
                                let j = choose|j: int|
                                    0 <= j < k && start.running@[j].0 == (#[trigger] prev_running[a]).0;
                                assert(start.running@[j].0 != start.running@[k].0);
                            } else {
                                assert(self.running@[b] == prev_running[b]);
                            }
                        }
                    }
                }
            }
            log.push((id, outs));
            assert(log_view(log@).drop_last() =~= log_view(prev_log));
            assert(flat(log_view(log@)) == flat(log_view(prev_log)) + pairs_of(id, outs@));
            assert(start.running@[k].0 == id && start.running@[k].1@.len() == m);
            assert(self.table() =~= kept_table(log_view(log@)));
        }
        log
    }
}

} // verus!

//! What one tick does to a world, stated pass by pass over `WorldView`.
use vstd::prelude::*;
use crate::components::{Position, Velocity};
use crate::fixed::{abs, in_range, sat, LIMIT};
use crate::forces::{
    contained, coulomb_delta, damped, damped_n, integrated, lemma_bounce_in_range,
    lemma_damped_n_bound,
    lemma_containment_idempotent, lemma_damped_in_range, lemma_damping_decreases, mouse_delta,
    spring_delta,
};
use crate::world::WorldView;

verus! {

/// `v` with `d` added, each component saturated.
pub open spec fn pushed(v: Velocity, d: (int, int)) -> Velocity {
    Velocity { vx: sat(v.vx + d.0) as i64, vy: sat(v.vy + d.1) as i64 }
}

pub open spec fn mouse_vel(w: WorldView, i: int) -> Option<Velocity> {
    if w.mouse[i] && w.pos[i] is Some && w.vel[i] is Some {
        Some(
            pushed(w.vel[i].unwrap(), mouse_delta(w.pos[i].unwrap(), w.mouse_pos.0, w.mouse_pos.1)),
        )
    } else {
        w.vel[i]
    }
}

/// Every entity with a position, a velocity and the pointer tag is pulled
/// toward the pointer.
pub open spec fn after_mouse(w: WorldView) -> WorldView {
    WorldView { vel: Seq::new(w.len(), |i: int| mouse_vel(w, i)), ..w }
}

/// Velocities after the spring of slot `j` acts on `vel`, and whether that
/// spring is broken (an endpoint is gone or lacks a position or velocity).
/// A broken spring is reported even while the spring force is switched off;
/// a sound one then acts on nothing.
pub open spec fn spring_step(w: WorldView, vel: Seq<Option<Velocity>>, j: int) -> (Seq<Option<Velocity>>, bool) {
    match w.edge[j] {
        None => (vel, false),
        Some(e) => {
            let a = w.slot_of(e.nodes.0.id);
            let b = w.slot_of(e.nodes.1.id);
            if a < 0 || b < 0 || w.pos[a] is None || w.pos[b] is None || vel[a] is None
                || vel[b] is None {
                (vel, true)
            } else if !w.switches.springs {
                (vel, false)
            } else {
                let d = spring_delta(w.pos[a].unwrap(), w.pos[b].unwrap(), e.ideal as int, e.k as int);
                let v1 = vel.update(a, Some(pushed(vel[a].unwrap(), d)));
                (v1.update(b, Some(pushed(v1[b].unwrap(), (-d.0, -d.1)))), false)
            }
        },
    }
}

/// Velocities and removal marks after the springs of the first `n` slots.
pub open spec fn springs_upto(w: WorldView, n: nat) -> (Seq<Option<Velocity>>, Seq<u64>)
    decreases n,
{
    if n == 0 {
        (w.vel, w.pending)
    } else {
        let prev = springs_upto(w, (n - 1) as nat);
        let step = spring_step(w, prev.0, n - 1);
        (step.0, if step.1 { prev.1.push(w.ids[n - 1]) } else { prev.1 })
    }
}

/// Every spring acts on both its endpoints, in slot order, while the spring
/// force is on; a broken one is marked for removal and acts on neither.
pub open spec fn after_springs(w: WorldView) -> WorldView {
    WorldView { vel: springs_upto(w, w.len()).0, pending: springs_upto(w, w.len()).1, ..w }
}

/// Velocity of charged slot `i` after the charges of the first `n` slots act on it.
pub open spec fn coulomb_upto(w: WorldView, i: int, v: Velocity, n: nat) -> Velocity
    decreases n,
{
    if n == 0 {
        v
    } else {
        let u = coulomb_upto(w, i, v, (n - 1) as nat);
        let j = n - 1;
        if j != i && w.pos[j] is Some && w.repel[j] is Some {
            pushed(
                u,
                coulomb_delta(
                    w.coulomb_k,
                    w.pos[i].unwrap(),
                    w.pos[j].unwrap(),
                    w.repel[i].unwrap().charge as int,
                    w.repel[j].unwrap().charge as int,
                ),
            )
        } else {
            u
        }
    }
}

pub open spec fn repelled_vel(w: WorldView, i: int) -> Option<Velocity> {
    if w.pos[i] is Some && w.vel[i] is Some && w.repel[i] is Some {
        Some(coulomb_upto(w, i, w.vel[i].unwrap(), w.len()))
    } else {
        w.vel[i]
    }
}

/// Every charged entity with a velocity is pushed by every other charged one.
pub open spec fn after_repulsion(w: WorldView) -> WorldView {
    WorldView { vel: Seq::new(w.len(), |i: int| repelled_vel(w, i)), ..w }
}

pub open spec fn damped_vel(w: WorldView, i: int) -> Option<Velocity> {
    match w.vel[i] {
        Some(v) => Some(Velocity { vx: damped(v.vx as int) as i64, vy: damped(v.vy as int) as i64 }),
        None => None,
    }
}

pub open spec fn after_damping(w: WorldView) -> WorldView {
    WorldView { vel: Seq::new(w.len(), |i: int| damped_vel(w, i)), ..w }
}

pub open spec fn moved_pos(w: WorldView, i: int) -> Option<Position> {
    if w.pos[i] is Some && w.vel[i] is Some {
        let p = w.pos[i].unwrap();
        let v = w.vel[i].unwrap();
        Some(
            Position {
                x: integrated(p.x as int, v.vx as int, w.delta) as i64,
                y: integrated(p.y as int, v.vy as int, w.delta) as i64,
            },
        )
    } else {
        w.pos[i]
    }
}

pub open spec fn after_integration(w: WorldView) -> WorldView {
    WorldView { pos: Seq::new(w.len(), |i: int| moved_pos(w, i)), ..w }
}

/// Position and velocity of slot `i` after containment in the arena.
pub open spec fn walled(w: WorldView, i: int) -> (Option<Position>, Option<Velocity>) {
    if w.pos[i] is Some && w.collider[i] is Some {
        let p = w.pos[i].unwrap();
        let c = w.collider[i].unwrap();
        let vx = match w.vel[i] {
            Some(v) => v.vx as int,
            None => 0,
        };
        let vy = match w.vel[i] {
            Some(v) => v.vy as int,
            None => 0,
        };
        let cx = contained(p.x as int, vx, c.w as int, w.arena.0);
        let cy = contained(p.y as int, vy, c.h as int, w.arena.1);
        (
            Some(Position { x: cx.0 as i64, y: cy.0 as i64 }),
            match w.vel[i] {
                Some(_) => Some(Velocity { vx: cx.1 as i64, vy: cy.1 as i64 }),
                None => None,
            },
        )
    } else {
        (w.pos[i], w.vel[i])
    }
}

pub open spec fn after_containment(w: WorldView) -> WorldView {
    WorldView {
        pos: Seq::new(w.len(), |i: int| walled(w, i).0),
        vel: Seq::new(w.len(), |i: int| walled(w, i).1),
        ..w
    }
}

/// All passes of one tick, in their fixed order; a switched-off force is
/// skipped, though broken springs are still marked for removal.
pub open spec fn systems_step(w: WorldView) -> WorldView {
    let w1 = if w.switches.mouse { after_mouse(w) } else { w };
    let w2 = after_springs(w1);
    let w3 = if w.switches.repulsion { after_repulsion(w2) } else { w2 };
    after_containment(after_integration(after_damping(w3)))
}

/// The entries of `s` whose entity (`ids`, slot by slot) is not in `dead`,
/// in their order.
pub open spec fn retain_live<T>(s: Seq<T>, ids: Seq<u64>, dead: Seq<u64>) -> Seq<T>
    decreases ids.len(),
{
    if ids.len() == 0 || s.len() == 0 {
        Seq::empty()
    } else {
        let rest = retain_live(s.drop_first(), ids.drop_first(), dead);
        if dead.contains(ids[0]) {
            rest
        } else {
            seq![s[0]] + rest
        }
    }
}

/// Deferred removal: every entity marked during the tick leaves every column
/// at once, the others keep their order, and the marks are cleared.
pub open spec fn after_maintain(w: WorldView) -> WorldView {
    WorldView {
        ids: retain_live(w.ids, w.ids, w.pending),
        pos: retain_live(w.pos, w.ids, w.pending),
        vel: retain_live(w.vel, w.ids, w.pending),
        repel: retain_live(w.repel, w.ids, w.pending),
        mouse: retain_live(w.mouse, w.ids, w.pending),
        collider: retain_live(w.collider, w.ids, w.pending),
        dom: retain_live(w.dom, w.ids, w.pending),
        edge: retain_live(w.edge, w.ids, w.pending),
        pending: Seq::empty(),
        ..w
    }
}

pub proof fn lemma_retain_len<T>(s: Seq<T>, ids: Seq<u64>, dead: Seq<u64>)
    requires
        s.len() == ids.len(),
    ensures
        retain_live(s, ids, dead).len() == retain_live(ids, ids, dead).len(),
    decreases ids.len(),
{
    if ids.len() > 0 {
        lemma_retain_len(s.drop_first(), ids.drop_first(), dead);
        lemma_retain_len(ids.drop_first(), ids.drop_first(), dead);
        lemma_retain_len2(ids.drop_first(), ids, dead);
    }
}

proof fn lemma_retain_len2(t: Seq<u64>, ids: Seq<u64>, dead: Seq<u64>)
    requires
        ids.len() > 0,
        t == ids.drop_first(),
    ensures
        retain_live(ids, ids, dead).len() == retain_live(t, t, dead).len() + if dead.contains(
            ids[0],
        ) {
            0int
        } else {
            1int
        },
{
}

/// Every entry kept comes from a slot whose entity is not dead.
pub proof fn lemma_retain_from<T>(s: Seq<T>, ids: Seq<u64>, dead: Seq<u64>, k: int)
    requires
        s.len() == ids.len(),
        0 <= k < retain_live(s, ids, dead).len(),
    ensures
        exists|i: int|
            0 <= i < s.len() && retain_live(s, ids, dead)[k] == s[i] && !dead.contains(ids[i]),
    decreases ids.len(),
{
    let rest = retain_live(s.drop_first(), ids.drop_first(), dead);
    if dead.contains(ids[0]) {
        lemma_retain_from(s.drop_first(), ids.drop_first(), dead, k);
        let i = choose|i: int|
            0 <= i < s.len() - 1 && rest[k] == s.drop_first()[i] && !dead.contains(
                ids.drop_first()[i],
            );
        assert(retain_live(s, ids, dead)[k] == s[i + 1]);
    } else if k == 0 {
        assert(retain_live(s, ids, dead)[0] == s[0]);
    } else {
        lemma_retain_from(s.drop_first(), ids.drop_first(), dead, k - 1);
        let i = choose|i: int|
            0 <= i < s.len() - 1 && rest[k - 1] == s.drop_first()[i] && !dead.contains(
                ids.drop_first()[i],
            );
        assert(retain_live(s, ids, dead)[k] == s[i + 1]);
    }
}

/// Keeping a sub-sequence of strictly increasing identities keeps them
/// strictly increasing.
pub proof fn lemma_retain_sorted(ids: Seq<u64>, dead: Seq<u64>)
    requires
        forall|i: int, j: int| 0 <= i < j < ids.len() ==> ids[i] < ids[j],
    ensures
        forall|i: int, j: int|
            0 <= i < j < retain_live(ids, ids, dead).len() ==> retain_live(ids, ids, dead)[i]
                < retain_live(ids, ids, dead)[j],
    decreases ids.len(),
{
    if ids.len() > 0 {
        let t = ids.drop_first();
        lemma_retain_sorted(t, dead);
        let rest = retain_live(t, t, dead);
        if !dead.contains(ids[0]) {
            let r = retain_live(ids, ids, dead);
            assert forall|i: int, j: int| 0 <= i < j < r.len() implies r[i] < r[j] by {
                if i == 0 {
                    lemma_retain_from(t, t, dead, j - 1);
                    let m = choose|m: int|
                        0 <= m < t.len() && rest[j - 1] == t[m] && !dead.contains(t[m]);
                    assert(ids[0] < ids[m + 1]);
                } else {
                    assert(r[i] == rest[i - 1] && r[j] == rest[j - 1]);
                }
            }
        }
    }
}

/// Milliseconds a tick advances for a measured elapsed time: the time
/// itself, or zero if it is negative.
pub open spec fn tick_span(elapsed: int) -> int {
    if elapsed < 0 {
        0
    } else {
        elapsed
    }
}

/// One tick: the passes with the elapsed time in place, then deferred removal.
pub open spec fn tick_result(w: WorldView, elapsed: int) -> WorldView {
    after_maintain(systems_step(WorldView { delta: tick_span(elapsed), ..w }))
}

/// Slots of the two endpoints of the spring in slot `j`.
pub open spec fn spring_ends(w: WorldView, j: int) -> (int, int) {
    (w.slot_of(w.edge[j].unwrap().nodes.0.id), w.slot_of(w.edge[j].unwrap().nodes.1.id))
}

/// Velocity change of the first endpoint of the spring in slot `j`.
pub open spec fn spring_push(w: WorldView, j: int) -> (int, int) {
    let e = w.edge[j].unwrap();
    let (a, b) = spring_ends(w, j);
    spring_delta(w.pos[a].unwrap(), w.pos[b].unwrap(), e.ideal as int, e.k as int)
}

/// Springs obey Newton's third law: when both endpoints of a spring are alive
/// with a position and a velocity, the change it makes to one endpoint's
/// velocity is the exact negation of the change it makes to the other's
/// (where neither sum saturates), and no other velocity changes.
pub proof fn lemma_spring_antisymmetric(w: WorldView, vel: Seq<Option<Velocity>>, j: int)
    requires
        0 <= j < w.len(),
        w.edge.len() == w.len(),
        w.edge[j] is Some,
        w.switches.springs,
        0 <= spring_ends(w, j).0 < vel.len(),
        0 <= spring_ends(w, j).1 < vel.len(),
        w.pos.len() == vel.len(),
        w.pos[spring_ends(w, j).0] is Some,
        w.pos[spring_ends(w, j).1] is Some,
        vel[spring_ends(w, j).0] is Some,
        vel[spring_ends(w, j).1] is Some,
        in_range(vel[spring_ends(w, j).0].unwrap().vx + spring_push(w, j).0),
        in_range(vel[spring_ends(w, j).0].unwrap().vy + spring_push(w, j).1),
        in_range(vel[spring_ends(w, j).1].unwrap().vx - spring_push(w, j).0),
        in_range(vel[spring_ends(w, j).1].unwrap().vy - spring_push(w, j).1),
    ensures
        ({
            let (a, b) = spring_ends(w, j);
            let r = spring_step(w, vel, j);
            &&& !r.1
            &&& r.0.len() == vel.len()
            &&& r.0[a] is Some && r.0[b] is Some
            &&& r.0[a].unwrap().vx - vel[a].unwrap().vx == -(r.0[b].unwrap().vx
                - vel[b].unwrap().vx)
            &&& r.0[a].unwrap().vy - vel[a].unwrap().vy == -(r.0[b].unwrap().vy
                - vel[b].unwrap().vy)
            &&& forall|m: int| 0 <= m < vel.len() && m != a && m != b ==> r.0[m] == vel[m]
        }),
{
    let (a, b) = spring_ends(w, j);
    if a == b {
        let p = w.pos[a].unwrap();
        assert((p.x - p.x) * (p.x - p.x) + (p.y - p.y) * (p.y - p.y) == 0);
    }
}

proof fn lemma_contained_in_range(p: int, v: int, ext: int, size: int)
    requires
        in_range(p),
        in_range(v),
        0 <= ext <= LIMIT,
    ensures
        in_range(contained(p, v, ext, size).0),
        in_range(contained(p, v, ext, size).1),
{
    lemma_bounce_in_range(v);
}

/// Containment of a whole world is idempotent: a second pass with no motion
/// in between changes no position and no velocity.
pub proof fn lemma_walls_idempotent(w: WorldView)
    requires
        w.columns_wf(),
    ensures
        after_containment(after_containment(w)) == after_containment(w),
{
    let w1 = after_containment(w);
    let w2 = after_containment(w1);
    assert forall|i: int| 0 <= i < w.len() implies #[trigger] walled(w1, i) == walled(w, i) by {
        if w.pos[i] is Some && w.collider[i] is Some {
            let p = w.pos[i].unwrap();
            let c = w.collider[i].unwrap();
            let vx = match w.vel[i] {
                Some(v) => v.vx as int,
                None => 0,
            };
            let vy = match w.vel[i] {
                Some(v) => v.vy as int,
                None => 0,
            };
            lemma_contained_in_range(p.x as int, vx, c.w as int, w.arena.0);
            lemma_contained_in_range(p.y as int, vy, c.h as int, w.arena.1);
            lemma_containment_idempotent(p.x as int, vx, c.w as int, w.arena.0);
            lemma_containment_idempotent(p.y as int, vy, c.h as int, w.arena.1);
            let cx = contained(p.x as int, vx, c.w as int, w.arena.0);
            let cy = contained(p.y as int, vy, c.h as int, w.arena.1);
            if w.vel[i] is None {
                assert(contained(cx.0, 0, c.w as int, w.arena.0).0 == cx.0);
                assert(contained(cy.0, 0, c.h as int, w.arena.1).0 == cy.0);
            }
        }
    }
    assert(w2.pos =~= w1.pos);
    assert(w2.vel =~= w1.vel);
}

/// With no force input, the damping pass strictly lowers the squared speed of
/// every moving entity and leaves every resting one at rest.
pub proof fn lemma_damping_pass_decreases(w: WorldView, i: int)
    requires
        0 <= i < w.len(),
        w.vel.len() == w.len(),
        w.vel[i] is Some,
        w.vel[i].unwrap().wf(),
    ensures
        ({
            let v = w.vel[i].unwrap();
            let u = after_damping(w).vel[i].unwrap();
            &&& after_damping(w).vel[i] is Some
            &&& u.vx * u.vx + u.vy * u.vy <= v.vx * v.vx + v.vy * v.vy
            &&& (v.vx != 0 || v.vy != 0) ==> u.vx * u.vx + u.vy * u.vy < v.vx * v.vx + v.vy
                * v.vy
            &&& (v.vx == 0 && v.vy == 0) ==> u.vx == 0 && u.vy == 0
        }),
{
    let v = w.vel[i].unwrap();
    lemma_damping_decreases(v.vx as int, v.vy as int);
    lemma_damped_in_range(v.vx as int);
    lemma_damped_in_range(v.vy as int);
}

/// The spring in slot `j` has an endpoint that is gone or has no position.
pub open spec fn spring_broken(w: WorldView, j: int) -> bool {
    spring_ends(w, j).0 < 0 || spring_ends(w, j).1 < 0 || w.pos[spring_ends(w, j).0] is None
        || w.pos[spring_ends(w, j).1] is None
}

/// A spring whose endpoint is gone or has no position changes no velocity:
/// its step leaves every velocity as it was and reports it broken.
pub proof fn lemma_broken_spring_inert(w: WorldView, vel: Seq<Option<Velocity>>, j: int)
    requires
        w.edge[j] is Some,
        spring_broken(w, j),
    ensures
        spring_step(w, vel, j) == (vel, true),
{
}

proof fn lemma_springs_mark(w: WorldView, j: int, n: nat)
    requires
        0 <= j < n <= w.len(),
        w.edge[j] is Some,
        spring_broken(w, j),
    ensures
        springs_upto(w, n).1.contains(w.ids[j]),
    decreases n,
{
    if n == j + 1 {
        let prev = springs_upto(w, j as nat);
        lemma_broken_spring_inert(w, prev.0, j);
        assert(springs_upto(w, n).1 == prev.1.push(w.ids[j]));
        assert(springs_upto(w, n).1[prev.1.len() as int] == w.ids[j]);
    } else {
        lemma_springs_mark(w, j, (n - 1) as nat);
        let prev = springs_upto(w, (n - 1) as nat).1;
        let k = choose|k: int| 0 <= k < prev.len() && prev[k] == w.ids[j];
        let next = springs_upto(w, n).1;
        assert(next[k] == w.ids[j]);
    }
}

/// A spring whose endpoint is gone or has no position at the start of a
/// tick is no longer alive once the tick's deferred removal has run.
pub proof fn lemma_broken_spring_removed(w: WorldView, j: int, elapsed: int)
    requires
        w.wf(),
        0 <= j < w.len(),
        w.edge[j] is Some,
        spring_broken(w, j),
    ensures
        !tick_result(w, elapsed).is_alive(w.ids[j]),
{
    let w0 = WorldView { delta: tick_span(elapsed), ..w };
    let w1 = if w0.switches.mouse { after_mouse(w0) } else { w0 };
    assert(w1.ids == w.ids && w1.pos == w.pos && w1.edge == w.edge);
    assert(spring_ends(w1, j) == spring_ends(w, j));
    lemma_springs_mark(w1, j, w.len());
    let w2 = after_springs(w1);
    let w3 = if w.switches.repulsion { after_repulsion(w2) } else { w2 };
    let w6 = after_containment(after_integration(after_damping(w3)));
    assert(w6.ids == w.ids && w6.pending == w2.pending);
    let id = w.ids[j];
    let kept = retain_live(w.ids, w.ids, w6.pending);
    if kept.contains(id) {
        let k = choose|k: int| 0 <= k < kept.len() && kept[k] == id;
        lemma_retain_from(w.ids, w.ids, w6.pending, k);
    }
}

#[verifier::spinoff_prover]
proof fn lemma_springs_spare(w: WorldView, i: int, n: nat)
    requires
        w.columns_wf(),
        w.vel.len() == w.len(),
        0 <= i < w.len(),
        n <= w.len(),
        forall|j: int|
            0 <= j < w.len() && w.edge[j] is Some ==> #[trigger] spring_ends(w, j).0 != i
                && spring_ends(w, j).1 != i,
    ensures
        springs_upto(w, n).0.len() == w.vel.len(),
        springs_upto(w, n).0[i] == w.vel[i],
    decreases n,
{
    if n > 0 {
        lemma_springs_spare(w, i, (n - 1) as nat);
        let j = n - 1;
        if w.edge[j] is Some {
            let (a, b) = spring_ends(w, j);
            if a >= 0 {
                assert(0 <= a < w.len());
            }
            if b >= 0 {
                assert(0 <= b < w.len());
            }
        }
    }
}

/// An entity that no force reaches (no pointer tag, no charge, no footprint,
/// no spring ending at it) only loses speed over a pass of all systems: it
/// ends with its damped velocity, so a moving one strictly slows and a
/// resting one stays at rest.
pub proof fn lemma_free_entity_slows(w: WorldView, i: int)
    requires
        w.wf(),
        0 <= i < w.len(),
        w.vel[i] is Some,
        !w.mouse[i],
        w.repel[i] is None,
        w.collider[i] is None,
        forall|j: int|
            0 <= j < w.len() && w.edge[j] is Some ==> #[trigger] spring_ends(w, j).0 != i
                && spring_ends(w, j).1 != i,
    ensures
        systems_step(w).vel[i] == damped_vel(w, i),
        ({
            let v = w.vel[i].unwrap();
            let u = systems_step(w).vel[i].unwrap();
            &&& systems_step(w).vel[i] is Some
            &&& u.vx * u.vx + u.vy * u.vy <= v.vx * v.vx + v.vy * v.vy
            &&& (v.vx != 0 || v.vy != 0) ==> u.vx * u.vx + u.vy * u.vy < v.vx * v.vx + v.vy
                * v.vy
            &&& (v.vx == 0 && v.vy == 0) ==> u.vx == 0 && u.vy == 0
        }),
{
    let w1 = if w.switches.mouse { after_mouse(w) } else { w };
    assert(w1.vel.len() == w.len() && w1.vel[i] == w.vel[i]);
    assert(w1.ids == w.ids && w1.edge == w.edge);
    assert forall|j: int| 0 <= j < w1.len() && w1.edge[j] is Some implies #[trigger] spring_ends(
        w1,
        j,
    ).0 != i && spring_ends(w1, j).1 != i by {
        assert(spring_ends(w1, j) == spring_ends(w, j));
    }
    lemma_springs_spare(w1, i, w.len());
    let w2 = after_springs(w1);
    let w3 = if w.switches.repulsion { after_repulsion(w2) } else { w2 };
    assert(w3.vel.len() == w.len() && w3.vel[i] == w.vel[i]);
    let w4 = after_damping(w3);
    assert(w4.vel[i] == damped_vel(w, i));
    let w5 = after_integration(w4);
    assert(after_containment(w5).vel[i] == w5.vel[i]);
    let v = w.vel[i].unwrap();
    lemma_damping_decreases(v.vx as int, v.vy as int);
    lemma_damped_in_range(v.vx as int);
    lemma_damped_in_range(v.vy as int);
}

/// `w` after `n` damping passes with nothing in between.
pub open spec fn damping_n(w: WorldView, n: nat) -> WorldView
    decreases n,
{
    if n == 0 {
        w
    } else {
        after_damping(damping_n(w, (n - 1) as nat))
    }
}

/// Repeated damping passes with no force in between bring every velocity to
/// rest: after `n` passes each component is `n` damping steps of where it
/// started, each pass strictly slows a moving entity, and once `n` reaches
/// the larger component's magnitude the entity is at rest.
pub proof fn lemma_damping_passes_reach_rest(w: WorldView, i: int, n: nat)
    requires
        0 <= i < w.len(),
        w.vel.len() == w.len(),
        w.vel[i] is Some,
        w.vel[i].unwrap().wf(),
    ensures
        ({
            let v = w.vel[i].unwrap();
            let u = damping_n(w, n).vel[i];
            &&& damping_n(w, n).vel.len() == w.len()
            &&& u == Some(
                Velocity {
                    vx: damped_n(v.vx as int, n) as i64,
                    vy: damped_n(v.vy as int, n) as i64,
                },
            )
            &&& u.unwrap().wf()
            &&& n >= abs(v.vx as int) && n >= abs(v.vy as int) ==> u == Some(
                Velocity { vx: 0, vy: 0 },
            )
        }),
    decreases n,
{
    let v = w.vel[i].unwrap();
    if n > 0 {
        lemma_damping_passes_reach_rest(w, i, (n - 1) as nat);
        let prev = damping_n(w, (n - 1) as nat);
        lemma_damping_pass_decreases(prev, i);
    }
    lemma_damped_n_bound(v.vx as int, n);
    lemma_damped_n_bound(v.vy as int, n);
}

} // verus!

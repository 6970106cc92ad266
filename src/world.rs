//! The entity store: one column per component kind, indexed by slot, with
//! entities kept in creation order.
use vstd::prelude::*;
use crate::components::{
    ArenaSize, Collider, DeltaTime, DomElement, Edge, Entity, MouseAttract, MousePos, Position,
    Repel, Velocity, STIFFNESS_LIMIT,
};
use crate::fixed::{in_range, sat, saturate, LIMIT};
use crate::forces::{
    contain_axis, coulomb_pair, damp_component, integrate_axis, mouse_pull, spring_pair,
    COULOMB_K_LIMIT,
};
use crate::pipeline::{
    after_containment, after_damping, after_integration, after_maintain, after_mouse,
    after_repulsion, after_springs, coulomb_upto, damped_vel, lemma_retain_from, lemma_retain_len,
    lemma_retain_sorted, mouse_vel, moved_pos, repelled_vel, retain_live, spring_step,
    springs_upto, tick_span, walled,
};

verus! {

/// Which force passes a tick runs.
#[derive(Clone, Copy, Debug, PartialEq, Eq, Structural)]
pub struct ForceSwitches {
    pub mouse: bool,
    pub springs: bool,
    pub repulsion: bool,
}

/// The components a new entity starts with. A missing velocity starts at rest.
#[derive(Debug)]
pub struct ComponentBundle {
    pub pos: Option<Position>,
    pub vel: Option<Velocity>,
    pub charge: Option<Repel>,
    pub collider: Option<Collider>,
    pub mouse: Option<MouseAttract>,
    pub dom: Option<DomElement>,
}

impl ComponentBundle {
    pub open spec fn wf(&self) -> bool {
        &&& (self.pos matches Some(p) ==> p.wf())
        &&& (self.vel matches Some(v) ==> v.wf())
        &&& (self.charge matches Some(c) ==> c.wf())
        &&& (self.collider matches Some(c) ==> c.wf())
    }
}

/// The whole simulation: entities, their components, and the scene settings.
pub struct World {
    ids: Vec<u64>,
    pos: Vec<Option<Position>>,
    vel: Vec<Option<Velocity>>,
    repel: Vec<Option<Repel>>,
    mouse: Vec<bool>,
    collider: Vec<Option<Collider>>,
    dom: Vec<Option<DomElement>>,
    edge: Vec<Option<Edge>>,
    pending: Vec<u64>,
    next_id: u64,
    delta: DeltaTime,
    mouse_pos: MousePos,
    arena: ArenaSize,
    coulomb_k: i64,
    switches: ForceSwitches,
}

/// The mathematical content of a `World`: slot `i` of every column belongs to
/// the entity `ids[i]`.
pub struct WorldView {
    pub ids: Seq<u64>,
    pub pos: Seq<Option<Position>>,
    pub vel: Seq<Option<Velocity>>,
    pub repel: Seq<Option<Repel>>,
    pub mouse: Seq<bool>,
    pub collider: Seq<Option<Collider>>,
    pub dom: Seq<Option<DomElement>>,
    pub edge: Seq<Option<Edge>>,
    /// Entities marked for removal at the end of the tick.
    pub pending: Seq<u64>,
    pub next_id: u64,
    pub delta: int,
    pub mouse_pos: (int, int),
    pub arena: (int, int),
    pub coulomb_k: int,
    pub switches: ForceSwitches,
}

impl View for World {
    type V = WorldView;

    closed spec fn view(&self) -> WorldView {
        WorldView {
            ids: self.ids@,
            pos: self.pos@,
            vel: self.vel@,
            repel: self.repel@,
            mouse: self.mouse@,
            collider: self.collider@,
            dom: self.dom@,
            edge: self.edge@,
            pending: self.pending@,
            next_id: self.next_id,
            delta: self.delta.0 as int,
            mouse_pos: (self.mouse_pos.0.0 as int, self.mouse_pos.0.1 as int),
            arena: (self.arena.0.0 as int, self.arena.0.1 as int),
            coulomb_k: self.coulomb_k as int,
            switches: self.switches,
        }
    }
}

impl WorldView {
    pub open spec fn len(self) -> nat {
        self.ids.len()
    }

    /// Slot of the live entity `id`, or -1.
    pub open spec fn slot_of(self, id: u64) -> int {
        if exists|i: int| 0 <= i < self.ids.len() && self.ids[i] == id {
            choose|i: int| 0 <= i < self.ids.len() && self.ids[i] == id
        } else {
            -1
        }
    }

    pub open spec fn is_alive(self, id: u64) -> bool {
        self.ids.contains(id)
    }

    pub open spec fn columns_wf(self) -> bool {
        &&& self.pos.len() == self.ids.len()
        &&& self.vel.len() == self.ids.len()
        &&& self.repel.len() == self.ids.len()
        &&& self.mouse.len() == self.ids.len()
        &&& self.collider.len() == self.ids.len()
        &&& self.dom.len() == self.ids.len()
        &&& self.edge.len() == self.ids.len()
        &&& forall|i: int, j: int| 0 <= i < j < self.ids.len() ==> self.ids[i] < self.ids[j]
        &&& forall|i: int| 0 <= i < self.ids.len() ==> #[trigger] self.ids[i] < self.next_id
        &&& forall|i: int|
            0 <= i < self.ids.len() ==> (#[trigger] self.pos[i] matches Some(p) ==> p.wf())
        &&& forall|i: int|
            0 <= i < self.ids.len() ==> (#[trigger] self.vel[i] matches Some(v) ==> v.wf())
        &&& forall|i: int|
            0 <= i < self.ids.len() ==> (#[trigger] self.repel[i] matches Some(c) ==> c.wf())
        &&& forall|i: int|
            0 <= i < self.ids.len() ==> (#[trigger] self.collider[i] matches Some(c) ==> c.wf())
        &&& forall|i: int|
            0 <= i < self.ids.len() ==> (#[trigger] self.edge[i] matches Some(e) ==> e.wf())
    }

    pub open spec fn wf(self) -> bool {
        &&& self.columns_wf()
        &&& 0 <= self.delta
        &&& in_range(self.mouse_pos.0)
        &&& in_range(self.mouse_pos.1)
        &&& 0 <= self.coulomb_k <= COULOMB_K_LIMIT
    }
}

/// `w` with one more entity, holding the components of `b`, at its end.
pub open spec fn with_spawned(w: WorldView, b: ComponentBundle) -> WorldView {
    WorldView {
        ids: w.ids.push(w.next_id),
        pos: w.pos.push(b.pos),
        vel: w.vel.push(
            Some(
                match b.vel {
                    Some(v) => v,
                    None => Velocity { vx: 0, vy: 0 },
                },
            ),
        ),
        repel: w.repel.push(b.charge),
        mouse: w.mouse.push(b.mouse is Some),
        collider: w.collider.push(b.collider),
        dom: w.dom.push(b.dom),
        edge: w.edge.push(None),
        next_id: (w.next_id + 1) as u64,
        ..w
    }
}

/// Identity and position of each of the first `n` slots that has a position.
pub open spec fn snapshot(w: WorldView, n: nat) -> Seq<(u64, i64, i64)>
    decreases n,
{
    if n == 0 {
        Seq::empty()
    } else {
        let prev = snapshot(w, (n - 1) as nat);
        match w.pos[n - 1] {
            Some(p) => prev.push((w.ids[n - 1], p.x, p.y)),
            None => prev,
        }
    }
}

/// The components in slot `i` of a well-formed view are well formed.
pub proof fn lemma_slot_wf(w: WorldView, i: int)
    requires
        w.columns_wf(),
        0 <= i < w.len(),
    ensures
        w.pos[i] matches Some(p) ==> p.wf(),
        w.vel[i] matches Some(v) ==> v.wf(),
        w.collider[i] matches Some(c) ==> c.wf(),
{
}

/// Every entry of `s.remove(i)` has a property that every entry of `s` has.
proof fn lemma_remove_keeps<T>(s: Seq<T>, i: int, ok: spec_fn(T) -> bool)
    requires
        0 <= i < s.len(),
        forall|k: int| 0 <= k < s.len() ==> ok(#[trigger] s[k]),
    ensures
        forall|k: int| 0 <= k < s.len() - 1 ==> ok(#[trigger] s.remove(i)[k]),
{
    assert forall|k: int| 0 <= k < s.len() - 1 implies ok(#[trigger] s.remove(i)[k]) by {
        if k >= i {
            assert(s.remove(i)[k] == s[k + 1]);
        } else {
            assert(s.remove(i)[k] == s[k]);
        }
    }
}

/// Every entry of `s.update(i, x)` has a property that `x` and every entry of `s` have.
proof fn lemma_update_keeps<T>(s: Seq<T>, i: int, x: T, ok: spec_fn(T) -> bool)
    requires
        0 <= i < s.len(),
        ok(x),
        forall|k: int| 0 <= k < s.len() ==> ok(#[trigger] s[k]),
    ensures
        forall|k: int| 0 <= k < s.len() ==> ok(#[trigger] s.update(i, x)[k]),
{
    assert forall|k: int| 0 <= k < s.len() implies ok(#[trigger] s.update(i, x)[k]) by {
        if k != i {
            assert(s.update(i, x)[k] == s[k]);
        }
    }
}

/// Every entry kept by `retain_live` has a property that every entry of `s` has.
proof fn lemma_retain_keeps<T>(s: Seq<T>, ids: Seq<u64>, dead: Seq<u64>, ok: spec_fn(T) -> bool)
    requires
        s.len() == ids.len(),
        forall|k: int| 0 <= k < s.len() ==> ok(#[trigger] s[k]),
    ensures
        forall|k: int|
            0 <= k < retain_live(s, ids, dead).len() ==> ok(#[trigger] retain_live(s, ids, dead)[k]),
{
    assert forall|k: int| 0 <= k < retain_live(s, ids, dead).len() implies ok(
        #[trigger] retain_live(s, ids, dead)[k],
    ) by {
        lemma_retain_from(s, ids, dead, k);
    }
}

pub proof fn lemma_slot_of(v: WorldView, i: int)
    requires
        v.columns_wf(),
        0 <= i < v.ids.len(),
    ensures
        v.slot_of(v.ids[i]) == i,
{
    let j = v.slot_of(v.ids[i]);
    assert(0 <= j < v.ids.len() && v.ids[j] == v.ids[i]);
    if j < i {
        assert(v.ids[j] < v.ids[i]);
    } else if i < j {
        assert(v.ids[i] < v.ids[j]);
    }
}

/// A fresh world: no entities, the pointer and arena at zero, `k = 1`, every
/// force switched on.
pub fn initialize_world() -> (w: World)
    ensures
        w@.wf(),
        w@.len() == 0,
        w@.pending.len() == 0,
        w@.next_id == 0,
        w@.delta == 0,
        w@.mouse_pos == (0int, 0int),
        w@.arena == (0int, 0int),
        w@.coulomb_k == 1,
        w@.switches == (ForceSwitches { mouse: true, springs: true, repulsion: true }),
{
    World {
        ids: Vec::new(),
        pos: Vec::new(),
        vel: Vec::new(),
        repel: Vec::new(),
        mouse: Vec::new(),
        collider: Vec::new(),
        dom: Vec::new(),
        edge: Vec::new(),
        pending: Vec::new(),
        next_id: 0,
        delta: DeltaTime(0),
        mouse_pos: MousePos((0, 0)),
        arena: ArenaSize((0, 0)),
        coulomb_k: 1,
        switches: ForceSwitches { mouse: true, springs: true, repulsion: true },
    }
}

impl World {
    /// Slot of `e`, if it is alive.
    fn find(&self, e: Entity) -> (r: Option<usize>)
        requires
            self@.columns_wf(),
        ensures
            r matches Some(i) ==> i < self@.len() && self@.ids[i as int] == e.id && self@.slot_of(
                e.id,
            ) == i,
            r is None ==> !self@.is_alive(e.id) && self@.slot_of(e.id) == -1,
    {
        let mut i: usize = 0;
        while i < self.ids.len()
            invariant
                self@.columns_wf(),
                i <= self@.len(),
                forall|j: int| 0 <= j < i ==> self@.ids[j] != e.id,
            decreases self@.len() - i,
        {
            if self.ids[i] == e.id {
                proof {
                    lemma_slot_of(self@, i as int);
                }
                return Some(i);
            }
            i += 1;
        }
        None
    }

    /// Creates an entity with the components of `bundle`; its velocity starts
    /// at rest unless the bundle gives one.
    pub fn spawn(&mut self, bundle: ComponentBundle) -> (e: Entity)
        requires
            old(self)@.wf(),
            bundle.wf(),
            old(self)@.next_id < u64::MAX,
        ensures
            final(self)@.wf(),
            e.id == old(self)@.next_id,
            !old(self)@.is_alive(e.id),
            final(self)@ == with_spawned(old(self)@, bundle),
    {
        let id = self.next_id;
        let vel = match bundle.vel {
            Some(v) => v,
            None => Velocity { vx: 0, vy: 0 },
        };
        self.ids.push(id);
        self.pos.push(bundle.pos);
        self.vel.push(Some(vel));
        self.repel.push(bundle.charge);
        self.mouse.push(bundle.mouse.is_some());
        self.collider.push(bundle.collider);
        self.dom.push(bundle.dom);
        self.edge.push(None);
        self.next_id = id + 1;
        Entity { id }
    }

    /// Creates a spring between `a` and `b`, provided both are alive and have
    /// a position; otherwise changes nothing.
    pub fn connect_edge(&mut self, a: Entity, b: Entity, rest: i64, stiffness: i64) -> (r: Option<Entity>)
        requires
            old(self)@.wf(),
            old(self)@.next_id < u64::MAX,
            0 <= rest <= LIMIT,
            0 <= stiffness <= STIFFNESS_LIMIT,
        ensures
            final(self)@.wf(),
            r is Some <==> ({
                let v = old(self)@;
                &&& v.slot_of(a.id) >= 0
                &&& v.slot_of(b.id) >= 0
                &&& v.pos[v.slot_of(a.id)] is Some
                &&& v.pos[v.slot_of(b.id)] is Some
            }),
            r is None ==> final(self)@ == old(self)@,
            r matches Some(e) ==> e.id == old(self)@.next_id && final(self)@ == (WorldView {
                ids: old(self)@.ids.push(e.id),
                pos: old(self)@.pos.push(None),
                vel: old(self)@.vel.push(None),
                repel: old(self)@.repel.push(None),
                mouse: old(self)@.mouse.push(false),
                collider: old(self)@.collider.push(None),
                dom: old(self)@.dom.push(None),
                edge: old(self)@.edge.push(Some(Edge { nodes: (a, b), ideal: rest, k: stiffness })),
                next_id: (old(self)@.next_id + 1) as u64,
                ..old(self)@
            }),
    {
        let ia = match self.find(a) {
            Some(i) => i,
            None => return None,
        };
        let ib = match self.find(b) {
            Some(i) => i,
            None => return None,
        };
        if self.pos[ia].is_none() || self.pos[ib].is_none() {
            return None;
        }
        let id = self.next_id;
        self.ids.push(id);
        self.pos.push(None);
        self.vel.push(None);
        self.repel.push(None);
        self.mouse.push(false);
        self.collider.push(None);
        self.dom.push(None);
        self.edge.push(Some(Edge { nodes: (a, b), ideal: rest, k: stiffness }));
        self.next_id = id + 1;
        Some(Entity { id })
    }

    /// Asks for `e` to be removed when the current tick ends.
    pub fn mark_for_removal(&mut self, e: Entity)
        requires
            old(self)@.wf(),
        ensures
            final(self)@.wf(),
            final(self)@ == (WorldView { pending: old(self)@.pending.push(e.id), ..old(self)@ }),
    {
        self.pending.push(e.id);
    }

    /// Pulls every tagged entity toward the pointer.
    pub fn apply_mouse(&mut self)
        requires
            old(self)@.wf(),
        ensures
            final(self)@ == after_mouse(old(self)@),
            final(self)@.wf(),
    {
        let ghost w0 = self@;
        let n = self.ids.len();
        let mut i: usize = 0;
        while i < n
            invariant
                w0.wf(),
                n == w0.len(),
                i <= n,
                self@ == (WorldView { vel: self@.vel, ..w0 }),
                self@.vel.len() == n,
                forall|m: int| 0 <= m < i ==> self@.vel[m] == mouse_vel(w0, m),
                forall|m: int| i <= m < n ==> self@.vel[m] == w0.vel[m],
            decreases n - i,
        {
            proof {
                lemma_slot_wf(w0, i as int);
            }
            if self.mouse[i] {
                if let Some(p) = self.pos[i] {
                    if let Some(v) = self.vel[i] {
                        let d = mouse_pull(&p, self.mouse_pos.0.0, self.mouse_pos.0.1);
                        let mut v2 = v;
                        v2.apply_force_vector(d.0, d.1);
                        self.vel.set(i, Some(v2));
                    }
                }
            }
            i += 1;
        }
        proof {
            assert(self@.vel =~= after_mouse(w0).vel);
        }
    }

    /// Applies every spring to both its endpoints while the spring force is
    /// on; a spring whose endpoint is gone, or lacks a position or velocity,
    /// acts on neither and is marked for removal, whether the force is on or not.
    pub fn apply_springs(&mut self)
        requires
            old(self)@.wf(),
        ensures
            final(self)@ == after_springs(old(self)@),
            final(self)@.wf(),
    {
        let ghost w0 = self@;
        let n = self.ids.len();
        let active = self.switches.springs;
        let mut j: usize = 0;
        while j < n
            invariant
                w0.wf(),
                n == w0.len(),
                active == w0.switches.springs,
                j <= n,
                self@ == (WorldView { vel: self@.vel, pending: self@.pending, ..w0 }),
                (self@.vel, self@.pending) == springs_upto(w0, j as nat),
                self@.vel.len() == n,
                forall|m: int|
                    0 <= m < n ==> (#[trigger] self@.vel[m] matches Some(v) ==> v.wf()),
            decreases n - j,
        {
            if let Some(e) = self.edge[j] {
                let ia = self.find(e.nodes.0);
                let ib = self.find(e.nodes.1);
                let mut broken = true;
                if let Some(a) = ia {
                    if let Some(b) = ib {
                        if self.pos[a].is_some() && self.pos[b].is_some() && self.vel[a].is_some()
                            && self.vel[b].is_some() {
                            broken = false;
                            if active {
                                let pa = self.pos[a].unwrap();
                                let pb = self.pos[b].unwrap();
                                let d = spring_pair(&pa, &pb, e.ideal, e.k);
                                let mut va = self.vel[a].unwrap();
                                va.apply_force_vector(d.0, d.1);
                                self.vel.set(a, Some(va));
                                let mut vb = self.vel[b].unwrap();
                                vb.apply_force_vector(-d.0, -d.1);
                                self.vel.set(b, Some(vb));
                            }
                        }
                    }
                }
                if broken {
                    let id = self.ids[j];
                    self.pending.push(id);
                }
            }
            proof {
                let prev = springs_upto(w0, j as nat);
                assert(springs_upto(w0, (j + 1) as nat) == ({
                    let step = spring_step(w0, prev.0, j as int);
                    (step.0, if step.1 { prev.1.push(w0.ids[j as int]) } else { prev.1 })
                }));
            }
            j += 1;
        }
    }

    /// Pushes every charged entity away from (or toward) every other one.
    pub fn apply_repulsion(&mut self)
        requires
            old(self)@.wf(),
        ensures
            final(self)@ == after_repulsion(old(self)@),
            final(self)@.wf(),
    {
        let ghost w0 = self@;
        let n = self.ids.len();
        let k = self.coulomb_k;
        let mut i: usize = 0;
        while i < n
            invariant
                w0.wf(),
                n == w0.len(),
                k == w0.coulomb_k,
                i <= n,
                self@ == (WorldView { vel: self@.vel, ..w0 }),
                self@.vel.len() == n,
                forall|m: int| 0 <= m < i ==> self@.vel[m] == repelled_vel(w0, m),
                forall|m: int| i <= m < n ==> self@.vel[m] == w0.vel[m],
                forall|m: int|
                    0 <= m < n ==> (#[trigger] self@.vel[m] matches Some(v) ==> v.wf()),
            decreases n - i,
        {
            if self.pos[i].is_some() && self.vel[i].is_some() && self.repel[i].is_some() {
                let pi = self.pos[i].unwrap();
                let ci = self.repel[i].unwrap().charge;
                let mut v = self.vel[i].unwrap();
                let mut j: usize = 0;
                while j < n
                    invariant
                        w0.wf(),
                        n == w0.len(),
                        k == w0.coulomb_k,
                        i < n,
                        j <= n,
                        self@ == (WorldView { vel: self@.vel, ..w0 }),
                        w0.pos[i as int] == Some(pi),
                        w0.repel[i as int] matches Some(c) && c.charge == ci,
                        w0.vel[i as int] is Some,
                        v == coulomb_upto(w0, i as int, w0.vel[i as int].unwrap(), j as nat),
                        v.wf(),
                    decreases n - j,
                {
                    if j != i {
                        if let Some(pj) = self.pos[j] {
                            if let Some(cj) = self.repel[j] {
                                let d = coulomb_pair(k, &pi, &pj, ci, cj.charge);
                                v.apply_force_vector(d.0, d.1);
                            }
                        }
                    }
                    j += 1;
                }
                self.vel.set(i, Some(v));
            }
            i += 1;
        }
        proof {
            assert(self@.vel =~= after_repulsion(w0).vel);
        }
    }

    /// Scales every velocity by the damping factor.
    pub fn apply_damping(&mut self)
        requires
            old(self)@.wf(),
        ensures
            final(self)@ == after_damping(old(self)@),
            final(self)@.wf(),
    {
        let ghost w0 = self@;
        let n = self.ids.len();
        let mut i: usize = 0;
        while i < n
            invariant
                w0.wf(),
                n == w0.len(),
                i <= n,
                self@ == (WorldView { vel: self@.vel, ..w0 }),
                self@.vel.len() == n,
                forall|m: int| 0 <= m < i ==> self@.vel[m] == damped_vel(w0, m),
                forall|m: int| i <= m < n ==> self@.vel[m] == w0.vel[m],
            decreases n - i,
        {
            proof {
                lemma_slot_wf(w0, i as int);
            }
            if let Some(v) = self.vel[i] {
                let d = Velocity { vx: damp_component(v.vx), vy: damp_component(v.vy) };
                self.vel.set(i, Some(d));
            }
            i += 1;
        }
        proof {
            assert(self@.vel =~= after_damping(w0).vel);
        }
    }

    /// Moves every entity by its velocity over the tick's elapsed time.
    pub fn apply_velocity(&mut self)
        requires
            old(self)@.wf(),
        ensures
            final(self)@ == after_integration(old(self)@),
            final(self)@.wf(),
    {
        let ghost w0 = self@;
        let n = self.ids.len();
        let dt = self.delta.0;
        let mut i: usize = 0;
        while i < n
            invariant
                w0.wf(),
                n == w0.len(),
                dt == w0.delta,
                i <= n,
                self@ == (WorldView { pos: self@.pos, ..w0 }),
                self@.pos.len() == n,
                forall|m: int| 0 <= m < i ==> self@.pos[m] == moved_pos(w0, m),
                forall|m: int| i <= m < n ==> self@.pos[m] == w0.pos[m],
            decreases n - i,
        {
            proof {
                lemma_slot_wf(w0, i as int);
            }
            if let Some(p) = self.pos[i] {
                if let Some(v) = self.vel[i] {
                    let q = Position { x: integrate_axis(p.x, v.vx, dt), y: integrate_axis(p.y, v.vy, dt) };
                    self.pos.set(i, Some(q));
                }
            }
            i += 1;
        }
        proof {
            assert(self@.pos =~= after_integration(w0).pos);
        }
    }

    /// Keeps every footprint inside the arena, bouncing what had to move.
    pub fn apply_walls(&mut self)
        requires
            old(self)@.wf(),
        ensures
            final(self)@ == after_containment(old(self)@),
            final(self)@.wf(),
    {
        let ghost w0 = self@;
        let n = self.ids.len();
        let (aw, ah) = self.arena.0;
        let mut i: usize = 0;
        while i < n
            invariant
                w0.wf(),
                n == w0.len(),
                aw == w0.arena.0,
                ah == w0.arena.1,
                i <= n,
                self@ == (WorldView { pos: self@.pos, vel: self@.vel, ..w0 }),
                self@.pos.len() == n,
                self@.vel.len() == n,
                forall|m: int| 0 <= m < i ==> self@.pos[m] == walled(w0, m).0,
                forall|m: int| 0 <= m < i ==> self@.vel[m] == walled(w0, m).1,
                forall|m: int| i <= m < n ==> self@.pos[m] == w0.pos[m],
                forall|m: int| i <= m < n ==> self@.vel[m] == w0.vel[m],
            decreases n - i,
        {
            proof {
                lemma_slot_wf(w0, i as int);
            }
            if let Some(p) = self.pos[i] {
                if let Some(c) = self.collider[i] {
                    let (vx, vy) = match self.vel[i] {
                        Some(v) => (v.vx, v.vy),
                        None => (0, 0),
                    };
                    let (x, vx2) = contain_axis(p.x, vx, c.w, aw);
                    let (y, vy2) = contain_axis(p.y, vy, c.h, ah);
                    self.pos.set(i, Some(Position { x, y }));
                    if self.vel[i].is_some() {
                        self.vel.set(i, Some(Velocity { vx: vx2, vy: vy2 }));
                    }
                }
            }
            i += 1;
        }
        proof {
            assert(self@.pos =~= after_containment(w0).pos);
            assert(self@.vel =~= after_containment(w0).vel);
        }
    }

    /// Applies every pending removal at once and clears the marks.
    pub fn maintain(&mut self)
        requires
            old(self)@.wf(),
        ensures
            final(self)@ == after_maintain(old(self)@),
            final(self)@.wf(),
    {
        let ghost w0 = self@;
        let mut keys: Vec<u64> = Vec::new();
        let mut i: usize = 0;
        while i < self.ids.len()
            invariant
                self@ == w0,
                i <= w0.len(),
                keys@ == w0.ids.take(i as int),
            decreases w0.len() - i,
        {
            keys.push(self.ids[i]);
            proof {
                assert(keys@ =~= w0.ids.take(i + 1));
            }
            i += 1;
        }
        proof {
            assert(keys@ =~= w0.ids);
        }
        drop_dead(&mut self.pos, &keys, &self.pending);
        drop_dead(&mut self.vel, &keys, &self.pending);
        drop_dead(&mut self.repel, &keys, &self.pending);
        drop_dead(&mut self.mouse, &keys, &self.pending);
        drop_dead(&mut self.collider, &keys, &self.pending);
        drop_dead(&mut self.dom, &keys, &self.pending);
        drop_dead(&mut self.edge, &keys, &self.pending);
        drop_dead(&mut self.ids, &keys, &self.pending);
        self.pending = Vec::new();
        proof {
            let d = w0.pending;
            let ids = w0.ids;
            lemma_retain_len(w0.pos, ids, d);
            lemma_retain_len(w0.vel, ids, d);
            lemma_retain_len(w0.repel, ids, d);
            lemma_retain_len(w0.mouse, ids, d);
            lemma_retain_len(w0.collider, ids, d);
            lemma_retain_len(w0.dom, ids, d);
            lemma_retain_len(w0.edge, ids, d);
            lemma_retain_sorted(ids, d);
            lemma_retain_keeps(ids, ids, d, |x: u64| x < w0.next_id);
            lemma_retain_keeps(w0.pos, ids, d, |o: Option<Position>| o matches Some(p) ==> p.wf());
            lemma_retain_keeps(w0.vel, ids, d, |o: Option<Velocity>| o matches Some(v) ==> v.wf());
            lemma_retain_keeps(w0.repel, ids, d, |o: Option<Repel>| o matches Some(c) ==> c.wf());
            lemma_retain_keeps(
                w0.collider,
                ids,
                d,
                |o: Option<Collider>| o matches Some(c) ==> c.wf(),
            );
            lemma_retain_keeps(w0.edge, ids, d, |o: Option<Edge>| o matches Some(e) ==> e.wf());
            assert(self@ =~= after_maintain(w0));
        }
    }

    /// Gives `e` the position `value`, or takes its position away when `value` is `None`.
    /// Returns false, changing nothing, if `e` is not alive.
    pub fn set_position(&mut self, e: Entity, value: Option<Position>) -> (r: bool)
        requires
            old(self)@.wf(),
            value matches Some(c) ==> c.wf(),
        ensures
            final(self)@.wf(),
            r == old(self)@.is_alive(e.id),
            !r ==> final(self)@ == old(self)@,
            r ==> final(self)@ == (WorldView {
                pos: old(self)@.pos.update(old(self)@.slot_of(e.id), value),
                ..old(self)@
            }),
    {
        let ghost w0 = self@;
        match self.find(e) {
            None => false,
            Some(i) => {
                self.pos.set(i, value);
                proof {
                    lemma_update_keeps(
                        w0.pos,
                        i as int,
                        value,
                        |o: Option<Position>| o matches Some(p) ==> p.wf(),
                    );
                }
                true
            },
        }
    }

    /// Gives `e` the velocity `value`, or takes its velocity away when `value` is `None`.
    /// Returns false, changing nothing, if `e` is not alive.
    pub fn set_velocity(&mut self, e: Entity, value: Option<Velocity>) -> (r: bool)
        requires
            old(self)@.wf(),
            value matches Some(c) ==> c.wf(),
        ensures
            final(self)@.wf(),
            r == old(self)@.is_alive(e.id),
            !r ==> final(self)@ == old(self)@,
            r ==> final(self)@ == (WorldView {
                vel: old(self)@.vel.update(old(self)@.slot_of(e.id), value),
                ..old(self)@
            }),
    {
        let ghost w0 = self@;
        match self.find(e) {
            None => false,
            Some(i) => {
                self.vel.set(i, value);
                proof {
                    lemma_update_keeps(
                        w0.vel,
                        i as int,
                        value,
                        |o: Option<Velocity>| o matches Some(v) ==> v.wf(),
                    );
                }
                true
            },
        }
    }

    /// Gives `e` the charge `value`, or takes its charge away when `value` is `None`.
    /// Returns false, changing nothing, if `e` is not alive.
    pub fn set_charge(&mut self, e: Entity, value: Option<Repel>) -> (r: bool)
        requires
            old(self)@.wf(),
            value matches Some(c) ==> c.wf(),
        ensures
            final(self)@.wf(),
            r == old(self)@.is_alive(e.id),
            !r ==> final(self)@ == old(self)@,
            r ==> final(self)@ == (WorldView {
                repel: old(self)@.repel.update(old(self)@.slot_of(e.id), value),
                ..old(self)@
            }),
    {
        let ghost w0 = self@;
        match self.find(e) {
            None => false,
            Some(i) => {
                self.repel.set(i, value);
                proof {
                    lemma_update_keeps(
                        w0.repel,
                        i as int,
                        value,
                        |o: Option<Repel>| o matches Some(c) ==> c.wf(),
                    );
                }
                true
            },
        }
    }

    /// Gives `e` the footprint `value`, or takes its footprint away when `value` is `None`.
    /// Returns false, changing nothing, if `e` is not alive.
    pub fn set_collider(&mut self, e: Entity, value: Option<Collider>) -> (r: bool)
        requires
            old(self)@.wf(),
            value matches Some(c) ==> c.wf(),
        ensures
            final(self)@.wf(),
            r == old(self)@.is_alive(e.id),
            !r ==> final(self)@ == old(self)@,
            r ==> final(self)@ == (WorldView {
                collider: old(self)@.collider.update(old(self)@.slot_of(e.id), value),
                ..old(self)@
            }),
    {
        let ghost w0 = self@;
        match self.find(e) {
            None => false,
            Some(i) => {
                self.collider.set(i, value);
                proof {
                    lemma_update_keeps(
                        w0.collider,
                        i as int,
                        value,
                        |o: Option<Collider>| o matches Some(c) ==> c.wf(),
                    );
                }
                true
            },
        }
    }

    /// Tags `e` as pulled toward the pointer, or removes the tag.
    /// Returns false, changing nothing, if `e` is not alive.
    pub fn set_mouse_attract(&mut self, e: Entity, value: bool) -> (r: bool)
        requires
            old(self)@.wf(),
        ensures
            final(self)@.wf(),
            r == old(self)@.is_alive(e.id),
            !r ==> final(self)@ == old(self)@,
            r ==> final(self)@ == (WorldView {
                mouse: old(self)@.mouse.update(old(self)@.slot_of(e.id), value),
                ..old(self)@
            }),
    {
        let ghost w0 = self@;
        match self.find(e) {
            None => false,
            Some(i) => {
                self.mouse.set(i, value);
                true
            },
        }
    }

    /// Gives `e` the renderer name `value`, or takes it away when `value` is `None`.
    /// Returns false, changing nothing, if `e` is not alive.
    pub fn set_dom_element(&mut self, e: Entity, value: Option<DomElement>) -> (r: bool)
        requires
            old(self)@.wf(),
        ensures
            final(self)@.wf(),
            r == old(self)@.is_alive(e.id),
            !r ==> final(self)@ == old(self)@,
            r ==> final(self)@ == (WorldView {
                dom: old(self)@.dom.update(old(self)@.slot_of(e.id), value),
                ..old(self)@
            }),
    {
        let ghost w0 = self@;
        match self.find(e) {
            None => false,
            Some(i) => {
                self.dom.set(i, value);
                true
            },
        }
    }

    /// Sets the time the next passes advance; a negative time counts as zero.
    pub fn set_elapsed(&mut self, ms: i64)
        requires
            old(self)@.wf(),
        ensures
            final(self)@.wf(),
            final(self)@ == (WorldView { delta: tick_span(ms as int), ..old(self)@ }),
    {
        let d = if ms < 0 {
            0
        } else {
            ms
        };
        self.delta = DeltaTime(d);
    }

    /// Moves the pointer; each coordinate saturates into `[-LIMIT, LIMIT]`.
    pub fn set_mouse_pos(&mut self, x: i64, y: i64)
        requires
            old(self)@.wf(),
        ensures
            final(self)@.wf(),
            final(self)@ == (WorldView { mouse_pos: (sat(x as int), sat(y as int)), ..old(self)@ }),
    {
        self.mouse_pos = MousePos((saturate(x as i128), saturate(y as i128)));
    }

    pub fn set_arena_size(&mut self, w: i64, h: i64)
        requires
            old(self)@.wf(),
        ensures
            final(self)@.wf(),
            final(self)@ == (WorldView { arena: (w as int, h as int), ..old(self)@ }),
    {
        self.arena = ArenaSize((w, h));
    }

    pub fn set_coulomb_k(&mut self, k: i64)
        requires
            old(self)@.wf(),
            0 <= k <= COULOMB_K_LIMIT,
        ensures
            final(self)@.wf(),
            final(self)@ == (WorldView { coulomb_k: k as int, ..old(self)@ }),
    {
        self.coulomb_k = k;
    }

    pub fn set_forces(&mut self, switches: ForceSwitches)
        requires
            old(self)@.wf(),
        ensures
            final(self)@.wf(),
            final(self)@ == (WorldView { switches, ..old(self)@ }),
    {
        self.switches = switches;
    }

    pub fn forces(&self) -> (r: ForceSwitches)
        ensures
            r == self@.switches,
    {
        self.switches
    }

    pub fn arena_size(&self) -> (r: ArenaSize)
        ensures
            r.0.0 == self@.arena.0,
            r.0.1 == self@.arena.1,
    {
        self.arena
    }

    pub fn mouse_pos(&self) -> (r: MousePos)
        ensures
            r.0.0 == self@.mouse_pos.0,
            r.0.1 == self@.mouse_pos.1,
    {
        self.mouse_pos
    }

    pub fn delta(&self) -> (r: DeltaTime)
        ensures
            r.0 == self@.delta,
    {
        self.delta
    }

    /// Identity the next created entity will get.
    pub fn next_id(&self) -> (r: u64)
        ensures
            r == self@.next_id,
    {
        self.next_id
    }

    /// Number of live entities, edges included.
    pub fn entity_count(&self) -> (r: usize)
        ensures
            r == self@.len(),
    {
        self.ids.len()
    }

    /// Number of removal marks waiting for the end of the tick.
    pub fn pending_count(&self) -> (r: usize)
        ensures
            r == self@.pending.len(),
    {
        self.pending.len()
    }

    pub fn is_alive(&self, e: Entity) -> (r: bool)
        requires
            self@.wf(),
        ensures
            r == self@.is_alive(e.id),
    {
        self.find(e).is_some()
    }

    pub fn position_of(&self, e: Entity) -> (r: Option<Position>)
        requires
            self@.wf(),
        ensures
            r == (if self@.slot_of(e.id) >= 0 { self@.pos[self@.slot_of(e.id)] } else { None }),
    {
        match self.find(e) {
            Some(i) => self.pos[i],
            None => None,
        }
    }

    pub fn velocity_of(&self, e: Entity) -> (r: Option<Velocity>)
        requires
            self@.wf(),
        ensures
            r == (if self@.slot_of(e.id) >= 0 { self@.vel[self@.slot_of(e.id)] } else { None }),
    {
        match self.find(e) {
            Some(i) => self.vel[i],
            None => None,
        }
    }

    pub fn edge_of(&self, e: Entity) -> (r: Option<Edge>)
        requires
            self@.wf(),
        ensures
            r == (if self@.slot_of(e.id) >= 0 { self@.edge[self@.slot_of(e.id)] } else { None }),
    {
        match self.find(e) {
            Some(i) => self.edge[i],
            None => None,
        }
    }

    pub fn dom_element(&self, e: Entity) -> (r: Option<&DomElement>)
        requires
            self@.wf(),
        ensures
            r is Some <==> self@.slot_of(e.id) >= 0 && self@.dom[self@.slot_of(e.id)] is Some,
            r matches Some(d) ==> self@.dom[self@.slot_of(e.id)] == Some(*d),
    {
        match self.find(e) {
            Some(i) => self.dom[i].as_ref(),
            None => None,
        }
    }

    /// Removes `e` at once from every column; false if it was not alive.
    pub fn despawn(&mut self, e: Entity) -> (r: bool)
        requires
            old(self)@.wf(),
        ensures
            final(self)@.wf(),
            r == old(self)@.is_alive(e.id),
            !r ==> final(self)@ == old(self)@,
            r ==> ({
                let v = old(self)@;
                let i = v.slot_of(e.id);
                final(self)@ == (WorldView {
                    ids: v.ids.remove(i),
                    pos: v.pos.remove(i),
                    vel: v.vel.remove(i),
                    repel: v.repel.remove(i),
                    mouse: v.mouse.remove(i),
                    collider: v.collider.remove(i),
                    dom: v.dom.remove(i),
                    edge: v.edge.remove(i),
                    ..v
                })
            }),
    {
        let ghost w0 = self@;
        match self.find(e) {
            None => false,
            Some(i) => {
                self.ids.remove(i);
                self.pos.remove(i);
                self.vel.remove(i);
                self.repel.remove(i);
                self.mouse.remove(i);
                self.collider.remove(i);
                self.dom.remove(i);
                self.edge.remove(i);
                proof {
                    let w = self@;
                    assert forall|a: int, b: int| 0 <= a < b < w.ids.len() implies w.ids[a]
                        < w.ids[b] by {
                        let a0 = if a < i { a } else { a + 1 };
                        let b0 = if b < i { b } else { b + 1 };
                        assert(w.ids[a] == w0.ids[a0] && w.ids[b] == w0.ids[b0]);
                    }
                    lemma_remove_keeps(w0.ids, i as int, |x: u64| x < w0.next_id);
                    lemma_remove_keeps(
                        w0.pos,
                        i as int,
                        |o: Option<Position>| o matches Some(p) ==> p.wf(),
                    );
                    lemma_remove_keeps(
                        w0.vel,
                        i as int,
                        |o: Option<Velocity>| o matches Some(v) ==> v.wf(),
                    );
                    lemma_remove_keeps(
                        w0.repel,
                        i as int,
                        |o: Option<Repel>| o matches Some(c) ==> c.wf(),
                    );
                    lemma_remove_keeps(
                        w0.collider,
                        i as int,
                        |o: Option<Collider>| o matches Some(c) ==> c.wf(),
                    );
                    lemma_remove_keeps(
                        w0.edge,
                        i as int,
                        |o: Option<Edge>| o matches Some(e) ==> e.wf(),
                    );
                }
                true
            },
        }
    }

    /// Identity and position of every entity that has one, in creation order.
    pub fn positions_snapshot(&self) -> (r: Vec<(u64, i64, i64)>)
        requires
            self@.wf(),
        ensures
            r@ == snapshot(self@, self@.len()),
    {
        let mut out: Vec<(u64, i64, i64)> = Vec::new();
        let mut i: usize = 0;
        while i < self.ids.len()
            invariant
                self@.wf(),
                i <= self@.len(),
                out@ == snapshot(self@, i as nat),
            decreases self@.len() - i,
        {
            if let Some(p) = self.pos[i] {
                out.push((self.ids[i], p.x, p.y));
            }
            i += 1;
        }
        out
    }
}

/// Whether `id` is among `dead`.
fn holds(dead: &Vec<u64>, id: u64) -> (r: bool)
    ensures
        r == dead@.contains(id),
{
    let mut i: usize = 0;
    while i < dead.len()
        invariant
            i <= dead@.len(),
            forall|j: int| 0 <= j < i ==> dead@[j] != id,
        decreases dead@.len() - i,
    {
        if dead[i] == id {
            assert(dead@[i as int] == id);
            return true;
        }
        i += 1;
    }
    false
}

/// Removes from `col` the entries whose entity (by slot, in `ids`) is dead.
fn drop_dead<T>(col: &mut Vec<T>, ids: &Vec<u64>, dead: &Vec<u64>)
    requires
        old(col)@.len() == ids@.len(),
    ensures
        final(col)@ == retain_live(old(col)@, ids@, dead@),
{
    let ghost s0 = col@;
    let mut i: usize = col.len();
    while i > 0
        invariant
            i <= ids@.len(),
            s0.len() == ids@.len(),
            col@ == s0.take(i as int) + retain_live(s0.skip(i as int), ids@.skip(i as int), dead@),
        decreases i,
    {
        i -= 1;
        let ghost rest = retain_live(s0.skip(i + 1), ids@.skip(i + 1), dead@);
        proof {
            assert(s0.skip(i as int).drop_first() =~= s0.skip(i + 1));
            assert(ids@.skip(i as int).drop_first() =~= ids@.skip(i + 1));
            assert(ids@.skip(i as int)[0] == ids@[i as int]);
            assert(s0.skip(i as int)[0] == s0[i as int]);
            assert(col@ =~= s0.take(i as int) + seq![s0[i as int]] + rest);
        }
        if holds(dead, ids[i]) {
            col.remove(i);
            proof {
                assert(col@ =~= s0.take(i as int) + rest);
            }
        } else {
            proof {
                assert(col@ =~= s0.take(i as int) + (seq![s0[i as int]] + rest));
            }
        }
    }
    proof {
        assert(s0.skip(0) =~= s0);
        assert(ids@.skip(0) =~= ids@);
        assert(col@ =~= retain_live(s0, ids@, dead@));
    }
}

} // verus!

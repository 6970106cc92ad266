use force_layout::{
    delta_ms, initialize_world, spawn_entity, tick, update_arena_size, update_mouse_position,
    Collider, ComponentBundle, DomElement, Entity, EntityArgs, ForceSwitches, MouseAttract,
    Position, Repel, Velocity, World,
};

fn node(world: &mut World, x: i64, y: i64, charge: Option<i64>) -> Entity {
    world.spawn(ComponentBundle {
        pos: Some(Position { x, y }),
        vel: None,
        charge: charge.map(|c| Repel { charge: c }),
        collider: None,
        mouse: None,
        dom: None,
    })
}

fn vel(world: &World, e: Entity) -> Velocity {
    world.velocity_of(e).unwrap()
}

fn pos(world: &World, e: Entity) -> Position {
    world.position_of(e).unwrap()
}

#[test]
fn fresh_world_is_empty() {
    let w = initialize_world();
    assert_eq!(w.entity_count(), 0);
    assert_eq!(w.pending_count(), 0);
    assert_eq!(w.delta().0, 0);
    assert_eq!(w.arena_size().0, (0, 0));
    assert_eq!(w.mouse_pos().0, (0, 0));
    assert_eq!(w.forces(), ForceSwitches { mouse: true, springs: true, repulsion: true });
    assert!(w.positions_snapshot().is_empty());
}

#[test]
fn two_charges_fly_apart() {
    let mut w = initialize_world();
    let a = node(&mut w, 0, 0, Some(50));
    let b = node(&mut w, 10_000, 0, Some(50));
    assert!(w.connect_edge(a, b, 10_000, 0).is_some());
    tick(&mut w, 16);
    let va = vel(&w, a);
    let vb = vel(&w, b);
    assert!(va.vx < 0 && vb.vx > 0);
    assert_eq!(va.vx, -vb.vx);
    assert_eq!(va, Velocity { vx: -24_875, vy: 0 });
    assert_eq!(vb, Velocity { vx: 24_875, vy: 0 });
    assert_eq!(pos(&w, a), Position { x: -398, y: 0 });
    assert_eq!(pos(&w, b), Position { x: 10_398, y: 0 });
}

#[test]
fn footprint_pushed_inside_arena() {
    let mut w = initialize_world();
    let e = w.spawn(ComponentBundle {
        pos: Some(Position { x: 1_000, y: 1_000 }),
        vel: Some(Velocity { vx: -2_000, vy: -3_000 }),
        charge: None,
        collider: Some(Collider { w: 5_000, h: 5_000 }),
        mouse: None,
        dom: None,
    });
    update_arena_size(&mut w, 100_000, 100_000);
    w.apply_walls();
    assert_eq!(pos(&w, e), Position { x: 5_000, y: 5_000 });
    assert_eq!(vel(&w, e), Velocity { vx: 1_600, vy: 2_400 });
    w.apply_walls();
    assert_eq!(pos(&w, e), Position { x: 5_000, y: 5_000 });
    assert_eq!(vel(&w, e), Velocity { vx: 1_600, vy: 2_400 });
}

#[test]
fn stretched_edge_pulls_endpoints_together() {
    let mut w = initialize_world();
    let a = node(&mut w, 0, 0, None);
    let b = node(&mut w, 100_000, 0, None);
    w.connect_edge(a, b, 50_000, 1_000).unwrap();
    tick(&mut w, 16);
    assert_eq!(vel(&w, a), Velocity { vx: 49_750, vy: 0 });
    assert_eq!(vel(&w, b), Velocity { vx: -49_750, vy: 0 });
    assert_eq!(pos(&w, a), Position { x: 796, y: 0 });
    assert_eq!(pos(&w, b), Position { x: 99_204, y: 0 });
}

#[test]
fn spring_deltas_are_opposite() {
    let mut w = initialize_world();
    let a = node(&mut w, 0, 0, None);
    let b = node(&mut w, 30_000, 40_000, None);
    w.connect_edge(a, b, 10_000, 500).unwrap();
    w.apply_springs();
    let va = vel(&w, a);
    let vb = vel(&w, b);
    assert_eq!(va, Velocity { vx: 12_000, vy: 16_000 });
    assert_eq!(va.vx, -vb.vx);
    assert_eq!(va.vy, -vb.vy);
    assert_eq!(w.pending_count(), 0);
}

#[test]
fn edge_to_removed_node_is_dropped() {
    let mut w = initialize_world();
    let a = w.spawn(ComponentBundle {
        pos: Some(Position { x: 0, y: 0 }),
        vel: Some(Velocity { vx: 1_000, vy: 0 }),
        charge: None,
        collider: None,
        mouse: None,
        dom: None,
    });
    let b = node(&mut w, 100_000, 0, None);
    let edge = w.connect_edge(a, b, 50_000, 1_000).unwrap();
    assert!(w.despawn(b));
    assert!(w.is_alive(edge));
    tick(&mut w, 16);
    assert_eq!(vel(&w, a), Velocity { vx: 995, vy: 0 });
    assert!(!w.is_alive(edge));
    assert!(w.edge_of(edge).is_none());
    assert_eq!(w.pending_count(), 0);
    assert_eq!(w.entity_count(), 1);
}

#[test]
fn edge_needs_positioned_endpoints() {
    let mut w = initialize_world();
    let a = node(&mut w, 0, 0, None);
    let bare = w.spawn(ComponentBundle {
        pos: None,
        vel: None,
        charge: None,
        collider: None,
        mouse: None,
        dom: None,
    });
    assert!(w.connect_edge(a, bare, 1_000, 1_000).is_none());
    assert!(w.connect_edge(a, Entity { id: 99 }, 1_000, 1_000).is_none());
    assert_eq!(w.entity_count(), 2);
    let e = w.connect_edge(a, a, 1_000, 1_000).unwrap();
    assert_eq!(w.edge_of(e).unwrap().ideal, 1_000);
    assert_eq!(w.edge_of(e).unwrap().nodes, (a, a));
}

#[test]
fn marked_entities_leave_at_maintain() {
    let mut w = initialize_world();
    let a = node(&mut w, 1, 2, None);
    let b = node(&mut w, 3, 4, None);
    let c = node(&mut w, 5, 6, None);
    w.mark_for_removal(b);
    w.mark_for_removal(b);
    assert!(w.is_alive(b));
    w.maintain();
    assert!(w.is_alive(a) && !w.is_alive(b) && w.is_alive(c));
    assert_eq!(w.positions_snapshot(), vec![(a.id, 1, 2), (c.id, 5, 6)]);
    assert_eq!(w.pending_count(), 0);
}

#[test]
fn despawn_unknown_is_refused() {
    let mut w = initialize_world();
    let a = node(&mut w, 0, 0, None);
    assert!(w.despawn(a));
    assert!(!w.despawn(a));
    assert_eq!(w.entity_count(), 0);
}

#[test]
fn snapshot_lists_positioned_entities_in_order() {
    let mut w = initialize_world();
    let a = node(&mut w, 10, 20, None);
    let b = node(&mut w, 30, 40, None);
    w.connect_edge(a, b, 0, 0).unwrap();
    assert_eq!(w.entity_count(), 3);
    assert_eq!(w.positions_snapshot(), vec![(a.id, 10, 20), (b.id, 30, 40)]);
}

#[test]
fn pointer_pulls_tagged_entities_only() {
    let mut w = initialize_world();
    let tagged = w.spawn(ComponentBundle {
        pos: Some(Position { x: 0, y: 0 }),
        vel: None,
        charge: None,
        collider: None,
        mouse: Some(MouseAttract),
        dom: None,
    });
    let plain = node(&mut w, 0, 0, None);
    update_mouse_position(&mut w, 100_000, 0);
    assert_eq!(w.mouse_pos().0, (100_000, 0));
    w.apply_mouse();
    assert_eq!(vel(&w, tagged), Velocity { vx: 100_000, vy: 0 });
    assert_eq!(vel(&w, plain), Velocity { vx: 0, vy: 0 });
}

#[test]
fn switched_off_forces_are_skipped() {
    let mut w = initialize_world();
    let a = node(&mut w, 0, 0, Some(50));
    let b = node(&mut w, 10_000, 0, Some(50));
    w.set_forces(ForceSwitches { mouse: true, springs: true, repulsion: false });
    tick(&mut w, 16);
    assert_eq!(vel(&w, a), Velocity { vx: 0, vy: 0 });
    assert_eq!(vel(&w, b), Velocity { vx: 0, vy: 0 });
}

#[test]
fn coulomb_constant_is_configurable() {
    let mut w = initialize_world();
    let a = node(&mut w, 0, 0, Some(50));
    let _b = node(&mut w, 10_000, 0, Some(50));
    w.set_coulomb_k(2);
    w.apply_repulsion();
    assert_eq!(vel(&w, a), Velocity { vx: -50_000, vy: 0 });
}

#[test]
fn damping_alone_brings_rest() {
    let mut w = initialize_world();
    let a = w.spawn(ComponentBundle {
        pos: Some(Position { x: 0, y: 0 }),
        vel: Some(Velocity { vx: 300, vy: -200 }),
        charge: None,
        collider: None,
        mouse: None,
        dom: None,
    });
    let mut last = 300 * 300 + 200 * 200;
    for _ in 0..300 {
        tick(&mut w, 0);
        let v = vel(&w, a);
        let now = v.vx * v.vx + v.vy * v.vy;
        assert!(now < last || now == 0);
        last = now;
    }
    assert_eq!(vel(&w, a), Velocity { vx: 0, vy: 0 });
}

#[test]
fn elapsed_time_is_measured() {
    let mut prev: Option<i64> = None;
    assert_eq!(delta_ms(&mut prev, 1_000), 0);
    assert_eq!(prev, Some(1_000));
    assert_eq!(delta_ms(&mut prev, 1_016), 16);
    assert_eq!(delta_ms(&mut prev, 1_000), 0);
    assert_eq!(delta_ms(&mut prev, 2_001_000), 2_000_000);
    assert_eq!(delta_ms(&mut prev, i64::MAX), i64::MAX - 2_001_000);
    let mut early: Option<i64> = Some(-10);
    assert_eq!(delta_ms(&mut early, i64::MAX), i64::MAX);
    let mut w = initialize_world();
    tick(&mut w, -5);
    assert_eq!(w.delta().0, 0);
    tick(&mut w, 5_000_000);
    assert_eq!(w.delta().0, 5_000_000);
}

#[test]
fn spawned_node_has_defaults_and_charge() {
    let mut w = initialize_world();
    let args = EntityArgs {
        pos: None,
        vel: None,
        colds: Some(Collider { w: 10, h: 20 }),
        html: String::from("<b>x</b>"),
    };
    let e = spawn_entity(&mut w, args, String::from("elem0"));
    assert!(w.position_of(e).is_none());
    assert_eq!(vel(&w, e), Velocity { vx: 0, vy: 0 });
    assert_eq!(w.dom_element(e).unwrap().id, "elem0");
    assert!(w.positions_snapshot().is_empty());
    let placed = |x: i64| EntityArgs {
        pos: Some(Position { x, y: 0 }),
        vel: Some(Velocity { vx: 0, vy: 0 }),
        colds: None,
        html: String::new(),
    };
    let f = spawn_entity(&mut w, placed(0), String::from("elem1"));
    let g = spawn_entity(&mut w, placed(10_000), String::from("elem2"));
    assert_eq!(f.id, e.id + 1);
    assert_eq!(g.id, e.id + 2);
    w.apply_repulsion();
    assert_eq!(vel(&w, e), Velocity { vx: 0, vy: 0 });
    assert_eq!(vel(&w, f), Velocity { vx: -25_000, vy: 0 });
    assert_eq!(vel(&w, g), Velocity { vx: 25_000, vy: 0 });
}

#[test]
fn broken_edge_removed_with_springs_off() {
    let mut w = initialize_world();
    let a = node(&mut w, 0, 0, None);
    let b = node(&mut w, 100_000, 0, None);
    let live = w.connect_edge(a, b, 50_000, 1_000).unwrap();
    let c = node(&mut w, 0, 50_000, None);
    let broken = w.connect_edge(a, c, 50_000, 1_000).unwrap();
    assert!(w.despawn(c));
    w.set_forces(ForceSwitches { mouse: true, springs: false, repulsion: true });
    tick(&mut w, 16);
    assert!(!w.is_alive(broken));
    assert!(w.is_alive(live));
    assert_eq!(vel(&w, a), Velocity { vx: 0, vy: 0 });
    assert_eq!(vel(&w, b), Velocity { vx: 0, vy: 0 });
}

#[test]
fn unknown_entity_has_no_components() {
    let w = initialize_world();
    let ghost = Entity { id: 3 };
    assert!(w.position_of(ghost).is_none());
    assert!(w.velocity_of(ghost).is_none());
    assert!(w.dom_element(ghost).is_none());
    let _ = DomElement { id: String::new() };
}

#[test]
fn passes_leave_marks_until_maintain() {
    let mut w = initialize_world();
    let a = node(&mut w, 0, 0, None);
    let b = node(&mut w, 100_000, 0, None);
    let edge = w.connect_edge(a, b, 50_000, 1_000).unwrap();
    assert!(w.despawn(a));
    force_layout::execute_systems(&mut w);
    assert!(w.is_alive(edge));
    assert_eq!(w.pending_count(), 1);
    assert_eq!(vel(&w, b), Velocity { vx: 0, vy: 0 });
    w.maintain();
    assert!(!w.is_alive(edge));
    assert_eq!(w.positions_snapshot(), vec![(b.id, 100_000, 0)]);
}

#[test]
fn components_attach_and_detach() {
    let mut w = initialize_world();
    let a = node(&mut w, 0, 0, None);
    let b = node(&mut w, 10_000, 0, None);
    assert!(w.set_charge(a, Some(Repel { charge: 50 })));
    assert!(w.set_charge(b, Some(Repel { charge: 50 })));
    w.apply_repulsion();
    assert_eq!(vel(&w, a), Velocity { vx: -25_000, vy: 0 });
    assert!(w.set_charge(b, None));
    assert!(w.set_velocity(a, Some(Velocity { vx: 0, vy: 0 })));
    w.apply_repulsion();
    assert_eq!(vel(&w, a), Velocity { vx: 0, vy: 0 });
    assert!(w.set_position(b, None));
    assert!(w.position_of(b).is_none());
    assert_eq!(w.positions_snapshot(), vec![(a.id, 0, 0)]);
    assert!(w.set_position(b, Some(Position { x: 7, y: 8 })));
    assert_eq!(pos(&w, b), Position { x: 7, y: 8 });
    assert!(w.set_velocity(b, None));
    assert!(w.velocity_of(b).is_none());
    assert!(w.set_dom_element(a, Some(DomElement { id: String::from("n") })));
    assert_eq!(w.dom_element(a).unwrap().id, "n");
    assert!(w.set_dom_element(a, None));
    assert!(w.dom_element(a).is_none());
    assert!(w.set_collider(a, Some(Collider { w: 5_000, h: 5_000 })));
    update_arena_size(&mut w, 100_000, 100_000);
    w.apply_walls();
    assert_eq!(pos(&w, a), Position { x: 5_000, y: 5_000 });
    assert!(w.set_mouse_attract(a, true));
    update_mouse_position(&mut w, 105_000, 5_000);
    w.apply_mouse();
    assert_eq!(vel(&w, a), Velocity { vx: 100_000, vy: 0 });
    assert!(w.set_mouse_attract(a, false));
    w.apply_mouse();
    assert_eq!(vel(&w, a), Velocity { vx: 100_000, vy: 0 });
    let gone = Entity { id: 77 };
    assert!(!w.set_position(gone, None));
    assert!(!w.set_mouse_attract(gone, true));
    assert_eq!(w.entity_count(), 2);
}

#[test]
fn long_tick_integrates_the_whole_gap() {
    let mut w = initialize_world();
    let a = w.spawn(ComponentBundle {
        pos: Some(Position { x: 0, y: 0 }),
        vel: Some(Velocity { vx: 1_000, vy: 0 }),
        charge: None,
        collider: None,
        mouse: None,
        dom: None,
    });
    tick(&mut w, 2_000_000);
    assert_eq!(w.delta().0, 2_000_000);
    assert_eq!(pos(&w, a), Position { x: 1_990_000, y: 0 });
}

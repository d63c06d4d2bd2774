//! Concrete checks of the engine's stated properties — chaining,
//! displacement preservation, idempotent compression, expiry,
//! interpolation bounds — and of the registry, the layer order, the
//! per-tile sprite state, and the tileset geometry.

use tile_animation::animation::{AnimatedSpriteState, AnimatedTile, Animation};
use tile_animation::animation_controller::{
    AnimationController, AnimationFrame, AnimationInstance, AnimationRegistry, AnimationTemplate,
    TileData,
};
use tile_animation::layer_order::LayersOrder;
use tile_animation::tileset::sprite_rect_px;

fn walk_template(first_tile: u32, max_compression: u32) -> AnimationTemplate {
    let durations: [u64; 4] = [100, 200, 400, 300];
    let mut frames = vec![];
    for (i, d) in durations.iter().enumerate() {
        frames.push(AnimationFrame { tile_id: first_tile + i as u32, duration: *d });
    }
    AnimationTemplate {
        name: "walk".to_string(),
        gid: first_tile,
        frames,
        ordering: 0,
        max_compression,
        blocks_turn: false,
        cancel_frame: None,
    }
}

#[test]
fn queue_is_chained_gaplessly() {
    let mut c = AnimationController::new();
    let t = walk_template(1, 50);
    c.add_animation(0, &t, (100, 0), (0, 0));
    c.add_animation(0, &walk_template(5, 50), (0, 100), (0, 0));
    c.add_animation(0, &walk_template(9, 50), (-100, 0), (0, 0));
    assert_eq!(c.animations.len(), 3);
    for i in 0..2 {
        let a = &c.animations[i];
        let b = &c.animations[i + 1];
        assert_eq!(b.animation_start, a.animation_start + a.duration);
    }
}

#[test]
fn compression_preserves_end_position() {
    let t = walk_template(1, 30);
    let mut inst = AnimationInstance::new(0, &t, (100, 10), (5, 7));
    let end_before = (
        inst.start_position.0 + inst.movement.0,
        inst.start_position.1 + inst.movement.1,
    );
    inst.compress(350);
    let end_after = (
        inst.start_position.0 + inst.movement.0,
        inst.start_position.1 + inst.movement.1,
    );
    assert_eq!(end_before, end_after);
    assert!(inst.is_compressed);
    assert!(inst.duration < 1000);
}

#[test]
fn compressing_an_instance_twice_changes_nothing() {
    let t = walk_template(1, 50);
    let mut inst = AnimationInstance::new(0, &t, (100, 0), (0, 0));
    inst.compress(350);
    let snap = (
        inst.animation_start,
        inst.duration,
        inst.start_position,
        inst.movement,
        inst.frames.iter().map(|f| (f.tile_id, f.duration)).collect::<Vec<_>>(),
    );
    // A second call, at the same instant or any later one, is a no-op.
    inst.compress(350);
    inst.compress(500);
    let again = (
        inst.animation_start,
        inst.duration,
        inst.start_position,
        inst.movement,
        inst.frames.iter().map(|f| (f.tile_id, f.duration)).collect::<Vec<_>>(),
    );
    assert_eq!(snap, again);
}

#[test]
fn compression_is_idempotent_in_queue() {
    let mut c = AnimationController::new();
    c.add_animation(0, &walk_template(1, 50), (100, 0), (0, 0));
    // The second add compresses the first instance.
    c.add_animation(0, &walk_template(5, 50), (100, 0), (0, 0));
    let snap = (
        c.animations[0].animation_start,
        c.animations[0].duration,
        c.animations[0].start_position,
        c.animations[0].movement,
        c.animations[0].frames.len(),
    );
    assert!(c.animations[0].is_compressed);
    // The third add runs the compression pass again over the whole
    // queue; the already-compressed head must not shrink a second time.
    c.add_animation(0, &walk_template(9, 50), (100, 0), (0, 0));
    let again = (
        c.animations[0].animation_start,
        c.animations[0].duration,
        c.animations[0].start_position,
        c.animations[0].movement,
        c.animations[0].frames.len(),
    );
    assert_eq!(snap, again);
}

#[test]
fn expired_queue_reports_nothing() {
    let mut c = AnimationController::new();
    c.add_animation(0, &walk_template(1, 100), (100, 0), (0, 0));
    c.update(999);
    assert!(c.get_frame(999).is_some());
    c.update(1000);
    assert!(c.get_frame(1000).is_none());
}

#[test]
fn position_stays_on_segment() {
    let mut c = AnimationController::new();
    c.add_animation(0, &walk_template(1, 100), (1000, 100), (0, 0));
    let mut t: u64 = 0;
    while t < 1000 {
        c.update(t);
        let frame = c.get_frame(t).expect("frame expected");
        let (x, y) = frame.position;
        assert!(0 <= x && x <= 1000);
        assert!(0 <= y && y <= 100);
        // Within one unit of the exact line through (0,0) and (1000,100).
        assert!((x - t as i64).abs() <= 1);
        assert!((y * 10 - t as i64).abs() <= 10);
        t += 37;
    }
}

#[test]
fn overrun_without_update_reports_sentinel() {
    let mut c = AnimationController::new();
    c.add_animation(0, &walk_template(1, 100), (1000, 100), (0, 0));
    // Skipping `update` before sampling past the end is a caller bug;
    // the sentinel sprite index 0 marks it, pinned at the end position.
    let frame = c.get_frame(1500).expect("frame expected");
    assert_eq!(frame.tile_id, 0);
    assert_eq!(frame.position, (1000, 100));
}

#[test]
fn empty_controller_reports_nothing() {
    let c = AnimationController::new();
    assert!(c.get_frame(0).is_none());
    assert!(c.get_frame(123456).is_none());
    let d = AnimationController::default();
    assert!(d.animations.is_empty());
    assert!(d.idle_start.is_none());
}

#[test]
fn set_idle_animation_replaces_slot() {
    let mut c = AnimationController::new();
    c.add_animation(0, &walk_template(1, 100), (100, 100), (0, 0));
    c.add_idle_animation(&walk_template(101, 100), 10);
    c.set_idle_animation(&walk_template(201, 100), 10);
    assert_eq!(c.idle_animations.len(), 1);
    c.update(11500);
    let frame = c.get_frame(11500).expect("idle frame expected");
    // 11500 falls inside the idle window [11000, 12000): 500ms in is
    // the third frame of the replacement idle animation.
    assert_eq!(frame.tile_id, 203);
    assert_eq!(frame.position, (100, 100));
}

fn frames_ms(ids_and_ms: &[(u32, u64)]) -> Vec<AnimationFrame> {
    ids_and_ms
        .iter()
        .map(|(tile_id, duration)| AnimationFrame { tile_id: *tile_id, duration: *duration })
        .collect()
}

#[test]
fn registry_registers_named_animated_tiles() {
    let tiles = vec![
        TileData {
            id: 7,
            name: Some("walk".to_string()),
            animation: Some(frames_ms(&[(7, 100), (8, 200)])),
        },
        TileData { id: 8, name: None, animation: Some(frames_ms(&[(8, 100)])) },
        TileData { id: 9, name: Some("idle".to_string()), animation: None },
    ];
    let registry = AnimationRegistry::load(&tiles);
    assert_eq!(registry.get_animation_id("walk"), Some(7));
    // A tile without a name, or without an animation, registers nothing.
    assert_eq!(registry.get_animation_id("idle"), None);
    assert_eq!(registry.get_animation_id("missing"), None);

    let template = registry.get_template("walk").expect("template expected");
    assert_eq!(template.gid, 7);
    assert_eq!(template.name, "walk");
    assert_eq!(template.frames.len(), 2);
    assert_eq!(template.frames[1].tile_id, 8);
    assert_eq!(template.frames[1].duration, 200);
    assert_eq!(template.max_compression, 40);
    assert!(template.blocks_turn);
    assert_eq!(template.cancel_frame, None);
    assert!(registry.get_template("idle").is_none());
    assert!(registry.get_template("missing").is_none());
}

#[test]
fn registry_later_tile_wins_name() {
    let tiles = vec![
        TileData {
            id: 7,
            name: Some("walk".to_string()),
            animation: Some(frames_ms(&[(7, 100)])),
        },
        TileData {
            id: 12,
            name: Some("walk".to_string()),
            animation: Some(frames_ms(&[(12, 250)])),
        },
    ];
    let registry = AnimationRegistry::load(&tiles);
    assert_eq!(registry.get_animation_id("walk"), Some(12));
    let template = registry.get_template("walk").expect("template expected");
    assert_eq!(template.gid, 12);
    assert_eq!(template.frames[0].duration, 250);
}

#[test]
fn layers_order_sorts_by_yorder() {
    // walls z100, walls z50, floor z0, floor z1: floors draw first.
    let order = LayersOrder::new(&vec![100, 50, 0, 1]);
    let o = order.order();
    let got: Vec<(usize, i32)> = o.iter().map(|l| (l.index, l.y)).collect();
    assert_eq!(got, vec![(2, 0), (3, 1), (1, 50), (0, 100)]);
}

#[test]
fn layers_order_is_stable_for_equal_yorder() {
    let order = LayersOrder::new(&vec![5, 5, 3, 5]);
    let o = order.order();
    let got: Vec<(usize, i32)> = o.iter().map(|l| (l.index, l.y)).collect();
    assert_eq!(got, vec![(2, 3), (0, 5), (1, 5), (3, 5)]);
}

#[test]
fn layers_order_empty() {
    let order = LayersOrder::new(&vec![]);
    assert!(order.order().is_empty());
}

#[test]
fn idle_from_registry_installs_the_idle_template() {
    let tiles = vec![
        TileData {
            id: 40,
            name: Some("idle".to_string()),
            animation: Some(frames_ms(&[(301, 100), (302, 200), (303, 400), (304, 300)])),
        },
    ];
    let registry = AnimationRegistry::load(&tiles);
    let mut c = AnimationController::new();
    c.add_animation(0, &walk_template(1, 100), (100, 100), (0, 0));
    assert!(c.set_idle_from_registry(&registry, 10));
    c.update(11500);
    let frame = c.get_frame(11500).expect("idle frame expected");
    // 500ms into the idle window [11000, 12000): the third idle frame.
    assert_eq!(frame.tile_id, 303);
    assert_eq!(frame.position, (100, 100));
}

#[test]
fn idle_from_registry_without_idle_template_changes_nothing() {
    let tiles = vec![
        TileData {
            id: 7,
            name: Some("walk".to_string()),
            animation: Some(frames_ms(&[(7, 100)])),
        },
    ];
    let registry = AnimationRegistry::load(&tiles);
    let mut c = AnimationController::new();
    c.add_animation(0, &walk_template(1, 100), (100, 100), (0, 0));
    assert!(!c.set_idle_from_registry(&registry, 10));
    assert!(c.idle_animations.is_empty());
    c.update(11500);
    assert!(c.get_frame(11500).is_none());
}

fn looping_tile() -> AnimatedTile {
    let frames = frames_ms(&[(1, 100), (2, 100), (3, 100)]);
    AnimatedTile::new(4, Animation { frames, duration: 300 })
}

#[test]
fn sprite_state_steps_frames() {
    let tile = looping_tile();
    let mut state = AnimatedSpriteState::new(4, 0, true);
    state.update(&tile, 150);
    assert_eq!(state.frame, 1);
    assert_eq!(state.frame_start, 100);
    state.update(&tile, 320);
    // 320 is past the end of the cycle: the walk wraps to the first
    // frame, restarted at 300.
    assert_eq!(state.frame, 0);
    assert_eq!(state.frame_start, 300);
}

#[test]
fn sprite_state_modulo_shortcut_keeps_state() {
    let tile = looping_tile();
    let mut state = AnimatedSpriteState::new(4, 0, true);
    // Lagging more than a whole cycle behind: 650 mod 300 = 50, which
    // falls inside the current frame, so the state is left in place.
    state.update(&tile, 650);
    assert_eq!(state.frame, 0);
    assert_eq!(state.frame_start, 0);
}

#[test]
fn sprite_state_ignores_updates_when_paused() {
    let tile = looping_tile();
    let mut state = AnimatedSpriteState::new(4, 0, false);
    state.update(&tile, 250);
    assert_eq!(state.frame, 0);
    assert_eq!(state.frame_start, 0);
    assert_eq!(state.current_animation(), 4);
    // A paused state anchored in the future is left alone too.
    let mut future = AnimatedSpriteState::new(4, 1000, false);
    future.update(&tile, 250);
    assert_eq!(future.frame, 0);
    assert_eq!(future.frame_start, 1000);
}

#[test]
fn sprite_state_set_and_reset() {
    let mut state = AnimatedSpriteState::new(4, 10, true);
    state.frame = 2;
    state.set_animation(4, 99);
    // Same animation: nothing changes.
    assert_eq!(state.frame, 2);
    assert_eq!(state.frame_start, 10);
    state.set_animation(6, 99);
    assert_eq!(state.current_animation(), 6);
    assert_eq!(state.frame, 0);
    assert_eq!(state.frame_start, 99);
    state.reset_animation(7, 120);
    assert_eq!(state.current_animation(), 7);
    assert_eq!(state.frame, 0);
    assert_eq!(state.frame_start, 120);
    assert!(state.playing);
}

#[test]
fn tileset_sprite_rect_math() {
    // A 4-column sheet of 16x16 tiles with 1px spacing and a 2px margin.
    assert_eq!(sprite_rect_px(0, 4, 16, 16, 1, 2), (2, 2));
    assert_eq!(sprite_rect_px(5, 4, 16, 16, 1, 2), (19, 19));
    assert_eq!(sprite_rect_px(11, 4, 16, 16, 1, 2), (53, 36));
}

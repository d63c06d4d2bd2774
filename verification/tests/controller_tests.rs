//! The controller's time-indexed behavior: movement sampling, queueing,
//! compression (up-front and in-flight), the zero-compression sentinel,
//! and the idle fallback.

use std::ops::RangeInclusive;

use tile_animation::animation_controller::{
    AnimationController, AnimationFrame, AnimationTemplate,
};

fn mock_template(frames: Vec<AnimationFrame>, max_compression: u32) -> AnimationTemplate {
    AnimationTemplate {
        name: "dummy".to_string(),
        gid: 1,
        frames,
        ordering: 0,
        max_compression,
        blocks_turn: false,
        cancel_frame: None,
    }
}

//total duration: 1000 ms, for 4 frames.
fn mock_frames1243(ids: RangeInclusive<u32>) -> Vec<AnimationFrame> {
    let mut result = vec![];
    let durations: [u64; 4] = [100, 200, 400, 300];
    for (index, tile_id) in ids.enumerate() {
        result.push(AnimationFrame {
            tile_id,
            duration: durations[index % durations.len()],
        });
    }
    result
}

#[test]
fn incorrect_compression() {
    let mut controller = AnimationController::new();
    let time_start: u64 = 0;
    let mut current_time = time_start;
    let mut start = 1;
    let mut end = 4;
    let animation_start = time_start;
    let mut time_points: Vec<i64> = vec![];
    let durations: [u64; 4] = [100, 200, 400, 300];
    let mut time_point: u64 = 0;

    for i in 1..5 {
        let mut compression: u32 = 0;

        for i in &durations {
            time_point += i * compression as u64 / 100;
            time_points.push(time_point as i64);
        }

        let template = mock_template(mock_frames1243(start..=end), compression);
        controller.add_animation(animation_start, &template, (1000, 100), (0, 0));
        start += 4;
        end += 4;
        println!("for {} compression = {}", i, compression);
        // The shadowed counter resets each pass, so every template keeps
        // compression percent 0 and every add is a no-op.
        compression += 50;
        let _ = compression;
    }
    println!("{:?}", time_points);

    let mut time: i64 = 0;
    loop {
        controller.update(current_time);
        let frame = match controller.get_frame(current_time) {
            Some(frame) => frame,
            None => break,
        };
        println!(
            "At current time {} tileid is {}, position is {},{}",
            time, frame.tile_id, frame.position.0, frame.position.1
        );

        let mut expected_tileid = 0;
        for (index, time_point) in time_points.iter().enumerate() {
            if time < *time_point {
                expected_tileid = index as u32 + 5;
                break;
            }
        }
        let expected_position = {
            let x: i64;
            if time < 500 {
                x = time * 2;
            } else if time < 1500 {
                x = 1000 + time - 500;
            } else {
                x = 2000 + time - 2500;
            }
            let y = x / 10;
            (x, y)
        };
        println!(
            "At current time {} expected tileid is {}, expected position is {},{}",
            time, expected_tileid, expected_position.0, expected_position.1
        );
        assert_eq!(frame.tile_id, expected_tileid);
        assert_eq!(frame.position, expected_position);
        time += 50;
        current_time = time_start + time as u64;
    }
    println!("Finish!!!");
    let frame = controller.get_frame(current_time);
    assert!(frame.is_none());
}

fn assert_pos_almost_eq(expected: (i64, i64), actual: (i64, i64)) {
    if (expected.0 - actual.0).abs() > 1 || (expected.1 - actual.1).abs() > 1 {
        panic!("Expected: {:?} and actual: {:?} are different", expected, actual);
    }
}

struct TestState {
    pub controller: AnimationController,
    pub start_time: u64,
    pub now: u64,
}

impl TestState {
    pub fn new() -> Self {
        Self {
            controller: AnimationController::new(),
            start_time: 0,
            now: 0,
        }
    }

    pub fn assert_frame_at(&mut self, now_ms: u64, tile_id: u32, expected_pos: (i64, i64)) {
        self.now = self.start_time + now_ms;
        self.controller.update(self.now);

        let frame_now = self.controller.get_frame(self.now).expect("Frame expected");

        assert_eq!(
            frame_now.tile_id, tile_id,
            "tiles_id differ: expected {}, got {}",
            tile_id, frame_now.tile_id
        );
        assert_pos_almost_eq(expected_pos, frame_now.position);
    }

    pub fn assert_in_interval(&mut self, now_ms: u64, expected_tile_id: u32, expected_pos: (i64, i64)) {
        let mut start: u64 = 0;
        if now_ms > 5 {
            start = now_ms - 5;
        }

        //if expected tile_id is present in time interval now_ms +- 5 ms
        let mut tile_id = false;
        let mut got_tile_id: u32 = 0;
        for i in start..(start + 11) {
            self.now = self.start_time + i;
            self.controller.update(self.now);
            if self.controller.get_frame(self.now).is_none() {
                continue;
            }
            let frame_now = self.controller.get_frame(self.now).unwrap();
            if frame_now.tile_id == expected_tile_id {
                tile_id = true;
                break;
            }
            if i == now_ms {
                got_tile_id = frame_now.tile_id;
            }
        }
        assert!(
            tile_id,
            "At {} tile_id is not {}, it is {}",
            now_ms, expected_tile_id, got_tile_id
        );

        //if real position == expected position +- 1
        let mut pos = false;
        let mut got_frame_pos: (i64, i64) = (0, 0);
        for i in start..(start + 11) {
            self.now = self.start_time + i;
            self.controller.update(self.now);
            if self.controller.get_frame(self.now).is_none() {
                continue;
            }
            let frame_now = self.controller.get_frame(self.now).unwrap();
            let frame_pos = frame_now.position;
            if (expected_pos.0 - frame_pos.0).abs() <= 1 && (expected_pos.1 - frame_pos.1).abs() <= 1 {
                pos = true;
                break;
            }
            if i == now_ms {
                got_frame_pos = frame_pos;
            }
        }
        assert!(
            pos,
            "At {} position is not {:?}, it is {:?}",
            now_ms, expected_pos, got_frame_pos
        );
    }

    pub fn assert_empty_at(&mut self, now_ms: u64) {
        self.now = self.start_time + now_ms;
        self.controller.update(self.now);
        assert!(self.controller.get_frame(self.now).is_none())
    }

    pub fn assert_animation_characteristics(
        &mut self,
        number: usize,
        frames_len: usize,
        start: u64,
        duration: u64,
        start_pos: (i64, i64),
        movement: (i64, i64),
    ) {
        if let Some(animation) = self.controller.animations.get(number) {
            assert_eq!(
                frames_len,
                animation.frames.len(),
                "expected number of frames is {}, got {}",
                frames_len,
                animation.frames.len()
            );
            for f in &animation.frames {
                println!("frame duration is {}", f.duration);
            }
            let animation_start = animation.animation_start - self.start_time;
            assert_eq!(
                start, animation_start,
                "animation doesn't start at {}, it starts at {} ",
                start, animation_start
            );
            assert_eq!(
                duration, animation.duration,
                "animation duration is not {}, it is {}",
                duration, animation.duration
            );
            assert_eq!(
                start_pos, animation.start_position,
                "start position is not {:?}, it is {:?}",
                start_pos, animation.start_position
            );
            assert_eq!(
                movement, animation.movement,
                "movement is not {:?}, it is {:?}",
                movement, animation.movement
            );
        }
    }
}

#[test]
pub fn test_movement() {
    let mut state = TestState::new();

    let template = mock_template(mock_frames1243(1..=4), 100);
    state.controller.add_animation(state.now, &template, (1000, 100), (0, 0));

    state.assert_frame_at(0, 1, (0, 0));

    state.assert_frame_at(99, 1, (99, 9));
    state.assert_frame_at(101, 2, (101, 10));
    state.assert_frame_at(151, 2, (151, 15));

    state.assert_empty_at(1000);
}

#[test]
pub fn test_movement_in_interval() {
    let mut state = TestState::new();

    let template = mock_template(mock_frames1243(1..=4), 100);
    state.controller.add_animation(state.now, &template, (1000, 100), (0, 0));

    state.assert_in_interval(0, 1, (0, 0));

    state.assert_in_interval(99, 1, (99, 9));
    state.assert_in_interval(101, 2, (101, 10));
    state.assert_in_interval(150, 2, (151, 15));
    state.assert_in_interval(199, 2, (199, 20));
    state.assert_in_interval(999, 4, (999, 100));
    state.assert_animation_characteristics(0, 4, 0, 1000, (0, 0), (1000, 100));

    state.assert_empty_at(1000);
}

#[test]
fn test_2_instances() {
    let mut state = TestState::new();

    let template = mock_template(mock_frames1243(1..=4), 100);
    state.controller.add_animation(state.now, &template, (1000, 100), (0, 0));
    let template = mock_template(mock_frames1243(5..=8), 100);
    state.controller.add_animation(state.now, &template, (1000, 100), (0, 0));

    state.assert_in_interval(0, 1, (0, 0));
    state.assert_in_interval(90, 1, (90, 9));
    state.assert_in_interval(100, 2, (100, 10));
    state.assert_in_interval(1090, 5, (1090, 109));
    state.assert_in_interval(1100, 6, (1100, 110));
    state.assert_empty_at(2000);
}

#[test]
fn test_right_up_compressed() {
    let mut state = TestState::new();

    let template = mock_template(mock_frames1243(1..=4), 50);
    state.controller.add_animation(state.now, &template, (100, 0), (1000, 300));
    let template = mock_template(mock_frames1243(5..=8), 50);
    state.controller.add_animation(state.now, &template, (0, -100), (1100, 200));
    state.assert_animation_characteristics(0, 4, 0, 500, (1000, 300), (100, 0));
    state.assert_animation_characteristics(1, 4, 500, 500, (1100, 300), (0, -100));

    // 500ms to go right
    state.assert_frame_at(0, 1, (1000, 300));
    state.assert_frame_at(49, 1, (1009, 300));
    state.assert_frame_at(50, 2, (1010, 300));
    state.assert_frame_at(499, 4, (1100, 300));

    // 500ms to go up.
    state.assert_frame_at(500, 5, (1100, 300));
    // + 300ms = +60% of the animation and its movement.
    state.assert_frame_at(800, 7, (1100, 240));
    state.assert_frame_at(999, 8, (1100, 200));

    state.assert_empty_at(1000);
}

#[test]
fn test_right_up_compressed_inflight() {
    let mut state = TestState::new();

    let template = mock_template(mock_frames1243(1..=4), 50);
    state.controller.add_animation(state.now, &template, (100, 0), (1000, 300));

    state.assert_frame_at(350, 3, (1035, 300));

    // Note this happens after 350ms.
    // Only the remaining part of the present animation should be compressed!
    let template = mock_template(mock_frames1243(5..=8), 50);
    state.controller.add_animation(state.now, &template, (0, -100), (1100, 200));

    for i in &state.controller.animations {
        println!("number of frames is {}", i.frames.len());
        for f in &i.frames {
            println!("frame duration is {}", f.duration);
        }
        println!("animation starts at {}", i.animation_start - state.start_time);
        println!("animation duration is {}", i.duration);
        println!("start position is {:?}", i.start_position);
        println!("movement is {:?}", i.movement);
    }

    // At the time of 350 the third frame is passing
    // The compression starts immediately
    // The rest of first animation will be compressed ~ to 325
    // The first animation finishes at 350+ 325 = 675
    state.assert_frame_at(673, 4, (1100, 300));

    // Transition into the second animation.
    // It should start ~ at 675
    // and last ~ till 675+500=1175
    state.assert_frame_at(675, 5, (1100, 300));

    state.assert_frame_at(1173, 8, (1100, 200));
    state.assert_empty_at(1175);
}

#[test]
fn test_right_up_compressed_when_frame_starts() {
    let mut state = TestState::new();

    let template = mock_template(mock_frames1243(1..=4), 50);
    state.controller.add_animation(state.now, &template, (100, 0), (1000, 300));

    state.assert_frame_at(299, 2, (1030, 300));

    // At the time of 299 the second frame is passing
    // The compression starts immediately
    let template = mock_template(mock_frames1243(5..=8), 50);
    state.controller.add_animation(state.now, &template, (0, -100), (1100, 200));

    state.assert_frame_at(300, 3, (1030, 300));
    // The rest of first animation will be compressed ~ to 350
    // The first animation finishes at 300+ 350 = 650
    state.assert_frame_at(647, 4, (1100, 300));

    // Transition into the second animation.
    // It should start ~ at 650
    // and last ~ till 650+500=1150
    state.assert_frame_at(650, 5, (1100, 300));
    state.assert_frame_at(1147, 8, (1100, 200));
    state.assert_empty_at(1150);
}

#[test]
fn test_add_with_zero_compression() {
    let mut state = TestState::new();

    //add with 0 compression at the beginning
    let template = mock_template(mock_frames1243(1..=4), 0);
    state.controller.add_animation(state.now, &template, (100, 10), (0, 0));

    let template = mock_template(mock_frames1243(1..=4), 50);
    state.controller.add_animation(state.now, &template, (100, 10), (0, 0));

    assert_eq!(1, state.controller.animations.len());
    //first animation is dropped, second is added uncompressed
    state.assert_animation_characteristics(0, 4, 0, 1000, (0, 0), (100, 10));

    //add with 0 compression at the end
    let template = mock_template(mock_frames1243(1..=4), 0);
    state.controller.add_animation(state.now, &template, (100, 10), (0, 0));

    assert_eq!(1, state.controller.animations.len());
    state.assert_animation_characteristics(0, 4, 0, 1000, (0, 0), (100, 10));

    //add with 0 compression between two normal compression
    let template = mock_template(mock_frames1243(1..=4), 50);
    state.controller.add_animation(state.now, &template, (100, 10), (0, 0));

    let template = mock_template(mock_frames1243(1..=4), 0);
    state.controller.add_animation(state.now, &template, (100, 10), (0, 0));

    let template = mock_template(mock_frames1243(1..=4), 50);
    state.controller.add_animation(state.now, &template, (100, 10), (0, 0));

    assert_eq!(3, state.controller.animations.len());
    state.assert_animation_characteristics(0, 4, 0, 500, (0, 0), (100, 10));
    state.assert_animation_characteristics(1, 4, 500, 500, (100, 10), (100, 10));
    state.assert_animation_characteristics(2, 4, 1000, 500, (200, 20), (100, 10));
}

#[test]
fn test_square_walking() {
    let mut state = TestState::new();

    let template = mock_template(mock_frames1243(1..=4), 100);
    state.controller.add_animation(state.now, &template, (100, 0), (200, 200));

    let template = mock_template(mock_frames1243(5..=8), 100);
    state.controller.add_animation(state.now, &template, (0, 100), (0, 0));

    let template = mock_template(mock_frames1243(9..=12), 100);
    state.controller.add_animation(state.now, &template, (-100, 0), (0, 0));

    let template = mock_template(mock_frames1243(13..=16), 100);
    state.controller.add_animation(state.now, &template, (0, -100), (0, 0));

    state.assert_frame_at(999, 4, (300, 200));
    state.assert_in_interval(1999, 8, (300, 300));
    state.assert_in_interval(2999, 12, (200, 300));
    // With exact millisecond arithmetic the last animation ends at
    // exactly 4000, so the interval assertion finds its last frame just
    // before that instant.
    state.assert_in_interval(4000, 16, (200, 200));
    //and this method is for precious time
    state.assert_empty_at(4000);
}

#[test]
fn test_idle_animation() {
    let mut state = TestState::new();

    let template = mock_template(mock_frames1243(1..=4), 100);
    state.controller.add_animation(state.now, &template, (100, 100), (0, 0));
    let template = mock_template(mock_frames1243(101..=104), 100);
    state.controller.add_idle_animation(&template, 10);
    state.assert_in_interval(1, 1, (0, 0));
    state.assert_in_interval(1000, 4, (100, 100));
    state.assert_empty_at(1010);
    state.assert_in_interval(11000, 101, (100, 100));
    state.assert_in_interval(12000, 104, (100, 100));
    state.assert_empty_at(13000);
    state.assert_in_interval(22000, 101, (100, 100));
    state.assert_in_interval(23000, 104, (100, 100));
    state.assert_empty_at(24000);
}

//! Looping per-tile sprite animations: the shared animation data a
//! tileset carries for an animated tile, and the small per-object state
//! that steps through its frames as time passes.

use vstd::prelude::*;

pub use crate::animation_controller::AnimationFrame;
use crate::animation_controller::{total_ms, TIME_LIMIT_MS, DURATION_LIMIT_MS};

verus! {

/// Ghost image of an [`Animation`].
pub ghost struct AnimationV {
    pub frames: Seq<AnimationFrame>,
    pub duration: int,
}

/// A tile's frame animation: the ordered frames and their total
/// duration, in milliseconds.
#[derive(Debug)]
pub struct Animation {
    pub frames: Vec<AnimationFrame>,
    pub duration: u64,
}

impl View for Animation {
    type V = AnimationV;

    open spec fn view(&self) -> AnimationV {
        AnimationV { frames: self.frames@, duration: self.duration as int }
    }
}

/// An animation the stepping state can run on: at least one frame, each
/// frame shown for at least a millisecond, the recorded duration the sum
/// of the frames', and short enough for exact arithmetic.
pub open spec fn animation_wf(a: AnimationV) -> bool {
    &&& 0 < a.frames.len() <= u32::MAX
    &&& a.duration == total_ms(a.frames)
    &&& 0 < a.duration <= DURATION_LIMIT_MS
    &&& forall|i: int| 0 <= i < a.frames.len() ==> (#[trigger] a.frames[i]).duration >= 1
}

/// One animated tile of a tileset: the tile id and its animation,
/// shared by every object that shows this tile.
#[derive(Debug)]
pub struct AnimatedTile {
    pub id: u32,
    pub animation: Animation,
}

impl AnimatedTile {
    pub fn new(id: u32, animation: Animation) -> (r: Self)
        ensures
            r.id == id,
            r.animation == animation,
    {
        Self { id, animation }
    }
}

/// The state `(frame, frame_start)` reaches after stepping forward `k`
/// whole frames: each step moves the frame start by the current frame's
/// duration and advances to the next frame, wrapping at the end of the
/// list.
pub open spec fn sprite_walk(frames: Seq<AnimationFrame>, frame: int, frame_start: int, k: nat) -> (
    int,
    int,
)
    decreases k,
{
    if k == 0 {
        (frame, frame_start)
    } else {
        let prev = sprite_walk(frames, frame, frame_start, (k - 1) as nat);
        (
            if prev.0 + 1 >= frames.len() {
                0
            } else {
                prev.0 + 1
            },
            prev.1 + frames[prev.0].duration,
        )
    }
}

/// Whether the state reached after `j` whole-frame steps contains
/// `now`: the time left past its frame start fits inside its frame.
pub open spec fn walk_settled(
    frames: Seq<AnimationFrame>,
    frame: int,
    frame_start: int,
    now: int,
    j: nat,
) -> bool {
    now - sprite_walk(frames, frame, frame_start, j).1 <= frames[sprite_walk(
        frames,
        frame,
        frame_start,
        j,
    ).0].duration
}

/// The lag `update` measures before stepping: time since the current
/// frame started, reduced modulo the animation's duration when it
/// exceeds one whole animation.
pub open spec fn initial_lag(duration: int, frame_start: int, now: int) -> int {
    if now - frame_start > duration {
        (now - frame_start) % duration
    } else {
        now - frame_start
    }
}

/// Per-object playback state of an animated tile: which frame is
/// showing and the instant, in milliseconds, it (should have) started
/// at.
#[derive(Clone, Copy, Debug)]
pub struct AnimatedSpriteState {
    pub animation_id: u32,
    /// Current frame.
    pub frame: u32,
    /// Instant the current frame (should have) started at.
    pub frame_start: u64,
    pub playing: bool,
}

impl AnimatedSpriteState {
    pub fn new(current_animation: u32, start: u64, playing: bool) -> (r: Self)
        ensures
            r.animation_id == current_animation,
            r.frame_start == start,
            r.frame == 0,
            r.playing == playing,
    {
        Self { animation_id: current_animation, frame_start: start, frame: 0, playing }
    }

    pub fn current_animation(&self) -> (r: u32)
        ensures
            r == self.animation_id,
    {
        self.animation_id
    }

    /// Sets the animation unless it was already set; a change restarts
    /// from the first frame at `now`.
    pub fn set_animation(&mut self, animation: u32, now: u64)
        ensures
            old(self).animation_id == animation ==> *final(self) == *old(self),
            old(self).animation_id != animation ==> *final(self) == (AnimatedSpriteState {
                animation_id: animation,
                frame: 0,
                frame_start: now,
                playing: old(self).playing,
            }),
    {
        if self.animation_id != animation {
            self.reset_animation(animation, now);
        }
    }

    /// Starts the given animation unconditionally, from the beginning,
    /// anchored at `now`.
    pub fn reset_animation(&mut self, animation_id: u32, now: u64)
        ensures
            *final(self) == (AnimatedSpriteState {
                animation_id,
                frame: 0,
                frame_start: now,
                playing: old(self).playing,
            }),
    {
        self.animation_id = animation_id;
        self.frame = 0;
        self.frame_start = now;
    }

    /// Steps the playback forward to `now`, advancing over whole frames
    /// (wrapping at the end of the animation) until the current frame
    /// contains `now` — except that a state lagging more than one whole
    /// animation behind is left in place when the lag, reduced modulo
    /// the animation's duration, already falls inside the current
    /// frame. Not playing: nothing changes. Call before drawing.
    pub fn update(&mut self, sprite: &AnimatedTile, now: u64)
        requires
            animation_wf(sprite.animation@),
            old(self).frame < sprite.animation.frames@.len(),
            now <= TIME_LIMIT_MS,
            old(self).playing ==> old(self).frame_start <= now,
        ensures
            final(self).animation_id == old(self).animation_id,
            final(self).playing == old(self).playing,
            final(self).frame < sprite.animation.frames@.len(),
            !old(self).playing ==> *final(self) == *old(self),
            old(self).playing ==> (exists|k: nat|
                {
                    &&& (final(self).frame as int, final(self).frame_start as int) == sprite_walk(
                        sprite.animation.frames@,
                        old(self).frame as int,
                        old(self).frame_start as int,
                        k,
                    )
                    &&& forall|j: nat|
                        1 <= j < k ==> !walk_settled(
                            sprite.animation.frames@,
                            old(self).frame as int,
                            old(self).frame_start as int,
                            now as int,
                            j,
                        )
                    &&& k >= 1 ==> initial_lag(
                        sprite.animation.duration as int,
                        old(self).frame_start as int,
                        now as int,
                    ) > sprite.animation.frames@[old(self).frame as int].duration
                    &&& (walk_settled(
                        sprite.animation.frames@,
                        old(self).frame as int,
                        old(self).frame_start as int,
                        now as int,
                        k,
                    ) || (k == 0 && now - old(self).frame_start > sprite.animation.duration && (now
                        - old(self).frame_start) % (sprite.animation.duration as int) <= sprite
                        .animation.frames@[old(self).frame as int].duration))
                }),
            old(self).playing ==> (now - final(self).frame_start <= sprite.animation.frames@[
                final(self).frame as int
            ].duration || (*final(self) == *old(self) && now - old(self).frame_start > sprite
                .animation.duration && (now - old(self).frame_start) % (
            sprite.animation.duration as int) <= sprite.animation.frames@[
                old(self).frame as int
            ].duration)),
    {
        let animation = &sprite.animation;
        let ghost frames = animation.frames@;
        let ghost f0 = self.frame as int;
        let ghost fs0 = self.frame_start as int;
        if self.playing {
            let mut dt: u64 = now - self.frame_start;
            let ghost reduced = dt > animation.duration;
            if dt > animation.duration {
                dt = dt % animation.duration;
            }
            let ghost mut k: nat = 0nat;
            proof {
                assert((self.frame as int, self.frame_start as int) == sprite_walk(
                    frames,
                    f0,
                    fs0,
                    0nat,
                ));
            }
            while dt > animation.frames[self.frame as usize].duration
                invariant
                    animation_wf(animation@),
                    animation == &sprite.animation,
                    frames == animation.frames@,
                    self.frame < frames.len(),
                    self.frame_start <= now <= TIME_LIMIT_MS,
                    self.animation_id == old(self).animation_id,
                    self.playing == old(self).playing,
                    (self.frame as int, self.frame_start as int) == sprite_walk(
                        frames,
                        f0,
                        fs0,
                        k,
                    ),
                    k == 0 ==> dt == initial_lag(animation.duration as int, fs0, now as int),
                    k >= 1 ==> dt == now - self.frame_start,
                    reduced <==> now - fs0 > animation.duration,
                    fs0 == old(self).frame_start,
                    f0 == old(self).frame,
                    forall|j: nat| 1 <= j < k ==> !walk_settled(frames, f0, fs0, now as int, j),
                    k >= 1 ==> initial_lag(animation.duration as int, fs0, now as int) > frames[
                        f0
                    ].duration,
                decreases now - self.frame_start,
            {
                proof {
                    crate::animation_controller::lemma_total_ms_bounds(frames);
                    if k == 0 {
                        if reduced {
                            vstd::arithmetic::div_mod::lemma_mod_bound(
                                now - fs0,
                                animation.duration as int,
                            );
                        }
                        assert(dt <= now - self.frame_start);
                    } else {
                        assert(dt == now - self.frame_start);
                        assert(!walk_settled(frames, f0, fs0, now as int, k));
                    }
                }
                let d: u64 = animation.frames[self.frame as usize].duration;
                self.frame_start = self.frame_start + d;
                dt = now - self.frame_start;
                if self.frame as usize + 1 >= animation.frames.len() {
                    self.frame = 0;
                } else {
                    self.frame = self.frame + 1;
                }
                proof {
                    let ghost prev_k = k;
                    k = k + 1;
                    assert((self.frame as int, self.frame_start as int) == sprite_walk(
                        frames,
                        f0,
                        fs0,
                        k,
                    ));
                    assert forall|j: nat| 1 <= j < k implies !walk_settled(
                        frames,
                        f0,
                        fs0,
                        now as int,
                        j,
                    ) by {
                        if j < prev_k {
                            assert(!walk_settled(frames, f0, fs0, now as int, j));
                        } else {
                            assert(j == prev_k);
                        }
                    }
                }
            }
            proof {
                if k == 0 && reduced {
                    assert((now - fs0) % (animation.duration as int) <= frames[f0].duration);
                } else {
                    assert(dt == now - self.frame_start);
                    assert(walk_settled(frames, f0, fs0, now as int, k));
                }
            }
        }
    }
}

} // verus!

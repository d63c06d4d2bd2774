//! The animation timeline engine: templates, live instances, the
//! per-entity controller with its queue and idle slot, and the registry
//! that maps animation names to templates.
//!
//! Time is an instant in whole milliseconds supplied by the caller;
//! positions and motion vectors are exact integer quantities, so every
//! sample the engine produces is deterministic.

use vstd::prelude::*;
use vstd::arithmetic::div_mod::{
    lemma_basic_div, lemma_div_is_ordered, lemma_div_multiples_vanish_fancy,
    lemma_div_nonincreasing, lemma_div_pos_is_pos, lemma_fundamental_div_mod,
};
use vstd::arithmetic::mul::{
    lemma_mul_inequality, lemma_mul_is_commutative, lemma_mul_is_distributive_add,
    lemma_mul_nonnegative,
};

verus! {

/// Largest instant, in milliseconds, that the controller accepts from its
/// caller. Generous (over two thousand years of uptime) while leaving
/// plenty of headroom below `u64::MAX` for internal sums.
pub const TIME_LIMIT_MS: u64 = 0x4000_0000_0000;

/// Largest total duration, in milliseconds, of one animation (about 49
/// days). Keeps every intermediate product of the compression arithmetic
/// inside `u64`/`i64`.
pub const DURATION_LIMIT_MS: u64 = 0x1_0000_0000;

/// Largest instant an instance may start at: a caller-supplied instant,
/// possibly pushed forward by one whole animation of queue chaining.
pub const START_LIMIT_MS: u64 = 0x4001_0000_0000;

/// Largest magnitude a motion vector component may have.
pub const MOVE_LIMIT: i64 = 0x10_0000;

/// Largest magnitude a position component may have.
pub const POS_LIMIT: i64 = 0x100_0000_0000;

/// Largest idle interval, in whole seconds.
pub const IDLE_INTERVAL_LIMIT_S: u64 = 0x2_0000_0000;

/// One frame of an animation: a sprite index and how long it is shown.
#[derive(Clone, Copy, Debug)]
pub struct AnimationFrame {
    pub tile_id: u32,
    /// Display time of this frame, in milliseconds.
    pub duration: u64,
}

/// What the controller reports for one queried instant: the sprite to
/// draw and where to draw it.
#[derive(Debug)]
pub struct OutputFrame {
    pub tile_id: u32,
    pub position: (i64, i64),
}

// ---------------------------------------------------------------------
// Mathematical model
// ---------------------------------------------------------------------

/// Total display time, in milliseconds, of a list of frames.
pub open spec fn total_ms(frames: Seq<AnimationFrame>) -> int
    decreases frames.len(),
{
    if frames.len() == 0 {
        0
    } else {
        frames[0].duration + total_ms(frames.skip(1))
    }
}

/// Splitting a frame list splits its total display time.
pub proof fn lemma_total_ms_append(a: Seq<AnimationFrame>, b: Seq<AnimationFrame>)
    ensures
        total_ms(a + b) == total_ms(a) + total_ms(b),
    decreases a.len(),
{
    if a.len() == 0 {
        assert(a + b =~= b);
    } else {
        assert((a + b).skip(1) =~= a.skip(1) + b);
        lemma_total_ms_append(a.skip(1), b);
    }
}

/// A one-frame list's total is that frame's duration.
pub proof fn lemma_total_ms_singleton(f: AnimationFrame)
    ensures
        total_ms(seq![f]) == f.duration,
{
    assert(seq![f].skip(1) =~= Seq::<AnimationFrame>::empty());
    assert(total_ms(Seq::<AnimationFrame>::empty()) == 0);
}

/// Appending one frame adds its duration to the total.
pub proof fn lemma_total_ms_push(s: Seq<AnimationFrame>, f: AnimationFrame)
    ensures
        total_ms(s.push(f)) == total_ms(s) + f.duration,
{
    assert(s.push(f) =~= s + seq![f]);
    lemma_total_ms_append(s, seq![f]);
    lemma_total_ms_singleton(f);
}

/// A total is never negative, and every frame's duration is at most the
/// total of the whole list.
pub proof fn lemma_total_ms_bounds(frames: Seq<AnimationFrame>)
    ensures
        0 <= total_ms(frames),
        forall|i: int| 0 <= i < frames.len() ==> frames[i].duration <= total_ms(frames),
    decreases frames.len(),
{
    if frames.len() > 0 {
        lemma_total_ms_bounds(frames.skip(1));
        assert(forall|i: int| 1 <= i < frames.len() ==> frames[i] == frames.skip(1)[i - 1]);
    }
}

/// The sprite shown `t` milliseconds into a frame list: walk the list
/// accumulating durations until the elapsed time falls inside a frame.
/// Past the end of the list the sentinel index 0 is reported, which
/// signals a caller-ordering problem rather than a data error.
pub open spec fn tile_at(frames: Seq<AnimationFrame>, t: int) -> u32
    decreases frames.len(),
{
    if frames.len() == 0 {
        0
    } else if t < frames[0].duration {
        frames[0].tile_id
    } else {
        tile_at(frames.skip(1), t - frames[0].duration)
    }
}

/// Division of `n` by `d` (for `d > 0`) rounded to the nearest integer,
/// halves away from zero.
pub open spec fn round_div(n: int, d: int) -> int {
    if n >= 0 {
        (n + d / 2) / d
    } else {
        -((-n + d / 2) / d)
    }
}

/// Rounding division stays within any multiple-of-`d` bound on the
/// numerator.
pub proof fn lemma_round_div_bound(n: int, d: int, m: int)
    requires
        0 < d,
        0 <= m,
        -(m * d) <= n <= m * d,
    ensures
        -m <= round_div(n, d) <= m,
{
    lemma_div_multiples_vanish_fancy(m, d / 2, d);
    if n >= 0 {
        lemma_div_is_ordered(n + d / 2, m * d + d / 2, d);
        assert(m * d + d / 2 == d * m + d / 2);
        lemma_div_pos_is_pos(n + d / 2, d);
    } else {
        lemma_div_is_ordered(-n + d / 2, m * d + d / 2, d);
        assert(m * d + d / 2 == d * m + d / 2);
        lemma_div_pos_is_pos(-n + d / 2, d);
    }
}

/// Rounding division lands within half a unit (scaled by `d`) of the
/// exact quotient: `|round_div(n, d) * d - n| <= d`.
pub proof fn lemma_round_div_error(n: int, d: int)
    requires
        0 < d,
    ensures
        -d <= round_div(n, d) * d - n <= d,
{
    if n >= 0 {
        lemma_fundamental_div_mod(n + d / 2, d);
        let q = (n + d / 2) / d;
        let r = (n + d / 2) % d;
        assert(n + d / 2 == d * q + r);
        assert(0 <= r < d);
        assert(q * d == d * q) by (nonlinear_arith);
        assert(q * d == n + d / 2 - r);
    } else {
        lemma_fundamental_div_mod(-n + d / 2, d);
        let q = (-n + d / 2) / d;
        let r = (-n + d / 2) % d;
        assert(-n + d / 2 == d * q + r);
        assert(0 <= r < d);
        assert((-q) * d == -(d * q)) by (nonlinear_arith);
        assert((-q) * d == n - d / 2 + r);
    }
}

// ---------------------------------------------------------------------
// Templates
// ---------------------------------------------------------------------

/// Ghost image of an [`AnimationTemplate`].
pub ghost struct TemplateV {
    pub name: Seq<char>,
    pub gid: u32,
    pub frames: Seq<AnimationFrame>,
    pub ordering: u8,
    pub max_compression: u32,
    pub blocks_turn: bool,
    pub cancel_frame: Option<u32>,
}

/// An immutable animation definition, shared by many instances: the frame
/// list plus compression and turn policy. `max_compression` is the
/// percentage of its nominal duration an animation may be shortened to:
/// 100 means it always plays at full length, 0 is a sentinel for "skip
/// this animation entirely".
pub struct AnimationTemplate {
    /// Animation name, as found in the tile metadata.
    pub name: String,
    /// Tile the animation is attached to.
    pub gid: u32,
    pub frames: Vec<AnimationFrame>,
    /// Inert ordering metadata; not consulted by the engine.
    pub ordering: u8,
    /// Percent of its nominal duration this animation may be compressed
    /// to when the queue is under pressure.
    pub max_compression: u32,
    /// Inert metadata: whether the next turn waits for this animation.
    pub blocks_turn: bool,
    /// Inert metadata: frame after which the animation may be cancelled.
    pub cancel_frame: Option<u32>,
}

impl View for AnimationTemplate {
    type V = TemplateV;

    open spec fn view(&self) -> TemplateV {
        TemplateV {
            name: self.name@,
            gid: self.gid,
            frames: self.frames@,
            ordering: self.ordering,
            max_compression: self.max_compression,
            blocks_turn: self.blocks_turn,
            cancel_frame: self.cancel_frame,
        }
    }
}

/// A template the engine can instantiate: at least one frame, and a total
/// duration small enough for exact arithmetic.
pub open spec fn template_wf(t: TemplateV) -> bool {
    &&& t.frames.len() > 0
    &&& total_ms(t.frames) <= DURATION_LIMIT_MS
}

// ---------------------------------------------------------------------
// Instances
// ---------------------------------------------------------------------

/// Ghost image of an [`AnimationInstance`].
pub ghost struct InstanceV {
    pub animation_start: int,
    pub frames: Seq<AnimationFrame>,
    pub duration: int,
    pub movement: (int, int),
    pub start_position: (int, int),
    pub max_compression: int,
    pub is_compressed: bool,
}

/// A live playback of a template: anchored at a concrete start instant
/// and start position, moving by `movement` over its total duration.
#[derive(Debug)]
pub struct AnimationInstance {
    /// Instant the animation (should have) started at, in milliseconds.
    pub animation_start: u64,
    /// This instance's own copy of the frames; compression replaces it.
    pub frames: Vec<AnimationFrame>,
    /// Sum of the frame durations, in milliseconds.
    pub duration: u64,
    /// Total displacement over the whole animation.
    pub movement: (i64, i64),
    pub start_position: (i64, i64),
    pub max_compression: u32,
    /// Set once the instance has been through compression; it is never
    /// compressed a second time.
    pub is_compressed: bool,
}

impl View for AnimationInstance {
    type V = InstanceV;

    open spec fn view(&self) -> InstanceV {
        InstanceV {
            animation_start: self.animation_start as int,
            frames: self.frames@,
            duration: self.duration as int,
            movement: (self.movement.0 as int, self.movement.1 as int),
            start_position: (self.start_position.0 as int, self.start_position.1 as int),
            max_compression: self.max_compression as int,
            is_compressed: self.is_compressed,
        }
    }
}

/// Arithmetic well-formedness of an instance: the recorded duration is
/// the sum of the frame durations, and every quantity is small enough
/// that sampling and compression stay exact.
pub open spec fn instance_wf(i: InstanceV) -> bool {
    &&& i.duration == total_ms(i.frames)
    &&& 0 <= i.duration <= DURATION_LIMIT_MS
    &&& 0 <= i.animation_start <= START_LIMIT_MS
    &&& 0 <= i.max_compression <= u32::MAX
    &&& -MOVE_LIMIT <= i.movement.0 <= MOVE_LIMIT
    &&& -MOVE_LIMIT <= i.movement.1 <= MOVE_LIMIT
    &&& -POS_LIMIT <= i.start_position.0 + i.movement.0 <= POS_LIMIT
    &&& -POS_LIMIT <= i.start_position.1 + i.movement.1 <= POS_LIMIT
    &&& -POS_LIMIT - MOVE_LIMIT <= i.start_position.0 <= POS_LIMIT + MOVE_LIMIT
    &&& -POS_LIMIT - MOVE_LIMIT <= i.start_position.1 <= POS_LIMIT + MOVE_LIMIT
}

/// The instance a template produces when instantiated at `start`, before
/// any compression.
pub open spec fn fresh_instance(
    start: int,
    t: TemplateV,
    movement: (int, int),
    start_position: (int, int),
) -> InstanceV {
    InstanceV {
        animation_start: start,
        frames: t.frames,
        duration: total_ms(t.frames),
        movement,
        start_position,
        max_compression: t.max_compression as int,
        is_compressed: false,
    }
}

impl AnimationInstance {
    /// Creates the playback of `template` that starts at `start_time`
    /// and moves by `movement` from `start_position`.
    pub fn new(
        start_time: u64,
        template: &AnimationTemplate,
        movement: (i64, i64),
        start_position: (i64, i64),
    ) -> (r: Self)
        requires
            template_wf(template@),
            start_time <= START_LIMIT_MS,
            -MOVE_LIMIT <= movement.0 <= MOVE_LIMIT,
            -MOVE_LIMIT <= movement.1 <= MOVE_LIMIT,
            -POS_LIMIT <= start_position.0 + movement.0 <= POS_LIMIT,
            -POS_LIMIT <= start_position.1 + movement.1 <= POS_LIMIT,
            -POS_LIMIT <= start_position.0 <= POS_LIMIT,
            -POS_LIMIT <= start_position.1 <= POS_LIMIT,
        ensures
            r@ == fresh_instance(
                start_time as int,
                template@,
                (movement.0 as int, movement.1 as int),
                (start_position.0 as int, start_position.1 as int),
            ),
            instance_wf(r@),
    {
        let total: u64 = sum_frame_durations(&template.frames);
        Self {
            animation_start: start_time,
            duration: total,
            frames: template.frames.clone(),
            movement,
            start_position,
            max_compression: template.max_compression,
            is_compressed: false,
        }
    }
}

// ---------------------------------------------------------------------
// Compression
// ---------------------------------------------------------------------

/// The frame list that compressing at instant `now` leaves behind, for a
/// walk whose cursor (the instant the current frame starts at) is
/// `cursor`. Frames that have fully played by `now` are dropped; the
/// frame straddling `now` keeps only its remaining portion, shortened to
/// `pct` percent; every later frame is shortened to `pct` percent whole.
pub open spec fn compressed_frames(
    frames: Seq<AnimationFrame>,
    cursor: int,
    now: int,
    pct: int,
) -> Seq<AnimationFrame>
    decreases frames.len(),
{
    if frames.len() == 0 {
        Seq::empty()
    } else {
        let f = frames[0];
        let rest = compressed_frames(frames.skip(1), cursor + f.duration, now, pct);
        if cursor + f.duration <= now {
            rest
        } else if cursor < now {
            seq![
                AnimationFrame {
                    tile_id: f.tile_id,
                    duration: ((f.duration - (now - cursor)) * pct / 100) as u64,
                },
            ] + rest
        } else {
            seq![
                AnimationFrame { tile_id: f.tile_id, duration: (f.duration * pct / 100) as u64 },
            ] + rest
        }
    }
}

/// Compressing a concatenation compresses the parts, the second with the
/// cursor advanced over the first.
pub proof fn lemma_compressed_frames_append(
    a: Seq<AnimationFrame>,
    b: Seq<AnimationFrame>,
    cursor: int,
    now: int,
    pct: int,
)
    ensures
        compressed_frames(a + b, cursor, now, pct) == compressed_frames(a, cursor, now, pct)
            + compressed_frames(b, cursor + total_ms(a), now, pct),
    decreases a.len(),
{
    if a.len() == 0 {
        assert(a + b =~= b);
        assert(compressed_frames(a, cursor, now, pct) + compressed_frames(b, cursor, now, pct)
            =~= compressed_frames(b, cursor, now, pct));
    } else {
        assert((a + b).skip(1) =~= a.skip(1) + b);
        lemma_compressed_frames_append(a.skip(1), b, cursor + a[0].duration, now, pct);
        assert(compressed_frames(a, cursor, now, pct) + compressed_frames(
            b,
            cursor + total_ms(a),
            now,
            pct,
        ) =~= compressed_frames(a + b, cursor, now, pct));
    }
}

/// What compressing a single frame leaves behind.
pub proof fn lemma_compressed_frames_singleton(f: AnimationFrame, cursor: int, now: int, pct: int)
    ensures
        compressed_frames(seq![f], cursor, now, pct) == (if cursor + f.duration <= now {
            Seq::<AnimationFrame>::empty()
        } else if cursor < now {
            seq![
                AnimationFrame {
                    tile_id: f.tile_id,
                    duration: ((f.duration - (now - cursor)) * pct / 100) as u64,
                },
            ]
        } else {
            seq![
                AnimationFrame { tile_id: f.tile_id, duration: (f.duration * pct / 100) as u64 },
            ]
        }),
{
    assert(seq![f].skip(1) =~= Seq::<AnimationFrame>::empty());
    assert(compressed_frames(Seq::<AnimationFrame>::empty(), cursor + f.duration, now, pct)
        =~= Seq::<AnimationFrame>::empty());
    if cursor + f.duration <= now {
        assert(compressed_frames(seq![f], cursor, now, pct) =~= Seq::<AnimationFrame>::empty());
    } else if cursor < now {
        assert(compressed_frames(seq![f], cursor, now, pct) =~= seq![
            AnimationFrame {
                tile_id: f.tile_id,
                duration: ((f.duration - (now - cursor)) * pct / 100) as u64,
            },
        ]);
    } else {
        assert(compressed_frames(seq![f], cursor, now, pct) =~= seq![
            AnimationFrame { tile_id: f.tile_id, duration: (f.duration * pct / 100) as u64 },
        ]);
    }
}

/// Shortening to `pct` percent shortens the total accordingly: one
/// hundred times the compressed total never exceeds `pct` times the
/// original total (frames already played count toward the original).
pub proof fn lemma_compressed_frames_total(
    frames: Seq<AnimationFrame>,
    cursor: int,
    now: int,
    pct: int,
)
    requires
        0 <= pct < 100,
    ensures
        0 <= total_ms(compressed_frames(frames, cursor, now, pct)),
        100 * total_ms(compressed_frames(frames, cursor, now, pct)) <= pct * total_ms(frames),
    decreases frames.len(),
{
    lemma_total_ms_bounds(frames);
    if frames.len() > 0 {
        let f = frames[0];
        let rest = compressed_frames(frames.skip(1), cursor + f.duration, now, pct);
        lemma_compressed_frames_total(frames.skip(1), cursor + f.duration, now, pct);
        lemma_total_ms_bounds(frames.skip(1));
        assert(pct * total_ms(frames) == pct * f.duration + pct * total_ms(frames.skip(1))) by {
            lemma_mul_is_distributive_add(pct, f.duration as int, total_ms(frames.skip(1)));
        }
        assert(0 <= pct * f.duration) by {
            lemma_mul_nonnegative(pct, f.duration as int);
        }
        if cursor + f.duration <= now {
        } else {
            let kept = if cursor < now {
                f.duration - (now - cursor)
            } else {
                f.duration as int
            };
            let nd = kept * pct / 100;
            assert(0 <= kept <= f.duration);
            assert(0 <= kept * pct) by {
                lemma_mul_nonnegative(kept, pct);
            }
            assert(100 * (kept * pct / 100) <= kept * pct) by {
                lemma_fundamental_div_mod(kept * pct, 100);
            }
            assert(kept * pct <= f.duration * pct) by {
                lemma_mul_inequality(kept, f.duration as int, pct);
            }
            assert(f.duration * pct == pct * f.duration) by {
                lemma_mul_is_commutative(f.duration as int, pct);
            }
            assert(nd <= f.duration) by {
                assert(kept * pct <= kept * 100) by {
                    lemma_mul_inequality_converse_helper(kept, pct);
                }
            }
            let head = compressed_frames(frames, cursor, now, pct)[0];
            assert(compressed_frames(frames, cursor, now, pct) =~= seq![head] + rest);
            lemma_total_ms_append(seq![head], rest);
            lemma_total_ms_singleton(head);
            assert(head.duration == nd as u64);
            assert(nd as u64 == nd);
        }
    }
}

/// `k * pct <= k * 100` for `0 <= pct < 100` and `0 <= k`.
proof fn lemma_mul_inequality_converse_helper(k: int, pct: int)
    requires
        0 <= k,
        0 <= pct <= 100,
    ensures
        k * pct <= k * 100,
{
    lemma_mul_inequality(pct, 100, k);
    lemma_mul_is_commutative(pct, k);
    lemma_mul_is_commutative(100, k);
}

/// The state compression leaves an instance in. A no-op apart from the
/// `is_compressed` mark when nothing may be compressed
/// (`max_compression >= 100`). Otherwise the remaining frames are
/// shortened, the timeline is re-anchored at `now`, and the motion
/// vector is rescaled so that the remaining displacement is covered in
/// the shortened remaining time while the total end position is kept
/// exactly. When nothing at all is left to play, the instance degenerates
/// to a zero-length, zero-motion one standing at its end position.
pub open spec fn compress_v(i: InstanceV, now: int) -> InstanceV {
    if i.max_compression >= 100 {
        InstanceV { is_compressed: true, ..i }
    } else {
        let nf = compressed_frames(i.frames, i.animation_start, now, i.max_compression);
        let nt = total_ms(nf);
        if nt == 0 {
            InstanceV {
                animation_start: now,
                frames: nf,
                duration: 0,
                movement: (0, 0),
                start_position: (
                    i.start_position.0 + i.movement.0,
                    i.start_position.1 + i.movement.1,
                ),
                max_compression: i.max_compression,
                is_compressed: true,
            }
        } else {
            let denom = i.duration * i.max_compression;
            let mx = round_div(i.movement.0 * nt * 100, denom);
            let my = round_div(i.movement.1 * nt * 100, denom);
            InstanceV {
                animation_start: now,
                frames: nf,
                duration: nt,
                movement: (mx, my),
                start_position: (
                    i.start_position.0 + i.movement.0 - mx,
                    i.start_position.1 + i.movement.1 - my,
                ),
                max_compression: i.max_compression,
                is_compressed: true,
            }
        }
    }
}

/// Compression as the controller applies it: an instance already marked
/// compressed is left alone.
pub open spec fn compress_guarded(i: InstanceV, now: int) -> InstanceV {
    if i.is_compressed {
        i
    } else {
        compress_v(i, now)
    }
}

/// Compression keeps an instance well formed, keeps its end instant no
/// later than `now` plus the old remaining time, never lengthens it, and
/// keeps its end position exactly.
pub proof fn lemma_compress_v_wf(i: InstanceV, now: int)
    requires
        instance_wf(i),
        0 <= now <= START_LIMIT_MS,
    ensures
        instance_wf(compress_v(i, now)),
        compress_v(i, now).duration <= i.duration,
        compress_v(i, now).is_compressed,
        compress_v(i, now).max_compression == i.max_compression,
        compress_v(i, now).start_position.0 + compress_v(i, now).movement.0 == i.start_position.0
            + i.movement.0,
        compress_v(i, now).start_position.1 + compress_v(i, now).movement.1 == i.start_position.1
            + i.movement.1,
        i.max_compression < 100 ==> compress_v(i, now).animation_start == now,
        i.max_compression >= 100 ==> compress_v(i, now).animation_start == i.animation_start
            && compress_v(i, now).duration == i.duration,
{
    if i.max_compression < 100 {
        let pct = i.max_compression;
        let nf = compressed_frames(i.frames, i.animation_start, now, pct);
        let nt = total_ms(nf);
        lemma_compressed_frames_total(i.frames, i.animation_start, now, pct);
        assert(pct * total_ms(i.frames) <= 100 * total_ms(i.frames)) by {
            lemma_mul_inequality(pct, 100, total_ms(i.frames));
            lemma_mul_is_commutative(pct, total_ms(i.frames));
            lemma_mul_is_commutative(100, total_ms(i.frames));
        }
        assert(nt <= i.duration);
        if nt != 0 {
            let denom = i.duration * pct;
            assert(100 * nt >= 100) by {
                assert(nt >= 1);
            }
            assert(denom == pct * i.duration) by {
                lemma_mul_is_commutative(i.duration, pct);
            }
            assert(denom >= 100);
            lemma_movement_component_bound(i.movement.0, nt, i.duration, pct);
            lemma_movement_component_bound(i.movement.1, nt, i.duration, pct);
        }
    }
}

/// The rescaled motion component is no larger in magnitude than the
/// original one.
proof fn lemma_movement_component_bound(m: int, nt: int, dur: int, pct: int)
    requires
        -MOVE_LIMIT <= m <= MOVE_LIMIT,
        0 < nt,
        0 <= pct < 100,
        100 * nt <= pct * dur,
    ensures
        -if m >= 0 { m } else { -m } <= round_div(m * nt * 100, dur * pct) <= if m >= 0 {
            m
        } else {
            -m
        },
{
    let am = if m >= 0 { m } else { -m };
    let denom = dur * pct;
    assert(0 < denom) by (nonlinear_arith)
        requires
            0 < nt,
            100 * nt <= pct * dur,
            denom == dur * pct,
    ;
    assert(-(am * denom) <= m * nt * 100 <= am * denom) by (nonlinear_arith)
        requires
            denom == dur * pct,
            am == if m >= 0 { m } else { -m },
            0 < nt,
            100 * nt <= pct * dur,
    ;
    lemma_round_div_bound(m * nt * 100, denom, am);
}

impl AnimationInstance {
    /// Shortens whatever of this animation has not yet been shown at
    /// `current_time` to `max_compression` percent of its nominal
    /// duration, re-anchoring the timeline at `current_time` and speeding
    /// the remaining motion up so that the end position is unchanged.
    /// A no-op on an instance already marked compressed: an instance is
    /// never compressed a second time. With `max_compression >= 100` the
    /// instance is only marked compressed.
    pub fn compress(&mut self, current_time: u64)
        requires
            instance_wf(old(self)@),
            current_time <= START_LIMIT_MS,
        ensures
            final(self)@ == compress_guarded(old(self)@, current_time as int),
            instance_wf(final(self)@),
    {
        if self.is_compressed {
            return;
        }
        proof {
            lemma_compress_v_wf(old(self)@, current_time as int);
        }
        if self.max_compression >= 100 {
            self.is_compressed = true;
            return;
        }
        let pct: u64 = self.max_compression as u64;
        proof {
            lemma_total_ms_bounds(self.frames@);
        }
        let ghost start0: int = self.animation_start as int;
        let mut new_frames: Vec<AnimationFrame> = Vec::new();
        let mut cursor: u64 = self.animation_start;
        let mut idx: usize = 0;
        proof {
            assert(self.frames@.take(0) =~= Seq::<AnimationFrame>::empty());
            assert(compressed_frames(Seq::<AnimationFrame>::empty(), start0, current_time as int, pct as int)
                =~= Seq::<AnimationFrame>::empty());
            assert(total_ms(Seq::<AnimationFrame>::empty()) == 0);
        }
        while idx < self.frames.len()
            invariant
                *self == *old(self),
                instance_wf(self@),
                pct == self.max_compression,
                pct < 100,
                current_time <= START_LIMIT_MS,
                start0 == self.animation_start as int,
                0 <= idx <= self.frames@.len(),
                cursor == start0 + total_ms(self.frames@.take(idx as int)),
                new_frames@ == compressed_frames(
                    self.frames@.take(idx as int),
                    start0,
                    current_time as int,
                    pct as int,
                ),
            decreases self.frames@.len() - idx,
        {
            let ghost prefix = self.frames@.take(idx as int);
            proof {
                lemma_total_ms_bounds(self.frames@);
                assert(self.frames@.take(idx + 1) =~= prefix + seq![self.frames@[idx as int]]);
                lemma_total_ms_append(prefix, seq![self.frames@[idx as int]]);
                lemma_total_ms_singleton(self.frames@[idx as int]);
                lemma_compressed_frames_append(
                    prefix,
                    seq![self.frames@[idx as int]],
                    start0,
                    current_time as int,
                    pct as int,
                );
                lemma_compressed_frames_singleton(
                    self.frames@[idx as int],
                    cursor as int,
                    current_time as int,
                    pct as int,
                );
                // The whole prefix total is bounded by the full duration.
                lemma_total_ms_append(self.frames@.take(idx + 1), self.frames@.skip(idx + 1));
                assert(self.frames@.take(idx + 1) + self.frames@.skip(idx + 1) =~= self.frames@);
                lemma_total_ms_bounds(self.frames@.skip(idx + 1));
            }
            let f = self.frames[idx];
            proof {
                lemma_pct_product_bound(f.duration as int, pct as int);
                lemma_pct_product_bound((f.duration - (current_time - cursor)) as int, pct as int);
            }
            if cursor + f.duration <= current_time {
                // fully played: dropped
            } else if cursor < current_time {
                let remaining: u64 = f.duration - (current_time - cursor);
                proof {
                    lemma_pct_product_bound(remaining as int, pct as int);
                }
                let nd: u64 = remaining * pct / 100;
                new_frames.push(AnimationFrame { tile_id: f.tile_id, duration: nd });
            } else {
                let nd: u64 = f.duration * pct / 100;
                new_frames.push(AnimationFrame { tile_id: f.tile_id, duration: nd });
            }
            cursor = cursor + f.duration;
            idx = idx + 1;
        }
        proof {
            assert(self.frames@.take(self.frames@.len() as int) =~= self.frames@);
            lemma_compressed_frames_total(
                self.frames@,
                start0,
                current_time as int,
                pct as int,
            );
            assert(pct * total_ms(self.frames@) <= 100 * total_ms(self.frames@)) by {
                lemma_mul_inequality(pct as int, 100, total_ms(self.frames@));
                lemma_mul_is_commutative(pct as int, total_ms(self.frames@));
                lemma_mul_is_commutative(100, total_ms(self.frames@));
            }
        }
        let new_total: u64 = sum_frame_durations(&new_frames);
        if new_total == 0 {
            self.start_position = (
                self.start_position.0 + self.movement.0,
                self.start_position.1 + self.movement.1,
            );
            self.movement = (0, 0);
        } else {
            proof {
                lemma_compress_movement_overflow(
                    self.movement.0 as int,
                    new_total as int,
                    self.duration as int,
                    pct as int,
                );
                lemma_compress_movement_overflow(
                    self.movement.1 as int,
                    new_total as int,
                    self.duration as int,
                    pct as int,
                );
            }
            let denom: u64 = self.duration * pct;
            let numx: i64 = self.movement.0 * (new_total as i64) * 100;
            let numy: i64 = self.movement.1 * (new_total as i64) * 100;
            let mx: i64 = round_div_i64(numx, denom);
            let my: i64 = round_div_i64(numy, denom);
            proof {
                lemma_movement_component_bound(
                    self.movement.0 as int,
                    new_total as int,
                    self.duration as int,
                    pct as int,
                );
                lemma_movement_component_bound(
                    self.movement.1 as int,
                    new_total as int,
                    self.duration as int,
                    pct as int,
                );
            }
            self.start_position = (
                self.start_position.0 + self.movement.0 - mx,
                self.start_position.1 + self.movement.1 - my,
            );
            self.movement = (mx, my);
        }
        self.animation_start = current_time;
        self.frames = new_frames;
        self.duration = new_total;
        self.is_compressed = true;
    }
}

/// A duration times a sub-hundred percentage stays far inside `u64`.
proof fn lemma_pct_product_bound(a: int, p: int)
    requires
        0 <= p < 100,
    ensures
        0 <= a <= DURATION_LIMIT_MS ==> 0 <= a * p < 0x1_0000_0000_0000,
{
    if 0 <= a <= DURATION_LIMIT_MS {
        assert(0 <= a * p < 0x1_0000_0000_0000) by (nonlinear_arith)
            requires
                0 <= a <= 0x1_0000_0000,
                0 <= p < 100,
        ;
    }
}

/// The products the motion rescaling computes stay inside `i64`.
proof fn lemma_compress_movement_overflow(m: int, nt: int, dur: int, pct: int)
    requires
        -MOVE_LIMIT <= m <= MOVE_LIMIT,
        0 <= nt <= DURATION_LIMIT_MS,
        0 <= dur <= DURATION_LIMIT_MS,
        0 <= pct < 100,
    ensures
        -0x10_0000_0000_0000 <= m * nt <= 0x10_0000_0000_0000,
        -0x800_0000_0000_0000 <= m * nt * 100 <= 0x800_0000_0000_0000,
        0 <= dur * pct <= 0x80_0000_0000_0000,
{
    assert(-0x10_0000_0000_0000 <= m * nt <= 0x10_0000_0000_0000) by (nonlinear_arith)
        requires
            -MOVE_LIMIT <= m <= MOVE_LIMIT,
            0 <= nt <= DURATION_LIMIT_MS,
    ;
    assert(0 <= dur * pct <= 0x80_0000_0000_0000) by (nonlinear_arith)
        requires
            0 <= dur <= DURATION_LIMIT_MS,
            0 <= pct < 100,
    ;
}

/// Division rounded to the nearest integer, halves away from zero.
fn round_div_i64(n: i64, d: u64) -> (r: i64)
    requires
        0 < d <= 0x80_0000_0000_0000,
        -0x800_0000_0000_0000 <= n <= 0x800_0000_0000_0000,
    ensures
        r == round_div(n as int, d as int),
{
    if n >= 0 {
        let q: u64 = ((n as u64) + d / 2) / d;
        proof {
            lemma_div_is_ordered(0, (n as u64 + d / 2) as int, d as int);
            lemma_div_nonincreasing((n as u64 + d / 2) as int, d as int);
        }
        q as i64
    } else {
        let q: u64 = (((-n) as u64) + d / 2) / d;
        proof {
            lemma_div_is_ordered(0, ((-n) as u64 + d / 2) as int, d as int);
            lemma_div_nonincreasing(((-n) as u64 + d / 2) as int, d as int);
        }
        -(q as i64)
    }
}

// ---------------------------------------------------------------------
// Sampling
// ---------------------------------------------------------------------

/// Time elapsed since an instance's start, clamped below at zero.
pub open spec fn elapsed_at(i: InstanceV, now: int) -> int {
    if now <= i.animation_start {
        0
    } else {
        now - i.animation_start
    }
}

/// The position an instance stands at when sampled at `now`: linear
/// interpolation from the start position along the motion vector, each
/// axis rounded to the nearest whole unit. Before the start the start
/// position is reported, past the end the end position; an instance with
/// nothing to play stands at its end position.
pub open spec fn position_at(i: InstanceV, now: int) -> (int, int) {
    let e0 = elapsed_at(i, now);
    let e = if e0 > i.duration {
        i.duration
    } else {
        e0
    };
    if i.duration == 0 {
        (i.start_position.0 + i.movement.0, i.start_position.1 + i.movement.1)
    } else {
        (
            i.start_position.0 + round_div(i.movement.0 * e, i.duration),
            i.start_position.1 + round_div(i.movement.1 * e, i.duration),
        )
    }
}

/// The sprite and position an instance shows at `now`.
pub open spec fn instance_frame_at(i: InstanceV, now: int) -> OutputFrame {
    OutputFrame {
        tile_id: tile_at(i.frames, elapsed_at(i, now)),
        position: (position_at(i, now).0 as i64, position_at(i, now).1 as i64),
    }
}

// ---------------------------------------------------------------------
// The controller
// ---------------------------------------------------------------------

/// Ghost image of an [`IdleInstance`].
pub ghost struct IdleV {
    pub frames: Seq<AnimationFrame>,
    pub duration: int,
}

/// Ghost image of an [`IdleStart`].
pub ghost struct IdleStartV {
    pub start_time: int,
    pub position: (int, int),
}

/// Ghost image of an [`AnimationController`].
pub ghost struct ControllerV {
    pub animations: Seq<InstanceV>,
    pub idle_interval: Option<int>,
    pub idle_animations: Seq<IdleV>,
    pub idle_start: Option<IdleStartV>,
}

/// Where and when the idle fallback animation is anchored: the end
/// instant and end position of the last queued animation.
#[derive(Debug)]
pub struct IdleStart {
    pub start_time: u64,
    pub position: (i64, i64),
}

impl View for IdleStart {
    type V = IdleStartV;

    open spec fn view(&self) -> IdleStartV {
        IdleStartV {
            start_time: self.start_time as int,
            position: (self.position.0 as int, self.position.1 as int),
        }
    }
}

impl IdleStart {
    pub fn new(start_time: u64, position: (i64, i64)) -> (r: Self)
        ensures
            r@.start_time == start_time as int,
            r@.position == (position.0 as int, position.1 as int),
    {
        Self { start_time, position }
    }
}

/// An idle animation ready to play: a frame list and its total duration.
#[derive(Debug)]
pub struct IdleInstance {
    pub frames: Vec<AnimationFrame>,
    pub duration: u64,
}

impl View for IdleInstance {
    type V = IdleV;

    open spec fn view(&self) -> IdleV {
        IdleV { frames: self.frames@, duration: self.duration as int }
    }
}

/// An idle animation's recorded duration is the sum of its frames, and
/// small enough for exact arithmetic.
pub open spec fn idle_wf(a: IdleV) -> bool {
    &&& a.duration == total_ms(a.frames)
    &&& 0 <= a.duration <= DURATION_LIMIT_MS
}

impl IdleInstance {
    /// Copies a template into an idle slot entry.
    pub fn new(template: &AnimationTemplate) -> (r: Self)
        requires
            template_wf(template@),
        ensures
            r@.frames == template@.frames,
            r@.duration == total_ms(template@.frames),
            idle_wf(r@),
    {
        let total: u64 = sum_frame_durations(&template.frames);
        Self { duration: total, frames: template.frames.clone() }
    }
}

/// Per-entity object that owns and samples that entity's animations: a
/// FIFO queue of live instances (index 0 is playing or next to play) and
/// an optional periodic idle animation consulted when the queue is
/// empty.
#[derive(Debug)]
pub struct AnimationController {
    /// Current animations to be played, oldest first.
    pub animations: Vec<AnimationInstance>,
    /// If there was no animation for this long (milliseconds), play the
    /// idle animation.
    pub idle_interval: Option<u64>,
    /// The idle animation slot.
    pub idle_animations: Vec<IdleInstance>,
    /// Where the idle fallback is anchored.
    pub idle_start: Option<IdleStart>,
}

impl View for AnimationController {
    type V = ControllerV;

    open spec fn view(&self) -> ControllerV {
        ControllerV {
            animations: self.animations@.map_values(|i: AnimationInstance| i@),
            idle_interval: match self.idle_interval {
                Some(iv) => Some(iv as int),
                None => None,
            },
            idle_animations: self.idle_animations@.map_values(|i: IdleInstance| i@),
            idle_start: match self.idle_start {
                Some(s) => Some(s@),
                None => None,
            },
        }
    }
}

/// Adjacent queued instances are chained: each starts the moment its
/// predecessor ends.
pub open spec fn chained_at(c: ControllerV, i: int) -> bool {
    c.animations[i + 1].animation_start == c.animations[i].animation_start
        + c.animations[i].duration
}

/// The controller's invariant: every queued instance is well formed, the
/// queue is gaplessly chained, a queue of two or more holds only
/// already-compressed instances, and the idle slot's quantities are
/// bounded.
pub open spec fn controller_wf(c: ControllerV) -> bool {
    &&& forall|i: int| 0 <= i < c.animations.len() ==> instance_wf(#[trigger] c.animations[i])
    &&& forall|i: int| 0 <= i < c.animations.len() - 1 ==> #[trigger] chained_at(c, i)
    &&& c.animations.len() >= 2 ==> forall|i: int|
        0 <= i < c.animations.len() ==> (#[trigger] c.animations[i]).is_compressed
    &&& match c.idle_interval {
        Some(iv) => 0 <= iv <= 1000 * IDLE_INTERVAL_LIMIT_S,
        None => true,
    }
    &&& forall|i: int| 0 <= i < c.idle_animations.len() ==> idle_wf(#[trigger] c.idle_animations[i])
    &&& match c.idle_start {
        Some(s) => {
            &&& 0 <= s.start_time <= START_LIMIT_MS + DURATION_LIMIT_MS
            &&& -POS_LIMIT <= s.position.0 <= POS_LIMIT
            &&& -POS_LIMIT <= s.position.1 <= POS_LIMIT
        },
        None => true,
    }
}

/// How many instances at the front of the queue have expired by `now`
/// (their end instant has been reached).
pub open spec fn prune_count(q: Seq<InstanceV>, now: int) -> int
    decreases q.len(),
{
    if q.len() == 0 {
        0
    } else if q[0].animation_start + q[0].duration <= now {
        1 + prune_count(q.skip(1), now)
    } else {
        0
    }
}

/// `prune_count` counts a front segment of the queue.
pub proof fn lemma_prune_count_bounds(q: Seq<InstanceV>, now: int)
    ensures
        0 <= prune_count(q, now) <= q.len(),
    decreases q.len(),
{
    if q.len() > 0 {
        lemma_prune_count_bounds(q.skip(1), now);
    }
}

/// The state `update` leaves the controller in: the expired front
/// segment of the queue is discarded, everything else is kept.
pub open spec fn update_v(c: ControllerV, now: int) -> ControllerV {
    ControllerV { animations: c.animations.skip(prune_count(c.animations, now)), ..c }
}

/// What `get_frame` reports when the queue is empty: the idle animation,
/// if one is configured and anchored. Idle windows repeat every
/// `interval + duration` milliseconds from the anchor instant: a window
/// starting at `anchor + k * (interval + duration) + interval` shows the
/// idle frames, pinned to the anchor position; outside every window
/// nothing is shown.
pub open spec fn idle_frame_at(c: ControllerV, now: int) -> Option<OutputFrame> {
    match (c.idle_interval, c.idle_start) {
        (Some(interval), Some(anchor)) => {
            if c.idle_animations.len() == 0 {
                None
            } else {
                let inst = c.idle_animations[0];
                let period = interval + inst.duration;
                if period <= 0 {
                    None
                } else {
                    let k = if now >= anchor.start_time {
                        (now - anchor.start_time) / period
                    } else {
                        0
                    };
                    let window_start = anchor.start_time + k * period;
                    let idle_anim_start = window_start + interval;
                    if idle_anim_start > now {
                        None
                    } else {
                        Some(
                            OutputFrame {
                                tile_id: tile_at(inst.frames, now - idle_anim_start),
                                position: (anchor.position.0 as i64, anchor.position.1 as i64),
                            },
                        )
                    }
                }
            }
        },
        _ => None,
    }
}

/// What `get_frame` reports: the front queued instance's sample, or the
/// idle fallback when the queue is empty.
pub open spec fn frame_at(c: ControllerV, now: int) -> Option<OutputFrame> {
    if c.animations.len() > 0 {
        Some(instance_frame_at(c.animations[0], now))
    } else {
        idle_frame_at(c, now)
    }
}

/// Discarding any front segment of the queue keeps the controller well
/// formed.
pub proof fn lemma_controller_wf_skip(c: ControllerV, k: int)
    requires
        controller_wf(c),
        0 <= k <= c.animations.len(),
    ensures
        controller_wf(ControllerV { animations: c.animations.skip(k), ..c }),
{
    let c2 = ControllerV { animations: c.animations.skip(k), ..c };
    assert(forall|i: int|
        0 <= i < c2.animations.len() ==> #[trigger] c2.animations[i] == c.animations[i + k]);
    assert forall|i: int| 0 <= i < c2.animations.len() - 1 implies #[trigger] chained_at(
        c2,
        i,
    ) by {
        assert(chained_at(c, i + k));
    }
}

impl AnimationController {
    /// An empty controller: no queued animations and no idle slot.
    pub fn new() -> (r: Self)
        ensures
            r@.animations == Seq::<InstanceV>::empty(),
            r@.idle_interval is None,
            r@.idle_animations == Seq::<IdleV>::empty(),
            r@.idle_start is None,
            controller_wf(r@),
    {
        let r = Self {
            animations: Vec::new(),
            idle_interval: None,
            idle_animations: Vec::new(),
            idle_start: None,
        };
        proof {
            assert(r@.animations =~= Seq::<InstanceV>::empty());
            assert(r@.idle_animations =~= Seq::<IdleV>::empty());
        }
        r
    }

    /// Discards the queued animations whose time is gone: every instance
    /// whose end instant has been reached by `time`. Expired instances
    /// are contiguous at the front because the queue is chained.
    pub fn update(&mut self, time: u64)
        requires
            controller_wf(old(self)@),
            time <= TIME_LIMIT_MS,
        ensures
            final(self)@ == update_v(old(self)@, time as int),
            controller_wf(final(self)@),
    {
        let ghost c0 = old(self)@;
        let ghost mut k: int = 0;
        proof {
            lemma_prune_count_bounds(c0.animations, time as int);
            assert(c0.animations.skip(0) =~= c0.animations);
            assert forall|i: int| 0 <= i < self.animations@.len() implies instance_wf(
                (#[trigger] self.animations@[i])@,
            ) by {
                assert(c0.animations[i] == self.animations@[i]@);
            }
        }
        while self.animations.len() > 0 && self.animations[0].animation_start
            + self.animations[0].duration <= time
            invariant
                0 <= k <= c0.animations.len(),
                controller_wf(c0),
                time <= TIME_LIMIT_MS,
                self@.animations =~= c0.animations.skip(k),
                forall|i: int|
                    0 <= i < self.animations@.len() ==> instance_wf(
                        (#[trigger] self.animations@[i])@,
                    ),
                self.idle_interval == old(self).idle_interval,
                self.idle_animations == old(self).idle_animations,
                self.idle_start == old(self).idle_start,
                prune_count(c0.animations, time as int) == k + prune_count(
                    c0.animations.skip(k),
                    time as int,
                ),
            decreases c0.animations.len() - k,
        {
            proof {
                assert(self@.animations[0] == c0.animations[k]);
                assert(instance_wf(c0.animations[k]));
                assert(c0.animations.skip(k).skip(1) =~= c0.animations.skip(k + 1));
            }
            self.animations.remove(0);
            proof {
                assert(self.animations@.map_values(|i: AnimationInstance| i@) =~= c0.animations.skip(
                    k + 1,
                ));
                k = k + 1;
            }
        }
        proof {
            if k < c0.animations.len() {
                assert(prune_count(c0.animations.skip(k), time as int) == 0);
            }
            assert(self@.animations =~= update_v(c0, time as int).animations);
            lemma_controller_wf_skip(c0, prune_count(c0.animations, time as int));
        }
    }

    /// Returns the frame to draw at `time`, if there is one: the front
    /// queued animation's sprite and interpolated position, the idle
    /// animation inside an idle window, and otherwise nothing.
    pub fn get_frame(&self, time: u64) -> (r: Option<OutputFrame>)
        requires
            controller_wf(self@),
            time <= TIME_LIMIT_MS,
        ensures
            r == frame_at(self@, time as int),
    {
        if self.animations.len() > 0 {
            let instance = &self.animations[0];
            proof {
                assert(instance@ == self@.animations[0]);
            }
            let tile_id = Self::get_tile_id(time, instance);
            let position = Self::get_position(time, instance);
            Some(OutputFrame { tile_id, position })
        } else {
            self.get_idle_animation(time)
        }
    }

    /// The sprite index the instance shows at `finish_time`: the frame
    /// the elapsed time falls in, or the sentinel index 0 when the
    /// elapsed time has run past the frame list.
    fn get_tile_id(finish_time: u64, instance: &AnimationInstance) -> (r: u32)
        requires
            instance_wf(instance@),
        ensures
            r == tile_at(instance@.frames, elapsed_at(instance@, finish_time as int)),
    {
        let start_time = instance.animation_start;
        let elapsed: u64 = if finish_time <= start_time {
            0
        } else {
            finish_time - start_time
        };
        tile_walk(&instance.frames, elapsed)
    }

    /// The position the instance stands at when sampled at
    /// `finish_time`.
    fn get_position(finish_time: u64, instance: &AnimationInstance) -> (r: (i64, i64))
        requires
            instance_wf(instance@),
            finish_time <= TIME_LIMIT_MS,
        ensures
            r.0 == position_at(instance@, finish_time as int).0,
            r.1 == position_at(instance@, finish_time as int).1,
    {
        let start_time = instance.animation_start;
        let e0: u64 = if finish_time <= start_time {
            0
        } else {
            finish_time - start_time
        };
        let e: u64 = if e0 > instance.duration {
            instance.duration
        } else {
            e0
        };
        if instance.duration == 0 {
            (
                instance.start_position.0 + instance.movement.0,
                instance.start_position.1 + instance.movement.1,
            )
        } else {
            proof {
                lemma_interpolation_bounds(
                    instance.movement.0 as int,
                    e as int,
                    instance.duration as int,
                );
                lemma_interpolation_bounds(
                    instance.movement.1 as int,
                    e as int,
                    instance.duration as int,
                );
            }
            let dx: i64 = round_div_i64(instance.movement.0 * (e as i64), instance.duration);
            let dy: i64 = round_div_i64(instance.movement.1 * (e as i64), instance.duration);
            (instance.start_position.0 + dx, instance.start_position.1 + dy)
        }
    }

    /// The idle fallback sample for `now`, when the queue is empty: the
    /// idle frame if `now` falls inside an idle window, pinned to the
    /// anchor position.
    fn get_idle_animation(&self, now: u64) -> (r: Option<OutputFrame>)
        requires
            controller_wf(self@),
            now <= TIME_LIMIT_MS,
        ensures
            r == idle_frame_at(self@, now as int),
    {
        match (&self.idle_start, self.idle_interval) {
            (Some(anchor), Some(interval)) => {
                if self.idle_animations.len() == 0 {
                    return None;
                }
                let inst = &self.idle_animations[0];
                proof {
                    assert(inst@ == self@.idle_animations[0]);
                    assert(anchor@ == self@.idle_start->Some_0);
                }
                let period: u64 = interval + inst.duration;
                if period == 0 {
                    return None;
                }
                let window_start: u64 = if now >= anchor.start_time {
                    let k: u64 = (now - anchor.start_time) / period;
                    proof {
                        lemma_fundamental_div_mod((now - anchor.start_time) as int, period as int);
                        assert(period as int * ((now - anchor.start_time) as int / period as int)
                            == ((now - anchor.start_time) as int / period as int) * period as int)
                            by (nonlinear_arith);
                    }
                    anchor.start_time + k * period
                } else {
                    anchor.start_time
                };
                let idle_anim_start: u64 = window_start + interval;
                if idle_anim_start > now {
                    return None;
                }
                let t: u64 = now - idle_anim_start;
                Some(OutputFrame { tile_id: tile_walk(&inst.frames, t), position: anchor.position })
            },
            _ => None,
        }
    }
}

impl Default for AnimationController {
    /// An empty controller, as [`AnimationController::new`] builds it.
    fn default() -> (r: Self)
        ensures
            r@.animations == Seq::<InstanceV>::empty(),
            r@.idle_interval is None,
            r@.idle_animations == Seq::<IdleV>::empty(),
            r@.idle_start is None,
            controller_wf(r@),
    {
        AnimationController::new()
    }
}

/// The instant the queue's last instance ends at; zero for an empty
/// queue.
pub open spec fn queue_end_time(c: ControllerV) -> int {
    if c.animations.len() == 0 {
        0
    } else {
        c.animations.last().animation_start + c.animations.last().duration
    }
}

/// The position a newly queued instance starts from: the queue tail's
/// end position, or the caller's start position when the queue is
/// empty. Compression never moves an instance's end position, so this is
/// not changed by the compression pass `add_animation` performs first.
pub open spec fn chain_base_pos(c: ControllerV, fallback: (int, int)) -> (int, int) {
    if c.animations.len() == 0 {
        fallback
    } else {
        (
            c.animations.last().start_position.0 + c.animations.last().movement.0,
            c.animations.last().start_position.1 + c.animations.last().movement.1,
        )
    }
}

/// The state `add_animation` leaves the controller in. A template with
/// compression percent 0 is ignored entirely. Into an empty queue the
/// template is instantiated at the caller's instant and position,
/// uncompressed. Otherwise every queued instance not yet compressed is
/// compressed at the caller's instant, and the new instance is chained
/// to the (possibly just compressed) tail — starting the moment it ends,
/// where it ends — and is itself immediately compressed at its own start
/// instant. Either way the idle anchor moves to the new instance's end.
pub open spec fn add_v(
    c: ControllerV,
    now: int,
    t: TemplateV,
    movement: (int, int),
    pos: (int, int),
) -> ControllerV {
    if t.max_compression == 0 {
        c
    } else if c.animations.len() == 0 {
        let inst = fresh_instance(now, t, movement, pos);
        ControllerV {
            animations: seq![inst],
            idle_start: Some(
                IdleStartV {
                    start_time: inst.animation_start + inst.duration,
                    position: (
                        inst.start_position.0 + inst.movement.0,
                        inst.start_position.1 + inst.movement.1,
                    ),
                },
            ),
            ..c
        }
    } else {
        let q1 = c.animations.map_values(|i: InstanceV| compress_guarded(i, now));
        let tail = q1.last();
        let ns = tail.animation_start + tail.duration;
        let np = (tail.start_position.0 + tail.movement.0, tail.start_position.1 + tail.movement.1);
        let inst = compress_v(fresh_instance(ns, t, movement, np), ns);
        ControllerV {
            animations: q1.push(inst),
            idle_start: Some(
                IdleStartV {
                    start_time: inst.animation_start + inst.duration,
                    position: (
                        inst.start_position.0 + inst.movement.0,
                        inst.start_position.1 + inst.movement.1,
                    ),
                },
            ),
            ..c
        }
    }
}

impl AnimationController {
    /// Queues a new animation: chains it after whatever is queued,
    /// compressing the queue (and the newcomer) if the queue was not
    /// empty. A template whose compression percent is 0 is skipped
    /// entirely — a caller-visible no-op, not an error.
    pub fn add_animation(
        &mut self,
        start_time: u64,
        template: &AnimationTemplate,
        movement: (i64, i64),
        start_position: (i64, i64),
    )
        requires
            controller_wf(old(self)@),
            template_wf(template@),
            start_time <= TIME_LIMIT_MS,
            queue_end_time(old(self)@) <= TIME_LIMIT_MS,
            -MOVE_LIMIT <= movement.0 <= MOVE_LIMIT,
            -MOVE_LIMIT <= movement.1 <= MOVE_LIMIT,
            -POS_LIMIT <= start_position.0 <= POS_LIMIT,
            -POS_LIMIT <= start_position.1 <= POS_LIMIT,
            -POS_LIMIT <= chain_base_pos(
                old(self)@,
                (start_position.0 as int, start_position.1 as int),
            ).0 + movement.0 <= POS_LIMIT,
            -POS_LIMIT <= chain_base_pos(
                old(self)@,
                (start_position.0 as int, start_position.1 as int),
            ).1 + movement.1 <= POS_LIMIT,
        ensures
            final(self)@ == add_v(
                old(self)@,
                start_time as int,
                template@,
                (movement.0 as int, movement.1 as int),
                (start_position.0 as int, start_position.1 as int),
            ),
            controller_wf(final(self)@),
    {
        let ghost c0 = old(self)@;
        let ghost now = start_time as int;
        if template.max_compression == 0 {
            return;
        }
        if self.animations.len() == 0 {
            let instance = AnimationInstance::new(start_time, template, movement, start_position);
            let end_time: u64 = instance.animation_start + instance.duration;
            let end_position: (i64, i64) = (
                instance.start_position.0 + instance.movement.0,
                instance.start_position.1 + instance.movement.1,
            );
            self.idle_start = Some(IdleStart::new(end_time, end_position));
            self.animations.push(instance);
            proof {
                assert(self@.animations =~= add_v(
                    c0,
                    now,
                    template@,
                    (movement.0 as int, movement.1 as int),
                    (start_position.0 as int, start_position.1 as int),
                ).animations);
            }
        } else {
            self.compress(start_time);
            let ghost q1 = c0.animations.map_values(|i: InstanceV| compress_guarded(i, now));
            proof {
                assert(self@.animations =~= q1);
                assert(q1.last() == self@.animations.last());
                lemma_chain_tail_bounds(c0, now);
            }
            let n = self.animations.len();
            let new_start_time: u64 = self.animations[n - 1].animation_start
                + self.animations[n - 1].duration;
            let new_start_position: (i64, i64) = (
                self.animations[n - 1].start_position.0 + self.animations[n - 1].movement.0,
                self.animations[n - 1].start_position.1 + self.animations[n - 1].movement.1,
            );
            let mut instance = AnimationInstance::new(
                new_start_time,
                template,
                movement,
                new_start_position,
            );
            instance.compress(new_start_time);
            let end_time: u64 = instance.animation_start + instance.duration;
            let end_position: (i64, i64) = (
                instance.start_position.0 + instance.movement.0,
                instance.start_position.1 + instance.movement.1,
            );
            self.idle_start = Some(IdleStart::new(end_time, end_position));
            self.animations.push(instance);
            proof {
                assert(self@.animations =~= add_v(
                    c0,
                    now,
                    template@,
                    (movement.0 as int, movement.1 as int),
                    (start_position.0 as int, start_position.1 as int),
                ).animations);
                lemma_add_v_wf_tail(c0, now, q1);
            }
        }
    }

    /// Adds an idle animation and sets the idle interval, in whole
    /// seconds: once the queue has been empty for that long past the
    /// idle anchor, the idle animation plays, then waits the interval
    /// again, indefinitely. Only the first idle animation added is
    /// consulted by `get_frame`.
    pub fn add_idle_animation(&mut self, template: &AnimationTemplate, interval: u64)
        requires
            controller_wf(old(self)@),
            template_wf(template@),
            interval <= IDLE_INTERVAL_LIMIT_S,
        ensures
            final(self)@.animations == old(self)@.animations,
            final(self)@.idle_interval == Some(1000 * interval as int),
            final(self)@.idle_animations == old(self)@.idle_animations.push(
                IdleV { frames: template@.frames, duration: total_ms(template@.frames) },
            ),
            final(self)@.idle_start == old(self)@.idle_start,
            controller_wf(final(self)@),
    {
        let interval_ms: u64 = interval * 1000;
        self.idle_interval = Some(interval_ms);
        let animation = IdleInstance::new(template);
        let ghost new_idle = animation@;
        self.idle_animations.push(animation);
        proof {
            assert(self@.idle_animations =~= old(self)@.idle_animations.push(
                IdleV { frames: template@.frames, duration: total_ms(template@.frames) },
            ));
            assert(controller_wf(self@)) by {
                assert(self@.animations == old(self)@.animations);
                assert(self@.idle_start == old(self)@.idle_start);
                assert forall|i: int| 0 <= i < self@.idle_animations.len() implies idle_wf(
                    #[trigger] self@.idle_animations[i],
                ) by {
                    if i < old(self)@.idle_animations.len() {
                        assert(self@.idle_animations[i] == old(self)@.idle_animations[i]);
                    } else {
                        assert(self@.idle_animations[i] == new_idle);
                    }
                }
                assert forall|i: int|
                    0 <= i < self@.animations.len() - 1 implies #[trigger] chained_at(
                    self@,
                    i,
                ) by {
                    assert(chained_at(old(self)@, i));
                }
            }
        }
    }

    /// Replaces the idle slot: discards previously added idle animations
    /// and installs this one.
    pub fn set_idle_animation(&mut self, template: &AnimationTemplate, interval: u64)
        requires
            controller_wf(old(self)@),
            template_wf(template@),
            interval <= IDLE_INTERVAL_LIMIT_S,
        ensures
            final(self)@.animations == old(self)@.animations,
            final(self)@.idle_interval == Some(1000 * interval as int),
            final(self)@.idle_animations == seq![
                IdleV { frames: template@.frames, duration: total_ms(template@.frames) },
            ],
            final(self)@.idle_start == old(self)@.idle_start,
            controller_wf(final(self)@),
    {
        self.idle_animations.clear();
        proof {
            assert(self@.idle_animations =~= Seq::<IdleV>::empty());
            assert(controller_wf(self@)) by {
                assert(self@.animations == old(self)@.animations);
                assert(self@.idle_interval == old(self)@.idle_interval);
                assert(self@.idle_start == old(self)@.idle_start);
                assert forall|i: int|
                    0 <= i < self@.animations.len() - 1 implies #[trigger] chained_at(
                    self@,
                    i,
                ) by {
                    assert(chained_at(old(self)@, i));
                }
            }
        }
        self.add_idle_animation(template, interval);
        proof {
            assert(Seq::<IdleV>::empty().push(
                IdleV { frames: template@.frames, duration: total_ms(template@.frames) },
            ) =~= seq![
                IdleV { frames: template@.frames, duration: total_ms(template@.frames) },
            ]);
        }
    }

    /// Installs the registry's animation named "idle" as this
    /// controller's idle animation, with the given interval in whole
    /// seconds. Returns whether the registry had one; with no such
    /// animation registered, nothing changes.
    pub fn set_idle_from_registry(&mut self, registry: &AnimationRegistry, interval: u64) -> (r:
        bool)
        requires
            controller_wf(old(self)@),
            registry_wf(registry@),
            interval <= IDLE_INTERVAL_LIMIT_S,
        ensures
            (match name_lookup(registry@.names, "idle"@) {
                Some(id) => match template_lookup(registry@.templates, id) {
                    Some(tv) => {
                        &&& r
                        &&& final(self)@.animations == old(self)@.animations
                        &&& final(self)@.idle_interval == Some(1000 * interval as int)
                        &&& final(self)@.idle_animations == seq![
                            IdleV { frames: tv.frames, duration: total_ms(tv.frames) },
                        ]
                        &&& final(self)@.idle_start == old(self)@.idle_start
                    },
                    None => !r && *final(self) == *old(self),
                },
                None => !r && *final(self) == *old(self),
            }),
            controller_wf(final(self)@),
    {
        match registry.get_template("idle") {
            Some(template) => {
                self.set_idle_animation(template, interval);
                true
            },
            None => false,
        }
    }

    /// Compresses, at `time`, every queued instance not yet compressed.
    fn compress(&mut self, time: u64)
        requires
            forall|i: int|
                0 <= i < old(self)@.animations.len() ==> instance_wf(
                    #[trigger] old(self)@.animations[i],
                ),
            time <= TIME_LIMIT_MS,
        ensures
            final(self)@.animations.len() == old(self)@.animations.len(),
            forall|i: int|
                0 <= i < old(self)@.animations.len() ==> final(self)@.animations[i]
                    == compress_guarded(#[trigger] old(self)@.animations[i], time as int),
            forall|i: int|
                0 <= i < final(self)@.animations.len() ==> instance_wf(
                    #[trigger] final(self)@.animations[i],
                ),
            final(self).idle_interval == old(self).idle_interval,
            final(self).idle_animations == old(self).idle_animations,
            final(self).idle_start == old(self).idle_start,
    {
        let ghost c0 = old(self)@;
        let mut result: Vec<AnimationInstance> = Vec::new();
        proof {
            assert forall|i: int| 0 <= i < self.animations@.len() implies (#[trigger] self
                .animations@[i])@ == c0.animations[result@.len() + i] by {
                assert(c0.animations[i] == self.animations@[i]@);
            }
        }
        while self.animations.len() > 0
            invariant
                time <= TIME_LIMIT_MS,
                result@.len() + self.animations@.len() == c0.animations.len(),
                forall|i: int|
                    0 <= i < result@.len() ==> (#[trigger] result@[i])@ == compress_guarded(
                        c0.animations[i],
                        time as int,
                    ),
                forall|i: int|
                    0 <= i < result@.len() ==> instance_wf((#[trigger] result@[i])@),
                forall|i: int|
                    0 <= i < self.animations@.len() ==> (#[trigger] self.animations@[i])@
                        == c0.animations[result@.len() + i],
                forall|i: int|
                    0 <= i < c0.animations.len() ==> instance_wf(#[trigger] c0.animations[i]),
                self.idle_interval == old(self).idle_interval,
                self.idle_animations == old(self).idle_animations,
                self.idle_start == old(self).idle_start,
            decreases self.animations@.len(),
        {
            let ghost done = result@.len() as int;
            let ghost before = self.animations@;
            let mut instance = self.animations.remove(0);
            proof {
                assert(instance@ == c0.animations[done]);
                assert(before.remove(0) =~= before.skip(1));
                assert forall|i: int| 0 <= i < self.animations@.len() implies (#[trigger] self
                    .animations@[i])@ == c0.animations[done + 1 + i] by {
                    assert(self.animations@[i] == before[i + 1]);
                }
            }
            if !instance.is_compressed {
                instance.compress(time);
            }
            proof {
                lemma_compress_v_wf(c0.animations[done], time as int);
            }
            result.push(instance);
        }
        self.animations = result;
    }
}

/// After the compression pass, the queue tail still ends within the
/// bounds chaining needs: no later than the caller's instant plus one
/// whole animation, and at the same position as before the pass.
proof fn lemma_chain_tail_bounds(c0: ControllerV, now: int)
    requires
        controller_wf(c0),
        c0.animations.len() > 0,
        0 <= now <= TIME_LIMIT_MS,
        queue_end_time(c0) <= TIME_LIMIT_MS,
    ensures
        ({
            let q1 = c0.animations.map_values(|i: InstanceV| compress_guarded(i, now));
            let tail = q1.last();
            &&& instance_wf(tail)
            &&& 0 <= tail.animation_start + tail.duration <= START_LIMIT_MS
            &&& tail.start_position.0 + tail.movement.0 == chain_base_pos(c0, (0, 0)).0
            &&& tail.start_position.1 + tail.movement.1 == chain_base_pos(c0, (0, 0)).1
        }),
{
    let q1 = c0.animations.map_values(|i: InstanceV| compress_guarded(i, now));
    let last = (c0.animations.len() - 1) as int;
    let t0 = c0.animations[last];
    assert(q1.last() == compress_guarded(t0, now));
    assert(instance_wf(t0));
    lemma_compress_v_wf(t0, now);
    if t0.is_compressed {
    } else {
        if t0.max_compression >= 100 {
        } else {
            assert(compress_v(t0, now).animation_start == now);
        }
    }
}

/// The queue `add_v` builds from a non-empty, well-formed queue is well
/// formed: everything is compressed and the chain is gapless.
proof fn lemma_add_v_wf_tail(c0: ControllerV, now: int, q1: Seq<InstanceV>)
    requires
        controller_wf(c0),
        c0.animations.len() > 0,
        0 <= now <= TIME_LIMIT_MS,
        queue_end_time(c0) <= TIME_LIMIT_MS,
        q1 == c0.animations.map_values(|i: InstanceV| compress_guarded(i, now)),
    ensures
        forall|i: int| 0 <= i < q1.len() ==> instance_wf(#[trigger] q1[i]),
        forall|i: int| 0 <= i < q1.len() ==> (#[trigger] q1[i]).is_compressed,
        forall|i: int|
            0 <= i < q1.len() - 1 ==> (#[trigger] q1[i + 1]).animation_start == q1[i].animation_start
                + q1[i].duration,
{
    assert forall|i: int| 0 <= i < q1.len() implies instance_wf(#[trigger] q1[i]) && q1[i]
        .is_compressed by {
        assert(q1[i] == compress_guarded(c0.animations[i], now));
        lemma_compress_v_wf(c0.animations[i], now);
    }
    if c0.animations.len() >= 2 {
        // Everything was already compressed, so the pass changed nothing
        // and the old chain is intact.
        assert forall|i: int| 0 <= i < q1.len() - 1 implies (#[trigger] q1[i + 1]).animation_start
            == q1[i].animation_start + q1[i].duration by {
            assert(c0.animations[i].is_compressed);
            assert(c0.animations[i + 1].is_compressed);
            assert(q1[i] == c0.animations[i]);
            assert(q1[i + 1] == c0.animations[i + 1]);
            assert(chained_at(c0, i));
        }
    }
}

/// The interpolation products stay inside the bounds rounding division
/// accepts, and the rounded offset never overshoots the motion vector.
proof fn lemma_interpolation_bounds(m: int, e: int, dur: int)
    requires
        -MOVE_LIMIT <= m <= MOVE_LIMIT,
        0 <= e <= dur,
        0 < dur <= DURATION_LIMIT_MS,
    ensures
        -0x10_0000_0000_0000 <= m * e <= 0x10_0000_0000_0000,
        -MOVE_LIMIT <= round_div(m * e, dur) <= MOVE_LIMIT,
{
    let am = if m >= 0 { m } else { -m };
    assert(-0x10_0000_0000_0000 <= m * e <= 0x10_0000_0000_0000) by (nonlinear_arith)
        requires
            -MOVE_LIMIT <= m <= MOVE_LIMIT,
            0 <= e <= DURATION_LIMIT_MS,
    ;
    assert(-(am * dur) <= m * e <= am * dur) by (nonlinear_arith)
        requires
            am == if m >= 0 { m } else { -m },
            -MOVE_LIMIT <= m <= MOVE_LIMIT,
            0 <= e <= dur,
    ;
    lemma_round_div_bound(m * e, dur, am);
}

/// Walks a frame list: returns the sprite of the frame `t` milliseconds
/// fall into, or the sentinel index 0 past the end.
fn tile_walk(frames: &Vec<AnimationFrame>, t: u64) -> (r: u32)
    ensures
        r == tile_at(frames@, t as int),
{
    let mut time: u64 = t;
    let mut idx: usize = 0;
    proof {
        assert(frames@.skip(0) =~= frames@);
    }
    while idx < frames.len()
        invariant
            0 <= idx <= frames@.len(),
            tile_at(frames@, t as int) == tile_at(frames@.skip(idx as int), time as int),
        decreases frames@.len() - idx,
    {
        let f = frames[idx];
        proof {
            assert(frames@.skip(idx as int)[0] == frames@[idx as int]);
            assert(frames@.skip(idx as int).skip(1) =~= frames@.skip(idx + 1));
        }
        if time < f.duration {
            return f.tile_id;
        }
        time = time - f.duration;
        idx = idx + 1;
    }
    proof {
        assert(frames@.skip(frames@.len() as int) =~= Seq::<AnimationFrame>::empty());
    }
    0
}

/// Adds up the durations of a frame list.
fn sum_frame_durations(frames: &Vec<AnimationFrame>) -> (r: u64)
    requires
        total_ms(frames@) <= DURATION_LIMIT_MS,
    ensures
        r == total_ms(frames@),
{
    proof {
        lemma_total_ms_bounds(frames@);
    }
    let mut sum: u64 = 0;
    let mut idx: usize = 0;
    while idx < frames.len()
        invariant
            0 <= idx <= frames@.len(),
            sum == total_ms(frames@.take(idx as int)),
            total_ms(frames@) <= DURATION_LIMIT_MS,
        decreases frames@.len() - idx,
    {
        proof {
            assert(frames@.take(idx + 1) =~= frames@.take(idx as int).push(frames@[idx as int]));
            lemma_total_ms_push(frames@.take(idx as int), frames@[idx as int]);
            lemma_total_ms_append(frames@.take(idx + 1), frames@.skip(idx + 1));
            assert(frames@.take(idx + 1) + frames@.skip(idx + 1) =~= frames@);
            lemma_total_ms_bounds(frames@.skip(idx + 1));
        }
        sum = sum + frames[idx].duration;
        idx = idx + 1;
    }
    proof {
        assert(frames@.take(frames@.len() as int) =~= frames@);
    }
    sum
}

// ---------------------------------------------------------------------
// Laws
// ---------------------------------------------------------------------

/// Law: the queue is gaplessly chained. In every well-formed controller
/// — and `new`, `update`, `add_animation` and the idle setters all keep
/// controllers well formed — each queued instance starts at the exact
/// instant its predecessor ends: no gaps and no overlaps.
pub proof fn lemma_queue_chaining(c: ControllerV, i: int)
    requires
        controller_wf(c),
        0 <= i < c.animations.len() - 1,
    ensures
        c.animations[i + 1].animation_start == c.animations[i].animation_start
            + c.animations[i].duration,
{
    assert(chained_at(c, i));
}

/// Law: compression preserves displacement. Whatever the compression
/// ratio comes out as, compressing an instance never moves its end
/// position: start position plus movement is the same before and after.
pub proof fn lemma_compression_preserves_end_position(i: InstanceV, now: int)
    ensures
        compress_v(i, now).start_position.0 + compress_v(i, now).movement.0 == i.start_position.0
            + i.movement.0,
        compress_v(i, now).start_position.1 + compress_v(i, now).movement.1 == i.start_position.1
            + i.movement.1,
        compress_guarded(i, now).start_position.0 + compress_guarded(i, now).movement.0
            == i.start_position.0 + i.movement.0,
        compress_guarded(i, now).start_position.1 + compress_guarded(i, now).movement.1
            == i.start_position.1 + i.movement.1,
{
}

/// Law: compression is idempotent per instance. Once an instance has
/// been through compression it is marked, and compressing it again at
/// any later instant leaves it exactly as it was.
/// `compress_guarded` is exactly what [`AnimationInstance::compress`]
/// ensures of its receiver, so calling that method twice produces the
/// state one call produces; the controller's compression pass gives the
/// same guarantee queue-wide.
pub proof fn lemma_compression_idempotent(i: InstanceV, t: int, t2: int)
    requires
        t <= t2,
    ensures
        compress_guarded(compress_guarded(i, t), t2) == compress_guarded(i, t),
{
}

/// Law: expiry. With a single queued instance and no idle animation
/// configured, once `now` reaches the instance's end instant, pruning
/// with `update` and then sampling with `get_frame` reports nothing to
/// draw.
pub proof fn lemma_expiry_yields_none(c: ControllerV, now: int)
    requires
        controller_wf(c),
        c.animations.len() == 1,
        c.idle_animations.len() == 0,
        now >= c.animations[0].animation_start + c.animations[0].duration,
    ensures
        frame_at(update_v(c, now), now) is None,
{
    assert(c.animations.skip(1) =~= Seq::<InstanceV>::empty());
    assert(prune_count(Seq::<InstanceV>::empty(), now) == 0);
    assert(prune_count(c.animations, now) == 1);
    assert(update_v(c, now).animations.len() == 0);
}

/// Law: interpolation bounds. While an instance is playing, the
/// reported position lies between its start position and its end
/// position on each axis, and lies on the straight segment between them
/// up to the rounding of each axis to a whole unit: scaled by the total
/// duration, the reported offset differs from the exact linear offset
/// `movement * elapsed / duration` by at most one duration's worth (one
/// whole unit of position).
pub proof fn lemma_interpolation_on_segment(i: InstanceV, now: int)
    requires
        instance_wf(i),
        i.animation_start <= now < i.animation_start + i.duration,
    ensures
        ({
            let p = position_at(i, now);
            let e = now - i.animation_start;
            &&& (i.movement.0 >= 0 ==> i.start_position.0 <= p.0 <= i.start_position.0
                + i.movement.0)
            &&& (i.movement.0 < 0 ==> i.start_position.0 + i.movement.0 <= p.0
                <= i.start_position.0)
            &&& (i.movement.1 >= 0 ==> i.start_position.1 <= p.1 <= i.start_position.1
                + i.movement.1)
            &&& (i.movement.1 < 0 ==> i.start_position.1 + i.movement.1 <= p.1
                <= i.start_position.1)
            &&& -i.duration <= (p.0 - i.start_position.0) * i.duration - i.movement.0 * e
                <= i.duration
            &&& -i.duration <= (p.1 - i.start_position.1) * i.duration - i.movement.1 * e
                <= i.duration
        }),
{
    let e = now - i.animation_start;
    lemma_interpolation_axis(i.movement.0, e, i.duration);
    lemma_interpolation_axis(i.movement.1, e, i.duration);
}

/// One axis of the interpolation law: the rounded offset stays between
/// zero and the movement, and stays within one rounding unit of the
/// exact linear offset.
proof fn lemma_interpolation_axis(m: int, e: int, d: int)
    requires
        -MOVE_LIMIT <= m <= MOVE_LIMIT,
        0 <= e < d,
        0 < d <= DURATION_LIMIT_MS,
    ensures
        m >= 0 ==> 0 <= round_div(m * e, d) <= m,
        m < 0 ==> m <= round_div(m * e, d) <= 0,
        -d <= round_div(m * e, d) * d - m * e <= d,
{
    let am = if m >= 0 { m } else { -m };
    if m >= 0 {
        assert(0 <= m * e <= m * d) by (nonlinear_arith)
            requires
                0 <= e <= d,
                m >= 0,
        ;
        assert(-(am * d) <= m * e <= am * d);
        lemma_round_div_bound(m * e, d, am);
        lemma_round_div_error(m * e, d);
        lemma_div_pos_is_pos(m * e + d / 2, d);
    } else {
        assert(m * d <= m * e <= 0) by (nonlinear_arith)
            requires
                0 <= e <= d,
                m < 0,
        ;
        assert(-(am * d) == m * d) by (nonlinear_arith)
            requires
                am == -m,
        ;
        assert(am * d >= 0) by {
            lemma_mul_nonnegative(am, d);
        }
        lemma_round_div_bound(m * e, d, am);
        lemma_round_div_error(m * e, d);
        lemma_div_pos_is_pos(-(m * e) + d / 2, d);
        if m * e == 0 {
            lemma_basic_div(d / 2, d);
        }
    }
}

// ---------------------------------------------------------------------
// The registry
// ---------------------------------------------------------------------

/// Ghost image of a [`TileData`].
pub ghost struct TileDataV {
    pub id: u32,
    pub name: Option<Seq<char>>,
    pub animation: Option<Seq<AnimationFrame>>,
}

/// What the registry reads of one tile of a tileset: its id, its `name`
/// property if it has one, and its frame animation if it has one. The
/// content layer converts tileset metadata into this plain form, with
/// frame durations already in whole milliseconds.
pub struct TileData {
    pub id: u32,
    pub name: Option<String>,
    pub animation: Option<Vec<AnimationFrame>>,
}

impl View for TileData {
    type V = TileDataV;

    open spec fn view(&self) -> TileDataV {
        TileDataV {
            id: self.id,
            name: match self.name {
                Some(ref n) => Some(n@),
                None => None,
            },
            animation: match self.animation {
                Some(ref a) => Some(a@),
                None => None,
            },
        }
    }
}

/// A tile the registry can accept: if it carries an animation, the frame
/// list is non-empty and short enough for exact arithmetic.
pub open spec fn tile_data_wf(t: TileDataV) -> bool {
    match t.animation {
        Some(fs) => fs.len() > 0 && total_ms(fs) <= DURATION_LIMIT_MS,
        None => true,
    }
}

/// Ghost image of an [`AnimationRegistry`].
pub ghost struct RegistryV {
    pub names: Seq<(Seq<char>, u32)>,
    pub templates: Seq<(u32, TemplateV)>,
}

/// The template the registry builds for a tile named `name` with frames
/// `frames`: compression and turn policy are fixed defaults, pending
/// per-tile properties for them.
pub open spec fn registry_template(id: u32, name: Seq<char>, frames: Seq<AnimationFrame>) -> TemplateV {
    TemplateV {
        name: name,
        gid: id,
        frames: frames,
        ordering: 0,
        max_compression: 40,
        blocks_turn: true,
        cancel_frame: None,
    }
}

/// The name-to-id entries the registry holds for a tile list: one entry
/// per tile that carries both a name and an animation, in tile order.
pub open spec fn registry_names(tiles: Seq<TileDataV>) -> Seq<(Seq<char>, u32)>
    decreases tiles.len(),
{
    if tiles.len() == 0 {
        Seq::empty()
    } else {
        let rest = registry_names(tiles.drop_last());
        match (tiles.last().name, tiles.last().animation) {
            (Some(n), Some(_)) => rest + seq![(n, tiles.last().id)],
            _ => rest,
        }
    }
}

/// The id-to-template entries the registry holds for a tile list.
pub open spec fn registry_templates(tiles: Seq<TileDataV>) -> Seq<(u32, TemplateV)>
    decreases tiles.len(),
{
    if tiles.len() == 0 {
        Seq::empty()
    } else {
        let rest = registry_templates(tiles.drop_last());
        match (tiles.last().name, tiles.last().animation) {
            (Some(n), Some(fs)) => rest + seq![
                (tiles.last().id, registry_template(tiles.last().id, n, fs)),
            ],
            _ => rest,
        }
    }
}

/// The id registered under `key`: the latest entry wins, as later tiles
/// overwrite earlier ones of the same name.
pub open spec fn name_lookup(names: Seq<(Seq<char>, u32)>, key: Seq<char>) -> Option<u32>
    decreases names.len(),
{
    if names.len() == 0 {
        None
    } else if names.last().0 == key {
        Some(names.last().1)
    } else {
        name_lookup(names.drop_last(), key)
    }
}

/// The template registered under `id`: the latest entry wins.
pub open spec fn template_lookup(templates: Seq<(u32, TemplateV)>, id: u32) -> Option<TemplateV>
    decreases templates.len(),
{
    if templates.len() == 0 {
        None
    } else if templates.last().0 == id {
        Some(templates.last().1)
    } else {
        template_lookup(templates.drop_last(), id)
    }
}

/// Every template the registry holds can be queued.
pub open spec fn registry_wf(r: RegistryV) -> bool {
    forall|i: int| 0 <= i < r.templates.len() ==> template_wf((#[trigger] r.templates[i]).1)
}

/// A read-only lookup table from animation names to templates for one
/// tileset, built once from the tileset's tile metadata.
pub struct AnimationRegistry {
    /// Maps an animation name to the id of the tile that carries it.
    pub animations: Vec<(String, u32)>,
    /// Maps a tile id to the template built from that tile.
    pub templates: Vec<(u32, AnimationTemplate)>,
}

impl View for AnimationRegistry {
    type V = RegistryV;

    open spec fn view(&self) -> RegistryV {
        RegistryV {
            names: self.animations@.map_values(|p: (String, u32)| (p.0@, p.1)),
            templates: self.templates@.map_values(|p: (u32, AnimationTemplate)| (p.0, p.1@)),
        }
    }
}

impl AnimationRegistry {
    /// Builds the registry from a tileset's tiles: every tile that
    /// carries both a `name` property and a frame animation becomes a
    /// named template; later tiles overwrite earlier entries of the same
    /// name or id.
    pub fn load(tiles: &Vec<TileData>) -> (r: Self)
        requires
            forall|i: int| 0 <= i < tiles@.len() ==> tile_data_wf((#[trigger] tiles@[i])@),
        ensures
            r@.names == registry_names(tiles@.map_values(|t: TileData| t@)),
            r@.templates == registry_templates(tiles@.map_values(|t: TileData| t@)),
            registry_wf(r@),
    {
        let ghost tv = tiles@.map_values(|t: TileData| t@);
        let mut animations: Vec<(String, u32)> = Vec::new();
        let mut templates: Vec<(u32, AnimationTemplate)> = Vec::new();
        let mut idx: usize = 0;
        proof {
            assert(tv.take(0) =~= Seq::<TileDataV>::empty());
            assert(animations@.map_values(|p: (String, u32)| (p.0@, p.1))
                =~= Seq::<(Seq<char>, u32)>::empty());
            assert(templates@.map_values(|p: (u32, AnimationTemplate)| (p.0, p.1@))
                =~= Seq::<(u32, TemplateV)>::empty());
        }
        while idx < tiles.len()
            invariant
                0 <= idx <= tiles@.len(),
                tv == tiles@.map_values(|t: TileData| t@),
                forall|i: int| 0 <= i < tiles@.len() ==> tile_data_wf((#[trigger] tiles@[i])@),
                animations@.map_values(|p: (String, u32)| (p.0@, p.1)) == registry_names(
                    tv.take(idx as int),
                ),
                templates@.map_values(|p: (u32, AnimationTemplate)| (p.0, p.1@))
                    == registry_templates(tv.take(idx as int)),
                forall|i: int|
                    0 <= i < templates@.len() ==> template_wf(((#[trigger] templates@[i]).1)@),
            decreases tiles@.len() - idx,
        {
            let ghost names_before = animations@.map_values(|p: (String, u32)| (p.0@, p.1));
            let ghost templates_before = templates@.map_values(
                |p: (u32, AnimationTemplate)| (p.0, p.1@),
            );
            proof {
                assert(tv.take(idx + 1).drop_last() =~= tv.take(idx as int));
                assert(tv.take(idx + 1).last() == tiles@[idx as int]@);
            }
            let tile = &tiles[idx];
            match (&tile.name, &tile.animation) {
                (Some(name), Some(frames)) => {
                    let template = AnimationTemplate {
                        name: name.clone(),
                        gid: tile.id,
                        frames: frames.clone(),
                        ordering: 0,
                        max_compression: 40,
                        blocks_turn: true,
                        cancel_frame: None,
                    };
                    proof {
                        assert(template.frames@ =~= frames@);
                    }
                    animations.push((name.clone(), tile.id));
                    templates.push((tile.id, template));
                    proof {
                        assert(animations@.map_values(|p: (String, u32)| (p.0@, p.1))
                            =~= names_before + seq![(name@, tile.id)]);
                        assert(templates@.map_values(|p: (u32, AnimationTemplate)| (p.0, p.1@))
                            =~= templates_before + seq![
                            (tile.id, registry_template(tile.id, name@, frames@)),
                        ]);
                    }
                },
                _ => {
                    proof {
                        assert(match (tiles@[idx as int]@.name, tiles@[idx as int]@.animation) {
                            (Some(_), Some(_)) => false,
                            _ => true,
                        });
                    }
                },
            }
            idx = idx + 1;
        }
        proof {
            assert(tv.take(tv.len() as int) =~= tv);
        }
        Self { animations, templates }
    }

    /// The id registered under the given animation name, if any.
    pub fn get_animation_id(&self, template: &str) -> (r: Option<u32>)
        ensures
            r == name_lookup(self@.names, template@),
    {
        let key: String = <String as vstd::string::StringExecFns>::from_str(template);
        let mut idx: usize = self.animations.len();
        proof {
            assert(self@.names.take(self@.names.len() as int) =~= self@.names);
        }
        while idx > 0
            invariant
                0 <= idx <= self.animations@.len(),
                key@ == template@,
                name_lookup(self@.names, template@) == name_lookup(
                    self@.names.take(idx as int),
                    template@,
                ),
            decreases idx,
        {
            idx = idx - 1;
            proof {
                assert(self@.names.take(idx + 1).drop_last() =~= self@.names.take(idx as int));
                assert(self@.names.take(idx + 1).last() == self@.names[idx as int]);
                assert(self@.names[idx as int] == (self.animations@[idx as int].0@, self
                    .animations@[idx as int].1));
            }
            if self.animations[idx].0 == key {
                return Some(self.animations[idx].1);
            }
        }
        proof {
            assert(self@.names.take(0) =~= Seq::<(Seq<char>, u32)>::empty());
        }
        None
    }

    /// The template registered under `id`, if any.
    fn find_template(&self, id: u32) -> (r: Option<&AnimationTemplate>)
        ensures
            match template_lookup(self@.templates, id) {
                Some(tv) => r matches Some(t) && t@ == tv,
                None => r is None,
            },
    {
        let mut idx: usize = self.templates.len();
        proof {
            assert(self@.templates.take(self@.templates.len() as int) =~= self@.templates);
        }
        while idx > 0
            invariant
                0 <= idx <= self.templates@.len(),
                template_lookup(self@.templates, id) == template_lookup(
                    self@.templates.take(idx as int),
                    id,
                ),
            decreases idx,
        {
            idx = idx - 1;
            proof {
                assert(self@.templates.take(idx + 1).drop_last() =~= self@.templates.take(
                    idx as int,
                ));
                assert(self@.templates.take(idx + 1).last() == self@.templates[idx as int]);
                assert(self@.templates[idx as int] == (self.templates@[idx as int].0, self
                    .templates@[idx as int].1@));
            }
            if self.templates[idx].0 == id {
                return Some(&self.templates[idx].1);
            }
        }
        proof {
            assert(self@.templates.take(0) =~= Seq::<(u32, TemplateV)>::empty());
        }
        None
    }

    /// The template registered under the given animation name, if any:
    /// an unknown name gives `None`, never an error.
    pub fn get_template(&self, template: &str) -> (r: Option<&AnimationTemplate>)
        requires
            registry_wf(self@),
        ensures
            match name_lookup(self@.names, template@) {
                Some(id) => match template_lookup(self@.templates, id) {
                    Some(tv) => r matches Some(t) && t@ == tv,
                    None => r is None,
                },
                None => r is None,
            },
            r matches Some(t) ==> template_wf(t@),
    {
        match self.get_animation_id(template) {
            None => None,
            Some(id) => {
                let r = self.find_template(id);
                proof {
                    if template_lookup(self@.templates, id) is Some {
                        lemma_template_lookup_wf(self@, id);
                    }
                }
                r
            },
        }
    }
}

/// A template found in a well-formed registry can be queued.
proof fn lemma_template_lookup_wf(r: RegistryV, id: u32)
    requires
        registry_wf(r),
        template_lookup(r.templates, id) is Some,
    ensures
        template_wf(template_lookup(r.templates, id)->Some_0),
{
    assert(r.templates.take(r.templates.len() as int) =~= r.templates);
    lemma_template_lookup_wf_rec(r.templates, id, r.templates.len() as int);
}

/// Helper for [`lemma_template_lookup_wf`]: the lookup result over any
/// front segment is one of the segment's entries.
proof fn lemma_template_lookup_wf_rec(templates: Seq<(u32, TemplateV)>, id: u32, n: int)
    requires
        forall|i: int| 0 <= i < templates.len() ==> template_wf((#[trigger] templates[i]).1),
        0 <= n <= templates.len(),
        template_lookup(templates.take(n), id) is Some,
    ensures
        template_wf(template_lookup(templates.take(n), id)->Some_0),
    decreases n,
{
    let seg = templates.take(n);
    if n == 0 {
        assert(seg =~= Seq::<(u32, TemplateV)>::empty());
    } else if seg.last().0 == id {
        assert(seg.last() == templates[n - 1]);
    } else {
        assert(seg.drop_last() =~= templates.take(n - 1));
        lemma_template_lookup_wf_rec(templates, id, n - 1);
    }
}

} // verus!

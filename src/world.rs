//! The world: bodies in a rectangular arena, advanced by an event-driven
//! stepper that stops at every contact, resolves it, and goes on.
//!
//! Contacts are found in closed form and rounded down to the tick grid, so a
//! sub-step never carries two bodies into each other or a body through a
//! wall. A candidate contact counts only while the two sides approach each
//! other: a pair that has just been resolved separates, so it is not found
//! again at the same instant (this is how repeated zero-time events are
//! avoided), and a pair that only grazes is left alone. Simultaneous contacts
//! are resolved together, each from the velocities before any of them.
use crate::ball::{
    Ball,
    MAX_SPEED,
    contact_gap,
    contact_poly,
    has_impact,
    is_impact_time,
    plane_time,
    normal_speed,
    lemma_pair_clear,
    lemma_entry_ahead,
    lemma_impact_time_unique,
    lemma_unit_scale,
};
use crate::geometry::{Circle, MAX_COORD};
use crate::plane::{Plane, plane_in_range, signed_distance};
use crate::vector_math::{Vec2, within};
use crate::elastic::{elastic_rounded, lemma_rounded_bound};
use crate::ball::{reflected, trunc_div, DEFAULT_RADIUS};
use crate::math::isqrt;
use crate::TICKS_PER_SECOND;
use crate::vector_math::norm_sq;
use vstd::prelude::*;

verus! {

/// Largest magnitude of the time interval one call of `update` advances by.
pub const MAX_STEP: i64 = 1_099_511_627_776;

/// Largest initial speed: two thousand units of display distance a second
/// (`2000 · LENGTH_SCALE / TICKS_PER_SECOND`).
pub const INITIAL_SPEED_CAP: i64 = 20_000;

/// Number of sub-steps after which `update` gives up on a frame.
pub const MAX_SUB_STEPS: u64 = 100_000;

/// An axis-aligned rectangle: its top-left corner and its extent.
#[derive(Clone, Copy, Debug, PartialEq, Eq, Structural)]
pub struct Rect {
    pub left: i64,
    pub top: i64,
    pub width: i64,
    pub height: i64,
}

/// Why a call of `update` stopped before the end of the interval.
#[derive(Clone, Copy, Debug, PartialEq, Eq, Structural)]
pub enum StepError {
    /// A velocity would leave the supported range.
    SpeedLimit,
    /// The frame needed more sub-steps than the cap allows.
    TooManySubSteps,
}

/// The rectangle lies within the supported coordinates and is not empty.
pub open spec fn arena_in_range(r: Rect) -> bool {
    &&& 0 < r.width
    &&& 0 < r.height
    &&& -MAX_COORD <= r.left
    &&& r.left + r.width <= MAX_COORD
    &&& -MAX_COORD <= r.top
    &&& r.top + r.height <= MAX_COORD
}

/// The four walls of a rectangle, left, right, top and bottom, each with its
/// normal pointing into the rectangle.
pub open spec fn planes_of(r: Rect) -> Seq<Plane> {
    seq![
        Plane { position: Vec2 { x: r.left, y: 0 }, normal: Vec2 { x: 1, y: 0 } },
        Plane { position: Vec2 { x: (r.left + r.width) as i64, y: 0 }, normal: Vec2 { x: -1i64, y: 0 } },
        Plane { position: Vec2 { x: 0, y: r.top }, normal: Vec2 { x: 0, y: 1 } },
        Plane { position: Vec2 { x: 0, y: (r.top + r.height) as i64 }, normal: Vec2 { x: 0, y: -1i64 } },
    ]
}

/// The rectangle that four walls enclose.
pub open spec fn rect_of(walls: Seq<Plane>) -> Rect {
    Rect {
        left: walls[0].position.x,
        top: walls[2].position.y,
        width: (walls[1].position.x - walls[0].position.x) as i64,
        height: (walls[3].position.y - walls[2].position.y) as i64,
    }
}

/// Distance from the near edge of `b` to the wall after `t` ticks of free
/// flight: negative once the body has crossed it.
pub open spec fn wall_gap(b: Ball, p: Plane, t: int) -> int {
    p.normal.x * (b.circle.position.x + t * b.velocity.x - p.position.x) + p.normal.y * (
    b.circle.position.y + t * b.velocity.y - p.position.y) - b.circle.radius
}

/// No body crosses any wall.
pub open spec fn inside(balls: Seq<Ball>, walls: Seq<Plane>) -> bool {
    forall|i: int, k: int|
        0 <= i < balls.len() && 0 <= k < walls.len() ==> #[trigger] wall_gap(balls[i], walls[k], 0)
            >= 0
}

/// No two bodies overlap.
pub open spec fn apart(balls: Seq<Ball>) -> bool {
    forall|i: int, j: int|
        0 <= i < j < balls.len() ==> #[trigger] contact_gap(balls[i], balls[j], 0) >= 0
}

/// The state the stepper keeps at every sub-step: a valid arena, bodies
/// within range, none overlapping another, none crossing a wall.
pub open spec fn world_wf(balls: Seq<Ball>, walls: Seq<Plane>, acceleration: Vec2) -> bool {
    &&& walls.len() == 4
    &&& arena_in_range(rect_of(walls))
    &&& walls == planes_of(rect_of(walls))
    &&& forall|i: int| 0 <= i < balls.len() ==> (#[trigger] balls[i]).in_range()
    &&& inside(balls, walls)
    &&& apart(balls)
    &&& within(acceleration, MAX_SPEED as int)
}

/// The two bodies close in on each other and first touch at `t`.
pub open spec fn pair_event(a: Ball, b: Ball, t: int) -> bool {
    contact_poly(a, b).1 < 0 && has_impact(a, b, false) && is_impact_time(a, b, false, t)
}

/// The body closes in on the wall and touches it at `t`.
pub open spec fn wall_event(b: Ball, p: Plane, t: int) -> bool {
    normal_speed(b, p) < 0 && plane_time(b, p, false) == Some(t)
}

/// The two bodies do not overlap at any tick from now up to `horizon`.
pub open spec fn pair_clear(a: Ball, b: Ball, horizon: int) -> bool {
    forall|t: int| 0 <= t <= horizon ==> #[trigger] contact_gap(a, b, t) >= 0
}

/// The body does not cross the wall at any tick from now up to `horizon`.
pub open spec fn wall_clear(b: Ball, p: Plane, horizon: int) -> bool {
    forall|t: int| 0 <= t <= horizon ==> #[trigger] wall_gap(b, p, t) >= 0
}

/// No body approaches another body or a wall to touch it within `horizon`.
pub open spec fn no_event_within(balls: Seq<Ball>, walls: Seq<Plane>, horizon: int) -> bool {
    &&& forall|i: int, j: int, t: int|
        0 <= i < j < balls.len() && 0 <= t <= horizon ==> !#[trigger] pair_event(
            balls[i],
            balls[j],
            t,
        )
    &&& forall|i: int, k: int, t: int|
        0 <= i < balls.len() && 0 <= k < walls.len() && 0 <= t <= horizon ==> !#[trigger] wall_event(
            balls[i],
            walls[k],
            t,
        )
}

/// Free flight up to `horizon` takes no body into another or across a wall.
pub open spec fn clear_until(balls: Seq<Ball>, walls: Seq<Plane>, horizon: int) -> bool {
    &&& forall|i: int, j: int|
        0 <= i < j < balls.len() ==> #[trigger] pair_clear(balls[i], balls[j], horizon)
    &&& forall|i: int, k: int|
        0 <= i < balls.len() && 0 <= k < walls.len() ==> #[trigger] wall_clear(
            balls[i],
            walls[k],
            horizon,
        )
}

/// What a collision event involves: two bodies, or a body and a wall.
#[derive(Clone, Copy, Debug, PartialEq, Eq, Structural)]
pub enum CollisionKind {
    Wall,
    Ball,
}

/// A contact found by the stepper: `ball_index` meets body or wall
/// `collider_index` after `time` ticks.
#[derive(Clone, Copy, Debug)]
pub struct Collision {
    pub kind: CollisionKind,
    pub time: i64,
    pub ball_index: usize,
    pub collider_index: usize,
}

/// The event is a contact of the given bodies and walls at its time.
pub open spec fn event_valid(balls: Seq<Ball>, walls: Seq<Plane>, e: Collision) -> bool {
    &&& e.ball_index < balls.len()
    &&& match e.kind {
        CollisionKind::Ball => e.ball_index < e.collider_index < balls.len() && pair_event(
            balls[e.ball_index as int],
            balls[e.collider_index as int],
            e.time as int,
        ),
        CollisionKind::Wall => e.collider_index < walls.len() && wall_event(
            balls[e.ball_index as int],
            walls[e.collider_index as int],
            e.time as int,
        ),
    }
}

/// How far free flight is known to be safe: up to the events found, or the
/// whole `horizon` when there are none.
pub open spec fn reach(events: Seq<Collision>, horizon: int) -> int {
    if events.len() > 0 {
        events[0].time as int
    } else {
        horizon
    }
}

/// Events all valid, all at the same time, within the horizon.
pub open spec fn events_ok(balls: Seq<Ball>, walls: Seq<Plane>, events: Seq<Collision>, horizon: int) -> bool {
    &&& forall|k: int| 0 <= k < events.len() ==> event_valid(balls, walls, #[trigger] events[k])
    &&& forall|k: int| 0 <= k < events.len() ==> (#[trigger] events[k]).time == events[0].time
    &&& events.len() > 0 ==> 0 <= events[0].time <= horizon
}

/// Time of impact of two bodies that have one (see `is_impact_time`).
pub open spec fn impact_time(a: Ball, b: Ball) -> int {
    choose|t: int| is_impact_time(a, b, false, t)
}

/// The contact of bodies `i < j` if they close in on each other and touch
/// within `horizon`: a sequence of one event, or none.
pub open spec fn pair_candidate(balls: Seq<Ball>, i: int, j: int, horizon: int) -> Seq<Collision> {
    let (a, b) = (balls[i], balls[j]);
    if contact_poly(a, b).1 < 0 && has_impact(a, b, false) && impact_time(a, b) <= horizon {
        seq![
            Collision {
                kind: CollisionKind::Ball,
                time: impact_time(a, b) as i64,
                ball_index: i as usize,
                collider_index: j as usize,
            },
        ]
    } else {
        seq![]
    }
}

/// The contact of body `i` with wall `k` if the body closes in on it and
/// touches it within `horizon`: a sequence of one event, or none.
pub open spec fn wall_candidate(
    balls: Seq<Ball>,
    walls: Seq<Plane>,
    i: int,
    k: int,
    horizon: int,
) -> Seq<Collision> {
    let (b, p) = (balls[i], walls[k]);
    if normal_speed(b, p) < 0 && plane_time(b, p, false) is Some && plane_time(b, p, false)->0
        <= horizon {
        seq![
            Collision {
                kind: CollisionKind::Wall,
                time: plane_time(b, p, false)->0 as i64,
                ball_index: i as usize,
                collider_index: k as usize,
            },
        ]
    } else {
        seq![]
    }
}

/// Contacts of body `i` with bodies `i + 1 .. j`, in that order.
pub open spec fn pair_row(balls: Seq<Ball>, i: int, j: int, horizon: int) -> Seq<Collision>
    decreases j - i,
{
    if j <= i + 1 {
        seq![]
    } else {
        pair_row(balls, i, j - 1, horizon) + pair_candidate(balls, i, j - 1, horizon)
    }
}

/// Contacts of body `i` with walls `0 .. k`, in that order.
pub open spec fn wall_row(balls: Seq<Ball>, walls: Seq<Plane>, i: int, k: int, horizon: int) -> Seq<
    Collision,
>
    decreases k,
{
    if k <= 0 {
        seq![]
    } else {
        wall_row(balls, walls, i, k - 1, horizon) + wall_candidate(balls, walls, i, k - 1, horizon)
    }
}

/// Every closing contact within `horizon` of bodies `0 .. i`: for each body,
/// its contacts with the later bodies, then with the walls.
pub open spec fn scan(balls: Seq<Ball>, walls: Seq<Plane>, i: int, horizon: int) -> Seq<Collision>
    decreases i,
{
    if i <= 0 {
        seq![]
    } else {
        scan(balls, walls, i - 1, horizon) + pair_row(balls, i - 1, balls.len() as int, horizon)
            + wall_row(balls, walls, i - 1, 4, horizon)
    }
}

/// `kept` with `e` added if `e` comes no later than them; those later than
/// `e` are dropped.
pub open spec fn keep_step(kept: Seq<Collision>, e: Collision) -> Seq<Collision> {
    if kept.len() == 0 || e.time < kept[0].time {
        seq![e]
    } else if e.time == kept[0].time {
        kept.push(e)
    } else {
        kept
    }
}

/// The earliest events of `s`, in their order in `s`.
pub open spec fn keep_soonest(s: Seq<Collision>) -> Seq<Collision>
    decreases s.len(),
{
    if s.len() == 0 {
        s
    } else {
        keep_step(keep_soonest(s.drop_last()), s.last())
    }
}

/// Appending zero or one event.
proof fn lemma_keep_append(x: Seq<Collision>, c: Seq<Collision>)
    requires
        c.len() <= 1,
    ensures
        keep_soonest(x + c) == if c.len() == 0 {
            keep_soonest(x)
        } else {
            keep_step(keep_soonest(x), c[0])
        },
{
    if c.len() == 0 {
        assert(x + c =~= x);
    } else {
        assert((x + c).drop_last() =~= x);
        assert((x + c).last() == c[0]);
    }
}

/// The kept events all share the earliest time of `s`, come from `s`, and
/// include every event of `s` at that time.
pub proof fn lemma_keep_soonest(s: Seq<Collision>)
    ensures
        keep_soonest(s).len() == 0 <==> s.len() == 0,
        forall|k: int|
            0 <= k < keep_soonest(s).len() ==> (#[trigger] keep_soonest(s)[k]).time == keep_soonest(
                s,
            )[0].time && s.contains(keep_soonest(s)[k]),
        forall|k: int|
            0 <= k < s.len() ==> keep_soonest(s)[0].time <= (#[trigger] s[k]).time,
        forall|k: int|
            0 <= k < s.len() && (#[trigger] s[k]).time == keep_soonest(s)[0].time ==> keep_soonest(
                s,
            ).contains(s[k]),
    decreases s.len(),
{
    if s.len() > 0 {
        let p = s.drop_last();
        lemma_keep_soonest(p);
        let m = keep_soonest(p);
        let e = s.last();
        let r = keep_soonest(s);
        assert forall|k: int| 0 <= k < r.len() implies (#[trigger] r[k]).time == r[0].time && s.contains(r[k]) by {
            if r[k] != e {
                assert(m.contains(r[k]));
                let w = choose|w: int| 0 <= w < m.len() && m[w] == r[k];
                assert(p.contains(r[k]));
                let v = choose|v: int| 0 <= v < p.len() && p[v] == r[k];
                assert(s[v] == r[k]);
            } else {
                assert(s[s.len() - 1] == e);
            }
        }
        assert forall|k: int| 0 <= k < s.len() implies r[0].time <= (#[trigger] s[k]).time by {
            if k < s.len() - 1 {
                assert(s[k] == p[k]);
            }
        }
        assert forall|k: int| 0 <= k < s.len() && (#[trigger] s[k]).time == r[0].time implies r.contains(s[k]) by {
            if k < s.len() - 1 {
                assert(s[k] == p[k]);
                assert(m.contains(p[k]));
                if m.len() > 0 && e.time == m[0].time {
                    let w = choose|w: int| 0 <= w < m.len() && m[w] == p[k];
                    assert(r[w] == p[k]);
                }
            } else {
                if r.len() > 0 && r != seq![e] {
                    assert(r[r.len() - 1] == e);
                } else {
                    assert(r[0] == e);
                }
            }
        }
    }
}

/// Keeps `e` if it comes no later than the events kept so far, dropping
/// those that come later.
fn consider(
    events: &mut Vec<Collision>,
    e: Collision,
    horizon: i64,
    Ghost(balls): Ghost<Seq<Ball>>,
    Ghost(walls): Ghost<Seq<Plane>>,
)
    requires
        events_ok(balls, walls, old(events)@, horizon as int),
        event_valid(balls, walls, e),
        0 <= e.time <= horizon,
    ensures
        events_ok(balls, walls, final(events)@, horizon as int),
        reach(final(events)@, horizon as int) <= reach(old(events)@, horizon as int),
        reach(final(events)@, horizon as int) <= e.time,
        final(events)@.len() > 0,
        final(events)@ == keep_step(old(events)@, e),
{
    if events.len() == 0 || e.time < events[0].time {
        events.clear();
        events.push(e);
        assert(events@ =~= seq![e]);
    } else if e.time == events[0].time {
        events.push(e);
        assert forall|k: int| 0 <= k < events@.len() implies event_valid(balls, walls, #[trigger] events@[k]) by {
            if k < old(events)@.len() {
                assert(old(events)@[k] == events@[k]);
            }
        }
    }
}

proof fn lemma_pair_clear_shrinks(a: Ball, b: Ball, h1: int, h2: int)
    requires
        pair_clear(a, b, h1),
        h2 <= h1,
    ensures
        pair_clear(a, b, h2),
{
}

proof fn lemma_wall_clear_shrinks(b: Ball, p: Plane, h1: int, h2: int)
    requires
        wall_clear(b, p, h1),
        h2 <= h1,
    ensures
        wall_clear(b, p, h2),
{
}

/// The wall keeps clear of a body on the free side of it: forever when the
/// body does not approach, else up to the reported time of contact.
proof fn lemma_wall_clear(b: Ball, p: Plane)
    requires
        b.in_range(),
        plane_in_range(p),
        wall_gap(b, p, 0) >= 0,
    ensures
        normal_speed(b, p) >= 0 ==> forall|h: int| #[trigger] wall_clear(b, p, h),
        normal_speed(b, p) < 0 ==> plane_time(b, p, false) is Some && wall_clear(
            b,
            p,
            plane_time(b, p, false)->0,
        ),
{
    let v = normal_speed(b, p);
    assert forall|t: int| #[trigger] wall_gap(b, p, t) == wall_gap(b, p, 0) + t * v by {
        lemma_unit_scale(p.normal.x as int, b.circle.position.x + t * b.velocity.x - p.position.x);
        lemma_unit_scale(p.normal.y as int, b.circle.position.y + t * b.velocity.y - p.position.y);
        lemma_unit_scale(p.normal.x as int, b.circle.position.x - p.position.x);
        lemma_unit_scale(p.normal.y as int, b.circle.position.y - p.position.y);
        lemma_unit_scale(p.normal.x as int, b.velocity.x as int);
        lemma_unit_scale(p.normal.y as int, b.velocity.y as int);
        lemma_unit_scale(p.normal.x as int, t * b.velocity.x);
        lemma_unit_scale(p.normal.y as int, t * b.velocity.y);
        assert(t * (-b.velocity.x) == -(t * b.velocity.x) && t * (-b.velocity.y) == -(t
            * b.velocity.y)) by (nonlinear_arith);
    }
    if v >= 0 {
        assert forall|h: int| #[trigger] wall_clear(b, p, h) by {
            assert forall|t: int| 0 <= t <= h implies #[trigger] wall_gap(b, p, t) >= 0 by {
                assert(t * v >= 0) by (nonlinear_arith)
                    requires
                        t >= 0,
                        v >= 0,
                ;
            }
        }
    } else {
        let s = b.circle.radius - signed_distance(p, b.circle.position);
        assert(s == -wall_gap(b, p, 0));
        assert(s * v >= 0) by (nonlinear_arith)
            requires
                s <= 0,
                v < 0,
        ;
        let t0 = (-s) / (-v);
        assert(plane_time(b, p, false) == Some(t0));
        vstd::arithmetic::div_mod::lemma_fundamental_div_mod(-s, -v);
        assert forall|t: int| 0 <= t <= t0 implies #[trigger] wall_gap(b, p, t) >= 0 by {
            assert(t * (-v) <= t0 * (-v)) by (nonlinear_arith)
                requires
                    0 <= t <= t0,
                    v < 0,
            ;
            assert(t0 * (-v) <= -s) by (nonlinear_arith)
                requires
                    -s == (-v) * t0 + (-s) % (-v),
                    (-s) % (-v) >= 0,
            ;
            assert(t * v == -(t * (-v))) by (nonlinear_arith);
        }
    }
}

/// Change of velocity that event `e` gives body `i`, computed from the
/// velocities before any event of the same instant.
pub open spec fn event_delta(balls: Seq<Ball>, walls: Seq<Plane>, e: Collision, i: int) -> (int, int) {
    let a = balls[e.ball_index as int];
    match e.kind {
        CollisionKind::Ball => {
            let b = balls[e.collider_index as int];
            let (qa, qb) = elastic_rounded(a, b);
            if i == e.ball_index {
                (qa.0 - a.velocity.x, qa.1 - a.velocity.y)
            } else if i == e.collider_index {
                (qb.0 - b.velocity.x, qb.1 - b.velocity.y)
            } else {
                (0, 0)
            }
        },
        CollisionKind::Wall => {
            if i == e.ball_index {
                let r = reflected(a.velocity, walls[e.collider_index as int].normal);
                (r.0 - a.velocity.x, r.1 - a.velocity.y)
            } else {
                (0, 0)
            }
        },
    }
}

/// Sum of the changes of velocity that `events` give body `i`.
pub open spec fn total_delta(balls: Seq<Ball>, walls: Seq<Plane>, events: Seq<Collision>, i: int) -> (int, int)
    decreases events.len(),
{
    if events.len() == 0 {
        (0, 0)
    } else {
        let r = total_delta(balls, walls, events.drop_last(), i);
        let d = event_delta(balls, walls, events.last(), i);
        (r.0 + d.0, r.1 + d.1)
    }
}

proof fn lemma_total_delta_step(
    balls: Seq<Ball>,
    walls: Seq<Plane>,
    events: Seq<Collision>,
    k: int,
    j: int,
)
    requires
        0 <= k < events.len(),
    ensures
        total_delta(balls, walls, events.take(k + 1), j) == ({
            let r = total_delta(balls, walls, events.take(k), j);
            let d = event_delta(balls, walls, events[k], j);
            (r.0 + d.0, r.1 + d.1)
        }),
{
    assert(events.take(k + 1).drop_last() =~= events.take(k));
    assert(events.take(k + 1).last() == events[k]);
}

/// One event changes a velocity component by less than `2^33`.
proof fn lemma_event_delta_bound(balls: Seq<Ball>, walls: Seq<Plane>, e: Collision, j: int)
    requires
        e.ball_index < balls.len(),
        balls[e.ball_index as int].in_range(),
        e.kind == CollisionKind::Ball ==> e.collider_index < balls.len() && balls[e.collider_index as int].in_range(),
        e.kind == CollisionKind::Wall ==> e.collider_index < walls.len() && plane_in_range(walls[e.collider_index as int]),
    ensures
        -0x2_0000_0000 <= event_delta(balls, walls, e, j).0 <= 0x2_0000_0000,
        -0x2_0000_0000 <= event_delta(balls, walls, e, j).1 <= 0x2_0000_0000,
{
    let a = balls[e.ball_index as int];
    match e.kind {
        CollisionKind::Ball => {
            lemma_rounded_bound(a, balls[e.collider_index as int]);
        },
        CollisionKind::Wall => {
            let n = walls[e.collider_index as int].normal;
            crate::ball::lemma_reflection_keeps_speed(a.velocity, n);
            lemma_unit_scale(n.x as int, a.velocity.x as int);
            lemma_unit_scale(n.y as int, a.velocity.y as int);
            let k = 2 * crate::vector_math::dot(n, a.velocity);
            lemma_unit_scale(n.x as int, k);
            lemma_unit_scale(n.y as int, k);
            assert(k * n.x == n.x * k && k * n.y == n.y * k) by (nonlinear_arith);
        },
    }
}

/// The changes of velocity that `events` give keep every velocity in range.
pub open spec fn deltas_fit(balls: Seq<Ball>, walls: Seq<Plane>, events: Seq<Collision>) -> bool {
    forall|i: int|
        0 <= i < balls.len() ==> -MAX_SPEED <= (#[trigger] balls[i]).velocity.x + total_delta(
            balls,
            walls,
            events,
            i,
        ).0 <= MAX_SPEED && -MAX_SPEED <= balls[i].velocity.y + total_delta(
            balls,
            walls,
            events,
            i,
        ).1 <= MAX_SPEED
}

/// Every event names bodies and walls that exist.
pub open spec fn events_indexed(n: int, events: Seq<Collision>) -> bool {
    forall|k: int|
        0 <= k < events.len() ==> {
            let e = #[trigger] events[k];
            &&& e.ball_index < n
            &&& match e.kind {
                CollisionKind::Ball => e.ball_index != e.collider_index && e.collider_index < n,
                CollisionKind::Wall => e.collider_index < 4,
            }
        }
}

/// The change of velocity a uniform acceleration gives over `dt` ticks:
/// acceleration is in velocity units per second, rounded towards zero.
pub open spec fn accel_delta(a: int, dt: int) -> int {
    trunc_div(a * dt, TICKS_PER_SECOND as int)
}

/// Bodies of the default radius laid out on a square grid of `sides`
/// columns fit in the arena with gaps: the columns and rows are at least a
/// diameter apart and the grid is inset from the walls by three radii.
pub open spec fn layout_fits(arena: Rect, count: int) -> bool {
    let r = DEFAULT_RADIUS as int;
    let sides = grid_sides(count);
    count == 0 || ((arena.width - 6 * r) / sides >= 2 * r && (arena.height - 6 * r) / sides >= 2 * r)
}

/// Columns of the grid: the least `s` with `s² ≥ count`.
pub open spec fn grid_sides(count: int) -> int
    decreases count,
{
    if count <= 0 {
        0
    } else {
        choose|s: int| 0 < s && square(s - 1) < count <= #[trigger] square(s)
    }
}

pub open spec fn square(s: int) -> int {
    s * s
}

/// Centre of body `i` of `count` on the grid.
pub open spec fn grid_position(arena: Rect, count: int, i: int) -> (int, int) {
    let r = DEFAULT_RADIUS as int;
    let sides = grid_sides(count);
    let sx = (arena.width - 6 * r) / sides;
    let sy = (arena.height - 6 * r) / sides;
    (arena.left + 3 * r + (i % sides) * sx, arena.top + 3 * r + (i / sides) * sy)
}

/// `b` with the acceleration over `dt` ticks added to its velocity.
pub open spec fn accelerated(b: Ball, acceleration: Vec2, dt: int) -> Ball {
    Ball {
        velocity: Vec2 {
            x: (b.velocity.x + accel_delta(acceleration.x as int, dt)) as i64,
            y: (b.velocity.y + accel_delta(acceleration.y as int, dt)) as i64,
        },
        ..b
    }
}

/// `b` with its velocity turned around.
pub open spec fn turned(b: Ball) -> Ball {
    Ball { velocity: Vec2 { x: (-b.velocity.x) as i64, y: (-b.velocity.y) as i64 }, ..b }
}

/// The acceleration over `dt` keeps every velocity within range.
pub open spec fn speeds_fit(balls: Seq<Ball>, acceleration: Vec2, dt: int) -> bool {
    forall|i: int|
        0 <= i < balls.len() ==> -MAX_SPEED <= (#[trigger] balls[i]).velocity.x + accel_delta(
            acceleration.x as int,
            dt,
        ) <= MAX_SPEED && -MAX_SPEED <= balls[i].velocity.y + accel_delta(
            acceleration.y as int,
            dt,
        ) <= MAX_SPEED
}

/// No contact lies ahead within `|dt|`, in the direction in which `dt` runs.
pub open spec fn unobstructed(balls: Seq<Ball>, walls: Seq<Plane>, dt: int) -> bool {
    if dt >= 0 {
        no_event_within(balls, walls, dt)
    } else {
        no_event_within(balls.map_values(|b: Ball| turned(b)), walls, -dt)
    }
}

/// Every body after `t` ticks of free flight.
pub open spec fn moved_all(balls: Seq<Ball>, t: int) -> Seq<Ball> {
    balls.map_values(|b: Ball| moved(b, t))
}

/// Every body with the changes of velocity of `events` added.
pub open spec fn resolved_all(balls: Seq<Ball>, walls: Seq<Plane>, events: Seq<Collision>) -> Seq<
    Ball,
> {
    Seq::new(
        balls.len(),
        |i: int|
            Ball {
                velocity: Vec2 {
                    x: (balls[i].velocity.x + total_delta(balls, walls, events, i).0) as i64,
                    y: (balls[i].velocity.y + total_delta(balls, walls, events, i).1) as i64,
                },
                ..balls[i]
            },
    )
}

/// The event-driven stepper over `remaining` ticks, forwards, with at most
/// `fuel` sub-steps: find the earliest closing contacts within the time
/// left; if there are none, fly freely to its end; else fly to their
/// instant, add the changes of velocity of all of them, computed from the
/// velocities before any, and go on with the time left.
pub open spec fn stepped(balls: Seq<Ball>, walls: Seq<Plane>, remaining: int, fuel: nat) -> Result<
    Seq<Ball>,
    StepError,
>
    decreases fuel,
{
    if remaining <= 0 {
        Ok(balls)
    } else if fuel == 0 {
        Err(StepError::TooManySubSteps)
    } else {
        let events = keep_soonest(scan(balls, walls, balls.len() as int, remaining));
        if events.len() == 0 {
            Ok(moved_all(balls, remaining))
        } else {
            let t = events[0].time as int;
            let at = moved_all(balls, t);
            if !deltas_fit(at, walls, events) {
                Err(StepError::SpeedLimit)
            } else {
                stepped(resolved_all(at, walls, events), walls, remaining - t, (fuel - 1) as nat)
            }
        }
    }
}

/// No time, no change of velocity.
proof fn lemma_no_time_no_change(a: int)
    ensures
        accel_delta(a, 0) == 0,
{
    assert(a * 0 == 0);
}

/// `b` after `t` ticks of free flight.
pub open spec fn moved(b: Ball, t: int) -> Ball {
    Ball {
        circle: Circle {
            position: Vec2 {
                x: (b.circle.position.x + t * b.velocity.x) as i64,
                y: (b.circle.position.y + t * b.velocity.y) as i64,
            },
            radius: b.circle.radius,
        },
        velocity: b.velocity,
        mass: b.mass,
    }
}

/// After free flight the gaps are those the unmoved bodies would have at `t`.
proof fn lemma_moved_gaps(a: Ball, b: Ball, p: Plane, t: int)
    requires
        -MAX_COORD <= a.circle.position.x + t * a.velocity.x <= MAX_COORD,
        -MAX_COORD <= a.circle.position.y + t * a.velocity.y <= MAX_COORD,
        -MAX_COORD <= b.circle.position.x + t * b.velocity.x <= MAX_COORD,
        -MAX_COORD <= b.circle.position.y + t * b.velocity.y <= MAX_COORD,
    ensures
        contact_gap(moved(a, t), moved(b, t), 0) == contact_gap(a, b, t),
        wall_gap(moved(a, t), p, 0) == wall_gap(a, p, t),
{
    assert(t * (a.velocity.x - b.velocity.x) == t * a.velocity.x - t * b.velocity.x)
        by (nonlinear_arith);
    assert(t * (a.velocity.y - b.velocity.y) == t * a.velocity.y - t * b.velocity.y)
        by (nonlinear_arith);
}

/// A body on the free side of the four walls of an arena lies within it.
proof fn lemma_inside_bounds(b: Ball, walls: Seq<Plane>, t: int)
    requires
        walls.len() == 4,
        arena_in_range(rect_of(walls)),
        walls == planes_of(rect_of(walls)),
        b.circle.radius >= 0,
        wall_gap(b, walls[0], t) >= 0,
        wall_gap(b, walls[1], t) >= 0,
        wall_gap(b, walls[2], t) >= 0,
        wall_gap(b, walls[3], t) >= 0,
    ensures
        -MAX_COORD <= b.circle.position.x + t * b.velocity.x <= MAX_COORD,
        -MAX_COORD <= b.circle.position.y + t * b.velocity.y <= MAX_COORD,
{
    let r = rect_of(walls);
    lemma_planes_of(r);
    let x = b.circle.position.x + t * b.velocity.x;
    let y = b.circle.position.y + t * b.velocity.y;
    assert forall|k: int| 0 <= k < 4 implies #[trigger] wall_gap(b, walls[k], t) == walls[k].normal.x
        * (x - walls[k].position.x) + walls[k].normal.y * (y - walls[k].position.y)
        - b.circle.radius by {}
    lemma_unit_scale(1, x - walls[0].position.x);
    lemma_unit_scale(0, y - walls[0].position.y);
    lemma_unit_scale(-1, x - walls[1].position.x);
    lemma_unit_scale(0, y - walls[1].position.y);
    lemma_unit_scale(0, x - walls[2].position.x);
    lemma_unit_scale(1, y - walls[2].position.y);
    lemma_unit_scale(0, x - walls[3].position.x);
    lemma_unit_scale(-1, y - walls[3].position.y);
    assert(wall_gap(b, walls[0], t) == x - r.left - b.circle.radius);
    assert(wall_gap(b, walls[1], t) == -(x - (r.left + r.width)) - b.circle.radius);
    assert(wall_gap(b, walls[2], t) == y - r.top - b.circle.radius);
    assert(wall_gap(b, walls[3], t) == -(y - (r.top + r.height)) - b.circle.radius);
}

/// The walls of a rectangle, one by one.
proof fn lemma_planes_of(r: Rect)
    requires
        arena_in_range(r),
    ensures
        planes_of(r).len() == 4,
        planes_of(r)[0] == (Plane { position: Vec2 { x: r.left, y: 0 }, normal: Vec2 { x: 1, y: 0 } }),
        planes_of(r)[1] == (Plane {
            position: Vec2 { x: (r.left + r.width) as i64, y: 0 },
            normal: Vec2 { x: -1i64, y: 0 },
        }),
        planes_of(r)[2] == (Plane { position: Vec2 { x: 0, y: r.top }, normal: Vec2 { x: 0, y: 1 } }),
        planes_of(r)[3] == (Plane {
            position: Vec2 { x: 0, y: (r.top + r.height) as i64 },
            normal: Vec2 { x: 0, y: -1i64 },
        }),
{
}

/// The bodies of a simulation, the four walls that hold them, and a uniform
/// acceleration applied to every body.
pub struct World {
    balls: Vec<Ball>,
    walls: [Plane; 4],
    acceleration: Vec2,
}

impl World {
    pub closed spec fn bodies(&self) -> Seq<Ball> {
        self.balls@
    }

    pub closed spec fn wall_seq(&self) -> Seq<Plane> {
        self.walls@
    }

    pub closed spec fn accel(&self) -> Vec2 {
        self.acceleration
    }

    /// The invariant of the world (see `world_wf`).
    pub open spec fn wf(&self) -> bool {
        world_wf(self.bodies(), self.wall_seq(), self.accel())
    }

    /// The bodies, in the order they were created.
    pub fn get_balls(&self) -> (r: &Vec<Ball>)
        ensures
            r@ == self.bodies(),
    {
        &self.balls
    }

    /// The rectangle enclosed by the walls.
    pub fn bounding_rect(&self) -> (r: Rect)
        requires
            self.wf(),
        ensures
            r == rect_of(self.wall_seq()),
    {
        let left = self.walls[0].position.x;
        let top = self.walls[2].position.y;
        let width = self.walls[1].position.x - left;
        let height = self.walls[3].position.y - top;
        Rect { left, top, width, height }
    }

    /// The four walls of `rect`: left, right, top and bottom.
    pub fn rect_to_planes(rect: &Rect) -> (r: [Plane; 4])
        requires
            arena_in_range(*rect),
        ensures
            r@ == planes_of(*rect),
            rect_of(r@) == *rect,
    {
        let r = [
            Plane { position: Vec2::new(rect.left, 0), normal: Vec2::new(1, 0) },
            Plane { position: Vec2::new(rect.left + rect.width, 0), normal: Vec2::new(-1, 0) },
            Plane { position: Vec2::new(0, rect.top), normal: Vec2::new(0, 1) },
            Plane { position: Vec2::new(0, rect.top + rect.height), normal: Vec2::new(0, -1) },
        ];
        assert(r@ =~= planes_of(*rect));
        r
    }

    /// The earliest contacts ahead within `horizon` ticks, all at the same
    /// time; free flight is safe up to that time, or over the whole horizon
    /// when none is found.
    #[verifier::rlimit(40)]
    fn get_soonest_collisions(&self, horizon: i64) -> (events: Vec<Collision>)
        requires
            self.wf(),
            0 <= horizon,
        ensures
            events_ok(self.bodies(), self.wall_seq(), events@, horizon as int),
            clear_until(self.bodies(), self.wall_seq(), reach(events@, horizon as int)),
            events@.len() == 0 ==> no_event_within(self.bodies(), self.wall_seq(), horizon as int),
            events@ == keep_soonest(
                scan(self.bodies(), self.wall_seq(), self.bodies().len() as int, horizon as int),
            ),
            ({
                let cands = scan(
                    self.bodies(),
                    self.wall_seq(),
                    self.bodies().len() as int,
                    horizon as int,
                );
                &&& events@.len() == 0 <==> cands.len() == 0
                &&& forall|k: int| 0 <= k < cands.len() ==> events@[0].time <= (#[trigger] cands[k]).time
                &&& forall|k: int|
                    0 <= k < cands.len() && (#[trigger] cands[k]).time == events@[0].time
                        ==> events@.contains(cands[k])
            }),
    {
        let ghost balls = self.bodies();
        let ghost walls = self.wall_seq();
        let n = self.balls.len();
        let mut events: Vec<Collision> = Vec::new();
        let mut i: usize = 0;
        while i < n
            invariant
                self.wf(),
                balls == self.bodies(),
                walls == self.wall_seq(),
                n == balls.len(),
                0 <= horizon,
                i <= n,
                events@ == keep_soonest(scan(balls, walls, i as int, horizon as int)),
                events_ok(balls, walls, events@, horizon as int),
                forall|a: int, b: int|
                    0 <= a < i && a < b < n ==> #[trigger] pair_clear(
                        balls[a],
                        balls[b],
                        reach(events@, horizon as int),
                    ),
                forall|a: int, k: int|
                    0 <= a < i && 0 <= k < 4 ==> #[trigger] wall_clear(
                        balls[a],
                        walls[k],
                        reach(events@, horizon as int),
                    ),
                events@.len() == 0 ==> forall|a: int, b: int, t: int|
                    0 <= a < i && a < b < n && 0 <= t <= horizon ==> !#[trigger] pair_event(
                        balls[a],
                        balls[b],
                        t,
                    ),
                events@.len() == 0 ==> forall|a: int, k: int, t: int|
                    0 <= a < i && 0 <= k < 4 && 0 <= t <= horizon ==> !#[trigger] wall_event(
                        balls[a],
                        walls[k],
                        t,
                    ),
            decreases n - i,
        {
            let mut j: usize = i + 1;
            assert(scan(balls, walls, i as int, horizon as int) + pair_row(balls, i as int, j as int, horizon as int)
                =~= scan(balls, walls, i as int, horizon as int));
            while j < n
                invariant
                    self.wf(),
                    balls == self.bodies(),
                    walls == self.wall_seq(),
                    n == balls.len(),
                    0 <= horizon,
                    i < n,
                    i + 1 <= j <= n,
                    events@ == keep_soonest(
                        scan(balls, walls, i as int, horizon as int) + pair_row(
                            balls,
                            i as int,
                            j as int,
                            horizon as int,
                        ),
                    ),
                    events_ok(balls, walls, events@, horizon as int),
                    forall|a: int, b: int|
                        0 <= a < i && a < b < n ==> #[trigger] pair_clear(
                            balls[a],
                            balls[b],
                            reach(events@, horizon as int),
                        ),
                    forall|a: int, k: int|
                        0 <= a < i && 0 <= k < 4 ==> #[trigger] wall_clear(
                            balls[a],
                            walls[k],
                            reach(events@, horizon as int),
                        ),
                    forall|b: int|
                        i < b < j ==> #[trigger] pair_clear(
                            balls[i as int],
                            balls[b],
                            reach(events@, horizon as int),
                        ),
                    events@.len() == 0 ==> forall|a: int, b: int, t: int|
                        0 <= a < i && a < b < n && 0 <= t <= horizon ==> !#[trigger] pair_event(
                            balls[a],
                            balls[b],
                            t,
                        ),
                    events@.len() == 0 ==> forall|a: int, k: int, t: int|
                        0 <= a < i && 0 <= k < 4 && 0 <= t <= horizon ==> !#[trigger] wall_event(
                            balls[a],
                            walls[k],
                            t,
                        ),
                    events@.len() == 0 ==> forall|b: int, t: int|
                        i < b < j && 0 <= t <= horizon ==> !#[trigger] pair_event(
                            balls[i as int],
                            balls[b],
                            t,
                        ),
                decreases n - j,
            {
                let a = &self.balls[i];
                let b = &self.balls[j];
                let ghost before = events@;
                proof {
                    assert(contact_gap(balls[i as int], balls[j as int], 0) >= 0);
                    lemma_pair_clear(*a, *b);
                }
                let closing = Ball::approaching(a, b);
                let time = if closing {
                    Ball::collision_time(a, b, false)
                } else {
                    None
                };
                if let Some(t) = time {
                    if t <= horizon as i128 {
                        proof {
                            lemma_entry_ahead(*a, *b, t as int);
                        }
                        let e = Collision {
                            kind: CollisionKind::Ball,
                            time: t as i64,
                            ball_index: i,
                            collider_index: j,
                        };
                        consider(&mut events, e, horizon, Ghost(balls), Ghost(walls));
                        proof {
                            assert(pair_clear(*a, *b, t as int));
                        }
                    }
                }
                proof {
                    let r0 = reach(before, horizon as int);
                    let r1 = reach(events@, horizon as int);
                    assert(r1 <= r0);
                    assert forall|x: int, y: int| 0 <= x < i && x < y < n implies #[trigger] pair_clear(balls[x], balls[y], r1) by {
                        lemma_pair_clear_shrinks(balls[x], balls[y], r0, r1);
                    }
                    assert forall|x: int, k: int| 0 <= x < i && 0 <= k < 4 implies #[trigger] wall_clear(balls[x], walls[k], r1) by {
                        lemma_wall_clear_shrinks(balls[x], walls[k], r0, r1);
                    }
                    assert forall|y: int| i < y < j implies #[trigger] pair_clear(balls[i as int], balls[y], r1) by {
                        lemma_pair_clear_shrinks(balls[i as int], balls[y], r0, r1);
                    }
                    assert(pair_clear(balls[i as int], balls[j as int], r1));
                    let pre = scan(balls, walls, i as int, horizon as int) + pair_row(balls, i as int, j as int, horizon as int);
                    let cand = pair_candidate(balls, i as int, j as int, horizon as int);
                    assert(scan(balls, walls, i as int, horizon as int) + pair_row(balls, i as int, j + 1, horizon as int)
                        =~= pre + cand);
                    lemma_keep_append(pre, cand);
                    if closing && time is Some {
                        let t = time->0;
                        assert(is_impact_time(*a, *b, false, t as int));
                        lemma_impact_time_unique(*a, *b, false, impact_time(*a, *b), t as int);
                    }
                    if events@.len() == 0 {
                        assert forall|t: int| 0 <= t <= horizon implies !#[trigger] pair_event(balls[i as int], balls[j as int], t) by {
                            if pair_event(*a, *b, t) {
                                let t0 = time->0;
                                lemma_impact_time_unique(*a, *b, false, t as int, t0 as int);
                            }
                        }
                    }
                }
                j += 1;
            }
            let mut k: usize = 0;
            assert(scan(balls, walls, i as int, horizon as int) + pair_row(balls, i as int, n as int, horizon as int)
                + wall_row(balls, walls, i as int, 0, horizon as int) =~= scan(balls, walls, i as int, horizon as int)
                + pair_row(balls, i as int, n as int, horizon as int));
            while k < 4
                invariant
                    self.wf(),
                    balls == self.bodies(),
                    walls == self.wall_seq(),
                    n == balls.len(),
                    0 <= horizon,
                    i < n,
                    k <= 4,
                    events@ == keep_soonest(
                        scan(balls, walls, i as int, horizon as int) + pair_row(
                            balls,
                            i as int,
                            n as int,
                            horizon as int,
                        ) + wall_row(balls, walls, i as int, k as int, horizon as int),
                    ),
                    events_ok(balls, walls, events@, horizon as int),
                    forall|a: int, b: int|
                        0 <= a <= i && a < b < n ==> #[trigger] pair_clear(
                            balls[a],
                            balls[b],
                            reach(events@, horizon as int),
                        ),
                    forall|a: int, w: int|
                        0 <= a < i && 0 <= w < 4 ==> #[trigger] wall_clear(
                            balls[a],
                            walls[w],
                            reach(events@, horizon as int),
                        ),
                    forall|w: int|
                        0 <= w < k ==> #[trigger] wall_clear(
                            balls[i as int],
                            walls[w],
                            reach(events@, horizon as int),
                        ),
                    events@.len() == 0 ==> forall|a: int, b: int, t: int|
                        0 <= a <= i && a < b < n && 0 <= t <= horizon ==> !#[trigger] pair_event(
                            balls[a],
                            balls[b],
                            t,
                        ),
                    events@.len() == 0 ==> forall|a: int, w: int, t: int|
                        0 <= a < i && 0 <= w < 4 && 0 <= t <= horizon ==> !#[trigger] wall_event(
                            balls[a],
                            walls[w],
                            t,
                        ),
                    events@.len() == 0 ==> forall|w: int, t: int|
                        0 <= w < k && 0 <= t <= horizon ==> !#[trigger] wall_event(
                            balls[i as int],
                            walls[w],
                            t,
                        ),
                decreases 4 - k,
            {
                let a = &self.balls[i];
                let p = &self.walls[k];
                let ghost before = events@;
                proof {
                    assert(wall_gap(balls[i as int], walls[k as int], 0) >= 0);
                    assert(plane_in_range(*p));
                    lemma_wall_clear(*a, *p);
                }
                let closing = a.approaching_plane(p);
                let time = if closing {
                    a.plane_collision_time(p, false)
                } else {
                    None
                };
                if let Some(t) = time {
                    if t <= horizon as i128 {
                        let e = Collision {
                            kind: CollisionKind::Wall,
                            time: t as i64,
                            ball_index: i,
                            collider_index: k,
                        };
                        consider(&mut events, e, horizon, Ghost(balls), Ghost(walls));
                    }
                }
                proof {
                    let r0 = reach(before, horizon as int);
                    let r1 = reach(events@, horizon as int);
                    assert(r1 <= r0);
                    assert forall|x: int, y: int| 0 <= x <= i && x < y < n implies #[trigger] pair_clear(balls[x], balls[y], r1) by {
                        lemma_pair_clear_shrinks(balls[x], balls[y], r0, r1);
                    }
                    assert forall|x: int, w: int| 0 <= x < i && 0 <= w < 4 implies #[trigger] wall_clear(balls[x], walls[w], r1) by {
                        lemma_wall_clear_shrinks(balls[x], walls[w], r0, r1);
                    }
                    assert forall|w: int| 0 <= w < k implies #[trigger] wall_clear(balls[i as int], walls[w], r1) by {
                        lemma_wall_clear_shrinks(balls[i as int], walls[w], r0, r1);
                    }
                    if normal_speed(*a, *p) >= 0 {
                        assert(wall_clear(*a, *p, r1));
                    } else {
                        lemma_wall_clear_shrinks(*a, *p, plane_time(*a, *p, false)->0, r1);
                    }
                    let pre = scan(balls, walls, i as int, horizon as int) + pair_row(balls, i as int, n as int, horizon as int)
                        + wall_row(balls, walls, i as int, k as int, horizon as int);
                    let cand = wall_candidate(balls, walls, i as int, k as int, horizon as int);
                    assert(scan(balls, walls, i as int, horizon as int) + pair_row(balls, i as int, n as int, horizon as int)
                        + wall_row(balls, walls, i as int, k + 1, horizon as int) =~= pre + cand);
                    lemma_keep_append(pre, cand);
                }
                k += 1;
            }
            i += 1;
        }
        proof {
            lemma_keep_soonest(scan(balls, walls, n as int, horizon as int));
        }
        events
    }

    /// Moves every body along its velocity for `t` ticks.
    #[verifier::rlimit(40)]
    fn advance(&mut self, t: i64)
        requires
            old(self).wf(),
            0 <= t <= MAX_STEP,
            clear_until(old(self).bodies(), old(self).wall_seq(), t as int),
        ensures
            final(self).wf(),
            final(self).bodies().len() == old(self).bodies().len(),
            forall|i: int|
                0 <= i < old(self).bodies().len() ==> #[trigger] final(self).bodies()[i] == moved(
                    old(self).bodies()[i],
                    t as int,
                ),
            final(self).wall_seq() == old(self).wall_seq(),
            final(self).accel() == old(self).accel(),
    {
        let ghost balls = self.bodies();
        let ghost walls = self.wall_seq();
        let n = self.balls.len();
        let mut i: usize = 0;
        while i < n
            invariant
                n == balls.len(),
                self.balls@.len() == n,
                i <= n,
                0 <= t <= MAX_STEP,
                walls == self.wall_seq(),
                self.accel() == old(self).accel(),
                balls == old(self).bodies(),
                world_wf(balls, walls, self.accel()),
                clear_until(balls, walls, t as int),
                forall|k: int| 0 <= k < i ==> #[trigger] self.balls@[k] == moved(balls[k], t as int),
                forall|k: int| i <= k < n ==> #[trigger] self.balls@[k] == balls[k],
            decreases n - i,
        {
            let mut b = self.balls[i];
            proof {
                assert(balls[i as int].in_range());
                assert forall|k: int| 0 <= k < 4 implies #[trigger] wall_gap(b, walls[k], t as int) >= 0 by {
                    assert(wall_clear(balls[i as int], walls[k], t as int));
                }
                assert(wall_gap(b, walls[0], t as int) >= 0);
                assert(wall_gap(b, walls[1], t as int) >= 0);
                assert(wall_gap(b, walls[2], t as int) >= 0);
                assert(wall_gap(b, walls[3], t as int) >= 0);
                lemma_inside_bounds(b, walls, t as int);
                lemma_step_bound(b.velocity.x as int, t as int);
                lemma_step_bound(b.velocity.y as int, t as int);
            }
            let offset = Vec2::new(t * b.velocity.x, t * b.velocity.y);
            b.displace(&offset);
            self.balls.set(i, b);
            proof {
                assert(b == moved(balls[i as int], t as int));
            }
            i += 1;
        }
        proof {
            let nb = self.bodies();
            assert forall|k: int| 0 <= k < n implies #[trigger] nb[k] == moved(balls[k], t as int) by {
                assert(self.balls@[k] == moved(balls[k], t as int));
            }
            assert forall|x: int, w: int| 0 <= x < n && 0 <= w < walls.len() implies #[trigger] wall_gap(nb[x], walls[w], 0) >= 0 by {
                assert(wall_clear(balls[x], walls[0], t as int));
                assert(wall_clear(balls[x], walls[1], t as int));
                assert(wall_clear(balls[x], walls[2], t as int));
                assert(wall_clear(balls[x], walls[3], t as int));
                assert(wall_gap(balls[x], walls[0], t as int) >= 0);
                assert(wall_gap(balls[x], walls[1], t as int) >= 0);
                assert(wall_gap(balls[x], walls[2], t as int) >= 0);
                assert(wall_gap(balls[x], walls[3], t as int) >= 0);
                assert(balls[x].in_range());
                lemma_inside_bounds(balls[x], walls, t as int);
                lemma_moved_gaps(balls[x], balls[x], walls[w], t as int);
                assert(wall_clear(balls[x], walls[w], t as int));
            }
            assert forall|x: int, y: int| 0 <= x < y < n implies #[trigger] contact_gap(nb[x], nb[y], 0) >= 0 by {
                assert(balls[x].in_range() && balls[y].in_range());
                assert(wall_clear(balls[x], walls[0], t as int) && wall_clear(balls[x], walls[1], t as int)
                    && wall_clear(balls[x], walls[2], t as int) && wall_clear(balls[x], walls[3], t as int));
                assert(wall_clear(balls[y], walls[0], t as int) && wall_clear(balls[y], walls[1], t as int)
                    && wall_clear(balls[y], walls[2], t as int) && wall_clear(balls[y], walls[3], t as int));
                assert(wall_gap(balls[x], walls[0], t as int) >= 0 && wall_gap(balls[x], walls[1], t as int) >= 0
                    && wall_gap(balls[x], walls[2], t as int) >= 0 && wall_gap(balls[x], walls[3], t as int) >= 0);
                assert(wall_gap(balls[y], walls[0], t as int) >= 0 && wall_gap(balls[y], walls[1], t as int) >= 0
                    && wall_gap(balls[y], walls[2], t as int) >= 0 && wall_gap(balls[y], walls[3], t as int) >= 0);
                lemma_inside_bounds(balls[x], walls, t as int);
                lemma_inside_bounds(balls[y], walls, t as int);
                lemma_moved_gaps(balls[x], balls[y], walls[0], t as int);
                assert(pair_clear(balls[x], balls[y], t as int));
            }
            assert forall|x: int| 0 <= x < n implies (#[trigger] nb[x]).in_range() by {
                assert(balls[x].in_range());
                assert(wall_clear(balls[x], walls[0], t as int) && wall_clear(balls[x], walls[1], t as int)
                    && wall_clear(balls[x], walls[2], t as int) && wall_clear(balls[x], walls[3], t as int));
                assert(wall_gap(balls[x], walls[0], t as int) >= 0 && wall_gap(balls[x], walls[1], t as int) >= 0
                    && wall_gap(balls[x], walls[2], t as int) >= 0 && wall_gap(balls[x], walls[3], t as int) >= 0);
                lemma_inside_bounds(balls[x], walls, t as int);
            }
        }
    }

    /// Resolves events of one instant together: each event's change of
    /// velocity is computed from the velocities before any of them, and the
    /// changes are added up. Fails, changing nothing, when a velocity would
    /// leave the supported range.
    #[verifier::rlimit(40)]
    fn resolve_collisions(&mut self, events: &Vec<Collision>) -> (r: Result<(), StepError>)
        requires
            old(self).wf(),
            events_indexed(old(self).bodies().len() as int, events@),
        ensures
            final(self).wf(),
            final(self).wall_seq() == old(self).wall_seq(),
            final(self).accel() == old(self).accel(),
            final(self).bodies().len() == old(self).bodies().len(),
            r is Err ==> final(self).bodies() == old(self).bodies() && r == Err::<(), StepError>(StepError::SpeedLimit),
            r is Err <==> !deltas_fit(old(self).bodies(), old(self).wall_seq(), events@),
            r is Ok ==> forall|i: int|
                0 <= i < old(self).bodies().len() ==> {
                    let b = old(self).bodies()[i];
                    let d = total_delta(old(self).bodies(), old(self).wall_seq(), events@, i);
                    &&& (#[trigger] final(self).bodies()[i]).circle == b.circle
                    &&& final(self).bodies()[i].mass == b.mass
                    &&& final(self).bodies()[i].velocity.x == b.velocity.x + d.0
                    &&& final(self).bodies()[i].velocity.y == b.velocity.y + d.1
                },
    {
        let ghost balls = self.bodies();
        let ghost walls = self.wall_seq();
        let n = self.balls.len();
        let mut dvx: Vec<i128> = Vec::new();
        let mut dvy: Vec<i128> = Vec::new();
        let mut i: usize = 0;
        while i < n
            invariant
                i <= n,
                dvx@.len() == i,
                dvy@.len() == i,
                forall|j: int| 0 <= j < i ==> dvx@[j] == 0 && dvy@[j] == 0,
            decreases n - i,
        {
            dvx.push(0);
            dvy.push(0);
            i += 1;
        }
        let mut k: usize = 0;
        while k < events.len()
            invariant
                self.wf(),
                balls == self.bodies(),
                walls == self.wall_seq(),
                balls == old(self).bodies(),
                walls == old(self).wall_seq(),
                n == balls.len(),
                k <= events@.len(),
                events_indexed(n as int, events@),
                dvx@.len() == n,
                dvy@.len() == n,
                forall|j: int|
                    0 <= j < n ==> {
                        let d = total_delta(balls, walls, events@.take(k as int), j);
                        &&& #[trigger] dvx@[j] == d.0
                        &&& dvy@[j] == d.1
                        &&& -k * 0x2_0000_0000 <= dvx@[j] <= k * 0x2_0000_0000
                        &&& -k * 0x2_0000_0000 <= dvy@[j] <= k * 0x2_0000_0000
                    },
            decreases events@.len() - k,
        {
            let e = events[k];
            let a = self.balls[e.ball_index];
            let ghost prev_x = dvx@;
            let ghost prev_y = dvy@;
            assert(balls[e.ball_index as int].in_range());
            match e.kind {
                CollisionKind::Ball => {
                    let b = self.balls[e.collider_index];
                    proof {
                        assert(balls[e.collider_index as int].in_range());
                        lemma_rounded_bound(a, b);
                    }
                    let (va, vb) = Ball::resolve_collision(&a, &b);
                    let i = e.ball_index;
                    let j = e.collider_index;
                    let x = dvx[i] + (va.x as i128 - a.velocity.x as i128);
                    dvx.set(i, x);
                    let y = dvy[i] + (va.y as i128 - a.velocity.y as i128);
                    dvy.set(i, y);
                    let x = dvx[j] + (vb.x as i128 - b.velocity.x as i128);
                    dvx.set(j, x);
                    let y = dvy[j] + (vb.y as i128 - b.velocity.y as i128);
                    dvy.set(j, y);
                },
                CollisionKind::Wall => {
                    let mut c = a;
                    proof {
                        assert(plane_in_range(walls[e.collider_index as int]));
                    }
                    c.resolve_plane_collision(&self.walls[e.collider_index]);
                    let i = e.ball_index;
                    let x = dvx[i] + (c.velocity.x as i128 - a.velocity.x as i128);
                    dvx.set(i, x);
                    let y = dvy[i] + (c.velocity.y as i128 - a.velocity.y as i128);
                    dvy.set(i, y);
                },
            }
            proof {
                assert forall|j: int| 0 <= j < n implies {
                    let d = total_delta(balls, walls, events@.take(k + 1), j);
                    &&& #[trigger] dvx@[j] == d.0
                    &&& dvy@[j] == d.1
                    &&& -(k + 1) * 0x2_0000_0000 <= dvx@[j] <= (k + 1) * 0x2_0000_0000
                    &&& -(k + 1) * 0x2_0000_0000 <= dvy@[j] <= (k + 1) * 0x2_0000_0000
                } by {
                    let d0 = total_delta(balls, walls, events@.take(k as int), j);
                    assert(prev_x[j] == d0.0 && prev_y[j] == d0.1);
                    assert(-k * 0x2_0000_0000 <= prev_x[j] <= k * 0x2_0000_0000);
                    assert(-k * 0x2_0000_0000 <= prev_y[j] <= k * 0x2_0000_0000);
                    lemma_total_delta_step(balls, walls, events@, k as int, j);
                    assert(balls[e.ball_index as int].in_range());
                    if e.kind == CollisionKind::Ball {
                        assert(balls[e.collider_index as int].in_range());
                    } else {
                        assert(plane_in_range(walls[e.collider_index as int]));
                    }
                    lemma_event_delta_bound(balls, walls, e, j);
                }
            }
            k += 1;
        }
        assert(events@.take(events@.len() as int) =~= events@);
        // Check every new velocity before writing any.
        let mut i: usize = 0;
        while i < n
            invariant
                i <= n,
                n == balls.len(),
                balls == self.bodies(),
                balls == old(self).bodies(),
                walls == old(self).wall_seq(),
                self.wf(),
                dvx@.len() == n,
                dvy@.len() == n,
                forall|j: int|
                    0 <= j < n ==> {
                        let d = total_delta(balls, walls, events@, j);
                        &&& #[trigger] dvx@[j] == d.0
                        &&& dvy@[j] == d.1
                        &&& -0x2_0000_0000_0000_0000_0000_0000 <= dvx@[j] <= 0x2_0000_0000_0000_0000_0000_0000
                        &&& -0x2_0000_0000_0000_0000_0000_0000 <= dvy@[j] <= 0x2_0000_0000_0000_0000_0000_0000
                    },
                forall|j: int|
                    0 <= j < i ==> -MAX_SPEED <= balls[j].velocity.x + #[trigger] dvx@[j] <= MAX_SPEED
                        && -MAX_SPEED <= balls[j].velocity.y + dvy@[j] <= MAX_SPEED,
            decreases n - i,
        {
            let vx = self.balls[i].velocity.x as i128 + dvx[i];
            let vy = self.balls[i].velocity.y as i128 + dvy[i];
            if vx < -(MAX_SPEED as i128) || vx > MAX_SPEED as i128 || vy < -(MAX_SPEED as i128) || vy
                > MAX_SPEED as i128 {
                proof {
                    assert(!(-MAX_SPEED <= balls[i as int].velocity.x + total_delta(balls, walls, events@, i as int).0 <= MAX_SPEED
                        && -MAX_SPEED <= balls[i as int].velocity.y + total_delta(balls, walls, events@, i as int).1 <= MAX_SPEED));
                }
                return Err(StepError::SpeedLimit);
            }
            i += 1;
        }
        proof {
            assert forall|j: int| 0 <= j < n implies -MAX_SPEED <= (#[trigger] balls[j]).velocity.x + total_delta(balls, walls, events@, j).0 <= MAX_SPEED
                && -MAX_SPEED <= balls[j].velocity.y + total_delta(balls, walls, events@, j).1 <= MAX_SPEED by {
                assert(dvx@[j] == total_delta(balls, walls, events@, j).0);
            }
        }
        let mut i: usize = 0;
        while i < n
            invariant
                i <= n,
                n == balls.len(),
                self.balls@.len() == n,
                walls == self.wall_seq(),
                self.accel() == old(self).accel(),
                world_wf(balls, walls, self.accel()),
                dvx@.len() == n,
                dvy@.len() == n,
                forall|j: int|
                    0 <= j < n ==> {
                        let d = total_delta(balls, walls, events@, j);
                        &&& #[trigger] dvx@[j] == d.0
                        &&& dvy@[j] == d.1
                    },
                forall|j: int|
                    0 <= j < n ==> -MAX_SPEED <= balls[j].velocity.x + #[trigger] dvx@[j] <= MAX_SPEED
                        && -MAX_SPEED <= balls[j].velocity.y + dvy@[j] <= MAX_SPEED,
                forall|j: int|
                    0 <= j < i ==> {
                        let b = balls[j];
                        &&& (#[trigger] self.balls@[j]).circle == b.circle
                        &&& self.balls@[j].mass == b.mass
                        &&& self.balls@[j].velocity.x == b.velocity.x + dvx@[j]
                        &&& self.balls@[j].velocity.y == b.velocity.y + dvy@[j]
                    },
                forall|j: int| i <= j < n ==> #[trigger] self.balls@[j] == balls[j],
            decreases n - i,
        {
            let mut b = self.balls[i];
            let vx = (b.velocity.x as i128 + dvx[i]) as i64;
            let vy = (b.velocity.y as i128 + dvy[i]) as i64;
            b.velocity = Vec2::new(vx, vy);
            self.balls.set(i, b);
            i += 1;
        }
        proof {
            let nb = self.bodies();
            assert forall|x: int| 0 <= x < n implies (#[trigger] nb[x]).in_range() by {
                assert(balls[x].in_range());
                assert(self.balls@[x].circle == balls[x].circle);
            }
            assert forall|x: int, w: int| 0 <= x < n && 0 <= w < walls.len() implies #[trigger] wall_gap(nb[x], walls[w], 0) >= 0 by {
                assert(self.balls@[x].circle == balls[x].circle);
                assert(wall_gap(balls[x], walls[w], 0) >= 0);
            }
            assert forall|x: int, y: int| 0 <= x < y < n implies #[trigger] contact_gap(nb[x], nb[y], 0) >= 0 by {
                assert(self.balls@[x].circle == balls[x].circle);
                assert(self.balls@[y].circle == balls[y].circle);
                assert(contact_gap(balls[x], balls[y], 0) >= 0);
            }
        }
        Ok(())
    }

    /// Adds the acceleration over `dt` ticks to every velocity; fails,
    /// changing nothing, when a velocity would leave the supported range.
    #[verifier::rlimit(40)]
    fn accelerate(&mut self, dt: i64) -> (r: Result<(), StepError>)
        requires
            old(self).wf(),
            -MAX_STEP <= dt <= MAX_STEP,
        ensures
            final(self).wf(),
            final(self).wall_seq() == old(self).wall_seq(),
            final(self).accel() == old(self).accel(),
            final(self).bodies().len() == old(self).bodies().len(),
            r is Err ==> final(self).bodies() == old(self).bodies(),
            r is Err ==> r == Err::<(), StepError>(StepError::SpeedLimit),
            r is Err ==> exists|i: int|
                0 <= i < old(self).bodies().len() && !(-MAX_SPEED <= (#[trigger] old(
                    self,
                ).bodies()[i]).velocity.x + accel_delta(old(self).accel().x as int, dt as int)
                    <= MAX_SPEED && -MAX_SPEED <= old(self).bodies()[i].velocity.y + accel_delta(
                    old(self).accel().y as int,
                    dt as int,
                ) <= MAX_SPEED),
            r is Ok ==> forall|i: int|
                0 <= i < old(self).bodies().len() ==> {
                    let b = old(self).bodies()[i];
                    &&& (#[trigger] final(self).bodies()[i]).circle == b.circle
                    &&& final(self).bodies()[i].mass == b.mass
                    &&& final(self).bodies()[i].velocity.x == b.velocity.x + accel_delta(
                        old(self).accel().x as int,
                        dt as int,
                    )
                    &&& final(self).bodies()[i].velocity.y == b.velocity.y + accel_delta(
                        old(self).accel().y as int,
                        dt as int,
                    )
                },
    {
        let ghost balls = self.bodies();
        proof {
            crate::ball::lemma_mul_bound(self.acceleration.x as int, dt as int, 0x40_0000, 0x100_0000_0000);
            crate::ball::lemma_mul_bound(self.acceleration.y as int, dt as int, 0x40_0000, 0x100_0000_0000);
        }
        let ddx = trunc_per_second(self.acceleration.x as i128 * dt as i128);
        let ddy = trunc_per_second(self.acceleration.y as i128 * dt as i128);
        let n = self.balls.len();
        let mut i: usize = 0;
        while i < n
            invariant
                i <= n,
                n == balls.len(),
                balls == self.bodies(),
                balls == old(self).bodies(),
                self.wall_seq() == old(self).wall_seq(),
                self.accel() == old(self).accel(),
                self.wf(),
                ddx == accel_delta(self.accel().x as int, dt as int),
                ddy == accel_delta(self.accel().y as int, dt as int),
                -0x1_0000_0000_0000 <= ddx <= 0x1_0000_0000_0000,
                -0x1_0000_0000_0000 <= ddy <= 0x1_0000_0000_0000,
                forall|j: int|
                    0 <= j < i ==> -MAX_SPEED <= (#[trigger] balls[j]).velocity.x + ddx <= MAX_SPEED
                        && -MAX_SPEED <= balls[j].velocity.y + ddy <= MAX_SPEED,
            decreases n - i,
        {
            let vx = self.balls[i].velocity.x as i128 + ddx;
            let vy = self.balls[i].velocity.y as i128 + ddy;
            if vx < -(MAX_SPEED as i128) || vx > MAX_SPEED as i128 || vy < -(MAX_SPEED as i128) || vy
                > MAX_SPEED as i128 {
                proof {
                    assert(balls[i as int] == old(self).bodies()[i as int]);
                }
                return Err(StepError::SpeedLimit);
            }
            i += 1;
        }
        let ghost walls = self.wall_seq();
        let mut i: usize = 0;
        while i < n
            invariant
                i <= n,
                n == balls.len(),
                self.balls@.len() == n,
                walls == self.wall_seq(),
                self.accel() == old(self).accel(),
                balls == old(self).bodies(),
                world_wf(balls, walls, self.accel()),
                ddx == accel_delta(self.accel().x as int, dt as int),
                ddy == accel_delta(self.accel().y as int, dt as int),
                forall|j: int|
                    0 <= j < n ==> -MAX_SPEED <= (#[trigger] balls[j]).velocity.x + ddx <= MAX_SPEED
                        && -MAX_SPEED <= balls[j].velocity.y + ddy <= MAX_SPEED,
                forall|j: int|
                    0 <= j < i ==> {
                        let b = balls[j];
                        &&& (#[trigger] self.balls@[j]).circle == b.circle
                        &&& self.balls@[j].mass == b.mass
                        &&& self.balls@[j].velocity.x == b.velocity.x + ddx
                        &&& self.balls@[j].velocity.y == b.velocity.y + ddy
                    },
                forall|j: int| i <= j < n ==> #[trigger] self.balls@[j] == balls[j],
            decreases n - i,
        {
            let mut b = self.balls[i];
            proof {
                assert(-MAX_SPEED <= balls[i as int].velocity.x + ddx <= MAX_SPEED);
            }
            let vx = (b.velocity.x as i128 + ddx) as i64;
            let vy = (b.velocity.y as i128 + ddy) as i64;
            b.velocity = Vec2::new(vx, vy);
            self.balls.set(i, b);
            i += 1;
        }
        proof {
            let nb = self.bodies();
            assert forall|x: int| 0 <= x < n implies (#[trigger] nb[x]).in_range() by {
                assert(balls[x].in_range());
                assert(self.balls@[x].circle == balls[x].circle);
                assert(-MAX_SPEED <= balls[x].velocity.x + ddx <= MAX_SPEED);
            }
            assert forall|x: int, w: int| 0 <= x < n && 0 <= w < walls.len() implies #[trigger] wall_gap(nb[x], walls[w], 0) >= 0 by {
                assert(self.balls@[x].circle == balls[x].circle);
                assert(wall_gap(balls[x], walls[w], 0) >= 0);
            }
            assert forall|x: int, y: int| 0 <= x < y < n implies #[trigger] contact_gap(nb[x], nb[y], 0) >= 0 by {
                assert(self.balls@[x].circle == balls[x].circle);
                assert(self.balls@[y].circle == balls[y].circle);
                assert(contact_gap(balls[x], balls[y], 0) >= 0);
            }
        }
        Ok(())
    }

    /// Turns every velocity around, so that running forwards replays the past.
    fn reverse(&mut self)
        requires
            old(self).wf(),
        ensures
            final(self).wf(),
            final(self).wall_seq() == old(self).wall_seq(),
            final(self).accel() == old(self).accel(),
            final(self).bodies().len() == old(self).bodies().len(),
            forall|i: int|
                0 <= i < old(self).bodies().len() ==> {
                    let b = old(self).bodies()[i];
                    &&& (#[trigger] final(self).bodies()[i]).circle == b.circle
                    &&& final(self).bodies()[i].mass == b.mass
                    &&& final(self).bodies()[i].velocity.x == -b.velocity.x
                    &&& final(self).bodies()[i].velocity.y == -b.velocity.y
                },
    {
        let ghost balls = self.bodies();
        let ghost walls = self.wall_seq();
        let n = self.balls.len();
        let mut i: usize = 0;
        while i < n
            invariant
                i <= n,
                n == balls.len(),
                self.balls@.len() == n,
                walls == self.wall_seq(),
                self.accel() == old(self).accel(),
                balls == old(self).bodies(),
                world_wf(balls, walls, self.accel()),
                forall|j: int|
                    0 <= j < i ==> {
                        let b = balls[j];
                        &&& (#[trigger] self.balls@[j]).circle == b.circle
                        &&& self.balls@[j].mass == b.mass
                        &&& self.balls@[j].velocity.x == -b.velocity.x
                        &&& self.balls@[j].velocity.y == -b.velocity.y
                    },
                forall|j: int| i <= j < n ==> #[trigger] self.balls@[j] == balls[j],
            decreases n - i,
        {
            let mut b = self.balls[i];
            proof {
                assert(balls[i as int].in_range());
            }
            b.velocity = Vec2::new(-b.velocity.x, -b.velocity.y);
            self.balls.set(i, b);
            i += 1;
        }
        proof {
            let nb = self.bodies();
            assert forall|x: int| 0 <= x < n implies (#[trigger] nb[x]).in_range() by {
                assert(balls[x].in_range());
                assert(self.balls@[x].circle == balls[x].circle);
            }
            assert forall|x: int, w: int| 0 <= x < n && 0 <= w < walls.len() implies #[trigger] wall_gap(nb[x], walls[w], 0) >= 0 by {
                assert(self.balls@[x].circle == balls[x].circle);
                assert(wall_gap(balls[x], walls[w], 0) >= 0);
            }
            assert forall|x: int, y: int| 0 <= x < y < n implies #[trigger] contact_gap(nb[x], nb[y], 0) >= 0 by {
                assert(self.balls@[x].circle == balls[x].circle);
                assert(self.balls@[y].circle == balls[y].circle);
                assert(contact_gap(balls[x], balls[y], 0) >= 0);
            }
        }
    }

    /// Advances the simulation by `dt` ticks, which may be negative to run it
    /// backwards. The acceleration is applied once, over the whole of `dt`.
    /// Then the earliest contacts ahead are found; all bodies move up to
    /// them, they are resolved together, and the search repeats with the
    /// time left, until no contact lies within it and the bodies move freely
    /// to its end. Running backwards is running forwards with every velocity
    /// turned around. Stops with an error after `MAX_SUB_STEPS` sub-steps, or
    /// when a velocity would leave the supported range; the world is valid
    /// either way.
    #[verifier::rlimit(40)]
    pub fn update(&mut self, dt: i64) -> (r: Result<(), StepError>)
        requires
            old(self).wf(),
            -MAX_STEP <= dt <= MAX_STEP,
        ensures
            final(self).wf(),
            final(self).wall_seq() == old(self).wall_seq(),
            final(self).accel() == old(self).accel(),
            final(self).bodies().len() == old(self).bodies().len(),
            forall|i: int|
                0 <= i < old(self).bodies().len() ==> (#[trigger] final(self).bodies()[i]).circle.radius
                    == old(self).bodies()[i].circle.radius && final(self).bodies()[i].mass
                    == old(self).bodies()[i].mass,
            dt == 0 ==> r is Ok && final(self).bodies() == old(self).bodies(),
            ({
                let start = old(self).bodies().map_values(
                    |b: Ball| accelerated(b, old(self).accel(), dt as int),
                );
                speeds_fit(old(self).bodies(), old(self).accel(), dt as int) && unobstructed(
                    start,
                    old(self).wall_seq(),
                    dt as int,
                ) ==> r is Ok && forall|i: int|
                    0 <= i < start.len() ==> #[trigger] final(self).bodies()[i] == moved(
                        start[i],
                        dt as int,
                    )
            }),
            !speeds_fit(old(self).bodies(), old(self).accel(), dt as int) ==> r == Err::<
                (),
                StepError,
            >(StepError::SpeedLimit) && final(self).bodies() == old(self).bodies(),
            ({
                let start = old(self).bodies().map_values(
                    |b: Ball| accelerated(b, old(self).accel(), dt as int),
                );
                let ahead = if dt >= 0 {
                    start
                } else {
                    start.map_values(|b: Ball| turned(b))
                };
                let h = if dt >= 0 {
                    dt as int
                } else {
                    -dt
                };
                speeds_fit(old(self).bodies(), old(self).accel(), dt as int) ==> match stepped(
                    ahead,
                    old(self).wall_seq(),
                    h,
                    MAX_SUB_STEPS as nat,
                ) {
                    Ok(bs) => r is Ok && final(self).bodies() == if dt >= 0 {
                        bs
                    } else {
                        bs.map_values(|b: Ball| turned(b))
                    },
                    Err(e) => r == Err::<(), StepError>(e),
                }
            }),
    {
        let ghost orig = self.bodies();
        let ghost start = orig.map_values(|b: Ball| accelerated(b, old(self).accel(), dt as int));
        let ghost free = speeds_fit(orig, old(self).accel(), dt as int) && unobstructed(
            start,
            old(self).wall_seq(),
            dt as int,
        );
        let accelerated = self.accelerate(dt);
        if accelerated.is_err() {
            proof {
                if free {
                    let ax = old(self).accel().x as int;
                    let ay = old(self).accel().y as int;
                    let i = choose|i: int|
                        0 <= i < orig.len() && !(-MAX_SPEED <= (#[trigger] orig[i]).velocity.x
                            + accel_delta(ax, dt as int) <= MAX_SPEED && -MAX_SPEED
                            <= orig[i].velocity.y + accel_delta(ay, dt as int) <= MAX_SPEED);
                    assert(false);
                }
                if dt == 0 {
                    let ax = old(self).accel().x as int;
                    let ay = old(self).accel().y as int;
                    lemma_no_time_no_change(ax);
                    lemma_no_time_no_change(ay);
                    let i = choose|i: int|
                        0 <= i < orig.len() && !(-MAX_SPEED <= (#[trigger] orig[i]).velocity.x
                            + accel_delta(ax, 0) <= MAX_SPEED && -MAX_SPEED <= orig[i].velocity.y
                            + accel_delta(ay, 0) <= MAX_SPEED);
                    assert(orig[i].in_range());
                }
            }
            proof {
                assert(!speeds_fit(orig, old(self).accel(), dt as int));
            }
            return accelerated;
        }
        proof {
            assert(speeds_fit(orig, old(self).accel(), dt as int)) by {
                assert forall|i: int| 0 <= i < orig.len() implies -MAX_SPEED <= (#[trigger] orig[i]).velocity.x + accel_delta(
                    old(self).accel().x as int, dt as int) <= MAX_SPEED && -MAX_SPEED <= orig[i].velocity.y + accel_delta(
                    old(self).accel().y as int, dt as int) <= MAX_SPEED by {
                    assert(self.bodies()[i].in_range());
                }
            }
            if dt == 0 {
                lemma_no_time_no_change(self.accel().x as int);
                lemma_no_time_no_change(self.accel().y as int);
                assert(self.bodies() =~= orig);
            }
        }
        proof {
            assert(self.bodies() =~= start) by {
                assert forall|i: int| 0 <= i < start.len() implies self.bodies()[i] == start[i] by {
                    assert(orig[i].in_range());
                    assert(self.bodies()[i].in_range());
                }
            }
        }
        let backwards = dt < 0;
        if backwards {
            self.reverse();
        }
        let ghost ahead = self.bodies();
        let ghost h: int = if backwards { -dt } else { dt as int };
        proof {
            if backwards {
                assert(ahead =~= start.map_values(|b: Ball| turned(b))) by {
                    assert forall|i: int| 0 <= i < start.len() implies ahead[i] == turned(start[i]) by {
                        assert(start[i].in_range());
                    }
                }
            }
            assert(free ==> no_event_within(ahead, self.wall_seq(), h));
        }
        let mut remaining: i64 = if backwards {
            -dt
        } else {
            dt
        };
        let mut steps: u64 = 0;
        let mut result: Result<(), StepError> = Ok(());
        let ghost target = stepped(ahead, old(self).wall_seq(), h, MAX_SUB_STEPS as nat);
        while remaining > 0
            invariant
                result is Ok ==> stepped(
                    self.bodies(),
                    old(self).wall_seq(),
                    remaining as int,
                    (MAX_SUB_STEPS - steps) as nat,
                ) == target,
                result is Err ==> remaining == 0 && target == Err::<Seq<Ball>, StepError>(
                    result->Err_0,
                ),
                remaining == h ==> steps == 0 ==> self.bodies() == ahead,
                self.wf(),
                self.wall_seq() == old(self).wall_seq(),
                self.accel() == old(self).accel(),
                self.bodies().len() == orig.len(),
                forall|i: int|
                    0 <= i < orig.len() ==> (#[trigger] self.bodies()[i]).circle.radius
                        == orig[i].circle.radius && self.bodies()[i].mass == orig[i].mass,
                0 <= remaining <= MAX_STEP,
                steps <= MAX_SUB_STEPS,
                dt == 0 ==> self.bodies() == orig,
                dt == 0 ==> remaining == 0 && result is Ok,
                dt == 0 ==> !backwards,
                ahead.len() == orig.len(),
                h == (if backwards { -dt } else { dt as int }),
                free ==> no_event_within(ahead, old(self).wall_seq(), h),
                free ==> (steps == 0 && remaining == h && result is Ok && self.bodies() == ahead) || (remaining == 0
                    && result is Ok && forall|i: int|
                    0 <= i < ahead.len() ==> #[trigger] self.bodies()[i] == moved(ahead[i], h)),
            decreases MAX_SUB_STEPS - steps, remaining,
        {
            if steps >= MAX_SUB_STEPS {
                result = Err(StepError::TooManySubSteps);
                remaining = 0;
            } else {
                let ghost before = self.bodies();
                let events = self.get_soonest_collisions(remaining);
                proof {
                    if free && steps == 0 && events@.len() > 0 {
                        assert(event_valid(before, self.wall_seq(), events@[0]));
                        let e = events@[0];
                        match e.kind {
                            CollisionKind::Ball => {
                                assert(!pair_event(
                                    ahead[e.ball_index as int],
                                    ahead[e.collider_index as int],
                                    e.time as int,
                                ));
                            },
                            CollisionKind::Wall => {
                                assert(!wall_event(
                                    ahead[e.ball_index as int],
                                    self.wall_seq()[e.collider_index as int],
                                    e.time as int,
                                ));
                            },
                        }
                    }
                }
                if events.len() == 0 {
                    self.advance(remaining);
                    proof {
                        assert(self.bodies() =~= moved_all(before, remaining as int));
                    }
                    remaining = 0;
                } else {
                    let t = events[0].time;
                    self.advance(t);
                    let ghost at = self.bodies();
                    proof {
                        assert(at =~= moved_all(before, t as int));
                    }
                    proof {
                        assert forall|k: int| 0 <= k < events@.len() implies {
                            let e = #[trigger] events@[k];
                            &&& e.ball_index < before.len()
                            &&& match e.kind {
                                CollisionKind::Ball => e.ball_index != e.collider_index
                                    && e.collider_index < before.len(),
                                CollisionKind::Wall => e.collider_index < 4,
                            }
                        } by {
                            assert(event_valid(before, self.wall_seq(), events@[k]));
                        }
                    }
                    let resolved = self.resolve_collisions(&events);
                    if resolved.is_err() {
                        result = resolved;
                        remaining = 0;
                    } else {
                        proof {
                            assert(self.bodies() =~= resolved_all(at, self.wall_seq(), events@)) by {
                                assert forall|i: int| 0 <= i < at.len() implies self.bodies()[i]
                                    == resolved_all(at, self.wall_seq(), events@)[i] by {
                                    assert(self.bodies()[i].in_range());
                                }
                            }
                        }
                        remaining = remaining - t;
                    }
                }
                steps = steps + 1;
            }
        }
        let ghost before_turn = self.bodies();
        if backwards {
            self.reverse();
        }
        proof {
            if result is Ok {
                assert(target == Ok::<Seq<Ball>, StepError>(before_turn));
                if backwards {
                    assert(self.bodies() =~= before_turn.map_values(|b: Ball| turned(b))) by {
                        assert forall|i: int| 0 <= i < before_turn.len() implies self.bodies()[i]
                            == turned(before_turn[i]) by {
                            assert(before_turn[i].in_range());
                        }
                    }
                }
            }
        }
        proof {
            if free {
                if h == 0 {
                    assert forall|i: int| 0 <= i < ahead.len() implies #[trigger] self.bodies()[i]
                        == moved(ahead[i], h) by {
                        assert(ahead[i].in_range());
                    }
                }
                assert forall|i: int| 0 <= i < start.len() implies #[trigger] self.bodies()[i]
                    == moved(start[i], dt as int) by {
                    assert(before_turn[i] == moved(ahead[i], h));
                    assert(start[i].in_range());
                    if backwards {
                        assert(ahead[i] == turned(start[i]));
                        lemma_turned_flight(start[i], dt as int);
                    }
                }
            }
        }
        result
    }
}

/// `n` divided by the ticks in a second, rounded towards zero.
fn trunc_per_second(n: i128) -> (r: i128)
    requires
        -0x4000_0000_0000_0000 <= n <= 0x4000_0000_0000_0000,
    ensures
        r == trunc_div(n as int, TICKS_PER_SECOND as int),
        -0x1_0000_0000_0000 <= r <= 0x1_0000_0000_0000,
{
    if n >= 0 {
        n / (TICKS_PER_SECOND as i128)
    } else {
        -((-n) / (TICKS_PER_SECOND as i128))
    }
}

impl World {
    /// A world in `arena` with one body of the default radius and unit mass
    /// per given velocity, laid out on a square grid inset from the walls by
    /// three radii. `None` when the arena is out of range, a velocity is out
    /// of range, or the bodies do not fit with gaps between them.
    #[verifier::rlimit(40)]
    pub fn with_velocities(arena: Rect, velocities: &Vec<Vec2>) -> (r: Option<World>)
        ensures
            r is Some <==> arena_in_range(arena) && layout_fits(arena, velocities@.len() as int)
                && forall|i: int|
                0 <= i < velocities@.len() ==> within(#[trigger] velocities@[i], MAX_SPEED as int),
            r matches Some(w) ==> {
                &&& w.wf()
                &&& w.wall_seq() == planes_of(arena)
                &&& w.accel() == Vec2::zero_spec()
                &&& w.bodies().len() == velocities@.len()
                &&& forall|i: int|
                    0 <= i < velocities@.len() ==> {
                        let b = #[trigger] w.bodies()[i];
                        &&& b.velocity == velocities@[i]
                        &&& b.circle.radius == DEFAULT_RADIUS
                        &&& b.mass == 1
                        &&& (b.circle.position.x as int, b.circle.position.y as int) == grid_position(
                            arena,
                            velocities@.len() as int,
                            i,
                        )
                    }
            },
    {
        if !(0 < arena.width && 0 < arena.height && -MAX_COORD <= arena.left && arena.left
            <= MAX_COORD - arena.width && -MAX_COORD <= arena.top && arena.top <= MAX_COORD
            - arena.height) {
            return None;
        }
        let n = velocities.len();
        let mut k: usize = 0;
        while k < n
            invariant
                k <= n,
                n == velocities@.len(),
                forall|i: int| 0 <= i < k ==> within(#[trigger] velocities@[i], MAX_SPEED as int),
            decreases n - k,
        {
            let v = velocities[k];
            if !(-MAX_SPEED <= v.x && v.x <= MAX_SPEED && -MAX_SPEED <= v.y && v.y <= MAX_SPEED) {
                return None;
            }
            k += 1;
        }
        let walls = World::rect_to_planes(&arena);
        let r = DEFAULT_RADIUS;
        if n == 0 {
            let w = World { balls: Vec::new(), walls, acceleration: Vec2::zero() };
            proof {
                assert(w.bodies() =~= Seq::<Ball>::empty());
            }
            return Some(w);
        }
        let sides = grid_sides_exec(n as u64);
        if arena.width < 6 * r || arena.height < 6 * r {
            proof {
                if arena.width < 6 * r {
                    assert((arena.width - 6 * r) / (sides as int) < 0) by (nonlinear_arith)
                        requires
                            arena.width - 6 * r < 0,
                            sides > 0,
                    ;
                }
                if arena.height < 6 * r {
                    assert((arena.height - 6 * r) / (sides as int) < 0) by (nonlinear_arith)
                        requires
                            arena.height - 6 * r < 0,
                            sides > 0,
                    ;
                }
            }
            return None;
        }
        let sx = (arena.width - 6 * r) / sides as i64;
        let sy = (arena.height - 6 * r) / sides as i64;
        if sx < 2 * r || sy < 2 * r {
            return None;
        }
        let mut balls: Vec<Ball> = Vec::new();
        let mut i: usize = 0;
        while i < n
            invariant
                i <= n,
                n == velocities@.len(),
                n > 0,
                sides == grid_sides(n as int),
                0 < sides <= 0x1_0000_0001,
                (sides - 1) * (sides - 1) < n <= sides * sides,
                sx == (arena.width - 6 * r) / (sides as int),
                sy == (arena.height - 6 * r) / (sides as int),
                2 * r <= sx,
                2 * r <= sy,
                r == DEFAULT_RADIUS,
                arena_in_range(arena),
                walls@ == planes_of(arena),
                rect_of(walls@) == arena,
                forall|j: int| 0 <= j < n ==> within(#[trigger] velocities@[j], MAX_SPEED as int),
                balls@.len() == i,
                forall|j: int|
                    0 <= j < i ==> {
                        let b = #[trigger] balls@[j];
                        &&& b.velocity == velocities@[j]
                        &&& b.circle.radius == DEFAULT_RADIUS
                        &&& b.mass == 1
                        &&& (b.circle.position.x as int, b.circle.position.y as int)
                            == grid_position(arena, n as int, j)
                        &&& b.in_range()
                        &&& forall|w: int| 0 <= w < 4 ==> #[trigger] wall_gap(b, walls@[w], 0) >= 0
                    },
            decreases n - i,
        {
            let col_u = i as u64 % sides;
            let row_u = i as u64 / sides;
            proof {
                lemma_grid_cell(i as int, n as int, sides as int, sx as int, sy as int, arena);
                assert(col_u == (i as int) % (sides as int));
                assert(row_u == (i as int) / (sides as int));
            }
            let col = col_u as i64;
            let row = row_u as i64;
            proof {
                lemma_grid_cell(i as int, n as int, sides as int, sx as int, sy as int, arena);
                assert(col == (i as int) % (sides as int));
                assert(row == (i as int) / (sides as int));
            }
            let x = arena.left + 3 * r + col * sx;
            let y = arena.top + 3 * r + row * sy;
            let b = Ball {
                circle: Circle { position: Vec2::new(x, y), radius: r },
                velocity: velocities[i],
                mass: 1,
            };
            proof {
                lemma_planes_of(arena);
                assert forall|w: int| 0 <= w < 4 implies #[trigger] wall_gap(b, walls@[w], 0) >= 0 by {
                    lemma_unit_scale(1, x - walls@[0].position.x);
                    lemma_unit_scale(0, y - walls@[0].position.y);
                    lemma_unit_scale(-1, x - walls@[1].position.x);
                    lemma_unit_scale(0, y - walls@[1].position.y);
                    lemma_unit_scale(0, x - walls@[2].position.x);
                    lemma_unit_scale(1, y - walls@[2].position.y);
                    lemma_unit_scale(0, x - walls@[3].position.x);
                    lemma_unit_scale(-1, y - walls@[3].position.y);
                }
            }
            balls.push(b);
            i += 1;
        }
        let w = World { balls, walls, acceleration: Vec2::zero() };
        proof {
            let bs = w.bodies();
            assert forall|x: int, y: int| 0 <= x < y < n implies #[trigger] contact_gap(bs[x], bs[y], 0) >= 0 by {
                lemma_grid_apart(x, y, sides as int, sx as int, sy as int, r as int);
            }
        }
        Some(w)
    }
}

impl World {
    /// A world in `arena` with `count` bodies of the default radius and unit
    /// mass on a square grid (see `with_velocities`), each with a random
    /// velocity of speed at most `INITIAL_SPEED_CAP`.
    pub fn new(arena: Rect, count: usize) -> (r: Option<World>)
        ensures
            r is Some <==> arena_in_range(arena) && layout_fits(arena, count as int),
            r matches Some(w) ==> {
                &&& w.wf()
                &&& w.wall_seq() == planes_of(arena)
                &&& w.accel() == Vec2::zero_spec()
                &&& w.bodies().len() == count
                &&& forall|i: int|
                    0 <= i < count ==> {
                        let b = #[trigger] w.bodies()[i];
                        &&& norm_sq(b.velocity) <= INITIAL_SPEED_CAP * INITIAL_SPEED_CAP
                        &&& b.circle.radius == DEFAULT_RADIUS
                        &&& b.mass == 1
                        &&& (b.circle.position.x as int, b.circle.position.y as int)
                            == grid_position(arena, count as int, i)
                    }
            },
    {
        let mut velocities: Vec<Vec2> = Vec::new();
        let mut i: usize = 0;
        while i < count
            invariant
                i <= count,
                velocities@.len() == i,
                forall|j: int|
                    0 <= j < i ==> norm_sq(#[trigger] velocities@[j]) <= INITIAL_SPEED_CAP
                        * INITIAL_SPEED_CAP && within(velocities@[j], INITIAL_SPEED_CAP as int),
            decreases count - i,
        {
            velocities.push(random_velocity(INITIAL_SPEED_CAP));
            i += 1;
        }
        World::with_velocities(arena, &velocities)
    }

    /// Sets the uniform acceleration, in velocity units per second.
    pub fn set_acceleration(&mut self, acceleration: Vec2)
        requires
            old(self).wf(),
            within(acceleration, MAX_SPEED as int),
        ensures
            final(self).wf(),
            final(self).accel() == acceleration,
            final(self).bodies() == old(self).bodies(),
            final(self).wall_seq() == old(self).wall_seq(),
    {
        self.acceleration = acceleration;
    }
}

/// Relies on `rand::thread_rng` and `rand::Rng::gen_range` (rand 0.7): a
/// value drawn from `low..high`, which must not be empty.
#[verifier::external_body]
fn random_in(low: i64, high: i64) -> (r: i64)
    requires
        low < high,
    ensures
        low <= r < high,
{
    rand::Rng::gen_range(&mut rand::thread_rng(), low, high)
}

/// Radius of the disc of integer points from which directions are drawn.
const DIRECTION_RADIUS: i64 = 1024;

/// Draws of a direction before falling back to the first axis.
const DIRECTION_TRIES: u32 = 64;

/// A random velocity of speed at most `cap`: a speed drawn uniformly from
/// `0..=cap`, and a direction drawn uniformly from the non-zero integer
/// points of a disc of radius `DIRECTION_RADIUS` (by rejection from the
/// enclosing square, falling back to the first axis if every one of
/// `DIRECTION_TRIES` draws misses), scaled to that speed and rounded towards
/// zero.
fn random_velocity(cap: i64) -> (v: Vec2)
    requires
        0 <= cap <= MAX_SPEED,
    ensures
        norm_sq(v) <= cap * cap,
        within(v, cap as int),
{
    let speed = random_in(0, cap + 1);
    let mut dx: i64 = 1;
    let mut dy: i64 = 0;
    let mut found = false;
    let mut tries: u32 = 0;
    while !found && tries < DIRECTION_TRIES
        invariant
            -DIRECTION_RADIUS <= dx <= DIRECTION_RADIUS,
            -DIRECTION_RADIUS <= dy <= DIRECTION_RADIUS,
            0 < dx * dx + dy * dy,
        decreases DIRECTION_TRIES - tries,
    {
        let x = random_in(-DIRECTION_RADIUS, DIRECTION_RADIUS + 1);
        let y = random_in(-DIRECTION_RADIUS, DIRECTION_RADIUS + 1);
        proof {
            crate::ball::lemma_mul_bound(x as int, x as int, 1024, 1024);
            crate::ball::lemma_mul_bound(y as int, y as int, 1024, 1024);
        }
        let q = x * x + y * y;
        if q > 0 && q <= DIRECTION_RADIUS * DIRECTION_RADIUS {
            dx = x;
            dy = y;
            found = true;
        }
        tries += 1;
    }
    proof {
        crate::ball::lemma_mul_bound(dx as int, dx as int, 1024, 1024);
        crate::ball::lemma_mul_bound(dy as int, dy as int, 1024, 1024);
        assert(0 <= dx * dx && 0 <= dy * dy) by (nonlinear_arith);
    }
    let q = (dx * dx + dy * dy) as u128;
    let root = isqrt(q);
    proof {
        assert(root <= 2048) by (nonlinear_arith)
            requires
                root * root <= q,
                q <= 2 * 1024 * 1024,
        ;
    }
    let n: u128 = if root * root < q {
        root + 1
    } else {
        root
    };
    proof {
        assert(n * n >= q && n >= 1 && n <= 2048) by (nonlinear_arith)
            requires
                root * root <= q < (root + 1) * (root + 1),
                root * root < q ==> n == root + 1,
                root * root >= q ==> n == root,
                0 < q <= 2 * 1024 * 1024,
        ;
    }
    let ax = if dx < 0 { -dx } else { dx };
    let ay = if dy < 0 { -dy } else { dy };
    proof {
        crate::ball::lemma_mul_bound(speed as int, ax as int, 0x40_0000, 1024);
        crate::ball::lemma_mul_bound(speed as int, ay as int, 0x40_0000, 1024);
    }
    let sx = (speed as u128 * ax as u128) / n;
    let sy = (speed as u128 * ay as u128) / n;
    proof {
        assert(ax * ax == dx * dx && ay * ay == dy * dy) by (nonlinear_arith)
            requires
                ax == dx || ax == -dx,
                ay == dy || ay == -dy,
        ;
        assert(q == dx * dx + dy * dy);
        lemma_scaled_direction(speed as int, ax as int, ay as int, n as int, sx as int, sy as int);
    }
    let vx = if dx < 0 { -(sx as i64) } else { sx as i64 };
    let vy = if dy < 0 { -(sy as i64) } else { sy as i64 };
    proof {
        assert(vx * vx == sx * sx && vy * vy == sy * sy) by (nonlinear_arith)
            requires
                vx == sx || vx == -sx,
                vy == sy || vy == -sy,
        ;
        assert(speed * speed <= cap * cap) by (nonlinear_arith)
            requires
                0 <= speed <= cap,
        ;
    }
    Vec2::new(vx, vy)
}

/// A direction scaled to a speed and rounded down stays within that speed.
proof fn lemma_scaled_direction(speed: int, ax: int, ay: int, n: int, sx: int, sy: int)
    requires
        0 <= speed,
        0 <= ax,
        0 <= ay,
        n >= 1,
        n * n >= ax * ax + ay * ay,
        sx == (speed * ax) / n,
        sy == (speed * ay) / n,
    ensures
        0 <= sx <= speed,
        0 <= sy <= speed,
        sx * sx + sy * sy <= speed * speed,
{
    vstd::arithmetic::div_mod::lemma_fundamental_div_mod(speed * ax, n);
    vstd::arithmetic::div_mod::lemma_fundamental_div_mod(speed * ay, n);
    assert(0 <= speed * ax && 0 <= speed * ay) by (nonlinear_arith)
        requires
            0 <= speed,
            0 <= ax,
            0 <= ay,
    ;
    assert(0 <= sx && 0 <= sy) by (nonlinear_arith)
        requires
            n >= 1,
            speed * ax == n * sx + (speed * ax) % n,
            speed * ay == n * sy + (speed * ay) % n,
            0 <= (speed * ax) % n < n,
            0 <= (speed * ay) % n < n,
            0 <= speed * ax,
            0 <= speed * ay,
    ;
    assert(n * sx <= speed * ax && n * sy <= speed * ay);
    assert((n * sx) * (n * sx) <= (speed * ax) * (speed * ax)) by (nonlinear_arith)
        requires
            0 <= n * sx <= speed * ax,
    ;
    assert((n * sy) * (n * sy) <= (speed * ay) * (speed * ay)) by (nonlinear_arith)
        requires
            0 <= n * sy <= speed * ay,
    ;
    assert((n * sx) * (n * sx) == (n * n) * (sx * sx)) by (nonlinear_arith);
    assert((n * sy) * (n * sy) == (n * n) * (sy * sy)) by (nonlinear_arith);
    assert((speed * ax) * (speed * ax) == (speed * speed) * (ax * ax)) by (nonlinear_arith);
    assert((speed * ay) * (speed * ay) == (speed * speed) * (ay * ay)) by (nonlinear_arith);
    assert((n * n) * (sx * sx) + (n * n) * (sy * sy) == (n * n) * (sx * sx + sy * sy))
        by (nonlinear_arith);
    assert((speed * speed) * (ax * ax) + (speed * speed) * (ay * ay) == (speed * speed) * (ax * ax
        + ay * ay)) by (nonlinear_arith);
    assert((speed * speed) * (ax * ax + ay * ay) <= (speed * speed) * (n * n)) by (nonlinear_arith)
        requires
            n * n >= ax * ax + ay * ay,
    ;
    assert(sx * sx + sy * sy <= speed * speed) by (nonlinear_arith)
        requires
            n >= 1,
            (n * n) * (sx * sx + sy * sy) <= (speed * speed) * (n * n),
    ;
    assert(sx <= speed && sy <= speed) by (nonlinear_arith)
        requires
            0 <= sx,
            0 <= sy,
            sx * sx + sy * sy <= speed * speed,
            0 <= speed,
    ;
}

/// The least `s` with `s² ≥ count`, for `count > 0`.
fn grid_sides_exec(count: u64) -> (s: u64)
    requires
        count > 0,
    ensures
        s == grid_sides(count as int),
        0 < s,
        (s - 1) * (s - 1) < count <= s * s,
        s <= count,
        s <= 0x1_0000_0001,
{
    let root = isqrt(count as u128);
    proof {
        assert(root <= count) by (nonlinear_arith)
            requires
                root * root <= count,
                count > 0,
        ;
    }
    let s = if root * root < count as u128 {
        root + 1
    } else {
        root
    };
    proof {
        assert(s * s >= count && (s - 1) * (s - 1) < count && s > 0) by (nonlinear_arith)
            requires
                root * root <= count < (root + 1) * (root + 1),
                root * root < count ==> s == root + 1,
                root * root >= count ==> s == root,
                count > 0,
        ;
        assert(root <= 0x1_0000_0000) by (nonlinear_arith)
            requires
                root * root <= count,
                count <= 0xffff_ffff_ffff_ffff,
        ;
        assert(s <= count) by (nonlinear_arith)
            requires
                (s - 1) * (s - 1) < count,
                s > 0,
                count > 0,
        ;
        lemma_grid_sides_unique(count as int, s as int);
    }
    s as u64
}

proof fn lemma_grid_sides_unique(count: int, s: int)
    requires
        count > 0,
        0 < s,
        (s - 1) * (s - 1) < count <= s * s,
    ensures
        grid_sides(count) == s,
{
    assert(0 < s && square(s - 1) < count <= square(s));
    let c = choose|t: int| 0 < t && square(t - 1) < count <= #[trigger] square(t);
    assert(0 < c && (c - 1) * (c - 1) < count <= c * c);
    if c < s {
        assert(c * c <= (s - 1) * (s - 1)) by (nonlinear_arith)
            requires
                0 < c < s,
        ;
    } else if c > s {
        assert(s * s <= (c - 1) * (c - 1)) by (nonlinear_arith)
            requires
                0 < s < c,
        ;
    }
}

/// Flying backwards with turned velocities, then turning them back, is
/// flying forwards for a negative time.
proof fn lemma_turned_flight(b: Ball, dt: int)
    requires
        b.in_range(),
    ensures
        turned(moved(turned(b), -dt)) == moved(b, dt),
{
    assert((-dt) * (-b.velocity.x) == dt * b.velocity.x) by (nonlinear_arith);
    assert((-dt) * (-b.velocity.y) == dt * b.velocity.y) by (nonlinear_arith);
}

/// A velocity component times a step stays within `2^62`.
proof fn lemma_step_bound(v: int, t: int)
    requires
        -MAX_SPEED <= v <= MAX_SPEED,
        0 <= t <= MAX_STEP,
    ensures
        -0x4000_0000_0000_0000 <= t * v <= 0x4000_0000_0000_0000,
{
    crate::ball::lemma_mul_bound(t, v, 0x100_0000_0000, 0x40_0000);
}

/// Cell `i` of the grid lies within the arena, a radius clear of each wall.
proof fn lemma_grid_cell(i: int, n: int, sides: int, sx: int, sy: int, arena: Rect)
    requires
        0 <= i < n,
        0 < sides,
        (sides - 1) * (sides - 1) < n <= sides * sides,
        sx == (arena.width - 6 * DEFAULT_RADIUS) / sides,
        sy == (arena.height - 6 * DEFAULT_RADIUS) / sides,
        2 * DEFAULT_RADIUS <= sx,
        2 * DEFAULT_RADIUS <= sy,
        arena_in_range(arena),
    ensures
        0 <= i % sides < sides,
        0 <= i / sides < sides,
        0 <= (i % sides) * sx <= arena.width - 6 * DEFAULT_RADIUS - sx,
        0 <= (i / sides) * sy <= arena.height - 6 * DEFAULT_RADIUS - sy,
{
    let r = DEFAULT_RADIUS as int;
    vstd::arithmetic::div_mod::lemma_fundamental_div_mod(i, sides);
    vstd::arithmetic::div_mod::lemma_fundamental_div_mod(arena.width - 6 * r, sides);
    vstd::arithmetic::div_mod::lemma_fundamental_div_mod(arena.height - 6 * r, sides);
    let c = i % sides;
    let q = i / sides;
    assert(q >= 0) by (nonlinear_arith)
        requires
            i >= 0,
            sides > 0,
            i == sides * q + c,
            0 <= c < sides,
    ;
    assert(q < sides) by (nonlinear_arith)
        requires
            i < n <= sides * sides,
            sides > 0,
            i == sides * q + c,
            0 <= c,
    ;
    assert(0 <= c * sx <= (sides - 1) * sx) by (nonlinear_arith)
        requires
            0 <= c <= sides - 1,
            sx >= 0,
    ;
    assert(0 <= q * sy <= (sides - 1) * sy) by (nonlinear_arith)
        requires
            0 <= q <= sides - 1,
            sy >= 0,
    ;
    assert((sides - 1) * sx == sides * sx - sx && (sides - 1) * sy == sides * sy - sy)
        by (nonlinear_arith);
}

/// Two different cells of the grid are at least a diameter apart.
proof fn lemma_grid_apart(i: int, j: int, sides: int, sx: int, sy: int, r: int)
    requires
        0 <= i < j,
        0 < sides,
        0 <= r,
        2 * r <= sx,
        2 * r <= sy,
    ensures
        ({
            let dx = (i % sides) * sx - (j % sides) * sx;
            let dy = (i / sides) * sy - (j / sides) * sy;
            dx * dx + dy * dy >= (r + r) * (r + r)
        }),
{
    vstd::arithmetic::div_mod::lemma_fundamental_div_mod(i, sides);
    vstd::arithmetic::div_mod::lemma_fundamental_div_mod(j, sides);
    let (ci, cj, qi, qj) = (i % sides, j % sides, i / sides, j / sides);
    let dx = ci * sx - cj * sx;
    let dy = qi * sy - qj * sy;
    assert(dx == (ci - cj) * sx && dy == (qi - qj) * sy) by (nonlinear_arith)
        requires
            dx == ci * sx - cj * sx,
            dy == qi * sy - qj * sy,
    ;
    assert(dx * dx >= 0 && dy * dy >= 0) by (nonlinear_arith);
    if ci != cj {
        assert(dx * dx >= (r + r) * (r + r)) by (nonlinear_arith)
            requires
                dx == (ci - cj) * sx,
                ci != cj,
                0 <= r,
                2 * r <= sx,
        ;
    } else {
        assert(qi != qj) by (nonlinear_arith)
            requires
                i == sides * qi + ci,
                j == sides * qj + cj,
                ci == cj,
                i < j,
        ;
        assert(dy * dy >= (r + r) * (r + r)) by (nonlinear_arith)
            requires
                dy == (qi - qj) * sy,
                qi != qj,
                0 <= r,
                2 * r <= sy,
        ;
    }
}

} // verus!

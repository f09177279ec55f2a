//! A receiver in a wedge: two walls that meet at the origin, one along the
//! positive x axis, the other at the angle `room_arg` to it.
//!
//! The images of the source lie on the circle through the source, at the
//! angles `source_arg + 2 * room_arg * n` and `-source_arg + 2 * room_arg * n`.
//! For a receiver at polar angle `t` only those in the open window
//! `(t - PI, t + PI)` are generated, which keeps the set finite.

use vstd::prelude::*;
use crate::score::{
    ascending, at, curve_lookup, dist2, distance, in_reach, lemma_lookup_nonnegative,
    lemma_tally_nonnegative, sample_at, sample_span, sample_value, score, sort_distances, sorted,
    span_of, total_cost,
};
use crate::trig::{bearing, bearing_spec, direction, direction_spec, PI, TRIG_ONE};
use crate::units::{
    ceil_div, div_ceil, div_floor, floor_sqrt, isqrt, lemma_floor_below, lemma_quotient_bound,
    lemma_scaled_order, COORD_LIMIT, NOWHERE, OUTER,
};

verus! {

/// Largest magnitude of an angle of the room, in microradians (2^40).
pub const ANGLE_LIMIT: i64 = 1_099_511_627_776;

/// A wedge, a source in it, and the matched-filter curve of one recording.
#[derive(Debug)]
pub struct Room {
    /// Number of samples of the probe.
    pub sample_len: usize,
    /// Samples per second of the curve.
    pub signal_fs: u32,
    /// The matched-filter curve, one value per sample offset.
    pub signal: Vec<i64>,
    /// Speed of sound in micrometres per second.
    pub v_sound: u64,
    /// Angle between the walls, in microradians.
    pub room_arg: i64,
    /// Radius up to which the wedge is searched along x.
    pub room_amp: i64,
    /// Polar angle of the source, in microradians.
    pub source_arg: i64,
    /// Distance of the source from the corner.
    pub source_amp: i64,
}

impl Room {
    /// The angle between the walls is positive, and the angles and the
    /// radius of the source are within their limits.
    pub open spec fn geometry_wf(&self) -> bool {
        &&& 0 < self.room_arg <= ANGLE_LIMIT
        &&& -ANGLE_LIMIT <= self.source_arg <= ANGLE_LIMIT
        &&& 0 <= self.source_amp <= COORD_LIMIT
    }

    /// The geometry is well formed, and rate and speed are positive.
    pub open spec fn wf(&self) -> bool {
        &&& self.geometry_wf()
        &&& self.signal_fs > 0
        &&& self.v_sound > 0
    }

    /// Distance that sound travels while the probe plays.
    pub open spec fn sample_span(&self) -> int {
        span_of(self.v_sound as int, self.sample_len as int, self.signal_fs as int)
    }

    /// Spacing of the search grid: a tenth of the sample span.
    pub open spec fn min_step(&self) -> int {
        self.sample_span() / 10
    }

    /// Distances closer than this count as one arrival: half the sample
    /// span divided by the square root of two, which is the square root of
    /// an eighth of the span's square.
    pub open spec fn min_delta(&self) -> int {
        floor_sqrt((self.sample_span() * self.sample_span()) / 8)
    }

    /// The room is well formed, its search radius is within `COORD_LIMIT`,
    /// and its grid spacing is at least one micrometre and at most
    /// `COORD_LIMIT / 10`.
    pub open spec fn searchable(&self) -> bool {
        &&& self.wf()
        &&& 0 <= self.room_amp <= COORD_LIMIT
        &&& 10 <= self.sample_span() <= COORD_LIMIT
    }

    /// Whether the room can be searched.
    pub fn is_searchable(&self) -> (b: bool)
        ensures
            b == self.searchable(),
    {
        if !self.is_wf() || self.room_amp < 0 || self.room_amp > COORD_LIMIT {
            return false;
        }
        let span: u128 = sample_span(self.v_sound, self.sample_len, self.signal_fs);
        10 <= span && span <= COORD_LIMIT as u128
    }

    /// Spacing of the search grid.
    pub fn grid_step(&self) -> (step: i64)
        requires
            self.searchable(),
        ensures
            step == self.min_step(),
            1 <= step <= COORD_LIMIT,
    {
        let span: u128 = sample_span(self.v_sound, self.sample_len, self.signal_fs);
        (span / 10) as i64
    }

    /// Distance within which two arrivals count as one.
    pub fn merge_delta(&self) -> (delta: u64)
        requires
            self.searchable(),
        ensures
            delta == self.min_delta(),
    {
        let span: u128 = sample_span(self.v_sound, self.sample_len, self.signal_fs);
        assert(0 <= span * span <= COORD_LIMIT * COORD_LIMIT) by (nonlinear_arith)
            requires
                0 <= span <= COORD_LIMIT,
        ;
        isqrt(span * span / 8)
    }

    /// Whether the geometry is well formed.
    pub fn is_geometry_wf(&self) -> (b: bool)
        ensures
            b == self.geometry_wf(),
    {
        0 < self.room_arg && self.room_arg <= ANGLE_LIMIT && -ANGLE_LIMIT <= self.source_arg
            && self.source_arg <= ANGLE_LIMIT && 0 <= self.source_amp && self.source_amp
            <= COORD_LIMIT
    }

    /// Whether the room is well formed.
    pub fn is_wf(&self) -> (b: bool)
        ensures
            b == self.wf(),
    {
        self.is_geometry_wf() && self.signal_fs > 0 && self.v_sound > 0
    }
}

/// Value of the curve at a propagation distance; zero at and beyond the end of the curve.
pub fn point_cost(room: &Room, distance: u64) -> (value: i64)
    requires
        room.v_sound > 0,
    ensures
        value == sample_value(
            room.signal@,
            room.signal_fs as int,
            room.v_sound as int,
            distance as int,
        ),
        crate::score::sample_index(room.signal_fs as int, room.v_sound as int, distance as int)
            >= room.signal.len() ==> value == 0,
{
    sample_at(&room.signal, room.signal_fs, room.v_sound, distance)
}

/// Cartesian position of the point at radius `pos.0` and polar angle `pos.1`,
/// each coordinate rounded down.
pub open spec fn project_spec(pos: (int, int)) -> (int, int) {
    (
        (pos.0 * direction_spec(pos.1).0) / (TRIG_ONE as int),
        (pos.0 * direction_spec(pos.1).1) / (TRIG_ONE as int),
    )
}

/// From polar `(radius, angle)` to Cartesian `(x, y)`.
pub fn project(pos: (i64, i64)) -> (p: (i64, i64))
    requires
        -COORD_LIMIT <= pos.0 <= COORD_LIMIT,
    ensures
        at(p) == project_spec(at(pos)),
        -2 * COORD_LIMIT <= p.0 <= 2 * COORD_LIMIT,
        -2 * COORD_LIMIT <= p.1 <= 2 * COORD_LIMIT,
{
    let cs: (i64, i64) = direction(pos.1);
    let one: i128 = TRIG_ONE as i128;
    let amp: i128 = pos.0 as i128;
    let c: i128 = cs.0 as i128;
    let s: i128 = cs.1 as i128;
    proof {
        lemma_part_of_radius(amp as int, c as int);
        lemma_part_of_radius(amp as int, s as int);
    }
    let x: i128 = div_floor(amp * c, one);
    let y: i128 = div_floor(amp * s, one);
    (x as i64, y as i64)
}

/// A radius times a cosine or sine, in parts of `TRIG_ONE`, is at most twice the radius.
pub proof fn lemma_part_of_radius(amp: int, c: int)
    requires
        -COORD_LIMIT <= amp <= COORD_LIMIT,
        -2 * TRIG_ONE <= c <= 2 * TRIG_ONE,
    ensures
        -2 * COORD_LIMIT * TRIG_ONE <= amp * c <= 2 * COORD_LIMIT * TRIG_ONE,
        -2 * COORD_LIMIT <= (amp * c) / (TRIG_ONE as int) <= 2 * COORD_LIMIT,
{
    assert(-2 * COORD_LIMIT * TRIG_ONE <= amp * c <= 2 * COORD_LIMIT * TRIG_ONE)
        by (nonlinear_arith)
        requires
            -COORD_LIMIT <= amp <= COORD_LIMIT,
            -2 * TRIG_ONE <= c <= 2 * TRIG_ONE,
            COORD_LIMIT == 1_099_511_627_776,
            TRIG_ONE == 1_073_741_824,
    ;
    vstd::arithmetic::div_mod::lemma_div_is_ordered(
        amp * c,
        2 * COORD_LIMIT * TRIG_ONE,
        TRIG_ONE as int,
    );
    vstd::arithmetic::div_mod::lemma_div_is_ordered(
        -2 * COORD_LIMIT * TRIG_ONE,
        amp * c,
        TRIG_ONE as int,
    );
    vstd::arithmetic::div_mod::lemma_div_multiples_vanish(2 * COORD_LIMIT, TRIG_ONE as int);
    vstd::arithmetic::div_mod::lemma_div_multiples_vanish(-2 * COORD_LIMIT, TRIG_ONE as int);
}

/// First index of a family's window: `floor((mic_arg - PI - offset) / (2 * room_arg)) + 1`.
pub open spec fn window_min(mic_arg: int, offset: int, room_arg: int) -> int {
    (mic_arg - PI - offset) / (2 * room_arg) + 1
}

/// End of a family's window, itself not in it: `ceil((mic_arg + PI - offset) / (2 * room_arg))`.
pub open spec fn window_max(mic_arg: int, offset: int, room_arg: int) -> int {
    ceil_div(mic_arg + PI - offset, 2 * room_arg)
}

/// An index lies in a family's window exactly if the image's angle lies
/// strictly within half a turn of the receiver's: the window holds the
/// images in `(mic_arg - PI, mic_arg + PI)`, all of them and no other.
pub proof fn lemma_window_exact(mic_arg: int, offset: int, room_arg: int, n: int)
    requires
        room_arg > 0,
    ensures
        window_min(mic_arg, offset, room_arg) <= n < window_max(mic_arg, offset, room_arg) <==> mic_arg
            - PI < offset + 2 * room_arg * n < mic_arg + PI,
{
    let d = 2 * room_arg;
    lemma_floor_below(mic_arg - PI - offset, d, n);
    lemma_floor_below(-(mic_arg + PI - offset), d, -n);
    assert(n * d == 2 * room_arg * n) by (nonlinear_arith)
        requires
            d == 2 * room_arg,
    ;
    assert((-n) * d == -(2 * room_arg * n)) by (nonlinear_arith)
        requires
            d == 2 * room_arg,
    ;
}

/// A window never ends before it starts, and its bounds are no larger in
/// magnitude than the angles they come from.
pub proof fn lemma_window_bounds(mic_arg: int, offset: int, room_arg: int)
    requires
        room_arg > 0,
    ensures
        window_min(mic_arg, offset, room_arg) <= window_max(mic_arg, offset, room_arg),
        -(crate::units::magnitude(mic_arg - PI - offset)) <= window_min(mic_arg, offset, room_arg) - 1
            <= crate::units::magnitude(mic_arg - PI - offset),
        -(crate::units::magnitude(mic_arg + PI - offset)) <= window_max(mic_arg, offset, room_arg)
            <= crate::units::magnitude(mic_arg + PI - offset),
{
    let d = 2 * room_arg;
    let a = mic_arg - PI - offset;
    let b = mic_arg + PI - offset;
    let below = a / d;
    lemma_floor_below(a, d, below);
    lemma_floor_below(-b, d, -below);
    assert((-below) * d == -(below * d)) by (nonlinear_arith);
    lemma_quotient_bound(a, d);
    lemma_quotient_bound(-b, d);
}

/// The images of one family for a receiver at polar angle `mic_arg`, as
/// `(radius, angle)`, by ascending index: the angles `offset + 2 * room_arg * n`
/// for the indices `n` of the window.
pub open spec fn family(room: &Room, mic_arg: int, offset: int) -> Seq<(int, int)> {
    let lo = window_min(mic_arg, offset, room.room_arg as int);
    let hi = window_max(mic_arg, offset, room.room_arg as int);
    Seq::new(
        (hi - lo) as nat,
        |k: int| (room.source_amp as int, offset + 2 * room.room_arg * (lo + k)),
    )
}

/// A family has `window_max - window_min` images, and the angle of each
/// lies strictly within half a turn of the receiver's.
pub proof fn lemma_family_count(room: &Room, mic_arg: int, offset: int)
    requires
        room.room_arg > 0,
    ensures
        family(room, mic_arg, offset).len() == window_max(mic_arg, offset, room.room_arg as int)
            - window_min(mic_arg, offset, room.room_arg as int),
        forall|k: int|
            0 <= k < family(room, mic_arg, offset).len() ==> mic_arg - PI < (#[trigger] family(
                room,
                mic_arg,
                offset,
            )[k]).1 < mic_arg + PI,
{
    lemma_window_bounds(mic_arg, offset, room.room_arg as int);
    let lo = window_min(mic_arg, offset, room.room_arg as int);
    assert forall|k: int| 0 <= k < family(room, mic_arg, offset).len() implies mic_arg - PI < (
    #[trigger] family(room, mic_arg, offset)[k]).1 < mic_arg + PI by {
        lemma_window_exact(mic_arg, offset, room.room_arg as int, lo + k);
    }
}

/// The number of images for a receiver at polar angle `mic_arg` is the sum
/// of `window_max - window_min` over the two families.
pub proof fn lemma_image_count(room: &Room, mic_arg: int)
    requires
        room.room_arg > 0,
    ensures
        images_polar(room, mic_arg).len() == (window_max(
            mic_arg,
            room.source_arg as int,
            room.room_arg as int,
        ) - window_min(mic_arg, room.source_arg as int, room.room_arg as int)) + (window_max(
            mic_arg,
            -room.source_arg,
            room.room_arg as int,
        ) - window_min(mic_arg, -room.source_arg, room.room_arg as int)),
{
    lemma_family_count(room, mic_arg, room.source_arg as int);
    lemma_family_count(room, mic_arg, -room.source_arg);
}

/// All images for a receiver at polar angle `mic_arg`: the family that
/// starts from `source_arg`, then the one that starts from `-source_arg`.
pub open spec fn images_polar(room: &Room, mic_arg: int) -> Seq<(int, int)> {
    family(room, mic_arg, room.source_arg as int) + family(room, mic_arg, -room.source_arg)
}

fn push_family(sources: &mut Vec<(i64, i64)>, room: &Room, mic_arg: i64, offset: i64)
    requires
        room.geometry_wf(),
        -PI <= mic_arg <= PI,
        -ANGLE_LIMIT <= offset <= ANGLE_LIMIT,
    ensures
        final(sources).len() == old(sources).len() + family(room, mic_arg as int, offset as int).len(),
        forall|k: int|
            0 <= k < old(sources).len() ==> (#[trigger] final(sources)[k]) == old(sources)[k],
        forall|k: int|
            old(sources).len() <= k < final(sources).len() ==> at(#[trigger] final(sources)[k])
                == family(room, mic_arg as int, offset as int)[k - old(sources).len()],
        forall|k: int|
            old(sources).len() <= k < final(sources).len() ==> 0 <= (#[trigger] final(sources)[k]).0
                <= COORD_LIMIT,
{
    let d: i128 = 2 * (room.room_arg as i128);
    let below: i128 = div_floor(mic_arg as i128 - PI as i128 - offset as i128, d);
    let hi: i128 = div_ceil(mic_arg as i128 + PI as i128 - offset as i128, d);
    proof {
        lemma_window_bounds(mic_arg as int, offset as int, room.room_arg as int);
    }
    let lo: i128 = below + 1;
    let ghost start = sources.len();
    let ghost fam = family(room, mic_arg as int, offset as int);
    let mut n: i128 = lo;
    while n < hi
        invariant
            room.geometry_wf(),
            -PI <= mic_arg <= PI,
            -ANGLE_LIMIT <= offset <= ANGLE_LIMIT,
            d == 2 * room.room_arg,
            lo == window_min(mic_arg as int, offset as int, room.room_arg as int),
            hi == window_max(mic_arg as int, offset as int, room.room_arg as int),
            lo <= n <= hi,
            -0x400_0000_0000_0000 <= lo,
            hi <= 0x400_0000_0000_0000,
            fam == family(room, mic_arg as int, offset as int),
            start == old(sources).len(),
            sources.len() == start + (n - lo),
            forall|k: int| 0 <= k < start ==> (#[trigger] sources[k]) == old(sources)[k],
            forall|k: int|
                start <= k < sources.len() ==> at(#[trigger] sources[k]) == fam[k - start],
            forall|k: int|
                start <= k < sources.len() ==> 0 <= (#[trigger] sources[k]).0 <= COORD_LIMIT,
        decreases hi - n,
    {
        proof {
            lemma_window_exact(mic_arg as int, offset as int, room.room_arg as int, n as int);
            assert(d * n == 2 * room.room_arg * n) by (nonlinear_arith)
                requires
                    d == 2 * room.room_arg,
            ;
            assert(2 * room.room_arg * n == 2 * room.room_arg * (lo + (n - lo)));
        }
        let angle: i128 = offset as i128 + d * n;
        sources.push((room.source_amp, angle as i64));
        n = n + 1;
    }
}

/// Images of the source that a receiver at `mic` can see, as `(radius, angle)`.
pub fn virtual_sources(room: &Room, mic: &(i64, i64)) -> (sources: Vec<(i64, i64)>)
    requires
        room.geometry_wf(),
    ensures
        sources.len() == images_polar(room, bearing_spec(mic.0 as int, mic.1 as int)).len(),
        forall|k: int|
            0 <= k < sources.len() ==> at(#[trigger] sources[k]) == images_polar(
                room,
                bearing_spec(mic.0 as int, mic.1 as int),
            )[k],
        forall|k: int| 0 <= k < sources.len() ==> 0 <= (#[trigger] sources[k]).0 <= COORD_LIMIT,
{
    let mic_arg: i64 = bearing(mic.0, mic.1);
    let mut sources: Vec<(i64, i64)> = Vec::new();
    push_family(&mut sources, room, mic_arg, room.source_arg);
    push_family(&mut sources, room, mic_arg, -room.source_arg);
    sources
}

/// Distance from the receiver to every image, in the order of the images.
pub open spec fn raw_distances(room: &Room, mic: (int, int)) -> Seq<u64> {
    let images = images_polar(room, bearing_spec(mic.0, mic.1));
    Seq::new(images.len(), |k: int| distance(mic, project_spec(images[k])) as u64)
}

/// Distance from the receiver to every image, in ascending order.
pub open spec fn distances_spec(room: &Room, mic: (int, int)) -> Seq<u64> {
    sorted(raw_distances(room, mic))
}

/// Distance from the receiver at `mic` to every image that it can see, in ascending order.
pub fn sound_distances(room: &Room, mic: &(i64, i64)) -> (distances: Vec<u64>)
    requires
        room.geometry_wf(),
        in_reach(*mic),
    ensures
        distances@ == distances_spec(room, at(*mic)),
        ascending(distances@),
        distances.len() == images_polar(room, bearing_spec(mic.0 as int, mic.1 as int)).len(),
{
    let sources: Vec<(i64, i64)> = virtual_sources(room, mic);
    let ghost images = images_polar(room, bearing_spec(mic.0 as int, mic.1 as int));
    let mut raw: Vec<u64> = Vec::new();
    let mut k: usize = 0;
    while k < sources.len()
        invariant
            k <= sources.len(),
            raw.len() == k,
            in_reach(*mic),
            images == images_polar(room, bearing_spec(mic.0 as int, mic.1 as int)),
            sources.len() == images.len(),
            forall|i: int| 0 <= i < sources.len() ==> at(#[trigger] sources[i]) == images[i],
            forall|i: int|
                0 <= i < sources.len() ==> 0 <= (#[trigger] sources[i]).0 <= COORD_LIMIT,
            forall|i: int|
                0 <= i < k ==> (#[trigger] raw[i]) == distance(at(*mic), project_spec(images[i])),
        decreases sources.len() - k,
    {
        let image: (i64, i64) = project(sources[k]);
        let d: u64 = dist2(mic, &image);
        raw.push(d);
        k = k + 1;
    }
    assert(raw@ =~= raw_distances(room, at(*mic)));
    sort_distances(raw)
}

/// Score of a receiver position: the sum of the curve at its sorted image
/// distances, a distance within `min_delta` of the one before it left out.
pub open spec fn cost_spec(room: &Room, mic: (int, int), min_delta: int) -> int {
    total_cost(
        distances_spec(room, mic),
        min_delta,
        curve_lookup(room.signal@, room.signal_fs as int, room.v_sound as int),
    )
}

/// Score of the receiver position `mic`. It is not negative if no sample of the curve is.
pub fn cost(room: &Room, mic: &(i64, i64), min_delta: u64) -> (total: i128)
    requires
        room.wf(),
        in_reach(*mic),
    ensures
        total == cost_spec(room, at(*mic), min_delta as int),
        (forall|i: int| 0 <= i < room.signal.len() ==> room.signal[i] >= 0) ==> total >= 0,
{
    let distances: Vec<u64> = sound_distances(room, mic);
    proof {
        if forall|i: int| 0 <= i < room.signal.len() ==> room.signal[i] >= 0 {
            lemma_lookup_nonnegative(room.signal@, room.signal_fs as int, room.v_sound as int);
            lemma_tally_nonnegative(
                distances@,
                min_delta as int,
                curve_lookup(room.signal@, room.signal_fs as int, room.v_sound as int),
                distances.len() as int,
            );
        }
    }
    score(&distances, &room.signal, room.signal_fs, room.v_sound, min_delta)
}

/// Whether the grid point `(xi, yi)` keeps clear of the wall at `room_arg`.
/// With `(c, s)` the cosine and sine of `room_arg`: in an acute wedge the
/// point one row higher lies below the wall, `(yi + 1) * c < xi * s`; in an
/// obtuse one the point itself lies on the inner side, `yi * c < xi * s`.
pub open spec fn inside_wall(room: &Room, xi: int, yi: int) -> bool {
    let c = direction_spec(room.room_arg as int).0;
    let s = direction_spec(room.room_arg as int).1;
    if 2 * room.room_arg < PI {
        (yi + 1) * c < xi * s
    } else {
        yi * c < xi * s
    }
}

/// Whether `(xi, yi)` indexes a candidate of the search grid, the point
/// `(xi * min_step, yi * min_step)`: `x` from the last grid line at or
/// before `-room_amp` to below `room_amp`, `y` above the wall on the axis,
/// the point one row higher within `outer` of the corner, and the point
/// clear of the other wall.
pub open spec fn on_lattice(room: &Room, outer: int, xi: int, yi: int) -> bool {
    &&& (xi + 1) * room.min_step() > -room.room_amp
    &&& xi * room.min_step() < room.room_amp
    &&& 1 <= yi
    &&& (xi * room.min_step()) * (xi * room.min_step()) + ((yi + 1) * room.min_step()) * ((yi
        + 1) * room.min_step()) <= outer * outer
    &&& inside_wall(room, xi, yi)
}

/// The candidate position with grid indices `(xi, yi)`.
pub open spec fn candidate(room: &Room, xi: int, yi: int) -> (int, int) {
    (xi * room.min_step(), yi * room.min_step())
}

/// Score of the candidate with grid indices `(xi, yi)`.
pub open spec fn grid_cost(room: &Room, xi: int, yi: int) -> int {
    cost_spec(room, candidate(room, xi, yi), room.min_delta())
}

/// The search visits `(xj, yj)` before `(xi, yi)`: column by column, and up each column.
pub open spec fn before(xj: int, yj: int, xi: int, yi: int) -> bool {
    xj < xi || (xj == xi && yj < yi)
}

/// Among the candidates visited before `(xi, yi)`, the one at `(bx, by)`
/// has the highest score, and is the first with that score.
pub open spec fn leads(room: &Room, outer: int, bx: int, by: int, xi: int, yi: int) -> bool {
    &&& on_lattice(room, outer, bx, by)
    &&& before(bx, by, xi, yi)
    &&& forall|xj: int, yj: int| #[trigger]
        on_lattice(room, outer, xj, yj) && before(xj, yj, xi, yi) ==> {
            &&& grid_cost(room, xj, yj) <= grid_cost(room, bx, by)
            &&& before(xj, yj, bx, by) ==> grid_cost(room, xj, yj) < grid_cost(room, bx, by)
        }
}

/// No candidate is visited before `(xi, yi)`.
pub open spec fn none_before(room: &Room, outer: int, xi: int, yi: int) -> bool {
    forall|xj: int, yj: int| #[trigger] on_lattice(room, outer, xj, yj) ==> !before(xj, yj, xi, yi)
}

/// Of all candidates, the one at `(bx, by)` has the highest score, and every
/// candidate visited before it has a strictly lower one.
pub open spec fn first_best(room: &Room, outer: int, bx: int, by: int) -> bool {
    &&& on_lattice(room, outer, bx, by)
    &&& forall|xj: int, yj: int| #[trigger]
        on_lattice(room, outer, xj, yj) ==> {
            &&& grid_cost(room, xj, yj) <= grid_cost(room, bx, by)
            &&& before(xj, yj, bx, by) ==> grid_cost(room, xj, yj) < grid_cost(room, bx, by)
        }
}

/// At most one candidate is the first with the highest score: the two
/// clauses of `first_best` determine the answer of a search.
pub proof fn lemma_first_best_unique(room: &Room, outer: int, ax: int, ay: int, bx: int, by: int)
    requires
        first_best(room, outer, ax, ay),
        first_best(room, outer, bx, by),
    ensures
        ax == bx,
        ay == by,
{
    assert(on_lattice(room, outer, ax, ay) && on_lattice(room, outer, bx, by));
    assert(grid_cost(room, ax, ay) <= grid_cost(room, bx, by));
    assert(grid_cost(room, bx, by) <= grid_cost(room, ax, ay));
    assert(!before(ax, ay, bx, by));
    assert(!before(bx, by, ax, ay));
}

/// A leg of a right triangle is no longer than the hypotenuse.
pub proof fn lemma_leg_within(a: int, b: int, r: int)
    requires
        0 <= b,
        0 <= r,
        a * a + b * b <= r * r,
    ensures
        b <= r,
{
    assert(b <= r) by (nonlinear_arith)
        requires
            0 <= b,
            0 <= r,
            a * a + b * b <= r * r,
    ;
}

/// A whole number of positive steps is at least as large as the number itself.
pub proof fn lemma_steps_cover(n: int, step: int)
    requires
        0 <= n,
        1 <= step,
    ensures
        n <= n * step,
{
    assert(n <= n * step) by (nonlinear_arith)
        requires
            0 <= n,
            1 <= step,
    ;
}

fn is_candidate(
    room: &Room,
    outer: i64,
    wall: (i64, i64),
    step: i64,
    xi: i64,
    yi: i64,
    x: i64,
    above: i64,
) -> (ok: bool)
    requires
        room.searchable(),
        0 <= outer <= COORD_LIMIT,
        step == room.min_step(),
        wall.0 == direction_spec(room.room_arg as int).0,
        wall.1 == direction_spec(room.room_arg as int).1,
        -0x400_0000_0000 <= wall.0 <= 0x400_0000_0000,
        -0x400_0000_0000 <= wall.1 <= 0x400_0000_0000,
        x == xi * step,
        above == (yi + 1) * step,
        -2 * COORD_LIMIT <= x < room.room_amp,
        (xi + 1) * step > -room.room_amp,
        -2 * COORD_LIMIT <= xi <= COORD_LIMIT,
        1 <= yi <= outer,
        0 <= above <= outer,
    ensures
        ok == on_lattice(room, outer as int, xi as int, yi as int),
{
    assert(0 <= x * x <= 4 * COORD_LIMIT * COORD_LIMIT && 0 <= above * above <= COORD_LIMIT
        * COORD_LIMIT && 0 <= outer * outer <= COORD_LIMIT * COORD_LIMIT) by (nonlinear_arith)
        requires
            -2 * COORD_LIMIT <= x <= 2 * COORD_LIMIT,
            0 <= above <= COORD_LIMIT,
            0 <= outer <= COORD_LIMIT,
            COORD_LIMIT == 1_099_511_627_776,
    ;
    let far: i128 = (x as i128) * (x as i128) + (above as i128) * (above as i128);
    if far > (outer as i128) * (outer as i128) {
        return false;
    }
    let c: i128 = wall.0 as i128;
    let s: i128 = wall.1 as i128;
    let row: i128 = if 2 * room.room_arg < PI {
        yi as i128 + 1
    } else {
        yi as i128
    };
    assert(-0x1000_0000_0000_0000_0000_0000 <= row * c <= 0x1000_0000_0000_0000_0000_0000
        && -0x1000_0000_0000_0000_0000_0000 <= xi * s <= 0x1000_0000_0000_0000_0000_0000)
        by (nonlinear_arith)
        requires
            0 <= row <= 0x400_0000_0000,
            -0x400_0000_0000 <= c <= 0x400_0000_0000,
            -0x400_0000_0000 <= s <= 0x400_0000_0000,
            -0x400_0000_0000 <= xi <= 0x400_0000_0000,
    ;
    row * c < (xi as i128) * s
}

/// The receiver position with the highest score among the candidates of the
/// grid within `outer` of the corner; of several candidates with that score
/// the one visited first. Without any candidate, and only then, the answer
/// is `(NOWHERE, NOWHERE)`.
pub fn localize_within(room: &Room, outer: i64) -> (guess: (i64, i64))
    requires
        room.searchable(),
        0 <= outer <= COORD_LIMIT,
    ensures
        (forall|xi: int, yi: int| !on_lattice(room, outer as int, xi, yi)) <==> guess == (
            NOWHERE,
            NOWHERE,
        ),
        (exists|xi: int, yi: int| on_lattice(room, outer as int, xi, yi)) ==> exists|
            xi: int,
            yi: int,
        | #[trigger]
            first_best(room, outer as int, xi, yi) && at(guess) == candidate(room, xi, yi),
{
    let step: i64 = room.grid_step();
    let min_delta: u64 = room.merge_delta();
    let wall: (i64, i64) = direction(room.room_arg);
    let first: i128 = div_floor(-(room.room_amp as i128), step as i128);
    proof {
        lemma_quotient_bound(-(room.room_amp as int), step as int);
        lemma_floor_below(-(room.room_amp as int), step as int, first as int);
        lemma_floor_below(-(room.room_amp as int), step as int, first as int + 1);
        assert((first + 1) * step == first * step + step) by (nonlinear_arith);
    }
    let start: i128 = first * (step as i128);
    let mut guess: (i64, i64) = (NOWHERE, NOWHERE);
    let mut best: i128 = 0;
    let mut found: bool = false;
    let ghost far = outer as int;
    let ghost mut bx: int = 0;
    let ghost mut by: int = 0;
    let mut xi: i64 = first as i64;
    let mut x: i64 = start as i64;
    proof {
        assert forall|xj: int, yj: int| #[trigger] on_lattice(room, far, xj, yj) implies xj
            >= first by {
            lemma_floor_below(-(room.room_amp as int), step as int, xj + 1);
        }
    }
    while x < room.room_amp
        invariant
            room.searchable(),
            0 <= outer <= COORD_LIMIT,
            far == outer,
            step == room.min_step(),
            min_delta == room.min_delta(),
            1 <= step <= COORD_LIMIT,
            wall.0 == direction_spec(room.room_arg as int).0,
            wall.1 == direction_spec(room.room_arg as int).1,
            -TRIG_ONE <= wall.0 <= TRIG_ONE,
            -2 * TRIG_ONE <= wall.1 <= 2 * TRIG_ONE,
            x == xi * step,
            -2 * COORD_LIMIT <= x,
            -COORD_LIMIT <= xi <= COORD_LIMIT,
            (xi + 1) * step > -room.room_amp,
            !found ==> none_before(room, far, xi as int, 1) && guess == (NOWHERE, NOWHERE),
            found ==> leads(room, far, bx, by, xi as int, 1) && best == grid_cost(room, bx, by)
                && at(guess) == candidate(room, bx, by),
        decreases room.room_amp + step - x,
    {
        let mut yi: i64 = 1;
        let mut above: i64 = 2 * step;
        proof {
            assert((1 + 1) * step == 2 * step) by (nonlinear_arith);
            if xi >= 0 {
                lemma_steps_cover(xi as int, step as int);
            }
        }
        while above <= outer
            invariant
                room.searchable(),
                0 <= outer <= COORD_LIMIT,
                far == outer,
                step == room.min_step(),
                min_delta == room.min_delta(),
                1 <= step <= COORD_LIMIT,
                wall.0 == direction_spec(room.room_arg as int).0,
                wall.1 == direction_spec(room.room_arg as int).1,
                -TRIG_ONE <= wall.0 <= TRIG_ONE,
                -2 * TRIG_ONE <= wall.1 <= 2 * TRIG_ONE,
                x == xi * step,
                -2 * COORD_LIMIT <= x < room.room_amp,
                -COORD_LIMIT <= xi < COORD_LIMIT,
                (xi + 1) * step > -room.room_amp,
                1 <= yi,
                above == (yi + 1) * step,
                0 <= above <= outer + 2 * step,
                !found ==> none_before(room, far, xi as int, yi as int) && guess == (
                    NOWHERE,
                    NOWHERE,
                ),
                found ==> leads(room, far, bx, by, xi as int, yi as int) && best == grid_cost(
                    room,
                    bx,
                    by,
                ) && at(guess) == candidate(room, bx, by),
            decreases outer + step - above,
        {
            proof {
                lemma_steps_cover(yi as int + 1, step as int);
                assert((yi + 1) * step == yi * step + step) by (nonlinear_arith);
                assert((yi + 2) * step == (yi + 1) * step + step) by (nonlinear_arith);
            }
            if is_candidate(room, outer, wall, step, xi, yi, x, above) {
                let mic: (i64, i64) = (x, above - step);
                let c: i128 = cost(room, &mic, min_delta);
                assert(c == grid_cost(room, xi as int, yi as int));
                if !found || c > best {
                    guess = mic;
                    best = c;
                    found = true;
                    proof {
                        bx = xi as int;
                        by = yi as int;
                    }
                }
            }
            yi = yi + 1;
            above = above + step;
        }
        proof {
            assert forall|xj: int, yj: int| #[trigger]
                on_lattice(room, far, xj, yj) && xj == xi implies yj < yi by {
                lemma_steps_cover(yj + 1, step as int);
                lemma_leg_within(xj * step, (yj + 1) * step, far);
                lemma_scaled_order(yj + 1, yi + 1, step as int);
            }
            assert((xi + 1) * step == xi * step + step) by (nonlinear_arith);
            assert((xi + 2) * step == (xi + 1) * step + step) by (nonlinear_arith);
        }
        xi = xi + 1;
        x = x + step;
    }
    proof {
        assert forall|xj: int, yj: int| #[trigger] on_lattice(room, far, xj, yj) implies xj
            < xi by {
            lemma_scaled_order(xj, xi as int, step as int);
        }
        if exists|xj: int, yj: int| on_lattice(room, far, xj, yj) {
            let (xj, yj) = choose|xj: int, yj: int| on_lattice(room, far, xj, yj);
            assert(before(xj, yj, xi as int, 1));
            assert(found);
            assert(first_best(room, far, bx, by));
        }
        if found {
            assert(on_lattice(room, far, bx, by));
            assert(by * step >= 1) by (nonlinear_arith)
                requires
                    by >= 1,
                    step >= 1,
            ;
        }
    }
    guess
}

/// The receiver position with the highest score among the candidates of the
/// grid within `OUTER` of the corner; of several candidates with that score
/// the one visited first. Without any candidate, and only then, the answer
/// is `(NOWHERE, NOWHERE)`.
pub fn localize(room: &Room) -> (guess: (i64, i64))
    requires
        room.searchable(),
    ensures
        (forall|xi: int, yi: int| !on_lattice(room, OUTER as int, xi, yi)) <==> guess == (
            NOWHERE,
            NOWHERE,
        ),
        (exists|xi: int, yi: int| on_lattice(room, OUTER as int, xi, yi)) ==> exists|
            xi: int,
            yi: int,
        | #[trigger]
            first_best(room, OUTER as int, xi, yi) && at(guess) == candidate(room, xi, yi),
{
    localize_within(room, OUTER)
}

} // verus!

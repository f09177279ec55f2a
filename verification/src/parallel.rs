//! A receiver between two parallel walls.
//!
//! The walls stand at `x = 0` and `x = width`, the source on the axis
//! `y = 0`. Its images lie on that axis in two families, one for an odd and
//! one for an even number of reflections.

use vstd::prelude::*;
use crate::score::{
    ascending, at, curve_lookup, dist2, distance, in_reach, lemma_lookup_nonnegative,
    lemma_tally_nonnegative, sample_at, sample_index, sample_span, sample_value, score,
    sort_distances, sorted, span_of, total_cost,
};
use crate::units::{lemma_scaled_order, COORD_LIMIT, NOWHERE, OUTER};

verus! {

/// Reflection order that the search uses.
pub const MAX_ORDER: usize = 3;

/// Largest reflection order for which images are generated.
pub const ORDER_LIMIT: usize = 1_000_000;

/// Two parallel walls, a source between them, and the matched-filter curve of one recording.
#[derive(Debug)]
pub struct Room {
    /// Number of samples of the probe.
    pub sample_len: usize,
    /// Samples per second of the curve.
    pub signal_fs: u32,
    /// The matched-filter curve, one value per sample offset.
    pub signal: Vec<i64>,
    /// Speed of sound in micrometres per second.
    pub v_sound: u64,
    /// Distance between the walls.
    pub width: i64,
    /// Distance of the source from the wall at `x = 0`.
    pub source_x: i64,
}

impl Room {
    /// The source stands strictly between the walls, which are at most
    /// `COORD_LIMIT` apart.
    pub open spec fn geometry_wf(&self) -> bool {
        0 < self.source_x < self.width <= COORD_LIMIT
    }

    /// The geometry is well formed, and rate and speed are positive.
    pub open spec fn wf(&self) -> bool {
        &&& self.geometry_wf()
        &&& self.signal_fs > 0
        &&& self.v_sound > 0
    }

    /// Distance that sound travels while the probe plays.
    pub open spec fn sample_span(&self) -> int {
        span_of(self.v_sound as int, self.sample_len as int, self.signal_fs as int)
    }

    /// Spacing of the search grid: a tenth of the sample span.
    pub open spec fn min_step(&self) -> int {
        self.sample_span() / 10
    }

    /// Distances closer than this count as one arrival: half the sample span.
    pub open spec fn min_delta(&self) -> int {
        self.sample_span() / 2
    }

    /// The room is well formed and its grid spacing is at least one
    /// micrometre and at most `COORD_LIMIT / 10`.
    pub open spec fn searchable(&self) -> bool {
        self.wf() && 10 <= self.sample_span() <= COORD_LIMIT
    }

    /// Spacing of the search grid.
    pub fn grid_step(&self) -> (step: i64)
        requires
            self.searchable(),
        ensures
            step == self.min_step(),
            1 <= step <= COORD_LIMIT,
    {
        let span: u128 = sample_span(self.v_sound, self.sample_len, self.signal_fs);
        (span / 10) as i64
    }

    /// Distance within which two arrivals count as one.
    pub fn merge_delta(&self) -> (delta: u64)
        requires
            self.searchable(),
        ensures
            delta == self.min_delta(),
    {
        let span: u128 = sample_span(self.v_sound, self.sample_len, self.signal_fs);
        (span / 2) as u64
    }

    /// Whether the geometry is well formed.
    pub fn is_geometry_wf(&self) -> (b: bool)
        ensures
            b == self.geometry_wf(),
    {
        0 < self.source_x && self.source_x < self.width && self.width <= COORD_LIMIT
    }

    /// Whether the room is well formed.
    pub fn is_wf(&self) -> (b: bool)
        ensures
            b == self.wf(),
    {
        self.is_geometry_wf() && self.signal_fs > 0 && self.v_sound > 0
    }

    /// Whether the room can be searched.
    pub fn is_searchable(&self) -> (b: bool)
        ensures
            b == self.searchable(),
    {
        if !self.is_wf() {
            return false;
        }
        let span: u128 = sample_span(self.v_sound, self.sample_len, self.signal_fs);
        10 <= span && span <= COORD_LIMIT as u128
    }
}

/// Value of the curve at a propagation distance; zero at and beyond the end of the curve.
pub fn point_cost(room: &Room, distance: u64) -> (value: i64)
    requires
        room.v_sound > 0,
    ensures
        value == sample_value(
            room.signal@,
            room.signal_fs as int,
            room.v_sound as int,
            distance as int,
        ),
        sample_index(room.signal_fs as int, room.v_sound as int, distance as int)
            >= room.signal.len() ==> value == 0,
{
    sample_at(&room.signal, room.signal_fs, room.v_sound, distance)
}

/// Number of images of the odd family on each side: `ceil((max_order + 1) / 2)`.
pub open spec fn odd_terms(max_order: int) -> int {
    (max_order + 2) / 2
}

/// Number of images of the even family on each side, the source included: `floor(max_order / 2) + 1`.
pub open spec fn even_terms(max_order: int) -> int {
    max_order / 2 + 1
}

/// Number of images: `n` from `1 - odd_terms` to `odd_terms` in the odd
/// family, from `1 - even_terms` to `even_terms - 1` in the even one.
pub open spec fn image_count(max_order: int) -> int {
    2 * odd_terms(max_order) + 2 * even_terms(max_order) - 1
}

/// Abscissa of the `k`-th image: first the odd family, `-source_x + 2 * width * n`,
/// then the even family, `source_x + 2 * width * n`, each by ascending `n`.
pub open spec fn image_x(room: &Room, max_order: int, k: int) -> int {
    let odd = odd_terms(max_order);
    let even = even_terms(max_order);
    if k < 2 * odd {
        -room.source_x + 2 * room.width * (k - odd + 1)
    } else {
        room.source_x + 2 * room.width * (k - 2 * odd - even + 1)
    }
}

/// Images of the source in the two walls, up to `max_order` reflections.
/// They do not depend on the receiver.
pub fn virtual_sources(room: &Room, _mic: &(i64, i64), max_order: usize) -> (sources: Vec<(i64, i64)>)
    requires
        room.geometry_wf(),
        max_order <= ORDER_LIMIT,
    ensures
        sources.len() == image_count(max_order as int),
        forall|k: int|
            0 <= k < sources.len() ==> (#[trigger] sources[k]).0 == image_x(
                room,
                max_order as int,
                k,
            ) && sources[k].1 == 0 && in_reach(sources[k]),
{
    let odd: i64 = (max_order as i64 + 2) / 2;
    let even: i64 = max_order as i64 / 2 + 1;
    let mut sources: Vec<(i64, i64)> = Vec::new();
    let mut n: i64 = 1 - odd;
    while n <= odd
        invariant
            room.geometry_wf(),
            max_order <= ORDER_LIMIT,
            odd == odd_terms(max_order as int),
            1 - odd <= n <= odd + 1,
            sources.len() == n - (1 - odd),
            forall|k: int|
                0 <= k < sources.len() ==> (#[trigger] sources[k]).0 == image_x(
                    room,
                    max_order as int,
                    k,
                ) && sources[k].1 == 0 && in_reach(sources[k]),
        decreases odd + 1 - n,
    {
        assert(-1_099_511_627_776 * 1_000_004 <= 2 * room.width * n <= 1_099_511_627_776
            * 1_000_004) by (nonlinear_arith)
            requires
                0 < room.width <= 1_099_511_627_776,
                -500_001 <= n <= 500_001,
        ;
        let x: i64 = -room.source_x + 2 * room.width * n;
        sources.push((x, 0));
        n = n + 1;
    }
    let mut n: i64 = 1 - even;
    while n < even
        invariant
            room.geometry_wf(),
            max_order <= ORDER_LIMIT,
            odd == odd_terms(max_order as int),
            even == even_terms(max_order as int),
            1 - even <= n <= even,
            sources.len() == 2 * odd + n - (1 - even),
            forall|k: int|
                0 <= k < sources.len() ==> (#[trigger] sources[k]).0 == image_x(
                    room,
                    max_order as int,
                    k,
                ) && sources[k].1 == 0 && in_reach(sources[k]),
        decreases even - n,
    {
        assert(-1_099_511_627_776 * 1_000_004 <= 2 * room.width * n <= 1_099_511_627_776
            * 1_000_004) by (nonlinear_arith)
            requires
                0 < room.width <= 1_099_511_627_776,
                -500_001 <= n <= 500_001,
        ;
        let x: i64 = room.source_x + 2 * room.width * n;
        sources.push((x, 0));
        n = n + 1;
    }
    sources
}

/// Distance from the receiver to every image, in the order of the images.
pub open spec fn raw_distances(room: &Room, mic: (int, int), max_order: int) -> Seq<u64> {
    Seq::new(
        image_count(max_order) as nat,
        |k: int| distance(mic, (image_x(room, max_order, k), 0)) as u64,
    )
}

/// Distance from the receiver to every image, in ascending order.
pub open spec fn distances_spec(room: &Room, mic: (int, int), max_order: int) -> Seq<u64> {
    sorted(raw_distances(room, mic, max_order))
}

/// Distance from the receiver at `mic` to every image of the source, in ascending order.
pub fn sound_distances(room: &Room, mic: &(i64, i64), max_order: usize) -> (distances: Vec<u64>)
    requires
        room.geometry_wf(),
        in_reach(*mic),
        max_order <= ORDER_LIMIT,
    ensures
        distances@ == distances_spec(room, at(*mic), max_order as int),
        ascending(distances@),
        distances.len() == image_count(max_order as int),
{
    let sources: Vec<(i64, i64)> = virtual_sources(room, mic, max_order);
    let mut raw: Vec<u64> = Vec::new();
    let mut k: usize = 0;
    while k < sources.len()
        invariant
            k <= sources.len(),
            raw.len() == k,
            in_reach(*mic),
            sources.len() == image_count(max_order as int),
            forall|i: int|
                0 <= i < sources.len() ==> (#[trigger] sources[i]).0 == image_x(
                    room,
                    max_order as int,
                    i,
                ) && sources[i].1 == 0 && in_reach(sources[i]),
            forall|i: int|
                0 <= i < k ==> (#[trigger] raw[i]) == distance(
                    at(*mic),
                    (image_x(room, max_order as int, i), 0),
                ),
        decreases sources.len() - k,
    {
        let d: u64 = dist2(mic, &sources[k]);
        raw.push(d);
        k = k + 1;
    }
    assert(raw@ =~= raw_distances(room, at(*mic), max_order as int));
    sort_distances(raw)
}

/// Score of a receiver position: the sum of the curve at its sorted image
/// distances, a distance within `min_delta` of the one before it left out.
pub open spec fn cost_spec(room: &Room, mic: (int, int), max_order: int, min_delta: int) -> int {
    total_cost(
        distances_spec(room, mic, max_order),
        min_delta,
        curve_lookup(room.signal@, room.signal_fs as int, room.v_sound as int),
    )
}

/// Score of the receiver position `mic`. It is not negative if no sample of the curve is.
pub fn cost(room: &Room, mic: &(i64, i64), max_order: usize, min_delta: u64) -> (total: i128)
    requires
        room.wf(),
        in_reach(*mic),
        max_order <= ORDER_LIMIT,
    ensures
        total == cost_spec(room, at(*mic), max_order as int, min_delta as int),
        (forall|i: int| 0 <= i < room.signal.len() ==> room.signal[i] >= 0) ==> total >= 0,
{
    let distances: Vec<u64> = sound_distances(room, mic, max_order);
    proof {
        if forall|i: int| 0 <= i < room.signal.len() ==> room.signal[i] >= 0 {
            lemma_lookup_nonnegative(room.signal@, room.signal_fs as int, room.v_sound as int);
            lemma_tally_nonnegative(
                distances@,
                min_delta as int,
                curve_lookup(room.signal@, room.signal_fs as int, room.v_sound as int),
                distances.len() as int,
            );
        }
    }
    score(&distances, &room.signal, room.signal_fs, room.v_sound, min_delta)
}

/// Whether `(xi, yi)` indexes a candidate of the search grid: the point
/// `(xi * min_step, yi * min_step)` with `min_step <= x < width` and `0 <= y < outer`.
pub open spec fn on_lattice(room: &Room, outer: int, xi: int, yi: int) -> bool {
    &&& 1 <= xi
    &&& xi * room.min_step() < room.width
    &&& 0 <= yi
    &&& yi * room.min_step() < outer
}

/// The candidate position with grid indices `(xi, yi)`.
pub open spec fn candidate(room: &Room, xi: int, yi: int) -> (int, int) {
    (xi * room.min_step(), yi * room.min_step())
}

/// Score of the candidate with grid indices `(xi, yi)`.
pub open spec fn grid_cost(room: &Room, max_order: int, xi: int, yi: int) -> int {
    cost_spec(room, candidate(room, xi, yi), max_order, room.min_delta())
}

/// The search visits `(xj, yj)` before `(xi, yi)`: row by row, and along each row by ascending `x`.
pub open spec fn before(xj: int, yj: int, xi: int, yi: int) -> bool {
    yj < yi || (yj == yi && xj < xi)
}

/// Among the candidates visited before `(xi, yi)`, the one at `(bx, by)`
/// has the highest score, and is the first with that score.
pub open spec fn leads(
    room: &Room,
    max_order: int,
    outer: int,
    bx: int,
    by: int,
    xi: int,
    yi: int,
) -> bool {
    &&& on_lattice(room, outer, bx, by)
    &&& before(bx, by, xi, yi)
    &&& forall|xj: int, yj: int| #[trigger]
        on_lattice(room, outer, xj, yj) && before(xj, yj, xi, yi) ==> {
            &&& grid_cost(room, max_order, xj, yj) <= grid_cost(room, max_order, bx, by)
            &&& before(xj, yj, bx, by) ==> grid_cost(room, max_order, xj, yj) < grid_cost(
                room,
                max_order,
                bx,
                by,
            )
        }
}

/// No candidate is visited before `(xi, yi)`.
pub open spec fn none_before(room: &Room, outer: int, xi: int, yi: int) -> bool {
    forall|xj: int, yj: int| #[trigger] on_lattice(room, outer, xj, yj) ==> !before(xj, yj, xi, yi)
}

/// Of all candidates, the one at `(bx, by)` has the highest score, and every
/// candidate visited before it has a strictly lower one.
pub open spec fn first_best(room: &Room, max_order: int, outer: int, bx: int, by: int) -> bool {
    &&& on_lattice(room, outer, bx, by)
    &&& forall|xj: int, yj: int| #[trigger]
        on_lattice(room, outer, xj, yj) ==> {
            &&& grid_cost(room, max_order, xj, yj) <= grid_cost(room, max_order, bx, by)
            &&& before(xj, yj, bx, by) ==> grid_cost(room, max_order, xj, yj) < grid_cost(
                room,
                max_order,
                bx,
                by,
            )
        }
}

/// At most one candidate is the first with the highest score: the two
/// clauses of `first_best` determine the answer of a search.
pub proof fn lemma_first_best_unique(
    room: &Room,
    max_order: int,
    outer: int,
    ax: int,
    ay: int,
    bx: int,
    by: int,
)
    requires
        first_best(room, max_order, outer, ax, ay),
        first_best(room, max_order, outer, bx, by),
    ensures
        ax == bx,
        ay == by,
{
    assert(on_lattice(room, outer, ax, ay) && on_lattice(room, outer, bx, by));
    assert(grid_cost(room, max_order, ax, ay) <= grid_cost(room, max_order, bx, by));
    assert(grid_cost(room, max_order, bx, by) <= grid_cost(room, max_order, ax, ay));
    assert(!before(ax, ay, bx, by));
    assert(!before(bx, by, ax, ay));
}

/// The receiver position with the highest score among the candidates of the
/// grid with `0 <= y < outer`, the images taken up to `max_order`
/// reflections; of several candidates with that score the one visited
/// first. Without any candidate, which is when the grid spacing is not below
/// the width or `outer` is not positive, and only then, the answer is
/// `(NOWHERE, NOWHERE)`.
pub fn localize_within(room: &Room, max_order: usize, outer: i64) -> (guess: (i64, i64))
    requires
        room.searchable(),
        max_order <= ORDER_LIMIT,
        outer <= COORD_LIMIT,
    ensures
        (room.min_step() >= room.width || outer <= 0) <==> guess == (NOWHERE, NOWHERE),
        room.min_step() < room.width && outer > 0 ==> exists|xi: int, yi: int| #[trigger]
            first_best(room, max_order as int, outer as int, xi, yi) && at(guess) == candidate(
                room,
                xi,
                yi,
            ),
{
    let step: i64 = room.grid_step();
    let min_delta: u64 = room.merge_delta();
    let mut guess: (i64, i64) = (NOWHERE, NOWHERE);
    let mut best: i128 = 0;
    let mut found: bool = false;
    let ghost order = max_order as int;
    let ghost far = outer as int;
    let ghost mut bx: int = 0;
    let ghost mut by: int = 0;
    let mut y: i64 = 0;
    let ghost mut yi: int = 0;
    assert(0 * step == 0) by (nonlinear_arith);
    while y < outer
        invariant
            room.searchable(),
            max_order <= ORDER_LIMIT,
            outer <= COORD_LIMIT,
            order == max_order,
            far == outer,
            step == room.min_step(),
            min_delta == room.min_delta(),
            1 <= step <= COORD_LIMIT,
            0 <= yi,
            y == yi * step,
            0 <= y,
            !found ==> none_before(room, far, 1, yi) && guess == (NOWHERE, NOWHERE),
            found ==> leads(room, order, far, bx, by, 1, yi) && best == grid_cost(
                room,
                order,
                bx,
                by,
            ) && at(guess) == candidate(room, bx, by),
        decreases outer + step - y,
    {
        let mut x: i64 = step;
        let ghost mut xi: int = 1;
        assert(1 * step == step) by (nonlinear_arith);
        while x < room.width
            invariant
                room.searchable(),
                max_order <= ORDER_LIMIT,
                outer <= COORD_LIMIT,
                order == max_order,
                far == outer,
                step == room.min_step(),
                min_delta == room.min_delta(),
                1 <= step <= COORD_LIMIT,
                0 <= yi,
                y == yi * step,
                0 <= y < outer,
                1 <= xi,
                x == xi * step,
                0 < x,
                !found ==> none_before(room, far, xi, yi) && guess == (NOWHERE, NOWHERE),
                found ==> leads(room, order, far, bx, by, xi, yi) && best == grid_cost(
                    room,
                    order,
                    bx,
                    by,
                ) && at(guess) == candidate(room, bx, by),
            decreases room.width + step - x,
        {
            let mic: (i64, i64) = (x, y);
            assert(on_lattice(room, far, xi, yi));
            let c: i128 = cost(room, &mic, max_order, min_delta);
            assert(c == grid_cost(room, order, xi, yi));
            if !found || c > best {
                guess = mic;
                best = c;
                found = true;
                proof {
                    bx = xi;
                    by = yi;
                }
            }
            assert((xi + 1) * step == xi * step + step) by (nonlinear_arith);
            x = x + step;
            proof {
                xi = xi + 1;
            }
        }
        proof {
            assert forall|xj: int, yj: int| #[trigger]
                on_lattice(room, far, xj, yj) && yj == yi implies xj < xi by {
                lemma_scaled_order(xj, xi, step as int);
            }
            assert((yi + 1) * step == yi * step + step) by (nonlinear_arith);
        }
        y = y + step;
        proof {
            yi = yi + 1;
        }
    }
    proof {
        assert forall|xj: int, yj: int| #[trigger] on_lattice(room, far, xj, yj) implies yj
            < yi by {
            lemma_scaled_order(yj, yi, step as int);
        }
        if room.min_step() < room.width && outer > 0 {
            assert(1 * step == step) by (nonlinear_arith);
            assert(on_lattice(room, far, 1, 0));
            assert(before(1, 0, 1, yi));
            assert(found);
            assert(first_best(room, order, far, bx, by));
        }
        if found {
            assert(bx * step >= step) by (nonlinear_arith)
                requires
                    bx >= 1,
                    step >= 1,
            ;
            assert(by * step >= 0) by (nonlinear_arith)
                requires
                    by >= 0,
                    step >= 1,
            ;
        }
    }
    guess
}

/// The receiver position with the highest score among the candidates of the
/// grid up to `OUTER`, the images taken up to `MAX_ORDER` reflections; of
/// several candidates with that score the one visited first. Without any
/// candidate, which is when the grid spacing is not below the width, and
/// only then, the answer is `(NOWHERE, NOWHERE)`.
pub fn localize(room: &Room) -> (guess: (i64, i64))
    requires
        room.searchable(),
    ensures
        room.min_step() >= room.width <==> guess == (NOWHERE, NOWHERE),
        room.min_step() < room.width ==> exists|xi: int, yi: int| #[trigger]
            first_best(room, MAX_ORDER as int, OUTER as int, xi, yi) && at(guess) == candidate(
                room,
                xi,
                yi,
            ),
{
    localize_within(room, MAX_ORDER, OUTER)
}

} // verus!

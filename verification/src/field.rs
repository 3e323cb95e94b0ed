//! The field: a grid of points with their statuses, numbers and colours.

use vstd::prelude::*;
use vstd::arithmetic::power2::{lemma2_to64, lemma_pow2_unfold, pow2};
use vstd::arithmetic::div_mod::{lemma_div_pos_is_pos, lemma_fundamental_div_mod, lemma_mod_bound};
use vstd::arithmetic::mul::{lemma_mul_inequality, lemma_mul_is_commutative};
use crate::number::{is_positive_finite, positive_finite, ComplexBits};
use crate::orbit::{lemma_runs_count, lemma_runs_rest, runs, Orbit, Point, Probe};

verus! {

/// Why a field could not be built or painted.
#[derive(Clone, Copy, Debug, PartialEq, Eq, Structural)]
pub enum FieldError {
    /// A dimension is zero, or the colour buffer of `4 * width * height`
    /// bytes cannot be addressed.
    InvalidDimensions,
    /// The colour scale is not a finite number greater than zero.
    InvalidScale,
}

/// What one call of `step` reports.
#[derive(Clone, Copy, Debug, PartialEq, Eq, Structural)]
pub struct StepResult {
    /// No point is left unresolved.
    pub all_known: bool,
    /// Some point escaped during the call and awaits its colour.
    pub new_colors: bool,
}

/// The refresh interval that every configuration starts with.
pub const FIRST_INTERVAL: u64 = 8;

/// The interval after a call that left the field's count at `dwell`: doubled
/// if the count exceeds it.
pub open spec fn next_interval(dwell: nat, interval: nat) -> nat {
    if dwell > interval {
        2 * interval
    } else {
        interval
    }
}

/// The mathematical content of a field.
pub struct Field {
    pub width: nat,
    pub height: nat,
    /// Total of the budgets issued since the last configuration.
    pub dwell: nat,
    /// Count above which a point's cycle reference is refreshed.
    pub interval: nat,
    pub points: Seq<Point>,
    pub z: Seq<ComplexBits>,
    pub c: Seq<ComplexBits>,
    pub last: Seq<ComplexBits>,
    /// Four bytes per point, red, green, blue, alpha, row by row from the top
    /// left.
    pub colors: Seq<u8>,
}

impl Field {
    /// Number of points.
    pub open spec fn cells(self) -> nat {
        self.width * self.height
    }

    /// The state of point `i`.
    pub open spec fn orbit(self, i: int) -> Orbit {
        Orbit { status: self.points[i], z: self.z[i], c: self.c[i], last: self.last[i] }
    }

    /// The three colour bytes of point `i`.
    pub open spec fn rgb(self, i: int) -> (u8, u8, u8) {
        (self.colors[4 * i], self.colors[4 * i + 1], self.colors[4 * i + 2])
    }

    /// The invariant of a field: positive dimensions; one status and three
    /// numbers per point and four colour bytes; no point has counted more
    /// than the field; the interval is the first one doubled some number of
    /// times, and is still the first one exactly as long as the field's count
    /// has not exceeded it; every alpha byte is opaque, and the colour of a point that is
    /// not `Rendered` is black.
    pub open spec fn valid(self) -> bool {
        &&& self.width > 0
        &&& self.height > 0
        &&& self.points.len() == self.cells()
        &&& self.z.len() == self.cells()
        &&& self.c.len() == self.cells()
        &&& self.last.len() == self.cells()
        &&& self.colors.len() == 4 * self.cells()
        &&& exists|k: nat| self.interval == FIRST_INTERVAL * #[trigger] pow2(k)
        &&& (self.interval == FIRST_INTERVAL <==> self.dwell <= FIRST_INTERVAL)
        &&& forall|i: int| 0 <= i < self.cells() ==> (#[trigger] self.points[i]).count() <= self.dwell
        &&& forall|i: int| 0 <= i < self.cells() ==> #[trigger] self.colors[4 * i + 3] == 255
        &&& forall|i: int|
            0 <= i < self.cells() && !(self.points[i] is Rendered) ==> #[trigger] self.rgb(i) == (
                0u8,
                0u8,
                0u8,
            )
    }

    /// Point `i` of `after` is point `i` of this field painted with `shade`
    /// at `scale`: if it awaited its colour it is `Rendered` and has as red,
    /// green and blue what `shade` gave for its count; if not, it keeps
    /// status and colour. Its alpha byte stays either way.
    pub open spec fn painted_at<S: Fn(u64, u64) -> (u8, u8, u8)>(
        self,
        shade: S,
        scale: u64,
        after: Field,
        i: int,
    ) -> bool {
        &&& after.colors[4 * i + 3] == self.colors[4 * i + 3]
        &&& match self.points[i] {
            Point::NotRendered(d) => {
                &&& after.points[i] == Point::Rendered
                &&& shade.ensures((d, scale), after.rgb(i))
            },
            _ => {
                &&& after.points[i] == self.points[i]
                &&& after.rgb(i) == self.rgb(i)
            },
        }
    }

    /// `after` is this field painted with `shade` at `scale`: every point is
    /// painted, and nothing else changes.
    pub open spec fn painted<S: Fn(u64, u64) -> (u8, u8, u8)>(
        self,
        shade: S,
        scale: u64,
        after: Field,
    ) -> bool {
        &&& after.width == self.width
        &&& after.height == self.height
        &&& after.dwell == self.dwell
        &&& after.interval == self.interval
        &&& after.z == self.z
        &&& after.c == self.c
        &&& after.last == self.last
        &&& after.points.len() == self.points.len()
        &&& after.colors.len() == self.colors.len()
        &&& forall|i: int| 0 <= i < self.cells() ==> #[trigger] self.painted_at(shade, scale, after, i)
    }

    /// The field that a configuration with parameters `c` leaves: nothing
    /// counted, the first interval, every point unresolved at count zero with
    /// iterate and cycle reference at its parameter, every colour opaque
    /// black.
    pub open spec fn configured(width: nat, height: nat, c: Seq<ComplexBits>) -> Field {
        Field {
            width,
            height,
            dwell: 0,
            interval: FIRST_INTERVAL as nat,
            points: Seq::new(width * height, |i: int| Point::Unknown(0)),
            z: c,
            c,
            last: c,
            colors: Seq::new(4 * (width * height), |j: int| if j % 4 == 3 { 255u8 } else { 0u8 }),
        }
    }
}

/// A configured field is valid.
pub proof fn lemma_configured_valid(width: nat, height: nat, c: Seq<ComplexBits>)
    requires
        width > 0,
        height > 0,
        c.len() == width * height,
    ensures
        Field::configured(width, height, c).valid(),
{
    let f = Field::configured(width, height, c);
    assert(f.interval == FIRST_INTERVAL * pow2(0)) by {
        lemma2_to64();
    }
}

/// A grid of points of the complex plane, each with its status, iterate,
/// parameter and cycle reference, and the colour buffer drawn from them.
pub struct Wasmbrot {
    width: usize,
    height: usize,
    dwell: u64,
    points: Vec<Point>,
    z_points: Vec<ComplexBits>,
    c_points: Vec<ComplexBits>,
    orbit_lasts: Vec<ComplexBits>,
    orbit_dwell: u64,
    colors: Vec<u8>,
}

impl View for Wasmbrot {
    type V = Field;

    closed spec fn view(&self) -> Field {
        Field {
            width: self.width as nat,
            height: self.height as nat,
            dwell: self.dwell as nat,
            interval: self.orbit_dwell as nat,
            points: self.points@,
            z: self.z_points@,
            c: self.c_points@,
            last: self.orbit_lasts@,
            colors: self.colors@,
        }
    }
}

impl Wasmbrot {
    /// The field's content is valid.
    pub open spec fn wf(&self) -> bool {
        self@.valid()
    }

    /// Builds a field of `width` by `height` points, every point unresolved
    /// at the origin, nothing counted, every colour opaque black.
    ///
    /// Fails exactly when a dimension is zero or the colour buffer would
    /// exceed the address space.
    pub fn new(width: usize, height: usize) -> (res: Result<Wasmbrot, FieldError>)
        ensures
            res is Ok <==> width > 0 && height > 0 && 4 * (width * height) <= usize::MAX,
            res matches Ok(field) ==> field.wf() && field@ == Field::configured(
                width as nat,
                height as nat,
                Seq::new((width * height) as nat, |i: int| ComplexBits::origin()),
            ),
            res matches Err(e) ==> e == FieldError::InvalidDimensions,
    {
        if width == 0 || height == 0 {
            return Err(FieldError::InvalidDimensions);
        }
        let cells: usize = match width.checked_mul(height) {
            Some(cells) => cells,
            None => {
                return Err(FieldError::InvalidDimensions);
            },
        };
        if cells.checked_mul(4).is_none() {
            return Err(FieldError::InvalidDimensions);
        }
        let mut field = Wasmbrot {
            width,
            height,
            dwell: 0,
            points: Vec::with_capacity(cells),
            z_points: Vec::with_capacity(cells),
            c_points: Vec::with_capacity(cells),
            orbit_lasts: Vec::with_capacity(cells),
            orbit_dwell: FIRST_INTERVAL,
            colors: Vec::with_capacity(4 * cells),
        };
        let origin = |row: usize, col: usize| -> (r: ComplexBits)
            ensures
                r == ComplexBits::origin(),
            { ComplexBits::new(0, 0) };
        field.reset(&origin);
        proof {
            assert(field@.c =~= Seq::new((width * height) as nat, |i: int| ComplexBits::origin()));
        }
        Ok(field)
    }

    /// Configures the field for a new viewport: `place(row, col)` gives the
    /// parameter of the point in that row and column, rows counted from the
    /// top and columns from the left. Every point starts over, unresolved at
    /// count zero with iterate and cycle reference at its parameter; nothing
    /// is counted, the interval is the first one, every colour opaque black.
    pub fn param<G: Fn(usize, usize) -> ComplexBits>(&mut self, place: G)
        requires
            old(self).wf(),
            forall|row: usize, col: usize|
                row < old(self)@.height && col < old(self)@.width ==> place.requires((row, col)),
        ensures
            final(self).wf(),
            final(self)@ == Field::configured(old(self)@.width, old(self)@.height, final(self)@.c),
            final(self)@.c.len() == old(self)@.cells(),
            forall|i: int|
                0 <= i < old(self)@.cells() ==> place.ensures(
                    ((i / old(self)@.width as int) as usize, (i % old(self)@.width as int) as usize),
                    #[trigger] final(self)@.c[i],
                ),
    {
        proof {
            assert(self.colors@.len() == self.colors.len());
        }
        self.reset(&place);
    }

    /// Spends `step_size` turns on every unresolved point, each probed by
    /// `kernel` until it resolves or the turns run out, and adds `step_size`
    /// to the field's count. The interval used throughout is the one the
    /// field had before the call; afterwards it doubles if the field's new
    /// count exceeds it. Colours and parameters stay as they are.
    pub fn step<K: Fn(ComplexBits, ComplexBits) -> Probe>(&mut self, step_size: u64, kernel: K) -> (res:
        StepResult)
        requires
            old(self).wf(),
            old(self)@.dwell + step_size <= u64::MAX,
            old(self)@.dwell + step_size > old(self)@.interval ==> 2 * old(self)@.interval <= u64::MAX,
            forall|z: ComplexBits, c: ComplexBits| kernel.requires((z, c)),
        ensures
            final(self).wf(),
            final(self)@.width == old(self)@.width,
            final(self)@.height == old(self)@.height,
            final(self)@.dwell == old(self)@.dwell + step_size,
            final(self)@.interval == next_interval(final(self)@.dwell, old(self)@.interval),
            final(self)@.interval >= old(self)@.interval,
            final(self)@.colors == old(self)@.colors,
            final(self)@.c == old(self)@.c,
            forall|i: int|
                0 <= i < old(self)@.cells() ==> runs(
                    kernel,
                    old(self)@.orbit(i),
                    old(self)@.interval,
                    step_size as nat,
                    #[trigger] final(self)@.orbit(i),
                ),
            forall|i: int|
                0 <= i < old(self)@.cells() ==> old(self)@.points[i].precedes(#[trigger] final(self)@.points[i]),
            res.all_known <==> forall|i: int|
                0 <= i < old(self)@.cells() ==> !(#[trigger] final(self)@.points[i]).unresolved(),
            res.new_colors <==> exists|i: int|
                0 <= i < old(self)@.cells() && old(self)@.points[i].unresolved()
                    && #[trigger] final(self)@.points[i] is NotRendered,
    {
        let ghost before = self@;
        self.dwell = self.dwell + step_size;

        let mut all_known = true;
        let mut new_colors = false;

        let cells: usize = self.points.len();
        let interval: u64 = self.orbit_dwell;
        let mut idx: usize = 0;
        while idx < cells
            invariant
                idx <= cells,
                cells == before.cells(),
                before.valid(),
                before.dwell + step_size <= u64::MAX,
                forall|z: ComplexBits, c: ComplexBits| kernel.requires((z, c)),
                self.width == before.width,
                self.height == before.height,
                self.dwell == before.dwell + step_size,
                self.orbit_dwell == interval,
                interval == before.interval,
                self.colors@ == before.colors,
                self.c_points@ == before.c,
                self.points@.len() == cells,
                self.z_points@.len() == cells,
                self.orbit_lasts@.len() == cells,
                forall|i: int| idx <= i < cells ==> #[trigger] self@.orbit(i) == before.orbit(i),
                forall|i: int|
                    0 <= i < idx ==> runs(
                        kernel,
                        before.orbit(i),
                        before.interval,
                        step_size as nat,
                        #[trigger] self@.orbit(i),
                    ),
                forall|i: int|
                    0 <= i < idx ==> {
                        &&& before.points[i].precedes(#[trigger] self.points@[i])
                        &&& self.points@[i].count() <= before.dwell + step_size
                        &&& (self.points@[i] is Rendered ==> before.points[i] is Rendered)
                    },
                all_known <==> forall|i: int| 0 <= i < idx ==> !(#[trigger] self.points@[i]).unresolved(),
                new_colors <==> exists|i: int|
                    0 <= i < idx && before.points[i].unresolved() && #[trigger] self.points@[i] is NotRendered,
            decreases cells - idx,
        {
            let ghost entry = self@;
            let ghost known = all_known;
            let status = self.points[idx];
            assert(self@.orbit(idx as int) == before.orbit(idx as int));
            if status.is_unknown() {
                let start = Orbit {
                    status,
                    z: self.z_points[idx],
                    c: self.c_points[idx],
                    last: self.orbit_lasts[idx],
                };
                let end = start.iterate(interval, step_size, &kernel);
                proof {
                    lemma_runs_count(kernel, start, interval as nat, step_size as nat, end);
                }
                self.points[idx] = end.status;
                self.z_points[idx] = end.z;
                self.orbit_lasts[idx] = end.last;
                match end.status {
                    Point::Unknown(_) => {
                        all_known = false;
                    },
                    Point::NotRendered(_) => {
                        new_colors = true;
                    },
                    _ => {},
                }
                assert(self@.orbit(idx as int) == end);
            } else {
                proof {
                    let rest = before.orbit(idx as int);
                    lemma_runs_rest(kernel, rest, interval as nat, 0, step_size as nat, rest);
                }
            }
            proof {
                assert forall|i: int| 0 <= i < cells && i != idx implies #[trigger] self@.orbit(i)
                    == entry.orbit(i) by {}
                assert forall|i: int| 0 <= i < idx implies #[trigger] self.points@[i]
                    == entry.points[i] by {}
                if entry.points[idx as int].unresolved() {
                    assert(self.points@[idx as int] == self@.orbit(idx as int).status);
                } else {
                    assert(self.points@[idx as int] == entry.points[idx as int]);
                }
                if !known {
                    let w = choose|i: int| 0 <= i < idx && (#[trigger] entry.points[i]).unresolved();
                    assert(self.points@[w].unresolved());
                }
                if new_colors && !(before.points[idx as int].unresolved()
                    && self.points@[idx as int] is NotRendered) {
                    let w = choose|i: int|
                        0 <= i < idx && before.points[i].unresolved()
                            && #[trigger] entry.points[i] is NotRendered;
                    assert(self.points@[w] is NotRendered);
                }
            }
            idx = idx + 1;
        }
        let ghost swept = self@;

        if self.dwell > self.orbit_dwell {
            proof {
                let k = choose|k: nat| before.interval == FIRST_INTERVAL * #[trigger] pow2(k);
                lemma_pow2_unfold(k + 1);
                assert(2 * before.interval == FIRST_INTERVAL * pow2(k + 1)) by (nonlinear_arith)
                    requires
                        before.interval == FIRST_INTERVAL * pow2(k),
                        pow2(k + 1) == 2 * pow2(k),
                ;
            }
            self.orbit_dwell = self.orbit_dwell * 2;
        }
        proof {
            assert forall|i: int| 0 <= i < cells implies #[trigger] self@.rgb(i) == before.rgb(i) by {}
            assert forall|i: int| 0 <= i < cells implies #[trigger] self@.orbit(i) == swept.orbit(i) by {}
        }
        StepResult { all_known, new_colors }
    }

    /// Gives every point that awaits its colour the red, green and blue that
    /// `shade(count, color_dist)` returns for its count, and marks it
    /// `Rendered`. `color_dist` is the bit pattern of the colour scale.
    ///
    /// Fails, leaving the field as it is, exactly when the scale is not a
    /// finite number greater than zero.
    pub fn colorize<S: Fn(u64, u64) -> (u8, u8, u8)>(&mut self, color_dist: u64, shade: S) -> (res:
        Result<(), FieldError>)
        requires
            old(self).wf(),
            is_positive_finite(color_dist) ==> forall|count: u64| shade.requires((count, color_dist)),
        ensures
            final(self).wf(),
            res is Ok <==> is_positive_finite(color_dist),
            res matches Err(e) ==> e == FieldError::InvalidScale && final(self)@ == old(self)@,
            res is Ok ==> old(self)@.painted(shade, color_dist, final(self)@),
    {
        if !positive_finite(color_dist) {
            return Err(FieldError::InvalidScale);
        }
        let ghost before = self@;
        let cells: usize = self.points.len();
        proof {
            assert(self.colors@.len() == self.colors.len());
        }
        let mut idx: usize = 0;
        while idx < cells
            invariant
                idx <= cells,
                cells == before.cells(),
                4 * cells <= usize::MAX,
                before.valid(),
                forall|count: u64| shade.requires((count, color_dist)),
                self.width == before.width,
                self.height == before.height,
                self.dwell == before.dwell,
                self.orbit_dwell == before.interval,
                self.z_points@ == before.z,
                self.c_points@ == before.c,
                self.orbit_lasts@ == before.last,
                self.points@.len() == cells,
                self.colors@.len() == 4 * cells,
                forall|i: int| idx <= i < cells ==> #[trigger] self.points@[i] == before.points[i],
                forall|j: int| 4 * idx <= j < 4 * cells ==> #[trigger] self.colors@[j] == before.colors[j],
                forall|i: int| 0 <= i < idx ==> #[trigger] before.painted_at(shade, color_dist, self@, i),
            decreases cells - idx,
        {
            let ghost entry = self@;
            if let Point::NotRendered(dwell) = self.points[idx] {
                self.points[idx] = Point::Rendered;

                let (r, g, b) = shade(dwell, color_dist);

                self.colors[4 * idx] = r;
                self.colors[4 * idx + 1] = g;
                self.colors[4 * idx + 2] = b;
            }
            proof {
                assert forall|i: int| 0 <= i < idx implies #[trigger] before.painted_at(
                    shade,
                    color_dist,
                    self@,
                    i,
                ) by {
                    assert(before.painted_at(shade, color_dist, entry, i));
                    assert(self@.rgb(i) == entry.rgb(i));
                }
            }
            idx = idx + 1;
        }
        proof {
            assert forall|i: int| 0 <= i < cells implies (#[trigger] self.points@[i]).count()
                <= before.dwell by {
                assert(before.painted_at(shade, color_dist, self@, i));
                assert(before.points[i].count() <= before.dwell);
            }
            assert forall|i: int| 0 <= i < cells implies #[trigger] self.colors@[4 * i + 3] == 255 by {
                assert(before.painted_at(shade, color_dist, self@, i));
                assert(before.colors[4 * i + 3] == 255);
            }
            assert forall|i: int| 0 <= i < cells && !(self.points@[i] is Rendered) implies #[trigger] self@.rgb(
                i,
            ) == (0u8, 0u8, 0u8) by {
                assert(before.painted_at(shade, color_dist, self@, i));
                assert(before.rgb(i) == (0u8, 0u8, 0u8));
            }
        }
        Ok(())
    }

    /// Total of the budgets issued since the last configuration.
    pub fn dwell(&self) -> (r: u64)
        ensures
            r == self@.dwell,
    {
        self.dwell
    }

    /// The colour buffer: four bytes per point, red, green, blue, alpha, row
    /// by row from the top left.
    pub fn colors(&self) -> (r: &[u8])
        requires
            self.wf(),
        ensures
            r@ == self@.colors,
            r@.len() == 4 * (self@.width * self@.height),
    {
        self.colors.as_slice()
    }

    /// Number of columns.
    pub fn width(&self) -> (r: usize)
        ensures
            r == self@.width,
    {
        self.width
    }

    /// Number of rows.
    pub fn height(&self) -> (r: usize)
        ensures
            r == self@.height,
    {
        self.height
    }

    /// Count above which a point's cycle reference is refreshed.
    pub fn orbit_dwell(&self) -> (r: u64)
        ensures
            r == self@.interval,
    {
        self.orbit_dwell
    }

    /// The state of point `idx`, if the grid has such a point.
    pub fn orbit(&self, idx: usize) -> (r: Option<Orbit>)
        requires
            self.wf(),
        ensures
            r == (if idx < self@.cells() {
                Some(self@.orbit(idx as int))
            } else {
                None
            }),
    {
        if idx < self.points.len() {
            Some(
                Orbit {
                    status: self.points[idx],
                    z: self.z_points[idx],
                    c: self.c_points[idx],
                    last: self.orbit_lasts[idx],
                },
            )
        } else {
            None
        }
    }

    /// Empties every array and fills it again for a configuration whose
    /// parameters `place` gives, cell by cell.
    fn reset<G: Fn(usize, usize) -> ComplexBits>(&mut self, place: &G)
        requires
            old(self).width > 0,
            old(self).height > 0,
            4 * (old(self).width * old(self).height) <= usize::MAX,
            forall|row: usize, col: usize|
                row < old(self).height && col < old(self).width ==> place.requires((row, col)),
        ensures
            final(self).wf(),
            final(self)@ == Field::configured(old(self)@.width, old(self)@.height, final(self)@.c),
            final(self)@.c.len() == old(self)@.cells(),
            forall|i: int|
                0 <= i < old(self)@.cells() ==> place.ensures(
                    ((i / old(self)@.width as int) as usize, (i % old(self)@.width as int) as usize),
                    #[trigger] final(self)@.c[i],
                ),
    {
        self.points.clear();
        self.z_points.clear();
        self.c_points.clear();
        self.orbit_lasts.clear();
        self.colors.clear();

        self.dwell = 0;
        self.orbit_dwell = FIRST_INTERVAL;

        let width: usize = self.width;
        let height: usize = self.height;
        let cells: usize = width * height;
        let mut idx: usize = 0;
        while idx < cells
            invariant
                idx <= cells,
                cells == width * height,
                width > 0,
                4 * cells <= usize::MAX,
                self.width == width,
                self.height == height,
                self.dwell == 0,
                self.orbit_dwell == FIRST_INTERVAL,
                self.points@.len() == idx,
                self.z_points@.len() == idx,
                self.c_points@.len() == idx,
                self.orbit_lasts@.len() == idx,
                self.colors@.len() == 4 * idx,
                self.z_points@ == self.c_points@,
                self.orbit_lasts@ == self.c_points@,
                forall|i: int| 0 <= i < idx ==> self.points@[i] == Point::Unknown(0),
                forall|j: int|
                    0 <= j < 4 * idx ==> self.colors@[j] == (if j % 4 == 3 {
                        255u8
                    } else {
                        0u8
                    }),
                forall|row: usize, col: usize| row < height && col < width ==> place.requires((row, col)),
                forall|i: int|
                    0 <= i < idx ==> place.ensures(
                        ((i / width as int) as usize, (i % width as int) as usize),
                        #[trigger] self.c_points@[i],
                    ),
            decreases cells - idx,
        {
            self.points.push(Point::Unknown(0));

            self.colors.push(0);
            self.colors.push(0);
            self.colors.push(0);
            self.colors.push(0xff);

            let row: usize = idx / width;
            let col: usize = idx % width;
            proof {
                lemma_cell_in_grid(idx as int, width as int, height as int);
            }
            let z = place(row, col);
            self.z_points.push(z);
            self.orbit_lasts.push(z);
            self.c_points.push(z);
            idx = idx + 1;
        }
        proof {
            let target = Field::configured(width as nat, height as nat, self@.c);
            assert(self@.points =~= target.points);
            assert(self@.colors =~= target.colors);
            lemma_configured_valid(width as nat, height as nat, self@.c);
        }
    }
}

/// Row and column of a cell of the grid lie within it.
pub proof fn lemma_cell_in_grid(idx: int, width: int, height: int)
    requires
        width > 0,
        0 <= idx < width * height,
    ensures
        0 <= idx / width < height,
        0 <= idx % width < width,
        idx == (idx / width) * width + idx % width,
{
    lemma_fundamental_div_mod(idx, width);
    lemma_div_pos_is_pos(idx, width);
    lemma_mod_bound(idx, width);
    lemma_mul_is_commutative(width, idx / width);
    if idx / width >= height {
        lemma_mul_inequality(height, idx / width, width);
        lemma_mul_is_commutative(width, height);
    }
}

/// Painting twice changes nothing the second time: a painted field has no
/// point that awaits its colour, so painting it again, with whatever shade
/// and scale, leaves it as it is.
pub proof fn lemma_painted_twice<S: Fn(u64, u64) -> (u8, u8, u8), T: Fn(u64, u64) -> (u8, u8, u8)>(
    before: Field,
    once: Field,
    twice: Field,
    shade: S,
    scale: u64,
    again: T,
    rescale: u64,
)
    requires
        before.valid(),
        before.painted(shade, scale, once),
        once.painted(again, rescale, twice),
    ensures
        forall|i: int| 0 <= i < before.cells() ==> !(#[trigger] once.points[i] is NotRendered),
        twice == once,
{
    assert forall|i: int| 0 <= i < before.cells() implies !(#[trigger] once.points[i] is NotRendered) by {
        assert(before.painted_at(shade, scale, once, i));
    }
    assert forall|i: int| 0 <= i < once.points.len() implies twice.points[i] == once.points[i] by {
        assert(before.painted_at(shade, scale, once, i));
        assert(once.painted_at(again, rescale, twice, i));
    }
    assert forall|j: int| 0 <= j < once.colors.len() implies twice.colors[j] == once.colors[j] by {
        let i = j / 4;
        assert(before.painted_at(shade, scale, once, i));
        assert(once.painted_at(again, rescale, twice, i));
        assert(j == 4 * i || j == 4 * i + 1 || j == 4 * i + 2 || j == 4 * i + 3);
    }
    assert(twice.points =~= once.points);
    assert(twice.colors =~= once.colors);
}

/// The interval never shrinks from one call to the next, and moves only by
/// doubling.
pub proof fn lemma_interval_backs_off(dwell: nat, interval: nat)
    ensures
        next_interval(dwell, interval) >= interval,
        next_interval(dwell, interval) == interval || next_interval(dwell, interval) == 2 * interval,
        next_interval(dwell, interval) != interval ==> dwell > interval,
{
}

} // verus!

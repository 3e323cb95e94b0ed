//! One point of the grid: its status, the three numbers that belong to it, and
//! the rule that takes it from one probe of the recurrence to the next.

use vstd::prelude::*;
use crate::number::ComplexBits;

verus! {

/// Where a point stands.
#[derive(Clone, Copy, Debug, PartialEq, Eq, Structural)]
pub enum Point {
    /// Still iterating; holds the number of iterations completed so far.
    Unknown(u64),
    /// The iterate came back to the cycle reference: judged not to escape.
    InSet,
    /// Escaped after the held number of iterations; no colour written yet.
    NotRendered(u64),
    /// Escaped, and its colour is in the buffer.
    Rendered,
}

impl Point {
    /// The point is still iterating.
    pub open spec fn unresolved(self) -> bool {
        self is Unknown
    }

    /// The iteration count that the status carries, zero where it carries none.
    pub open spec fn count(self) -> nat {
        match self {
            Point::Unknown(d) => d as nat,
            Point::NotRendered(d) => d as nat,
            _ => 0,
        }
    }

    /// `later` can be a status of this point at a later time: a status only
    /// moves along `Unknown`, then `InSet` or `NotRendered`, then (from
    /// `NotRendered`) `Rendered`, and a carried count never shrinks.
    pub open spec fn precedes(self, later: Point) -> bool {
        match self {
            Point::Unknown(d) => match later {
                Point::Unknown(e) => d <= e,
                Point::NotRendered(e) => d <= e,
                Point::InSet => true,
                Point::Rendered => true,
            },
            Point::NotRendered(d) => later == Point::NotRendered(d) || later == Point::Rendered,
            Point::InSet => later == Point::InSet,
            Point::Rendered => later == Point::Rendered,
        }
    }

    /// Tells whether the point is still iterating.
    pub fn is_unknown(&self) -> (r: bool)
        ensures
            r == self.unresolved(),
    {
        match self {
            Point::Unknown(_) => true,
            _ => false,
        }
    }
}

/// What one probe of the recurrence found at an iterate `z` with parameter `c`.
#[derive(Clone, Copy, Debug)]
pub enum Probe {
    /// The squared magnitude of `z` exceeds the escape threshold; `z` stays.
    Escaped,
    /// `z` is within the threshold; holds the next iterate `z*z + c`.
    Next(ComplexBits),
}

/// The state of one point: status, current iterate, parameter of the
/// recurrence, and the iterate last saved as cycle reference.
#[derive(Clone, Copy, Debug)]
pub struct Orbit {
    pub status: Point,
    pub z: ComplexBits,
    pub c: ComplexBits,
    pub last: ComplexBits,
}

impl Orbit {
    /// A point that has not iterated yet: iterate and cycle reference both
    /// start at the parameter.
    pub open spec fn fresh(c: ComplexBits) -> Orbit {
        Orbit { status: Point::Unknown(0), z: c, c, last: c }
    }

    /// The state after one probe, under the given refresh interval.
    ///
    /// A resolved point stays as it is. An unresolved one that escaped keeps
    /// its count and awaits its colour. Otherwise the count grows by one and
    /// the iterate moves; if the new iterate equals the cycle reference the
    /// point is in the set; if not, the reference is replaced by the new
    /// iterate once the count exceeds the interval.
    pub open spec fn after(self, probe: Probe, interval: nat) -> Orbit {
        match self.status {
            Point::Unknown(d) => match probe {
                Probe::Escaped => Orbit { status: Point::NotRendered(d), ..self },
                Probe::Next(z) => if z.coincides(self.last) {
                    Orbit { status: Point::InSet, z, ..self }
                } else if d + 1 > interval {
                    Orbit { status: Point::Unknown((d + 1) as u64), z, last: z, ..self }
                } else {
                    Orbit { status: Point::Unknown((d + 1) as u64), z, ..self }
                },
            },
            _ => self,
        }
    }

    /// Applies one probe to the point.
    pub fn advance(self, probe: Probe, interval: u64) -> (r: Orbit)
        requires
            self.status.unresolved() ==> self.status.count() < u64::MAX,
        ensures
            r == self.after(probe, interval as nat),
    {
        match self.status {
            Point::Unknown(d) => match probe {
                Probe::Escaped => Orbit {
                    status: Point::NotRendered(d),
                    z: self.z,
                    c: self.c,
                    last: self.last,
                },
                Probe::Next(z) => {
                    let count: u64 = d + 1;
                    if z.matches(&self.last) {
                        Orbit { status: Point::InSet, z, c: self.c, last: self.last }
                    } else if count > interval {
                        Orbit { status: Point::Unknown(count), z, c: self.c, last: z }
                    } else {
                        Orbit { status: Point::Unknown(count), z, c: self.c, last: self.last }
                    }
                },
            },
            _ => self,
        }
    }
}

/// `next` is a state that one turn of the engine can leave `o` in: a resolved
/// point rests, an unresolved one is probed once by `kernel` and moves as
/// `Orbit::after` says.
pub open spec fn follows<K: Fn(ComplexBits, ComplexBits) -> Probe>(
    kernel: K,
    o: Orbit,
    interval: nat,
    next: Orbit,
) -> bool {
    if o.status.unresolved() {
        exists|probe: Probe| #[trigger] kernel.ensures((o.z, o.c), probe) && next == o.after(probe, interval)
    } else {
        next == o
    }
}

/// `end` is a state that `n` turns of the engine can take `start` to.
pub open spec fn runs<K: Fn(ComplexBits, ComplexBits) -> Probe>(
    kernel: K,
    start: Orbit,
    interval: nat,
    n: nat,
    end: Orbit,
) -> bool
    decreases n,
{
    if n == 0 {
        end == start
    } else {
        exists|mid: Orbit| #[trigger] follows(kernel, start, interval, mid)
            && runs(kernel, mid, interval, (n - 1) as nat, end)
    }
}

impl Orbit {
    /// Runs the point for up to `budget` turns, probing with `kernel` while
    /// the point is unresolved and stopping at the turn that resolves it.
    pub fn iterate<K: Fn(ComplexBits, ComplexBits) -> Probe>(
        self,
        interval: u64,
        budget: u64,
        kernel: &K,
    ) -> (r: Orbit)
        requires
            self.status.unresolved() ==> self.status.count() + budget <= u64::MAX,
            forall|z: ComplexBits, c: ComplexBits| kernel.requires((z, c)),
        ensures
            runs(*kernel, self, interval as nat, budget as nat, r),
    {
        let mut cur = self;
        let mut turns: u64 = 0;
        while turns < budget && cur.status.is_unknown()
            invariant
                turns <= budget,
                self.status.unresolved() ==> self.status.count() + budget <= u64::MAX,
                forall|z: ComplexBits, c: ComplexBits| kernel.requires((z, c)),
                runs(*kernel, self, interval as nat, turns as nat, cur),
            decreases budget - turns,
        {
            proof {
                lemma_runs_count(*kernel, self, interval as nat, turns as nat, cur);
            }
            let probe = kernel(cur.z, cur.c);
            let next = cur.advance(probe, interval);
            proof {
                lemma_runs_extend(*kernel, self, interval as nat, turns as nat, cur, next);
            }
            cur = next;
            turns = turns + 1;
        }
        proof {
            lemma_runs_rest(*kernel, self, interval as nat, turns as nat, budget as nat, cur);
        }
        cur
    }
}

/// A run can be lengthened by one turn at its end.
pub proof fn lemma_runs_extend<K: Fn(ComplexBits, ComplexBits) -> Probe>(
    kernel: K,
    start: Orbit,
    interval: nat,
    n: nat,
    mid: Orbit,
    end: Orbit,
)
    requires
        runs(kernel, start, interval, n, mid),
        follows(kernel, mid, interval, end),
    ensures
        runs(kernel, start, interval, n + 1, end),
    decreases n,
{
    if n == 0 {
        assert(follows(kernel, start, interval, end));
        assert(runs(kernel, end, interval, 0, end));
    } else {
        let first = choose|first: Orbit| #[trigger] follows(kernel, start, interval, first)
            && runs(kernel, first, interval, (n - 1) as nat, mid);
        lemma_runs_extend(kernel, first, interval, (n - 1) as nat, mid, end);
        assert(follows(kernel, start, interval, first));
    }
}

/// A run that has reached a resolved state, or has used all its turns, is a
/// run of any greater length that a resolved state allows.
pub proof fn lemma_runs_rest<K: Fn(ComplexBits, ComplexBits) -> Probe>(
    kernel: K,
    start: Orbit,
    interval: nat,
    n: nat,
    m: nat,
    end: Orbit,
)
    requires
        runs(kernel, start, interval, n, end),
        n <= m,
        n == m || !end.status.unresolved(),
    ensures
        runs(kernel, start, interval, m, end),
    decreases m - n,
{
    if n < m {
        assert(follows(kernel, end, interval, end));
        lemma_runs_extend(kernel, start, interval, n, end, end);
        lemma_runs_rest(kernel, start, interval, n + 1, m, end);
    }
}

/// What every run keeps: the parameter stays, the status only moves forward
/// and is never `Rendered` unless it was, a resolved point rests, a point
/// still unresolved after `n` turns has counted each of them, and an escape is
/// counted at a turn before the last.
pub proof fn lemma_runs_count<K: Fn(ComplexBits, ComplexBits) -> Probe>(
    kernel: K,
    start: Orbit,
    interval: nat,
    n: nat,
    end: Orbit,
)
    requires
        runs(kernel, start, interval, n, end),
        start.status.unresolved() ==> start.status.count() + n <= u64::MAX,
    ensures
        end.c == start.c,
        start.status.precedes(end.status),
        !start.status.unresolved() ==> end == start,
        end.status is Rendered ==> start.status is Rendered,
        start.status.unresolved() && end.status.unresolved() ==> end.status.count() == start.status.count() + n,
        start.status.unresolved() && end.status is NotRendered ==> start.status.count() <= end.status.count()
            < start.status.count() + n,
    decreases n,
{
    if n > 0 {
        let mid = choose|mid: Orbit| #[trigger] follows(kernel, start, interval, mid)
            && runs(kernel, mid, interval, (n - 1) as nat, end);
        lemma_runs_count(kernel, mid, interval, (n - 1) as nat, end);
    }
}

/// Where the kernel can give only `probe` at the iterate of an unresolved
/// point, a run of one turn or more is that probe applied, then a run of one
/// turn less.
pub proof fn lemma_runs_first<K: Fn(ComplexBits, ComplexBits) -> Probe>(
    kernel: K,
    start: Orbit,
    interval: nat,
    n: nat,
    end: Orbit,
    probe: Probe,
)
    requires
        start.status.unresolved(),
        forall|p: Probe| kernel.ensures((start.z, start.c), p) ==> p == probe,
        n >= 1,
        runs(kernel, start, interval, n, end),
    ensures
        runs(kernel, start.after(probe, interval), interval, (n - 1) as nat, end),
{
    let mid = choose|mid: Orbit| #[trigger] follows(kernel, start, interval, mid)
        && runs(kernel, mid, interval, (n - 1) as nat, end);
    assert(mid == start.after(probe, interval));
}

/// A run that starts at a resolved point ends where it started.
pub proof fn lemma_runs_resolved<K: Fn(ComplexBits, ComplexBits) -> Probe>(
    kernel: K,
    start: Orbit,
    interval: nat,
    n: nat,
    end: Orbit,
)
    requires
        !start.status.unresolved(),
        runs(kernel, start, interval, n, end),
    ensures
        end == start,
    decreases n,
{
    if n > 0 {
        let mid = choose|mid: Orbit| #[trigger] follows(kernel, start, interval, mid)
            && runs(kernel, mid, interval, (n - 1) as nat, end);
        lemma_runs_resolved(kernel, mid, interval, (n - 1) as nat, end);
    }
}

/// An escape is attributed to the count already reached: an unresolved point
/// whose iterate the kernel finds escaped awaits its colour after any run of
/// one turn or more, with the count and the numbers it had.
pub proof fn lemma_escape_keeps_count<K: Fn(ComplexBits, ComplexBits) -> Probe>(
    kernel: K,
    start: Orbit,
    interval: nat,
    n: nat,
    end: Orbit,
)
    requires
        start.status.unresolved(),
        forall|p: Probe| kernel.ensures((start.z, start.c), p) ==> p == Probe::Escaped,
        n >= 1,
        runs(kernel, start, interval, n, end),
    ensures
        end == (Orbit { status: Point::NotRendered(start.status->Unknown_0), ..start }),
{
    lemma_runs_first(kernel, start, interval, n, end, Probe::Escaped);
    lemma_runs_resolved(kernel, start.after(Probe::Escaped, interval), interval, (n - 1) as nat, end);
}

/// A fixed point is caught at once: an unresolved point whose next iterate
/// equals its cycle reference is in the set after any run of one turn or
/// more.
pub proof fn lemma_return_in_one<K: Fn(ComplexBits, ComplexBits) -> Probe>(
    kernel: K,
    start: Orbit,
    interval: nat,
    n: nat,
    end: Orbit,
    next: ComplexBits,
)
    requires
        start.status.unresolved(),
        forall|p: Probe| kernel.ensures((start.z, start.c), p) ==> p == Probe::Next(next),
        next.coincides(start.last),
        n >= 1,
        runs(kernel, start, interval, n, end),
    ensures
        end == (Orbit { status: Point::InSet, z: next, ..start }),
{
    lemma_runs_first(kernel, start, interval, n, end, Probe::Next(next));
    lemma_runs_resolved(kernel, start.after(Probe::Next(next), interval), interval, (n - 1) as nat, end);
}

/// A cycle of period two is caught at the second turn: an unresolved point
/// whose first iterate differs from its cycle reference and whose second
/// equals it, with no refresh of the reference in between, is in the set
/// after any run of two turns or more, and still unresolved, one count on,
/// after a run of one.
pub proof fn lemma_return_in_two<K: Fn(ComplexBits, ComplexBits) -> Probe>(
    kernel: K,
    start: Orbit,
    interval: nat,
    n: nat,
    end: Orbit,
    first: ComplexBits,
    second: ComplexBits,
)
    requires
        start.status.unresolved(),
        start.status.count() < interval,
        interval <= u64::MAX,
        forall|p: Probe| kernel.ensures((start.z, start.c), p) ==> p == Probe::Next(first),
        forall|p: Probe| kernel.ensures((first, start.c), p) ==> p == Probe::Next(second),
        !first.coincides(start.last),
        second.coincides(start.last),
        n >= 1,
        runs(kernel, start, interval, n, end),
    ensures
        n == 1 ==> end == (Orbit {
            status: Point::Unknown((start.status.count() + 1) as u64),
            z: first,
            ..start
        }),
        n >= 2 ==> end == (Orbit { status: Point::InSet, z: second, ..start }),
{
    lemma_runs_first(kernel, start, interval, n, end, Probe::Next(first));
    let mid = start.after(Probe::Next(first), interval);
    if n >= 2 {
        lemma_runs_first(kernel, mid, interval, (n - 1) as nat, end, Probe::Next(second));
        lemma_runs_resolved(kernel, mid.after(Probe::Next(second), interval), interval, (n - 2) as nat, end);
    }
}

/// Statuses move one way: what can follow a later status can follow an
/// earlier one.
pub proof fn lemma_precedes_transitive(a: Point, b: Point, c: Point)
    requires
        a.precedes(b),
        b.precedes(c),
    ensures
        a.precedes(c),
{
}

} // verus!

use vstd::prelude::*;
use crate::grid::Dims;

verus! {

/// A voxel coordinate `(x, y, z)`.
pub type Point = (usize, usize, usize);

/// A step size that the candidate lattice cannot be laid out with.
#[derive(Clone, Copy, Debug, PartialEq, Eq, Structural)]
pub enum SearchError {
    /// The step size is zero.
    ZeroStep,
    /// The step size is not below half of the smallest grid extent.
    StepTooLarge { step: usize, limit: usize },
}

pub open spec fn min3(a: usize, b: usize, c: usize) -> usize {
    if a <= b && a <= c {
        a
    } else if b <= c {
        b
    } else {
        c
    }
}

/// The candidate lattice of a grid can be laid out with this step size.
pub open spec fn step_is_valid(dims: Dims, step: usize) -> bool {
    step >= 1 && step < min3(dims.width, dims.height, dims.depth) / 2
}

/// `c` is a lattice position on an axis of extent `extent`: a multiple of the step at
/// least one step away from either end.
pub open spec fn on_axis(c: usize, extent: usize, step: usize) -> bool {
    step <= c && c + step < extent && c % step == 0
}

/// `p` is a position of the candidate lattice.
pub open spec fn in_lattice(dims: Dims, step: usize, p: Point) -> bool {
    &&& on_axis(p.0, dims.width, step)
    &&& on_axis(p.1, dims.height, step)
    &&& on_axis(p.2, dims.depth, step)
}

/// The order in which candidates are visited: by `y`, then `z`, then `x`.
pub open spec fn scan_before(a: Point, b: Point) -> bool {
    ||| a.1 < b.1
    ||| a.1 == b.1 && a.2 < b.2
    ||| a.1 == b.1 && a.2 == b.2 && a.0 < b.0
}

/// Every element of `s` comes strictly before the next one in scan order.
pub open spec fn scan_sorted(s: Seq<Point>) -> bool {
    forall|i: int, j: int| 0 <= i < j < s.len() ==> scan_before(#[trigger] s[i], #[trigger] s[j])
}

/// `c` moved by `d - 1` and clamped to `last`: one corner of the probe around `c`.
pub open spec fn probe_coord(c: usize, d: int, last: usize) -> usize {
    let v = c + d - 1;
    if v <= last {
        v as usize
    } else {
        last
    }
}

/// The 2x2x2 neighbourhood whose anisotropy decides whether `p` is worth tracing,
/// clamped to the grid.
pub open spec fn probe_points(dims: Dims, p: Point) -> Seq<Point> {
    let w = (dims.width - 1) as usize;
    let h = (dims.height - 1) as usize;
    let d = (dims.depth - 1) as usize;
    Seq::new(
        8,
        |k: int|
            (probe_coord(p.0, k / 4, w), probe_coord(p.1, (k / 2) % 2, h), probe_coord(p.2, k % 2, d)),
    )
}

/// The voxel a position truncated to `(x, y, z)` lies in, clamped to the grid.
pub open spec fn clamp_point(dims: Dims, x: usize, y: usize, z: usize) -> Point {
    (
        if x < dims.width { x } else { (dims.width - 1) as usize },
        if y < dims.height { y } else { (dims.height - 1) as usize },
        if z < dims.depth { z } else { (dims.depth - 1) as usize },
    )
}

/// Some trail in `trails` passes through voxel `id`.
pub open spec fn on_some_trail(trails: Seq<Seq<usize>>, id: usize) -> bool {
    exists|i: int| 0 <= i < trails.len() && #[trigger] trails[i].contains(id)
}

/// No voxel of `trail` is on any trail of `trails`.
pub open spec fn clear_of(trails: Seq<Seq<usize>>, trail: Seq<usize>) -> bool {
    forall|k: int| 0 <= k < trail.len() ==> !on_some_trail(trails, #[trigger] trail[k])
}

/// Two multiples of `m` less than `m` apart are in order.
proof fn lemma_multiples_gap(a: usize, b: usize, m: usize)
    requires
        m >= 1,
        a % m == 0,
        b % m == 0,
        a < b + m,
    ensures
        a <= b,
{
    let qa = (a / m) as int;
    let qb = (b / m) as int;
    assert(a == m * qa) by {
        vstd::arithmetic::div_mod::lemma_fundamental_div_mod(a as int, m as int);
    }
    assert(b == m * qb) by {
        vstd::arithmetic::div_mod::lemma_fundamental_div_mod(b as int, m as int);
    }
    assert(qa <= qb) by (nonlinear_arith)
        requires
            m * qa < m * qb + m,
            m >= 1,
    ;
    assert(m * qa <= m * qb) by (nonlinear_arith)
        requires
            qa <= qb,
            m >= 1,
    ;
}

/// The next multiple of `m` after a multiple of `m`.
proof fn lemma_next_multiple(a: usize, m: usize)
    requires
        m >= 1,
        a % m == 0,
    ensures
        (a + m) as int % m as int == 0,
{
    vstd::arithmetic::div_mod::lemma_mod_add_multiples_vanish(a as int, m as int);
}

/// Whether `c` is a lattice position on an axis of extent `extent`.
fn on_axis_exec(c: usize, extent: usize, step: usize) -> (r: bool)
    requires
        step >= 1,
    ensures
        r == on_axis(c, extent, step),
{
    step <= c && c < extent && step < extent - c && c % step == 0
}

/// Whether `p` is a position of the candidate lattice.
fn in_lattice_exec(dims: Dims, step: usize, p: Point) -> (r: bool)
    requires
        step >= 1,
    ensures
        r == in_lattice(dims, step, p),
{
    on_axis_exec(p.0, dims.width, step) && on_axis_exec(p.1, dims.height, step) && on_axis_exec(
        p.2,
        dims.depth,
        step,
    )
}

/// The state of a greedy seed point search between rounds: the seeds found so far, in
/// the order they were found, with the voxel trail of the streamline that found each.
pub struct SeedSearch {
    dims: Dims,
    step: usize,
    n_points: usize,
    rounds: usize,
    seeds: Vec<Point>,
    trails: Vec<Vec<usize>>,
}

impl SeedSearch {
    pub closed spec fn spec_dims(&self) -> Dims {
        self.dims
    }

    pub closed spec fn spec_step(&self) -> usize {
        self.step
    }

    pub closed spec fn spec_n_points(&self) -> usize {
        self.n_points
    }

    /// Number of rounds finished.
    pub closed spec fn spec_rounds(&self) -> usize {
        self.rounds
    }

    pub closed spec fn spec_seeds(&self) -> Seq<Point> {
        self.seeds@
    }

    pub closed spec fn spec_trails(&self) -> Seq<Seq<usize>> {
        self.trails@.map_values(|t: Vec<usize>| t@)
    }

    /// `p` is a lattice position that is not yet a seed.
    pub open spec fn is_candidate(&self, p: Point) -> bool {
        in_lattice(self.spec_dims(), self.spec_step(), p) && !self.spec_seeds().contains(p)
    }

    /// What a round may accept: a candidate whose trail meets no earlier trail.
    pub open spec fn admissible(&self, p: Point, trail: Seq<usize>) -> bool {
        self.is_candidate(p) && clear_of(self.spec_trails(), trail)
    }

    pub open spec fn wf(&self) -> bool {
        &&& self.spec_dims().wf()
        &&& step_is_valid(self.spec_dims(), self.spec_step())
        &&& self.spec_rounds() <= self.spec_n_points()
        &&& self.spec_seeds().len() == self.spec_trails().len()
        &&& self.spec_seeds().len() <= self.spec_rounds()
        &&& self.spec_seeds().no_duplicates()
        &&& forall|i: int|
            0 <= i < self.spec_seeds().len() ==> in_lattice(
                self.spec_dims(),
                self.spec_step(),
                #[trigger] self.spec_seeds()[i],
            )
        &&& forall|j: int|
            0 <= j < self.spec_trails().len() ==> clear_of(
                self.spec_trails().take(j),
                #[trigger] self.spec_trails()[j],
            )
    }

    /// Starts a search for up to `n_points` seeds over a grid of `dims`, trying every
    /// `step`-th voxel. Fails when `step` is zero or not below half the smallest extent.
    pub fn new(dims: Dims, n_points: usize, step: usize) -> (r: Result<SeedSearch, SearchError>)
        requires
            dims.wf(),
        ensures
            step == 0 ==> r == Err::<SeedSearch, SearchError>(SearchError::ZeroStep),
            step >= 1 && !step_is_valid(dims, step) ==> r == Err::<SeedSearch, SearchError>(
                SearchError::StepTooLarge {
                    step,
                    limit: min3(dims.width, dims.height, dims.depth) / 2,
                },
            ),
            r is Ok <==> step_is_valid(dims, step),
            r matches Ok(s) ==> {
                &&& s.wf()
                &&& s.spec_dims() == dims
                &&& s.spec_step() == step
                &&& s.spec_n_points() == n_points
                &&& s.spec_rounds() == 0
                &&& s.spec_seeds().len() == 0
            },
    {
        if step == 0 {
            return Err(SearchError::ZeroStep);
        }
        let smallest = if dims.width <= dims.height && dims.width <= dims.depth {
            dims.width
        } else if dims.height <= dims.depth {
            dims.height
        } else {
            dims.depth
        };
        let limit = smallest / 2;
        if step >= limit {
            return Err(SearchError::StepTooLarge { step, limit });
        }
        let s = SeedSearch { dims, step, n_points, rounds: 0, seeds: Vec::new(), trails: Vec::new() };
        assert(s.spec_trails().len() == 0);
        Ok(s)
    }

    pub fn dims(&self) -> (r: Dims)
        ensures
            r == self.spec_dims(),
    {
        self.dims
    }

    pub fn step(&self) -> (r: usize)
        ensures
            r == self.spec_step(),
    {
        self.step
    }

    /// Number of seeds asked for.
    pub fn n_points(&self) -> (r: usize)
        ensures
            r == self.spec_n_points(),
    {
        self.n_points
    }

    /// Number of rounds finished.
    pub fn rounds(&self) -> (r: usize)
        ensures
            r == self.spec_rounds(),
    {
        self.rounds
    }

    /// The seeds found so far, in the order they were found.
    pub fn seeds(&self) -> (r: &Vec<Point>)
        ensures
            r@ == self.spec_seeds(),
    {
        &self.seeds
    }

    /// Whether another round is due.
    pub fn has_round_left(&self) -> (r: bool)
        ensures
            r == (self.spec_rounds() < self.spec_n_points()),
    {
        self.rounds < self.n_points
    }

    /// Whether `p` is already a seed.
    pub fn has_seed(&self, p: Point) -> (r: bool)
        ensures
            r == self.spec_seeds().contains(p),
    {
        let mut i: usize = 0;
        while i < self.seeds.len()
            invariant
                i <= self.seeds@.len(),
                forall|k: int| 0 <= k < i ==> self.seeds@[k] != p,
            decreases self.seeds@.len() - i,
        {
            let q = self.seeds[i];
            if q.0 == p.0 && q.1 == p.1 && q.2 == p.2 {
                return true;
            }
            i = i + 1;
        }
        false
    }

    /// Whether the streamline of some accepted seed passes through voxel `id`.
    pub fn visited(&self, id: usize) -> (r: bool)
        ensures
            r == on_some_trail(self.spec_trails(), id),
    {
        let mut i: usize = 0;
        while i < self.trails.len()
            invariant
                i <= self.trails@.len(),
                self.spec_trails().len() == self.trails@.len(),
                forall|k: int| 0 <= k < i ==> !(#[trigger] self.spec_trails()[k]).contains(id),
            decreases self.trails@.len() - i,
        {
            let t = &self.trails[i];
            assert(self.spec_trails()[i as int] == t@);
            let mut j: usize = 0;
            while j < t.len()
                invariant
                    j <= t@.len(),
                    i < self.trails@.len(),
                    self.spec_trails()[i as int] == t@,
                    forall|k: int| 0 <= k < j ==> t@[k] != id,
                decreases t@.len() - j,
            {
                if t[j] == id {
                    assert(self.spec_trails()[i as int][j as int] == id);
                    assert(self.spec_trails()[i as int].contains(id));
                    return true;
                }
                j = j + 1;
            }
            assert(!t@.contains(id));
            i = i + 1;
        }
        false
    }

    /// Whether no voxel of `trail` lies on the streamline of an accepted seed.
    pub fn is_clear(&self, trail: &Vec<usize>) -> (r: bool)
        ensures
            r == clear_of(self.spec_trails(), trail@),
    {
        let mut k: usize = 0;
        while k < trail.len()
            invariant
                k <= trail@.len(),
                forall|m: int| 0 <= m < k ==> !on_some_trail(self.spec_trails(), #[trigger] trail@[m]),
            decreases trail@.len() - k,
        {
            if self.visited(trail[k]) {
                return false;
            }
            k = k + 1;
        }
        true
    }

    /// The voxel that a position truncated to `(x, y, z)` is sampled at.
    pub fn voxel_at(&self, x: usize, y: usize, z: usize) -> (r: Point)
        requires
            self.wf(),
        ensures
            r == clamp_point(self.spec_dims(), x, y, z),
            self.spec_dims().contains(r),
    {
        let d = self.dims;
        (
            if x < d.width { x } else { d.width - 1 },
            if y < d.height { y } else { d.height - 1 },
            if z < d.depth { z } else { d.depth - 1 },
        )
    }

    /// The identifier a streamline trail records for the voxel at `p`.
    pub fn voxel_id(&self, p: Point) -> (r: usize)
        requires
            self.wf(),
            self.spec_dims().contains(p),
        ensures
            r == self.spec_dims().cell_index(p),
    {
        self.dims.index_of(p)
    }

    /// Appends to `trail` the voxel that a streamline at the position truncated to
    /// `(x, y, z)` is in, and returns that voxel with whether the streamline of an
    /// accepted seed passed through it.
    pub fn enter_voxel(&self, trail: &mut Vec<usize>, x: usize, y: usize, z: usize) -> (r: (
        Point,
        bool,
    ))
        requires
            self.wf(),
        ensures
            r.0 == clamp_point(self.spec_dims(), x, y, z),
            self.spec_dims().contains(r.0),
            final(trail)@ == old(trail)@.push(self.spec_dims().cell_index(r.0) as usize),
            r.1 == on_some_trail(self.spec_trails(), self.spec_dims().cell_index(r.0) as usize),
    {
        let v = self.voxel_at(x, y, z);
        let id = self.voxel_id(v);
        trail.push(id);
        (v, self.visited(id))
    }

    /// The eight voxels around `p` whose anisotropy product decides whether `p` is
    /// traced.
    pub fn probe(&self, p: Point) -> (r: Vec<Point>)
        requires
            self.wf(),
            in_lattice(self.spec_dims(), self.spec_step(), p),
        ensures
            r@ == probe_points(self.spec_dims(), p),
            forall|k: int| 0 <= k < r@.len() ==> self.spec_dims().contains(#[trigger] r@[k]),
    {
        let d = self.dims;
        let mut r: Vec<Point> = Vec::new();
        let mut dx: usize = 0;
        while dx < 2
            invariant
                dx <= 2,
                d == self.spec_dims(),
                d.wf(),
                in_lattice(d, self.spec_step(), p),
                self.spec_step() >= 1,
                r@.len() == 4 * dx,
                forall|k: int| 0 <= k < r@.len() ==> r@[k] == #[trigger] probe_points(d, p)[k],
            decreases 2 - dx,
        {
            let mut dy: usize = 0;
            while dy < 2
                invariant
                    dx < 2,
                    dy <= 2,
                    d == self.spec_dims(),
                    d.wf(),
                    in_lattice(d, self.spec_step(), p),
                    self.spec_step() >= 1,
                self.spec_step() >= 1,
                    r@.len() == 4 * dx + 2 * dy,
                    forall|k: int| 0 <= k < r@.len() ==> r@[k] == #[trigger] probe_points(d, p)[k],
                decreases 2 - dy,
            {
                let mut dz: usize = 0;
                while dz < 2
                    invariant
                        dx < 2,
                        dy < 2,
                        dz <= 2,
                        d == self.spec_dims(),
                        d.wf(),
                        in_lattice(d, self.spec_step(), p),
                        self.spec_step() >= 1,
                    self.spec_step() >= 1,
                self.spec_step() >= 1,
                        r@.len() == 4 * dx + 2 * dy + dz,
                        forall|k: int| 0 <= k < r@.len() ==> r@[k] == #[trigger] probe_points(d, p)[k],
                    decreases 2 - dz,
                {
                    let x = if p.0 + dx - 1 <= d.width - 1 { p.0 + dx - 1 } else { d.width - 1 };
                    let y = if p.1 + dy - 1 <= d.height - 1 { p.1 + dy - 1 } else { d.height - 1 };
                    let z = if p.2 + dz - 1 <= d.depth - 1 { p.2 + dz - 1 } else { d.depth - 1 };
                    let ghost k = 4 * dx + 2 * dy + dz;
                    assert(k / 4 == dx && (k / 2) % 2 == dy && k % 2 == dz);
                    r.push((x, y, z));
                    dz = dz + 1;
                }
                dy = dy + 1;
            }
            dx = dx + 1;
        }
        assert(r@ =~= probe_points(d, p));
        r
    }

    /// Ends a round. While rounds are due, the round counts, and `best`, the highest
    /// scoring candidate of the round with its streamline trail, becomes the next seed
    /// if it is admissible. Returns whether a seed was added.
    pub fn finish_round(&mut self, best: Option<(Point, Vec<usize>)>) -> (r: bool)
        requires
            old(self).wf(),
        ensures
            final(self).wf(),
            final(self).spec_dims() == old(self).spec_dims(),
            final(self).spec_step() == old(self).spec_step(),
            final(self).spec_n_points() == old(self).spec_n_points(),
            old(self).spec_rounds() < old(self).spec_n_points() ==> final(self).spec_rounds()
                == old(self).spec_rounds() + 1,
            old(self).spec_rounds() >= old(self).spec_n_points() ==> final(self).spec_rounds()
                == old(self).spec_rounds(),
            r == (old(self).spec_rounds() < old(self).spec_n_points() && match best {
                Some(b) => old(self).admissible(b.0, b.1@),
                None => false,
            }),
            r ==> (best matches Some(b) && final(self).spec_seeds() == old(self).spec_seeds().push(
                b.0,
            ) && final(self).spec_trails() == old(self).spec_trails().push(b.1@)),
            !r ==> final(self).spec_seeds() == old(self).spec_seeds() && final(self).spec_trails()
                == old(self).spec_trails(),
    {
        if self.rounds >= self.n_points {
            return false;
        }
        self.rounds = self.rounds + 1;
        match best {
            None => false,
            Some((p, trail)) => {
                if !in_lattice_exec(self.dims, self.step, p) || self.has_seed(p) || !self.is_clear(&trail) {
                    return false;
                }
                let ghost old_trails = self.spec_trails();
                let ghost t = trail@;
                self.seeds.push(p);
                self.trails.push(trail);
                proof {
                    assert(self.spec_trails() =~= old_trails.push(t));
                    assert(self.spec_trails().take(old_trails.len() as int) =~= old_trails);
                    assert forall|j: int| 0 <= j < old_trails.len() implies #[trigger] self.spec_trails().take(j) =~= old_trails.take(j) by {}
                }
                true
            },
        }
    }

    /// The lattice positions that are not seeds yet, in scan order: by `y`, then `z`,
    /// then `x`.
    pub fn candidates(&self) -> (r: Vec<Point>)
        requires
            self.wf(),
        ensures
            scan_sorted(r@),
            forall|p: Point| r@.contains(p) <==> self.is_candidate(p),
    {
        let d = self.dims;
        let step = self.step;
        let mut out: Vec<Point> = Vec::new();
        let mut y: usize = step;
        while y < d.height - step
            invariant
                d == self.spec_dims(),
                step == self.spec_step(),
                self.wf(),
                step <= y <= d.height,
                y % step == 0,
                scan_sorted(out@),
                forall|k: int| 0 <= k < out@.len() ==> (#[trigger] out@[k]).1 < y,
                forall|p: Point| out@.contains(p) <==> (self.is_candidate(p) && p.1 < y),
            decreases d.height - y,
        {
            let mut z: usize = step;
            while z < d.depth - step
                invariant
                    d == self.spec_dims(),
                    step == self.spec_step(),
                    self.wf(),
                    on_axis(y, d.height, step),
                    step <= z <= d.depth,
                    z % step == 0,
                    scan_sorted(out@),
                    forall|k: int|
                        0 <= k < out@.len() ==> scan_before(#[trigger] out@[k], (0, y, z)),
                    forall|p: Point|
                        out@.contains(p) <==> (self.is_candidate(p) && scan_before(p, (0, y, z))),
                decreases d.depth - z,
            {
                let mut x: usize = step;
                while x < d.width - step
                    invariant
                        d == self.spec_dims(),
                        step == self.spec_step(),
                        self.wf(),
                        on_axis(y, d.height, step),
                        on_axis(z, d.depth, step),
                        step <= x <= d.width,
                        x % step == 0,
                        scan_sorted(out@),
                        forall|k: int|
                            0 <= k < out@.len() ==> scan_before(#[trigger] out@[k], (x, y, z)),
                        forall|p: Point|
                            out@.contains(p) <==> (self.is_candidate(p) && scan_before(
                                p,
                                (x, y, z),
                            )),
                    decreases d.width - x,
                {
                    let p = (x, y, z);
                    let ghost prev = out@;
                    if !self.has_seed(p) {
                        out.push(p);
                        assert forall|q: Point| out@.contains(q) implies prev.contains(q) || q == p by {
                            if out@.contains(q) {
                                let k = choose|k: int| 0 <= k < out@.len() && out@[k] == q;
                                if k < prev.len() {
                                    assert(prev[k] == q);
                                }
                            }
                        }
                        assert forall|q: Point| prev.contains(q) implies out@.contains(q) by {
                            let k = choose|k: int| 0 <= k < prev.len() && prev[k] == q;
                            assert(out@[k] == q);
                        }
                        assert(out@[prev.len() as int] == p);
                    }
                    proof {
                        lemma_next_multiple(x, step);
                        assert forall|q: Point|
                            self.is_candidate(q) && scan_before(q, ((x + step) as usize, y, z)) implies
                            scan_before(q, (x, y, z)) || q == p by {
                            if q.1 == y && q.2 == z && q.0 >= x {
                                lemma_multiples_gap(q.0, x, step);
                            }
                        }
                    }
                    x = x + step;
                }
                proof {
                    lemma_next_multiple(z, step);
                    assert forall|q: Point|
                        self.is_candidate(q) && scan_before(q, (0, y, (z + step) as usize)) implies
                        scan_before(q, (x, y, z)) by {
                        if q.1 == y && q.2 >= z {
                            lemma_multiples_gap(q.2, z, step);
                        }
                    }
                }
                z = z + step;
            }
            proof {
                lemma_next_multiple(y, step);
                assert forall|q: Point|
                    self.is_candidate(q) && q.1 < y + step implies scan_before(q, (0, y, z)) by {
                    if q.1 >= y {
                        lemma_multiples_gap(q.1, y, step);
                    }
                }
            }
            y = y + step;
        }
        out
    }
}


/// No two seeds of a search are the same voxel.
pub proof fn lemma_seeds_distinct(s: &SeedSearch, i: int, j: int)
    requires
        s.wf(),
        0 <= i < j < s.spec_seeds().len(),
    ensures
        s.spec_seeds()[i] != s.spec_seeds()[j],
{
}

/// A search never holds more seeds than it was asked for, nor more than the rounds it
/// has finished.
pub proof fn lemma_seed_count_bound(s: &SeedSearch)
    requires
        s.wf(),
    ensures
        s.spec_seeds().len() <= s.spec_rounds() <= s.spec_n_points(),
{
}

/// A voxel on the trail of an accepted seed is on the trail of no seed accepted later.
pub proof fn lemma_trails_disjoint(s: &SeedSearch, i: int, j: int, k: int)
    requires
        s.wf(),
        0 <= i < j < s.spec_trails().len(),
        0 <= k < s.spec_trails()[j].len(),
    ensures
        !s.spec_trails()[i].contains(s.spec_trails()[j][k]),
{
    let trails = s.spec_trails();
    assert(clear_of(trails.take(j), trails[j]));
    assert(!on_some_trail(trails.take(j), trails[j][k]));
    assert(trails.take(j)[i] == trails[i]);
}

/// Two sequences in scan order with the same elements are equal.
pub proof fn lemma_scan_order_unique(a: Seq<Point>, b: Seq<Point>)
    requires
        scan_sorted(a),
        scan_sorted(b),
        forall|p: Point| a.contains(p) <==> b.contains(p),
    ensures
        a == b,
    decreases a.len(),
{
    if a.len() == 0 {
        if b.len() > 0 {
            assert(b.contains(b[0]));
        }
        assert(a =~= b);
    } else {
        assert(a.contains(a[0]));
        assert(b.len() > 0);
        if a[0] != b[0] {
            let j = choose|j: int| 0 <= j < b.len() && b[j] == a[0];
            assert(b.contains(b[0]));
            let i = choose|i: int| 0 <= i < a.len() && a[i] == b[0];
            assert(scan_before(b[0], b[j]));
            assert(scan_before(a[0], a[i]));
        }
        let a1 = a.drop_first();
        let b1 = b.drop_first();
        assert forall|p: Point| a1.contains(p) <==> b1.contains(p) by {
            if a1.contains(p) {
                let k = choose|k: int| 0 <= k < a1.len() && a1[k] == p;
                assert(scan_before(a[0], a[k + 1]));
                assert(a.contains(p));
                let m = choose|m: int| 0 <= m < b.len() && b[m] == p;
                assert(m != 0);
                assert(b1[m - 1] == p);
            }
            if b1.contains(p) {
                let k = choose|k: int| 0 <= k < b1.len() && b1[k] == p;
                assert(scan_before(b[0], b[k + 1]));
                assert(b.contains(p));
                let m = choose|m: int| 0 <= m < a.len() && a[m] == p;
                assert(m != 0);
                assert(a1[m - 1] == p);
            }
        }
        assert(scan_sorted(a1)) by {
            assert forall|i: int, j: int| 0 <= i < j < a1.len() implies scan_before(a1[i], a1[j]) by {
                assert(scan_before(a[i + 1], a[j + 1]));
            }
        }
        assert(scan_sorted(b1)) by {
            assert forall|i: int, j: int| 0 <= i < j < b1.len() implies scan_before(b1[i], b1[j]) by {
                assert(scan_before(b[i + 1], b[j + 1]));
            }
        }
        lemma_scan_order_unique(a1, b1);
        assert(a =~= b) by {
            assert forall|k: int| 0 <= k < a.len() implies a[k] == b[k] by {
                if k > 0 {
                    assert(a[k] == a1[k - 1]);
                    assert(b[k] == b1[k - 1]);
                }
            }
        }
    }
}

/// The candidates of a search state are determined by the state: any two sequences
/// that meet the contract of `candidates` are equal, so a search visits its candidates
/// in one order only.
pub proof fn lemma_candidates_determined(s: &SeedSearch, a: Seq<Point>, b: Seq<Point>)
    requires
        scan_sorted(a),
        scan_sorted(b),
        forall|p: Point| a.contains(p) <==> s.is_candidate(p),
        forall|p: Point| b.contains(p) <==> s.is_candidate(p),
    ensures
        a == b,
{
    lemma_scan_order_unique(a, b);
}

} // verus!

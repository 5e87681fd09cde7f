use vstd::prelude::*;

verus! {

/// Number of samples stored per voxel: confidence, then Dxx, Dxy, Dxz, Dyy, Dyz, Dzz.
pub const CHANNELS: usize = 7;

/// The extent of a voxel grid along each axis.
#[derive(Clone, Copy, Debug, PartialEq, Eq, Structural)]
pub struct Dims {
    pub width: usize,
    pub height: usize,
    pub depth: usize,
}

impl Dims {
    /// Number of voxels.
    pub open spec fn volume(self) -> int {
        self.width * self.height * self.depth
    }

    /// Every axis is non-empty and every sample of the grid has a `usize` offset.
    pub open spec fn wf(self) -> bool {
        &&& self.width >= 1
        &&& self.height >= 1
        &&& self.depth >= 1
        &&& self.volume() * CHANNELS <= usize::MAX
    }

    pub open spec fn contains(self, p: (usize, usize, usize)) -> bool {
        p.0 < self.width && p.1 < self.height && p.2 < self.depth
    }

    /// Row-major voxel order: depth outermost, then height, then width.
    pub open spec fn cell_index(self, p: (usize, usize, usize)) -> int {
        (p.2 * self.height + p.1) * self.width + p.0
    }

    /// Offset of channel `c` of the voxel at `p` in the flat sample array.
    pub open spec fn sample_offset(self, p: (usize, usize, usize), c: int) -> int {
        self.cell_index(p) * CHANNELS + c
    }

    pub proof fn lemma_cell_index_bounds(self, p: (usize, usize, usize))
        requires
            self.contains(p),
        ensures
            0 <= self.cell_index(p) < self.volume(),
            0 <= p.2 * self.height <= p.2 * self.height + p.1,
            p.2 * self.height + p.1 <= (p.2 * self.height + p.1) * self.width,
            (p.2 * self.height + p.1) * self.width <= self.cell_index(p),
    {
        let w = self.width as int;
        let h = self.height as int;
        let d = self.depth as int;
        let (x, y, z) = (p.0 as int, p.1 as int, p.2 as int);
        assert(0 <= z * h + y < d * h) by (nonlinear_arith)
            requires
                0 <= y < h,
                0 <= z < d,
        ;
        assert(0 <= (z * h + y) * w + x < (d * h) * w) by (nonlinear_arith)
            requires
                0 <= x < w,
                0 <= z * h + y < d * h,
        ;
        assert(w * h * d == (d * h) * w) by (nonlinear_arith);
        assert(z * h <= z * h + y);
        assert((z * h + y) * w <= (z * h + y) * w + x);
        assert(z * h + y <= (z * h + y) * w) by (nonlinear_arith)
            requires
                w >= 1,
                z * h + y >= 0,
        ;
    }

    pub proof fn lemma_wf_bounds(self)
        requires
            self.wf(),
        ensures
            self.width * self.height <= self.volume(),
            self.volume() <= self.volume() * CHANNELS,
            self.volume() * CHANNELS <= usize::MAX,
            self.width * self.height * self.depth == self.volume(),
    {
        let w = self.width as int;
        let h = self.height as int;
        let d = self.depth as int;
        assert(w * h <= w * h * d) by (nonlinear_arith)
            requires
                w >= 1,
                h >= 1,
                d >= 1,
        ;
    }

    /// Checks that every axis is non-empty and that the sample array of such a grid
    /// is addressable.
    pub fn new(width: usize, height: usize, depth: usize) -> (r: Option<Dims>)
        ensures
            r is Some <==> (width >= 1 && height >= 1 && depth >= 1 && width * height
                * depth * CHANNELS <= usize::MAX),
            r matches Some(d) ==> d.wf() && d == (Dims { width, height, depth }),
    {
        if width == 0 || height == 0 || depth == 0 {
            return None;
        }
        let wh = width.checked_mul(height);
        match wh {
            None => {
                assert(width * height * depth * CHANNELS > usize::MAX) by (nonlinear_arith)
                    requires
                        width * height > usize::MAX,
                        depth >= 1,
                ;
                None
            },
            Some(wh) => {
                match wh.checked_mul(depth) {
                    None => None,
                    Some(v) => {
                        match v.checked_mul(CHANNELS) {
                            None => None,
                            Some(_) => Some(Dims { width, height, depth }),
                        }
                    },
                }
            },
        }
    }

    /// Number of voxels.
    pub fn n_cells(&self) -> (r: usize)
        requires
            self.wf(),
        ensures
            r == self.volume(),
    {
        proof {
            self.lemma_wf_bounds();
        }
        self.width * self.height * self.depth
    }

    /// Number of samples a field of these dimensions is made of.
    pub fn n_samples(&self) -> (r: usize)
        requires
            self.wf(),
        ensures
            r == self.volume() * CHANNELS,
    {
        proof {
            self.lemma_wf_bounds();
        }
        self.width * self.height * self.depth * CHANNELS
    }

    /// Position of the voxel at `p` in row-major order.
    pub fn index_of(&self, p: (usize, usize, usize)) -> (r: usize)
        requires
            self.wf(),
            self.contains(p),
        ensures
            r == self.cell_index(p),
            r < self.volume(),
    {
        proof {
            self.lemma_cell_index_bounds(p);
            self.lemma_wf_bounds();
        }
        (p.2 * self.height + p.1) * self.width + p.0
    }
}

/// The six independent entries of a symmetric tensor: Dxx, Dxy, Dxz, Dyy, Dyz, Dzz.
pub type Tensor<S> = (S, S, S, S, S, S);

/// The tensor stored after the confidence sample that starts at offset `o`.
pub open spec fn tensor_at<S>(samples: Seq<S>, o: int) -> Tensor<S> {
    (samples[o + 1], samples[o + 2], samples[o + 3], samples[o + 4], samples[o + 5], samples[o + 6])
}

/// `c` is the cell of voxel `i`: `blank` where `confident` rejected the voxel's
/// confidence sample, else what `analyse` returned for the voxel's tensor.
pub open spec fn cell_of_voxel<S, C, F: Fn(S) -> bool, G: Fn(Tensor<S>) -> C>(
    confident: F,
    analyse: G,
    blank: C,
    samples: Seq<S>,
    i: int,
    c: C,
) -> bool {
    let o = i * CHANNELS;
    ||| confident.ensures((samples[o],), false) && c == blank
    ||| confident.ensures((samples[o],), true) && analyse.ensures((tensor_at(samples, o),), c)
}

/// How a sample array compares with the size its grid asks for.
#[derive(Clone, Copy, Debug, PartialEq, Eq, Structural)]
pub enum ShapeCheck {
    /// The array holds exactly the samples of the grid.
    Exact,
    /// The array holds more samples than the grid reads: the dimensions are probably wrong.
    Surplus { expected: usize, given: usize },
}

/// A sample array that cannot fill its grid.
#[derive(Clone, Copy, Debug, PartialEq, Eq, Structural)]
pub enum ShapeError {
    TooShort { expected: usize, given: usize },
}

/// Compares the number of samples with the number a grid of `dims` reads.
pub fn check_shape(dims: Dims, n_samples: usize) -> (r: Result<ShapeCheck, ShapeError>)
    requires
        dims.wf(),
    ensures
        n_samples < dims.volume() * CHANNELS ==> r == Err::<ShapeCheck, ShapeError>(
            ShapeError::TooShort { expected: (dims.volume() * CHANNELS) as usize, given: n_samples },
        ),
        n_samples == dims.volume() * CHANNELS ==> r == Ok::<ShapeCheck, ShapeError>(
            ShapeCheck::Exact,
        ),
        n_samples > dims.volume() * CHANNELS ==> r == Ok::<ShapeCheck, ShapeError>(
            ShapeCheck::Surplus { expected: (dims.volume() * CHANNELS) as usize, given: n_samples },
        ),
{
    let expected = dims.n_samples();
    if n_samples < expected {
        Err(ShapeError::TooShort { expected, given: n_samples })
    } else if n_samples == expected {
        Ok(ShapeCheck::Exact)
    } else {
        Ok(ShapeCheck::Surplus { expected, given: n_samples })
    }
}

/// A dense voxel grid holding one cell per voxel, in the order of `Dims::cell_index`.
pub struct Grid<C> {
    dims: Dims,
    cells: Vec<C>,
}

impl<C> Grid<C> {
    pub closed spec fn spec_dims(&self) -> Dims {
        self.dims
    }

    pub closed spec fn spec_cells(&self) -> Seq<C> {
        self.cells@
    }

    /// The grid holds exactly one cell per voxel.
    pub open spec fn wf(&self) -> bool {
        &&& self.spec_dims().wf()
        &&& self.spec_cells().len() == self.spec_dims().volume()
    }

    pub fn dims(&self) -> (r: Dims)
        ensures
            r == self.spec_dims(),
    {
        self.dims
    }

    /// Number of cells.
    pub fn len(&self) -> (r: usize)
        ensures
            r == self.spec_cells().len(),
    {
        self.cells.len()
    }

    /// The cell of the voxel at `p`.
    pub fn get(&self, p: (usize, usize, usize)) -> (r: &C)
        requires
            self.wf(),
            self.spec_dims().contains(p),
        ensures
            *r == self.spec_cells()[self.spec_dims().cell_index(p)],
    {
        let i = self.dims.index_of(p);
        &self.cells[i]
    }

    /// The cells in row-major voxel order.
    pub fn cells(&self) -> (r: &Vec<C>)
        ensures
            r@ == self.spec_cells(),
    {
        &self.cells
    }
}

impl<C: Copy> Grid<C> {
    /// Builds the grid of `dims` from a flat sample array, `CHANNELS` samples per voxel.
    /// A voxel whose confidence sample `confident` rejects gets `blank`; one that it
    /// accepts gets what `analyse` makes of the voxel's tensor. Fails when the array is too short.
    pub fn from_samples<S: Copy, F: Fn(S) -> bool, G: Fn(Tensor<S>) -> C>(
        dims: Dims,
        samples: &Vec<S>,
        confident: F,
        analyse: G,
        blank: C,
    ) -> (r: Result<Grid<C>, ShapeError>)
        requires
            dims.wf(),
            forall|s: S| confident.requires((s,)),
            forall|t: Tensor<S>| analyse.requires((t,)),
        ensures
            r is Ok <==> samples@.len() >= dims.volume() * CHANNELS,
            r matches Err(e) ==> e == (ShapeError::TooShort {
                expected: (dims.volume() * CHANNELS) as usize,
                given: samples@.len() as usize,
            }),
            r matches Ok(g) ==> {
                &&& g.wf()
                &&& g.spec_dims() == dims
                &&& forall|i: int|
                    #![trigger g.spec_cells()[i]]
                    0 <= i < dims.volume() ==> cell_of_voxel(
                        confident,
                        analyse,
                        blank,
                        samples@,
                        i,
                        g.spec_cells()[i],
                    )
            },
    {
        match check_shape(dims, samples.len()) {
            Err(e) => {
                return Err(e);
            },
            Ok(_) => {},
        }
        let n = dims.n_cells();
        proof {
            dims.lemma_wf_bounds();
        }
        let mut cells: Vec<C> = Vec::new();
        let mut i: usize = 0;
        while i < n
            invariant
                n == dims.volume(),
                i <= n,
                samples@.len() >= dims.volume() * CHANNELS,
                dims.volume() * CHANNELS <= usize::MAX,
                cells@.len() == i,
                forall|s: S| confident.requires((s,)),
                forall|t: Tensor<S>| analyse.requires((t,)),
                forall|k: int|
                    #![trigger cells@[k]]
                    0 <= k < i ==> cell_of_voxel(confident, analyse, blank, samples@, k, cells@[k]),
            decreases n - i,
        {
            assert(i * CHANNELS + CHANNELS <= n * CHANNELS) by (nonlinear_arith)
                requires
                    i < n,
            ;
            let o = i * CHANNELS;
            let accepted = confident(samples[o]);
            let cell = if accepted {
                analyse(
                    (
                        samples[o + 1],
                        samples[o + 2],
                        samples[o + 3],
                        samples[o + 4],
                        samples[o + 5],
                        samples[o + 6],
                    ),
                )
            } else {
                blank
            };
            let ghost prev = cells@;
            cells.push(cell);
            proof {
                assert(tensor_at(samples@, o as int) == (
                    samples@[o + 1],
                    samples@[o + 2],
                    samples@[o + 3],
                    samples@[o + 4],
                    samples@[o + 5],
                    samples@[o + 6],
                ));
                assert forall|k: int| 0 <= k < i implies #[trigger] cells@[k] == prev[k] by {}
            }
            i = i + 1;
        }
        Ok(Grid { dims, cells })
    }
}

} // verus!

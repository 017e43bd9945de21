use vstd::prelude::*;
use crate::axis::{ConfigError, Dir};

verus! {

/// Ghost nodes added to each axis: one below the interior, two above it.
pub const GHOSTS: usize = 3;

/// The node counts of the three axes, ghost nodes included.
///
/// Along an axis of `n` nodes the interior nodes are `1 ..= n - 3`; node `0`
/// lies below them and nodes `n - 2`, `n - 1` above them.
#[derive(Clone, Copy, Debug, PartialEq, Eq, Structural)]
pub struct GridShape {
    pub nx: usize,
    pub ny: usize,
    pub nz: usize,
}

/// Nearest interior index of an axis of `n` nodes.
pub open spec fn clamp_spec(i: int, n: int) -> int {
    if i < 1 {
        1
    } else if i > n - 3 {
        n - 3
    } else {
        i
    }
}

/// Whether `i` is an interior index of an axis of `n` nodes.
pub open spec fn interior(i: int, n: int) -> bool {
    1 <= i <= n - 3
}

/// `a` comes before `b` in row-major order.
pub open spec fn lex_lt(a: (int, int, int), b: (int, int, int)) -> bool {
    a.0 < b.0 || (a.0 == b.0 && a.1 < b.1) || (a.0 == b.0 && a.1 == b.1 && a.2 < b.2)
}

impl GridShape {
    /// Each axis holds at least two interior nodes and the dense field fits
    /// in memory.
    pub open spec fn wf(&self) -> bool {
        &&& self.nx >= 5
        &&& self.ny >= 5
        &&& self.nz >= 5
        &&& self.nx * self.ny * self.nz <= usize::MAX
    }

    /// Number of entries of the dense field.
    pub open spec fn size(&self) -> int {
        self.nx * self.ny * self.nz
    }

    /// Position of node `(i, j, k)` in the row-major dense field.
    pub open spec fn flat(&self, i: int, j: int, k: int) -> int {
        i * self.ny * self.nz + j * self.nz + k
    }

    pub open spec fn in_range(&self, i: int, j: int, k: int) -> bool {
        0 <= i < self.nx && 0 <= j < self.ny && 0 <= k < self.nz
    }

    pub open spec fn is_interior(&self, i: int, j: int, k: int) -> bool {
        interior(i, self.nx as int) && interior(j, self.ny as int) && interior(k, self.nz as int)
    }

    /// Number of interior nodes.
    pub open spec fn interior_size(&self) -> int {
        (self.nx - 3) * (self.ny - 3) * (self.nz - 3)
    }

    /// Position of interior node `(i, j, k)` among the interior nodes taken
    /// in row-major order.
    pub open spec fn rank(&self, i: int, j: int, k: int) -> int {
        ((i - 1) * (self.ny - 3) + (j - 1)) * (self.nz - 3) + (k - 1)
    }

    /// Shape of a grid with `cx`, `cy` and `cz` interior nodes along x, y and z.
    pub fn new(cx: usize, cy: usize, cz: usize) -> (r: Result<GridShape, ConfigError>)
        ensures
            cx < 2 ==> r == Err::<GridShape, ConfigError>(ConfigError::TooFewNodes(Dir::X)),
            cx >= 2 && cy < 2 ==> r == Err::<GridShape, ConfigError>(ConfigError::TooFewNodes(Dir::Y)),
            cx >= 2 && cy >= 2 && cz < 2 ==> r == Err::<GridShape, ConfigError>(ConfigError::TooFewNodes(Dir::Z)),
            cx >= 2 && cy >= 2 && cz >= 2 ==> (r is Err <==> (cx + 3) * (cy + 3) * (cz + 3) > usize::MAX),
            r is Err ==> r == Err::<GridShape, ConfigError>(ConfigError::TooLarge) || cx < 2 || cy < 2 || cz < 2,
            r matches Ok(s) ==> s.wf() && s.nx == cx + 3 && s.ny == cy + 3 && s.nz == cz + 3,
    {
        if cx < 2 {
            return Err(ConfigError::TooFewNodes(Dir::X));
        }
        if cy < 2 {
            return Err(ConfigError::TooFewNodes(Dir::Y));
        }
        if cz < 2 {
            return Err(ConfigError::TooFewNodes(Dir::Z));
        }
        if cx > usize::MAX - GHOSTS || cy > usize::MAX - GHOSTS || cz > usize::MAX - GHOSTS {
            proof {
                assert((cx + 3) * (cy + 3) * (cz + 3) > usize::MAX) by (nonlinear_arith)
                    requires
                        cx + 3 > usize::MAX || cy + 3 > usize::MAX || cz + 3 > usize::MAX,
                        cx >= 2, cy >= 2, cz >= 2;
            }
            return Err(ConfigError::TooLarge);
        }
        let nx = cx + GHOSTS;
        let ny = cy + GHOSTS;
        let nz = cz + GHOSTS;
        match nx.checked_mul(ny) {
            None => {
                proof {
                    assert(nx * ny * nz > usize::MAX) by (nonlinear_arith)
                        requires nx * ny > usize::MAX, nz >= 5;
                }
                Err(ConfigError::TooLarge)
            },
            Some(nxy) => match nxy.checked_mul(nz) {
                None => Err(ConfigError::TooLarge),
                Some(_) => Ok(GridShape { nx, ny, nz }),
            },
        }
    }

    /// Number of entries of the dense field.
    pub fn len(&self) -> (r: usize)
        requires
            self.wf(),
        ensures
            r == self.size(),
    {
        proof {
            let (nx, ny, nz) = (self.nx as int, self.ny as int, self.nz as int);
            assert(nx * ny <= nx * ny * nz) by (nonlinear_arith)
                requires nx >= 0, ny >= 0, nz >= 1;
        }
        self.nx * self.ny * self.nz
    }

    /// Position of node `(i, j, k)` in the dense field.
    pub fn index(&self, i: usize, j: usize, k: usize) -> (r: usize)
        requires
            self.wf(),
            self.in_range(i as int, j as int, k as int),
        ensures
            r == self.flat(i as int, j as int, k as int),
            r < self.size(),
    {
        proof {
            lemma_flat_bound(*self, i as int, j as int, k as int);
        }
        i * self.ny * self.nz + j * self.nz + k
    }
}

/// Every node of the grid has a position inside the dense field.
pub proof fn lemma_flat_bound(s: GridShape, i: int, j: int, k: int)
    requires
        s.wf(),
        s.in_range(i, j, k),
    ensures
        0 <= s.flat(i, j, k) < s.size(),
        i * s.ny <= i * s.ny * s.nz,
        j * s.nz <= s.ny * s.nz,
{
    let ny = s.ny as int;
    let nz = s.nz as int;
    let nx = s.nx as int;
    assert(0 <= j * nz + k < ny * nz) by (nonlinear_arith)
        requires 0 <= j < ny, 0 <= k < nz;
    assert(0 <= i * ny * nz + j * nz + k < nx * ny * nz) by (nonlinear_arith)
        requires 0 <= i < nx, 0 <= j * nz + k < ny * nz;
    assert(i * ny <= i * ny * nz) by (nonlinear_arith)
        requires 0 <= i, 0 <= ny, 1 <= nz;
    assert(j * nz <= ny * nz) by (nonlinear_arith)
        requires 0 <= j < ny, 0 <= nz;
}

} // verus!

use vstd::prelude::*;
use crate::axis::Type;
use crate::shape::{clamp_spec, interior, lemma_flat_bound, lex_lt, GridShape};

verus! {

/// Source of the samples of a field, asked once for each interior node.
///
/// The sampler gets the node's indices; it is free to keep and change state
/// of its own between calls.
pub trait Sampler<T> {
    /// Value of the sampled function at interior node `(i, j, k)`.
    fn sample(&mut self, i: usize, j: usize, k: usize) -> T;
}

/// A sampler together with the history of what it was asked: every node,
/// with the value it handed back, oldest first.
pub struct Recorded<T, S> {
    pub sampler: S,
    pub calls: Ghost<Seq<((usize, usize, usize), T)>>,
}

impl<T, S: Sampler<T>> Recorded<T, S> {
    /// `sampler`, with an empty history.
    pub fn new(sampler: S) -> (r: Recorded<T, S>)
        ensures
            r.sampler == sampler,
            r.calls@ == Seq::<((usize, usize, usize), T)>::empty(),
    {
        Recorded { sampler, calls: Ghost(Seq::empty()) }
    }

    /// Asks the sampler for node `(i, j, k)` and records the call.
    pub fn sample(&mut self, i: usize, j: usize, k: usize) -> (r: T)
        ensures
            final(self).calls@ == old(self).calls@.push(((i, j, k), r)),
    {
        let v = self.sampler.sample(i, j, k);
        self.calls = Ghost(self.calls@.push(((i, j, k), v)));
        v
    }
}

/// Samples on every node of a grid, stored row-major over `(x, y, z)`.
pub struct SampleField<T> {
    pub shape: GridShape,
    pub data: Vec<T>,
}

/// Nearest interior index of an axis of `n` nodes.
pub fn clamp_index(i: usize, n: usize) -> (r: usize)
    requires
        n >= 5,
    ensures
        r == clamp_spec(i as int, n as int),
        interior(r as int, n as int),
{
    if i < 1 {
        1
    } else if i > n - 3 {
        n - 3
    } else {
        i
    }
}

/// Interior nodes lie among the interior samples.
proof fn lemma_rank_bound(s: GridShape, i: int, j: int, k: int)
    requires
        s.wf(),
        s.is_interior(i, j, k),
    ensures
        0 <= s.rank(i, j, k) < s.interior_size(),
        s.interior_size() <= s.size(),
        0 <= (i - 1) * (s.ny - 3) <= (i - 1) * (s.ny - 3) + (j - 1) < (s.nx - 3) * (s.ny - 3),
        (s.nx - 3) * (s.ny - 3) <= s.interior_size(),
        ((i - 1) * (s.ny - 3) + (j - 1)) * (s.nz - 3) <= s.interior_size(),
{
    let (a, b, c) = (s.nx - 3, s.ny - 3, s.nz - 3);
    let (x, y, z) = (i - 1, j - 1, k - 1);
    assert(0 <= x * b + y < a * b) by (nonlinear_arith)
        requires 0 <= x < a, 0 <= y < b;
    assert(0 <= (x * b + y) * c + z < a * b * c) by (nonlinear_arith)
        requires 0 <= x * b + y < a * b, 0 <= z < c;
    assert(a * b * c <= s.nx * s.ny * s.nz) by (nonlinear_arith)
        requires 0 < a <= s.nx, 0 < b <= s.ny, 0 < c <= s.nz;
    assert(0 <= x * b) by (nonlinear_arith)
        requires 0 <= x, 0 <= b;
    assert(a * b <= a * b * c) by (nonlinear_arith)
        requires 0 <= a * b, 1 <= c;
    assert((x * b + y) * c <= a * b * c) by (nonlinear_arith)
        requires 0 <= x * b + y < a * b, 1 <= c;
}

/// Sample that node `(i, j, k)` of `shape` takes from the interior samples
/// `samples`, given in row-major order.
pub open spec fn laid_out<T>(shape: GridShape, samples: Seq<T>, i: int, j: int, k: int) -> T {
    samples[shape.rank(
        clamp_spec(i, shape.nx as int),
        clamp_spec(j, shape.ny as int),
        clamp_spec(k, shape.nz as int),
    )]
}

/// Number of stencil nodes along z for a scheme.
pub open spec fn z_width(mode: Type) -> int {
    match mode {
        Type::Tricubic => 4,
        Type::BicubicUnilinear => 2,
    }
}

/// First stencil node along z for a scheme and a cell starting at `mk`.
pub open spec fn z_first(mode: Type, mk: int) -> int {
    match mode {
        Type::Tricubic => mk - 1,
        Type::BicubicUnilinear => mk,
    }
}

impl<T: Copy> SampleField<T> {
    pub open spec fn wf(&self) -> bool {
        self.shape.wf() && self.data@.len() == self.shape.size()
    }

    /// Sample stored at node `(i, j, k)`.
    pub open spec fn value(&self, i: int, j: int, k: int) -> T {
        self.data@[self.shape.flat(i, j, k)]
    }

    /// Lays out the interior samples, given in row-major order, on `shape`;
    /// every node outside the interior takes the sample of the node reached by
    /// clamping each of its indices to that axis's interior.
    pub fn from_samples(shape: GridShape, samples: &Vec<T>) -> (r: SampleField<T>)
        requires
            shape.wf(),
            samples@.len() == shape.interior_size(),
        ensures
            r.wf(),
            r.shape == shape,
            forall|i: int, j: int, k: int|
                #![trigger r.value(i, j, k)]
                shape.in_range(i, j, k) ==> r.value(i, j, k) == laid_out(shape, samples@, i, j, k),
    {
        let mut data: Vec<T> = Vec::new();
        let mut i: usize = 0;
        while i < shape.nx
            invariant
                shape.wf(),
                samples@.len() == shape.interior_size(),
                i <= shape.nx,
                data@.len() == shape.flat(i as int, 0, 0),
                forall|a: int, b: int, c: int|
                    #![trigger shape.flat(a, b, c)]
                    shape.in_range(a, b, c) && shape.flat(a, b, c) < data@.len() ==> data@[shape.flat(a, b, c)]
                        == laid_out(shape, samples@, a, b, c),
            decreases shape.nx - i,
        {
            let mut j: usize = 0;
            while j < shape.ny
                invariant
                    shape.wf(),
                    samples@.len() == shape.interior_size(),
                    i < shape.nx,
                    j <= shape.ny,
                    data@.len() == shape.flat(i as int, j as int, 0),
                    forall|a: int, b: int, c: int|
                        #![trigger shape.flat(a, b, c)]
                        shape.in_range(a, b, c) && shape.flat(a, b, c) < data@.len() ==> data@[shape.flat(a, b, c)]
                            == laid_out(shape, samples@, a, b, c),
                decreases shape.ny - j,
            {
                let mut k: usize = 0;
                while k < shape.nz
                    invariant
                        shape.wf(),
                        samples@.len() == shape.interior_size(),
                        i < shape.nx,
                        j < shape.ny,
                        k <= shape.nz,
                        data@.len() == shape.flat(i as int, j as int, k as int),
                        forall|a: int, b: int, c: int|
                            #![trigger shape.flat(a, b, c)]
                            shape.in_range(a, b, c) && shape.flat(a, b, c) < data@.len() ==> data@[shape.flat(a, b, c)]
                                == laid_out(shape, samples@, a, b, c),
                    decreases shape.nz - k,
                {
                    let ci = clamp_index(i, shape.nx);
                    let cj = clamp_index(j, shape.ny);
                    let ck = clamp_index(k, shape.nz);
                    proof {
                        lemma_rank_bound(shape, ci as int, cj as int, ck as int);
                        lemma_flat_bound(shape, i as int, j as int, k as int);
                    }
                    let p = ((ci - 1) * (shape.ny - 3) + (cj - 1)) * (shape.nz - 3) + (ck - 1);
                    let ghost before = data@;
                    data.push(samples[p]);
                    proof {
                        assert forall|a: int, b: int, c: int|
                            #![trigger shape.flat(a, b, c)]
                            shape.in_range(a, b, c) && shape.flat(a, b, c) < data@.len() implies data@[shape.flat(a, b, c)]
                                == laid_out(shape, samples@, a, b, c) by {
                            if shape.flat(a, b, c) == before.len() {
                                lemma_flat_injective(shape, a, b, c, i as int, j as int, k as int);
                                assert(p == shape.rank(ci as int, cj as int, ck as int));
                                assert(data@[shape.flat(a, b, c)] == samples@[p as int]);
                                assert(ci == clamp_spec(a, shape.nx as int));
                                assert(cj == clamp_spec(b, shape.ny as int));
                                assert(ck == clamp_spec(c, shape.nz as int));
                                assert(data@[shape.flat(a, b, c)] == laid_out(shape, samples@, a, b, c));
                            } else {
                                assert(shape.flat(a, b, c) < before.len());
                                assert(data@[shape.flat(a, b, c)] == before[shape.flat(a, b, c)]);
                                assert(before[shape.flat(a, b, c)] == laid_out(shape, samples@, a, b, c));
                            }
                        }
                    }
                    k = k + 1;
                }
                proof {
                    assert(shape.flat(i as int, j as int, shape.nz as int) == shape.flat(i as int, j + 1, 0))
                        by (nonlinear_arith);
                }
                j = j + 1;
            }
            proof {
                assert(shape.flat(i as int, shape.ny as int, 0) == shape.flat(i + 1, 0, 0))
                    by (nonlinear_arith);
            }
            i = i + 1;
        }
        proof {
            assert forall|a: int, b: int, c: int| #![trigger shape.flat(a, b, c)] shape.in_range(a, b, c)
                implies shape.flat(a, b, c) < data@.len() by {
                lemma_flat_bound(shape, a, b, c);
                assert(shape.flat(shape.nx as int, 0, 0) == shape.size()) by (nonlinear_arith);
            }
        }
        SampleField { shape, data }
    }
}

impl<T: Copy> SampleField<T> {
    /// Samples the interior of `shape` with `sampler`, one call for each
    /// interior node, in row-major order and for no other node, then copies
    /// into each node outside the interior the sample of the node reached by
    /// clamping each of its indices to that axis's interior.
    ///
    /// In the history of `sampler`, the call for interior node `(i, j, k)`
    /// is the one at position `shape.rank(i, j, k)` among the new calls, and
    /// its result is the sample stored at that node.
    pub fn generate<S: Sampler<T>>(shape: GridShape, sampler: &mut Recorded<T, S>) -> (r: SampleField<T>)
        requires
            shape.wf(),
        ensures
            r.wf(),
            r.shape == shape,
            final(sampler).calls@.len() == old(sampler).calls@.len() + shape.interior_size(),
            final(sampler).calls@.subrange(0, old(sampler).calls@.len() as int) == old(sampler).calls@,
            forall|i: int, j: int, k: int|
                #![trigger shape.rank(i, j, k)]
                shape.is_interior(i, j, k) ==> final(sampler).calls@[old(sampler).calls@.len() + shape.rank(i, j, k)]
                    == ((i as usize, j as usize, k as usize), r.value(i, j, k)),
            forall|i: int, j: int, k: int|
                #![trigger r.value(i, j, k)]
                shape.in_range(i, j, k) ==> r.value(i, j, k) == r.value(
                    clamp_spec(i, shape.nx as int),
                    clamp_spec(j, shape.ny as int),
                    clamp_spec(k, shape.nz as int),
                ),
    {
        let ghost (a, b, c) = (shape.nx - 3, shape.ny - 3, shape.nz - 3);
        let ghost log0 = sampler.calls@;
        let ghost l0 = log0.len() as int;
        let mut samples: Vec<T> = Vec::new();
        let mut i: usize = 1;
        proof {
            assert((i - 1) * b * c == 0) by (nonlinear_arith)
                requires i == 1;
        }
        while i <= shape.nx - 3
            invariant
                shape.wf(),
                a == shape.nx - 3 && b == shape.ny - 3 && c == shape.nz - 3,
                1 <= i <= shape.nx - 2,
                samples@.len() == (i - 1) * b * c,
                sampler.calls@.len() == l0 + samples@.len(),
                sampler.calls@.subrange(0, l0) == log0,
                l0 == log0.len(),
                forall|t: int| 0 <= t < samples@.len() ==> #[trigger] sampler.calls@[l0 + t].1 == samples@[t],
                forall|x: int, y: int, z: int|
                    #![trigger shape.rank(x, y, z)]
                    shape.is_interior(x, y, z) && shape.rank(x, y, z) < samples@.len() ==> sampler.calls@[l0
                        + shape.rank(x, y, z)].0 == (x as usize, y as usize, z as usize),
            decreases shape.nx - i,
        {
            let mut j: usize = 1;
            while j <= shape.ny - 3
                invariant
                    shape.wf(),
                    a == shape.nx - 3 && b == shape.ny - 3 && c == shape.nz - 3,
                    1 <= i <= shape.nx - 3,
                    1 <= j <= shape.ny - 2,
                    samples@.len() == ((i - 1) * b + (j - 1)) * c,
                    sampler.calls@.len() == l0 + samples@.len(),
                    sampler.calls@.subrange(0, l0) == log0,
                    l0 == log0.len(),
                    forall|t: int| 0 <= t < samples@.len() ==> #[trigger] sampler.calls@[l0 + t].1 == samples@[t],
                    forall|x: int, y: int, z: int|
                        #![trigger shape.rank(x, y, z)]
                        shape.is_interior(x, y, z) && shape.rank(x, y, z) < samples@.len() ==> sampler.calls@[l0
                            + shape.rank(x, y, z)].0 == (x as usize, y as usize, z as usize),
                decreases shape.ny - j,
            {
                let mut k: usize = 1;
                while k <= shape.nz - 3
                    invariant
                        shape.wf(),
                        a == shape.nx - 3 && b == shape.ny - 3 && c == shape.nz - 3,
                        1 <= i <= shape.nx - 3,
                        1 <= j <= shape.ny - 3,
                        1 <= k <= shape.nz - 2,
                        samples@.len() == ((i - 1) * b + (j - 1)) * c + (k - 1),
                        sampler.calls@.len() == l0 + samples@.len(),
                        sampler.calls@.subrange(0, l0) == log0,
                        l0 == log0.len(),
                        forall|t: int| 0 <= t < samples@.len() ==> #[trigger] sampler.calls@[l0 + t].1 == samples@[t],
                        forall|x: int, y: int, z: int|
                            #![trigger shape.rank(x, y, z)]
                            shape.is_interior(x, y, z) && shape.rank(x, y, z) < samples@.len() ==> sampler.calls@[l0
                                + shape.rank(x, y, z)].0 == (x as usize, y as usize, z as usize),
                    decreases shape.nz - k,
                {
                    let ghost log_before = sampler.calls@;
                    let ghost len_before = samples@.len();
                    let v = sampler.sample(i, j, k);
                    samples.push(v);
                    proof {
                        assert(shape.rank(i as int, j as int, k as int) == len_before);
                        assert(sampler.calls@.subrange(0, l0) =~= log_before.subrange(0, l0));
                        assert forall|t: int| 0 <= t < samples@.len() implies #[trigger] sampler.calls@[l0 + t].1
                            == samples@[t] by {
                            if t < len_before {
                                assert(sampler.calls@[l0 + t] == log_before[l0 + t]);
                            }
                        }
                        assert forall|x: int, y: int, z: int|
                            #![trigger shape.rank(x, y, z)]
                            shape.is_interior(x, y, z) && shape.rank(x, y, z) < samples@.len() implies sampler.calls@[l0
                                + shape.rank(x, y, z)].0 == (x as usize, y as usize, z as usize) by {
                            lemma_rank_bound(shape, x, y, z);
                            if shape.rank(x, y, z) == len_before {
                                lemma_rank_injective(shape, x, y, z, i as int, j as int, k as int);
                            } else {
                                assert(sampler.calls@[l0 + shape.rank(x, y, z)] == log_before[l0 + shape.rank(x, y, z)]);
                            }
                        }
                    }
                    k = k + 1;
                }
                proof {
                    assert(((i - 1) * b + (j - 1)) * c + c == ((i - 1) * b + j) * c) by (nonlinear_arith);
                }
                j = j + 1;
            }
            proof {
                assert(((i - 1) * b + b) * c == i * b * c) by (nonlinear_arith);
                assert((i - 1) * b * c == ((i - 1) * b) * c) by (nonlinear_arith);
            }
            i = i + 1;
        }
        proof {
            assert((a + 1 - 1) * b * c == a * b * c) by (nonlinear_arith);
        }
        let r = SampleField::from_samples(shape, &samples);
        proof {
            assert forall|i: int, j: int, k: int|
                #![trigger r.value(i, j, k)]
                shape.in_range(i, j, k) implies r.value(i, j, k) == r.value(
                    clamp_spec(i, shape.nx as int),
                    clamp_spec(j, shape.ny as int),
                    clamp_spec(k, shape.nz as int),
                ) by {
                let (ci, cj, ck) = (
                    clamp_spec(i, shape.nx as int),
                    clamp_spec(j, shape.ny as int),
                    clamp_spec(k, shape.nz as int),
                );
                assert(shape.in_range(ci, cj, ck));
                assert(r.value(ci, cj, ck) == laid_out(shape, samples@, ci, cj, ck));
            }
            assert forall|i: int, j: int, k: int|
                #![trigger shape.rank(i, j, k)]
                shape.is_interior(i, j, k) implies sampler.calls@[l0 + shape.rank(i, j, k)]
                    == ((i as usize, j as usize, k as usize), r.value(i, j, k)) by {
                lemma_rank_bound(shape, i, j, k);
                assert(shape.in_range(i, j, k));
                assert(r.value(i, j, k) == laid_out(shape, samples@, i, j, k));
                assert(sampler.calls@[l0 + shape.rank(i, j, k)].1 == samples@[shape.rank(i, j, k)]);
            }
        }
        r
    }

    /// Sample that node `t` holds once the ghost layer has been filled from
    /// `data`, with `cur` the first node not yet visited.
    pub open spec fn ghost_fill_at(shape: GridShape, data: Seq<T>, t: (int, int, int), cur: (int, int, int)) -> T {
        if lex_lt(t, cur) {
            data[shape.flat(
                clamp_spec(t.0, shape.nx as int),
                clamp_spec(t.1, shape.ny as int),
                clamp_spec(t.2, shape.nz as int),
            )]
        } else {
            data[shape.flat(t.0, t.1, t.2)]
        }
    }

    /// Overwrites every node outside the interior with the sample of the
    /// node reached by clamping each of its indices to that axis's interior;
    /// interior samples stay as they are.
    pub fn fill_ghosts(&mut self)
        requires
            old(self).wf(),
        ensures
            final(self).wf(),
            final(self).shape == old(self).shape,
            forall|i: int, j: int, k: int|
                #![trigger final(self).value(i, j, k)]
                old(self).shape.in_range(i, j, k) ==> final(self).value(i, j, k) == old(self).value(
                    clamp_spec(i, old(self).shape.nx as int),
                    clamp_spec(j, old(self).shape.ny as int),
                    clamp_spec(k, old(self).shape.nz as int),
                ),
    {
        let ghost orig = self.data@;
        let shape = self.shape;
        let mut i: usize = 0;
        while i < shape.nx
            invariant
                self.wf(),
                self.shape == shape,
                orig.len() == shape.size(),
                i <= shape.nx,
                forall|a: int, b: int, c: int|
                    #![trigger self.data@[shape.flat(a, b, c)]]
                    shape.in_range(a, b, c) ==> self.data@[shape.flat(a, b, c)]
                        == Self::ghost_fill_at(shape, orig, (a, b, c), (i as int, 0, 0)),
            decreases shape.nx - i,
        {
            let mut j: usize = 0;
            while j < shape.ny
                invariant
                    self.wf(),
                    self.shape == shape,
                    orig.len() == shape.size(),
                    i < shape.nx,
                    j <= shape.ny,
                    forall|a: int, b: int, c: int|
                        #![trigger self.data@[shape.flat(a, b, c)]]
                        shape.in_range(a, b, c) ==> self.data@[shape.flat(a, b, c)]
                            == Self::ghost_fill_at(shape, orig, (a, b, c), (i as int, j as int, 0)),
                decreases shape.ny - j,
            {
                let mut k: usize = 0;
                while k < shape.nz
                    invariant
                        self.wf(),
                        self.shape == shape,
                        orig.len() == shape.size(),
                        i < shape.nx,
                        j < shape.ny,
                        k <= shape.nz,
                        forall|a: int, b: int, c: int|
                            #![trigger self.data@[shape.flat(a, b, c)]]
                            shape.in_range(a, b, c) ==> self.data@[shape.flat(a, b, c)]
                                == Self::ghost_fill_at(shape, orig, (a, b, c), (i as int, j as int, k as int)),
                    decreases shape.nz - k,
                {
                    let ci = clamp_index(i, shape.nx);
                    let cj = clamp_index(j, shape.ny);
                    let ck = clamp_index(k, shape.nz);
                    if i != ci || j != cj || k != ck {
                        let p = shape.index(i, j, k);
                        let q = shape.index(ci, cj, ck);
                        let ghost before = self.data@;
                        let v = self.data[q];
                        proof {
                            assert(before[shape.flat(ci as int, cj as int, ck as int)] == v);
                            assert(v == orig[shape.flat(ci as int, cj as int, ck as int)]);
                        }
                        self.data.set(p, v);
                        proof {
                            assert forall|a: int, b: int, c: int|
                                #![trigger self.data@[shape.flat(a, b, c)]]
                                shape.in_range(a, b, c) implies self.data@[shape.flat(a, b, c)]
                                    == Self::ghost_fill_at(shape, orig, (a, b, c), (i as int, j as int, k + 1)) by {
                                lemma_flat_bound(shape, a, b, c);
                                if !(a == i && b == j && c == k) {
                                    if shape.flat(a, b, c) == p {
                                        lemma_flat_injective(shape, a, b, c, i as int, j as int, k as int);
                                    }
                                    assert(self.data@[shape.flat(a, b, c)] == before[shape.flat(a, b, c)]);
                                }
                            }
                        }
                    }
                    k = k + 1;
                }
                j = j + 1;
            }
            i = i + 1;
        }
        proof {
            assert forall|a: int, b: int, c: int|
                #![trigger self.value(a, b, c)]
                shape.in_range(a, b, c) implies self.value(a, b, c) == orig[shape.flat(
                    clamp_spec(a, shape.nx as int),
                    clamp_spec(b, shape.ny as int),
                    clamp_spec(c, shape.nz as int),
                )] by {
                assert(self.data@[shape.flat(a, b, c)]
                    == Self::ghost_fill_at(shape, orig, (a, b, c), (shape.nx as int, 0, 0)));
            }
        }
    }

    /// Sample stored at node `(i, j, k)`.
    pub fn get(&self, i: usize, j: usize, k: usize) -> (r: T)
        requires
            self.wf(),
            self.shape.in_range(i as int, j as int, k as int),
        ensures
            r == self.value(i as int, j as int, k as int),
    {
        let p = self.shape.index(i, j, k);
        self.data[p]
    }

    /// Samples read by the scheme `mode` for the cell whose lowest corner is
    /// node `(mi, mj, mk)`: nodes `mi - 1 ..= mi + 2` along x and
    /// `mj - 1 ..= mj + 2` along y; along z the same four nodes for
    /// `Tricubic` and `mk`, `mk + 1` for `BicubicUnilinear`. The samples come
    /// row-major, z varying fastest.
    pub fn stencil(&self, mi: usize, mj: usize, mk: usize, mode: Type) -> (r: Vec<T>)
        requires
            self.wf(),
            interior(mi as int, self.shape.nx as int),
            interior(mj as int, self.shape.ny as int),
            interior(mk as int, self.shape.nz as int),
        ensures
            r@.len() == 16 * z_width(mode),
            forall|a: int, b: int, c: int|
                #![trigger r@[(a * 4 + b) * z_width(mode) + c]]
                0 <= a < 4 && 0 <= b < 4 && 0 <= c < z_width(mode) ==> r@[(a * 4 + b) * z_width(mode) + c]
                    == self.value(mi - 1 + a, mj - 1 + b, z_first(mode, mk as int) + c),
    {
        let (w, z0): (usize, usize) = match mode {
            Type::Tricubic => (4, mk - 1),
            Type::BicubicUnilinear => (2, mk),
        };
        let mut r: Vec<T> = Vec::new();
        let mut a: usize = 0;
        while a < 4
            invariant
                self.wf(),
                interior(mi as int, self.shape.nx as int),
                interior(mj as int, self.shape.ny as int),
                interior(mk as int, self.shape.nz as int),
                w == z_width(mode),
                z0 == z_first(mode, mk as int),
                a <= 4,
                r@.len() == a * 4 * w,
                forall|x: int, y: int, z: int|
                    #![trigger r@[(x * 4 + y) * w + z]]
                    0 <= x < a && 0 <= y < 4 && 0 <= z < w ==> r@[(x * 4 + y) * w + z]
                        == self.value(mi - 1 + x, mj - 1 + y, z0 + z),
            decreases 4 - a,
        {
            let mut b: usize = 0;
            while b < 4
                invariant
                    self.wf(),
                    interior(mi as int, self.shape.nx as int),
                    interior(mj as int, self.shape.ny as int),
                    interior(mk as int, self.shape.nz as int),
                    w == z_width(mode),
                    z0 == z_first(mode, mk as int),
                    a < 4,
                    b <= 4,
                    r@.len() == (a * 4 + b) * w,
                    forall|x: int, y: int, z: int|
                        #![trigger r@[(x * 4 + y) * w + z]]
                        (0 <= x < a && 0 <= y < 4 || x == a && 0 <= y < b) && 0 <= z < w ==> r@[(x * 4 + y) * w + z]
                            == self.value(mi - 1 + x, mj - 1 + y, z0 + z),
                decreases 4 - b,
            {
                let mut c: usize = 0;
                while c < w
                    invariant
                        self.wf(),
                        interior(mi as int, self.shape.nx as int),
                        interior(mj as int, self.shape.ny as int),
                        interior(mk as int, self.shape.nz as int),
                        w == z_width(mode),
                        z0 == z_first(mode, mk as int),
                        a < 4,
                        b < 4,
                        c <= w,
                        r@.len() == (a * 4 + b) * w + c,
                        forall|x: int, y: int, z: int|
                            #![trigger r@[(x * 4 + y) * w + z]]
                            (0 <= x < a && 0 <= y < 4 || x == a && 0 <= y < b || x == a && y == b && z < c)
                                && 0 <= z < w ==> r@[(x * 4 + y) * w + z] == self.value(
                                mi - 1 + x,
                                mj - 1 + y,
                                z0 + z,
                            ),
                    decreases w - c,
                {
                    let v = self.get(mi - 1 + a, mj - 1 + b, z0 + c);
                    let ghost before = r@;
                    r.push(v);
                    proof {
                        assert forall|x: int, y: int, z: int|
                            (0 <= x < a && 0 <= y < 4 || x == a && 0 <= y < b || x == a && y == b && z < c + 1)
                                && 0 <= z < w implies #[trigger] r@[(x * 4 + y) * w + z] == self.value(
                                mi - 1 + x,
                                mj - 1 + y,
                                z0 + z,
                            ) by {
                            lemma_stencil_pos(x, y, z, a as int, b as int, c as int, w as int);
                            if x == a && y == b && z == c {
                            } else {
                                assert(r@[(x * 4 + y) * w + z] == before[(x * 4 + y) * w + z]);
                            }
                        }
                    }
                    c = c + 1;
                }
                b = b + 1;
            }
            a = a + 1;
        }
        r
    }
}

/// Positions in a stencil listed row-major come in the order of the nodes.
proof fn lemma_stencil_pos(x: int, y: int, z: int, a: int, b: int, c: int, w: int)
    requires
        0 <= y < 4, 0 <= b < 4, 0 <= z < w, 0 <= c < w, 0 <= x, 0 <= a,
        x < a || x == a && y < b || x == a && y == b && z <= c,
    ensures
        (x * 4 + y) * w + z <= (a * 4 + b) * w + c,
        (x * 4 + y) * w + z == (a * 4 + b) * w + c ==> x == a && y == b && z == c,
{
    assert((x * 4 + y) * w + z <= (a * 4 + b) * w + c) by (nonlinear_arith)
        requires
            0 <= y < 4, 0 <= b < 4, 0 <= z < w, 0 <= c < w, 0 <= x, 0 <= a,
            x < a || x == a && y < b || x == a && y == b && z <= c;
    if (x * 4 + y) * w + z == (a * 4 + b) * w + c {
        assert(x == a && y == b && z == c) by (nonlinear_arith)
            requires
                0 <= y < 4, 0 <= b < 4, 0 <= z < w, 0 <= c < w, 0 <= x, 0 <= a,
                x < a || x == a && y < b || x == a && y == b && z <= c,
                (x * 4 + y) * w + z == (a * 4 + b) * w + c;
    }
}

/// A field generated by a sampler whose every new answer is `v` holds `v`
/// at every node, ghost nodes included. `before` and `after` are the
/// sampler's logs around the call that generated `r`.
pub proof fn lemma_constant_sampler_constant_field<T: Copy>(
    shape: GridShape,
    before: Seq<((usize, usize, usize), T)>,
    after: Seq<((usize, usize, usize), T)>,
    r: SampleField<T>,
    v: T,
)
    requires
        shape.wf(),
        r.wf(),
        r.shape == shape,
        after.len() == before.len() + shape.interior_size(),
        forall|i: int, j: int, k: int|
            #![trigger shape.rank(i, j, k)]
            shape.is_interior(i, j, k) ==> after[before.len() + shape.rank(i, j, k)]
                == ((i as usize, j as usize, k as usize), r.value(i, j, k)),
        forall|i: int, j: int, k: int|
            #![trigger r.value(i, j, k)]
            shape.in_range(i, j, k) ==> r.value(i, j, k) == r.value(
                clamp_spec(i, shape.nx as int),
                clamp_spec(j, shape.ny as int),
                clamp_spec(k, shape.nz as int),
            ),
        forall|t: int| before.len() <= t < after.len() ==> (#[trigger] after[t]).1 == v,
    ensures
        forall|i: int, j: int, k: int| #![trigger r.value(i, j, k)] shape.in_range(i, j, k) ==> r.value(i, j, k) == v,
{
    assert forall|i: int, j: int, k: int| #![trigger r.value(i, j, k)] shape.in_range(i, j, k) implies r.value(
        i,
        j,
        k,
    ) == v by {
        let (ci, cj, ck) = (
            clamp_spec(i, shape.nx as int),
            clamp_spec(j, shape.ny as int),
            clamp_spec(k, shape.nz as int),
        );
        lemma_rank_bound(shape, ci, cj, ck);
        assert(after[before.len() + shape.rank(ci, cj, ck)].1 == r.value(ci, cj, ck));
    }
}

/// Two interior nodes with one position among the interior samples are one
/// node.
pub proof fn lemma_rank_injective(s: GridShape, a: int, b: int, c: int, i: int, j: int, k: int)
    requires
        s.wf(),
        s.is_interior(a, b, c),
        s.is_interior(i, j, k),
        s.rank(a, b, c) == s.rank(i, j, k),
    ensures
        a == i && b == j && c == k,
{
    let ny = s.ny - 3;
    let nz = s.nz - 3;
    let (a1, b1, c1, i1, j1, k1) = (a - 1, b - 1, c - 1, i - 1, j - 1, k - 1);
    assert((a1 * ny + b1) * nz + c1 == a1 * ny * nz + (b1 * nz + c1)) by (nonlinear_arith);
    assert((i1 * ny + j1) * nz + k1 == i1 * ny * nz + (j1 * nz + k1)) by (nonlinear_arith);
    assert(0 <= b1 * nz + c1 < ny * nz) by (nonlinear_arith)
        requires 0 <= b1 < ny, 0 <= c1 < nz;
    assert(0 <= j1 * nz + k1 < ny * nz) by (nonlinear_arith)
        requires 0 <= j1 < ny, 0 <= k1 < nz;
    assert(a1 == i1) by (nonlinear_arith)
        requires
            a1 * ny * nz + (b1 * nz + c1) == i1 * ny * nz + (j1 * nz + k1),
            0 <= b1 * nz + c1 < ny * nz,
            0 <= j1 * nz + k1 < ny * nz;
    assert(b1 == j1) by (nonlinear_arith)
        requires b1 * nz + c1 == j1 * nz + k1, 0 <= c1 < nz, 0 <= k1 < nz;
}

/// Two nodes of the grid with one position in the dense field are one node.
pub proof fn lemma_flat_injective(s: GridShape, a: int, b: int, c: int, i: int, j: int, k: int)
    requires
        s.wf(),
        s.in_range(a, b, c),
        s.in_range(i, j, k),
        s.flat(a, b, c) == s.flat(i, j, k),
    ensures
        a == i && b == j && c == k,
{
    let ny = s.ny as int;
    let nz = s.nz as int;
    assert(0 <= b * nz + c < ny * nz) by (nonlinear_arith)
        requires 0 <= b < ny, 0 <= c < nz;
    assert(0 <= j * nz + k < ny * nz) by (nonlinear_arith)
        requires 0 <= j < ny, 0 <= k < nz;
    assert(a == i) by (nonlinear_arith)
        requires
            a * ny * nz + (b * nz + c) == i * ny * nz + (j * nz + k),
            0 <= b * nz + c < ny * nz,
            0 <= j * nz + k < ny * nz;
    assert(b == j) by (nonlinear_arith)
        requires b * nz + c == j * nz + k, 0 <= c < nz, 0 <= k < nz;
}

} // verus!

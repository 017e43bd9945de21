use interp3d::{GridShape, Recorded, SampleField, Sampler, Type};

/// Records every node it is asked for and returns a code of its indices.
struct Recorder {
    calls: Vec<(usize, usize, usize)>,
}

impl Sampler<u64> for Recorder {
    fn sample(&mut self, i: usize, j: usize, k: usize) -> u64 {
        self.calls.push((i, j, k));
        (i * 100 + j * 10 + k) as u64
    }
}

struct Constant(f64);

impl Sampler<f64> for Constant {
    fn sample(&mut self, _i: usize, _j: usize, _k: usize) -> f64 {
        self.0
    }
}

fn clamp(i: usize, n: usize) -> usize {
    i.max(1).min(n - 3)
}

#[test]
fn generate_samples_each_interior_node_once_in_row_major_order() {
    let shape = GridShape::new(3, 2, 4).unwrap();
    let mut rec = Recorded::new(Recorder { calls: Vec::new() });
    let field = SampleField::generate(shape, &mut rec);
    assert_eq!(rec.sampler.calls.len(), 3 * 2 * 4);
    let mut expected = Vec::new();
    for i in 1..=3 {
        for j in 1..=2 {
            for k in 1..=4 {
                expected.push((i, j, k));
            }
        }
    }
    assert_eq!(rec.sampler.calls, expected);
    assert_eq!(field.data.len(), 6 * 5 * 7);
}

#[test]
fn generate_ghost_nodes_copy_clamped_interior_nodes() {
    let shape = GridShape::new(3, 2, 4).unwrap();
    let mut rec = Recorded::new(Recorder { calls: Vec::new() });
    let field = SampleField::generate(shape, &mut rec);
    for i in 0..shape.nx {
        for j in 0..shape.ny {
            for k in 0..shape.nz {
                let (ci, cj, ck) = (clamp(i, shape.nx), clamp(j, shape.ny), clamp(k, shape.nz));
                assert_eq!(field.get(i, j, k), (ci * 100 + cj * 10 + ck) as u64);
            }
        }
    }
    // a corner clamps on all three axes, each with its own bound
    assert_eq!(field.get(5, 4, 6), 324);
    assert_eq!(field.get(0, 0, 0), 111);
    assert_eq!(field.get(0, 4, 3), 123);
}

#[test]
fn generate_constant_function_gives_constant_field() {
    let shape = GridShape::new(4, 3, 2).unwrap();
    let field = SampleField::generate(shape, &mut Recorded::new(Constant(1.0)));
    assert!(field.data.iter().all(|v| *v == 1.0));
    assert_eq!(field.data.len(), 7 * 6 * 5);
}

#[test]
fn generate_calls_sampler_once_per_interior_node_only() {
    let shape = GridShape::new(5, 3, 2).unwrap();
    let mut rec = Recorded::new(Recorder { calls: Vec::new() });
    let field = SampleField::generate(shape, &mut rec);
    assert_eq!(rec.sampler.calls.len(), 30);
    assert!(rec.sampler.calls.iter().all(|&(i, j, k)| (1..=5).contains(&i) && (1..=3).contains(&j) && (1..=2).contains(&k)));
    for (t, &(i, j, k)) in rec.sampler.calls.iter().enumerate() {
        assert_eq!(t, ((i - 1) * 3 + (j - 1)) * 2 + (k - 1));
        assert_eq!(field.get(i, j, k), (i * 100 + j * 10 + k) as u64);
    }
}

#[test]
fn generate_constant_sampler_fills_ghosts_too() {
    let shape = GridShape::new(4, 2, 2).unwrap();
    let field = SampleField::generate(shape, &mut Recorded::new(Constant(1.0)));
    assert_eq!(field.data, vec![1.0; 7 * 5 * 5]);
}

#[test]
fn from_samples_lays_out_interior_and_ghosts() {
    let shape = GridShape::new(2, 2, 2).unwrap();
    let samples: Vec<i32> = (0..8).collect();
    let field = SampleField::from_samples(shape, &samples);
    assert_eq!(field.get(1, 1, 1), 0);
    assert_eq!(field.get(1, 1, 2), 1);
    assert_eq!(field.get(1, 2, 1), 2);
    assert_eq!(field.get(2, 2, 2), 7);
    assert_eq!(field.get(0, 0, 0), 0);
    assert_eq!(field.get(4, 4, 4), 7);
    assert_eq!(field.get(3, 0, 4), 5);
}

#[test]
fn fill_ghosts_overwrites_only_ghost_nodes() {
    let shape = GridShape::new(2, 3, 2).unwrap();
    let n = shape.len();
    let mut field = SampleField { shape, data: (0..n as i64).collect() };
    let before = field.data.clone();
    field.fill_ghosts();
    for i in 0..shape.nx {
        for j in 0..shape.ny {
            for k in 0..shape.nz {
                let (ci, cj, ck) = (clamp(i, shape.nx), clamp(j, shape.ny), clamp(k, shape.nz));
                assert_eq!(field.get(i, j, k), before[shape.index(ci, cj, ck)]);
            }
        }
    }
    assert_eq!(field.get(0, 0, 0), before[shape.index(1, 1, 1)]);
    assert_ne!(field.data, before);
}

#[test]
fn stencil_tricubic_reads_four_nodes_per_axis() {
    let shape = GridShape::new(3, 3, 3).unwrap();
    let mut rec = Recorded::new(Recorder { calls: Vec::new() });
    let field = SampleField::generate(shape, &mut rec);
    let st = field.stencil(2, 2, 2, Type::Tricubic);
    assert_eq!(st.len(), 64);
    for a in 0..4 {
        for b in 0..4 {
            for c in 0..4 {
                assert_eq!(st[(a * 4 + b) * 4 + c], field.get(1 + a, 1 + b, 1 + c));
            }
        }
    }
    assert_eq!(st[0], 111);
    assert_eq!(st[63], 333);
}

#[test]
fn stencil_bicubic_unilinear_reads_two_nodes_along_z() {
    let shape = GridShape::new(3, 3, 3).unwrap();
    let mut rec = Recorded::new(Recorder { calls: Vec::new() });
    let field = SampleField::generate(shape, &mut rec);
    let st = field.stencil(1, 3, 3, Type::BicubicUnilinear);
    assert_eq!(st.len(), 32);
    for a in 0..4 {
        for b in 0..4 {
            for c in 0..2 {
                assert_eq!(st[(a * 4 + b) * 2 + c], field.get(a, 2 + b, 3 + c));
            }
        }
    }
    assert_eq!(st[0], 123);
    assert_eq!(st[1], 123);
}

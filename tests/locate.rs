use interp3d::{locate_cell, Dir, DomainError, Side};

fn side(nodes: &[f64], q: f64) -> impl Fn(usize) -> Side + '_ {
    move |m: usize| {
        if nodes[m] < q {
            Side::Below
        } else if nodes[m] == q {
            Side::At
        } else {
            Side::Above
        }
    }
}

// ghost node, interior nodes 0 ..= 10, two ghost nodes
const NODES: [f64; 8] = [-2.5, 0.0, 2.5, 5.0, 7.5, 10.0, 12.5, 15.0];

#[test]
fn locate_finds_the_enclosing_cell() {
    assert_eq!(locate_cell(Dir::X, 8, &side(&NODES, 0.0)), Ok(1));
    assert_eq!(locate_cell(Dir::X, 8, &side(&NODES, 1.0)), Ok(1));
    assert_eq!(locate_cell(Dir::X, 8, &side(&NODES, 2.5)), Ok(2));
    assert_eq!(locate_cell(Dir::X, 8, &side(&NODES, 6.0)), Ok(3));
    assert_eq!(locate_cell(Dir::X, 8, &side(&NODES, 9.99)), Ok(4));
    assert_eq!(locate_cell(Dir::X, 8, &side(&NODES, 10.0)), Ok(5));
}

#[test]
fn locate_rejects_queries_outside_the_interior_naming_the_axis() {
    assert_eq!(locate_cell(Dir::Y, 8, &side(&NODES, -0.1)), Err(DomainError { axis: Dir::Y }));
    assert_eq!(locate_cell(Dir::Z, 8, &side(&NODES, 10.5)), Err(DomainError { axis: Dir::Z }));
    assert_eq!(locate_cell(Dir::X, 8, &side(&NODES, -2.5)), Err(DomainError { axis: Dir::X }));
    assert_eq!(locate_cell(Dir::X, 8, &side(&NODES, 15.0)), Err(DomainError { axis: Dir::X }));
}

#[test]
fn locate_on_a_long_axis() {
    let nodes: Vec<f64> = (0..1003).map(|i| (i as f64 - 1.0) * 0.5).collect();
    for m in 1..=1000usize {
        let q = (m as f64 - 1.0) * 0.5 + 0.25;
        let expect = if m == 1000 { Err(DomainError { axis: Dir::X }) } else { Ok(m) };
        assert_eq!(locate_cell(Dir::X, 1003, &side(&nodes, q)), expect);
    }
}

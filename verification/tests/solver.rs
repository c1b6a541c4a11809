use femsolve::assemble::{assemble_1d, assemble_laplace_2d};
use femsolve::grid::generate_nodes_2d;
use femsolve::FemError;
use femsolve::boundary::{Boundary, BoundaryType};
use femsolve::direct::solve_direct;
use femsolve::element::{
    linear_element_matrix, quadratic_element_matrix, BasisFunction, ElementType,
};
use femsolve::grid::generate_nodes_1d;
use femsolve::jacobi::solve_jacobi;
use femsolve::plot3d::{read_plot3d_binary, read_plot3d_chunk_binary, Plot3dError};
use femsolve::rat::Rat;
use femsolve::system::System;

fn assemble_linear(m: usize, length: Rat, d: Rat, v: Rat) -> System {
    let coords = generate_nodes_1d(&length, m, BasisFunction::Linear).unwrap();
    assemble_1d(&coords, &d, &v, BasisFunction::Linear).unwrap()
}

fn assemble_quadratic(m: usize, length: Rat) -> System {
    let coords = generate_nodes_1d(&length, m, BasisFunction::Quadratic).unwrap();
    assemble_1d(&coords, &Rat::one(), &Rat::zero(), BasisFunction::Quadratic).unwrap()
}

fn zeros(n: usize) -> Vec<Rat> {
    let mut v = Vec::new();
    for _ in 0..n {
        v.push(Rat::zero());
    }
    v
}

fn build_laplace_2d(nn: usize, low: Rat, high: Rat) -> System {
    assemble_laplace_2d(nn, low, high).unwrap()
}

#[test]
fn grid_spans_domain_strictly_increasing() {
    let length = Rat::new(2, 1);
    let coords = generate_nodes_1d(&length, 9, BasisFunction::Linear).unwrap();
    assert_eq!(coords.len(), 10);
    assert!(coords[0].eq_val(&Rat::zero()));
    assert!(coords[9].eq_val(&length));
    for i in 0..9 {
        assert!(coords[i].lt(&coords[i + 1]));
    }
    let qcoords = generate_nodes_1d(&length, 9, BasisFunction::Quadratic).unwrap();
    assert_eq!(qcoords.len(), 19);
    assert!(qcoords[18].eq_val(&length));
}

#[test]
fn diffusion_local_rows_sum_to_zero_and_symmetric() {
    let h = Rat::new(2, 9);
    let one = Rat::one();
    let zero = Rat::zero();
    let lin = linear_element_matrix(&h, &one, &zero).unwrap();
    for row in 0..2 {
        let s = lin[2 * row].add(&lin[2 * row + 1]).unwrap();
        assert!(s.is_zero());
    }
    assert!(lin[1].eq_val(&lin[2]));
    let quad = quadratic_element_matrix(&h).unwrap();
    for row in 0..3 {
        let s = quad[3 * row]
            .add(&quad[3 * row + 1])
            .unwrap()
            .add(&quad[3 * row + 2])
            .unwrap();
        assert!(s.is_zero());
    }
    for p in 0..3 {
        for q in 0..3 {
            assert!(quad[p * 3 + q].eq_val(&quad[q * 3 + p]));
        }
    }
}

#[test]
fn boundary_rows_are_exact_identity() {
    let mut sys = assemble_linear(9, Rat::new(2, 1), Rat::one(), Rat::zero());
    sys.apply_dirichlet(0, Rat::zero());
    sys.apply_dirichlet(9, Rat::one());
    for c in 0..10 {
        assert_eq!(sys.get(0, c), if c == 0 { Rat::one() } else { Rat::zero() });
        assert_eq!(sys.get(9, c), if c == 9 { Rat::one() } else { Rat::zero() });
    }
    assert!(sys.b[0].eq_val(&Rat::zero()));
    assert!(sys.b[9].eq_val(&Rat::one()));
}

#[test]
fn scenario_a_linear_ramp_both_solvers() {
    let mut sys = assemble_linear(9, Rat::new(2, 1), Rat::one(), Rat::zero());
    sys.apply_dirichlet(0, Rat::zero());
    sys.apply_dirichlet(9, Rat::one());
    let xd = solve_direct(&sys).unwrap();
    for i in 0..10 {
        assert!(xd[i].eq_val(&Rat::new(i as i64, 9)));
    }
    let tol = Rat::new(1, 10_000_000_000);
    let (xj, it) = solve_jacobi(&sys, &zeros(10), &tol, 10000).unwrap();
    assert!(it < 10000);
    let eps = Rat::new(1, 1_000_000);
    for i in 0..10 {
        let diff = xj[i].sub(&xd[i]).unwrap().abs();
        assert!(diff.le(&eps));
    }
}

#[test]
fn scenario_b_quadratic_ramp() {
    let mut sys = assemble_quadratic(9, Rat::new(2, 1));
    sys.apply_dirichlet(0, Rat::zero());
    sys.apply_dirichlet(18, Rat::one());
    let x = solve_direct(&sys).unwrap();
    for i in 0..19 {
        assert!(x[i].eq_val(&Rat::new(i as i64, 18)));
    }
}

#[test]
fn scenario_c_advection_diffusion_monotonic() {
    let mut sys = assemble_linear(9, Rat::new(2, 1), Rat::one(), Rat::one());
    sys.apply_dirichlet(0, Rat::zero());
    sys.apply_dirichlet(9, Rat::one());
    let xd = solve_direct(&sys).unwrap();
    assert!(xd[0].eq_val(&Rat::zero()));
    assert!(xd[9].eq_val(&Rat::one()));
    for i in 0..9 {
        assert!(xd[i].lt(&xd[i + 1]));
    }
    let tol = Rat::new(1, 10_000_000_000);
    let (xj, it) = solve_jacobi(&sys, &zeros(10), &tol, 10000).unwrap();
    assert!(it < 10000);
    let eps = Rat::new(1, 1_000_000);
    for i in 0..10 {
        assert!(xj[i].sub(&xd[i]).unwrap().abs().le(&eps));
    }
}

#[test]
fn scenario_d_laplace_2d_converges_deterministically() {
    let sys = build_laplace_2d(10, Rat::zero(), Rat::one());
    let tol = Rat::new(1, 10_000_000_000);
    let (x1, it1) = solve_jacobi(&sys, &zeros(100), &tol, 10000).unwrap();
    assert!(it1 < 10000);
    let (x2, it2) = solve_jacobi(&sys, &zeros(100), &tol, 10000).unwrap();
    assert_eq!(it1, it2);
    assert_eq!(x1, x2);
    // edge values pinned (corners belong to the bottom/top edges)
    for j in 1..9 {
        assert!(x1[j * 10].eq_val(&Rat::zero()));
        assert!(x1[j * 10 + 9].eq_val(&Rat::one()));
    }
    for i in 0..10 {
        assert!(x1[i].eq_val(&Rat::zero()));
        assert!(x1[90 + i].eq_val(&Rat::one()));
    }
    let eps = Rat::new(1, 1_000_000);
    for j in 1..9 {
        for i in 1..9 {
            let u = x1[j * 10 + i];
            assert!(Rat::zero().sub(&eps).unwrap().lt(&u));
            assert!(u.lt(&Rat::one().add(&eps).unwrap()));
        }
    }
}

#[test]
fn rerunning_pipeline_is_bit_identical() {
    let run = || {
        let mut sys = assemble_linear(9, Rat::new(2, 1), Rat::one(), Rat::zero());
        sys.apply_dirichlet(0, Rat::zero());
        sys.apply_dirichlet(9, Rat::one());
        let xd = solve_direct(&sys).unwrap();
        let tol = Rat::new(1, 10_000_000_000);
        let (xj, it) = solve_jacobi(&sys, &zeros(10), &tol, 10000).unwrap();
        (xd, xj, it)
    };
    let (a_d, a_j, a_it) = run();
    let (b_d, b_j, b_it) = run();
    assert_eq!(a_d, b_d);
    assert_eq!(a_j, b_j);
    assert_eq!(a_it, b_it);
}

#[test]
fn degenerate_input_is_rejected() {
    let length = Rat::new(2, 1);
    assert_eq!(
        generate_nodes_1d(&length, 0, BasisFunction::Linear).unwrap_err(),
        FemError::DegenerateInput
    );
    let zero_len = Rat::zero();
    assert_eq!(
        generate_nodes_1d(&zero_len, 9, BasisFunction::Linear).unwrap_err(),
        FemError::DegenerateInput
    );
}

#[test]
fn singular_system_is_reported() {
    let sys = System::new_zero(3);
    assert_eq!(solve_direct(&sys).unwrap_err(), FemError::SingularSystem);
    let tol = Rat::new(1, 10_000_000_000);
    assert_eq!(
        solve_jacobi(&sys, &zeros(3), &tol, 10).unwrap_err(),
        FemError::SingularSystem
    );
}

#[test]
fn near_zero_pivot_is_rejected() {
    // diagonal below the 1e-12 pivot floor
    let mut sys = System::new_zero(1);
    sys.set(0, 0, Rat::new(1, 10_000_000_000_000));
    sys.set_load(0, Rat::one());
    assert_eq!(solve_direct(&sys).unwrap_err(), FemError::SingularSystem);
}

#[test]
fn iteration_cap_returns_estimate() {
    let mut sys = assemble_linear(9, Rat::new(2, 1), Rat::one(), Rat::zero());
    sys.apply_dirichlet(0, Rat::zero());
    sys.apply_dirichlet(9, Rat::one());
    let tol = Rat::new(1, 10_000_000_000);
    let (x, it) = solve_jacobi(&sys, &zeros(10), &tol, 3).unwrap();
    assert_eq!(it, 3);
    assert_eq!(x.len(), 10);
}

#[test]
fn rational_overflow_is_detected() {
    let big = Rat::new(i64::MAX, 1);
    assert!(big.add(&big).is_none());
    let third = Rat::new(1, 3);
    assert!(third.add(&third).unwrap().eq_val(&Rat::new(2, 3)));
}

#[test]
fn rational_arithmetic_exact() {
    let a = Rat::new(2, 9);
    let b = Rat::new(1, 9);
    assert!(a.sub(&b).unwrap().eq_val(&Rat::new(1, 9)));
    assert!(a.mul(&b).unwrap().eq_val(&Rat::new(2, 81)));
    assert!(a.div(&b).unwrap().eq_val(&Rat::new(2, 1)));
    assert!(a.neg().eq_val(&Rat::new(-2, 9)));
    assert!(Rat::new(-2, 9).abs().eq_val(&a));
    assert!(Rat::new(2, 4).eq_val(&Rat::new(1, 2)));
    assert!(Rat::new(1, 3).lt(&Rat::new(1, 2)));
}

#[test]
fn plot3d_chunk_reads_exact_words() {
    let val: f64 = 1.5;
    let bits = val.to_bits();
    let mut data: Vec<u8> = Vec::new();
    data.extend_from_slice(&bits.to_be_bytes());
    let (words, end) = read_plot3d_chunk_binary(&data, 0, 1, true, true).unwrap();
    assert_eq!(end, 8);
    assert_eq!(words[0], bits);
    assert_eq!(f64::from_bits(words[0]), 1.5);
    // little-endian 32-bit words
    let v32: f32 = -2.25;
    let data2 = v32.to_bits().to_le_bytes().to_vec();
    let (w2, _) = read_plot3d_chunk_binary(&data2, 0, 1, false, false).unwrap();
    assert_eq!(w2[0] as u32, v32.to_bits());
}

#[test]
fn plot3d_reader_errors() {
    let empty: Vec<u8> = Vec::new();
    assert!(matches!(
        read_plot3d_binary(&empty, true, true).unwrap_err(),
        Plot3dError::Truncated
    ));
    let zero_blocks = vec![0u8, 0, 0, 0];
    assert!(matches!(
        read_plot3d_binary(&zero_blocks, true, true).unwrap_err(),
        Plot3dError::BadBlockCount
    ));
    let truncated = vec![0u8, 0, 0, 1, 0, 0];
    assert!(matches!(
        read_plot3d_binary(&truncated, true, true).unwrap_err(),
        Plot3dError::Truncated
    ));
}

#[test]
fn plot3d_reads_one_block() {
    let mut data: Vec<u8> = Vec::new();
    data.extend_from_slice(&1u32.to_be_bytes()); // one block
    data.extend_from_slice(&2u32.to_be_bytes()); // imax
    data.extend_from_slice(&1u32.to_be_bytes()); // jmax
    data.extend_from_slice(&1u32.to_be_bytes()); // kmax
    for v in [0.0f64, 1.0] {
        data.extend_from_slice(&v.to_bits().to_be_bytes());
    }
    for v in [2.0f64, 3.0] {
        data.extend_from_slice(&v.to_bits().to_be_bytes());
    }
    for v in [4.0f64, 5.0] {
        data.extend_from_slice(&v.to_bits().to_be_bytes());
    }
    let blocks = read_plot3d_binary(&data, true, true).unwrap();
    assert_eq!(blocks.len(), 1);
    assert_eq!(blocks[0].imax, 2);
    assert_eq!(f64::from_bits(blocks[0].x[1]), 1.0);
    assert_eq!(f64::from_bits(blocks[0].y[0]), 2.0);
    assert_eq!(f64::from_bits(blocks[0].z[1]), 5.0);
}

#[test]
fn vocabulary_types_carry_their_cases() {
    let b = Boundary::IMin;
    assert!(matches!(b, Boundary::IMin));
    let bt = BoundaryType::Wall;
    assert!(matches!(bt, BoundaryType::Wall));
    let e = ElementType::Segment;
    assert!(matches!(e, ElementType::Segment));
}

#[test]
fn scatter_assembly_matches_manual_accumulation() {
    // one element at a time through the public accumulate primitive gives
    // the same operator as the assembler
    let length = Rat::new(2, 1);
    let d = Rat::one();
    let v = Rat::one();
    let m = 4usize;
    let coords = generate_nodes_1d(&length, m, BasisFunction::Linear).unwrap();
    let lib = assemble_1d(&coords, &d, &v, BasisFunction::Linear).unwrap();
    let mut manual = System::new_zero(m + 1);
    for e in 0..m {
        let h = coords[e + 1].sub(&coords[e]).unwrap();
        let loc = linear_element_matrix(&h, &d, &v).unwrap();
        manual.add_at(e, e, loc[0]).unwrap();
        manual.add_at(e, e + 1, loc[1]).unwrap();
        manual.add_at(e + 1, e, loc[2]).unwrap();
        manual.add_at(e + 1, e + 1, loc[3]).unwrap();
    }
    for r in 0..m + 1 {
        for c in 0..m + 1 {
            assert!(lib.get(r, c).eq_val(&manual.get(r, c)));
        }
    }
    // quadratic path, against the local stiffness directly
    let qc = generate_nodes_1d(&length, 2, BasisFunction::Quadratic).unwrap();
    let qs = assemble_1d(&qc, &d, &v, BasisFunction::Quadratic).unwrap();
    let h0 = qc[2].sub(&qc[0]).unwrap();
    let loc = quadratic_element_matrix(&h0).unwrap();
    assert!(qs.get(1, 1).eq_val(&loc[4]));
    assert!(qs.get(0, 2).eq_val(&loc[2]));
    // node 2 joins both elements
    let h1 = qc[4].sub(&qc[2]).unwrap();
    let loc1 = quadratic_element_matrix(&h1).unwrap();
    assert!(qs.get(2, 2).eq_val(&loc[8].add(&loc1[0]).unwrap()));
}

#[test]
fn grid_2d_is_row_major_and_exact() {
    let length = Rat::new(2, 1);
    let nodes = generate_nodes_2d(&length, 9).unwrap();
    assert_eq!(nodes.len(), 100);
    let axis = generate_nodes_1d(&length, 9, BasisFunction::Linear).unwrap();
    for j in 0..10 {
        for i in 0..10 {
            let (x, y) = nodes[j * 10 + i];
            assert!(x.eq_val(&axis[i]));
            assert!(y.eq_val(&axis[j]));
        }
    }
    assert_eq!(
        generate_nodes_2d(&length, 0).unwrap_err(),
        FemError::DegenerateInput
    );
}

#[test]
fn laplace_2d_rows_are_stencil_and_identity() {
    let sys = assemble_laplace_2d(4, Rat::zero(), Rat::one()).unwrap();
    // interior node (i, j) == (1, 1) -> row 5
    assert!(sys.get(5, 5).eq_val(&Rat::from_int(4)));
    assert!(sys.get(5, 4).eq_val(&Rat::from_int(-1)));
    assert!(sys.get(5, 6).eq_val(&Rat::from_int(-1)));
    assert!(sys.get(5, 1).eq_val(&Rat::from_int(-1)));
    assert!(sys.get(5, 9).eq_val(&Rat::from_int(-1)));
    assert!(sys.get(5, 0).is_zero());
    // boundary node row 0 is an exact identity row with the low load
    for c in 0..16 {
        assert_eq!(sys.get(0, c), if c == 0 { Rat::one() } else { Rat::zero() });
    }
    assert!(sys.b[0].eq_val(&Rat::zero()));
    // top-right corner carries the high value
    assert!(sys.b[15].eq_val(&Rat::one()));
}

#[test]
fn load_vector_accumulates_exactly() {
    let mut sys = System::new_zero(3);
    sys.add_load(1, Rat::new(1, 3)).unwrap();
    sys.add_load(1, Rat::new(1, 6)).unwrap();
    assert!(sys.b[1].eq_val(&Rat::new(1, 2)));
    assert!(sys.b[0].is_zero());
    assert!(sys.b[2].is_zero());
}

use boxfold::cellset::CellSet;
use boxfold::clues::{BoxArrow, BoxNumber};
use boxfold::geom::{opposite, BoxFaceType, RotationAxis, RotationDirection, Vec2, Vec3, EAST,
    NORTH, SOUTH, WEST};
use boxfold::grid::BoxGrid;
use boxfold::solid::{BoxFaceCoord, BoxSolid};

fn arrow(x: isize, y: isize, val: usize) -> BoxArrow {
    BoxArrow { pos: Vec2 { x, y }, val, dist: 0, solved: false }
}

fn number(x: isize, y: isize, val: usize) -> BoxNumber {
    BoxNumber { pos: Vec2 { x, y }, val, is_circle: false, is_square: false, solved: false }
}

fn empty_grid(dim: usize) -> BoxGrid {
    BoxGrid::new(dim, Vec::new(), Vec::new()).unwrap()
}

#[test]
fn opposite_is_an_involution() {
    let faces = [BoxFaceType::A, BoxFaceType::B, BoxFaceType::C, BoxFaceType::D, BoxFaceType::E,
        BoxFaceType::F];
    for f in faces {
        assert_eq!(opposite(opposite(f)), f);
    }
    assert_eq!(opposite(BoxFaceType::A), BoxFaceType::F);
    assert_eq!(opposite(BoxFaceType::B), BoxFaceType::D);
    assert_eq!(opposite(BoxFaceType::C), BoxFaceType::E);
}

#[test]
fn rotations_turn_unit_vectors() {
    let x = Vec3 { x: 1, y: 0, z: 0 };
    let r = x.rot(RotationAxis::AboutZ, RotationDirection::Positive);
    assert_eq!(r, Vec3 { x: 0, y: 1, z: 0 });
    let back = r.rot(RotationAxis::AboutZ, RotationDirection::Negative);
    assert_eq!(back, x);
    let found = x.rotation_to(Vec3 { x: 0, y: 1, z: 0 });
    assert!(found.is_some());
    let none = x.rotation_to(Vec3 { x: -1, y: 0, z: 0 });
    assert!(none.is_none());
}

#[test]
fn cell_sets_hold_cells() {
    let mut s = CellSet::new(4);
    assert_eq!(s.len(), 0);
    assert!(!s.contains(2, 3));
    s.insert(2, 3);
    s.insert(2, 3);
    s.insert(0, 0);
    assert_eq!(s.len(), 2);
    assert!(s.contains(2, 3));
    assert!(s.contains(0, 0));
    assert!(!s.contains(3, 2));
}

#[test]
fn grid_construction_validates_clues() {
    assert!(BoxGrid::new(0, Vec::new(), Vec::new()).is_none());
    assert!(BoxGrid::new(4, vec![arrow(1, 1, 0)], Vec::new()).is_none());
    assert!(BoxGrid::new(4, vec![arrow(4, 1, 2)], Vec::new()).is_none());
    assert!(BoxGrid::new(4, vec![arrow(1, 1, 2), arrow(1, 1, 4)], Vec::new()).is_none());
    assert!(BoxGrid::new(4, Vec::new(), vec![number(1, 1, 10)]).is_none());
    assert!(BoxGrid::new(4, vec![arrow(1, 1, 2)], vec![number(2, 2, 3)]).is_some());
}

#[test]
fn arrow_distances_respect_known_cells() {
    let a = arrow(0, 0, EAST);
    let mut kg = CellSet::new(4);
    let ro = CellSet::new(4);
    kg.insert(2, 0);
    let dists = a.possible_distances(4, &kg, &ro);
    assert_eq!(dists, vec![1, 2]);
}

#[test]
fn arrow_solves_at_a_unique_distance() {
    let mut a = arrow(0, 0, EAST);
    let kg = CellSet::new(3);
    let mut ro = CellSet::new(3);
    ro.insert(2, 0);
    let (fired, nkg, nro, _) = a.try_solve(3, &kg, &ro);
    assert!(fired);
    assert!(a.solved);
    assert!(nkg.contains(1, 0));
    assert_eq!(nkg.len(), 1);
    assert!(nro.contains(0, 1));
    // Re-applying the solve rule to a solved arrow changes nothing.
    let (fired2, nkg2, nro2, _) = a.try_solve(3, &kg, &ro);
    assert!(!fired2);
    assert_eq!(nkg2.len(), 0);
    assert_eq!(nro2.len(), 0);
}

#[test]
fn number_validation_bounds_box_count() {
    let n = number(1, 1, 1);
    let mut kg = CellSet::new(3);
    let ro = CellSet::new(3);
    kg.insert(0, 0);
    assert!(n.cell_assignment_validate(3, &kg, &ro));
    kg.insert(2, 2);
    assert!(!n.cell_assignment_validate(3, &kg, &ro));
}

#[test]
fn number_with_met_count_rules_out_the_rest() {
    let mut n = number(1, 1, 1);
    let mut kg = CellSet::new(3);
    let ro = CellSet::new(3);
    kg.insert(0, 0);
    let (fired, nkg, nro) = n.try_solve(3, &kg, &ro);
    assert!(fired);
    assert!(n.solved);
    assert_eq!(nkg.len(), 0);
    assert_eq!(nro.len(), 8);
    assert!(nro.contains(1, 1));
    assert!(!nro.contains(0, 0));
}

#[test]
fn flood_fill_follows_connectivity() {
    let g = empty_grid(4);
    let mut kg = CellSet::new(4);
    let ro = CellSet::new(4);
    kg.insert(0, 0);
    kg.insert(1, 0);
    kg.insert(3, 3);
    let grp = g.flood_fill(Vec2 { x: 0, y: 0 }, &kg, &ro, true, false, false);
    assert!(grp.contains(0, 0));
    assert!(grp.contains(1, 0));
    assert!(!grp.contains(3, 3));
}

#[test]
fn complete_partitions_are_validated() {
    let g = empty_grid(2);
    let mut kg = CellSet::new(2);
    let mut ro = CellSet::new(2);
    kg.insert(0, 0);
    kg.insert(0, 1);
    ro.insert(1, 0);
    ro.insert(1, 1);
    assert!(g.cell_assignment_validate(&kg, &ro));
    // An odd number of box cells can never fold onto a box.
    let mut kg2 = CellSet::new(2);
    let mut ro2 = CellSet::new(2);
    kg2.insert(0, 0);
    ro2.insert(0, 1);
    ro2.insert(1, 0);
    ro2.insert(1, 1);
    assert!(!g.cell_assignment_validate(&kg2, &ro2));
    // Two box fragments separated by non-box cells are inconsistent.
    let g3 = empty_grid(3);
    let mut kg3 = CellSet::new(3);
    let mut ro3 = CellSet::new(3);
    kg3.insert(0, 0);
    kg3.insert(2, 2);
    ro3.insert(1, 0);
    ro3.insert(0, 1);
    ro3.insert(1, 1);
    assert!(!g3.cell_assignment_validate(&kg3, &ro3));
}

#[test]
fn inference_seeds_and_propagates() {
    // A nine in the middle of a 3x3 grid forces every cell to be a box
    // cell.
    let mut g = BoxGrid::new(3, Vec::new(), vec![number(1, 1, 9)]).unwrap();
    let mut kg = CellSet::new(3);
    let mut ro = CellSet::new(3);
    g.inference(&mut kg, &mut ro);
    assert_eq!(kg.len(), 9);
    assert_eq!(ro.len(), 0);
}

#[test]
fn inference_is_stable_at_a_fixpoint() {
    let mut g = BoxGrid::new(3, Vec::new(), vec![number(1, 1, 9)]).unwrap();
    let mut kg = CellSet::new(3);
    let mut ro = CellSet::new(3);
    g.inference(&mut kg, &mut ro);
    let before = (kg.len(), ro.len());
    g.inference(&mut kg, &mut ro);
    assert_eq!((kg.len(), ro.len()), before);
    g.inference(&mut kg, &mut ro);
    assert_eq!((kg.len(), ro.len()), before);
}

#[test]
fn search_enumerates_valid_partitions() {
    // Seed one box cell on an empty 2x2 grid: the consistent full
    // partitions extending it are the two dominoes through that cell and
    // the full square. (Branches without any box cell are absorbed by the
    // isolated-region rule during propagation.)
    let g = empty_grid(2);
    let mut kg = CellSet::new(2);
    let ro = CellSet::new(2);
    kg.insert(1, 1);
    let results = g.speculation(kg, ro);
    assert_eq!(results.len(), 3);
    for (b, n) in &results {
        assert_eq!(b.len() + n.len(), 4);
        assert!(b.len() == 2 || b.len() == 4);
    }
    // No two emitted partitions share their known-box set.
    for i in 0..results.len() {
        for j in (i + 1)..results.len() {
            let mut same = true;
            for y in 0..2 {
                for x in 0..2 {
                    if results[i].0.contains(x, y) != results[j].0.contains(x, y) {
                        same = false;
                    }
                }
            }
            assert!(!same);
        }
    }
}

#[test]
fn dimension_candidates_match_the_surface_area() {
    let g = empty_grid(8);
    let c6 = g.candidate_dimensions(6);
    assert_eq!(c6, vec![Vec3 { x: 1, y: 1, z: 1 }]);
    let c10 = g.candidate_dimensions(10);
    assert_eq!(c10.len(), 3);
    for d in &c10 {
        assert!(d.x >= 1 && d.y >= 1 && d.z >= 1);
        assert_eq!(2 * (d.x * d.y + d.y * d.z + d.x * d.z), 10);
    }
    let c7 = g.candidate_dimensions(7);
    assert!(c7.is_empty());
}

#[test]
fn paths_run_through_box_cells() {
    let mut kg = CellSet::new(4);
    for x in 0..4 {
        kg.insert(x, 0);
    }
    kg.insert(3, 1);
    let path = BoxGrid::grid_traverse(&kg, Vec2 { x: 0, y: 0 }, Vec2 { x: 3, y: 1 });
    assert_eq!(path.len(), 4);
    assert_eq!(path, vec![EAST, EAST, EAST, SOUTH]);
    let no_path = BoxGrid::grid_traverse(&kg, Vec2 { x: 0, y: 0 }, Vec2 { x: 0, y: 3 });
    assert!(no_path.is_empty());
}

#[test]
fn traversal_prefers_the_shorter_route() {
    // A full ring of box cells offers two routes around it; the search
    // must come back with the two-step one, not the six-step detour.
    let mut kg = CellSet::new(3);
    for i in 0..3 {
        kg.insert(i, 0);
        kg.insert(i, 2);
    }
    kg.insert(0, 1);
    kg.insert(2, 1);
    let path = BoxGrid::grid_traverse(&kg, Vec2 { x: 0, y: 0 }, Vec2 { x: 0, y: 2 });
    assert_eq!(path.len(), 2);
    assert_eq!(path, vec![SOUTH, SOUTH]);
}

#[test]
fn seeding_sends_each_clue_kind_to_its_side() {
    // After propagation a number clue's cell is known box and an arrow's
    // cell, with the neighbours behind it, is known non-box.
    let mut g = BoxGrid::new(4, vec![arrow(0, 0, EAST | SOUTH)], vec![number(2, 2, 9)])
        .unwrap();
    let mut kg = CellSet::new(4);
    let mut ro = CellSet::new(4);
    g.inference(&mut kg, &mut ro);
    assert!(kg.contains(2, 2));
    assert!(ro.contains(0, 0));
}

#[test]
fn traversal_crosses_edges_with_rotation() {
    let solid = BoxSolid::new(1, 1, 1);
    let start = BoxFaceCoord { coord: Vec3 { x: 0, y: 0, z: 0 }, face: BoxFaceType::A };
    let va = Vec3 { x: 1, y: 0, z: 0 };
    let vb = Vec3 { x: 0, y: 1, z: 0 };
    let stepped = solid.traverse(EAST, start, va, vb).unwrap();
    assert_eq!(stepped.0.face, BoxFaceType::E);
    assert_eq!(stepped.0.coord, Vec3 { x: 0, y: 0, z: 0 });
    let north = solid.traverse(NORTH, start, va, vb).unwrap();
    assert_eq!(north.0.face, BoxFaceType::D);
    let west = solid.traverse(WEST, start, va, vb).unwrap();
    assert_eq!(west.0.face, BoxFaceType::C);
    let south = solid.traverse(SOUTH, start, va, vb).unwrap();
    assert_eq!(south.0.face, BoxFaceType::B);
}

/// Unfolding a synthetic cuboid onto the flat grid yields a partition the
/// consistency predicate accepts.
#[test]
fn unfolded_cuboids_validate() {
    // The cross unfolding of the unit cube on a 5x5 grid.
    let g = empty_grid(5);
    let mut kg = CellSet::new(5);
    let mut ro = CellSet::new(5);
    let cube = [(1, 0), (0, 1), (1, 1), (2, 1), (3, 1), (1, 2)];
    for (x, y) in cube {
        kg.insert(x, y);
    }
    for y in 0..5 {
        for x in 0..5 {
            if !kg.contains(x, y) {
                ro.insert(x, y);
            }
        }
    }
    assert!(g.cell_assignment_validate(&kg, &ro));

    // The cross unfolding of a 2x1x1 box on a 7x7 grid.
    let g2 = empty_grid(7);
    let mut kg2 = CellSet::new(7);
    let mut ro2 = CellSet::new(7);
    let long_box = [(1, 0), (2, 0), (0, 1), (1, 1), (2, 1), (3, 1), (4, 1), (5, 1), (1, 2), (2,
        2)];
    for (x, y) in long_box {
        kg2.insert(x, y);
    }
    for y in 0..7 {
        for x in 0..7 {
            if !kg2.contains(x, y) {
                ro2.insert(x, y);
            }
        }
    }
    assert!(g2.cell_assignment_validate(&kg2, &ro2));
}

#[test]
fn folding_the_unit_cube_succeeds() {
    // The cross partition of the unit cube folds, and with no number clues
    // every face sum is zero, so the answer is zero.
    let g = empty_grid(5);
    let mut kg = CellSet::new(5);
    let mut ro = CellSet::new(5);
    let cube = [(1, 0), (0, 1), (1, 1), (2, 1), (3, 1), (1, 2)];
    for (x, y) in cube {
        kg.insert(x, y);
    }
    for y in 0..5 {
        for x in 0..5 {
            if !kg.contains(x, y) {
                ro.insert(x, y);
            }
        }
    }
    let r = g.solidify(&kg, &ro);
    assert_eq!(r, Ok(Some(0)));
}

#[test]
fn solidify_reports_structural_errors() {
    let g = empty_grid(2);
    let kg = CellSet::new(2);
    let ro = CellSet::new(2);
    assert_eq!(g.solidify(&kg, &ro), Err(boxfold::fold::FoldError::Incomplete));
    let mut kg2 = CellSet::new(2);
    let mut ro2 = CellSet::new(2);
    kg2.insert(0, 0);
    kg2.insert(0, 1);
    ro2.insert(0, 1);
    ro2.insert(1, 0);
    assert_eq!(g.solidify(&kg2, &ro2), Err(boxfold::fold::FoldError::Overlap));
}

#[test]
fn search_returns_a_finished_partition_unchanged() {
    let g = empty_grid(2);
    let mut kg = CellSet::new(2);
    let mut ro = CellSet::new(2);
    kg.insert(0, 0);
    kg.insert(0, 1);
    ro.insert(1, 0);
    ro.insert(1, 1);
    let results = g.speculation(kg.duplicate(), ro.duplicate());
    assert_eq!(results.len(), 1);
    for y in 0..2 {
        for x in 0..2 {
            assert_eq!(results[0].0.contains(x, y), kg.contains(x, y));
            assert_eq!(results[0].1.contains(x, y), ro.contains(x, y));
        }
    }
}

#[test]
fn search_rejects_inconsistent_input() {
    let g = empty_grid(2);
    let mut kg = CellSet::new(2);
    let mut ro = CellSet::new(2);
    kg.insert(0, 0);
    ro.insert(0, 0);
    let results = g.speculation(kg, ro);
    assert!(results.is_empty());
}

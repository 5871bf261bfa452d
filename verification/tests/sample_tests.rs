use boxfold::cellset::CellSet;
use boxfold::clues::{BoxArrow, BoxNumber};
use boxfold::geom::Vec2;
use boxfold::grid::BoxGrid;

fn arrow(x: isize, y: isize, val: usize) -> BoxArrow {
    BoxArrow { pos: Vec2 { x, y }, val, dist: 0, solved: false }
}

fn number(x: isize, y: isize, val: usize, circle: bool, square: bool) -> BoxNumber {
    BoxNumber { pos: Vec2 { x, y }, val, is_circle: circle, is_square: square, solved: false }
}

/// The 8x8 sample instance: number values, arrow direction masks, and the
/// circle and square marks.
fn sample_grid() -> BoxGrid {
    let numbers = vec![
        number(3, 1, 5, false, false),
        number(0, 2, 2, false, false),
        number(1, 2, 5, false, true),
        number(5, 2, 4, false, false),
        number(7, 3, 2, false, true),
        number(0, 4, 2, false, false),
        number(3, 4, 5, true, false),
        number(3, 6, 6, false, false),
        number(4, 6, 6, true, false),
        number(1, 7, 4, true, false),
        number(5, 7, 4, true, false),
    ];
    let arrows = vec![
        arrow(2, 0, 0x4),
        arrow(6, 0, 0x4),
        arrow(4, 1, 0xc),
        arrow(7, 1, 0x4),
        arrow(4, 3, 0xb),
        arrow(2, 5, 0x7),
        arrow(6, 5, 0x4),
        arrow(7, 5, 0x1),
        arrow(0, 6, 0x4),
    ];
    BoxGrid::new(8, arrows, numbers).unwrap()
}

/// End-to-end scenario on the 8x8 sample instance: seeding and propagation
/// assign strictly more cells than the clue seeds alone, the search yields
/// partitions, and exactly one of them folds onto a box, with the known
/// answer.
#[test]
fn sample_instance_end_to_end() {
    let mut g = sample_grid();
    let clue_cells = g.numbers.len() + g.arrows.len();
    let mut kg = CellSet::new(8);
    let mut ro = CellSet::new(8);
    g.inference(&mut kg, &mut ro);
    let assigned = kg.len() + ro.len();
    assert!(assigned > clue_cells);
    let results = g.speculation(kg, ro);
    assert!(results.len() >= 1);
    let mut products: Vec<usize> = Vec::new();
    for (b, n) in &results {
        match g.solidify(b, n) {
            Ok(Some(p)) => products.push(p),
            Ok(None) => {}
            Err(e) => panic!("structural failure during folding: {:?}", e),
        }
    }
    assert_eq!(products.len(), 1);
    assert_eq!(products[0], 118800);
}

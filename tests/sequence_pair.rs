use floorplan::geometry::{Net, Rectangle};
use floorplan::search::{Mutation, Solution};
use floorplan::sequence_pair::{is_valid_solution, position_table, SPMoveType, SequencePair};

fn three_modules() -> SequencePair {
    let modules = vec![Rectangle::new(2, 3), Rectangle::new(4, 1), Rectangle::new(1, 5)];
    let nets = vec![Net::new(vec![0, 2], 0)];
    SequencePair::new(modules, nets)
}

fn disjoint(a: (u64, u64, Rectangle), b: (u64, u64, Rectangle)) -> bool {
    a.0 + a.2.width <= b.0 || b.0 + b.2.width <= a.0 || a.1 + a.2.height <= b.1 || b.1 + b.2.height <= a.1
}

#[test]
fn identity_sequences_place_a_row() {
    let sp = three_modules();
    let plan = sp.get_floorplan();
    assert_eq!(plan[0], (0, 0, Rectangle::new(2, 3)));
    assert_eq!(plan[1], (2, 0, Rectangle::new(4, 1)));
    assert_eq!(plan[2], (6, 0, Rectangle::new(1, 5)));
    assert_eq!(sp.bounding_box, Rectangle::new(7, 5));
    assert_eq!(sp.get_floor_area(), 35);
    // centres (1, 1.5) and (6.5, 2.5): half perimeter 5.5 + 1, doubled
    assert_eq!(sp.get_floor_wire(), 13);
}

#[test]
fn reversed_y_sequence_stacks_the_modules() {
    let mut sp = three_modules();
    sp.apply_move(&SPMoveType::SwapRightSide(0, 2));
    assert_eq!(sp.y_sequence, vec![2, 1, 0]);
    assert_eq!(sp.index_y, vec![2, 1, 0]);
    let plan = sp.get_floorplan();
    assert_eq!(plan[2], (0, 0, Rectangle::new(1, 5)));
    assert_eq!(plan[1], (0, 5, Rectangle::new(4, 1)));
    assert_eq!(plan[0], (0, 6, Rectangle::new(2, 3)));
    assert_eq!(sp.get_floor_area(), 36);
    // applying the move again restores the row
    sp.apply_move(&SPMoveType::SwapRightSide(0, 2));
    assert_eq!(sp.get_floor_area(), 35);
}

#[test]
fn rotation_turns_one_module() {
    let mut sp = three_modules();
    sp.apply_move(&SPMoveType::RotateModule(1));
    assert_eq!(sp.modules[1], Rectangle::new(1, 4));
    assert_eq!(sp.get_floorplan()[2], (3, 0, Rectangle::new(1, 5)));
    assert_eq!(sp.get_floor_area(), 20);
}

#[test]
fn swap_both_sides_keeps_position_tables() {
    let mut sp = three_modules();
    sp.apply_move(&SPMoveType::SwapBothSides(0, 2, 0, 2));
    assert_eq!(sp.x_sequence, vec![2, 1, 0]);
    assert_eq!(sp.y_sequence, vec![2, 1, 0]);
    assert_eq!(sp.index_x, vec![2, 1, 0]);
    let plan = sp.get_floorplan();
    assert_eq!(plan[2], (0, 0, Rectangle::new(1, 5)));
    assert_eq!(plan[1], (1, 0, Rectangle::new(4, 1)));
    assert_eq!(plan[0], (5, 0, Rectangle::new(2, 3)));
}

#[test]
fn random_moves_never_overlap() {
    let modules = vec![
        Rectangle::new(4, 6),
        Rectangle::new(4, 4),
        Rectangle::new(3, 4),
        Rectangle::new(4, 4),
        Rectangle::new(3, 4),
    ];
    let nets = vec![Net::new(vec![0, 1, 2], 0), Net::new(vec![3, 4], 1)];
    let mut sp = SequencePair::new(modules, nets);
    for _ in 0..300 {
        let m = sp.get_random_move();
        match m {
            SPMoveType::RotateModule(a) => assert!(a < 5),
            SPMoveType::SwapLeftSide(a, b) | SPMoveType::SwapRightSide(a, b) => assert!(a < 5 && b < 5 && a != b),
            SPMoveType::SwapBothSides(a, b, c, d) => assert!(a < 5 && b < 5 && c < 5 && d < 5),
        }
        sp.apply_move(&m);
        let plan = sp.get_floorplan();
        for i in 0..5 {
            for j in 0..5 {
                if i != j {
                    assert!(disjoint(plan[i], plan[j]));
                }
            }
            assert!(plan[i].0 + plan[i].2.width <= sp.bounding_box.width);
            assert!(plan[i].1 + plan[i].2.height <= sp.bounding_box.height);
        }
        assert!(sp.get_floor_area() >= 80);
    }
}

#[test]
fn solutions_round_trip() {
    let mut sp = three_modules();
    let sol = (vec![1, 2, 0], vec![0, 2, 1], vec![Rectangle::new(3, 2), Rectangle::new(4, 1), Rectangle::new(1, 5)]);
    assert!(is_valid_solution(&sol, 3));
    sp.set_solution(sol);
    assert_eq!(sp.index_x, vec![2, 0, 1]);
    assert_eq!(sp.index_y, vec![0, 2, 1]);
    let copy = sp.copy_solution();
    assert_eq!(copy.0, vec![1, 2, 0]);
    assert_eq!(copy.1, vec![0, 2, 1]);
    assert_eq!(copy.2[0], Rectangle::new(3, 2));
}

#[test]
fn invalid_solutions_are_refused() {
    let rects = vec![Rectangle::new(1, 1), Rectangle::new(1, 1), Rectangle::new(1, 1)];
    assert!(!is_valid_solution(&(vec![0, 1, 1], vec![0, 1, 2], rects.clone()), 3));
    assert!(!is_valid_solution(&(vec![0, 1, 3], vec![0, 1, 2], rects.clone()), 3));
    assert!(!is_valid_solution(&(vec![0, 1], vec![0, 1, 2], rects.clone()), 3));
    assert!(!is_valid_solution(&(vec![0, 1, 2], vec![0, 1, 2], vec![Rectangle::new(1, 1)]), 3));
    assert!(is_valid_solution(&(vec![2, 1, 0], vec![0, 1, 2], rects), 3));
    assert_eq!(position_table(&vec![1, 2, 0], 3), Some(vec![2, 0, 1]));
    assert_eq!(position_table(&vec![1, 1, 0], 3), None);
}

#[test]
fn recursive_bisection_sequences() {
    let modules = vec![Rectangle::new(1, 1), Rectangle::new(2, 2), Rectangle::new(3, 3), Rectangle::new(4, 4)];
    let mut sp = SequencePair::new(modules, vec![]);
    assert!(sp.set_solution_recursive_bisection(&vec![0, 1, 2, 3]));
    // halves {0,1} and {2,3} are each split side by side, then joined one above the other
    assert_eq!(sp.x_sequence, vec![1, 0, 3, 2]);
    assert_eq!(sp.y_sequence, vec![0, 1, 2, 3]);
    assert!(!sp.set_solution_recursive_bisection(&vec![0, 1, 2]));
    assert!(!sp.set_solution_recursive_bisection(&vec![0, 1, 1, 3]));
    assert_eq!(sp.x_sequence, vec![1, 0, 3, 2]);
}

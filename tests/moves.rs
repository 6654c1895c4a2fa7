use floorplan::geometry::{ModuleNode, Net, Rectangle};
use floorplan::polish_expression::{PEMoveType, PolishExpression};
use floorplan::search::{sample_perturbations, Mutation, Solution};
use floorplan::sequence_pair::{SPMoveType, SequencePair};
use floorplan::slicing_tree::{module_shape_function, ModuleShape};

fn m(id: usize) -> ModuleNode {
    ModuleNode::Module(id)
}

fn four() -> Vec<Rectangle> {
    vec![Rectangle::new(2, 3), Rectangle::new(4, 1), Rectangle::new(1, 5), Rectangle::new(2, 2)]
}

#[test]
fn sequence_pair_moves_from_draws() {
    let sp = SequencePair::new(four(), vec![]);
    assert_eq!(sp.move_from_draws(0, 2, 1), SPMoveType::RotateModule(2));
    // the second draw skips the first one
    assert_eq!(sp.move_from_draws(1, 2, 1), SPMoveType::SwapLeftSide(2, 1));
    assert_eq!(sp.move_from_draws(2, 1, 1), SPMoveType::SwapRightSide(1, 2));
    assert_eq!(sp.move_from_draws(3, 0, 2), SPMoveType::SwapBothSides(0, 3, 0, 3));
    let single = SequencePair::new(vec![Rectangle::new(1, 2)], vec![]);
    assert_eq!(single.move_from_draws(3, 0, 0), SPMoveType::RotateModule(0));
}

#[test]
fn polish_moves_from_draws() {
    let mut pe = PolishExpression::new(four(), vec![]);
    // 0 1 H 2 3 V H
    pe.set_solution(vec![m(0), m(1), ModuleNode::H(), m(2), m(3), ModuleNode::V(), ModuleNode::H()]);
    let pairs = vec![(0, 1), (1, 3), (3, 4)];
    let starts = vec![2, 5];
    let swaps = vec![2, 4];
    assert_eq!(pe.move_from_draws(0, &pairs, &starts, &swaps, 1, 0, 0), PEMoveType::SwapOperands(1, 3));
    assert_eq!(pe.move_from_draws(1, &pairs, &starts, &swaps, 0, 1, 0), PEMoveType::InvertChain(5));
    assert_eq!(pe.move_from_draws(2, &pairs, &starts, &swaps, 0, 0, 1), PEMoveType::SwapOperandOperator(4, 5));
}

#[test]
fn no_module_cut_swap_when_none_is_legal() {
    let mut pe = PolishExpression::new(vec![Rectangle::new(1, 1), Rectangle::new(2, 2)], vec![]);
    pe.set_solution(vec![m(0), m(1), ModuleNode::V()]);
    assert_eq!(pe.swap_operand_operator(), None);
    let mut pe3 = PolishExpression::new(four(), vec![]);
    pe3.set_solution(vec![m(0), m(1), ModuleNode::H(), m(2), m(3), ModuleNode::V(), ModuleNode::H()]);
    for _ in 0..20 {
        match pe3.swap_operand_operator() {
            Some(PEMoveType::SwapOperandOperator(a, b)) => {
                assert!((a, b) == (2, 3) || (a, b) == (4, 5));
            }
            other => panic!("unexpected {:?}", other),
        }
    }
}

#[test]
fn sequence_pair_set_solution_installs_and_places() {
    let mut sp = SequencePair::new(vec![Rectangle::new(2, 3), Rectangle::new(4, 1)], vec![]);
    sp.set_solution((vec![1, 0], vec![0, 1], vec![Rectangle::new(2, 3), Rectangle::new(4, 1)]));
    assert_eq!(sp.get_floorplan(), vec![(0, 0, Rectangle::new(2, 3)), (0, 3, Rectangle::new(4, 1))]);
    assert_eq!(sp.get_floor_area(), 16);
    assert_eq!(sp.copy_solution().0, vec![1, 0]);
}

#[test]
fn sampling_leaves_the_solution() {
    let nets = vec![Net::new(vec![0, 3], 0)];
    let mut sp = SequencePair::new(four(), nets.clone());
    let before = sp.copy_solution();
    let (area, wire) = sample_perturbations(&mut sp, 12);
    assert!(area >= 12 * 19);
    assert!(wire > 0);
    let after = sp.copy_solution();
    assert_eq!(before.0, after.0);
    assert_eq!(before.1, after.1);
    assert_eq!(before.2, after.2);
    let mut pe = PolishExpression::new(four(), nets);
    let s = pe.copy_solution();
    let _ = sample_perturbations(&mut pe, 12);
    assert_eq!(pe.copy_solution(), s);
}

#[test]
fn aspect_ratio_shapes_in_order() {
    let r = module_shape_function(ModuleShape::AspectRatios(1), Rectangle::new(2, 3));
    assert_eq!(
        r.points,
        vec![Rectangle::new(1, 6), Rectangle::new(6, 1), Rectangle::new(2, 3), Rectangle::new(3, 2)]
    );
    let rot = module_shape_function(ModuleShape::Rotatable(), Rectangle::new(4, 4));
    assert_eq!(rot.points, vec![Rectangle::new(4, 4)]);
}

#[test]
fn recomputing_again_keeps_the_placement() {
    let mut pe = PolishExpression::new(four(), vec![Net::new(vec![0, 2], 0)]);
    pe.set_solution(vec![m(0), m(1), ModuleNode::H(), m(2), m(3), ModuleNode::V(), ModuleNode::H()]);
    let plan = pe.get_floorplan();
    let wire = pe.get_floor_wire();
    pe.update();
    assert_eq!(pe.get_floorplan(), plan);
    assert_eq!(pe.get_floor_wire(), wire);
}

#[test]
fn bisection_lists_every_module() {
    let mut pe = PolishExpression::new(four(), vec![]);
    assert!(pe.set_solution_recursive_bisection(&vec![2, 0, 3, 1]));
    let ids: Vec<usize> = pe
        .solution
        .iter()
        .filter_map(|t| match t {
            ModuleNode::Module(id) => Some(*id),
            _ => None,
        })
        .collect();
    assert_eq!(ids, vec![2, 0, 3, 1]);
    assert_eq!(pe.solution.last(), Some(&ModuleNode::H()));
    assert!(!pe.set_solution_recursive_bisection(&vec![2, 0, 4, 1]));
}

#[test]
fn sampling_sums_what_it_sees() {
    let mut sp = SequencePair::new(vec![Rectangle::new(2, 3)], vec![]);
    // a single module only rotates, which keeps the area
    assert_eq!(sample_perturbations(&mut sp, 3), (18, 0));
    let mut pe = PolishExpression::new(vec![Rectangle::new(2, 3)], vec![]);
    assert_eq!(sample_perturbations(&mut pe, 4), (24, 0));
}

use floorplan::geometry::{ModuleNode, Net, Rectangle};
use floorplan::polish_expression::{is_valid_expression, PEMoveType, PolishExpression};
use floorplan::search::{Mutation, Solution};
use floorplan::slicing_tree::{module_shape_function, ModuleShape};

fn textbook_modules() -> Vec<Rectangle> {
    vec![
        Rectangle::new(4, 6),
        Rectangle::new(4, 4),
        Rectangle::new(3, 4),
        Rectangle::new(4, 4),
        Rectangle::new(3, 4),
    ]
}

fn disjoint(a: (u64, u64, Rectangle), b: (u64, u64, Rectangle)) -> bool {
    a.0 + a.2.width <= b.0 || b.0 + b.2.width <= a.0 || a.1 + a.2.height <= b.1 || b.1 + b.2.height <= a.1
}

fn m(id: usize) -> ModuleNode {
    ModuleNode::Module(id)
}

#[test]
fn starts_all_vertical() {
    let pe = PolishExpression::new(textbook_modules(), vec![]);
    assert_eq!(
        pe.solution,
        vec![m(0), m(1), ModuleNode::V(), m(2), ModuleNode::V(), m(3), ModuleNode::V(), m(4), ModuleNode::V()]
    );
    // one row: every module turned to height 4 gives 6 + 4 + 3 + 4 + 3 = 20 by 4
    assert_eq!(pe.get_floor_area(), 80);
}

#[test]
fn textbook_packing_reaches_eighty() {
    let mut pe = PolishExpression::new(textbook_modules(), vec![]);
    let s = vec![m(0), m(1), ModuleNode::H(), m(3), m(2), ModuleNode::H(), m(4), ModuleNode::H(), ModuleNode::V()];
    assert!(is_valid_expression(&s, &pe.modules, pe.tree.module_shape));
    pe.set_solution(s);
    assert_eq!(pe.get_floor_area(), 80);
    let plan = pe.get_floorplan();
    for i in 0..5 {
        for j in 0..5 {
            if i != j {
                assert!(disjoint(plan[i], plan[j]));
            }
        }
    }
}

#[test]
fn placements_are_disjoint_and_fill_the_root() {
    let modules = vec![Rectangle::new(2, 5), Rectangle::new(3, 1), Rectangle::new(4, 4), Rectangle::new(1, 1)];
    let mut pe = PolishExpression::new(modules.clone(), vec![Net::new(vec![0, 3], 0)]);
    let s = vec![m(0), m(1), ModuleNode::H(), m(2), m(3), ModuleNode::V(), ModuleNode::H()];
    pe.set_solution(s);
    let plan = pe.get_floorplan();
    let root = pe.tree.node_placement[6].2;
    assert_eq!(pe.get_floor_area(), root.width * root.height);
    for i in 0..4 {
        assert!(plan[i].0 + plan[i].2.width <= root.width);
        assert!(plan[i].1 + plan[i].2.height <= root.height);
        let r = plan[i].2;
        let o = modules[i];
        assert!(r == o || r == o.transpose());
        for j in 0..4 {
            if i != j {
                assert!(disjoint(plan[i], plan[j]));
            }
        }
    }
}

#[test]
fn incremental_moves_match_a_fresh_evaluation() {
    let nets = vec![Net::new(vec![0, 4], 0), Net::new(vec![1, 2, 3], 1)];
    let mut pe = PolishExpression::new(textbook_modules(), nets.clone());
    pe.apply_move(&PEMoveType::SwapOperands(0, 3));
    pe.apply_move(&PEMoveType::InvertChain(4));
    pe.apply_move(&PEMoveType::SwapOperands(1, 7));
    pe.apply_move(&PEMoveType::InvertChain(2));
    let mut fresh = PolishExpression::new(textbook_modules(), nets);
    fresh.set_solution(pe.copy_solution());
    assert_eq!(pe.solution, fresh.solution);
    assert_eq!(pe.get_floor_area(), fresh.get_floor_area());
    assert_eq!(pe.get_floor_wire(), fresh.get_floor_wire());
}

#[test]
fn invert_chain_flips_the_run() {
    let mut pe = PolishExpression::new(textbook_modules(), vec![]);
    pe.set_solution(vec![m(0), m(1), m(2), ModuleNode::H(), ModuleNode::V(), m(3), ModuleNode::H(), m(4), ModuleNode::V()]);
    pe.apply_move(&PEMoveType::InvertChain(3));
    assert_eq!(
        pe.solution,
        vec![m(0), m(1), m(2), ModuleNode::V(), ModuleNode::H(), m(3), ModuleNode::H(), m(4), ModuleNode::V()]
    );
    pe.apply_move(&PEMoveType::InvertChain(3));
    assert_eq!(pe.solution[3], ModuleNode::H());
    assert_eq!(pe.solution[4], ModuleNode::V());
}

#[test]
fn random_moves_keep_a_valid_expression() {
    let mut pe = PolishExpression::new(textbook_modules(), vec![Net::new(vec![0, 1], 0)]);
    for _ in 0..300 {
        let mv = pe.get_random_move();
        match mv {
            PEMoveType::InvertChain(a) => assert!(a < 9),
            PEMoveType::SwapOperands(a, b) => {
                assert!(pe.solution[a].is_module() && pe.solution[b].is_module());
            }
            PEMoveType::SwapOperandOperator(a, b) => {
                assert_eq!(b, a + 1);
                assert!(pe.solution[a].is_module() != pe.solution[b].is_module());
            }
        }
        pe.apply_move(&mv);
        assert!(is_valid_expression(&pe.solution, &pe.modules, pe.tree.module_shape));
        assert!(pe.get_floor_area() >= 80);
        let mut fresh = PolishExpression::new(textbook_modules(), vec![Net::new(vec![0, 1], 0)]);
        fresh.set_solution(pe.copy_solution());
        assert_eq!(pe.get_floor_area(), fresh.get_floor_area());
    }
}

#[test]
fn invalid_expressions_are_refused() {
    let ms = textbook_modules();
    let k = ModuleShape::Rotatable();
    assert!(!is_valid_expression(&vec![m(0), ModuleNode::V(), m(1)], &ms, k));
    assert!(!is_valid_expression(&vec![m(0), m(1)], &ms, k));
    assert!(!is_valid_expression(&vec![m(0), m(7), ModuleNode::V()], &ms, k));
    assert!(!is_valid_expression(&vec![], &ms, k));
    // every module must be named exactly once
    assert!(!is_valid_expression(&vec![m(0), m(1), ModuleNode::V()], &ms, k));
    let two = vec![Rectangle::new(1, 2), Rectangle::new(3, 4)];
    assert!(is_valid_expression(&vec![m(0), m(1), ModuleNode::V()], &two, k));
    assert!(!is_valid_expression(&vec![m(1), m(1), ModuleNode::V()], &two, k));
}

#[test]
fn operator_top_and_bisection_expressions() {
    let mut pe = PolishExpression::new(textbook_modules(), vec![]);
    assert!(pe.set_solution_operator_top());
    assert_eq!(
        pe.solution,
        vec![m(0), m(1), m(2), m(3), m(4), ModuleNode::H(), ModuleNode::V(), ModuleNode::H(), ModuleNode::V()]
    );
    assert!(pe.set_solution_recursive_bisection(&vec![4, 3, 2, 1, 0]));
    assert_eq!(
        pe.solution,
        vec![m(4), m(3), ModuleNode::H(), m(2), ModuleNode::V(), m(1), m(0), ModuleNode::V(), ModuleNode::H()]
    );
    assert!(!pe.set_solution_recursive_bisection(&vec![0, 1]));
}

#[test]
fn leaf_shapes_by_kind() {
    let r = Rectangle::new(2, 6);
    assert_eq!(module_shape_function(ModuleShape::Hard(), r).points, vec![Rectangle::new(2, 6)]);
    assert_eq!(
        module_shape_function(ModuleShape::Rotatable(), r).points,
        vec![Rectangle::new(2, 6), Rectangle::new(6, 2)]
    );
    let mut ar: Vec<(u64, u64)> = module_shape_function(ModuleShape::AspectRatios(1), r)
        .points
        .iter()
        .map(|p| (p.width, p.height))
        .collect();
    ar.sort();
    assert_eq!(ar, vec![(1, 12), (2, 6), (3, 4), (4, 3), (6, 2), (12, 1)]);
    let mut ar3: Vec<(u64, u64)> = module_shape_function(ModuleShape::AspectRatios(3), r)
        .points
        .iter()
        .map(|p| (p.width, p.height))
        .collect();
    ar3.sort();
    assert_eq!(ar3, vec![(3, 4), (4, 3)]);
    let square: Vec<Rectangle> = module_shape_function(ModuleShape::AspectRatios(5), Rectangle::new(3, 3)).points;
    assert_eq!(square, vec![Rectangle::new(3, 3)]);
}

#[test]
fn min_module_length_only_for_aspect_ratios() {
    let mut a = ModuleShape::AspectRatios(1);
    a.set_min_module_length(4);
    assert_eq!(a, ModuleShape::AspectRatios(4));
    let mut h = ModuleShape::Hard();
    h.set_min_module_length(4);
    assert_eq!(h, ModuleShape::Hard());
}

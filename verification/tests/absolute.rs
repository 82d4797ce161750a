use braincrab::absolute_bf::{path_optimize, steps_to_zero, swap_entries, ABFOptimizer, ABFProgram, ABFTree, CellAnalysis};
use braincrab::bf_core::{BFAction, BFInterpreter, BFProgram};

fn run(program: &BFProgram) -> Vec<u8> {
    let code = program.flatten();
    let mut interpreter = BFInterpreter::new();
    let mut output = Vec::new();
    let mut pc = 0;
    while pc < code.len() {
        match interpreter.step(&code, pc, None) {
            BFAction::Continue(next) => pc = next,
            BFAction::Output(byte, next) => {
                output.push(byte);
                pc = next;
            }
            other => panic!("{other:?}"),
        }
    }
    output
}

fn program(body: Vec<ABFTree>) -> ABFProgram {
    let mut p = ABFProgram::new();
    for t in body {
        p.push_instruction(t);
    }
    p
}

fn cost(path: &[u16]) -> u32 {
    path.windows(2).map(|w| (w[0] as i32 - w[1] as i32).unsigned_abs()).sum::<u32>() + path[0] as u32
}

#[test]
fn to_bf_moves_between_cells() {
    let p = program(vec![ABFTree::Add(2, 5), ABFTree::Write(2), ABFTree::Add(0, -1), ABFTree::Write(0)]);
    let bf = p.to_bf();
    assert_eq!(bf.to_string(), ">>+++++.<<-.");
    assert_eq!(run(&bf), vec![5, 255]);
}

#[test]
fn to_bf_loops_come_back_to_their_cell() {
    let p = program(vec![
        ABFTree::Add(1, 3),
        ABFTree::While(1, vec![ABFTree::Add(1, -1), ABFTree::Add(3, 2)]),
        ABFTree::Write(3),
    ]);
    let bf = p.to_bf();
    assert_eq!(bf.to_string(), ">+++[->>++<<]>>.");
    assert_eq!(run(&bf), vec![6]);
    let p2 = program(vec![
        ABFTree::Add(1, 3),
        ABFTree::While(1, vec![ABFTree::Add(1, -1), ABFTree::Add(3, 2)]),
        ABFTree::Write(3),
        ABFTree::Write(1),
    ]);
    let bf2 = p2.to_bf();
    assert_eq!(run(&bf2), vec![6, 0]);
}

#[test]
fn calculate_path_keeps_each_run_once() {
    let p = program(vec![
        ABFTree::Add(0, 1),
        ABFTree::Add(3, 1),
        ABFTree::Add(3, 1),
        ABFTree::While(3, vec![ABFTree::Add(1, 1), ABFTree::Add(3, -1)]),
        ABFTree::Write(1),
    ]);
    assert_eq!(p.calculate_path(), vec![0, 3, 1, 3, 1]);
    assert_eq!(ABFProgram::new().calculate_path(), vec![0]);
}

#[test]
fn path_optimize_gives_a_permutation_that_costs_no_more() {
    let path = vec![0, 9, 1, 9, 1, 9, 4, 0, 9];
    let map = path_optimize(&path, 200);
    assert_eq!(map.len(), 10);
    let mut sorted = map.clone();
    sorted.sort();
    assert_eq!(sorted, (0..10).collect::<Vec<u16>>());
    let remapped: Vec<u16> = path.iter().map(|a| map[*a as usize]).collect();
    assert!(cost(&remapped) <= cost(&path));
}

#[test]
fn path_optimize_without_iterations_is_the_identity() {
    let map = path_optimize(&[0, 2, 1], 0);
    assert_eq!(map, vec![0, 1, 2]);
}

#[test]
fn path_optimize_finds_a_shorter_path() {
    let path: Vec<u16> = vec![0, 7, 0, 7, 0, 7, 0, 7];
    let map = path_optimize(&path, 2000);
    let remapped: Vec<u16> = path.iter().map(|a| map[*a as usize]).collect();
    assert!(cost(&remapped) < cost(&path));
}

#[test]
fn optimize_addresses_keeps_behaviour_and_does_not_lengthen_the_path() {
    let mut p = program(vec![
        ABFTree::Add(6, 65),
        ABFTree::Add(2, 3),
        ABFTree::While(2, vec![ABFTree::Add(2, -1), ABFTree::Write(6), ABFTree::Add(6, 1)]),
        ABFTree::Write(6),
    ]);
    let before_path = p.calculate_path();
    let before = run(&p.to_bf());
    p.optimize_addresses(500);
    let after_path = p.calculate_path();
    assert!(cost(&after_path) <= cost(&before_path));
    assert_eq!(run(&p.to_bf()), before);
    assert_eq!(before, b"ABCD".to_vec());
}

#[test]
fn disentangle_numbers_cells_in_order() {
    let mut p = program(vec![ABFTree::Add(7, 1), ABFTree::Add(3, 2), ABFTree::Write(7)]);
    p.disentangle_addresses();
    assert_eq!(format!("{:?}", p.body), "[Add(0, 1), Add(1, 2), Write(0)]");
}

#[test]
fn disentangle_gives_a_loop_condition_a_fresh_cell_afterwards() {
    let mut p = program(vec![
        ABFTree::Add(5, 2),
        ABFTree::While(5, vec![ABFTree::Add(5, -1)]),
        ABFTree::Add(5, 1),
    ]);
    p.disentangle_addresses();
    assert_eq!(format!("{:?}", p.body), "[Add(0, 2), While(0, [Add(0, -1)]), Add(1, 1)]");
}

#[test]
fn dot_graph_lists_each_edge_once() {
    let p = program(vec![ABFTree::Read(1), ABFTree::Write(1), ABFTree::Write(1)]);
    let graph = p.dot_dependency_graph();
    assert!(graph.starts_with("digraph"));
    assert!(graph.ends_with("}\n"));
    assert_eq!(graph.matches("1 -> out").count(), 1);
    assert_eq!(graph.matches("in -> 1").count(), 1);
}

#[test]
fn dead_loops_are_removed() {
    let p = program(vec![
        ABFTree::While(4, vec![ABFTree::Write(4)]),
        ABFTree::Add(1, 1),
        ABFTree::While(1, vec![ABFTree::Add(1, -1)]),
        ABFTree::While(1, vec![ABFTree::Write(1)]),
    ]);
    let q = p.without_dead_loops();
    assert_eq!(format!("{:?}", q.body), "[Add(1, 1), While(1, [Add(1, -1)])]");
}

#[test]
fn removing_dead_loops_keeps_what_the_program_prints() {
    let body = || {
        vec![
            ABFTree::Add(0, 3),
            ABFTree::While(2, vec![ABFTree::Add(1, 7), ABFTree::Write(1)]),
            ABFTree::While(0, vec![ABFTree::Add(0, -1), ABFTree::Add(1, 2), ABFTree::Write(1)]),
            ABFTree::While(0, vec![ABFTree::Write(0)]),
            ABFTree::Add(1, 1),
            ABFTree::Add(1, 1),
            ABFTree::Write(1),
        ]
    };
    let p = program(body());
    let q = p.without_dead_loops();
    assert_eq!(q.body.len(), 4);
    assert_eq!(run(&q.to_bf()), run(&program(body()).to_bf()));
    assert_eq!(run(&q.to_bf()), vec![2, 4, 6, 8]);
}

#[test]
fn steps_to_zero_values() {
    assert_eq!(steps_to_zero(0, 0), Some(0));
    assert_eq!(steps_to_zero(5, 0), None);
    assert_eq!(steps_to_zero(4, 2), Some(126));
    assert_eq!(steps_to_zero(4, 254), Some(2));
    assert_eq!(steps_to_zero(3, 2), None);
    assert_eq!(steps_to_zero(8, 4), Some(62));
    assert_eq!(steps_to_zero(0, 6), Some(0));
    // an odd step always reaches zero, after the least number of additions
    assert_eq!(steps_to_zero(1, 255), Some(1));
    assert_eq!(steps_to_zero(255, 1), Some(1));
    assert_eq!(steps_to_zero(5, 3), Some(169));
}

#[test]
fn analysis_of_straight_code() {
    let p = program(vec![ABFTree::Add(0, 5), ABFTree::Add(0, -7), ABFTree::Read(2), ABFTree::Add(3, 1)]);
    let analysis = ABFOptimizer::analyze_abf(&p);
    assert_eq!(analysis.get(0), CellAnalysis::Absolute(254));
    assert_eq!(analysis.get(1), CellAnalysis::Absolute(0));
    assert_eq!(analysis.get(2), CellAnalysis::Unknown);
    assert_eq!(analysis.get(3), CellAnalysis::Absolute(1));
    assert_eq!(analysis.get(29999), CellAnalysis::Absolute(0));
}

#[test]
fn analysis_of_a_counting_loop() {
    let p = program(vec![
        ABFTree::Add(0, 4),
        ABFTree::While(0, vec![ABFTree::Add(0, -2), ABFTree::Add(1, 3)]),
    ]);
    let analysis = ABFOptimizer::analyze_abf(&p);
    assert_eq!(analysis.get(0), CellAnalysis::Absolute(0));
    assert_eq!(analysis.get(1), CellAnalysis::Absolute(6));
}

#[test]
fn analysis_text() {
    assert_eq!(CellAnalysis::Unknown.to_string(), "?");
    assert_eq!(CellAnalysis::Absolute(17).to_string(), "17");
    assert_eq!(CellAnalysis::Relative(3).to_string(), "+3");
    assert_eq!(CellAnalysis::Relative(0).to_string(), "+0");
    assert_eq!(CellAnalysis::Relative(-128).to_string(), "-128");
    let p = program(vec![ABFTree::Add(1, 2), ABFTree::Read(3)]);
    let analysis = ABFOptimizer::analyze_abf(&p);
    assert_eq!(analysis.to_string(), "0:0\t1:2\t2:0\t3:?\t4:0\t5:0\t6:0\t7:0\t8:0\t9:0\t");
}

#[test]
fn absolute_append_keeps_both_programs() {
    let mut a = program(vec![ABFTree::Write(0)]);
    a.append(program(vec![ABFTree::Read(1)]));
    assert_eq!(format!("{:?}", a.body), "[Write(0), Read(1)]");
}

#[test]
fn swapping_two_entries_of_a_map() {
    let mut map = vec![0u16, 1, 2, 3];
    swap_entries(&mut map, 1, 3);
    assert_eq!(map, vec![0, 3, 2, 1]);
    swap_entries(&mut map, 2, 2);
    assert_eq!(map, vec![0, 3, 2, 1]);
}

#[test]
fn no_iterations_give_no_renaming() {
    assert_eq!(path_optimize(&[0, 3, 1, 3], 0), vec![0, 1, 2, 3]);
}

#[test]
fn a_loop_goes_exactly_when_its_cell_is_known_zero() {
    let p = program(vec![
        ABFTree::Read(2),
        ABFTree::While(2, vec![ABFTree::Add(2, -1), ABFTree::Add(5, 1)]),
        ABFTree::While(5, vec![ABFTree::Add(5, -1)]),
        ABFTree::While(2, vec![ABFTree::Write(2)]),
    ]);
    let q = p.without_dead_loops();
    assert_eq!(format!("{:?}", q.body), "[Read(2), While(2, [Add(2, -1), Add(5, 1)]), While(5, [Add(5, -1)])]");
}

#[test]
fn analysis_of_a_loop_on_input() {
    let p = program(vec![
        ABFTree::Add(1, 10),
        ABFTree::Add(2, 7),
        ABFTree::Read(0),
        ABFTree::While(0, vec![ABFTree::Add(0, -1), ABFTree::Add(1, 1), ABFTree::Add(2, -1), ABFTree::Write(4)]),
        ABFTree::Add(1, 1),
    ]);
    let analysis = ABFOptimizer::analyze_abf(&p);
    assert_eq!(analysis.get(0), CellAnalysis::Absolute(0));
    assert_eq!(analysis.get(1), CellAnalysis::Unknown);
    assert_eq!(analysis.get(4), CellAnalysis::Absolute(0));
}

#[test]
fn disentangle_renames_inner_loops_without_fresh_cells() {
    let mut p = program(vec![
        ABFTree::While(2, vec![ABFTree::While(3, vec![ABFTree::Add(3, -1)]), ABFTree::Add(2, -1)]),
        ABFTree::Write(3),
        ABFTree::Write(2),
    ]);
    p.disentangle_addresses();
    assert_eq!(format!("{:?}", p.body), "[While(0, [While(1, [Add(1, -1)]), Add(0, -1)]), Write(1), Write(2)]");
}

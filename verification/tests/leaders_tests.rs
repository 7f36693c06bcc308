use regvm::bytecode::Inst;
use regvm::cfg::{build_cfg, has_edge, predecessors, successors};
use regvm::leaders::{carve_blocks, find_leaders, insert_ascending};

#[test]
fn empty_program_has_no_leaders() {
    assert_eq!(find_leaders(Vec::new()), Vec::<usize>::new());
}

#[test]
fn straight_line_program_has_one_leader() {
    assert_eq!(find_leaders(vec![Inst::Ldai(1), Inst::Print, Inst::Print]), vec![0]);
}

#[test]
fn branch_marks_its_target_and_its_successor() {
    let program = vec![
        Inst::Movi(0, 3),
        Inst::Dec(0),
        Inst::Bne(0, 1, 1),
        Inst::Print,
    ];
    assert_eq!(find_leaders(program), vec![0, 1, 3]);
}

#[test]
fn last_branch_has_no_successor_to_mark() {
    let program = vec![Inst::Print, Inst::Print, Inst::Bne(0, 1, 1)];
    assert_eq!(find_leaders(program), vec![0, 1]);
}

#[test]
fn branch_at_index_zero_counts() {
    let program = vec![Inst::Bne(0, 1, 2), Inst::Print, Inst::Print, Inst::Print];
    assert_eq!(find_leaders(program), vec![0, 1, 2]);
}

#[test]
fn leaders_come_ascending_and_once() {
    let program = vec![
        Inst::Print,
        Inst::Bne(0, 1, 5),
        Inst::Bne(0, 1, 0),
        Inst::Bne(0, 1, 3),
        Inst::Print,
        Inst::Bne(2, 3, 5),
        Inst::Print,
    ];
    assert_eq!(find_leaders(program), vec![0, 2, 3, 4, 5, 6]);
}

#[test]
fn target_outside_the_program_is_still_listed() {
    let program = vec![Inst::Bne(0, 1, 40), Inst::Print];
    assert_eq!(find_leaders(program), vec![0, 1, 40]);
}

#[test]
fn insert_keeps_order_and_drops_duplicates() {
    let mut v: Vec<usize> = Vec::new();
    for x in [5usize, 1, 9, 5, 0, 9, 3] {
        insert_ascending(&mut v, x);
    }
    assert_eq!(v, vec![0, 1, 3, 5, 9]);
}

#[test]
fn blocks_run_from_leader_to_leader() {
    let program = vec![
        Inst::Movi(0, 3),
        Inst::Dec(0),
        Inst::Bne(0, 1, 1),
        Inst::Print,
    ];
    let leaders = find_leaders(program);
    assert_eq!(carve_blocks(4, &leaders), vec![(0, 1), (1, 3), (3, 4)]);
}

#[test]
fn leaders_beyond_the_end_begin_no_block() {
    assert_eq!(carve_blocks(2, &vec![0, 1, 2, 40]), vec![(0, 1), (1, 2)]);
    assert_eq!(carve_blocks(5, &vec![0]), vec![(0, 5)]);
    assert_eq!(carve_blocks(0, &vec![]), vec![]);
    assert_eq!(carve_blocks(0, &vec![0]), vec![]);
}

#[test]
fn edges_follow_fall_through_and_branch_targets() {
    let program = vec![
        Inst::Movi(0, 3),
        Inst::Dec(0),
        Inst::Bne(0, 1, 1),
        Inst::Print,
        Inst::Bne(0, 1, 0),
        Inst::Print,
    ];
    let leaders = find_leaders(program.clone());
    assert_eq!(leaders, vec![0, 1, 3, 5]);
    let blocks = carve_blocks(program.len(), &leaders);
    assert_eq!(blocks, vec![(0, 1), (1, 3), (3, 5), (5, 6)]);

    assert_eq!(successors(&program, &blocks, 0), vec![1]);
    assert_eq!(successors(&program, &blocks, 1), vec![1, 2]);
    assert_eq!(successors(&program, &blocks, 2), vec![0, 3]);
    assert_eq!(successors(&program, &blocks, 3), Vec::<u32>::new());
    assert_eq!(predecessors(&program, &blocks, 0), vec![2]);
    assert_eq!(predecessors(&program, &blocks, 1), vec![0, 1]);
    assert_eq!(predecessors(&program, &blocks, 2), vec![1]);
    assert_eq!(predecessors(&program, &blocks, 3), vec![2]);
    assert!(has_edge(&program, &blocks, 2, 0));
    assert!(!has_edge(&program, &blocks, 0, 2));

    let cfg = build_cfg(&program, &blocks);
    assert_eq!(cfg.len(), 4);
    for k in 0..4u32 {
        assert_eq!(cfg[&k].succs, successors(&program, &blocks, k as usize));
        assert_eq!(cfg[&k].preds, predecessors(&program, &blocks, k as usize));
    }
}

#[test]
fn branch_to_the_end_of_the_program_is_no_edge() {
    let program = vec![Inst::Bne(0, 1, 2), Inst::Print];
    let blocks = carve_blocks(2, &find_leaders(program.clone()));
    assert_eq!(blocks, vec![(0, 1), (1, 2)]);
    assert_eq!(successors(&program, &blocks, 0), vec![1]);
    assert_eq!(successors(&program, &blocks, 1), Vec::<u32>::new());
    assert!(build_cfg(&[], &vec![]).is_empty());
}

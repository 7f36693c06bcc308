use regvm::dfg::{DataFlowGraph, Function, InstData, Opcode};

#[test]
fn data_flow_graph() {
    let mut dfg = DataFlowGraph::new();

    let const1_data = InstData::Constant {
        opcode: Opcode::Constant,
        value: 0,
    };

    let const2_data = InstData::Constant {
        opcode: Opcode::Constant,
        value: 1,
    };

    let const1 = dfg.make_inst(const1_data);
    let const2 = dfg.make_inst(const2_data);

    let add_data = InstData::Binary {
        opcode: Opcode::Add,
        inputs: [const1, const2],
    };

    let add = dfg.make_inst(add_data);

    assert_eq!(const1, 1);
    assert_eq!(const2, 2);
    assert_eq!(add, 3);
}

#[test]
fn users_are_exactly_the_instructions_that_take_the_operand() {
    let mut dfg = DataFlowGraph::new();
    let c1 = dfg.make_inst(InstData::Constant { opcode: Opcode::Constant, value: 7 });
    let c2 = dfg.make_inst(InstData::Constant { opcode: Opcode::Constant, value: 9 });
    let add = dfg.make_inst(InstData::Binary { opcode: Opcode::Add, inputs: [c1, c2] });
    let sub = dfg.make_inst(InstData::Binary { opcode: Opcode::Sub, inputs: [add, c1] });
    let twice = dfg.make_inst(InstData::Binary { opcode: Opcode::Add, inputs: [c2, c2] });
    let bne = dfg.make_inst(InstData::Bne { opcode: Opcode::Bne, inputs: [sub, c1], succs: [0, 1] });
    let phi = dfg.make_inst(InstData::Phi { opcode: Opcode::Phi, inputs: vec![c1, add, c1, twice] });
    assert_eq!((c1, c2, add, sub, twice, bne, phi), (1, 2, 3, 4, 5, 6, 7));
    assert_eq!(dfg.num_insts(), 7);
    assert_eq!(dfg.users(c1), vec![add, sub, bne, phi]);
    assert_eq!(dfg.users(c2), vec![add, twice]);
    assert_eq!(dfg.users(add), vec![sub, phi]);
    assert_eq!(dfg.users(sub), vec![bne]);
    assert_eq!(dfg.users(twice), vec![phi]);
    assert_eq!(dfg.users(bne), Vec::<u32>::new());
    assert_eq!(dfg.users(phi), Vec::<u32>::new());
    assert_eq!(dfg.users(100), Vec::<u32>::new());
}

#[test]
fn inputs_of_each_kind_of_instruction() {
    let c = InstData::Constant { opcode: Opcode::Constant, value: 3 };
    assert_eq!(c.inputs(), None);
    let b = InstData::Binary { opcode: Opcode::Sub, inputs: [4, 2] };
    assert_eq!(b.inputs(), Some(vec![4, 2]));
    let j = InstData::Bne { opcode: Opcode::Bne, inputs: [9, 8], succs: [1, 2] };
    assert_eq!(j.inputs(), Some(vec![9, 8]));
    let p = InstData::Phi { opcode: Opcode::Phi, inputs: vec![5, 6, 7] };
    assert_eq!(p.inputs(), Some(vec![5, 6, 7]));
    let e = InstData::Phi { opcode: Opcode::Phi, inputs: vec![] };
    assert_eq!(e.inputs(), Some(vec![]));
}

#[test]
fn operand_that_is_not_made_yet_still_gets_its_user() {
    let mut dfg = DataFlowGraph::new();
    let phi = dfg.make_inst(InstData::Phi { opcode: Opcode::Phi, inputs: vec![2] });
    assert_eq!(phi, 1);
    assert_eq!(dfg.users(2), vec![1]);
}

#[test]
fn new_function_is_empty() {
    let f = Function::new();
    assert_eq!(f.dfg.num_insts(), 0);
    assert!(!f.layout.is_block_inserted(0));
    assert!(f.cfg.is_empty());
}

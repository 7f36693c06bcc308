use regvm::bytecode::Inst;
use regvm::codec::{decode, encode, write_inst, DecodeError};

fn all_forms() -> Vec<Inst> {
    vec![
        Inst::Mov(1, 2),
        Inst::Movi(255, 0xdead_beef),
        Inst::Ldai(u32::MAX),
        Inst::Lda(0),
        Inst::Sta(7),
        Inst::Add(200),
        Inst::Dec(3),
        Inst::Bne(4, 5, 0x0102_0304),
        Inst::Print,
        Inst::Movi(0, 0),
    ]
}

#[test]
fn opcodes_follow_the_table() {
    let ops: Vec<u8> = all_forms().iter().map(|i| i.opcode()).collect();
    assert_eq!(ops, vec![0, 1, 2, 3, 4, 5, 6, 7, 8, 1]);
}

#[test]
fn only_bne_is_a_branch() {
    let flags: Vec<bool> = all_forms().iter().map(|i| i.is_branch()).collect();
    assert_eq!(flags, vec![false, false, false, false, false, false, false, true, false, false]);
}

#[test]
fn each_form_has_its_fixed_layout() {
    let bytes = encode(&all_forms());
    let expected: Vec<u8> = vec![
        0, 1, 2, //
        1, 255, 0xef, 0xbe, 0xad, 0xde, //
        2, 0xff, 0xff, 0xff, 0xff, //
        3, 0, //
        4, 7, //
        5, 200, //
        6, 3, //
        7, 4, 5, 0x04, 0x03, 0x02, 0x01, //
        8, //
        1, 0, 0, 0, 0, 0,
    ];
    assert_eq!(bytes, expected);
}

#[test]
fn write_inst_appends_to_what_is_there() {
    let mut out = vec![0xaa];
    write_inst(&mut out, Inst::Movi(9, 258));
    assert_eq!(out, vec![0xaa, 1, 9, 2, 1, 0, 0]);
}

#[test]
fn decoding_an_encoding_gives_the_program_back() {
    let insts = all_forms();
    assert_eq!(decode(&encode(&insts)), Ok(insts));
    assert_eq!(decode(&encode(&Vec::new())), Ok(Vec::new()));
}

#[test]
fn empty_stream_is_the_empty_program() {
    assert_eq!(encode(&Vec::new()), Vec::<u8>::new());
    assert_eq!(decode(&[]), Ok(Vec::new()));
}

#[test]
fn movi_lda_print_encodes_to_nine_bytes() {
    let insts = vec![Inst::Movi(0, 5), Inst::Lda(0), Inst::Print];
    assert_eq!(encode(&insts), vec![0x01, 0x00, 0x05, 0x00, 0x00, 0x00, 0x03, 0x00, 0x08]);
    assert_eq!(decode(&[0x01, 0x00, 0x05, 0x00, 0x00, 0x00, 0x03, 0x00, 0x08]), Ok(insts));
}

#[test]
fn truncated_movi_is_reported() {
    assert_eq!(decode(&[0x01, 0x00, 0x05, 0x00, 0x00]), Err(DecodeError::TruncatedBinary));
    assert_eq!(decode(&[0x08, 0x01, 0x00, 0x05, 0x00, 0x00]), Err(DecodeError::TruncatedBinary));
}

#[test]
fn every_form_cut_short_is_truncated() {
    for inst in all_forms() {
        let full = encode(&vec![inst]);
        for cut in 1..full.len() {
            assert_eq!(decode(&full[..cut]), Err(DecodeError::TruncatedBinary));
        }
    }
}

#[test]
fn opcode_outside_the_table_is_invalid() {
    assert_eq!(decode(&[9]), Err(DecodeError::InvalidOpcode));
    assert_eq!(decode(&[255, 0, 0]), Err(DecodeError::InvalidOpcode));
    assert_eq!(decode(&[8, 8, 9, 8]), Err(DecodeError::InvalidOpcode));
}

#[test]
fn first_error_wins() {
    assert_eq!(decode(&[9, 1, 0]), Err(DecodeError::InvalidOpcode));
    assert_eq!(decode(&[3, 1, 1, 1, 9]), Err(DecodeError::TruncatedBinary));
}

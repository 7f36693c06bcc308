use regvm::assembler::{assemble, classify, handle_imm, handle_reg, LabelTable, Mnemonic, Parser};
use regvm::bytecode::Inst;
use regvm::lexer::{bytes_equal, AsmError, Lexer, Num, Token, TokenBase, WordBase, TAG_ID, TAG_NUM};

fn parse_text(src: &str) -> Result<Vec<Inst>, AsmError> {
    assemble(src.as_bytes().to_vec())
}

fn word(s: &str) -> Token {
    Token::Word(WordBase::new(s.as_bytes().to_vec(), TAG_ID))
}

#[test]
fn every_mnemonic_assembles() {
    let src = "mov v1, v2\nmovi v3, 70000\nldai 4294967295\nlda v0\nsta v255\nadd v9\ndec v10\nL0:\nbne v1, v2, L0\nprint\n";
    assert_eq!(
        parse_text(src),
        Ok(vec![
            Inst::Mov(1, 2),
            Inst::Movi(3, 70000),
            Inst::Ldai(4294967295),
            Inst::Lda(0),
            Inst::Sta(255),
            Inst::Add(9),
            Inst::Dec(10),
            Inst::Bne(1, 2, 7),
            Inst::Print,
        ])
    );
}

#[test]
fn empty_and_blank_sources_are_the_empty_program() {
    assert_eq!(parse_text(""), Ok(vec![]));
    assert_eq!(parse_text(" \t\n\n  "), Ok(vec![]));
}

#[test]
fn layout_of_the_text_does_not_matter() {
    assert_eq!(parse_text("mov\tv1 ,\n v2 print"), Ok(vec![Inst::Mov(1, 2), Inst::Print]));
    assert_eq!(parse_text("print"), Ok(vec![Inst::Print]));
    assert_eq!(parse_text("lda v7"), Ok(vec![Inst::Lda(7)]));
    assert_eq!(parse_text("ldai 12"), Ok(vec![Inst::Ldai(12)]));
}

#[test]
fn label_denotes_the_next_instruction() {
    assert_eq!(
        parse_text("print\nprint\nLtop:\nprint\nbne v0, v1, Ltop\n"),
        Ok(vec![Inst::Print, Inst::Print, Inst::Print, Inst::Bne(0, 1, 2)])
    );
    assert_eq!(parse_text("L1:\nbne v0, v0, L1\n"), Ok(vec![Inst::Bne(0, 0, 0)]));
    assert_eq!(parse_text("print\nLend:\n"), Ok(vec![Inst::Print]));
}

#[test]
fn label_must_be_declared_before_it_is_used() {
    assert_eq!(parse_text("bne v0, v1, L1\nL1:\nprint\n"), Err(AsmError::UndefinedLabel));
    assert_eq!(parse_text("L1:\nbne v0, v1, L2\n"), Err(AsmError::UndefinedLabel));
    assert_eq!(parse_text("L1:\nbne v0, v1, 5\n"), Err(AsmError::UndefinedLabel));
    assert_eq!(parse_text("L1:\nbne v0, v1,"), Err(AsmError::UndefinedLabel));
}

#[test]
fn later_declaration_of_a_label_replaces_the_earlier() {
    assert_eq!(
        parse_text("L1:\nprint\nL1:\nprint\nbne v0, v1, L1\n"),
        Ok(vec![Inst::Print, Inst::Print, Inst::Bne(0, 1, 1)])
    );
}

#[test]
fn token_after_a_label_is_discarded_whatever_it_is() {
    assert_eq!(parse_text("L1 print print"), Ok(vec![Inst::Print]));
    assert_eq!(parse_text("L1"), Ok(vec![]));
}

#[test]
fn unknown_mnemonics_are_rejected() {
    assert_eq!(parse_text("jump v1\n"), Err(AsmError::UnknownMnemonic));
    assert_eq!(parse_text("MOV v1, v2\n"), Err(AsmError::UnknownMnemonic));
    assert_eq!(parse_text("12\n"), Err(AsmError::UnknownMnemonic));
    assert_eq!(parse_text(", print\n"), Err(AsmError::UnknownMnemonic));
    assert_eq!(parse_text("print ldai 5. print"), Err(AsmError::UnknownMnemonic));
}

#[test]
fn registers_must_be_v_and_digits_up_to_255() {
    assert_eq!(parse_text("lda x1\n"), Err(AsmError::MalformedRegisterToken));
    assert_eq!(parse_text("lda v\n"), Err(AsmError::MalformedRegisterToken));
    assert_eq!(parse_text("lda v256\n"), Err(AsmError::MalformedRegisterToken));
    assert_eq!(parse_text("lda v1a\n"), Err(AsmError::MalformedRegisterToken));
    assert_eq!(parse_text("lda 5\n"), Err(AsmError::MalformedRegisterToken));
    assert_eq!(parse_text("lda"), Err(AsmError::MalformedRegisterToken));
    assert_eq!(parse_text("mov v1, w2\n"), Err(AsmError::MalformedRegisterToken));
    assert_eq!(parse_text("lda v007\n"), Ok(vec![Inst::Lda(7)]));
    assert_eq!(parse_text("lda v255\n"), Ok(vec![Inst::Lda(255)]));
}

#[test]
fn separators_and_immediates_are_required() {
    assert_eq!(parse_text("mov v1 v2\n"), Err(AsmError::UnexpectedToken));
    assert_eq!(parse_text("mov v1; v2\n"), Err(AsmError::UnexpectedToken));
    assert_eq!(parse_text("mov v1"), Err(AsmError::UnexpectedToken));
    assert_eq!(parse_text("movi v1, v2\n"), Err(AsmError::UnexpectedToken));
    assert_eq!(parse_text("ldai v2\n"), Err(AsmError::UnexpectedToken));
    assert_eq!(parse_text("ldai"), Err(AsmError::UnexpectedToken));
    assert_eq!(parse_text("L1:\nbne v0, v1 L1\n"), Err(AsmError::UnexpectedToken));
}

#[test]
fn separator_is_judged_before_the_register() {
    assert_eq!(parse_text("mov x1 v2\n"), Err(AsmError::UnexpectedToken));
    assert_eq!(parse_text("L1:\nbne x0, v1, L2\n"), Err(AsmError::UndefinedLabel));
    assert_eq!(parse_text("L1:\nbne x0, v1, L1\n"), Err(AsmError::MalformedRegisterToken));
}

#[test]
fn literal_beyond_32_bits_is_out_of_range() {
    assert_eq!(parse_text("ldai 4294967296\n"), Err(AsmError::NumberOutOfRange));
    assert_eq!(parse_text("ldai 99999999999999999999999999\n"), Err(AsmError::NumberOutOfRange));
    assert_eq!(parse_text("ldai 0004294967295\n"), Ok(vec![Inst::Ldai(4294967295)]));
}

#[test]
fn scanner_classifies_tokens() {
    let mut lex = Lexer::new(b"  mov v12,\t407\n.x9 ".to_vec());
    let mut seen: Vec<String> = Vec::new();
    loop {
        let t = lex.scan().unwrap();
        let tag = t.get_tag();
        let text = String::from_utf8(t.text()).unwrap();
        match t {
            Token::Eof => {
                assert_eq!(tag, None);
                assert_eq!(text, "Eof");
                break;
            }
            Token::Token(b) => {
                assert_eq!(tag, Some(b.tag));
                seen.push(format!("sym {}", text));
            }
            Token::Word(_) => {
                assert_eq!(tag, Some(256));
                seen.push(format!("word {}", text));
            }
            Token::Num(n) => {
                assert_eq!(tag, Some(257));
                assert_eq!(text, format!("{}", n.value));
                seen.push(format!("num {}", n.value));
            }
        }
    }
    assert_eq!(seen, vec!["word mov", "word v12", "sym ,", "num 407", "sym .", "word x9"]);
    assert!(matches!(lex.scan(), Ok(Token::Eof)));
}

#[test]
fn number_ends_before_a_dot_and_before_a_letter() {
    let mut lex = Lexer::new(b"12.5 7up".to_vec());
    assert!(matches!(lex.scan(), Ok(Token::Num(Num { value: 12, .. }))));
    assert!(matches!(lex.scan(), Ok(Token::Token(TokenBase { tag: 46 }))));
    assert!(matches!(lex.scan(), Ok(Token::Num(Num { value: 5, .. }))));
    assert!(matches!(lex.scan(), Ok(Token::Num(Num { value: 7, .. }))));
    match lex.scan() {
        Ok(Token::Word(w)) => assert_eq!(w.lexeme, b"up".to_vec()),
        _ => panic!("a word was expected"),
    }
    assert!(matches!(lex.scan(), Ok(Token::Eof)));
}

#[test]
fn accented_letters_are_letters() {
    let mut lex = Lexer::new(vec![0xe9, b'1', 0xd7, 0xaa, b' ']);
    match lex.scan() {
        Ok(Token::Word(w)) => assert_eq!(w.lexeme, vec![0xe9, b'1']),
        _ => panic!("a word was expected"),
    }
    assert!(matches!(lex.scan(), Ok(Token::Token(TokenBase { tag: 0xd7 }))));
    match lex.scan() {
        Ok(Token::Word(w)) => assert_eq!(w.lexeme, vec![0xaa]),
        _ => panic!("a word was expected"),
    }
}

#[test]
fn scanner_counts_lines() {
    let mut lex = Lexer::new(b"a\n\n b\n".to_vec());
    assert_eq!(lex.line_num(), 1);
    lex.scan().unwrap();
    assert_eq!(lex.line_num(), 1);
    lex.scan().unwrap();
    assert_eq!(lex.line_num(), 3);
    lex.scan().unwrap();
    assert_eq!(lex.line_num(), 4);
}

#[test]
fn token_constructors() {
    assert_eq!(TokenBase::new(44).tag, 44);
    assert_eq!(Num::new(9).value, 9);
    assert_eq!(Num::new(9).token.tag, TAG_NUM);
    let w = WordBase::new(b"abc".to_vec(), 300);
    assert_eq!(w.token.tag, 300);
    assert_eq!(w.lexeme, b"abc".to_vec());
    assert!(w.same_word(&WordBase::new(b"abc".to_vec(), TAG_ID)));
    assert!(!w.same_word(&WordBase::new(b"abd".to_vec(), 300)));
    assert_eq!(Token::new().get_tag(), Some(0));
    assert_eq!(Token::Num(Num::new(4294967295)).text(), b"4294967295".to_vec());
    assert_eq!(Token::Num(Num::new(0)).text(), b"0".to_vec());
    assert_eq!(Token::Num(Num::new(1050)).text(), b"1050".to_vec());
    assert_eq!(Token::Token(TokenBase::new(58)).text(), b":".to_vec());
}

#[test]
fn bytes_equal_compares_whole_strings() {
    assert!(bytes_equal(b"", b""));
    assert!(bytes_equal(b"abc", b"abc"));
    assert!(!bytes_equal(b"abc", b"abd"));
    assert!(!bytes_equal(b"abc", b"ab"));
}

#[test]
fn classify_knows_the_nine_mnemonics() {
    assert_eq!(classify(b"mov"), Some(Mnemonic::Mov));
    assert_eq!(classify(b"movi"), Some(Mnemonic::Movi));
    assert_eq!(classify(b"ldai"), Some(Mnemonic::Ldai));
    assert_eq!(classify(b"lda"), Some(Mnemonic::Lda));
    assert_eq!(classify(b"sta"), Some(Mnemonic::Sta));
    assert_eq!(classify(b"add"), Some(Mnemonic::Add));
    assert_eq!(classify(b"dec"), Some(Mnemonic::Dec));
    assert_eq!(classify(b"bne"), Some(Mnemonic::Bne));
    assert_eq!(classify(b"print"), Some(Mnemonic::Print));
    assert_eq!(classify(b"prin"), None);
    assert_eq!(classify(b"movv"), None);
    assert_eq!(classify(b""), None);
}

#[test]
fn handle_reg_and_handle_imm_on_tokens() {
    assert_eq!(handle_reg(&word("v0")), Ok(0));
    assert_eq!(handle_reg(&word("v255")), Ok(255));
    assert_eq!(handle_reg(&word("v0000000000000000000012")), Ok(12));
    assert_eq!(handle_reg(&word("v256")), Err(AsmError::MalformedRegisterToken));
    assert_eq!(handle_reg(&word("v99999999999999999999")), Err(AsmError::MalformedRegisterToken));
    assert_eq!(handle_reg(&word("v")), Err(AsmError::MalformedRegisterToken));
    assert_eq!(handle_reg(&word("")), Err(AsmError::MalformedRegisterToken));
    assert_eq!(handle_reg(&word("r1")), Err(AsmError::MalformedRegisterToken));
    assert_eq!(handle_reg(&word("v1x")), Err(AsmError::MalformedRegisterToken));
    assert_eq!(handle_reg(&Token::Num(Num::new(1))), Err(AsmError::MalformedRegisterToken));
    assert_eq!(handle_reg(&Token::Eof), Err(AsmError::MalformedRegisterToken));
    assert_eq!(handle_imm(&Token::Num(Num::new(77))), Ok(77));
    assert_eq!(handle_imm(&word("v1")), Err(AsmError::UnexpectedToken));
    assert_eq!(handle_imm(&Token::Eof), Err(AsmError::UnexpectedToken));
}

#[test]
fn label_table_scoping() {
    let mut table = LabelTable::new();
    assert_eq!(table.lookup(b"L1"), None);
    assert_eq!(table.resolve(&word("L1")), Err(AsmError::UndefinedLabel));
    table.declare(b"L1".to_vec(), 4);
    assert_eq!(table.lookup(b"L1"), Some(4));
    assert_eq!(table.lookup(b"L2"), None);
    table.declare(b"L2".to_vec(), 9);
    table.declare(b"L1".to_vec(), 11);
    assert_eq!(table.resolve(&word("L1")), Ok(11));
    assert_eq!(table.resolve(&word("L2")), Ok(9));
    assert_eq!(table.resolve(&Token::Num(Num::new(4))), Err(AsmError::UndefinedLabel));
}

#[test]
fn parser_reads_from_where_the_scanner_stands() {
    let mut lex = Lexer::new(b"junk print , print".to_vec());
    lex.scan().unwrap();
    let mut parser = Parser::new(lex);
    assert_eq!(parser.operands(Mnemonic::Print, &LabelTable::new()), Ok(Inst::Print));
    assert_eq!(parser.fetch_insts(), Err(AsmError::UnknownMnemonic));
    let mut parser = Parser::new(Lexer::new(b", ;".to_vec()));
    assert_eq!(parser.match_(44), Ok(()));
    assert_eq!(parser.match_(44), Err(AsmError::UnexpectedToken));
}

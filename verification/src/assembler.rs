//! The parser of the assembler: tokens in, instructions out. A statement
//! is a mnemonic with its operands, separated by commas, or the
//! declaration of a label: a word that begins with `L`, followed by one
//! token that is discarded. A label denotes the index of the next
//! instruction to be emitted, and a branch may only name a label that has
//! been declared before it. Parsing stops at the first error.

use crate::bytecode::Inst;
use crate::lexer::{
    bytes_equal, digits_value, is_digit, lemma_scan_advances, scan_spec, scanned, AsmError, Lexer,
    Token, TokenView,
};
use vstd::prelude::*;

verus! {

/// The nine mnemonics.
#[derive(Clone, Copy, Debug, PartialEq, Eq, Structural)]
pub enum Mnemonic {
    Mov,
    Movi,
    Ldai,
    Lda,
    Sta,
    Add,
    Dec,
    Bne,
    Print,
}

/// The spelling of a mnemonic, in character codes.
pub open spec fn mnemonic_text(m: Mnemonic) -> Seq<u8> {
    match m {
        Mnemonic::Mov => seq![109u8, 111u8, 118u8],
        Mnemonic::Movi => seq![109u8, 111u8, 118u8, 105u8],
        Mnemonic::Ldai => seq![108u8, 100u8, 97u8, 105u8],
        Mnemonic::Lda => seq![108u8, 100u8, 97u8],
        Mnemonic::Sta => seq![115u8, 116u8, 97u8],
        Mnemonic::Add => seq![97u8, 100u8, 100u8],
        Mnemonic::Dec => seq![100u8, 101u8, 99u8],
        Mnemonic::Bne => seq![98u8, 110u8, 101u8],
        Mnemonic::Print => seq![112u8, 114u8, 105u8, 110u8, 116u8],
    }
}

/// The mnemonic that a word spells, if any.
pub open spec fn classify_spec(w: Seq<u8>) -> Option<Mnemonic> {
    if w == mnemonic_text(Mnemonic::Mov) {
        Some(Mnemonic::Mov)
    } else if w == mnemonic_text(Mnemonic::Movi) {
        Some(Mnemonic::Movi)
    } else if w == mnemonic_text(Mnemonic::Ldai) {
        Some(Mnemonic::Ldai)
    } else if w == mnemonic_text(Mnemonic::Lda) {
        Some(Mnemonic::Lda)
    } else if w == mnemonic_text(Mnemonic::Sta) {
        Some(Mnemonic::Sta)
    } else if w == mnemonic_text(Mnemonic::Add) {
        Some(Mnemonic::Add)
    } else if w == mnemonic_text(Mnemonic::Dec) {
        Some(Mnemonic::Dec)
    } else if w == mnemonic_text(Mnemonic::Bne) {
        Some(Mnemonic::Bne)
    } else if w == mnemonic_text(Mnemonic::Print) {
        Some(Mnemonic::Print)
    } else {
        None
    }
}

fn spells3(w: &[u8], a: u8, b: u8, c: u8) -> (r: bool)
    ensures
        r == (w@ == seq![a, b, c]),
{
    let r = w.len() == 3 && w[0] == a && w[1] == b && w[2] == c;
    assert(r ==> w@ =~= seq![a, b, c]);
    assert(w@ == seq![a, b, c] ==> w@.len() == 3 && w@[0] == a && w@[1] == b && w@[2] == c);
    r
}

fn spells4(w: &[u8], a: u8, b: u8, c: u8, d: u8) -> (r: bool)
    ensures
        r == (w@ == seq![a, b, c, d]),
{
    let r = w.len() == 4 && w[0] == a && w[1] == b && w[2] == c && w[3] == d;
    assert(r ==> w@ =~= seq![a, b, c, d]);
    assert(w@ == seq![a, b, c, d] ==> w@.len() == 4 && w@[0] == a && w@[1] == b && w@[2] == c
        && w@[3] == d);
    r
}

fn spells5(w: &[u8], a: u8, b: u8, c: u8, d: u8, e: u8) -> (r: bool)
    ensures
        r == (w@ == seq![a, b, c, d, e]),
{
    let r = w.len() == 5 && w[0] == a && w[1] == b && w[2] == c && w[3] == d && w[4] == e;
    assert(r ==> w@ =~= seq![a, b, c, d, e]);
    assert(w@ == seq![a, b, c, d, e] ==> w@.len() == 5 && w@[0] == a && w@[1] == b && w@[2] == c
        && w@[3] == d && w@[4] == e);
    r
}

/// Finds the mnemonic that a word spells.
pub fn classify(w: &[u8]) -> (r: Option<Mnemonic>)
    ensures
        r == classify_spec(w@),
{
    if spells3(w, 109, 111, 118) {
        Some(Mnemonic::Mov)
    } else if spells4(w, 109, 111, 118, 105) {
        Some(Mnemonic::Movi)
    } else if spells4(w, 108, 100, 97, 105) {
        Some(Mnemonic::Ldai)
    } else if spells3(w, 108, 100, 97) {
        Some(Mnemonic::Lda)
    } else if spells3(w, 115, 116, 97) {
        Some(Mnemonic::Sta)
    } else if spells3(w, 97, 100, 100) {
        Some(Mnemonic::Add)
    } else if spells3(w, 100, 101, 99) {
        Some(Mnemonic::Dec)
    } else if spells3(w, 98, 110, 101) {
        Some(Mnemonic::Bne)
    } else if spells5(w, 112, 114, 105, 110, 116) {
        Some(Mnemonic::Print)
    } else {
        None
    }
}

/// The register that a token names: the token is a word, `v` followed by
/// one or more decimal digits, and the digits give a number up to 255.
pub open spec fn reg_of(t: TokenView) -> Result<u8, AsmError> {
    match t {
        TokenView::Word(w) => if w.len() >= 2 && w[0] == 118 && (forall|k: int|
            1 <= k < w.len() ==> is_digit(#[trigger] w[k])) && digits_value(w, 1, w.len() as int)
            <= 255 {
            Ok(digits_value(w, 1, w.len() as int) as u8)
        } else {
            Err(AsmError::MalformedRegisterToken)
        },
        _ => Err(AsmError::MalformedRegisterToken),
    }
}

/// The immediate that a token gives: the token is a number.
pub open spec fn imm_of(t: TokenView) -> Result<u32, AsmError> {
    match t {
        TokenView::Num(v) => Ok(v),
        _ => Err(AsmError::UnexpectedToken),
    }
}

/// The instruction index that a token denotes as a label: the token is a
/// word that has been declared.
pub open spec fn resolve_spec(labels: Map<Seq<u8>, u32>, t: TokenView) -> Result<u32, AsmError> {
    match t {
        TokenView::Word(w) => if labels.contains_key(w) {
            Ok(labels[w])
        } else {
            Err(AsmError::UndefinedLabel)
        },
        _ => Err(AsmError::UndefinedLabel),
    }
}

/// The token at `p` and the position after it.
pub open spec fn token_at(src: Seq<u8>, p: int) -> Result<(TokenView, int), AsmError> {
    match scan_spec(src, p).0 {
        Ok(t) => Ok((t, scan_spec(src, p).1)),
        Err(e) => Err(e),
    }
}

/// The position after the symbol `expect`, which must be the token at `p`.
pub open spec fn symbol_at(src: Seq<u8>, p: int, expect: u32) -> Result<int, AsmError> {
    match token_at(src, p) {
        Err(e) => Err(e),
        Ok((t, q)) => if t == TokenView::Symbol(expect) {
            Ok(q)
        } else {
            Err(AsmError::UnexpectedToken)
        },
    }
}

/// Two tokens with a comma between them, and the position after them.
pub open spec fn pair_at(src: Seq<u8>, p: int) -> Result<(TokenView, TokenView, int), AsmError> {
    match token_at(src, p) {
        Err(e) => Err(e),
        Ok((a, after_first)) => match symbol_at(src, after_first, 44) {
            Err(e) => Err(e),
            Ok(after_comma) => match token_at(src, after_comma) {
                Err(e) => Err(e),
                Ok((b, after_second)) => Ok((a, b, after_second)),
            },
        },
    }
}

/// The instruction built from two register tokens, the first judged
/// first.
pub open spec fn two_regs(a: TokenView, b: TokenView, target: Option<u32>) -> Result<
    Inst,
    AsmError,
> {
    match reg_of(a) {
        Err(e) => Err(e),
        Ok(ra) => match reg_of(b) {
            Err(e) => Err(e),
            Ok(rb) => match target {
                Some(t) => Ok(Inst::Bne(ra, rb, t)),
                None => Ok(Inst::Mov(ra, rb)),
            },
        },
    }
}

/// The instruction built from one register token.
pub open spec fn one_reg(m: Mnemonic, a: TokenView) -> Result<Inst, AsmError> {
    match reg_of(a) {
        Err(e) => Err(e),
        Ok(r) => Ok(
            match m {
                Mnemonic::Lda => Inst::Lda(r),
                Mnemonic::Sta => Inst::Sta(r),
                Mnemonic::Add => Inst::Add(r),
                _ => Inst::Dec(r),
            },
        ),
    }
}

/// The instruction that the operands at `p` give to mnemonic `m`, and the
/// position after them. All operand tokens are read, and the separators
/// judged, before the operands are: a branch then judges its label before
/// its registers.
pub open spec fn operands_spec(m: Mnemonic, src: Seq<u8>, p: int, labels: Map<Seq<u8>, u32>)
    -> Result<(Inst, int), AsmError> {
    match m {
        Mnemonic::Print => Ok((Inst::Print, p)),
        Mnemonic::Mov => match pair_at(src, p) {
            Err(e) => Err(e),
            Ok((a, b, q)) => match two_regs(a, b, None) {
                Err(e) => Err(e),
                Ok(inst) => Ok((inst, q)),
            },
        },
        Mnemonic::Movi => match pair_at(src, p) {
            Err(e) => Err(e),
            Ok((a, b, q)) => match reg_of(a) {
                Err(e) => Err(e),
                Ok(r) => match imm_of(b) {
                    Err(e) => Err(e),
                    Ok(v) => Ok((Inst::Movi(r, v), q)),
                },
            },
        },
        Mnemonic::Ldai => match token_at(src, p) {
            Err(e) => Err(e),
            Ok((a, q)) => match imm_of(a) {
                Err(e) => Err(e),
                Ok(v) => Ok((Inst::Ldai(v), q)),
            },
        },
        Mnemonic::Bne => match pair_at(src, p) {
            Err(e) => Err(e),
            Ok((a, b, after_pair)) => match symbol_at(src, after_pair, 44) {
                Err(e) => Err(e),
                Ok(after_comma) => match token_at(src, after_comma) {
                    Err(e) => Err(e),
                    Ok((l, q)) => match resolve_spec(labels, l) {
                        Err(e) => Err(e),
                        Ok(target) => match two_regs(a, b, Some(target)) {
                            Err(e) => Err(e),
                            Ok(inst) => Ok((inst, q)),
                        },
                    },
                },
            },
        },
        _ => match token_at(src, p) {
            Err(e) => Err(e),
            Ok((a, q)) => match one_reg(m, a) {
                Err(e) => Err(e),
                Ok(inst) => Ok((inst, q)),
            },
        },
    }
}

/// The program that the statements from `pos` on add to `out`, under the
/// labels declared so far; or the first error.
pub open spec fn parse_from(src: Seq<u8>, pos: int, labels: Map<Seq<u8>, u32>, out: Seq<Inst>)
    -> Result<Seq<Inst>, AsmError>
    decreases src.len() - pos,
    when 0 <= pos <= src.len()
    via parse_from_terminates
{
    match token_at(src, pos) {
        Err(e) => Err(e),
        Ok((TokenView::Eof, _)) => Ok(out),
        Ok((TokenView::Word(w), p)) => match classify_spec(w) {
            Some(m) => match operands_spec(m, src, p, labels) {
                Err(e) => Err(e),
                Ok((inst, q)) => parse_from(src, q, labels, out.push(inst)),
            },
            None => if w.len() > 0 && w[0] == 76 {
                if out.len() > u32::MAX {
                    Err(AsmError::ProgramTooLong)
                } else {
                    match token_at(src, p) {
                        Err(e) => Err(e),
                        Ok((_, q)) => parse_from(src, q, labels.insert(w, out.len() as u32), out),
                    }
                }
            } else {
                Err(AsmError::UnknownMnemonic)
            },
        },
        Ok(_) => Err(AsmError::UnknownMnemonic),
    }
}

#[via_fn]
proof fn parse_from_terminates(
    src: Seq<u8>,
    pos: int,
    labels: Map<Seq<u8>, u32>,
    out: Seq<Inst>,
) {
    lemma_scan_advances(src, pos);
    let p = scan_spec(src, pos).1;
    lemma_scan_advances(src, p);
    if let Ok((TokenView::Word(w), _)) = token_at(src, pos) {
        if let Some(m) = classify_spec(w) {
            lemma_operands_advance(m, src, p, labels);
        }
    }
}

/// The program that a source text denotes, or the first error in it.
pub open spec fn parse_spec(src: Seq<u8>) -> Result<Seq<Inst>, AsmError> {
    parse_from(src, 0, Map::empty(), Seq::empty())
}

pub proof fn lemma_pair_advances(src: Seq<u8>, p: int)
    requires
        0 <= p <= src.len(),
    ensures
        pair_at(src, p) matches Ok((_, _, q)) ==> p <= q <= src.len(),
{
    lemma_scan_advances(src, p);
    let after_first = scan_spec(src, p).1;
    lemma_scan_advances(src, after_first);
    let after_comma = scan_spec(src, after_first).1;
    lemma_scan_advances(src, after_comma);
}

/// Operands never end before they start nor beyond the end of the text.
pub proof fn lemma_operands_advance(
    m: Mnemonic,
    src: Seq<u8>,
    p: int,
    labels: Map<Seq<u8>, u32>,
)
    requires
        0 <= p <= src.len(),
    ensures
        operands_spec(m, src, p, labels) matches Ok((_, q)) ==> p <= q <= src.len(),
{
    lemma_scan_advances(src, p);
    lemma_pair_advances(src, p);
    if let Ok((_, _, after_pair)) = pair_at(src, p) {
        lemma_scan_advances(src, after_pair);
        let after_comma = scan_spec(src, after_pair).1;
        lemma_scan_advances(src, after_comma);
    }
}

/// Label scoping at the table: a name that has not been declared resolves
/// to `UndefinedLabel`; once declared, it resolves to the index given at
/// its declaration, and the declaration changes no other name.
pub proof fn lemma_label_scoping(
    labels: Map<Seq<u8>, u32>,
    name: Seq<u8>,
    index: u32,
    other: Seq<u8>,
)
    ensures
        !labels.contains_key(name) ==> resolve_spec(labels, TokenView::Word(name)) == Err::<
            u32,
            AsmError,
        >(AsmError::UndefinedLabel),
        resolve_spec(Map::empty(), TokenView::Word(name)) == Err::<u32, AsmError>(
            AsmError::UndefinedLabel,
        ),
        resolve_spec(labels.insert(name, index), TokenView::Word(name)) == Ok::<u32, AsmError>(
            index,
        ),
        other != name ==> resolve_spec(labels.insert(name, index), TokenView::Word(other))
            == resolve_spec(labels, TokenView::Word(other)),
{
}

/// The label that the statement at `pos` declares, and the position after
/// the token that follows it, if the statement is a label declaration.
pub open spec fn declaration_at(src: Seq<u8>, pos: int) -> Option<(Seq<u8>, int)> {
    match token_at(src, pos) {
        Ok((TokenView::Word(w), p)) => if classify_spec(w) is None && w.len() > 0 && w[0] == 76 {
            match token_at(src, p) {
                Ok((_, q)) => Some((w, q)),
                Err(_) => None,
            }
        } else {
            None
        },
        _ => None,
    }
}

/// The label that the statement at `pos` branches to, if the statement is
/// a branch with its three operands in place, the third a word.
pub open spec fn branch_label_at(src: Seq<u8>, pos: int) -> Option<Seq<u8>> {
    match token_at(src, pos) {
        Ok((TokenView::Word(w), p)) => if classify_spec(w) == Some(Mnemonic::Bne) {
            match pair_at(src, p) {
                Ok((_, _, after_pair)) => match symbol_at(src, after_pair, 44) {
                    Ok(after_comma) => match token_at(src, after_comma) {
                        Ok((TokenView::Word(name), _)) => Some(name),
                        _ => None,
                    },
                    Err(_) => None,
                },
                Err(_) => None,
            }
        } else {
            None
        },
        _ => None,
    }
}

/// Label scoping in a program: where a statement declares a label, the
/// rest of the text is parsed with that label bound to the number of
/// instructions emitted so far.
pub proof fn lemma_declaration_binds_next_index(
    src: Seq<u8>,
    pos: int,
    labels: Map<Seq<u8>, u32>,
    out: Seq<Inst>,
)
    requires
        0 <= pos <= src.len(),
        out.len() <= u32::MAX,
        declaration_at(src, pos) is Some,
    ensures
        declaration_at(src, pos) matches Some((w, q)) && parse_from(src, pos, labels, out)
            == parse_from(src, q, labels.insert(w, out.len() as u32), out),
{
    lemma_scan_advances(src, pos);
    lemma_scan_advances(src, scan_spec(src, pos).1);
}

/// Label scoping in a program: a branch to a label that has not been
/// declared before it makes the whole text fail with `UndefinedLabel`.
pub proof fn lemma_undeclared_label_fails(
    src: Seq<u8>,
    pos: int,
    labels: Map<Seq<u8>, u32>,
    out: Seq<Inst>,
)
    requires
        0 <= pos <= src.len(),
        branch_label_at(src, pos) matches Some(name) && !labels.contains_key(name),
    ensures
        parse_from(src, pos, labels, out) == Err::<Seq<Inst>, AsmError>(AsmError::UndefinedLabel),
{
}

/// Label scoping in a program: a branch to a declared label, with two
/// well-formed registers, emits a branch to the index bound to the label.
pub proof fn lemma_declared_label_resolves(
    src: Seq<u8>,
    pos: int,
    labels: Map<Seq<u8>, u32>,
    out: Seq<Inst>,
)
    requires
        0 <= pos <= src.len(),
        branch_label_at(src, pos) matches Some(name) && labels.contains_key(name),
        token_at(src, pos) matches Ok((_, p)) && operands_spec(Mnemonic::Bne, src, p, labels)
            is Ok,
    ensures
        token_at(src, pos) matches Ok((_, p)) && operands_spec(Mnemonic::Bne, src, p, labels)
            matches Ok((inst, q)) && inst matches Inst::Bne(_, _, target) && Some(target) == (
        match branch_label_at(src, pos) {
            Some(name) => Some(labels[name]),
            None => None,
        }) && parse_from(src, pos, labels, out) == parse_from(src, q, labels, out.push(inst)),
{
    lemma_scan_advances(src, pos);
    lemma_operands_advance(Mnemonic::Bne, src, scan_spec(src, pos).1, labels);
}

/// One declared label.
pub struct LabelEntry {
    pub name: Vec<u8>,
    pub index: u32,
}

/// The map that a list of declarations denotes: a later declaration of a
/// name replaces an earlier one.
pub open spec fn table_of(entries: Seq<LabelEntry>) -> Map<Seq<u8>, u32>
    decreases entries.len(),
{
    if entries.len() == 0 {
        Map::empty()
    } else {
        table_of(entries.drop_last()).insert(entries.last().name@, entries.last().index)
    }
}

/// The labels declared so far, each with the instruction index it denotes.
pub struct LabelTable {
    pub entries: Vec<LabelEntry>,
}

impl View for LabelTable {
    type V = Map<Seq<u8>, u32>;

    open spec fn view(&self) -> Map<Seq<u8>, u32> {
        table_of(self.entries@)
    }
}

impl LabelTable {
    /// A table without labels.
    pub fn new() -> (t: LabelTable)
        ensures
            t@ == Map::<Seq<u8>, u32>::empty(),
    {
        LabelTable { entries: Vec::new() }
    }

    /// Declares `name` to denote `index`, replacing an earlier declaration
    /// of the same name.
    pub fn declare(&mut self, name: Vec<u8>, index: u32)
        ensures
            final(self)@ == old(self)@.insert(name@, index),
    {
        self.entries.push(LabelEntry { name, index });
        assert(self.entries@.drop_last() =~= old(self).entries@);
    }

    /// The index that `name` denotes, if it has been declared.
    pub fn lookup(&self, name: &[u8]) -> (r: Option<u32>)
        ensures
            r == if self@.contains_key(name@) {
                Some(self@[name@])
            } else {
                None
            },
    {
        let mut i: usize = self.entries.len();
        assert(self.entries@.take(i as int) =~= self.entries@);
        while i > 0
            invariant
                i <= self.entries@.len(),
                self@.contains_key(name@) == table_of(self.entries@.take(i as int)).contains_key(
                    name@,
                ),
                self@.contains_key(name@) ==> self@[name@] == table_of(
                    self.entries@.take(i as int),
                )[name@],
            decreases i,
        {
            i -= 1;
            assert(self.entries@.take(i + 1).drop_last() =~= self.entries@.take(i as int));
            if bytes_equal(self.entries[i].name.as_slice(), name) {
                return Some(self.entries[i].index);
            }
        }
        None
    }

    /// The index that a token denotes as a label.
    pub fn resolve(&self, label: &Token) -> (r: Result<u32, AsmError>)
        ensures
            r == resolve_spec(self@, label@),
    {
        match label {
            Token::Word(word) => match self.lookup(word.lexeme.as_slice()) {
                Some(index) => Ok(index),
                None => Err(AsmError::UndefinedLabel),
            },
            _ => Err(AsmError::UndefinedLabel),
        }
    }
}

/// The register that a token names.
pub fn handle_reg(v: &Token) -> (r: Result<u8, AsmError>)
    ensures
        r == reg_of(v@),
{
    match v {
        Token::Word(word) => {
            let s = &word.lexeme;
            if s.len() < 2 || s[0] != 118 {
                return Err(AsmError::MalformedRegisterToken);
            }
            let mut num: u32 = 0;
            let mut too_big: bool = false;
            let mut i: usize = 1;
            while i < s.len()
                invariant
                    v@ == TokenView::Word(s@),
                    s@[0] == 118,
                    1 <= i <= s@.len(),
                    forall|k: int| 1 <= k < i ==> is_digit(#[trigger] s@[k]),
                    !too_big ==> num == digits_value(s@, 1, i as int) && num <= 255,
                    too_big ==> digits_value(s@, 1, i as int) > 255,
                decreases s@.len() - i,
            {
                let c: u8 = s[i];
                if c < 48 || c > 57 {
                    assert(!is_digit(s@[i as int]));
                    return Err(AsmError::MalformedRegisterToken);
                }
                if !too_big {
                    num = 10 * num + (c - 48) as u32;
                    if num > 255 {
                        too_big = true;
                    }
                }
                i += 1;
            }
            if too_big {
                Err(AsmError::MalformedRegisterToken)
            } else {
                Ok(num as u8)
            }
        },
        _ => Err(AsmError::MalformedRegisterToken),
    }
}

/// The immediate that a token gives.
pub fn handle_imm(imm: &Token) -> (r: Result<u32, AsmError>)
    ensures
        r == imm_of(imm@),
{
    match imm {
        Token::Num(num) => Ok(num.value),
        _ => Err(AsmError::UnexpectedToken),
    }
}

/// Builds a `mov`, or with a target a `bne`, from two register tokens.
fn build_two_regs(a: &Token, b: &Token, target: Option<u32>) -> (r: Result<Inst, AsmError>)
    ensures
        r == two_regs(a@, b@, target),
{
    let ra = match handle_reg(a) {
        Err(e) => {
            return Err(e);
        },
        Ok(x) => x,
    };
    let rb = match handle_reg(b) {
        Err(e) => {
            return Err(e);
        },
        Ok(x) => x,
    };
    match target {
        Some(t) => Ok(Inst::Bne(ra, rb, t)),
        None => Ok(Inst::Mov(ra, rb)),
    }
}

/// Builds an instruction with one register operand from its token.
fn build_one_reg(m: Mnemonic, a: &Token) -> (r: Result<Inst, AsmError>)
    ensures
        r == one_reg(m, a@),
{
    match handle_reg(a) {
        Err(e) => Err(e),
        Ok(r) => Ok(
            match m {
                Mnemonic::Lda => Inst::Lda(r),
                Mnemonic::Sta => Inst::Sta(r),
                Mnemonic::Add => Inst::Add(r),
                _ => Inst::Dec(r),
            },
        ),
    }
}

/// The parse result `r` is the outcome `s`.
pub open spec fn same_outcome(r: Result<Vec<Inst>, AsmError>, s: Result<Seq<Inst>, AsmError>)
    -> bool {
    match s {
        Ok(insts) => r matches Ok(v) && v@ == insts,
        Err(e) => r == Err::<Vec<Inst>, AsmError>(e),
    }
}

pub struct Parser {
    pub lex: Lexer,
}

impl Parser {
    pub fn new(lex: Lexer) -> (p: Parser)
        ensures
            p.lex == lex,
    {
        Parser { lex }
    }

    /// Reads one token, which must be the symbol `expect`.
    pub fn match_(&mut self, expect: u32) -> (r: Result<(), AsmError>)
        requires
            old(self).lex.wf(),
        ensures
            final(self).lex.wf(),
            final(self).lex.src == old(self).lex.src,
            match symbol_at(old(self).lex.src@, old(self).lex.pos as int, expect) {
                Ok(q) => r is Ok && final(self).lex.pos == q,
                Err(e) => r == Err::<(), AsmError>(e),
            },
    {
        match self.lex.scan() {
            Err(e) => Err(e),
            Ok(Token::Token(t)) => if t.tag == expect {
                Ok(())
            } else {
                Err(AsmError::UnexpectedToken)
            },
            Ok(_) => Err(AsmError::UnexpectedToken),
        }
    }

    /// Reads two tokens with a comma between them.
    fn pair(&mut self) -> (r: Result<(Token, Token), AsmError>)
        requires
            old(self).lex.wf(),
        ensures
            final(self).lex.wf(),
            final(self).lex.src == old(self).lex.src,
            match pair_at(old(self).lex.src@, old(self).lex.pos as int) {
                Ok((a, b, q)) => r matches Ok(t) && t.0@ == a && t.1@ == b && final(self).lex.pos
                    == q,
                Err(e) => r == Err::<(Token, Token), AsmError>(e),
            },
    {
        let a = match self.lex.scan() {
            Err(e) => {
                return Err(e);
            },
            Ok(t) => t,
        };
        match self.match_(44) {
            Err(e) => {
                return Err(e);
            },
            Ok(_) => {},
        }
        let b = match self.lex.scan() {
            Err(e) => {
                return Err(e);
            },
            Ok(t) => t,
        };
        Ok((a, b))
    }

    /// Reads the operands of mnemonic `m` and builds the instruction.
    pub fn operands(&mut self, m: Mnemonic, labels: &LabelTable) -> (r: Result<Inst, AsmError>)
        requires
            old(self).lex.wf(),
        ensures
            final(self).lex.wf(),
            final(self).lex.src == old(self).lex.src,
            match operands_spec(m, old(self).lex.src@, old(self).lex.pos as int, labels@) {
                Ok((inst, q)) => r == Ok::<Inst, AsmError>(inst) && final(self).lex.pos == q,
                Err(e) => r == Err::<Inst, AsmError>(e),
            },
    {
        match m {
            Mnemonic::Print => Ok(Inst::Print),
            Mnemonic::Mov => {
                let (a, b) = match self.pair() {
                    Err(e) => {
                        return Err(e);
                    },
                    Ok(t) => t,
                };
                build_two_regs(&a, &b, None)
            },
            Mnemonic::Movi => {
                let (a, b) = match self.pair() {
                    Err(e) => {
                        return Err(e);
                    },
                    Ok(t) => t,
                };
                let r = match handle_reg(&a) {
                    Err(e) => {
                        return Err(e);
                    },
                    Ok(x) => x,
                };
                match handle_imm(&b) {
                    Err(e) => Err(e),
                    Ok(v) => Ok(Inst::Movi(r, v)),
                }
            },
            Mnemonic::Ldai => {
                let a = match self.lex.scan() {
                    Err(e) => {
                        return Err(e);
                    },
                    Ok(t) => t,
                };
                match handle_imm(&a) {
                    Err(e) => Err(e),
                    Ok(v) => Ok(Inst::Ldai(v)),
                }
            },
            Mnemonic::Bne => self.branch_operands(labels),
            _ => {
                let a = match self.lex.scan() {
                    Err(e) => {
                        return Err(e);
                    },
                    Ok(t) => t,
                };
                build_one_reg(m, &a)
            },
        }
    }

    /// Reads the operands of a branch: two registers and a label.
    fn branch_operands(&mut self, labels: &LabelTable) -> (r: Result<Inst, AsmError>)
        requires
            old(self).lex.wf(),
        ensures
            final(self).lex.wf(),
            final(self).lex.src == old(self).lex.src,
            match operands_spec(
                Mnemonic::Bne,
                old(self).lex.src@,
                old(self).lex.pos as int,
                labels@,
            ) {
                Ok((inst, q)) => r == Ok::<Inst, AsmError>(inst) && final(self).lex.pos == q,
                Err(e) => r == Err::<Inst, AsmError>(e),
            },
    {
        let (a, b) = match self.pair() {
            Err(e) => {
                return Err(e);
            },
            Ok(t) => t,
        };
        match self.match_(44) {
            Err(e) => {
                return Err(e);
            },
            Ok(_) => {},
        }
        let label = match self.lex.scan() {
            Err(e) => {
                return Err(e);
            },
            Ok(t) => t,
        };
        match labels.resolve(&label) {
            Err(e) => Err(e),
            Ok(target) => build_two_regs(&a, &b, Some(target)),
        }
    }

    /// Parses the rest of the text into a program.
    pub fn fetch_insts(&mut self) -> (r: Result<Vec<Inst>, AsmError>)
        requires
            old(self).lex.wf(),
        ensures
            final(self).lex.wf(),
            final(self).lex.src == old(self).lex.src,
            same_outcome(
                r,
                parse_from(
                    old(self).lex.src@,
                    old(self).lex.pos as int,
                    Map::empty(),
                    Seq::empty(),
                ),
            ),
    {
        let mut ret: Vec<Inst> = Vec::new();
        let mut labels = LabelTable::new();
        let ghost src = self.lex.src@;
        let ghost goal = parse_from(src, self.lex.pos as int, Map::empty(), Seq::empty());
        loop
            invariant
                self.lex.wf(),
                self.lex.src == old(self).lex.src,
                self.lex.src@ == src,
                parse_from(src, self.lex.pos as int, labels@, ret@) == goal,
                goal == parse_from(
                    old(self).lex.src@,
                    old(self).lex.pos as int,
                    Map::empty(),
                    Seq::empty(),
                ),
            decreases src.len() - self.lex.pos,
        {
            let ghost pos = self.lex.pos as int;
            proof {
                lemma_scan_advances(src, pos);
                lemma_scan_advances(src, scan_spec(src, pos).1);
            }
            let scan_result = self.lex.scan();
            assert(token_at(src, pos) == match scanned(scan_result) {
                Ok(t) => Ok::<(TokenView, int), AsmError>((t, self.lex.pos as int)),
                Err(e) => Err(e),
            });
            let tok = match scan_result {
                Err(e) => {
                    return Err(e);
                },
                Ok(t) => t,
            };
            match tok {
                Token::Eof => {
                    return Ok(ret);
                },
                Token::Word(word) => {
                    match classify(word.lexeme.as_slice()) {
                        Some(m) => {
                            proof {
                                lemma_operands_advance(m, src, self.lex.pos as int, labels@);
                            }
                            match self.operands(m, &labels) {
                                Err(e) => {
                                    return Err(e);
                                },
                                Ok(inst) => {
                                    ret.push(inst);
                                },
                            }
                        },
                        None => {
                            if word.lexeme.len() > 0 && word.lexeme[0] == 76 {
                                if ret.len() > 0xffff_ffff {
                                    return Err(AsmError::ProgramTooLong);
                                }
                                let index: u32 = ret.len() as u32;
                                labels.declare(word.lexeme, index);
                                match self.lex.scan() {
                                    Err(e) => {
                                        return Err(e);
                                    },
                                    Ok(_) => {},
                                }
                            } else {
                                return Err(AsmError::UnknownMnemonic);
                            }
                        },
                    }
                },
                _ => {
                    return Err(AsmError::UnknownMnemonic);
                },
            }
        }
    }
}

/// Assembles a source text, one byte per character, into a program.
pub fn assemble(src: Vec<u8>) -> (r: Result<Vec<Inst>, AsmError>)
    ensures
        same_outcome(r, parse_spec(src@)),
{
    let mut parser = Parser::new(Lexer::new(src));
    parser.fetch_insts()
}

} // verus!

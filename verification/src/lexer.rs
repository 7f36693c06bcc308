//! The scanner of the assembler: bytes of source text in, tokens out, with
//! one byte of lookahead. Each byte is one character. Spaces, tabs and
//! newlines separate tokens; a number is a run of decimal digits; a word is
//! a letter followed by letters and digits; any other byte is a token by
//! itself.

use vstd::prelude::*;

verus! {

/// Tag of a word token. Tags below 256 are character codes.
pub const TAG_ID: u32 = 256;

/// Tag of a number token.
pub const TAG_NUM: u32 = 257;

/// Why a source text is not a program.
#[derive(Clone, Copy, Debug, PartialEq, Eq, Structural)]
pub enum AsmError {
    /// A statement begins with something that is neither a mnemonic nor a
    /// label.
    UnknownMnemonic,
    /// A branch names a label that has not been declared before it.
    UndefinedLabel,
    /// A register operand is not `v` followed by decimal digits that give a
    /// number up to 255.
    MalformedRegisterToken,
    /// A separator or an immediate was required and something else stands
    /// there.
    UnexpectedToken,
    /// A numeric literal does not fit in 32 bits.
    NumberOutOfRange,
    /// A label would denote an instruction index that does not fit in 32
    /// bits.
    ProgramTooLong,
}

pub struct TokenBase {
    pub tag: u32,
}

impl TokenBase {
    pub fn new(c: u32) -> (t: TokenBase)
        ensures
            t.tag == c,
    {
        TokenBase { tag: c }
    }
}

pub struct WordBase {
    pub token: TokenBase,
    pub lexeme: Vec<u8>,
}

impl WordBase {
    pub fn new(s: Vec<u8>, tag: u32) -> (w: WordBase)
        ensures
            w.token.tag == tag,
            w.lexeme == s,
    {
        WordBase { token: TokenBase::new(tag), lexeme: s }
    }

    /// Two words are the same word if their lexemes are equal, whatever
    /// their tags.
    pub fn same_word(&self, other: &WordBase) -> (r: bool)
        ensures
            r == (self.lexeme@ == other.lexeme@),
    {
        bytes_equal(self.lexeme.as_slice(), other.lexeme.as_slice())
    }
}

pub struct Num {
    pub token: TokenBase,
    pub value: u32,
}

impl Num {
    pub fn new(v: u32) -> (n: Num)
        ensures
            n.token.tag == TAG_NUM,
            n.value == v,
    {
        Num { token: TokenBase { tag: TAG_NUM }, value: v }
    }
}

pub enum Token {
    /// A single character that is no part of a word or a number.
    Token(TokenBase),
    /// An identifier.
    Word(WordBase),
    /// A numeric literal.
    Num(Num),
    /// The end of the input.
    Eof,
}

/// A token as a mathematical value.
pub enum TokenView {
    Symbol(u32),
    Word(Seq<u8>),
    Num(u32),
    Eof,
}

impl View for Token {
    type V = TokenView;

    open spec fn view(&self) -> TokenView {
        match *self {
            Token::Token(t) => TokenView::Symbol(t.tag),
            Token::Word(w) => TokenView::Word(w.lexeme@),
            Token::Num(n) => TokenView::Num(n.value),
            Token::Eof => TokenView::Eof,
        }
    }
}

/// The decimal digits of `n`, most significant first, as character codes.
pub open spec fn decimal(n: nat) -> Seq<u8>
    decreases n,
{
    if n < 10 {
        seq![(48 + n) as u8]
    } else {
        decimal(n / 10).push((48 + n % 10) as u8)
    }
}

/// The text of a token: the character, the lexeme, the decimal digits of
/// the number, or `Eof`.
pub open spec fn token_text(t: TokenView) -> Seq<u8> {
    match t {
        TokenView::Symbol(c) => seq![c as u8],
        TokenView::Word(w) => w,
        TokenView::Num(v) => decimal(v as nat),
        TokenView::Eof => seq![69u8, 111u8, 102u8],
    }
}

/// Appends the decimal digits of `n`.
fn push_decimal(out: &mut Vec<u8>, n: u32)
    ensures
        final(out)@ == old(out)@ + decimal(n as nat),
    decreases n,
{
    if n < 10 {
        out.push(48 + n as u8);
        assert(out@ =~= old(out)@ + decimal(n as nat));
    } else {
        push_decimal(out, n / 10);
        let d: u8 = (n % 10) as u8;
        out.push(48 + d);
        assert(out@ =~= old(out)@ + decimal(n as nat));
    }
}

/// Whether two byte strings are equal.
pub fn bytes_equal(a: &[u8], b: &[u8]) -> (r: bool)
    ensures
        r == (a@ == b@),
{
    if a.len() != b.len() {
        return false;
    }
    let mut i: usize = 0;
    while i < a.len()
        invariant
            i <= a@.len(),
            a@.len() == b@.len(),
            forall|k: int| 0 <= k < i ==> a@[k] == b@[k],
        decreases a@.len() - i,
    {
        if a[i] != b[i] {
            return false;
        }
        i += 1;
    }
    assert(a@ =~= b@);
    true
}

impl Token {
    /// The token for the character with code 0.
    pub fn new() -> (t: Token)
        ensures
            t@ == TokenView::Symbol(0),
    {
        Token::Token(TokenBase::new(0))
    }

    /// The tag of the token; the end of the input has none.
    pub fn get_tag(&self) -> (r: Option<u32>)
        ensures
            r == match *self {
                Token::Token(t) => Some(t.tag),
                Token::Word(w) => Some(w.token.tag),
                Token::Num(n) => Some(n.token.tag),
                Token::Eof => None,
            },
    {
        match self {
            Token::Token(tok) => Some(tok.tag),
            Token::Word(word) => Some(word.token.tag),
            Token::Num(num) => Some(num.token.tag),
            Token::Eof => None,
        }
    }

    /// The text of the token, one byte per character.
    pub fn text(&self) -> (s: Vec<u8>)
        requires
            self@ matches TokenView::Symbol(c) ==> c < 256,
        ensures
            s@ == token_text(self@),
    {
        let mut s: Vec<u8> = Vec::new();
        match self {
            Token::Token(tok) => {
                s.push(tok.tag as u8);
                assert(s@ =~= token_text(self@));
            },
            Token::Word(word) => {
                let mut i: usize = 0;
                while i < word.lexeme.len()
                    invariant
                        i <= word.lexeme@.len(),
                        s@ == word.lexeme@.take(i as int),
                    decreases word.lexeme@.len() - i,
                {
                    s.push(word.lexeme[i]);
                    assert(s@ =~= word.lexeme@.take(i + 1));
                    i += 1;
                }
                assert(s@ =~= word.lexeme@);
            },
            Token::Num(num) => {
                push_decimal(&mut s, num.value);
                assert(s@ =~= token_text(self@));
            },
            Token::Eof => {
                s.push(69);
                s.push(111);
                s.push(102);
                assert(s@ =~= token_text(self@));
            },
        }
        s
    }
}

/// Space, tab or newline.
pub open spec fn is_space(b: u8) -> bool {
    b == 32 || b == 9 || b == 10
}

/// A decimal digit.
pub open spec fn is_digit(b: u8) -> bool {
    48 <= b <= 57
}

/// A letter: the character with this code is alphabetic. Beyond the ASCII
/// letters these are, in the range of one byte, the ordinal indicators, the
/// micro sign and the accented letters.
pub open spec fn is_letter(b: u8) -> bool {
    ||| 65 <= b <= 90
    ||| 97 <= b <= 122
    ||| b == 0xaa
    ||| b == 0xb5
    ||| b == 0xba
    ||| (0xc0 <= b && b != 0xd7 && b != 0xf7)
}

/// The first position at or after `pos` that holds no space.
pub open spec fn skip_spaces(src: Seq<u8>, pos: int) -> int
    decreases src.len() - pos,
{
    if 0 <= pos < src.len() && is_space(src[pos]) {
        skip_spaces(src, pos + 1)
    } else {
        pos
    }
}

/// The first position at or after `pos` that holds no digit.
pub open spec fn digits_end(src: Seq<u8>, pos: int) -> int
    decreases src.len() - pos,
{
    if 0 <= pos < src.len() && is_digit(src[pos]) {
        digits_end(src, pos + 1)
    } else {
        pos
    }
}

/// The first position at or after `pos` that holds neither a letter nor a
/// digit.
pub open spec fn word_end(src: Seq<u8>, pos: int) -> int
    decreases src.len() - pos,
{
    if 0 <= pos < src.len() && (is_letter(src[pos]) || is_digit(src[pos])) {
        word_end(src, pos + 1)
    } else {
        pos
    }
}

/// The number that the digits in `src[from..to]` denote.
pub open spec fn digits_value(src: Seq<u8>, from: int, to: int) -> nat
    decreases to - from,
{
    if to <= from {
        0
    } else {
        (10 * digits_value(src, from, to - 1) + (src[to - 1] - 48)) as nat
    }
}

/// How many newlines stand before position `pos`.
pub open spec fn newlines_before(src: Seq<u8>, pos: int) -> nat
    decreases pos,
{
    if pos <= 0 {
        0
    } else {
        newlines_before(src, pos - 1) + if src[pos - 1] == 10 {
            1nat
        } else {
            0nat
        }
    }
}

/// The token that starts at or after `pos`, and the position after it. A
/// number is the whole run of digits: a `.` after it is not part of it and
/// is left for the next token.
#[verifier::opaque]
pub open spec fn scan_spec(src: Seq<u8>, pos: int) -> (Result<TokenView, AsmError>, int) {
    let p = skip_spaces(src, pos);
    if p >= src.len() {
        (Ok(TokenView::Eof), p)
    } else if is_digit(src[p]) {
        let e = digits_end(src, p);
        if digits_value(src, p, e) > u32::MAX {
            (Err(AsmError::NumberOutOfRange), e)
        } else {
            (Ok(TokenView::Num(digits_value(src, p, e) as u32)), e)
        }
    } else if is_letter(src[p]) {
        let e = word_end(src, p);
        (Ok(TokenView::Word(src.subrange(p, e))), e)
    } else {
        (Ok(TokenView::Symbol(src[p] as u32)), p + 1)
    }
}

/// The view of a scan result.
pub open spec fn scanned(r: Result<Token, AsmError>) -> Result<TokenView, AsmError> {
    match r {
        Ok(t) => Ok(t@),
        Err(e) => Err(e),
    }
}

pub proof fn lemma_skip_spaces_bounds(src: Seq<u8>, pos: int)
    requires
        0 <= pos <= src.len(),
    ensures
        pos <= skip_spaces(src, pos) <= src.len(),
    decreases src.len() - pos,
{
    if pos < src.len() && is_space(src[pos]) {
        lemma_skip_spaces_bounds(src, pos + 1);
    }
}

pub proof fn lemma_digits_end_bounds(src: Seq<u8>, pos: int)
    requires
        0 <= pos <= src.len(),
    ensures
        pos <= digits_end(src, pos) <= src.len(),
    decreases src.len() - pos,
{
    if pos < src.len() && is_digit(src[pos]) {
        lemma_digits_end_bounds(src, pos + 1);
    }
}

pub proof fn lemma_word_end_bounds(src: Seq<u8>, pos: int)
    requires
        0 <= pos <= src.len(),
    ensures
        pos <= word_end(src, pos) <= src.len(),
    decreases src.len() - pos,
{
    if pos < src.len() && (is_letter(src[pos]) || is_digit(src[pos])) {
        lemma_word_end_bounds(src, pos + 1);
    }
}

/// Scanning never moves backwards or beyond the end, and every token but
/// the end of the input, and every error, consumes at least one byte.
pub proof fn lemma_scan_advances(src: Seq<u8>, pos: int)
    requires
        0 <= pos <= src.len(),
    ensures
        pos <= scan_spec(src, pos).1 <= src.len(),
        scan_spec(src, pos).0 != Ok::<TokenView, AsmError>(TokenView::Eof) ==> pos < scan_spec(
            src,
            pos,
        ).1,
{
    reveal(scan_spec);
    lemma_skip_spaces_bounds(src, pos);
    let p = skip_spaces(src, pos);
    if p < src.len() {
        lemma_digits_end_bounds(src, p + 1);
        lemma_word_end_bounds(src, p + 1);
    }
}

/// The scanner: the source text, the position of the lookahead byte, and
/// the number of newlines passed so far.
pub struct Lexer {
    pub src: Vec<u8>,
    pub pos: usize,
    pub line_breaks: usize,
}

impl Lexer {
    pub open spec fn wf(&self) -> bool {
        &&& self.pos <= self.src@.len()
        &&& self.line_breaks == newlines_before(self.src@, self.pos as int)
    }

    /// A scanner at the start of `src`.
    pub fn new(src: Vec<u8>) -> (lex: Lexer)
        ensures
            lex.wf(),
            lex.src == src,
            lex.pos == 0,
    {
        Lexer { src, pos: 0, line_breaks: 0 }
    }

    /// The number of the line on which the lookahead byte stands, counted
    /// from 1; the largest number there is, should the count pass it.
    pub fn line_num(&self) -> (n: usize)
        requires
            self.wf(),
        ensures
            n == if newlines_before(self.src@, self.pos as int) < usize::MAX {
                newlines_before(self.src@, self.pos as int) + 1
            } else {
                usize::MAX as nat
            },
    {
        if self.line_breaks < usize::MAX {
            self.line_breaks + 1
        } else {
            usize::MAX
        }
    }

    /// Reads the next token.
    pub fn scan(&mut self) -> (r: Result<Token, AsmError>)
        requires
            old(self).wf(),
        ensures
            final(self).wf(),
            final(self).src == old(self).src,
            (scanned(r), final(self).pos as int) == scan_spec(
                old(self).src@,
                old(self).pos as int,
            ),
    {
        let ghost src = self.src@;
        let ghost start = self.pos as int;
        proof {
            reveal(scan_spec);
            lemma_newlines_bounded(src, start);
        }
        while self.pos < self.src.len() && (self.src[self.pos] == 32 || self.src[self.pos] == 9
            || self.src[self.pos] == 10)
            invariant
                self.wf(),
                self.src@ == src,
                self.src == old(self).src,
                self.line_breaks <= self.pos,
                skip_spaces(src, self.pos as int) == skip_spaces(src, start),
            decreases src.len() - self.pos,
        {
            if self.src[self.pos] == 10 {
                self.line_breaks += 1;
            }
            self.pos += 1;
        }
        if self.pos >= self.src.len() {
            return Ok(Token::Eof);
        }
        let ghost p = self.pos as int;
        let c: u8 = self.src[self.pos];
        if 48 <= c && c <= 57 {
            let mut v: u32 = 0;
            let mut overflow: bool = false;
            while self.pos < self.src.len() && 48 <= self.src[self.pos] && self.src[self.pos]
                <= 57
                invariant
                    self.wf(),
                    self.src@ == src,
                    self.src == old(self).src,
                    0 <= p <= self.pos,
                    digits_end(src, self.pos as int) == digits_end(src, p),
                    !overflow ==> v == digits_value(src, p, self.pos as int),
                    overflow ==> digits_value(src, p, self.pos as int) > u32::MAX,
                decreases src.len() - self.pos,
            {
                let d: u32 = (self.src[self.pos] - 48) as u32;
                if !overflow {
                    if v > (u32::MAX - d) / 10 {
                        overflow = true;
                    } else {
                        v = 10 * v + d;
                    }
                }
                self.pos += 1;
            }
            if overflow {
                return Err(AsmError::NumberOutOfRange);
            }
            return Ok(Token::Num(Num::new(v)));
        }
        let is_alpha: bool = (65 <= c && c <= 90) || (97 <= c && c <= 122) || c == 0xaa || c
            == 0xb5 || c == 0xba || (0xc0 <= c && c != 0xd7 && c != 0xf7);
        if is_alpha {
            let mut s: Vec<u8> = Vec::new();
            while self.pos < self.src.len() && is_word_byte(self.src[self.pos])
                invariant
                    self.wf(),
                    self.src@ == src,
                    self.src == old(self).src,
                    0 <= p <= self.pos,
                    word_end(src, self.pos as int) == word_end(src, p),
                    s@ == src.subrange(p, self.pos as int),
                decreases src.len() - self.pos,
            {
                s.push(self.src[self.pos]);
                self.pos += 1;
                assert(s@ =~= src.subrange(p, self.pos as int));
            }
            return Ok(Token::Word(WordBase::new(s, TAG_ID)));
        }
        self.pos += 1;
        Ok(Token::Token(TokenBase::new(c as u32)))
    }
}

/// Whether a byte may stand inside a word: a letter or a digit.
fn is_word_byte(c: u8) -> (r: bool)
    ensures
        r == (is_letter(c) || is_digit(c)),
{
    (48 <= c && c <= 57) || (65 <= c && c <= 90) || (97 <= c && c <= 122) || c == 0xaa || c
        == 0xb5 || c == 0xba || (0xc0 <= c && c != 0xd7 && c != 0xf7)
}

/// There are no more newlines before a position than bytes.
pub proof fn lemma_newlines_bounded(src: Seq<u8>, pos: int)
    requires
        0 <= pos,
    ensures
        newlines_before(src, pos) <= pos,
    decreases pos,
{
    if pos > 0 {
        lemma_newlines_bounded(src, pos - 1);
    }
}

} // verus!

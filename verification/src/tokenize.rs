//! The lexer: splits source text into lines, the lines into
//! whitespace-separated blocks, and scans each block left to right into
//! tokens under the longest-match rule.

use vstd::prelude::*;
use vstd::string::StrSliceExecFns;
use crate::strutil::str_eq;

verus! {

/// A reserved word of the language.
#[derive(Debug, Clone, Copy, PartialEq, Eq, Structural)]
pub enum Keyword {
    FN,
    RETURN,
    VAL,
    IF,
    ELSIF,
    ELSE,
}

/// A punctuation or operator character pair of the language.
#[derive(Debug, Clone, Copy, PartialEq, Eq, Structural)]
pub enum Punctuator {
    BraceLeft,
    BraceRight,
    ParenthesisLeft,
    ParenthesisRight,
    BracketLeft,
    BracketRight,
    Comma,
    Plus,
    Minus,
    Star,
    Slash,
    Percent,
    Equal,
    DoubleEqual,
    SemiColon,
    LessThan,
    Greater,
}

/// The tag and payload of a token.
#[derive(Debug, Clone, PartialEq)]
pub enum TokenType {
    Keyword(Keyword),
    Identifier(String),
    Constant(i32),
    Punctuator(Punctuator),
}

/// A source position: line, whitespace-block index within the line, and
/// character offset within the block.
#[derive(Debug, Clone, Copy, PartialEq, Eq)]
pub struct Pos {
    pub line: usize,
    pub block_pos: usize,
    pub char_pos: usize,
}

/// A token together with the position it was read at.
#[derive(Debug, Clone, PartialEq)]
pub struct Token {
    pub token: TokenType,
    pub pos: Pos,
}

/// The mathematical model of a source position.
pub struct PosV {
    pub line: nat,
    pub block_pos: nat,
    pub char_pos: nat,
}

/// The mathematical model of a token's tag and payload.
pub enum TokenTypeV {
    Keyword(Keyword),
    Identifier(Seq<char>),
    Constant(int),
    Punctuator(Punctuator),
}

/// The mathematical model of a token.
pub struct TokenV {
    pub token: TokenTypeV,
    pub pos: PosV,
}

impl DeepView for Pos {
    type V = PosV;

    open spec fn deep_view(&self) -> PosV {
        PosV { line: self.line as nat, block_pos: self.block_pos as nat, char_pos: self.char_pos as nat }
    }
}

impl DeepView for TokenType {
    type V = TokenTypeV;

    open spec fn deep_view(&self) -> TokenTypeV {
        match self {
            TokenType::Keyword(k) => TokenTypeV::Keyword(*k),
            TokenType::Identifier(s) => TokenTypeV::Identifier(s@),
            TokenType::Constant(n) => TokenTypeV::Constant(*n as int),
            TokenType::Punctuator(p) => TokenTypeV::Punctuator(*p),
        }
    }
}

impl DeepView for Token {
    type V = TokenV;

    open spec fn deep_view(&self) -> TokenV {
        TokenV { token: self.token.deep_view(), pos: self.pos.deep_view() }
    }
}

/// Whether `c` is a decimal digit.
pub open spec fn spec_is_dec_digit(c: char) -> bool {
    48 <= c as u32 <= 57
}

/// What `char::is_alphabetic` returns; the result depends on the character
/// alone.
pub uninterp spec fn is_alpha(c: char) -> bool;

/// What `char::is_alphanumeric` returns; the result depends on the character
/// alone.
pub uninterp spec fn is_alnum(c: char) -> bool;

/// What `char::is_whitespace` returns; the result depends on the character
/// alone.
pub uninterp spec fn is_space(c: char) -> bool;

/// Relies on char::is_alphabetic for the Unicode alphabetic property.
#[verifier::external_body]
fn char_is_alphabetic(c: char) -> (r: bool)
    ensures
        r == is_alpha(c),
{
    c.is_alphabetic()
}

/// Relies on char::is_alphanumeric for the Unicode alphanumeric property.
#[verifier::external_body]
fn char_is_alphanumeric(c: char) -> (r: bool)
    ensures
        r == is_alnum(c),
{
    c.is_alphanumeric()
}

/// Relies on char::is_whitespace for the Unicode whitespace property.
#[verifier::external_body]
fn char_is_whitespace(c: char) -> (r: bool)
    ensures
        r == is_space(c),
{
    c.is_whitespace()
}

/// Whether `c` may open an identifier: alphabetic or an underscore.
pub open spec fn spec_is_ident_start(c: char) -> bool {
    is_alpha(c) || c == '_'
}

/// Whether `c` may continue an identifier: alphanumeric or an underscore.
pub open spec fn spec_is_ident_char(c: char) -> bool {
    is_alnum(c) || c == '_'
}

/// Whether `c` may open an identifier: alphabetic or an underscore.
pub fn is_identifier_nondigit(c: char) -> (r: bool)
    ensures
        r == spec_is_ident_start(c),
{
    char_is_alphabetic(c) || c == '_'
}

/// Whether `c` may continue an identifier: alphanumeric or an underscore.
pub fn is_identifier_chars(c: char) -> (r: bool)
    ensures
        r == spec_is_ident_char(c),
{
    char_is_alphanumeric(c) || c == '_'
}

/// The keyword a word denotes, if any.
pub open spec fn spec_make_keyword(w: Seq<char>) -> Option<Keyword> {
    if w == "fn"@ {
        Some(Keyword::FN)
    } else if w == "return"@ {
        Some(Keyword::RETURN)
    } else if w == "val"@ {
        Some(Keyword::VAL)
    } else if w == "if"@ {
        Some(Keyword::IF)
    } else if w == "elsif"@ {
        Some(Keyword::ELSIF)
    } else if w == "else"@ {
        Some(Keyword::ELSE)
    } else {
        None
    }
}

/// The keyword a word denotes, if any.
pub fn make_keyword(keyword: &str) -> (r: Option<Keyword>)
    ensures
        r == spec_make_keyword(keyword@),
{
    if str_eq(keyword, "fn") {
        Some(Keyword::FN)
    } else if str_eq(keyword, "return") {
        Some(Keyword::RETURN)
    } else if str_eq(keyword, "val") {
        Some(Keyword::VAL)
    } else if str_eq(keyword, "if") {
        Some(Keyword::IF)
    } else if str_eq(keyword, "elsif") {
        Some(Keyword::ELSIF)
    } else if str_eq(keyword, "else") {
        Some(Keyword::ELSE)
    } else {
        None
    }
}

/// The punctuator a single character denotes, if any.
pub open spec fn spec_make_punctuator(c: char) -> Option<Punctuator> {
    if c == '(' {
        Some(Punctuator::ParenthesisLeft)
    } else if c == ')' {
        Some(Punctuator::ParenthesisRight)
    } else if c == '[' {
        Some(Punctuator::BracketLeft)
    } else if c == ']' {
        Some(Punctuator::BracketRight)
    } else if c == '{' {
        Some(Punctuator::BraceLeft)
    } else if c == '}' {
        Some(Punctuator::BraceRight)
    } else if c == ',' {
        Some(Punctuator::Comma)
    } else if c == '+' {
        Some(Punctuator::Plus)
    } else if c == '-' {
        Some(Punctuator::Minus)
    } else if c == '*' {
        Some(Punctuator::Star)
    } else if c == '/' {
        Some(Punctuator::Slash)
    } else if c == '%' {
        Some(Punctuator::Percent)
    } else if c == '=' {
        Some(Punctuator::Equal)
    } else if c == ';' {
        Some(Punctuator::SemiColon)
    } else if c == '<' {
        Some(Punctuator::LessThan)
    } else if c == '>' {
        Some(Punctuator::Greater)
    } else {
        None
    }
}

/// The punctuator a single character denotes, if any.
pub fn make_punctuator(punctuator: char) -> (r: Option<Punctuator>)
    ensures
        r == spec_make_punctuator(punctuator),
{
    match punctuator {
        '(' => Some(Punctuator::ParenthesisLeft),
        ')' => Some(Punctuator::ParenthesisRight),
        '[' => Some(Punctuator::BracketLeft),
        ']' => Some(Punctuator::BracketRight),
        '{' => Some(Punctuator::BraceLeft),
        '}' => Some(Punctuator::BraceRight),
        ',' => Some(Punctuator::Comma),
        '+' => Some(Punctuator::Plus),
        '-' => Some(Punctuator::Minus),
        '*' => Some(Punctuator::Star),
        '/' => Some(Punctuator::Slash),
        '%' => Some(Punctuator::Percent),
        '=' => Some(Punctuator::Equal),
        ';' => Some(Punctuator::SemiColon),
        '<' => Some(Punctuator::LessThan),
        '>' => Some(Punctuator::Greater),
        _ => None,
    }
}

/// The end of the identifier-character run beginning at `i`.
pub open spec fn ident_end(s: Seq<char>, i: int) -> int
    decreases s.len() - i,
{
    if 0 <= i < s.len() && spec_is_ident_char(s[i]) {
        ident_end(s, i + 1)
    } else {
        i
    }
}

/// The end of the decimal-digit run beginning at `i`.
pub open spec fn num_end(s: Seq<char>, i: int) -> int
    decreases s.len() - i,
{
    if 0 <= i < s.len() && spec_is_dec_digit(s[i]) {
        num_end(s, i + 1)
    } else {
        i
    }
}

/// The value of a sequence of decimal digits, most significant first.
pub open spec fn num_val(s: Seq<char>) -> int
    decreases s.len(),
{
    if s.len() == 0 {
        0
    } else {
        num_val(s.drop_last()) * 10 + (s.last() as u32 - 48)
    }
}

proof fn lemma_ident_end_bounds(s: Seq<char>, i: int)
    requires
        0 <= i <= s.len(),
    ensures
        i <= ident_end(s, i) <= s.len(),
    decreases s.len() - i,
{
    if i < s.len() && spec_is_ident_char(s[i]) {
        lemma_ident_end_bounds(s, i + 1);
    }
}

proof fn lemma_num_end_bounds(s: Seq<char>, i: int)
    requires
        0 <= i <= s.len(),
    ensures
        i <= num_end(s, i) <= s.len(),
        forall|k: int| i <= k < num_end(s, i) ==> spec_is_dec_digit(s[k]),
    decreases s.len() - i,
{
    if i < s.len() && spec_is_dec_digit(s[i]) {
        lemma_num_end_bounds(s, i + 1);
    }
}

/// Extending a run of digits can only keep or grow its value.
proof fn lemma_num_val_extend(s: Seq<char>, a: int, e1: int, e2: int)
    requires
        0 <= a <= e1 <= e2 <= s.len(),
        forall|k: int| a <= k < e2 ==> spec_is_dec_digit(s[k]),
    ensures
        0 <= num_val(s.subrange(a, e1)) <= num_val(s.subrange(a, e2)),
    decreases e2 - e1,
{
    if e1 == e2 {
        lemma_num_val_nonneg(s.subrange(a, e1));
    } else {
        lemma_num_val_extend(s, a, e1, e2 - 1);
        assert(s.subrange(a, e2).drop_last() =~= s.subrange(a, e2 - 1));
        assert(s.subrange(a, e2).last() == s[e2 - 1]);
    }
}

proof fn lemma_num_val_nonneg(s: Seq<char>)
    requires
        forall|k: int| 0 <= k < s.len() ==> spec_is_dec_digit(s[k]),
    ensures
        num_val(s) >= 0,
    decreases s.len(),
{
    if s.len() > 0 {
        assert(forall|k: int| 0 <= k < s.drop_last().len() ==> spec_is_dec_digit(
            #[trigger] s.drop_last()[k],
        ));
        lemma_num_val_nonneg(s.drop_last());
    }
}

/// The token read at offset `j` of a block, with the offset just past it,
/// under the longest-match rule: identifier or keyword, then decimal
/// constant, then character literal, then punctuator.
pub open spec fn spec_tokenize_impl(s: Seq<char>, j: int, line: nat, blk: nat) -> Option<
    (TokenV, int),
> {
    if !(0 <= j < s.len()) {
        None
    } else {
        let c = s[j];
        let pos = PosV { line, block_pos: blk, char_pos: j as nat };
        if spec_is_ident_start(c) {
            let e = ident_end(s, j + 1);
            let word = s.subrange(j, e);
            match spec_make_keyword(word) {
                Some(k) => Some((TokenV { token: TokenTypeV::Keyword(k), pos }, e)),
                None => Some((TokenV { token: TokenTypeV::Identifier(word), pos }, e)),
            }
        } else if spec_is_dec_digit(c) {
            let e = num_end(s, j + 1);
            let v = num_val(s.subrange(j, e));
            if v <= i32::MAX {
                Some((TokenV { token: TokenTypeV::Constant(v), pos }, e))
            } else {
                None
            }
        } else if c == '\'' {
            if j + 1 < s.len() && s[j + 1] == '\\' {
                if j + 3 < s.len() && s[j + 2] == '\\' && s[j + 3] == '\'' {
                    Some((TokenV { token: TokenTypeV::Constant(92), pos }, j + 4))
                } else if j + 3 < s.len() && s[j + 2] == '\'' && s[j + 3] == '\'' {
                    Some((TokenV { token: TokenTypeV::Constant(39), pos }, j + 4))
                } else {
                    None
                }
            } else if j + 2 < s.len() && s[j + 2] == '\'' {
                Some((TokenV { token: TokenTypeV::Constant(s[j + 1] as u32 as int), pos }, j + 3))
            } else {
                None
            }
        } else if c == '=' {
            if j + 1 < s.len() && s[j + 1] == '=' {
                Some((TokenV { token: TokenTypeV::Punctuator(Punctuator::DoubleEqual), pos }, j + 2))
            } else {
                Some((TokenV { token: TokenTypeV::Punctuator(Punctuator::Equal), pos }, j + 1))
            }
        } else {
            match spec_make_punctuator(c) {
                Some(p) => Some((TokenV { token: TokenTypeV::Punctuator(p), pos }, j + 1)),
                None => None,
            }
        }
    }
}

/// Reads the token at offset `j` of the block; returns it with the offset
/// just past it.
pub fn tokenize_impl(block: &str, line: usize, block_pos: usize, j: usize) -> (r: Option<
    (Token, usize),
>)
    requires
        j <= block@.len(),
    ensures
        match r {
            Some((t, j2)) => {
                &&& spec_tokenize_impl(block@, j as int, line as nat, block_pos as nat) == Some(
                    (t.deep_view(), j2 as int),
                )
                &&& j < j2 <= block@.len()
            },
            None => spec_tokenize_impl(block@, j as int, line as nat, block_pos as nat) is None,
        },
{
    let ghost s = block@;
    let n = block.unicode_len();
    if j >= n {
        return None;
    }
    let c = block.get_char(j);
    let pos = Pos { line, block_pos, char_pos: j };
    if is_identifier_nondigit(c) {
        let mut e = j + 1;
        proof {
            lemma_ident_end_bounds(s, j + 1);
        }
        loop
            invariant
                j + 1 <= e <= n,
                n == s.len(),
                s == block@,
                ident_end(s, j + 1) == ident_end(s, e as int),
                ident_end(s, j + 1) <= n,
            ensures
                j + 1 <= e <= n,
                ident_end(s, j + 1) == e,
            decreases n - e,
        {
            if e >= n {
                break ;
            }
            if !is_identifier_chars(block.get_char(e)) {
                break ;
            }
            e += 1;
        }
        let word = block.substring_char(j, e);
        match make_keyword(word) {
            Some(keyword) => Some((Token { token: TokenType::Keyword(keyword), pos }, e)),
            None => {
                let owned = word.to_owned();
                proof {
                    assert(owned@ == s.subrange(j as int, e as int));
                }
                Some((Token { token: TokenType::Identifier(owned), pos }, e))
            },
        }
    } else if 48 <= c as u32 && c as u32 <= 57 {
        let mut e = j + 1;
        let mut acc: u64 = (c as u32 - 48) as u64;
        proof {
            lemma_num_end_bounds(s, j + 1);
            assert(s.subrange(j as int, j + 1).drop_last() =~= Seq::<char>::empty());
            assert(s.subrange(j as int, j + 1).last() == s[j as int]);
            assert(num_val(Seq::<char>::empty()) == 0);
        }
        loop
            invariant
                j + 1 <= e <= n,
                n == s.len(),
                s == block@,
                j < n,
                spec_is_dec_digit(s[j as int]),
                !spec_is_ident_start(s[j as int]),
                num_end(s, j + 1) == num_end(s, e as int),
                num_end(s, j + 1) <= n,
                acc == num_val(s.subrange(j as int, e as int)),
                acc <= i32::MAX,
            ensures
                j + 1 <= e <= n,
                num_end(s, j + 1) == e,
                acc == num_val(s.subrange(j as int, e as int)),
                acc <= i32::MAX,
            decreases n - e,
        {
            if e >= n {
                break ;
            }
            let d = block.get_char(e);
            if !(48 <= d as u32 && d as u32 <= 57) {
                break ;
            }
            let next: u64 = acc * 10 + (d as u32 - 48) as u64;
            proof {
                assert(s.subrange(j as int, e + 1).drop_last() =~= s.subrange(j as int, e as int));
                assert(s.subrange(j as int, e + 1).last() == s[e as int]);
            }
            if next > i32::MAX as u64 {
                proof {
                    lemma_num_end_bounds(s, e + 1);
                    assert(num_end(s, e as int) == num_end(s, e + 1));
                    let full = num_end(s, j + 1);
                    lemma_num_end_bounds(s, j + 1);
                    assert(forall|k: int| j <= k < full ==> spec_is_dec_digit(s[k]));
                    assert(e + 1 <= full);
                    lemma_num_val_extend(s, j as int, e + 1, full);
                    assert(num_val(s.subrange(j as int, e + 1)) == next);
                    assert(num_val(s.subrange(j as int, full)) > i32::MAX);
                }
                return None;
            }
            acc = next;
            e += 1;
        }
        Some((Token { token: TokenType::Constant(acc as i32), pos }, e))
    } else if c == '\'' {
        if j + 1 < n && block.get_char(j + 1) == '\\' {
            if n - j > 3 && block.get_char(j + 2) == '\\' && block.get_char(j + 3) == '\'' {
                Some((Token { token: TokenType::Constant(92), pos }, j + 4))
            } else if n - j > 3 && block.get_char(j + 2) == '\'' && block.get_char(j + 3) == '\'' {
                Some((Token { token: TokenType::Constant(39), pos }, j + 4))
            } else {
                None
            }
        } else if n - j > 2 && block.get_char(j + 2) == '\'' {
            let d = block.get_char(j + 1);
            proof {
                vstd::utf8::char_is_scalar(d);
            }
            Some((Token { token: TokenType::Constant(d as u32 as i32), pos }, j + 3))
        } else {
            None
        }
    } else if c == '=' {
        if j + 1 < n && block.get_char(j + 1) == '=' {
            Some((Token { token: TokenType::Punctuator(Punctuator::DoubleEqual), pos }, j + 2))
        } else {
            Some((Token { token: TokenType::Punctuator(Punctuator::Equal), pos }, j + 1))
        }
    } else {
        match make_punctuator(c) {
            Some(punc) => Some((Token { token: TokenType::Punctuator(punc), pos }, j + 1)),
            None => None,
        }
    }
}

/// The tokens of the block `s` from offset `j` on, or `None` where a token
/// cannot be read.
pub open spec fn spec_tok_block(s: Seq<char>, j: int, line: nat, blk: nat) -> Option<Seq<TokenV>>
    decreases s.len() - j,
{
    if j < 0 {
        None
    } else if j >= s.len() {
        Some(seq![])
    } else {
        match spec_tokenize_impl(s, j, line, blk) {
            None => None,
            Some((t, j2)) => if j2 <= j || j2 > s.len() {
                None
            } else {
                match spec_tok_block(s, j2, line, blk) {
                    None => None,
                    Some(rest) => Some(seq![t] + rest),
                }
            },
        }
    }
}

/// The end of the line beginning at `i`: the next newline or the end of the
/// text.
pub open spec fn line_end(s: Seq<char>, i: int) -> int
    decreases s.len() - i,
{
    if 0 <= i < s.len() && s[i] != '\n' {
        line_end(s, i + 1)
    } else {
        i
    }
}

/// The end of the whitespace-free block beginning at `i`, bounded by `e`.
pub open spec fn block_end(s: Seq<char>, i: int, e: int) -> int
    decreases e - i,
{
    if 0 <= i && i < e && i < s.len() && !is_space(s[i]) {
        block_end(s, i + 1, e)
    } else {
        i
    }
}

/// The tokens of the whitespace-separated blocks of line `line`, which spans
/// `[i, e)` of the text, with `blk` blocks already passed.
pub open spec fn spec_tok_line(s: Seq<char>, i: int, e: int, line: nat, blk: nat) -> Option<
    Seq<TokenV>,
>
    decreases e - i,
{
    if i < 0 {
        None
    } else if i >= e {
        Some(seq![])
    } else if is_space(s[i]) {
        spec_tok_line(s, i + 1, e, line, blk)
    } else {
        let b = block_end(s, i, e);
        if b <= i || b > e {
            None
        } else {
            match spec_tok_block(s.subrange(i, b), 0, line, blk) {
                None => None,
                Some(ts) => match spec_tok_line(s, b, e, line, blk + 1) {
                    None => None,
                    Some(rest) => Some(ts + rest),
                },
            }
        }
    }
}

/// The tokens of the lines from position `i` on, the first line numbered
/// `line`.
pub open spec fn spec_tok_lines(s: Seq<char>, i: int, line: nat) -> Option<Seq<TokenV>>
    decreases s.len() - i,
{
    if i < 0 {
        None
    } else if i >= s.len() {
        Some(seq![])
    } else {
        let e = line_end(s, i);
        if e < i || e > s.len() {
            None
        } else {
            match spec_tok_line(s, i, e, line, 0) {
                None => None,
                Some(ts) => if e >= s.len() {
                    Some(ts)
                } else {
                    match spec_tok_lines(s, e + 1, line + 1) {
                        None => None,
                        Some(rest) => Some(ts + rest),
                    }
                },
            }
        }
    }
}

/// The token sequence of a whole source text, or `None` where the text does
/// not lex.
pub open spec fn spec_tokenize(s: Seq<char>) -> Option<Seq<TokenV>> {
    spec_tok_lines(s, 0, 0)
}

/// Reads every token of the block from offset `j` on, appending them to
/// `tokens`; false where a token cannot be read.
pub fn tokenize_loop(block: &str, line: usize, block_pos: usize, j: usize, tokens: &mut Vec<
    Token,
>) -> (r: bool)
    requires
        j <= block@.len(),
    ensures
        match spec_tok_block(block@, j as int, line as nat, block_pos as nat) {
            Some(ts) => r && final(tokens).deep_view() == old(tokens).deep_view() + ts,
            None => !r,
        },
    decreases block@.len() - j,
{
    let n = block.unicode_len();
    if j >= n {
        proof {
            assert(old(tokens).deep_view() + Seq::<TokenV>::empty() =~= old(
                tokens,
            ).deep_view());
        }
        return true;
    }
    match tokenize_impl(block, line, block_pos, j) {
        Some((token, seek)) => {
            let ghost t0 = tokens.deep_view();
            let ghost tv = token.deep_view();
            tokens.push(token);
            proof {
                assert(tokens.deep_view() =~= t0 + seq![tv]);
            }
            let r = tokenize_loop(block, line, block_pos, seek, tokens);
            proof {
                if let Some(rest) = spec_tok_block(
                    block@,
                    seek as int,
                    line as nat,
                    block_pos as nat,
                ) {
                    assert((t0 + seq![tv]) + rest =~= t0 + (seq![tv] + rest));
                }
            }
            r
        },
        None => false,
    }
}

/// Splits the source into lines and whitespace-separated blocks and lexes
/// each block; `None` where some block does not lex.
pub fn tokenize(code: &str) -> (r: Option<Vec<Token>>)
    ensures
        r.deep_view() == spec_tokenize(code@),
{
    let ghost s = code@;
    let n = code.unicode_len();
    let mut res: Vec<Token> = Vec::new();
    let mut i: usize = 0;
    let mut line: usize = 0;
    proof {
        assert(res.deep_view() =~= Seq::<TokenV>::empty());
        if let Some(ts) = spec_tok_lines(s, 0, 0) {
            assert(Seq::<TokenV>::empty() + ts =~= ts);
        }
    }
    loop
        invariant_except_break
            spec_tokenize(s) == opt_cat(res.deep_view(), spec_tok_lines(s, i as int, line as nat)),
        invariant
            i <= n,
            line <= i,
            n == s.len(),
            s == code@,
        ensures
            spec_tokenize(s) == Some(res.deep_view()),
        decreases n - i,
    {
        if i >= n {
            proof {
                assert(res.deep_view() + Seq::<TokenV>::empty() =~= res.deep_view());
            }
            break ;
        }
        // find the end of the current line
        let mut e = i;
        loop
            invariant
                i <= e <= n,
                n == s.len(),
                s == code@,
                line_end(s, i as int) == line_end(s, e as int),
            ensures
                i <= e <= n,
                line_end(s, i as int) == e,
            decreases n - e,
        {
            if e >= n {
                break ;
            }
            if code.get_char(e) == '\n' {
                break ;
            }
            e += 1;
        }
        // lex the blocks of the line [i, e)
        let ghost rest_lines = if e >= n {
            Some(Seq::<TokenV>::empty())
        } else {
            spec_tok_lines(s, e + 1, line as nat + 1)
        };
        let mut k = i;
        let mut blk: usize = 0;
        loop
            invariant
                i <= k <= e <= n,
                blk <= k,
                line <= i,
                n == s.len(),
                s == code@,
                line_end(s, i as int) == e,
                rest_lines == (if e >= n {
                    Some(Seq::<TokenV>::empty())
                } else {
                    spec_tok_lines(s, e + 1, line as nat + 1)
                }),
                spec_tokenize(s) == opt_cat(
                    res.deep_view(),
                    opt2(spec_tok_line(s, k as int, e as int, line as nat, blk as nat), rest_lines),
                ),
            ensures
                k == e,
                spec_tokenize(s) == opt_cat(
                    res.deep_view(),
                    opt2(Some(Seq::<TokenV>::empty()), rest_lines),
                ),
            decreases e - k,
        {
            if k >= e {
                proof {
                    assert(spec_tok_line(s, k as int, e as int, line as nat, blk as nat)
                        == Some(Seq::<TokenV>::empty()));
                }
                break ;
            }
            let c = code.get_char(k);
            if char_is_whitespace(c) {
                k += 1;
                continue ;
            }
            // find the end of the block
            let mut b = k + 1;
            proof {
                assert(block_end(s, k as int, e as int) == block_end(s, k + 1, e as int));
            }
            loop
                invariant
                    k < b <= e <= n,
                    n == s.len(),
                    s == code@,
                    block_end(s, k as int, e as int) == block_end(s, b as int, e as int),
                ensures
                    k < b <= e,
                    block_end(s, k as int, e as int) == b,
                decreases e - b,
            {
                if b >= e {
                    break ;
                }
                if char_is_whitespace(code.get_char(b)) {
                    break ;
                }
                b += 1;
            }
            let block = code.substring_char(k, b);
            let ghost res0 = res.deep_view();
            let ghost bts = spec_tok_block(block@, 0, line as nat, blk as nat);
            if !tokenize_loop(block, line, blk, 0, &mut res) {
                return None;
            }
            proof {
                let ts = bts->Some_0;
                let after = spec_tok_line(s, b as int, e as int, line as nat, blk as nat + 1);
                if let Some(rest) = after {
                    if let Some(rl) = rest_lines {
                        assert((res0 + ts) + (rest + rl) =~= res0 + ((ts + rest) + rl));
                    }
                }
            }
            k = b;
            blk += 1;
        }
        proof {
            if let Some(rl) = rest_lines {
                assert(Seq::<TokenV>::empty() + rl =~= rl);
            }
        }
        if e >= n {
            proof {
                assert(res.deep_view() + Seq::<TokenV>::empty() =~= res.deep_view());
                assert(res.deep_view() + (Seq::<TokenV>::empty() + Seq::<TokenV>::empty())
                    =~= res.deep_view());
            }
            break ;
        }
        i = e + 1;
        line += 1;
    }
    Some(res)
}

/// `None` propagates concatenation: the tokens already read, followed by the
/// rest, where the rest lexes.
pub open spec fn opt_cat(pre: Seq<TokenV>, rest: Option<Seq<TokenV>>) -> Option<Seq<TokenV>> {
    match rest {
        None => None,
        Some(ts) => Some(pre + ts),
    }
}

/// Concatenation of two optional token sequences; `None` where either side
/// is `None`.
pub open spec fn opt2(a: Option<Seq<TokenV>>, b: Option<Seq<TokenV>>) -> Option<Seq<TokenV>> {
    match (a, b) {
        (Some(x), Some(y)) => Some(x + y),
        _ => None,
    }
}

} // verus!

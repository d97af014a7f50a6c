//! Turning source text into tokens.
use crate::front_laws::{id_indices, ids_in, lemma_lex_numbers_ids};
use crate::text::string_push;
use vstd::prelude::*;

verus! {

/// The tokens of the source language. An identifier is the index of its
/// name in the lexer's identifier table.
#[derive(Debug, Clone, Copy, PartialEq, Eq, Structural)]
pub enum Token {
    IntLit(i32),
    FalseLit,
    TrueLit,
    // punctuation
    Plus,
    Minus,
    Star,
    Slash,
    Colon,
    Semicolon,
    EQEQ,
    EQ,
    LT,
    LTE,
    GT,
    GTE,
    LParen,
    RParen,
    LCBrace,
    RCBrace,
    LogicOr,
    LogicAnd,
    BitOr,
    BitAnd,
    // types
    IntType,
    CharType,
    BoolType,
    Id(usize),
    // keywords
    Let,
    If,
    Else,
    Def,
    Unknown(char),
}

/// Whether `c` has the Unicode `White_Space` property: the characters
/// U+0009 to U+000D, U+0020, U+0085, U+00A0, U+1680, U+2000 to U+200A,
/// U+2028, U+2029, U+202F, U+205F and U+3000, the blanks of
/// `char::is_whitespace`.
pub open spec fn unicode_whitespace(c: char) -> bool {
    ||| ('\u{9}' <= c && c <= '\u{d}')
    ||| c == ' '
    ||| c == '\u{85}'
    ||| c == '\u{a0}'
    ||| c == '\u{1680}'
    ||| ('\u{2000}' <= c && c <= '\u{200a}')
    ||| c == '\u{2028}'
    ||| c == '\u{2029}'
    ||| c == '\u{202f}'
    ||| c == '\u{205f}'
    ||| c == '\u{3000}'
}

/// Whether `c` has the Unicode `Alphabetic` property, as
/// `char::is_alphabetic` reports it.
pub uninterp spec fn unicode_alphabetic(c: char) -> bool;

/// Whether `c` is blank, by the code points of `unicode_whitespace`.
fn char_is_whitespace(c: char) -> (r: bool)
    ensures
        r == unicode_whitespace(c),
{
    ('\u{9}' <= c && c <= '\u{d}') || c == ' ' || c == '\u{85}' || c == '\u{a0}'
        || c == '\u{1680}' || ('\u{2000}' <= c && c <= '\u{200a}') || c == '\u{2028}'
        || c == '\u{2029}' || c == '\u{202f}' || c == '\u{205f}' || c == '\u{3000}'
}

/// `char::is_alphabetic`: the result is named `unicode_alphabetic`; which
/// characters have the property is left to the Unicode tables of std.
#[verifier::external_body]
fn char_is_alphabetic(c: char) -> (r: bool)
    ensures
        r == unicode_alphabetic(c),
{
    c.is_alphabetic()
}

/// An ASCII decimal digit.
pub open spec fn is_digit(c: char) -> bool {
    '0' <= c && c <= '9'
}

/// A character that may continue a name: an ASCII letter or digit, or `_`.
pub open spec fn is_name_char(c: char) -> bool {
    is_digit(c) || ('a' <= c && c <= 'z') || ('A' <= c && c <= 'Z') || c == '_'
}

/// The end of the run of digits that starts at `p`.
pub open spec fn digits_end(cs: Seq<char>, p: int) -> int
    decreases cs.len() - p,
{
    if 0 <= p < cs.len() && is_digit(cs[p]) {
        digits_end(cs, p + 1)
    } else {
        p
    }
}

/// The end of the run of name characters that starts at `p`.
pub open spec fn name_end(cs: Seq<char>, p: int) -> int
    decreases cs.len() - p,
{
    if 0 <= p < cs.len() && is_name_char(cs[p]) {
        name_end(cs, p + 1)
    } else {
        p
    }
}

/// The value of a string of decimal digits.
pub open spec fn digits_value(s: Seq<char>) -> int
    decreases s.len(),
{
    if s.len() == 0 {
        0
    } else {
        10 * digits_value(s.drop_last()) + (s.last() as int - '0' as int)
    }
}

/// The token of a keyword, or `None` for any other word.
pub open spec fn keyword(w: Seq<char>) -> Option<Token> {
    if w == seq!['l', 'e', 't'] {
        Some(Token::Let)
    } else if w == seq!['d', 'e', 'f'] {
        Some(Token::Def)
    } else if w == seq!['i', 'f'] {
        Some(Token::If)
    } else if w == seq!['e', 'l', 's', 'e'] {
        Some(Token::Else)
    } else if w == seq!['i', 'n', 't'] {
        Some(Token::IntType)
    } else if w == seq!['c', 'h', 'a', 'r'] {
        Some(Token::CharType)
    } else if w == seq!['b', 'o', 'o', 'l'] {
        Some(Token::BoolType)
    } else if w == seq!['f', 'a', 'l', 's', 'e'] {
        Some(Token::FalseLit)
    } else if w == seq!['t', 'r', 'u', 'e'] {
        Some(Token::TrueLit)
    } else {
        None
    }
}

/// Whether the character after `p` is `c`.
pub open spec fn next_is(cs: Seq<char>, p: int, c: char) -> bool {
    p + 1 < cs.len() && cs[p + 1] == c
}

/// The token of the punctuation that starts at `p`, with its length.
pub open spec fn symbol(cs: Seq<char>, p: int) -> (Token, int) {
    let c = cs[p];
    if c == '+' {
        (Token::Plus, 1)
    } else if c == '-' {
        (Token::Minus, 1)
    } else if c == '*' {
        (Token::Star, 1)
    } else if c == '/' {
        (Token::Slash, 1)
    } else if c == '(' {
        (Token::LParen, 1)
    } else if c == ')' {
        (Token::RParen, 1)
    } else if c == '{' {
        (Token::LCBrace, 1)
    } else if c == '}' {
        (Token::RCBrace, 1)
    } else if c == ';' {
        (Token::Semicolon, 1)
    } else if c == ':' {
        (Token::Colon, 1)
    } else if c == '=' {
        if next_is(cs, p, '=') { (Token::EQEQ, 2) } else { (Token::EQ, 1) }
    } else if c == '<' {
        if next_is(cs, p, '=') { (Token::LTE, 2) } else { (Token::LT, 1) }
    } else if c == '>' {
        if next_is(cs, p, '=') { (Token::GTE, 2) } else { (Token::GT, 1) }
    } else if c == '&' {
        if next_is(cs, p, '&') { (Token::LogicAnd, 2) } else { (Token::BitAnd, 1) }
    } else if c == '|' {
        if next_is(cs, p, '|') { (Token::LogicOr, 2) } else { (Token::BitOr, 1) }
    } else {
        (Token::Unknown(c), 1)
    }
}

pub proof fn lemma_digits_end(cs: Seq<char>, p: int)
    requires
        0 <= p <= cs.len(),
    ensures
        p <= digits_end(cs, p) <= cs.len(),
        forall|k: int| p <= k < digits_end(cs, p) ==> is_digit(#[trigger] cs[k]),
        digits_end(cs, p) < cs.len() ==> !is_digit(cs[digits_end(cs, p)]),
    decreases cs.len() - p,
{
    if p < cs.len() && is_digit(cs[p]) {
        lemma_digits_end(cs, p + 1);
    }
}

pub proof fn lemma_name_end(cs: Seq<char>, p: int)
    requires
        0 <= p <= cs.len(),
    ensures
        p <= name_end(cs, p) <= cs.len(),
        forall|k: int| p <= k < name_end(cs, p) ==> is_name_char(#[trigger] cs[k]),
        name_end(cs, p) < cs.len() ==> !is_name_char(cs[name_end(cs, p)]),
    decreases cs.len() - p,
{
    if p < cs.len() && is_name_char(cs[p]) {
        lemma_name_end(cs, p + 1);
    }
}

/// Puts a token in front of the result of lexing the rest.
pub open spec fn prepend(
    t: Token,
    rest: Option<(Seq<Token>, Seq<Seq<char>>)>,
) -> Option<(Seq<Token>, Seq<Seq<char>>)> {
    match rest {
        Some((ts, ns)) => Some((seq![t] + ts, ns)),
        None => None,
    }
}

/// What lexing does at a position, by positions in a sequence.
pub enum StepModel {
    /// Skip the blank character there.
    Blank,
    /// Give a token and go on from the position after it.
    Emit(Token, int),
    /// Read a name that ends at the given position.
    Name(int),
    /// Refuse an integer literal that does not fit in an `i32`.
    TooLarge,
}

/// What lexing does at `p`, given whether the character there is blank
/// (`blank`) and whether it is alphabetic (`alpha`). Blanks are skipped;
/// digits start an integer literal, which runs as far as the digits go;
/// alphabetic characters start a word, which runs on over ASCII letters,
/// digits and `_` and is a keyword or else a name; anything else is
/// punctuation, where `==`, `<=`, `>=`, `&&` and `||` take two characters.
pub open spec fn step_at(cs: Seq<char>, p: int, blank: bool, alpha: bool) -> StepModel {
    let c = cs[p];
    if blank {
        StepModel::Blank
    } else if is_digit(c) {
        let e = digits_end(cs, p + 1);
        let v = digits_value(cs.subrange(p, e));
        if v > i32::MAX {
            StepModel::TooLarge
        } else {
            StepModel::Emit(Token::IntLit(v as i32), e)
        }
    } else if alpha {
        let e = name_end(cs, p + 1);
        match keyword(cs.subrange(p, e)) {
            Some(t) => StepModel::Emit(t, e),
            None => StepModel::Name(e),
        }
    } else {
        let (t, n) = symbol(cs, p);
        StepModel::Emit(t, p + n)
    }
}

/// A step moves forward within the characters.
pub proof fn lemma_step_advances(cs: Seq<char>, p: int, blank: bool, alpha: bool)
    requires
        0 <= p < cs.len(),
    ensures
        step_at(cs, p, blank, alpha) matches StepModel::Emit(_, e) ==> p < e <= cs.len(),
        step_at(cs, p, blank, alpha) matches StepModel::Name(e) ==> p < e <= cs.len(),
{
    lemma_digits_end(cs, p + 1);
    lemma_name_end(cs, p + 1);
}

/// The tokens of `cs` from position `p` on, with the names of the
/// identifiers met, in order; the first of them gets the index `next_id`.
/// `None` when an integer literal does not fit in an `i32`.
pub open spec fn lex_from(cs: Seq<char>, p: int, next_id: nat) -> Option<
    (Seq<Token>, Seq<Seq<char>>),
>
    decreases cs.len() - p,
{
    if p < 0 || p >= cs.len() {
        Some((Seq::empty(), Seq::empty()))
    } else {
        let c = cs[p];
        let blank = unicode_whitespace(c);
        let alpha = unicode_alphabetic(c);
        proof {
            lemma_step_advances(cs, p, blank, alpha);
        }
        match step_at(cs, p, blank, alpha) {
            StepModel::Blank => lex_from(cs, p + 1, next_id),
            StepModel::Emit(t, e) => prepend(t, lex_from(cs, e, next_id)),
            StepModel::Name(e) => match lex_from(cs, e, next_id + 1) {
                Some((ts, ns)) => Some(
                    (seq![Token::Id(next_id as usize)] + ts, seq![cs.subrange(p, e)] + ns),
                ),
                None => None,
            },
            StepModel::TooLarge => None,
        }
    }
}

/// The names held by a table of strings.
pub open spec fn names_view(v: Seq<String>) -> Seq<Seq<char>> {
    v.map_values(|s: String| s@)
}

/// Adds what was lexed before `p` to the result of lexing from `p` on.
pub open spec fn extend(
    ts0: Seq<Token>,
    ns0: Seq<Seq<char>>,
    rest: Option<(Seq<Token>, Seq<Seq<char>>)>,
) -> Option<(Seq<Token>, Seq<Seq<char>>)> {
    match rest {
        Some((ts, ns)) => Some((ts0 + ts, ns0 + ns)),
        None => None,
    }
}

/// A lexer over a source text; identifiers are added to `idtable`.
pub struct Lexer {
    chars: Vec<char>,
    pos: usize,
    pub idtable: Vec<String>,
}

impl Lexer {
    /// The characters of the source.
    pub closed spec fn input(&self) -> Seq<char> {
        self.chars@
    }

    /// The identifier table.
    pub closed spec fn table(&self) -> Seq<String> {
        self.idtable@
    }

    /// The position of the next character to read.
    pub closed spec fn position(&self) -> int {
        self.pos as int
    }

    /// A lexer at the start of `src`, with an empty identifier table.
    pub fn new(src: &str) -> (l: Lexer)
        ensures
            l.input() == src@,
            l.position() == 0,
            l.table() == Seq::<String>::empty(),
    {
        let mut chars: Vec<char> = Vec::new();
        for c in it: src.chars()
            invariant
                chars@ == it.seq().take(it.index() as int),
        {
            chars.push(c);
        }
        Lexer { chars, pos: 0, idtable: Vec::new() }
    }
}


fn is_digit_char(c: char) -> (r: bool)
    ensures
        r == is_digit(c),
{
    '0' <= c && c <= '9'
}

fn is_name_char_exec(c: char) -> (r: bool)
    ensures
        r == is_name_char(c),
{
    ('0' <= c && c <= '9') || ('a' <= c && c <= 'z') || ('A' <= c && c <= 'Z') || c == '_'
}

fn digit_value(c: char) -> (d: i64)
    requires
        is_digit(c),
    ensures
        d == c as int - '0' as int,
        0 <= d <= 9,
{
    let u: u32 = c as u32;
    (u - 48) as i64
}

/// Whether the characters in `start..end` spell `w`.
fn word_eq(cs: &Vec<char>, start: usize, end: usize, w: &[char]) -> (r: bool)
    requires
        start <= end <= cs.len(),
    ensures
        r == (cs@.subrange(start as int, end as int) == w@),
{
    if end - start != w.len() {
        return false;
    }
    let mut i: usize = 0;
    while i < w.len()
        invariant
            start <= end <= cs.len(),
            end - start == w@.len(),
            i <= w@.len(),
            forall|k: int| 0 <= k < i ==> cs@[start + k] == w@[k],
        decreases w.len() - i,
    {
        if cs[start + i] != w[i] {
            assert(cs@.subrange(start as int, end as int)[i as int] != w@[i as int]);
            return false;
        }
        i += 1;
    }
    assert(cs@.subrange(start as int, end as int) =~= w@);
    true
}

fn keyword_of(cs: &Vec<char>, start: usize, end: usize) -> (r: Option<Token>)
    requires
        start <= end <= cs.len(),
    ensures
        r == keyword(cs@.subrange(start as int, end as int)),
{
    if word_eq(cs, start, end, &['l', 'e', 't']) {
        Some(Token::Let)
    } else if word_eq(cs, start, end, &['d', 'e', 'f']) {
        Some(Token::Def)
    } else if word_eq(cs, start, end, &['i', 'f']) {
        Some(Token::If)
    } else if word_eq(cs, start, end, &['e', 'l', 's', 'e']) {
        Some(Token::Else)
    } else if word_eq(cs, start, end, &['i', 'n', 't']) {
        Some(Token::IntType)
    } else if word_eq(cs, start, end, &['c', 'h', 'a', 'r']) {
        Some(Token::CharType)
    } else if word_eq(cs, start, end, &['b', 'o', 'o', 'l']) {
        Some(Token::BoolType)
    } else if word_eq(cs, start, end, &['f', 'a', 'l', 's', 'e']) {
        Some(Token::FalseLit)
    } else if word_eq(cs, start, end, &['t', 'r', 'u', 'e']) {
        Some(Token::TrueLit)
    } else {
        None
    }
}

/// Scans the run of digits that starts at `start`: where it ends, and its
/// value when that fits in an `i32`.
fn scan_number(cs: &Vec<char>, start: usize) -> (r: (usize, Option<i32>))
    requires
        start < cs.len(),
        is_digit(cs@[start as int]),
    ensures
        r.0 == digits_end(cs@, start + 1),
        start < r.0 <= cs.len(),
        digits_value(cs@.subrange(start as int, r.0 as int)) <= i32::MAX ==> r.1 == Some(
            digits_value(cs@.subrange(start as int, r.0 as int)) as i32,
        ),
        digits_value(cs@.subrange(start as int, r.0 as int)) > i32::MAX ==> r.1 is None,
{
    let len = cs.len();
    let mut q: usize = start + 1;
    let mut val: i64 = digit_value(cs[start]);
    let mut over = false;
    assert(cs@.subrange(start as int, start + 1).drop_last() =~= Seq::<char>::empty());
    assert(digits_value(Seq::<char>::empty()) == 0);
    assert(digits_value(cs@.subrange(start as int, start + 1)) == val);
    while q < len && is_digit_char(cs[q])
        invariant
            start < q <= len,
            len == cs.len(),
            digits_end(cs@, q as int) == digits_end(cs@, start + 1),
            over <==> digits_value(cs@.subrange(start as int, q as int)) > i32::MAX,
            !over ==> val == digits_value(cs@.subrange(start as int, q as int)),
            !over ==> 0 <= val <= i32::MAX,
        decreases len - q,
    {
        let d = digit_value(cs[q]);
        assert(cs@.subrange(start as int, q + 1).drop_last() =~= cs@.subrange(start as int, q as int));
        if !over {
            let nv = val * 10 + d;
            if nv > 2147483647 {
                over = true;
            } else {
                val = nv;
            }
        }
        q += 1;
    }
    if over {
        (q, None)
    } else {
        (q, Some(val as i32))
    }
}

/// Where the run of name characters after `start` ends.
fn scan_name(cs: &Vec<char>, start: usize) -> (e: usize)
    requires
        start < cs.len(),
    ensures
        e == name_end(cs@, start + 1),
        start < e <= cs.len(),
{
    let len = cs.len();
    let mut q: usize = start + 1;
    while q < len && is_name_char_exec(cs[q])
        invariant
            start < q <= len,
            len == cs.len(),
            name_end(cs@, q as int) == name_end(cs@, start + 1),
        decreases len - q,
    {
        q += 1;
    }
    q
}

/// The string made of the characters in `start..end`.
fn chars_to_string(cs: &Vec<char>, start: usize, end: usize) -> (s: String)
    requires
        start <= end <= cs.len(),
    ensures
        s@ == cs@.subrange(start as int, end as int),
{
    let mut s = String::new();
    let mut k = start;
    while k < end
        invariant
            start <= k <= end <= cs.len(),
            s@ == cs@.subrange(start as int, k as int),
        decreases end - k,
    {
        string_push(&mut s, cs[k]);
        k += 1;
        assert(s@ =~= cs@.subrange(start as int, k as int));
    }
    s
}

fn symbol_at(cs: &Vec<char>, p: usize) -> (r: (Token, usize))
    requires
        p < cs.len(),
    ensures
        (r.0, r.1 as int) == symbol(cs@, p as int),
{
    let c = cs[p];
    let next_eq = p + 1 < cs.len() && cs[p + 1] == '=';
    if c == '+' {
        (Token::Plus, 1)
    } else if c == '-' {
        (Token::Minus, 1)
    } else if c == '*' {
        (Token::Star, 1)
    } else if c == '/' {
        (Token::Slash, 1)
    } else if c == '(' {
        (Token::LParen, 1)
    } else if c == ')' {
        (Token::RParen, 1)
    } else if c == '{' {
        (Token::LCBrace, 1)
    } else if c == '}' {
        (Token::RCBrace, 1)
    } else if c == ';' {
        (Token::Semicolon, 1)
    } else if c == ':' {
        (Token::Colon, 1)
    } else if c == '=' {
        if next_eq { (Token::EQEQ, 2) } else { (Token::EQ, 1) }
    } else if c == '<' {
        if next_eq { (Token::LTE, 2) } else { (Token::LT, 1) }
    } else if c == '>' {
        if next_eq { (Token::GTE, 2) } else { (Token::GT, 1) }
    } else if c == '&' {
        if p + 1 < cs.len() && cs[p + 1] == '&' { (Token::LogicAnd, 2) } else { (Token::BitAnd, 1) }
    } else if c == '|' {
        if p + 1 < cs.len() && cs[p + 1] == '|' { (Token::LogicOr, 2) } else { (Token::BitOr, 1) }
    } else {
        (Token::Unknown(c), 1)
    }
}

/// What lexing does at a position.
#[derive(Debug, Clone, Copy, PartialEq, Eq, Structural)]
pub enum LexStep {
    /// Skip the blank character there.
    Blank,
    /// Give `token` and go on from `next`.
    Emit { token: Token, next: usize },
    /// Read a name that ends at `end`.
    Name { end: usize },
    /// Refuse an integer literal that does not fit in an `i32`.
    TooLarge,
}

impl View for LexStep {
    type V = StepModel;

    open spec fn view(&self) -> StepModel {
        match self {
            LexStep::Blank => StepModel::Blank,
            LexStep::Emit { token, next } => StepModel::Emit(*token, *next as int),
            LexStep::Name { end } => StepModel::Name(*end as int),
            LexStep::TooLarge => StepModel::TooLarge,
        }
    }
}

/// Decides what lexing does at `p`, given whether the character there is
/// blank and whether it is alphabetic.
pub fn lex_step(chars: &Vec<char>, p: usize, blank: bool, alpha: bool) -> (s: LexStep)
    requires
        p < chars.len(),
    ensures
        s@ == step_at(chars@, p as int, blank, alpha),
{
    let ch = chars[p];
    if blank {
        LexStep::Blank
    } else if is_digit_char(ch) {
        let (e, v) = scan_number(chars, p);
        match v {
            Some(x) => LexStep::Emit { token: Token::IntLit(x), next: e },
            None => LexStep::TooLarge,
        }
    } else if alpha {
        let e = scan_name(chars, p);
        match keyword_of(chars, p, e) {
            Some(t) => LexStep::Emit { token: t, next: e },
            None => LexStep::Name { end: e },
        }
    } else {
        let (t, n) = symbol_at(chars, p);
        LexStep::Emit { token: t, next: p + n }
    }
}

proof fn lemma_extend_prepend(
    ts0: Seq<Token>,
    ns0: Seq<Seq<char>>,
    t: Token,
    rest: Option<(Seq<Token>, Seq<Seq<char>>)>,
)
    ensures
        extend(ts0, ns0, prepend(t, rest)) == extend(ts0.push(t), ns0, rest),
{
    if let Some((ts, ns)) = rest {
        assert(ts0 + (seq![t] + ts) =~= ts0.push(t) + ts);
    }
}

impl Lexer {
    /// Lexes the rest of the input. On failure the lexer is left as it was.
    fn lex(&mut self) -> (r: Option<Vec<Token>>)
        ensures
            final(self).chars@ == old(self).chars@,
            match lex_from(old(self).chars@, old(self).pos as int, old(self).idtable@.len()) {
                Some((ts, ns)) => {
                    &&& r matches Some(v) && v@ == ts
                    &&& names_view(final(self).idtable@) == names_view(old(self).idtable@) + ns
                    &&& final(self).idtable@.subrange(0, old(self).idtable@.len() as int)
                        == old(self).idtable@
                    &&& final(self).pos == if old(self).pos >= old(self).chars@.len() {
                        old(self).pos as int
                    } else {
                        old(self).chars@.len() as int
                    }
                },
                None => {
                    &&& r is None
                    &&& final(self).idtable@ == old(self).idtable@
                    &&& final(self).pos == old(self).pos
                },
            },
    {
        let ghost cs = self.chars@;
        let ghost p0 = self.pos as int;
        let ghost t0 = self.idtable@;
        let base = self.idtable.len();
        let save_pos = self.pos;
        let len = self.chars.len();
        let mut tokens: Vec<Token> = Vec::new();
        assert(self.idtable@.subrange(0, base as int) =~= t0);
        assert(names_view(self.idtable@.subrange(base as int, self.idtable@.len() as int))
            =~= Seq::<Seq<char>>::empty());
        assert(tokens@ + Seq::<Token>::empty() =~= Seq::<Token>::empty());
        proof {
            match lex_from(cs, p0, base as nat) {
                Some((ts, ns)) => {
                    assert(Seq::<Token>::empty() + ts =~= ts);
                    assert(Seq::<Seq<char>>::empty() + ns =~= ns);
                },
                None => {},
            }
        }
        while self.pos < len
            invariant
                self.chars@ == cs,
                old(self).chars@ == cs,
                old(self).pos == p0,
                old(self).idtable@ == t0,
                len == cs.len(),
                base == t0.len(),
                save_pos == p0,
                self.pos <= len || self.pos == p0,
                p0 <= self.pos,
                self.idtable@.len() >= base,
                self.idtable@.subrange(0, base as int) == t0,
                lex_from(cs, p0, base as nat) == extend(
                    tokens@,
                    names_view(self.idtable@.subrange(base as int, self.idtable@.len() as int)),
                    lex_from(cs, self.pos as int, self.idtable@.len()),
                ),
            decreases len - self.pos,
        {
            let ghost names0 = names_view(
                self.idtable@.subrange(base as int, self.idtable@.len() as int),
            );
            let ghost tokens0 = tokens@;
            let ch = self.chars[self.pos];
            let blank = char_is_whitespace(ch);
            let alpha = char_is_alphabetic(ch);
            proof {
                lemma_step_advances(cs, self.pos as int, blank, alpha);
            }
            match lex_step(&self.chars, self.pos, blank, alpha) {
                LexStep::Blank => {
                    self.pos = self.pos + 1;
                },
                LexStep::Emit { token, next } => {
                    proof {
                        lemma_extend_prepend(
                            tokens0,
                            names0,
                            token,
                            lex_from(cs, next as int, self.idtable@.len()),
                        );
                    }
                    tokens.push(token);
                    self.pos = next;
                },
                LexStep::Name { end } => {
                    let name = chars_to_string(&self.chars, self.pos, end);
                    let ghost w = name@;
                    self.idtable.push(name);
                    let id = self.idtable.len() - 1;
                    tokens.push(Token::Id(id));
                    proof {
                        assert(self.idtable@.subrange(0, base as int) =~= t0);
                        assert(names_view(
                            self.idtable@.subrange(base as int, self.idtable@.len() as int),
                        ) =~= names0.push(w));
                        match lex_from(cs, end as int, self.idtable@.len()) {
                            Some((ts, ns)) => {
                                assert(tokens0 + (seq![Token::Id(id)] + ts) =~= tokens@ + ts);
                                assert(names0 + (seq![w] + ns) =~= names0.push(w) + ns);
                            },
                            None => {},
                        }
                    }
                    self.pos = end;
                },
                LexStep::TooLarge => {
                    self.idtable.truncate(base);
                    self.pos = save_pos;
                    return None;
                },
            }
        }
        proof {
            let nv = names_view(self.idtable@.subrange(base as int, self.idtable@.len() as int));
            assert(tokens@ + Seq::<Token>::empty() =~= tokens@);
            assert(nv + Seq::<Seq<char>>::empty() =~= nv);
            assert(names_view(self.idtable@) =~= names_view(t0) + nv);
        }
        Some(tokens)
    }
}

impl Lexer {
    /// Whether the rest of the input can be tokenized: every integer literal
    /// in it fits in an `i32`.
    pub open spec fn can_tokenize(&self) -> bool {
        lex_from(self.input(), self.position(), self.table().len()) is Some
    }

    /// The tokens of the rest of the input.
    pub open spec fn spec_tokens(&self) -> Seq<Token> {
        lex_from(self.input(), self.position(), self.table().len()).unwrap().0
    }

    /// The names of the identifiers in the rest of the input, in order.
    pub open spec fn spec_new_names(&self) -> Seq<Seq<char>> {
        lex_from(self.input(), self.position(), self.table().len()).unwrap().1
    }

    /// Reads the rest of the input into tokens; each identifier gets the next
    /// index of the identifier table, where its name is added.
    pub fn tokenize(&mut self) -> (tokens: Vec<Token>)
        requires
            old(self).can_tokenize(),
        ensures
            tokens@ == old(self).spec_tokens(),
            names_view(final(self).table()) == names_view(old(self).table())
                + old(self).spec_new_names(),
            final(self).table().subrange(0, old(self).table().len() as int) == old(self).table(),
            id_indices(tokens@) == Seq::new(
                old(self).spec_new_names().len(),
                |i: int| (old(self).table().len() + i) as usize,
            ),
            ids_in(tokens@, old(self).table().len(), final(self).table().len()),
            final(self).input() == old(self).input(),
            final(self).position() == if old(self).position() >= old(self).input().len() {
                old(self).position()
            } else {
                old(self).input().len() as int
            },
    {
        let tokens = match self.lex() {
            Some(tokens) => tokens,
            None => Vec::new(),
        };
        let _table_len = self.idtable.len();
        proof {
            assert(names_view(self.idtable@).len() == self.idtable@.len());
            assert(names_view(old(self).idtable@).len() == old(self).idtable@.len());
            lemma_lex_numbers_ids(old(self).input(), old(self).position(), old(self).table().len());
        }
        tokens
    }

    /// As `tokenize`, but gives `None`, and leaves the lexer as it was, where
    /// an integer literal does not fit in an `i32`.
    pub fn try_tokenize(&mut self) -> (r: Option<Vec<Token>>)
        ensures
            final(self).input() == old(self).input(),
            old(self).can_tokenize() ==> {
                &&& r matches Some(tokens) && tokens@ == old(self).spec_tokens()
                &&& names_view(final(self).table()) == names_view(old(self).table())
                    + old(self).spec_new_names()
                &&& final(self).table().subrange(0, old(self).table().len() as int)
                    == old(self).table()
                &&& id_indices(r.unwrap()@) == Seq::new(
                    old(self).spec_new_names().len(),
                    |i: int| (old(self).table().len() + i) as usize,
                )
                &&& ids_in(r.unwrap()@, old(self).table().len(), final(self).table().len())
                &&& final(self).position() == if old(self).position() >= old(self).input().len() {
                    old(self).position()
                } else {
                    old(self).input().len() as int
                }
            },
            !old(self).can_tokenize() ==> {
                &&& r is None
                &&& final(self).table() == old(self).table()
                &&& final(self).position() == old(self).position()
            },
    {
        let r = self.lex();
        let _table_len = self.idtable.len();
        proof {
            if old(self).can_tokenize() {
                assert(names_view(self.idtable@).len() == self.idtable@.len());
                assert(names_view(old(self).idtable@).len() == old(self).idtable@.len());
                lemma_lex_numbers_ids(
                    old(self).input(),
                    old(self).position(),
                    old(self).table().len(),
                );
            }
        }
        r
    }
}

} // verus!

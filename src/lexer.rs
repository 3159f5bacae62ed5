//! The tokenizer: source text to a gap-free sequence of classified tokens,
//! each located at its last character.
use crate::text::chars_of;
use vstd::prelude::*;
use vstd::utf8::{encode_scalar, encode_utf8};

verus! {

/// Where a token's last character stands.
#[derive(Debug, PartialEq, Eq, Clone, Copy)]
pub struct Position {
    /// Line, counted from 1
    pub line: usize,
    /// Byte column within the line, counted from the line break before it
    pub offset: usize,
    /// Absolute byte offset, counted from 0
    pub raw: usize,
}

/// The kind of a literal.
#[derive(Debug, PartialEq, Eq, Clone, Copy)]
pub enum Value {
    Int,
    Str,
}

/// The reserved words.
#[derive(Debug, PartialEq, Eq, Clone, Copy)]
pub enum Keyword {
    Let,
    If,
    Else,
    Return,
    While,
    For,
    In,
    Break,
    Continue,
    Function,
    Boolean,
    Struct,
    New,
    Match,
    Import,
    SelfValue,
    Pub,
}

#[derive(Debug, PartialEq, Eq, Clone, Copy)]
pub enum TokenKind {
    /// A space
    Whitespace,
    /// A line break, `\n` or `\r`
    CarriageReturn,
    /// A tab
    Tab,
    /// A name that is no keyword
    Identifier,
    /// A number or a quoted string
    Literal(Value),
    /// A reserved word
    Keyword(Keyword),
    /// `//` up to the end of the line
    Comment,
    /// "+"
    Plus,
    /// "-"
    Minus,
    /// "*"
    Star,
    /// "/"
    Slash,
    /// "%"
    Percent,
    /// ":"
    Colon,
    /// ";"
    SemiColon,
    /// "."
    Dot,
    /// "!"
    Exclamation,
    /// ","
    Comma,
    /// "="
    Assign,
    /// "=="
    Equals,
    /// "<"
    LessThan,
    /// "<="
    LessThanOrEqual,
    /// ">"
    GreaterThan,
    /// ">="
    GreaterThanOrEqual,
    /// "!="
    NotEqual,
    /// "&&"
    And,
    /// "||"
    Or,
    /// "+="
    PlusEqual,
    /// "-="
    MinusEqual,
    /// "*="
    StarEqual,
    /// "/="
    SlashEqual,
    /// "("
    BraceOpen,
    /// ")"
    BraceClose,
    /// "["
    SquareBraceOpen,
    /// "]"
    SquareBraceClose,
    /// "{"
    CurlyBracesOpen,
    /// "}"
    CurlyBracesClose,
    /// "->"
    ArrowRight,
    /// Any other single character
    Unknown,
}

/// A classified slice of the source.
#[derive(Debug, PartialEq, Eq, Clone)]
pub struct Token {
    pub kind: TokenKind,
    /// Length in bytes
    pub len: usize,
    /// The characters of the token
    pub raw: String,
    /// Where the token's last character stands
    pub pos: Position,
}

/// The characters that extend a run.
pub enum CharClass {
    Decimal,
    Binary,
    Octal,
    Hex,
    IdContinue,
    /// Every character but this one
    Except(char),
}

pub open spec fn is_decimal(c: char) -> bool {
    '0' <= c <= '9'
}

pub open spec fn is_id_start(c: char) -> bool {
    ('a' <= c <= 'z') || ('A' <= c <= 'Z') || c == '_'
}

pub open spec fn in_class(cls: CharClass, c: char) -> bool {
    match cls {
        CharClass::Decimal => is_decimal(c),
        CharClass::Binary => c == '0' || c == '1',
        CharClass::Octal => '0' <= c <= '7',
        CharClass::Hex => is_decimal(c) || ('a' <= c <= 'f') || ('A' <= c <= 'F'),
        CharClass::IdContinue => is_id_start(c) || is_decimal(c),
        CharClass::Except(x) => c != x,
    }
}

/// The end of the longest run of `cls` characters of `s` from `i` on.
pub open spec fn run_end(s: Seq<char>, i: int, cls: CharClass) -> int
    decreases s.len() - i,
{
    if 0 <= i < s.len() && in_class(cls, s[i]) {
        run_end(s, i + 1, cls)
    } else {
        i
    }
}

/// The number of bytes of `c` in UTF-8.
pub open spec fn char_width(c: char) -> nat {
    encode_scalar(c as u32).len()
}

/// The number of bytes of `s` in UTF-8.
pub open spec fn byte_len(s: Seq<char>) -> nat {
    encode_utf8(s).len()
}

fn class_contains(cls: &CharClass, c: char) -> (r: bool)
    ensures
        r == in_class(*cls, c),
{
    match cls {
        CharClass::Decimal => '0' <= c && c <= '9',
        CharClass::Binary => c == '0' || c == '1',
        CharClass::Octal => '0' <= c && c <= '7',
        CharClass::Hex => ('0' <= c && c <= '9') || ('a' <= c && c <= 'f') || ('A' <= c
            && c <= 'F'),
        CharClass::IdContinue => ('a' <= c && c <= 'z') || ('A' <= c && c <= 'Z') || c == '_'
            || ('0' <= c && c <= '9'),
        CharClass::Except(x) => c != *x,
    }
}

/// Scans the longest run of `cls` characters from `i` on.
fn scan_while(s: &Vec<char>, i: usize, cls: CharClass) -> (r: usize)
    requires
        i <= s@.len(),
    ensures
        r as int == run_end(s@, i as int, cls),
        i <= r <= s@.len(),
{
    let mut j: usize = i;
    while j < s.len() && class_contains(&cls, s[j])
        invariant
            i <= j <= s@.len(),
            run_end(s@, i as int, cls) == run_end(s@, j as int, cls),
        decreases s@.len() - j,
    {
        j = j + 1;
    }
    j
}

/// The number of bytes of `c` in UTF-8.
fn width_of(c: char) -> (r: usize)
    ensures
        r == char_width(c),
        1 <= r <= 4,
{
    proof {
        vstd::utf8::char_is_scalar(c);
    }
    let v: u32 = c as u32;
    if v <= 0x7F {
        1
    } else if v <= 0x7FF {
        2
    } else if v <= 0xFFFF {
        3
    } else {
        4
    }
}

proof fn lemma_encode_concat(a: Seq<char>, b: Seq<char>)
    ensures
        encode_utf8(a + b) == encode_utf8(a) + encode_utf8(b),
    decreases a.len(),
{
    if a.len() > 0 {
        lemma_encode_concat(a.drop_first(), b);
        assert((a + b).drop_first() =~= a.drop_first() + b);
        assert((a + b)[0] == a[0]);
        assert(encode_scalar(a[0] as u32) + (encode_utf8(a.drop_first()) + encode_utf8(b))
            =~= encode_scalar(a[0] as u32) + encode_utf8(a.drop_first()) + encode_utf8(b));
    } else {
        assert(a + b =~= b);
        assert(encode_utf8(a) + encode_utf8(b) =~= encode_utf8(b));
    }
}

/// Appending a character adds its width.
proof fn lemma_byte_len_push(s: Seq<char>, c: char)
    ensures
        byte_len(s.push(c)) == byte_len(s) + char_width(c),
{
    lemma_encode_concat(s, seq![c]);
    assert(s.push(c) =~= s + seq![c]);
    assert(seq![c].drop_first() =~= Seq::<char>::empty());
    assert(encode_utf8(Seq::<char>::empty()) =~= Seq::<u8>::empty());
    assert(encode_utf8(seq![c]) =~= encode_scalar(c as u32));
}

pub open spec fn is_quote(c: char) -> bool {
    c == '\'' || c == '"'
}

pub open spec fn is_radix_marker(c: char) -> bool {
    c == 'b' || c == 'o' || c == 'x'
}

/// The digits that follow a radix marker.
pub open spec fn radix_class(marker: char) -> CharClass {
    if marker == 'b' {
        CharClass::Binary
    } else if marker == 'o' {
        CharClass::Octal
    } else {
        CharClass::Hex
    }
}

/// The operator that the two characters `c`, `d` form, if any.
pub open spec fn pair_kind(c: char, d: char) -> Option<TokenKind> {
    if d == '=' && c == '=' {
        Some(TokenKind::Equals)
    } else if d == '=' && c == '<' {
        Some(TokenKind::LessThanOrEqual)
    } else if d == '=' && c == '>' {
        Some(TokenKind::GreaterThanOrEqual)
    } else if d == '=' && c == '!' {
        Some(TokenKind::NotEqual)
    } else if d == '=' && c == '+' {
        Some(TokenKind::PlusEqual)
    } else if d == '=' && c == '-' {
        Some(TokenKind::MinusEqual)
    } else if d == '=' && c == '*' {
        Some(TokenKind::StarEqual)
    } else if d == '=' && c == '/' {
        Some(TokenKind::SlashEqual)
    } else if c == '&' && d == '&' {
        Some(TokenKind::And)
    } else if c == '|' && d == '|' {
        Some(TokenKind::Or)
    } else if c == '-' && d == '>' {
        Some(TokenKind::ArrowRight)
    } else {
        None
    }
}

/// The kind of a token of the single character `c`.
pub open spec fn single_kind(c: char) -> TokenKind {
    if c == ' ' {
        TokenKind::Whitespace
    } else if c == '\t' {
        TokenKind::Tab
    } else if c == '\n' || c == '\r' {
        TokenKind::CarriageReturn
    } else if c == '+' {
        TokenKind::Plus
    } else if c == '-' {
        TokenKind::Minus
    } else if c == '*' {
        TokenKind::Star
    } else if c == '/' {
        TokenKind::Slash
    } else if c == '%' {
        TokenKind::Percent
    } else if c == ':' {
        TokenKind::Colon
    } else if c == ';' {
        TokenKind::SemiColon
    } else if c == '.' {
        TokenKind::Dot
    } else if c == '!' {
        TokenKind::Exclamation
    } else if c == ',' {
        TokenKind::Comma
    } else if c == '=' {
        TokenKind::Assign
    } else if c == '<' {
        TokenKind::LessThan
    } else if c == '>' {
        TokenKind::GreaterThan
    } else if c == '(' {
        TokenKind::BraceOpen
    } else if c == ')' {
        TokenKind::BraceClose
    } else if c == '[' {
        TokenKind::SquareBraceOpen
    } else if c == ']' {
        TokenKind::SquareBraceClose
    } else if c == '{' {
        TokenKind::CurlyBracesOpen
    } else if c == '}' {
        TokenKind::CurlyBracesClose
    } else {
        TokenKind::Unknown
    }
}

/// Whether the token at `i` is a comment: it starts with `//`.
pub open spec fn starts_comment(s: Seq<char>, i: int) -> bool {
    s[i] == '/' && i + 1 < s.len() && s[i + 1] == '/'
}

/// Whether the token at `i` is an operator of two characters.
pub open spec fn starts_pair(s: Seq<char>, i: int) -> bool {
    i + 1 < s.len() && pair_kind(s[i], s[i + 1]) is Some
}

/// The end of the token that starts at `i`: the longest number, string,
/// comment or name there; else an operator of two characters; else the
/// single character.
pub open spec fn token_end(s: Seq<char>, i: int) -> int {
    let c = s[i];
    if is_decimal(c) {
        if c == '0' && i + 1 < s.len() && is_radix_marker(s[i + 1]) {
            run_end(s, i + 2, radix_class(s[i + 1]))
        } else {
            run_end(s, i + 1, CharClass::Decimal)
        }
    } else if is_quote(c) {
        let e = run_end(s, i + 1, CharClass::Except(c));
        if e < s.len() {
            e + 1
        } else {
            e
        }
    } else if starts_comment(s, i) {
        run_end(s, i + 2, CharClass::Except('\n'))
    } else if is_id_start(c) {
        run_end(s, i + 1, CharClass::IdContinue)
    } else if starts_pair(s, i) {
        i + 2
    } else {
        i + 1
    }
}

/// The reserved word that `w` spells, if any.
pub open spec fn keyword(w: Seq<char>) -> Option<Keyword> {
    if w == "let"@ {
        Some(Keyword::Let)
    } else if w == "if"@ {
        Some(Keyword::If)
    } else if w == "else"@ {
        Some(Keyword::Else)
    } else if w == "return"@ {
        Some(Keyword::Return)
    } else if w == "while"@ {
        Some(Keyword::While)
    } else if w == "for"@ {
        Some(Keyword::For)
    } else if w == "in"@ {
        Some(Keyword::In)
    } else if w == "break"@ {
        Some(Keyword::Break)
    } else if w == "continue"@ {
        Some(Keyword::Continue)
    } else if w == "fn"@ {
        Some(Keyword::Function)
    } else if w == "true"@ || w == "false"@ {
        Some(Keyword::Boolean)
    } else if w == "struct"@ {
        Some(Keyword::Struct)
    } else if w == "new"@ {
        Some(Keyword::New)
    } else if w == "match"@ {
        Some(Keyword::Match)
    } else if w == "import"@ {
        Some(Keyword::Import)
    } else if w == "self"@ {
        Some(Keyword::SelfValue)
    } else if w == "pub"@ {
        Some(Keyword::Pub)
    } else {
        None
    }
}

/// The kind of the token that starts at `i`.
pub open spec fn token_kind(s: Seq<char>, i: int) -> TokenKind {
    let c = s[i];
    if is_decimal(c) {
        TokenKind::Literal(Value::Int)
    } else if is_quote(c) {
        TokenKind::Literal(Value::Str)
    } else if starts_comment(s, i) {
        TokenKind::Comment
    } else if is_id_start(c) {
        match keyword(s.subrange(i, token_end(s, i))) {
            Some(k) => TokenKind::Keyword(k),
            None => TokenKind::Identifier,
        }
    } else if starts_pair(s, i) {
        pair_kind(c, s[i + 1])->Some_0
    } else {
        single_kind(c)
    }
}

// ----- Positions -----

/// The number of line breaks in `t`.
pub open spec fn newlines(t: Seq<char>) -> nat
    decreases t.len(),
{
    if t.len() == 0 {
        0
    } else {
        newlines(t.drop_last()) + if t.last() == '\n' {
            1nat
        } else {
            0nat
        }
    }
}

/// The index of the last line break before `j`, or -1 where there is none.
pub open spec fn last_break_before(s: Seq<char>, j: int) -> int
    decreases j,
{
    if j <= 0 {
        -1
    } else if s[j - 1] == '\n' {
        j - 1
    } else {
        last_break_before(s, j - 1)
    }
}

/// The column of character `j`: 0 for a line break; else its byte distance
/// from the line break before it, or from the start where there is none.
pub open spec fn line_offset(s: Seq<char>, j: int) -> nat {
    if s[j] == '\n' {
        0
    } else {
        let b = last_break_before(s, j);
        if b < 0 {
            byte_len(s.take(j))
        } else {
            byte_len(s.subrange(b, j))
        }
    }
}

/// `p` locates character `j` of `s`: its byte offset, its line (a line break
/// belongs to the line it opens), its column.
pub open spec fn located_at(p: Position, s: Seq<char>, j: int) -> bool {
    &&& p.raw == byte_len(s.take(j))
    &&& p.line == 1 + newlines(s.take(j + 1))
    &&& p.offset == line_offset(s, j)
}

proof fn lemma_last_break_bounds(s: Seq<char>, j: int)
    requires
        0 <= j,
    ensures
        -1 <= last_break_before(s, j) < j,
    decreases j,
{
    if j > 0 {
        lemma_last_break_bounds(s, j - 1);
    }
}

/// The characters of `s` take at least one byte each.
proof fn lemma_len_le_bytes(s: Seq<char>)
    ensures
        s.len() <= byte_len(s),
    decreases s.len(),
{
    if s.len() > 0 {
        lemma_len_le_bytes(s.drop_last());
        lemma_byte_len_push(s.drop_last(), s.last());
        assert(s.drop_last().push(s.last()) =~= s);
    }
}

proof fn lemma_newlines_le_len(t: Seq<char>)
    ensures
        newlines(t) <= t.len(),
    decreases t.len(),
{
    if t.len() > 0 {
        lemma_newlines_le_len(t.drop_last());
    }
}

/// The bytes of a prefix and of the slice after it add up.
proof fn lemma_byte_len_split(s: Seq<char>, i: int, k: int)
    requires
        0 <= i <= k <= s.len(),
    ensures
        byte_len(s.take(i)) + byte_len(s.subrange(i, k)) == byte_len(s.take(k)),
        byte_len(s.take(k)) <= byte_len(s),
{
    lemma_encode_concat(s.take(i), s.subrange(i, k));
    assert(s.take(i) + s.subrange(i, k) =~= s.take(k));
    lemma_encode_concat(s.take(k), s.skip(k));
    assert(s.take(k) + s.skip(k) =~= s);
}

/// Where the first character stands.
fn first_position(s: &Vec<char>) -> (p: Position)
    requires
        s@.len() > 0,
    ensures
        located_at(p, s@, 0),
        p.offset <= p.raw,
{
    proof {
        assert(s@.take(0) =~= Seq::<char>::empty());
        assert(encode_utf8(Seq::<char>::empty()) =~= Seq::<u8>::empty());
        assert(s@.take(1).drop_last() =~= s@.take(0));
        assert(s@.take(1).last() == s@[0]);
        assert(newlines(s@.take(0)) == 0);
        assert(last_break_before(s@, 0) == -1);
    }
    let line: usize = if s[0] == '\n' {
        2
    } else {
        1
    };
    Position { line, offset: 0, raw: 0 }
}

/// From the position of character `j` to that of character `j + 1`.
fn step(p: Position, s: &Vec<char>, j: usize) -> (r: Position)
    requires
        j + 1 < s@.len(),
        located_at(p, s@, j as int),
        p.offset <= p.raw,
        byte_len(s@) < usize::MAX,
    ensures
        located_at(r, s@, j + 1),
        r.offset <= r.raw,
{
    let ghost t = s@;
    let w: usize = width_of(s[j]);
    proof {
        lemma_byte_len_push(t.take(j as int), t[j as int]);
        assert(t.take(j as int).push(t[j as int]) =~= t.take(j + 1));
        lemma_byte_len_split(t, j + 1, j + 1);
        lemma_newlines_le_len(t.take(j + 2));
        lemma_len_le_bytes(t);
        assert(t.take(j + 2).drop_last() =~= t.take(j + 1));
    }
    let raw: usize = p.raw + w;
    let breaks = s[j + 1] == '\n';
    let line: usize = if breaks {
        p.line + 1
    } else {
        p.line
    };
    let offset: usize = if breaks {
        0
    } else {
        p.offset + w
    };
    proof {
        if !breaks {
            let b = last_break_before(t, j as int);
            lemma_last_break_bounds(t, j as int);
            if t[j as int] == '\n' {
                assert(t.subrange(j as int, j + 1) =~= Seq::<char>::empty().push(t[j as int]));
                lemma_byte_len_push(Seq::<char>::empty(), t[j as int]);
                assert(encode_utf8(Seq::<char>::empty()) =~= Seq::<u8>::empty());
            } else if b >= 0 {
                lemma_byte_len_push(t.subrange(b, j as int), t[j as int]);
                assert(t.subrange(b, j as int).push(t[j as int]) =~= t.subrange(b, j + 1));
            }
        }
    }
    Position { line, offset, raw }
}

// ----- Scanning -----

fn pair_kind_of(c: char, d: char) -> (r: Option<TokenKind>)
    ensures
        r == pair_kind(c, d),
{
    if d == '=' && c == '=' {
        Some(TokenKind::Equals)
    } else if d == '=' && c == '<' {
        Some(TokenKind::LessThanOrEqual)
    } else if d == '=' && c == '>' {
        Some(TokenKind::GreaterThanOrEqual)
    } else if d == '=' && c == '!' {
        Some(TokenKind::NotEqual)
    } else if d == '=' && c == '+' {
        Some(TokenKind::PlusEqual)
    } else if d == '=' && c == '-' {
        Some(TokenKind::MinusEqual)
    } else if d == '=' && c == '*' {
        Some(TokenKind::StarEqual)
    } else if d == '=' && c == '/' {
        Some(TokenKind::SlashEqual)
    } else if c == '&' && d == '&' {
        Some(TokenKind::And)
    } else if c == '|' && d == '|' {
        Some(TokenKind::Or)
    } else if c == '-' && d == '>' {
        Some(TokenKind::ArrowRight)
    } else {
        None
    }
}

fn single_kind_of(c: char) -> (r: TokenKind)
    ensures
        r == single_kind(c),
{
    match c {
        ' ' => TokenKind::Whitespace,
        '\t' => TokenKind::Tab,
        '\n' | '\r' => TokenKind::CarriageReturn,
        '+' => TokenKind::Plus,
        '-' => TokenKind::Minus,
        '*' => TokenKind::Star,
        '/' => TokenKind::Slash,
        '%' => TokenKind::Percent,
        ':' => TokenKind::Colon,
        ';' => TokenKind::SemiColon,
        '.' => TokenKind::Dot,
        '!' => TokenKind::Exclamation,
        ',' => TokenKind::Comma,
        '=' => TokenKind::Assign,
        '<' => TokenKind::LessThan,
        '>' => TokenKind::GreaterThan,
        '(' => TokenKind::BraceOpen,
        ')' => TokenKind::BraceClose,
        '[' => TokenKind::SquareBraceOpen,
        ']' => TokenKind::SquareBraceClose,
        '{' => TokenKind::CurlyBracesOpen,
        '}' => TokenKind::CurlyBracesClose,
        _ => TokenKind::Unknown,
    }
}

/// Finds the end of the token that starts at `i`, and its kind; a name is
/// reported as an identifier, whatever word it spells.
fn scan_token(s: &Vec<char>, i: usize) -> (r: (usize, TokenKind))
    requires
        i < s@.len(),
    ensures
        r.0 == token_end(s@, i as int),
        i < r.0 <= s@.len(),
        !is_id_start(s@[i as int]) ==> r.1 == token_kind(s@, i as int),
{
    let c = s[i];
    let n: usize = s.len();
    if '0' <= c && c <= '9' {
        if c == '0' && i + 1 < n && (s[i + 1] == 'b' || s[i + 1] == 'o' || s[i + 1] == 'x') {
            let cls = if s[i + 1] == 'b' {
                CharClass::Binary
            } else if s[i + 1] == 'o' {
                CharClass::Octal
            } else {
                CharClass::Hex
            };
            (scan_while(s, i + 2, cls), TokenKind::Literal(Value::Int))
        } else {
            (scan_while(s, i + 1, CharClass::Decimal), TokenKind::Literal(Value::Int))
        }
    } else if c == '\'' || c == '"' {
        let e: usize = scan_while(s, i + 1, CharClass::Except(c));
        let end: usize = if e < n {
            e + 1
        } else {
            e
        };
        (end, TokenKind::Literal(Value::Str))
    } else if c == '/' && i + 1 < n && s[i + 1] == '/' {
        (scan_while(s, i + 2, CharClass::Except('\n')), TokenKind::Comment)
    } else if ('a' <= c && c <= 'z') || ('A' <= c && c <= 'Z') || c == '_' {
        (scan_while(s, i + 1, CharClass::IdContinue), TokenKind::Identifier)
    } else {
        if i + 1 < n {
            match pair_kind_of(c, s[i + 1]) {
                Some(k) => {
                    return (i + 2, k);
                },
                None => {},
            }
        }
        (i + 1, single_kind_of(c))
    }
}

/// Whether `word` spells `lit`.
fn is_word(word: &String, lit: &str) -> (r: bool)
    ensures
        r == (word@ == lit@),
{
    let w = String::from_str(lit);
    *word == w
}

/// The reserved word that `word` spells, if any.
fn keyword_of(word: &String) -> (r: Option<Keyword>)
    ensures
        r == keyword(word@),
{
    if is_word(word, "let") {
        Some(Keyword::Let)
    } else if is_word(word, "if") {
        Some(Keyword::If)
    } else if is_word(word, "else") {
        Some(Keyword::Else)
    } else if is_word(word, "return") {
        Some(Keyword::Return)
    } else if is_word(word, "while") {
        Some(Keyword::While)
    } else if is_word(word, "for") {
        Some(Keyword::For)
    } else if is_word(word, "in") {
        Some(Keyword::In)
    } else if is_word(word, "break") {
        Some(Keyword::Break)
    } else if is_word(word, "continue") {
        Some(Keyword::Continue)
    } else if is_word(word, "fn") {
        Some(Keyword::Function)
    } else if is_word(word, "true") || is_word(word, "false") {
        Some(Keyword::Boolean)
    } else if is_word(word, "struct") {
        Some(Keyword::Struct)
    } else if is_word(word, "new") {
        Some(Keyword::New)
    } else if is_word(word, "match") {
        Some(Keyword::Match)
    } else if is_word(word, "import") {
        Some(Keyword::Import)
    } else if is_word(word, "self") {
        Some(Keyword::SelfValue)
    } else if is_word(word, "pub") {
        Some(Keyword::Pub)
    } else {
        None
    }
}

/// Relies on `String: FromIterator<&char>`: the string of the characters
/// `cs`, in order.
#[verifier::external_body]
fn text_of(cs: &[char]) -> (r: String)
    ensures
        r@ == cs@,
{
    cs.iter().collect()
}

// ----- The token sequence -----

/// The characters of the tokens, one after another.
pub open spec fn tokens_text(ts: Seq<Token>) -> Seq<char>
    decreases ts.len(),
{
    if ts.len() == 0 {
        seq![]
    } else {
        tokens_text(ts.drop_last()) + ts.last().raw@
    }
}

/// Where token `k` of `ts` starts, as an index into the source.
pub open spec fn token_start(ts: Seq<Token>, k: int) -> int {
    tokens_text(ts.take(k)).len() as int
}

/// Token `t` is the token of `s` that starts at `a`: its extent, kind, byte
/// length and the position of its last character.
pub open spec fn token_at(t: Token, s: Seq<char>, a: int) -> bool {
    let e = token_end(s, a);
    &&& t.raw@ == s.subrange(a, e)
    &&& t.kind == token_kind(s, a)
    &&& t.len == byte_len(s.subrange(a, e))
    &&& located_at(t.pos, s, e - 1)
}

/// `ts` is the tokenization of `s`: the tokens spell `s` in order, and each
/// is the token of `s` where it starts.
pub open spec fn tokenization(ts: Seq<Token>, s: Seq<char>) -> bool {
    &&& tokens_text(ts) == s
    &&& forall|k: int| 0 <= k < ts.len() ==> token_at(#[trigger] ts[k], s, token_start(ts, k))
}

/// Splits `source` into tokens: every character belongs to exactly one
/// token, in order, and unknown characters become tokens of their own.
#[verifier::rlimit(100)]
pub fn tokenize(source: &str) -> (r: Vec<Token>)
    requires
        byte_len(source@) < usize::MAX,
    ensures
        tokenization(r@, source@),
{
    let chars = chars_of(source);
    let ghost s = chars@;
    let n: usize = chars.len();
    let mut tokens: Vec<Token> = Vec::new();
    let mut i: usize = 0;
    if n == 0 {
        proof {
            assert(tokens@ =~= Seq::<Token>::empty());
            assert(source@ =~= Seq::<char>::empty());
        }
        return tokens;
    }
    let mut pos = first_position(&chars);
    while i < n
        invariant
            s == chars@,
            s == source@,
            n == s.len(),
            i <= n,
            byte_len(s) < usize::MAX,
            i < n ==> located_at(pos, s, i as int),
            pos.offset <= pos.raw,
            tokens_text(tokens@) == s.take(i as int),
            forall|k: int|
                0 <= k < tokens@.len() ==> token_at(#[trigger] tokens@[k], s, token_start(tokens@, k)),
        decreases n - i,
    {
        let (end, scanned) = scan_token(&chars, i);
        let raw = text_of(vstd::slice::slice_subrange(chars.as_slice(), i, end));
        let kind = if ('a' <= chars[i] && chars[i] <= 'z') || ('A' <= chars[i] && chars[i] <= 'Z')
            || chars[i] == '_' {
            match keyword_of(&raw) {
                Some(k) => TokenKind::Keyword(k),
                None => TokenKind::Identifier,
            }
        } else {
            scanned
        };
        let mut len: usize = width_of(chars[i]);
        let mut j: usize = i;
        proof {
            assert(s.subrange(i as int, i + 1) =~= Seq::<char>::empty().push(s[i as int]));
            lemma_byte_len_push(Seq::<char>::empty(), s[i as int]);
            assert(encode_utf8(Seq::<char>::empty()) =~= Seq::<u8>::empty());
        }
        while j + 1 < end
            invariant
                s == chars@,
                n == s.len(),
                i <= j < end <= n,
                byte_len(s) < usize::MAX,
                located_at(pos, s, j as int),
                pos.offset <= pos.raw,
                len == byte_len(s.subrange(i as int, j + 1)),
            decreases end - j,
        {
            proof {
                lemma_byte_len_push(s.subrange(i as int, j + 1), s[j + 1]);
                assert(s.subrange(i as int, j + 1).push(s[j + 1]) =~= s.subrange(i as int, j + 2));
                lemma_byte_len_split(s, i as int, j + 2);
            }
            pos = step(pos, &chars, j);
            len = len + width_of(chars[j + 1]);
            j = j + 1;
        }
        let ghost before = tokens@;
        let token = Token { kind, len, raw, pos };
        tokens.push(token);
        proof {
            assert(tokens@.drop_last() =~= before);
            assert(s.take(i as int) + s.subrange(i as int, end as int) =~= s.take(end as int));
            assert forall|k: int| 0 <= k < tokens@.len() implies token_at(
                #[trigger] tokens@[k],
                s,
                token_start(tokens@, k),
            ) by {
                assert(tokens@.take(k) =~= before.take(k));
                if k == before.len() {
                    assert(before.take(k) =~= before);
                }
            }
        }
        if end < n {
            pos = step(pos, &chars, end - 1);
        }
        i = end;
    }
    proof {
        assert(s.take(n as int) =~= s);
    }
    tokens
}

} // verus!

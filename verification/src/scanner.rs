//! The scanner: ASCII text in, tokens out.
//!
//! What the scanner produces is defined by [`scan_from`], a function on the
//! characters of the input. [`Scanner::tokenize`] and [`tokenize`] are proved
//! to compute exactly that.

use vstd::prelude::*;
use vstd::string::StringSliceAdditionalSpecFns;

verus! {

pub const NEWLINE: u8 = 0x0a;

pub const QUOTE: u8 = 0x22;

pub const MINUS: u8 = 0x2d;

pub const SLASH: u8 = 0x2f;

pub const COLON: u8 = 0x3a;

pub const SEMICOLON: u8 = 0x3b;

pub const EQUALS: u8 = 0x3d;

pub const GREATER_THAN: u8 = 0x3e;

pub const UNDERSCORE: u8 = 0x5f;

pub const LEFT_BRACE: u8 = 0x7b;

pub const PIPE: u8 = 0x7c;

pub const RIGHT_BRACE: u8 = 0x7d;

/// One lexical unit of a grammar description.
#[derive(Debug, PartialEq, Eq)]
pub enum Token {
    Identifier(String),
    /// A code block, without its outer braces and trimmed.
    StringLiteral(String),
    /// The name of a terminal, as written between double quotes.
    TokenLiteral(String),
    Arrow,
    Pipe,
    Colon,
    Equals,
    Semicolon,
}

/// The mathematical value of a [`Token`].
pub enum TokenView {
    Identifier(Seq<char>),
    StringLiteral(Seq<char>),
    TokenLiteral(Seq<char>),
    Arrow,
    Pipe,
    Colon,
    Equals,
    Semicolon,
}

impl View for Token {
    type V = TokenView;

    open spec fn view(&self) -> TokenView {
        match self {
            Token::Identifier(text) => TokenView::Identifier(text@),
            Token::StringLiteral(text) => TokenView::StringLiteral(text@),
            Token::TokenLiteral(text) => TokenView::TokenLiteral(text@),
            Token::Arrow => TokenView::Arrow,
            Token::Pipe => TokenView::Pipe,
            Token::Colon => TokenView::Colon,
            Token::Equals => TokenView::Equals,
            Token::Semicolon => TokenView::Semicolon,
        }
    }
}

impl DeepView for Token {
    type V = TokenView;

    open spec fn deep_view(&self) -> TokenView {
        self@
    }
}

impl Clone for Token {
    fn clone(&self) -> (copy: Self)
        ensures
            copy@ == self@,
    {
        match self {
            Token::Identifier(text) => Token::Identifier(text.clone()),
            Token::StringLiteral(text) => Token::StringLiteral(text.clone()),
            Token::TokenLiteral(text) => Token::TokenLiteral(text.clone()),
            Token::Arrow => Token::Arrow,
            Token::Pipe => Token::Pipe,
            Token::Colon => Token::Colon,
            Token::Equals => Token::Equals,
            Token::Semicolon => Token::Semicolon,
        }
    }
}

/// Why scanning stopped.
#[derive(Debug, PartialEq, Eq)]
pub enum TokenizerError {
    /// The input holds a character outside ASCII.
    InvalidCharacters,
    /// `actual` stands where `expected` had to stand, or, with no `expected`,
    /// where no lexeme can begin.
    UnexpectedCharacter { expected: Option<u8>, actual: u8 },
    /// The input ended where one more character had to stand.
    UnexpectedEndOfInput,
    /// A code block was still open at the end of the input; holds what was
    /// read of it.
    UnclosedStringLiteral(String),
    /// A token literal was still open at the end of the input; holds what was
    /// read of it.
    UnclosedTokenLiteral(String),
    /// A token literal holds whitespace; holds what stands before it.
    WhitespaceInTokenLiteral(String),
}

/// The mathematical value of a [`TokenizerError`].
pub enum TokenizerErrorView {
    InvalidCharacters,
    UnexpectedCharacter { expected: Option<u8>, actual: u8 },
    UnexpectedEndOfInput,
    UnclosedStringLiteral(Seq<char>),
    UnclosedTokenLiteral(Seq<char>),
    WhitespaceInTokenLiteral(Seq<char>),
}

impl View for TokenizerError {
    type V = TokenizerErrorView;

    open spec fn view(&self) -> TokenizerErrorView {
        match self {
            TokenizerError::InvalidCharacters => TokenizerErrorView::InvalidCharacters,
            TokenizerError::UnexpectedCharacter { expected, actual } => {
                TokenizerErrorView::UnexpectedCharacter { expected: *expected, actual: *actual }
            },
            TokenizerError::UnexpectedEndOfInput => TokenizerErrorView::UnexpectedEndOfInput,
            TokenizerError::UnclosedStringLiteral(text) => {
                TokenizerErrorView::UnclosedStringLiteral(text@)
            },
            TokenizerError::UnclosedTokenLiteral(text) => {
                TokenizerErrorView::UnclosedTokenLiteral(text@)
            },
            TokenizerError::WhitespaceInTokenLiteral(text) => {
                TokenizerErrorView::WhitespaceInTokenLiteral(text@)
            },
        }
    }
}

impl Clone for TokenizerError {
    fn clone(&self) -> (copy: Self)
        ensures
            copy@ == self@,
    {
        match self {
            TokenizerError::InvalidCharacters => TokenizerError::InvalidCharacters,
            TokenizerError::UnexpectedCharacter { expected, actual } => {
                TokenizerError::UnexpectedCharacter { expected: *expected, actual: *actual }
            },
            TokenizerError::UnexpectedEndOfInput => TokenizerError::UnexpectedEndOfInput,
            TokenizerError::UnclosedStringLiteral(text) => {
                TokenizerError::UnclosedStringLiteral(text.clone())
            },
            TokenizerError::UnclosedTokenLiteral(text) => {
                TokenizerError::UnclosedTokenLiteral(text.clone())
            },
            TokenizerError::WhitespaceInTokenLiteral(text) => {
                TokenizerError::WhitespaceInTokenLiteral(text.clone())
            },
        }
    }
}

/// An ASCII letter: what an identifier begins with.
pub open spec fn identifier_start(character: char) -> bool {
    ('a' <= character <= 'z') || ('A' <= character <= 'Z')
}

/// A letter, a digit or an underscore: what an identifier goes on with.
pub open spec fn identifier_character(character: char) -> bool {
    identifier_start(character) || ('0' <= character <= '9') || character == '_'
}

/// The ASCII characters that count as whitespace: space, and tab to carriage
/// return.
pub open spec fn whitespace(character: char) -> bool {
    character == ' ' || ('\t' <= character <= '\r')
}

/// Where the line comment that is being read at `pos` ends: behind the next
/// newline, or at the end of the input.
pub open spec fn comment_end(input: Seq<char>, pos: int) -> int
    decreases input.len() - pos,
{
    if 0 <= pos < input.len() {
        if input[pos] == '\n' {
            pos + 1
        } else {
            comment_end(input, pos + 1)
        }
    } else {
        pos
    }
}

/// Where the identifier that is being read at `pos` ends: at the first
/// character that cannot go on an identifier, or at the end of the input.
pub open spec fn identifier_end(input: Seq<char>, pos: int) -> int
    decreases input.len() - pos,
{
    if 0 <= pos < input.len() && identifier_character(input[pos]) {
        identifier_end(input, pos + 1)
    } else {
        pos
    }
}

/// Where the reading of a token literal stops when it has come to `pos`: at
/// the first double quote or whitespace, or at the end of the input.
pub open spec fn literal_end(input: Seq<char>, pos: int) -> int
    decreases input.len() - pos,
{
    if 0 <= pos < input.len() && input[pos] != '"' && !whitespace(input[pos]) {
        literal_end(input, pos + 1)
    } else {
        pos
    }
}

/// Where the reading of a code block stops when it has come to `pos` with
/// `depth` braces open: at the brace that closes the outermost one, or at the
/// end of the input.
pub open spec fn block_end(input: Seq<char>, pos: int, depth: nat) -> int
    decreases input.len() - pos,
{
    if 0 <= pos < input.len() {
        if input[pos] == '}' && depth <= 1 {
            pos
        } else if input[pos] == '}' {
            block_end(input, pos + 1, (depth - 1) as nat)
        } else if input[pos] == '{' {
            block_end(input, pos + 1, depth + 1)
        } else {
            block_end(input, pos + 1, depth)
        }
    } else {
        pos
    }
}

/// `text` without the whitespace at its front.
pub open spec fn trimmed_front(text: Seq<char>) -> Seq<char>
    decreases text.len(),
{
    if text.len() > 0 && whitespace(text[0]) {
        trimmed_front(text.drop_first())
    } else {
        text
    }
}

/// `text` without the whitespace at its back.
pub open spec fn trimmed_back(text: Seq<char>) -> Seq<char>
    decreases text.len(),
{
    if text.len() > 0 && whitespace(text.last()) {
        trimmed_back(text.drop_last())
    } else {
        text
    }
}

/// `text` without the whitespace at either end.
pub open spec fn trimmed(text: Seq<char>) -> Seq<char> {
    trimmed_back(trimmed_front(text))
}

/// What the scanner does at one position of the input.
pub enum ScanStep {
    /// Whitespace or a comment: nothing is emitted, and scanning goes on at
    /// `next`.
    Skip { next: int },
    /// A lexeme: `token` is emitted, and scanning goes on at `next`.
    Emit { token: TokenView, next: int },
    /// A malformed construct: scanning stops.
    Fail { error: TokenizerErrorView },
}

/// What is wrong at `pos` when `expected` has to stand there, if anything.
pub open spec fn mismatch(input: Seq<char>, pos: int, expected: char) -> Option<
    TokenizerErrorView,
> {
    if pos >= input.len() {
        Some(TokenizerErrorView::UnexpectedEndOfInput)
    } else if input[pos] != expected {
        Some(
            TokenizerErrorView::UnexpectedCharacter {
                expected: Some(expected as u8),
                actual: input[pos] as u8,
            },
        )
    } else {
        None
    }
}

/// The step that the scanner takes at `pos`, a position inside the input.
pub open spec fn scan_step(input: Seq<char>, pos: int) -> ScanStep
    recommends
        0 <= pos < input.len(),
{
    let character = input[pos];
    if character == ':' {
        ScanStep::Emit { token: TokenView::Colon, next: pos + 1 }
    } else if character == '|' {
        ScanStep::Emit { token: TokenView::Pipe, next: pos + 1 }
    } else if character == '=' {
        ScanStep::Emit { token: TokenView::Equals, next: pos + 1 }
    } else if character == ';' {
        ScanStep::Emit { token: TokenView::Semicolon, next: pos + 1 }
    } else if character == '-' {
        match mismatch(input, pos + 1, '>') {
            Some(error) => ScanStep::Fail { error },
            None => ScanStep::Emit { token: TokenView::Arrow, next: pos + 2 },
        }
    } else if character == '/' {
        match mismatch(input, pos + 1, '/') {
            Some(error) => ScanStep::Fail { error },
            None => ScanStep::Skip { next: comment_end(input, pos + 2) },
        }
    } else if character == '"' {
        let end = literal_end(input, pos + 1);
        let contents = input.subrange(pos + 1, end);
        if end >= input.len() {
            ScanStep::Fail { error: TokenizerErrorView::UnclosedTokenLiteral(contents) }
        } else if input[end] == '"' {
            ScanStep::Emit { token: TokenView::TokenLiteral(contents), next: end + 1 }
        } else {
            ScanStep::Fail { error: TokenizerErrorView::WhitespaceInTokenLiteral(contents) }
        }
    } else if character == '{' {
        let end = block_end(input, pos + 1, 1);
        let contents = input.subrange(pos + 1, end);
        if end >= input.len() {
            ScanStep::Fail { error: TokenizerErrorView::UnclosedStringLiteral(contents) }
        } else {
            ScanStep::Emit { token: TokenView::StringLiteral(trimmed(contents)), next: end + 1 }
        }
    } else if identifier_start(character) {
        let end = identifier_end(input, pos + 1);
        ScanStep::Emit { token: TokenView::Identifier(input.subrange(pos, end)), next: end }
    } else if whitespace(character) {
        ScanStep::Skip { next: pos + 1 }
    } else {
        ScanStep::Fail {
            error: TokenizerErrorView::UnexpectedCharacter {
                expected: None,
                actual: character as u8,
            },
        }
    }
}

/// `tokens` put in front of what `rest` holds; an error stays as it is.
pub open spec fn tokens_then(
    tokens: Seq<TokenView>,
    rest: Result<Seq<TokenView>, TokenizerErrorView>,
) -> Result<Seq<TokenView>, TokenizerErrorView> {
    match rest {
        Ok(more) => Ok(tokens + more),
        Err(error) => Err(error),
    }
}

/// The tokens of `input` from `pos` on, in the order of their lexemes, or the
/// first error met.
pub open spec fn scan_from(input: Seq<char>, pos: int) -> Result<
    Seq<TokenView>,
    TokenizerErrorView,
>
    decreases input.len() - pos,
{
    if 0 <= pos < input.len() {
        match scan_step(input, pos) {
            ScanStep::Skip { next } => {
                if pos < next <= input.len() {
                    scan_from(input, next)
                } else {
                    Ok(Seq::empty())
                }
            },
            ScanStep::Emit { token, next } => {
                if pos < next <= input.len() {
                    tokens_then(seq![token], scan_from(input, next))
                } else {
                    Ok(Seq::empty())
                }
            },
            ScanStep::Fail { error } => Err(error),
        }
    } else {
        Ok(Seq::empty())
    }
}

/// What [`tokenize`] returns on `input`.
pub open spec fn scan(input: Seq<char>) -> Result<Seq<TokenView>, TokenizerErrorView> {
    if vstd::utf8::is_ascii_chars(input) {
        scan_from(input, 0)
    } else {
        Err(TokenizerErrorView::InvalidCharacters)
    }
}

/// The mathematical value of what [`tokenize`] returns.
pub open spec fn outcome(result: Result<Vec<Token>, TokenizerError>) -> Result<
    Seq<TokenView>,
    TokenizerErrorView,
> {
    match result {
        Ok(tokens) => Ok(tokens.deep_view()),
        Err(error) => Err(error@),
    }
}

/// Whether `character` is an ASCII letter.
pub fn is_identifier_start(character: u8) -> (result: bool)
    ensures
        result == identifier_start(character as char),
{
    (0x61 <= character && character <= 0x7a) || (0x41 <= character && character <= 0x5a)
}

/// Whether `character` is an ASCII letter, a digit or an underscore.
pub fn is_identifier_character(character: u8) -> (result: bool)
    ensures
        result == identifier_character(character as char),
{
    is_identifier_start(character) || (0x30 <= character && character <= 0x39) || character
        == UNDERSCORE
}

/// Whether `character` is ASCII whitespace: a space, or one of tab, line
/// feed, vertical tab, form feed and carriage return.
pub fn is_whitespace(character: u8) -> (result: bool)
    ensures
        result == whitespace(character as char),
{
    character == 0x20 || (0x09 <= character && character <= 0x0d)
}

/// The end of a comment lies between where its reading stands and the end of
/// the input.
pub proof fn lemma_comment_end_bounds(input: Seq<char>, pos: int)
    requires
        0 <= pos <= input.len(),
    ensures
        pos <= comment_end(input, pos) <= input.len(),
    decreases input.len() - pos,
{
    if pos < input.len() && input[pos] != '\n' {
        lemma_comment_end_bounds(input, pos + 1);
    }
}

/// The end of an identifier lies between where its reading stands and the end
/// of the input.
pub proof fn lemma_identifier_end_bounds(input: Seq<char>, pos: int)
    requires
        0 <= pos <= input.len(),
    ensures
        pos <= identifier_end(input, pos) <= input.len(),
    decreases input.len() - pos,
{
    if pos < input.len() && identifier_character(input[pos]) {
        lemma_identifier_end_bounds(input, pos + 1);
    }
}

/// The reading of a token literal stops between where it stands and the end
/// of the input.
pub proof fn lemma_literal_end_bounds(input: Seq<char>, pos: int)
    requires
        0 <= pos <= input.len(),
    ensures
        pos <= literal_end(input, pos) <= input.len(),
    decreases input.len() - pos,
{
    if pos < input.len() && input[pos] != '"' && !whitespace(input[pos]) {
        lemma_literal_end_bounds(input, pos + 1);
    }
}

/// The reading of a code block stops between where it stands and the end of
/// the input.
pub proof fn lemma_block_end_bounds(input: Seq<char>, pos: int, depth: nat)
    requires
        0 <= pos <= input.len(),
    ensures
        pos <= block_end(input, pos, depth) <= input.len(),
    decreases input.len() - pos,
{
    if pos < input.len() {
        if input[pos] == '}' && depth <= 1 {
        } else if input[pos] == '}' {
            lemma_block_end_bounds(input, pos + 1, (depth - 1) as nat);
        } else if input[pos] == '{' {
            lemma_block_end_bounds(input, pos + 1, depth + 1);
        } else {
            lemma_block_end_bounds(input, pos + 1, depth);
        }
    }
}

/// Every step inside the input ends behind where it began, and inside the
/// input.
pub proof fn lemma_scan_step_advances(input: Seq<char>, pos: int)
    requires
        0 <= pos < input.len(),
    ensures
        match scan_step(input, pos) {
            ScanStep::Skip { next } => pos < next <= input.len(),
            ScanStep::Emit { token, next } => pos < next <= input.len(),
            ScanStep::Fail { error } => true,
        },
{
    if pos + 2 <= input.len() {
        lemma_comment_end_bounds(input, pos + 2);
    }
    lemma_identifier_end_bounds(input, pos + 1);
    lemma_literal_end_bounds(input, pos + 1);
    lemma_block_end_bounds(input, pos + 1, 1);
}

/// `text` without the whitespace at either end.
pub fn trim(text: &str) -> (result: &str)
    requires
        text.is_ascii(),
    ensures
        result@ == trimmed(text@),
        result.is_ascii(),
{
    let length = text.as_bytes().len();
    proof {
        vstd::string::is_ascii_spec_bytes(text);
        assert(text@.subrange(0, length as int) == text@);
    }
    let mut start: usize = 0;
    while start < length && is_whitespace(text.get_ascii(start))
        invariant
            text.is_ascii(),
            length == text@.len(),
            start <= length,
            trimmed_front(text@) == trimmed_front(text@.subrange(start as int, length as int)),
        decreases length - start,
    {
        proof {
            let rest = text@.subrange(start as int, length as int);
            assert(rest.drop_first() == text@.subrange(start + 1, length as int));
        }
        start += 1;
    }
    let mut end: usize = length;
    while end > start && is_whitespace(text.get_ascii(end - 1))
        invariant
            text.is_ascii(),
            length == text@.len(),
            start <= end <= length,
            trimmed_back(text@.subrange(start as int, length as int)) == trimmed_back(
                text@.subrange(start as int, end as int),
            ),
        decreases end - start,
    {
        proof {
            let rest = text@.subrange(start as int, end as int);
            assert(rest.drop_last() == text@.subrange(start as int, end - 1));
        }
        end -= 1;
    }
    text.substring_ascii(start, end)
}

/// A cursor over ASCII text.
pub struct Scanner<'a> {
    pub input: &'a str,
    pub index: usize,
}

impl<'a> Scanner<'a> {
    /// The text is ASCII and the cursor stands inside it or at its end.
    pub open spec fn well_formed(&self) -> bool {
        self.input.is_ascii() && self.index <= self.input@.len()
    }

    /// The tokens of `input`, or the first error met.
    pub fn tokenize(input: &'a str) -> (result: Result<Vec<Token>, TokenizerError>)
        requires
            input.is_ascii(),
        ensures
            outcome(result) == scan_from(input@, 0),
    {
        let mut scanner = Scanner { input, index: 0 };
        let mut tokens: Vec<Token> = Vec::new();
        proof {
            assert(tokens.deep_view() == Seq::<TokenView>::empty());
            lemma_none_before(scan_from(input@, 0));
        }
        while !scanner.is_end_of_input()
            invariant
                scanner.input == input,
                scanner.well_formed(),
                scan_from(input@, 0) == tokens_then(
                    tokens.deep_view(),
                    scan_from(input@, scanner.index as int),
                ),
            decreases input@.len() - scanner.index,
        {
            let ghost pos = scanner.index as int;
            let ghost before = tokens.deep_view();
            proof {
                lemma_scan_step_advances(input@, pos);
            }
            let current = scanner.current();
            if current == COLON {
                scanner.next();
                tokens.push(Token::Colon);
                proof {
                    lemma_emitted(input@, pos, before);
                    assert(tokens.deep_view() == before.push(TokenView::Colon));
                }
            } else if current == PIPE {
                scanner.next();
                tokens.push(Token::Pipe);
                proof {
                    lemma_emitted(input@, pos, before);
                    assert(tokens.deep_view() == before.push(TokenView::Pipe));
                }
            } else if current == EQUALS {
                scanner.next();
                tokens.push(Token::Equals);
                proof {
                    lemma_emitted(input@, pos, before);
                    assert(tokens.deep_view() == before.push(TokenView::Equals));
                }
            } else if current == SEMICOLON {
                scanner.next();
                tokens.push(Token::Semicolon);
                proof {
                    lemma_emitted(input@, pos, before);
                    assert(tokens.deep_view() == before.push(TokenView::Semicolon));
                }
            } else if current == MINUS {
                scanner.next();
                match scanner.consume(GREATER_THAN) {
                    Err(error) => {
                        return Err(error);
                    },
                    Ok(()) => {},
                }
                tokens.push(Token::Arrow);
                proof {
                    lemma_emitted(input@, pos, before);
                    assert(tokens.deep_view() == before.push(TokenView::Arrow));
                }
            } else if current == SLASH {
                scanner.next();
                match scanner.consume(SLASH) {
                    Err(error) => {
                        return Err(error);
                    },
                    Ok(()) => {},
                }
                while !scanner.is_end_of_input() && scanner.current() != NEWLINE
                    invariant
                        scanner.input == input,
                        scanner.well_formed(),
                        pos + 2 <= scanner.index,
                        comment_end(input@, pos + 2) == comment_end(input@, scanner.index as int),
                    decreases input@.len() - scanner.index,
                {
                    scanner.next();
                }
                if !scanner.is_end_of_input() {
                    scanner.next();
                }
            } else if current == QUOTE {
                scanner.next();
                let starting_index = scanner.index;
                while !scanner.is_end_of_input() && scanner.current() != QUOTE
                    invariant
                        scanner.input == input,
                        scanner.well_formed(),
                        starting_index == pos + 1,
                        starting_index <= scanner.index,
                        0 <= pos < input@.len(),
                        input@[pos] == '"',
                        literal_end(input@, pos + 1) == literal_end(input@, scanner.index as int),
                        scan_from(input@, 0) == tokens_then(
                            tokens.deep_view(),
                            scan_from(input@, pos),
                        ),
                    decreases input@.len() - scanner.index,
                {
                    if is_whitespace(scanner.current()) {
                        return Err(
                            TokenizerError::WhitespaceInTokenLiteral(
                                scanner.substring_until_current(starting_index),
                            ),
                        );
                    }
                    scanner.next();
                }
                if scanner.is_end_of_input() {
                    return Err(
                        TokenizerError::UnclosedTokenLiteral(
                            scanner.substring_until_current(starting_index),
                        ),
                    );
                }
                let contents = scanner.substring_until_current(starting_index);
                scanner.next();
                let token = Token::TokenLiteral(contents);
                proof {
                    lemma_emitted(input@, pos, before);
                    assert(before.push(token@) == before + seq![token@]);
                }
                tokens.push(token);
                assert(tokens.deep_view() == before.push(tokens@.last()@));
            } else if current == LEFT_BRACE {
                scanner.next();
                let starting_index = scanner.index;
                let mut nesting_level: usize = 1;
                while !scanner.is_end_of_input() && !(nesting_level == 1 && scanner.current()
                    == RIGHT_BRACE)
                    invariant
                        scanner.input == input,
                        scanner.well_formed(),
                        starting_index == pos + 1,
                        starting_index <= scanner.index,
                        0 <= pos,
                        1 <= nesting_level <= scanner.index - pos,
                        block_end(input@, pos + 1, 1) == block_end(
                            input@,
                            scanner.index as int,
                            nesting_level as nat,
                        ),
                    decreases input@.len() - scanner.index,
                {
                    let character = scanner.current();
                    scanner.next();
                    if character == LEFT_BRACE {
                        nesting_level += 1;
                    } else if character == RIGHT_BRACE {
                        nesting_level -= 1;
                    }
                }
                if scanner.is_end_of_input() {
                    return Err(
                        TokenizerError::UnclosedStringLiteral(
                            scanner.substring_until_current(starting_index),
                        ),
                    );
                }
                let contents = scanner.substring_until_current(starting_index);
                scanner.next();
                let token = Token::StringLiteral(trim(contents.as_str()).to_owned());
                proof {
                    lemma_emitted(input@, pos, before);
                }
                tokens.push(token);
                assert(tokens.deep_view() == before.push(tokens@.last()@));
            } else if is_identifier_start(current) {
                let starting_index = scanner.index;
                scanner.next();
                while !scanner.is_end_of_input() && is_identifier_character(scanner.current())
                    invariant
                        scanner.input == input,
                        scanner.well_formed(),
                        starting_index == pos,
                        starting_index < scanner.index,
                        identifier_end(input@, pos + 1) == identifier_end(
                            input@,
                            scanner.index as int,
                        ),
                    decreases input@.len() - scanner.index,
                {
                    scanner.next();
                }
                let token = Token::Identifier(scanner.substring_until_current(starting_index));
                proof {
                    lemma_emitted(input@, pos, before);
                }
                tokens.push(token);
                assert(tokens.deep_view() == before.push(tokens@.last()@));
            } else if is_whitespace(current) {
                scanner.next();
            } else {
                return Err(TokenizerError::UnexpectedCharacter { expected: None, actual: current });
            }
        }
        assert(tokens.deep_view() + Seq::<TokenView>::empty() == tokens.deep_view());
        Ok(tokens)
    }

    /// Whether the cursor stands at the end of the text.
    pub fn is_end_of_input(&self) -> (result: bool)
        requires
            self.input.is_ascii(),
        ensures
            result == (self.index >= self.input@.len()),
    {
        proof {
            vstd::string::is_ascii_spec_bytes(self.input);
        }
        self.index >= self.input.as_bytes().len()
    }

    /// The character under the cursor.
    pub fn current(&self) -> (character: u8)
        requires
            self.input.is_ascii(),
            self.index < self.input@.len(),
        ensures
            character == self.input@[self.index as int] as u8,
    {
        self.input.get_ascii(self.index)
    }

    /// Moves the cursor one character on.
    pub fn next(&mut self)
        requires
            old(self).input.is_ascii(),
            old(self).index < old(self).input@.len(),
        ensures
            final(self).input == old(self).input,
            final(self).index == old(self).index + 1,
    {
        self.advance(1)
    }

    /// Moves the cursor `amount` characters on.
    pub fn advance(&mut self, amount: usize)
        requires
            old(self).input.is_ascii(),
            old(self).index + amount <= old(self).input@.len(),
        ensures
            final(self).input == old(self).input,
            final(self).index == old(self).index + amount,
    {
        let length = self.input.as_bytes().len();
        proof {
            vstd::string::is_ascii_spec_bytes(self.input);
        }
        assert(self.index + amount <= length);
        self.index += amount
    }

    /// Moves past `expected` if it stands under the cursor, and says what
    /// stands there instead if it does not.
    pub fn consume(&mut self, expected: u8) -> (result: Result<(), TokenizerError>)
        requires
            old(self).well_formed(),
        ensures
            final(self).input == old(self).input,
            match result {
                Ok(()) => {
                    &&& old(self).index < old(self).input@.len()
                    &&& old(self).input@[old(self).index as int] as u8 == expected
                    &&& final(self).index == old(self).index + 1
                },
                Err(error) => {
                    &&& final(self).index == old(self).index
                    &&& if old(self).index >= old(self).input@.len() {
                        error@ == TokenizerErrorView::UnexpectedEndOfInput
                    } else {
                        &&& old(self).input@[old(self).index as int] as u8 != expected
                        &&& error@ == (TokenizerErrorView::UnexpectedCharacter {
                            expected: Some(expected),
                            actual: old(self).input@[old(self).index as int] as u8,
                        })
                    }
                },
            },
    {
        if self.is_end_of_input() {
            return Err(TokenizerError::UnexpectedEndOfInput);
        }
        let actual = self.current();
        if actual != expected {
            return Err(TokenizerError::UnexpectedCharacter { expected: Some(expected), actual });
        }
        self.next();
        Ok(())
    }

    /// The text from `starting_index` up to the cursor.
    pub fn substring_until_current(&self, starting_index: usize) -> (text: String)
        requires
            self.well_formed(),
            starting_index <= self.index,
        ensures
            text@ == self.input@.subrange(starting_index as int, self.index as int),
    {
        self.input.substring_ascii(starting_index, self.index).to_owned()
    }
}

/// With no tokens in front, what follows stays as it is.
proof fn lemma_none_before(rest: Result<Seq<TokenView>, TokenizerErrorView>)
    ensures
        tokens_then(Seq::empty(), rest) == rest,
{
    match rest {
        Ok(more) => {
            assert(Seq::<TokenView>::empty() + more == more);
        },
        Err(error) => {},
    }
}

/// A token emitted at `pos` goes behind those emitted before it.
proof fn lemma_emitted(input: Seq<char>, pos: int, before: Seq<TokenView>)
    requires
        0 <= pos < input.len(),
        scan_step(input, pos) is Emit,
    ensures
        tokens_then(before, scan_from(input, pos)) == tokens_then(
            before.push(scan_step(input, pos)->token),
            scan_from(input, scan_step(input, pos)->Emit_next),
        ),
{
    lemma_scan_step_advances(input, pos);
    let token = scan_step(input, pos)->token;
    let next = scan_step(input, pos)->Emit_next;
    match scan_from(input, next) {
        Ok(more) => {
            assert(before + (seq![token] + more) == before.push(token) + more);
        },
        Err(error) => {},
    }
}

/// The tokens of `input` in the order of their lexemes, or the first error
/// met; text that is not ASCII is refused as a whole.
pub fn tokenize(input: &str) -> (result: Result<Vec<Token>, TokenizerError>)
    ensures
        outcome(result) == scan(input@),
{
    if input.is_ascii() {
        Scanner::tokenize(input)
    } else {
        Err(TokenizerError::InvalidCharacters)
    }
}

} // verus!

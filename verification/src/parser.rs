//! The parser: tokens in, constants and rulesets out.
//!
//! What the parser produces is defined by [`parse_tokens`], a function on the
//! values of the tokens. [`Parser::parse`] and [`GeneratorData::from_tokens`]
//! are proved to compute exactly that.

use crate::parser_lemmas::{lemma_constant_names_are_valid, lemma_order_lists_each_ruleset};
use crate::scanner::{Token, TokenView};
use vstd::hash_map::StringHashMap;
use vstd::prelude::*;

verus! {

/// Why parsing stopped.
#[derive(Debug, PartialEq, Eq)]
pub enum ParserError {
    /// `actual` stands where a token of the kind `expected` had to stand;
    /// without `actual`, the tokens ended there.
    UnexpectedToken { expected: &'static str, actual: Option<Token> },
    /// A constant is declared under a name that is not one of the constants.
    UnknownConstantName(String),
    /// Kept for a reading that refuses an alternative without symbols.
    EmptyProduction,
    /// Kept for a reading that tells a missing code block from other tokens.
    MissingCodeBlock,
    /// A left-hand side comes back after another one has followed it.
    InvalidRuleOrder,
}

/// The mathematical value of a [`ParserError`].
pub enum ParserErrorView {
    UnexpectedToken { expected: Seq<char>, actual: Option<TokenView> },
    UnknownConstantName(Seq<char>),
    EmptyProduction,
    MissingCodeBlock,
    InvalidRuleOrder,
}

impl View for ParserError {
    type V = ParserErrorView;

    open spec fn view(&self) -> ParserErrorView {
        match self {
            ParserError::UnexpectedToken { expected, actual } => ParserErrorView::UnexpectedToken {
                expected: expected@,
                actual: actual.deep_view(),
            },
            ParserError::UnknownConstantName(name) => ParserErrorView::UnknownConstantName(name@),
            ParserError::EmptyProduction => ParserErrorView::EmptyProduction,
            ParserError::MissingCodeBlock => ParserErrorView::MissingCodeBlock,
            ParserError::InvalidRuleOrder => ParserErrorView::InvalidRuleOrder,
        }
    }
}

impl Clone for ParserError {
    fn clone(&self) -> (copy: Self)
        ensures
            copy@ == self@,
    {
        match self {
            ParserError::UnexpectedToken { expected, actual } => {
                let actual = match actual {
                    Some(token) => Some(token.clone()),
                    None => None,
                };
                ParserError::UnexpectedToken { expected, actual }
            },
            ParserError::UnknownConstantName(name) => ParserError::UnknownConstantName(
                name.clone(),
            ),
            ParserError::EmptyProduction => ParserError::EmptyProduction,
            ParserError::MissingCodeBlock => ParserError::MissingCodeBlock,
            ParserError::InvalidRuleOrder => ParserError::InvalidRuleOrder,
        }
    }
}

/// What stands on the right-hand side of a rule: the name of a token, or the
/// name of a rule.
#[derive(Debug, PartialEq, Eq)]
pub enum Symbol {
    Terminal { token: String },
    NonTerminal { name: String },
}

/// The mathematical value of a [`Symbol`].
pub enum SymbolView {
    Terminal { token: Seq<char> },
    NonTerminal { name: Seq<char> },
}

impl View for Symbol {
    type V = SymbolView;

    open spec fn view(&self) -> SymbolView {
        match self {
            Symbol::Terminal { token } => SymbolView::Terminal { token: token@ },
            Symbol::NonTerminal { name } => SymbolView::NonTerminal { name: name@ },
        }
    }
}

impl DeepView for Symbol {
    type V = SymbolView;

    open spec fn deep_view(&self) -> SymbolView {
        self@
    }
}

impl Clone for Symbol {
    fn clone(&self) -> (copy: Self)
        ensures
            copy@ == self@,
    {
        match self {
            Symbol::Terminal { token } => Symbol::Terminal { token: token.clone() },
            Symbol::NonTerminal { name } => Symbol::NonTerminal { name: name.clone() },
        }
    }
}

/// How a symbol is written out: its kind, and its text between parentheses.
pub open spec fn symbol_text(symbol: SymbolView) -> Seq<char> {
    match symbol {
        SymbolView::Terminal { token } => "Terminal("@ + token + ")"@,
        SymbolView::NonTerminal { name } => "NonTerminal("@ + name + ")"@,
    }
}

impl Symbol {
    /// This symbol written out: its kind, and its text between parentheses.
    pub fn to_text(&self) -> (text: String)
        ensures
            text@ == symbol_text(self@),
    {
        match self {
            Symbol::Terminal { token } => {
                let mut text = String::from_str("Terminal(");
                text.append(token.as_str());
                text.append(")");
                text
            },
            Symbol::NonTerminal { name } => {
                let mut text = String::from_str("NonTerminal(");
                text.append(name.as_str());
                text.append(")");
                text
            },
        }
    }
}

/// A symbol with the name that the code block knows it by, if it has one.
pub type AliasedSymbolView = (SymbolView, Option<Seq<char>>);

/// One alternative of a rule.
#[derive(Debug, PartialEq, Eq)]
pub enum RuleRhs {
    /// The rule stands for another rule, and has no code.
    Proxy { symbol: Symbol },
    /// A sequence of symbols, with the code of its group.
    WithCode { symbols: Vec<(Symbol, Option<String>)>, code: String },
}

/// The mathematical value of a [`RuleRhs`].
pub enum RuleRhsView {
    Proxy { symbol: SymbolView },
    WithCode { symbols: Seq<AliasedSymbolView>, code: Seq<char> },
}

impl View for RuleRhs {
    type V = RuleRhsView;

    open spec fn view(&self) -> RuleRhsView {
        match self {
            RuleRhs::Proxy { symbol } => RuleRhsView::Proxy { symbol: symbol@ },
            RuleRhs::WithCode { symbols, code } => RuleRhsView::WithCode {
                symbols: symbols.deep_view(),
                code: code@,
            },
        }
    }
}

impl DeepView for RuleRhs {
    type V = RuleRhsView;

    open spec fn deep_view(&self) -> RuleRhsView {
        self@
    }
}

/// How `text` is written out by the `Debug` formatting of `str`: between
/// double quotes, with escapes for what cannot stand there as it is.
pub uninterp spec fn debug_quoted(text: Seq<char>) -> Seq<char>;

/// `text` as the `Debug` formatting of `str` writes it out. The result is a
/// function of the text alone, and is known by the name [`debug_quoted`] only.
#[verifier::external_body]
fn quoted(text: &str) -> (result: String)
    ensures
        result@ == debug_quoted(text@),
{
    format!("{:?}", text)
}

/// How symbols are written out: one behind the other, their aliases left
/// out.
pub open spec fn symbols_text(symbols: Seq<AliasedSymbolView>) -> Seq<char>
    decreases symbols.len(),
{
    if symbols.len() == 0 {
        Seq::empty()
    } else {
        symbols_text(symbols.drop_last()) + symbol_text(symbols.last().0)
    }
}

/// How an alternative is written out when its code is written as
/// `quoted_code`: a proxy as its symbol; symbols with code as the symbols, a
/// space and the code.
pub open spec fn rule_text_with(rule: RuleRhsView, quoted_code: Seq<char>) -> Seq<char> {
    match rule {
        RuleRhsView::Proxy { symbol } => symbol_text(symbol),
        RuleRhsView::WithCode { symbols, code } => symbols_text(symbols) + " "@ + quoted_code,
    }
}

/// How an alternative is written out, its code as [`debug_quoted`] gives it.
pub open spec fn rule_text(rule: RuleRhsView) -> Seq<char> {
    match rule {
        RuleRhsView::Proxy { symbol } => symbol_text(symbol),
        RuleRhsView::WithCode { symbols, code } => rule_text_with(rule, debug_quoted(code)),
    }
}

impl RuleRhs {
    /// This alternative written out, its code as `quoted_code`.
    pub fn to_text_with(&self, quoted_code: &str) -> (text: String)
        ensures
            text@ == rule_text_with(self@, quoted_code@),
    {
        match self {
            RuleRhs::Proxy { symbol } => symbol.to_text(),
            RuleRhs::WithCode { symbols, code } => {
                let mut text = String::new();
                let mut index: usize = 0;
                assert(symbols.deep_view().take(0) == Seq::<AliasedSymbolView>::empty());
                while index < symbols.len()
                    invariant
                        index <= symbols.len(),
                        text@ == symbols_text(symbols.deep_view().take(index as int)),
                    decreases symbols.len() - index,
                {
                    let symbol = symbols[index].0.to_text();
                    proof {
                        let read = symbols.deep_view().take(index + 1);
                        assert(read.drop_last() == symbols.deep_view().take(index as int));
                        assert(read.last().0 == symbols[index as int].0@);
                    }
                    text.append(symbol.as_str());
                    index += 1;
                }
                assert(symbols.deep_view().take(index as int) == symbols.deep_view());
                text.append(" ");
                text.append(quoted_code);
                text
            },
        }
    }

    /// This alternative written out: a proxy as its symbol; symbols with code
    /// as the symbols, a space and the code between double quotes.
    pub fn to_text(&self) -> (text: String)
        ensures
            text@ == rule_text(self@),
    {
        match self {
            RuleRhs::Proxy { symbol } => symbol.to_text(),
            RuleRhs::WithCode { symbols, code } => {
                let quoted_code = quoted(code.as_str());
                self.to_text_with(quoted_code.as_str())
            },
        }
    }
}

/// The alternatives of one left-hand side, in the order in which they were
/// written.
pub type Ruleset = Vec<RuleRhs>;

/// The values of `constants` as text.
pub open spec fn text_values(constants: Map<Seq<char>, String>) -> Map<Seq<char>, Seq<char>> {
    constants.map_values(|value: String| value@)
}

/// The values of `rulesets` as sequences of alternatives.
pub open spec fn rule_values(rulesets: Map<Seq<char>, Ruleset>) -> Map<
    Seq<char>,
    Seq<RuleRhsView>,
> {
    rulesets.map_values(|rules: Ruleset| rules.deep_view())
}

/// The rulesets of a grammar: each left-hand side with its alternatives, and
/// the left-hand sides in the order in which they were first written.
pub struct Rulesets {
    pub by_name: StringHashMap<Ruleset>,
    pub order: Vec<String>,
}

/// The mathematical value of a [`Rulesets`].
pub struct RulesetsView {
    pub by_name: Map<Seq<char>, Seq<RuleRhsView>>,
    pub order: Seq<Seq<char>>,
}

impl RulesetsView {
    /// No rulesets.
    pub open spec fn empty() -> RulesetsView {
        RulesetsView { by_name: Map::empty(), order: Seq::empty() }
    }

    /// These rulesets with `rules` added behind what `name` has. A `name`
    /// that had no ruleset goes behind the others in the order.
    pub open spec fn with_group(self, name: Seq<char>, rules: Seq<RuleRhsView>) -> RulesetsView {
        if self.by_name.contains_key(name) {
            RulesetsView {
                by_name: self.by_name.insert(name, self.by_name[name] + rules),
                order: self.order,
            }
        } else {
            RulesetsView { by_name: self.by_name.insert(name, rules), order: self.order.push(name) }
        }
    }

    /// `order` lists each left-hand side that has a ruleset, once, and no
    /// ruleset is empty.
    pub open spec fn well_formed(self) -> bool {
        &&& self.order.no_duplicates()
        &&& forall|name: Seq<char>| self.order.contains(name) <==> self.by_name.contains_key(name)
        &&& forall|name: Seq<char>| #[trigger]
            self.by_name.contains_key(name) ==> self.by_name[name].len() > 0
    }
}

impl View for Rulesets {
    type V = RulesetsView;

    open spec fn view(&self) -> RulesetsView {
        RulesetsView { by_name: rule_values(self.by_name@), order: self.order.deep_view() }
    }
}

impl Rulesets {
    /// The alternatives of the left-hand side `name`, if it has any.
    pub fn get(&self, name: &str) -> (rules: Option<&Ruleset>)
        ensures
            match rules {
                Some(rules) => self@.by_name.contains_key(name@) && rules.deep_view()
                    == self@.by_name[name@],
                None => !self@.by_name.contains_key(name@),
            },
    {
        self.by_name.get(name)
    }
}

/// What a grammar description holds: its constants and its rulesets.
pub struct GeneratorData {
    pub constants: StringHashMap<String>,
    pub rulesets: Rulesets,
}

impl View for GeneratorData {
    type V = GeneratorDataView;

    open spec fn view(&self) -> GeneratorDataView {
        GeneratorDataView { constants: text_values(self.constants@), rulesets: self.rulesets@ }
    }
}

/// The mathematical value of a [`GeneratorData`].
pub struct GeneratorDataView {
    pub constants: Map<Seq<char>, Seq<char>>,
    pub rulesets: RulesetsView,
}

impl GeneratorDataView {
    /// Each constant has one of the names of the constants, and the rulesets
    /// are well-formed.
    pub open spec fn well_formed(self) -> bool {
        &&& forall|name: Seq<char>| #[trigger]
            self.constants.contains_key(name) ==> valid_constant_name(name)
        &&& self.rulesets.well_formed()
    }
}

/// The label of an identifier in an [`ParserError::UnexpectedToken`].
pub open spec fn identifier_label() -> Seq<char> {
    "identifier"@
}

/// The label of a code block in an [`ParserError::UnexpectedToken`].
pub open spec fn string_literal_label() -> Seq<char> {
    "string literal"@
}

/// The label of a semicolon in an [`ParserError::UnexpectedToken`].
pub open spec fn semicolon_label() -> Seq<char> {
    "semicolon"@
}

/// The name of the constant that holds what a rule returns by default.
pub const DEFAULT_RETURN_VALUE: &'static str = "DEFAULT_RETURN_VALUE";

/// The name of the constant that holds code for the whole generated parser.
pub const GLOBAL_CODE: &'static str = "GLOBAL_CODE";

/// The names under which a constant can be declared.
pub open spec fn valid_constant_name(name: Seq<char>) -> bool {
    name == DEFAULT_RETURN_VALUE@ || name == GLOBAL_CODE@
}

/// The token at `pos`, if `pos` lies inside `tokens`.
pub open spec fn token_at(tokens: Seq<TokenView>, pos: int) -> Option<TokenView> {
    if 0 <= pos < tokens.len() {
        Some(tokens[pos])
    } else {
        None
    }
}

/// The symbol that the token at `pos` stands for, if it stands for one.
pub open spec fn symbol_at(tokens: Seq<TokenView>, pos: int) -> Option<SymbolView> {
    match token_at(tokens, pos) {
        Some(TokenView::Identifier(name)) => Some(SymbolView::NonTerminal { name }),
        Some(TokenView::TokenLiteral(token)) => Some(SymbolView::Terminal { token }),
        _ => None,
    }
}

/// `symbols` put in front of the symbols that `rest` holds.
pub open spec fn symbols_then(
    symbols: Seq<AliasedSymbolView>,
    rest: Result<(Seq<AliasedSymbolView>, int), ParserErrorView>,
) -> Result<(Seq<AliasedSymbolView>, int), ParserErrorView> {
    match rest {
        Ok((more, next)) => Ok((symbols + more, next)),
        Err(error) => Err(error),
    }
}

/// The alternative that begins at `pos`: its symbols, each with its alias,
/// up to the first token that is neither an identifier nor a token literal,
/// and the position of that token.
pub open spec fn alternative_from(tokens: Seq<TokenView>, pos: int) -> Result<
    (Seq<AliasedSymbolView>, int),
    ParserErrorView,
>
    decreases tokens.len() - pos,
{
    match symbol_at(tokens, pos) {
        None => Ok((Seq::empty(), pos)),
        Some(symbol) => {
            if token_at(tokens, pos + 1) == Some(TokenView::Colon) {
                match token_at(tokens, pos + 2) {
                    Some(TokenView::Identifier(alias)) => symbols_then(
                        seq![(symbol, Some(alias))],
                        alternative_from(tokens, pos + 3),
                    ),
                    actual => Err(
                        ParserErrorView::UnexpectedToken { expected: identifier_label(), actual },
                    ),
                }
            } else {
                symbols_then(seq![(symbol, None)], alternative_from(tokens, pos + 1))
            }
        },
    }
}

/// `alternatives` put in front of the alternatives that `rest` holds.
pub open spec fn alternatives_then(
    alternatives: Seq<Seq<AliasedSymbolView>>,
    rest: Result<(Seq<Seq<AliasedSymbolView>>, int), ParserErrorView>,
) -> Result<(Seq<Seq<AliasedSymbolView>>, int), ParserErrorView> {
    match rest {
        Ok((more, next)) => Ok((alternatives + more, next)),
        Err(error) => Err(error),
    }
}

/// The alternatives that begin at `pos`, one or more with a pipe between
/// each two, and the position behind the last.
pub open spec fn alternatives_from(tokens: Seq<TokenView>, pos: int) -> Result<
    (Seq<Seq<AliasedSymbolView>>, int),
    ParserErrorView,
>
    decreases tokens.len() - pos,
{
    match alternative_from(tokens, pos) {
        Err(error) => Err(error),
        Ok((first, next)) => {
            if pos <= next && token_at(tokens, next) == Some(TokenView::Pipe) {
                alternatives_then(seq![first], alternatives_from(tokens, next + 1))
            } else {
                Ok((seq![first], next))
            }
        },
    }
}

/// Each of `alternatives` with `code`.
pub open spec fn with_code(alternatives: Seq<Seq<AliasedSymbolView>>, code: Seq<char>) -> Seq<
    RuleRhsView,
> {
    Seq::new(
        alternatives.len(),
        |i: int| RuleRhsView::WithCode { symbols: alternatives[i], code },
    )
}

/// What follows the arrow of a rule group, from `pos`: the one bare
/// non-terminal and semicolon of a proxy rule, or alternatives, their code
/// block and a semicolon; and the position behind the semicolon.
pub open spec fn group_from(tokens: Seq<TokenView>, pos: int) -> Result<
    (Seq<RuleRhsView>, int),
    ParserErrorView,
> {
    if token_at(tokens, pos) is Some && token_at(tokens, pos)->Some_0 is Identifier && token_at(
        tokens,
        pos + 1,
    ) == Some(TokenView::Semicolon) {
        Ok(
            (
                seq![
                    RuleRhsView::Proxy {
                        symbol: SymbolView::NonTerminal {
                            name: token_at(tokens, pos)->Some_0->Identifier_0,
                        },
                    },
                ],
                pos + 2,
            ),
        )
    } else {
        match alternatives_from(tokens, pos) {
            Err(error) => Err(error),
            Ok((alternatives, next)) => match token_at(tokens, next) {
                Some(TokenView::StringLiteral(code)) => {
                    if token_at(tokens, next + 1) == Some(TokenView::Semicolon) {
                        Ok((with_code(alternatives, code), next + 2))
                    } else {
                        Err(
                            ParserErrorView::UnexpectedToken {
                                expected: semicolon_label(),
                                actual: token_at(tokens, next + 1),
                            },
                        )
                    }
                },
                actual => Err(
                    ParserErrorView::UnexpectedToken { expected: string_literal_label(), actual },
                ),
            },
        }
    }
}

/// Whether a constant declaration begins at `pos`: an identifier and an
/// equals sign.
pub open spec fn constant_begins(tokens: Seq<TokenView>, pos: int) -> bool {
    &&& token_at(tokens, pos) is Some
    &&& token_at(tokens, pos)->Some_0 is Identifier
    &&& token_at(tokens, pos + 1) == Some(TokenView::Equals)
}

/// Whether a rule group begins at `pos`: an identifier and an arrow.
pub open spec fn group_begins(tokens: Seq<TokenView>, pos: int) -> bool {
    &&& token_at(tokens, pos) is Some
    &&& token_at(tokens, pos)->Some_0 is Identifier
    &&& token_at(tokens, pos + 1) == Some(TokenView::Arrow)
}

/// The text of the identifier at `pos`.
pub open spec fn name_at(tokens: Seq<TokenView>, pos: int) -> Seq<char>
    recommends
        token_at(tokens, pos) is Some,
        token_at(tokens, pos)->Some_0 is Identifier,
{
    tokens[pos]->Identifier_0
}

/// The constants declared from `pos` on, written over `constants`, a later
/// declaration of a name over an earlier one; and the position of the first
/// token that begins no declaration.
pub open spec fn constants_from(
    tokens: Seq<TokenView>,
    pos: int,
    constants: Map<Seq<char>, Seq<char>>,
) -> Result<(Map<Seq<char>, Seq<char>>, int), ParserErrorView>
    decreases tokens.len() - pos,
{
    if constant_begins(tokens, pos) {
        let name = name_at(tokens, pos);
        if !valid_constant_name(name) {
            Err(ParserErrorView::UnknownConstantName(name))
        } else {
            match token_at(tokens, pos + 2) {
                Some(TokenView::StringLiteral(value)) => {
                    if token_at(tokens, pos + 3) == Some(TokenView::Semicolon) {
                        constants_from(tokens, pos + 4, constants.insert(name, value))
                    } else {
                        Err(
                            ParserErrorView::UnexpectedToken {
                                expected: semicolon_label(),
                                actual: token_at(tokens, pos + 3),
                            },
                        )
                    }
                },
                actual => Err(
                    ParserErrorView::UnexpectedToken { expected: string_literal_label(), actual },
                ),
            }
        }
    } else {
        Ok((constants, pos))
    }
}

/// The rule groups from `pos` to the end of the tokens, added to `rulesets`,
/// where `previous` is the left-hand side of the group before `pos`. A
/// left-hand side that `rulesets` has and that is not `previous` is refused.
pub open spec fn rulesets_from(
    tokens: Seq<TokenView>,
    pos: int,
    rulesets: RulesetsView,
    previous: Option<Seq<char>>,
) -> Result<RulesetsView, ParserErrorView>
    decreases tokens.len() - pos,
{
    if group_begins(tokens, pos) {
        let name = name_at(tokens, pos);
        if previous is Some && previous != Some(name) && rulesets.by_name.contains_key(name) {
            Err(ParserErrorView::InvalidRuleOrder)
        } else {
            match group_from(tokens, pos + 2) {
                Err(error) => Err(error),
                Ok((rules, next)) => {
                    if pos < next {
                        rulesets_from(tokens, next, rulesets.with_group(name, rules), Some(name))
                    } else {
                        Ok(rulesets)
                    }
                },
            }
        }
    } else if 0 <= pos < tokens.len() {
        Err(
            ParserErrorView::UnexpectedToken {
                expected: identifier_label(),
                actual: token_at(tokens, pos),
            },
        )
    } else {
        Ok(rulesets)
    }
}

/// What [`Parser::parse`] returns with the cursor at `pos`: the constants
/// declared from `pos` on, then the rulesets up to the end of the tokens, or
/// the first error met.
pub open spec fn parse_from(tokens: Seq<TokenView>, pos: int) -> Result<
    GeneratorDataView,
    ParserErrorView,
> {
    match constants_from(tokens, pos, Map::empty()) {
        Err(error) => Err(error),
        Ok((constants, next)) => match rulesets_from(tokens, next, RulesetsView::empty(), None) {
            Err(error) => Err(error),
            Ok(rulesets) => Ok(GeneratorDataView { constants, rulesets }),
        },
    }
}

/// What [`GeneratorData::from_tokens`] returns on `tokens`.
pub open spec fn parse_tokens(tokens: Seq<TokenView>) -> Result<GeneratorDataView, ParserErrorView> {
    parse_from(tokens, 0)
}

/// The mathematical value of what [`Parser::parse_single_rule_rhs`] returns
/// when it leaves the cursor at `index`.
pub open spec fn alternative_outcome(
    result: Result<Vec<(Symbol, Option<String>)>, ParserError>,
    index: usize,
) -> Result<(Seq<AliasedSymbolView>, int), ParserErrorView> {
    match result {
        Ok(symbols) => Ok((symbols.deep_view(), index as int)),
        Err(error) => Err(error@),
    }
}

/// The mathematical value of what [`Parser::parse_multiple_rules_rhs`]
/// returns when it leaves the cursor at `index`.
pub open spec fn alternatives_outcome(
    result: Result<Vec<Vec<(Symbol, Option<String>)>>, ParserError>,
    index: usize,
) -> Result<(Seq<Seq<AliasedSymbolView>>, int), ParserErrorView> {
    match result {
        Ok(alternatives) => Ok((alternatives.deep_view(), index as int)),
        Err(error) => Err(error@),
    }
}

/// The mathematical value of what [`Parser::parse_constants`] returns when it
/// leaves the cursor at `index`.
pub open spec fn constants_outcome(
    result: Result<StringHashMap<String>, ParserError>,
    index: usize,
) -> Result<(Map<Seq<char>, Seq<char>>, int), ParserErrorView> {
    match result {
        Ok(constants) => Ok((text_values(constants@), index as int)),
        Err(error) => Err(error@),
    }
}

/// With no symbols in front, what follows stays as it is.
proof fn lemma_no_symbols_before(rest: Result<(Seq<AliasedSymbolView>, int), ParserErrorView>)
    ensures
        symbols_then(Seq::empty(), rest) == rest,
{
    match rest {
        Ok((more, next)) => {
            assert(Seq::<AliasedSymbolView>::empty() + more == more);
        },
        Err(error) => {},
    }
}

/// A constant written into a map is written into its values as text.
proof fn lemma_text_values_insert(constants: Map<Seq<char>, String>, name: Seq<char>, value: String)
    ensures
        text_values(constants.insert(name, value)) == text_values(constants).insert(name, value@),
{
    assert(text_values(constants.insert(name, value)) =~= text_values(constants).insert(
        name,
        value@,
    ));
}

/// The rulesets read so far: those of the closed groups, which `closed`
/// holds, and those of the group that is still open, if there is one; with
/// the left-hand sides in `order`.
pub open spec fn rulesets_so_far(
    closed: Map<Seq<char>, Ruleset>,
    open_name: Option<String>,
    open_rules: Ruleset,
    order: Vec<String>,
) -> RulesetsView {
    RulesetsView {
        by_name: match open_name {
            Some(name) => rule_values(closed).insert(name@, open_rules.deep_view()),
            None => rule_values(closed),
        },
        order: order.deep_view(),
    }
}

/// The mathematical value of what [`Parser::parse_rulesets`] returns.
pub open spec fn rulesets_outcome(result: Result<Rulesets, ParserError>) -> Result<
    RulesetsView,
    ParserErrorView,
> {
    match result {
        Ok(rulesets) => Ok(rulesets@),
        Err(error) => Err(error@),
    }
}

/// The mathematical value of what [`Parser::parse`] returns.
pub open spec fn parse_outcome(result: Result<GeneratorData, ParserError>) -> Result<
    GeneratorDataView,
    ParserErrorView,
> {
    match result {
        Ok(data) => Ok(data@),
        Err(error) => Err(error@),
    }
}

/// A ruleset written into a map is written into its values.
proof fn lemma_rule_values_insert(rulesets: Map<Seq<char>, Ruleset>, name: Seq<char>, rules: Ruleset)
    ensures
        rule_values(rulesets.insert(name, rules)) == rule_values(rulesets).insert(
            name,
            rules.deep_view(),
        ),
{
    assert(rule_values(rulesets.insert(name, rules)) =~= rule_values(rulesets).insert(
        name,
        rules.deep_view(),
    ));
}

/// Whether `left` and `right` hold the same characters, by the `==` of
/// `str`, which compares two string slices character by character.
#[verifier::external_body]
fn same_text(left: &str, right: &str) -> (same: bool)
    ensures
        same == (left@ == right@),
{
    left.eq(right)
}

/// A cursor over tokens.
pub struct Parser<'a> {
    pub tokens: &'a [Token],
    pub index: usize,
}

impl<'a> Parser<'a> {
    /// The cursor stands inside the tokens or at their end.
    pub open spec fn well_formed(&self) -> bool {
        self.index <= self.tokens@.len()
    }

    /// The values of the tokens.
    pub open spec fn token_views(&self) -> Seq<TokenView> {
        self.tokens.deep_view()
    }

    /// The constants, then the rulesets, up to the end of the tokens.
    pub fn parse(&mut self) -> (result: Result<GeneratorData, ParserError>)
        requires
            old(self).well_formed(),
        ensures
            final(self).tokens == old(self).tokens,
            final(self).well_formed(),
            old(self).index <= final(self).index,
            result is Ok ==> final(self).index == old(self).tokens@.len(),
            result matches Ok(data) ==> data@.well_formed(),
            parse_outcome(result) == parse_from(old(self).token_views(), old(self).index as int),
    {
        let constants = self.parse_constants()?;
        let rulesets = self.parse_rulesets()?;
        Ok(GeneratorData { constants, rulesets })
    }

    /// The constants declared from the cursor on, a later declaration of a
    /// name over an earlier one.
    pub fn parse_constants(&mut self) -> (result: Result<StringHashMap<String>, ParserError>)
        requires
            old(self).well_formed(),
        ensures
            final(self).tokens == old(self).tokens,
            final(self).well_formed(),
            old(self).index <= final(self).index,
            result matches Ok(constants) ==> forall|name: Seq<char>| #[trigger]
                constants@.contains_key(name) ==> valid_constant_name(name),
            constants_outcome(result, final(self).index) == constants_from(
                old(self).token_views(),
                old(self).index as int,
                Map::empty(),
            ),
    {
        let ghost tokens = self.token_views();
        let ghost start = self.index as int;
        let mut constants: StringHashMap<String> = StringHashMap::new();
        assert(text_values(constants@) =~= Map::empty());
        while self.at_identifier() && matches!(self.peek(), Some(Token::Equals))
            invariant
                self.tokens == old(self).tokens,
                self.well_formed(),
                tokens == self.token_views(),
                start == old(self).index,
                start <= self.index,
                constants_from(tokens, start, Map::empty()) == constants_from(
                    tokens,
                    self.index as int,
                    text_values(constants@),
                ),
            decreases self.tokens@.len() - self.index,
        {
            let identifier = self.expect_identifier()?;
            if !Self::is_valid_constant_name(identifier.as_str()) {
                return Err(ParserError::UnknownConstantName(identifier));
            }
            self.next();
            let value = self.expect_string_literal()?;
            self.expect_semicolon()?;
            proof {
                lemma_text_values_insert(constants@, identifier@, value);
            }
            constants.insert(identifier, value);
        }
        proof {
            lemma_constant_names_are_valid(tokens, start, Map::empty());
            assert(constants_from(tokens, start, Map::empty())->Ok_0.0 == text_values(constants@));
            assert forall|name: Seq<char>| #[trigger]
                constants@.contains_key(name) implies valid_constant_name(name) by {
                assert(text_values(constants@).contains_key(name));
            }
        }
        Ok(constants)
    }

    /// The rule groups from the cursor to the end of the tokens. A left-hand
    /// side that comes back after another one has followed it is refused.
    pub fn parse_rulesets(&mut self) -> (result: Result<Rulesets, ParserError>)
        requires
            old(self).well_formed(),
        ensures
            final(self).tokens == old(self).tokens,
            final(self).well_formed(),
            old(self).index <= final(self).index,
            result is Ok ==> final(self).index == old(self).tokens@.len(),
            result matches Ok(rulesets) ==> rulesets@.well_formed(),
            rulesets_outcome(result) == rulesets_from(
                old(self).token_views(),
                old(self).index as int,
                RulesetsView::empty(),
                None,
            ),
    {
        let ghost tokens = self.token_views();
        let ghost start = self.index as int;
        let mut by_name: StringHashMap<Ruleset> = StringHashMap::new();
        let mut order: Vec<String> = Vec::new();
        let mut current_lhs: Option<String> = None;
        let mut current_rules: Ruleset = Vec::new();
        proof {
            let nothing = rulesets_so_far(by_name@, current_lhs, current_rules, order);
            assert(nothing.by_name =~= Map::empty());
            assert(nothing.order =~= Seq::empty());
        }
        while self.at_identifier() && matches!(self.peek(), Some(Token::Arrow))
            invariant
                self.tokens == old(self).tokens,
                self.well_formed(),
                tokens == self.token_views(),
                start == old(self).index,
                start <= self.index,
                current_lhs matches Some(name) ==> !by_name@.contains_key(name@),
                current_lhs is None ==> by_name@ =~= Map::empty() && current_rules@.len() == 0,
                rulesets_from(tokens, start, RulesetsView::empty(), None) == rulesets_from(
                    tokens,
                    self.index as int,
                    rulesets_so_far(by_name@, current_lhs, current_rules, order),
                    current_lhs.deep_view(),
                ),
            decreases self.tokens@.len() - self.index,
        {
            let ghost pos = self.index as int;
            let ghost rulesets_before = rulesets_so_far(by_name@, current_lhs, current_rules, order);
            let ghost order_before = order.deep_view();
            let identifier = self.expect_identifier()?;
            self.next();
            match current_lhs {
                Some(lhs) => {
                    if !(lhs == identifier) {
                        proof {
                            lemma_rule_values_insert(by_name@, lhs@, current_rules);
                        }
                        by_name.insert(lhs, current_rules);
                        current_rules = Vec::new();
                        if by_name.contains_key(identifier.as_str()) {
                            return Err(ParserError::InvalidRuleOrder);
                        }
                        order.push(identifier.clone());
                        assert(order.deep_view() == order_before.push(identifier@));
                        assert(current_rules.deep_view() == Seq::<RuleRhsView>::empty());
                    }
                },
                None => {
                    order.push(identifier.clone());
                    assert(order.deep_view() == order_before.push(identifier@));
                    assert(current_rules.deep_view() == Seq::<RuleRhsView>::empty());
                },
            }
            current_lhs = Some(identifier);
            let ghost name = current_lhs->Some_0@;
            let ghost rules_before = current_rules.deep_view();
            assert(!by_name@.contains_key(name));
            assert(rules_before + Seq::<RuleRhsView>::empty() == rules_before);
            assert(rulesets_before.with_group(name, Seq::empty()).order == order.deep_view());
            assert(rulesets_before.with_group(name, Seq::empty()).by_name =~= rule_values(
                by_name@,
            ).insert(name, rules_before));
            if self.at_identifier() && matches!(self.peek(), Some(Token::Semicolon)) {
                let non_terminal = self.expect_identifier()?;
                self.next();
                current_rules.push(
                    RuleRhs::Proxy { symbol: Symbol::NonTerminal { name: non_terminal } },
                );
                proof {
                    let rules = group_from(tokens, pos + 2)->Ok_0.0;
                    assert(current_rules.deep_view() == rules_before + rules);
                    assert(rulesets_before.with_group(name, rules).by_name =~= rule_values(
                        by_name@,
                    ).insert(name, rules_before + rules));
                }
            } else {
                let alternatives = self.parse_multiple_rules_rhs()?;
                let code_block = self.expect_string_literal()?;
                self.expect_semicolon()?;
                let ghost sources = alternatives@;
                let ghost rules = with_code(alternatives.deep_view(), code_block@);
                assert(rules_before + rules.take(0) == rules_before);
                for rule in iter: alternatives
                    invariant
                        iter.seq() == sources,
                        rules.len() == sources.len(),
                        forall|i: int|
                            0 <= i < sources.len() ==> #[trigger] rules[i]
                                == (RuleRhsView::WithCode {
                                symbols: sources[i].deep_view(),
                                code: code_block@,
                            }),
                        current_rules.deep_view() == rules_before + rules.take(iter.index() as int),
                {
                    let ghost before = current_rules.deep_view();
                    let ghost done = iter.index() as int;
                    current_rules.push(
                        RuleRhs::WithCode { symbols: rule, code: code_block.clone() },
                    );
                    proof {
                        assert(current_rules.deep_view() == before.push(rules[done]));
                        assert(rules.take(done + 1) == rules.take(done).push(rules[done]));
                    }
                }
                proof {
                    assert(rules.take(sources.len() as int) == rules);
                    assert(rulesets_before.with_group(name, rules).by_name =~= rule_values(
                        by_name@,
                    ).insert(name, rules_before + rules));
                }
            }
        }
        match current_lhs {
            Some(lhs) => {
                proof {
                    lemma_rule_values_insert(by_name@, lhs@, current_rules);
                }
                by_name.insert(lhs, current_rules);
            },
            None => {},
        }
        if !self.is_end_of_input() {
            return Err(ParserError::UnexpectedToken { expected: "identifier", actual: self.actual() });
        }
        proof {
            lemma_order_lists_each_ruleset(tokens, start, RulesetsView::empty(), None);
        }
        Ok(Rulesets { by_name, order })
    }

    /// The alternatives from the cursor on, one or more with a pipe between
    /// each two.
    pub fn parse_multiple_rules_rhs(&mut self) -> (result: Result<
        Vec<Vec<(Symbol, Option<String>)>>,
        ParserError,
    >)
        requires
            old(self).well_formed(),
        ensures
            final(self).tokens == old(self).tokens,
            final(self).well_formed(),
            old(self).index <= final(self).index,
            alternatives_outcome(result, final(self).index) == alternatives_from(
                old(self).token_views(),
                old(self).index as int,
            ),
    {
        let ghost tokens = self.token_views();
        let ghost start = self.index as int;
        let mut rules: Vec<Vec<(Symbol, Option<String>)>> = Vec::new();
        let first = self.parse_single_rule_rhs()?;
        rules.push(first);
        assert(rules.deep_view() == seq![first.deep_view()]);
        assert(Seq::<Seq<AliasedSymbolView>>::empty() + seq![first.deep_view()] == seq![
            first.deep_view(),
        ]);
        let ghost mut last = start;
        while !self.is_end_of_input() && matches!(self.current(), Token::Pipe)
            invariant
                self.tokens == old(self).tokens,
                self.well_formed(),
                tokens == self.token_views(),
                start == old(self).index,
                start <= last <= self.index,
                rules@.len() >= 1,
                alternative_outcome(Ok(rules@.last()), self.index) == alternative_from(
                    tokens,
                    last,
                ),
                alternatives_from(tokens, start) == alternatives_then(
                    rules.deep_view().drop_last(),
                    alternatives_from(tokens, last),
                ),
            decreases self.tokens@.len() - self.index,
        {
            let ghost before = rules.deep_view();
            let ghost pipe = self.index as int;
            self.next();
            let rule = self.parse_single_rule_rhs()?;
            rules.push(rule);
            proof {
                let after = rules.deep_view();
                assert(after.drop_last() == before);
                assert(before == before.drop_last() + seq![before.last()]);
                match alternatives_from(tokens, pipe + 1) {
                    Ok((more, end)) => {
                        assert(before.drop_last() + (seq![before.last()] + more) == before + more);
                    },
                    Err(error) => {},
                }
                last = pipe + 1;
            }
        }
        proof {
            let all = rules.deep_view();
            assert(all == all.drop_last() + seq![all.last()]);
        }
        Ok(rules)
    }

    /// The alternative from the cursor on: its symbols, each with its alias,
    /// up to the first token that is neither an identifier nor a token
    /// literal.
    pub fn parse_single_rule_rhs(&mut self) -> (result: Result<
        Vec<(Symbol, Option<String>)>,
        ParserError,
    >)
        requires
            old(self).well_formed(),
        ensures
            final(self).tokens == old(self).tokens,
            final(self).well_formed(),
            old(self).index <= final(self).index,
            alternative_outcome(result, final(self).index) == alternative_from(
                old(self).token_views(),
                old(self).index as int,
            ),
    {
        let ghost tokens = self.token_views();
        let ghost start = self.index as int;
        let mut symbols: Vec<(Symbol, Option<String>)> = Vec::new();
        proof {
            assert(symbols.deep_view() == Seq::<AliasedSymbolView>::empty());
            lemma_no_symbols_before(alternative_from(tokens, start));
        }
        loop
            invariant
                self.tokens == old(self).tokens,
                self.well_formed(),
                tokens == self.token_views(),
                start == old(self).index,
                start <= self.index,
                alternative_from(tokens, start) == symbols_then(
                    symbols.deep_view(),
                    alternative_from(tokens, self.index as int),
                ),
            ensures
                symbol_at(tokens, self.index as int) is None,
            decreases self.tokens@.len() - self.index,
        {
            let ghost before = symbols.deep_view();
            let ghost pos = self.index as int;
            let found = self.current_symbol();
            if found.is_none() {
                break ;
            }
            let symbol = found.unwrap();
            self.next();
            let alias = if !self.is_end_of_input() && matches!(self.current(), Token::Colon) {
                self.next();
                Some(self.expect_identifier()?)
            } else {
                None
            };
            let ghost entry = (symbol@, alias.deep_view());
            symbols.push((symbol, alias));
            proof {
                assert(symbols.deep_view() == before.push(entry));
                match alternative_from(tokens, self.index as int) {
                    Ok((more, end)) => {
                        assert(before + (seq![entry] + more) == before.push(entry) + more);
                    },
                    Err(error) => {},
                }
            }
        }
        assert(symbols.deep_view() + Seq::<AliasedSymbolView>::empty() == symbols.deep_view());
        Ok(symbols)
    }

    /// Whether the cursor stands at the end of the tokens.
    pub fn is_end_of_input(&self) -> (result: bool)
        ensures
            result == (self.index >= self.tokens@.len()),
    {
        self.index >= self.tokens.len()
    }

    /// The token under the cursor.
    pub fn current(&self) -> (token: &Token)
        requires
            self.index < self.tokens@.len(),
        ensures
            *token == self.tokens@[self.index as int],
    {
        &self.tokens[self.index]
    }

    /// A copy of the token under the cursor.
    pub fn current_cloned(&self) -> (token: Token)
        requires
            self.index < self.tokens@.len(),
        ensures
            token@ == self.tokens@[self.index as int]@,
    {
        self.current().clone()
    }

    /// Moves the cursor one token on.
    pub fn next(&mut self)
        requires
            old(self).index < old(self).tokens@.len(),
        ensures
            final(self).tokens == old(self).tokens,
            final(self).index == old(self).index + 1,
    {
        proof {
            vstd::slice::axiom_spec_len(self.tokens);
        }
        self.index += 1;
    }

    /// The token behind the one under the cursor, if there is one.
    pub fn peek(&self) -> (token: Option<&Token>)
        ensures
            match token {
                Some(token) => self.index + 1 < self.tokens@.len() && *token
                    == self.tokens@[self.index + 1],
                None => self.index + 1 >= self.tokens@.len(),
            },
    {
        let length = self.tokens.len();
        if self.index < length && self.index + 1 < length {
            Some(&self.tokens[self.index + 1])
        } else {
            None
        }
    }

    /// Whether `name` is one under which a constant can be declared.
    pub fn is_valid_constant_name(name: &str) -> (result: bool)
        ensures
            result == valid_constant_name(name@),
    {
        same_text(name, DEFAULT_RETURN_VALUE) || same_text(name, GLOBAL_CODE)
    }

    /// Whether an identifier stands under the cursor.
    fn at_identifier(&self) -> (result: bool)
        ensures
            result == (token_at(self.token_views(), self.index as int) matches Some(
                TokenView::Identifier(_),
            )),
    {
        !self.is_end_of_input() && matches!(self.current(), Token::Identifier(_))
    }

    /// The token under the cursor, if there is one, for an error to hold.
    fn actual(&self) -> (token: Option<Token>)
        ensures
            token.deep_view() == token_at(self.token_views(), self.index as int),
    {
        if self.is_end_of_input() {
            None
        } else {
            Some(self.current_cloned())
        }
    }

    /// The symbol that the token under the cursor stands for, if it stands
    /// for one.
    fn current_symbol(&self) -> (symbol: Option<Symbol>)
        ensures
            symbol.deep_view() == symbol_at(self.token_views(), self.index as int),
    {
        if self.is_end_of_input() {
            return None;
        }
        match self.current() {
            Token::Identifier(name) => Some(Symbol::NonTerminal { name: name.clone() }),
            Token::TokenLiteral(token) => Some(Symbol::Terminal { token: token.clone() }),
            _ => None,
        }
    }

    /// Moves past the identifier under the cursor and returns its text.
    fn expect_identifier(&mut self) -> (result: Result<String, ParserError>)
        requires
            old(self).well_formed(),
        ensures
            final(self).tokens == old(self).tokens,
            final(self).well_formed(),
            match result {
                Ok(name) => {
                    &&& token_at(old(self).token_views(), old(self).index as int) == Some(
                        TokenView::Identifier(name@),
                    )
                    &&& final(self).index == old(self).index + 1
                },
                Err(error) => {
                    &&& !(token_at(old(self).token_views(), old(self).index as int) matches Some(
                        TokenView::Identifier(_),
                    ))
                    &&& error@ == (ParserErrorView::UnexpectedToken {
                        expected: identifier_label(),
                        actual: token_at(old(self).token_views(), old(self).index as int),
                    })
                    &&& final(self).index == old(self).index
                },
            },
    {
        if !self.is_end_of_input() {
            if let Token::Identifier(name) = self.current() {
                let name = name.clone();
                self.next();
                return Ok(name);
            }
        }
        Err(ParserError::UnexpectedToken { expected: "identifier", actual: self.actual() })
    }

    /// Moves past the code block under the cursor and returns its text.
    fn expect_string_literal(&mut self) -> (result: Result<String, ParserError>)
        requires
            old(self).well_formed(),
        ensures
            final(self).tokens == old(self).tokens,
            final(self).well_formed(),
            match result {
                Ok(code) => {
                    &&& token_at(old(self).token_views(), old(self).index as int) == Some(
                        TokenView::StringLiteral(code@),
                    )
                    &&& final(self).index == old(self).index + 1
                },
                Err(error) => {
                    &&& !(token_at(old(self).token_views(), old(self).index as int) matches Some(
                        TokenView::StringLiteral(_),
                    ))
                    &&& error@ == (ParserErrorView::UnexpectedToken {
                        expected: string_literal_label(),
                        actual: token_at(old(self).token_views(), old(self).index as int),
                    })
                    &&& final(self).index == old(self).index
                },
            },
    {
        if !self.is_end_of_input() {
            if let Token::StringLiteral(code) = self.current() {
                let code = code.clone();
                self.next();
                return Ok(code);
            }
        }
        Err(ParserError::UnexpectedToken { expected: "string literal", actual: self.actual() })
    }

    /// Moves past the semicolon under the cursor.
    fn expect_semicolon(&mut self) -> (result: Result<(), ParserError>)
        requires
            old(self).well_formed(),
        ensures
            final(self).tokens == old(self).tokens,
            final(self).well_formed(),
            match result {
                Ok(()) => {
                    &&& token_at(old(self).token_views(), old(self).index as int) == Some(
                        TokenView::Semicolon,
                    )
                    &&& final(self).index == old(self).index + 1
                },
                Err(error) => {
                    &&& token_at(old(self).token_views(), old(self).index as int) != Some(
                        TokenView::Semicolon,
                    )
                    &&& error@ == (ParserErrorView::UnexpectedToken {
                        expected: semicolon_label(),
                        actual: token_at(old(self).token_views(), old(self).index as int),
                    })
                    &&& final(self).index == old(self).index
                },
            },
    {
        if !self.is_end_of_input() && matches!(self.current(), Token::Semicolon) {
            self.next();
            return Ok(());
        }
        Err(ParserError::UnexpectedToken { expected: "semicolon", actual: self.actual() })
    }
}

impl GeneratorData {
    /// What `tokens` describe: the constants, then the rulesets, or the first
    /// error met.
    pub fn from_tokens(tokens: &[Token]) -> (result: Result<Self, ParserError>)
        ensures
            result matches Ok(data) ==> data@.well_formed(),
            parse_outcome(result) == parse_tokens(tokens.deep_view()),
    {
        let mut parser = Parser { tokens, index: 0 };
        parser.parse()
    }
}

} // verus!

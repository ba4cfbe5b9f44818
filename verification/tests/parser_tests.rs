use parser_generator::parser::{GeneratorData, Parser, ParserError, RuleRhs, Symbol};
use parser_generator::scanner::{tokenize, Token};

fn tokens(input: &str) -> Vec<Token> {
    tokenize(input).unwrap()
}

fn parse(input: &str) -> Result<GeneratorData, ParserError> {
    GeneratorData::from_tokens(&tokens(input))
}

fn non_terminal(name: &str) -> Symbol {
    Symbol::NonTerminal { name: name.to_string() }
}

fn terminal(token: &str) -> Symbol {
    Symbol::Terminal { token: token.to_string() }
}

fn with_code(symbols: Vec<(Symbol, Option<&str>)>, code: &str) -> RuleRhs {
    RuleRhs::WithCode {
        symbols: symbols
            .into_iter()
            .map(|(symbol, alias)| (symbol, alias.map(|alias| alias.to_string())))
            .collect(),
        code: code.to_string(),
    }
}

fn proxy(name: &str) -> RuleRhs {
    RuleRhs::Proxy { symbol: non_terminal(name) }
}

fn names(data: &GeneratorData) -> Vec<&str> {
    data.rulesets.order.iter().map(|name| name.as_str()).collect()
}

fn error_of(result: Result<GeneratorData, ParserError>) -> ParserError {
    match result {
        Ok(_) => panic!("the parse succeeded"),
        Err(error) => error,
    }
}

#[test]
fn no_tokens_give_empty_data() {
    let data = parse("").unwrap();
    assert_eq!(data.constants.len(), 0);
    assert_eq!(data.rulesets.by_name.len(), 0);
    assert!(data.rulesets.order.is_empty());
}

#[test]
fn constants_are_read() {
    let data = parse("DEFAULT_RETURN_VALUE = { None }; GLOBAL_CODE = { use a; };").unwrap();
    assert_eq!(data.constants.len(), 2);
    assert_eq!(data.constants.get("DEFAULT_RETURN_VALUE"), Some(&"None".to_string()));
    assert_eq!(data.constants.get("GLOBAL_CODE"), Some(&"use a;".to_string()));
    assert_eq!(data.rulesets.by_name.len(), 0);
}

#[test]
fn later_declaration_of_a_constant_wins() {
    let data = parse("GLOBAL_CODE = { first }; GLOBAL_CODE = { second };").unwrap();
    assert_eq!(data.constants.len(), 1);
    assert_eq!(data.constants.get("GLOBAL_CODE"), Some(&"second".to_string()));
    let data = parse(
        "GLOBAL_CODE = { a }; DEFAULT_RETURN_VALUE = { b }; GLOBAL_CODE = { c }; A -> B;",
    )
    .unwrap();
    assert_eq!(data.constants.get("GLOBAL_CODE"), Some(&"c".to_string()));
    assert_eq!(data.constants.get("DEFAULT_RETURN_VALUE"), Some(&"b".to_string()));
}

#[test]
fn unknown_constant_name_is_refused() {
    assert_eq!(
        error_of(parse("FOO = \"x\";")),
        ParserError::UnknownConstantName("FOO".to_string())
    );
    assert_eq!(
        error_of(parse("FOO = { x };")),
        ParserError::UnknownConstantName("FOO".to_string())
    );
    assert_eq!(
        error_of(parse("GLOBAL_CODE = { x }; global_code = { y };")),
        ParserError::UnknownConstantName("global_code".to_string())
    );
}

#[test]
fn unknown_constant_name_comes_before_its_value_is_looked_at() {
    assert_eq!(
        error_of(parse("FOO = ;")),
        ParserError::UnknownConstantName("FOO".to_string())
    );
}

#[test]
fn constant_needs_a_code_block() {
    assert_eq!(
        error_of(parse("GLOBAL_CODE = \"x\";")),
        ParserError::UnexpectedToken {
            expected: "string literal",
            actual: Some(Token::TokenLiteral("x".to_string())),
        }
    );
    assert_eq!(
        error_of(parse("GLOBAL_CODE =")),
        ParserError::UnexpectedToken { expected: "string literal", actual: None }
    );
}

#[test]
fn constant_needs_a_semicolon() {
    assert_eq!(
        error_of(parse("GLOBAL_CODE = { x } A -> B;")),
        ParserError::UnexpectedToken {
            expected: "semicolon",
            actual: Some(Token::Identifier("A".to_string())),
        }
    );
    assert_eq!(
        error_of(parse("GLOBAL_CODE = { x }")),
        ParserError::UnexpectedToken { expected: "semicolon", actual: None }
    );
}

#[test]
fn constant_behind_a_rule_is_refused() {
    assert_eq!(
        error_of(parse("A -> B; GLOBAL_CODE = { x };")),
        ParserError::UnexpectedToken {
            expected: "identifier",
            actual: Some(Token::Identifier("GLOBAL_CODE".to_string())),
        }
    );
}

#[test]
fn alternatives_share_the_code_of_their_group() {
    let data = parse("LHS -> A | B { code };").unwrap();
    assert_eq!(data.rulesets.by_name.len(), 1);
    assert_eq!(
        data.rulesets.by_name.get("LHS"),
        Some(&vec![
            with_code(vec![(non_terminal("A"), None)], "code"),
            with_code(vec![(non_terminal("B"), None)], "code"),
        ])
    );
    assert_eq!(names(&data), vec!["LHS"]);
}

#[test]
fn bare_non_terminal_is_a_proxy() {
    let data = parse("A -> B;").unwrap();
    assert_eq!(data.constants.len(), 0);
    assert_eq!(data.rulesets.by_name.len(), 1);
    assert_eq!(data.rulesets.by_name.get("A"), Some(&vec![proxy("B")]));
    assert_eq!(data.rulesets.by_name.get("B"), None);
    assert_eq!(names(&data), vec!["A"]);
}

#[test]
fn closed_left_hand_side_cannot_come_back() {
    assert_eq!(
        error_of(parse("A -> x {c}; B -> y {d}; A -> z {e};")),
        ParserError::InvalidRuleOrder
    );
    assert_eq!(error_of(parse("A -> B; B -> C; A -> D;")), ParserError::InvalidRuleOrder);
    assert_eq!(
        error_of(parse("A -> B; B -> C; C -> D; B -> E;")),
        ParserError::InvalidRuleOrder
    );
}

#[test]
fn rule_order_is_checked_before_the_group_is_read() {
    assert_eq!(error_of(parse("A -> B; B -> C; A -> = ;")), ParserError::InvalidRuleOrder);
}

#[test]
fn same_left_hand_side_in_a_row_is_one_ruleset() {
    let data = parse("A -> x {c}; A -> y {d};").unwrap();
    assert_eq!(data.rulesets.by_name.len(), 1);
    assert_eq!(
        data.rulesets.by_name.get("A"),
        Some(&vec![
            with_code(vec![(non_terminal("x"), None)], "c"),
            with_code(vec![(non_terminal("y"), None)], "d"),
        ])
    );
    assert_eq!(names(&data), vec!["A"]);
}

#[test]
fn groups_of_one_left_hand_side_keep_their_order() {
    let data = parse("A -> B; A -> x | y {c}; A -> C; B -> \"T\" {d};").unwrap();
    assert_eq!(
        data.rulesets.by_name.get("A"),
        Some(&vec![
            proxy("B"),
            with_code(vec![(non_terminal("x"), None)], "c"),
            with_code(vec![(non_terminal("y"), None)], "c"),
            proxy("C"),
        ])
    );
    assert_eq!(
        data.rulesets.by_name.get("B"),
        Some(&vec![with_code(vec![(terminal("T"), None)], "d")])
    );
    assert_eq!(names(&data), vec!["A", "B"]);
}

#[test]
fn left_hand_sides_are_listed_in_the_order_of_their_first_group() {
    let data = parse("S -> A; A -> B; A -> C; B -> \"T\" {x}; C -> \"U\" {y};").unwrap();
    assert_eq!(names(&data), vec!["S", "A", "B", "C"]);
    assert_eq!(data.rulesets.by_name.len(), 4);
    for name in names(&data) {
        assert!(!data.rulesets.get(name).unwrap().is_empty());
    }
    assert!(data.rulesets.get("T").is_none());
}

#[test]
fn symbols_may_have_aliases() {
    let data = parse("LHS -> A \"TOKEN\":alias B:b | C D { code };").unwrap();
    assert_eq!(
        data.rulesets.by_name.get("LHS"),
        Some(&vec![
            with_code(
                vec![
                    (non_terminal("A"), None),
                    (terminal("TOKEN"), Some("alias")),
                    (non_terminal("B"), Some("b")),
                ],
                "code"
            ),
            with_code(vec![(non_terminal("C"), None), (non_terminal("D"), None)], "code"),
        ])
    );
}

#[test]
fn alias_needs_an_identifier() {
    assert_eq!(
        error_of(parse("A -> B: \"T\" { c };")),
        ParserError::UnexpectedToken {
            expected: "identifier",
            actual: Some(Token::TokenLiteral("T".to_string())),
        }
    );
    assert_eq!(
        error_of(parse("A -> \"T\":")),
        ParserError::UnexpectedToken { expected: "identifier", actual: None }
    );
}

#[test]
fn alternative_without_symbols_is_accepted() {
    let data = parse("A -> { c };").unwrap();
    assert_eq!(data.rulesets.by_name.get("A"), Some(&vec![with_code(vec![], "c")]));
    let data = parse("A -> | B | { c };").unwrap();
    assert_eq!(
        data.rulesets.by_name.get("A"),
        Some(&vec![
            with_code(vec![], "c"),
            with_code(vec![(non_terminal("B"), None)], "c"),
            with_code(vec![], "c"),
        ])
    );
}

#[test]
fn single_non_terminal_with_code_is_no_proxy() {
    let data = parse("A -> B { c };").unwrap();
    assert_eq!(
        data.rulesets.by_name.get("A"),
        Some(&vec![with_code(vec![(non_terminal("B"), None)], "c")])
    );
}

#[test]
fn single_terminal_needs_code() {
    assert_eq!(
        error_of(parse("A -> \"T\";")),
        ParserError::UnexpectedToken { expected: "string literal", actual: Some(Token::Semicolon) }
    );
}

#[test]
fn group_needs_a_code_block() {
    assert_eq!(
        error_of(parse("A -> B C;")),
        ParserError::UnexpectedToken { expected: "string literal", actual: Some(Token::Semicolon) }
    );
    assert_eq!(
        error_of(parse("A -> B C")),
        ParserError::UnexpectedToken { expected: "string literal", actual: None }
    );
    assert_eq!(
        error_of(parse("A ->")),
        ParserError::UnexpectedToken { expected: "string literal", actual: None }
    );
}

#[test]
fn group_needs_a_semicolon() {
    assert_eq!(
        error_of(parse("A -> B { c } C -> D;")),
        ParserError::UnexpectedToken {
            expected: "semicolon",
            actual: Some(Token::Identifier("C".to_string())),
        }
    );
    assert_eq!(
        error_of(parse("A -> B { c }")),
        ParserError::UnexpectedToken { expected: "semicolon", actual: None }
    );
}

#[test]
fn tokens_behind_the_last_group_are_refused() {
    assert_eq!(
        error_of(parse("A -> B; ;")),
        ParserError::UnexpectedToken { expected: "identifier", actual: Some(Token::Semicolon) }
    );
    assert_eq!(
        error_of(parse("A -> B; C")),
        ParserError::UnexpectedToken {
            expected: "identifier",
            actual: Some(Token::Identifier("C".to_string())),
        }
    );
    assert_eq!(
        error_of(parse("{ c }")),
        ParserError::UnexpectedToken {
            expected: "identifier",
            actual: Some(Token::StringLiteral("c".to_string())),
        }
    );
}

#[test]
fn constants_and_rules_together() {
    let data = parse(
        "DEFAULT_RETURN_VALUE = { () };\n\
         // the rules\n\
         Start -> Expression;\n\
         Expression -> Term \"PLUS\" Expression:rest | Term { build(rest) };\n\
         Term -> \"NUMBER\":n { n };",
    )
    .unwrap();
    assert_eq!(data.constants.get("DEFAULT_RETURN_VALUE"), Some(&"()".to_string()));
    assert_eq!(data.constants.get("GLOBAL_CODE"), None);
    assert_eq!(names(&data), vec!["Start", "Expression", "Term"]);
    assert_eq!(data.rulesets.get("Start"), Some(&vec![proxy("Expression")]));
    assert_eq!(
        data.rulesets.get("Expression"),
        Some(&vec![
            with_code(
                vec![
                    (non_terminal("Term"), None),
                    (terminal("PLUS"), None),
                    (non_terminal("Expression"), Some("rest")),
                ],
                "build(rest)"
            ),
            with_code(vec![(non_terminal("Term"), None)], "build(rest)"),
        ])
    );
    assert_eq!(
        data.rulesets.get("Term"),
        Some(&vec![with_code(vec![(terminal("NUMBER"), Some("n"))], "n")])
    );
}

#[test]
fn parser_cursor_moves_over_the_tokens() {
    let tokens = tokens("A = ;");
    let mut parser = Parser { tokens: &tokens, index: 0 };
    assert!(!parser.is_end_of_input());
    assert_eq!(parser.current(), &Token::Identifier("A".to_string()));
    assert_eq!(parser.current_cloned(), Token::Identifier("A".to_string()));
    assert_eq!(parser.peek(), Some(&Token::Equals));
    parser.next();
    assert_eq!(parser.index, 1);
    assert_eq!(parser.current(), &Token::Equals);
    assert_eq!(parser.peek(), Some(&Token::Semicolon));
    parser.next();
    assert_eq!(parser.current(), &Token::Semicolon);
    assert_eq!(parser.peek(), None);
    parser.next();
    assert!(parser.is_end_of_input());
    assert_eq!(parser.peek(), None);
}

#[test]
fn valid_constant_names_are_two() {
    assert!(Parser::is_valid_constant_name("DEFAULT_RETURN_VALUE"));
    assert!(Parser::is_valid_constant_name("GLOBAL_CODE"));
    assert!(!Parser::is_valid_constant_name("GLOBAL_CODE "));
    assert!(!Parser::is_valid_constant_name("global_code"));
    assert!(!Parser::is_valid_constant_name("FOO"));
    assert!(!Parser::is_valid_constant_name(""));
}

#[test]
fn parse_constants_stops_where_the_rules_begin() {
    let tokens = tokens("GLOBAL_CODE = { x }; A -> B;");
    let mut parser = Parser { tokens: &tokens, index: 0 };
    let constants = parser.parse_constants().unwrap();
    assert_eq!(constants.len(), 1);
    assert_eq!(constants.get("GLOBAL_CODE"), Some(&"x".to_string()));
    assert_eq!(parser.index, 4);
    let rulesets = parser.parse_rulesets().unwrap();
    assert_eq!(rulesets.get("A"), Some(&vec![proxy("B")]));
    assert_eq!(parser.index, 8);
}

#[test]
fn parse_single_rule_rhs_stops_at_the_first_other_token() {
    let tokens = tokens("A \"T\":t B | C");
    let mut parser = Parser { tokens: &tokens, index: 0 };
    assert_eq!(
        parser.parse_single_rule_rhs().unwrap(),
        vec![
            (non_terminal("A"), None),
            (terminal("T"), Some("t".to_string())),
            (non_terminal("B"), None),
        ]
    );
    assert_eq!(parser.index, 5);
    assert_eq!(parser.parse_single_rule_rhs().unwrap(), vec![]);
    assert_eq!(parser.index, 5);
}

#[test]
fn parse_multiple_rules_rhs_reads_each_alternative() {
    let tokens = tokens("A B | | C:c { x }");
    let mut parser = Parser { tokens: &tokens, index: 0 };
    assert_eq!(
        parser.parse_multiple_rules_rhs().unwrap(),
        vec![
            vec![(non_terminal("A"), None), (non_terminal("B"), None)],
            vec![],
            vec![(non_terminal("C"), Some("c".to_string()))],
        ]
    );
    assert_eq!(parser.index, 7);
}

#[test]
fn parse_reads_from_the_cursor() {
    let tokens = tokens("; GLOBAL_CODE = { x }; A -> B;");
    let mut parser = Parser { tokens: &tokens, index: 1 };
    let data = parser.parse().unwrap();
    assert_eq!(data.constants.get("GLOBAL_CODE"), Some(&"x".to_string()));
    assert_eq!(data.rulesets.get("A"), Some(&vec![proxy("B")]));
    assert_eq!(parser.index, tokens.len());
}

#[test]
fn symbol_clone_is_equal() {
    assert_eq!(non_terminal("A").clone(), non_terminal("A"));
    assert_eq!(terminal("T").clone(), terminal("T"));
}

#[test]
fn symbol_is_written_with_its_kind() {
    assert_eq!(terminal("SEMICOLON").to_text(), "Terminal(SEMICOLON)");
    assert_eq!(non_terminal("Expression").to_text(), "NonTerminal(Expression)");
    assert_eq!(terminal("").to_text(), "Terminal()");
}

#[test]
fn proxy_is_written_as_its_symbol() {
    assert_eq!(proxy("B").to_text(), "NonTerminal(B)");
    assert_eq!(proxy("B").to_text_with("ignored"), "NonTerminal(B)");
}

#[test]
fn symbols_with_code_are_written_with_the_code_in_quotes() {
    let rule = with_code(vec![(non_terminal("A"), None), (terminal("T"), Some("t"))], "f(t)");
    assert_eq!(rule.to_text(), "NonTerminal(A)Terminal(T) \"f(t)\"");
    let rule = with_code(vec![], "say(\"hi\")\n");
    assert_eq!(rule.to_text(), " \"say(\\\"hi\\\")\\n\"");
}

#[test]
fn symbols_with_code_are_written_with_the_code_as_given() {
    let rule = with_code(vec![(terminal("T"), None), (non_terminal("A"), Some("a"))], "x");
    assert_eq!(rule.to_text_with("<x>"), "Terminal(T)NonTerminal(A) <x>");
    assert_eq!(with_code(vec![], "x").to_text_with(""), " ");
}

#[test]
fn parser_errors_can_be_cloned() {
    let error = ParserError::UnexpectedToken { expected: "identifier", actual: Some(Token::Pipe) };
    assert_eq!(error.clone(), error);
    let error = ParserError::UnknownConstantName("FOO".to_string());
    assert_eq!(error.clone(), error);
    assert_eq!(ParserError::InvalidRuleOrder.clone(), ParserError::InvalidRuleOrder);
}

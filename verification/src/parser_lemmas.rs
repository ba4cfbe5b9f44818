//! What holds of every parse: of two declarations of one constant the later
//! one stands, a constant under an unknown name is refused, a left-hand side
//! that comes back is refused while one that goes on is added to, and the
//! order of the left-hand sides lists each ruleset once.

use crate::parser::{
    alternative_from, alternatives_from, constant_begins, constants_from, group_begins,
    group_from, name_at, parse_from, rulesets_from, symbol_at, token_at, valid_constant_name,
    GeneratorDataView, ParserErrorView, RuleRhsView, RulesetsView,
};
use crate::scanner::TokenView;
use vstd::prelude::*;

verus! {

/// Whether a whole declaration of a constant stands at `pos`: one of the
/// names of the constants, an equals sign, a code block and a semicolon.
pub open spec fn declaration_at(tokens: Seq<TokenView>, pos: int) -> bool {
    &&& constant_begins(tokens, pos)
    &&& valid_constant_name(name_at(tokens, pos))
    &&& token_at(tokens, pos + 2) matches Some(TokenView::StringLiteral(_))
    &&& token_at(tokens, pos + 3) == Some(TokenView::Semicolon)
}

/// The value that the declaration at `pos` gives to its constant.
pub open spec fn value_at(tokens: Seq<TokenView>, pos: int) -> Seq<char>
    recommends
        declaration_at(tokens, pos),
{
    tokens[pos + 2]->StringLiteral_0
}

/// Where the declarations of constants lie that are read from `pos` up to
/// `end`: four tokens each, one behind the other.
pub open spec fn declared_between(pos: int, at: int, end: int) -> bool {
    pos <= at < end && (at - pos) % 4 == 0
}

/// The last declaration of a constant wins: when the constants are read from
/// `pos`, a declaration stands at `at`, and none of those behind it declares
/// the same name, then the constant has the value of the declaration at `at`.
pub proof fn lemma_last_declaration_wins(
    tokens: Seq<TokenView>,
    pos: int,
    constants: Map<Seq<char>, Seq<char>>,
    at: int,
)
    requires
        0 <= pos,
        constants_from(tokens, pos, constants) is Ok,
        declared_between(pos, at, constants_from(tokens, pos, constants)->Ok_0.1),
        forall|later: int|
            at < later && #[trigger] declared_between(
                pos,
                later,
                constants_from(tokens, pos, constants)->Ok_0.1,
            ) ==> name_at(tokens, later) != name_at(tokens, at),
    ensures
        declaration_at(tokens, at),
        constants_from(tokens, pos, constants)->Ok_0.0.contains_key(name_at(tokens, at)),
        constants_from(tokens, pos, constants)->Ok_0.0[name_at(tokens, at)] == value_at(tokens, at),
    decreases tokens.len() - pos,
{
    let end = constants_from(tokens, pos, constants)->Ok_0.1;
    assert(constant_begins(tokens, pos));
    let written = constants.insert(name_at(tokens, pos), value_at(tokens, pos));
    if at == pos {
        lemma_undeclared_constant_stays(tokens, pos + 4, written, name_at(tokens, at));
    } else {
        assert(declared_between(pos + 4, at, end)) by {
            assert((at - pos) % 4 == 0 && at > pos ==> at >= pos + 4 && (at - (pos + 4)) % 4 == 0);
        }
        assert forall|later: int| at < later && #[trigger] declared_between(
            pos + 4,
            later,
            end,
        ) implies name_at(tokens, later) != name_at(tokens, at) by {
            assert(declared_between(pos, later, end));
        }
        lemma_last_declaration_wins(tokens, pos + 4, written, at);
    }
}

/// A constant that no declaration from `pos` on names keeps the value that
/// it had.
proof fn lemma_undeclared_constant_stays(
    tokens: Seq<TokenView>,
    pos: int,
    constants: Map<Seq<char>, Seq<char>>,
    name: Seq<char>,
)
    requires
        0 <= pos,
        constants_from(tokens, pos, constants) is Ok,
        constants.contains_key(name),
        forall|later: int|
            pos - 4 < later && #[trigger] declared_between(
                pos - 4,
                later,
                constants_from(tokens, pos, constants)->Ok_0.1,
            ) ==> name_at(tokens, later) != name,
    ensures
        constants_from(tokens, pos, constants)->Ok_0.0.contains_key(name),
        constants_from(tokens, pos, constants)->Ok_0.0[name] == constants[name],
    decreases tokens.len() - pos,
{
    let end = constants_from(tokens, pos, constants)->Ok_0.1;
    if constant_begins(tokens, pos) {
        let written = constants.insert(name_at(tokens, pos), value_at(tokens, pos));
        lemma_constants_end(tokens, pos + 4, written);
        assert(declared_between(pos - 4, pos, end));
        assert forall|later: int| pos < later && #[trigger] declared_between(
            pos,
            later,
            end,
        ) implies name_at(tokens, later) != name by {
            assert(declared_between(pos - 4, later, end));
        }
        lemma_undeclared_constant_stays(tokens, pos + 4, written, name);
    }
}

/// The reading of constants ends at or behind where it began.
pub proof fn lemma_constants_end(
    tokens: Seq<TokenView>,
    pos: int,
    constants: Map<Seq<char>, Seq<char>>,
)
    requires
        constants_from(tokens, pos, constants) is Ok,
    ensures
        pos <= constants_from(tokens, pos, constants)->Ok_0.1,
    decreases tokens.len() - pos,
{
    if constant_begins(tokens, pos) {
        lemma_constants_end(
            tokens,
            pos + 4,
            constants.insert(name_at(tokens, pos), value_at(tokens, pos)),
        );
    }
}

/// Constants are declared under the names of the constants only: when that
/// holds of those read before, it holds of those read from `pos` on.
pub proof fn lemma_constant_names_are_valid(
    tokens: Seq<TokenView>,
    pos: int,
    constants: Map<Seq<char>, Seq<char>>,
)
    requires
        forall|name: Seq<char>| #[trigger] constants.contains_key(name) ==> valid_constant_name(name),
        constants_from(tokens, pos, constants) is Ok,
    ensures
        forall|name: Seq<char>| #[trigger]
            constants_from(tokens, pos, constants)->Ok_0.0.contains_key(name)
                ==> valid_constant_name(name),
    decreases tokens.len() - pos,
{
    if constant_begins(tokens, pos) {
        lemma_constant_names_are_valid(
            tokens,
            pos + 4,
            constants.insert(name_at(tokens, pos), value_at(tokens, pos)),
        );
    }
}

/// The order of the left-hand sides lists each ruleset once, and no ruleset
/// is empty: when that holds before rule groups are read, it holds after.
pub proof fn lemma_order_lists_each_ruleset(
    tokens: Seq<TokenView>,
    pos: int,
    rulesets: RulesetsView,
    previous: Option<Seq<char>>,
)
    requires
        rulesets.well_formed(),
        rulesets_from(tokens, pos, rulesets, previous) is Ok,
    ensures
        rulesets_from(tokens, pos, rulesets, previous)->Ok_0.well_formed(),
    decreases tokens.len() - pos,
{
    if group_begins(tokens, pos) {
        let name = name_at(tokens, pos);
        let rules = group_from(tokens, pos + 2)->Ok_0.0;
        let next = group_from(tokens, pos + 2)->Ok_0.1;
        if pos < next {
            lemma_group_end(tokens, pos + 2);
            lemma_group_keeps_well_formed(rulesets, name, rules);
            lemma_order_lists_each_ruleset(
                tokens,
                next,
                rulesets.with_group(name, rules),
                Some(name),
            );
        }
    }
}

/// Rulesets that are well-formed stay so when a group with at least one
/// alternative is added.
pub proof fn lemma_group_keeps_well_formed(
    rulesets: RulesetsView,
    name: Seq<char>,
    rules: Seq<RuleRhsView>,
)
    requires
        rulesets.well_formed(),
        rules.len() > 0,
    ensures
        rulesets.with_group(name, rules).well_formed(),
{
    let added = rulesets.with_group(name, rules);
    let order = rulesets.order;
    assert forall|other: Seq<char>| #[trigger]
        added.by_name.contains_key(other) implies added.by_name[other].len() > 0 by {
        if other != name {
            assert(rulesets.by_name.contains_key(other));
        }
    }
    assert forall|other: Seq<char>| added.order.contains(other) <==> added.by_name.contains_key(
        other,
    ) by {
        assert(order.contains(other) <==> rulesets.by_name.contains_key(other));
        if !rulesets.by_name.contains_key(name) {
            if added.order.contains(other) && other != name {
                let i = choose|i: int| 0 <= i < added.order.len() && added.order[i] == other;
                assert(order[i] == other);
            }
            if other == name {
                assert(added.order[order.len() as int] == name);
            } else if order.contains(other) {
                let i = choose|i: int| 0 <= i < order.len() && order[i] == other;
                assert(added.order[i] == other);
            }
        }
    }
    assert(added.order.no_duplicates()) by {
        if !rulesets.by_name.contains_key(name) {
            assert forall|i: int, j: int|
                0 <= i < added.order.len() && 0 <= j < added.order.len() && i != j implies added.order[i]
                != added.order[j] by {
                if i < order.len() {
                    assert(order.contains(order[i]));
                }
                if j < order.len() {
                    assert(order.contains(order[j]));
                }
            }
        }
    }
}

/// An alternative ends at or behind where it begins.
proof fn lemma_alternative_end(tokens: Seq<TokenView>, pos: int)
    requires
        alternative_from(tokens, pos) is Ok,
    ensures
        pos <= alternative_from(tokens, pos)->Ok_0.1,
    decreases tokens.len() - pos,
{
    if symbol_at(tokens, pos) is Some {
        if token_at(tokens, pos + 1) == Some(TokenView::Colon) {
            lemma_alternative_end(tokens, pos + 3);
        } else {
            lemma_alternative_end(tokens, pos + 1);
        }
    }
}

/// Alternatives end at or behind where they begin.
proof fn lemma_alternatives_end(tokens: Seq<TokenView>, pos: int)
    requires
        alternatives_from(tokens, pos) is Ok,
    ensures
        pos <= alternatives_from(tokens, pos)->Ok_0.1,
    decreases tokens.len() - pos,
{
    lemma_alternative_end(tokens, pos);
    let next = alternative_from(tokens, pos)->Ok_0.1;
    if token_at(tokens, next) == Some(TokenView::Pipe) {
        lemma_alternatives_end(tokens, next + 1);
    }
}

/// What follows the arrow of a rule group holds at least one alternative and
/// ends behind where it begins.
pub proof fn lemma_group_end(tokens: Seq<TokenView>, pos: int)
    requires
        group_from(tokens, pos) is Ok,
    ensures
        group_from(tokens, pos)->Ok_0.0.len() > 0,
        pos < group_from(tokens, pos)->Ok_0.1,
{
    if alternatives_from(tokens, pos) is Ok {
        lemma_alternatives_end(tokens, pos);
    }
}

/// A left-hand side that comes back after another one has followed it is
/// refused, whatever stands behind its arrow.
pub proof fn lemma_closed_left_hand_side_is_refused(
    tokens: Seq<TokenView>,
    pos: int,
    rulesets: RulesetsView,
    previous: Seq<char>,
)
    requires
        group_begins(tokens, pos),
        rulesets.by_name.contains_key(name_at(tokens, pos)),
        previous != name_at(tokens, pos),
    ensures
        rulesets_from(tokens, pos, rulesets, Some(previous)) == Err::<RulesetsView, _>(
            ParserErrorView::InvalidRuleOrder,
        ),
{
}

/// A group with the left-hand side of the group before it goes into the same
/// ruleset, behind what that ruleset holds, and the order of the left-hand
/// sides stays as it is.
pub proof fn lemma_same_left_hand_side_appends(
    tokens: Seq<TokenView>,
    pos: int,
    rulesets: RulesetsView,
)
    requires
        group_begins(tokens, pos),
        rulesets.by_name.contains_key(name_at(tokens, pos)),
        group_from(tokens, pos + 2) is Ok,
    ensures
        ({
            let name = name_at(tokens, pos);
            let (rules, next) = group_from(tokens, pos + 2)->Ok_0;
            let added = rulesets.with_group(name, rules);
            &&& rulesets_from(tokens, pos, rulesets, Some(name)) == rulesets_from(
                tokens,
                next,
                added,
                Some(name),
            )
            &&& added.by_name == rulesets.by_name.insert(name, rulesets.by_name[name] + rules)
            &&& added.order == rulesets.order
        }),
{
    lemma_group_end(tokens, pos + 2);
}

/// A constant under a name that is not one of the constants is refused,
/// whatever value it is given.
pub proof fn lemma_unknown_constant_is_refused(
    tokens: Seq<TokenView>,
    pos: int,
    constants: Map<Seq<char>, Seq<char>>,
)
    requires
        constant_begins(tokens, pos),
        !valid_constant_name(name_at(tokens, pos)),
    ensures
        constants_from(tokens, pos, constants) == Err::<(Map<Seq<char>, Seq<char>>, int), _>(
            ParserErrorView::UnknownConstantName(name_at(tokens, pos)),
        ),
        parse_from(tokens, pos) == Err::<GeneratorDataView, _>(
            ParserErrorView::UnknownConstantName(name_at(tokens, pos)),
        ),
{
}

} // verus!

//! The precedence parser: turns the syntax-node tree handed over by the
//! grammar front-end into an `Expression` AST.
//!
//! The front-end delivers one statement as an ordered sequence of sibling
//! nodes in which primaries (literals, identifiers, nested compound nodes)
//! alternate with infix operator nodes. The parser resolves the three
//! precedence tiers (comparisons bind loosest, then `+`/`-`, then `*`/`/`,
//! all left-associative) and produces exactly one `Expression` per statement.

use vstd::prelude::*;
use vstd::slice::{slice_index_get, slice_subrange};
use vstd::string::{StrSliceExecFns, StringExecFns};

verus! {

/// The rule kind a syntax node is tagged with by the grammar front-end.
#[derive(Debug, PartialEq, Eq, Clone, Copy)]
pub enum Rule {
    Integer,
    Boolean,
    StringLiteral,
    Identifier,
    MathOperation,
    BooleanOperation,
    LetStmt,
    Add,
    Subtract,
    Multiply,
    Divide,
    Equal,
    GreaterThan,
    GreaterThanOrEqual,
    LessThan,
    LessThanOrEqual,
}

/// One node of the tree produced by the grammar front-end: a rule tag, the
/// exact source text the node matched (meaningful for leaves), and the
/// node's children (meaningful for compound nodes).
#[derive(Debug)]
pub struct SyntaxNode {
    pub rule: Rule,
    pub text: String,
    pub children: Vec<SyntaxNode>,
}

/// The AST produced by the parser and consumed by the evaluator.
#[derive(Debug, PartialEq)]
#[allow(inconsistent_fields)]
pub enum Expression {
    Integer(i32),
    Boolean(bool),
    String(String),
    Identifier(String),
    MathOp { lhs: Box<Expression>, op: MathOperator, rhs: Box<Expression> },
    BooleanOp { lhs: Box<Expression>, op: BooleanOperator, rhs: Box<Expression> },
    LetStmt { identifier: String, value: Box<Expression> },
}

/// An infix operator of either family.
#[derive(Debug, PartialEq)]
pub enum Operator {
    Math(MathOperator),
    Bool(BooleanOperator),
}

#[derive(Debug, PartialEq, Clone, Copy)]
pub enum MathOperator {
    Add,
    Subtract,
    Multiply,
    Divide,
}

#[derive(Debug, PartialEq, Clone, Copy)]
pub enum BooleanOperator {
    Equal,
    GreaterThan,
    GreaterThanOrEqual,
    LessThan,
    LessThanOrEqual,
}

/// The operator a rule tag stands for; `None` for the atomic and compound
/// rule kinds.
pub open spec fn operator_of(rule: Rule) -> Option<Operator> {
    match rule {
        Rule::Add => Some(Operator::Math(MathOperator::Add)),
        Rule::Subtract => Some(Operator::Math(MathOperator::Subtract)),
        Rule::Multiply => Some(Operator::Math(MathOperator::Multiply)),
        Rule::Divide => Some(Operator::Math(MathOperator::Divide)),
        Rule::Equal => Some(Operator::Bool(BooleanOperator::Equal)),
        Rule::GreaterThan => Some(Operator::Bool(BooleanOperator::GreaterThan)),
        Rule::GreaterThanOrEqual => Some(Operator::Bool(BooleanOperator::GreaterThanOrEqual)),
        Rule::LessThan => Some(Operator::Bool(BooleanOperator::LessThan)),
        Rule::LessThanOrEqual => Some(Operator::Bool(BooleanOperator::LessThanOrEqual)),
        _ => None,
    }
}

/// Binding power of an operator: comparisons bind loosest (tier 0), then
/// `+`/`-` (tier 1), then `*`/`/` (tier 2).
pub open spec fn operator_tier(op: Operator) -> int {
    match op {
        Operator::Bool(_) => 0,
        Operator::Math(MathOperator::Add) | Operator::Math(MathOperator::Subtract) => 1,
        Operator::Math(MathOperator::Multiply) | Operator::Math(MathOperator::Divide) => 2,
    }
}

/// Binding power of a rule tag; the non-operator kinds sit above every
/// operator tier so that they never win a precedence split.
pub open spec fn rule_tier(rule: Rule) -> int {
    match operator_of(rule) {
        Some(op) => operator_tier(op),
        None => 3,
    }
}

/// Maps an operator rule tag to the operator it stands for.
pub fn get_operator(rule: Rule) -> (op: Operator)
    requires
        operator_of(rule) is Some,
    ensures
        Some(op) == operator_of(rule),
{
    match rule {
        Rule::Add => Operator::Math(MathOperator::Add),
        Rule::Subtract => Operator::Math(MathOperator::Subtract),
        Rule::Multiply => Operator::Math(MathOperator::Multiply),
        Rule::Divide => Operator::Math(MathOperator::Divide),
        Rule::Equal => Operator::Bool(BooleanOperator::Equal),
        Rule::GreaterThan => Operator::Bool(BooleanOperator::GreaterThan),
        Rule::GreaterThanOrEqual => Operator::Bool(BooleanOperator::GreaterThanOrEqual),
        Rule::LessThan => Operator::Bool(BooleanOperator::LessThan),
        Rule::LessThanOrEqual => Operator::Bool(BooleanOperator::LessThanOrEqual),
        _ => vstd::pervasive::unreached(),
    }
}

/// The compound expression `lhs op rhs`, as a single AST node.
pub open spec fn spec_operation(lhs: Expression, op: Operator, rhs: Expression) -> Expression {
    match op {
        Operator::Math(o) => (Expression::MathOp {
            lhs: Box::new(lhs),
            op: o,
            rhs: Box::new(rhs),
        }),
        Operator::Bool(o) => (Expression::BooleanOp {
            lhs: Box::new(lhs),
            op: o,
            rhs: Box::new(rhs),
        }),
    }
}

/// Whether `c` is an ASCII decimal digit.
pub open spec fn is_digit(c: char) -> bool {
    48 <= c as u32 <= 57
}

/// The number a sequence of decimal digits denotes, most significant first.
pub open spec fn digits_value(s: Seq<char>) -> int
    decreases s.len(),
{
    if s.len() == 0 {
        0
    } else {
        digits_value(s.drop_last()) * 10 + (s.last() as u32 - 48)
    }
}

/// The texts an integer-literal node may carry: one or more decimal digits
/// denoting a value that fits in `i32`.
pub open spec fn is_integer_text(s: Seq<char>) -> bool {
    &&& s.len() > 0
    &&& (forall|i: int| 0 <= i < s.len() ==> is_digit(#[trigger] s[i]))
    &&& digits_value(s) <= i32::MAX
}

/// The text of the boolean literal that denotes `true`.
pub open spec fn true_text() -> Seq<char> {
    seq!['t', 'r', 'u', 'e']
}

/// The loosest binding power that occurs among `nodes`; 3 when none of them
/// is an operator node.
pub open spec fn lowest_tier(nodes: Seq<SyntaxNode>) -> int
    decreases nodes.len(),
{
    if nodes.len() == 0 {
        3
    } else {
        let rest = lowest_tier(nodes.drop_last());
        let t = rule_tier(nodes.last().rule);
        if t < rest {
            t
        } else {
            rest
        }
    }
}

/// The largest index whose node has binding power `tier`; -1 when there is
/// none.
pub open spec fn last_index_of_tier(nodes: Seq<SyntaxNode>, tier: int) -> int
    decreases nodes.len(),
{
    if nodes.len() == 0 {
        -1
    } else if rule_tier(nodes.last().rule) == tier {
        nodes.len() - 1
    } else {
        last_index_of_tier(nodes.drop_last(), tier)
    }
}

/// Where a statement splits: at the rightmost operator of the loosest tier
/// present. That operator is applied last, which makes equal-precedence
/// chains left-associative and tighter tiers bind first.
pub open spec fn split_index(nodes: Seq<SyntaxNode>) -> int {
    last_index_of_tier(nodes, lowest_tier(nodes))
}

/// A well-formed statement, as the grammar front-end delivers it: an odd
/// number of sibling nodes in which well-formed primaries (even positions)
/// alternate with operator nodes (odd positions).
pub open spec fn wf_statement(nodes: Seq<SyntaxNode>) -> bool
    decreases nodes,
{
    &&& nodes.len() % 2 == 1
    &&& (forall|i: int| 0 <= i < nodes.len() && i % 2 == 0 ==> wf_primary(#[trigger] nodes[i]))
    &&& (forall|i: int|
        0 <= i < nodes.len() && i % 2 == 1 ==> operator_of(#[trigger] nodes[i].rule) is Some)
}

/// A well-formed primary node: a literal or identifier leaf, or a compound
/// node whose children again form a well-formed statement (for a binding,
/// prefixed by the node carrying the bound name).
pub open spec fn wf_primary(node: SyntaxNode) -> bool
    decreases node,
{
    match node.rule {
        Rule::Integer => is_integer_text(node.text@),
        Rule::Boolean => true,
        Rule::StringLiteral => true,
        Rule::Identifier => true,
        Rule::MathOperation | Rule::BooleanOperation => {
            proof {
                assert(decreases_to!(node => node.children));
                assert(decreases_to!(node.children => node.children@));
            }
            wf_statement(node.children@)
        },
        Rule::LetStmt => {
            let rest = node.children@.subrange(1, node.children@.len() as int);
            if node.children@.len() >= 2 {
                proof {
                    assert(decreases_to!(node => node.children));
                    assert(decreases_to!(node.children => node.children@));
                    assert(decreases_to!(node.children@ => rest));
                }
                wf_statement(rest)
            } else {
                false
            }
        },
        _ => false,
    }
}

/// The parse of a well-formed statement: a single primary parses on its
/// own; otherwise the statement splits at `split_index` and the two sides
/// parse recursively. (On input that is not well-formed the result is of no
/// significance; `parse_program` is only specified for well-formed input.)
pub open spec fn spec_parse(nodes: Seq<SyntaxNode>) -> Expression
    decreases nodes,
{
    if nodes.len() == 0 {
        Expression::Integer(0)
    } else {
        let i = split_index(nodes);
        if 1 <= i && i + 1 < nodes.len() && operator_of(nodes[i].rule) is Some {
            spec_operation(
                spec_parse(nodes.subrange(0, i)),
                operator_of(nodes[i].rule)->Some_0,
                spec_parse(nodes.subrange(i + 1, nodes.len() as int)),
            )
        } else {
            spec_parse_primary(nodes[0])
        }
    }
}

/// The parse of one primary node.
pub open spec fn spec_parse_primary(node: SyntaxNode) -> Expression
    decreases node,
{
    match node.rule {
        Rule::Integer => Expression::Integer(digits_value(node.text@) as i32),
        Rule::Boolean => Expression::Boolean(node.text@ == true_text()),
        Rule::StringLiteral => Expression::String(node.text),
        Rule::Identifier => Expression::Identifier(node.text),
        Rule::MathOperation | Rule::BooleanOperation => {
            proof {
                assert(decreases_to!(node => node.children));
                assert(decreases_to!(node.children => node.children@));
            }
            spec_parse(node.children@)
        },
        Rule::LetStmt => {
            let rest = node.children@.subrange(1, node.children@.len() as int);
            if node.children@.len() >= 2 {
                proof {
                    assert(decreases_to!(node => node.children));
                    assert(decreases_to!(node.children => node.children@));
                    assert(decreases_to!(node.children@ => rest));
                }
                Expression::LetStmt {
                    identifier: node.children@[0].text,
                    value: Box::new(spec_parse(rest)),
                }
            } else {
                Expression::Integer(0)
            }
        },
        _ => Expression::Integer(0),
    }
}

/// No node binds looser than the loosest tier present.
proof fn lemma_lowest_tier_le(nodes: Seq<SyntaxNode>, j: int)
    requires
        0 <= j < nodes.len(),
    ensures
        lowest_tier(nodes) <= rule_tier(nodes[j].rule),
    decreases nodes.len(),
{
    if j < nodes.len() - 1 {
        lemma_lowest_tier_le(nodes.drop_last(), j);
    }
}

/// `last_index_of_tier` finds an index of the given tier with nothing of
/// that tier to its right, or reports -1 when the tier does not occur.
proof fn lemma_last_index_of_tier(nodes: Seq<SyntaxNode>, tier: int)
    ensures
        ({
            let r = last_index_of_tier(nodes, tier);
            &&& -1 <= r < nodes.len()
            &&& r >= 0 ==> rule_tier(nodes[r].rule) == tier
            &&& forall|j: int| r < j < nodes.len() ==> rule_tier(#[trigger] nodes[j].rule) != tier
        }),
    decreases nodes.len(),
{
    if nodes.len() > 0 && rule_tier(nodes.last().rule) != tier {
        lemma_last_index_of_tier(nodes.drop_last(), tier);
        assert(forall|j: int|
            0 <= j < nodes.len() - 1 ==> nodes.drop_last()[j] == #[trigger] nodes[j]);
    }
}

/// A non-empty statement always has a split point, and it carries the
/// loosest tier present.
proof fn lemma_split_index_in_range(nodes: Seq<SyntaxNode>)
    requires
        nodes.len() > 0,
    ensures
        0 <= split_index(nodes) < nodes.len(),
        rule_tier(nodes[split_index(nodes)].rule) == lowest_tier(nodes),
    decreases nodes.len(),
{
    if rule_tier(nodes.last().rule) != lowest_tier(nodes) {
        assert(lowest_tier(nodes.drop_last()) == lowest_tier(nodes));
        lemma_split_index_in_range(nodes.drop_last());
    }
}

/// Splitting a well-formed statement at an operator position leaves two
/// well-formed statements.
proof fn lemma_wf_split(nodes: Seq<SyntaxNode>, i: int)
    requires
        wf_statement(nodes),
        0 <= i < nodes.len(),
        i % 2 == 1,
    ensures
        wf_statement(nodes.subrange(0, i)),
        wf_statement(nodes.subrange(i + 1, nodes.len() as int)),
{
    let left = nodes.subrange(0, i);
    let right = nodes.subrange(i + 1, nodes.len() as int);
    assert(forall|j: int| 0 <= j < left.len() ==> #[trigger] left[j] == nodes[j]);
    assert(forall|j: int| 0 <= j < right.len() ==> #[trigger] right[j] == nodes[i + 1 + j]);
}

/// Wraps two parsed operand subtrees into the AST node for `op`.
pub fn get_operation(lhs: Expression, op: Operator, rhs: Expression) -> (r: Expression)
    ensures
        r == spec_operation(lhs, op, rhs),
{
    match op {
        Operator::Math(o) => Expression::MathOp {
            lhs: Box::new(lhs),
            op: o,
            rhs: Box::new(rhs),
        },
        Operator::Bool(o) => Expression::BooleanOp {
            lhs: Box::new(lhs),
            op: o,
            rhs: Box::new(rhs),
        },
    }
}

/// Law: when the right operator of `p1 o1 p2 o2 p3` binds no tighter than
/// the left one, the right operator is applied last, so equal-precedence
/// chains group to the left.
pub proof fn lemma_parse_left_associative(
    p1: SyntaxNode,
    o1: SyntaxNode,
    p2: SyntaxNode,
    o2: SyntaxNode,
    p3: SyntaxNode,
)
    requires
        operator_of(p1.rule) is None,
        operator_of(p2.rule) is None,
        operator_of(p3.rule) is None,
        operator_of(o1.rule) is Some,
        operator_of(o2.rule) is Some,
        rule_tier(o2.rule) <= rule_tier(o1.rule),
    ensures
        spec_parse(seq![p1, o1, p2, o2, p3]) == spec_operation(
            spec_parse(seq![p1, o1, p2]),
            operator_of(o2.rule)->Some_0,
            spec_parse_primary(p3),
        ),
{
    let nodes = seq![p1, o1, p2, o2, p3];
    let t = rule_tier(o2.rule);
    lemma_lowest_tier_le(nodes, 3);
    lemma_split_index_in_range(nodes);
    lemma_last_index_of_tier(nodes, lowest_tier(nodes));
    assert(split_index(nodes) == 3);
    assert(nodes.subrange(0, 3) =~= seq![p1, o1, p2]);
    assert(nodes.subrange(4, 5) =~= seq![p3]);
    lemma_split_index_in_range(seq![p3]);
    assert(spec_parse(seq![p3]) == spec_parse_primary(p3));
}

/// Law: an operator that binds tighter than the one to its left is applied
/// first: its operands fuse into the right subtree.
pub proof fn lemma_parse_tighter_binds_first(
    p1: SyntaxNode,
    o1: SyntaxNode,
    p2: SyntaxNode,
    o2: SyntaxNode,
    p3: SyntaxNode,
)
    requires
        operator_of(p1.rule) is None,
        operator_of(p2.rule) is None,
        operator_of(p3.rule) is None,
        operator_of(o1.rule) is Some,
        operator_of(o2.rule) is Some,
        rule_tier(o1.rule) < rule_tier(o2.rule),
    ensures
        spec_parse(seq![p1, o1, p2, o2, p3]) == spec_operation(
            spec_parse_primary(p1),
            operator_of(o1.rule)->Some_0,
            spec_parse(seq![p2, o2, p3]),
        ),
{
    let nodes = seq![p1, o1, p2, o2, p3];
    let t = rule_tier(o1.rule);
    lemma_lowest_tier_le(nodes, 1);
    lemma_split_index_in_range(nodes);
    lemma_last_index_of_tier(nodes, lowest_tier(nodes));
    assert(split_index(nodes) == 1);
    assert(nodes.subrange(0, 1) =~= seq![p1]);
    assert(nodes.subrange(2, 5) =~= seq![p2, o2, p3]);
    lemma_split_index_in_range(seq![p1]);
    assert(spec_parse(seq![p1]) == spec_parse_primary(p1));
}

/// Binding power of a rule tag, as an executable value.
fn tier_of_rule(rule: Rule) -> (t: u32)
    ensures
        t as int == rule_tier(rule),
{
    match rule {
        Rule::Equal
        | Rule::GreaterThan
        | Rule::GreaterThanOrEqual
        | Rule::LessThan
        | Rule::LessThanOrEqual => 0,
        Rule::Add | Rule::Subtract => 1,
        Rule::Multiply | Rule::Divide => 2,
        _ => 3,
    }
}

/// Whether a rule tag stands for an infix operator.
fn rule_is_operator(rule: Rule) -> (b: bool)
    ensures
        b == (operator_of(rule) is Some),
{
    tier_of_rule(rule) < 3
}

/// A sequence of digits denotes a non-negative number.
proof fn lemma_digits_value_nonneg(s: Seq<char>)
    requires
        forall|i: int| 0 <= i < s.len() ==> is_digit(#[trigger] s[i]),
    ensures
        digits_value(s) >= 0,
    decreases s.len(),
{
    if s.len() > 0 {
        assert(forall|i: int|
            0 <= i < s.drop_last().len() ==> is_digit(#[trigger] s.drop_last()[i]));
        lemma_digits_value_nonneg(s.drop_last());
    }
}

/// Extending a digit string to the right never shrinks its value.
proof fn lemma_digits_value_prefix(s: Seq<char>, i: int)
    requires
        0 <= i <= s.len(),
        forall|j: int| 0 <= j < s.len() ==> is_digit(#[trigger] s[j]),
    ensures
        digits_value(s.subrange(0, i)) <= digits_value(s),
    decreases s.len() - i,
{
    if i == s.len() {
        assert(s.subrange(0, i) =~= s);
    } else {
        lemma_digits_value_prefix(s, i + 1);
        assert(s.subrange(0, i + 1).drop_last() =~= s.subrange(0, i));
        assert(forall|j: int|
            0 <= j < s.subrange(0, i).len() ==> is_digit(#[trigger] s.subrange(0, i)[j]));
        lemma_digits_value_nonneg(s.subrange(0, i));
    }
}

/// Reads an integer literal: the denoted value if `text` is one or more
/// decimal digits whose value fits in `i32`, and `None` otherwise.
pub fn parse_integer_text(text: &str) -> (r: Option<i32>)
    ensures
        match r {
            Some(v) => is_integer_text(text@) && v as int == digits_value(text@),
            None => !is_integer_text(text@),
        },
{
    let n = text.unicode_len();
    if n == 0 {
        return None;
    }
    let mut value: u64 = 0;
    let mut k: usize = 0;
    while k < n
        invariant
            n == text@.len(),
            0 < n,
            k <= n,
            forall|i: int| 0 <= i < k ==> is_digit(#[trigger] text@[i]),
            value as int == digits_value(text@.subrange(0, k as int)),
            value <= i32::MAX as u64,
        decreases n - k,
    {
        let c = text.get_char(k);
        let d = c as u32;
        if d < 48 || d > 57 {
            return None;
        }
        proof {
            assert(text@.subrange(0, k as int + 1).drop_last() =~= text@.subrange(0, k as int));
        }
        value = value * 10 + (d - 48) as u64;
        k = k + 1;
        if value > i32::MAX as u64 {
            proof {
                if forall|i: int| 0 <= i < text@.len() ==> is_digit(#[trigger] text@[i]) {
                    lemma_digits_value_prefix(text@, k as int);
                }
            }
            return None;
        }
    }
    proof {
        assert(text@.subrange(0, n as int) =~= text@);
        lemma_digits_value_nonneg(text@);
    }
    Some(value as i32)
}

/// Resolves one primary node: a literal or identifier leaf becomes the
/// matching AST leaf, and a compound node parses its children recursively.
pub fn map_primary(node: &SyntaxNode) -> (e: Expression)
    requires
        wf_primary(*node),
    ensures
        e == spec_parse_primary(*node),
    decreases node,
{
    match node.rule {
        Rule::Integer => match parse_integer_text(node.text.as_str()) {
            Some(v) => {
                proof {
                    lemma_digits_value_nonneg(node.text@);
                }
                Expression::Integer(v)
            },
            None => vstd::pervasive::unreached(),
        },
        Rule::Boolean => {
            let true_literal = String::from_str("true");
            proof {
                reveal_strlit("true");
                assert(true_literal@ =~= true_text());
            }
            Expression::Boolean(node.text == true_literal)
        },
        Rule::StringLiteral => Expression::String(node.text.clone()),
        Rule::Identifier => Expression::Identifier(node.text.clone()),
        Rule::MathOperation | Rule::BooleanOperation => {
            proof {
                assert(decreases_to!(node => node.children));
                assert(decreases_to!(node.children => node.children@));
            }
            parse_program(node.children.as_slice())
        },
        Rule::LetStmt => {
            let identifier = slice_index_get(node.children.as_slice(), 0).text.clone();
            let rest = slice_subrange(node.children.as_slice(), 1, node.children.len());
            proof {
                assert(decreases_to!(node => node.children));
                assert(decreases_to!(node.children => node.children@));
                assert(decreases_to!(node.children@ => rest@));
            }
            let value = parse_program(rest);
            Expression::LetStmt { identifier, value: Box::new(value) }
        },
        _ => vstd::pervasive::unreached(),
    }
}

/// Parses one well-formed statement into its AST: resolves the three
/// precedence tiers, left-associatively, by splitting at the rightmost
/// operator of the loosest tier present and recursing on both sides.
pub fn parse_program(nodes: &[SyntaxNode]) -> (e: Expression)
    requires
        wf_statement(nodes@),
    ensures
        e == spec_parse(nodes@),
    decreases nodes@,
{
    proof {
        lemma_split_index_in_range(nodes@);
    }
    if nodes.len() == 1 {
        map_primary(slice_index_get(nodes, 0))
    } else {
        let n = nodes.len();
        // First pass: the loosest binding power that occurs.
        let mut min_tier: u32 = 3;
        let mut k: usize = 0;
        while k < n
            invariant
                n == nodes@.len(),
                k <= n,
                min_tier as int == lowest_tier(nodes@.subrange(0, k as int)),
            decreases n - k,
        {
            proof {
                assert(nodes@.subrange(0, k as int + 1).drop_last() =~= nodes@.subrange(
                    0,
                    k as int,
                ));
            }
            let t = tier_of_rule(slice_index_get(nodes, k).rule);
            if t < min_tier {
                min_tier = t;
            }
            k = k + 1;
        }
        proof {
            assert(nodes@.subrange(0, n as int) =~= nodes@);
        }
        // Second pass: the rightmost node of that tier is the split point.
        let ghost mt = min_tier as int;
        let mut j: usize = n - 1;
        let mut t = tier_of_rule(slice_index_get(nodes, j).rule);
        while t != min_tier
            invariant
                n == nodes@.len(),
                1 < n,
                0 <= j < n,
                mt == min_tier as int,
                mt == lowest_tier(nodes@),
                t as int == rule_tier(nodes@[j as int].rule),
                last_index_of_tier(nodes@, mt) == last_index_of_tier(
                    nodes@.subrange(0, j as int + 1),
                    mt,
                ),
                0 <= split_index(nodes@) < nodes@.len(),
            decreases j,
        {
            proof {
                assert(nodes@.subrange(0, j as int + 1).drop_last() =~= nodes@.subrange(
                    0,
                    j as int,
                ));
                assert(j != 0) by {
                    if j == 0 {
                        assert(nodes@.subrange(0, 1).last() == nodes@[0]);
                        assert(nodes@.subrange(0, 1).drop_last() =~= Seq::<SyntaxNode>::empty());
                        assert(last_index_of_tier(Seq::<SyntaxNode>::empty(), mt) == -1);
                        assert(last_index_of_tier(nodes@.subrange(0, 1), mt) == -1);
                    }
                };
            }
            j = j - 1;
            t = tier_of_rule(slice_index_get(nodes, j).rule);
        }
        proof {
            assert(last_index_of_tier(nodes@.subrange(0, j as int + 1), mt) == j);
            assert(j as int == split_index(nodes@));
            // The split point is an operator: its tier is the loosest one,
            // which some operator provides, while primaries all sit on the
            // non-operator tier.
            assert(operator_of(nodes@[1].rule) is Some);
            lemma_lowest_tier_le(nodes@, 1);
            assert(operator_of(nodes@[j as int].rule) is Some);
            assert(j % 2 == 1);
            lemma_wf_split(nodes@, j as int);
        }
        let lhs = parse_program(slice_subrange(nodes, 0, j));
        let op = get_operator(slice_index_get(nodes, j).rule);
        let rhs = parse_program(slice_subrange(nodes, j + 1, n));
        get_operation(lhs, op, rhs)
    }
}

/// Whether a sibling sequence is a well-formed statement, decided at run
/// time; `parse_program` demands exactly this of its input.
pub fn check_statement(nodes: &[SyntaxNode]) -> (ok: bool)
    ensures
        ok == wf_statement(nodes@),
    decreases nodes@,
{
    if nodes.len() % 2 == 0 {
        return false;
    }
    let mut k: usize = 0;
    while k < nodes.len()
        invariant
            k <= nodes@.len(),
            nodes@.len() % 2 == 1,
            forall|i: int| 0 <= i < k && i % 2 == 0 ==> wf_primary(#[trigger] nodes@[i]),
            forall|i: int|
                0 <= i < k && i % 2 == 1 ==> operator_of(#[trigger] nodes@[i].rule) is Some,
        decreases nodes@.len() - k,
    {
        let node = slice_index_get(nodes, k);
        if k % 2 == 0 {
            proof {
                assert(decreases_to!(nodes@ => nodes@[k as int]));
            }
            if !check_primary(node) {
                return false;
            }
        } else {
            if !rule_is_operator(node.rule) {
                return false;
            }
        }
        k = k + 1;
    }
    true
}

/// Whether one node is a well-formed primary, decided at run time.
fn check_primary(node: &SyntaxNode) -> (ok: bool)
    ensures
        ok == wf_primary(*node),
    decreases node,
{
    match node.rule {
        Rule::Integer => parse_integer_text(node.text.as_str()).is_some(),
        Rule::Boolean | Rule::StringLiteral | Rule::Identifier => true,
        Rule::MathOperation | Rule::BooleanOperation => {
            proof {
                assert(decreases_to!(node => node.children));
                assert(decreases_to!(node.children => node.children@));
            }
            check_statement(node.children.as_slice())
        },
        Rule::LetStmt => {
            if node.children.len() < 2 {
                false
            } else {
                let rest = slice_subrange(node.children.as_slice(), 1, node.children.len());
                proof {
                    assert(decreases_to!(node => node.children));
                    assert(decreases_to!(node.children => node.children@));
                    assert(decreases_to!(node.children@ => rest@));
                }
                check_statement(rest)
            }
        },
        _ => false,
    }
}

} // verus!

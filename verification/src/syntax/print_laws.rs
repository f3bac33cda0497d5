//! What the printed forms of operators and patterns show.

use vstd::prelude::*;

use super::descriptor::Descriptor;
use super::expr::BinOp;
use super::path_pattern::PathPattern;

verus! {

/// An operator that is printed is read back, and the usual signs are its own.
pub proof fn operators_read_back(op: BinOp)
    ensures
        BinOp::parsed(op.text()) == Some(op),
        op.text() =~= seq!['+'] <==> op == BinOp::Add,
        op.text() =~= seq!['-'] <==> op == BinOp::Sub,
        op.text() =~= seq!['*'] <==> op == BinOp::Mul,
        op.text() =~= seq!['/'] <==> op == BinOp::Div,
        op.text() =~= seq!['<'] <==> op == BinOp::Lt,
        op.text() =~= seq!['>'] <==> op == BinOp::Gt,
        op.text() =~= seq!['<', '='] <==> op == BinOp::Le,
        op.text() =~= seq!['>', '='] <==> op == BinOp::Ge,
        op.text() =~= seq!['='] <==> op == BinOp::Eq,
        op.text() =~= seq!['!', '='] <==> op == BinOp::Ne,
{
    reveal_strlit("+");
    reveal_strlit("-");
    reveal_strlit("*");
    reveal_strlit("/");
    reveal_strlit("MOD");
    reveal_strlit("mod");
    reveal_strlit("<");
    reveal_strlit(">");
    reveal_strlit("<=");
    reveal_strlit(">=");
    reveal_strlit("=");
    reveal_strlit("!=");
    reveal_strlit("and");
    reveal_strlit("or");
    reveal_strlit("TYPED");
    reveal_strlit("typed");
    reveal_strlit("as");
    reveal_strlit("in");
    assert("+"@.len() == 1 && "+"@[0] == '+');
    assert("-"@.len() == 1 && "-"@[0] == '-');
    assert("*"@.len() == 1 && "*"@[0] == '*');
    assert("/"@.len() == 1 && "/"@[0] == '/');
    assert("MOD"@.len() == 3 && "MOD"@[0] == 'M' && "MOD"@[1] == 'O');
    assert("mod"@.len() == 3 && "mod"@[0] == 'm' && "mod"@[1] == 'o');
    assert("<"@.len() == 1 && "<"@[0] == '<');
    assert(">"@.len() == 1 && ">"@[0] == '>');
    assert("<="@.len() == 2 && "<="@[0] == '<' && "<="@[1] == '=');
    assert(">="@.len() == 2 && ">="@[0] == '>' && ">="@[1] == '=');
    assert("="@.len() == 1 && "="@[0] == '=');
    assert("!="@.len() == 2 && "!="@[0] == '!' && "!="@[1] == '=');
    assert("and"@.len() == 3 && "and"@[0] == 'a' && "and"@[1] == 'n');
    assert("or"@.len() == 2 && "or"@[0] == 'o' && "or"@[1] == 'r');
    assert("TYPED"@.len() == 5 && "TYPED"@[0] == 'T' && "TYPED"@[1] == 'Y');
    assert("typed"@.len() == 5 && "typed"@[0] == 't' && "typed"@[1] == 'y');
    assert("as"@.len() == 2 && "as"@[0] == 'a' && "as"@[1] == 's');
    assert("in"@.len() == 2 && "in"@[0] == 'i' && "in"@[1] == 'n');
}

/// A text is made of three others.
pub open spec fn stands_between(
    s: Seq<char>,
    open: Seq<char>,
    inner: Seq<char>,
    close: Seq<char>,
) -> bool {
    s =~= open + inner + close
}

/// A node is printed in parentheses. An edge is printed in brackets, with an arrow
/// at its right or at its left end, with two tildes where it has no direction, and
/// with two lines where it has any.
pub proof fn arrows_show_the_direction(d: Descriptor, shown: spec_fn(u64) -> Seq<char>)
    ensures
        stands_between(PathPattern::Node(Some(d)).text(shown), seq!['('], d.text(), seq![')']),
        stands_between(
            PathPattern::EdgeRight(Some(d)).text(shown),
            seq!['-', '['],
            d.text(),
            seq![']', '-', '>'],
        ),
        stands_between(
            PathPattern::EdgeLeft(Some(d)).text(shown),
            seq!['<', '-', '['],
            d.text(),
            seq![']', '-'],
        ),
        stands_between(
            PathPattern::EdgeUndirected(Some(d)).text(shown),
            seq!['~', '['],
            d.text(),
            seq![']', '~'],
        ),
        stands_between(
            PathPattern::EdgeAnyDirection(Some(d)).text(shown),
            seq!['-', '['],
            d.text(),
            seq![']', '-'],
        ),
{
    reveal_strlit("(");
    reveal_strlit(")");
    reveal_strlit("-[");
    reveal_strlit("]->");
    reveal_strlit("<-[");
    reveal_strlit("]-");
    reveal_strlit("~[");
    reveal_strlit("]~");
}

/// What is printed of a part stands in what is printed of the whole: of two
/// patterns the first before the second, of a repetition the lower bound before the
/// upper one.
pub proof fn parts_are_printed_in_order(
    a: PathPattern,
    b: PathPattern,
    lb: usize,
    ub: usize,
    shown: spec_fn(u64) -> Seq<char>,
)
    ensures
        stands_between(
            PathPattern::Concat(Box::new(a), Box::new(b)).text(shown),
            a.text(shown),
            seq![' '],
            b.text(shown),
        ),
        stands_between(
            PathPattern::Join(Box::new(a), Box::new(b)).text(shown),
            a.text(shown),
            seq![',', ' '],
            b.text(shown),
        ),
        stands_between(
            PathPattern::Union(Box::new(a), Box::new(b)).text(shown),
            seq!['('] + a.text(shown),
            seq![' ', '|', ' '],
            b.text(shown) + seq![')'],
        ),
        stands_between(
            PathPattern::Repeat { pattern: Box::new(a), lb, ub: Some(ub) }.text(shown),
            seq!['('] + a.text(shown) + seq![')', '{'] + crate::text::decimal(lb as nat),
            seq![','],
            crate::text::decimal(ub as nat) + seq!['}'],
        ),
        stands_between(
            PathPattern::Repeat { pattern: Box::new(a), lb, ub: None }.text(shown),
            seq!['('] + a.text(shown) + seq![')', '{'],
            crate::text::decimal(lb as nat),
            seq![',', '}'],
        ),
{
    reveal_strlit(" ");
    reveal_strlit(", ");
    reveal_strlit("(");
    reveal_strlit(" | ");
    reveal_strlit(")");
    reveal_strlit("){");
    reveal_strlit(",");
    reveal_strlit("}");
    reveal_strlit(",}");
}

} // verus!

//! What the printed forms of types show.

use vstd::prelude::*;

use super::descriptor_type::DescriptorTypeView;
use super::label_type::LabelTypeView;
use super::property_type::PropertyTypeView;
use super::simple_type::SimpleTypeView;
use super::variable_type::VariableTypeView;

verus! {

/// An edge type is printed from its left end to its right one, with an arrow to
/// the right where it has a direction and with tildes where it has none.
pub proof fn edge_types_lead_to_the_right(
    desc: DescriptorTypeView,
    left: VariableTypeView,
    right: VariableTypeView,
    names: Map<Seq<char>, Seq<char>>,
)
    ensures
        ({
            let l = super::format::endpoint_text(left, names);
            let r = super::format::endpoint_text(right, names);
            let e = super::format::edge_text(desc);
            let directed = super::format::variable_text(
                VariableTypeView::EdgeDirectional {
                    desc,
                    left: Box::new(left),
                    right: Box::new(right),
                },
                names,
            );
            let undirected = super::format::variable_text(
                VariableTypeView::EdgeNonDirectional {
                    desc,
                    left: Box::new(left),
                    right: Box::new(right),
                },
                names,
            );
            &&& directed =~= l + seq!['-', '['] + e + seq![']', '-', '>'] + r
            &&& undirected =~= l + seq!['~', '['] + e + seq![']', '~'] + r
        }),
{
    reveal_strlit("-[");
    reveal_strlit("]->");
    reveal_strlit("~[");
    reveal_strlit("]~");
}

/// A type that is printed as one word.
pub open spec fn is_word(t: SimpleTypeView) -> bool {
    t is Z || t is F || t is B || t is S || t is Star || t is Node || t is Edge || t is Path
}

/// No two of these types are printed alike.
pub proof fn words_tell_types_apart(a: SimpleTypeView, b: SimpleTypeView)
    requires
        is_word(a),
        is_word(b),
    ensures
        super::format::simple_type_text(a) == super::format::simple_type_text(b) <==> a == b,
{
    reveal_strlit("INT");
    reveal_strlit("FLOAT");
    reveal_strlit("BOOL");
    reveal_strlit("STRING");
    reveal_strlit("ANY");
    reveal_strlit("NODE");
    reveal_strlit("EDGE");
    reveal_strlit("PATH");
    assert("INT"@.len() == 3 && "INT"@[0] == 'I' && "INT"@[1] == 'N');
    assert("FLOAT"@.len() == 5 && "FLOAT"@[0] == 'F' && "FLOAT"@[1] == 'L');
    assert("BOOL"@.len() == 4 && "BOOL"@[0] == 'B' && "BOOL"@[1] == 'O');
    assert("STRING"@.len() == 6 && "STRING"@[0] == 'S' && "STRING"@[1] == 'T');
    assert("ANY"@.len() == 3 && "ANY"@[0] == 'A' && "ANY"@[1] == 'N');
    assert("NODE"@.len() == 4 && "NODE"@[0] == 'N' && "NODE"@[1] == 'O');
    assert("EDGE"@.len() == 4 && "EDGE"@[0] == 'E' && "EDGE"@[1] == 'D');
    assert("PATH"@.len() == 4 && "PATH"@[0] == 'P' && "PATH"@[1] == 'A');
}

/// A conjunction of labels is printed with `&`, a disjunction with `|`, a negation
/// with `!`, and an operand of two parts in parentheses.
pub proof fn label_signs_show_the_constraint(a: LabelTypeView, b: LabelTypeView)
    ensures
        ({
            let x = super::format::label_operand_text(a);
            let y = super::format::label_operand_text(b);
            &&& super::format::label_text(LabelTypeView::And(Box::new(a), Box::new(b))) =~= x
                + seq!['&'] + y
            &&& super::format::label_text(LabelTypeView::Or(Box::new(a), Box::new(b))) =~= x
                + seq!['|'] + y
            &&& super::format::label_text(LabelTypeView::Neg(Box::new(a))) =~= seq!['!'] + x
            &&& a is And || a is Or ==> x =~= seq!['('] + super::format::label_text(a) + seq![')']
            &&& !(a is And || a is Or) ==> x == super::format::label_text(a)
        }),
{
    reveal_with_fuel(super::format::label_text, 2);
    reveal_with_fuel(super::format::label_operand_text, 2);
    reveal_strlit("&");
    reveal_strlit("|");
    reveal_strlit("!");
    reveal_strlit("(");
    reveal_strlit(")");
}

/// A record with fields that admits others is printed with a star behind them, one
/// that does not without.
pub proof fn open_records_show_a_star(m: Map<Seq<char>, SimpleTypeView>)
    requires
        m.dom() != Set::<Seq<char>>::empty(),
    ensures
        super::format::record_text(PropertyTypeView::Open(m)) =~= super::format::record_text(
            PropertyTypeView::Closed(m),
        ).drop_last() + seq![',', ' ', '*', '}'],
        super::format::record_text(PropertyTypeView::Closed(m)).last() == '}',
        super::format::record_text(PropertyTypeView::Closed(m))[0] == '{',
{
    reveal_strlit("{");
    reveal_strlit(", *}");
    reveal_strlit("}");
}

} // verus!

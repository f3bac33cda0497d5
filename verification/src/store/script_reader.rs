//! What a script of statements says, read from its text: which nodes and edges
//! its statements insert, and what graph is there when all have run.

use vstd::prelude::*;

use super::dump::PieceView;
use crate::model::value::ValueView;

verus! {

/// A text stands at a place.
pub open spec fn is_text(p: Seq<PieceView>, i: int, t: Seq<char>) -> bool {
    0 <= i < p.len() && p[i] == PieceView::Text(t)
}

/// The place of the last such character, or -1.
pub open spec fn last_cut(t: Seq<char>, c: char) -> int
    decreases t.len(),
{
    if t.len() == 0 {
        -1
    } else if t.last() == c {
        t.len() - 1
    } else {
        last_cut(t.drop_last(), c)
    }
}

/// The place of the first such character, or the length.
pub open spec fn first_cut(t: Seq<char>, c: char) -> int
    decreases t.len(),
{
    if t.len() == 0 || t[0] == c {
        0
    } else {
        1 + first_cut(t.drop_first(), c)
    }
}

/// The number that digits write.
pub open spec fn number(s: Seq<char>) -> int
    decreases s.len(),
{
    if s.len() == 0 {
        0
    } else {
        number(s.drop_last()) * 10 + (s.last() as int - '0' as int)
    }
}

/// The integer that a text writes.
pub open spec fn integer(s: Seq<char>) -> int {
    if s.len() > 0 && s[0] == '-' {
        -number(s.drop_first())
    } else {
        number(s)
    }
}

/// Reads a literal, and what comes behind it.
pub open spec fn read_value(p: Seq<PieceView>) -> Option<(ValueView, Seq<PieceView>)>
    decreases p.len(), 0int,
{
    if p.len() == 0 {
        None
    } else {
        let rest = p.skip(1);
        match p[0] {
            PieceView::Float(bits) => Some((ValueView::Float(bits), rest)),
            PieceView::Text(t) => if t == "NULL"@ {
                Some((ValueView::Null, rest))
            } else if t == "true"@ {
                Some((ValueView::Bool(true), rest))
            } else if t == "false"@ {
                Some((ValueView::Bool(false), rest))
            } else if t == "["@ {
                match read_items(rest, Seq::empty()) {
                    Some((items, r)) => Some((ValueView::List(items), r)),
                    None => None,
                }
            } else if t == "{"@ {
                match read_fields(rest, Map::empty()) {
                    Some((fields, r)) => Some((ValueView::Record(fields), r)),
                    None => None,
                }
            } else if t.len() >= 2 && t[0] == '\'' && t.last() == '\'' {
                Some((ValueView::Str(t.subrange(1, t.len() - 1)), rest))
            } else {
                Some((ValueView::Int(integer(t) as i64), rest))
            },
        }
    }
}

/// Reads the items of a list behind those that are there.
pub open spec fn read_items(p: Seq<PieceView>, had: Seq<ValueView>) -> Option<
    (Seq<ValueView>, Seq<PieceView>),
>
    decreases p.len(), 1int,
{
    if is_text(p, 0, "]"@) {
        Some((had, p.skip(1)))
    } else {
        let q = if had.len() == 0 {
            p
        } else if is_text(p, 0, ", "@) {
            p.skip(1)
        } else {
            Seq::empty()
        };
        if q.len() == 0 {
            None
        } else {
            match read_value(q) {
                Some((v, rest)) => if rest.len() < p.len() {
                    read_items(rest, had.push(v))
                } else {
                    None
                },
                None => None,
            }
        }
    }
}

/// Reads the fields of a record behind those that are there.
pub open spec fn read_fields(p: Seq<PieceView>, had: Map<Seq<char>, ValueView>) -> Option<
    (Map<Seq<char>, ValueView>, Seq<PieceView>),
>
    decreases p.len(), 1int,
{
    let q = if had == Map::<Seq<char>, ValueView>::empty() {
        p
    } else if is_text(p, 0, ", "@) {
        p.skip(1)
    } else {
        Seq::empty()
    };
    if q.len() >= 2 && q[0] is Text && is_text(q, 1, ": "@) {
        match read_value(q.skip(2)) {
            Some((v, rest)) => if rest.len() < p.len() {
                read_fields(rest, had.insert(q[0]->Text_0, v))
            } else {
                None
            },
            None => None,
        }
    } else if is_text(p, 0, "}"@) {
        Some((had, p.skip(1)))
    } else {
        None
    }
}

/// The labels of a conjunction.
pub open spec fn read_labels(t: Seq<char>) -> Seq<Seq<char>>
    decreases t.len(),
{
    let k = last_cut(t, '&');
    if 1 <= k && k + 2 <= t.len() {
        read_labels(t.take(k - 1)).push(t.skip(k + 2))
    } else {
        seq![t]
    }
}

/// Labels and properties of an element.
pub ghost struct Described {
    pub labels: Seq<Seq<char>>,
    pub props: Map<Seq<char>, ValueView>,
}

/// Reads what stands between the brackets of an element.
pub open spec fn read_descriptor(p: Seq<PieceView>) -> Option<(Described, Seq<PieceView>)> {
    let named = is_text(p, 0, ":"@) && p.len() >= 2 && p[1] is Text;
    let labels = if named {
        read_labels(p[1]->Text_0)
    } else {
        Seq::empty()
    };
    let q = if named {
        p.skip(2)
    } else {
        p
    };
    if is_text(q, 0, "{"@) || is_text(q, 0, " {"@) {
        match read_fields(q.skip(1), Map::empty()) {
            Some((props, rest)) => Some((Described { labels, props }, rest)),
            None => None,
        }
    } else {
        Some((Described { labels, props: Map::empty() }, q))
    }
}

/// What a statement does.
pub ghost enum Statement {
    /// Nothing: there were only comments.
    Nothing,
    /// Inserts a node.
    Node(Described),
    /// Inserts an edge from every node with one property to every node with
    /// another.
    Edge {
        from: (Seq<char>, Seq<char>),
        to: (Seq<char>, Seq<char>),
        directed: bool,
        edge: Described,
    },
    /// Removes a property from every node.
    Remove(Seq<char>),
}

/// What stands between two texts.
pub open spec fn between(s: Seq<char>, pre: Seq<char>, post: Seq<char>) -> Option<Seq<char>> {
    if s.len() >= pre.len() + post.len() && s.take(pre.len() as int) == pre && s.skip(
        s.len() - post.len(),
    ) == post {
        Some(s.subrange(pre.len() as int, s.len() - post.len()))
    } else {
        None
    }
}

/// The text before the last quote, and that behind it.
pub open spec fn unquoted(t: Seq<char>) -> (Seq<char>, Seq<char>) {
    let k = last_cut(t, '\'');
    if k < 0 {
        (Seq::empty(), t)
    } else {
        (t.take(k), t.skip(k + 1))
    }
}

/// Reads which nodes a statement looks for: of each, a property and its value.
pub open spec fn read_match(t: Seq<char>) -> Option<
    ((Seq<char>, Seq<char>), (Seq<char>, Seq<char>)),
> {
    let (t4, end) = unquoted(t);
    let (t3, y) = unquoted(t4);
    let (t2, middle) = unquoted(t3);
    let (head, x) = unquoted(t2);
    match (between(head, "MATCH (a:* {"@, ": "@), between(middle, "}), (b:* {"@, ": "@)) {
        (Some(p), Some(q)) => if end == "}) INSERT (a)"@ {
            Some(((p, x), (q, y)))
        } else {
            None
        },
        _ => None,
    }
}

/// A text without the comments before it.
pub open spec fn uncommented(t: Seq<char>) -> Seq<char>
    decreases t.len(),
{
    if t.len() >= 2 && t[0] == '-' && t[1] == '-' && 0 <= first_cut(t, '\n') < t.len() {
        uncommented(t.skip(first_cut(t, '\n') + 1))
    } else {
        t
    }
}

/// Reads a statement, and what comes behind it.
#[verifier::opaque]
pub open spec fn read_statement(p: Seq<PieceView>) -> Option<(Statement, Seq<PieceView>)> {
    if p.len() == 0 || !(p[0] is Text) {
        None
    } else {
        let t = uncommented(p[0]->Text_0);
        if t.len() == 0 {
            Some((Statement::Nothing, p.skip(1)))
        } else if t == "INSERT ("@ {
            match read_descriptor(p.skip(1)) {
                Some((node, rest)) => if is_text(rest, 0, ");\n"@) {
                    Some((Statement::Node(node), rest.skip(1)))
                } else {
                    None
                },
                None => None,
            }
        } else if t == "MATCH (n) REMOVE n."@ {
            if p.len() >= 2 && p[1] is Text && is_text(p, 2, ";\n"@) {
                Some((Statement::Remove(p[1]->Text_0), p.skip(3)))
            } else {
                None
            }
        } else {
            match read_match(t) {
                Some((from, to)) => match read_descriptor(p.skip(2)) {
                    Some((edge, rest)) => if is_text(p, 1, "-["@) && is_text(
                        rest,
                        0,
                        "]->(b);\n"@,
                    ) {
                        Some((Statement::Edge { from, to, directed: true, edge }, rest.skip(1)))
                    } else if is_text(p, 1, "~["@) && is_text(rest, 0, "]~(b);\n"@) {
                        Some((Statement::Edge { from, to, directed: false, edge }, rest.skip(1)))
                    } else {
                        None
                    },
                    None => None,
                },
                None => None,
            }
        }
    }
}

/// An edge that was inserted, between places of nodes.
pub ghost struct BuiltEdge {
    pub edge: Described,
    pub src: int,
    pub tgt: int,
    pub directed: bool,
}

/// A graph that statements have built.
pub ghost struct Built {
    pub nodes: Seq<Described>,
    pub edges: Seq<BuiltEdge>,
}

/// The places of the nodes that have a text as a property.
pub open spec fn carriers(nodes: Seq<Described>, prop: Seq<char>, text: Seq<char>) -> Seq<int>
    decreases nodes.len(),
{
    if nodes.len() == 0 {
        Seq::empty()
    } else {
        let rest = carriers(nodes.drop_last(), prop, text);
        if nodes.last().props.contains_key(prop) && nodes.last().props[prop] == ValueView::Str(
            text,
        ) {
            rest.push(nodes.len() - 1)
        } else {
            rest
        }
    }
}

/// The graph after a statement.
pub open spec fn applied(g: Built, s: Statement) -> Built {
    match s {
        Statement::Nothing => g,
        Statement::Node(node) => Built { nodes: g.nodes.push(node), edges: g.edges },
        Statement::Edge { from, to, directed, edge } => {
            let a = carriers(g.nodes, from.0, from.1);
            let b = carriers(g.nodes, to.0, to.1);
            Built {
                nodes: g.nodes,
                edges: g.edges + Seq::new(
                    a.len() * b.len(),
                    |k: int|
                        BuiltEdge {
                            edge,
                            src: a[k / b.len() as int],
                            tgt: b[k % b.len() as int],
                            directed,
                        },
                ),
            }
        },
        Statement::Remove(prop) => Built {
            nodes: Seq::new(
                g.nodes.len(),
                |i: int|
                    Described { labels: g.nodes[i].labels, props: g.nodes[i].props.remove(prop) },
            ),
            edges: g.edges,
        },
    }
}

/// The graph after a script, where it can be read.
pub open spec fn run(g: Built, p: Seq<PieceView>) -> Option<Built>
    decreases p.len(),
{
    if p.len() == 0 {
        Some(g)
    } else {
        match read_statement(p) {
            Some((s, rest)) => if rest.len() < p.len() {
                run(applied(g, s), rest)
            } else {
                None
            },
            None => None,
        }
    }
}

} // verus!

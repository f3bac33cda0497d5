//! Queries.

use vstd::prelude::*;

use super::expr::Expr;
use super::path_pattern::PathPattern;
use crate::text::{copy_text, join_texts, text_of_u64, text_of_usize};
use crate::typing::simple_type::SimpleType;

verus! {

/// Whether an aggregate counts equal values once.
#[derive(Debug, Clone, Copy, PartialEq, Eq, Structural)]
pub enum SetQuantifier {
    All,
    Distinct,
}

/// The direction of a sort.
#[derive(Debug, Clone, Copy, PartialEq, Eq, Structural)]
pub enum SortDir {
    Asc,
    Desc,
}

/// Where a sort puts nulls.
#[derive(Debug, Clone, Copy, PartialEq, Eq, Structural)]
pub enum NullsOrder {
    First,
    Last,
}

/// What rows are sorted by.
#[derive(Debug, PartialEq)]
pub enum SortKey {
    /// An expression over the bindings.
    Expr(Expr),
    /// A column of the projected row.
    Column(usize),
    /// A column of the projected row, cast to a type.
    ColumnCast { col: usize, ty: SimpleType },
    /// A field of a record in a column of the projected row.
    ColumnField { col: usize, path: Vec<String> },
}

/// One sort key with its direction.
#[derive(Debug, PartialEq)]
pub struct SortSpec {
    pub key: SortKey,
    pub dir: SortDir,
    /// `None` where the query leaves it to the default.
    pub nulls: Option<NullsOrder>,
}

/// The aggregate functions of one argument.
#[derive(Debug, Clone, Copy, PartialEq, Eq, Structural)]
pub enum GeneralSetKind {
    Count,
    Sum,
    Avg,
    Min,
    Max,
    /// Gathers the values into a list.
    CollectList,
}

/// An aggregate function.
#[derive(Debug, PartialEq)]
pub enum Aggregator {
    CountStar,
    GeneralSet { kind: GeneralSetKind, quantifier: SetQuantifier, expr: Expr },
}

/// One item of a RETURN clause.
#[derive(Debug, PartialEq)]
pub enum ReturnItem {
    Expr { expr: Expr, alias: Option<String> },
    Aggregate { agg: Aggregator, alias: Option<String> },
}

/// One MATCH clause.
#[derive(Debug, PartialEq)]
pub enum MatchStatement {
    Simple { pattern: PathPattern },
    Optional { pattern: PathPattern },
}

/// A query: a chain of MATCH clauses and what to do with their bindings.
#[derive(Debug, PartialEq)]
pub struct Query {
    /// Never empty in a parsed query.
    pub matches: Vec<MatchStatement>,
    pub group_by: Option<Vec<Expr>>,
    pub returns: Option<Vec<ReturnItem>>,
    pub distinct: bool,
    pub order_by: Option<Vec<SortSpec>>,
    /// `Some(0)` asks for no rows, unlike `None`.
    pub limit: Option<u32>,
}

impl GeneralSetKind {
    /// The name of the function.
    pub open spec fn text(self) -> Seq<char> {
        match self {
            GeneralSetKind::Count => "COUNT"@,
            GeneralSetKind::Sum => "SUM"@,
            GeneralSetKind::Avg => "AVG"@,
            GeneralSetKind::Min => "MIN"@,
            GeneralSetKind::Max => "MAX"@,
            GeneralSetKind::CollectList => "COLLECT_LIST"@,
        }
    }

    /// The name of the function.
    pub fn to_string(&self) -> (r: String)
        ensures
            r@ == self.text(),
    {
        match self {
            GeneralSetKind::Count => copy_text("COUNT"),
            GeneralSetKind::Sum => copy_text("SUM"),
            GeneralSetKind::Avg => copy_text("AVG"),
            GeneralSetKind::Min => copy_text("MIN"),
            GeneralSetKind::Max => copy_text("MAX"),
            GeneralSetKind::CollectList => copy_text("COLLECT_LIST"),
        }
    }
}

impl Aggregator {
    /// The printed form, with floating-point numbers as they are shown.
    pub open spec fn text(self, shown: spec_fn(u64) -> Seq<char>) -> Seq<char>
        decreases self,
    {
        match self {
            Aggregator::CountStar => "COUNT(*)"@,
            Aggregator::GeneralSet { kind, quantifier, expr } => match quantifier {
                SetQuantifier::All => kind.text() + "("@ + expr.text(shown) + ")"@,
                SetQuantifier::Distinct => kind.text() + "(DISTINCT "@ + expr.text(shown) + ")"@,
            },
        }
    }

    /// The printed form, with floating-point numbers as a function prints them.
    pub fn to_string<F: Fn(u64) -> String>(&self, show: &F) -> (r: String)
        requires
            crate::model::float_text::prints_floats(*show),
        ensures
            r@ == self.text(crate::model::float_text::float_texts(*show)),
        decreases self,
    {
        match self {
            Aggregator::CountStar => copy_text("COUNT(*)"),
            Aggregator::GeneralSet { kind, quantifier, expr } => {
                let mut s = kind.to_string();
                match quantifier {
                    SetQuantifier::All => {
                        s.append("(");
                    },
                    SetQuantifier::Distinct => {
                        s.append("(DISTINCT ");
                    },
                }
                s.append(expr.to_string(show).as_str());
                s.append(")");
                s
            },
        }
    }
}

/// The alias of a RETURN item behind ` AS `.
pub open spec fn alias_text(alias: Option<String>) -> Seq<char> {
    match alias {
        Some(a) => " AS "@ + a@,
        None => Seq::empty(),
    }
}

impl ReturnItem {
    /// The alias.
    pub open spec fn own_alias(self) -> Option<String> {
        match self {
            ReturnItem::Expr { alias, .. } => alias,
            ReturnItem::Aggregate { alias, .. } => alias,
        }
    }

    /// The alias.
    pub fn alias(&self) -> (r: Option<&str>)
        ensures
            match r {
                Some(s) => self.own_alias() is Some && self.own_alias()->0@ == s@,
                None => self.own_alias() is None,
            },
    {
        match self {
            ReturnItem::Expr { alias, .. } => match alias {
                Some(a) => Some(a.as_str()),
                None => None,
            },
            ReturnItem::Aggregate { alias, .. } => match alias {
                Some(a) => Some(a.as_str()),
                None => None,
            },
        }
    }

    /// Whether the item is reduced over a group.
    pub open spec fn aggregates(self) -> bool {
        match self {
            ReturnItem::Aggregate { .. } => true,
            ReturnItem::Expr { expr, .. } => expr.has_agg(),
        }
    }

    /// Whether the item is reduced over a group: an aggregate, or an
    /// expression that holds one.
    pub fn is_aggregate(&self) -> (r: bool)
        ensures
            r == self.aggregates(),
    {
        match self {
            ReturnItem::Aggregate { .. } => true,
            ReturnItem::Expr { expr, .. } => expr.contains_agg(),
        }
    }

    /// The printed form, with floating-point numbers as they are shown.
    pub open spec fn text(self, shown: spec_fn(u64) -> Seq<char>) -> Seq<char> {
        match self {
            ReturnItem::Expr { expr, alias } => expr.text(shown) + alias_text(alias),
            ReturnItem::Aggregate { agg, alias } => agg.text(shown) + alias_text(alias),
        }
    }

    /// The printed form, with floating-point numbers as a function prints them.
    pub fn to_string<F: Fn(u64) -> String>(&self, show: &F) -> (r: String)
        requires
            crate::model::float_text::prints_floats(*show),
        ensures
            r@ == self.text(crate::model::float_text::float_texts(*show)),
    {
        match self {
            ReturnItem::Expr { expr, alias } => {
                let mut s = expr.to_string(show);
                if let Some(a) = alias {
                    s.append(" AS ");
                    s.append(a.as_str());
                }
                assert(s@ =~= self.text(crate::model::float_text::float_texts(*show)));
                s
            },
            ReturnItem::Aggregate { agg, alias } => {
                let mut s = agg.to_string(show);
                if let Some(a) = alias {
                    s.append(" AS ");
                    s.append(a.as_str());
                }
                assert(s@ =~= self.text(crate::model::float_text::float_texts(*show)));
                s
            },
        }
    }
}

impl MatchStatement {
    /// The pattern.
    pub open spec fn own_pattern(self) -> PathPattern {
        match self {
            MatchStatement::Simple { pattern } => pattern,
            MatchStatement::Optional { pattern } => pattern,
        }
    }

    /// The pattern.
    pub fn pattern(&self) -> (r: &PathPattern)
        ensures
            *r == self.own_pattern(),
    {
        match self {
            MatchStatement::Simple { pattern } => pattern,
            MatchStatement::Optional { pattern } => pattern,
        }
    }

    /// Whether the clause is an OPTIONAL MATCH.
    pub fn is_optional(&self) -> (r: bool)
        ensures
            r == self is Optional,
    {
        match self {
            MatchStatement::Simple { .. } => false,
            MatchStatement::Optional { .. } => true,
        }
    }

    /// The printed form, with floating-point numbers as they are shown.
    pub open spec fn text(self, shown: spec_fn(u64) -> Seq<char>) -> Seq<char> {
        match self {
            MatchStatement::Simple { pattern } => "MATCH "@ + pattern.text(shown),
            MatchStatement::Optional { pattern } => "OPTIONAL MATCH "@ + pattern.text(shown),
        }
    }

    /// The printed form, with floating-point numbers as a function prints them.
    pub fn to_string<F: Fn(u64) -> String>(&self, show: &F) -> (r: String)
        requires
            crate::model::float_text::prints_floats(*show),
        ensures
            r@ == self.text(crate::model::float_text::float_texts(*show)),
    {
        match self {
            MatchStatement::Simple { pattern } => {
                let mut s = copy_text("MATCH ");
                s.append(pattern.to_string(show).as_str());
                s
            },
            MatchStatement::Optional { pattern } => {
                let mut s = copy_text("OPTIONAL MATCH ");
                s.append(pattern.to_string(show).as_str());
                s
            },
        }
    }
}

impl SortKey {
    /// The printed form, with floating-point numbers as they are shown; columns
    /// by their numbers.
    pub open spec fn text(self, shown: spec_fn(u64) -> Seq<char>) -> Seq<char> {
        match self {
            SortKey::Expr(e) => e.text(shown),
            SortKey::Column(idx) => "#"@ + crate::text::decimal(idx as nat),
            SortKey::ColumnCast { col, ty } => "CAST(#"@ + crate::text::decimal(col as nat)
                + " AS "@ + ty@.text() + ")"@,
            SortKey::ColumnField { col, path } => "#"@ + crate::text::decimal(col as nat) + "."@
                + crate::text::joined(crate::text::texts(path@), "."@),
        }
    }

    /// The printed form, with floating-point numbers as a function prints them.
    pub fn to_string<F: Fn(u64) -> String>(&self, show: &F) -> (r: String)
        requires
            crate::model::float_text::prints_floats(*show),
        ensures
            r@ == self.text(crate::model::float_text::float_texts(*show)),
    {
        match self {
            SortKey::Expr(e) => e.to_string(show),
            SortKey::Column(idx) => {
                let mut s = copy_text("#");
                s.append(text_of_usize(*idx).as_str());
                s
            },
            SortKey::ColumnCast { col, ty } => {
                let mut s = copy_text("CAST(#");
                s.append(text_of_usize(*col).as_str());
                s.append(" AS ");
                s.append(ty.to_string().as_str());
                s.append(")");
                s
            },
            SortKey::ColumnField { col, path } => {
                let mut s = copy_text("#");
                s.append(text_of_usize(*col).as_str());
                s.append(".");
                s.append(join_texts(path, ".").as_str());
                s
            },
        }
    }
}

impl SortSpec {
    /// The printed form, with floating-point numbers as they are shown; what is
    /// the default is left out.
    pub open spec fn text(self, shown: spec_fn(u64) -> Seq<char>) -> Seq<char> {
        let key = match self.dir {
            SortDir::Asc => self.key.text(shown),
            SortDir::Desc => self.key.text(shown) + " DESC"@,
        };
        match self.nulls {
            None => key,
            Some(NullsOrder::First) => key + " NULLS FIRST"@,
            Some(NullsOrder::Last) => key + " NULLS LAST"@,
        }
    }

    /// The printed form, with floating-point numbers as a function prints them.
    pub fn to_string<F: Fn(u64) -> String>(&self, show: &F) -> (r: String)
        requires
            crate::model::float_text::prints_floats(*show),
        ensures
            r@ == self.text(crate::model::float_text::float_texts(*show)),
    {
        let mut s = self.key.to_string(show);
        match self.dir {
            SortDir::Asc => {},
            SortDir::Desc => {
                s.append(" DESC");
            },
        }
        match self.nulls {
            None => {},
            Some(n) => match n {
                NullsOrder::First => {
                    s.append(" NULLS FIRST");
                },
                NullsOrder::Last => {
                    s.append(" NULLS LAST");
                },
            },
        }
        s
    }
}

/// The patterns of several MATCH clauses, joined from the left.
pub open spec fn joined_patterns(ms: Seq<MatchStatement>) -> PathPattern
    decreases ms.len(),
{
    if ms.len() <= 1 {
        ms[0].own_pattern()
    } else {
        PathPattern::Join(
            Box::new(joined_patterns(ms.drop_last())),
            Box::new(ms.last().own_pattern()),
        )
    }
}

fn join_patterns(matches: Vec<MatchStatement>) -> (r: PathPattern)
    requires
        matches@.len() > 0,
    ensures
        r == joined_patterns(matches@),
    decreases matches@.len(),
{
    let mut rest = matches;
    match rest.pop() {
        Some(m) => {
            assert(rest@ == matches@.drop_last());
            let p = match m {
                MatchStatement::Simple { pattern } => pattern,
                MatchStatement::Optional { pattern } => pattern,
            };
            if rest.len() == 0 {
                p
            } else {
                PathPattern::Join(Box::new(join_patterns(rest)), Box::new(p))
            }
        },
        None => PathPattern::Node(None),
    }
}

impl Query {
    /// A query of one pattern and nothing else.
    pub fn pattern_only(pattern: PathPattern) -> (r: Self)
        ensures
            r.matches@ == seq![MatchStatement::Simple { pattern }],
            r.group_by is None,
            r.returns is None,
            !r.distinct,
            r.order_by is None,
            r.limit is None,
    {
        let mut matches: Vec<MatchStatement> = Vec::new();
        matches.push(MatchStatement::Simple { pattern });
        assert(matches@ =~= seq![MatchStatement::Simple { pattern }]);
        Query { matches, group_by: None, returns: None, distinct: false, order_by: None, limit: None }
    }

    /// Some clause is an OPTIONAL MATCH.
    pub open spec fn any_optional(self) -> bool {
        exists|i: int| 0 <= i < self.matches@.len() && (#[trigger] self.matches@[i]) is Optional
    }

    /// The MATCH clauses as one pattern, joined from the left. An OPTIONAL
    /// MATCH is an outer join, so it must not occur.
    pub fn collapsed_pattern(self) -> (r: PathPattern)
        requires
            self.matches@.len() > 0,
            !self.any_optional(),
        ensures
            r == joined_patterns(self.matches@),
    {
        join_patterns(self.matches)
    }

    /// Whether some clause is an OPTIONAL MATCH.
    pub fn has_any_optional(&self) -> (r: bool)
        ensures
            r == self.any_optional(),
    {
        let mut i: usize = 0;
        while i < self.matches.len()
            invariant
                i <= self.matches.len(),
                forall|j: int| 0 <= j < i ==> !((#[trigger] self.matches@[j]) is Optional),
            decreases self.matches.len() - i,
        {
            if self.matches[i].is_optional() {
                assert(self.matches@[i as int] is Optional);
                return true;
            }
            i = i + 1;
        }
        false
    }

    /// Whether a prefix occurs in some pattern.
    pub fn has_any_selected(&self) -> (r: bool)
        ensures
            r == exists|i: int|
                0 <= i < self.matches@.len() && (
                #[trigger] self.matches@[i]).own_pattern().selects(),
    {
        let mut i: usize = 0;
        while i < self.matches.len()
            invariant
                i <= self.matches.len(),
                forall|j: int|
                    0 <= j < i ==> !(#[trigger] self.matches@[j]).own_pattern().selects(),
            decreases self.matches.len() - i,
        {
            if self.matches[i].pattern().has_selected() {
                assert(self.matches@[i as int].own_pattern().selects());
                return true;
            }
            i = i + 1;
        }
        false
    }

    /// The MATCH clauses.
    pub open spec fn match_texts(self, shown: spec_fn(u64) -> Seq<char>) -> Seq<Seq<char>> {
        Seq::new(self.matches@.len(), |i: int| self.matches@[i].text(shown))
    }

    /// The printed form up to the GROUP BY clause.
    pub open spec fn grouped_text(self, shown: spec_fn(u64) -> Seq<char>) -> Seq<char> {
        let head = crate::text::joined(self.match_texts(shown), " "@);
        match self.group_by {
            Some(gb) => head + " GROUP BY "@ + crate::text::joined(Expr::texts(gb@, shown), ", "@),
            None => head,
        }
    }

    /// The printed form up to the RETURN clause.
    pub open spec fn returned_text(self, shown: spec_fn(u64) -> Seq<char>) -> Seq<char> {
        match self.returns {
            Some(items) => {
                let parts = Seq::new(items@.len(), |i: int| items@[i].text(shown));
                let lead = self.grouped_text(shown) + " RETURN "@;
                (if self.distinct {
                    lead + "DISTINCT "@
                } else {
                    lead
                }) + crate::text::joined(parts, ", "@)
            },
            None => self.grouped_text(shown),
        }
    }

    /// The printed form up to the ORDER BY clause.
    pub open spec fn ordered_text(self, shown: spec_fn(u64) -> Seq<char>) -> Seq<char> {
        match self.order_by {
            Some(specs) => {
                let parts = Seq::new(specs@.len(), |i: int| specs@[i].text(shown));
                self.returned_text(shown) + " ORDER BY "@ + crate::text::joined(parts, ", "@)
            },
            None => self.returned_text(shown),
        }
    }

    /// The printed form, with floating-point numbers as they are shown.
    pub open spec fn text(self, shown: spec_fn(u64) -> Seq<char>) -> Seq<char> {
        match self.limit {
            Some(n) => self.ordered_text(shown) + " LIMIT "@ + crate::text::decimal(n as nat),
            None => self.ordered_text(shown),
        }
    }

    /// The printed form, with floating-point numbers as a function prints them.
    pub fn to_string<F: Fn(u64) -> String>(&self, show: &F) -> (r: String)
        requires
            crate::model::float_text::prints_floats(*show),
        ensures
            r@ == self.text(crate::model::float_text::float_texts(*show)),
    {
        let ghost shown = crate::model::float_text::float_texts(*show);
        let mut heads: Vec<String> = Vec::new();
        let mut i: usize = 0;
        while i < self.matches.len()
            invariant
                i <= self.matches.len(),
                crate::model::float_text::prints_floats(*show),
                shown == crate::model::float_text::float_texts(*show),
                heads@.len() == i,
                forall|j: int|
                    0 <= j < i ==> (#[trigger] heads@[j])@ == self.matches@[j].text(shown),
            decreases self.matches.len() - i,
        {
            heads.push(self.matches[i].to_string(show));
            i = i + 1;
        }
        assert(crate::text::texts(heads@) =~= self.match_texts(shown));
        let mut s = join_texts(&heads, " ");
        if let Some(gb) = &self.group_by {
            let parts = Expr::to_strings(gb, show);
            s.append(" GROUP BY ");
            s.append(join_texts(&parts, ", ").as_str());
        }
        assert(s@ == self.grouped_text(shown));
        if let Some(items) = &self.returns {
            s.append(" RETURN ");
            if self.distinct {
                s.append("DISTINCT ");
            }
            let mut parts: Vec<String> = Vec::new();
            let mut i: usize = 0;
            while i < items.len()
                invariant
                    i <= items.len(),
                    crate::model::float_text::prints_floats(*show),
                    shown == crate::model::float_text::float_texts(*show),
                    parts@.len() == i,
                    forall|j: int| 0 <= j < i ==> (#[trigger] parts@[j])@ == items@[j].text(shown),
                decreases items.len() - i,
            {
                parts.push(items[i].to_string(show));
                i = i + 1;
            }
            assert(crate::text::texts(parts@) =~= Seq::new(
                items@.len(),
                |i: int| items@[i].text(shown),
            ));
            s.append(join_texts(&parts, ", ").as_str());
        }
        assert(s@ == self.returned_text(shown));
        if let Some(specs) = &self.order_by {
            s.append(" ORDER BY ");
            let mut parts: Vec<String> = Vec::new();
            let mut i: usize = 0;
            while i < specs.len()
                invariant
                    i <= specs.len(),
                    crate::model::float_text::prints_floats(*show),
                    shown == crate::model::float_text::float_texts(*show),
                    parts@.len() == i,
                    forall|j: int| 0 <= j < i ==> (#[trigger] parts@[j])@ == specs@[j].text(shown),
                decreases specs.len() - i,
            {
                parts.push(specs[i].to_string(show));
                i = i + 1;
            }
            assert(crate::text::texts(parts@) =~= Seq::new(
                specs@.len(),
                |i: int| specs@[i].text(shown),
            ));
            s.append(join_texts(&parts, ", ").as_str());
        }
        assert(s@ == self.ordered_text(shown));
        if let Some(n) = self.limit {
            s.append(" LIMIT ");
            s.append(text_of_u64(n as u64).as_str());
        }
        s
    }
}

} // verus!

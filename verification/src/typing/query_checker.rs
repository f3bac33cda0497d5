//! The type checker for whole queries.

use vstd::prelude::*;

use super::checker::{TypecheckResult, Typechecker};
use super::diagnosis::is_orderable_per_iso_22_14;
use super::simple_type::{SimpleType, SimpleTypeView};
use super::type_environment::TypeEnvironment;
use crate::fields::NameSet;
use crate::syntax::descriptor::Descriptor;
use crate::syntax::expr::Expr;
use crate::syntax::path_pattern::PathPattern;
use crate::syntax::path_prefix::{PathPrefix, PathSearch, UnboundedSupport};
use crate::syntax::query::{MatchStatement, Query, ReturnItem, SortKey, SortSpec};
use crate::text::{copy_text, join_texts, same_text, text_of_usize};

verus! {

impl Typechecker {
    /// Checks a query: its patterns, then its GROUP BY, RETURN and ORDER BY
    /// clauses. What earlier checks found is cleared first. What is found prints
    /// floating-point numbers as a function prints them.
    pub fn check_query<F: Fn(u64) -> String>(&mut self, q: &Query, show: &F) -> (
        r: TypecheckResult)
        requires
            crate::model::float_text::prints_floats(*show),
            super::query_judgment::query_ready(*q),
        ensures
            (r.shape(), final(self).notes()) == super::query_judgment::judge_query(
                old(self).scope(),
                *q,
                crate::model::float_text::float_texts(*show),
            ),
            r.ok == (final(self).errors@.len() == 0),
            r.empty == super::query_judgment::shape_is_empty(r.shape()),
            final(self).scope() == old(self).scope(),
    {
        self.errors.clear();
        self.warnings.clear();
        assert(self.notes().errors =~= super::judgment::Notes::none().errors);
        assert(self.notes().warnings =~= super::judgment::Notes::none().warnings);
        let mut r = if q.has_any_optional() {
            self.check_match_chain(&q.matches)
        } else {
            self.check_joined(&q.matches)
        };
        r.empty = r.path.is_unsatisfiable() || r.env.is_empty();
        self.check_unbounded_repetition(&q.matches);
        self.check_selective_isolation(&q.matches);
        if let Some(group_by) = &q.group_by {
            let _ = self.check_all(group_by, &r.env);
        }
        if let Some(projected) = &q.returns {
            self.check_returns(projected, &r.env);
            match &q.group_by {
                Some(group_by) => {
                    self.check_returns_match_group_by(projected, group_by, show);
                },
                None => {
                    self.check_no_implicit_group_by(projected);
                },
            }
        }
        if let Some(specs) = &q.order_by {
            self.check_order_by(specs, &q.returns, &r.env, show);
        }
        if self.errors.len() > 0 {
            r.ok = false;
        }
        r
    }

    /// A chain of plain MATCH clauses, as one joined pattern.
    fn check_joined(&mut self, matches: &Vec<MatchStatement>) -> (r: TypecheckResult)
        requires
            matches@.len() > 0,
            super::judgment::body_ready(matches@),
        ensures
            (r.shape(), final(self).notes()) == super::judgment::judge_pattern(
                old(self).scope(),
                crate::syntax::query::joined_patterns(matches@),
                old(self).notes(),
            ),
            r.ok,
            final(self).scope() == old(self).scope(),
    {
        let first = matches[0].pattern();
        assert(super::judgment::pattern_ready(*first)) by {
            match matches@[0] {
                MatchStatement::Simple { pattern } => {},
                MatchStatement::Optional { pattern } => {},
            }
        }
        let mut r = self.check_path_pattern(first);
        let mut i: usize = 1;
        assert(crate::syntax::query::joined_patterns(matches@.take(1)) == *first);
        while i < matches.len()
            invariant
                1 <= i <= matches.len(),
                super::judgment::body_ready(matches@),
                self.scope() == old(self).scope(),
                (r.shape(), self.notes()) == super::judgment::judge_pattern(
                    old(self).scope(),
                    crate::syntax::query::joined_patterns(matches@.take(i as int)),
                    old(self).notes(),
                ),
                r.ok,
            decreases matches.len() - i,
        {
            assert(matches@.take(i + 1).drop_last() =~= matches@.take(i as int));
            let next = matches[i].pattern();
            assert(super::judgment::pattern_ready(*next)) by {
                match matches@[i as int] {
                    MatchStatement::Simple { pattern } => {},
                    MatchStatement::Optional { pattern } => {},
                }
            }
            assert(crate::syntax::query::joined_patterns(matches@.take(i + 1))
                == PathPattern::Join(
                Box::new(crate::syntax::query::joined_patterns(matches@.take(i as int))),
                Box::new(*next),
            ));
            let r2 = self.check_path_pattern(next);
            r = self.join_results(r, r2);
            i = i + 1;
        }
        assert(matches@.take(i as int) =~= matches@);
        r
    }

    /// A chain of MATCH clauses, some of them OPTIONAL.
    fn check_match_chain(&mut self, matches: &Vec<MatchStatement>) -> (r: TypecheckResult)
        requires
            matches@.len() > 0,
            super::judgment::body_ready(matches@),
        ensures
            (r.shape(), final(self).notes()) == super::query_judgment::judge_chain(
                old(self).scope(),
                matches@,
                old(self).notes(),
            ),
            r.ok,
            final(self).scope() == old(self).scope(),
    {
        let first = matches[0].pattern();
        assert(super::judgment::pattern_ready(*first)) by {
            match matches@[0] {
                MatchStatement::Simple { pattern } => {},
                MatchStatement::Optional { pattern } => {},
            }
        }
        let mut r = self.check_path_pattern(first);
        if matches[0].is_optional() {
            r.env = TypeEnvironment::outer_join(&self.schema, &TypeEnvironment::new(), &r.env);
        }
        let mut i: usize = 1;
        assert(matches@.take(1)[0] == matches@[0]);
        while i < matches.len()
            invariant
                1 <= i <= matches.len(),
                super::judgment::body_ready(matches@),
                self.scope() == old(self).scope(),
                (r.shape(), self.notes()) == super::query_judgment::judge_chain(
                    old(self).scope(),
                    matches@.take(i as int),
                    old(self).notes(),
                ),
                r.ok,
            decreases matches.len() - i,
        {
            assert(matches@.take(i + 1).drop_last() =~= matches@.take(i as int));
            let next = matches[i].pattern();
            assert(super::judgment::pattern_ready(*next)) by {
                match matches@[i as int] {
                    MatchStatement::Simple { pattern } => {},
                    MatchStatement::Optional { pattern } => {},
                }
            }
            let r2 = self.check_path_pattern(next);
            if matches[i].is_optional() {
                r.env = TypeEnvironment::outer_join(&self.schema, &r.env, &r2.env);
            } else {
                match TypeEnvironment::meet(&self.schema, &r.env, &r2.env) {
                    Ok(e) => {
                        self.warn_for_collapsed_bindings(&e, &r.env, &r2.env);
                        r.env = e;
                    },
                    Err(e) => {
                        let mut s = copy_text("Concatenation of contexts failed: ");
                        s.append(e.as_str());
                        self.error(s);
                    },
                }
            }
            i = i + 1;
        }
        assert(matches@.take(i as int) =~= matches@);
        r
    }

    /// Rejects unbounded repetition that no prefix makes finite.
    fn check_unbounded_repetition(&mut self, matches: &Vec<MatchStatement>)
        ensures
            final(self).notes() == super::query_judgment::unbounded_clauses(
                matches@,
                old(self).notes(),
            ),
            final(self).scope() == old(self).scope(),
    {
        let mut i: usize = 0;
        while i < matches.len()
            invariant
                i <= matches.len(),
                self.scope() == old(self).scope(),
                self.notes() == super::query_judgment::unbounded_clauses(
                    matches@.take(i as int),
                    old(self).notes(),
                ),
            decreases matches.len() - i,
        {
            assert(matches@.take(i + 1).drop_last() =~= matches@.take(i as int));
            self.check_unbounded_in(matches[i].pattern(), None);
            i = i + 1;
        }
        assert(matches@.take(i as int) =~= matches@);
    }

    /// `check_unbounded_repetition` in a pattern under its nearest prefix.
    fn check_unbounded_in(&mut self, p: &PathPattern, prefix: Option<PathPrefix>)
        ensures
            final(self).notes() == super::query_judgment::unbounded_notes(
                *p,
                prefix,
                old(self).notes(),
            ),
            final(self).scope() == old(self).scope(),
        decreases p,
    {
        match p {
            PathPattern::Selected { prefix: pp, pattern } => {
                self.check_unbounded_in(pattern, Some(*pp));
            },
            PathPattern::Repeat { pattern, lb, ub } => {
                if ub.is_none() {
                    self.validate_unbounded(*lb, prefix);
                }
                self.check_unbounded_in(pattern, prefix);
            },
            PathPattern::Concat(a, b) => {
                self.check_unbounded_in(a, prefix);
                self.check_unbounded_in(b, prefix);
            },
            PathPattern::Union(a, b) => {
                self.check_unbounded_in(a, prefix);
                self.check_unbounded_in(b, prefix);
            },
            PathPattern::Join(a, b) => {
                self.check_unbounded_in(a, prefix);
                self.check_unbounded_in(b, prefix);
            },
            PathPattern::Filter(inner, _) => {
                self.check_unbounded_in(inner, prefix);
            },
            PathPattern::Questioned(inner) => {
                self.check_unbounded_in(inner, prefix);
            },
            PathPattern::Named { pattern, .. } => {
                self.check_unbounded_in(pattern, prefix);
            },
            PathPattern::Node(_) => {},
            PathPattern::EdgeRight(_) => {},
            PathPattern::EdgeLeft(_) => {},
            PathPattern::EdgeUndirected(_) => {},
            PathPattern::EdgeAnyDirection(_) => {},
        }
    }

    /// One unbounded repetition under its nearest prefix.
    fn validate_unbounded(&mut self, lb: usize, prefix: Option<PathPrefix>)
        ensures
            final(self).notes() == super::query_judgment::unbounded_note(
                lb,
                prefix,
                old(self).notes(),
            ),
            final(self).scope() == old(self).scope(),
    {
        let support = match prefix {
            Some(p) => p.unbounded_support(),
            None => None,
        };
        match support {
            None => {
                self.error(
                    copy_text(
                        "Unbounded repetition (`*`, `+`, `{n,}`) is only supported under a SHORTEST-family path search prefix (`ANY SHORTEST`, `ALL SHORTEST`, `SHORTEST n [PATHS]`, `SHORTEST n GROUPS`) or a restrictive path mode (`ACYCLIC`, `SIMPLE`, `TRAIL`). Bounded repetition `{n,m}` works without any prefix.",
                    ),
                );
            },
            Some(UnboundedSupport::Shortest { .. }) => {
                if lb > 1 {
                    self.error(
                        copy_text(
                            "SHORTEST over unbounded repetition supports `*` and `+` only; `{n,}` with n >= 2 needs a restrictive path mode (`ACYCLIC` / `SIMPLE` / `TRAIL`) instead.",
                        ),
                    );
                }
            },
            Some(UnboundedSupport::Mode(_)) => {},
        }
    }

    /// Selective operands share only their end nodes with the rest.
    fn check_selective_isolation(&mut self, matches: &Vec<MatchStatement>)
        ensures
            final(self).notes() == super::query_judgment::isolation_notes(
                super::query_judgment::selected_in_all(matches@),
                super::query_judgment::declared_in_all(matches@),
                old(self).notes(),
            ),
            final(self).scope() == old(self).scope(),
    {
        let mut all: Vec<String> = Vec::new();
        let mut selected: Vec<&PathPattern> = Vec::new();
        let mut i: usize = 0;
        assert(crate::text::texts(all@) =~= super::query_judgment::declared_in_all(
            matches@.take(0),
        ));
        assert(pattern_refs(selected@) =~= super::query_judgment::selected_in_all(matches@.take(0)));
        while i < matches.len()
            invariant
                i <= matches.len(),
                crate::text::texts(all@) == super::query_judgment::declared_in_all(
                    matches@.take(i as int),
                ),
                pattern_refs(selected@) == super::query_judgment::selected_in_all(
                    matches@.take(i as int),
                ),
            decreases matches.len() - i,
        {
            assert(matches@.take(i + 1).drop_last() =~= matches@.take(i as int));
            let p = matches[i].pattern();
            collect_declared(p, &mut all);
            collect_selected(p, &mut selected);
            i = i + 1;
        }
        assert(matches@.take(i as int) =~= matches@);
        let ghost names = crate::text::texts(all@);
        let ghost ps = pattern_refs(selected@);
        let mut k: usize = 0;
        while k < selected.len()
            invariant
                k <= selected.len(),
                ps == pattern_refs(selected@),
                names == crate::text::texts(all@),
                self.scope() == old(self).scope(),
                self.notes() == super::query_judgment::isolation_notes(
                    ps.take(k as int),
                    names,
                    old(self).notes(),
                ),
            decreases selected.len() - k,
        {
            assert(ps.take(k + 1).drop_last() =~= ps.take(k as int));
            let p: &PathPattern = selected[k];
            assert(ps.take(k + 1).last() == *p);
            self.check_isolated(p, &all);
            k = k + 1;
        }
        assert(ps.take(k as int) =~= ps);
    }

    /// One selective operand.
    fn check_isolated(&mut self, p: &PathPattern, all: &Vec<String>)
        ensures
            final(self).notes() == super::query_judgment::isolation_note(
                *p,
                crate::text::texts(all@),
                old(self).notes(),
            ),
            final(self).scope() == old(self).scope(),
    {
        if let PathPattern::Selected { prefix, pattern } = p {
            if let PathSearch::All = prefix.search {
                return;
            }
            let shared = shared_interior(pattern, all);
            let n = shared.len();
            if n > 0 {
                let mut names: Vec<String> = Vec::new();
                let mut i: usize = 0;
                while i < n
                    invariant
                        i <= n,
                        n == shared.names().len(),
                        names@.len() == i,
                        forall|j: int|
                            0 <= j < i ==> (#[trigger] names@[j])@ == shared.names()[j],
                    decreases n - i,
                {
                    names.push(shared.at(i).clone());
                    i = i + 1;
                }
                assert(crate::text::texts(names@) =~= shared.names());
                let mut s = copy_text(
                    "Selective path pattern (a SHORTEST/ANY pattern) shares interior variable(s) `",
                );
                s.append(join_texts(&names, "`, `").as_str());
                s.append(
                    "` with the rest of the query. ISO §16.6 SR 7 requires a selective pattern to be evaluable in isolation: only its boundary (endpoint) variables may join other patterns. Rename the interior variable(s), or restructure so the shared variable is an endpoint.",
                );
                self.error(s);
            }
        }
    }

    /// Without GROUP BY, aggregates do not stand beside other items.
    fn check_no_implicit_group_by(&mut self, items: &Vec<ReturnItem>)
        ensures
            final(self).notes() == super::query_judgment::mixing_note(items@, old(self).notes()),
            final(self).scope() == old(self).scope(),
    {
        let mut has_agg = false;
        let mut has_expr = false;
        let mut i: usize = 0;
        while i < items.len()
            invariant
                i <= items.len(),
                has_agg == exists|j: int| 0 <= j < i && (#[trigger] items@[j]).aggregates(),
                has_expr == exists|j: int| 0 <= j < i && !(#[trigger] items@[j]).aggregates(),
            decreases items.len() - i,
        {
            if items[i].is_aggregate() {
                has_agg = true;
            } else {
                has_expr = true;
            }
            i = i + 1;
        }
        if has_agg && has_expr {
            self.error(
                copy_text(
                    "RETURN mixes aggregate and non-aggregate items but no GROUP BY clause is present. Add `GROUP BY <expr>...` before the RETURN.",
                ),
            );
        }
    }

    /// Every other item of a grouped RETURN clause is determined by the keys.
    fn check_returns_match_group_by<F: Fn(u64) -> String>(
        &mut self,
        items: &Vec<ReturnItem>,
        group_by: &Vec<Expr>,
        show: &F,
    )
        requires
            crate::model::float_text::prints_floats(*show),
        ensures
            final(self).notes() == super::query_judgment::grouping_notes(
                items@,
                group_by@,
                crate::model::float_text::float_texts(*show),
                old(self).notes(),
            ),
            final(self).scope() == old(self).scope(),
    {
        let mut i: usize = 0;
        while i < items.len()
            invariant
                i <= items.len(),
                self.scope() == old(self).scope(),
                crate::model::float_text::prints_floats(*show),
                self.notes() == super::query_judgment::grouping_notes(
                    items@.take(i as int),
                    group_by@,
                    crate::model::float_text::float_texts(*show),
                    old(self).notes(),
                ),
            decreases items.len() - i,
        {
            assert(items@.take(i + 1).drop_last() =~= items@.take(i as int));
            if let ReturnItem::Expr { expr, .. } = &items[i] {
                if !is_determined(expr, group_by) {
                    let mut s = copy_text("RETURN item `");
                    s.append(expr.to_string(show).as_str());
                    s.append(
                        "` is not functionally determined by the GROUP BY keys; a non-aggregate projection must match a grouping key or depend only on grouped binding variables.",
                    );
                    self.error(s);
                }
            }
            i = i + 1;
        }
        assert(items@.take(i as int) =~= items@);
    }

    /// The items of a RETURN clause.
    fn check_returns(&mut self, items: &Vec<ReturnItem>, env: &TypeEnvironment)
        requires
            super::query_judgment::items_ready(items@),
        ensures
            final(self).notes() == super::query_judgment::return_notes(
                old(self).scope(),
                items@,
                env@,
                old(self).notes(),
            ),
            final(self).scope() == old(self).scope(),
    {
        let mut i: usize = 0;
        while i < items.len()
            invariant
                i <= items.len(),
                super::query_judgment::items_ready(items@),
                self.scope() == old(self).scope(),
                self.notes() == super::query_judgment::return_notes(
                    old(self).scope(),
                    items@.take(i as int),
                    env@,
                    old(self).notes(),
                ),
            decreases items.len() - i,
        {
            assert(items@.take(i + 1).drop_last() =~= items@.take(i as int));
            match &items[i] {
                ReturnItem::Expr { expr, .. } => {
                    let _ = self.check_expr(expr, env);
                },
                ReturnItem::Aggregate { agg, .. } => {
                    let _ = self.check_aggregator(agg, env);
                },
            }
            i = i + 1;
        }
        assert(items@.take(i as int) =~= items@);
    }

    /// An ORDER BY clause.
    fn check_order_by<F: Fn(u64) -> String>(
        &mut self,
        specs: &Vec<SortSpec>,
        projected: &Option<Vec<ReturnItem>>,
        env: &TypeEnvironment,
        show: &F,
    )
        requires
            crate::model::float_text::prints_floats(*show),
            super::query_judgment::specs_ready(specs@),
            super::query_judgment::items_ready(super::query_judgment::items_of(*projected)),
        ensures
            final(self).notes() == super::query_judgment::order_notes(
                old(self).scope(),
                specs@,
                super::query_judgment::items_of(*projected),
                env@,
                crate::model::float_text::float_texts(*show),
                old(self).notes(),
            ),
            final(self).scope() == old(self).scope(),
    {
        let mut has_expr = false;
        let mut has_column = false;
        let mut k: usize = 0;
        while k < specs.len()
            invariant
                k <= specs.len(),
                has_expr == exists|j: int| 0 <= j < k && (#[trigger] specs@[j]).key is Expr,
                has_column == exists|j: int| 0 <= j < k && !((#[trigger] specs@[j]).key is Expr),
            decreases specs.len() - k,
        {
            if let SortKey::Expr(_) = &specs[k].key {
                has_expr = true;
            } else {
                has_column = true;
            }
            k = k + 1;
        }
        if has_expr && has_column {
            self.error(
                copy_text(
                    "ORDER BY mixes RETURN-alias references and free expressions; either use only aliases (each sort target with `AS <name>` in RETURN) or only free expressions over the binding table.",
                ),
            );
        }
        let ghost items = super::query_judgment::items_of(*projected);
        let ghost start = self.notes();
        let mut i: usize = 0;
        while i < specs.len()
            invariant
                i <= specs.len(),
                items == super::query_judgment::items_of(*projected),
                super::query_judgment::specs_ready(specs@),
                super::query_judgment::items_ready(items),
                self.scope() == old(self).scope(),
                crate::model::float_text::prints_floats(*show),
                self.notes() == super::query_judgment::sort_notes(
                    old(self).scope(),
                    specs@.take(i as int),
                    items,
                    env@,
                    crate::model::float_text::float_texts(*show),
                    start,
                ),
            decreases specs.len() - i,
        {
            assert(specs@.take(i + 1).drop_last() =~= specs@.take(i as int));
            assert(specs@.take(i + 1).last() == specs@[i as int]);
            let t = self.check_sort_key(&specs[i].key, projected, env);
            if let Some(t) = t {
                if !is_orderable_per_iso_22_14(&t) {
                    let mut s = copy_text("ORDER BY sort key `");
                    s.append(specs[i].key.to_string(show).as_str());
                    s.append("` has type ");
                    s.append(t.to_string().as_str());
                    s.append(
                        " which is not a comparable value type per ISO §22.14 Conformance Rule 1; expected a scalar (Int, Float, Bool, Str) — gqlite does not implement Feature GA04 'Universal comparison'.",
                    );
                    self.error(s);
                }
            }
            i = i + 1;
        }
        assert(specs@.take(i as int) =~= specs@);
    }

    /// The type of a sort key.
    fn check_sort_key(
        &mut self,
        key: &SortKey,
        projected: &Option<Vec<ReturnItem>>,
        env: &TypeEnvironment,
    ) -> (r: Option<SimpleType>)
        requires
            match *key {
                SortKey::Expr(e) => super::judgment::expr_ready(e),
                _ => true,
            },
            super::query_judgment::items_ready(super::query_judgment::items_of(*projected)),
        ensures
            (option_type(r), final(self).notes()) == super::query_judgment::sort_type(
                old(self).scope(),
                *key,
                super::query_judgment::items_of(*projected),
                env@,
                old(self).notes(),
            ),
            final(self).scope() == old(self).scope(),
    {
        match key {
            SortKey::Expr(e) => Some(self.check_expr(e, env)),
            SortKey::Column(col) => self.check_column(*col, projected, env),
            SortKey::ColumnCast { col, ty } => {
                if *col < count_items(projected) {
                    Some(ty.clone())
                } else {
                    self.report_bounds(*col, projected);
                    None
                }
            },
            SortKey::ColumnField { col, path } => match self.check_column(*col, projected, env) {
                Some(t) => Some(self.walk_fields(t, path)),
                None => None,
            },
        }
    }

    /// The type of a projected column.
    fn check_column(
        &mut self,
        col: usize,
        projected: &Option<Vec<ReturnItem>>,
        env: &TypeEnvironment,
    ) -> (r: Option<SimpleType>)
        requires
            super::query_judgment::items_ready(super::query_judgment::items_of(*projected)),
        ensures
            (option_type(r), final(self).notes()) == super::query_judgment::column_type(
                old(self).scope(),
                col,
                super::query_judgment::items_of(*projected),
                env@,
                old(self).notes(),
            ),
            final(self).scope() == old(self).scope(),
    {
        if let Some(items) = projected {
            if col < items.len() {
                return match &items[col] {
                    ReturnItem::Expr { expr, .. } => Some(self.check_expr(expr, env)),
                    ReturnItem::Aggregate { .. } => Some(SimpleType::Star),
                };
            }
        }
        self.report_bounds(col, projected);
        None
    }

    /// Says that a column is not there.
    fn report_bounds(&mut self, col: usize, projected: &Option<Vec<ReturnItem>>)
        ensures
            final(self).notes() == old(self).notes().error(
                super::query_judgment::bounds_text(
                    col,
                    super::query_judgment::items_of(*projected),
                ),
            ),
            final(self).scope() == old(self).scope(),
    {
        let mut s = copy_text("ORDER BY column reference #");
        s.append(text_of_usize(col).as_str());
        s.append(" is out of bounds for the RETURN clause (only ");
        s.append(text_of_usize(count_items(projected)).as_str());
        s.append(" item(s) projected)");
        self.error(s);
    }

    /// The type at the end of a path of fields.
    fn walk_fields(&mut self, t: SimpleType, path: &Vec<String>) -> (r: SimpleType)
        ensures
            (r@, final(self).notes()) == super::query_judgment::walked_type(
                t@,
                path@,
                old(self).notes(),
            ),
            final(self).scope() == old(self).scope(),
    {
        let ghost start = t@;
        let mut t = t;
        let mut i: usize = 0;
        while i < path.len()
            invariant
                i <= path.len(),
                self.scope() == old(self).scope(),
                (t@, self.notes()) == super::query_judgment::walked_type(
                    start,
                    path@.take(i as int),
                    old(self).notes(),
                ),
            decreases path.len() - i,
        {
            assert(path@.take(i + 1).drop_last() =~= path@.take(i as int));
            let next = match &t {
                SimpleType::Record(fields) => match fields.get(path[i].as_str()) {
                    Some(f) => f.clone(),
                    None => SimpleType::Zero,
                },
                SimpleType::Star => SimpleType::Star,
                SimpleType::Zero => SimpleType::Zero,
                _ => {
                    let mut s = copy_text("ORDER BY field `.");
                    s.append(path[i].as_str());
                    s.append("` accesses a non-record type ");
                    s.append(t.to_string().as_str());
                    self.error(s);
                    SimpleType::Zero
                },
            };
            t = next;
            i = i + 1;
        }
        assert(path@.take(i as int) =~= path@);
        t
    }
}

/// The value of an optional type.
spec fn option_type(t: Option<SimpleType>) -> Option<SimpleTypeView> {
    match t {
        Some(t) => Some(t@),
        None => None,
    }
}

/// How many columns are projected.
fn count_items(projected: &Option<Vec<ReturnItem>>) -> (r: usize)
    ensures
        r == super::query_judgment::items_of(*projected).len(),
{
    match projected {
        Some(items) => items.len(),
        None => 0,
    }
}

/// The patterns that the references stand for.
pub open spec fn pattern_refs(v: Seq<&PathPattern>) -> Seq<PathPattern> {
    Seq::new(v.len(), |i: int| *v[i])
}

/// Adds the variable of a descriptor.
fn push_declared(d: &Option<Descriptor>, out: &mut Vec<String>)
    ensures
        crate::text::texts(final(out)@) == crate::text::texts(old(out)@)
            + super::query_judgment::one_name(super::judgment::bound_name(*d)),
{
    if let Some(d) = d {
        if let Some(v) = &d.var {
            out.push(v.clone());
        }
    }
    assert(crate::text::texts(out@) =~= crate::text::texts(old(out)@)
        + super::query_judgment::one_name(super::judgment::bound_name(*d)));
}

/// Adds the variables that a pattern declares.
fn collect_declared(p: &PathPattern, out: &mut Vec<String>)
    ensures
        crate::text::texts(final(out)@) == crate::text::texts(old(out)@)
            + super::query_judgment::declared(*p),
    decreases p,
{
    match p {
        PathPattern::Node(d) => push_declared(d, out),
        PathPattern::EdgeRight(d) => push_declared(d, out),
        PathPattern::EdgeLeft(d) => push_declared(d, out),
        PathPattern::EdgeUndirected(d) => push_declared(d, out),
        PathPattern::EdgeAnyDirection(d) => push_declared(d, out),
        PathPattern::Concat(a, b) => {
            collect_declared(a, out);
            collect_declared(b, out);
        },
        PathPattern::Union(a, b) => {
            collect_declared(a, out);
            collect_declared(b, out);
        },
        PathPattern::Join(a, b) => {
            collect_declared(a, out);
            collect_declared(b, out);
        },
        PathPattern::Filter(inner, _) => collect_declared(inner, out),
        PathPattern::Questioned(inner) => collect_declared(inner, out),
        PathPattern::Repeat { pattern, .. } => collect_declared(pattern, out),
        PathPattern::Selected { pattern, .. } => collect_declared(pattern, out),
        PathPattern::Named { pattern, .. } => collect_declared(pattern, out),
    }
    assert(crate::text::texts(out@) =~= crate::text::texts(old(out)@)
        + super::query_judgment::declared(*p));
}

/// Adds the operands with a prefix.
fn collect_selected<'a>(p: &'a PathPattern, out: &mut Vec<&'a PathPattern>)
    ensures
        pattern_refs(final(out)@) == pattern_refs(old(out)@) + super::query_judgment::selected_in(
            *p,
        ),
    decreases p,
{
    match p {
        PathPattern::Selected { pattern, .. } => {
            out.push(p);
            let ghost mid = out@;
            assert(pattern_refs(mid) =~= pattern_refs(old(out)@) + seq![*p]);
            collect_selected(pattern, out);
        },
        PathPattern::Concat(a, b) => {
            collect_selected(a, out);
            collect_selected(b, out);
        },
        PathPattern::Union(a, b) => {
            collect_selected(a, out);
            collect_selected(b, out);
        },
        PathPattern::Join(a, b) => {
            collect_selected(a, out);
            collect_selected(b, out);
        },
        PathPattern::Filter(inner, _) => collect_selected(inner, out),
        PathPattern::Questioned(inner) => collect_selected(inner, out),
        PathPattern::Repeat { pattern, .. } => collect_selected(pattern, out),
        PathPattern::Named { pattern, .. } => collect_selected(pattern, out),
        PathPattern::Node(_) => {},
        PathPattern::EdgeRight(_) => {},
        PathPattern::EdgeLeft(_) => {},
        PathPattern::EdgeUndirected(_) => {},
        PathPattern::EdgeAnyDirection(_) => {},
    }
    assert(pattern_refs(out@) =~= pattern_refs(old(out)@) + super::query_judgment::selected_in(*p));
}

/// Adds the variables of the nodes on the top level.
fn collect_top_node_vars(p: &PathPattern, out: &mut Vec<String>)
    ensures
        crate::text::texts(final(out)@) == crate::text::texts(old(out)@)
            + super::query_judgment::top_nodes(*p),
    decreases p,
{
    match p {
        PathPattern::Node(d) => push_declared(d, out),
        PathPattern::Concat(a, b) => {
            collect_top_node_vars(a, out);
            collect_top_node_vars(b, out);
        },
        PathPattern::Filter(inner, _) => collect_top_node_vars(inner, out),
        PathPattern::Named { pattern, .. } => collect_top_node_vars(pattern, out),
        PathPattern::EdgeRight(_) => {},
        PathPattern::EdgeLeft(_) => {},
        PathPattern::EdgeUndirected(_) => {},
        PathPattern::EdgeAnyDirection(_) => {},
        PathPattern::Repeat { .. } => {},
        PathPattern::Questioned(_) => {},
        PathPattern::Union(_, _) => {},
        PathPattern::Join(_, _) => {},
        PathPattern::Selected { .. } => {},
    }
    assert(crate::text::texts(out@) =~= crate::text::texts(old(out)@)
        + super::query_judgment::top_nodes(*p));
}

/// How often a name occurs.
fn count_var_occurrences(names: &Vec<String>, v: &str) -> (r: usize)
    ensures
        r == super::query_judgment::occurrences(crate::text::texts(names@), v@),
{
    let ghost all = crate::text::texts(names@);
    let mut count: usize = 0;
    let mut i: usize = 0;
    while i < names.len()
        invariant
            i <= names.len(),
            count <= i,
            all == crate::text::texts(names@),
            count == super::query_judgment::occurrences(all.take(i as int), v@),
        decreases names.len() - i,
    {
        assert(all.take(i + 1).drop_last() =~= all.take(i as int));
        assert(all.take(i + 1).last() == names@[i as int]@);
        if same_text(names[i].as_str(), v) {
            count = count + 1;
        }
        i = i + 1;
    }
    assert(all.take(i as int) =~= all);
    count
}

/// The variables inside a pattern that the rest of the query declares too.
fn shared_interior(p: &PathPattern, all: &Vec<String>) -> (r: NameSet)
    ensures
        r@ == super::query_judgment::shared_inside(*p, crate::text::texts(all@)),
{
    let ghost names = crate::text::texts(all@);
    let mut tops: Vec<String> = Vec::new();
    collect_top_node_vars(p, &mut tops);
    let mut local: Vec<String> = Vec::new();
    collect_declared(p, &mut local);
    assert(crate::text::texts(tops@) =~= super::query_judgment::top_nodes(*p));
    assert(crate::text::texts(local@) =~= super::query_judgment::declared(*p));
    let ghost want = super::query_judgment::shared_inside(*p, names);
    let mut shared = NameSet::new();
    let mut i: usize = 0;
    while i < local.len()
        invariant
            i <= local.len(),
            names == crate::text::texts(all@),
            want == super::query_judgment::shared_inside(*p, names),
            crate::text::texts(tops@) == super::query_judgment::top_nodes(*p),
            crate::text::texts(local@) == super::query_judgment::declared(*p),
            forall|v: Seq<char>| #[trigger] shared@.contains(v) ==> want.contains(v),
            forall|j: int|
                0 <= j < i && want.contains((#[trigger] local@[j])@) ==> shared@.contains(
                    local@[j]@,
                ),
        decreases local.len() - i,
    {
        let v = local[i].as_str();
        let ghost ts = super::query_judgment::top_nodes(*p);
        assert(crate::text::texts(local@)[i as int] == v@);
        assert(super::query_judgment::declared(*p).contains(v@));
        let k = tops.len();
        let boundary = if k > 0 {
            assert(ts.first() == tops@[0]@);
            assert(ts.last() == tops@[k - 1]@);
            same_text(tops[0].as_str(), v) || same_text(tops[k - 1].as_str(), v)
        } else {
            false
        };
        if !boundary && count_var_occurrences(all, v) > count_var_occurrences(&local, v) {
            shared.insert(copy_text(v));
        }
        i = i + 1;
    }
    proof {
        assert forall|v: Seq<char>| want.contains(v) implies shared@.contains(v) by {
            let d = super::query_judgment::declared(*p);
            let j = choose|j: int| 0 <= j < d.len() && d[j] == v;
            assert(crate::text::texts(local@)[j] == local@[j]@);
            assert(want.contains(local@[j]@));
        }
        assert(shared@ =~= want);
    }
    shared
}

/// Whether the grouping keys determine the value of the expression.
fn is_determined(expr: &Expr, group_by: &Vec<Expr>) -> (r: bool)
    ensures
        r == super::query_judgment::determined(*expr, group_by@),
{
    if expr.contains_agg() || expr.contains_subquery() {
        return true;
    }
    let ghost keys = group_by@;
    let ghost grouped = super::query_judgment::grouped_vars(keys);
    let mut vars = NameSet::new();
    let mut i: usize = 0;
    while i < group_by.len()
        invariant
            i <= group_by.len(),
            keys == group_by@,
            grouped == super::query_judgment::grouped_vars(keys),
            forall|j: int| 0 <= j < i ==> !(#[trigger] keys[j]).plain_equal(*expr),
            forall|v: Seq<char>| #[trigger] vars@.contains(v) ==> grouped.contains(v),
            forall|j: int|
                0 <= j < i && (#[trigger] keys[j]) is Var ==> vars@.contains(keys[j]->Var_0@),
        decreases group_by.len() - i,
    {
        if group_by[i].plain_same(expr) {
            assert(keys[i as int].plain_equal(*expr));
            return true;
        }
        if let Expr::Var(name) = &group_by[i] {
            assert(keys[i as int] is Var && keys[i as int]->Var_0@ == name@);
            assert(grouped.contains(name@));
            vars.insert(name.clone());
        }
        i = i + 1;
    }
    assert(vars@ =~= grouped);
    let mut refs = NameSet::new();
    expr.referenced_vars(&mut refs);
    assert(refs@ =~= expr.vars());
    let n = refs.len();
    if n == 0 {
        assert(refs@ =~= Set::<Seq<char>>::empty()) by {
            assert forall|v: Seq<char>| !refs@.contains(v) by {
                assert(refs.names().to_set().contains(v) == refs@.contains(v));
            }
        }
        return false;
    }
    proof {
        assert(refs.names().to_set().contains(refs.names()[0]));
        assert(refs@.contains(refs.names()[0]));
    }
    let mut k: usize = 0;
    while k < n
        invariant
            k <= n,
            n == refs.names().len(),
            forall|j: int| 0 <= j < k ==> vars@.contains(#[trigger] refs.names()[j]),
        ensures
            k == n || !vars@.contains(refs.names()[k as int]),
        decreases n - k,
    {
        if !vars.contains(refs.at(k).as_str()) {
            break;
        }
        k = k + 1;
    }
    proof {
        if k < n {
            assert(refs.names().to_set().contains(refs.names()[k as int]));
            assert(!expr.vars().subset_of(grouped));
        } else {
            assert forall|v: Seq<char>| expr.vars().contains(v) implies grouped.contains(v) by {
                assert(refs.names().to_set().contains(v));
                let j = choose|j: int| 0 <= j < refs.names().len() && refs.names()[j] == v;
                assert(vars@.contains(refs.names()[j]));
            }
        }
    }
    k == n
}

} // verus!

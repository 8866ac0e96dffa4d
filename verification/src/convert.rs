use vstd::prelude::*;

use crate::error::{Error, ErrorV};
use crate::expr::{check_supported, clone_expr, first_unsupported, Expr, ExprV};
use crate::value::{Value, ValueV};

verus! {

/// Mathematical model of an [`OrderByItem`].
pub struct OrderByItemV {
    pub expr: ExprV,
    pub asc: Option<bool>,
}

/// One `ORDER BY` item as parsed: an expression and an optional explicit
/// direction (`None` means the default, ascending).
#[derive(Debug)]
pub struct OrderByItem {
    pub expr: Expr,
    pub asc: Option<bool>,
}

impl View for OrderByItem {
    type V = OrderByItemV;

    open spec fn view(&self) -> OrderByItemV {
        OrderByItemV { expr: self.expr@, asc: self.asc }
    }
}

impl DeepView for OrderByItem {
    type V = OrderByItemV;

    open spec fn deep_view(&self) -> OrderByItemV {
        self@
    }
}

/// Mathematical model of a [`TableFactor`].
pub enum TableFactorV {
    Named(Seq<char>),
    Other(Seq<char>),
}

/// The relation a `FROM` item names: a plain table name, or any other
/// form (subquery, derived table, table function), named for rejection.
#[derive(Debug)]
pub enum TableFactor {
    Named(String),
    Other(String),
}

impl View for TableFactor {
    type V = TableFactorV;

    open spec fn view(&self) -> TableFactorV {
        match self {
            TableFactor::Named(s) => TableFactorV::Named(s@),
            TableFactor::Other(s) => TableFactorV::Other(s@),
        }
    }
}

/// Mathematical model of a [`TableRef`].
pub struct TableRefV {
    pub factor: TableFactorV,
    pub has_joins: bool,
}

/// One `FROM` item: its relation and whether any join is attached.
#[derive(Debug)]
pub struct TableRef {
    pub factor: TableFactor,
    pub has_joins: bool,
}

impl View for TableRef {
    type V = TableRefV;

    open spec fn view(&self) -> TableRefV {
        TableRefV { factor: self.factor@, has_joins: self.has_joins }
    }
}

impl DeepView for TableRef {
    type V = TableRefV;

    open spec fn deep_view(&self) -> TableRefV {
        self@
    }
}

/// Mathematical model of a [`SelectItem`].
pub enum SelectItemV {
    Expr(ExprV),
    ExprWithAlias(ExprV, Seq<char>),
    Wildcard,
    Other(Seq<char>),
}

/// One item of the `SELECT` list: a bare expression, an aliased
/// expression, the `*` wildcard, or any other form, named for rejection.
#[derive(Debug)]
pub enum SelectItem {
    Expr(Expr),
    ExprWithAlias(Expr, String),
    Wildcard,
    Other(String),
}

impl View for SelectItem {
    type V = SelectItemV;

    open spec fn view(&self) -> SelectItemV {
        match self {
            SelectItem::Expr(e) => SelectItemV::Expr(e@),
            SelectItem::ExprWithAlias(e, a) => SelectItemV::ExprWithAlias(e@, a@),
            SelectItem::Wildcard => SelectItemV::Wildcard,
            SelectItem::Other(s) => SelectItemV::Other(s@),
        }
    }
}

impl DeepView for SelectItem {
    type V = SelectItemV;

    open spec fn deep_view(&self) -> SelectItemV {
        self@
    }
}

/// Mathematical model of a [`SelectStmt`].
pub struct SelectStmtV {
    pub projection: Seq<SelectItemV>,
    pub from: Seq<TableRefV>,
    pub selection: Option<ExprV>,
    pub group_by: bool,
    pub having: bool,
    pub order_by: Seq<OrderByItemV>,
    pub offset: Option<ExprV>,
    pub limit: Option<ExprV>,
    pub other_clause: Option<Seq<char>>,
}

/// A parsed query statement, reduced to the clauses this system reads.
/// `group_by`, `having` and `other_clause` record the presence of clauses
/// outside the supported subset, so that translation rejects them by name.
#[derive(Debug)]
pub struct SelectStmt {
    pub projection: Vec<SelectItem>,
    pub from: Vec<TableRef>,
    pub selection: Option<Expr>,
    pub group_by: bool,
    pub having: bool,
    pub order_by: Vec<OrderByItem>,
    pub offset: Option<Expr>,
    pub limit: Option<Expr>,
    pub other_clause: Option<String>,
}

pub open spec fn opt_expr_view(e: Option<Expr>) -> Option<ExprV> {
    match e {
        Some(e) => Some(e@),
        None => None,
    }
}

pub open spec fn opt_str_view(s: Option<String>) -> Option<Seq<char>> {
    match s {
        Some(s) => Some(s@),
        None => None,
    }
}

impl View for SelectStmt {
    type V = SelectStmtV;

    open spec fn view(&self) -> SelectStmtV {
        SelectStmtV {
            projection: self.projection.deep_view(),
            from: self.from.deep_view(),
            selection: opt_expr_view(self.selection),
            group_by: self.group_by,
            having: self.having,
            order_by: self.order_by.deep_view(),
            offset: opt_expr_view(self.offset),
            limit: opt_expr_view(self.limit),
            other_clause: opt_str_view(self.other_clause),
        }
    }
}

/// Mathematical model of a [`Stmt`].
pub enum StmtV {
    Select(SelectStmtV),
    Other(Seq<char>),
}

/// One parsed SQL statement: a query, or any other statement kind, named
/// for rejection.
#[derive(Debug)]
pub enum Stmt {
    Select(SelectStmt),
    Other(String),
}

impl View for Stmt {
    type V = StmtV;

    open spec fn view(&self) -> StmtV {
        match self {
            Stmt::Select(s) => StmtV::Select(s@),
            Stmt::Other(n) => StmtV::Other(n@),
        }
    }
}

/// Mathematical model of a [`Proj`].
pub enum ProjV {
    Wildcard,
    Named { expr: ExprV, name: Seq<char> },
}

/// One output column of the descriptor: the `*` wildcard, or an expression
/// with the name its column will carry.
#[derive(Debug)]
pub enum Proj {
    Wildcard,
    Named { expr: Expr, name: String },
}

impl View for Proj {
    type V = ProjV;

    open spec fn view(&self) -> ProjV {
        match self {
            Proj::Wildcard => ProjV::Wildcard,
            Proj::Named { expr, name } => ProjV::Named { expr: expr@, name: name@ },
        }
    }
}

impl DeepView for Proj {
    type V = ProjV;

    open spec fn deep_view(&self) -> ProjV {
        self@
    }
}

/// Mathematical model of a [`Sql`] descriptor.
pub struct SqlV {
    pub source: Seq<char>,
    pub condition: Option<ExprV>,
    pub selection: Seq<ProjV>,
    pub order_by: Seq<(Seq<char>, bool)>,
    pub offset: Option<int>,
    pub limit: Option<int>,
}

/// The query descriptor: the validated intent of one supported `SELECT`
/// statement, consumed once by the executor.
#[derive(Debug)]
pub struct Sql {
    pub source: String,
    pub condition: Option<Expr>,
    pub selection: Vec<Proj>,
    pub order_by: Vec<(String, bool)>,
    pub offset: Option<usize>,
    pub limit: Option<usize>,
}

pub open spec fn opt_usize_view(n: Option<usize>) -> Option<int> {
    match n {
        Some(n) => Some(n as int),
        None => None,
    }
}

pub open spec fn order_pairs_view(s: Seq<(String, bool)>) -> Seq<(Seq<char>, bool)> {
    s.map_values(|p: (String, bool)| (p.0@, p.1))
}

impl View for Sql {
    type V = SqlV;

    open spec fn view(&self) -> SqlV {
        SqlV {
            source: self.source@,
            condition: opt_expr_view(self.condition),
            selection: self.selection.deep_view(),
            order_by: order_pairs_view(self.order_by@),
            offset: opt_usize_view(self.offset),
            limit: opt_usize_view(self.limit),
        }
    }
}

/// Translation of one `SELECT` list item.
pub open spec fn spec_proj_item(item: SelectItemV) -> Result<ProjV, ErrorV> {
    match item {
        SelectItemV::Wildcard => Ok(ProjV::Wildcard),
        SelectItemV::Expr(e) => match first_unsupported(e) {
            Some(n) => Err(ErrorV::UnsupportedClause(n)),
            None => match e {
                ExprV::Col(n) => Ok(ProjV::Named { expr: e, name: n }),
                _ => Err(ErrorV::UnsupportedClause("unaliased computed projection"@)),
            },
        },
        SelectItemV::ExprWithAlias(e, a) => match first_unsupported(e) {
            Some(n) => Err(ErrorV::UnsupportedClause(n)),
            None => Ok(ProjV::Named { expr: e, name: a }),
        },
        SelectItemV::Other(n) => Err(ErrorV::UnsupportedClause(n)),
    }
}

/// Translation of the `SELECT` list, in declared order; the first
/// offending item decides the error.
pub open spec fn spec_projection(items: Seq<SelectItemV>) -> Result<Seq<ProjV>, ErrorV>
    decreases items.len(),
{
    if items.len() == 0 {
        Ok(Seq::empty())
    } else {
        match spec_proj_item(items[0]) {
            Err(e) => Err(e),
            Ok(p) => match spec_projection(items.drop_first()) {
                Err(e) => Err(e),
                Ok(rest) => Ok(seq![p] + rest),
            },
        }
    }
}

/// Translation of one `ORDER BY` item: a plain column reference with an
/// optional direction; `DESC` sets the flag, the default is ascending.
pub open spec fn spec_order_item(item: OrderByItemV) -> Result<(Seq<char>, bool), ErrorV> {
    match item.expr {
        ExprV::Col(n) => Ok((n, item.asc == Some(false))),
        ExprV::Unsupported(n) => Err(ErrorV::UnsupportedClause(n)),
        _ => Err(ErrorV::UnsupportedClause("ORDER BY expression"@)),
    }
}

/// Translation of the `ORDER BY` list, in declared order.
pub open spec fn spec_order(items: Seq<OrderByItemV>) -> Result<Seq<(Seq<char>, bool)>, ErrorV>
    decreases items.len(),
{
    if items.len() == 0 {
        Ok(Seq::empty())
    } else {
        match spec_order_item(items[0]) {
            Err(e) => Err(e),
            Ok(p) => match spec_order(items.drop_first()) {
                Err(e) => Err(e),
                Ok(rest) => Ok(seq![p] + rest),
            },
        }
    }
}

/// Translation of `OFFSET` or `LIMIT`: absent, or a non-negative integer
/// literal that the machine can hold; anything else is rejected with the
/// clause name.
pub open spec fn spec_bound(e: Option<ExprV>, clause: Seq<char>) -> Result<Option<int>, ErrorV> {
    match e {
        None => Ok(None),
        Some(ExprV::Lit(ValueV::Int(n))) => if 0 <= n <= usize::MAX as int {
            Ok(Some(n))
        } else {
            Err(ErrorV::UnsupportedClause(clause))
        },
        Some(_) => Err(ErrorV::UnsupportedClause(clause)),
    }
}

/// Translation of one parsed statement into a query descriptor, or the
/// error that rejects it: only a single-table `SELECT` with the supported
/// clause shapes passes, and every other shape is named in its error.
pub open spec fn spec_translate(s: StmtV) -> Result<SqlV, ErrorV> {
    match s {
        StmtV::Other(n) => Err(ErrorV::UnsupportedStatement(n)),
        StmtV::Select(q) => {
            if q.other_clause is Some {
                Err(ErrorV::UnsupportedClause(q.other_clause.unwrap()))
            } else if q.group_by {
                Err(ErrorV::UnsupportedClause("GROUP BY"@))
            } else if q.having {
                Err(ErrorV::UnsupportedClause("HAVING"@))
            } else if q.from.len() == 0 {
                Err(ErrorV::UnsupportedSource("missing FROM"@))
            } else if q.from.len() > 1 {
                Err(ErrorV::UnsupportedSource("multiple FROM items"@))
            } else if q.from[0].has_joins {
                Err(ErrorV::UnsupportedSource("JOIN"@))
            } else {
                match q.from[0].factor {
                    TableFactorV::Other(n) => Err(ErrorV::UnsupportedSource(n)),
                    TableFactorV::Named(src) => {
                        let bad_cond = match q.selection {
                            Some(c) => first_unsupported(c),
                            None => None,
                        };
                        if bad_cond is Some {
                            Err(ErrorV::UnsupportedClause(bad_cond.unwrap()))
                        } else if q.projection.len() == 0 {
                            Err(ErrorV::UnsupportedClause("empty SELECT list"@))
                        } else {
                            match spec_projection(q.projection) {
                                Err(e) => Err(e),
                                Ok(sel) => match spec_order(q.order_by) {
                                    Err(e) => Err(e),
                                    Ok(ob) => match spec_bound(q.offset, "OFFSET"@) {
                                        Err(e) => Err(e),
                                        Ok(off) => match spec_bound(q.limit, "LIMIT"@) {
                                            Err(e) => Err(e),
                                            Ok(lim) => Ok(
                                                SqlV {
                                                    source: src,
                                                    condition: q.selection,
                                                    selection: sel,
                                                    order_by: ob,
                                                    offset: off,
                                                    limit: lim,
                                                },
                                            ),
                                        },
                                    },
                                },
                            }
                        }
                    },
                }
            }
        },
    }
}

/// Translation of a whole parse result: exactly one statement is
/// demanded before any of it is read.
pub open spec fn spec_plan(stmts: Seq<StmtV>) -> Result<SqlV, ErrorV> {
    if stmts.len() != 1 {
        Err(ErrorV::MultiStatement(stmts.len() as int))
    } else {
        spec_translate(stmts[0])
    }
}

impl DeepView for Stmt {
    type V = StmtV;

    open spec fn deep_view(&self) -> StmtV {
        self@
    }
}

fn proj_item(item: &SelectItem) -> (r: Result<Proj, Error>)
    ensures
        match r {
            Ok(p) => spec_proj_item(item@) == Ok::<ProjV, ErrorV>(p@),
            Err(e) => spec_proj_item(item@) == Err::<ProjV, ErrorV>(e@),
        },
{
    match item {
        SelectItem::Wildcard => Ok(Proj::Wildcard),
        SelectItem::Expr(e) => match check_supported(e) {
            Some(n) => Err(Error::UnsupportedClause(n)),
            None => match e {
                Expr::Col(n) => Ok(Proj::Named { expr: clone_expr(e), name: n.clone() }),
                _ => Err(
                    Error::UnsupportedClause(String::from_str("unaliased computed projection")),
                ),
            },
        },
        SelectItem::ExprWithAlias(e, a) => match check_supported(e) {
            Some(n) => Err(Error::UnsupportedClause(n)),
            None => Ok(Proj::Named { expr: clone_expr(e), name: a.clone() }),
        },
        SelectItem::Other(n) => Err(Error::UnsupportedClause(n.clone())),
    }
}

fn order_item(item: &OrderByItem) -> (r: Result<(String, bool), Error>)
    ensures
        match r {
            Ok(p) => spec_order_item(item@) == Ok::<(Seq<char>, bool), ErrorV>((p.0@, p.1)),
            Err(e) => spec_order_item(item@) == Err::<(Seq<char>, bool), ErrorV>(e@),
        },
{
    match &item.expr {
        Expr::Col(n) => {
            let desc = match item.asc {
                Some(b) => !b,
                None => false,
            };
            Ok((n.clone(), desc))
        },
        Expr::Unsupported(n) => Err(Error::UnsupportedClause(n.clone())),
        _ => Err(Error::UnsupportedClause(String::from_str("ORDER BY expression"))),
    }
}

fn bound_exec(e: &Option<Expr>, clause: &str) -> (r: Result<Option<usize>, Error>)
    ensures
        match r {
            Ok(o) => spec_bound(opt_expr_view(*e), clause@) == Ok::<Option<int>, ErrorV>(
                opt_usize_view(o),
            ),
            Err(er) => spec_bound(opt_expr_view(*e), clause@) == Err::<Option<int>, ErrorV>(er@),
        },
{
    match e {
        None => Ok(None),
        Some(Expr::Lit(Value::Int(n))) => {
            if *n >= 0 && *n as u128 <= usize::MAX as u128 {
                Ok(Some(*n as usize))
            } else {
                Err(Error::UnsupportedClause(String::from_str(clause)))
            }
        },
        Some(_) => Err(Error::UnsupportedClause(String::from_str(clause))),
    }
}

/// Translate one parsed statement into a query descriptor, or reject it
/// with the error that names the offending construct.
#[verifier::rlimit(50)]
#[verifier::loop_isolation(false)]
pub fn translate(stmt: &Stmt) -> (r: Result<Sql, Error>)
    ensures
        match r {
            Ok(sql) => spec_translate(stmt@) == Ok::<SqlV, ErrorV>(sql@),
            Err(e) => spec_translate(stmt@) == Err::<SqlV, ErrorV>(e@),
        },
{
    let q = match stmt {
        Stmt::Other(n) => {
            return Err(Error::UnsupportedStatement(n.clone()));
        },
        Stmt::Select(q) => q,
    };
    match &q.other_clause {
        Some(n) => {
            return Err(Error::UnsupportedClause(n.clone()));
        },
        None => {},
    }
    if q.group_by {
        return Err(Error::UnsupportedClause(String::from_str("GROUP BY")));
    }
    if q.having {
        return Err(Error::UnsupportedClause(String::from_str("HAVING")));
    }
    if q.from.len() == 0 {
        return Err(Error::UnsupportedSource(String::from_str("missing FROM")));
    }
    if q.from.len() > 1 {
        return Err(Error::UnsupportedSource(String::from_str("multiple FROM items")));
    }
    proof {
        assert(q.from.deep_view()[0] == q.from@[0]@);
    }
    if q.from[0].has_joins {
        return Err(Error::UnsupportedSource(String::from_str("JOIN")));
    }
    let src = match &q.from[0].factor {
        TableFactor::Other(n) => {
            return Err(Error::UnsupportedSource(n.clone()));
        },
        TableFactor::Named(n) => n.clone(),
    };
    let condition = match &q.selection {
        Some(c) => {
            match check_supported(c) {
                Some(n) => {
                    return Err(Error::UnsupportedClause(n));
                },
                None => {},
            }
            Some(clone_expr(c))
        },
        None => None,
    };
    if q.projection.len() == 0 {
        return Err(Error::UnsupportedClause(String::from_str("empty SELECT list")));
    }
    let ghost pv = q.projection.deep_view();
    let mut sel: Vec<Proj> = Vec::new();
    let mut i: usize = 0;
    proof {
        assert(pv.skip(0) =~= pv);
        assert(sel.deep_view() =~= Seq::<ProjV>::empty());
    }
    while i < q.projection.len()
        invariant
            i <= q.projection.len(),
            pv == q.projection.deep_view(),
            pv.len() == q.projection@.len(),
            spec_projection(pv.skip(i as int)) is Ok ==> spec_projection(pv) == Ok::<
                Seq<ProjV>,
                ErrorV,
            >(sel.deep_view() + spec_projection(pv.skip(i as int))->Ok_0),
            spec_projection(pv.skip(i as int)) is Err ==> spec_projection(pv) == spec_projection(
                pv.skip(i as int),
            ),
        decreases q.projection.len() - i,
    {
        proof {
            assert(pv[i as int] == q.projection@[i as int]@);
            assert(pv.skip(i as int)[0] == pv[i as int]);
            assert(pv.skip(i as int).drop_first() =~= pv.skip(i as int + 1));
        }
        match proj_item(&q.projection[i]) {
            Err(e) => {
                proof {
                    assert(spec_projection(pv.skip(i as int)) == Err::<Seq<ProjV>, ErrorV>(e@));
                    assert(spec_projection(pv) == Err::<Seq<ProjV>, ErrorV>(e@));
                    assert(spec_translate(stmt@) == Err::<SqlV, ErrorV>(e@));
                }
                return Err(e);
            },
            Ok(p) => {
                let ghost old_sel = sel.deep_view();
                sel.push(p);
                proof {
                    assert(sel.deep_view() =~= old_sel.push(p@));
                    if spec_projection(pv.skip(i as int + 1)) is Ok {
                        assert(old_sel + (seq![p@] + spec_projection(pv.skip(i as int + 1))->Ok_0)
                            =~= sel.deep_view() + spec_projection(pv.skip(i as int + 1))->Ok_0);
                    }
                }
            },
        }
        i = i + 1;
    }
    proof {
        assert(pv.skip(pv.len() as int).len() == 0);
        assert(sel.deep_view() + Seq::<ProjV>::empty() =~= sel.deep_view());
    }
    let ghost ov = q.order_by.deep_view();
    let mut order: Vec<(String, bool)> = Vec::new();
    let mut j: usize = 0;
    proof {
        assert(ov.skip(0) =~= ov);
        assert(order_pairs_view(order@) =~= Seq::<(Seq<char>, bool)>::empty());
    }
    while j < q.order_by.len()
        invariant
            j <= q.order_by.len(),
            ov == q.order_by.deep_view(),
            ov.len() == q.order_by@.len(),
            spec_order(ov.skip(j as int)) is Ok ==> spec_order(ov) == Ok::<
                Seq<(Seq<char>, bool)>,
                ErrorV,
            >(order_pairs_view(order@) + spec_order(ov.skip(j as int))->Ok_0),
            spec_order(ov.skip(j as int)) is Err ==> spec_order(ov) == spec_order(
                ov.skip(j as int),
            ),
        decreases q.order_by.len() - j,
    {
        proof {
            assert(ov[j as int] == q.order_by@[j as int]@);
            assert(ov.skip(j as int)[0] == ov[j as int]);
            assert(ov.skip(j as int).drop_first() =~= ov.skip(j as int + 1));
        }
        match order_item(&q.order_by[j]) {
            Err(e) => {
                proof {
                    assert(spec_order(ov.skip(j as int)) == Err::<Seq<(Seq<char>, bool)>, ErrorV>(
                        e@,
                    ));
                    assert(spec_order(ov) == Err::<Seq<(Seq<char>, bool)>, ErrorV>(e@));
                    assert(spec_translate(stmt@) == Err::<SqlV, ErrorV>(e@));
                }
                return Err(e);
            },
            Ok(p) => {
                let ghost old_ord = order_pairs_view(order@);
                let ghost pview = (p.0@, p.1);
                order.push(p);
                proof {
                    assert(order_pairs_view(order@) =~= old_ord.push(pview));
                    if spec_order(ov.skip(j as int + 1)) is Ok {
                        assert(old_ord + (seq![pview] + spec_order(ov.skip(j as int + 1))->Ok_0)
                            =~= order_pairs_view(order@) + spec_order(ov.skip(j as int + 1))->Ok_0);
                    }
                }
            },
        }
        j = j + 1;
    }
    proof {
        assert(ov.skip(ov.len() as int).len() == 0);
        assert(order_pairs_view(order@) + Seq::<(Seq<char>, bool)>::empty() =~= order_pairs_view(
            order@,
        ));
    }
    let offset = match bound_exec(&q.offset, "OFFSET") {
        Err(e) => {
            return Err(e);
        },
        Ok(o) => o,
    };
    let limit = match bound_exec(&q.limit, "LIMIT") {
        Err(e) => {
            return Err(e);
        },
        Ok(o) => o,
    };
    Ok(Sql { source: src, condition, selection: sel, order_by: order, offset, limit })
}

/// Demand exactly one statement, then translate it: zero or several
/// statements fail with the statement count before any is read.
pub fn plan(stmts: &Vec<Stmt>) -> (r: Result<Sql, Error>)
    ensures
        match r {
            Ok(sql) => spec_plan(stmts.deep_view()) == Ok::<SqlV, ErrorV>(sql@),
            Err(e) => spec_plan(stmts.deep_view()) == Err::<SqlV, ErrorV>(e@),
        },
{
    if stmts.len() != 1 {
        return Err(Error::MultiStatement(stmts.len()));
    }
    proof {
        assert(stmts.deep_view()[0] == stmts@[0]@);
    }
    translate(&stmts[0])
}

/// Law: translation is deterministic. The same parsed statement always
/// yields the same query descriptor, or the same error.
pub proof fn lemma_translate_deterministic(a: StmtV, b: StmtV)
    requires
        a == b,
    ensures
        spec_translate(a) == spec_translate(b),
{
}

proof fn lemma_projection_not_multi(items: Seq<SelectItemV>)
    ensures
        spec_projection(items) is Err ==> !(spec_projection(items)->Err_0 is MultiStatement),
    decreases items.len(),
{
    if items.len() > 0 {
        lemma_projection_not_multi(items.drop_first());
    }
}

proof fn lemma_order_not_multi(items: Seq<OrderByItemV>)
    ensures
        spec_order(items) is Err ==> !(spec_order(items)->Err_0 is MultiStatement),
    decreases items.len(),
{
    if items.len() > 0 {
        lemma_order_not_multi(items.drop_first());
    }
}

/// Translating a single statement never raises the statement-count error.
pub proof fn lemma_translate_not_multi(s: StmtV)
    ensures
        spec_translate(s) is Err ==> !(spec_translate(s)->Err_0 is MultiStatement),
{
    match s {
        StmtV::Select(q) => {
            lemma_projection_not_multi(q.projection);
            lemma_order_not_multi(q.order_by);
        },
        StmtV::Other(_) => {},
    }
}

/// Law: a parse result of zero or several statements always fails with
/// the statement-count error, and never with anything else; exactly one
/// statement never produces that error.
pub proof fn lemma_multi_statement_iff(stmts: Seq<StmtV>)
    ensures
        (spec_plan(stmts) is Err && spec_plan(stmts)->Err_0 is MultiStatement) <==> stmts.len()
            != 1,
        stmts.len() != 1 ==> spec_plan(stmts) == Err::<SqlV, ErrorV>(
            ErrorV::MultiStatement(stmts.len() as int),
        ),
{
    if stmts.len() == 1 {
        lemma_translate_not_multi(stmts[0]);
    }
}

} // verus!

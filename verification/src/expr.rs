use vstd::prelude::*;

use crate::error::{Error, ErrorV};
use crate::value::{clone_value, rank, val_le, val_eq_exec, val_le_exec, Value, ValueV};

verus! {

/// A binary operator of the supported expression subset.
#[derive(Clone, Copy, Debug, PartialEq, Eq, Structural)]
pub enum BinOp {
    Eq,
    Neq,
    Lt,
    Lte,
    Gt,
    Gte,
    And,
    Or,
}

/// Mathematical model of an [`Expr`].
pub enum ExprV {
    Col(Seq<char>),
    Lit(ValueV),
    Binary(BinOp, Box<ExprV>, Box<ExprV>),
    Unsupported(Seq<char>),
}

/// A scalar expression over the columns of one row: a column reference, a
/// literal, or a binary operation. An expression form outside the subset is
/// carried as `Unsupported`, with the name of the form, so that translation
/// can reject it by name.
#[derive(Debug)]
pub enum Expr {
    Col(String),
    Lit(Value),
    Binary(BinOp, Box<Expr>, Box<Expr>),
    Unsupported(String),
}

pub open spec fn expr_view(e: Expr) -> ExprV
    decreases e,
{
    match e {
        Expr::Col(s) => ExprV::Col(s@),
        Expr::Lit(v) => ExprV::Lit(v@),
        Expr::Binary(op, l, r) => ExprV::Binary(op, Box::new(expr_view(*l)), Box::new(expr_view(*r))),
        Expr::Unsupported(s) => ExprV::Unsupported(s@),
    }
}

impl View for Expr {
    type V = ExprV;

    open spec fn view(&self) -> ExprV {
        expr_view(*self)
    }
}

/// Index of the first column of that name, or -1 when there is none.
pub open spec fn col_index(names: Seq<Seq<char>>, name: Seq<char>) -> int
    decreases names.len(),
{
    if names.len() == 0 {
        -1
    } else if names[0] == name {
        0
    } else {
        let rest = col_index(names.drop_first(), name);
        if rest < 0 {
            -1
        } else {
            rest + 1
        }
    }
}

pub proof fn lemma_col_index(names: Seq<Seq<char>>, name: Seq<char>)
    ensures
        col_index(names, name) >= 0 <==> names.contains(name),
        col_index(names, name) >= 0 ==> col_index(names, name) < names.len()
            && names[col_index(names, name)] == name && (forall|k: int|
            0 <= k < col_index(names, name) ==> names[k] != name),
    decreases names.len(),
{
    if names.len() > 0 {
        lemma_col_index(names.drop_first(), name);
        if names[0] != name {
            let rest = col_index(names.drop_first(), name);
            if rest >= 0 {
                assert(names.drop_first()[rest] == name);
                assert(names[rest + 1] == names.drop_first()[rest]);
                assert forall|k: int| 0 <= k < rest + 1 implies names[k] != name by {
                    if k >= 1 {
                        assert(names.drop_first()[k - 1] != name);
                        assert(names[k] == names.drop_first()[k - 1]);
                    }
                }
            }
            assert(names.contains(name) <==> names.drop_first().contains(name)) by {
                if names.contains(name) {
                    let i = choose|i: int| 0 <= i < names.len() && names[i] == name;
                    assert(names.drop_first()[i - 1] == name);
                }
                if names.drop_first().contains(name) {
                    let i = choose|i: int|
                        0 <= i < names.drop_first().len() && names.drop_first()[i] == name;
                    assert(names[i + 1] == name);
                }
            }
        }
    }
}

/// The index of the named column, scanning from the front.
pub fn find_col(names: &Vec<String>, name: &String) -> (r: Option<usize>)
    ensures
        match r {
            Some(i) => col_index(names.deep_view(), name@) == i as int,
            None => col_index(names.deep_view(), name@) == -1,
        },
{
    let ghost nv = names.deep_view();
    proof {
        assert(nv.len() == names@.len());
        assert(forall|k: int| 0 <= k < nv.len() ==> #[trigger] nv[k] == names@[k]@);
    }
    let mut i: usize = 0;
    while i < names.len()
        invariant
            i <= names.len(),
            nv == names.deep_view(),
            nv.len() == names@.len(),
            forall|k: int| 0 <= k < nv.len() ==> #[trigger] nv[k] == names@[k]@,
            forall|k: int| 0 <= k < i ==> nv[k] != name@,
        decreases names.len() - i,
    {
        if names[i].eq(name) {
            proof {
                lemma_col_index_at(nv, name@, i as int);
            }
            return Some(i);
        }
        i = i + 1;
    }
    proof {
        lemma_col_index(nv, name@);
        if nv.contains(name@) {
            let k = choose|k: int| 0 <= k < nv.len() && nv[k] == name@;
            assert(nv[k] != name@);
        }
    }
    None
}

/// If every name before `i` differs and `names[i]` matches, the first
/// match is at `i`.
pub proof fn lemma_col_index_at(names: Seq<Seq<char>>, name: Seq<char>, i: int)
    requires
        0 <= i < names.len(),
        names[i] == name,
        forall|k: int| 0 <= k < i ==> names[k] != name,
    ensures
        col_index(names, name) == i,
    decreases i,
{
    if i > 0 {
        lemma_col_index_at(names.drop_first(), name, i - 1);
    }
}

/// Whether a value may stand as an operand of `AND` / `OR`.
pub open spec fn logic_ok(v: ValueV) -> bool {
    v is Bool || v is Null
}

/// Three-valued conjunction: false wins, then null, then true.
pub open spec fn spec_and(a: ValueV, b: ValueV) -> Result<ValueV, ErrorV> {
    if !logic_ok(a) || !logic_ok(b) {
        Err(ErrorV::Evaluation("type mismatch"@))
    } else if a == ValueV::Bool(false) || b == ValueV::Bool(false) {
        Ok(ValueV::Bool(false))
    } else if a is Null || b is Null {
        Ok(ValueV::Null)
    } else {
        Ok(ValueV::Bool(true))
    }
}

/// Three-valued disjunction: true wins, then null, then false.
pub open spec fn spec_or(a: ValueV, b: ValueV) -> Result<ValueV, ErrorV> {
    if !logic_ok(a) || !logic_ok(b) {
        Err(ErrorV::Evaluation("type mismatch"@))
    } else if a == ValueV::Bool(true) || b == ValueV::Bool(true) {
        Ok(ValueV::Bool(true))
    } else if a is Null || b is Null {
        Ok(ValueV::Null)
    } else {
        Ok(ValueV::Bool(false))
    }
}

/// A comparison with a null operand is null; operands of different types
/// are a type mismatch; otherwise the total value order decides.
pub open spec fn spec_cmp(op: BinOp, a: ValueV, b: ValueV) -> Result<ValueV, ErrorV> {
    if a is Null || b is Null {
        Ok(ValueV::Null)
    } else if rank(a) != rank(b) {
        Err(ErrorV::Evaluation("type mismatch"@))
    } else {
        Ok(ValueV::Bool(match op {
            BinOp::Eq => a == b,
            BinOp::Neq => a != b,
            BinOp::Lt => val_le(a, b) && !val_le(b, a),
            BinOp::Lte => val_le(a, b),
            BinOp::Gt => val_le(b, a) && !val_le(a, b),
            BinOp::Gte => val_le(b, a),
            _ => arbitrary(),
        }))
    }
}

pub open spec fn spec_apply_op(op: BinOp, a: ValueV, b: ValueV) -> Result<ValueV, ErrorV> {
    match op {
        BinOp::And => spec_and(a, b),
        BinOp::Or => spec_or(a, b),
        _ => spec_cmp(op, a, b),
    }
}

/// Value of an expression over one row, or the error it raises: a missing
/// column is named, operands of unfit types are a type mismatch, and an
/// `Unsupported` form is named as an unsupported clause.
pub open spec fn spec_eval(e: ExprV, names: Seq<Seq<char>>, row: Seq<ValueV>) -> Result<
    ValueV,
    ErrorV,
>
    decreases e,
{
    match e {
        ExprV::Col(n) => {
            let i = col_index(names, n);
            if 0 <= i < row.len() {
                Ok(row[i])
            } else {
                Err(ErrorV::Evaluation(n))
            }
        },
        ExprV::Lit(v) => Ok(v),
        ExprV::Binary(op, l, r) => match spec_eval(*l, names, row) {
            Err(e) => Err(e),
            Ok(a) => match spec_eval(*r, names, row) {
                Err(e) => Err(e),
                Ok(b) => spec_apply_op(op, a, b),
            },
        },
        ExprV::Unsupported(n) => Err(ErrorV::UnsupportedClause(n)),
    }
}

/// Evaluate an expression over one row.
pub fn eval(e: &Expr, names: &Vec<String>, row: &Vec<Value>) -> (r: Result<Value, Error>)
    ensures
        match r {
            Ok(v) => spec_eval(e@, names.deep_view(), row.deep_view()) == Ok::<ValueV, ErrorV>(v@),
            Err(er) => spec_eval(e@, names.deep_view(), row.deep_view()) == Err::<
                ValueV,
                ErrorV,
            >(er@),
        },
    decreases e,
{
    match e {
        Expr::Col(n) => match find_col(names, n) {
            Some(i) => {
                if i < row.len() {
                    assert(row.deep_view()[i as int] == row[i as int]@);
                    Ok(clone_value(&row[i]))
                } else {
                    Err(Error::Evaluation(n.clone()))
                }
            },
            None => Err(Error::Evaluation(n.clone())),
        },
        Expr::Lit(v) => Ok(clone_value(v)),
        Expr::Binary(op, l, r) => {
            let a = match eval(l, names, row) {
                Ok(a) => a,
                Err(er) => {
                    return Err(er);
                },
            };
            let b = match eval(r, names, row) {
                Ok(b) => b,
                Err(er) => {
                    return Err(er);
                },
            };
            apply_op(*op, &a, &b)
        },
        Expr::Unsupported(n) => Err(Error::UnsupportedClause(n.clone())),
    }
}

/// Apply one binary operator to two evaluated operands.
pub fn apply_op(op: BinOp, a: &Value, b: &Value) -> (r: Result<Value, Error>)
    ensures
        match r {
            Ok(v) => spec_apply_op(op, a@, b@) == Ok::<ValueV, ErrorV>(v@),
            Err(er) => spec_apply_op(op, a@, b@) == Err::<ValueV, ErrorV>(er@),
        },
{
    match op {
        BinOp::And => {
            if !logic_ok_exec(a) || !logic_ok_exec(b) {
                Err(mismatch())
            } else if is_false(a) || is_false(b) {
                Ok(Value::Bool(false))
            } else if matches!(a, Value::Null) || matches!(b, Value::Null) {
                Ok(Value::Null)
            } else {
                Ok(Value::Bool(true))
            }
        },
        BinOp::Or => {
            if !logic_ok_exec(a) || !logic_ok_exec(b) {
                Err(mismatch())
            } else if is_true(a) || is_true(b) {
                Ok(Value::Bool(true))
            } else if matches!(a, Value::Null) || matches!(b, Value::Null) {
                Ok(Value::Null)
            } else {
                Ok(Value::Bool(false))
            }
        },
        _ => {
            if matches!(a, Value::Null) || matches!(b, Value::Null) {
                Ok(Value::Null)
            } else if rank_exec(a) != rank_exec(b) {
                Err(mismatch())
            } else {
                let z = match op {
                    BinOp::Eq => val_eq_exec(a, b),
                    BinOp::Neq => !val_eq_exec(a, b),
                    BinOp::Lt => val_le_exec(a, b) && !val_le_exec(b, a),
                    BinOp::Lte => val_le_exec(a, b),
                    BinOp::Gt => val_le_exec(b, a) && !val_le_exec(a, b),
                    _ => val_le_exec(b, a),
                };
                Ok(Value::Bool(z))
            }
        },
    }
}

fn logic_ok_exec(v: &Value) -> (r: bool)
    ensures
        r == logic_ok(v@),
{
    matches!(v, Value::Bool(_) | Value::Null)
}

fn is_false(v: &Value) -> (r: bool)
    ensures
        r == (v@ == ValueV::Bool(false)),
{
    match v {
        Value::Bool(b) => !*b,
        _ => false,
    }
}

fn is_true(v: &Value) -> (r: bool)
    ensures
        r == (v@ == ValueV::Bool(true)),
{
    match v {
        Value::Bool(b) => *b,
        _ => false,
    }
}

fn rank_exec(v: &Value) -> (r: u8)
    ensures
        r as int == rank(v@),
{
    match v {
        Value::Null => 0,
        Value::Bool(_) => 1,
        Value::Int(_) => 2,
        Value::Str(_) => 3,
    }
}

fn mismatch() -> (r: Error)
    ensures
        r@ == ErrorV::Evaluation("type mismatch"@),
{
    Error::Evaluation(String::from_str("type mismatch"))
}

/// A copy of an expression, equal to the original in the model.
pub fn clone_expr(e: &Expr) -> (r: Expr)
    ensures
        r@ == e@,
    decreases e,
{
    match e {
        Expr::Col(n) => Expr::Col(n.clone()),
        Expr::Lit(v) => Expr::Lit(clone_value(v)),
        Expr::Binary(op, l, r2) => Expr::Binary(
            *op,
            Box::new(clone_expr(l)),
            Box::new(clone_expr(r2)),
        ),
        Expr::Unsupported(n) => Expr::Unsupported(n.clone()),
    }
}

/// The column names an expression refers to, in evaluation order.
pub open spec fn expr_cols(e: ExprV) -> Seq<Seq<char>>
    decreases e,
{
    match e {
        ExprV::Col(n) => seq![n],
        ExprV::Lit(_) => Seq::empty(),
        ExprV::Binary(_, l, r) => expr_cols(*l) + expr_cols(*r),
        ExprV::Unsupported(_) => Seq::empty(),
    }
}

/// Whether every expression form in the tree is in the supported subset;
/// when not, the name of the first unsupported form, in evaluation order.
pub open spec fn first_unsupported(e: ExprV) -> Option<Seq<char>>
    decreases e,
{
    match e {
        ExprV::Col(_) => None,
        ExprV::Lit(_) => None,
        ExprV::Binary(_, l, r) => match first_unsupported(*l) {
            Some(n) => Some(n),
            None => first_unsupported(*r),
        },
        ExprV::Unsupported(n) => Some(n),
    }
}

/// Name of the first unsupported expression form in the tree, if any.
pub fn check_supported(e: &Expr) -> (r: Option<String>)
    ensures
        match r {
            Some(n) => first_unsupported(e@) == Some(n@),
            None => first_unsupported(e@) is None,
        },
    decreases e,
{
    match e {
        Expr::Col(_) => None,
        Expr::Lit(_) => None,
        Expr::Binary(_, l, r) => match check_supported(l) {
            Some(n) => Some(n),
            None => check_supported(r),
        },
        Expr::Unsupported(n) => Some(n.clone()),
    }
}

/// Name of the first column in the tree that the schema lacks, if any,
/// in evaluation order.
pub open spec fn first_missing_col(e: ExprV, names: Seq<Seq<char>>) -> Option<Seq<char>>
    decreases e,
{
    match e {
        ExprV::Col(n) => if col_index(names, n) >= 0 {
            None
        } else {
            Some(n)
        },
        ExprV::Lit(_) => None,
        ExprV::Binary(_, l, r) => match first_missing_col(*l, names) {
            Some(n) => Some(n),
            None => first_missing_col(*r, names),
        },
        ExprV::Unsupported(_) => None,
    }
}

/// Name of the first column the expression references that is absent from
/// the schema, if any.
pub fn check_cols(e: &Expr, names: &Vec<String>) -> (r: Option<String>)
    ensures
        match r {
            Some(n) => first_missing_col(e@, names.deep_view()) == Some(n@),
            None => first_missing_col(e@, names.deep_view()) is None,
        },
    decreases e,
{
    match e {
        Expr::Col(n) => match find_col(names, n) {
            Some(_) => None,
            None => Some(n.clone()),
        },
        Expr::Lit(_) => None,
        Expr::Binary(_, l, r) => match check_cols(l, names) {
            Some(n) => Some(n),
            None => check_cols(r, names),
        },
        Expr::Unsupported(_) => None,
    }
}

} // verus!

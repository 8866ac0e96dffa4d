use vstd::prelude::*;

use crate::convert::{opt_usize_view, ProjV, Proj, Sql, SqlV};
use crate::error::{Error, ErrorV};
use crate::expr::{check_cols, col_index, eval, first_missing_col, lemma_col_index, Expr, ExprV};
use crate::sort::{
    keys_in_width, keys_view, lemma_sort_len, lemma_sort_multiset, lemma_sort_sorted,
    lemma_sort_no_keys, lemma_sort_stable, lemma_same_multiset_contains, lemma_sorted_null_first, pair_view,
    pairs_view, sort_pairs, spec_sort, stable, sorted, KeyV, PairV,
};
use crate::table::{table_wf, Table, TableV};
use crate::value::{clone_value, Value, ValueV};
use crate::expr::spec_eval;

verus! {

/// Every row has exactly `w` cells.
pub open spec fn rows_width(rows: Seq<Seq<ValueV>>, w: int) -> bool {
    forall|i: int| 0 <= i < rows.len() ==> #[trigger] rows[i].len() == w
}

/// Filtering: rows whose condition evaluates to true are kept in order;
/// rows for which it is false or null are excluded; a condition of any
/// other type, or the first evaluation error, fails the whole filter.
pub open spec fn spec_filter(
    cond: ExprV,
    names: Seq<Seq<char>>,
    rows: Seq<Seq<ValueV>>,
) -> Result<Seq<Seq<ValueV>>, ErrorV>
    decreases rows.len(),
{
    if rows.len() == 0 {
        Ok(Seq::empty())
    } else {
        match spec_eval(cond, names, rows[0]) {
            Err(e) => Err(e),
            Ok(v) => if !(v is Bool || v is Null) {
                Err(ErrorV::Evaluation("type mismatch"@))
            } else {
                match spec_filter(cond, names, rows.drop_first()) {
                    Err(e) => Err(e),
                    Ok(rest) => if v == ValueV::Bool(true) {
                        Ok(seq![rows[0]] + rest)
                    } else {
                        Ok(rest)
                    },
                }
            },
        }
    }
}

pub proof fn lemma_filter_width(
    cond: ExprV,
    names: Seq<Seq<char>>,
    rows: Seq<Seq<ValueV>>,
    w: int,
)
    requires
        rows_width(rows, w),
        spec_filter(cond, names, rows) is Ok,
    ensures
        rows_width(spec_filter(cond, names, rows)->Ok_0, w),
        spec_filter(cond, names, rows)->Ok_0.len() <= rows.len(),
    decreases rows.len(),
{
    if rows.len() > 0 {
        assert(rows_width(rows.drop_first(), w));
        lemma_filter_width(cond, names, rows.drop_first(), w);
    }
}

/// Rows tagged with their input position.
pub open spec fn tag_rows(rows: Seq<Seq<ValueV>>) -> Seq<PairV> {
    Seq::new(rows.len(), |i: int| (i, rows[i]))
}

/// The rows of a tagged sequence, tags dropped.
pub open spec fn strip_rows(s: Seq<PairV>) -> Seq<Seq<ValueV>> {
    s.map_values(|p: PairV| p.1)
}

/// The stable multi-key sort of the rows.
pub open spec fn spec_sort_rows(keys: Seq<KeyV>, rows: Seq<Seq<ValueV>>) -> Seq<Seq<ValueV>> {
    strip_rows(spec_sort(keys, tag_rows(rows)))
}

pub proof fn lemma_sort_rows_len(keys: Seq<KeyV>, rows: Seq<Seq<ValueV>>)
    ensures
        spec_sort_rows(keys, rows).len() == rows.len(),
{
    lemma_sort_len(keys, tag_rows(rows));
}

pub proof fn lemma_sort_rows_width(keys: Seq<KeyV>, rows: Seq<Seq<ValueV>>, w: int)
    requires
        rows_width(rows, w),
    ensures
        rows_width(spec_sort_rows(keys, rows), w),
{
    let t = tag_rows(rows);
    let s = spec_sort(keys, t);
    lemma_sort_multiset(keys, t);
    lemma_same_multiset_contains(t, s);
    assert forall|i: int| 0 <= i < strip_rows(s).len() implies #[trigger] strip_rows(
        s,
    )[i].len() == w by {
        assert(t.contains(s[i]));
        let k = choose|k: int| 0 <= k < t.len() && t[k] == s[i];
        assert(t[k].1 == rows[k]);
    }
}

/// Law: sort stability. Tag each input row with its position; after the
/// sort, the output is ordered by the keys, is a permutation of the
/// input, and rows equal under every key keep strictly increasing tags —
/// their relative input order.
pub proof fn lemma_sort_stability(keys: Seq<KeyV>, rows: Seq<Seq<ValueV>>)
    ensures
        sorted(keys, spec_sort(keys, tag_rows(rows))),
        stable(keys, spec_sort(keys, tag_rows(rows))),
        spec_sort(keys, tag_rows(rows)).to_multiset() == tag_rows(rows).to_multiset(),
{
    lemma_sort_sorted(keys, tag_rows(rows));
    lemma_sort_stable(keys, tag_rows(rows));
    lemma_sort_multiset(keys, tag_rows(rows));
}

/// Law: null ordering. When any input row carries null in the primary
/// sort key, the first row of the sorted output does, whatever direction
/// each key has.
pub proof fn lemma_null_sorts_first(keys: Seq<KeyV>, rows: Seq<Seq<ValueV>>, w: int)
    requires
        keys.len() > 0,
        0 <= w < rows.len(),
        rows[w][keys[0].0] is Null,
    ensures
        spec_sort_rows(keys, rows).len() == rows.len(),
        spec_sort_rows(keys, rows)[0][keys[0].0] is Null,
{
    let t = tag_rows(rows);
    let s = spec_sort(keys, t);
    lemma_sort_sorted(keys, t);
    lemma_sort_multiset(keys, t);
    lemma_sort_len(keys, t);
    lemma_same_multiset_contains(s, t);
    assert(t[w] == (w, rows[w]));
    assert(s.contains(t[w]));
    let i = choose|i: int| 0 <= i < s.len() && s[i] == t[w];
    lemma_sorted_null_first(keys, s, i);
    assert(strip_rows(s)[0] == s[0].1);
}

/// Pagination: drop `offset` rows from the front (none past the end),
/// then keep at most `limit` rows.
pub open spec fn spec_paginate(
    offset: Option<int>,
    limit: Option<int>,
    rows: Seq<Seq<ValueV>>,
) -> Seq<Seq<ValueV>> {
    let o = match offset {
        Some(o) => if o < rows.len() {
            o
        } else {
            rows.len() as int
        },
        None => 0,
    };
    let avail = rows.len() - o;
    let k = match limit {
        Some(l) => if l < avail {
            l
        } else {
            avail
        },
        None => avail,
    };
    rows.subrange(o, o + k)
}

/// The output schema of a projection: wildcards expand to the full input
/// schema, named items contribute their name, in declared order.
pub open spec fn spec_out_names(sel: Seq<ProjV>, names: Seq<Seq<char>>) -> Seq<Seq<char>>
    decreases sel.len(),
{
    if sel.len() == 0 {
        Seq::empty()
    } else {
        (match sel[0] {
            ProjV::Wildcard => names,
            ProjV::Named { name, .. } => seq![name],
        }) + spec_out_names(sel.drop_first(), names)
    }
}

/// One output row of a projection: wildcards copy the whole input row,
/// named items evaluate their expression over it.
pub open spec fn spec_project_row(
    sel: Seq<ProjV>,
    names: Seq<Seq<char>>,
    row: Seq<ValueV>,
) -> Result<Seq<ValueV>, ErrorV>
    decreases sel.len(),
{
    if sel.len() == 0 {
        Ok(Seq::empty())
    } else {
        let head: Result<Seq<ValueV>, ErrorV> = match sel[0] {
            ProjV::Wildcard => Ok(row),
            ProjV::Named { expr, .. } => match spec_eval(expr, names, row) {
                Err(e) => Err(e),
                Ok(v) => Ok(seq![v]),
            },
        };
        match head {
            Err(e) => Err(e),
            Ok(h) => match spec_project_row(sel.drop_first(), names, row) {
                Err(e) => Err(e),
                Ok(rest) => Ok(h + rest),
            },
        }
    }
}

/// Projection of every row, in order; the first failing row fails the
/// whole projection.
pub open spec fn spec_project(
    sel: Seq<ProjV>,
    names: Seq<Seq<char>>,
    rows: Seq<Seq<ValueV>>,
) -> Result<Seq<Seq<ValueV>>, ErrorV>
    decreases rows.len(),
{
    if rows.len() == 0 {
        Ok(Seq::empty())
    } else {
        match spec_project_row(sel, names, rows[0]) {
            Err(e) => Err(e),
            Ok(r0) => match spec_project(sel, names, rows.drop_first()) {
                Err(e) => Err(e),
                Ok(rest) => Ok(seq![r0] + rest),
            },
        }
    }
}

pub proof fn lemma_project_len(sel: Seq<ProjV>, names: Seq<Seq<char>>, rows: Seq<Seq<ValueV>>)
    requires
        spec_project(sel, names, rows) is Ok,
    ensures
        spec_project(sel, names, rows)->Ok_0.len() == rows.len(),
    decreases rows.len(),
{
    if rows.len() > 0 {
        lemma_project_len(sel, names, rows.drop_first());
    }
}

pub proof fn lemma_project_row_width(sel: Seq<ProjV>, names: Seq<Seq<char>>, row: Seq<ValueV>)
    requires
        spec_project_row(sel, names, row) is Ok,
        row.len() == names.len(),
    ensures
        spec_project_row(sel, names, row)->Ok_0.len() == spec_out_names(sel, names).len(),
    decreases sel.len(),
{
    if sel.len() > 0 {
        lemma_project_row_width(sel.drop_first(), names, row);
    }
}

pub proof fn lemma_project_width(sel: Seq<ProjV>, names: Seq<Seq<char>>, rows: Seq<Seq<ValueV>>)
    requires
        spec_project(sel, names, rows) is Ok,
        rows_width(rows, names.len() as int),
    ensures
        rows_width(spec_project(sel, names, rows)->Ok_0, spec_out_names(sel, names).len() as int),
    decreases rows.len(),
{
    if rows.len() > 0 {
        lemma_project_row_width(sel, names, rows[0]);
        assert(rows_width(rows.drop_first(), names.len() as int));
        lemma_project_width(sel, names, rows.drop_first());
        let out = spec_project(sel, names, rows)->Ok_0;
        let rest = spec_project(sel, names, rows.drop_first())->Ok_0;
        assert forall|i: int| 0 <= i < out.len() implies #[trigger] out[i].len()
            == spec_out_names(sel, names).len() by {
            if i > 0 {
                assert(out[i] == rest[i - 1]);
            }
        }
    }
}

/// The first `ORDER BY` column the schema lacks, if any.
pub open spec fn spec_missing_order(
    order: Seq<(Seq<char>, bool)>,
    names: Seq<Seq<char>>,
) -> Option<Seq<char>>
    decreases order.len(),
{
    if order.len() == 0 {
        None
    } else if col_index(names, order[0].0) < 0 {
        Some(order[0].0)
    } else {
        spec_missing_order(order.drop_first(), names)
    }
}

/// The first column named by a projection expression that the schema
/// lacks, if any.
pub open spec fn spec_missing_sel(sel: Seq<ProjV>, names: Seq<Seq<char>>) -> Option<Seq<char>>
    decreases sel.len(),
{
    if sel.len() == 0 {
        None
    } else {
        let h = match sel[0] {
            ProjV::Wildcard => None,
            ProjV::Named { expr, .. } => first_missing_col(expr, names),
        };
        match h {
            Some(n) => Some(n),
            None => spec_missing_sel(sel.drop_first(), names),
        }
    }
}

/// The first column the query references that the schema lacks: filter
/// columns first, then sort keys, then projection columns.
pub open spec fn spec_missing(q: SqlV, names: Seq<Seq<char>>) -> Option<Seq<char>> {
    let c = match q.condition {
        Some(c) => first_missing_col(c, names),
        None => None,
    };
    match c {
        Some(n) => Some(n),
        None => match spec_missing_order(q.order_by, names) {
            Some(n) => Some(n),
            None => spec_missing_sel(q.selection, names),
        },
    }
}

/// The sort keys of the query, resolved to column positions.
pub open spec fn spec_keys(order: Seq<(Seq<char>, bool)>, names: Seq<Seq<char>>) -> Seq<KeyV> {
    order.map_values(|p: (Seq<char>, bool)| (col_index(names, p.0), p.1))
}

/// Evaluation of a whole descriptor against a table, in the fixed
/// pipeline order: filter, then stable multi-key sort, then pagination,
/// then projection — whatever order the clauses had in the SQL text. A
/// column that the schema lacks fails first, named in the error.
pub open spec fn spec_execute(q: SqlV, t: TableV) -> Result<TableV, ErrorV> {
    match spec_missing(q, t.names) {
        Some(n) => Err(ErrorV::Evaluation(n)),
        None => {
            let filtered = match q.condition {
                Some(c) => spec_filter(c, t.names, t.rows),
                None => Ok(t.rows),
            };
            match filtered {
                Err(e) => Err(e),
                Ok(rows1) => {
                    let rows2 = spec_sort_rows(spec_keys(q.order_by, t.names), rows1);
                    let rows3 = spec_paginate(q.offset, q.limit, rows2);
                    match spec_project(q.selection, t.names, rows3) {
                        Err(e) => Err(e),
                        Ok(rows4) => Ok(
                            TableV { names: spec_out_names(q.selection, t.names), rows: rows4 },
                        ),
                    }
                },
            }
        },
    }
}

/// A copy of a row, equal to the original in the model.
fn clone_row(row: &Vec<Value>) -> (r: Vec<Value>)
    ensures
        r.deep_view() == row.deep_view(),
        r@.len() == row@.len(),
{
    let mut out: Vec<Value> = Vec::new();
    let mut i: usize = 0;
    proof {
        assert(out.deep_view() =~= row.deep_view().take(0));
    }
    while i < row.len()
        invariant
            i <= row.len(),
            out.deep_view() == row.deep_view().take(i as int),
            out@.len() == i,
        decreases row.len() - i,
    {
        out.push(clone_value(&row[i]));
        proof {
            assert(row.deep_view()[i as int] == row@[i as int]@);
            assert(out.deep_view() =~= row.deep_view().take(i as int + 1));
        }
        i = i + 1;
    }
    proof {
        assert(row.deep_view().take(row@.len() as int) =~= row.deep_view());
    }
    out
}

/// Keep the rows on which the condition is true; rows on which it is
/// false or null are excluded; the first evaluation error fails the call.
#[verifier::loop_isolation(false)]
pub fn filter_rows(cond: &Expr, names: &Vec<String>, rows: Vec<Vec<Value>>) -> (r: Result<
    Vec<Vec<Value>>,
    Error,
>)
    ensures
        match r {
            Ok(out) => spec_filter(cond@, names.deep_view(), rows.deep_view()) == Ok::<
                Seq<Seq<ValueV>>,
                ErrorV,
            >(out.deep_view()),
            Err(e) => spec_filter(cond@, names.deep_view(), rows.deep_view()) == Err::<
                Seq<Seq<ValueV>>,
                ErrorV,
            >(e@),
        },
{
    let ghost rv = rows.deep_view();
    let ghost nv = names.deep_view();
    let n = rows.len();
    let mut rest = rows;
    let mut out: Vec<Vec<Value>> = Vec::new();
    let mut i: usize = 0;
    proof {
        assert(rv.skip(0) =~= rv);
        assert(out.deep_view() =~= Seq::<Seq<ValueV>>::empty());
    }
    while rest.len() > 0
        invariant
            n == rv.len(),
            i + rest@.len() == rv.len(),
            rest.deep_view() == rv.skip(i as int),
            spec_filter(cond@, nv, rv.skip(i as int)) is Ok ==> spec_filter(cond@, nv, rv) == Ok::<
                Seq<Seq<ValueV>>,
                ErrorV,
            >(out.deep_view() + spec_filter(cond@, nv, rv.skip(i as int))->Ok_0),
            spec_filter(cond@, nv, rv.skip(i as int)) is Err ==> spec_filter(cond@, nv, rv)
                == spec_filter(cond@, nv, rv.skip(i as int)),
        decreases rest@.len(),
    {
        proof {
            assert(rest.deep_view()[0] == rest@[0].deep_view());
        }
        let ghost orest = rest@;
        let row = rest.remove(0);
        proof {
            assert(rv.skip(i as int)[0] == row.deep_view());
            assert forall|k: int| 0 <= k < rest@.len() implies rest.deep_view()[k] == rv.skip(
                i as int + 1,
            )[k] by {
                assert(rest.deep_view()[k] == rest@[k].deep_view());
                assert(rest@[k] == orest[k + 1]);
                assert(rv.skip(i as int)[k + 1] == orest[k + 1].deep_view());
            }
            assert(rest.deep_view() =~= rv.skip(i as int + 1));
            assert(rv.skip(i as int).drop_first() =~= rv.skip(i as int + 1));
        }
        match eval(cond, names, &row) {
            Err(e) => {
                return Err(e);
            },
            Ok(v) => {
                if !matches!(v, Value::Bool(_) | Value::Null) {
                    return Err(Error::Evaluation(String::from_str("type mismatch")));
                }
                let keep = matches!(v, Value::Bool(true));
                proof {
                    assert(keep == (v@ == ValueV::Bool(true)));
                }
                if keep {
                    let ghost old_out = out.deep_view();
                    out.push(row);
                    proof {
                        assert(out.deep_view() =~= old_out.push(rv.skip(i as int)[0]));
                        if spec_filter(cond@, nv, rv.skip(i as int + 1)) is Ok {
                            assert(old_out + (seq![rv.skip(i as int)[0]] + spec_filter(
                                cond@,
                                nv,
                                rv.skip(i as int + 1),
                            )->Ok_0) =~= out.deep_view() + spec_filter(
                                cond@,
                                nv,
                                rv.skip(i as int + 1),
                            )->Ok_0);
                        }
                    }
                }
            },
        }
        i = i + 1;
    }
    proof {
        assert(rv.skip(rv.len() as int).len() == 0);
        assert(out.deep_view() + Seq::<Seq<ValueV>>::empty() =~= out.deep_view());
    }
    Ok(out)
}

/// Stable multi-key sort of the rows under the resolved keys.
#[verifier::loop_isolation(false)]
pub fn sort_rows(keys: &Vec<(usize, bool)>, rows: Vec<Vec<Value>>) -> (r: Vec<Vec<Value>>)
    requires
        forall|i: int|
            0 <= i < rows@.len() ==> keys_in_width(keys@, #[trigger] rows@[i]@.len() as int),
    ensures
        r.deep_view() == spec_sort_rows(keys_view(keys@), rows.deep_view()),
{
    let ghost rv = rows.deep_view();
    let ghost kv = keys_view(keys@);
    let n = rows.len();
    let mut rest = rows;
    let mut tagged: Vec<(usize, Vec<Value>)> = Vec::new();
    let mut i: usize = 0;
    proof {
        assert(pairs_view(tagged@) =~= tag_rows(rv).take(0));
    }
    while rest.len() > 0
        invariant
            n == rv.len(),
            i + rest@.len() == rv.len(),
            rest.deep_view() == rv.skip(i as int),
            forall|k: int|
                0 <= k < rest@.len() ==> keys_in_width(keys@, #[trigger] rest@[k]@.len() as int),
            pairs_view(tagged@) == tag_rows(rv).take(i as int),
            crate::sort::pairs_in_width(tagged@, keys@),
        decreases rest@.len(),
    {
        let ghost old_tv = pairs_view(tagged@);
        proof {
            assert(rest.deep_view()[0] == rest@[0].deep_view());
        }
        let ghost orest = rest@;
        let row = rest.remove(0);
        proof {
            assert(rv.skip(i as int)[0] == row.deep_view());
            assert forall|k: int| 0 <= k < rest@.len() implies rest.deep_view()[k] == rv.skip(
                i as int + 1,
            )[k] by {
                assert(rest.deep_view()[k] == rest@[k].deep_view());
                assert(rest@[k] == orest[k + 1]);
                assert(rv.skip(i as int)[k + 1] == orest[k + 1].deep_view());
            }
            assert(rest.deep_view() =~= rv.skip(i as int + 1));
        }
        tagged.push((i, row));
        proof {
            assert(pairs_view(tagged@) =~= old_tv.push((i as int, rv[i as int])));
            assert(tag_rows(rv).take(i as int + 1) =~= tag_rows(rv).take(i as int).push(
                (i as int, rv[i as int]),
            ));
        }
        i = i + 1;
    }
    proof {
        assert(tag_rows(rv).take(rv.len() as int) =~= tag_rows(rv));
    }
    let sorted_pairs = sort_pairs(keys, tagged);
    let ghost sv = spec_sort(kv, tag_rows(rv));
    let m = sorted_pairs.len();
    let mut rest2 = sorted_pairs;
    let mut out: Vec<Vec<Value>> = Vec::new();
    let mut j: usize = 0;
    proof {
        assert(out.deep_view() =~= strip_rows(sv).take(0));
        assert(pairs_view(rest2@) == sv);
        assert(pairs_view(rest2@).len() == rest2@.len());
    }
    while rest2.len() > 0
        invariant
            m == sv.len(),
            j + rest2@.len() == sv.len(),
            pairs_view(rest2@) == sv.skip(j as int),
            out.deep_view() == strip_rows(sv).take(j as int),
        decreases rest2@.len(),
    {
        let ghost old_ov = out.deep_view();
        proof {
            assert(pairs_view(rest2@)[0] == pair_view(rest2@[0]));
            assert(pairs_view(rest2@)[0] == sv.skip(j as int)[0]);
            assert(sv.skip(j as int)[0] == sv[j as int]);
        }
        let ghost orest2 = rest2@;
        let p = rest2.remove(0);
        proof {
            assert forall|k: int| 0 <= k < rest2@.len() implies pairs_view(rest2@)[k] == sv.skip(
                j as int + 1,
            )[k] by {
                assert(pairs_view(rest2@)[k] == pair_view(rest2@[k]));
                assert(rest2@[k] == orest2[k + 1]);
                assert(sv.skip(j as int)[k + 1] == pair_view(orest2[k + 1]));
            }
            assert(pairs_view(rest2@) =~= sv.skip(j as int + 1));
        }
        out.push(p.1);
        proof {
            assert(out.deep_view() =~= old_ov.push(sv[j as int].1));
            assert(strip_rows(sv).take(j as int + 1) =~= strip_rows(sv).take(j as int).push(
                sv[j as int].1,
            ));
        }
        j = j + 1;
    }
    proof {
        assert(strip_rows(sv).take(sv.len() as int) =~= strip_rows(sv));
    }
    out
}

/// Skip `offset` rows (none past the end), then keep at most `limit`.
#[verifier::loop_isolation(false)]
pub fn paginate_rows(offset: &Option<usize>, limit: &Option<usize>, rows: Vec<Vec<Value>>) -> (r:
    Vec<Vec<Value>>)
    ensures
        r.deep_view() == spec_paginate(opt_usize_view(*offset), opt_usize_view(*limit),
            rows.deep_view()),
{
    let ghost rv = rows.deep_view();
    let n = rows.len();
    let o = match offset {
        Some(o) => if *o < n {
            *o
        } else {
            n
        },
        None => 0,
    };
    let keep = match limit {
        Some(l) => if *l < n - o {
            *l
        } else {
            n - o
        },
        None => n - o,
    };
    let mut v = rows;
    v.truncate(o + keep);
    proof {
        assert(v.deep_view() =~= rv.take(o + keep as int));
    }
    let mut j: usize = 0;
    while j < o
        invariant
            j <= o,
            v@.len() == o + keep - j,
            v.deep_view() == rv.take(o + keep as int).skip(j as int),
        decreases o - j,
    {
        let ghost before = v.deep_view();
        let _ = v.remove(0);
        proof {
            assert(v.deep_view() =~= before.drop_first());
            assert(before.drop_first() =~= rv.take(o + keep as int).skip(j as int + 1));
        }
        j = j + 1;
    }
    proof {
        assert(v.deep_view() =~= rv.subrange(o as int, o + keep as int));
    }
    v
}

/// One output row of the projection.
#[verifier::loop_isolation(false)]
pub fn project_row(sel: &Vec<Proj>, names: &Vec<String>, row: &Vec<Value>) -> (r: Result<
    Vec<Value>,
    Error,
>)
    ensures
        match r {
            Ok(out) => spec_project_row(sel.deep_view(), names.deep_view(), row.deep_view())
                == Ok::<Seq<ValueV>, ErrorV>(out.deep_view()),
            Err(e) => spec_project_row(sel.deep_view(), names.deep_view(), row.deep_view())
                == Err::<Seq<ValueV>, ErrorV>(e@),
        },
{
    let ghost pv = sel.deep_view();
    let ghost nv = names.deep_view();
    let ghost rv = row.deep_view();
    let mut out: Vec<Value> = Vec::new();
    let mut i: usize = 0;
    proof {
        assert(pv.skip(0) =~= pv);
        assert(out.deep_view() =~= Seq::<ValueV>::empty());
    }
    while i < sel.len()
        invariant
            i <= sel@.len(),
            pv.len() == sel@.len(),
            spec_project_row(pv.skip(i as int), nv, rv) is Ok ==> spec_project_row(pv, nv, rv)
                == Ok::<Seq<ValueV>, ErrorV>(out.deep_view() + spec_project_row(
                pv.skip(i as int),
                nv,
                rv,
            )->Ok_0),
            spec_project_row(pv.skip(i as int), nv, rv) is Err ==> spec_project_row(pv, nv, rv)
                == spec_project_row(pv.skip(i as int), nv, rv),
        decreases sel@.len() - i,
    {
        proof {
            assert(pv[i as int] == sel@[i as int]@);
            assert(pv.skip(i as int)[0] == pv[i as int]);
            assert(pv.skip(i as int).drop_first() =~= pv.skip(i as int + 1));
        }
        let ghost old_out = out.deep_view();
        match &sel[i] {
            Proj::Wildcard => {
                let mut copied = clone_row(row);
                let ghost cv = copied.deep_view();
                out.append(&mut copied);
                proof {
                    assert(out.deep_view() =~= old_out + rv);
                }
            },
            Proj::Named { expr, .. } => match eval(expr, names, row) {
                Err(e) => {
                    return Err(e);
                },
                Ok(v) => {
                    out.push(v);
                    proof {
                        assert(out.deep_view() =~= old_out.push(
                            spec_eval(pv[i as int]->Named_expr, nv, rv)->Ok_0,
                        ));
                    }
                },
            },
        }
        proof {
            if spec_project_row(pv.skip(i as int + 1), nv, rv) is Ok {
                let rest = spec_project_row(pv.skip(i as int + 1), nv, rv)->Ok_0;
                let whole = spec_project_row(pv.skip(i as int), nv, rv)->Ok_0;
                assert(old_out + whole =~= out.deep_view() + rest);
            }
        }
        i = i + 1;
    }
    proof {
        assert(pv.skip(pv.len() as int).len() == 0);
        assert(out.deep_view() + Seq::<ValueV>::empty() =~= out.deep_view());
    }
    Ok(out)
}

/// Projection of every row.
#[verifier::loop_isolation(false)]
pub fn project_rows(sel: &Vec<Proj>, names: &Vec<String>, rows: Vec<Vec<Value>>) -> (r: Result<
    Vec<Vec<Value>>,
    Error,
>)
    ensures
        match r {
            Ok(out) => spec_project(sel.deep_view(), names.deep_view(), rows.deep_view()) == Ok::<
                Seq<Seq<ValueV>>,
                ErrorV,
            >(out.deep_view()),
            Err(e) => spec_project(sel.deep_view(), names.deep_view(), rows.deep_view()) == Err::<
                Seq<Seq<ValueV>>,
                ErrorV,
            >(e@),
        },
{
    let ghost pv = sel.deep_view();
    let ghost nv = names.deep_view();
    let ghost rv = rows.deep_view();
    let n = rows.len();
    let mut rest = rows;
    let mut out: Vec<Vec<Value>> = Vec::new();
    let mut i: usize = 0;
    proof {
        assert(rv.skip(0) =~= rv);
        assert(out.deep_view() =~= Seq::<Seq<ValueV>>::empty());
    }
    while rest.len() > 0
        invariant
            n == rv.len(),
            i + rest@.len() == rv.len(),
            rest.deep_view() == rv.skip(i as int),
            spec_project(pv, nv, rv.skip(i as int)) is Ok ==> spec_project(pv, nv, rv) == Ok::<
                Seq<Seq<ValueV>>,
                ErrorV,
            >(out.deep_view() + spec_project(pv, nv, rv.skip(i as int))->Ok_0),
            spec_project(pv, nv, rv.skip(i as int)) is Err ==> spec_project(pv, nv, rv)
                == spec_project(pv, nv, rv.skip(i as int)),
        decreases rest@.len(),
    {
        proof {
            assert(rest.deep_view()[0] == rest@[0].deep_view());
        }
        let ghost orest = rest@;
        let row = rest.remove(0);
        proof {
            assert(rv.skip(i as int)[0] == row.deep_view());
            assert forall|k: int| 0 <= k < rest@.len() implies rest.deep_view()[k] == rv.skip(
                i as int + 1,
            )[k] by {
                assert(rest.deep_view()[k] == rest@[k].deep_view());
                assert(rest@[k] == orest[k + 1]);
                assert(rv.skip(i as int)[k + 1] == orest[k + 1].deep_view());
            }
            assert(rest.deep_view() =~= rv.skip(i as int + 1));
            assert(rv.skip(i as int).drop_first() =~= rv.skip(i as int + 1));
        }
        match project_row(sel, names, &row) {
            Err(e) => {
                return Err(e);
            },
            Ok(new_row) => {
                let ghost old_out = out.deep_view();
                out.push(new_row);
                proof {
                    assert(out.deep_view() =~= old_out.push(
                        spec_project_row(pv, nv, rv[i as int])->Ok_0,
                    ));
                    if spec_project(pv, nv, rv.skip(i as int + 1)) is Ok {
                        let rest_r = spec_project(pv, nv, rv.skip(i as int + 1))->Ok_0;
                        let head = spec_project_row(pv, nv, rv[i as int])->Ok_0;
                        assert(old_out + (seq![head] + rest_r) =~= out.deep_view() + rest_r);
                    }
                }
            },
        }
        i = i + 1;
    }
    proof {
        assert(rv.skip(rv.len() as int).len() == 0);
        assert(out.deep_view() + Seq::<Seq<ValueV>>::empty() =~= out.deep_view());
    }
    Ok(out)
}

/// Resolve each `ORDER BY` key to its column position; a key the schema
/// lacks is the evaluation error that names it.
#[verifier::loop_isolation(false)]
pub fn resolve_keys(order: &Vec<(String, bool)>, names: &Vec<String>) -> (r: Result<
    Vec<(usize, bool)>,
    Error,
>)
    ensures
        match r {
            Ok(keys) => spec_missing_order(
                crate::convert::order_pairs_view(order@),
                names.deep_view(),
            ) is None && keys_view(keys@) == spec_keys(
                crate::convert::order_pairs_view(order@),
                names.deep_view(),
            ) && keys_in_width(keys@, names.deep_view().len() as int),
            Err(e) => match spec_missing_order(
                crate::convert::order_pairs_view(order@),
                names.deep_view(),
            ) {
                Some(n) => e@ == ErrorV::Evaluation(n),
                None => false,
            },
        },
{
    let ghost ov = crate::convert::order_pairs_view(order@);
    let ghost nv = names.deep_view();
    let mut keys: Vec<(usize, bool)> = Vec::new();
    let mut j: usize = 0;
    proof {
        assert(ov.skip(0) =~= ov);
        assert(keys_view(keys@) =~= spec_keys(ov.take(0), nv));
    }
    while j < order.len()
        invariant
            j <= order@.len(),
            ov.len() == order@.len(),
            keys_view(keys@) == spec_keys(ov.take(j as int), nv),
            keys_in_width(keys@, nv.len() as int),
            spec_missing_order(ov.skip(j as int), nv) is None ==> spec_missing_order(ov, nv)
                is None,
            spec_missing_order(ov.skip(j as int), nv) is Some ==> spec_missing_order(ov, nv)
                == spec_missing_order(ov.skip(j as int), nv),
        decreases order@.len() - j,
    {
        proof {
            assert(ov[j as int] == (order@[j as int].0@, order@[j as int].1));
            assert(ov.skip(j as int)[0] == ov[j as int]);
            assert(ov.skip(j as int).drop_first() =~= ov.skip(j as int + 1));
        }
        let name = &order[j].0;
        let desc = order[j].1;
        match crate::expr::find_col(names, name) {
            None => {
                return Err(Error::Evaluation(name.clone()));
            },
            Some(c) => {
                proof {
                    lemma_col_index(nv, name@);
                }
                let ghost old_kv = keys_view(keys@);
                keys.push((c, desc));
                proof {
                    assert(keys_view(keys@) =~= old_kv.push((c as int, desc)));
                    assert(spec_keys(ov.take(j as int + 1), nv) =~= spec_keys(
                        ov.take(j as int),
                        nv,
                    ).push((col_index(nv, ov[j as int].0), ov[j as int].1)));
                }
            },
        }
        j = j + 1;
    }
    proof {
        assert(ov.skip(ov.len() as int).len() == 0);
        assert(ov.take(ov.len() as int) =~= ov);
    }
    Ok(keys)
}

/// The first column a projection expression references that the schema
/// lacks, if any.
#[verifier::loop_isolation(false)]
pub fn check_sel_cols(sel: &Vec<Proj>, names: &Vec<String>) -> (r: Option<String>)
    ensures
        match r {
            Some(n) => spec_missing_sel(sel.deep_view(), names.deep_view()) == Some(n@),
            None => spec_missing_sel(sel.deep_view(), names.deep_view()) is None,
        },
{
    let ghost pv = sel.deep_view();
    let ghost nv = names.deep_view();
    let mut i: usize = 0;
    proof {
        assert(pv.skip(0) =~= pv);
    }
    while i < sel.len()
        invariant
            i <= sel@.len(),
            pv.len() == sel@.len(),
            spec_missing_sel(pv.skip(i as int), nv) is None ==> spec_missing_sel(pv, nv) is None,
            spec_missing_sel(pv.skip(i as int), nv) is Some ==> spec_missing_sel(pv, nv)
                == spec_missing_sel(pv.skip(i as int), nv),
        decreases sel@.len() - i,
    {
        proof {
            assert(pv[i as int] == sel@[i as int]@);
            assert(pv.skip(i as int)[0] == pv[i as int]);
            assert(pv.skip(i as int).drop_first() =~= pv.skip(i as int + 1));
        }
        match &sel[i] {
            Proj::Wildcard => {},
            Proj::Named { expr, .. } => match check_cols(expr, names) {
                Some(n) => {
                    return Some(n);
                },
                None => {},
            },
        }
        i = i + 1;
    }
    proof {
        assert(pv.skip(pv.len() as int).len() == 0);
    }
    None
}

/// The output schema of the projection, wildcards expanded in place.
#[verifier::loop_isolation(false)]
pub fn compute_out_names(sel: &Vec<Proj>, names: &Vec<String>) -> (r: Vec<String>)
    ensures
        r.deep_view() == spec_out_names(sel.deep_view(), names.deep_view()),
{
    let ghost pv = sel.deep_view();
    let ghost nv = names.deep_view();
    let mut out: Vec<String> = Vec::new();
    let mut i: usize = 0;
    proof {
        assert(pv.skip(0) =~= pv);
        assert(out.deep_view() =~= Seq::<Seq<char>>::empty());
    }
    while i < sel.len()
        invariant
            i <= sel@.len(),
            pv.len() == sel@.len(),
            spec_out_names(pv, nv) == out.deep_view() + spec_out_names(pv.skip(i as int), nv),
        decreases sel@.len() - i,
    {
        proof {
            assert(pv[i as int] == sel@[i as int]@);
            assert(pv.skip(i as int)[0] == pv[i as int]);
            assert(pv.skip(i as int).drop_first() =~= pv.skip(i as int + 1));
        }
        let ghost old_out = out.deep_view();
        match &sel[i] {
            Proj::Wildcard => {
                let mut copied = clone_names(names);
                out.append(&mut copied);
                proof {
                    assert(out.deep_view() =~= old_out + nv);
                }
            },
            Proj::Named { name, .. } => {
                out.push(name.clone());
                proof {
                    assert(out.deep_view() =~= old_out.push(pv[i as int]->Named_name));
                }
            },
        }
        proof {
            let head = spec_out_names(pv.skip(i as int), nv);
            let rest = spec_out_names(pv.skip(i as int + 1), nv);
            assert(old_out + head =~= out.deep_view() + rest);
        }
        i = i + 1;
    }
    proof {
        assert(pv.skip(pv.len() as int).len() == 0);
        assert(out.deep_view() + Seq::<Seq<char>>::empty() =~= out.deep_view());
    }
    out
}

/// A copy of the schema names, equal to the original in the model.
fn clone_names(names: &Vec<String>) -> (r: Vec<String>)
    ensures
        r.deep_view() == names.deep_view(),
{
    let mut out: Vec<String> = Vec::new();
    let mut i: usize = 0;
    proof {
        assert(out.deep_view() =~= names.deep_view().take(0));
    }
    while i < names.len()
        invariant
            i <= names@.len(),
            out@.len() == i,
            out.deep_view() == names.deep_view().take(i as int),
        decreases names@.len() - i,
    {
        let c = names[i].clone();
        proof {
            assert(c@ == names@[i as int]@);
        }
        out.push(c);
        proof {
            assert(names.deep_view()[i as int] == names@[i as int]@);
            assert(out.deep_view()[i as int] == out@[i as int]@);
            assert(out.deep_view() =~= names.deep_view().take(i as int + 1));
        }
        i = i + 1;
    }
    proof {
        assert(names.deep_view().take(names@.len() as int) =~= names.deep_view());
    }
    out
}

/// Apply a query descriptor to a table, in the fixed pipeline order:
/// filter, then stable multi-key sort, then pagination, then projection —
/// whatever order the clauses had in the SQL text.
#[verifier::rlimit(50)]
pub fn execute(sql: &Sql, table: Table) -> (r: Result<Table, Error>)
    requires
        table.wf(),
    ensures
        match r {
            Ok(out) => spec_execute(sql@, table@) == Ok::<TableV, ErrorV>(out@) && out.wf(),
            Err(e) => spec_execute(sql@, table@) == Err::<TableV, ErrorV>(e@),
        },
{
    let ghost qv = sql@;
    let ghost tv = table@;
    let ghost nv = tv.names;
    let ghost w = tv.names.len() as int;
    match &sql.condition {
        Some(c) => match check_cols(c, &table.names) {
            Some(n) => {
                return Err(Error::Evaluation(n));
            },
            None => {},
        },
        None => {},
    }
    let keys = match resolve_keys(&sql.order_by, &table.names) {
        Err(e) => {
            return Err(e);
        },
        Ok(k) => k,
    };
    match check_sel_cols(&sql.selection, &table.names) {
        Some(n) => {
            return Err(Error::Evaluation(n));
        },
        None => {},
    }
    proof {
        assert(spec_missing(qv, nv) is None);
    }
    let Table { names, rows } = table;
    proof {
        assert(rows_width(tv.rows, w));
    }
    let rows1 = match &sql.condition {
        Some(c) => match filter_rows(c, &names, rows) {
            Err(e) => {
                return Err(e);
            },
            Ok(r1) => r1,
        },
        None => rows,
    };
    let ghost rows1v = match qv.condition {
        Some(c) => spec_filter(c, nv, tv.rows)->Ok_0,
        None => tv.rows,
    };
    proof {
        assert(rows1.deep_view() == rows1v);
        if qv.condition is Some {
            lemma_filter_width(qv.condition.unwrap(), nv, tv.rows, w);
        }
        assert(rows_width(rows1v, w));
        assert forall|i: int|
            0 <= i < rows1@.len() implies keys_in_width(
            keys@,
            #[trigger] rows1@[i]@.len() as int,
        ) by {
            assert(rows1.deep_view()[i] == rows1@[i].deep_view());
            assert(rows1v[i].len() == w);
        }
    }
    let rows2 = sort_rows(&keys, rows1);
    let ghost rows2v = spec_sort_rows(spec_keys(qv.order_by, nv), rows1v);
    let rows3 = paginate_rows(&sql.offset, &sql.limit, rows2);
    let ghost rows3v = spec_paginate(qv.offset, qv.limit, rows2v);
    proof {
        lemma_sort_rows_width(spec_keys(qv.order_by, nv), rows1v, w);
        assert(rows_width(rows3v, w));
    }
    let rows4 = match project_rows(&sql.selection, &names, rows3) {
        Err(e) => {
            return Err(e);
        },
        Ok(r4) => r4,
    };
    let out_names = compute_out_names(&sql.selection, &names);
    let out = Table { names: out_names, rows: rows4 };
    proof {
        lemma_project_width(qv.selection, nv, rows3v);
        assert(table_wf(out@));
    }
    Ok(out)
}

/// The row count formula of the pipeline: `min(limit, max(0,
/// filtered_row_count - offset))`, with `offset` defaulting to zero and
/// `limit` to no bound.
pub open spec fn spec_row_count(offset: Option<int>, limit: Option<int>, filtered: int) -> int {
    let o = match offset {
        Some(o) => o,
        None => 0,
    };
    let after = if filtered - o >= 0 {
        filtered - o
    } else {
        0
    };
    match limit {
        Some(l) => if l < after {
            l
        } else {
            after
        },
        None => after,
    }
}

/// The number of rows the filter keeps, before pagination.
pub open spec fn spec_filtered_count(q: SqlV, t: TableV) -> int {
    match q.condition {
        Some(c) => spec_filter(c, t.names, t.rows)->Ok_0.len() as int,
        None => t.rows.len() as int,
    }
}

/// Law: pipeline order. For any filter with any offset and limit, the
/// row count of a successful query equals
/// `min(limit, max(0, filtered_row_count - offset))`: pagination applies
/// to the post-filter row set, and projection never changes the count.
pub proof fn lemma_row_count(q: SqlV, t: TableV)
    requires
        spec_execute(q, t) is Ok,
        q.offset is Some ==> q.offset.unwrap() >= 0,
        q.limit is Some ==> q.limit.unwrap() >= 0,
    ensures
        spec_execute(q, t)->Ok_0.rows.len() == spec_row_count(
            q.offset,
            q.limit,
            spec_filtered_count(q, t),
        ),
{
    let rows1 = match q.condition {
        Some(c) => spec_filter(c, t.names, t.rows)->Ok_0,
        None => t.rows,
    };
    let keys = spec_keys(q.order_by, t.names);
    let rows2 = spec_sort_rows(keys, rows1);
    let rows3 = spec_paginate(q.offset, q.limit, rows2);
    lemma_sort_rows_len(keys, rows1);
    lemma_project_len(q.selection, t.names, rows3);
}

/// The descriptor that selects every column, with no filter, sort or
/// pagination.
pub open spec fn select_all(q: SqlV) -> bool {
    &&& q.condition is None
    &&& q.selection =~= seq![ProjV::Wildcard]
    &&& q.order_by.len() == 0
    &&& q.offset is None
    &&& q.limit is None
}

proof fn lemma_project_all(names: Seq<Seq<char>>, rows: Seq<Seq<ValueV>>)
    ensures
        spec_project(seq![ProjV::Wildcard], names, rows) == Ok::<Seq<Seq<ValueV>>, ErrorV>(rows),
    decreases rows.len(),
{
    let sel = seq![ProjV::Wildcard];
    assert(sel.drop_first().len() == 0);
    if rows.len() == 0 {
        assert(rows =~= Seq::<Seq<ValueV>>::empty());
    } else {
        lemma_project_all(names, rows.drop_first());
        assert(spec_project_row(sel.drop_first(), names, rows[0]) == Ok::<Seq<ValueV>, ErrorV>(
            Seq::empty(),
        ));
        assert(spec_project_row(sel, names, rows[0]) == Ok::<Seq<ValueV>, ErrorV>(
            rows[0] + Seq::empty(),
        ));
        assert(rows[0] + Seq::<ValueV>::empty() =~= rows[0]);
        assert(seq![rows[0] + Seq::<ValueV>::empty()] + rows.drop_first() =~= rows);
    }
}

/// Law: selecting every column of a table, with no filter, sort or
/// pagination, returns the table unchanged — names, rows and order.
pub proof fn lemma_select_all_identity(q: SqlV, t: TableV)
    requires
        select_all(q),
        table_wf(t),
    ensures
        spec_execute(q, t) == Ok::<TableV, ErrorV>(t),
{
    let sel = seq![ProjV::Wildcard];
    assert(q.selection == sel);
    assert(spec_missing(q, t.names) is None) by {
        assert(sel.drop_first().len() == 0);
        assert(spec_missing_sel(sel.drop_first(), t.names) is None);
        assert(spec_missing_sel(sel, t.names) is None);
    }
    let keys = spec_keys(q.order_by, t.names);
    assert(keys.len() == 0);
    assert(spec_sort_rows(keys, t.rows) == t.rows) by {
        let tagged = tag_rows(t.rows);
        lemma_sort_no_keys(keys, tagged);
        assert(strip_rows(tagged) =~= t.rows);
    }
    let rows3 = spec_paginate(q.offset, q.limit, t.rows);
    assert(rows3 =~= t.rows);
    lemma_project_all(t.names, rows3);
    assert(spec_out_names(sel, t.names) =~= t.names) by {
        assert(sel.drop_first().len() == 0);
        assert(spec_out_names(sel.drop_first(), t.names).len() == 0);
        assert(spec_out_names(sel, t.names) == t.names + spec_out_names(
            sel.drop_first(),
            t.names,
        ));
    }
    assert(spec_execute(q, t) == Ok::<TableV, ErrorV>(
        TableV { names: spec_out_names(sel, t.names), rows: rows3 },
    ));
    assert(TableV { names: spec_out_names(sel, t.names), rows: rows3 } == t) by {
        assert(spec_out_names(sel, t.names) == t.names);
        assert(rows3 == t.rows);
    }
}

} // verus!

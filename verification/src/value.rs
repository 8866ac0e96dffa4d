use vstd::prelude::*;

verus! {

/// Mathematical model of a [`Value`].
pub enum ValueV {
    Null,
    Int(int),
    Bool(bool),
    Str(Seq<char>),
}

/// One cell of a table: a typed value, or null for an absent cell.
#[derive(Debug, PartialEq)]
pub enum Value {
    Null,
    Int(i64),
    Bool(bool),
    Str(String),
}

impl View for Value {
    type V = ValueV;

    open spec fn view(&self) -> ValueV {
        match self {
            Value::Null => ValueV::Null,
            Value::Int(i) => ValueV::Int(*i as int),
            Value::Bool(b) => ValueV::Bool(*b),
            Value::Str(s) => ValueV::Str(s@),
        }
    }
}

impl DeepView for Value {
    type V = ValueV;

    open spec fn deep_view(&self) -> ValueV {
        self.view()
    }
}

/// Position of a value's type in the cross-type order: null sorts below
/// every other value, and distinct types are ordered by this rank.
pub open spec fn rank(v: ValueV) -> int {
    match v {
        ValueV::Null => 0,
        ValueV::Bool(_) => 1,
        ValueV::Int(_) => 2,
        ValueV::Str(_) => 3,
    }
}

/// Lexicographic order on character sequences, by code point.
pub open spec fn str_le(a: Seq<char>, b: Seq<char>) -> bool
    decreases a.len(),
{
    if a.len() == 0 {
        true
    } else if b.len() == 0 {
        false
    } else if (a[0] as u32) < (b[0] as u32) {
        true
    } else if (a[0] as u32) > (b[0] as u32) {
        false
    } else {
        str_le(a.drop_first(), b.drop_first())
    }
}

/// Total order on values: by rank across types, and within a type by the
/// natural order (numeric, false before true, lexicographic).
pub open spec fn val_le(a: ValueV, b: ValueV) -> bool {
    if rank(a) != rank(b) {
        rank(a) < rank(b)
    } else {
        match (a, b) {
            (ValueV::Int(x), ValueV::Int(y)) => x <= y,
            (ValueV::Bool(x), ValueV::Bool(y)) => !x || y,
            (ValueV::Str(x), ValueV::Str(y)) => str_le(x, y),
            _ => true,
        }
    }
}

pub proof fn lemma_str_le_total(a: Seq<char>, b: Seq<char>)
    ensures
        str_le(a, b) || str_le(b, a),
    decreases a.len(),
{
    if a.len() != 0 && b.len() != 0 && (a[0] as u32) == (b[0] as u32) {
        lemma_str_le_total(a.drop_first(), b.drop_first());
    }
}

pub proof fn lemma_str_le_trans(a: Seq<char>, b: Seq<char>, c: Seq<char>)
    requires
        str_le(a, b),
        str_le(b, c),
    ensures
        str_le(a, c),
    decreases a.len(),
{
    if a.len() != 0 && b.len() != 0 && c.len() != 0 {
        if (a[0] as u32) == (b[0] as u32) && (b[0] as u32) == (c[0] as u32) {
            lemma_str_le_trans(a.drop_first(), b.drop_first(), c.drop_first());
        }
    }
}

pub proof fn lemma_val_le_total(a: ValueV, b: ValueV)
    ensures
        val_le(a, b) || val_le(b, a),
{
    if rank(a) == rank(b) {
        match (a, b) {
            (ValueV::Str(x), ValueV::Str(y)) => lemma_str_le_total(x, y),
            _ => {},
        }
    }
}

pub proof fn lemma_val_le_trans(a: ValueV, b: ValueV, c: ValueV)
    requires
        val_le(a, b),
        val_le(b, c),
    ensures
        val_le(a, c),
{
    if rank(a) == rank(b) && rank(b) == rank(c) {
        match (a, b, c) {
            (ValueV::Str(x), ValueV::Str(y), ValueV::Str(z)) => lemma_str_le_trans(x, y, z),
            _ => {},
        }
    }
}

/// Equal-length prefix scan step: dropping equal heads preserves `str_le`.
proof fn lemma_str_le_skip(a: Seq<char>, b: Seq<char>, i: int)
    requires
        0 <= i <= a.len(),
        i <= b.len(),
        forall|k: int| 0 <= k < i ==> (a[k] as u32) == (b[k] as u32),
    ensures
        str_le(a, b) == str_le(a.skip(i), b.skip(i)),
    decreases i,
{
    if i > 0 {
        assert(a.len() > 0 && b.len() > 0);
        assert(a.drop_first().skip(i - 1) =~= a.skip(i));
        assert(b.drop_first().skip(i - 1) =~= b.skip(i));
        lemma_str_le_skip(a.drop_first(), b.drop_first(), i - 1);
    } else {
        assert(a.skip(0) =~= a);
        assert(b.skip(0) =~= b);
    }
}

/// Lexicographic comparison of two strings, by code point.
pub fn str_le_exec(a: &str, b: &str) -> (r: bool)
    ensures
        r == str_le(a@, b@),
{
    let alen = a.unicode_len();
    let blen = b.unicode_len();
    let mut i: usize = 0;
    loop
        invariant
            i <= alen,
            i <= blen,
            alen == a@.len(),
            blen == b@.len(),
            forall|k: int| 0 <= k < i ==> (a@[k] as u32) == (b@[k] as u32),
        decreases alen - i,
    {
        if i >= alen || i >= blen {
            proof {
                lemma_str_le_skip(a@, b@, i as int);
            }
            return alen <= blen;
        }
        let ca = a.get_char(i);
        let cb = b.get_char(i);
        if (ca as u32) < (cb as u32) {
            proof {
                lemma_str_le_skip(a@, b@, i as int);
            }
            return true;
        }
        if (ca as u32) > (cb as u32) {
            proof {
                lemma_str_le_skip(a@, b@, i as int);
            }
            return false;
        }
        i = i + 1;
    }
}

/// Whether `a <= b` in the total value order.
pub fn val_le_exec(a: &Value, b: &Value) -> (r: bool)
    ensures
        r == val_le(a@, b@),
{
    match a {
        Value::Null => true,
        Value::Bool(x) => match b {
            Value::Null => false,
            Value::Bool(y) => !*x || *y,
            _ => true,
        },
        Value::Int(x) => match b {
            Value::Null => false,
            Value::Bool(_) => false,
            Value::Int(y) => *x <= *y,
            Value::Str(_) => true,
        },
        Value::Str(x) => match b {
            Value::Str(y) => str_le_exec(x.as_str(), y.as_str()),
            _ => false,
        },
    }
}

/// Structural equality of two values.
pub fn val_eq_exec(a: &Value, b: &Value) -> (r: bool)
    ensures
        r == (a@ == b@),
{
    let r = match a {
        Value::Null => match b {
            Value::Null => true,
            _ => false,
        },
        Value::Int(x) => match b {
            Value::Int(y) => *x == *y,
            _ => false,
        },
        Value::Bool(x) => match b {
            Value::Bool(y) => *x == *y,
            _ => false,
        },
        Value::Str(x) => match b {
            Value::Str(y) => *x == *y,
            _ => false,
        },
    };
    r
}

/// A copy of a value, equal to the original in the model.
pub fn clone_value(v: &Value) -> (r: Value)
    ensures
        r@ == v@,
{
    match v {
        Value::Null => Value::Null,
        Value::Int(i) => Value::Int(*i),
        Value::Bool(b) => Value::Bool(*b),
        Value::Str(s) => Value::Str(s.clone()),
    }
}

} // verus!

use vstd::prelude::*;

use crate::value::{
    lemma_val_le_total, lemma_val_le_trans, val_le, val_le_exec, Value, ValueV,
};

verus! {

/// One resolved sort key: a column position and a descending flag.
pub type KeyV = (int, bool);

/// A row tagged with its input position, for stability.
pub type PairV = (int, Seq<ValueV>);

/// Order of two cell values under one key: a null cell sorts before every
/// non-null value, in both directions; otherwise the direction decides.
pub open spec fn key_le(desc: bool, a: ValueV, b: ValueV) -> bool {
    if a is Null {
        true
    } else if b is Null {
        false
    } else if desc {
        val_le(b, a)
    } else {
        val_le(a, b)
    }
}

/// Multi-key order of two rows: the first key decides, later keys break
/// ties among rows equal under the earlier ones.
pub open spec fn row_le(keys: Seq<KeyV>, a: Seq<ValueV>, b: Seq<ValueV>) -> bool
    decreases keys.len(),
{
    if keys.len() == 0 {
        true
    } else {
        let c = keys[0].0;
        let d = keys[0].1;
        if key_le(d, a[c], b[c]) && key_le(d, b[c], a[c]) {
            row_le(keys.drop_first(), a, b)
        } else {
            key_le(d, a[c], b[c])
        }
    }
}

/// Rows indistinguishable under every sort key.
pub open spec fn row_eq(keys: Seq<KeyV>, a: Seq<ValueV>, b: Seq<ValueV>) -> bool {
    row_le(keys, a, b) && row_le(keys, b, a)
}

/// Order on tagged rows: the keys decide, and among rows equal under every
/// key the input position decides, which is exactly sort stability.
pub open spec fn pair_le(keys: Seq<KeyV>, a: PairV, b: PairV) -> bool {
    if row_eq(keys, a.1, b.1) {
        a.0 <= b.0
    } else {
        row_le(keys, a.1, b.1)
    }
}

pub proof fn lemma_key_le_total(desc: bool, a: ValueV, b: ValueV)
    ensures
        key_le(desc, a, b) || key_le(desc, b, a),
{
    lemma_val_le_total(a, b);
}

pub proof fn lemma_key_le_trans(desc: bool, a: ValueV, b: ValueV, c: ValueV)
    ensures
        key_le(desc, a, b) && key_le(desc, b, c) ==> key_le(desc, a, c),
{
    if key_le(desc, a, b) && key_le(desc, b, c) {
        if !(a is Null) && !(b is Null) && !(c is Null) {
            if desc {
                lemma_val_le_trans(c, b, a);
            } else {
                lemma_val_le_trans(a, b, c);
            }
        }
    }
}

pub proof fn lemma_row_le_total(keys: Seq<KeyV>, a: Seq<ValueV>, b: Seq<ValueV>)
    ensures
        row_le(keys, a, b) || row_le(keys, b, a),
    decreases keys.len(),
{
    if keys.len() > 0 {
        lemma_key_le_total(keys[0].1, a[keys[0].0], b[keys[0].0]);
        lemma_row_le_total(keys.drop_first(), a, b);
    }
}

pub proof fn lemma_row_le_trans(keys: Seq<KeyV>, a: Seq<ValueV>, b: Seq<ValueV>, c: Seq<ValueV>)
    requires
        row_le(keys, a, b),
        row_le(keys, b, c),
    ensures
        row_le(keys, a, c),
    decreases keys.len(),
{
    if keys.len() > 0 {
        let col = keys[0].0;
        let d = keys[0].1;
        let x = a[col];
        let y = b[col];
        let z = c[col];
        lemma_key_le_total(d, x, y);
        lemma_key_le_total(d, y, z);
        lemma_key_le_total(d, x, z);
        lemma_key_le_trans(d, x, y, z);
        lemma_key_le_trans(d, z, x, y);
        lemma_key_le_trans(d, y, z, x);
        lemma_key_le_trans(d, z, y, x);
        lemma_key_le_trans(d, x, z, y);
        lemma_key_le_trans(d, y, x, z);
        if key_le(d, x, y) && key_le(d, y, x) && key_le(d, y, z) && key_le(d, z, y) {
            lemma_row_le_trans(keys.drop_first(), a, b, c);
        }
    }
}

/// Totality of the tagged-row order.
pub proof fn lemma_pair_le_total(keys: Seq<KeyV>, a: PairV, b: PairV)
    ensures
        pair_le(keys, a, b) || pair_le(keys, b, a),
{
    lemma_row_le_total(keys, a.1, b.1);
}

/// Transitivity of the tagged-row order.
pub proof fn lemma_pair_le_trans(keys: Seq<KeyV>, a: PairV, b: PairV, c: PairV)
    requires
        pair_le(keys, a, b),
        pair_le(keys, b, c),
    ensures
        pair_le(keys, a, c),
{
    lemma_row_le_total(keys, a.1, b.1);
    lemma_row_le_total(keys, b.1, c.1);
    lemma_row_le_total(keys, a.1, c.1);
    if row_le(keys, a.1, b.1) && row_le(keys, b.1, c.1) {
        lemma_row_le_trans(keys, a.1, b.1, c.1);
    }
    if row_le(keys, b.1, a.1) && row_le(keys, c.1, b.1) {
        lemma_row_le_trans(keys, c.1, b.1, a.1);
    }
    if row_le(keys, c.1, a.1) && row_le(keys, a.1, b.1) {
        lemma_row_le_trans(keys, c.1, a.1, b.1);
    }
    if row_le(keys, b.1, c.1) && row_le(keys, c.1, a.1) {
        lemma_row_le_trans(keys, b.1, c.1, a.1);
    }
}

/// Insertion of a tagged row into a sorted prefix: the new row goes after
/// every row that is `pair_le` it, scanning from the end.
pub open spec fn spec_insert(keys: Seq<KeyV>, s: Seq<PairV>, x: PairV) -> Seq<PairV>
    decreases s.len(),
{
    if s.len() == 0 {
        seq![x]
    } else if pair_le(keys, s.last(), x) {
        s.push(x)
    } else {
        spec_insert(keys, s.drop_last(), x).push(s.last())
    }
}

/// Insertion sort over tagged rows, processing input left to right.
pub open spec fn spec_sort(keys: Seq<KeyV>, s: Seq<PairV>) -> Seq<PairV>
    decreases s.len(),
{
    if s.len() == 0 {
        Seq::empty()
    } else {
        spec_insert(keys, spec_sort(keys, s.drop_last()), s.last())
    }
}

/// Pairwise sortedness under the tagged-row order.
pub open spec fn sorted(keys: Seq<KeyV>, s: Seq<PairV>) -> bool {
    forall|i: int, j: int| 0 <= i < j < s.len() ==> pair_le(keys, s[i], s[j])
}

pub proof fn lemma_insert_len(keys: Seq<KeyV>, s: Seq<PairV>, x: PairV)
    ensures
        spec_insert(keys, s, x).len() == s.len() + 1,
    decreases s.len(),
{
    if s.len() > 0 && !pair_le(keys, s.last(), x) {
        lemma_insert_len(keys, s.drop_last(), x);
    }
}

pub proof fn lemma_sort_len(keys: Seq<KeyV>, s: Seq<PairV>)
    ensures
        spec_sort(keys, s).len() == s.len(),
    decreases s.len(),
{
    if s.len() > 0 {
        lemma_sort_len(keys, s.drop_last());
        lemma_insert_len(keys, spec_sort(keys, s.drop_last()), s.last());
    }
}

pub proof fn lemma_insert_multiset(keys: Seq<KeyV>, s: Seq<PairV>, x: PairV)
    ensures
        spec_insert(keys, s, x).to_multiset() == s.to_multiset().insert(x),
    decreases s.len(),
{
    broadcast use vstd::seq_lib::group_to_multiset_ensures;

    if s.len() == 0 {
        assert(seq![x] =~= Seq::empty().push(x));
        assert(Seq::<PairV>::empty().to_multiset() =~= vstd::multiset::Multiset::empty());
        assert(spec_insert(keys, s, x).to_multiset() =~= s.to_multiset().insert(x));
    } else if pair_le(keys, s.last(), x) {
    } else {
        lemma_insert_multiset(keys, s.drop_last(), x);
        let t = spec_insert(keys, s.drop_last(), x);
        assert(t.push(s.last()).to_multiset() =~= t.to_multiset().insert(s.last()));
        assert(s =~= s.drop_last().push(s.last()));
        assert(s.to_multiset() =~= s.drop_last().to_multiset().insert(s.last()));
        assert(t.to_multiset().insert(s.last()) =~= s.drop_last().to_multiset().insert(x).insert(
            s.last(),
        ));
        assert(s.drop_last().to_multiset().insert(x).insert(s.last())
            =~= s.drop_last().to_multiset().insert(s.last()).insert(x));
    }
}

pub proof fn lemma_sort_multiset(keys: Seq<KeyV>, s: Seq<PairV>)
    ensures
        spec_sort(keys, s).to_multiset() == s.to_multiset(),
    decreases s.len(),
{
    broadcast use vstd::seq_lib::group_to_multiset_ensures;

    if s.len() > 0 {
        lemma_sort_multiset(keys, s.drop_last());
        lemma_insert_multiset(keys, spec_sort(keys, s.drop_last()), s.last());
        assert(s =~= s.drop_last().push(s.last()));
        assert(s.to_multiset() =~= s.drop_last().to_multiset().insert(s.last()));
    }
}

/// Every element of a sequence is in any sequence with the same multiset.
pub proof fn lemma_same_multiset_contains(s: Seq<PairV>, t: Seq<PairV>)
    requires
        s.to_multiset() == t.to_multiset(),
    ensures
        forall|i: int| 0 <= i < t.len() ==> s.contains(#[trigger] t[i]),
{
    broadcast use vstd::seq_lib::group_to_multiset_ensures;

    assert forall|i: int| 0 <= i < t.len() implies s.contains(t[i]) by {
        assert(t.contains(t[i]));
        assert(t.to_multiset().count(t[i]) > 0);
    }
}

pub proof fn lemma_insert_sorted(keys: Seq<KeyV>, s: Seq<PairV>, x: PairV)
    requires
        sorted(keys, s),
    ensures
        sorted(keys, spec_insert(keys, s, x)),
    decreases s.len(),
{
    if s.len() == 0 {
    } else if pair_le(keys, s.last(), x) {
        let r = s.push(x);
        assert forall|i: int, j: int| 0 <= i < j < r.len() implies pair_le(keys, r[i], r[j]) by {
            if j == r.len() - 1 {
                if i < s.len() - 1 {
                    lemma_pair_le_trans(keys, s[i], s.last(), x);
                }
            }
        }
    } else {
        lemma_pair_le_total(keys, s.last(), x);
        assert(pair_le(keys, x, s.last()));
        assert(sorted(keys, s.drop_last()));
        lemma_insert_sorted(keys, s.drop_last(), x);
        let t = spec_insert(keys, s.drop_last(), x);
        lemma_insert_multiset(keys, s.drop_last(), x);
        lemma_same_multiset_contains_ins(s.drop_last(), t, x);
        lemma_insert_len(keys, s.drop_last(), x);
        let r = t.push(s.last());
        assert forall|i: int, j: int| 0 <= i < j < r.len() implies pair_le(keys, r[i], r[j]) by {
            if j == r.len() - 1 {
                // r[i] is t[i]: either x itself or some element of s.drop_last()
                if t[i] == x {
                    assert(pair_le(keys, x, s.last()));
                } else {
                    let k = choose|k: int|
                        0 <= k < s.drop_last().len() && s.drop_last()[k] == t[i];
                    assert(s[k] == s.drop_last()[k]);
                    assert(pair_le(keys, s[k], s.last()));
                }
            }
        }
    }
}

/// Each element of the inserted sequence is the new element or one of the
/// old ones.
proof fn lemma_same_multiset_contains_ins(s: Seq<PairV>, t: Seq<PairV>, x: PairV)
    requires
        t.to_multiset() == s.to_multiset().insert(x),
    ensures
        forall|i: int| 0 <= i < t.len() ==> t[i] == x || s.contains(#[trigger] t[i]),
{
    broadcast use vstd::seq_lib::group_to_multiset_ensures;

    assert forall|i: int| 0 <= i < t.len() implies t[i] == x || s.contains(t[i]) by {
        assert(t.contains(t[i]));
        assert(t.to_multiset().count(t[i]) > 0);
        if t[i] != x {
            assert(s.to_multiset().count(t[i]) > 0);
        }
    }
}

pub proof fn lemma_sort_sorted(keys: Seq<KeyV>, s: Seq<PairV>)
    ensures
        sorted(keys, spec_sort(keys, s)),
    decreases s.len(),
{
    if s.len() > 0 {
        lemma_sort_sorted(keys, s.drop_last());
        lemma_insert_sorted(keys, spec_sort(keys, s.drop_last()), s.last());
    }
}

/// Stability: among rows equal under every key, input positions stay in
/// their original order.
pub open spec fn stable(keys: Seq<KeyV>, s: Seq<PairV>) -> bool {
    forall|i: int, j: int|
        0 <= i < j < s.len() && row_eq(keys, s[i].1, s[j].1) ==> s[i].0 < s[j].0
}

/// Every input position in the sequence is below `n`.
pub open spec fn firsts_below(s: Seq<PairV>, n: int) -> bool {
    forall|i: int| 0 <= i < s.len() ==> s[i].0 < n
}

proof fn lemma_insert_stable(keys: Seq<KeyV>, s: Seq<PairV>, x: PairV)
    requires
        sorted(keys, s),
        stable(keys, s),
        firsts_below(s, x.0),
    ensures
        stable(keys, spec_insert(keys, s, x)),
        firsts_below(spec_insert(keys, s, x), x.0 + 1),
    decreases s.len(),
{
    if s.len() == 0 {
    } else if pair_le(keys, s.last(), x) {
        let r = s.push(x);
        assert forall|i: int, j: int|
            0 <= i < j < r.len() && row_eq(keys, r[i].1, r[j].1) implies r[i].0 < r[j].0 by {
            if j == r.len() - 1 {
                assert(r[i] == s[i]);
            }
        }
    } else {
        assert(!row_eq(keys, s.last().1, x.1));
        assert(sorted(keys, s.drop_last()));
        assert(stable(keys, s.drop_last()));
        assert(firsts_below(s.drop_last(), x.0));
        lemma_insert_stable(keys, s.drop_last(), x);
        let t = spec_insert(keys, s.drop_last(), x);
        lemma_insert_multiset(keys, s.drop_last(), x);
        lemma_same_multiset_contains_ins(s.drop_last(), t, x);
        let r = t.push(s.last());
        assert forall|i: int, j: int|
            0 <= i < j < r.len() && row_eq(keys, r[i].1, r[j].1) implies r[i].0 < r[j].0 by {
            if j == r.len() - 1 {
                if t[i] == x {
                    assert(!row_eq(keys, x.1, s.last().1));
                } else {
                    let k = choose|k: int|
                        0 <= k < s.drop_last().len() && s.drop_last()[k] == t[i];
                    assert(s[k] == s.drop_last()[k]);
                    assert(row_eq(keys, s[k].1, s.last().1) ==> s[k].0 < s.last().0);
                }
            }
        }
        assert forall|i: int| 0 <= i < r.len() implies r[i].0 < x.0 + 1 by {
            if i < r.len() - 1 {
                assert(t[i].0 < x.0 + 1);
            }
        }
    }
}

/// The sort of position-tagged rows is sorted, is a permutation of its
/// input, and keeps rows that are equal under every key in input order.
pub proof fn lemma_sort_stable(keys: Seq<KeyV>, s: Seq<PairV>)
    requires
        forall|i: int, j: int| 0 <= i < j < s.len() ==> s[i].0 < s[j].0,
    ensures
        stable(keys, spec_sort(keys, s)),
    decreases s.len(),
{
    if s.len() > 0 {
        let dl = s.drop_last();
        lemma_sort_stable(keys, dl);
        lemma_sort_sorted(keys, dl);
        lemma_sort_multiset(keys, dl);
        lemma_same_multiset_contains(dl, spec_sort(keys, dl));
        assert(firsts_below(spec_sort(keys, dl), s.last().0)) by {
            assert forall|i: int|
                0 <= i < spec_sort(keys, dl).len() implies spec_sort(keys, dl)[i].0
                < s.last().0 by {
                let e = spec_sort(keys, dl)[i];
                assert(dl.contains(e));
                let k = choose|k: int| 0 <= k < dl.len() && dl[k] == e;
                assert(s[k] == dl[k]);
                assert(s[k].0 < s.last().0);
            }
        }
        lemma_insert_stable(keys, spec_sort(keys, dl), s.last());
    }
}

/// Null ordering: when any row carries null in the primary sort key, the
/// first row of a sorted sequence does, whichever direction each key has.
pub proof fn lemma_sorted_null_first(keys: Seq<KeyV>, s: Seq<PairV>, w: int)
    requires
        sorted(keys, s),
        keys.len() > 0,
        0 <= w < s.len(),
        s[w].1[keys[0].0] is Null,
    ensures
        s[0].1[keys[0].0] is Null,
{
    if w != 0 {
        let c = keys[0].0;
        let d = keys[0].1;
        assert(pair_le(keys, s[0], s[w]));
        let a = s[0].1;
        let b = s[w].1;
        assert(key_le(d, b[c], a[c]));
        if row_eq(keys, a, b) {
            assert(row_le(keys, a, b) && row_le(keys, b, a));
            if !(key_le(d, a[c], b[c]) && key_le(d, b[c], a[c])) {
                assert(key_le(d, a[c], b[c]) && key_le(d, b[c], a[c]));
            }
        } else {
            assert(row_le(keys, a, b));
        }
        assert(key_le(d, a[c], b[c]));
    }
}

/// Order of two cells under one key.
pub fn key_le_exec(desc: bool, a: &Value, b: &Value) -> (r: bool)
    ensures
        r == key_le(desc, a@, b@),
{
    if matches!(a, Value::Null) {
        true
    } else if matches!(b, Value::Null) {
        false
    } else if desc {
        val_le_exec(b, a)
    } else {
        val_le_exec(a, b)
    }
}

/// Resolved sort keys applied to rows of at least this width.
pub open spec fn keys_in_width(keys: Seq<(usize, bool)>, w: int) -> bool {
    forall|k: int| 0 <= k < keys.len() ==> #[trigger] keys[k].0 < w
}

pub open spec fn keys_view(keys: Seq<(usize, bool)>) -> Seq<KeyV> {
    keys.map_values(|k: (usize, bool)| (k.0 as int, k.1))
}

pub open spec fn pair_view(p: (usize, Vec<Value>)) -> PairV {
    (p.0 as int, p.1.deep_view())
}

pub open spec fn pairs_view(s: Seq<(usize, Vec<Value>)>) -> Seq<PairV> {
    s.map_values(|p: (usize, Vec<Value>)| pair_view(p))
}

/// Multi-key order of two rows.
pub fn row_le_exec(keys: &Vec<(usize, bool)>, a: &Vec<Value>, b: &Vec<Value>) -> (r: bool)
    requires
        keys_in_width(keys@, a@.len() as int),
        keys_in_width(keys@, b@.len() as int),
    ensures
        r == row_le(keys_view(keys@), a.deep_view(), b.deep_view()),
{
    let ghost kv = keys_view(keys@);
    let ghost av = a.deep_view();
    let ghost bv = b.deep_view();
    proof {
        assert(kv.skip(0) =~= kv);
    }
    let mut i: usize = 0;
    while i < keys.len()
        invariant
            i <= keys.len(),
            kv == keys_view(keys@),
            av == a.deep_view(),
            bv == b.deep_view(),
            kv.len() == keys@.len(),
            keys_in_width(keys@, av.len() as int),
            keys_in_width(keys@, bv.len() as int),
            av.len() == a@.len(),
            bv.len() == b@.len(),
            row_le(kv, av, bv) == row_le(kv.skip(i as int), av, bv),
        decreases keys.len() - i,
    {
        let (c, d) = keys[i];
        proof {
            assert(kv[i as int] == (c as int, d));
            assert(av[c as int] == a@[c as int]@);
            assert(bv[c as int] == b@[c as int]@);
        }
        let le_ab = key_le_exec(d, &a[c], &b[c]);
        let le_ba = key_le_exec(d, &b[c], &a[c]);
        proof {
            assert(kv.skip(i as int)[0] == (c as int, d));
            assert(kv.skip(i as int).drop_first() =~= kv.skip(i as int + 1));
        }
        if !(le_ab && le_ba) {
            return le_ab;
        }
        i = i + 1;
    }
    proof {
        assert(kv.skip(i as int).len() == 0);
    }
    true
}

/// Order of two tagged rows: keys first, input position among key-equal
/// rows.
pub fn pair_le_exec(keys: &Vec<(usize, bool)>, a: &(usize, Vec<Value>), b: &(
    usize,
    Vec<Value>,
)) -> (r: bool)
    requires
        keys_in_width(keys@, a.1@.len() as int),
        keys_in_width(keys@, b.1@.len() as int),
    ensures
        r == pair_le(keys_view(keys@), pair_view(*a), pair_view(*b)),
{
    let le_ab = row_le_exec(keys, &a.1, &b.1);
    let le_ba = row_le_exec(keys, &b.1, &a.1);
    if le_ab && le_ba {
        a.0 <= b.0
    } else {
        le_ab
    }
}

/// Every row of the tagged sequence is wide enough for every key.
pub open spec fn pairs_in_width(s: Seq<(usize, Vec<Value>)>, keys: Seq<(usize, bool)>) -> bool {
    forall|i: int| 0 <= i < s.len() ==> keys_in_width(keys, #[trigger] s[i].1@.len() as int)
}

/// Insert one tagged row into an already sorted vector, from the end.
pub(crate) fn insert_pair(keys: &Vec<(usize, bool)>, sorted_rows: Vec<(usize, Vec<Value>)>, x: (
    usize,
    Vec<Value>,
)) -> (r: Vec<(usize, Vec<Value>)>)
    requires
        pairs_in_width(sorted_rows@, keys@),
        keys_in_width(keys@, x.1@.len() as int),
    ensures
        pairs_view(r@) == spec_insert(keys_view(keys@), pairs_view(sorted_rows@), pair_view(x)),
        pairs_in_width(r@, keys@),
    decreases sorted_rows@.len(),
{
    let ghost kv = keys_view(keys@);
    let mut v = sorted_rows;
    if v.len() == 0 {
        v.push(x);
        proof {
            assert(pairs_view(v@) =~= seq![pair_view(x)]);
        }
        return v;
    }
    let ghost old_pv = pairs_view(v@);
    proof {
        assert(old_pv.last() == pair_view(v@.last()));
    }
    let le = pair_le_exec(keys, &v[v.len() - 1], &x);
    if le {
        v.push(x);
        proof {
            assert(pairs_view(v@) =~= old_pv.push(pair_view(x)));
        }
        v
    } else {
        let last = v.pop().unwrap();
        proof {
            assert(pairs_view(v@) =~= old_pv.drop_last());
        }
        let mut r = insert_pair(keys, v, x);
        r.push(last);
        proof {
            assert(pairs_view(r@) =~= spec_insert(kv, old_pv.drop_last(), pair_view(x)).push(
                pair_view(last),
            ));
        }
        r
    }
}

/// Insertion sort of tagged rows, processing input left to right.
pub(crate) fn sort_pairs(keys: &Vec<(usize, bool)>, rows: Vec<(usize, Vec<Value>)>) -> (r: Vec<(
    usize,
    Vec<Value>,
)>)
    requires
        pairs_in_width(rows@, keys@),
    ensures
        pairs_view(r@) == spec_sort(keys_view(keys@), pairs_view(rows@)),
        pairs_in_width(r@, keys@),
    decreases rows@.len(),
{
    let ghost kv = keys_view(keys@);
    let mut v = rows;
    if v.len() == 0 {
        proof {
            assert(pairs_view(v@) =~= Seq::<PairV>::empty());
            assert(spec_sort(kv, pairs_view(v@)) =~= Seq::<PairV>::empty());
        }
        return v;
    }
    let ghost old_pv = pairs_view(v@);
    let last = v.pop().unwrap();
    proof {
        assert(pairs_view(v@) =~= old_pv.drop_last());
        assert(pair_view(last) == old_pv.last());
    }
    let sorted_rest = sort_pairs(keys, v);
    insert_pair(keys, sorted_rest, last)
}

/// With no sort keys every two rows tie, so the position-tagged sort
/// keeps the input exactly.
pub proof fn lemma_sort_no_keys(keys: Seq<KeyV>, s: Seq<PairV>)
    requires
        keys.len() == 0,
        forall|i: int, j: int| 0 <= i < j < s.len() ==> s[i].0 < s[j].0,
    ensures
        spec_sort(keys, s) == s,
    decreases s.len(),
{
    if s.len() > 0 {
        let dl = s.drop_last();
        lemma_sort_no_keys(keys, dl);
        if dl.len() == 0 {
            assert(spec_insert(keys, dl, s.last()) =~= s);
        } else {
            assert(pair_le(keys, dl.last(), s.last())) by {
                assert(dl.last() == s[s.len() - 2]);
            }
            assert(dl.push(s.last()) =~= s);
        }
    }
}

} // verus!

use vstd::prelude::*;

use crate::error::{Error, ErrorV};
use crate::table::{table_wf, Table, TableV};
use crate::value::{Value, ValueV};

verus! {

/// The decimal digit character for one digit value.
pub open spec fn digit_char(d: int) -> char {
    ((48 + d) as u8) as char
}

pub open spec fn is_digit(c: char) -> bool {
    48 <= c as u32 <= 57
}

pub open spec fn digit_val(c: char) -> int {
    c as u32 - 48
}

/// Decimal digits of a non-negative integer, most significant first.
pub open spec fn nat_digits(n: int) -> Seq<char>
    decreases n,
{
    if n < 10 {
        seq![digit_char(n)]
    } else {
        nat_digits(n / 10).push(digit_char(n % 10))
    }
}

/// Decimal rendering of an integer, with a leading minus when negative.
pub open spec fn int_chars(n: int) -> Seq<char> {
    if n < 0 {
        seq!['-'] + nat_digits(-n)
    } else {
        nat_digits(n)
    }
}

/// Value of a digit string, most significant first.
pub open spec fn digits_val(s: Seq<char>) -> int
    decreases s.len(),
{
    if s.len() == 0 {
        0
    } else {
        digits_val(s.drop_last()) * 10 + digit_val(s.last())
    }
}

pub open spec fn all_digits(s: Seq<char>) -> bool {
    forall|i: int| 0 <= i < s.len() ==> is_digit(#[trigger] s[i])
}

/// A digit string in canonical form: non-empty, no leading zero unless
/// it is exactly "0".
pub open spec fn canonical_nat(s: Seq<char>) -> bool {
    s.len() > 0 && all_digits(s) && (s.len() > 1 ==> s[0] != digit_char(0))
}

/// The signed value a cell text denotes, when it is integer-shaped.
pub open spec fn cell_int(s: Seq<char>) -> int {
    if s.len() > 0 && s[0] == '-' {
        -digits_val(s.skip(1))
    } else {
        digits_val(s)
    }
}

/// A cell text that the loader reads as an integer: the canonical decimal
/// rendering of a value an `i64` can hold.
pub open spec fn canonical_int(s: Seq<char>) -> bool {
    if s.len() > 0 && s[0] == '-' {
        canonical_nat(s.skip(1)) && digits_val(s.skip(1)) > 0 && -digits_val(s.skip(1))
            >= i64::MIN as int
    } else {
        canonical_nat(s) && digits_val(s) <= i64::MAX as int
    }
}

proof fn lemma_digits_val_nonneg(s: Seq<char>)
    requires
        all_digits(s),
    ensures
        digits_val(s) >= 0,
    decreases s.len(),
{
    if s.len() > 0 {
        assert(all_digits(s.drop_last()));
        lemma_digits_val_nonneg(s.drop_last());
    }
}

/// Once a digit prefix exceeds a positive bound, every longer prefix does.
proof fn lemma_digits_val_monotone(s: Seq<char>, i: int, j: int)
    requires
        all_digits(s),
        0 <= i <= j <= s.len(),
    ensures
        digits_val(s.take(j)) >= digits_val(s.take(i)),
    decreases j - i,
{
    if i < j {
        lemma_digits_val_monotone(s, i, j - 1);
        assert(s.take(j).drop_last() =~= s.take(j - 1));
        assert(all_digits(s.take(j - 1)));
        lemma_digits_val_nonneg(s.take(j - 1));
        assert(is_digit(s.take(j).last()));
    }
}

/// Digits of a value parse back to the value: rendering then reading an
/// integer is the identity.
pub proof fn lemma_nat_digits_val(n: int)
    requires
        n >= 0,
    ensures
        all_digits(nat_digits(n)),
        canonical_nat(nat_digits(n)),
        digits_val(nat_digits(n)) == n,
        nat_digits(n).len() >= 1,
        nat_digits(n)[0] != '-',
        n >= 1 ==> nat_digits(n)[0] != digit_char(0),
    decreases n,
{
    if n < 10 {
        assert(nat_digits(n) =~= seq![digit_char(n)]);
        assert(digits_val(seq![digit_char(n)].drop_last()) == 0);
        assert(digit_char(n) as u32 == 48 + n);
        assert(digit_char(0) as u32 == 48);
        assert(digit_val(digit_char(n)) == n);
        assert('-' as u32 == 45);
        assert(digit_char(n) != '-');
    } else {
        lemma_nat_digits_val(n / 10);
        let d = nat_digits(n / 10);
        assert(nat_digits(n) == d.push(digit_char(n % 10)));
        assert(nat_digits(n).drop_last() =~= d);
        assert(digit_char(n % 10) as u32 == 48 + n % 10);
        assert(digit_val(digit_char(n % 10)) == n % 10);
        assert(nat_digits(n).last() == digit_char(n % 10));
        assert(nat_digits(n).len() > 0);
        assert(digits_val(nat_digits(n)) == digits_val(nat_digits(n).drop_last()) * 10 + digit_val(
            nat_digits(n).last(),
        ));
        assert(digits_val(nat_digits(n).drop_last()) == n / 10);
        assert(digits_val(nat_digits(n)) == (n / 10) * 10 + n % 10);
        vstd::arithmetic::div_mod::lemma_fundamental_div_mod(n, 10);
        assert(n / 10 >= 1);
        assert(d[0] != digit_char(0));
        assert(nat_digits(n)[0] == d[0]);
    }
}

/// Law (integer cells): the canonical rendering of any `i64` value parses
/// back to that value, and is accepted as integer-shaped.
pub proof fn lemma_int_chars_roundtrip(n: int)
    requires
        i64::MIN as int <= n <= i64::MAX as int,
    ensures
        canonical_int(int_chars(n)),
        cell_int(int_chars(n)) == n,
        int_chars(n).len() >= 1,
{
    if n < 0 {
        lemma_nat_digits_val(-n);
        let s = int_chars(n);
        assert(s[0] == '-');
        assert(s.skip(1) =~= nat_digits(-n));
    } else {
        lemma_nat_digits_val(n);
        let s = int_chars(n);
        assert(s == nat_digits(n));
        assert(s[0] != '-');
    }
}

/// Split a character sequence on a separator, the accumulator holding the
/// current (not yet ended) segment.
pub open spec fn split_acc(s: Seq<char>, sep: char, cur: Seq<char>) -> Seq<Seq<char>>
    decreases s.len(),
{
    if s.len() == 0 {
        seq![cur]
    } else if s[0] == sep {
        seq![cur] + split_acc(s.drop_first(), sep, Seq::empty())
    } else {
        split_acc(s.drop_first(), sep, cur.push(s[0]))
    }
}

/// The segments of a character sequence between separators.
pub open spec fn split_on(s: Seq<char>, sep: char) -> Seq<Seq<char>> {
    split_acc(s, sep, Seq::empty())
}

/// Join segments with a separator between each two.
pub open spec fn join_with(parts: Seq<Seq<char>>, sep: char) -> Seq<char>
    decreases parts.len(),
{
    if parts.len() == 0 {
        Seq::empty()
    } else if parts.len() == 1 {
        parts[0]
    } else {
        parts[0] + seq![sep] + join_with(parts.drop_first(), sep)
    }
}

pub open spec fn no_sep(parts: Seq<Seq<char>>, sep: char) -> bool {
    forall|i: int| 0 <= i < parts.len() ==> !(#[trigger] parts[i]).contains(sep)
}

/// Splitting is the inverse of joining, for segments free of the
/// separator.
pub proof fn lemma_split_join(parts: Seq<Seq<char>>, sep: char, acc: Seq<char>)
    requires
        parts.len() > 0,
        no_sep(parts, sep),
    ensures
        split_acc(join_with(parts, sep), sep, acc) == seq![acc + parts[0]] + parts.drop_first(),
    decreases parts.len(), parts[0].len(),
{
    let s = join_with(parts, sep);
    if parts[0].len() == 0 {
        if parts.len() == 1 {
            assert(s.len() == 0);
            assert(split_acc(s, sep, acc) =~= seq![acc]);
            assert(seq![acc + parts[0]] + parts.drop_first() =~= seq![acc]) by {
                assert(acc + parts[0] =~= acc);
            }
        } else {
            assert(s == parts[0] + seq![sep] + join_with(parts.drop_first(), sep));
            assert(s[0] == sep) by {
                assert(s =~= seq![sep] + join_with(parts.drop_first(), sep));
            }
            assert(s.drop_first() =~= join_with(parts.drop_first(), sep));
            assert(no_sep(parts.drop_first(), sep)) by {
                assert(forall|i: int| #![trigger parts.drop_first()[i]]
                    0 <= i < parts.drop_first().len() ==> parts.drop_first()[i] == parts[i + 1]);
            }
            lemma_split_join(parts.drop_first(), sep, Seq::empty());
            assert(Seq::empty() + parts.drop_first()[0] =~= parts.drop_first()[0]);
            assert(split_acc(s, sep, acc) =~= seq![acc + parts[0]] + parts.drop_first()) by {
                assert(acc + parts[0] =~= acc);
                assert(seq![Seq::empty() + parts.drop_first()[0]] + parts.drop_first().drop_first()
                    =~= parts.drop_first());
            }
        }
    } else {
        let c = parts[0][0];
        assert(!parts[0].contains(sep));
        assert(c != sep) by {
            assert(parts[0][0] == c);
        }
        let tail = parts.update(0, parts[0].drop_first());
        assert(no_sep(tail, sep)) by {
            assert(forall|k: int| #![trigger parts[0].drop_first()[k]]
                0 <= k < parts[0].drop_first().len() ==> parts[0].drop_first()[k] == parts[0][k
                    + 1]);
            assert(!parts[0].drop_first().contains(sep)) by {
                if parts[0].drop_first().contains(sep) {
                    let k = choose|k: int|
                        0 <= k < parts[0].drop_first().len() && parts[0].drop_first()[k] == sep;
                    assert(parts[0][k + 1] == sep);
                }
            }
        }
        assert(s.len() > 0 && s[0] == c) by {
            if parts.len() == 1 {
            } else {
                assert(s == parts[0] + seq![sep] + join_with(parts.drop_first(), sep));
            }
        }
        assert(join_with(tail, sep) =~= s.drop_first()) by {
            if parts.len() == 1 {
                assert(join_with(tail, sep) == tail[0]);
                assert(tail[0] =~= s.drop_first());
            } else {
                assert(tail.drop_first() =~= parts.drop_first());
                assert(join_with(tail, sep) == tail[0] + seq![sep] + join_with(
                    tail.drop_first(),
                    sep,
                ));
                assert(tail[0] + seq![sep] + join_with(parts.drop_first(), sep) =~= s.drop_first());
            }
        }
        lemma_split_join(tail, sep, acc.push(c));
        assert(split_acc(s, sep, acc) == split_acc(s.drop_first(), sep, acc.push(c)));
        assert(acc.push(c) + tail[0] =~= acc + parts[0]);
        assert(seq![acc.push(c) + tail[0]] + tail.drop_first() =~= seq![acc + parts[0]]
            + parts.drop_first()) by {
            assert(tail.drop_first() =~= parts.drop_first());
        }
    }
}

/// Lines of a text: newline-separated segments; a trailing newline ends
/// the last line rather than adding an empty one.
pub open spec fn spec_lines(s: Seq<char>) -> Seq<Seq<char>> {
    let raw = split_on(s, '\n');
    if raw.len() > 0 && raw.last().len() == 0 {
        raw.drop_last()
    } else {
        raw
    }
}

/// A column whose every cell is empty or integer-shaped is read as an
/// integer column.
pub open spec fn col_intlike(cells: Seq<Seq<Seq<char>>>, c: int) -> bool {
    forall|r: int|
        0 <= r < cells.len() ==> ((#[trigger] cells[r][c]).len() == 0 || canonical_int(cells[r][c]))
}

/// The value one cell text denotes: empty is null; in an integer column
/// the integer it spells; otherwise the text itself.
pub open spec fn cell_value(s: Seq<char>, as_int: bool) -> ValueV {
    if s.len() == 0 {
        ValueV::Null
    } else if as_int {
        ValueV::Int(cell_int(s))
    } else {
        ValueV::Str(s)
    }
}

/// Parsing CSV text into a table: the first line names the columns, each
/// further line is one row, fields split on commas, and each column's
/// type is inferred over its whole extent.
pub open spec fn spec_parse_csv(s: Seq<char>) -> Result<TableV, ErrorV> {
    let lines = spec_lines(s);
    if lines.len() == 0 {
        Err(ErrorV::Load("empty input"@))
    } else {
        let names = split_on(lines[0], ',');
        let cells = lines.drop_first().map_values(|l: Seq<char>| split_on(l, ','));
        if exists|r: int| 0 <= r < cells.len() && (#[trigger] cells[r]).len() != names.len() {
            Err(ErrorV::Load("ragged rows"@))
        } else {
            Ok(
                TableV {
                    names,
                    rows: Seq::new(
                        cells.len(),
                        |r: int|
                            Seq::new(
                                names.len(),
                                |c: int| cell_value(cells[r][c], col_intlike(cells, c)),
                            ),
                    ),
                },
            )
        }
    }
}

/// The text a value renders to in a CSV cell.
pub open spec fn render_value(v: ValueV) -> Seq<char> {
    match v {
        ValueV::Null => Seq::empty(),
        ValueV::Int(n) => int_chars(n),
        ValueV::Bool(b) => if b {
            "true"@
        } else {
            "false"@
        },
        ValueV::Str(s) => s,
    }
}

pub open spec fn render_row(row: Seq<ValueV>) -> Seq<char> {
    join_with(row.map_values(|v: ValueV| render_value(v)), ',')
}

pub open spec fn spec_render_rows(rows: Seq<Seq<ValueV>>) -> Seq<char>
    decreases rows.len(),
{
    if rows.len() == 0 {
        Seq::empty()
    } else {
        render_row(rows[0]) + seq!['\n'] + spec_render_rows(rows.drop_first())
    }
}

/// Rendering a table to CSV text: the header line, then one line per
/// row, each line ended by a newline.
pub open spec fn spec_render_csv(t: TableV) -> Seq<char> {
    join_with(t.names, ',') + seq!['\n'] + spec_render_rows(t.rows)
}

/// A cell text the plain CSV form can carry: free of the two delimiters.
pub open spec fn cell_renderable(s: Seq<char>) -> bool {
    !s.contains(',') && !s.contains('\n')
}

/// A table whose names and rendered cells the plain CSV form can carry.
pub open spec fn table_renderable(t: TableV) -> bool {
    &&& forall|i: int| 0 <= i < t.names.len() ==> cell_renderable(#[trigger] t.names[i])
    &&& forall|r: int, c: int|
        0 <= r < t.rows.len() && 0 <= c < t.rows[r].len() ==> cell_renderable(
            render_value(#[trigger] t.rows[r][c]),
        )
}

/// Segments of the text between separators, each segment a string.
#[verifier::loop_isolation(false)]
fn split_str(s: &str, sep: char) -> (r: Vec<String>)
    ensures
        r.deep_view() == split_on(s@, sep),
        r@.len() >= 1,
{
    let len = s.unicode_len();
    let mut out: Vec<String> = Vec::new();
    let mut start: usize = 0;
    let mut i: usize = 0;
    proof {
        assert(s@.skip(0) =~= s@);
        assert(s@.subrange(0, 0) =~= Seq::<char>::empty());
        assert(out.deep_view() =~= Seq::<Seq<char>>::empty());
        assert(Seq::<Seq<char>>::empty() + split_acc(s@, sep, Seq::empty()) =~= split_acc(
            s@,
            sep,
            Seq::empty(),
        ));
    }
    while i < len
        invariant
            start <= i <= len,
            len == s@.len(),
            split_on(s@, sep) == out.deep_view() + split_acc(
                s@.skip(i as int),
                sep,
                s@.subrange(start as int, i as int),
            ),
        decreases len - i,
    {
        let c = s.get_char(i);
        proof {
            assert(s@.skip(i as int)[0] == s@[i as int]);
            assert(s@.skip(i as int).drop_first() =~= s@.skip(i as int + 1));
        }
        if c == sep {
            let seg = s.substring_char(start, i);
            let ghost old_out = out.deep_view();
            out.push(String::from_str(seg));
            proof {
                assert(out.deep_view() =~= old_out.push(s@.subrange(start as int, i as int)));
                assert(s@.subrange(i as int + 1, i as int + 1) =~= Seq::<char>::empty());
                assert(old_out + (seq![s@.subrange(start as int, i as int)] + split_acc(
                    s@.skip(i as int + 1),
                    sep,
                    Seq::empty(),
                )) =~= out.deep_view() + split_acc(
                    s@.skip(i as int + 1),
                    sep,
                    s@.subrange(i as int + 1, i as int + 1),
                ));
            }
            start = i + 1;
        } else {
            proof {
                assert(s@.subrange(start as int, i as int).push(s@[i as int]) =~= s@.subrange(
                    start as int,
                    i as int + 1,
                ));
            }
        }
        i = i + 1;
    }
    let seg = s.substring_char(start, len);
    let ghost old_out = out.deep_view();
    out.push(String::from_str(seg));
    proof {
        assert(s@.skip(len as int).len() == 0);
        assert(out.deep_view() =~= old_out.push(s@.subrange(start as int, len as int)));
        assert(out.deep_view() =~= old_out + seq![s@.subrange(start as int, len as int)]);
    }
    out
}

/// Read a cell as an integer: accepts exactly the canonical decimal
/// renderings of `i64` values, and returns the value spelled.
#[verifier::loop_isolation(false)]
#[verifier::rlimit(50)]
pub fn try_parse_int(s: &String) -> (r: Option<i64>)
    ensures
        r is Some <==> canonical_int(s@),
        match r {
            Some(v) => v as int == cell_int(s@),
            None => true,
        },
{
    let len = s.as_str().unicode_len();
    if len == 0 {
        return None;
    }
    let neg = s.as_str().get_char(0) == '-';
    let start: usize = if neg {
        1
    } else {
        0
    };
    let ghost digits = s@.skip(start as int);
    if len == start {
        proof {
            assert(digits.len() == 0);
        }
        return None;
    }
    let first = s.as_str().get_char(start);
    proof {
        assert(digits[0] == s@[start as int]);
        assert(digit_char(0) as u32 == 48);
    }
    if first as u32 == 48 && len > start + 1 {
        return None;
    }
    let bound: u64 = if neg {
        9223372036854775808
    } else {
        9223372036854775807
    };
    let mut acc: u64 = 0;
    let mut i = start;
    proof {
        assert(digits.take(0) =~= Seq::<char>::empty());
    }
    while i < len
        invariant
            start <= i <= len,
            acc == digits_val(digits.take(i - start)),
            acc <= bound,
            all_digits(digits.take(i - start)),
        decreases len - i,
    {
        let c = s.as_str().get_char(i);
        let cu = c as u32;
        proof {
            assert(digits[i - start] == s@[i as int]);
            assert(digits.take(i - start + 1).drop_last() =~= digits.take(i - start));
            assert(digits.take(i - start + 1).last() == digits[i - start]);
        }
        if cu < 48 || cu > 57 {
            proof {
                assert(!is_digit(digits[i - start]));
                assert(!all_digits(digits));
            }
            return None;
        }
        let d = (cu - 48) as u64;
        if acc > bound / 10 {
            proof {
                lemma_overflow(digits, i - start, bound as int);
                assert(s@.skip(0) =~= s@);
            }
            return None;
        }
        acc = acc * 10 + d;
        if acc > bound {
            proof {
                lemma_overflow_at(digits, i - start + 1, bound as int);
                assert(s@.skip(0) =~= s@);
            }
            return None;
        }
        i = i + 1;
    }
    proof {
        assert(digits.take(len - start) =~= digits);
        assert(s@.skip(0) =~= s@);
        assert(all_digits(digits));
        assert(digits.len() > 0);
        assert(digits[0] == s@[start as int]);
        assert(digit_char(0) as u32 == 48);
        if digits.len() > 1 {
            assert(digits[0] != digit_char(0));
        }
        assert(canonical_nat(digits));
    }
    if neg {
        if acc == 0 {
            return None;
        }
        if acc == 9223372036854775808 {
            Some(i64::MIN)
        } else {
            Some(-(acc as i64))
        }
    } else {
        proof {
            assert(s@[0] != '-');
        }
        Some(acc as i64)
    }
}

/// A digit prefix already past the bound keeps every digit extension of
/// it past the bound.
proof fn lemma_overflow_at(digits: Seq<char>, k: int, bound: int)
    requires
        0 <= k <= digits.len(),
        all_digits(digits.take(k)),
        digits_val(digits.take(k)) > bound,
        bound >= 0,
    ensures
        !(all_digits(digits) && digits_val(digits) <= bound),
{
    if all_digits(digits) {
        lemma_digits_val_monotone(digits, k, digits.len() as int);
        assert(digits.take(digits.len() as int) =~= digits);
    }
}

/// One more digit after a prefix past a tenth of the bound exceeds it.
proof fn lemma_overflow(digits: Seq<char>, k: int, bound: int)
    requires
        0 <= k < digits.len(),
        all_digits(digits.take(k)),
        is_digit(digits[k]),
        digits_val(digits.take(k)) > bound / 10,
        bound >= 0,
    ensures
        !(all_digits(digits) && digits_val(digits) <= bound),
{
    assert(digits.take(k + 1).drop_last() =~= digits.take(k));
    assert(digits.take(k + 1).last() == digits[k]);
    assert(all_digits(digits.take(k + 1)));
    let v = digits_val(digits.take(k));
    assert(digits_val(digits.take(k + 1)) == v * 10 + digit_val(digits[k]));
    assert(v >= bound / 10 + 1);
    assert(v * 10 >= (bound / 10 + 1) * 10) by (nonlinear_arith)
        requires
            v >= bound / 10 + 1,
    ;
    assert((bound / 10) * 10 + bound % 10 == bound) by {
        vstd::arithmetic::div_mod::lemma_fundamental_div_mod(bound, 10);
    }
    assert(digits_val(digits.take(k + 1)) > bound);
    lemma_overflow_at(digits, k + 1, bound);
}

/// Digit characters of collected low-order-first digits, reversed into
/// reading order.
pub open spec fn rev_digit_chars(ds: Seq<u8>) -> Seq<char> {
    Seq::new(ds.len(), |k: int| digit_char(ds[ds.len() - 1 - k] as int))
}

fn digit_str(d: u8) -> (r: &'static str)
    requires
        d < 10,
    ensures
        r@ == seq![digit_char(d as int)],
{
    let r: &'static str = match d {
        0 => "0",
        1 => "1",
        2 => "2",
        3 => "3",
        4 => "4",
        5 => "5",
        6 => "6",
        7 => "7",
        8 => "8",
        _ => "9",
    };
    proof {
        reveal_strlit("0");
        reveal_strlit("1");
        reveal_strlit("2");
        reveal_strlit("3");
        reveal_strlit("4");
        reveal_strlit("5");
        reveal_strlit("6");
        reveal_strlit("7");
        reveal_strlit("8");
        reveal_strlit("9");
        assert(r@ =~= seq![digit_char(d as int)]);
    }
    r
}

/// The canonical decimal rendering of an integer.
#[verifier::loop_isolation(false)]
#[verifier::rlimit(50)]
pub fn int_to_string(v: i64) -> (r: String)
    ensures
        r@ == int_chars(v as int),
{
    let neg = v < 0;
    let m0: u64 = if v < 0 {
        (-(v + 1)) as u64 + 1
    } else {
        v as u64
    };
    let ghost n0 = m0 as int;
    proof {
        if v < 0 {
            assert(n0 == -(v as int));
        }
    }
    if m0 == 0 {
        let r = String::from_str(digit_str(0));
        proof {
            assert(r@ =~= int_chars(v as int));
        }
        return r;
    }
    let mut m = m0;
    let mut ds: Vec<u8> = Vec::new();
    proof {
        assert(rev_digit_chars(ds@) =~= Seq::<char>::empty());
        assert(nat_digits(n0) =~= nat_digits(m as int) + rev_digit_chars(ds@));
    }
    while m > 0
        invariant
            m >= 0,
            nat_digits(n0) == if m > 0 {
                nat_digits(m as int) + rev_digit_chars(ds@)
            } else {
                rev_digit_chars(ds@)
            },
            forall|k: int| 0 <= k < ds@.len() ==> ds@[k] < 10,
        decreases m,
    {
        let d = (m % 10) as u8;
        let ghost old_ds = ds@;
        let ghost m_old = m as int;
        ds.push(d);
        m = m / 10;
        proof {
            assert(rev_digit_chars(ds@) =~= seq![digit_char(d as int)] + rev_digit_chars(old_ds));
            if m_old < 10 {
                assert(nat_digits(m_old) =~= seq![digit_char(m_old)]);
                assert(d as int == m_old);
                assert(nat_digits(n0) =~= rev_digit_chars(ds@));
            } else {
                assert(nat_digits(m_old) == nat_digits(m_old / 10).push(digit_char(m_old % 10)));
                assert(nat_digits(m_old / 10).push(digit_char(d as int)) + rev_digit_chars(old_ds)
                    =~= nat_digits(m_old / 10) + rev_digit_chars(ds@));
            }
        }
    }
    let mut out = if neg {
        let s = String::from_str("-");
        proof {
            reveal_strlit("-");
        }
        s
    } else {
        String::new()
    };
    let ghost prefix = out@;
    proof {
        assert(neg ==> prefix =~= seq!['-']);
        assert(!neg ==> prefix =~= Seq::<char>::empty());
        assert(out@ =~= prefix + rev_digit_chars(ds@).take(0));
    }
    let total = ds.len();
    let mut j: usize = 0;
    while j < total
        invariant
            j <= total,
            total == ds@.len(),
            forall|k: int| 0 <= k < ds@.len() ==> ds@[k] < 10,
            out@ == prefix + rev_digit_chars(ds@).take(j as int),
        decreases total - j,
    {
        let idx = total - 1 - j;
        out.append(digit_str(ds[idx]));
        proof {
            assert(rev_digit_chars(ds@)[j as int] == digit_char(ds@[idx as int] as int));
            assert(prefix + rev_digit_chars(ds@).take(j as int) + seq![digit_char(
                ds@[idx as int] as int,
            )] =~= prefix + rev_digit_chars(ds@).take(j as int + 1));
        }
        j = j + 1;
    }
    proof {
        assert(rev_digit_chars(ds@).take(total as int) =~= rev_digit_chars(ds@));
        assert(out@ =~= int_chars(v as int));
    }
    out
}

/// Whether the text holds the character.
fn contains_char(s: &str, c: char) -> (r: bool)
    ensures
        r == s@.contains(c),
{
    let len = s.unicode_len();
    let mut i: usize = 0;
    while i < len
        invariant
            i <= len,
            len == s@.len(),
            forall|k: int| 0 <= k < i ==> s@[k] != c,
        decreases len - i,
    {
        if s.get_char(i) == c {
            return true;
        }
        i = i + 1;
    }
    proof {
        if s@.contains(c) {
            let k = choose|k: int| 0 <= k < s@.len() && s@[k] == c;
            assert(s@[k] != c);
        }
    }
    false
}

/// The text a value renders to in a CSV cell.
pub fn render_value_exec(v: &Value) -> (r: String)
    ensures
        r@ == render_value(v@),
{
    match v {
        Value::Null => String::new(),
        Value::Int(n) => int_to_string(*n),
        Value::Bool(b) => {
            if *b {
                String::from_str("true")
            } else {
                String::from_str("false")
            }
        },
        Value::Str(s) => s.clone(),
    }
}

/// Appending one segment extends a join at its end.
proof fn lemma_join_push(parts: Seq<Seq<char>>, x: Seq<char>, sep: char)
    ensures
        join_with(parts.push(x), sep) == if parts.len() == 0 {
            x
        } else {
            join_with(parts, sep) + seq![sep] + x
        },
    decreases parts.len(),
{
    if parts.len() == 0 {
        assert(parts.push(x) =~= seq![x]);
        assert(join_with(seq![x], sep) == x);
    } else {
        lemma_join_push(parts.drop_first(), x, sep);
        assert(parts.push(x).drop_first() =~= parts.drop_first().push(x));
        assert(parts.push(x)[0] == parts[0]);
        assert(parts.push(x).len() == parts.len() + 1);
        if parts.len() == 1 {
            assert(join_with(parts.push(x), sep) == parts[0] + seq![sep] + join_with(
                parts.drop_first().push(x),
                sep,
            ));
            assert(join_with(parts.drop_first().push(x), sep) == x);
        } else {
            assert(parts[0] + seq![sep] + (join_with(parts.drop_first(), sep) + seq![sep] + x)
                =~= (parts[0] + seq![sep] + join_with(parts.drop_first(), sep)) + seq![sep] + x);
        }
    }
}

/// Appending one row extends the rendered rows at their end.
proof fn lemma_render_rows_push(rows: Seq<Seq<ValueV>>, row: Seq<ValueV>)
    ensures
        spec_render_rows(rows.push(row)) == spec_render_rows(rows) + render_row(row) + seq![
            '\n',
        ],
    decreases rows.len(),
{
    if rows.len() == 0 {
        let p = rows.push(row);
        assert(p[0] == row);
        assert(p.drop_first() =~= Seq::<Seq<ValueV>>::empty());
        assert(spec_render_rows(p.drop_first()).len() == 0);
        assert(spec_render_rows(p) == render_row(row) + seq!['\n'] + spec_render_rows(
            p.drop_first(),
        ));
        assert(spec_render_rows(p) =~= spec_render_rows(rows) + render_row(row) + seq!['\n']);
    } else {
        lemma_render_rows_push(rows.drop_first(), row);
        assert(rows.push(row).drop_first() =~= rows.drop_first().push(row));
        assert(rows.push(row)[0] == rows[0]);
        assert(render_row(rows[0]) + seq!['\n'] + (spec_render_rows(rows.drop_first())
            + render_row(row) + seq!['\n']) =~= (render_row(rows[0]) + seq!['\n']
            + spec_render_rows(rows.drop_first())) + render_row(row) + seq!['\n']);
    }
}

/// Render a table to CSV text: the header line, then one line per row. A
/// name or rendered cell holding a delimiter cannot be carried by the
/// plain form and is a serialization error naming that text.
#[verifier::loop_isolation(false)]
#[verifier::rlimit(50)]
pub fn render_csv(t: &Table) -> (r: Result<String, Error>)
    ensures
        match r {
            Ok(s) => table_renderable(t@) && s@ == spec_render_csv(t@),
            Err(e) => !table_renderable(t@) && e@ is Serialization,
        },
{
    let ghost nv = t@.names;
    let ghost rv = t@.rows;
    let mut out = String::new();
    let mut i: usize = 0;
    proof {
        assert(out@ =~= join_with(nv.take(0), ','));
    }
    while i < t.names.len()
        invariant
            i <= t.names@.len(),
            nv.len() == t.names@.len(),
            out@ == join_with(nv.take(i as int), ','),
            forall|k: int| 0 <= k < i ==> cell_renderable(#[trigger] nv[k]),
        decreases t.names@.len() - i,
    {
        let name = &t.names[i];
        proof {
            assert(nv[i as int] == t.names@[i as int]@);
        }
        if contains_char(name.as_str(), ',') || contains_char(name.as_str(), '\n') {
            return Err(Error::Serialization(name.clone()));
        }
        if i > 0 {
            out.append(",");
            proof {
                reveal_strlit(",");
            }
        }
        out.append(name.as_str());
        proof {
            lemma_join_push(nv.take(i as int), nv[i as int], ',');
            assert(nv.take(i as int).push(nv[i as int]) =~= nv.take(i as int + 1));
            if i > 0 {
                assert(out@ =~= join_with(nv.take(i as int), ',') + seq![','] + nv[i as int]);
            } else {
                assert(out@ =~= nv[i as int]);
            }
            assert(out@ =~= join_with(nv.take(i as int + 1), ','));
        }
        i = i + 1;
    }
    out.append("\n");
    proof {
        reveal_strlit("\n");
        assert(nv.take(nv.len() as int) =~= nv);
        assert(out@ =~= join_with(nv, ',') + seq!['\n']);
        assert(rv.take(0) =~= Seq::<Seq<ValueV>>::empty());
        assert(out@ =~= join_with(nv, ',') + seq!['\n'] + spec_render_rows(rv.take(0)));
    }
    let mut r_i: usize = 0;
    while r_i < t.rows.len()
        invariant
            r_i <= t.rows@.len(),
            rv.len() == t.rows@.len(),
            forall|k: int| 0 <= k < nv.len() ==> cell_renderable(#[trigger] nv[k]),
            out@ == join_with(nv, ',') + seq!['\n'] + spec_render_rows(rv.take(r_i as int)),
            forall|a: int, c: int|
                0 <= a < r_i && 0 <= c < rv[a].len() ==> cell_renderable(
                    render_value(#[trigger] rv[a][c]),
                ),
        decreases t.rows@.len() - r_i,
    {
        let row = &t.rows[r_i];
        proof {
            assert(rv[r_i as int] == t.rows@[r_i as int].deep_view());
        }
        let mut line = String::new();
        let ghost rowv = rv[r_i as int];
        let ghost rend = rowv.map_values(|v: ValueV| render_value(v));
        let mut c_i: usize = 0;
        proof {
            assert(line@ =~= join_with(rend.take(0), ','));
        }
        while c_i < row.len()
            invariant
                c_i <= row@.len(),
                rowv == rv[r_i as int],
                rowv.len() == row@.len(),
                rend == rowv.map_values(|v: ValueV| render_value(v)),
                0 <= r_i < rv.len(),
                rowv == t.rows@[r_i as int].deep_view(),
                line@ == join_with(rend.take(c_i as int), ','),
                forall|k: int| 0 <= k < c_i ==> cell_renderable(render_value(#[trigger] rowv[k])),
            decreases row@.len() - c_i,
        {
            proof {
                assert(rowv[c_i as int] == row@[c_i as int]@);
                assert(rend[c_i as int] == render_value(rowv[c_i as int]));
            }
            let cell = render_value_exec(&row[c_i]);
            if contains_char(cell.as_str(), ',') || contains_char(cell.as_str(), '\n') {
                return Err(Error::Serialization(cell));
            }
            if c_i > 0 {
                line.append(",");
                proof {
                    reveal_strlit(",");
                }
            }
            line.append(cell.as_str());
            proof {
                lemma_join_push(rend.take(c_i as int), rend[c_i as int], ',');
                assert(rend.take(c_i as int).push(rend[c_i as int]) =~= rend.take(c_i as int + 1));
                if c_i > 0 {
                    assert(line@ =~= join_with(rend.take(c_i as int), ',') + seq![','] + rend[
                        c_i as int]);
                } else {
                    assert(line@ =~= rend[c_i as int]);
                }
                assert(line@ =~= join_with(rend.take(c_i as int + 1), ','));
            }
            c_i = c_i + 1;
        }
        out.append(line.as_str());
        out.append("\n");
        proof {
            reveal_strlit("\n");
            assert(rend.take(rend.len() as int) =~= rend);
            assert(line@ =~= render_row(rowv));
            lemma_render_rows_push(rv.take(r_i as int), rowv);
            assert(rv.take(r_i as int).push(rowv) =~= rv.take(r_i as int + 1));
            assert(out@ =~= join_with(nv, ',') + seq!['\n'] + spec_render_rows(
                rv.take(r_i as int + 1),
            ));
        }
        r_i = r_i + 1;
    }
    proof {
        assert(rv.take(rv.len() as int) =~= rv);
    }
    Ok(out)
}

/// Parse CSV text into a table: the first line names the columns, each
/// further line one row; every line must have one field per column; a
/// column whose cells are all empty or integer-shaped is read as
/// integers, empty cells as null, and anything else as text.
#[verifier::loop_isolation(false)]
#[verifier::rlimit(100)]
pub fn parse_csv(text: &str) -> (r: Result<Table, Error>)
    ensures
        match r {
            Ok(t) => spec_parse_csv(text@) == Ok::<TableV, ErrorV>(t@) && t.wf(),
            Err(e) => spec_parse_csv(text@) == Err::<TableV, ErrorV>(e@),
        },
{
    let ghost sv = text@;
    let mut lines = split_str(text, '\n');
    let ghost raw = split_on(sv, '\n');
    proof {
        assert(lines.deep_view()[lines@.len() - 1] == lines@[lines@.len() - 1]@);
    }
    let last_empty = lines[lines.len() - 1].as_str().unicode_len() == 0;
    if last_empty {
        let ghost before = lines.deep_view();
        let _ = lines.pop();
        proof {
            assert(lines.deep_view() =~= before.drop_last()) by {
                assert(forall|k: int|
                    0 <= k < lines@.len() ==> #[trigger] lines.deep_view()[k] == lines@[k]@);
                assert(forall|k: int|
                    0 <= k < lines@.len() ==> before[k] == lines@[k]@);
            }
        }
    }
    let ghost linesv = spec_lines(sv);
    proof {
        assert(lines.deep_view() == linesv);
    }
    if lines.len() == 0 {
        return Err(Error::Load(String::from_str("empty input")));
    }
    proof {
        assert(lines.deep_view()[0] == lines@[0]@);
    }
    let names = split_str(lines[0].as_str(), ',');
    let ghost nv = split_on(linesv[0], ',');
    proof {
        assert(names.deep_view() == nv);
    }
    let width = names.len();
    proof {
        assert(nv.len() == width);
    }
    let ghost target = linesv.drop_first().map_values(|l: Seq<char>| split_on(l, ','));
    let mut cells: Vec<Vec<String>> = Vec::new();
    let mut r_i: usize = 1;
    proof {
        assert(cells.deep_view() =~= target.take(0));
        assert(target.len() == linesv.len() - 1);
    }
    while r_i < lines.len()
        invariant
            1 <= r_i <= lines@.len(),
            linesv.len() == lines@.len(),
            cells@.len() == r_i - 1,
            cells.deep_view() == target.take(r_i - 1),
            forall|k: int| 0 <= k < cells@.len() ==> (#[trigger] cells@[k])@.len() == width,
            forall|k: int| 0 <= k < cells@.len() ==> (#[trigger] target[k]).len() == width,
        decreases lines@.len() - r_i,
    {
        proof {
            assert(lines.deep_view()[r_i as int] == lines@[r_i as int]@);
            assert(target[r_i - 1] == split_on(linesv[r_i as int], ','));
        }
        let row = split_str(lines[r_i].as_str(), ',');
        if row.len() != width {
            proof {
                assert(target[r_i - 1].len() != nv.len());
            }
            return Err(Error::Load(String::from_str("ragged rows")));
        }
        let ghost old_cv = cells.deep_view();
        cells.push(row);
        proof {
            assert(cells.deep_view() =~= old_cv.push(target[r_i - 1]));
            assert(target.take(r_i - 1).push(target[r_i - 1]) =~= target.take(r_i as int));
        }
        r_i = r_i + 1;
    }
    proof {
        assert(cells.deep_view() =~= target) by {
            assert(target.take(target.len() as int) =~= target);
        }
        assert(!(exists|a: int|
            0 <= a < target.len() && (#[trigger] target[a]).len() != nv.len()));
    }
    let height = cells.len();
    let mut flags: Vec<bool> = Vec::new();
    let mut c_i: usize = 0;
    while c_i < width
        invariant
            c_i <= width,
            flags@.len() == c_i,
            height == cells@.len(),
            width == nv.len(),
            cells.deep_view() == target,
            forall|k: int| 0 <= k < cells@.len() ==> (#[trigger] cells@[k])@.len() == width,
            forall|k: int| 0 <= k < c_i ==> flags@[k] == col_intlike(target, k),
        decreases width - c_i,
    {
        let mut ok = true;
        let mut a: usize = 0;
        while a < height
            invariant
                a <= height,
                c_i < width,
                height == cells@.len(),
                cells.deep_view() == target,
                forall|k: int| 0 <= k < cells@.len() ==> (#[trigger] cells@[k])@.len() == width,
                ok == (forall|k: int|
                    0 <= k < a ==> ((#[trigger] target[k][c_i as int]).len() == 0 || canonical_int(
                        target[k][c_i as int],
                    ))),
            decreases height - a,
        {
            proof {
                assert(cells.deep_view()[a as int] == cells@[a as int].deep_view());
                assert(cells@[a as int].deep_view()[c_i as int] == cells@[a as int]@[c_i as int]@);
            }
            let cell = &cells[a][c_i];
            let empty = cell.as_str().unicode_len() == 0;
            let intlike = if empty {
                true
            } else {
                try_parse_int(cell).is_some()
            };
            ok = ok && intlike;
            a = a + 1;
        }
        flags.push(ok);
        c_i = c_i + 1;
    }
    let ghost rowsv = Seq::new(
        target.len(),
        |a: int| Seq::new(nv.len(), |c: int| cell_value(target[a][c], col_intlike(target, c))),
    );
    let mut rows_out: Vec<Vec<Value>> = Vec::new();
    let mut a: usize = 0;
    proof {
        assert(rows_out.deep_view() =~= rowsv.take(0));
    }
    while a < height
        invariant
            a <= height,
            height == cells@.len(),
            width == nv.len(),
            cells.deep_view() == target,
            flags@.len() == width,
            forall|k: int| 0 <= k < cells@.len() ==> (#[trigger] cells@[k])@.len() == width,
            forall|k: int| 0 <= k < width ==> flags@[k] == col_intlike(target, k),
            rows_out@.len() == a,
            rows_out.deep_view() == rowsv.take(a as int),
        decreases height - a,
    {
        let mut row_out: Vec<Value> = Vec::new();
        let mut c: usize = 0;
        proof {
            assert(row_out.deep_view() =~= rowsv[a as int].take(0));
        }
        while c < width
            invariant
                c <= width,
                a < height,
                height == cells@.len(),
                width == nv.len(),
                cells.deep_view() == target,
                flags@.len() == width,
                forall|k: int| 0 <= k < cells@.len() ==> (#[trigger] cells@[k])@.len() == width,
                forall|k: int| 0 <= k < width ==> flags@[k] == col_intlike(target, k),
                row_out@.len() == c,
                row_out.deep_view() == rowsv[a as int].take(c as int),
            decreases width - c,
        {
            proof {
                assert(cells.deep_view()[a as int] == cells@[a as int].deep_view());
                assert(cells@[a as int].deep_view()[c as int] == cells@[a as int]@[c as int]@);
                assert(rowsv[a as int][c as int] == cell_value(
                    target[a as int][c as int],
                    col_intlike(target, c as int),
                ));
            }
            let cell = &cells[a][c];
            let v: Value = if cell.as_str().unicode_len() == 0 {
                Value::Null
            } else if flags[c] {
                proof {
                    assert(col_intlike(target, c as int));
                    assert(target[a as int][c as int].len() != 0);
                    assert(canonical_int(target[a as int][c as int]));
                }
                Value::Int(try_parse_int(cell).unwrap())
            } else {
                Value::Str(cell.clone())
            };
            let ghost old_rv = row_out.deep_view();
            row_out.push(v);
            proof {
                assert(row_out.deep_view() =~= old_rv.push(rowsv[a as int][c as int]));
                assert(rowsv[a as int].take(c as int).push(rowsv[a as int][c as int])
                    =~= rowsv[a as int].take(c as int + 1));
            }
            c = c + 1;
        }
        let ghost old_rsv = rows_out.deep_view();
        rows_out.push(row_out);
        proof {
            assert(rowsv[a as int].take(width as int) =~= rowsv[a as int]);
            assert(rows_out.deep_view() =~= old_rsv.push(rowsv[a as int]));
            assert(rowsv.take(a as int).push(rowsv[a as int]) =~= rowsv.take(a as int + 1));
        }
        a = a + 1;
    }
    proof {
        assert(rowsv.take(rowsv.len() as int) =~= rowsv);
    }
    let t = Table { names, rows: rows_out };
    proof {
        assert(t@.names == nv);
        assert(t@.rows == rowsv);
        assert(table_wf(t@)) by {
            assert(forall|k: int| 0 <= k < rowsv.len() ==> (#[trigger] rowsv[k]).len() == nv.len());
        }
    }
    Ok(t)
}

/// A join of segments free of a character is free of it too, when the
/// separator differs from it.
proof fn lemma_join_keeps_chars(parts: Seq<Seq<char>>, sep: char, c: char)
    requires
        c != sep,
        forall|i: int| 0 <= i < parts.len() ==> !(#[trigger] parts[i]).contains(c),
    ensures
        !join_with(parts, sep).contains(c),
    decreases parts.len(),
{
    if parts.len() == 0 {
        if join_with(parts, sep).contains(c) {
            let k = choose|k: int|
                0 <= k < join_with(parts, sep).len() && join_with(parts, sep)[k] == c;
        }
    } else if parts.len() == 1 {
        assert(!parts[0].contains(c));
    } else {
        assert(forall|i: int| #![trigger parts.drop_first()[i]]
            0 <= i < parts.drop_first().len() ==> parts.drop_first()[i] == parts[i + 1]);
        lemma_join_keeps_chars(parts.drop_first(), sep, c);
        let j = join_with(parts, sep);
        if j.contains(c) {
            let k = choose|k: int| 0 <= k < j.len() && j[k] == c;
            assert(j == parts[0] + seq![sep] + join_with(parts.drop_first(), sep));
            if k < parts[0].len() {
                assert(parts[0][k] == c);
            } else if k > parts[0].len() {
                assert(join_with(parts.drop_first(), sep)[k - parts[0].len() - 1] == c);
                assert(join_with(parts.drop_first(), sep).contains(c));
            }
        }
    }
}

/// The rendered rows are exactly the row lines joined by newlines, with
/// one trailing empty segment for the final newline.
proof fn lemma_render_join(rows: Seq<Seq<ValueV>>)
    ensures
        join_with(rows.map_values(|r: Seq<ValueV>| render_row(r)).push(Seq::empty()), '\n')
            == spec_render_rows(rows),
    decreases rows.len(),
{
    let m = rows.map_values(|r: Seq<ValueV>| render_row(r));
    if rows.len() == 0 {
        assert(m.push(Seq::empty()) =~= seq![Seq::<char>::empty()]);
        assert(join_with(seq![Seq::<char>::empty()], '\n') =~= Seq::<char>::empty());
        assert(spec_render_rows(rows) =~= Seq::<char>::empty());
    } else {
        lemma_render_join(rows.drop_first());
        let mt = rows.drop_first().map_values(|r: Seq<ValueV>| render_row(r));
        let p = m.push(Seq::empty());
        assert(p[0] == render_row(rows[0]));
        assert(p.drop_first() =~= mt.push(Seq::empty())) by {
            assert(forall|i: int| #![trigger mt[i]]
                0 <= i < mt.len() ==> mt[i] == render_row(rows.drop_first()[i]));
            assert(forall|i: int| #![trigger m[i]]
                0 <= i < m.len() ==> m[i] == render_row(rows[i]));
        }
        assert(p.len() >= 2);
        assert(join_with(p, '\n') == p[0] + seq!['\n'] + join_with(p.drop_first(), '\n'));
        assert(join_with(p.drop_first(), '\n') == spec_render_rows(rows.drop_first()));
        assert(spec_render_rows(rows) == render_row(rows[0]) + seq!['\n'] + spec_render_rows(
            rows.drop_first(),
        ));
    }
}

/// Lines of rendered CSV text: the header line, then one line per row.
proof fn lemma_render_lines(t: TableV)
    requires
        table_wf(t),
        t.names.len() > 0,
        table_renderable(t),
    ensures
        spec_lines(spec_render_csv(t)) == seq![join_with(t.names, ',')] + t.rows.map_values(
            |r: Seq<ValueV>| render_row(r),
        ),
{
    let header = join_with(t.names, ',');
    let m = t.rows.map_values(|r: Seq<ValueV>| render_row(r));
    let parts = seq![header] + m.push(Seq::<char>::empty());
    assert(forall|i: int| 0 <= i < parts.len() ==> !(#[trigger] parts[i]).contains('\n')) by {
        lemma_join_keeps_chars(t.names, ',', '\n');
        assert forall|i: int| 0 <= i < parts.len() implies !(#[trigger] parts[i]).contains(
            '\n',
        ) by {
            if i > 0 && i < parts.len() - 1 {
                assert(parts[i] == render_row(t.rows[i - 1]));
                let rend = t.rows[i - 1].map_values(|v: ValueV| render_value(v));
                assert forall|k: int| 0 <= k < rend.len() implies !(#[trigger] rend[k]).contains(
                    '\n',
                ) by {
                    assert(rend[k] == render_value(t.rows[i - 1][k]));
                }
                lemma_join_keeps_chars(rend, ',', '\n');
            }
            if i == parts.len() - 1 {
                assert(parts[i] =~= Seq::<char>::empty());
                if parts[i].contains('\n') {
                    let k = choose|k: int| 0 <= k < parts[i].len() && parts[i][k] == '\n';
                }
            }
        }
    }
    assert(join_with(parts, '\n') == spec_render_csv(t)) by {
        lemma_render_join(t.rows);
        assert(parts[0] == header);
        assert(parts.drop_first() =~= m.push(Seq::<char>::empty()));
        assert(parts.len() >= 2);
        assert(join_with(parts, '\n') == parts[0] + seq!['\n'] + join_with(
            parts.drop_first(),
            '\n',
        ));
    }
    lemma_split_join(parts, '\n', Seq::empty());
    let raw = split_on(spec_render_csv(t), '\n');
    assert(raw =~= parts) by {
        assert(Seq::empty() + parts[0] =~= parts[0]);
        assert(raw == seq![Seq::empty() + parts[0]] + parts.drop_first());
    }
    assert(raw.last() =~= Seq::<char>::empty());
    assert(raw.last().len() == 0);
    assert(spec_lines(spec_render_csv(t)) =~= seq![header] + m) by {
        assert(raw.drop_last() =~= seq![header] + m);
    }
}

/// A table whose column types the loader would infer again: each column
/// holds integers in machine range (nulls allowed), or text (nulls
/// allowed) whose cells are non-empty with at least one not shaped like
/// an integer. Bare text that all looks like integers, or out-of-range
/// integers, would come back as the other type.
pub open spec fn load_stable_col(rows: Seq<Seq<ValueV>>, c: int) -> bool {
    ||| (forall|r: int|
        0 <= r < rows.len() ==> ((#[trigger] rows[r][c]) is Int && i64::MIN as int <= rows[r][c]->Int_0
            <= i64::MAX as int) || rows[r][c] is Null)
    ||| {
        &&& forall|r: int|
            0 <= r < rows.len() ==> (#[trigger] rows[r][c]) is Str || rows[r][c] is Null
        &&& forall|r: int|
            0 <= r < rows.len() && (#[trigger] rows[r][c]) is Str ==> rows[r][c]->Str_0.len() > 0
        &&& exists|r: int|
            0 <= r < rows.len() && (#[trigger] rows[r][c]) is Str && !canonical_int(
                rows[r][c]->Str_0,
            )
    }
}

/// Every column of the table would be inferred to its own type again.
pub open spec fn load_stable(t: TableV) -> bool {
    forall|c: int| 0 <= c < t.names.len() ==> load_stable_col(t.rows, c)
}

/// Law (round trip, table level): parsing the rendered text of a
/// renderable, load-stable table gives that table back — column order,
/// names and values.
pub proof fn lemma_parse_render(t: TableV)
    requires
        table_wf(t),
        t.names.len() > 0,
        table_renderable(t),
        load_stable(t),
    ensures
        spec_parse_csv(spec_render_csv(t)) == Ok::<TableV, ErrorV>(t),
{
    lemma_render_lines(t);
    let text = spec_render_csv(t);
    let lines = spec_lines(text);
    let m = t.rows.map_values(|r: Seq<ValueV>| render_row(r));
    assert(lines == seq![join_with(t.names, ',')] + m);
    assert(lines.len() == 1 + t.rows.len());
    assert(lines[0] == join_with(t.names, ','));
    lemma_split_join(t.names, ',', Seq::empty());
    let names = split_on(lines[0], ',');
    assert(names =~= t.names) by {
        assert(Seq::empty() + t.names[0] =~= t.names[0]);
        assert(names == seq![Seq::empty() + t.names[0]] + t.names.drop_first());
    }
    let cells = lines.drop_first().map_values(|l: Seq<char>| split_on(l, ','));
    assert(cells.len() == t.rows.len());
    assert forall|a: int| 0 <= a < cells.len() implies #[trigger] cells[a] == t.rows[a].map_values(
        |v: ValueV| render_value(v),
    ) by {
        assert(lines.drop_first()[a] == m[a]);
        assert(m[a] == render_row(t.rows[a]));
        let rend = t.rows[a].map_values(|v: ValueV| render_value(v));
        assert(rend.len() == t.rows[a].len());
        assert(t.rows[a].len() == t.names.len());
        assert forall|k: int| 0 <= k < rend.len() implies !(#[trigger] rend[k]).contains(',') by {
            assert(rend[k] == render_value(t.rows[a][k]));
        }
        lemma_split_join(rend, ',', Seq::empty());
        assert(cells[a] == split_on(render_row(t.rows[a]), ','));
        assert(cells[a] =~= rend) by {
            assert(Seq::empty() + rend[0] =~= rend[0]);
            assert(split_on(join_with(rend, ','), ',') == seq![Seq::empty() + rend[0]]
                + rend.drop_first());
        }
    }
    assert(forall|a: int| 0 <= a < cells.len() ==> (#[trigger] cells[a]).len() == names.len());
    assert(!(exists|a: int| 0 <= a < cells.len() && (#[trigger] cells[a]).len() != names.len()));
    let parsed = Seq::new(
        cells.len(),
        |a: int| Seq::new(names.len(), |c: int| cell_value(cells[a][c], col_intlike(cells, c))),
    );
    assert forall|a: int, c: int|
        0 <= a < parsed.len() && 0 <= c < t.names.len() implies #[trigger] parsed[a][c]
        == t.rows[a][c] by {
        assert(cells[a][c] == render_value(t.rows[a][c]));
        assert(load_stable_col(t.rows, c));
        if forall|r: int|
            0 <= r < t.rows.len() ==> ((#[trigger] t.rows[r][c]) is Int && i64::MIN as int
                <= t.rows[r][c]->Int_0 <= i64::MAX as int) || t.rows[r][c] is Null {
            assert(col_intlike(cells, c)) by {
                assert forall|r: int|
                    0 <= r < cells.len() implies ((#[trigger] cells[r][c]).len() == 0
                    || canonical_int(cells[r][c])) by {
                    assert(cells[r][c] == render_value(t.rows[r][c]));
                    if t.rows[r][c] is Int {
                        lemma_int_chars_roundtrip(t.rows[r][c]->Int_0);
                    }
                }
            }
            if t.rows[a][c] is Int {
                lemma_int_chars_roundtrip(t.rows[a][c]->Int_0);
                assert(cells[a][c].len() >= 1);
            }
        } else {
            let w = choose|r: int|
                0 <= r < t.rows.len() && (#[trigger] t.rows[r][c]) is Str && !canonical_int(
                    t.rows[r][c]->Str_0,
                );
            assert(!col_intlike(cells, c)) by {
                assert(cells[w][c] == render_value(t.rows[w][c]));
                assert(cells[w][c].len() > 0 && !canonical_int(cells[w][c]));
            }
        }
    }
    assert(parsed =~= t.rows) by {
        assert forall|a: int| 0 <= a < parsed.len() implies #[trigger] parsed[a] == t.rows[a] by {
            assert(parsed[a] =~= t.rows[a]);
        }
    }
    assert(spec_parse_csv(text) == Ok::<TableV, ErrorV>(TableV { names, rows: parsed }));
    assert(TableV { names, rows: parsed } == t);
}

} // verus!

use vstd::prelude::*;

use crate::fraction::{norm_frac, Fraction};
use crate::matrix::{opt_cols_spec, opt_rows_spec, rows_ok, seq_model, Matrix, MatrixState};
use crate::row::{Row, RowModel};
use crate::SolveError;

verus! {

/// A decimal digit.
pub open spec fn is_digit(c: char) -> bool {
    '0' <= c <= '9'
}

/// The value of a decimal digit.
pub open spec fn digit_val(c: char) -> nat {
    ((c as int) - ('0' as int)) as nat
}

/// The value of a run of decimal digits.
pub open spec fn digits_val(t: Seq<char>) -> nat
    decreases t.len(),
{
    if t.len() == 0 {
        0
    } else {
        digits_val(t.drop_last()) * 10 + digit_val(t.last())
    }
}

/// Every character is a decimal digit.
pub open spec fn all_digits(t: Seq<char>) -> bool {
    forall|i: int| 0 <= i < t.len() ==> is_digit(#[trigger] t[i])
}

/// The position of the first occurrence of `sep` at or after `i`, or the
/// length when there is none.
pub open spec fn find_char(s: Seq<char>, sep: char, i: int) -> int
    decreases s.len() - i,
{
    if i < 0 || i >= s.len() {
        s.len() as int
    } else if s[i] == sep {
        i
    } else {
        find_char(s, sep, i + 1)
    }
}

/// Split on every occurrence of `sep`; the separators themselves are
/// dropped, and `n` separators yield `n + 1` parts.
pub open spec fn split_on(s: Seq<char>, sep: char) -> Seq<Seq<char>>
    decreases s.len(),
{
    let k = find_char(s, sep, 0);
    if 0 <= k < s.len() {
        seq![s.subrange(0, k)] + split_on(s.subrange(k + 1, s.len() as int), sep)
    } else {
        seq![s]
    }
}

/// A signed decimal integer: an optional sign (`-` or `+`), then digits
/// whose value fits the fixed-width field.
pub open spec fn parse_sint(t: Seq<char>) -> Option<(bool, nat)> {
    let neg = t.len() > 0 && t[0] == '-';
    let signed = t.len() > 0 && (t[0] == '-' || t[0] == '+');
    let d = if signed {
        t.subrange(1, t.len() as int)
    } else {
        t
    };
    if d.len() == 0 || !all_digits(d) || digits_val(d) > u64::MAX {
        None
    } else {
        Some((neg, digits_val(d)))
    }
}

/// An entry: a decimal integer, or two of them joined by `/` with a non-zero
/// denominator.  The result is always in canonical lowest terms.
pub open spec fn parse_frac(t: Seq<char>) -> Option<Fraction> {
    let parts = split_on(t, '/');
    if parts.len() == 1 {
        match parse_sint(parts[0]) {
            Some((neg, v)) => Some(
                norm_frac(
                    if neg {
                        -(v as int)
                    } else {
                        v as int
                    },
                    1,
                ),
            ),
            None => None,
        }
    } else if parts.len() == 2 {
        match parse_sint(parts[0]) {
            Some((n1, v1)) => match parse_sint(parts[1]) {
                Some((n2, v2)) => if v2 == 0 {
                    None
                } else {
                    Some(
                        norm_frac(
                            if n1 != n2 {
                                -(v1 as int)
                            } else {
                                v1 as int
                            },
                            v2 as int,
                        ),
                    )
                },
                None => None,
            },
            None => None,
        }
    } else {
        None
    }
}

/// The entries of one side, from the parts split on `;`.
pub open spec fn parse_entries(parts: Seq<Seq<char>>, i: int) -> Option<Seq<Fraction>>
    decreases parts.len() - i,
{
    if i < 0 || i >= parts.len() {
        Some(Seq::empty())
    } else {
        match parse_frac(parts[i]) {
            None => None,
            Some(f) => match parse_entries(parts, i + 1) {
                None => None,
                Some(rest) => Some(seq![f] + rest),
            },
        }
    }
}

/// One side of a row: a `;`-separated list of entries.
pub open spec fn parse_side_spec(t: Seq<char>) -> Option<Seq<Fraction>> {
    parse_entries(split_on(t, ';'), 0)
}

/// One row line: `(` left `|` right `)`, with the left side holding exactly
/// `n` entries.
pub open spec fn parse_line_spec(t: Seq<char>, n: int) -> Option<RowModel> {
    if t.len() < 2 || t[0] != '(' || t.last() != ')' {
        None
    } else {
        let inner = t.subrange(1, t.len() - 1);
        let k = find_char(inner, '|', 0);
        if k == inner.len() {
            None
        } else {
            match parse_side_spec(inner.subrange(0, k)) {
                None => None,
                Some(l) => if l.len() != n {
                    None
                } else {
                    match parse_side_spec(inner.subrange(k + 1, inner.len() as int)) {
                        None => None,
                        Some(r) => Some(RowModel { l, r }),
                    }
                },
            }
        }
    }
}

/// All row lines, each checked against the total line count `n`.
pub open spec fn parse_lines(lines: Seq<Seq<char>>, n: int, i: int) -> Option<Seq<RowModel>>
    decreases lines.len() - i,
{
    if i < 0 || i >= lines.len() {
        Some(Seq::empty())
    } else {
        match parse_line_spec(lines[i], n) {
            None => None,
            Some(row) => match parse_lines(lines, n, i + 1) {
                None => None,
                Some(rest) => Some(seq![row] + rest),
            },
        }
    }
}

/// A line with any trailing carriage return removed, so that `\r\n` line
/// endings read like plain newlines.
pub open spec fn strip_cr(t: Seq<char>) -> Seq<char> {
    if t.len() > 0 && t.last() == '\r' {
        t.drop_last()
    } else {
        t
    }
}

/// The logical lines of the text: split on newlines, a final empty line
/// (from a trailing newline) absent, and each line's trailing carriage
/// return removed.
pub open spec fn logical_lines(s: Seq<char>) -> Seq<Seq<char>> {
    let raw = split_on(s, '\n');
    let kept = if raw.len() > 0 && raw.last().len() == 0 {
        raw.drop_last()
    } else {
        raw
    };
    kept.map_values(|t: Seq<char>| strip_cr(t))
}

/// The whole textual format: one row per logical line, square left side.
pub open spec fn parse_rows_spec(s: Seq<char>) -> Option<Seq<RowModel>> {
    let lines = logical_lines(s);
    parse_lines(lines, lines.len() as int, 0)
}

/// `find_char` returns the position of the first occurrence.
proof fn lemma_find_char_is(t: Seq<char>, sep: char, k: int)
    requires
        0 <= k <= t.len(),
        forall|j: int| 0 <= j < k ==> t[j] != sep,
        k < t.len() ==> t[k] == sep,
    ensures
        find_char(t, sep, 0) == k,
{
    lemma_find_char_is_from(t, sep, k, 0);
}

/// As `lemma_find_char_is`, starting the scan at `i`.
proof fn lemma_find_char_is_from(t: Seq<char>, sep: char, k: int, i: int)
    requires
        0 <= i <= k <= t.len(),
        forall|j: int| i <= j < k ==> t[j] != sep,
        k < t.len() ==> t[k] == sep,
    ensures
        find_char(t, sep, i) == k,
    decreases k - i,
{
    if i < k {
        lemma_find_char_is_from(t, sep, k, i + 1);
    }
}

/// The characters of a string, one by one.
fn chars_of(s: &str) -> (r: Vec<char>)
    ensures
        r@ == s@,
{
    let len = s.unicode_len();
    let mut out: Vec<char> = Vec::new();
    let mut i: usize = 0;
    while i < len
        invariant
            len == s@.len(),
            i <= len,
            out@ == s@.subrange(0, i as int),
        decreases len - i,
    {
        out.push(s.get_char(i));
        proof {
            assert(out@ =~= s@.subrange(0, i + 1));
        }
        i = i + 1;
    }
    proof {
        assert(out@ =~= s@);
    }
    out
}

/// A copy of the characters in `[lo, hi)`.
fn copy_range(v: &Vec<char>, lo: usize, hi: usize) -> (r: Vec<char>)
    requires
        lo <= hi <= v@.len(),
    ensures
        r@ == v@.subrange(lo as int, hi as int),
{
    let mut out: Vec<char> = Vec::new();
    let mut i: usize = lo;
    while i < hi
        invariant
            lo <= i <= hi <= v@.len(),
            out@ == v@.subrange(lo as int, i as int),
        decreases hi - i,
    {
        out.push(v[i]);
        proof {
            assert(out@ =~= v@.subrange(lo as int, i + 1));
        }
        i = i + 1;
    }
    out
}

/// The first occurrence of `sep`, or the length when there is none.
fn find_char_exec(v: &Vec<char>, sep: char) -> (r: usize)
    ensures
        r as int == find_char(v@, sep, 0),
        r <= v@.len(),
{
    let mut i: usize = 0;
    while i < v.len()
        invariant
            i <= v@.len(),
            forall|j: int| 0 <= j < i ==> v@[j] != sep,
        decreases v@.len() - i,
    {
        if v[i] == sep {
            proof {
                lemma_find_char_is(v@, sep, i as int);
            }
            return i;
        }
        i = i + 1;
    }
    proof {
        lemma_find_char_is(v@, sep, v@.len() as int);
    }
    v.len()
}

/// Split on every occurrence of `sep`.
fn split_exec(v: &Vec<char>, sep: char) -> (r: Vec<Vec<char>>)
    ensures
        r@.map_values(|x: Vec<char>| x@) == split_on(v@, sep),
        r@.len() >= 1,
    decreases v@.len(),
{
    let k = find_char_exec(v, sep);
    if k == v.len() {
        proof {
            assert(v@.subrange(0, v@.len() as int) =~= v@);
        }
        let whole = copy_range(v, 0, v.len());
        let mut out: Vec<Vec<char>> = Vec::new();
        out.push(whole);
        proof {
            assert(out@.map_values(|x: Vec<char>| x@) =~= split_on(v@, sep));
        }
        out
    } else {
        let head = copy_range(v, 0, k);
        let tail = copy_range(v, k + 1, v.len());
        let mut rest = split_exec(&tail, sep);
        rest.insert(0, head);
        proof {
            assert(rest@.map_values(|x: Vec<char>| x@) =~= split_on(v@, sep));
        }
        rest
    }
}

/// Parse a signed decimal integer, as `parse_sint` describes it.
fn parse_sint_exec(t: &Vec<char>) -> (r: Option<(bool, u64)>)
    ensures
        match r {
            Some(p) => parse_sint(t@) == Some((p.0, p.1 as nat)),
            None => parse_sint(t@) is None,
        },
{
    let neg = t.len() > 0 && t[0] == '-';
    let signed = t.len() > 0 && (t[0] == '-' || t[0] == '+');
    let start: usize = if signed {
        1
    } else {
        0
    };
    let ghost d = if signed { t@.subrange(1, t@.len() as int) } else { t@ };
    if t.len() == start {
        proof {
            assert(d.len() == 0);
        }
        return None;
    }
    let mut val: u64 = 0;
    let mut i: usize = start;
    while i < t.len()
        invariant
            start <= i <= t@.len(),
            neg == (t@.len() > 0 && t@[0] == '-'),
            signed == (t@.len() > 0 && (t@[0] == '-' || t@[0] == '+')),
            start == if signed {
                1int
            } else {
                0int
            },
            d == if signed {
                t@.subrange(1, t@.len() as int)
            } else {
                t@
            },
            all_digits(d.subrange(0, i - start)),
            val as nat == digits_val(d.subrange(0, i - start)),
        decreases t@.len() - i,
    {
        let c = t[i];
        if c < '0' || c > '9' {
            proof {
                assert(d[i - start] == t@[i as int]);
                assert(!is_digit(d[i - start]));
            }
            return None;
        }
        let dv = (c as u32 - '0' as u32) as u64;
        proof {
            assert(d[i - start] == t@[i as int]);
            assert(is_digit(d[i - start]));
            assert(dv as nat == digit_val(d[i - start]));
            assert(dv <= 9);
        }
        if val > (u64::MAX - dv) / 10 {
            proof {
                let pre = d.subrange(0, i - start);
                let cur = d.subrange(0, i - start + 1);
                assert(cur.drop_last() =~= pre);
                assert(cur.last() == d[i - start]);
                assert(digits_val(cur) == digits_val(pre) * 10 + dv);
                vstd::arithmetic::div_mod::lemma_fundamental_div_mod(
                    (u64::MAX - dv) as int,
                    10int,
                );
                assert(digits_val(cur) > u64::MAX) by (nonlinear_arith)
                    requires
                        digits_val(cur) == digits_val(pre) * 10 + dv,
                        digits_val(pre) > ((u64::MAX - dv) as int / 10int),
                        (u64::MAX - dv) as int == 10int * ((u64::MAX - dv) as int / 10int) + ((
                        u64::MAX - dv) as int % 10int),
                        0 <= (u64::MAX - dv) as int % 10int,
                        ((u64::MAX - dv) as int % 10int) < 10,
                ;
                lemma_digits_val_prefix_le(d, i - start + 1);
            }
            return None;
        }
        val = val * 10 + dv;
        proof {
            let pre = d.subrange(0, i - start);
            let cur = d.subrange(0, i - start + 1);
            assert(cur.drop_last() =~= pre);
            assert(cur.last() == d[i - start]);
        }
        i = i + 1;
    }
    proof {
        assert(d.subrange(0, d.len() as int) =~= d);
    }
    Some((neg, val))
}

/// A prefix of a digit run never exceeds the whole run in value.
proof fn lemma_digits_val_prefix_le(d: Seq<char>, i: int)
    requires
        0 <= i <= d.len(),
    ensures
        digits_val(d.subrange(0, i)) <= digits_val(d),
    decreases d.len() - i,
{
    if i < d.len() {
        lemma_digits_val_prefix_le(d, i + 1);
        let pre = d.subrange(0, i);
        let cur = d.subrange(0, i + 1);
        assert(cur.drop_last() =~= pre);
        assert(digits_val(cur) == digits_val(pre) * 10 + digit_val(d[i]));
        assert(digits_val(pre) <= digits_val(pre) * 10) by (nonlinear_arith);
    } else {
        assert(d.subrange(0, d.len() as int) =~= d);
    }
}

/// Parse one entry, as `parse_frac` describes it.
fn parse_frac_exec(t: &Vec<char>) -> (r: Option<Fraction>)
    ensures
        match r {
            Some(f) => parse_frac(t@) == Some(f) && f.wf(),
            None => parse_frac(t@) is None,
        },
{
    let ghost whole = t@;
    let parts = split_exec(t, '/');
    proof {
        assert(parts@.map_values(|x: Vec<char>| x@) == split_on(whole, '/'));
        assert(parts@[0]@ == split_on(whole, '/')[0]);
    }
    if parts.len() == 1 {
        match parse_sint_exec(&parts[0]) {
            Some(p) => {
                let (neg, v) = p;
                match Fraction::new(neg, v, 1) {
                    Ok(f) => Some(f),
                    Err(_) => {
                        proof {
                            assert(false);
                        }
                        None
                    },
                }
            },
            None => None,
        }
    } else if parts.len() == 2 {
        proof {
            assert(parts@[1]@ == split_on(whole, '/')[1]);
        }
        match parse_sint_exec(&parts[0]) {
            Some(p1) => match parse_sint_exec(&parts[1]) {
                Some(p2) => {
                    let (n1, v1) = p1;
                    let (n2, v2) = p2;
                    if v2 == 0 {
                        None
                    } else {
                        match Fraction::new(n1 != n2, v1, v2) {
                            Ok(f) => Some(f),
                            Err(_) => {
                                proof {
                                    assert(false);
                                }
                                None
                            },
                        }
                    }
                },
                None => None,
            },
            None => None,
        }
    } else {
        None
    }
}

/// How many times `c` occurs in `s`.
pub open spec fn char_count(s: Seq<char>, c: char) -> nat
    decreases s.len(),
{
    if s.len() == 0 {
        0
    } else {
        char_count(s.drop_last(), c) + if s.last() == c {
            1nat
        } else {
            0nat
        }
    }
}

/// When the scan finds nothing, the character does not occur from `i` on.
proof fn lemma_find_char_none(s: Seq<char>, sep: char, i: int)
    requires
        0 <= i,
        find_char(s, sep, i) == s.len(),
    ensures
        forall|j: int| i <= j < s.len() ==> s[j] != sep,
    decreases s.len() - i,
{
    if i < s.len() {
        lemma_find_char_none(s, sep, i + 1);
    }
}

/// A sequence without the character has count zero, and counts add over
/// concatenation.
proof fn lemma_char_count_concat(a: Seq<char>, b: Seq<char>, c: char)
    ensures
        char_count(a + b, c) == char_count(a, c) + char_count(b, c),
    decreases b.len(),
{
    if b.len() == 0 {
        assert(a + b =~= a);
    } else {
        lemma_char_count_concat(a, b.drop_last(), c);
        assert((a + b).drop_last() =~= a + b.drop_last());
        assert((a + b).last() == b.last());
    }
}

/// A sequence in which the character never occurs has count zero.
proof fn lemma_char_count_zero(s: Seq<char>, c: char)
    requires
        forall|j: int| 0 <= j < s.len() ==> s[j] != c,
    ensures
        char_count(s, c) == 0,
    decreases s.len(),
{
    if s.len() > 0 {
        lemma_char_count_zero(s.drop_last(), c);
    }
}

/// Splitting yields one part more than there are separators.
proof fn lemma_split_len(s: Seq<char>, c: char)
    ensures
        split_on(s, c).len() == char_count(s, c) + 1,
    decreases s.len(),
{
    let k = find_char(s, c, 0);
    lemma_find_char_bounds(s, c, 0);
    lemma_find_char_first(s, c, 0);
    if 0 <= k < s.len() {
        let head = s.subrange(0, k);
        let tail = s.subrange(k + 1, s.len() as int);
        lemma_split_len(tail, c);
        lemma_find_char_prefix(s, c, k);
        lemma_find_char_none(head, c, 0);
        lemma_char_count_zero(head, c);
        assert(s =~= head + seq![s[k]] + tail);
        lemma_char_count_concat(head + seq![s[k]], tail, c);
        lemma_char_count_concat(head, seq![s[k]], c);
        assert(char_count(seq![s[k]], c) == 1) by {
            assert(seq![s[k]].drop_last() =~= Seq::<char>::empty());
            assert(char_count(Seq::<char>::empty(), c) == 0);
            assert(seq![s[k]].last() == c);
        }
    } else {
        assert(k == s.len());
        lemma_find_char_none(s, c, 0);
        lemma_char_count_zero(s, c);
    }
}

/// The characters before the first occurrence are not the separator, also
/// when read through the prefix subrange.
proof fn lemma_find_char_prefix(s: Seq<char>, c: char, k: int)
    requires
        0 <= k <= s.len(),
        find_char(s, c, 0) == k,
    ensures
        find_char(s.subrange(0, k), c, 0) == k,
{
    lemma_find_char_bounds(s, c, 0);
    assert(forall|j: int| 0 <= j < k ==> s.subrange(0, k)[j] != c) by {
        lemma_find_char_first(s, c, 0);
    }
    lemma_find_char_is(s.subrange(0, k), c, k);
}

/// The scan result lies between the start and the length.
proof fn lemma_find_char_bounds(s: Seq<char>, c: char, i: int)
    requires
        0 <= i <= s.len(),
    ensures
        i <= find_char(s, c, i) <= s.len(),
    decreases s.len() - i,
{
    if i < s.len() && s[i] != c {
        lemma_find_char_bounds(s, c, i + 1);
    }
}

/// No occurrence before the scan result, and the result itself matches when
/// in range.
proof fn lemma_find_char_first(s: Seq<char>, c: char, i: int)
    requires
        0 <= i <= s.len(),
    ensures
        forall|j: int| i <= j < find_char(s, c, i) ==> s[j] != c,
        find_char(s, c, i) < s.len() ==> s[find_char(s, c, i)] == c,
    decreases s.len() - i,
{
    if i < s.len() && s[i] != c {
        lemma_find_char_first(s, c, i + 1);
    }
}

/// A split always yields at least one part.
proof fn lemma_split_nonempty(s: Seq<char>, c: char)
    ensures
        split_on(s, c).len() >= 1,
{
}

/// The last part of a split is empty exactly when the text is empty or ends
/// with the separator.
proof fn lemma_split_last_empty(s: Seq<char>, c: char)
    ensures
        split_on(s, c).last().len() == 0 <==> (s.len() == 0 || s.last() == c),
    decreases s.len(),
{
    let k = find_char(s, c, 0);
    lemma_find_char_bounds(s, c, 0);
    lemma_find_char_first(s, c, 0);
    if 0 <= k < s.len() {
        let tail = s.subrange(k + 1, s.len() as int);
        lemma_split_last_empty(tail, c);
        lemma_split_nonempty(tail, c);
        assert(split_on(s, c).last() == split_on(tail, c).last());
        if tail.len() == 0 {
            assert(s[k] == c);
            assert(s.last() == c);
        } else {
            assert(tail.last() == s.last());
        }
    } else {
        assert(k == s.len());
        lemma_find_char_none(s, c, 0);
        assert(split_on(s, c).last() == s);
        if s.len() > 0 {
            assert(s.last() != c);
        }
    }
}

/// Parse the entries of one side, from its `;`-separated parts.
fn parse_entries_exec(parts: &Vec<Vec<char>>, i: usize) -> (r: Option<Vec<Fraction>>)
    requires
        i <= parts@.len(),
    ensures
        match r {
            Some(v) => parse_entries(parts@.map_values(|x: Vec<char>| x@), i as int) == Some(v@)
                && (forall|j: int| 0 <= j < v@.len() ==> (#[trigger] v@[j]).wf()),
            None => parse_entries(parts@.map_values(|x: Vec<char>| x@), i as int) is None,
        },
    decreases parts@.len() - i,
{
    let ghost model = parts@.map_values(|x: Vec<char>| x@);
    if i >= parts.len() {
        let empty: Vec<Fraction> = Vec::new();
        proof {
            assert(parse_entries(model, i as int) == Some(Seq::<Fraction>::empty()));
        }
        return Some(empty);
    }
    proof {
        assert(model[i as int] == parts@[i as int]@);
    }
    match parse_frac_exec(&parts[i]) {
        None => None,
        Some(f) => match parse_entries_exec(parts, i + 1) {
            None => None,
            Some(mut rest) => {
                rest.insert(0, f);
                proof {
                    assert(rest@ =~= seq![f] + rest@.subrange(1, rest@.len() as int));
                }
                Some(rest)
            },
        },
    }
}

/// Parse one side of a row.
fn parse_side_exec(t: &Vec<char>) -> (r: Option<Vec<Fraction>>)
    ensures
        match r {
            Some(v) => parse_side_spec(t@) == Some(v@) && (forall|j: int|
                0 <= j < v@.len() ==> (#[trigger] v@[j]).wf()),
            None => parse_side_spec(t@) is None,
        },
{
    let parts = split_exec(t, ';');
    parse_entries_exec(&parts, 0)
}

/// Parse one row line against the expected left-side length `n`.
fn parse_line_exec(line: &Vec<char>, n: usize) -> (r: Option<Row>)
    ensures
        match r {
            Some(row) => parse_line_spec(line@, n as int) == Some(row@) && row@.wf(),
            None => parse_line_spec(line@, n as int) is None,
        },
{
    if line.len() < 2 {
        return None;
    }
    if line[0] != '(' || line[line.len() - 1] != ')' {
        return None;
    }
    let inner = copy_range(line, 1, line.len() - 1);
    let k = find_char_exec(&inner, '|');
    if k == inner.len() {
        return None;
    }
    let left_part = copy_range(&inner, 0, k);
    let right_part = copy_range(&inner, k + 1, inner.len());
    let l = match parse_side_exec(&left_part) {
        Some(l) => l,
        None => {
            return None;
        },
    };
    if l.len() != n {
        return None;
    }
    let r = match parse_side_exec(&right_part) {
        Some(r) => r,
        None => {
            return None;
        },
    };
    Some(Row::new(l, r))
}

/// Parse the textual matrix format: one row per line, each `(` left `|`
/// right `)` with `;`-separated entries, the left side exactly as long as
/// there are lines.  On malformed text the error carries the offending line;
/// a well-formed text whose rows the solver cannot work on is a
/// configuration error.
#[verifier::rlimit(100)]
pub fn parse(s: &str) -> (r: Result<Matrix, SolveError>)
    requires
        s@.len() < usize::MAX,
    ensures
        match r {
            Ok(mm) => (parse_rows_spec(s@) matches Some(rows) && rows_ok(rows) && mm@.rows == rows
                && mm@.wf() && mm@.cs == opt_cols_spec(rows, rows[0].l.len() as int) && mm@.rs
                == opt_rows_spec(rows, mm@.cs) && mm@.state == (if rows.len() == 1 {
                MatrixState::NormalizeRow(0)
            } else {
                MatrixState::Null(0)
            })),
            Err(e) => match parse_rows_spec(s@) {
                Some(rows) => !rows_ok(rows) && e == SolveError::Configuration,
                None => e is Parse,
            },
        },
{
    let ghost raw = split_on(s@, '\n');
    let ghost lines = logical_lines(s@);
    let len = s.unicode_len();
    // count the newlines first: the square check needs the total line count
    let mut nl: usize = 0;
    let mut i: usize = 0;
    while i < len
        invariant
            len == s@.len(),
            i <= len,
            nl <= i,
            nl as nat == char_count(s@.subrange(0, i as int), '\n'),
        decreases len - i,
    {
        proof {
            assert(s@.subrange(0, i + 1).drop_last() =~= s@.subrange(0, i as int));
            assert(s@.subrange(0, i + 1).last() == s@[i as int]);
        }
        if s.get_char(i) == '\n' {
            nl = nl + 1;
        }
        i = i + 1;
    }
    proof {
        assert(s@.subrange(0, len as int) =~= s@);
        lemma_split_len(s@, '\n');
        assert(raw.len() == nl + 1);
        lemma_split_last_empty(s@, '\n');
    }
    // a final empty line, from a trailing newline, is not a row
    let trailing: bool = if len == 0 {
        true
    } else {
        s.get_char(len - 1) == '\n'
    };
    proof {
        if len > 0 {
            assert(s@.last() == s@[len - 1]);
        }
        assert(trailing == (raw.last().len() == 0));
    }
    let n = if trailing {
        nl
    } else {
        nl + 1
    };
    proof {
        let kept = if raw.len() > 0 && raw.last().len() == 0 {
            raw.drop_last()
        } else {
            raw
        };
        assert(lines == kept.map_values(|t: Seq<char>| strip_cr(t)));
        assert(n == lines.len());
        assert forall|j: int| 0 <= j < n implies lines[j] == strip_cr(#[trigger] raw[j]) by {
            assert(kept[j] == raw[j]);
        }
    }
    let mut rows: Vec<Row> = Vec::new();
    let mut lo: usize = 0;
    let mut li: usize = 0;
    while li < n
        invariant
            len == s@.len(),
            len < usize::MAX,
            raw == split_on(s@, '\n'),
            lines == logical_lines(s@),
            n == lines.len(),
            raw.len() == n || raw.len() == n + 1,
            forall|j: int| 0 <= j < n ==> lines[j] == strip_cr(#[trigger] raw[j]),
            li <= n,
            li < n ==> lo <= len,
            rows@.len() == li,
            forall|j: int| 0 <= j < rows@.len() ==> (#[trigger] rows@[j])@.wf(),
            li < n ==> split_on(s@.subrange(lo as int, len as int), '\n') == raw.subrange(
                li as int,
                raw.len() as int,
            ),
            parse_lines(lines, n as int, 0) == (match parse_lines(lines, n as int, li as int) {
                Some(rest) => Some(seq_model(rows@) + rest),
                None => Option::<Seq<RowModel>>::None,
            }),
        decreases n - li,
    {
        let ghost suffix = s@.subrange(lo as int, len as int);
        // find the end of this raw line
        let mut hi: usize = lo;
        let mut found: bool = false;
        while hi < len && !found
            invariant
                len == s@.len(),
                lo <= hi <= len,
                forall|j: int| lo <= j < hi ==> s@[j] != '\n',
                found ==> hi < len && s@[hi as int] == '\n',
            decreases len - hi, (if found {
                0int
            } else {
                1int
            }),
        {
            if s.get_char(hi) == '\n' {
                found = true;
            } else {
                hi = hi + 1;
            }
        }
        proof {
            assert(hi < len ==> s@[hi as int] == '\n');
            assert forall|j: int| 0 <= j < hi - lo implies suffix[j] != '\n' by {
                assert(suffix[j] == s@[lo + j]);
            }
            if hi < len {
                assert(suffix[hi - lo] == s@[hi as int]);
            }
            lemma_find_char_is(suffix, '\n', hi - lo);
            let parts = split_on(suffix, '\n');
            assert(parts == raw.subrange(li as int, raw.len() as int));
            if hi - lo < suffix.len() {
                let head = suffix.subrange(0, hi - lo);
                let tail = suffix.subrange(hi - lo + 1, suffix.len() as int);
                assert(parts == seq![head] + split_on(tail, '\n'));
                assert(parts[0] == head);
                assert(raw.subrange(li as int, raw.len() as int)[0] == raw[li as int]);
                assert(raw[li as int] == head);
                assert(split_on(tail, '\n') =~= parts.subrange(1, parts.len() as int));
                assert(parts.subrange(1, parts.len() as int) =~= raw.subrange(
                    li + 1,
                    raw.len() as int,
                ));
                assert(tail =~= s@.subrange(hi + 1, len as int));
            } else {
                assert(find_char(suffix, '\n', 0) == suffix.len());
                assert(parts == seq![suffix]);
                assert(raw.subrange(li as int, raw.len() as int)[0] == raw[li as int]);
                assert(raw[li as int] == suffix);
                assert(raw.len() - li == 1);
                assert(li + 1 == n);
                assert(suffix.subrange(0, hi - lo) =~= suffix);
            }
        }
        // drop a trailing carriage return from the line
        let mut line_end: usize = hi;
        if hi > lo {
            if s.get_char(hi - 1) == '\r' {
                line_end = hi - 1;
            }
        }
        let line_str = s.substring_char(lo, line_end);
        proof {
            let head = suffix.subrange(0, hi - lo);
            assert(raw[li as int] == head);
            if hi > lo && s@[hi - 1] == '\r' {
                assert(head.last() == s@[hi - 1]);
                assert(strip_cr(head) == head.drop_last());
                assert(head.drop_last() =~= s@.subrange(lo as int, hi - 1));
                assert(line_str@ == strip_cr(head));
            } else {
                if hi > lo {
                    assert(head.last() == s@[hi - 1]);
                }
                assert(strip_cr(head) == head);
                assert(line_str@ =~= strip_cr(head));
            }
            assert(line_str@ == lines[li as int]);
        }
        let line_chars = chars_of(line_str);
        match parse_line_exec(&line_chars, n) {
            Some(row) => {
                let ghost pre = rows@;
                rows.push(row);
                proof {
                    assert(seq_model(rows@) =~= seq_model(pre) + seq![row@]);
                    assert(parse_lines(lines, n as int, li as int) matches Some(rest) ==> (
                    seq_model(pre) + (seq![row@] + parse_lines(
                        lines,
                        n as int,
                        li + 1,
                    ).unwrap())) =~= (seq_model(rows@) + parse_lines(
                        lines,
                        n as int,
                        li + 1,
                    ).unwrap()));
                }
            },
            None => {
                return Err(SolveError::Parse(String::from_str(line_str)));
            },
        }
        lo = hi + 1;
        li = li + 1;
    }
    proof {
        assert(parse_lines(lines, n as int, n as int) == Some(Seq::<RowModel>::empty()));
        assert(seq_model(rows@) + Seq::<RowModel>::empty() =~= seq_model(rows@));
        assert(parse_rows_spec(s@) == Some(seq_model(rows@)));
    }
    match Matrix::new_with_rows(rows) {
        Ok(mut mat) => {
            mat.optimize_indeces();
            Ok(mat)
        },
        Err(_) => Err(SolveError::Configuration),
    }
}

/// The character of a decimal digit value.
pub open spec fn digit_char(d: nat) -> char {
    if d == 0 {
        '0'
    } else if d == 1 {
        '1'
    } else if d == 2 {
        '2'
    } else if d == 3 {
        '3'
    } else if d == 4 {
        '4'
    } else if d == 5 {
        '5'
    } else if d == 6 {
        '6'
    } else if d == 7 {
        '7'
    } else if d == 8 {
        '8'
    } else {
        '9'
    }
}

/// The decimal representation of a number, most significant digit first.
pub open spec fn dec_rep(n: nat) -> Seq<char>
    decreases n,
{
    if n < 10 {
        seq![digit_char(n)]
    } else {
        dec_rep(n / 10).push(digit_char(n % 10))
    }
}

/// The textual form of a fraction: an optional minus sign, the numerator,
/// and the denominator after a `/` unless it is one.
pub open spec fn frac_text(f: Fraction) -> Seq<char> {
    (if f.negative {
        seq!['-']
    } else {
        Seq::<char>::empty()
    }) + dec_rep(f.numerator as nat) + (if f.denominator != 1 {
        seq!['/'] + dec_rep(f.denominator as nat)
    } else {
        Seq::<char>::empty()
    })
}

/// The textual form of the entries from `i` on, `;`-separated.
pub open spec fn side_text(s: Seq<Fraction>, i: int) -> Seq<char>
    decreases s.len() - i,
{
    if i < 0 || i >= s.len() {
        Seq::empty()
    } else if i == s.len() - 1 {
        frac_text(s[i])
    } else {
        frac_text(s[i]) + seq![';'] + side_text(s, i + 1)
    }
}

/// The textual form of one row line.
pub open spec fn row_text(r: RowModel) -> Seq<char> {
    seq!['('] + side_text(r.l, 0) + seq!['|'] + side_text(r.r, 0) + seq![')']
}

/// The textual form of the rows from `i` on, one per line.
pub open spec fn matrix_text(rows: Seq<RowModel>, i: int) -> Seq<char>
    decreases rows.len() - i,
{
    if i < 0 || i >= rows.len() {
        Seq::empty()
    } else if i == rows.len() - 1 {
        row_text(rows[i])
    } else {
        row_text(rows[i]) + seq!['\n'] + matrix_text(rows, i + 1)
    }
}

/// The one-character string of a decimal digit value.
fn digit_str(d: u64) -> (r: &'static str)
    requires
        d < 10,
    ensures
        r@ =~= seq![digit_char(d as nat)],
{
    proof {
        reveal_strlit("0");
        reveal_strlit("1");
        reveal_strlit("2");
        reveal_strlit("3");
        reveal_strlit("4");
        reveal_strlit("5");
        reveal_strlit("6");
        reveal_strlit("7");
        reveal_strlit("8");
        reveal_strlit("9");
    }
    match d {
        0 => "0",
        1 => "1",
        2 => "2",
        3 => "3",
        4 => "4",
        5 => "5",
        6 => "6",
        7 => "7",
        8 => "8",
        _ => "9",
    }
}

/// Append the decimal representation of `n`.
fn push_dec(out: &mut String, n: u64)
    ensures
        final (out)@ == old(out)@ + dec_rep(n as nat),
    decreases n,
{
    if n >= 10 {
        push_dec(out, n / 10);
        let lit = digit_str(n % 10);
        out.append(lit);
        proof {
            assert(final (out)@ =~= old(out)@ + dec_rep(n as nat));
        }
    } else {
        let lit = digit_str(n);
        out.append(lit);
        proof {
            assert(final (out)@ =~= old(out)@ + dec_rep(n as nat));
        }
    }
}

/// Append the textual form of a fraction.
fn push_frac(out: &mut String, f: Fraction)
    ensures
        final (out)@ == old(out)@ + frac_text(f),
{
    proof {
        reveal_strlit("-");
        reveal_strlit("/");
    }
    if f.negative {
        out.append("-");
    }
    push_dec(out, f.numerator);
    if f.denominator != 1 {
        out.append("/");
        push_dec(out, f.denominator);
    }
    proof {
        assert(final (out)@ =~= old(out)@ + frac_text(f));
    }
}

/// Append the textual form of one side from entry `i` on.
fn push_side(out: &mut String, v: &Vec<Fraction>, i: usize)
    requires
        i <= v@.len(),
    ensures
        final (out)@ == old(out)@ + side_text(v@, i as int),
    decreases v@.len() - i,
{
    proof {
        reveal_strlit(";");
    }
    if i < v.len() {
        push_frac(out, v[i]);
        if i + 1 < v.len() {
            out.append(";");
            push_side(out, v, i + 1);
        }
    }
    proof {
        assert(final (out)@ =~= old(out)@ + side_text(v@, i as int));
    }
}

impl Matrix {
    /// Render the matrix to its textual form: one `(` left `|` right `)`
    /// line per row, entries `;`-separated, each a decimal integer or a
    /// `numerator/denominator` pair.
    pub fn to_text(&self) -> (r: String)
        ensures
            r@ == matrix_text(self@.rows, 0),
    {
        proof {
            reveal_strlit("(");
            reveal_strlit(")");
            reveal_strlit("|");
            reveal_strlit("\n");
        }
        let mut out = String::new();
        let n = self.rows.len();
        let mut i: usize = 0;
        while i < n
            invariant
                n == self.rows@.len(),
                i <= n,
                out@ == matrix_text_upto(self@.rows, i as int),
            decreases n - i,
        {
            proof {
                reveal_strlit("(");
                reveal_strlit(")");
                reveal_strlit("|");
                reveal_strlit("\n");
                assert(self.rows@[i as int]@ == self@.rows[i as int]);
            }
            if i > 0 {
                out.append("\n");
            }
            out.append("(");
            push_side(&mut out, &self.rows[i].left, 0);
            out.append("|");
            push_side(&mut out, &self.rows[i].right, 0);
            out.append(")");
            proof {
                assert(out@ =~= matrix_text_upto(self@.rows, i + 1));
            }
            i = i + 1;
        }
        proof {
            lemma_matrix_text_upto(self@.rows, n as int);
            if n == 0 {
                assert(matrix_text(self@.rows, 0) =~= Seq::<char>::empty());
            }
        }
        out
    }
}

/// The textual form of the first `i` rows, used to build the text forwards.
pub open spec fn matrix_text_upto(rows: Seq<RowModel>, i: int) -> Seq<char>
    decreases i,
{
    if i <= 0 {
        Seq::empty()
    } else if i == 1 {
        row_text(rows[0])
    } else {
        matrix_text_upto(rows, i - 1) + seq!['\n'] + row_text(rows[i - 1])
    }
}

/// Building the text forwards agrees with the whole text.
proof fn lemma_matrix_text_upto(rows: Seq<RowModel>, i: int)
    requires
        0 <= i <= rows.len(),
    ensures
        i == 0 ==> matrix_text_upto(rows, 0) == Seq::<char>::empty(),
        0 < i < rows.len() ==> matrix_text(rows, 0) == matrix_text_upto(rows, i) + seq!['\n']
            + matrix_text(rows, i),
        i == rows.len() && i > 0 ==> matrix_text(rows, 0) == matrix_text_upto(rows, i),
    decreases i,
{
    if i == 1 {
        if i == rows.len() {
            assert(matrix_text(rows, 0) == row_text(rows[0]));
        } else {
            assert(matrix_text(rows, 0) == row_text(rows[0]) + seq!['\n'] + matrix_text(rows, 1));
        }
    } else if i >= 2 {
        lemma_matrix_text_upto(rows, i - 1);
        assert(matrix_text_upto(rows, i) == matrix_text_upto(rows, i - 1) + seq!['\n'] + row_text(
            rows[i - 1],
        ));
        if i == rows.len() {
            assert(matrix_text(rows, i - 1) == row_text(rows[i - 1]));
            assert(matrix_text_upto(rows, i - 1) + seq!['\n'] + matrix_text(rows, i - 1)
                =~= matrix_text_upto(rows, i));
        } else {
            assert(matrix_text(rows, i - 1) == row_text(rows[i - 1]) + seq!['\n'] + matrix_text(
                rows,
                i,
            ));
            assert(matrix_text_upto(rows, i - 1) + seq!['\n'] + matrix_text(rows, i - 1)
                =~= matrix_text_upto(rows, i) + seq!['\n'] + matrix_text(rows, i));
        }
    }
}

/// A digit value maps to a digit character and back.
proof fn lemma_digit_char_val(d: nat)
    requires
        d < 10,
    ensures
        is_digit(digit_char(d)),
        digit_val(digit_char(d)) == d,
{
}

/// The decimal representation is a non-empty digit run with the right value.
proof fn lemma_dec_rep(n: nat)
    ensures
        dec_rep(n).len() >= 1,
        all_digits(dec_rep(n)),
        digits_val(dec_rep(n)) == n,
    decreases n,
{
    if n < 10 {
        lemma_digit_char_val(n);
        let t = seq![digit_char(n)];
        assert(t.drop_last() =~= Seq::<char>::empty());
        assert(digits_val(Seq::<char>::empty()) == 0);
        assert(t.last() == digit_char(n));
        assert(digits_val(t) == digit_val(digit_char(n)));
    } else {
        lemma_dec_rep(n / 10);
        lemma_digit_char_val(n % 10);
        let pre = dec_rep(n / 10);
        let c = digit_char(n % 10);
        let t = pre.push(c);
        assert(t.drop_last() =~= pre);
        assert(t.last() == c);
        assert(digits_val(t) == (n / 10) * 10 + (n % 10));
        vstd::arithmetic::div_mod::lemma_fundamental_div_mod(n as int, 10int);
        assert forall|j: int| 0 <= j < t.len() implies is_digit(#[trigger] t[j]) by {
            if j < pre.len() {
                assert(t[j] == pre[j]);
            }
        }
    }
}

/// A sequence free of the separator splits to itself alone.
proof fn lemma_split_single(a: Seq<char>, sep: char)
    requires
        forall|j: int| 0 <= j < a.len() ==> a[j] != sep,
    ensures
        split_on(a, sep) == seq![a],
{
    lemma_find_char_is(a, sep, a.len() as int);
}

/// Splitting at the single separator between a separator-free prefix and a
/// remainder.
proof fn lemma_split_sep(a: Seq<char>, b: Seq<char>, sep: char)
    requires
        forall|j: int| 0 <= j < a.len() ==> a[j] != sep,
    ensures
        split_on(a + seq![sep] + b, sep) == seq![a] + split_on(b, sep),
{
    let s = a + seq![sep] + b;
    assert forall|j: int| 0 <= j < a.len() implies s[j] != sep by {
        assert(s[j] == a[j]);
    }
    assert(s[a.len() as int] == sep);
    lemma_find_char_is(s, sep, a.len() as int);
    assert(s.subrange(0, a.len() as int) =~= a);
    assert(s.subrange(a.len() as int + 1, s.len() as int) =~= b);
}

/// The textual form of a signed integer, and its characters.
pub open spec fn sint_text(neg: bool, v: nat) -> Seq<char> {
    (if neg {
        seq!['-']
    } else {
        Seq::<char>::empty()
    }) + dec_rep(v)
}

/// Every character of a signed-integer text is a digit or the minus sign.
proof fn lemma_sint_text_chars(neg: bool, v: nat)
    ensures
        forall|j: int|
            0 <= j < sint_text(neg, v).len() ==> (is_digit(#[trigger] sint_text(neg, v)[j])
                || sint_text(neg, v)[j] == '-'),
        sint_text(neg, v).len() >= 1,
{
    lemma_dec_rep(v);
    let t = sint_text(neg, v);
    assert forall|j: int| 0 <= j < t.len() implies (is_digit(#[trigger] t[j]) || t[j] == '-') by {
        if neg {
            if j > 0 {
                assert(t[j] == dec_rep(v)[j - 1]);
            }
        } else {
            assert(t[j] == dec_rep(v)[j]);
        }
    }
}

/// Reading back the textual form of a signed integer.
proof fn lemma_sint_round(neg: bool, v: u64)
    ensures
        parse_sint(sint_text(neg, v as nat)) == Some((neg, v as nat)),
{
    lemma_dec_rep(v as nat);
    let t = sint_text(neg, v as nat);
    if neg {
        assert(t[0] == '-');
        assert(t.subrange(1, t.len() as int) =~= dec_rep(v as nat));
    } else {
        assert(t =~= dec_rep(v as nat));
        assert(is_digit(t[0]));
        assert(t[0] != '-' && t[0] != '+');
    }
}

/// Every character of a fraction's text is a digit, the minus sign or the
/// slash.
proof fn lemma_frac_text_chars(f: Fraction)
    ensures
        forall|j: int|
            0 <= j < frac_text(f).len() ==> (is_digit(#[trigger] frac_text(f)[j]) || frac_text(
                f,
            )[j] == '-' || frac_text(f)[j] == '/'),
        frac_text(f).len() >= 1,
{
    lemma_sint_text_chars(f.negative, f.numerator as nat);
    lemma_dec_rep(f.denominator as nat);
    let a = sint_text(f.negative, f.numerator as nat);
    let t = frac_text(f);
    if f.denominator != 1 {
        assert(t =~= a + seq!['/'] + dec_rep(f.denominator as nat));
        assert forall|j: int| 0 <= j < t.len() implies (is_digit(#[trigger] t[j]) || t[j] == '-'
            || t[j] == '/') by {
            if j < a.len() {
                assert(t[j] == a[j]);
            } else if j > a.len() {
                assert(t[j] == dec_rep(f.denominator as nat)[j - a.len() - 1]);
            }
        }
    } else {
        assert(t =~= a);
    }
}

/// Reading back the textual form of a well-formed fraction gives back the
/// very same fraction.
#[verifier::rlimit(50)]
proof fn lemma_frac_round(f: Fraction)
    requires
        f.wf(),
    ensures
        parse_frac(frac_text(f)) == Some(f),
{
    let a = sint_text(f.negative, f.numerator as nat);
    lemma_sint_text_chars(f.negative, f.numerator as nat);
    lemma_sint_round(f.negative, f.numerator);
    crate::fraction::lemma_norm_fixed(f);
    assert forall|j: int| 0 <= j < a.len() implies a[j] != '/' by {
        assert(is_digit(a[j]) || a[j] == '-');
    }
    if f.denominator == 1 {
        assert(frac_text(f) =~= a);
        lemma_split_single(a, '/');
        let parts = split_on(frac_text(f), '/');
        assert(parts.len() == 1 && parts[0] == a);
        assert(f.num() == if f.negative {
            -(f.numerator as int)
        } else {
            f.numerator as int
        });
    } else {
        let b = dec_rep(f.denominator as nat);
        lemma_dec_rep(f.denominator as nat);
        assert(frac_text(f) =~= a + seq!['/'] + b);
        assert forall|j: int| 0 <= j < b.len() implies b[j] != '/' by {
            assert(is_digit(b[j]));
        }
        lemma_split_sep(a, b, '/');
        lemma_split_single(b, '/');
        let parts = split_on(frac_text(f), '/');
        assert(parts == seq![a] + seq![b]);
        assert(parts.len() == 2 && parts[0] == a && parts[1] == b);
        lemma_sint_round(false, f.denominator);
        assert(b =~= sint_text(false, f.denominator as nat));
        assert(f.numerator != 0);
    }
}

/// Skipping a leading part shifts the entry index by one.
proof fn lemma_entries_shift(a: Seq<char>, parts: Seq<Seq<char>>, i: int)
    requires
        0 <= i,
    ensures
        parse_entries(seq![a] + parts, i + 1) == parse_entries(parts, i),
    decreases parts.len() - i,
{
    if i < parts.len() {
        assert((seq![a] + parts)[i + 1] == parts[i]);
        lemma_entries_shift(a, parts, i + 1);
    }
}

/// Reading back the textual form of the entries from `i` on.
proof fn lemma_side_round(s: Seq<Fraction>, i: int)
    requires
        0 <= i < s.len(),
        forall|j: int| 0 <= j < s.len() ==> (#[trigger] s[j]).wf(),
    ensures
        parse_side_spec(side_text(s, i)) == Some(s.subrange(i, s.len() as int)),
    decreases s.len() - i,
{
    lemma_frac_text_chars(s[i]);
    let ft = frac_text(s[i]);
    assert forall|j: int| 0 <= j < ft.len() implies ft[j] != ';' by {
        assert(is_digit(ft[j]) || ft[j] == '-' || ft[j] == '/');
    }
    lemma_frac_round(s[i]);
    if i == s.len() - 1 {
        lemma_split_single(ft, ';');
        let parts = split_on(side_text(s, i), ';');
        assert(parts == seq![ft]);
        assert(parse_entries(parts, 1) == Some(Seq::<Fraction>::empty()));
        assert(seq![s[i]] + Seq::<Fraction>::empty() =~= s.subrange(i, s.len() as int));
    } else {
        lemma_side_round(s, i + 1);
        assert(side_text(s, i) == ft + seq![';'] + side_text(s, i + 1));
        lemma_split_sep(ft, side_text(s, i + 1), ';');
        let rest_parts = split_on(side_text(s, i + 1), ';');
        let parts = split_on(side_text(s, i), ';');
        assert(parts == seq![ft] + rest_parts);
        assert(parts[0] == ft);
        lemma_entries_shift(ft, rest_parts, 0);
        assert(parse_entries(parts, 1) == parse_entries(rest_parts, 0));
        assert(parse_entries(rest_parts, 0) == Some(s.subrange(i + 1, s.len() as int)));
        assert(seq![s[i]] + s.subrange(i + 1, s.len() as int) =~= s.subrange(i, s.len() as int));
    }
}

/// No character of a side's text is a bar, a parenthesis or a line break.
proof fn lemma_side_text_free(s: Seq<Fraction>, i: int)
    ensures
        forall|j: int|
            0 <= j < side_text(s, i).len() ==> (#[trigger] side_text(s, i)[j]) != '|' && side_text(
                s,
                i,
            )[j] != '\n' && side_text(s, i)[j] != '(' && side_text(s, i)[j] != ')',
    decreases s.len() - i,
{
    if 0 <= i < s.len() {
        lemma_frac_text_chars(s[i]);
        let ft = frac_text(s[i]);
        if i == s.len() - 1 {
        } else {
            lemma_side_text_free(s, i + 1);
            let rest = side_text(s, i + 1);
            assert forall|j: int| 0 <= j < side_text(s, i).len() implies (#[trigger] side_text(
                s,
                i,
            )[j]) != '|' && side_text(s, i)[j] != '\n' && side_text(s, i)[j] != '(' && side_text(
                s,
                i,
            )[j] != ')' by {
                if j < ft.len() {
                    assert(side_text(s, i)[j] == ft[j]);
                    assert(is_digit(ft[j]) || ft[j] == '-' || ft[j] == '/');
                } else if j > ft.len() {
                    assert(side_text(s, i)[j] == rest[j - ft.len() - 1]);
                }
            }
        }
        assert forall|j: int| 0 <= j < ft.len() implies ft[j] != '|' && ft[j] != '\n' && ft[j]
            != '(' && ft[j] != ')' by {
            assert(is_digit(ft[j]) || ft[j] == '-' || ft[j] == '/');
        }
    }
}

/// Reading back the textual form of one row line.
proof fn lemma_line_round(r: RowModel, n: int)
    requires
        r.wf(),
        r.l.len() == n,
        r.l.len() >= 1,
        r.r.len() >= 1,
    ensures
        parse_line_spec(row_text(r), n) == Some(r),
{
    let sl = side_text(r.l, 0);
    let sr = side_text(r.r, 0);
    let t = row_text(r);
    lemma_side_text_free(r.l, 0);
    lemma_side_text_free(r.r, 0);
    lemma_frac_text_chars(r.l[0]);
    lemma_frac_text_chars(r.r[0]);
    assert(sl.len() >= 1 && sr.len() >= 1) by {
        if r.l.len() == 1 {
            assert(sl == frac_text(r.l[0]));
        }
        if r.r.len() == 1 {
            assert(sr == frac_text(r.r[0]));
        }
    }
    assert(t[0] == '(');
    assert(t.last() == ')');
    let inner = t.subrange(1, t.len() - 1);
    assert(inner =~= sl + seq!['|'] + sr);
    assert forall|j: int| 0 <= j < sl.len() implies inner[j] != '|' by {
        assert(inner[j] == sl[j]);
    }
    assert(inner[sl.len() as int] == '|');
    lemma_find_char_is(inner, '|', sl.len() as int);
    assert(inner.subrange(0, sl.len() as int) =~= sl);
    assert(inner.subrange(sl.len() as int + 1, inner.len() as int) =~= sr);
    lemma_side_round(r.l, 0);
    lemma_side_round(r.r, 0);
    assert(r.l.subrange(0, r.l.len() as int) =~= r.l);
    assert(r.r.subrange(0, r.r.len() as int) =~= r.r);
}

/// The lines of the rendered text are exactly the row lines.
proof fn lemma_matrix_lines(rows: Seq<RowModel>, i: int)
    requires
        0 <= i < rows.len(),
        forall|j: int| 0 <= j < rows.len() ==> (#[trigger] rows[j]).wf(),
        forall|j: int| 0 <= j < rows.len() ==> (#[trigger] rows[j]).l.len() >= 1,
        forall|j: int| 0 <= j < rows.len() ==> (#[trigger] rows[j]).r.len() >= 1,
    ensures
        split_on(matrix_text(rows, i), '\n') == Seq::new(
            (rows.len() - i) as nat,
            |j: int| row_text(rows[i + j]),
        ),
    decreases rows.len() - i,
{
    let rt = row_text(rows[i]);
    lemma_side_text_free(rows[i].l, 0);
    lemma_side_text_free(rows[i].r, 0);
    assert forall|j: int| 0 <= j < rt.len() implies rt[j] != '\n' by {
        let sl = side_text(rows[i].l, 0);
        let sr = side_text(rows[i].r, 0);
        assert(rt =~= seq!['('] + sl + seq!['|'] + sr + seq![')']);
        if 0 < j < 1 + sl.len() {
            assert(rt[j] == sl[j - 1]);
        } else if 1 + sl.len() < j < rt.len() - 1 {
            assert(rt[j] == sr[j - sl.len() - 2]);
        }
    }
    if i == rows.len() - 1 {
        lemma_split_single(rt, '\n');
        assert(split_on(matrix_text(rows, i), '\n') =~= Seq::new(
            (rows.len() - i) as nat,
            |j: int| row_text(rows[i + j]),
        ));
    } else {
        lemma_matrix_lines(rows, i + 1);
        assert(matrix_text(rows, i) == rt + seq!['\n'] + matrix_text(rows, i + 1));
        lemma_split_sep(rt, matrix_text(rows, i + 1), '\n');
        assert(split_on(matrix_text(rows, i), '\n') =~= Seq::new(
            (rows.len() - i) as nat,
            |j: int| row_text(rows[i + j]),
        ));
    }
}

/// Reading back all rendered lines from `i` on.
proof fn lemma_lines_round(rows: Seq<RowModel>, lines: Seq<Seq<char>>, i: int)
    requires
        0 <= i <= rows.len(),
        lines == Seq::new(rows.len() as nat, |j: int| row_text(rows[j])),
        forall|j: int| 0 <= j < rows.len() ==> (#[trigger] rows[j]).wf(),
        forall|j: int| 0 <= j < rows.len() ==> (#[trigger] rows[j]).l.len() == rows.len(),
        forall|j: int| 0 <= j < rows.len() ==> (#[trigger] rows[j]).r.len() >= 1,
        rows.len() >= 1,
    ensures
        parse_lines(lines, rows.len() as int, i) == Some(rows.subrange(i, rows.len() as int)),
    decreases rows.len() - i,
{
    if i == rows.len() {
        assert(rows.subrange(i, rows.len() as int) =~= Seq::<RowModel>::empty());
    } else {
        lemma_line_round(rows[i], rows.len() as int);
        assert(lines[i] == row_text(rows[i]));
        lemma_lines_round(rows, lines, i + 1);
        assert(seq![rows[i]] + rows.subrange(i + 1, rows.len() as int) =~= rows.subrange(
            i,
            rows.len() as int,
        ));
    }
}

/// Law: rendering a matrix's rows to their textual form and parsing that text
/// back yields exactly the same rows, whenever the coefficient side is square.
pub proof fn lemma_render_parse_round_trip(rows: Seq<RowModel>)
    requires
        rows_ok(rows),
        rows[0].l.len() == rows.len(),
    ensures
        parse_rows_spec(matrix_text(rows, 0)) == Some(rows),
{
    lemma_matrix_lines(rows, 0);
    let raw = split_on(matrix_text(rows, 0), '\n');
    assert(raw == Seq::new(rows.len() as nat, |j: int| row_text(rows[j])));
    // a rendered row line ends with `)`, so it is neither empty nor
    // carriage-return terminated
    assert forall|j: int| 0 <= j < raw.len() implies (#[trigger] raw[j]).len() >= 2 && raw[j].last()
        == ')' by {
        let r = rows[j];
        assert(raw[j] == row_text(r));
        assert(row_text(r) =~= seq!['('] + side_text(r.l, 0) + seq!['|'] + side_text(r.r, 0)
            + seq![')']);
        assert(row_text(r).last() == ')');
    }
    assert(raw.last().len() != 0) by {
        assert(raw[raw.len() - 1].len() >= 2);
    }
    let lines = logical_lines(matrix_text(rows, 0));
    assert(lines == raw.map_values(|t: Seq<char>| strip_cr(t)));
    assert(lines =~= raw) by {
        assert forall|j: int| 0 <= j < raw.len() implies lines[j] == raw[j] by {
            assert(lines[j] == strip_cr(raw[j]));
            assert(raw[j].last() != '\r');
        }
    }
    lemma_lines_round(rows, lines, 0);
    assert(rows.subrange(0, rows.len() as int) =~= rows);
}

} // verus!

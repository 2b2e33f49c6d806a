//! The version-aware result table: one header line, one comma-joined row per
//! descriptor tuple, rows ordered column by column with dotted numeric
//! versions compared numerically wherever both sides parse as one.

use crate::text::{char_join, char_split, cmp_chars, str_cmp, Ordering};
use crate::version::{cmp_u16s, version_parts, Version};
use vstd::multiset::Multiset;
use vstd::prelude::*;

verus! {

/// One line as `str::lines` yields it: the trailing carriage return, if any,
/// is dropped.
pub open spec fn strip_cr(l: Seq<char>) -> Seq<char> {
    if l.len() > 0 && l.last() == '\r' {
        l.drop_last()
    } else {
        l
    }
}

/// The lines of `s` as `str::lines` yields them: split on newlines, one
/// trailing empty piece dropped, carriage returns stripped.
pub open spec fn lines_view(s: Seq<char>) -> Seq<Seq<char>> {
    let raw = char_split(s, '\n');
    let kept = if raw.last().len() == 0 {
        raw.drop_last()
    } else {
        raw
    };
    kept.map_values(|l: Seq<char>| strip_cr(l))
}

/// The data rows of a result file: every line but the header, split on
/// commas.
pub open spec fn parse_data_rows(s: Seq<char>) -> Seq<Seq<Seq<char>>> {
    let ls = lines_view(s);
    if ls.len() == 0 {
        Seq::empty()
    } else {
        ls.skip(1).map_values(|l: Seq<char>| char_split(l, ','))
    }
}

pub open spec fn row_view(r: Vec<String>) -> Seq<Seq<char>> {
    r@.map_values(|c: String| c@)
}

pub open spec fn rows_view(rs: Seq<Vec<String>>) -> Seq<Seq<Seq<char>>> {
    rs.map_values(|r: Vec<String>| row_view(r))
}

/// The lines of `s`, as `str::lines` yields them.
pub fn lines_of(s: &str) -> (r: Vec<String>)
    ensures
        r@.map_values(|l: String| l@) == lines_view(s@),
{
    let mut raw = crate::text::split_str(s, '\n');
    let ghost raw_views = raw@.map_values(|l: String| l@);
    if raw[raw.len() - 1].as_str().unicode_len() == 0 {
        proof {
            assert(raw_views.last() == raw@[raw@.len() - 1]@);
        }
        raw.pop();
        proof {
            assert(raw@.map_values(|l: String| l@) =~~= raw_views.drop_last());
        }
    }
    let ghost kept = raw@.map_values(|l: String| l@);
    let mut out: Vec<String> = Vec::new();
    let mut i: usize = 0;
    while i < raw.len()
        invariant
            i <= raw.len(),
            kept == raw@.map_values(|l: String| l@),
            out@.len() == i,
            forall|j: int| 0 <= j < i ==> (#[trigger] out@[j])@ == strip_cr(kept[j]),
        decreases raw.len() - i,
    {
        let line = &raw[i];
        let len = line.as_str().unicode_len();
        let stripped: String = if len > 0 && line.as_str().get_char(len - 1) == '\r' {
            proof {
                assert(line@.last() == line@[len - 1]);
                assert(line@.subrange(0, len - 1) =~= line@.drop_last());
            }
            String::from_str(line.as_str().substring_char(0, len - 1))
        } else {
            line.clone()
        };
        proof {
            assert(stripped@ == strip_cr(kept[i as int]));
        }
        out.push(stripped);
        i += 1;
    }
    proof {
        assert(out@.map_values(|l: String| l@) =~~= kept.map_values(|l: Seq<char>| strip_cr(l)));
    }
    out
}

/// The data rows of a result file's contents: every line but the first,
/// split on commas.
pub fn rows_of_contents(s: &str) -> (r: Vec<Vec<String>>)
    ensures
        rows_view(r@) == parse_data_rows(s@),
{
    let lines = lines_of(s);
    let ghost line_views = lines@.map_values(|l: String| l@);
    let mut rows: Vec<Vec<String>> = Vec::new();
    let mut i: usize = 1;
    while i < lines.len()
        invariant
            1 <= i,
            i <= lines.len() || (lines.len() == 0 && i == 1),
            line_views == lines@.map_values(|l: String| l@),
            rows@.len() == if i <= lines.len() {
                i - 1
            } else {
                0
            },
            forall|j: int|
                0 <= j < rows@.len() ==> row_view(#[trigger] rows@[j]) == char_split(
                    line_views[j + 1],
                    ',',
                ),
        decreases lines.len() - i,
    {
        let cols = crate::text::split_str(lines[i].as_str(), ',');
        rows.push(cols);
        i += 1;
    }
    proof {
        assert(rows_view(rows@) =~~= parse_data_rows(s@));
    }
    rows
}

/// Comparison of one column: numeric whenever both sides parse as dotted
/// versions, lexical otherwise.
#[verifier::opaque]
pub open spec fn column_cmp(a: Seq<char>, b: Seq<char>) -> Ordering {
    if version_parts(a).len() > 0 && version_parts(b).len() > 0 {
        cmp_u16s(version_parts(a), version_parts(b))
    } else {
        cmp_chars(a, b)
    }
}

/// Row comparison, column by column from the left; the first column that
/// differs decides.
pub open spec fn cmp_lines_spec(a: Seq<Seq<char>>, b: Seq<Seq<char>>) -> Ordering
    decreases a.len(),
{
    if a.len() == 0 {
        Ordering::Equal
    } else {
        match column_cmp(a[0], b[0]) {
            Ordering::Equal => cmp_lines_spec(a.drop_first(), b.drop_first()),
            o => o,
        }
    }
}

fn column_compare(a: &str, b: &str) -> (r: Ordering)
    ensures
        r == column_cmp(a@, b@),
{
    proof {
        reveal(column_cmp);
    }
    match (Version::parse(a), Version::parse(b)) {
        (Ok(va), Ok(vb)) => va.compare(&vb),
        _ => str_cmp(a, b),
    }
}

/// Compares two lines column-wise. Both lines must have the same number of
/// columns. A column holding a dotted numeric version on both sides is
/// compared as such: `1.2` orders before `1.10`, where plain string
/// comparison would put it after.
pub fn compare_lines(a: &Vec<&str>, b: &Vec<&str>) -> (r: Ordering)
    requires
        a@.len() == b@.len(),
    ensures
        r == cmp_lines_spec(
            a@.map_values(|c: &str| c@),
            b@.map_values(|c: &str| c@),
        ),
{
    let ghost av = a@.map_values(|c: &str| c@);
    let ghost bv = b@.map_values(|c: &str| c@);
    let mut i: usize = 0;
    proof {
        assert(av.skip(0) =~~= av);
        assert(bv.skip(0) =~~= bv);
    }
    loop
        invariant
            i <= a@.len(),
            a@.len() == b@.len(),
            av == a@.map_values(|c: &str| c@),
            bv == b@.map_values(|c: &str| c@),
            cmp_lines_spec(av, bv) == cmp_lines_spec(av.skip(i as int), bv.skip(i as int)),
        decreases a@.len() - i,
    {
        if i == a.len() {
            return Ordering::Equal;
        }
        proof {
            assert(av.skip(i as int)[0] == av[i as int]);
            assert(bv.skip(i as int)[0] == bv[i as int]);
            assert(av.skip(i as int).drop_first() =~~= av.skip(i + 1));
            assert(bv.skip(i as int).drop_first() =~~= bv.skip(i + 1));
        }
        match column_compare(a[i], b[i]) {
            Ordering::Equal => {
                i += 1;
            },
            o => {
                return o;
            },
        }
    }
}

/// Row comparison on owned column vectors, the form the sorting of a result
/// file uses.
pub fn cmp_rows(a: &Vec<String>, b: &Vec<String>) -> (r: Ordering)
    requires
        a@.len() == b@.len(),
    ensures
        r == cmp_lines_spec(row_view(*a), row_view(*b)),
{
    let ghost av = row_view(*a);
    let ghost bv = row_view(*b);
    let mut i: usize = 0;
    proof {
        assert(av.skip(0) =~~= av);
        assert(bv.skip(0) =~~= bv);
    }
    loop
        invariant
            i <= a@.len(),
            a@.len() == b@.len(),
            av == row_view(*a),
            bv == row_view(*b),
            cmp_lines_spec(av, bv) == cmp_lines_spec(av.skip(i as int), bv.skip(i as int)),
        decreases a@.len() - i,
    {
        if i == a.len() {
            return Ordering::Equal;
        }
        proof {
            assert(av.skip(i as int)[0] == av[i as int]);
            assert(bv.skip(i as int)[0] == bv[i as int]);
            assert(av.skip(i as int).drop_first() =~~= av.skip(i + 1));
            assert(bv.skip(i as int).drop_first() =~~= bv.skip(i + 1));
        }
        match column_compare(a[i].as_str(), b[i].as_str()) {
            Ordering::Equal => {
                i += 1;
            },
            o => {
                return o;
            },
        }
    }
}

pub open spec fn flip_ord(o: Ordering) -> Ordering {
    match o {
        Ordering::Less => Ordering::Greater,
        Ordering::Equal => Ordering::Equal,
        Ordering::Greater => Ordering::Less,
    }
}

proof fn lemma_cmp_chars_flip(a: Seq<char>, b: Seq<char>)
    ensures
        cmp_chars(b, a) == flip_ord(cmp_chars(a, b)),
    decreases a.len(),
{
    if a.len() > 0 && b.len() > 0 {
        lemma_cmp_chars_flip(a.drop_first(), b.drop_first());
    }
}

proof fn lemma_cmp_u16s_flip(a: Seq<u16>, b: Seq<u16>)
    ensures
        cmp_u16s(b, a) == flip_ord(cmp_u16s(a, b)),
    decreases a.len(),
{
    if a.len() > 0 && b.len() > 0 {
        lemma_cmp_u16s_flip(a.drop_first(), b.drop_first());
    }
}

proof fn lemma_column_cmp_flip(a: Seq<char>, b: Seq<char>)
    ensures
        column_cmp(b, a) == flip_ord(column_cmp(a, b)),
{
    reveal(column_cmp);
    lemma_cmp_chars_flip(a, b);
    lemma_cmp_u16s_flip(version_parts(a), version_parts(b));
}

proof fn lemma_cmp_lines_flip(a: Seq<Seq<char>>, b: Seq<Seq<char>>)
    requires
        a.len() == b.len(),
    ensures
        cmp_lines_spec(b, a) == flip_ord(cmp_lines_spec(a, b)),
    decreases a.len(),
{
    if a.len() > 0 {
        lemma_column_cmp_flip(a[0], b[0]);
        if column_cmp(a[0], b[0]) == Ordering::Equal {
            lemma_cmp_lines_flip(a.drop_first(), b.drop_first());
        }
    }
}

/// `a` does not compare Greater to `b`.
pub open spec fn le_rows(a: Vec<String>, b: Vec<String>) -> bool {
    cmp_lines_spec(row_view(a), row_view(b)) != Ordering::Greater
}

/// No row compares Greater to its successor.
pub open spec fn rows_ordered(rs: Seq<Vec<String>>) -> bool {
    forall|i: int| 0 <= i && i + 1 < rs.len() ==> le_rows(#[trigger] rs[i], rs[i + 1])
}

/// Position for a new row in an ordered list: every row at or right of it
/// compares Greater to the new row, and the row left of it does not.
fn find_insert_pos(out: &Vec<Vec<String>>, x: &Vec<String>) -> (j: usize)
    requires
        forall|k: int| 0 <= k < out@.len() ==> (#[trigger] out@[k])@.len() == x@.len(),
    ensures
        j <= out@.len(),
        j > 0 ==> le_rows(out@[j - 1], *x),
        forall|m: int| j <= m < out@.len() ==> !le_rows(#[trigger] out@[m], *x),
{
    let mut j: usize = out.len();
    while j > 0
        invariant
            j <= out@.len(),
            forall|k: int| 0 <= k < out@.len() ==> (#[trigger] out@[k])@.len() == x@.len(),
            forall|m: int| j <= m < out@.len() ==> !le_rows(#[trigger] out@[m], *x),
        decreases j,
    {
        if !matches!(cmp_rows(&out[j - 1], x), Ordering::Greater) {
            return j;
        }
        j -= 1;
    }
    j
}

/// Places one row into an already ordered list, right of every row that does
/// not compare Greater to it.
fn insert_row(out: &mut Vec<Vec<String>>, x: Vec<String>, width: usize)
    requires
        rows_ordered(old(out)@),
        forall|k: int| 0 <= k < old(out)@.len() ==> (#[trigger] old(out)@[k])@.len() == width,
        x@.len() == width,
    ensures
        final(out)@.to_multiset() == old(out)@.to_multiset().insert(x),
        final(out)@.len() == old(out)@.len() + 1,
        rows_ordered(final(out)@),
        forall|k: int| 0 <= k < final(out)@.len() ==> (#[trigger] final(out)@[k])@.len() == width,
{
    let j = find_insert_pos(out, &x);
    let ghost pre = out@;
    proof {
        if j < pre.len() {
            lemma_cmp_lines_flip(row_view(pre[j as int]), row_view(x));
        }
        crate::sorting::lemma_chain_insert(
            pre,
            x,
            j as int,
            |a: Vec<String>, b: Vec<String>| le_rows(a, b),
        );
        crate::sorting::lemma_insert_multiset(pre, j as int, x);
    }
    out.insert(j, x);
    proof {
        assert(forall|k: int| 0 <= k < j ==> out@[k] == pre[k]);
        assert(forall|k: int| j < k < out@.len() ==> out@[k] == pre[k - 1]);
        assert(out@[j as int] == x);
    }
}

/// Sorts the rows so that no row compares Greater to its successor, keeping
/// the rows themselves: the result is a permutation of the input. All rows
/// must have the same width, so that any two can be compared.
pub fn sort_rows(rows: Vec<Vec<String>>, width: usize) -> (r: Vec<Vec<String>>)
    requires
        forall|i: int| 0 <= i < rows@.len() ==> (#[trigger] rows@[i])@.len() == width,
    ensures
        r@.to_multiset() == rows@.to_multiset(),
        r@.len() == rows@.len(),
        rows_ordered(r@),
        forall|i: int| 0 <= i < r@.len() ==> (#[trigger] r@[i])@.len() == width,
{
    let ghost orig = rows@;
    let mut rows = rows;
    let mut out: Vec<Vec<String>> = Vec::new();
    proof {
        broadcast use vstd::seq_lib::group_to_multiset_ensures;
        broadcast use vstd::multiset::group_multiset_axioms;

        assert(out@.to_multiset().len() == 0);
        assert(out@.to_multiset() =~= Multiset::<Vec<String>>::empty());
        assert(out@.to_multiset().add(rows@.to_multiset()) =~= orig.to_multiset());
    }
    while rows.len() > 0
        invariant
            out@.to_multiset().add(rows@.to_multiset()) == orig.to_multiset(),
            out@.len() + rows@.len() == orig.len(),
            rows_ordered(out@),
            forall|k: int| 0 <= k < rows@.len() ==> (#[trigger] rows@[k])@.len() == width,
            forall|k: int| 0 <= k < out@.len() ==> (#[trigger] out@[k])@.len() == width,
        decreases rows@.len(),
    {
        let ghost before = rows@;
        let x = match rows.pop() {
            Some(x) => x,
            None => {
                return out;
            },
        };
        proof {
            assert(before.drop_last() =~= rows@);
            crate::sorting::lemma_ms_drop_last(before);
        }
        let ghost out_before = out@.to_multiset();
        insert_row(&mut out, x, width);
        proof {
            broadcast use vstd::multiset::group_multiset_axioms;

            assert(out@.to_multiset() == out_before.insert(before.last()));
            assert(before.to_multiset() == rows@.to_multiset().insert(before.last()));
            assert(out@.to_multiset().add(rows@.to_multiset()) =~= orig.to_multiset());
        }
    }
    proof {
        broadcast use vstd::seq_lib::group_to_multiset_ensures;
        broadcast use vstd::multiset::group_multiset_axioms;

        assert(rows@.to_multiset().len() == 0);
        assert(rows@.to_multiset() =~= Multiset::<Vec<String>>::empty());
        assert(out@.to_multiset() =~= orig.to_multiset());
    }
    out
}

/// `row` carries the descriptor tuple `desc` as its leading columns.
pub open spec fn row_matches(row: Seq<Seq<char>>, desc: Seq<Seq<char>>) -> bool {
    desc.len() <= row.len() && row.take(desc.len() as int) == desc
}

fn row_starts_with(row: &Vec<String>, desc: &Vec<String>) -> (r: bool)
    ensures
        r == row_matches(row_view(*row), row_view(*desc)),
{
    let ghost rv = row_view(*row);
    let ghost dv = row_view(*desc);
    if desc.len() > row.len() {
        return false;
    }
    let mut k: usize = 0;
    while k < desc.len()
        invariant
            k <= desc@.len(),
            desc@.len() <= row@.len(),
            rv == row_view(*row),
            dv == row_view(*desc),
            forall|j: int| 0 <= j < k ==> rv[j] == dv[j],
        decreases desc.len() - k,
    {
        if !crate::text::str_eq_str(row[k].as_str(), desc[k].as_str()) {
            proof {
                assert(rv.take(dv.len() as int)[k as int] == rv[k as int]);
            }
            return false;
        }
        k += 1;
    }
    proof {
        assert(rv.take(dv.len() as int) =~~= dv);
    }
    true
}

/// What one row of the updated table may be: a row that carries the
/// descriptor is rebuilt from the descriptor and whatever the conflict
/// resolver kept of the old and new value columns; any other row is kept as
/// it is.
pub open spec fn matched_or_same<F: Fn(&Vec<String>, &Vec<String>) -> Vec<String>>(
    f: F,
    row: Vec<String>,
    desc: &Vec<String>,
    vals: &Vec<String>,
    out_row: Vec<String>,
) -> bool {
    if row_matches(row_view(row), row_view(*desc)) {
        exists|tail: &Vec<String>, kept: Vec<String>|
            tail@ == row@.skip(desc@.len() as int) && #[trigger] call_ensures(
                f,
                (tail, vals),
                kept,
            ) && out_row@ == desc@ + kept@
    } else {
        out_row == row
    }
}

/// The updated table: if some row carries the descriptor, every such row is
/// resolved in place; otherwise the new row is appended at the end.
pub open spec fn updated_rows_ok<F: Fn(&Vec<String>, &Vec<String>) -> Vec<String>>(
    f: F,
    rows: Seq<Vec<String>>,
    desc: &Vec<String>,
    vals: &Vec<String>,
    out: Seq<Vec<String>>,
) -> bool {
    let dv = row_view(*desc);
    if exists|i: int| 0 <= i < rows.len() && row_matches(row_view(#[trigger] rows[i]), dv) {
        out.len() == rows.len() && forall|i: int|
            0 <= i < rows.len() ==> matched_or_same(f, #[trigger] rows[i], desc, vals, out[i])
    } else {
        out.len() == rows.len() + 1 && out.take(rows.len() as int) == rows && out.last()@ == desc@
            + vals@
    }
}

/// How many rows carry the descriptor `desc`.
pub open spec fn count_matches(rs: Seq<Vec<String>>, desc: Seq<Seq<char>>) -> int
    decreases rs.len(),
{
    if rs.len() == 0 {
        0
    } else {
        (if row_matches(row_view(rs.last()), desc) {
            1int
        } else {
            0int
        }) + count_matches(rs.drop_last(), desc)
    }
}

proof fn lemma_count_push(rs: Seq<Vec<String>>, x: Vec<String>, desc: Seq<Seq<char>>)
    ensures
        count_matches(rs.push(x), desc) == count_matches(rs, desc) + (
        if row_matches(row_view(x), desc) {
            1int
        } else {
            0int
        }),
{
    assert(rs.push(x).drop_last() =~= rs);
    assert(rs.push(x).last() == x);
}

proof fn lemma_count_pointwise(
    a: Seq<Vec<String>>,
    b: Seq<Vec<String>>,
    desc: Seq<Seq<char>>,
)
    requires
        a.len() == b.len(),
        forall|i: int|
            0 <= i < a.len() ==> (row_matches(row_view(#[trigger] a[i]), desc) <==> row_matches(
                row_view(b[i]),
                desc,
            )),
    ensures
        count_matches(a, desc) == count_matches(b, desc),
    decreases a.len(),
{
    if a.len() > 0 {
        assert(a.last() == a[a.len() - 1]);
        assert(forall|i: int| 0 <= i < a.len() - 1 ==> #[trigger] a.drop_last()[i] == a[i]);
        assert(forall|i: int| 0 <= i < b.len() - 1 ==> #[trigger] b.drop_last()[i] == b[i]);
        lemma_count_pointwise(a.drop_last(), b.drop_last(), desc);
    }
}

pub proof fn lemma_count_matches_bounds(rs: Seq<Vec<String>>, desc: Seq<Seq<char>>)
    ensures
        0 <= count_matches(rs, desc) <= rs.len(),
        count_matches(rs, desc) > 0 <==> exists|i: int|
            0 <= i < rs.len() && row_matches(row_view(#[trigger] rs[i]), desc),
    decreases rs.len(),
{
    if rs.len() > 0 {
        lemma_count_matches_bounds(rs.drop_last(), desc);
        assert(forall|i: int| 0 <= i < rs.len() - 1 ==> #[trigger] rs.drop_last()[i] == rs[i]);
        assert(rs.last() == rs[rs.len() - 1]);
        if count_matches(rs, desc) > 0 {
            if row_matches(row_view(rs[rs.len() - 1]), desc) {
            } else {
                let w = choose|i: int|
                    0 <= i < rs.drop_last().len() && row_matches(
                        row_view(#[trigger] rs.drop_last()[i]),
                        desc,
                    );
                assert(row_matches(row_view(rs[w]), desc));
            }
        }
        if exists|i: int| 0 <= i < rs.len() && row_matches(row_view(#[trigger] rs[i]), desc) {
            let w = choose|i: int|
                0 <= i < rs.len() && row_matches(row_view(#[trigger] rs[i]), desc);
            if w < rs.len() - 1 {
                assert(row_matches(row_view(rs.drop_last()[w]), desc));
            }
        }
    }
}

/// An updated table holds as many rows for the descriptor as the old one, or
/// exactly one more when the old one held none.
pub proof fn lemma_updated_count<F: Fn(&Vec<String>, &Vec<String>) -> Vec<String>>(
    f: F,
    rows: Seq<Vec<String>>,
    desc: &Vec<String>,
    vals: &Vec<String>,
    out: Seq<Vec<String>>,
)
    requires
        updated_rows_ok(f, rows, desc, vals, out),
    ensures
        count_matches(out, row_view(*desc)) == if count_matches(rows, row_view(*desc)) > 0 {
            count_matches(rows, row_view(*desc))
        } else {
            1int
        },
{
    let dv = row_view(*desc);
    lemma_count_matches_bounds(rows, dv);
    if exists|i: int| 0 <= i < rows.len() && row_matches(row_view(#[trigger] rows[i]), dv) {
        assert forall|i: int| 0 <= i < rows.len() implies (row_matches(
            row_view(#[trigger] rows[i]),
            dv,
        ) <==> row_matches(row_view(out[i]), dv)) by {
            assert(matched_or_same(f, rows[i], desc, vals, out[i]));
            if row_matches(row_view(rows[i]), dv) {
                let (tail, kept): (&Vec<String>, Vec<String>) = choose|
                    tail: &Vec<String>,
                    kept: Vec<String>,
                |
                    tail@ == rows[i]@.skip(desc@.len() as int) && #[trigger] call_ensures(
                        f,
                        (tail, vals),
                        kept,
                    ) && out[i]@ == desc@ + kept@;
                assert(row_view(out[i]).take(dv.len() as int) =~~= dv);
            }
        }
        lemma_count_pointwise(rows, out, dv);
    } else {
        assert(count_matches(rows, dv) == 0);
        assert(out =~= rows.push(out.last()));
        lemma_count_push(rows, out.last(), dv);
        assert(row_view(out.last()).take(dv.len() as int) =~~= dv);
    }
}

/// Writing the same descriptor twice yields exactly one row for it, and the
/// second write adds no row at all: the table is updated in place, never
/// duplicated.
pub proof fn lemma_repeated_write_single_row<
    F: Fn(&Vec<String>, &Vec<String>) -> Vec<String>,
    G: Fn(&Vec<String>, &Vec<String>) -> Vec<String>,
>(
    f: F,
    g: G,
    rows0: Seq<Vec<String>>,
    desc: &Vec<String>,
    vals: &Vec<String>,
    rows1: Seq<Vec<String>>,
    rows2: Seq<Vec<String>>,
)
    requires
        count_matches(rows0, row_view(*desc)) <= 1,
        updated_rows_ok(f, rows0, desc, vals, rows1),
        updated_rows_ok(g, rows1, desc, vals, rows2),
    ensures
        count_matches(rows1, row_view(*desc)) == 1,
        count_matches(rows2, row_view(*desc)) == 1,
        rows2.len() == rows1.len(),
{
    let dv = row_view(*desc);
    lemma_count_matches_bounds(rows0, dv);
    lemma_updated_count(f, rows0, desc, vals, rows1);
    lemma_count_matches_bounds(rows1, dv);
    lemma_updated_count(g, rows1, desc, vals, rows2);
}

fn concat_row(desc: &Vec<String>, tail: Vec<String>) -> (r: Vec<String>)
    ensures
        r@ == desc@ + tail@,
{
    let mut r = desc.clone();
    let mut tail = tail;
    proof {
        assert(r@ =~= desc@);
    }
    r.append(&mut tail);
    r
}

/// Applies one write to the parsed rows: every row carrying the descriptor is
/// resolved against the new value columns, and if none does, the new row is
/// appended.
pub fn update_rows<F: Fn(&Vec<String>, &Vec<String>) -> Vec<String>>(
    rows: Vec<Vec<String>>,
    descriptor_values: &Vec<String>,
    value_values: &Vec<String>,
    on_conflict: &F,
) -> (r: Vec<Vec<String>>)
    requires
        forall|a: &Vec<String>, b: &Vec<String>| #[trigger] call_requires(*on_conflict, (a, b)),
    ensures
        updated_rows_ok(*on_conflict, rows@, descriptor_values, value_values, r@),
{
    let ghost orig = rows@;
    let mut rows = rows;
    let initial_len = rows.len();
    let mut out: Vec<Vec<String>> = Vec::new();
    let mut found = false;
    let mut i: usize = 0;
    while rows.len() > 0
        invariant
            orig.len() == initial_len,
            forall|a: &Vec<String>, b: &Vec<String>| #[trigger] call_requires(
                *on_conflict,
                (a, b),
            ),
            i + rows@.len() == orig.len(),
            i == out@.len(),
            rows@ == orig.skip(i as int),
            found == exists|k: int|
                0 <= k < i && row_matches(
                    row_view(#[trigger] orig[k]),
                    row_view(*descriptor_values),
                ),
            forall|k: int|
                0 <= k < i ==> matched_or_same(
                    *on_conflict,
                    #[trigger] orig[k],
                    descriptor_values,
                    value_values,
                    out@[k],
                ),
        decreases rows@.len(),
    {
        let ghost before = rows@;
        let mut row = rows.remove(0);
        proof {
            assert(before[0] == orig[i as int]) by {
                assert(orig.skip(i as int)[0] == orig[i as int]);
            }
            assert(rows@ =~= orig.skip(i + 1));
        }
        if row_starts_with(&row, descriptor_values) {
            found = true;
            let ghost whole = row@;
            let tail = row.split_off(descriptor_values.len());
            let kept = (on_conflict)(&tail, value_values);
            let new_row = concat_row(descriptor_values, kept);
            out.push(new_row);
            proof {
                assert(matched_or_same(
                    *on_conflict,
                    orig[i as int],
                    descriptor_values,
                    value_values,
                    out@[i as int],
                ));
            }
        } else {
            out.push(row);
        }
        i += 1;
    }
    proof {
        assert(orig.skip(orig.len() as int).len() == 0);
        assert(i == orig.len());
    }
    if !found {
        let vals_copy = value_values.clone();
        proof {
            assert(vals_copy@ =~= value_values@);
        }
        let new_row = concat_row(descriptor_values, vals_copy);
        out.push(new_row);
        proof {
            assert(out@.take(orig.len() as int) =~= out@.drop_last());
            assert(out@.drop_last() =~= orig) by {
                assert(forall|k: int|
                    0 <= k < orig.len() ==> #[trigger] out@.drop_last()[k] == orig[k]) by {
                    assert(forall|k: int|
                        0 <= k < orig.len() ==> matched_or_same(
                            *on_conflict,
                            #[trigger] orig[k],
                            descriptor_values,
                            value_values,
                            out@.drop_last()[k],
                        ));
                }
            }
        }
    }
    out
}


proof fn lemma_updated_widths<F: Fn(&Vec<String>, &Vec<String>) -> Vec<String>>(
    f: F,
    rows: Seq<Vec<String>>,
    desc: &Vec<String>,
    vals: &Vec<String>,
    out: Seq<Vec<String>>,
    width: int,
)
    requires
        updated_rows_ok(f, rows, desc, vals, out),
        width == desc@.len() + vals@.len(),
        forall|a: &Vec<String>, b: &Vec<String>, k: Vec<String>|
            #[trigger] call_ensures(f, (a, b), k) ==> (a@.len() == b@.len() ==> k@.len()
                == b@.len()),
        forall|i: int| 0 <= i < rows.len() ==> (#[trigger] rows[i])@.len() == width,
    ensures
        forall|i: int| 0 <= i < out.len() ==> (#[trigger] out[i])@.len() == width,
{
    let dv = row_view(*desc);
    if exists|i: int| 0 <= i < rows.len() && row_matches(row_view(#[trigger] rows[i]), dv) {
        assert forall|i: int| 0 <= i < out.len() implies (#[trigger] out[i])@.len() == width by {
            assert(matched_or_same(f, rows[i], desc, vals, out[i]));
            if row_matches(row_view(rows[i]), dv) {
                let (tail, kept): (&Vec<String>, Vec<String>) = choose|
                    tail: &Vec<String>,
                    kept: Vec<String>,
                |
                    tail@ == rows[i]@.skip(desc@.len() as int) && #[trigger] call_ensures(
                        f,
                        (tail, vals),
                        kept,
                    ) && out[i]@ == desc@ + kept@;
                assert(tail@.len() == vals@.len());
            }
        }
    } else {
        assert(forall|i: int| 0 <= i < rows.len() ==> #[trigger] out[i] == rows[i]) by {
            assert(forall|i: int|
                0 <= i < rows.len() ==> #[trigger] out.take(rows.len() as int)[i] == out[i]);
        }
    }
}

/// Joins each row's columns with commas, one line per row.
pub fn join_rows(rows: &Vec<Vec<String>>) -> (r: Vec<String>)
    ensures
        r@.len() == rows@.len(),
        forall|i: int|
            0 <= i < rows@.len() ==> (#[trigger] r@[i])@ == char_join(
                row_view(rows@[i]),
                ","@,
            ),
{
    let mut out: Vec<String> = Vec::new();
    let mut i: usize = 0;
    while i < rows.len()
        invariant
            i <= rows@.len(),
            out@.len() == i,
            forall|j: int|
                0 <= j < i ==> (#[trigger] out@[j])@ == char_join(row_view(rows@[j]), ","@),
        decreases rows.len() - i,
    {
        let line = crate::text::join_strs(&rows[i], ",");
        out.push(line);
        i += 1;
    }
    out
}

/// What the updated, re-sorted line set of a result file is: the parsed data
/// rows with one write applied, a permutation of them in order, each joined
/// with commas.
pub open spec fn updated_contents_ok<F: Fn(&Vec<String>, &Vec<String>) -> Vec<String>>(
    f: F,
    old: Seq<char>,
    desc: &Vec<String>,
    vals: &Vec<String>,
    out_lines: Seq<String>,
) -> bool {
    exists|parsed: Seq<Vec<String>>, merged: Seq<Vec<String>>, ordered: Seq<Vec<String>>|
        #![trigger updated_rows_ok(f, parsed, desc, vals, merged), ordered.to_multiset()]
        rows_view(parsed) == parse_data_rows(old) && updated_rows_ok(
            f,
            parsed,
            desc,
            vals,
            merged,
        ) && ordered.to_multiset() == merged.to_multiset() && ordered.len() == merged.len()
            && rows_ordered(ordered) && out_lines.len() == ordered.len() && (forall|i: int|
            0 <= i < out_lines.len() ==> (#[trigger] out_lines[i])@ == char_join(
                row_view(ordered[i]),
                ","@,
            ))
}

/// Applies one write to a result file's contents and yields its new data
/// lines: rows carrying the same descriptor tuple are resolved through
/// `on_conflict`, a missing row is appended, and the rows are re-sorted.
pub fn get_updated_contents<F: Fn(&Vec<String>, &Vec<String>) -> Vec<String>>(
    old_contents: &str,
    descriptor_values: &Vec<String>,
    value_values: &Vec<String>,
    on_conflict: F,
) -> (r: Vec<String>)
    requires
        forall|a: &Vec<String>, b: &Vec<String>| #[trigger] call_requires(on_conflict, (a, b)),
        forall|a: &Vec<String>, b: &Vec<String>, k: Vec<String>|
            #[trigger] call_ensures(on_conflict, (a, b), k) ==> (a@.len() == b@.len() ==> k@.len()
                == b@.len()),
        forall|i: int|
            0 <= i < parse_data_rows(old_contents@).len() ==> (#[trigger] parse_data_rows(
                old_contents@,
            )[i]).len() == descriptor_values@.len() + value_values@.len(),
        descriptor_values@.len() + value_values@.len() <= usize::MAX,
    ensures
        updated_contents_ok(on_conflict, old_contents@, descriptor_values, value_values, r@),
{
    let rows = rows_of_contents(old_contents);
    let width = descriptor_values.len() + value_values.len();
    let ghost parsed = rows@;
    proof {
        assert(forall|i: int| 0 <= i < rows@.len() ==> (#[trigger] rows@[i])@.len() == width) by {
            assert(forall|i: int|
                0 <= i < rows@.len() ==> row_view(#[trigger] rows@[i]).len() == rows@[i]@.len());
            assert(forall|i: int|
                0 <= i < rows@.len() ==> rows_view(rows@)[i] == row_view(#[trigger] rows@[i]));
        }
    }
    let merged = update_rows(rows, descriptor_values, value_values, &on_conflict);
    proof {
        lemma_updated_widths(
            on_conflict,
            parsed,
            descriptor_values,
            value_values,
            merged@,
            width as int,
        );
    }
    let ghost merged_rows = merged@;
    let sorted = sort_rows(merged, width);
    let lines = join_rows(&sorted);
    proof {
        assert(rows_view(parsed) == parse_data_rows(old_contents@));
        assert(updated_contents_ok(
            on_conflict,
            old_contents@,
            descriptor_values,
            value_values,
            lines@,
        )) by {
            assert(rows_view(parsed) == parse_data_rows(old_contents@) && updated_rows_ok(
                on_conflict,
                parsed,
                descriptor_values,
                value_values,
                merged_rows,
            ) && sorted@.to_multiset() == merged_rows.to_multiset() && sorted@.len()
                == merged_rows.len() && rows_ordered(sorted@) && lines@.len() == sorted@.len()
                && (forall|i: int|
                0 <= i < lines@.len() ==> (#[trigger] lines@[i])@ == char_join(
                    row_view(sorted@[i]),
                    ","@,
                )));
        }
    }
    lines
}

/// Everything after the header of a rendered result file: each line followed
/// by a newline.
pub open spec fn lines_blob(lines: Seq<Seq<char>>) -> Seq<char>
    decreases lines.len(),
{
    if lines.len() == 0 {
        Seq::empty()
    } else {
        lines_blob(lines.drop_last()) + lines.last() + seq!['\n']
    }
}

/// The first components of the pairs, the column names of a result file.
pub open spec fn pair_keys(ps: Seq<(String, String)>) -> Seq<Seq<char>> {
    ps.map_values(|p: (String, String)| p.0@)
}

fn pair_firsts(pairs: &Vec<(String, String)>) -> (r: Vec<String>)
    ensures
        r@.len() == pairs@.len(),
        forall|i: int| 0 <= i < pairs@.len() ==> #[trigger] r@[i] == pairs@[i].0,
{
    let mut out: Vec<String> = Vec::new();
    let mut i: usize = 0;
    while i < pairs.len()
        invariant
            i <= pairs@.len(),
            out@.len() == i,
            forall|j: int| 0 <= j < i ==> #[trigger] out@[j] == pairs@[j].0,
        decreases pairs.len() - i,
    {
        out.push(pairs[i].0.clone());
        i += 1;
    }
    out
}

fn pair_seconds(pairs: &Vec<(String, String)>) -> (r: Vec<String>)
    ensures
        r@.len() == pairs@.len(),
        forall|i: int| 0 <= i < pairs@.len() ==> #[trigger] r@[i] == pairs@[i].1,
{
    let mut out: Vec<String> = Vec::new();
    let mut i: usize = 0;
    while i < pairs.len()
        invariant
            i <= pairs@.len(),
            out@.len() == i,
            forall|j: int| 0 <= j < i ==> #[trigger] out@[j] == pairs@[j].1,
        decreases pairs.len() - i,
    {
        out.push(pairs[i].1.clone());
        i += 1;
    }
    out
}

/// The full new contents of a result file after one write: a header line of
/// the comma-joined column names, then the updated, re-sorted data lines,
/// each ended by a newline.
pub fn write_result_contents<F: Fn(&Vec<String>, &Vec<String>) -> Vec<String>>(
    old_contents: &str,
    descriptors: &Vec<(String, String)>,
    values: &Vec<(String, String)>,
    on_conflict: F,
) -> (r: String)
    requires
        forall|a: &Vec<String>, b: &Vec<String>| #[trigger] call_requires(on_conflict, (a, b)),
        forall|a: &Vec<String>, b: &Vec<String>, k: Vec<String>|
            #[trigger] call_ensures(on_conflict, (a, b), k) ==> (a@.len() == b@.len() ==> k@.len()
                == b@.len()),
        forall|i: int|
            0 <= i < parse_data_rows(old_contents@).len() ==> (#[trigger] parse_data_rows(
                old_contents@,
            )[i]).len() == descriptors@.len() + values@.len(),
        descriptors@.len() + values@.len() <= usize::MAX,
    ensures
        exists|desc_vals: Vec<String>, val_vals: Vec<String>, lines: Vec<String>|
            desc_vals@ == descriptors@.map_values(|p: (String, String)| p.1) && val_vals@
                == values@.map_values(|p: (String, String)| p.1) && #[trigger] updated_contents_ok(
                on_conflict,
                old_contents@,
                &desc_vals,
                &val_vals,
                lines@,
            ) && r@ == char_join(pair_keys(descriptors@) + pair_keys(values@), ","@)
                + seq!['\n'] + lines_blob(lines@.map_values(|l: String| l@)),
{
    let mut keys = pair_firsts(descriptors);
    let mut val_keys = pair_firsts(values);
    keys.append(&mut val_keys);
    proof {
        assert(keys@.map_values(|p: String| p@) =~~= pair_keys(descriptors@) + pair_keys(
            values@,
        ));
    }
    let header = crate::text::join_strs(&keys, ",");
    let desc_vals = pair_seconds(descriptors);
    let val_vals = pair_seconds(values);
    proof {
        assert(desc_vals@ =~= descriptors@.map_values(|p: (String, String)| p.1));
        assert(val_vals@ =~= values@.map_values(|p: (String, String)| p.1));
        assert(desc_vals@.len() + val_vals@.len() <= usize::MAX);
    }
    let lines = get_updated_contents(old_contents, &desc_vals, &val_vals, on_conflict);
    let mut out = header;
    out.append("\n");
    let mut i: usize = 0;
    let ghost line_views = lines@.map_values(|l: String| l@);
    proof {
        reveal_strlit("\n");
        assert(lines_blob(line_views.take(0)) =~= Seq::<char>::empty());
        assert(out@ =~= char_join(pair_keys(descriptors@) + pair_keys(values@), ","@)
            + seq!['\n'] + lines_blob(line_views.take(0)));
    }
    while i < lines.len()
        invariant
            i <= lines@.len(),
            line_views == lines@.map_values(|l: String| l@),
            out@ == char_join(pair_keys(descriptors@) + pair_keys(values@), ","@) + seq!['\n']
                + lines_blob(line_views.take(i as int)),
        decreases lines.len() - i,
    {
        out.append(lines[i].as_str());
        out.append("\n");
        proof {
            assert(line_views.take(i + 1).drop_last() =~= line_views.take(i as int));
            assert(line_views.take(i + 1).last() == line_views[i as int]);
            reveal_strlit("\n");
        }
        i += 1;
    }
    proof {
        assert(line_views.take(lines@.len() as int) =~= line_views);
    }
    out
}


} // verus!

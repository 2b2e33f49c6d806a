//! The catalog of already persisted results: which language versions and
//! framework versions each benchmarked variant already has rows for, read
//! back from the result files so finished combinations can be skipped.

use crate::text::{char_split, str_views, trim_spaces};
use vstd::prelude::*;

verus! {

/// The versions one benchmarked variant already has results for.
pub struct ExistingResult {
    pub language: String,
    /// A framework or platform, such as the variant directory's name.
    pub variant: String,
    /// Distinct language versions with persisted results.
    pub language_versions: Vec<String>,
    /// Distinct framework versions with persisted results (web mode only).
    pub framework_versions: Vec<String>,
}

/// The catalogs of both modes: language, then variant, to its versions.
pub struct ResultMap {
    pub computation: Vec<(String, Vec<(String, ExistingResult)>)>,
    pub web: Vec<(String, Vec<(String, ExistingResult)>)>,
}

/// Where a result file keeps its columns: the directory column holding
/// `language/variant`, the language-version column, and the
/// framework-version column where the mode has one.
pub struct CsvStructure {
    pub dir: usize,
    pub language_version: usize,
    pub framework_version: Option<usize>,
}

/// Whether one of the strings is `item`.
pub fn set_contains(set: &Vec<String>, item: &str) -> (r: bool)
    ensures
        r == str_views(set@).contains(item@),
{
    let ghost sv = str_views(set@);
    let mut i: usize = 0;
    while i < set.len()
        invariant
            i <= set@.len(),
            sv == str_views(set@),
            forall|j: int| 0 <= j < i ==> sv[j] != item@,
        decreases set.len() - i,
    {
        if crate::text::str_eq_str(set[i].as_str(), item) {
            proof {
                assert(sv[i as int] == item@);
            }
            return true;
        }
        i += 1;
    }
    proof {
        if sv.contains(item@) {
            let j = choose|j: int| 0 <= j < sv.len() && sv[j] == item@;
        }
    }
    false
}

/// The view of one catalog entry: language, variant, and the two version
/// lists.
pub open spec fn er_view(e: ExistingResult) -> (Seq<char>, Seq<char>, Seq<Seq<char>>, Seq<
    Seq<char>,
>) {
    (e.language@, e.variant@, str_views(e.language_versions@), str_views(e.framework_versions@))
}

pub open spec fn acc_view(a: Seq<ExistingResult>) -> Seq<
    (Seq<char>, Seq<char>, Seq<Seq<char>>, Seq<Seq<char>>),
> {
    a.map_values(|e: ExistingResult| er_view(e))
}

/// The data rows a catalog read keeps: every line after the header whose
/// trimmed text is non-empty and splits into more columns than the
/// directory index.
pub open spec fn catalog_rows(lines: Seq<Seq<char>>, dir: int) -> Seq<Seq<Seq<char>>>
    decreases lines.len(),
{
    if lines.len() == 0 {
        Seq::empty()
    } else {
        let rest = catalog_rows(lines.drop_last(), dir);
        let t = trim_spaces(lines.last());
        if t.len() == 0 {
            rest
        } else {
            let cols = char_split(t, ',');
            if cols.len() <= dir {
                rest
            } else {
                rest.push(cols)
            }
        }
    }
}

/// Position of the entry for `(lang, variant)`, or -1.
pub open spec fn find_entry(
    a: Seq<(Seq<char>, Seq<char>, Seq<Seq<char>>, Seq<Seq<char>>)>,
    lang: Seq<char>,
    variant: Seq<char>,
) -> int
    decreases a.len(),
{
    if a.len() == 0 {
        -1
    } else if a[0].0 == lang && a[0].1 == variant {
        0
    } else {
        let r = find_entry(a.drop_first(), lang, variant);
        if r < 0 {
            -1
        } else {
            r + 1
        }
    }
}

/// `x` appended unless already present.
pub open spec fn push_unique(vs: Seq<Seq<char>>, x: Seq<char>) -> Seq<Seq<char>> {
    if vs.contains(x) {
        vs
    } else {
        vs.push(x)
    }
}

/// One row folded into the accumulated catalog entries: the row's
/// language/variant pair gains the row's language version and, where the
/// file has one, its framework version.
pub open spec fn step_acc(
    a: Seq<(Seq<char>, Seq<char>, Seq<Seq<char>>, Seq<Seq<char>>)>,
    cols: Seq<Seq<char>>,
    dir: int,
    lvi: int,
    fvi: Option<int>,
) -> Seq<(Seq<char>, Seq<char>, Seq<Seq<char>>, Seq<Seq<char>>)> {
    let parts = char_split(cols[dir], '/');
    let lang = parts[0];
    let variant = parts[1];
    let lv = cols[lvi];
    let fvs_new = match fvi {
        Some(f) => seq![cols[f]],
        None => Seq::empty(),
    };
    let i = find_entry(a, lang, variant);
    if i < 0 {
        a.push((lang, variant, seq![lv], fvs_new))
    } else {
        let e = a[i];
        a.update(
            i,
            (
                lang,
                variant,
                push_unique(e.2, lv),
                match fvi {
                    Some(f) => push_unique(e.3, cols[f]),
                    None => e.3,
                },
            ),
        )
    }
}

/// All rows folded in order.
pub open spec fn apply_rows(
    a: Seq<(Seq<char>, Seq<char>, Seq<Seq<char>>, Seq<Seq<char>>)>,
    rows: Seq<Seq<Seq<char>>>,
    dir: int,
    lvi: int,
    fvi: Option<int>,
) -> Seq<(Seq<char>, Seq<char>, Seq<Seq<char>>, Seq<Seq<char>>)>
    decreases rows.len(),
{
    if rows.len() == 0 {
        a
    } else {
        step_acc(apply_rows(a, rows.drop_last(), dir, lvi, fvi), rows.last(), dir, lvi, fvi)
    }
}

/// A row is well formed for the catalog: its directory column splits into
/// exactly `language/variant`, and the version columns exist.
pub open spec fn row_ok(cols: Seq<Seq<char>>, dir: int, lvi: int, fvi: Option<int>) -> bool {
    0 <= dir < cols.len() && char_split(cols[dir], '/').len() == 2 && 0 <= lvi < cols.len() && (
    match fvi {
        Some(f) => 0 <= f < cols.len(),
        None => true,
    })
}

/// The catalog as nested views: language to variant to entry.
pub open spec fn catalog_view(m: Seq<(String, Vec<(String, ExistingResult)>)>) -> Seq<
    (Seq<char>, Seq<(Seq<char>, (Seq<char>, Seq<char>, Seq<Seq<char>>, Seq<Seq<char>>))>),
> {
    m.map_values(
        |p: (String, Vec<(String, ExistingResult)>)|
            (
                p.0@,
                p.1@.map_values(
                    |q: (String, ExistingResult)| (q.0@, er_view(q.1)),
                ),
            ),
    )
}

/// Position of `key` in the outer or inner association list, or -1.
pub open spec fn find_key<V>(m: Seq<(Seq<char>, V)>, key: Seq<char>) -> int
    decreases m.len(),
{
    if m.len() == 0 {
        -1
    } else if m[0].0 == key {
        0
    } else {
        let r = find_key(m.drop_first(), key);
        if r < 0 {
            -1
        } else {
            r + 1
        }
    }
}

/// One accumulated entry written into the catalog: the entry replaces the
/// variant's previous entry, or is inserted under its language.
pub open spec fn write_entry(
    m: Seq<(Seq<char>, Seq<(Seq<char>, (Seq<char>, Seq<char>, Seq<Seq<char>>, Seq<Seq<char>>))>)>,
    e: (Seq<char>, Seq<char>, Seq<Seq<char>>, Seq<Seq<char>>),
) -> Seq<(Seq<char>, Seq<(Seq<char>, (Seq<char>, Seq<char>, Seq<Seq<char>>, Seq<Seq<char>>))>)> {
    let i = find_key(m, e.0);
    if i < 0 {
        m.push((e.0, seq![(e.1, e)]))
    } else {
        let inner = m[i].1;
        let j = find_key(inner, e.1);
        if j < 0 {
            m.update(i, (m[i].0, inner.push((e.1, e))))
        } else {
            m.update(i, (m[i].0, inner.update(j, (e.1, e))))
        }
    }
}

/// All accumulated entries written in order.
pub open spec fn write_all(
    m: Seq<(Seq<char>, Seq<(Seq<char>, (Seq<char>, Seq<char>, Seq<Seq<char>>, Seq<Seq<char>>))>)>,
    acc: Seq<(Seq<char>, Seq<char>, Seq<Seq<char>>, Seq<Seq<char>>)>,
) -> Seq<(Seq<char>, Seq<(Seq<char>, (Seq<char>, Seq<char>, Seq<Seq<char>>, Seq<Seq<char>>))>)>
    decreases acc.len(),
{
    if acc.len() == 0 {
        m
    } else {
        write_entry(write_all(m, acc.drop_last()), acc.last())
    }
}

/// What a catalog read of `content` yields, folded over `map0`.
pub open spec fn catalog_after(
    map0: Seq<(Seq<char>, Seq<(Seq<char>, (Seq<char>, Seq<char>, Seq<Seq<char>>, Seq<Seq<char>>))>)>,
    content: Seq<char>,
    dir: int,
    lvi: int,
    fvi: Option<int>,
) -> Seq<(Seq<char>, Seq<(Seq<char>, (Seq<char>, Seq<char>, Seq<Seq<char>>, Seq<Seq<char>>))>)> {
    let rows = catalog_rows(char_split(content, '\n').skip(1), dir);
    write_all(map0, apply_rows(Seq::empty(), rows, dir, lvi, fvi))
}

proof fn lemma_find_entry_at(
    a: Seq<(Seq<char>, Seq<char>, Seq<Seq<char>>, Seq<Seq<char>>)>,
    lang: Seq<char>,
    variant: Seq<char>,
    i: int,
)
    requires
        0 <= i <= a.len(),
        forall|k: int| 0 <= k < i ==> !((#[trigger] a[k]).0 == lang && a[k].1 == variant),
        i < a.len() ==> a[i].0 == lang && a[i].1 == variant,
    ensures
        find_entry(a, lang, variant) == if i < a.len() {
            i
        } else {
            -1
        },
    decreases i,
{
    if a.len() > 0 && i > 0 {
        assert(a.drop_first() =~~= a.skip(1));
        lemma_find_entry_at(a.skip(1), lang, variant, i - 1);
    }
}

proof fn lemma_find_key_at<V>(m: Seq<(Seq<char>, V)>, key: Seq<char>, i: int)
    requires
        0 <= i <= m.len(),
        forall|k: int| 0 <= k < i ==> (#[trigger] m[k]).0 != key,
        i < m.len() ==> m[i].0 == key,
    ensures
        find_key(m, key) == if i < m.len() {
            i
        } else {
            -1
        },
    decreases i,
{
    if m.len() > 0 && i > 0 {
        assert(m.drop_first() =~~= m.skip(1));
        lemma_find_key_at(m.skip(1), key, i - 1);
    }
}

fn find_entry_exec(acc: &Vec<ExistingResult>, lang: &str, variant: &str) -> (r: Option<usize>)
    ensures
        match r {
            Some(i) => i < acc@.len() && find_entry(acc_view(acc@), lang@, variant@) == i as int,
            None => find_entry(acc_view(acc@), lang@, variant@) == -1,
        },
{
    let ghost av = acc_view(acc@);
    let mut i: usize = 0;
    while i < acc.len()
        invariant
            i <= acc@.len(),
            av == acc_view(acc@),
            forall|k: int| 0 <= k < i ==> !((#[trigger] av[k]).0 == lang@ && av[k].1 == variant@),
        decreases acc.len() - i,
    {
        if crate::text::str_eq_str(acc[i].language.as_str(), lang) && crate::text::str_eq_str(
            acc[i].variant.as_str(),
            variant,
        ) {
            proof {
                assert(av[i as int].0 == lang@ && av[i as int].1 == variant@);
                lemma_find_entry_at(av, lang@, variant@, i as int);
            }
            return Some(i);
        }
        proof {
            assert(av[i as int] == er_view(acc@[i as int]));
        }
        i += 1;
    }
    proof {
        lemma_find_entry_at(av, lang@, variant@, acc@.len() as int);
    }
    None
}

fn push_unique_exec(vs: &mut Vec<String>, x: &str)
    ensures
        str_views(final(vs)@) == push_unique(str_views(old(vs)@), x@),
{
    if !set_contains(vs, x) {
        let ghost before = str_views(vs@);
        vs.push(crate::text::copy_str(x));
        proof {
            assert(str_views(vs@) =~~= before.push(x@));
        }
    }
}

/// Folds one well-formed row into the accumulated entries.
fn apply_row(acc: &mut Vec<ExistingResult>, cols: &Vec<String>, st: &CsvStructure)
    requires
        row_ok(
            str_views(cols@),
            st.dir as int,
            st.language_version as int,
            match st.framework_version {
                Some(f) => Some(f as int),
                None => None,
            },
        ),
    ensures
        acc_view(final(acc)@) == step_acc(
            acc_view(old(acc)@),
            str_views(cols@),
            st.dir as int,
            st.language_version as int,
            match st.framework_version {
                Some(f) => Some(f as int),
                None => None,
            },
        ),
{
    let ghost cv = str_views(cols@);
    let ghost fvi: Option<int> = match st.framework_version {
        Some(f) => Some(f as int),
        None => None,
    };
    let parts = crate::text::split_str(cols[st.dir].as_str(), '/');
    proof {
        assert(char_split(cv[st.dir as int], '/').len() == 2);
        assert(parts@.map_values(|p: String| p@) == char_split(cv[st.dir as int], '/'));
    }
    let lang = &parts[0];
    let variant = &parts[1];
    let lv = &cols[st.language_version];
    proof {
        assert(lang@ == char_split(cv[st.dir as int], '/')[0]);
        assert(variant@ == char_split(cv[st.dir as int], '/')[1]);
        assert(lv@ == cv[st.language_version as int]);
    }
    match find_entry_exec(acc, lang.as_str(), variant.as_str()) {
        None => {
            let mut lvs: Vec<String> = Vec::new();
            lvs.push(lv.clone());
            let mut fvs: Vec<String> = Vec::new();
            if let Some(f) = st.framework_version {
                fvs.push(cols[f].clone());
            }
            let ghost before = acc_view(acc@);
            acc.push(
                ExistingResult {
                    language: crate::text::copy_str(lang.as_str()),
                    variant: crate::text::copy_str(variant.as_str()),
                    language_versions: lvs,
                    framework_versions: fvs,
                },
            );
            proof {
                assert(str_views(acc@.last().language_versions@) =~~= seq![
                    cv[st.language_version as int],
                ]);
                match fvi {
                    Some(f) => {
                        assert(str_views(acc@.last().framework_versions@) =~~= seq![cv[f]]);
                    },
                    None => {
                        assert(str_views(acc@.last().framework_versions@)
                            =~~= Seq::<Seq<char>>::empty());
                    },
                }
                assert(acc_view(acc@) =~~= step_acc(
                    before,
                    cv,
                    st.dir as int,
                    st.language_version as int,
                    fvi,
                ));
            }
        },
        Some(i) => {
            let ghost before = acc_view(acc@);
            let mut lvs = acc[i].language_versions.clone();
            proof {
                assert(str_views(lvs@) =~~= str_views(acc@[i as int].language_versions@));
            }
            push_unique_exec(&mut lvs, lv.as_str());
            let mut fvs = acc[i].framework_versions.clone();
            proof {
                assert(str_views(fvs@) =~~= str_views(acc@[i as int].framework_versions@));
            }
            if let Some(f) = st.framework_version {
                push_unique_exec(&mut fvs, cols[f].as_str());
            }
            let entry = ExistingResult {
                language: crate::text::copy_str(lang.as_str()),
                variant: crate::text::copy_str(variant.as_str()),
                language_versions: lvs,
                framework_versions: fvs,
            };
            acc.set(i, entry);
            proof {
                assert(acc_view(acc@) =~~= step_acc(
                    before,
                    cv,
                    st.dir as int,
                    st.language_version as int,
                    fvi,
                ));
            }
        },
    }
}

/// The trimmed, non-empty, wide-enough rows of the content after its header
/// line.
fn collect_rows(csv_content: &str, dir: usize) -> (r: Vec<Vec<String>>)
    ensures
        crate::result_table::rows_view(r@) == catalog_rows(
            char_split(csv_content@, '\n').skip(1),
            dir as int,
        ),
{
    let raw_lines = crate::text::split_str(csv_content, '\n');
    let ghost all_lines = raw_lines@.map_values(|l: String| l@);
    let ghost data_lines = all_lines.skip(1);
    let mut rows: Vec<Vec<String>> = Vec::new();
    let mut i: usize = 1;
    proof {
        assert(catalog_rows(data_lines.take(0), dir as int) =~~= Seq::<Seq<Seq<char>>>::empty());
        assert(crate::result_table::rows_view(rows@) =~~= catalog_rows(
            data_lines.take(0),
            dir as int,
        ));
    }
    while i < raw_lines.len()
        invariant
            1 <= i,
            i <= raw_lines@.len() || (raw_lines@.len() == 0 && i == 1),
            all_lines == raw_lines@.map_values(|l: String| l@),
            data_lines == all_lines.skip(1),
            crate::result_table::rows_view(rows@) == catalog_rows(
                data_lines.take(i - 1),
                dir as int,
            ),
        decreases raw_lines.len() - i,
    {
        proof {
            assert(data_lines.take(i as int).drop_last() =~~= data_lines.take(i - 1));
            assert(data_lines.take(i as int).last() == all_lines[i as int]);
        }
        let trimmed = crate::text::trim_str(raw_lines[i].as_str());
        if trimmed.as_str().unicode_len() > 0 {
            let cols = crate::text::split_str(trimmed.as_str(), ',');
            if cols.len() > dir {
                let ghost before = crate::result_table::rows_view(rows@);
                rows.push(cols);
                proof {
                    assert(crate::result_table::rows_view(rows@) =~~= before.push(
                        char_split(trim_spaces(all_lines[i as int]), ','),
                    ));
                }
            }
        }
        i += 1;
    }
    proof {
        if raw_lines@.len() == 0 {
            assert(data_lines =~~= Seq::<Seq<char>>::empty());
            assert(data_lines.take(0) =~~= data_lines);
        } else {
            assert(data_lines.take(raw_lines@.len() - 1) =~~= data_lines);
        }
    }
    rows
}

fn find_key_outer(m: &Vec<(String, Vec<(String, ExistingResult)>)>, key: &str) -> (r: Option<
    usize,
>)
    ensures
        match r {
            Some(i) => i < m@.len() && find_key(catalog_view(m@), key@) == i as int,
            None => find_key(catalog_view(m@), key@) == -1,
        },
{
    let ghost mv = catalog_view(m@);
    let mut i: usize = 0;
    while i < m.len()
        invariant
            i <= m@.len(),
            mv == catalog_view(m@),
            forall|k: int| 0 <= k < i ==> (#[trigger] mv[k]).0 != key@,
        decreases m.len() - i,
    {
        if crate::text::str_eq_str(m[i].0.as_str(), key) {
            proof {
                assert(mv[i as int].0 == key@);
                lemma_find_key_at(mv, key@, i as int);
            }
            return Some(i);
        }
        proof {
            assert(mv[i as int].0 == m@[i as int].0@);
        }
        i += 1;
    }
    proof {
        lemma_find_key_at(mv, key@, m@.len() as int);
    }
    None
}

fn find_key_inner(m: &Vec<(String, ExistingResult)>, key: &str) -> (r: Option<usize>)
    ensures
        match r {
            Some(i) => i < m@.len() && find_key(
                m@.map_values(|q: (String, ExistingResult)| (q.0@, er_view(q.1))),
                key@,
            ) == i as int,
            None => find_key(
                m@.map_values(|q: (String, ExistingResult)| (q.0@, er_view(q.1))),
                key@,
            ) == -1,
        },
{
    let ghost mv = m@.map_values(|q: (String, ExistingResult)| (q.0@, er_view(q.1)));
    let mut i: usize = 0;
    while i < m.len()
        invariant
            i <= m@.len(),
            mv == m@.map_values(|q: (String, ExistingResult)| (q.0@, er_view(q.1))),
            forall|k: int| 0 <= k < i ==> (#[trigger] mv[k]).0 != key@,
        decreases m.len() - i,
    {
        if crate::text::str_eq_str(m[i].0.as_str(), key) {
            proof {
                assert(mv[i as int].0 == key@);
                lemma_find_key_at(mv, key@, i as int);
            }
            return Some(i);
        }
        proof {
            assert(mv[i as int].0 == m@[i as int].0@);
        }
        i += 1;
    }
    proof {
        lemma_find_key_at(mv, key@, m@.len() as int);
    }
    None
}

/// Writes one accumulated entry into the catalog, replacing the variant's
/// previous entry or inserting a new one under its language.
fn write_entry_exec(map: &mut Vec<(String, Vec<(String, ExistingResult)>)>, e: ExistingResult)
    ensures
        catalog_view(final(map)@) == write_entry(catalog_view(old(map)@), er_view(e)),
{
    let ghost before = catalog_view(map@);
    let lang = crate::text::copy_str(e.language.as_str());
    let variant = crate::text::copy_str(e.variant.as_str());
    match find_key_outer(map, lang.as_str()) {
        None => {
            let mut inner: Vec<(String, ExistingResult)> = Vec::new();
            inner.push((variant, e));
            map.push((lang, inner));
            proof {
                assert(catalog_view(map@) =~~= write_entry(before, er_view(e)));
            }
        },
        Some(i) => {
            let ghost inner_view = before[i as int].1;
            let mut pair = (String::new(), Vec::<(String, ExistingResult)>::new());
            map.set_and_swap(i, &mut pair);
            let (old_lang, mut inner) = pair;
            proof {
                assert(inner@.map_values(|q: (String, ExistingResult)| (q.0@, er_view(q.1)))
                    == inner_view);
            }
            match find_key_inner(&inner, variant.as_str()) {
                None => {
                    inner.push((variant, e));
                    proof {
                        assert(inner@.map_values(
                            |q: (String, ExistingResult)| (q.0@, er_view(q.1)),
                        ) =~~= inner_view.push((er_view(e).1, er_view(e))));
                    }
                },
                Some(j) => {
                    inner.set(j, (variant, e));
                    proof {
                        assert(inner@.map_values(
                            |q: (String, ExistingResult)| (q.0@, er_view(q.1)),
                        ) =~~= inner_view.update(j as int, (er_view(e).1, er_view(e))));
                    }
                },
            }
            map.set(i, (old_lang, inner));
            proof {
                assert(catalog_view(map@) =~~= write_entry(before, er_view(e)));
            }
        },
    }
}

/// Reads the data rows of one result file's contents into the catalog:
/// every `language/variant` pair named by a row ends up with the distinct
/// language versions (and framework versions, where the file has that
/// column) of its rows, replacing whatever entry the pair had before.
pub fn read_from_csv_content(
    csv_content: &str,
    csv_structure: CsvStructure,
    map: &mut Vec<(String, Vec<(String, ExistingResult)>)>,
)
    requires
        ({
            let rows = catalog_rows(
                char_split(csv_content@, '\n').skip(1),
                csv_structure.dir as int,
            );
            forall|i: int|
                0 <= i < rows.len() ==> row_ok(
                    #[trigger] rows[i],
                    csv_structure.dir as int,
                    csv_structure.language_version as int,
                    match csv_structure.framework_version {
                        Some(f) => Some(f as int),
                        None => None,
                    },
                )
        }),
    ensures
        catalog_view(final(map)@) == catalog_after(
            catalog_view(old(map)@),
            csv_content@,
            csv_structure.dir as int,
            csv_structure.language_version as int,
            match csv_structure.framework_version {
                Some(f) => Some(f as int),
                None => None,
            },
        ),
{
    let ghost fvi: Option<int> = match csv_structure.framework_version {
        Some(f) => Some(f as int),
        None => None,
    };
    let ghost spec_rows = catalog_rows(
        char_split(csv_content@, '\n').skip(1),
        csv_structure.dir as int,
    );
    let rows = collect_rows(csv_content, csv_structure.dir);
    let mut acc: Vec<ExistingResult> = Vec::new();
    let mut i: usize = 0;
    proof {
        assert(acc_view(acc@) =~~= apply_rows(
            Seq::empty(),
            spec_rows.take(0),
            csv_structure.dir as int,
            csv_structure.language_version as int,
            fvi,
        ));
    }
    while i < rows.len()
        invariant
            i <= rows@.len(),
            crate::result_table::rows_view(rows@) == spec_rows,
            spec_rows == catalog_rows(
                char_split(csv_content@, '\n').skip(1),
                csv_structure.dir as int,
            ),
            forall|k: int|
                0 <= k < spec_rows.len() ==> row_ok(
                    #[trigger] spec_rows[k],
                    csv_structure.dir as int,
                    csv_structure.language_version as int,
                    fvi,
                ),
            fvi == (match csv_structure.framework_version {
                Some(f) => Some(f as int),
                None => None,
            }),
            acc_view(acc@) == apply_rows(
                Seq::empty(),
                spec_rows.take(i as int),
                csv_structure.dir as int,
                csv_structure.language_version as int,
                fvi,
            ),
        decreases rows.len() - i,
    {
        proof {
            assert(spec_rows.take(i + 1).drop_last() =~~= spec_rows.take(i as int));
            assert(spec_rows.take(i + 1).last() == spec_rows[i as int]);
            assert(crate::result_table::row_view(rows@[i as int]) == spec_rows[i as int]);
            assert(str_views(rows@[i as int]@) == spec_rows[i as int]);
        }
        apply_row(&mut acc, &rows[i], &csv_structure);
        i += 1;
    }
    proof {
        assert(spec_rows.take(rows@.len() as int) =~~= spec_rows);
    }
    let ghost final_acc = acc_view(acc@);
    let mut k: usize = 0;
    let ghost map0 = catalog_view(map@);
    let mut acc = acc;
    let acc_len = acc.len();
    proof {
        assert(final_acc.take(0) =~~= Seq::empty());
        assert(catalog_view(map@) =~~= write_all(map0, final_acc.take(0)));
    }
    while k < acc_len
        invariant
            k <= acc_len,
            acc_len == acc@.len() + k,
            final_acc.len() == acc_len,
            acc_view(acc@) == final_acc.skip(k as int),
            catalog_view(map@) == write_all(map0, final_acc.take(k as int)),
        decreases acc_len - k,
    {
        let ghost before_remove = acc_view(acc@);
        let ghost before_vec = acc@;
        let e = acc.remove(0);
        proof {
            assert(er_view(e) == final_acc[k as int]) by {
                assert(before_remove[0] == final_acc.skip(k as int)[0]);
            }
            assert(forall|m: int| 0 <= m < acc@.len() ==> #[trigger] acc@[m] == before_vec[m + 1]);
            assert forall|m: int| 0 <= m < acc@.len() implies #[trigger] acc_view(acc@)[m]
                == final_acc.skip(k + 1)[m] by {
                assert(acc_view(before_vec)[m + 1] == er_view(before_vec[m + 1]));
                assert(acc_view(before_vec)[m + 1] == final_acc.skip(k as int)[m + 1]);
            }
            assert(acc_view(acc@) =~~= final_acc.skip(k + 1));
            assert(final_acc.take(k + 1).drop_last() =~~= final_acc.take(k as int));
            assert(final_acc.take(k + 1).last() == final_acc[k as int]);
        }
        write_entry_exec(map, e);
        k += 1;
    }
    proof {
        assert(final_acc.take(acc_len as int) =~~= final_acc);
    }
}

/// Looks a language up in one catalog.
pub fn catalog_get<'a>(
    m: &'a Vec<(String, Vec<(String, ExistingResult)>)>,
    key: &str,
) -> (r: Option<&'a Vec<(String, ExistingResult)>>)
    ensures
        match r {
            Some(inner) => find_key(catalog_view(m@), key@) >= 0 && inner@.map_values(
                |q: (String, ExistingResult)| (q.0@, er_view(q.1)),
            ) == catalog_view(m@)[find_key(catalog_view(m@), key@)].1,
            None => find_key(catalog_view(m@), key@) == -1,
        },
{
    match find_key_outer(m, key) {
        Some(i) => Some(&m[i].1),
        None => None,
    }
}

/// Looks a variant up in a language's entries.
pub fn variant_get<'a>(m: &'a Vec<(String, ExistingResult)>, key: &str) -> (r: Option<
    &'a ExistingResult,
>)
    ensures
        ({
            let mv = m@.map_values(|q: (String, ExistingResult)| (q.0@, er_view(q.1)));
            match r {
                Some(e) => find_key(mv, key@) >= 0 && er_view(*e) == mv[find_key(mv, key@)].1,
                None => find_key(mv, key@) == -1,
            }
        }),
{
    match find_key_inner(m, key) {
        Some(i) => Some(&m[i].1),
        None => None,
    }
}

/// Reads both result files' contents back into one catalog: the
/// computation file with its four descriptor columns, the web file with its
/// ten.
pub fn read_existing_result_map(computation_csv: &str, web_csv: &str) -> (r: ResultMap)
    requires
        ({
            let rows = catalog_rows(char_split(computation_csv@, '\n').skip(1), 3);
            forall|i: int| 0 <= i < rows.len() ==> row_ok(#[trigger] rows[i], 3, 2, None)
        }),
        ({
            let rows = catalog_rows(char_split(web_csv@, '\n').skip(1), 9);
            forall|i: int| 0 <= i < rows.len() ==> row_ok(#[trigger] rows[i], 9, 2, Some(7int))
        }),
    ensures
        catalog_view(r.computation@) == catalog_after(Seq::empty(), computation_csv@, 3, 2, None),
        catalog_view(r.web@) == catalog_after(Seq::empty(), web_csv@, 9, 2, Some(7int)),
{
    let mut computation: Vec<(String, Vec<(String, ExistingResult)>)> = Vec::new();
    let mut web: Vec<(String, Vec<(String, ExistingResult)>)> = Vec::new();
    proof {
        assert(catalog_view(computation@) =~~= Seq::empty());
        assert(catalog_view(web@) =~~= Seq::empty());
    }
    read_from_csv_content(
        computation_csv,
        CsvStructure { dir: 3, language_version: 2, framework_version: None },
        &mut computation,
    );
    read_from_csv_content(
        web_csv,
        CsvStructure { dir: 9, language_version: 2, framework_version: Some(7) },
        &mut web,
    );
    ResultMap { computation, web }
}

impl Default for ResultMap {
    /// An empty catalog: nothing is skipped.
    fn default() -> (r: ResultMap)
        ensures
            r.computation@.len() == 0,
            r.web@.len() == 0,
    {
        ResultMap { computation: Vec::new(), web: Vec::new() }
    }
}


} // verus!

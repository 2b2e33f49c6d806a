//! Version migration of build files: a pattern with one capture group finds
//! the version token in each file, the token is verified against the expected
//! prior version and swapped for the target one, and the captured original
//! contents guarantee a byte-for-byte restore.

use vstd::prelude::*;

verus! {

/// Why a migration was refused: the pattern did not compile, no version
/// token was found, or the token found differs from the expected one.
#[derive(Debug, Clone, PartialEq, Eq)]
pub enum MigrationError {
    InvalidRegex(String),
    VersionNotFound,
    InvalidVersion(String),
}

/// The view of one decomposed match: the text from the previous match up
/// to the capture group, the captured version, the rest of the match, and
/// whether the capture group participated.
pub open spec fn match_view(m: (String, String, String, bool)) -> (
    Seq<char>,
    Seq<char>,
    Seq<char>,
    bool,
) {
    (m.0@, m.1@, m.2@, m.3)
}

/// How the version pattern, compiled in multi-line mode, decomposes a text:
/// `None` when the pattern does not compile, otherwise the matches in order
/// and the text after the last match.
pub uninterp spec fn regex_decomposition(pattern: Seq<char>, text: Seq<char>) -> Option<
    (Seq<(Seq<char>, Seq<char>, Seq<char>, bool)>, Seq<char>),
>;

/// The text the decomposed matches cover, in order.
pub open spec fn parts_text(ps: Seq<(Seq<char>, Seq<char>, Seq<char>, bool)>) -> Seq<char>
    decreases ps.len(),
{
    if ps.len() == 0 {
        Seq::empty()
    } else {
        parts_text(ps.drop_last()) + ps.last().0 + ps.last().1 + ps.last().2
    }
}

/// Relies on regex::RegexBuilder::build (multi-line mode) and
/// regex::Regex::captures_iter: each match of the pattern, cut around its
/// first capture group, with the text between matches; the pieces
/// reassemble to the input text.
#[verifier::external_body]
fn regex_version_split(pattern: &str, text: &str) -> (r: Option<
    (Vec<(String, String, String, bool)>, String),
>)
    ensures
        match r {
            Some((parts, trail)) => regex_decomposition(pattern@, text@) == Some(
                (
                    parts@.map_values(|m: (String, String, String, bool)| match_view(m)),
                    trail@,
                ),
            ) && parts_text(
                parts@.map_values(|m: (String, String, String, bool)| match_view(m)),
            ) + trail@ == text@,
            None => regex_decomposition(pattern@, text@) is None,
        },
{
    let re = regex::RegexBuilder::new(pattern).multi_line(true).build().ok()?;
    let cut = |a, b| text[a..b].to_string();
    let mut parts = Vec::new();
    let mut pos: usize = 0;
    for c in re.captures_iter(text) {
        let (g, e) = (c.get(1), c.get(0).unwrap().end());
        let (gs, ge) = g.map_or((e, e), |x| (x.start(), x.end()));
        parts.push((cut(pos, gs), cut(gs, ge), cut(ge, e), g.is_some()));
        pos = e;
    }
    Some((parts, cut(pos, text.len())))
}

/// Some match carries the expected version in its capture group.
pub open spec fn any_from(
    ps: Seq<(Seq<char>, Seq<char>, Seq<char>, bool)>,
    from: Seq<char>,
) -> bool {
    exists|i: int| 0 <= i < ps.len() && (#[trigger] ps[i]).3 && ps[i].1 == from
}

/// Some match carries a version other than the expected one.
pub open spec fn any_mismatch(
    ps: Seq<(Seq<char>, Seq<char>, Seq<char>, bool)>,
    from: Seq<char>,
) -> bool {
    exists|i: int| 0 <= i < ps.len() && (#[trigger] ps[i]).3 && ps[i].1 != from
}

/// The version of the last match that differs from the expected one.
pub open spec fn last_mismatch(
    ps: Seq<(Seq<char>, Seq<char>, Seq<char>, bool)>,
    from: Seq<char>,
) -> Seq<char>
    decreases ps.len(),
{
    if ps.len() == 0 {
        Seq::empty()
    } else if ps.last().3 && ps.last().1 != from {
        ps.last().1
    } else {
        last_mismatch(ps.drop_last(), from)
    }
}

/// The matches reassembled with every occurrence of the expected version
/// replaced by the target one; any other match is kept verbatim.
pub open spec fn migrated_text(
    ps: Seq<(Seq<char>, Seq<char>, Seq<char>, bool)>,
    from: Seq<char>,
    to: Seq<char>,
) -> Seq<char>
    decreases ps.len(),
{
    if ps.len() == 0 {
        Seq::empty()
    } else {
        let p = ps.last();
        migrated_text(ps.drop_last(), from, to) + p.0 + (if p.3 && p.1 == from {
            to
        } else {
            p.1
        }) + p.2
    }
}

/// The decomposition admits the migration: the pattern compiled and some
/// match carries the expected version.
pub open spec fn contents_ok(
    dec: Option<(Seq<(Seq<char>, Seq<char>, Seq<char>, bool)>, Seq<char>)>,
    from: Seq<char>,
) -> bool {
    match dec {
        Some((ps, _trail)) => any_from(ps, from),
        None => false,
    }
}

/// The migrated contents: every match of the expected version replaced by
/// the target one, everything else byte for byte as it was.
pub open spec fn migrated_full(
    dec: Option<(Seq<(Seq<char>, Seq<char>, Seq<char>, bool)>, Seq<char>)>,
    from: Seq<char>,
    to: Seq<char>,
) -> Seq<char> {
    match dec {
        Some((ps, trail)) => migrated_text(ps, from, to) + trail,
        None => Seq::empty(),
    }
}

/// The error owed for a decomposition that does not admit the migration.
pub open spec fn contents_error(
    dec: Option<(Seq<(Seq<char>, Seq<char>, Seq<char>, bool)>, Seq<char>)>,
    from: Seq<char>,
    pattern: Seq<char>,
    e: MigrationError,
) -> bool {
    match e {
        MigrationError::InvalidRegex(p) => dec is None && p@ == pattern,
        MigrationError::VersionNotFound => match dec {
            Some((ps, _)) => !any_from(ps, from) && !any_mismatch(ps, from),
            None => false,
        },
        MigrationError::InvalidVersion(v) => match dec {
            Some((ps, _)) => !any_from(ps, from) && any_mismatch(ps, from) && v@ == last_mismatch(
                ps,
                from,
            ),
            None => false,
        },
    }
}

/// Migrates the contents of one file. The pattern must capture exactly one
/// group holding the old version; a match whose group holds a different
/// version fails the migration, and a match without a participating group is
/// left unchanged.
pub fn migrate_contents(original: &str, regex: &str, initial_version: &str, target_version: &str)
    -> (r: Result<String, MigrationError>)
    ensures
        match r {
            Ok(out) => contents_ok(regex_decomposition(regex@, original@), initial_version@)
                && out@ == migrated_full(
                regex_decomposition(regex@, original@),
                initial_version@,
                target_version@,
            ),
            Err(e) => !contents_ok(regex_decomposition(regex@, original@), initial_version@)
                && contents_error(
                regex_decomposition(regex@, original@),
                initial_version@,
                regex@,
                e,
            ),
        },
{
    let (parts, trail) = match regex_version_split(regex, original) {
        Some(pair) => pair,
        None => {
            return Err(MigrationError::InvalidRegex(String::from_str(regex)));
        },
    };
    let ghost views = parts@.map_values(|m: (String, String, String, bool)| match_view(m));
    let mut out = String::new();
    let mut replaced = false;
    let mut detected: Option<String> = None;
    let mut i: usize = 0;
    proof {
        assert(migrated_text(views.take(0), initial_version@, target_version@)
            =~= Seq::<char>::empty());
        assert(last_mismatch(views.take(0), initial_version@) =~= Seq::<char>::empty());
    }
    while i < parts.len()
        invariant
            i <= parts@.len(),
            views == parts@.map_values(|m: (String, String, String, bool)| match_view(m)),
            out@ == migrated_text(views.take(i as int), initial_version@, target_version@),
            replaced == any_from(views.take(i as int), initial_version@),
            detected matches Some(d) ==> any_mismatch(views.take(i as int), initial_version@)
                && d@ == last_mismatch(views.take(i as int), initial_version@),
            detected is None ==> !any_mismatch(views.take(i as int), initial_version@),
        decreases parts.len() - i,
    {
        let p = &parts[i];
        proof {
            assert(views.take(i + 1).drop_last() =~~= views.take(i as int));
            assert(views.take(i + 1).last() == views[i as int]);
            assert(views[i as int] == match_view(parts@[i as int]));
        }
        out.append(p.0.as_str());
        if p.3 && crate::text::str_eq_str(p.1.as_str(), initial_version) {
            out.append(target_version);
            replaced = true;
            proof {
                assert((views.take(i + 1)[i as int]).3 && views.take(i + 1)[i as int].1
                    == initial_version@);
            }
        } else {
            out.append(p.1.as_str());
            if p.3 {
                detected = Some(p.1.clone());
            }
        }
        out.append(p.2.as_str());
        proof {
            assert forall|k: int|
                0 <= k < i + 1 && (#[trigger] views.take(i + 1)[k]).3 && views.take(i + 1)[k].1
                    == initial_version@ implies any_from(views.take(i as int), initial_version@)
                || (views[i as int].3 && views[i as int].1 == initial_version@) by {
                if k < i {
                    assert(views.take(i as int)[k] == views.take(i + 1)[k]);
                }
            }
        }
        i += 1;
    }
    proof {
        assert(views.take(parts@.len() as int) =~~= views);
    }
    if !replaced {
        if let Some(detected_version) = detected {
            return Err(MigrationError::InvalidVersion(detected_version));
        }
        return Err(MigrationError::VersionNotFound);
    }
    out.append(trail.as_str());
    Ok(out)
}

/// One file under migration: its path, the pattern to apply, and the
/// contents captured before any change.
#[derive(Debug, PartialEq, Eq)]
pub struct Transformation {
    pub path: String,
    pub original: Option<String>,
    pub regex: String,
}

/// Swaps one version token across a set of files, verifying it is the
/// expected prior value, with the captured originals kept for restore.
pub struct VersionMigrator {
    pub transformations: Vec<Transformation>,
    pub initial_version: String,
    pub target_version: String,
}

/// The pattern a `DEFAULT_DOCKER_REGEX` entry stands for: a `FROM` line with
/// one capture group on the version, tolerating a suffix and an `AS` clause.
pub fn default_docker_regex() -> (r: String)
    ensures
        r@ == default_docker_regex_spec(),
{
    let r = String::from_str("^FROM.*:([0-9.]+)(?:-.*)?(?: AS [a-zA-Z0-9_]+)?$");
    proof {
        reveal_strlit("^FROM.*:([0-9.]+)(?:-.*)?(?: AS [a-zA-Z0-9_]+)?$");
    }
    r
}

pub open spec fn default_docker_regex_spec() -> Seq<char> {
    "^FROM.*:([0-9.]+)(?:-.*)?(?: AS [a-zA-Z0-9_]+)?$"@
}

/// The pattern an entry names: the built-in Dockerfile pattern for the
/// keyword `DEFAULT_DOCKER_REGEX`, the entry's own pattern otherwise.
pub open spec fn effective_regex(entry: Seq<char>) -> Seq<char> {
    if entry == "DEFAULT_DOCKER_REGEX"@ {
        default_docker_regex_spec()
    } else {
        entry
    }
}

/// The transformations a migrator starts from: one per `(file, pattern)`
/// entry, the path prefixed by the working directory, nothing captured yet.
/// Without entries, a single `Dockerfile` entry with the built-in pattern.
pub fn build_initial_transformation(dir: &str, regex: Option<Vec<(String, String)>>) -> (r: Vec<
    Transformation,
>)
    ensures
        match regex {
            Some(entries) => r@.len() == entries@.len() && forall|i: int|
                0 <= i < entries@.len() ==> (#[trigger] r@[i]).path@ == dir@ + "/"@
                    + entries@[i].0@ && r@[i].original is None && r@[i].regex@ == effective_regex(
                    entries@[i].1@,
                ),
            None => r@.len() == 1 && r@[0].path@ == dir@ + "/"@ + "Dockerfile"@ && r@[0].original
                is None && r@[0].regex@ == default_docker_regex_spec(),
        },
{
    let entries: Vec<(String, String)> = match regex {
        Some(entries) => entries,
        None => {
            let mut v: Vec<(String, String)> = Vec::new();
            v.push(
                (String::from_str("Dockerfile"), String::from_str("DEFAULT_DOCKER_REGEX")),
            );
            v
        },
    };
    let mut out: Vec<Transformation> = Vec::new();
    let mut i: usize = 0;
    while i < entries.len()
        invariant
            i <= entries@.len(),
            out@.len() == i,
            forall|j: int|
                0 <= j < i ==> (#[trigger] out@[j]).path@ == dir@ + "/"@ + entries@[j].0@
                    && out@[j].original is None && out@[j].regex@ == effective_regex(
                    entries@[j].1@,
                ),
        decreases entries.len() - i,
    {
        let mut path = String::from_str(dir);
        path.append("/");
        path.append(entries[i].0.as_str());
        let regex_str: String = if crate::text::str_eq_str(
            entries[i].1.as_str(),
            "DEFAULT_DOCKER_REGEX",
        ) {
            default_docker_regex()
        } else {
            entries[i].1.clone()
        };
        out.push(Transformation { path, original: None, regex: regex_str });
        i += 1;
    }
    out
}

/// After a migration ran on `contents`, the migrator has captured exactly
/// those contents, file by file, with paths, patterns and versions
/// untouched.
pub open spec fn captured(m0: VersionMigrator, contents: Seq<String>, m1: VersionMigrator) -> bool {
    contents.len() == m0.transformations@.len() && m1.transformations@.len()
        == m0.transformations@.len() && m1.initial_version
        == m0.initial_version && m1.target_version == m0.target_version && forall|i: int|
        0 <= i < m0.transformations@.len() ==> (#[trigger] m1.transformations@[i]).path
            == m0.transformations@[i].path && m1.transformations@[i].regex
            == m0.transformations@[i].regex && m1.transformations@[i].original == Some(contents[i])
}

impl VersionMigrator {
    /// A migrator for the files under `dir`: the given `(file, pattern)`
    /// entries, or the default `Dockerfile` entry when none are given.
    pub fn new(
        dir: &str,
        regex: Option<Vec<(String, String)>>,
        initial_version: String,
        target_version: String,
    ) -> (r: VersionMigrator)
        ensures
            r.initial_version == initial_version,
            r.target_version == target_version,
            match regex {
                Some(entries) => r.transformations@.len() == entries@.len() && forall|i: int|
                    0 <= i < entries@.len() ==> (#[trigger] r.transformations@[i]).path@ == dir@
                        + "/"@ + entries@[i].0@ && r.transformations@[i].original is None
                        && r.transformations@[i].regex@ == effective_regex(entries@[i].1@),
                None => r.transformations@.len() == 1 && r.transformations@[0].path@ == dir@ + "/"@
                    + "Dockerfile"@ && r.transformations@[0].original is None
                    && r.transformations@[0].regex@ == default_docker_regex_spec(),
            },
    {
        VersionMigrator {
            transformations: build_initial_transformation(dir, regex),
            initial_version,
            target_version,
        }
    }

    /// Captures the given current contents of each file, then computes the
    /// migrated contents of all of them; nothing is handed out unless every
    /// file migrates, so a refused migration leaves every file untouched.
    pub fn migrate(&mut self, contents: &Vec<String>) -> (r: Result<Vec<String>, MigrationError>)
        requires
            contents@.len() == old(self).transformations@.len(),
        ensures
            captured(*old(self), contents@, *final(self)),
            match r {
                Ok(outs) => outs@.len() == contents@.len() && forall|i: int|
                    #![trigger outs@[i]]
                    0 <= i < contents@.len() ==> contents_ok(
                        regex_decomposition(
                            old(self).transformations@[i].regex@,
                            contents@[i]@,
                        ),
                        old(self).initial_version@,
                    ) && outs@[i]@ == migrated_full(
                        regex_decomposition(
                            old(self).transformations@[i].regex@,
                            contents@[i]@,
                        ),
                        old(self).initial_version@,
                        old(self).target_version@,
                    ),
                Err(e) => exists|i: int|
                    0 <= i < contents@.len() && !contents_ok(
                        regex_decomposition(
                            (#[trigger] old(self).transformations@[i]).regex@,
                            contents@[i]@,
                        ),
                        old(self).initial_version@,
                    ) && contents_error(
                        regex_decomposition(
                            old(self).transformations@[i].regex@,
                            contents@[i]@,
                        ),
                        old(self).initial_version@,
                        old(self).transformations@[i].regex@,
                        e,
                    ),
            },
    {
        let ghost m0 = *self;
        let mut new_ts: Vec<Transformation> = Vec::new();
        let mut i: usize = 0;
        while i < self.transformations.len()
            invariant
                *self == m0,
                contents@.len() == m0.transformations@.len(),
                i <= m0.transformations@.len(),
                new_ts@.len() == i,
                forall|j: int|
                    0 <= j < i ==> (#[trigger] new_ts@[j]).path == m0.transformations@[j].path
                        && new_ts@[j].regex == m0.transformations@[j].regex
                        && new_ts@[j].original == Some(contents@[j]),
            decreases self.transformations.len() - i,
        {
            let t = &self.transformations[i];
            new_ts.push(
                Transformation {
                    path: t.path.clone(),
                    original: Some(contents[i].clone()),
                    regex: t.regex.clone(),
                },
            );
            i += 1;
        }
        self.transformations = new_ts;
        let mut outs: Vec<String> = Vec::new();
        let mut k: usize = 0;
        while k < contents.len()
            invariant
                m0 == *old(self),
                captured(m0, contents@, *self),
                self.initial_version == m0.initial_version,
                self.target_version == m0.target_version,
                contents@.len() == m0.transformations@.len(),
                k <= contents@.len(),
                outs@.len() == k,
                forall|j: int|
                    0 <= j < k ==> contents_ok(
                        regex_decomposition(
                            (#[trigger] m0.transformations@[j]).regex@,
                            contents@[j]@,
                        ),
                        m0.initial_version@,
                    ),
                forall|j: int|
                    0 <= j < k ==> (#[trigger] outs@[j])@ == migrated_full(
                        regex_decomposition(m0.transformations@[j].regex@, contents@[j]@),
                        m0.initial_version@,
                        m0.target_version@,
                    ),
            decreases contents.len() - k,
        {
            let t = &self.transformations[k];
            match migrate_contents(
                contents[k].as_str(),
                t.regex.as_str(),
                self.initial_version.as_str(),
                self.target_version.as_str(),
            ) {
                Ok(out) => {
                    proof {
                        assert(self.transformations@[k as int].regex == m0.transformations@[
                        k as int].regex);
                    }
                    outs.push(out);
                },
                Err(e) => {
                    proof {
                        assert(0 <= k < contents@.len() && !contents_ok(
                            regex_decomposition(
                                (#[trigger] m0.transformations@[k as int]).regex@,
                                contents@[k as int]@,
                            ),
                            m0.initial_version@,
                        ) && contents_error(
                            regex_decomposition(
                                m0.transformations@[k as int].regex@,
                                contents@[k as int]@,
                            ),
                            m0.initial_version@,
                            m0.transformations@[k as int].regex@,
                            e,
                        ));
                    }
                    return Err(e);
                },
            }
            k += 1;
        }
        Ok(outs)
    }

    /// Hands back each file's captured original contents, to be written back
    /// verbatim. A migration must have captured every file first.
    pub fn restore(&self) -> (r: Vec<(String, String)>)
        requires
            forall|i: int|
                0 <= i < self.transformations@.len() ==> (#[trigger] self.transformations@[i]).original
                    is Some,
        ensures
            r@.len() == self.transformations@.len(),
            forall|i: int|
                0 <= i < r@.len() ==> (#[trigger] r@[i]).0 == self.transformations@[i].path
                    && Some(r@[i].1) == self.transformations@[i].original,
    {
        let mut out: Vec<(String, String)> = Vec::new();
        let mut i: usize = 0;
        while i < self.transformations.len()
            invariant
                i <= self.transformations@.len(),
                out@.len() == i,
                forall|k: int|
                    0 <= k < self.transformations@.len() ==> (
                    #[trigger] self.transformations@[k]).original is Some,
                forall|k: int|
                    0 <= k < i ==> (#[trigger] out@[k]).0 == self.transformations@[k].path && Some(
                        out@[k].1,
                    ) == self.transformations@[k].original,
            decreases self.transformations.len() - i,
        {
            let t = &self.transformations[i];
            let original = match &t.original {
                Some(c) => c.clone(),
                None => {
                    proof {
                        assert(false);
                    }
                    String::new()
                },
            };
            out.push((t.path.clone(), original));
            i += 1;
        }
        out
    }
}

/// A migration followed by a restore reproduces every file byte for byte:
/// whatever the migration returned, the restore hands back exactly the
/// contents that were captured before any file was touched.
pub proof fn lemma_migrate_restore_round_trip(
    m0: VersionMigrator,
    contents: Seq<String>,
    m1: VersionMigrator,
    restored: Seq<(String, String)>,
)
    requires
        captured(m0, contents, m1),
        restored.len() == m1.transformations@.len(),
        forall|i: int|
            0 <= i < restored.len() ==> (#[trigger] restored[i]).0 == m1.transformations@[i].path
                && Some(restored[i].1) == m1.transformations@[i].original,
    ensures
        restored.len() == contents.len(),
        forall|i: int| 0 <= i < restored.len() ==> (#[trigger] restored[i]).1 == contents[i],
{
    assert forall|i: int| 0 <= i < restored.len() implies (#[trigger] restored[i]).1
        == contents[i] by {
        assert(m1.transformations@[i].original == Some(contents[i]));
    }
}


} // verus!

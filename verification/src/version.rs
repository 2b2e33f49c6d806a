//! Dotted numeric versions: `"1.10"` parses to the parts `[1, 10]` and orders
//! after `"1.2"`, unlike the lexical comparison of the two strings.

use crate::text::{all_digits, char_split, digits_val, is_digit, Ordering};
use vstd::prelude::*;

verus! {

/// The value `str::parse::<u16>` yields: an optional leading `'+'`, then at
/// least one digit, the value fitting in sixteen bits.
pub open spec fn u16_str_value(s: Seq<char>) -> Option<u16> {
    let body = if s.len() > 0 && s[0] == '+' {
        s.drop_first()
    } else {
        s
    };
    if body.len() > 0 && all_digits(body) && digits_val(body) <= 65535 {
        Some(digits_val(body) as u16)
    } else {
        None
    }
}

/// The numeric parts of a version string: each dot-separated part that parses
/// as a `u16`, in order; unparseable parts are dropped.
pub open spec fn parts_values(ps: Seq<Seq<char>>) -> Seq<u16>
    decreases ps.len(),
{
    if ps.len() == 0 {
        Seq::empty()
    } else {
        let rest = parts_values(ps.drop_first());
        match u16_str_value(ps[0]) {
            Some(v) => seq![v] + rest,
            None => rest,
        }
    }
}

pub open spec fn version_parts(s: Seq<char>) -> Seq<u16> {
    parts_values(char_split(s, '.'))
}

/// Lexicographic order on part sequences, the order `derive(Ord)` gives a
/// struct holding one `Vec<u16>`.
pub open spec fn cmp_u16s(a: Seq<u16>, b: Seq<u16>) -> Ordering
    decreases a.len(),
{
    if a.len() == 0 && b.len() == 0 {
        Ordering::Equal
    } else if a.len() == 0 {
        Ordering::Less
    } else if b.len() == 0 {
        Ordering::Greater
    } else if a[0] < b[0] {
        Ordering::Less
    } else if a[0] > b[0] {
        Ordering::Greater
    } else {
        cmp_u16s(a.drop_first(), b.drop_first())
    }
}

pub proof fn lemma_digits_val_bounds(s: Seq<char>, k: int)
    requires
        0 <= k <= s.len(),
        all_digits(s),
    ensures
        digits_val(s) >= 0,
        digits_val(s) >= digits_val(s.take(k)),
    decreases s.len(),
{
    if s.len() == 0 {
    } else {
        let t = s.drop_last();
        assert(all_digits(t)) by {
            assert(forall|i: int| 0 <= i < t.len() ==> t[i] == s[i]);
        }
        lemma_digits_val_bounds(t, if k <= t.len() {
            k
        } else {
            t.len() as int
        });
        assert(is_digit(s.last()));
        if k <= t.len() {
            assert(t.take(k) =~= s.take(k));
            assert(digits_val(s) == digits_val(t) * 10 + (s.last() as u32 - 48));
            assert(digits_val(t) * 10 >= digits_val(t)) by (nonlinear_arith)
                requires
                    digits_val(t) >= 0,
            ;
        } else {
            assert(s.take(k) =~= s);
        }
    }
}

/// A dotted numeric version, ordered part by part.
#[derive(Debug, Clone, PartialEq, Eq, PartialOrd, Ord)]
pub struct Version {
    pub parts: Vec<u16>,
}

/// Parses `s` as an unsigned sixteen-bit number the way `str::parse` does.
fn parse_u16_str(s: &str) -> (r: Option<u16>)
    ensures
        r == u16_str_value(s@),
{
    let len = s.unicode_len();
    let mut i: usize = 0;
    if len > 0 && s.get_char(0) == '+' {
        i = 1;
    }
    let ghost body = if s@.len() > 0 && s@[0] == '+' {
        s@.drop_first()
    } else {
        s@
    };
    let ghost dstart = i as int;
    proof {
        assert(body =~= s@.skip(dstart));
    }
    if i == len {
        return None;
    }
    let mut val: u32 = 0;
    while i < len
        invariant
            0 <= dstart <= i <= len,
            len == s@.len(),
            body == (if s@.len() > 0 && s@[0] == '+' {
                s@.drop_first()
            } else {
                s@
            }),
            body == s@.skip(dstart),
            body.len() == len - dstart,
            val == digits_val(body.take(i - dstart)),
            val <= 65535,
            all_digits(body.take(i - dstart)),
        decreases len - i,
    {
        let c = s.get_char(i);
        let d = c as u32;
        let ghost done = body.take(i - dstart);
        proof {
            assert(body.take(i - dstart + 1).drop_last() =~= done);
            assert(body.take(i - dstart + 1).last() == body[i - dstart]);
            assert(body[i - dstart] == s@[i as int]) by {
                assert(s@.skip(dstart)[i - dstart] == s@[dstart + (i - dstart)]);
            }
        }
        if d < 48 || d > 57 {
            proof {
                assert(!is_digit(body[i - dstart]));
                assert(!all_digits(body));
            }
            return None;
        }
        let v2 = val * 10 + (d - 48);
        if v2 > 65535 {
            proof {
                assert(digits_val(body.take(i - dstart + 1)) == v2);
                if all_digits(body) {
                    lemma_digits_val_bounds(body, i - dstart + 1);
                    assert(digits_val(body) >= v2 > 65535);
                }
            }
            return None;
        }
        val = v2;
        i += 1;
    }
    proof {
        assert(body.take(len - dstart) =~= body);
    }
    Some(val as u16)
}

proof fn lemma_parts_values_push(ps: Seq<Seq<char>>, x: Seq<char>)
    ensures
        parts_values(ps.push(x)) == match u16_str_value(x) {
            Some(v) => parts_values(ps).push(v),
            None => parts_values(ps),
        },
    decreases ps.len(),
{
    assert(ps.push(x)[ps.len() as int] == x);
    assert(parts_values(Seq::<Seq<char>>::empty()) =~= Seq::<u16>::empty());
    if ps.len() == 0 {
        assert(ps.push(x).drop_first() =~~= Seq::<Seq<char>>::empty());
        match u16_str_value(x) {
            Some(v) => {
                assert(parts_values(ps.push(x)) =~= parts_values(ps).push(v));
            },
            None => {},
        }
    } else {
        assert(ps.push(x)[0] == ps[0]);
        assert(ps.push(x).drop_first() =~~= ps.drop_first().push(x));
        lemma_parts_values_push(ps.drop_first(), x);
        match u16_str_value(ps[0]) {
            Some(v0) => {
                match u16_str_value(x) {
                    Some(v) => {
                        assert(parts_values(ps.push(x)) =~= parts_values(ps).push(v));
                    },
                    None => {},
                }
            },
            None => {},
        }
    }
}

impl Version {
    /// Splits on dots and keeps every part that parses as a `u16`; a version
    /// must have at least one numeric part.
    pub fn parse(version: &str) -> (r: Result<Version, String>)
        ensures
            match r {
                Ok(v) => version_parts(version@).len() > 0 && v.parts@ == version_parts(version@),
                Err(e) => version_parts(version@).len() == 0 && e@
                    == "Version must have at least one part"@,
            },
    {
        let segments = crate::text::split_str(version, '.');
        let ghost seg_views = segments@.map_values(|p: String| p@);
        let mut parts: Vec<u16> = Vec::new();
        let mut i: usize = 0;
        proof {
            assert(seg_views.take(0) =~~= Seq::<Seq<char>>::empty());
        }
        while i < segments.len()
            invariant
                i <= segments.len(),
                seg_views == segments@.map_values(|p: String| p@),
                parts@ == parts_values(seg_views.take(i as int)),
            decreases segments.len() - i,
        {
            proof {
                assert(seg_views.take(i + 1) =~~= seg_views.take(i as int).push(seg_views[i as int]));
                lemma_parts_values_push(seg_views.take(i as int), seg_views[i as int]);
            }
            match parse_u16_str(segments[i].as_str()) {
                Some(v) => parts.push(v),
                None => {},
            }
            i += 1;
        }
        proof {
            assert(seg_views.take(segments@.len() as int) =~~= seg_views);
        }
        if parts.len() == 0 {
            return Err(String::from_str("Version must have at least one part"));
        }
        Ok(Version { parts })
    }

    /// Three-way comparison of two versions, part by part.
    pub fn compare(&self, other: &Version) -> (r: Ordering)
        ensures
            r == cmp_u16s(self.parts@, other.parts@),
    {
        let a_len = self.parts.len();
        let b_len = other.parts.len();
        let mut i: usize = 0;
        proof {
            assert(self.parts@.skip(0) =~= self.parts@);
            assert(other.parts@.skip(0) =~= other.parts@);
        }
        loop
            invariant
                i <= a_len,
                i <= b_len,
                a_len == self.parts@.len(),
                b_len == other.parts@.len(),
                cmp_u16s(self.parts@, other.parts@) == cmp_u16s(
                    self.parts@.skip(i as int),
                    other.parts@.skip(i as int),
                ),
            decreases a_len - i,
        {
            proof {
                if i < a_len && i < b_len {
                    assert(self.parts@.skip(i as int).drop_first() =~= self.parts@.skip(i + 1));
                    assert(other.parts@.skip(i as int).drop_first() =~= other.parts@.skip(i + 1));
                }
            }
            if i == a_len && i == b_len {
                return Ordering::Equal;
            }
            if i == a_len {
                return Ordering::Less;
            }
            if i == b_len {
                return Ordering::Greater;
            }
            let a = self.parts[i];
            let b = other.parts[i];
            if a < b {
                return Ordering::Less;
            }
            if a > b {
                return Ordering::Greater;
            }
            i += 1;
        }
    }
}

} // verus!

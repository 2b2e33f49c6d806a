//! Character-level text primitives shared by the result table, the version
//! parser and the migrator: splitting, joining, ordering and digit parsing,
//! each specified over the `Seq<char>` view of the strings involved.

use vstd::prelude::*;

verus! {

/// Outcome of a three-way comparison.
#[derive(Clone, Copy, Debug, PartialEq, Eq, Structural)]
pub enum Ordering {
    Less,
    Equal,
    Greater,
}

/// The views of a vector of strings.
pub open spec fn str_views(v: Seq<String>) -> Seq<Seq<char>> {
    v.map_values(|s: String| s@)
}

pub open spec fn is_space(c: char) -> bool {
    c == ' ' || c == '\t' || c == '\r' || c == '\n'
}

pub open spec fn trim_front(s: Seq<char>) -> Seq<char>
    decreases s.len(),
{
    if s.len() > 0 && is_space(s[0]) {
        trim_front(s.drop_first())
    } else {
        s
    }
}

pub open spec fn trim_back(s: Seq<char>) -> Seq<char>
    decreases s.len(),
{
    if s.len() > 0 && is_space(s.last()) {
        trim_back(s.drop_last())
    } else {
        s
    }
}

/// `s` without leading and trailing ASCII whitespace.
pub open spec fn trim_spaces(s: Seq<char>) -> Seq<char> {
    trim_back(trim_front(s))
}

pub proof fn lemma_trim_front_at(s: Seq<char>, i: int)
    requires
        0 <= i <= s.len(),
        forall|k: int| 0 <= k < i ==> is_space(s[k]),
        i < s.len() ==> !is_space(s[i]),
    ensures
        trim_front(s) == s.skip(i),
    decreases i,
{
    if i == 0 {
        assert(s.skip(0) =~= s);
    } else {
        assert(s.drop_first() =~= s.skip(1));
        lemma_trim_front_at(s.skip(1), i - 1);
        assert(s.skip(1).skip(i - 1) =~= s.skip(i));
    }
}

pub proof fn lemma_trim_back_at(s: Seq<char>, j: int)
    requires
        0 <= j <= s.len(),
        forall|k: int| j <= k < s.len() ==> is_space(s[k]),
        j > 0 ==> !is_space(s[j - 1]),
    ensures
        trim_back(s) == s.take(j),
    decreases s.len() - j,
{
    if j == s.len() {
        assert(s.take(j) =~= s);
    } else {
        assert(s.drop_last() =~= s.take(s.len() - 1));
        lemma_trim_back_at(s.take(s.len() - 1), j);
        assert(s.take(s.len() - 1).take(j) =~= s.take(j));
    }
}


/// `s` without leading and trailing ASCII whitespace, as `str::trim` yields
/// it for such text.
pub fn trim_str(s: &str) -> (r: String)
    ensures
        r@ == trim_spaces(s@),
{
    let len = s.unicode_len();
    let mut lo: usize = 0;
    while lo < len && is_space_char(s.get_char(lo))
        invariant
            lo <= len,
            len == s@.len(),
            forall|k: int| 0 <= k < lo ==> is_space(s@[k]),
        decreases len - lo,
    {
        lo += 1;
    }
    let mut hi: usize = len;
    while hi > lo && is_space_char(s.get_char(hi - 1))
        invariant
            lo <= hi <= len,
            len == s@.len(),
            forall|k: int| 0 <= k < lo ==> is_space(s@[k]),
            forall|k: int| hi <= k < len ==> is_space(s@[k]),
        decreases hi,
    {
        hi -= 1;
    }
    proof {
        lemma_trim_front_at(s@, lo as int);
        if hi == lo {
            lemma_trim_back_at(s@.skip(lo as int), 0);
        } else {
            lemma_trim_back_at(s@.skip(lo as int), hi - lo as int);
        }
        assert(s@.skip(lo as int).take(hi - lo as int) =~= s@.subrange(lo as int, hi as int));
    }
    String::from_str(s.substring_char(lo, hi))
}

pub fn is_space_char(c: char) -> (r: bool)
    ensures
        r == is_space(c),
{
    c == ' ' || c == '\t' || c == '\r' || c == '\n'
}

pub open spec fn is_digit(c: char) -> bool {
    48 <= c as u32 && c as u32 <= 57
}

pub open spec fn digit_val(c: char) -> int {
    c as u32 - 48
}

pub open spec fn all_digits(s: Seq<char>) -> bool {
    forall|i: int| 0 <= i < s.len() ==> is_digit(#[trigger] s[i])
}

/// Numeric value of a digit string, most significant digit first.
pub open spec fn digits_val(s: Seq<char>) -> int
    decreases s.len(),
{
    if s.len() == 0 {
        0
    } else {
        digits_val(s.drop_last()) * 10 + digit_val(s.last())
    }
}

/// Three-way comparison of character sequences by code point, the order
/// `str::cmp` induces on well-formed text.
pub open spec fn cmp_chars(a: Seq<char>, b: Seq<char>) -> Ordering
    decreases a.len(),
{
    if a.len() == 0 && b.len() == 0 {
        Ordering::Equal
    } else if a.len() == 0 {
        Ordering::Less
    } else if b.len() == 0 {
        Ordering::Greater
    } else if (a[0] as u32) < (b[0] as u32) {
        Ordering::Less
    } else if (a[0] as u32) > (b[0] as u32) {
        Ordering::Greater
    } else {
        cmp_chars(a.drop_first(), b.drop_first())
    }
}

/// The parts `str::split(sep)` yields: always at least one part, an empty
/// input giving one empty part.
pub open spec fn char_split(s: Seq<char>, sep: char) -> Seq<Seq<char>>
    decreases s.len(),
{
    if s.len() == 0 {
        seq![Seq::<char>::empty()]
    } else {
        let rest = char_split(s.drop_first(), sep);
        if s[0] == sep {
            seq![Seq::<char>::empty()].add(rest)
        } else {
            rest.update(0, seq![s[0]].add(rest[0]))
        }
    }
}

/// Concatenation of `parts` with `sep` between consecutive parts.
pub open spec fn char_join(parts: Seq<Seq<char>>, sep: Seq<char>) -> Seq<char>
    decreases parts.len(),
{
    if parts.len() == 0 {
        Seq::empty()
    } else if parts.len() == 1 {
        parts[0]
    } else {
        char_join(parts.drop_last(), sep) + sep + parts.last()
    }
}

pub proof fn lemma_char_split_nonempty(s: Seq<char>, sep: char)
    ensures
        char_split(s, sep).len() >= 1,
    decreases s.len(),
{
    if s.len() > 0 {
        lemma_char_split_nonempty(s.drop_first(), sep);
    }
}

/// Splitting off the first part: if no separator occurs before `d` and `d` is
/// either a separator position or the end, the split is the first `d`
/// characters followed by the split of what comes after the separator.
pub proof fn lemma_char_split_step(s: Seq<char>, sep: char, d: int)
    requires
        0 <= d <= s.len(),
        forall|j: int| 0 <= j < d ==> s[j] != sep,
        d < s.len() ==> s[d] == sep,
    ensures
        d == s.len() ==> char_split(s, sep) == seq![s],
        d < s.len() ==> char_split(s, sep) == seq![s.take(d)].add(
            char_split(s.skip(d + 1), sep),
        ),
    decreases d,
{
    lemma_char_split_nonempty(s, sep);
    if d == 0 {
        if s.len() == 0 {
            assert(char_split(s, sep) =~~= seq![s]);
        } else {
            assert(s.skip(1) =~= s.drop_first());
            assert(char_split(s, sep) =~~= seq![s.take(0)].add(char_split(s.skip(1), sep)));
        }
    } else {
        let t = s.drop_first();
        lemma_char_split_nonempty(t, sep);
        lemma_char_split_step(t, sep, d - 1);
        if d == s.len() {
            assert(t =~= t.take(d - 1));
            assert(char_split(s, sep) =~~= seq![s]);
        } else {
            assert(t.skip(d) =~= s.skip(d + 1));
            let rest = char_split(t, sep);
            assert(rest[0] == t.take(d - 1));
            assert(seq![s[0]].add(t.take(d - 1)) =~= s.take(d));
            assert(char_split(s, sep) =~~= seq![s.take(d)].add(char_split(s.skip(d + 1), sep)));
        }
    }
}

/// First position at or after `from` holding `sep`, or the length if none.
pub fn find_char_from(s: &str, from: usize, sep: char) -> (r: usize)
    requires
        from <= s@.len(),
    ensures
        from <= r <= s@.len(),
        forall|j: int| from <= j < r ==> s@[j] != sep,
        r < s@.len() ==> s@[r as int] == sep,
{
    let len = s.unicode_len();
    let mut i = from;
    while i < len
        invariant
            from <= i <= len,
            len == s@.len(),
            forall|j: int| from <= j < i ==> s@[j] != sep,
        decreases len - i,
    {
        if s.get_char(i) == sep {
            return i;
        }
        i += 1;
    }
    i
}

/// The parts of `s` around each occurrence of `sep`, as `str::split` yields
/// them.
pub fn split_str(s: &str, sep: char) -> (r: Vec<String>)
    ensures
        r@.map_values(|p: String| p@) == char_split(s@, sep),
        r@.len() >= 1,
{
    let len = s.unicode_len();
    let mut out: Vec<String> = Vec::new();
    let mut start: usize = 0;
    proof {
        assert(s@.skip(0) =~= s@);
        assert(out@.map_values(|p: String| p@) =~~= Seq::<Seq<char>>::empty());
    }
    loop
        invariant
            start <= len,
            len == s@.len(),
            char_split(s@, sep) == out@.map_values(|p: String| p@) + char_split(
                s@.skip(start as int),
                sep,
            ),
        decreases len - start,
    {
        let end = find_char_from(s, start, sep);
        let part = String::from_str(s.substring_char(start, end));
        proof {
            let t = s@.skip(start as int);
            let d = end - start as int;
            assert(forall|j: int| 0 <= j < d ==> t[j] != sep);
            lemma_char_split_step(t, sep, d);
            assert(t.take(d) =~= s@.subrange(start as int, end as int));
        }
        let ghost old_out = out@;
        out.push(part);
        proof {
            assert(out@.map_values(|p: String| p@) =~~= old_out.map_values(|p: String| p@).push(
                s@.subrange(start as int, end as int),
            ));
        }
        if end == len {
            proof {
                let t = s@.skip(start as int);
                assert(t =~= s@.subrange(start as int, end as int));
                assert(char_split(s@, sep) =~~= out@.map_values(|p: String| p@));
            }
            return out;
        }
        proof {
            let t = s@.skip(start as int);
            assert(t.skip(end - start as int + 1) =~= s@.skip(end as int + 1));
            assert(char_split(s@, sep) =~~= out@.map_values(|p: String| p@) + char_split(
                s@.skip(end as int + 1),
                sep,
            ));
        }
        start = end + 1;
    }
}

/// Joins `parts` with `sep` between consecutive parts, as `[String]::join`
/// does.
pub fn join_strs(parts: &Vec<String>, sep: &str) -> (r: String)
    ensures
        r@ == char_join(parts@.map_values(|p: String| p@), sep@),
{
    let mut out = String::new();
    let mut i: usize = 0;
    while i < parts.len()
        invariant
            i <= parts.len(),
            out@ == char_join(parts@.map_values(|p: String| p@).take(i as int), sep@),
        decreases parts.len() - i,
    {
        if i > 0 {
            out.append(sep);
        }
        out.append(parts[i].as_str());
        proof {
            let views = parts@.map_values(|p: String| p@);
            assert(views.take(i + 1).drop_last() =~= views.take(i as int));
            assert(views.take(i + 1).last() == views[i as int]);
        }
        i += 1;
    }
    proof {
        let views = parts@.map_values(|p: String| p@);
        assert(views.take(parts@.len() as int) =~= views);
    }
    out
}

/// An owned copy of a string slice.
pub fn copy_str(s: &str) -> (r: String)
    ensures
        r@ == s@,
{
    String::from_str(s)
}

/// Equality of two string slices, decided character by character.
pub fn str_eq_str(a: &str, b: &str) -> (r: bool)
    ensures
        r == (a@ == b@),
{
    let a_len = a.unicode_len();
    let b_len = b.unicode_len();
    if a_len != b_len {
        return false;
    }
    let mut i: usize = 0;
    while i < a_len
        invariant
            i <= a_len,
            a_len == a@.len(),
            a_len == b@.len(),
            forall|j: int| 0 <= j < i ==> a@[j] == b@[j],
        decreases a_len - i,
    {
        if a.get_char(i) != b.get_char(i) {
            return false;
        }
        i += 1;
    }
    proof {
        assert(a@ =~= b@);
    }
    true
}

/// Three-way comparison of two string slices by code point.
pub fn str_cmp(a: &str, b: &str) -> (r: Ordering)
    ensures
        r == cmp_chars(a@, b@),
{
    let a_len = a.unicode_len();
    let b_len = b.unicode_len();
    let mut i: usize = 0;
    proof {
        assert(a@.skip(0) =~= a@);
        assert(b@.skip(0) =~= b@);
    }
    loop
        invariant
            i <= a_len,
            i <= b_len,
            a_len == a@.len(),
            b_len == b@.len(),
            cmp_chars(a@, b@) == cmp_chars(a@.skip(i as int), b@.skip(i as int)),
        decreases a_len - i,
    {
        proof {
            if i < a_len && i < b_len {
                assert(a@.skip(i as int).drop_first() =~= a@.skip(i + 1));
                assert(b@.skip(i as int).drop_first() =~= b@.skip(i + 1));
            }
        }
        if i == a_len && i == b_len {
            return Ordering::Equal;
        }
        if i == a_len {
            return Ordering::Less;
        }
        if i == b_len {
            return Ordering::Greater;
        }
        let ca = a.get_char(i) as u32;
        let cb = b.get_char(i) as u32;
        if ca < cb {
            return Ordering::Less;
        }
        if ca > cb {
            return Ordering::Greater;
        }
        i += 1;
    }
}

/// The value `str::parse::<i32>` yields: an optional sign, then at least one
/// digit, the value fitting in a signed 32-bit integer.
pub open spec fn i32_str_value(s: Seq<char>) -> Option<i32> {
    let body = if s.len() > 0 && (s[0] == '+' || s[0] == '-') {
        s.drop_first()
    } else {
        s
    };
    let negative = s.len() > 0 && s[0] == '-';
    if body.len() > 0 && all_digits(body) {
        if negative && digits_val(body) <= 0x8000_0000 {
            Some((-digits_val(body)) as i32)
        } else if !negative && digits_val(body) <= 0x7fff_ffff {
            Some(digits_val(body) as i32)
        } else {
            None
        }
    } else {
        None
    }
}

/// Parses `s` as a signed 32-bit number the way `str::parse` does.
pub fn parse_i32_str(s: &str) -> (r: Option<i32>)
    ensures
        r == i32_str_value(s@),
{
    let len = s.unicode_len();
    let mut i: usize = 0;
    let mut negative = false;
    if len > 0 && s.get_char(0) == '+' {
        i = 1;
    } else if len > 0 && s.get_char(0) == '-' {
        i = 1;
        negative = true;
    }
    let ghost body = if s@.len() > 0 && (s@[0] == '+' || s@[0] == '-') {
        s@.drop_first()
    } else {
        s@
    };
    let ghost dstart = i as int;
    proof {
        assert(body =~= s@.skip(dstart));
    }
    if i == len {
        return None;
    }
    let limit: u64 = if negative {
        0x8000_0000
    } else {
        0x7fff_ffff
    };
    let mut val: u64 = 0;
    while i < len
        invariant
            0 <= dstart <= i <= len,
            len == s@.len(),
            body == (if s@.len() > 0 && (s@[0] == '+' || s@[0] == '-') {
                s@.drop_first()
            } else {
                s@
            }),
            body == s@.skip(dstart),
            body.len() == len - dstart,
            negative == (s@.len() > 0 && s@[0] == '-'),
            limit == if negative {
                0x8000_0000u64
            } else {
                0x7fff_ffffu64
            },
            val == digits_val(body.take(i - dstart)),
            val <= limit,
            all_digits(body.take(i - dstart)),
        decreases len - i,
    {
        let c = s.get_char(i);
        let d = c as u32;
        proof {
            assert(body.take(i - dstart + 1).drop_last() =~= body.take(i - dstart));
            assert(body.take(i - dstart + 1).last() == body[i - dstart]);
            assert(body[i - dstart] == s@[i as int]) by {
                assert(s@.skip(dstart)[i - dstart] == s@[dstart + (i - dstart)]);
            }
        }
        if d < 48 || d > 57 {
            proof {
                assert(!is_digit(body[i - dstart]));
                assert(!all_digits(body));
            }
            return None;
        }
        let v2 = val * 10 + ((d - 48) as u64);
        if v2 > limit {
            proof {
                assert(digits_val(body.take(i - dstart + 1)) == v2);
                if all_digits(body) {
                    crate::version::lemma_digits_val_bounds(body, i - dstart + 1);
                    assert(digits_val(body) >= v2 > limit);
                }
            }
            return None;
        }
        val = v2;
        i += 1;
    }
    proof {
        assert(body.take(len - dstart) =~= body);
    }
    if negative {
        Some((0i64 - (val as i64)) as i32)
    } else {
        Some(val as i32)
    }
}


pub open spec fn digit_char(d: int) -> char {
    if d == 0 {
        '0'
    } else if d == 1 {
        '1'
    } else if d == 2 {
        '2'
    } else if d == 3 {
        '3'
    } else if d == 4 {
        '4'
    } else if d == 5 {
        '5'
    } else if d == 6 {
        '6'
    } else if d == 7 {
        '7'
    } else if d == 8 {
        '8'
    } else {
        '9'
    }
}

/// The decimal digits of `n`, most significant first, without leading
/// zeroes.
pub open spec fn dec_digits(n: nat) -> Seq<char>
    decreases n,
{
    if n < 10 {
        seq![digit_char(n as int)]
    } else {
        dec_digits(n / 10).push(digit_char((n % 10) as int))
    }
}

/// The decimal rendering of `v`: a minus sign for negative values, then the
/// digits of the magnitude.
pub open spec fn int_str(v: int) -> Seq<char> {
    if v < 0 {
        seq!['-'] + dec_digits((-v) as nat)
    } else {
        dec_digits(v as nat)
    }
}

fn digit_str(d: u32) -> (r: &'static str)
    requires
        d < 10,
    ensures
        r@ == seq![digit_char(d as int)],
{
    proof {
        reveal_strlit("0");
        reveal_strlit("1");
        reveal_strlit("2");
        reveal_strlit("3");
        reveal_strlit("4");
        reveal_strlit("5");
        reveal_strlit("6");
        reveal_strlit("7");
        reveal_strlit("8");
        reveal_strlit("9");
    }
    let r: &'static str = match d {
        0 => "0",
        1 => "1",
        2 => "2",
        3 => "3",
        4 => "4",
        5 => "5",
        6 => "6",
        7 => "7",
        8 => "8",
        _ => "9",
    };
    proof {
        assert(r@ =~= seq![digit_char(d as int)]);
    }
    r
}

/// Appends the decimal digits of `n`.
fn push_u32_digits(n: u32, out: &mut String)
    ensures
        final(out)@ == old(out)@ + dec_digits(n as nat),
    decreases n,
{
    if n >= 10 {
        push_u32_digits(n / 10, out);
    }
    out.append(digit_str(n % 10));
    proof {
        if n < 10 {
            assert(old(out)@ + dec_digits(n as nat) =~= final(out)@);
        } else {
            assert(old(out)@ + dec_digits(n as nat) =~= final(out)@);
        }
    }
}

/// Renders `v` in decimal, as `i32`'s `Display` does.
pub fn i32_to_string(v: i32) -> (r: String)
    ensures
        r@ == int_str(v as int),
{
    let mut out = String::new();
    if v < 0 {
        out.append("-");
        let magnitude: u32 = (0i64 - (v as i64)) as u32;
        push_u32_digits(magnitude, &mut out);
        proof {
            reveal_strlit("-");
            assert(out@ =~= int_str(v as int));
        }
    } else {
        push_u32_digits(v as u32, &mut out);
        proof {
            assert(out@ =~= int_str(v as int));
        }
    }
    out
}

/// Renders `v` in decimal, as `i64`'s `Display` does.
pub fn i64_to_string(v: i64) -> (r: String)
    ensures
        r@ == int_str(v as int),
{
    let mut out = String::new();
    if v < 0 {
        out.append("-");
        let magnitude: u64 = (0i128 - (v as i128)) as u64;
        push_u64_digits(magnitude, &mut out);
        proof {
            reveal_strlit("-");
            assert(out@ =~= int_str(v as int));
        }
    } else {
        push_u64_digits(v as u64, &mut out);
        proof {
            assert(out@ =~= int_str(v as int));
        }
    }
    out
}

/// Appends the decimal digits of `n`.
fn push_u64_digits(n: u64, out: &mut String)
    ensures
        final(out)@ == old(out)@ + dec_digits(n as nat),
    decreases n,
{
    if n >= 10 {
        push_u64_digits(n / 10, out);
    }
    out.append(digit_str((n % 10) as u32));
    proof {
        assert(old(out)@ + dec_digits(n as nat) =~= final(out)@);
    }
}

/// Renders `v` in decimal, as `u64`'s `Display` does.
pub fn u64_to_string(v: u64) -> (r: String)
    ensures
        r@ == dec_digits(v as nat),
{
    let mut out = String::new();
    push_u64_digits(v, &mut out);
    proof {
        assert(out@ =~= dec_digits(v as nat));
    }
    out
}


/// Position of the first occurrence of `needle` in `s`, or -1; an empty
/// needle occurs at position 0.
pub open spec fn find_sub(s: Seq<char>, needle: Seq<char>) -> int
    decreases s.len(),
{
    if needle.len() <= s.len() && s.take(needle.len() as int) == needle {
        0
    } else if s.len() == 0 {
        -1
    } else {
        let r = find_sub(s.drop_first(), needle);
        if r < 0 {
            -1
        } else {
            r + 1
        }
    }
}

/// `s` with its first occurrence of `from` replaced by `to`; `s` itself
/// when `from` does not occur.
pub open spec fn replace_first(s: Seq<char>, from: Seq<char>, to: Seq<char>) -> Seq<char> {
    let idx = find_sub(s, from);
    if idx < 0 {
        s
    } else {
        s.take(idx) + to + s.skip(idx + from.len())
    }
}

pub open spec fn matches_at(s: Seq<char>, needle: Seq<char>, i: int) -> bool {
    i + needle.len() <= s.len() && s.subrange(i, i + needle.len()) == needle
}

proof fn lemma_find_sub_at(s: Seq<char>, needle: Seq<char>, i: int)
    requires
        0 <= i <= s.len(),
        forall|k: int| 0 <= k < i ==> !matches_at(s, needle, k),
        i < s.len() || i == s.len() ==> true,
        matches_at(s, needle, i) || (forall|k: int| 0 <= k <= s.len() - needle.len() ==> !matches_at(s, needle, k)),
    ensures
        matches_at(s, needle, i) ==> find_sub(s, needle) == i,
        (forall|k: int| 0 <= k <= s.len() - needle.len() ==> !matches_at(s, needle, k))
            ==> find_sub(s, needle) == -1,
    decreases s.len(),
{
    if matches_at(s, needle, i) {
        if i == 0 {
            assert(s.take(needle.len() as int) =~= s.subrange(0, needle.len() as int));
        } else {
            assert(!matches_at(s, needle, 0));
            assert(s.take(needle.len() as int) =~= s.subrange(0, needle.len() as int));
            let t = s.drop_first();
            assert(t =~= s.skip(1));
            assert forall|k: int| 0 <= k < i - 1 implies !matches_at(t, needle, k) by {
                assert(t.subrange(k, k + needle.len()) =~= s.subrange(k + 1, k + 1 + needle.len()));
                assert(!matches_at(s, needle, k + 1));
            }
            assert(matches_at(t, needle, i - 1)) by {
                assert(t.subrange(i - 1, i - 1 + needle.len()) =~= s.subrange(
                    i,
                    i + needle.len(),
                ));
            }
            lemma_find_sub_at(t, needle, i - 1);
        }
    } else if forall|k: int| 0 <= k <= s.len() - needle.len() ==> !matches_at(s, needle, k) {
        if needle.len() <= s.len() && s.take(needle.len() as int) == needle {
            assert(matches_at(s, needle, 0)) by {
                assert(s.take(needle.len() as int) =~= s.subrange(0, needle.len() as int));
            }
        } else if s.len() > 0 {
            let t = s.drop_first();
            assert(t =~= s.skip(1));
            assert forall|k: int| 0 <= k <= t.len() - needle.len() implies !matches_at(
                t,
                needle,
                k,
            ) by {
                assert(t.subrange(k, k + needle.len()) =~= s.subrange(k + 1, k + 1 + needle.len()));
                assert(!matches_at(s, needle, k + 1));
            }
            lemma_find_sub_at(t, needle, 0);
        }
    }
}

/// Whether `needle` occurs at position `i` of `s`, decided character by
/// character.
fn check_match_at(s: &str, needle: &str, i: usize) -> (r: bool)
    requires
        i + needle@.len() <= s@.len(),
    ensures
        r == matches_at(s@, needle@, i as int),
{
    let slen = s.unicode_len();
    let nlen = needle.unicode_len();
    let mut k: usize = 0;
    while k < nlen
        invariant
            k <= nlen,
            nlen == needle@.len(),
            slen == s@.len(),
            i + nlen <= slen,
            forall|m: int| 0 <= m < k ==> s@[i + m] == needle@[m],
        decreases nlen - k,
    {
        if s.get_char(i + k) != needle.get_char(k) {
            proof {
                assert(s@.subrange(i as int, i + nlen)[k as int] == s@[i + k]);
            }
            return false;
        }
        k += 1;
    }
    proof {
        assert(s@.subrange(i as int, i + nlen) =~= needle@);
    }
    true
}

/// Replaces the first occurrence of `from` in `s` by `to`, as
/// `str::replacen(from, to, 1)` does; `s` is returned unchanged when `from`
/// does not occur.
pub fn replace_first_str(s: &str, from: &str, to: &str) -> (r: String)
    ensures
        r@ == replace_first(s@, from@, to@),
{
    let slen = s.unicode_len();
    let flen = from.unicode_len();
    if flen > slen {
        proof {
            assert forall|k: int| 0 <= k <= s@.len() - from@.len() implies !matches_at(
                s@,
                from@,
                k,
            ) by {}
            lemma_find_sub_at(s@, from@, 0);
        }
        return String::from_str(s);
    }
    if flen == 0 {
        proof {
            assert(matches_at(s@, from@, 0)) by {
                assert(s@.subrange(0, 0) =~= from@);
            }
            lemma_find_sub_at(s@, from@, 0);
        }
        let mut out = String::from_str(to);
        out.append(s);
        proof {
            assert(out@ =~= replace_first(s@, from@, to@));
        }
        return out;
    }
    let mut i: usize = 0;
    while i <= slen - flen
        invariant
            i <= slen - flen + 1,
            slen == s@.len(),
            flen == from@.len(),
            1 <= flen <= slen,
            forall|k: int| 0 <= k < i ==> !matches_at(s@, from@, k),
        decreases slen - i,
    {
        if check_match_at(s, from, i) {
            proof {
                lemma_find_sub_at(s@, from@, i as int);
            }
            let mut out = String::from_str(s.substring_char(0, i));
            out.append(to);
            out.append(s.substring_char(i + flen, slen));
            proof {
                assert(out@ =~= replace_first(s@, from@, to@));
            }
            return out;
        }
        i += 1;
    }
    proof {
        assert forall|k: int| 0 <= k <= s@.len() - from@.len() implies !matches_at(
            s@,
            from@,
            k,
        ) by {}
        lemma_find_sub_at(s@, from@, i as int);
    }
    String::from_str(s)
}


} // verus!

//! Container memory sampling: the used portion of a stats line such as
//! `"1.5GiB / 16GiB"` becomes a byte count, samples are gathered behind a
//! tracking flag, and a round is reduced to its median and 99th percentile.

use crate::percentile::{p50_index, p99_index, sorted_i64};
use crate::text::{all_digits, char_split, digits_val, is_digit, trim_spaces};
use vstd::prelude::*;

verus! {

/// Why a memory figure was refused: the number did not have the
/// `<digits>[.<digits>]<unit>` shape, or the unit is not one the runtime
/// emits.
#[derive(Debug, Clone, PartialEq, Eq)]
pub enum MemParseError {
    Malformed,
    UnknownUnit(String),
}

/// First position at or after `i` that does not hold a digit.
pub open spec fn digits_end(t: Seq<char>, i: int) -> int
    decreases t.len() - i,
{
    if i < t.len() && is_digit(t[i]) {
        digits_end(t, i + 1)
    } else {
        i
    }
}

/// The integer digits of the number at the head of `t`.
pub open spec fn mem_int_digits(t: Seq<char>) -> Seq<char> {
    t.take(digits_end(t, 0))
}

/// The fractional digits of the number at the head of `t`, empty without a
/// dot.
pub open spec fn mem_frac_digits(t: Seq<char>) -> Seq<char> {
    let a = digits_end(t, 0);
    if a < t.len() && t[a] == '.' {
        t.subrange(a + 1, digits_end(t, a + 1))
    } else {
        Seq::empty()
    }
}

/// What follows the number at the head of `t`: the unit.
pub open spec fn mem_unit(t: Seq<char>) -> Seq<char> {
    let a = digits_end(t, 0);
    if a < t.len() && t[a] == '.' {
        t.skip(digits_end(t, a + 1))
    } else {
        t.skip(a)
    }
}

/// `t` starts with `<digits>[.<digits>]`, with at least one digit in all and
/// at least one digit after a dot; more than 18 fractional digits are
/// refused so the byte count stays exact.
pub open spec fn mem_shape_ok(t: Seq<char>) -> bool {
    let a = digits_end(t, 0);
    mem_int_digits(t).len() + mem_frac_digits(t).len() > 0 && (a < t.len() && t[a] == '.'
        ==> mem_frac_digits(t).len() > 0) && mem_frac_digits(t).len() <= 18
}

/// Bytes per unit: the binary prefixes the container runtime emits.
pub open spec fn unit_factor(u: Seq<char>) -> Option<int> {
    if u == "KiB"@ {
        Some(1024int)
    } else if u == "MiB"@ {
        Some(1048576int)
    } else if u == "GiB"@ {
        Some(1073741824int)
    } else {
        None
    }
}

pub open spec fn pow10(k: nat) -> int
    decreases k,
{
    if k == 0 {
        1
    } else {
        10 * pow10((k - 1) as nat)
    }
}

/// The byte count of the number at the head of `t` under `factor` bytes per
/// unit, rounded down, saturating at the largest signed 64-bit value.
pub open spec fn mem_bytes_val(t: Seq<char>, factor: int) -> int {
    let total = digits_val(mem_int_digits(t)) * factor + digits_val(mem_frac_digits(t)) * factor
        / pow10(mem_frac_digits(t).len());
    if total > i64::MAX {
        i64::MAX as int
    } else {
        total
    }
}

/// The used portion of a `"<used> / <limit>"` figure, trimmed: the limit is
/// ignored.
pub open spec fn mem_used_part(s: Seq<char>) -> Seq<char> {
    trim_spaces(char_split(s, '/')[0])
}

proof fn lemma_digits_end_at(t: Seq<char>, i: int, j: int)
    requires
        0 <= i <= j <= t.len(),
        forall|k: int| i <= k < j ==> is_digit(t[k]),
        j < t.len() ==> !is_digit(t[j]),
    ensures
        digits_end(t, i) == j,
    decreases j - i,
{
    if i < j {
        lemma_digits_end_at(t, i + 1, j);
    }
}

/// Digit strings are bounded by the power of ten of their length.
proof fn lemma_digits_val_lt_pow10(s: Seq<char>)
    requires
        all_digits(s),
    ensures
        0 <= digits_val(s) < pow10(s.len()),
    decreases s.len(),
{
    if s.len() > 0 {
        let t = s.drop_last();
        assert(all_digits(t)) by {
            assert(forall|i: int| 0 <= i < t.len() ==> t[i] == s[i]);
        }
        lemma_digits_val_lt_pow10(t);
        assert(is_digit(s.last()));
        assert(digits_val(s) == digits_val(t) * 10 + (s.last() as u32 - 48));
        assert(digits_val(t) * 10 + 9 < pow10(t.len()) * 10) by (nonlinear_arith)
            requires
                digits_val(t) < pow10(t.len()),
        ;
    }
}

/// First position at or after `from` that does not hold an ASCII digit.
fn find_digits_end(t: &str, from: usize) -> (r: usize)
    requires
        from <= t@.len(),
    ensures
        r == digits_end(t@, from as int),
        from <= r <= t@.len(),
        forall|k: int| from <= k < r ==> is_digit(t@[k]),
{
    let len = t.unicode_len();
    let mut i = from;
    while i < len
        invariant
            from <= i <= len,
            len == t@.len(),
            forall|k: int| from <= k < i ==> is_digit(t@[k]),
        decreases len - i,
    {
        let c = t.get_char(i) as u32;
        if c < 48 || c > 57 {
            proof {
                lemma_digits_end_at(t@, from as int, i as int);
            }
            return i;
        }
        i += 1;
    }
    proof {
        lemma_digits_end_at(t@, from as int, len as int);
    }
    i
}

/// Reads the digits `[from, to)` of `t` into an accumulator that saturates
/// once the value can no longer influence a 64-bit byte count.
fn read_digits(t: &str, from: usize, to: usize) -> (r: u128)
    requires
        from <= to <= t@.len(),
        forall|k: int| from <= k < to ==> is_digit(t@[k]),
    ensures
        ({
            let v = digits_val(t@.subrange(from as int, to as int));
            (v <= 0x1_0000_0000_0000_0000u128 && r == v) || (v > 0x1_0000_0000_0000_0000u128 && r
                == 0x1_0000_0000_0000_0000u128)
        }),
{
    let ghost body = t@.subrange(from as int, to as int);
    proof {
        assert(all_digits(body)) by {
            assert(forall|k: int| 0 <= k < body.len() ==> body[k] == t@[from + k]);
        }
    }
    let mut val: u128 = 0;
    let mut i = from;
    while i < to
        invariant
            from <= i <= to <= t@.len(),
            body == t@.subrange(from as int, to as int),
            all_digits(body),
            forall|k: int| from <= k < to ==> is_digit(t@[k]),
            ({
                let v = digits_val(body.take(i - from));
                (v <= 0x1_0000_0000_0000_0000u128 && val == v) || (v
                    > 0x1_0000_0000_0000_0000u128 && val == 0x1_0000_0000_0000_0000u128)
            }),
        decreases to - i,
    {
        let c = t.get_char(i) as u32;
        proof {
            assert(body.take(i - from + 1).drop_last() =~= body.take(i - from));
            assert(body.take(i - from + 1).last() == body[i - from]);
            assert(body[i - from] == t@[i as int]);
            crate::version::lemma_digits_val_bounds(body.take(i - from), i - from);
        }
        let d = (c - 48) as u128;
        let v2 = val * 10 + d;
        if v2 > 0x1_0000_0000_0000_0000u128 {
            val = 0x1_0000_0000_0000_0000u128;
        } else {
            val = v2;
        }
        proof {
            let prev = digits_val(body.take(i - from));
            let now = digits_val(body.take(i - from + 1));
            let dv = t@[i as int] as u32 - 48;
            assert(now == prev * 10 + dv);
            if prev > 0x1_0000_0000_0000_0000u128 {
                assert(now >= prev) by (nonlinear_arith)
                    requires
                        prev >= 0 && now == prev * 10 + dv && dv >= 0,
                ;
            }
        }
        i += 1;
    }
    proof {
        assert(body.take(to - from) =~= body);
    }
    val
}

/// Ten to the `k`.
fn pow10_exec(k: usize) -> (r: u128)
    requires
        k <= 18,
    ensures
        r == pow10(k as nat),
        r >= 1,
{
    let mut r: u128 = 1;
    let mut i: usize = 0;
    while i < k
        invariant
            i <= k <= 18,
            r == pow10(i as nat),
            r >= 1,
        decreases k - i,
    {
        proof {
            lemma_pow10_bound(i as nat);
        }
        r = r * 10;
        i += 1;
    }
    r
}

proof fn lemma_pow10_pos(k: nat)
    ensures
        pow10(k) >= 1,
    decreases k,
{
    if k > 0 {
        lemma_pow10_pos((k - 1) as nat);
    }
}

proof fn lemma_pow10_le(k1: nat, k2: nat)
    requires
        k1 <= k2,
    ensures
        1 <= pow10(k1) <= pow10(k2),
    decreases k2,
{
    if k1 < k2 {
        lemma_pow10_le(k1, (k2 - 1) as nat);
    } else {
        lemma_pow10_pos(k1);
    }
}

proof fn lemma_pow10_bound(k: nat)
    requires
        k <= 18,
    ensures
        1 <= pow10(k) <= 1000000000000000000,
{
    lemma_pow10_le(k, 18);
    assert(pow10(18) == 1000000000000000000) by {
        reveal_with_fuel(pow10, 20);
    }
}

/// Parses the used portion of a memory figure such as `"1.5GiB / 16GiB"`
/// into bytes: the number times 1024 to the unit's power, rounded down,
/// saturating at the largest 64-bit value; the limit after `/` is ignored.
pub fn parse_mem_usage(mem_usage: &str) -> (r: Result<i64, MemParseError>)
    ensures
        ({
            let t = mem_used_part(mem_usage@);
            match r {
                Ok(b) => mem_shape_ok(t) && (match unit_factor(mem_unit(t)) {
                    Some(f) => b == mem_bytes_val(t, f),
                    None => false,
                }),
                Err(MemParseError::Malformed) => !mem_shape_ok(t),
                Err(MemParseError::UnknownUnit(u)) => mem_shape_ok(t) && unit_factor(mem_unit(t))
                    is None && u@ == mem_unit(t),
            }
        }),
{
    let slash = crate::text::find_char_from(mem_usage, 0, '/');
    let used = mem_usage.substring_char(0, slash);
    proof {
        crate::text::lemma_char_split_step(mem_usage@, '/', slash as int);
        assert(char_split(mem_usage@, '/')[0] == used@);
    }
    let trimmed_string = crate::text::trim_str(used);
    let trimmed = trimmed_string.as_str();
    proof {
        assert(trimmed@ == mem_used_part(mem_usage@));
    }
    let tlen = trimmed.unicode_len();
    let a = find_digits_end(&trimmed, 0);
    let (num_end, frac_from, frac_to): (usize, usize, usize) = if a < tlen && trimmed.get_char(a)
        == '.' {
        let b = find_digits_end(&trimmed, a + 1);
        (b, a + 1, b)
    } else {
        (a, a, a)
    };
    proof {
        assert(mem_int_digits(trimmed@) == trimmed@.subrange(0, a as int));
        assert(mem_frac_digits(trimmed@) =~= trimmed@.subrange(frac_from as int, frac_to as int));
    }
    if a == 0 && frac_to == frac_from {
        return Err(MemParseError::Malformed);
    }
    if a < tlen && trimmed.get_char(a) == '.' && frac_to == frac_from {
        return Err(MemParseError::Malformed);
    }
    if frac_to - frac_from > 18 {
        return Err(MemParseError::Malformed);
    }
    let unit = trimmed.substring_char(num_end, tlen);
    proof {
        assert(unit@ == mem_unit(trimmed@));
        reveal_strlit("KiB");
        reveal_strlit("MiB");
        reveal_strlit("GiB");
    }
    let factor: u128 = if crate::text::str_eq_str(unit, "KiB") {
        1024
    } else if crate::text::str_eq_str(unit, "MiB") {
        1048576
    } else if crate::text::str_eq_str(unit, "GiB") {
        1073741824
    } else {
        return Err(MemParseError::UnknownUnit(String::from_str(unit)));
    };
    let int_val = read_digits(&trimmed, 0, a);
    let frac_val = read_digits(&trimmed, frac_from, frac_to);
    let p = pow10_exec(frac_to - frac_from);
    proof {
        let fd = mem_frac_digits(trimmed@);
        assert(all_digits(fd)) by {
            assert(forall|k: int| 0 <= k < fd.len() ==> fd[k] == trimmed@[frac_from + k]);
        }
        lemma_digits_val_lt_pow10(fd);
        lemma_pow10_bound(fd.len());
    }
    let total: u128 = if int_val >= 0x1_0000_0000_0000_0000u128 {
        0xffff_ffff_ffff_ffff_ffff_ffffu128
    } else {
        int_val * factor + frac_val * factor / p
    };
    if total > 0x7fff_ffff_ffff_ffffu128 {
        proof {
            let t = trimmed@;
            let f = factor as int;
            if int_val >= 0x1_0000_0000_0000_0000u128 {
                assert(digits_val(mem_int_digits(t)) >= 0x1_0000_0000_0000_0000);
                assert(digits_val(mem_int_digits(t)) * f > i64::MAX) by (nonlinear_arith)
                    requires
                        digits_val(mem_int_digits(t)) >= 0x1_0000_0000_0000_0000 && f >= 1024,
                ;
                assert(digits_val(mem_frac_digits(t)) * f / pow10(mem_frac_digits(t).len())
                    >= 0) by {
                    crate::version::lemma_digits_val_bounds(
                        mem_frac_digits(t),
                        mem_frac_digits(t).len() as int,
                    );
                    assert(digits_val(mem_frac_digits(t)) * f >= 0) by (nonlinear_arith)
                        requires
                            digits_val(mem_frac_digits(t)) >= 0 && f >= 1024,
                    ;
                }
            }
        }
        return Ok(i64::MAX);
    }
    Ok(total as i64)
}

/// Position of the first occurrence of `c`, or -1.
pub open spec fn find_idx(s: Seq<char>, c: char) -> int
    decreases s.len(),
{
    if s.len() == 0 {
        -1
    } else if s[0] == c {
        0
    } else {
        let r = find_idx(s.drop_first(), c);
        if r < 0 {
            -1
        } else {
            r + 1
        }
    }
}

/// Position of the last occurrence of `c`, or -1.
pub open spec fn rfind_idx(s: Seq<char>, c: char) -> int
    decreases s.len(),
{
    if s.len() == 0 {
        -1
    } else if s.last() == c {
        s.len() - 1
    } else {
        rfind_idx(s.drop_last(), c)
    }
}

/// The JSON object framed by the first `{` and the last `}` of a stats
/// line, empty when no such frame exists; terminal-control bytes around the
/// object are discarded this way.
pub open spec fn stats_frame(s: Seq<char>) -> Seq<char> {
    let a = find_idx(s, '{');
    let b = rfind_idx(s, '}');
    if 0 <= a && a <= b {
        s.subrange(a, b + 1)
    } else {
        Seq::empty()
    }
}

proof fn lemma_find_idx_at(s: Seq<char>, c: char, i: int)
    requires
        0 <= i <= s.len(),
        forall|k: int| 0 <= k < i ==> s[k] != c,
        i < s.len() ==> s[i] == c,
    ensures
        find_idx(s, c) == if i < s.len() {
            i
        } else {
            -1
        },
    decreases i,
{
    if s.len() > 0 {
        if i == 0 {
        } else {
            assert(s.drop_first() =~= s.skip(1));
            lemma_find_idx_at(s.skip(1), c, i - 1);
        }
    }
}

proof fn lemma_rfind_idx_at(s: Seq<char>, c: char, j: int)
    requires
        -1 <= j < s.len(),
        forall|k: int| j < k < s.len() ==> s[k] != c,
        j >= 0 ==> s[j] == c,
    ensures
        rfind_idx(s, c) == j,
    decreases s.len() - j,
{
    if s.len() > 0 && j < s.len() - 1 {
        assert(s.drop_last() =~= s.take(s.len() - 1));
        lemma_rfind_idx_at(s.take(s.len() - 1), c, j);
    }
}

/// The `Name` and `MemUsage` string fields of a stats line's JSON object,
/// when it parses as an object carrying both as strings.
pub uninterp spec fn stats_fields(s: Seq<char>) -> Option<(Seq<char>, Seq<char>)>;

/// Relies on serde_json::from_str and serde_json::Value::get / Value::as_str:
/// the `Name` and `MemUsage` string fields of one JSON object, or nothing
/// when the text does not parse as an object carrying both.
#[verifier::external_body]
fn stats_json_fields(s: &str) -> (r: Option<(String, String)>)
    ensures
        match r {
            Some(pair) => stats_fields(s@) == Some((pair.0@, pair.1@)),
            None => stats_fields(s@) is None,
        },
{
    let v: serde_json::Value = serde_json::from_str(s).ok()?;
    let name = v.get("Name")?.as_str()?.to_string();
    let mem = v.get("MemUsage")?.as_str()?.to_string();
    Some((name, mem))
}

/// The memory figure a stats line contributes while tracking is on: the
/// `MemUsage` field of the framed JSON object, provided the line belongs to
/// the tracked container.
pub open spec fn relevant_mem(line: Seq<char>, container: Seq<char>, tracking: bool) -> Option<
    Seq<char>,
> {
    if !tracking {
        None
    } else {
        let f = stats_frame(line);
        if f.len() == 0 {
            None
        } else {
            match stats_fields(f) {
                Some((name, mem)) => if name == container {
                    Some(mem)
                } else {
                    None
                },
                None => None,
            }
        }
    }
}

/// What one stats line yields: nothing, one byte sample, or a fatal
/// formatting fault.
pub enum StatsLineOutcome {
    Skipped,
    Sample(i64),
    Invalid(MemParseError),
}

/// Classifies one line of the streaming stats feed. Lines that do not carry
/// a JSON object for the tracked container are skipped; a line whose
/// `MemUsage` field cannot be read as `<number><unit>` with a known unit is
/// a fatal fault, since it signals a runtime format change.
pub fn process_stats_line(line: &str, container_name: &str, tracking: bool) -> (r:
    StatsLineOutcome)
    ensures
        match r {
            StatsLineOutcome::Skipped => relevant_mem(line@, container_name@, tracking) is None,
            StatsLineOutcome::Sample(b) => (match relevant_mem(line@, container_name@, tracking) {
                Some(mem) => mem_shape_ok(mem_used_part(mem)) && (match unit_factor(
                    mem_unit(mem_used_part(mem)),
                ) {
                    Some(f) => b == mem_bytes_val(mem_used_part(mem), f),
                    None => false,
                }),
                None => false,
            }),
            StatsLineOutcome::Invalid(e) => (match relevant_mem(line@, container_name@, tracking) {
                Some(mem) => (match e {
                    MemParseError::Malformed => !mem_shape_ok(mem_used_part(mem)),
                    MemParseError::UnknownUnit(u) => mem_shape_ok(mem_used_part(mem))
                        && unit_factor(mem_unit(mem_used_part(mem))) is None && u@ == mem_unit(
                        mem_used_part(mem),
                    ),
                }),
                None => false,
            }),
        },
{
    if !tracking {
        return StatsLineOutcome::Skipped;
    }
    let len = line.unicode_len();
    let start = crate::text::find_char_from(line, 0, '{');
    let mut end: usize = len;
    while end > 0 && line.get_char(end - 1) != '}'
        invariant
            end <= len,
            len == line@.len(),
            forall|k: int| end <= k < len ==> line@[k] != '}',
        decreases end,
    {
        end -= 1;
    }
    proof {
        lemma_find_idx_at(line@, '{', start as int);
        lemma_rfind_idx_at(line@, '}', end - 1);
    }
    if start >= len || end == 0 || end <= start {
        proof {
            assert(stats_frame(line@) =~= Seq::<char>::empty());
        }
        return StatsLineOutcome::Skipped;
    }
    let trimmed = line.substring_char(start, end);
    proof {
        assert(trimmed@ == stats_frame(line@));
    }
    let (name, mem) = match stats_json_fields(trimmed) {
        Some(pair) => pair,
        None => {
            return StatsLineOutcome::Skipped;
        },
    };
    if !crate::text::str_eq_str(name.as_str(), container_name) {
        return StatsLineOutcome::Skipped;
    }
    match parse_mem_usage(mem.as_str()) {
        Ok(b) => StatsLineOutcome::Sample(b),
        Err(e) => StatsLineOutcome::Invalid(e),
    }
}

/// The median and worst-case memory footprint of one round, in bytes.
pub struct MemoryUsage {
    pub median: i64,
    pub p99: i64,
}

/// The sampler's shared state: the tracking flag gating collection and the
/// append-only sample buffer, cleared at round start.
pub struct SamplerState {
    pub is_tracking: bool,
    pub ram_usage: Vec<i64>,
}

impl SamplerState {
    /// A sampler that is not yet tracking, with no samples.
    pub fn new() -> (r: SamplerState)
        ensures
            !r.is_tracking,
            r.ram_usage@.len() == 0,
    {
        SamplerState { is_tracking: false, ram_usage: Vec::new() }
    }

    /// Clears the buffer and turns tracking on.
    pub fn start(&mut self)
        ensures
            final(self).is_tracking,
            final(self).ram_usage@.len() == 0,
    {
        self.ram_usage.clear();
        self.is_tracking = true;
    }

    /// Turns tracking off; the samples gathered so far stay.
    pub fn stop(&mut self)
        ensures
            !final(self).is_tracking,
            final(self).ram_usage == old(self).ram_usage,
    {
        self.is_tracking = false;
    }

    /// Appends one sample while tracking is on; otherwise the sample is
    /// dropped.
    pub fn record(&mut self, sample: i64)
        ensures
            final(self).is_tracking == old(self).is_tracking,
            old(self).is_tracking ==> final(self).ram_usage@ == old(self).ram_usage@.push(sample),
            !old(self).is_tracking ==> final(self).ram_usage == old(self).ram_usage,
    {
        if self.is_tracking {
            self.ram_usage.push(sample);
        }
    }

    /// The median and 99th percentile over the sorted samples, `{0, 0}` on a
    /// round that gathered none; the buffer is left sorted.
    pub fn get_memory_usage(&mut self) -> (r: MemoryUsage)
        ensures
            final(self).is_tracking == old(self).is_tracking,
            final(self).ram_usage@.to_multiset() == old(self).ram_usage@.to_multiset(),
            final(self).ram_usage@.len() == old(self).ram_usage@.len(),
            sorted_i64(final(self).ram_usage@),
            old(self).ram_usage@.len() == 0 ==> r.median == 0 && r.p99 == 0,
            old(self).ram_usage@.len() > 0 ==> r.median == final(self).ram_usage@[p50_index(
                final(self).ram_usage@.len() as int,
            )] && r.p99 == final(self).ram_usage@[p99_index(final(self).ram_usage@.len() as int)],
    {
        let cloned = self.ram_usage.clone();
        proof {
            assert(cloned@ =~= self.ram_usage@);
        }
        let sorted = crate::sorting::sort_i64(cloned);
        self.ram_usage = sorted;
        if self.ram_usage.len() == 0 {
            return MemoryUsage { median: 0, p99: 0 };
        }
        MemoryUsage {
            median: crate::percentile::p50(&self.ram_usage),
            p99: crate::percentile::p99(&self.ram_usage),
        }
    }
}


} // verus!

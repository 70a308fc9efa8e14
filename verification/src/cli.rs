//! The command-line surface's data model and its parsing logic: the
//! argument records handed in by the outer program, codepoint
//! specification parsing, criteria construction, and the tallying of a
//! scan's outcomes.

use crate::query::QueryCriteria;
use crate::strutil::chars_of;
use crate::FontgrepcError;
use crate::Result;
use vstd::prelude::*;

verus! {

/// Command-line arguments: the subcommand plus the global switches.
#[derive(Debug)]
pub struct Cli {
    /// Subcommand to execute.
    pub command: Commands,
    /// Path to the cache file, or `None` for the default location.
    pub cache_path: Option<String>,
    /// Enable verbose output.
    pub verbose: bool,
    /// Output as JSON.
    pub json: bool,
}

/// The subcommands.
#[derive(Debug)]
pub enum Commands {
    /// Find fonts in the cache based on various criteria.
    Find(SearchArgs),
    /// Add fonts to the cache.
    Add(UpdateArgs),
    /// List all fonts in the cache.
    List,
    /// Remove missing fonts from the cache.
    Clean,
}

/// Arguments for the search command.
#[derive(Debug)]
pub struct SearchArgs {
    /// Directories or font files to search.
    pub paths: Vec<String>,
    /// Variation axes to search for.
    pub axes: Vec<String>,
    /// OpenType features to search for.
    pub features: Vec<String>,
    /// OpenType scripts to search for.
    pub scripts: Vec<String>,
    /// Font tables to search for.
    pub tables: Vec<String>,
    /// Only show variable fonts.
    pub variable: bool,
    /// Regular expressions to match against font names.
    pub name: Vec<String>,
    /// Unicode codepoints or ranges to search for.
    pub codepoints_str: Vec<String>,
    /// Text to check for support.
    pub text: Option<String>,
}

/// Arguments for the update command.
#[derive(Debug)]
pub struct UpdateArgs {
    /// Directories or font files to index.
    pub paths: Vec<String>,
    /// Force update even if fonts have not changed.
    pub force: bool,
    /// Number of parallel jobs to use.
    pub jobs: usize,
}

/// What happened to one candidate file during an indexing scan.
#[derive(Debug, PartialEq, Eq, Structural, Clone, Copy)]
pub enum ScanOutcome {
    /// The file was read and its record queued for writing.
    Added,
    /// The file was unchanged and skipped.
    Skipped,
    /// Reading or extraction failed; the file was left out.
    Failed,
}

/// How many of the outcomes are the given one.
pub open spec fn count_outcomes(s: Seq<ScanOutcome>, o: ScanOutcome) -> int
    decreases s.len(),
{
    if s.len() == 0 {
        0
    } else {
        count_outcomes(s.drop_last(), o) + if s.last() == o {
            1int
        } else {
            0int
        }
    }
}

/// Aggregates a scan's per-file outcomes into (processed, skipped,
/// errors) counters; a single file's failure never aborts the scan.
pub fn tally_outcomes(outcomes: &Vec<ScanOutcome>) -> (r: (usize, usize, usize))
    ensures
        r.0 == count_outcomes(outcomes@, ScanOutcome::Added),
        r.1 == count_outcomes(outcomes@, ScanOutcome::Skipped),
        r.2 == count_outcomes(outcomes@, ScanOutcome::Failed),
{
    proof {
        lemma_count_outcomes_bounds(outcomes@, ScanOutcome::Added);
        lemma_count_outcomes_bounds(outcomes@, ScanOutcome::Skipped);
        lemma_count_outcomes_bounds(outcomes@, ScanOutcome::Failed);
    }
    let mut added: usize = 0;
    let mut skipped: usize = 0;
    let mut failed: usize = 0;
    let mut i: usize = 0;
    while i < outcomes.len()
        invariant
            i <= outcomes@.len(),
            added == count_outcomes(outcomes@.take(i as int), ScanOutcome::Added),
            skipped == count_outcomes(outcomes@.take(i as int), ScanOutcome::Skipped),
            failed == count_outcomes(outcomes@.take(i as int), ScanOutcome::Failed),
            added + skipped + failed <= i,
        decreases outcomes@.len() - i,
    {
        proof {
            assert(outcomes@.take(i + 1).drop_last() =~= outcomes@.take(i as int));
            assert(outcomes@.take(i + 1).last() == outcomes@[i as int]);
        }
        match outcomes[i] {
            ScanOutcome::Added => {
                added = added + 1;
            },
            ScanOutcome::Skipped => {
                skipped = skipped + 1;
            },
            ScanOutcome::Failed => {
                failed = failed + 1;
            },
        }
        i = i + 1;
    }
    proof {
        assert(outcomes@.take(outcomes@.len() as int) =~= outcomes@);
    }
    (added, skipped, failed)
}

proof fn lemma_count_outcomes_bounds(s: Seq<ScanOutcome>, o: ScanOutcome)
    ensures
        0 <= count_outcomes(s, o) <= s.len(),
    decreases s.len(),
{
    if s.len() > 0 {
        lemma_count_outcomes_bounds(s.drop_last(), o);
    }
}

/// Whether `v` is a Unicode scalar value (a valid codepoint that is not
/// a surrogate).
pub open spec fn scalar_valid(v: int) -> bool {
    (0 <= v && v < 0xD800) || (0xE000 <= v && v <= 0x10FFFF)
}

/// The scalar value of a character.
pub open spec fn char_value(c: char) -> int {
    c as int
}

/// The character with scalar value `v` (meaningful when `v` is valid).
pub open spec fn char_of(v: int) -> char {
    choose|c: char| char_value(c) == v
}

/// A character is a Unicode scalar value; its casts to `u32` and to
/// the mathematical integers agree.
proof fn lemma_char_bounds(c: char)
    ensures
        scalar_valid(c as int),
        c as u32 == c as int,
{
}

/// Whether `c` is an ASCII hexadecimal digit.
pub open spec fn is_hex_digit(c: char) -> bool {
    ('0' <= c && c <= '9') || ('a' <= c && c <= 'f') || ('A' <= c && c <= 'F')
}

/// The value of a hexadecimal digit.
pub open spec fn hex_digit_val(c: char) -> int {
    if '0' <= c && c <= '9' {
        c as int - '0' as int
    } else if 'a' <= c && c <= 'f' {
        c as int - 'a' as int + 10
    } else {
        c as int - 'A' as int + 10
    }
}

/// Whether every character of `s` is a hexadecimal digit.
pub open spec fn all_hex(s: Seq<char>) -> bool {
    forall|i: int| 0 <= i < s.len() ==> is_hex_digit(#[trigger] s[i])
}

/// The numeric value of a hexadecimal digit string.
pub open spec fn hex_value(s: Seq<char>) -> int
    decreases s.len(),
{
    if s.len() == 0 {
        0
    } else {
        hex_value(s.drop_last()) * 16 + hex_digit_val(s.last())
    }
}

/// `s` with every leading repetition of the two characters `m`, '+'
/// removed.
pub open spec fn strip_marks(s: Seq<char>, m: char) -> Seq<char>
    decreases s.len(),
{
    if s.len() >= 2 && s[0] == m && s[1] == '+' {
        strip_marks(s.skip(2), m)
    } else {
        s
    }
}

/// What a single codepoint specification denotes: a one-character
/// ASCII string denotes that character itself; anything else is read,
/// after stripping `U+` and `u+` markers, as a hexadecimal scalar
/// value.  `None` when it is not a well-formed, valid codepoint.
pub open spec fn spec_codepoint(s: Seq<char>) -> Option<char> {
    if s.len() == 1 && (s[0] as int) < 128 {
        Some(s[0])
    } else {
        let t = strip_marks(strip_marks(s, 'U'), 'u');
        if t.len() > 0 && all_hex(t) && scalar_valid(hex_value(t)) {
            Some(char_of(hex_value(t)))
        } else {
            None
        }
    }
}

/// Relies on `char::from_u32`: `Some` exactly for Unicode scalar
/// values, holding the character with that value.
#[verifier::external_body]
fn char_from_u32(v: u32) -> (r: Option<char>)
    ensures
        r is Some <==> scalar_valid(v as int),
        r matches Some(c) ==> c as int == v as int,
{
    char::from_u32(v)
}

/// Parse a single codepoint from a string.
fn parse_codepoint(input: &str) -> (r: Result<char>)
    ensures
        r matches Ok(c) ==> spec_codepoint(input@) == Some(c),
        r is Err <==> spec_codepoint(input@) is None,
        r matches Err(e) ==> e is Parse,
{
    let v = chars_of(input);
    proof {
        assert(v@.subrange(0, v@.len() as int) =~= input@);
    }
    parse_codepoint_chars(&v, 0, v.len())
}

/// Whether every character of `s` in `[lo, hi)` differs from `c`.
spec fn none_of(s: Seq<char>, lo: int, hi: int, c: char) -> bool {
    forall|k: int| lo <= k < hi ==> s[k] != c
}

/// Parse a single codepoint from the characters `v[start..end]`.
fn parse_codepoint_chars(v: &Vec<char>, start: usize, end: usize) -> (r: Result<char>)
    requires
        start <= end <= v@.len(),
    ensures
        r matches Ok(c) ==> spec_codepoint(v@.subrange(start as int, end as int)) == Some(c),
        r is Err <==> spec_codepoint(v@.subrange(start as int, end as int)) is None,
        r matches Err(e) ==> e is Parse,
{
    let ghost s = v@.subrange(start as int, end as int);
    if end - start == 1 && (v[start] as u32) < 128 {
        proof {
            assert(s[0] == v@[start as int]);
            lemma_char_bounds(s[0]);
            assert((s[0] as int) < 128);
        }
        return Ok(v[start]);
    }
    proof {
        if s.len() == 1 {
            assert(s[0] == v@[start as int]);
            lemma_char_bounds(s[0]);
            assert(!((s[0] as int) < 128));
        }
    }
    // Strip leading `U+` markers, then leading `u+` markers.
    let mut i = start;
    while end - i >= 2 && v[i] == 'U' && v[i + 1] == '+'
        invariant
            start <= i <= end <= v@.len(),
            strip_marks(v@.subrange(i as int, end as int), 'U') == strip_marks(
                v@.subrange(start as int, end as int),
                'U',
            ),
        decreases end - i,
    {
        proof {
            let cur = v@.subrange(i as int, end as int);
            assert(cur[0] == 'U' && cur[1] == '+');
            assert(cur.skip(2) =~= v@.subrange(i + 2, end as int));
        }
        i = i + 2;
    }
    proof {
        let cur = v@.subrange(i as int, end as int);
        assert(!(cur.len() >= 2 && cur[0] == 'U' && cur[1] == '+')) by {
            if cur.len() >= 2 {
                assert(cur[0] == v@[i as int] && cur[1] == v@[i + 1]);
            }
        }
        assert(strip_marks(v@.subrange(start as int, end as int), 'U') == cur);
    }
    let ghost after_u = v@.subrange(i as int, end as int);
    let u_start = i;
    let mut i = u_start;
    while end - i >= 2 && v[i] == 'u' && v[i + 1] == '+'
        invariant
            u_start <= i <= end <= v@.len(),
            strip_marks(v@.subrange(i as int, end as int), 'u') == strip_marks(
                v@.subrange(u_start as int, end as int),
                'u',
            ),
        decreases end - i,
    {
        proof {
            let cur = v@.subrange(i as int, end as int);
            assert(cur[0] == 'u' && cur[1] == '+');
            assert(cur.skip(2) =~= v@.subrange(i + 2, end as int));
        }
        i = i + 2;
    }
    proof {
        let cur = v@.subrange(i as int, end as int);
        assert(!(cur.len() >= 2 && cur[0] == 'u' && cur[1] == '+')) by {
            if cur.len() >= 2 {
                assert(cur[0] == v@[i as int] && cur[1] == v@[i + 1]);
            }
        }
        assert(strip_marks(after_u, 'u') == cur);
    }
    let ghost t = v@.subrange(i as int, end as int);
    assert(t == strip_marks(strip_marks(s, 'U'), 'u'));
    // Read the remaining characters as a hexadecimal scalar value.
    if i == end {
        assert(t.len() == 0);
        return Err(FontgrepcError::Parse("empty codepoint".to_owned()));
    }
    let hex_start = i;
    let mut i = hex_start;
    let mut value: u32 = 0;
    while i < end
        invariant
            start <= hex_start <= i <= end <= v@.len(),
            s == v@.subrange(start as int, end as int),
            t == strip_marks(strip_marks(s, 'U'), 'u'),
            !(s.len() == 1 && (s[0] as int) < 128),
            t == v@.subrange(hex_start as int, end as int),
            all_hex(t.subrange(0, i - hex_start)),
            value == hex_value(t.subrange(0, i - hex_start)),
            value <= 0x10FFFF,
        decreases end - i,
    {
        let c = v[i];
        assert(t[i - hex_start] == c);
        proof {
            lemma_char_bounds(c);
        }
        let d: u32 = if '0' <= c && c <= '9' {
            (c as u32) - ('0' as u32)
        } else if 'a' <= c && c <= 'f' {
            (c as u32) - ('a' as u32) + 10
        } else if 'A' <= c && c <= 'F' {
            (c as u32) - ('A' as u32) + 10
        } else {
            proof {
                assert(!is_hex_digit(t[i - hex_start]));
                assert(!all_hex(t));
            }
            return Err(FontgrepcError::Parse("invalid codepoint".to_owned()));
        };
        assert(is_hex_digit(t[i - hex_start]) && d == hex_digit_val(t[i - hex_start]));
        proof {
            assert(t.subrange(0, i - hex_start + 1).drop_last() =~= t.subrange(0, i - hex_start));
            assert(t.subrange(0, i - hex_start + 1).last() == t[i - hex_start]);
        }
        let next: u64 = (value as u64) * 16 + (d as u64);
        if next > 0x10FFFF {
            proof {
                if all_hex(t) {
                    lemma_hex_value_monotone(t, i - hex_start + 1);
                    assert(hex_value(t.subrange(0, i - hex_start + 1)) == next);
                    assert(hex_value(t) >= next);
                    assert(!scalar_valid(hex_value(t)));
                }
            }
            return Err(FontgrepcError::Parse("codepoint out of range".to_owned()));
        }
        value = next as u32;
        i = i + 1;
    }
    proof {
        assert(t.subrange(0, end - hex_start) =~= t);
    }
    match char_from_u32(value) {
        Some(c) => {
            proof {
                assert(char_value(c) == hex_value(t));
                assert(char_value(char_of(hex_value(t))) == hex_value(t));
            }
            Ok(c)
        },
        None => Err(FontgrepcError::Parse("invalid codepoint".to_owned())),
    }
}

/// The value of a hexadecimal string is at least the value of each of
/// its prefixes.
proof fn lemma_hex_value_monotone(t: Seq<char>, k: int)
    requires
        0 <= k <= t.len(),
        all_hex(t),
    ensures
        hex_value(t) >= hex_value(t.subrange(0, k)),
        hex_value(t) >= 0,
    decreases t.len() - k,
{
    if k == t.len() {
        assert(t.subrange(0, k) =~= t);
        lemma_hex_value_nonneg(t);
    } else {
        lemma_hex_value_monotone(t, k + 1);
        assert(t.subrange(0, k + 1).drop_last() =~= t.subrange(0, k));
        assert(t.subrange(0, k + 1).last() == t[k]);
        lemma_hex_value_nonneg(t.subrange(0, k));
        assert(is_hex_digit(t[k]));
        assert(hex_digit_val(t[k]) >= 0);
        assert(hex_value(t.subrange(0, k + 1)) >= hex_value(t.subrange(0, k)));
    }
}

proof fn lemma_hex_value_nonneg(t: Seq<char>)
    requires
        all_hex(t),
    ensures
        hex_value(t) >= 0,
    decreases t.len(),
{
    if t.len() > 0 {
        assert(all_hex(t.drop_last())) by {
            assert(forall|i: int| 0 <= i < t.len() - 1 ==> t.drop_last()[i] == t[i]);
        }
        lemma_hex_value_nonneg(t.drop_last());
        assert(is_hex_digit(t.last()));
    }
}

/// The index of the first occurrence of `c` in `s`, or -1 if none.
pub open spec fn find_first(s: Seq<char>, c: char) -> int
    decreases s.len(),
{
    if s.len() == 0 {
        -1
    } else if s[0] == c {
        0
    } else {
        let r = find_first(s.drop_first(), c);
        if r == -1 {
            -1
        } else {
            r + 1
        }
    }
}

proof fn lemma_find_first_at(s: Seq<char>, c: char, i: int)
    requires
        0 <= i <= s.len(),
        none_of(s, 0, i, c),
        i < s.len() ==> s[i] == c,
    ensures
        i < s.len() ==> find_first(s, c) == i,
        i == s.len() ==> find_first(s, c) == -1,
    decreases s.len(),
{
    if s.len() > 0 {
        if s[0] == c {
        } else {
            assert(forall|k: int| 0 <= k < i - 1 ==> s.drop_first()[k] == s[k + 1]);
            lemma_find_first_at(s.drop_first(), c, i - 1);
        }
    }
}

/// The comma- or dash-separated pieces of `s`: the text before the
/// first separator, then the split of what follows it.
pub open spec fn split_on(s: Seq<char>, sep: char) -> Seq<Seq<char>>
    decreases s.len(),
    via split_on_decreases
{
    let i = find_first(s, sep);
    if i < 0 {
        seq![s]
    } else {
        seq![s.take(i)] + split_on(s.skip(i + 1), sep)
    }
}

#[via_fn]
proof fn split_on_decreases(s: Seq<char>, sep: char) {
    lemma_find_first_range(s, sep);
}

proof fn lemma_find_first_range(s: Seq<char>, c: char)
    ensures
        -1 <= find_first(s, c) < s.len(),
        find_first(s, c) >= 0 ==> s[find_first(s, c)] == c,
        find_first(s, c) >= 0 ==> none_of(s, 0, find_first(s, c), c),
        find_first(s, c) == -1 ==> none_of(s, 0, s.len() as int, c),
    decreases s.len(),
{
    if s.len() > 0 && s[0] != c {
        lemma_find_first_range(s.drop_first(), c);
        assert(forall|k: int| 0 <= k < s.len() - 1 ==> (#[trigger] s.drop_first()[k]) == s[k + 1]);
        let ff = find_first(s, c);
        let bound = if ff >= 0 { ff } else { s.len() as int };
        assert forall|k: int| 0 <= k < bound implies s[k] != c by {
            if k > 0 {
                assert(s.drop_first()[k - 1] == s[k]);
            }
        }
    }
}

/// The characters a single codepoint-or-range item denotes, or `None`
/// when it is malformed: one codepoint, or an ascending range whose
/// valid scalar values are all included.
pub open spec fn spec_item(t: Seq<char>) -> Option<Seq<char>> {
    if find_first(t, '-') < 0 {
        match spec_codepoint(t) {
            Some(c) => Some(seq![c]),
            None => None,
        }
    } else {
        let parts = split_on(t, '-');
        if parts.len() != 2 {
            None
        } else {
            match (spec_codepoint(parts[0]), spec_codepoint(parts[1])) {
                (Some(a), Some(b)) => {
                    if a as int <= b as int {
                        Some(range_chars(a as int, b as int))
                    } else {
                        None
                    }
                },
                _ => None,
            }
        }
    }
}

/// The characters of the scalar values in `[lo, hi]`, ascending,
/// skipping the values that are not valid scalars.
pub open spec fn range_chars(lo: int, hi: int) -> Seq<char>
    decreases hi + 1 - lo,
{
    if lo > hi {
        Seq::empty()
    } else {
        (if scalar_valid(lo) {
            seq![char_of(lo)]
        } else {
            Seq::<char>::empty()
        }) + range_chars(lo + 1, hi)
    }
}

/// The concatenation of the items' characters, or `None` as soon as one
/// item is malformed.
pub open spec fn spec_items(items: Seq<Seq<char>>) -> Option<Seq<char>>
    decreases items.len(),
{
    if items.len() == 0 {
        Some(Seq::empty())
    } else {
        match spec_item(items[0]) {
            None => None,
            Some(cs) => match spec_items(items.drop_first()) {
                None => None,
                Some(rest) => Some(cs + rest),
            },
        }
    }
}

/// Parse a comma-separated list of codepoints and codepoint ranges.
pub fn parse_codepoints(input: &str) -> (r: Result<Vec<char>>)
    ensures
        r matches Ok(v) ==> spec_items(split_on(input@, ',')) == Some(v@),
        r is Err <==> spec_items(split_on(input@, ',')) is None,
        r matches Err(e) ==> e is Parse,
{
    let v = chars_of(input);
    let mut out: Vec<char> = Vec::new();
    let mut start: usize = 0;
    let ghost whole = split_on(input@, ',');
    proof {
        assert(v@.skip(0) =~= input@);
        if spec_items(whole) is Some {
            assert(spec_items(whole)->Some_0 =~= out@ + spec_items(whole)->Some_0);
        }
    }
    loop
        invariant
            start <= v@.len(),
            v@ == input@,
            whole == split_on(input@, ','),
            spec_items(whole) is Some ==> spec_items(split_on(v@.skip(start as int), ','))
                is Some && spec_items(whole)->Some_0 == out@ + spec_items(
                split_on(v@.skip(start as int), ','),
            )->Some_0,
            (spec_items(whole) is None) == (spec_items(
                split_on(v@.skip(start as int), ','),
            ) is None),
        decreases v@.len() - start,
    {
        let ghost rem = v@.skip(start as int);
        // Find the end of this item.
        let mut end = start;
        while end < v.len() && v[end] != ','
            invariant
                start <= end <= v@.len(),
                v@ == input@,
                none_of(v@, start as int, end as int, ','),
            decreases v@.len() - end,
        {
            end = end + 1;
        }
        proof {
            assert(forall|k: int| 0 <= k < end - start ==> rem[k] == v@[start + k]);
            lemma_find_first_at(rem, ',', end - start);
            if end < v@.len() {
                assert(rem[end - start] == ',');
                assert(find_first(rem, ',') == end - start);
                assert(rem.take(end - start) =~= v@.subrange(start as int, end as int));
                assert(rem.skip(end - start + 1) =~= v@.skip(end + 1));
                assert(split_on(rem, ',') == seq![v@.subrange(start as int, end as int)]
                    + split_on(v@.skip(end + 1), ','));
            } else {
                assert(find_first(rem, ',') == -1);
                assert(split_on(rem, ',') == seq![rem]);
                assert(rem =~= v@.subrange(start as int, end as int));
            }
        }
        let ghost item = v@.subrange(start as int, end as int);
        proof {
            assert(split_on(rem, ',')[0] == item);
            assert(split_on(rem, ',').len() >= 1);
        }
        let parsed = match parse_item(&v, start, end) {
            Ok(cs) => cs,
            Err(e) => {
                proof {
                    assert(spec_item(item) is None);
                    assert(spec_items(split_on(rem, ',')) is None);
                }
                return Err(e);
            },
        };
        let ghost old_out = out@;
        let mut pi: usize = 0;
        while pi < parsed.len()
            invariant
                pi <= parsed@.len(),
                out@ == old_out + parsed@.subrange(0, pi as int),
            decreases parsed@.len() - pi,
        {
            out.push(parsed[pi]);
            assert(out@ =~= old_out + parsed@.subrange(0, pi + 1 as int));
            pi = pi + 1;
        }
        proof {
            assert(parsed@.subrange(0, parsed@.len() as int) =~= parsed@);
        }
        if end == v.len() {
            proof {
                assert(split_on(rem, ',') == seq![item]);
                assert(split_on(rem, ',').drop_first() =~= Seq::<Seq<char>>::empty());
                assert(spec_items(split_on(rem, ',').drop_first()) == Some(
                    Seq::<char>::empty(),
                ));
                assert(spec_items(split_on(rem, ',')) == Some(
                    spec_item(item)->Some_0 + Seq::<char>::empty(),
                ));
                assert(spec_item(item)->Some_0 + Seq::<char>::empty() =~= parsed@);
                if spec_items(whole) is Some {
                    assert(spec_items(whole)->Some_0 == old_out + parsed@);
                    assert(spec_items(whole)->Some_0 =~= out@);
                }
            }
            return Ok(out);
        }
        proof {
            assert(split_on(rem, ',').drop_first() =~= split_on(v@.skip(end + 1), ','));
            assert(spec_item(split_on(rem, ',')[0]) == Some(parsed@));
            if spec_items(split_on(v@.skip(end + 1), ',')) is Some {
                assert(spec_items(split_on(rem, ',')) == Some(
                    parsed@ + spec_items(split_on(v@.skip(end + 1), ','))->Some_0,
                ));
            } else {
                assert(spec_items(split_on(rem, ',')) is None);
            }
            if spec_items(whole) is Some {
                assert(spec_items(split_on(rem, ',')) is Some);
                assert(spec_items(whole)->Some_0 == old_out + (parsed@ + spec_items(
                    split_on(v@.skip(end + 1), ','),
                )->Some_0));
                assert(old_out + (parsed@ + spec_items(split_on(v@.skip(end + 1), ','))->Some_0)
                    =~= out@ + spec_items(split_on(v@.skip(end + 1), ','))->Some_0);
            }
        }
        start = end + 1;
    }
}

/// Parse one item (a codepoint or a range) from `v[start..end]`.
fn parse_item(v: &Vec<char>, start: usize, end: usize) -> (r: Result<Vec<char>>)
    requires
        start <= end <= v@.len(),
    ensures
        r matches Ok(cs) ==> spec_item(v@.subrange(start as int, end as int)) == Some(cs@),
        r is Err <==> spec_item(v@.subrange(start as int, end as int)) is None,
        r matches Err(e) ==> e is Parse,
{
    let ghost t = v@.subrange(start as int, end as int);
    // Find a dash.
    let mut d = start;
    while d < end && v[d] != '-'
        invariant
            start <= d <= end <= v@.len(),
            none_of(v@, start as int, d as int, '-'),
        decreases end - d,
    {
        d = d + 1;
    }
    proof {
        assert(forall|k: int| 0 <= k < d - start ==> t[k] == v@[start + k]);
        lemma_find_first_at(t, '-', d - start);
    }
    if d == end {
        // No dash: a single codepoint.
        match parse_codepoint_chars(v, start, end) {
            Ok(c) => {
                assert(spec_item(t) == Some(seq![c]));
                let mut one: Vec<char> = Vec::new();
                one.push(c);
                assert(one@ =~= seq![c]);
                Ok(one)
            },
            Err(e) => Err(e),
        }
    } else {
        // A range: the text before the dash, and everything after it.
        proof {
            assert(t[d - start] == '-');
            assert(find_first(t, '-') == d - start);
            assert(t.take(d - start) =~= v@.subrange(start as int, d as int));
            assert(t.skip(d - start + 1) =~= v@.subrange(d + 1, end as int));
        }
        let ghost first = v@.subrange(start as int, d as int);
        let ghost second_all = v@.subrange(d + 1, end as int);
        // The tail must itself be dash-free, or the item has more than
        // two parts.
        let mut d2 = d + 1;
        while d2 < end && v[d2] != '-'
            invariant
                d + 1 <= d2 <= end <= v@.len(),
                none_of(v@, d + 1, d2 as int, '-'),
            decreases end - d2,
        {
            d2 = d2 + 1;
        }
        proof {
            assert(forall|k: int| 0 <= k < d2 - (d + 1) ==> second_all[k] == v@[d + 1 + k]);
            lemma_find_first_at(second_all, '-', d2 - (d + 1));
        }
        if d2 < end {
            proof {
                assert(find_first(second_all, '-') >= 0);
                assert(split_on(t, '-').len() == 1 + split_on(second_all, '-').len());
                assert(split_on(second_all, '-').len() >= 2) by {
                    let j = find_first(second_all, '-');
                    assert(split_on(second_all, '-').len() == 1 + split_on(
                        second_all.skip(j + 1),
                        '-',
                    ).len());
                    lemma_split_nonempty(second_all.skip(j + 1), '-');
                }
            }
            return Err(FontgrepcError::Parse("invalid codepoint range".to_owned()));
        }
        proof {
            assert(find_first(second_all, '-') == -1);
            assert(split_on(second_all, '-') == seq![second_all]);
            assert(split_on(t, '-') == seq![first] + seq![second_all]);
            assert(split_on(t, '-').len() == 2);
            assert(split_on(t, '-')[0] == first && split_on(t, '-')[1] == second_all);
        }
        let a = match parse_codepoint_chars(v, start, d) {
            Ok(c) => c,
            Err(e) => {
                return Err(e);
            },
        };
        let b = match parse_codepoint_chars(v, d + 1, end) {
            Ok(c) => c,
            Err(e) => {
                return Err(e);
            },
        };
        proof {
            lemma_char_bounds(a);
            lemma_char_bounds(b);
        }
        if (a as u32) > (b as u32) {
            return Err(FontgrepcError::Parse("descending codepoint range".to_owned()));
        }
        let mut out: Vec<char> = Vec::new();
        let mut cp: u32 = a as u32;
        let ghost lo = a as int;
        let ghost hi = b as int;
        proof {
            lemma_range_chars_split(lo, lo, hi);
            assert(range_chars(lo, lo - 1) =~= Seq::<char>::empty());
            assert(out@ =~= range_chars(lo, lo - 1));
        }
        while cp <= b as u32
            invariant
                lo <= cp as int <= hi + 1,
                0 <= lo,
                hi <= 0x10FFFF,
                b as u32 == hi,
                scalar_valid(hi),
                out@ == range_chars(lo, cp as int - 1),
                range_chars(lo, hi) == range_chars(lo, cp as int - 1) + range_chars(
                    cp as int,
                    hi,
                ),
            decreases hi + 1 - cp,
        {
            match char_from_u32(cp) {
                Some(c) => {
                    out.push(c);
                    proof {
                        assert(char_value(c) == cp as int);
                        assert(char_value(char_of(cp as int)) == cp as int);
                        assert(c == char_of(cp as int));
                        assert(range_chars(cp as int, hi) == seq![char_of(cp as int)]
                            + range_chars(cp as int + 1, hi));
                        assert(out@ =~= range_chars(lo, cp as int - 1) + seq![char_of(cp as int)]);
                        lemma_range_chars_split(lo, cp as int, hi);
                        lemma_range_chars_split(lo, cp as int + 1, hi);
                        assert(range_chars(lo, cp as int) =~= range_chars(lo, cp as int - 1)
                            + seq![char_of(cp as int)]) by {
                            lemma_range_chars_last(lo, cp as int);
                        }
                    }
                },
                None => {
                    proof {
                        assert(range_chars(cp as int, hi) == range_chars(cp as int + 1, hi));
                        lemma_range_chars_split(lo, cp as int, hi);
                        lemma_range_chars_split(lo, cp as int + 1, hi);
                        assert(range_chars(lo, cp as int) =~= range_chars(lo, cp as int - 1)) by {
                            lemma_range_chars_last(lo, cp as int);
                        }
                    }
                },
            }
            cp = cp + 1;
        }
        proof {
            assert(range_chars(cp as int, hi) =~= Seq::<char>::empty());
            assert(out@ =~= range_chars(lo, hi));
        }
        Ok(out)
    }
}

proof fn lemma_split_nonempty(s: Seq<char>, c: char)
    ensures
        split_on(s, c).len() >= 1,
{
}

/// Splitting a range at an interior point concatenates the two halves.
proof fn lemma_range_chars_split(lo: int, mid: int, hi: int)
    requires
        lo <= mid <= hi + 1,
    ensures
        range_chars(lo, hi) == range_chars(lo, mid - 1) + range_chars(mid, hi),
    decreases mid - lo,
{
    if lo == mid {
        assert(range_chars(lo, lo - 1) + range_chars(lo, hi) =~= range_chars(lo, hi));
    } else {
        lemma_range_chars_split(lo + 1, mid, hi);
        assert(range_chars(lo, mid - 1) == (if scalar_valid(lo) {
            seq![char_of(lo)]
        } else {
            Seq::<char>::empty()
        }) + range_chars(lo + 1, mid - 1));
        assert(range_chars(lo, mid - 1) + range_chars(mid, hi) =~= (if scalar_valid(lo) {
            seq![char_of(lo)]
        } else {
            Seq::<char>::empty()
        }) + (range_chars(lo + 1, mid - 1) + range_chars(mid, hi)));
    }
}

/// A range ending at `hi` is the range below it plus `hi`'s character,
/// when `hi` is a valid scalar.
proof fn lemma_range_chars_last(lo: int, hi: int)
    requires
        lo <= hi,
    ensures
        range_chars(lo, hi) == range_chars(lo, hi - 1) + (if scalar_valid(hi) {
            seq![char_of(hi)]
        } else {
            Seq::<char>::empty()
        }),
    decreases hi - lo,
{
    if lo == hi {
        assert(range_chars(lo, hi - 1) =~= Seq::<char>::empty());
        assert(range_chars(hi + 1, hi) =~= Seq::<char>::empty());
        assert(range_chars(lo, hi) =~= range_chars(lo, hi - 1) + (if scalar_valid(hi) {
            seq![char_of(hi)]
        } else {
            Seq::<char>::empty()
        }));
    } else {
        lemma_range_chars_last(lo + 1, hi);
        assert(range_chars(lo, hi) =~= range_chars(lo, hi - 1) + (if scalar_valid(hi) {
            seq![char_of(hi)]
        } else {
            Seq::<char>::empty()
        }));
    }
}

/// The characters all the strings denote, in order: each string is a
/// comma-separated codepoint list, and the parses are concatenated;
/// `None` as soon as one string is malformed.
pub open spec fn spec_all_codepoints(input: Seq<String>) -> Option<Seq<char>>
    decreases input.len(),
{
    if input.len() == 0 {
        Some(Seq::empty())
    } else {
        match spec_items(split_on(input[0]@, ',')) {
            None => None,
            Some(cs) => match spec_all_codepoints(input.drop_first()) {
                None => None,
                Some(rest) => Some(cs + rest),
            },
        }
    }
}

/// Parse codepoints from several comma-separated strings, concatenated
/// in order; the first malformed string fails the whole parse.
pub fn parse_codepoints_from_strings(input: &Vec<String>) -> (r: Result<Vec<char>>)
    ensures
        r matches Ok(v) ==> spec_all_codepoints(input@) == Some(v@),
        r is Err <==> spec_all_codepoints(input@) is None,
        r matches Err(e) ==> e is Parse,
{
    let mut out: Vec<char> = Vec::new();
    let mut i: usize = 0;
    proof {
        if spec_all_codepoints(input@) is Some {
            assert(spec_all_codepoints(input@)->Some_0 =~= out@ + spec_all_codepoints(
                input@,
            )->Some_0);
        }
        assert(input@.skip(0) =~= input@);
    }
    while i < input.len()
        invariant
            i <= input@.len(),
            spec_all_codepoints(input@) is Some ==> spec_all_codepoints(
                input@.skip(i as int),
            ) is Some && spec_all_codepoints(input@)->Some_0 == out@ + spec_all_codepoints(
                input@.skip(i as int),
            )->Some_0,
            (spec_all_codepoints(input@) is None) == (spec_all_codepoints(
                input@.skip(i as int),
            ) is None),
        decreases input@.len() - i,
    {
        let ghost rem = input@.skip(i as int);
        proof {
            assert(rem[0] == input@[i as int]);
            assert(rem.drop_first() =~= input@.skip(i + 1));
        }
        let mut cs = match parse_codepoints(input[i].as_str()) {
            Ok(cs) => cs,
            Err(e) => {
                proof {
                    assert(spec_items(split_on((input@[i as int])@, ',')) is None);
                    assert(spec_all_codepoints(rem) is None);
                }
                return Err(e);
            },
        };
        let ghost old_out = out@;
        let ghost parsed = cs@;
        out.append(&mut cs);
        proof {
            if spec_all_codepoints(input@.skip(i + 1)) is Some {
                assert(spec_all_codepoints(rem) == Some(
                    parsed + spec_all_codepoints(input@.skip(i + 1))->Some_0,
                ));
                if spec_all_codepoints(input@) is Some {
                    assert(old_out + (parsed + spec_all_codepoints(input@.skip(i + 1))->Some_0)
                        =~= out@ + spec_all_codepoints(input@.skip(i + 1))->Some_0);
                }
            } else {
                assert(spec_all_codepoints(rem) is None);
            }
        }
        i = i + 1;
    }
    proof {
        assert(input@.skip(input@.len() as int) =~= Seq::<String>::empty());
        assert(spec_all_codepoints(input@.skip(input@.len() as int)) == Some(Seq::<char>::empty()));
        if spec_all_codepoints(input@) is Some {
            assert(spec_all_codepoints(input@)->Some_0 =~= out@);
        }
    }
    Ok(out)
}

/// Builds the query criteria a search request denotes; a malformed
/// codepoint specification is rejected before anything reaches the
/// store.
pub fn criteria_from_search_args(args: &SearchArgs) -> (r: Result<QueryCriteria>)
    ensures
        r matches Ok(c) ==> {
            &&& c.variable == args.variable
            &&& c.axes@ == args.axes@
            &&& c.features@ == args.features@
            &&& c.scripts@ == args.scripts@
            &&& c.tables@ == args.tables@
            &&& c.name_patterns@ == args.name@
            &&& spec_all_codepoints(args.codepoints_str@) == Some(c.codepoints@)
            &&& c.charset@ == (match args.text {
                Some(t) => t@,
                None => Seq::<char>::empty(),
            })
        },
        r is Err <==> spec_all_codepoints(args.codepoints_str@) is None,
        r matches Err(e) ==> e is Parse,
{
    let codepoints = match parse_codepoints_from_strings(&args.codepoints_str) {
        Ok(cs) => cs,
        Err(e) => {
            return Err(e);
        },
    };
    let charset = match &args.text {
        Some(t) => t.clone(),
        None => String::new(),
    };
    Ok(
        QueryCriteria {
            variable: args.variable,
            axes: clone_strings(&args.axes),
            features: clone_strings(&args.features),
            scripts: clone_strings(&args.scripts),
            tables: clone_strings(&args.tables),
            name_patterns: clone_strings(&args.name),
            codepoints,
            charset,
        },
    )
}

/// Copies a vector of strings.
fn clone_strings(v: &Vec<String>) -> (r: Vec<String>)
    ensures
        r@ == v@,
{
    let mut r: Vec<String> = Vec::new();
    let mut i: usize = 0;
    while i < v.len()
        invariant
            i <= v@.len(),
            r@ == v@.subrange(0, i as int),
        decreases v@.len() - i,
    {
        r.push(v[i].clone());
        assert(r@ =~= v@.subrange(0, i + 1 as int));
        i = i + 1;
    }
    proof {
        assert(r@ =~= v@);
    }
    r
}

} // verus!

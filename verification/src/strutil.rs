//! Character-level string utilities: conversions between strings and
//! character vectors, lexicographic comparison by codepoint (the order
//! the store's text columns sort in), membership and substring tests,
//! and sorting.

use vstd::prelude::*;

verus! {

/// The views of a sequence of strings.
pub open spec fn seq_views(s: Seq<String>) -> Seq<Seq<char>> {
    s.map_values(|x: String| x@)
}

/// The characters of a string, as a vector.
pub fn chars_of(s: &str) -> (r: Vec<char>)
    ensures
        r@ == s@,
{
    let n = s.unicode_len();
    let mut r: Vec<char> = Vec::new();
    let mut i: usize = 0;
    while i < n
        invariant
            n == s@.len(),
            i <= n,
            r@ == s@.subrange(0, i as int),
        decreases n - i,
    {
        r.push(s.get_char(i));
        assert(r@ =~= s@.subrange(0, i + 1 as int));
        i = i + 1;
    }
    assert(r@ =~= s@);
    r
}

/// Relies on `String::push`: appends one character to the string.
#[verifier::external_body]
pub(crate) fn push_char(s: &mut String, c: char)
    ensures
        final(s)@ == old(s)@.push(c),
{
    s.push(c);
}

/// A string holding exactly the given characters.
pub fn string_from_chars(v: &Vec<char>) -> (r: String)
    ensures
        r@ == v@,
{
    let mut r = String::new();
    let mut i: usize = 0;
    while i < v.len()
        invariant
            i <= v@.len(),
            r@ == v@.subrange(0, i as int),
        decreases v@.len() - i,
    {
        push_char(&mut r, v[i]);
        assert(r@ =~= v@.subrange(0, i + 1 as int));
        i = i + 1;
    }
    assert(r@ =~= v@);
    r
}

/// Whether two string slices hold the same characters.
pub fn str_eq(a: &str, b: &str) -> (r: bool)
    ensures
        r == (a@ == b@),
{
    let sa = a.to_owned();
    let sb = b.to_owned();
    sa == sb
}

/// Lexicographic order on character sequences, by codepoint; the order
/// in which the store sorts its text columns.
pub open spec fn lex_le(a: Seq<char>, b: Seq<char>) -> bool
    decreases a.len(),
{
    if a.len() == 0 {
        true
    } else if b.len() == 0 {
        false
    } else if a[0] == b[0] {
        lex_le(a.drop_first(), b.drop_first())
    } else {
        a[0] < b[0]
    }
}

proof fn lemma_lex_step(a: Seq<char>, b: Seq<char>, i: int)
    requires
        0 <= i < a.len(),
        i < b.len(),
        a[i] == b[i],
    ensures
        lex_le(a.skip(i), b.skip(i)) == lex_le(a.skip(i + 1), b.skip(i + 1)),
{
    assert(a.skip(i).drop_first() =~= a.skip(i + 1));
    assert(b.skip(i).drop_first() =~= b.skip(i + 1));
    assert(a.skip(i)[0] == a[i]);
    assert(b.skip(i)[0] == b[i]);
}

/// The order is total.
pub proof fn lemma_lex_total(a: Seq<char>, b: Seq<char>)
    ensures
        lex_le(a, b) || lex_le(b, a),
    decreases a.len(),
{
    if a.len() != 0 && b.len() != 0 && a[0] == b[0] {
        lemma_lex_total(a.drop_first(), b.drop_first());
    }
}

/// The order is transitive.
pub proof fn lemma_lex_trans(a: Seq<char>, b: Seq<char>, c: Seq<char>)
    requires
        lex_le(a, b),
        lex_le(b, c),
    ensures
        lex_le(a, c),
    decreases a.len(),
{
    if a.len() != 0 && b.len() != 0 && c.len() != 0 {
        if a[0] == b[0] && b[0] == c[0] {
            lemma_lex_trans(a.drop_first(), b.drop_first(), c.drop_first());
        }
    }
}

/// Whether `a` sorts at or before `b` in codepoint order.
pub fn str_le(a: &str, b: &str) -> (r: bool)
    ensures
        r == lex_le(a@, b@),
{
    let av = chars_of(a);
    let bv = chars_of(b);
    let mut i: usize = 0;
    proof {
        assert(a@.skip(0) =~= a@);
        assert(b@.skip(0) =~= b@);
    }
    loop
        invariant
            av@ == a@,
            bv@ == b@,
            i <= av@.len(),
            i <= bv@.len(),
            lex_le(a@, b@) == lex_le(a@.skip(i as int), b@.skip(i as int)),
        decreases av@.len() - i,
    {
        if i == av.len() {
            assert(a@.skip(i as int).len() == 0);
            return true;
        }
        if i == bv.len() {
            assert(b@.skip(i as int).len() == 0);
            assert(a@.skip(i as int).len() != 0);
            return false;
        }
        let ca = av[i];
        let cb = bv[i];
        if ca != cb {
            assert(a@.skip(i as int)[0] == a@[i as int]);
            assert(b@.skip(i as int)[0] == b@[i as int]);
            return ca < cb;
        }
        proof {
            lemma_lex_step(a@, b@, i as int);
        }
        i = i + 1;
    }
}

/// Whether the vector holds the character.
pub fn contains_char(v: &Vec<char>, c: char) -> (r: bool)
    ensures
        r == v@.contains(c),
{
    let mut i: usize = 0;
    while i < v.len()
        invariant
            i <= v@.len(),
            forall|j: int| 0 <= j < i ==> v@[j] != c,
        decreases v@.len() - i,
    {
        if v[i] == c {
            return true;
        }
        i = i + 1;
    }
    false
}

/// Whether one of the strings in `v` has view `s@`.
pub fn contains_str(v: &Vec<String>, s: &str) -> (r: bool)
    ensures
        r == seq_views(v@).contains(s@),
{
    let mut i: usize = 0;
    while i < v.len()
        invariant
            i <= v@.len(),
            forall|j: int| 0 <= j < i ==> seq_views(v@)[j] != s@,
        decreases v@.len() - i,
    {
        if str_eq(v[i].as_str(), s) {
            assert(seq_views(v@)[i as int] == s@);
            return true;
        }
        i = i + 1;
    }
    false
}

/// `p` occurs in `t` starting at position `i`.
pub open spec fn is_substring_at(t: Seq<char>, p: Seq<char>, i: int) -> bool {
    0 <= i && i + p.len() <= t.len() && t.subrange(i, i + p.len()) == p
}

/// `p` occurs somewhere in `t`.
pub open spec fn contains_seq(t: Seq<char>, p: Seq<char>) -> bool {
    exists|i: int| is_substring_at(t, p, i)
}

/// Whether the characters of `pat` occur contiguously in `text`.
pub fn contains_sub(text: &Vec<char>, pat: &Vec<char>) -> (r: bool)
    ensures
        r == contains_seq(text@, pat@),
{
    if pat.len() > text.len() {
        assert(forall|i: int| !is_substring_at(text@, pat@, i));
        return false;
    }
    if pat.len() == 0 {
        assert(text@.subrange(0, 0) =~= pat@);
        assert(is_substring_at(text@, pat@, 0));
        return true;
    }
    let tlen = text.len();
    let mut i: usize = 0;
    while i <= text.len() - pat.len()
        invariant
            tlen == text@.len(),
            1 <= pat@.len() <= text@.len(),
            i <= text@.len() - pat@.len() + 1,
            forall|k: int| 0 <= k < i ==> !is_substring_at(text@, pat@, k),
        decreases text@.len() - pat@.len() + 1 - i,
    {
        let mut j: usize = 0;
        let mut matched = true;
        while matched && j < pat.len()
            invariant
                tlen == text@.len(),
                pat@.len() <= text@.len(),
                i + pat@.len() <= text@.len(),
                j <= pat@.len(),
                matched ==> text@.subrange(i as int, i + j as int) == pat@.subrange(0, j as int),
                !matched ==> !is_substring_at(text@, pat@, i as int),
        decreases (if matched { 1int } else { 0int }), pat@.len() - j,
        {
            let ghost jj = j as int;
            if text[i + j] != pat[j] {
                proof {
                    if is_substring_at(text@, pat@, i as int) {
                        assert(text@.subrange(i as int, i + pat@.len() as int)[jj] == pat@[jj]);
                        assert(text@[i + jj] == pat@[jj]);
                    }
                }
                matched = false;
            } else {
                proof {
                    assert(text@.subrange(i as int, i + jj + 1) =~= text@.subrange(
                        i as int,
                        i + jj,
                    ).push(text@[i + jj]));
                    assert(pat@.subrange(0, jj + 1) =~= pat@.subrange(0, jj).push(pat@[jj]));
                }
                j = j + 1;
            }
        }
        if matched {
            assert(pat@.subrange(0, pat@.len() as int) =~= pat@);
            assert(is_substring_at(text@, pat@, i as int));
            return true;
        }
        i = i + 1;
    }
    assert forall|k: int| !is_substring_at(text@, pat@, k) by {
        if 0 <= k && k + pat@.len() <= text@.len() {
            assert(k < i);
        }
    }
    false
}

/// Non-decreasing by codepoint.
pub open spec fn sorted_chars(s: Seq<char>) -> bool {
    forall|i: int, j: int| 0 <= i <= j < s.len() ==> s[i] <= s[j]
}

/// The characters of `v`, sorted ascending by codepoint.
pub fn sort_chars(v: &Vec<char>) -> (r: Vec<char>)
    ensures
        sorted_chars(r@),
        r@.to_multiset() == v@.to_multiset(),
{
    let mut r: Vec<char> = Vec::new();
    let mut idx: usize = 0;
    proof {
        assert(r@ =~= v@.subrange(0, 0));
    }
    while idx < v.len()
        invariant
            idx <= v@.len(),
            sorted_chars(r@),
            r@.to_multiset() == v@.subrange(0, idx as int).to_multiset(),
        decreases v@.len() - idx,
    {
        let c = v[idx];
        let mut p: usize = 0;
        while p < r.len() && r[p] <= c
            invariant
                p <= r@.len(),
                forall|j: int| 0 <= j < p ==> r@[j] <= c,
            decreases r@.len() - p,
        {
            p = p + 1;
        }
        let ghost old_r = r@;
        r.insert(p, c);
        proof {
            broadcast use vstd::seq_lib::group_to_multiset_ensures;

            assert(r@ == old_r.insert(p as int, c));
            assert forall|i: int, j: int| 0 <= i <= j < r@.len() implies r@[i] <= r@[j] by {
                if j < p {
                    assert(r@[i] == old_r[i] && r@[j] == old_r[j]);
                } else if i > p {
                    assert(r@[i] == old_r[i - 1] && r@[j] == old_r[j - 1]);
                } else if i < p && j == p {
                    assert(r@[i] == old_r[i]);
                } else if i == p && j > p {
                    assert(r@[j] == old_r[j - 1]);
                    assert(p < old_r.len() ==> c <= old_r[p as int]);
                }
            }
            assert(old_r.insert(p as int, c).to_multiset() == old_r.to_multiset().insert(c));
            assert(v@.subrange(0, idx + 1 as int) =~= v@.subrange(0, idx as int).push(c));
            assert(v@.subrange(0, idx as int).push(c).to_multiset() == v@.subrange(
                0,
                idx as int,
            ).to_multiset().insert(c));
        }
        idx = idx + 1;
    }
    proof {
        assert(v@.subrange(0, v@.len() as int) =~= v@);
    }
    r
}

/// Whether no two strings of `v` share a view.
pub fn distinct_views(v: &Vec<String>) -> (r: bool)
    ensures
        r == seq_views(v@).no_duplicates(),
{
    let mut i: usize = 0;
    while i < v.len()
        invariant
            i <= v@.len(),
            forall|a: int, b: int| 0 <= a < b < v@.len() && a < i ==> v@[a]@ != v@[b]@,
        decreases v@.len() - i,
    {
        let mut j: usize = i + 1;
        while j < v.len()
            invariant
                i < j <= v@.len() || v@.len() <= i,
                i < v@.len(),
                forall|b: int| i < b < j ==> v@[i as int]@ != v@[b]@,
            decreases v@.len() - j,
        {
            if str_eq(v[i].as_str(), v[j].as_str()) {
                assert(seq_views(v@)[i as int] == seq_views(v@)[j as int]);
                assert(!seq_views(v@).no_duplicates());
                return false;
            }
            j = j + 1;
        }
        i = i + 1;
    }
    proof {
        assert forall|a: int, b: int|
            0 <= a < b < seq_views(v@).len() implies seq_views(v@)[a] != seq_views(v@)[b] by {
            assert(seq_views(v@)[a] == v@[a]@);
            assert(seq_views(v@)[b] == v@[b]@);
        }
    }
    true
}

/// Sorts (name, path) pairs by name, ascending in codepoint order,
/// keeping exactly the same pairs.
pub fn sort_by_name(v: Vec<(String, String)>) -> (r: Vec<(String, String)>)
    ensures
        r@.to_multiset() == v@.to_multiset(),
        forall|i: int, j: int| 0 <= i <= j < r@.len() ==> lex_le(
            (#[trigger] r@[i]).0@,
            (#[trigger] r@[j]).0@,
        ),
{
    let mut r: Vec<(String, String)> = Vec::new();
    let mut idx: usize = 0;
    proof {
        assert(r@ =~= v@.subrange(0, 0));
    }
    while idx < v.len()
        invariant
            idx <= v@.len(),
            forall|i: int, j: int| 0 <= i <= j < r@.len() ==> lex_le(
                (#[trigger] r@[i]).0@,
                (#[trigger] r@[j]).0@,
            ),
            r@.to_multiset() == v@.subrange(0, idx as int).to_multiset(),
        decreases v@.len() - idx,
    {
        let item = &v[idx];
        let x = (item.0.clone(), item.1.clone());
        assert(x == v@[idx as int]);
        let ghost xg = x;
        let mut p: usize = 0;
        while p < r.len() && str_le(r[p].0.as_str(), x.0.as_str())
            invariant
                p <= r@.len(),
                forall|j: int| 0 <= j < p ==> lex_le((#[trigger] r@[j]).0@, x.0@),
            decreases r@.len() - p,
        {
            p = p + 1;
        }
        proof {
            if p < r@.len() {
                lemma_lex_total(r@[p as int].0@, x.0@);
            }
        }
        let ghost old_r = r@;
        r.insert(p, x);
        proof {
            broadcast use vstd::seq_lib::group_to_multiset_ensures;

            assert(r@ == old_r.insert(p as int, xg));
            assert forall|i: int, j: int|
                0 <= i <= j < r@.len() implies lex_le((#[trigger] r@[i]).0@, (#[trigger] r@[j]).0@) by {
                if j < p {
                    assert(r@[i] == old_r[i] && r@[j] == old_r[j]);
                } else if i > p {
                    assert(r@[i] == old_r[i - 1] && r@[j] == old_r[j - 1]);
                } else if i < p && j == p {
                    assert(r@[i] == old_r[i]);
                    assert(lex_le(old_r[i].0@, xg.0@));
                } else if i == p && j == p {
                    lemma_lex_total(xg.0@, xg.0@);
                } else if i == p && j > p {
                    assert(r@[j] == old_r[j - 1]);
                    if p < old_r.len() {
                        assert(lex_le(xg.0@, old_r[p as int].0@));
                        assert(lex_le(old_r[p as int].0@, old_r[j - 1].0@));
                        lemma_lex_trans(xg.0@, old_r[p as int].0@, old_r[j - 1].0@);
                    }
                } else {
                    assert(i < p && j > p);
                    assert(r@[i] == old_r[i] && r@[j] == old_r[j - 1]);
                    assert(lex_le(old_r[i].0@, old_r[j - 1].0@));
                }
            }
            assert(old_r.insert(p as int, xg).to_multiset() == old_r.to_multiset().insert(xg));
            assert(v@.subrange(0, idx + 1 as int) =~= v@.subrange(0, idx as int).push(
                v@[idx as int],
            ));
            assert(v@.subrange(0, idx as int).push(v@[idx as int]).to_multiset() == v@.subrange(
                0,
                idx as int,
            ).to_multiset().insert(v@[idx as int]));
            assert(xg == v@[idx as int]);
        }
        idx = idx + 1;
    }
    proof {
        assert(v@.subrange(0, v@.len() as int) =~= v@);
    }
    r
}

proof fn lemma_push_contains(s: Seq<char>, c: char, x: char)
    ensures
        s.push(c).contains(x) == (s.contains(x) || x == c),
{
    if s.push(c).contains(x) {
        let idx = choose|idx: int| 0 <= idx < s.push(c).len() && s.push(c)[idx] == x;
        if idx < s.len() {
            assert(s[idx] == x);
        }
    }
    if s.contains(x) {
        let idx = choose|idx: int| 0 <= idx < s.len() && s[idx] == x;
        assert(s.push(c)[idx] == x);
    }
    assert(s.push(c)[s.len() as int] == c);
}

/// The distinct characters of an ascending vector, still ascending:
/// adjacent repetitions collapse to one occurrence.
pub fn dedup_sorted(v: &Vec<char>) -> (r: Vec<char>)
    requires
        sorted_chars(v@),
    ensures
        sorted_chars(r@),
        r@.no_duplicates(),
        r@.to_set() == v@.to_set(),
{
    let mut r: Vec<char> = Vec::new();
    let mut i: usize = 0;
    proof {
        assert(v@.take(0) =~= Seq::<char>::empty());
    }
    while i < v.len()
        invariant
            i <= v@.len(),
            sorted_chars(v@),
            sorted_chars(r@),
            r@.no_duplicates(),
            forall|x: char| #[trigger] r@.contains(x) == v@.take(i as int).contains(x),
            i == 0 ==> r@.len() == 0,
            i > 0 ==> r@.len() > 0 && r@.last() == v@[i - 1],
        decreases v@.len() - i,
    {
        let c = v[i];
        let push_it = if r.len() == 0 {
            true
        } else {
            r[r.len() - 1] != c
        };
        let ghost old_r = r@;
        if push_it {
            r.push(c);
        }
        proof {
            assert(v@.take(i + 1) =~= v@.take(i as int).push(c));
            if push_it {
                assert forall|a: int, b: int| 0 <= a <= b < r@.len() implies r@[a] <= r@[b] by {
                    if b == r@.len() - 1 && a < b {
                        assert(r@[a] == old_r[a]);
                        assert(old_r[a] <= old_r[old_r.len() - 1]);
                        assert(old_r[old_r.len() - 1] == v@[i - 1]);
                        assert(v@[i - 1] <= v@[i as int]);
                    }
                }
                assert forall|a: int, b: int| 0 <= a < b < r@.len() implies r@[a] != r@[b] by {
                    if b == r@.len() - 1 {
                        assert(r@[a] == old_r[a]);
                        assert(old_r[a] <= old_r[old_r.len() - 1]);
                        assert(old_r[old_r.len() - 1] == v@[i - 1]);
                        assert(v@[i - 1] <= c);
                        assert(old_r[old_r.len() - 1] != c);
                    }
                }
                assert forall|x: char|
                    r@.contains(x) == v@.take(i + 1).contains(x) by {
                    lemma_push_contains(old_r, c, x);
                    lemma_push_contains(v@.take(i as int), c, x);
                    assert(r@ == old_r.push(c));
                }
            } else {
                assert(old_r[old_r.len() - 1] == c);
                assert(r@.contains(c)) by {
                    assert(r@[r@.len() - 1] == c);
                }
                assert forall|x: char|
                    r@.contains(x) == v@.take(i + 1).contains(x) by {
                    lemma_push_contains(v@.take(i as int), c, x);
                }
            }
        }
        i = i + 1;
    }
    proof {
        assert(v@.take(v@.len() as int) =~= v@);
        assert forall|x: char|
            r@.to_set().contains(x) == v@.to_set().contains(x) by {
            assert(r@.contains(x) == v@.contains(x));
        }
        assert(r@.to_set() =~= v@.to_set());
    }
    r
}

} // verus!

//! The record describing one font file's extracted properties, and the
//! file-extension test that decides which files are candidates for
//! extraction.

use crate::strutil::chars_of;
use crate::strutil::seq_views;
use vstd::prelude::*;

verus! {

/// Font information extracted from a font file by an external
/// extractor; plain data, identified by the file's path.
#[derive(Debug, Clone)]
pub struct FontInfo {
    /// All distinct name-table strings, space-joined.
    pub name_string: String,
    /// Whether the font has variation axes.
    pub is_variable: bool,
    /// Variation axis tags.
    pub axes: Vec<String>,
    /// OpenType feature tags.
    pub features: Vec<String>,
    /// OpenType script tags.
    pub scripts: Vec<String>,
    /// Table tags present in the font.
    pub tables: Vec<String>,
    /// The supported characters, as a string of distinct characters in
    /// ascending codepoint order.
    pub charset_string: String,
}

impl FontInfo {
    /// The tag views of the property dimension named `t`, or the empty
    /// sequence for any other tag.
    pub open spec fn spec_props(self, t: Seq<char>) -> Seq<Seq<char>> {
        if t == "axis"@ {
            seq_views(self.axes@)
        } else if t == "feature"@ {
            seq_views(self.features@)
        } else if t == "script"@ {
            seq_views(self.scripts@)
        } else if t == "table"@ {
            seq_views(self.tables@)
        } else {
            Seq::empty()
        }
    }
}

/// The index of the last occurrence of `c` in `s`, or -1 if there is
/// none.
pub open spec fn find_last(s: Seq<char>, c: char) -> int
    decreases s.len(),
{
    if s.len() == 0 {
        -1
    } else if s[s.len() - 1] == c {
        s.len() - 1
    } else {
        find_last(s.drop_last(), c)
    }
}

/// Maps the upper-case letters of the recognized extensions to lower
/// case; every other character is its own image.  Restricted to the
/// letters that occur in the recognized extensions, this is exactly
/// Unicode lower-casing: no character but 'T' lower-cases to 't', and
/// likewise for 'o', 'f' and 'c'.
pub open spec fn lower_tag_char(c: char) -> char {
    if c == 'T' {
        't'
    } else if c == 'O' {
        'o'
    } else if c == 'F' {
        'f'
    } else if c == 'C' {
        'c'
    } else {
        c
    }
}

/// Whether `e`, lower-cased, is one of the recognized font-file
/// extensions: ttf, otf, ttc, otc.
pub open spec fn is_font_extension(e: Seq<char>) -> bool {
    let l = e.map_values(|c: char| lower_tag_char(c));
    ||| l == seq!['t', 't', 'f']
    ||| l == seq!['o', 't', 'f']
    ||| l == seq!['t', 't', 'c']
    ||| l == seq!['o', 't', 'c']
}

/// Whether the path names a font file: its final component has an
/// extension (a dot that is neither its first character nor absent),
/// and that extension, case-insensitively, is one of the recognized
/// four.
pub open spec fn spec_is_font_file(p: Seq<char>) -> bool {
    let sl = find_last(p, '/');
    let d = find_last(p, '.');
    d > sl + 1 && is_font_extension(p.skip(d + 1))
}

proof fn lemma_find_last_range(s: Seq<char>, c: char)
    ensures
        -1 <= find_last(s, c) < s.len(),
    decreases s.len(),
{
    if s.len() != 0 && s[s.len() - 1] != c {
        lemma_find_last_range(s.drop_last(), c);
    }
}

proof fn lemma_find_last_prefix(s: Seq<char>, c: char, i: int)
    requires
        0 <= i <= s.len(),
        forall|j: int| i <= j < s.len() ==> s[j] != c,
    ensures
        find_last(s, c) == find_last(s.take(i), c),
    decreases s.len() - i,
{
    if i < s.len() {
        assert(s.take(s.len() as int) =~= s);
        assert(s.take(i + 1).drop_last() =~= s.take(i));
        lemma_find_last_prefix(s, c, i + 1);
        if i + 1 < s.len() {
        } else {
            assert(s.take(i + 1) =~= s);
        }
    } else {
        assert(s.take(i) =~= s);
    }
}

/// The position of the last occurrence of `c` in `v`, if any.
fn find_last_char(v: &Vec<char>, c: char) -> (r: Option<usize>)
    ensures
        match r {
            Some(i) => i < v@.len() && find_last(v@, c) == i as int,
            None => find_last(v@, c) == -1,
        },
{
    let mut i: usize = v.len();
    while i > 0
        invariant
            i <= v@.len(),
            forall|j: int| i <= j < v@.len() ==> v@[j] != c,
        decreases i,
    {
        if v[i - 1] == c {
            proof {
                lemma_find_last_prefix(v@, c, i as int);
                assert(v@.take(i as int).last() == v@[i - 1]);
            }
            return Some(i - 1);
        }
        i = i - 1;
    }
    proof {
        lemma_find_last_prefix(v@, c, 0);
        assert(v@.take(0) =~= Seq::<char>::empty());
    }
    None
}

/// Whether a file path names a font file, judged by its extension
/// (ttf, otf, ttc or otc, case-insensitive).
pub fn is_font_file(path: &str) -> (r: bool)
    ensures
        r == spec_is_font_file(path@),
{
    let v = chars_of(path);
    let n = v.len();
    proof {
        lemma_find_last_range(path@, '.');
        lemma_find_last_range(path@, '/');
    }
    let d: usize = match find_last_char(&v, '.') {
        Some(i) => i,
        None => {
            return false;
        },
    };
    match find_last_char(&v, '/') {
        Some(sl) => {
            if d <= sl + 1 {
                return false;
            }
        },
        None => {
            if d == 0 {
                return false;
            }
        },
    }
    let start = d + 1;
    if v.len() - start != 3 {
        proof {
            let ext = path@.skip(d + 1);
            let l = ext.map_values(|c: char| lower_tag_char(c));
            assert(ext.len() == path@.len() - (d + 1));
            assert(l.len() == ext.len());
            assert(seq!['t', 't', 'f'].len() == 3);
            assert(seq!['o', 't', 'f'].len() == 3);
            assert(seq!['t', 't', 'c'].len() == 3);
            assert(seq!['o', 't', 'c'].len() == 3);
        }
        return false;
    }
    let e0 = v[start];
    let e1 = v[start + 1];
    let e2 = v[start + 2];
    let t0 = e0 == 't' || e0 == 'T';
    let o0 = e0 == 'o' || e0 == 'O';
    let t1 = e1 == 't' || e1 == 'T';
    let f2 = e2 == 'f' || e2 == 'F';
    let c2 = e2 == 'c' || e2 == 'C';
    let ok = (t0 || o0) && t1 && (f2 || c2);
    proof {
        let ext = path@.skip(d + 1);
        let l = ext.map_values(|c: char| lower_tag_char(c));
        assert(ext.len() == 3);
        assert(ext[0] == e0 && ext[1] == e1 && ext[2] == e2);
        assert(l.len() == 3 && l[0] == lower_tag_char(e0) && l[1] == lower_tag_char(e1) && l[2]
            == lower_tag_char(e2));
        if ok {
            if t0 && f2 {
                assert(l =~= seq!['t', 't', 'f']);
            } else if t0 && c2 {
                assert(l =~= seq!['t', 't', 'c']);
            } else if o0 && f2 {
                assert(l =~= seq!['o', 't', 'f']);
            } else {
                assert(l =~= seq!['o', 't', 'c']);
            }
        } else {
            assert(seq!['t', 't', 'f'][0] == 't' && seq!['t', 't', 'f'][1] == 't' && seq![
                't',
                't',
                'f',
            ][2] == 'f');
            assert(seq!['o', 't', 'f'][0] == 'o' && seq!['o', 't', 'f'][1] == 't' && seq![
                'o',
                't',
                'f',
            ][2] == 'f');
            assert(seq!['t', 't', 'c'][0] == 't' && seq!['t', 't', 'c'][1] == 't' && seq![
                't',
                't',
                'c',
            ][2] == 'c');
            assert(seq!['o', 't', 'c'][0] == 'o' && seq!['o', 't', 'c'][1] == 't' && seq![
                'o',
                't',
                'c',
            ][2] == 'c');
        }
    }
    ok
}

} // verus!

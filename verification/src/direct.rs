//! The direct audio-file name shape.
//!
//! A direct (non-listing) file name is recognized when it can be split as
//! *index* `+` *title* `+` `_` `+` *artist* `+` `.wav`/`.mp3`, where the
//! index is any run of characters without a newline, the title is a nonempty
//! run of uppercase ASCII letters and underscores, and the artist is nonempty
//! and free of dots.  Among the admissible splits the match takes the
//! shortest possible index and then the longest possible title, the way a
//! left-to-right lazy/greedy pattern engine would.

use vstd::prelude::*;

verus! {

/// A character the title segment may hold: an uppercase ASCII letter or `_`.
pub open spec fn title_char(c: char) -> bool {
    ('A' <= c && c <= 'Z') || c == '_'
}

/// The name ends in `.wav` or `.mp3`, with the dot at `s.len() - 4`.
pub open spec fn ext_ok(s: Seq<char>) -> bool {
    &&& s.len() >= 4
    &&& s[s.len() - 4] == '.'
    &&& ((s[s.len() - 3] == 'w' && s[s.len() - 2] == 'a' && s[s.len() - 1] == 'v') || (s[s.len()
        - 3] == 'm' && s[s.len() - 2] == 'p' && s[s.len() - 1] == '3'))
}

/// What must follow the `_` at position `j`: a nonempty artist that holds no
/// dot, then the dot and the audio extension, ending the name.
pub open spec fn tail_ok(s: Seq<char>, j: int) -> bool {
    &&& j + 6 <= s.len()
    &&& ext_ok(s)
    &&& forall|m: int| j < m < s.len() - 4 ==> s[m] != '.'
}

/// The split of `s` with the index ending at `i` and the title at `j` is
/// admissible.
pub open spec fn split_ok(s: Seq<char>, i: int, j: int) -> bool {
    &&& 0 <= i < j < s.len()
    &&& (forall|m: int| 0 <= m < i ==> s[m] != '\n')
    &&& (forall|m: int| i <= m < j ==> title_char(#[trigger] s[m]))
    &&& s[j] == '_'
    &&& tail_ok(s, j)
}

/// The name has the direct audio-file shape.
pub open spec fn direct_matches(s: Seq<char>) -> bool {
    exists|i: int, j: int| split_ok(s, i, j)
}

fn title_char_x(c: char) -> (r: bool)
    ensures
        r == title_char(c),
{
    ('A' <= c && c <= 'Z') || c == '_'
}

fn all_title_x(v: &Vec<char>, a: usize, b: usize) -> (r: bool)
    requires
        a <= b <= v@.len(),
    ensures
        r == forall|m: int| a <= m < b ==> title_char(#[trigger] v@[m]),
{
    let mut m: usize = a;
    while m < b
        invariant
            a <= m <= b <= v@.len(),
            forall|k: int| a <= k < m ==> title_char(#[trigger] v@[k]),
        decreases b - m,
    {
        if !title_char_x(v[m]) {
            return false;
        }
        m = m + 1;
    }
    true
}

fn tail_ok_x(v: &Vec<char>, j: usize) -> (r: bool)
    requires
        j < v@.len(),
    ensures
        r == tail_ok(v@, j as int),
{
    let n = v.len();
    if n < 6 {
        return false;
    }
    if j > n - 6 {
        return false;
    }
    if v[n - 4] != '.' {
        return false;
    }
    let wav = v[n - 3] == 'w' && v[n - 2] == 'a' && v[n - 1] == 'v';
    let mp3 = v[n - 3] == 'm' && v[n - 2] == 'p' && v[n - 1] == '3';
    if !wav && !mp3 {
        return false;
    }
    let mut m: usize = j + 1;
    while m < n - 4
        invariant
            j < m <= n - 4 || m == j + 1,
            n == v@.len(),
            n >= 6,
            forall|k: int| j < k < m ==> v@[k] != '.',
        decreases n - m,
    {
        if v[m] == '.' {
            return false;
        }
        m = m + 1;
    }
    true
}

/// Find the admissible split of a direct file name, if it has one: the split
/// with the shortest index, and for that index the longest title.  `None`
/// reports that no split at all is admissible.
pub fn match_direct(v: &Vec<char>) -> (r: Option<(usize, usize)>)
    ensures
        match r {
            Some(p) => {
                &&& split_ok(v@, p.0 as int, p.1 as int)
                &&& forall|i2: int, j2: int| 0 <= i2 < p.0 ==> !split_ok(v@, i2, j2)
                &&& forall|j2: int| j2 > p.1 ==> !split_ok(v@, p.0 as int, j2)
            },
            None => !direct_matches(v@),
        },
{
    let n = v.len();
    if n < 7 {
        return None;
    }
    let mut i: usize = 0;
    while i < n
        invariant
            i <= n,
            n == v@.len(),
            n >= 7,
            forall|i2: int, j2: int| 0 <= i2 < i ==> !split_ok(v@, i2, j2),
            forall|m: int| 0 <= m < i ==> v@[m] != '\n',
        decreases n - i,
    {
        let mut j: usize = n - 6;
        while j > i
            invariant
                i < n,
                n == v@.len(),
                n >= 7,
                j <= n - 6,
                forall|j2: int| j2 > j ==> !split_ok(v@, i as int, j2),
                forall|i2: int, j2: int| 0 <= i2 < i ==> !split_ok(v@, i2, j2),
                forall|m: int| 0 <= m < i ==> v@[m] != '\n',
            decreases j,
        {
            let under = v[j] == '_';
            let title = if under {
                all_title_x(v, i, j)
            } else {
                false
            };
            let tail = if title {
                tail_ok_x(v, j)
            } else {
                false
            };
            if under && title && tail {
                return Some((i, j));
            }
            proof {
                assert(!split_ok(v@, i as int, j as int));
            }
            j = j - 1;
        }
        proof {
            assert(forall|j2: int| j2 > i ==> !split_ok(v@, i as int, j2));
            assert(forall|j2: int| !split_ok(v@, i as int, j2));
        }
        if v[i] == '\n' {
            proof {
                assert forall|i2: int, j2: int| true implies !split_ok(v@, i2, j2) by {
                    if i2 > i {
                        assert(v@[i as int] == '\n');
                        assert(!split_ok(v@, i2, j2));
                    }
                }
            }
            return None;
        }
        i = i + 1;
    }
    None
}

} // verus!

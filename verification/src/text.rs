//! Character-sequence utilities: splitting on whitespace, joining with a
//! separator, trimming, prefix tests, and the small path conventions the
//! library reads (the part of a path after the last `/`, the extension after
//! the last `.`, the part of a name before the first `.`).

use vstd::prelude::*;
use crate::chars::whitespace;

verus! {

/// The whitespace-separated words that remain in `s` when a word `cur` has
/// already been started: words are flushed when a whitespace character or the
/// end of the input is reached, and empty runs produce no word.  With an
/// empty `cur` this is the splitting that `str::split_whitespace` performs,
/// over characters.
pub open spec fn split_ws_from(s: Seq<char>, cur: Seq<char>) -> Seq<Seq<char>>
    decreases s.len(),
{
    if s.len() == 0 {
        if cur.len() == 0 {
            Seq::empty()
        } else {
            seq![cur]
        }
    } else if whitespace(s[0]) {
        if cur.len() == 0 {
            split_ws_from(s.drop_first(), Seq::empty())
        } else {
            seq![cur] + split_ws_from(s.drop_first(), Seq::empty())
        }
    } else {
        split_ws_from(s.drop_first(), cur.push(s[0]))
    }
}

/// The whitespace-separated words of `s`, in order, with empty runs dropped.
pub open spec fn split_ws(s: Seq<char>) -> Seq<Seq<char>> {
    split_ws_from(s, Seq::empty())
}

/// Copy of the characters `v[a..b]`.
pub fn subvec(v: &Vec<char>, a: usize, b: usize) -> (r: Vec<char>)
    requires
        a <= b <= v@.len(),
    ensures
        r@ == v@.subrange(a as int, b as int),
{
    let mut r: Vec<char> = Vec::new();
    let mut i: usize = a;
    while i < b
        invariant
            a <= i <= b <= v@.len(),
            r@ == v@.subrange(a as int, i as int),
        decreases b - i,
    {
        r.push(v[i]);
        proof {
            assert(r@ =~= v@.subrange(a as int, i as int + 1));
        }
        i = i + 1;
    }
    r
}

/// Split `v` into its whitespace-separated words.
pub fn split_ws_x(v: &Vec<char>) -> (r: Vec<Vec<char>>)
    ensures
        r.deep_view() == split_ws(v@),
{
    let mut out: Vec<Vec<char>> = Vec::new();
    let mut cur: Vec<char> = Vec::new();
    let mut i: usize = 0;
    proof {
        assert(v@.skip(0) =~= v@);
        assert(out.deep_view() =~= Seq::<Seq<char>>::empty());
        assert(out.deep_view() + split_ws(v@) =~= split_ws(v@));
    }
    while i < v.len()
        invariant
            i <= v@.len(),
            split_ws(v@) == out.deep_view() + split_ws_from(v@.skip(i as int), cur@),
        decreases v@.len() - i,
    {
        let c = v[i];
        proof {
            assert(v@.skip(i as int)[0] == v@[i as int]);
            assert(v@.skip(i as int).drop_first() =~= v@.skip(i as int + 1));
        }
        if c.is_whitespace() {
            if cur.len() > 0 {
                let ghost pre = out.deep_view();
                out.push(cur);
                proof {
                    assert(out.deep_view() =~~= pre.push(cur@));
                    assert(pre + (seq![cur@] + split_ws_from(v@.skip(i as int + 1), Seq::empty()))
                        =~= pre.push(cur@) + split_ws_from(v@.skip(i as int + 1), Seq::empty()));
                }
                cur = Vec::new();
            }
            proof {
                assert(cur@ =~= Seq::<char>::empty());
            }
        } else {
            cur.push(c);
        }
        i = i + 1;
    }
    proof {
        assert(v@.skip(v@.len() as int) =~= Seq::<char>::empty());
    }
    if cur.len() > 0 {
        let ghost pre = out.deep_view();
        out.push(cur);
        proof {
            assert(out.deep_view() =~~= pre.push(cur@));
            assert(pre + seq![cur@] =~= pre.push(cur@));
        }
    } else {
        proof {
            assert(out.deep_view() + Seq::<Seq<char>>::empty() =~= out.deep_view());
        }
    }
    out
}

/// The parts joined with `sep` between them: nothing for no parts, the lone
/// part for one, and separators only between neighbours otherwise.
pub open spec fn join_with(parts: Seq<Seq<char>>, sep: char) -> Seq<char>
    decreases parts.len(),
{
    if parts.len() == 0 {
        Seq::empty()
    } else if parts.len() == 1 {
        parts[0]
    } else {
        parts[0] + seq![sep] + join_with(parts.drop_first(), sep)
    }
}

proof fn lemma_join_snoc(parts: Seq<Seq<char>>, t: Seq<char>, sep: char)
    ensures
        parts.len() == 0 ==> join_with(parts.push(t), sep) =~= t,
        parts.len() > 0 ==> join_with(parts.push(t), sep) =~= join_with(parts, sep) + seq![sep] + t,
    decreases parts.len(),
{
    reveal_with_fuel(join_with, 3);
    if parts.len() == 0 {
        assert(parts.push(t)[0] == t);
    } else if parts.len() == 1 {
        assert(parts.push(t)[0] == parts[0]);
        assert(parts.push(t).drop_first() =~= seq![t]);
    } else {
        assert(parts.push(t)[0] == parts[0]);
        assert(parts.push(t).drop_first() =~= parts.drop_first().push(t));
        lemma_join_snoc(parts.drop_first(), t, sep);
    }
}

/// Join the given words with `sep` between neighbours.
pub fn join_with_x(parts: &Vec<Vec<char>>, sep: char) -> (r: Vec<char>)
    ensures
        r@ == join_with(parts.deep_view(), sep),
{
    let mut out: Vec<char> = Vec::new();
    let mut i: usize = 0;
    while i < parts.len()
        invariant
            i <= parts@.len(),
            out@ == join_with(parts.deep_view().take(i as int), sep),
        decreases parts@.len() - i,
    {
        let ghost pre = parts.deep_view().take(i as int);
        if i > 0 {
            out.push(sep);
        }
        let part = &parts[i];
        let mut j: usize = 0;
        let ghost mid = out@;
        while j < part.len()
            invariant
                j <= part@.len(),
                out@ == mid + part@.take(j as int),
            decreases part@.len() - j,
        {
            out.push(part[j]);
            proof {
                assert(mid + part@.take(j as int + 1) =~= (mid + part@.take(j as int)).push(
                    part@[j as int],
                ));
            }
            j = j + 1;
        }
        proof {
            assert(part@.take(part@.len() as int) =~= part@);
            lemma_join_snoc(pre, part@, sep);
            assert(parts.deep_view().take(i as int + 1) =~~= pre.push(part@));
            if i > 0 {
                assert(out@ =~= join_with(pre, sep) + seq![sep] + part@);
            } else {
                assert(pre =~= Seq::<Seq<char>>::empty());
                assert(out@ =~= part@);
            }
        }
        i = i + 1;
    }
    proof {
        assert(parts.deep_view().take(parts@.len() as int) =~= parts.deep_view());
    }
    out
}

/// `s` with every underscore replaced by a space.
pub open spec fn underscores_to_spaces(s: Seq<char>) -> Seq<char> {
    s.map_values(|c: char| if c == '_' { ' ' } else { c })
}

/// Replace every underscore with a space.
pub fn underscores_to_spaces_x(v: &Vec<char>) -> (r: Vec<char>)
    ensures
        r@ == underscores_to_spaces(v@),
{
    let mut out: Vec<char> = Vec::new();
    let mut i: usize = 0;
    while i < v.len()
        invariant
            i <= v@.len(),
            out@ == underscores_to_spaces(v@).take(i as int),
        decreases v@.len() - i,
    {
        let c = v[i];
        if c == '_' {
            out.push(' ');
        } else {
            out.push(c);
        }
        proof {
            assert(out@ =~= underscores_to_spaces(v@).take(i as int + 1));
        }
        i = i + 1;
    }
    proof {
        assert(underscores_to_spaces(v@).take(v@.len() as int) =~= underscores_to_spaces(v@));
    }
    out
}

/// The prefix of `s` before its first `.`, or all of `s` if it has none —
/// what splitting on `.` yields as the first part.
pub open spec fn before_first_dot(s: Seq<char>) -> Seq<char>
    decreases s.len(),
{
    if s.len() == 0 {
        Seq::empty()
    } else if s[0] == '.' {
        Seq::empty()
    } else {
        seq![s[0]] + before_first_dot(s.drop_first())
    }
}

proof fn lemma_before_first_dot_at(s: Seq<char>, k: int)
    requires
        0 <= k <= s.len(),
        forall|j: int| 0 <= j < k ==> #[trigger] s[j] != '.',
        k < s.len() ==> s[k] == '.',
    ensures
        before_first_dot(s) =~= s.take(k),
    decreases k,
{
    if k == 0 {
    } else {
        lemma_before_first_dot_at(s.drop_first(), k - 1);
        assert(seq![s[0]] + s.drop_first().take(k - 1) =~= s.take(k));
    }
}

/// The characters before the first `.`.
pub fn before_first_dot_x(v: &Vec<char>) -> (r: Vec<char>)
    ensures
        r@ == before_first_dot(v@),
{
    let mut i: usize = 0;
    while i < v.len() && v[i] != '.'
        invariant
            i <= v@.len(),
            forall|j: int| 0 <= j < i ==> #[trigger] v@[j] != '.',
            i < v@.len() ==> v@[i - 1] != '.' || i == 0,
        decreases v@.len() - i,
    {
        i = i + 1;
    }
    proof {
        lemma_before_first_dot_at(v@, i as int);
    }
    subvec(v, 0, i)
}

/// Whether `p` is a prefix of `s`.
pub fn is_prefix_x(p: &Vec<char>, s: &Vec<char>) -> (r: bool)
    ensures
        r == p@.is_prefix_of(s@),
{
    if p.len() > s.len() {
        return false;
    }
    let mut i: usize = 0;
    while i < p.len()
        invariant
            i <= p@.len() <= s@.len(),
            forall|j: int| 0 <= j < i ==> p@[j] == s@[j],
        decreases p@.len() - i,
    {
        if p[i] != s[i] {
            assert(!p@.is_prefix_of(s@));
            return false;
        }
        i = i + 1;
    }
    proof {
        assert(p@ =~= s@.subrange(0, p@.len() as int));
    }
    true
}

/// The position of the last `sep` in `s`, or `-1` if there is none.
pub open spec fn last_pos_of(s: Seq<char>, sep: char) -> int
    decreases s.len(),
{
    if s.len() == 0 {
        -1
    } else if s.last() == sep {
        s.len() - 1
    } else {
        last_pos_of(s.drop_last(), sep)
    }
}

proof fn lemma_last_pos_at(s: Seq<char>, sep: char, k: int)
    requires
        -1 <= k < s.len(),
        k >= 0 ==> s[k] == sep,
        forall|j: int| k < j < s.len() ==> #[trigger] s[j] != sep,
    ensures
        last_pos_of(s, sep) == k,
    decreases s.len(),
{
    if s.len() > 0 && s.last() != sep {
        lemma_last_pos_at(s.drop_last(), sep, k);
    }
}

/// The position of the last occurrence of `sep`, as `Some(position)`, or
/// `None` if `sep` does not occur.
pub fn last_pos_of_x(v: &Vec<char>, sep: char) -> (r: Option<usize>)
    ensures
        match r {
            Some(k) => last_pos_of(v@, sep) == k as int && k < v@.len(),
            None => last_pos_of(v@, sep) == -1,
        },
{
    let mut i: usize = v.len();
    while i > 0
        invariant
            i <= v@.len(),
            forall|j: int| i <= j < v@.len() ==> #[trigger] v@[j] != sep,
        decreases i,
    {
        i = i - 1;
        if v[i] == sep {
            proof {
                lemma_last_pos_at(v@, sep, i as int);
            }
            return Some(i);
        }
    }
    proof {
        lemma_last_pos_at(v@, sep, -1);
    }
    None
}

/// `s` with leading whitespace removed.
pub open spec fn trim_start(s: Seq<char>) -> Seq<char>
    decreases s.len(),
{
    if s.len() == 0 {
        s
    } else if whitespace(s[0]) {
        trim_start(s.drop_first())
    } else {
        s
    }
}

/// `s` with trailing whitespace removed.
pub open spec fn trim_end(s: Seq<char>) -> Seq<char>
    decreases s.len(),
{
    if s.len() == 0 {
        s
    } else if whitespace(s.last()) {
        trim_end(s.drop_last())
    } else {
        s
    }
}

/// `s` with both leading and trailing whitespace removed — what `str::trim`
/// leaves.
pub open spec fn trimmed(s: Seq<char>) -> Seq<char> {
    trim_end(trim_start(s))
}

proof fn lemma_trim_start_at(s: Seq<char>, a: int)
    requires
        0 <= a <= s.len(),
        forall|j: int| 0 <= j < a ==> whitespace(#[trigger] s[j]),
        a < s.len() ==> !whitespace(s[a]),
    ensures
        trim_start(s) =~= s.skip(a),
    decreases a,
{
    if a == 0 {
        assert(s.skip(0) =~= s);
    } else {
        lemma_trim_start_at(s.drop_first(), a - 1);
        assert(s.drop_first().skip(a - 1) =~= s.skip(a));
    }
}

proof fn lemma_trim_end_at(s: Seq<char>, b: int)
    requires
        0 <= b <= s.len(),
        forall|j: int| b <= j < s.len() ==> whitespace(#[trigger] s[j]),
        b > 0 ==> !whitespace(s[b - 1]),
    ensures
        trim_end(s) =~= s.take(b),
    decreases s.len(),
{
    if b == s.len() {
        assert(s.take(b) =~= s);
    } else {
        assert(whitespace(s.last()));
        lemma_trim_end_at(s.drop_last(), b);
        assert(s.drop_last().take(b) =~= s.take(b));
    }
}

/// Remove leading and trailing whitespace.
pub fn trim_x(v: &Vec<char>) -> (r: Vec<char>)
    ensures
        r@ == trimmed(v@),
{
    let mut a: usize = 0;
    while a < v.len() && v[a].is_whitespace()
        invariant
            a <= v@.len(),
            forall|j: int| 0 <= j < a ==> whitespace(#[trigger] v@[j]),
        decreases v@.len() - a,
    {
        a = a + 1;
    }
    proof {
        lemma_trim_start_at(v@, a as int);
    }
    let mut b: usize = v.len();
    while b > a && v[b - 1].is_whitespace()
        invariant
            a <= b <= v@.len(),
            forall|j: int| b <= j < v@.len() ==> whitespace(#[trigger] v@[j]),
        decreases b,
    {
        b = b - 1;
    }
    proof {
        if b == a {
            lemma_trim_end_at(v@.skip(a as int), 0);
        } else {
            lemma_trim_end_at(v@.skip(a as int), b - a);
        }
        assert(v@.skip(a as int).take(b - a) =~= v@.subrange(a as int, b as int));
    }
    subvec(v, a, b)
}

/// Whether `v` contains the character `c`.
pub fn contains_char_x(v: &Vec<char>, c: char) -> (r: bool)
    ensures
        r == v@.contains(c),
{
    let mut i: usize = 0;
    while i < v.len()
        invariant
            i <= v@.len(),
            forall|j: int| 0 <= j < i ==> v@[j] != c,
        decreases v@.len() - i,
    {
        if v[i] == c {
            return true;
        }
        i = i + 1;
    }
    false
}

} // verus!

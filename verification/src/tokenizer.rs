//! The token classifier: a left-to-right finite-state walk that assigns every
//! token of a normalized basename to exactly one of three groups — index,
//! title, artist.

use vstd::prelude::*;
use crate::chars::{alphabetic, chars_of, digit_char, is_digit_char, lower_of, string_from_chars, uppercase};
use crate::text::{
    before_first_dot, before_first_dot_x, join_with, join_with_x, split_ws, split_ws_x,
    underscores_to_spaces, underscores_to_spaces_x,
};

verus! {

/// The group a token is assigned to.
#[derive(Clone, Copy, Debug)]
pub enum Group {
    Index,
    Title,
    Artist,
}

/// The walker's state.  It starts in `BeforeDigit` and can only move forward:
/// `BeforeDigit` → `AfterDigitBeforeTitle` → `Title` → `Artist`.
#[derive(Clone, Copy, Debug)]
pub enum Phase {
    BeforeDigit,
    AfterDigitBeforeTitle,
    Title,
    Artist,
}

/// A token contains at least one ASCII decimal digit.
pub open spec fn token_has_digit(t: Seq<char>) -> bool {
    exists|i: int| 0 <= i < t.len() && is_digit_char(#[trigger] t[i])
}

/// An "upper token": at least one alphabetic character, and every alphabetic
/// character in it is uppercase.  A token with no alphabetic character at all
/// (a lone number, say) is not an upper token.
pub open spec fn upper_token(t: Seq<char>) -> bool {
    &&& forall|i: int| 0 <= i < t.len() && alphabetic(#[trigger] t[i]) ==> uppercase(t[i])
    &&& exists|i: int| 0 <= i < t.len() && alphabetic(#[trigger] t[i])
}

/// The state after consuming one token.
pub open spec fn phase_step(p: Phase, t: Seq<char>) -> Phase {
    match p {
        Phase::BeforeDigit => if token_has_digit(t) {
            Phase::AfterDigitBeforeTitle
        } else {
            Phase::BeforeDigit
        },
        Phase::AfterDigitBeforeTitle => if upper_token(t) {
            Phase::Title
        } else {
            Phase::AfterDigitBeforeTitle
        },
        Phase::Title => if upper_token(t) {
            Phase::Title
        } else {
            Phase::Artist
        },
        Phase::Artist => Phase::Artist,
    }
}

/// The group the token consumed in state `p` is assigned to.
pub open spec fn group_for(p: Phase, t: Seq<char>) -> Group {
    match p {
        Phase::BeforeDigit => Group::Index,
        Phase::AfterDigitBeforeTitle => if upper_token(t) {
            Group::Title
        } else {
            Group::Index
        },
        Phase::Title => if upper_token(t) {
            Group::Title
        } else {
            Group::Artist
        },
        Phase::Artist => Group::Artist,
    }
}

/// The state after consuming a whole token sequence, starting from `p`.
pub open spec fn phase_after(p: Phase, tokens: Seq<Seq<char>>) -> Phase
    decreases tokens.len(),
{
    if tokens.len() == 0 {
        p
    } else {
        phase_after(phase_step(p, tokens[0]), tokens.drop_first())
    }
}

/// The group of each token in turn, starting from state `p`.
pub open spec fn groups_from(p: Phase, tokens: Seq<Seq<char>>) -> Seq<Group>
    decreases tokens.len(),
{
    if tokens.len() == 0 {
        Seq::empty()
    } else {
        seq![group_for(p, tokens[0])] + groups_from(phase_step(p, tokens[0]), tokens.drop_first())
    }
}

/// The group of each token of the sequence, from the initial state.
pub open spec fn token_groups(tokens: Seq<Seq<char>>) -> Seq<Group> {
    groups_from(Phase::BeforeDigit, tokens)
}

/// The tokens whose assigned group is `g`, in input order.
pub open spec fn picked(tokens: Seq<Seq<char>>, groups: Seq<Group>, g: Group) -> Seq<Seq<char>>
    decreases tokens.len(),
{
    if tokens.len() == 0 || groups.len() == 0 {
        Seq::empty()
    } else {
        let rest = picked(tokens.drop_first(), groups.drop_first(), g);
        if groups[0] == g {
            seq![tokens[0]] + rest
        } else {
            rest
        }
    }
}

proof fn lemma_phase_groups_snoc(p: Phase, tokens: Seq<Seq<char>>, t: Seq<char>)
    ensures
        phase_after(p, tokens.push(t)) == phase_step(phase_after(p, tokens), t),
        groups_from(p, tokens.push(t)) =~= groups_from(p, tokens).push(
            group_for(phase_after(p, tokens), t),
        ),
    decreases tokens.len(),
{
    reveal_with_fuel(phase_after, 2);
    reveal_with_fuel(groups_from, 2);
    if tokens.len() == 0 {
        assert(tokens.push(t)[0] == t);
        assert(tokens.push(t).drop_first() =~= tokens);
    } else {
        assert(tokens.push(t)[0] == tokens[0]);
        assert(tokens.push(t).drop_first() =~= tokens.drop_first().push(t));
        lemma_phase_groups_snoc(phase_step(p, tokens[0]), tokens.drop_first(), t);
    }
}

proof fn lemma_picked_snoc(tokens: Seq<Seq<char>>, groups: Seq<Group>, t: Seq<char>, g0: Group, g: Group)
    requires
        tokens.len() == groups.len(),
    ensures
        g0 == g ==> picked(tokens.push(t), groups.push(g0), g) =~= picked(tokens, groups, g).push(t),
        g0 != g ==> picked(tokens.push(t), groups.push(g0), g) =~= picked(tokens, groups, g),
    decreases tokens.len(),
{
    reveal_with_fuel(picked, 2);
    if tokens.len() == 0 {
        assert(tokens.push(t).drop_first() =~= Seq::<Seq<char>>::empty());
        assert(groups.push(g0).drop_first() =~= Seq::<Group>::empty());
    } else {
        assert(tokens.push(t).drop_first() =~= tokens.drop_first().push(t));
        assert(groups.push(g0).drop_first() =~= groups.drop_first().push(g0));
        lemma_picked_snoc(tokens.drop_first(), groups.drop_first(), t, g0, g);
    }
}

/// Every input token lands in exactly one of the three groups — the one that
/// `token_groups` assigns to its position — and each group keeps the tokens in
/// input order, as `picked` selects them without reordering.  In particular
/// the three group lengths add up to the number of tokens: no token is dropped
/// and none is counted twice.
pub proof fn lemma_tokens_partition(tokens: Seq<Seq<char>>)
    ensures
        token_groups(tokens).len() == tokens.len(),
        picked(tokens, token_groups(tokens), Group::Index).len() + picked(
            tokens,
            token_groups(tokens),
            Group::Title,
        ).len() + picked(tokens, token_groups(tokens), Group::Artist).len() == tokens.len(),
{
    lemma_groups_len(Phase::BeforeDigit, tokens);
    lemma_picked_partition(Phase::BeforeDigit, tokens);
}

proof fn lemma_groups_len(p: Phase, tokens: Seq<Seq<char>>)
    ensures
        groups_from(p, tokens).len() == tokens.len(),
    decreases tokens.len(),
{
    if tokens.len() > 0 {
        lemma_groups_len(phase_step(p, tokens[0]), tokens.drop_first());
    }
}

proof fn lemma_picked_partition(p: Phase, tokens: Seq<Seq<char>>)
    ensures
        picked(tokens, groups_from(p, tokens), Group::Index).len() + picked(
            tokens,
            groups_from(p, tokens),
            Group::Title,
        ).len() + picked(tokens, groups_from(p, tokens), Group::Artist).len() == tokens.len(),
    decreases tokens.len(),
{
    if tokens.len() > 0 {
        let groups = groups_from(p, tokens);
        lemma_groups_len(p, tokens);
        lemma_groups_len(phase_step(p, tokens[0]), tokens.drop_first());
        assert(groups.drop_first() =~= groups_from(phase_step(p, tokens[0]), tokens.drop_first()));
        lemma_picked_partition(phase_step(p, tokens[0]), tokens.drop_first());
    }
}

/// The classification is a pure function of the token sequence: walking the
/// same tokens again assigns every token to the same group, whatever happened
/// before or between the two walks.
pub proof fn lemma_classification_pure(t1: Seq<Seq<char>>, t2: Seq<Seq<char>>)
    requires
        t1 == t2,
    ensures
        token_groups(t1) == token_groups(t2),
{
}

/// Executable test for [`token_has_digit`].
pub fn token_has_digit_x(t: &Vec<char>) -> (r: bool)
    ensures
        r == token_has_digit(t@),
{
    let mut i: usize = 0;
    while i < t.len()
        invariant
            i <= t@.len(),
            forall|j: int| 0 <= j < i ==> !is_digit_char(#[trigger] t@[j]),
        decreases t@.len() - i,
    {
        if digit_char(t[i]) {
            return true;
        }
        i = i + 1;
    }
    false
}

/// Executable test for [`upper_token`].
pub fn upper_token_x(t: &Vec<char>) -> (r: bool)
    ensures
        r == upper_token(t@),
{
    let mut has_alpha = false;
    let mut all_upper = true;
    let mut i: usize = 0;
    while i < t.len()
        invariant
            i <= t@.len(),
            has_alpha == exists|j: int| 0 <= j < i && alphabetic(#[trigger] t@[j]),
            all_upper == forall|j: int|
                0 <= j < i && alphabetic(#[trigger] t@[j]) ==> uppercase(t@[j]),
        decreases t@.len() - i,
    {
        let c = t[i];
        if c.is_alphabetic() {
            has_alpha = true;
            if !c.is_uppercase() {
                all_upper = false;
            }
        }
        i = i + 1;
    }
    all_upper && has_alpha
}

fn clone_token(t: &Vec<char>) -> (r: Vec<char>)
    ensures
        r@ == t@,
{
    let r = t.clone();
    proof {
        assert(r@ =~= t@);
    }
    r
}

/// Walk the tokens left to right and assign each to its group.  The result is
/// `(index tokens, title tokens, artist tokens)`, exactly the tokens that the
/// specification-level walk picks for each group, in input order.
pub fn classify_tokens(tokens: &Vec<Vec<char>>) -> (r: (Vec<Vec<char>>, Vec<Vec<char>>, Vec<Vec<char>>))
    ensures
        r.0.deep_view() == picked(tokens.deep_view(), token_groups(tokens.deep_view()), Group::Index),
        r.1.deep_view() == picked(tokens.deep_view(), token_groups(tokens.deep_view()), Group::Title),
        r.2.deep_view() == picked(tokens.deep_view(), token_groups(tokens.deep_view()), Group::Artist),
{
    let ghost all: Seq<Seq<char>> = tokens.deep_view();
    let mut idx: Vec<Vec<char>> = Vec::new();
    let mut title: Vec<Vec<char>> = Vec::new();
    let mut artist: Vec<Vec<char>> = Vec::new();
    let mut phase = Phase::BeforeDigit;
    let mut i: usize = 0;
    while i < tokens.len()
        invariant
            i <= all.len(),
            all == tokens.deep_view(),
            tokens@.len() == all.len(),
            phase == phase_after(Phase::BeforeDigit, all.take(i as int)),
            idx.deep_view() == picked(
                all.take(i as int),
                groups_from(Phase::BeforeDigit, all.take(i as int)),
                Group::Index,
            ),
            title.deep_view() == picked(
                all.take(i as int),
                groups_from(Phase::BeforeDigit, all.take(i as int)),
                Group::Title,
            ),
            artist.deep_view() == picked(
                all.take(i as int),
                groups_from(Phase::BeforeDigit, all.take(i as int)),
                Group::Artist,
            ),
        decreases all.len() - i,
    {
        let ghost pre = all.take(i as int);
        let ghost gpre = groups_from(Phase::BeforeDigit, pre);
        let ghost ph = phase_after(Phase::BeforeDigit, pre);
        let t = &tokens[i];
        proof {
            assert(t@ == all[i as int]);
            lemma_groups_len(Phase::BeforeDigit, pre);
        }
        let ghost grp = group_for(ph, t@);
        match phase {
            Phase::BeforeDigit => {
                idx.push(clone_token(t));
                if token_has_digit_x(t) {
                    phase = Phase::AfterDigitBeforeTitle;
                }
            },
            Phase::AfterDigitBeforeTitle => {
                if upper_token_x(t) {
                    title.push(clone_token(t));
                    phase = Phase::Title;
                } else {
                    idx.push(clone_token(t));
                }
            },
            Phase::Title => {
                if upper_token_x(t) {
                    title.push(clone_token(t));
                } else {
                    artist.push(clone_token(t));
                    phase = Phase::Artist;
                }
            },
            Phase::Artist => {
                artist.push(clone_token(t));
            },
        }
        proof {
            lemma_phase_groups_snoc(Phase::BeforeDigit, pre, t@);
            lemma_picked_snoc(pre, gpre, t@, grp, Group::Index);
            lemma_picked_snoc(pre, gpre, t@, grp, Group::Title);
            lemma_picked_snoc(pre, gpre, t@, grp, Group::Artist);
            assert(all.take(i as int + 1) =~= pre.push(t@));
            assert(idx.deep_view() =~= picked(
                all.take(i as int + 1),
                groups_from(Phase::BeforeDigit, all.take(i as int + 1)),
                Group::Index,
            ));
            assert(title.deep_view() =~= picked(
                all.take(i as int + 1),
                groups_from(Phase::BeforeDigit, all.take(i as int + 1)),
                Group::Title,
            ));
            assert(artist.deep_view() =~= picked(
                all.take(i as int + 1),
                groups_from(Phase::BeforeDigit, all.take(i as int + 1)),
                Group::Artist,
            ));
        }
        i = i + 1;
    }
    proof {
        assert(all.take(all.len() as int) =~= all);
    }
    (idx, title, artist)
}

/// The tokens of a normalized basename: the name cut at its first `.`
/// (extension stripped), underscores turned into spaces, and the result split
/// on whitespace.
pub open spec fn normalized_tokens(name: Seq<char>) -> Seq<Seq<char>> {
    split_ws(underscores_to_spaces(before_first_dot(name)))
}

/// The lowercased text of one group of a track name: the tokens the walk
/// assigns to `g`, joined with `sep` and case-folded.
pub open spec fn group_text(name: Seq<char>, g: Group, sep: char) -> Seq<char> {
    lower_of(
        join_with(
            picked(normalized_tokens(name), token_groups(normalized_tokens(name)), g),
            sep,
        ),
    )
}

fn lowercase_joined(parts: &Vec<Vec<char>>, sep: char) -> (r: String)
    ensures
        r@ == lower_of(join_with(parts.deep_view(), sep)),
{
    let joined = join_with_x(parts, sep);
    let s = string_from_chars(&joined);
    s.as_str().to_lowercase()
}

/// Recover `(index, title, artist)` from a track text: strip the extension at
/// the first `.`, turn underscores into spaces, split into tokens, walk them
/// into the three groups, join the index with `_` and the other groups with
/// spaces, and lowercase all three.
pub fn parse_track_filename(filename: &str) -> (r: (String, String, String))
    ensures
        r.0@ == group_text(filename@, Group::Index, '_'),
        r.1@ == group_text(filename@, Group::Title, ' '),
        r.2@ == group_text(filename@, Group::Artist, ' '),
{
    let cs = chars_of(filename);
    let base = before_first_dot_x(&cs);
    let spaced = underscores_to_spaces_x(&base);
    let tokens = split_ws_x(&spaced);
    let groups = classify_tokens(&tokens);
    let index_s = lowercase_joined(&groups.0, '_');
    let title_s = lowercase_joined(&groups.1, ' ');
    let artist_s = lowercase_joined(&groups.2, ' ');
    (index_s, title_s, artist_s)
}

} // verus!

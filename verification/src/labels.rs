//! The label resolver: a prefix lookup from the label table.
//!
//! The table is an ordered list of `(prefix, code)` pairs; the match is
//! case-insensitive (the index is uppercased before comparison, prefixes are
//! kept as given).  When several prefixes match, the first entry in table
//! order wins — the table's insertion order is the deterministic tie-break.

use vstd::prelude::*;
use crate::chars::{chars_of, upper_of};
use crate::text::is_prefix_x;

verus! {

/// The code of the first table entry whose prefix starts `key`, or the empty
/// string if no entry matches.
pub open spec fn label_lookup(table: Seq<(Seq<char>, Seq<char>)>, key: Seq<char>) -> Seq<char>
    decreases table.len(),
{
    if table.len() == 0 {
        Seq::empty()
    } else if table[0].0.is_prefix_of(key) {
        table[0].1
    } else {
        label_lookup(table.drop_first(), key)
    }
}

/// No prefix of the table starts `key` — then, and only then, the lookup
/// yields the empty string... unless some entry's code is itself empty; the
/// converse direction therefore only states that a miss is never an error,
/// just the empty code.
pub proof fn lemma_no_match_empty(table: Seq<(Seq<char>, Seq<char>)>, key: Seq<char>)
    requires
        forall|i: int| 0 <= i < table.len() ==> !(#[trigger] table[i].0).is_prefix_of(key),
    ensures
        label_lookup(table, key) == Seq::<char>::empty(),
    decreases table.len(),
{
    if table.len() > 0 {
        assert(!table[0].0.is_prefix_of(key));
        assert(forall|i: int|
            0 <= i < table.drop_first().len() ==> table.drop_first()[i] == table[i + 1]);
        lemma_no_match_empty(table.drop_first(), key);
    }
}

/// Find the label code for an index string: the index is uppercased, and the
/// code of the first table entry whose prefix starts it is returned; the
/// empty string reports that nothing matched.
pub fn find_label_code(table: &Vec<(String, String)>, index: &str) -> (r: String)
    ensures
        r@ == label_lookup(table.deep_view(), upper_of(index@)),
{
    let upper = index.to_uppercase();
    let key = chars_of(upper.as_str());
    let ghost tv = table.deep_view();
    let mut i: usize = 0;
    proof {
        assert(tv.skip(0) =~= tv);
    }
    while i < table.len()
        invariant
            i <= tv.len(),
            tv == table.deep_view(),
            table@.len() == tv.len(),
            key@ == upper_of(index@),
            label_lookup(tv, key@) == label_lookup(tv.skip(i as int), key@),
        decreases tv.len() - i,
    {
        let entry = &table[i];
        let prefix = chars_of(entry.0.as_str());
        proof {
            assert(tv.skip(i as int)[0] == tv[i as int]);
            assert(tv[i as int].0 == entry.0@ && tv[i as int].1 == entry.1@);
            assert(tv.skip(i as int).drop_first() =~= tv.skip(i as int + 1));
        }
        if is_prefix_x(&prefix, &key) {
            return entry.1.clone();
        }
        i = i + 1;
    }
    proof {
        assert(tv.skip(tv.len() as int) =~= Seq::<(Seq<char>, Seq<char>)>::empty());
    }
    String::new()
}

} // verus!

//! The path conventions the library reads: the file-name component after the
//! last `/`, the extension after the last non-leading `.`, and the stem the
//! extension leaves behind.

use vstd::prelude::*;
use crate::chars::chars_of;
use crate::text::{last_pos_of, last_pos_of_x, subvec};

verus! {

/// The file-name component of a path: what follows the last `/`, or the
/// whole path when it has none.
pub open spec fn file_name_of(p: Seq<char>) -> Seq<char> {
    p.skip(last_pos_of(p, '/') + 1)
}

/// The extension of a file name: what follows the last `.`, provided that
/// dot is not the leading character; a name without such a dot has none.
pub open spec fn extension_of(f: Seq<char>) -> Option<Seq<char>> {
    let d = last_pos_of(f, '.');
    if d > 0 {
        Some(f.skip(d + 1))
    } else {
        None
    }
}

/// The file name without its extension.
pub open spec fn stem_of(f: Seq<char>) -> Seq<char> {
    let d = last_pos_of(f, '.');
    if d > 0 {
        f.take(d)
    } else {
        f
    }
}

/// A path names a text listing when its file name's extension is `txt`;
/// every other path is taken for a direct audio file name.
pub open spec fn is_listing_path(p: Seq<char>) -> bool {
    extension_of(file_name_of(p)) == Some("txt"@)
}

/// The file-name component of a path, as characters.
pub fn file_name_chars(p: &Vec<char>) -> (r: Vec<char>)
    ensures
        r@ == file_name_of(p@),
{
    let n = p.len();
    let r = match last_pos_of_x(p, '/') {
        Some(k) => subvec(p, k + 1, n),
        None => subvec(p, 0, n),
    };
    proof {
        assert(r@ =~= p@.skip(last_pos_of(p@, '/') + 1));
    }
    r
}

/// Decide whether a path names a text listing.
pub fn is_listing_path_x(p: &str) -> (r: bool)
    ensures
        r == is_listing_path(p@),
{
    let cs = chars_of(p);
    let f = file_name_chars(&cs);
    proof {
        reveal_strlit("txt");
    }
    match last_pos_of_x(&f, '.') {
        Some(d) => {
            if d == 0 {
                return false;
            }
            let flen = f.len();
            let e = subvec(&f, d + 1, flen);
            proof {
                assert(e@ =~= f@.skip(d as int + 1));
            }
            if e.len() != 3 {
                return false;
            }
            let r = e[0] == 't' && e[1] == 'x' && e[2] == 't';
            proof {
                if r {
                    assert(e@ =~= "txt"@);
                } else {
                    assert(e@ != "txt"@);
                }
            }
            r
        },
        None => false,
    }
}

/// The stem of a file name, as characters.
pub fn stem_chars(f: &Vec<char>) -> (r: Vec<char>)
    ensures
        r@ == stem_of(f@),
{
    match last_pos_of_x(f, '.') {
        Some(d) => {
            if d > 0 {
                subvec(f, 0, d)
            } else {
                subvec(f, 0, f.len())
            }
        },
        None => subvec(f, 0, f.len()),
    }
}

} // verus!

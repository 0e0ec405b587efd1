//! Index file names: the index of a file sits beside it, under the file's
//! name with the index's extension appended.

use vstd::prelude::*;
use vstd::string::StringExecFns;

verus! {

/// `path` with `.` and `ext` appended.
pub fn push_ext(path: &str, ext: &str) -> (r: String)
    ensures
        r@ == path@ + seq!['.'] + ext@,
{
    let mut s = String::from_str(path);
    s.append(".");
    proof {
        reveal_strlit(".");
    }
    s.append(ext);
    s
}

/// The name of the index of the CRAM file at `src`.
pub fn build_index_src(src: &str) -> (r: String)
    ensures
        r@ == src@ + seq!['.', 'c', 'r', 'a', 'i'],
{
    proof {
        reveal_strlit("crai");
    }
    let r = push_ext(src, "crai");
    proof {
        assert(src@ + seq!['.'] + "crai"@ =~= src@ + seq!['.', 'c', 'r', 'a', 'i']);
    }
    r
}

} // verus!

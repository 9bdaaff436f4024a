//! File paths as texts.

use vstd::prelude::*;

verus! {

/// The path of `name`, a relative path, below `dir`.
pub open spec fn path_join(dir: Seq<char>, name: Seq<char>) -> Seq<char> {
    if dir.len() == 0 || dir.last() == '/' {
        dir + name
    } else {
        dir + seq!['/'] + name
    }
}

/// The path of `name`, a relative path, below `dir`.
pub fn join(dir: &str, name: &str) -> (out: String)
    ensures
        out@ == path_join(dir@, name@),
{
    let mut out = dir.to_string();
    let n: usize = dir.unicode_len();
    if n > 0 && dir.get_char(n - 1) != '/' {
        out.push('/');
    }
    out.append(name);
    assert(out@ =~= path_join(dir@, name@));
    out
}

/// A path below a directory is the directory, one slash, and the name.
pub proof fn paths_lie_below_their_directory(dir: Seq<char>, name: Seq<char>)
    ensures
        dir.len() > 0 && dir.last() != '/' ==> path_join(dir, name) == dir + seq!['/'] + name,
        dir.len() > 0 && dir.last() == '/' ==> path_join(dir, name) == dir + name,
        dir.len() == 0 ==> path_join(dir, name) == name,
{
    if dir.len() == 0 {
        assert(dir + name =~= name);
    }
}

} // verus!

//! Paths, put together from the environment.

use vstd::prelude::*;

use crate::text::opt_str;

verus! {

/// The path of `child` in the directory `base`. An empty `base` is the current directory.
pub open spec fn joined(base: Seq<char>, child: Seq<char>) -> Seq<char> {
    if base.len() == 0 || base.last() == '/' {
        base + child
    } else {
        base + "/"@ + child
    }
}

/// The path of `child` in the directory `base`.
pub fn join(base: &str, child: &str) -> (path: String)
    ensures
        path@ == joined(base@, child@),
{
    let mut path = base.to_string();
    let n = base.unicode_len();
    if n > 0 && base.get_char(n - 1) != '/' {
        path.append("/");
    }
    path.append(child);
    path
}

/// A directory that a variable names: where it is set, and to something.
pub open spec fn named(dir: Option<Seq<char>>) -> Option<Seq<char>> {
    match dir {
        Some(d) => if d.len() > 0 {
            Some(d)
        } else {
            None
        },
        None => None,
    }
}

/// A directory that a variable names.
pub fn named_by<'a>(dir: Option<&'a str>) -> (r: Option<&'a str>)
    ensures
        opt_str(r) == named(opt_str(dir)),
{
    match dir {
        Some(d) => {
            if d.unicode_len() > 0 {
                Some(d)
            } else {
                None
            }
        },
        None => None,
    }
}

} // verus!

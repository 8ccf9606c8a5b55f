//! What the command line asks for, and whether it is in order.

use crate::text::bytes_of;
use vstd::prelude::*;

verus! {

/// The arguments of the command line: the path of the file to rewrite, and
/// whether to rewrite it whatever its name.
#[derive(Debug)]
pub struct Args {
    pub filepath: String,
    pub force: bool,
}

/// Whether `text` ends with `tail`.
pub open spec fn ends_with(text: Seq<u8>, tail: Seq<u8>) -> bool {
    text.len() >= tail.len() && text.subrange(text.len() - tail.len(), text.len() as int) == tail
}

/// The arguments are in order where the path ends with `keymap.c`, or where
/// they force the rewriting.
pub open spec fn accepted(filepath: Seq<char>, force: bool) -> bool {
    force || ends_with(bytes_of(filepath), bytes_of("keymap.c"@))
}

/// Whether the arguments are in order.
pub fn validate_args(args: &Args) -> (ok: bool)
    ensures
        ok == accepted(args.filepath@, args.force),
{
    if args.force {
        return true;
    }
    let path = args.filepath.as_str().as_bytes();
    let tail = "keymap.c".as_bytes();
    let n = path.len();
    let m = tail.len();
    if n < m {
        return false;
    }
    let ghost cut = path@.subrange(n - m, n as int);
    let mut i: usize = 0;
    while i < m
        invariant
            i <= m <= n,
            !args.force,
            path@ == bytes_of(args.filepath@),
            tail@ == bytes_of("keymap.c"@),
            n == path@.len(),
            m == tail@.len(),
            cut == path@.subrange(n - m, n as int),
            forall|k: int| 0 <= k < i ==> cut[k] == tail@[k],
        decreases m - i,
    {
        if path[n - m + i] != tail[i] {
            assert(cut[i as int] != tail@[i as int]);
            return false;
        }
        i = i + 1;
    }
    assert(cut =~= tail@);
    true
}

} // verus!

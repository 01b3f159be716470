//! An expression given in several pieces.

use vstd::prelude::*;
use vstd::string::StringExecFns;
use crate::text::push_char;

verus! {

/// The pieces in order, a space behind each one.
pub open spec fn spaced(pieces: Seq<String>) -> Seq<char>
    decreases pieces.len(),
{
    if pieces.len() == 0 {
        Seq::empty()
    } else {
        spaced(pieces.drop_last()) + pieces.last()@ + seq![' ']
    }
}

/// Makes one text of the pieces, with a space behind each piece.
pub fn flatten(args: Vec<String>) -> (res: String)
    ensures
        res@ == spaced(args@),
{
    let mut res = String::new();
    for i in 0..args.len()
        invariant
            res@ == spaced(args@.take(i as int)),
    {
        proof {
            assert(args@.take(i + 1).drop_last() == args@.take(i as int));
        }
        res.append(args[i].as_str());
        push_char(&mut res, ' ');
    }
    proof {
        assert(args@.take(args@.len() as int) == args@);
    }
    res
}

} // verus!

//! Balance of parentheses.

use vstd::prelude::*;
use crate::text::byte_length;

verus! {

/// The number of parentheses opened in `s` minus the number closed.
pub open spec fn depth(s: Seq<char>) -> int
    decreases s.len(),
{
    if s.len() == 0 {
        0
    } else if s.last() == '(' {
        depth(s.drop_last()) + 1
    } else if s.last() == ')' {
        depth(s.drop_last()) - 1
    } else {
        depth(s.drop_last())
    }
}

/// No beginning of `s` closes more parentheses than it has opened.
pub open spec fn never_overdrawn(s: Seq<char>) -> bool {
    forall|n: int| 0 <= n <= s.len() ==> depth(#[trigger] s.take(n)) >= 0
}

/// Every `)` of `s` has an unmatched `(` before it, and no `(` is left
/// unmatched at the end.
pub open spec fn balanced(s: Seq<char>) -> bool {
    never_overdrawn(s) && depth(s) == 0
}

/// Whether the parentheses of `expression` are balanced. Characters other
/// than parentheses do not count.
pub fn is_correctly_wrapped(expression: &String) -> (r: bool)
    ensures
        r == balanced(expression@),
{
    let ghost s = expression@;
    let bound = byte_length(expression.as_str());
    let mut counter: usize = 0;
    for symbol in it: expression.as_str().chars()
        invariant
            s == expression@,
            it.seq() == s,
            s.len() <= bound,
            counter == depth(s.take(it.index())),
            counter <= it.index(),
            forall|n: int| 0 <= n <= it.index() ==> depth(#[trigger] s.take(n)) >= 0,
    {
        proof {
            assert(s.take(it.index() + 1).drop_last() == s.take(it.index()));
        }
        if symbol == '(' {
            counter += 1;
        } else if symbol == ')' {
            if counter == 0 {
                assert(depth(s.take(it.index() + 1)) < 0);
                return false;
            }
            counter -= 1;
        }
    }
    proof {
        assert(s.take(s.len() as int) == s);
    }
    counter == 0
}

/// A text in which some `)` comes before the `(` that would match it is not
/// balanced.
pub proof fn lemma_early_close_unbalanced(s: Seq<char>, n: int)
    requires
        0 <= n <= s.len(),
        depth(s.take(n)) < 0,
    ensures
        !balanced(s),
{
}

/// The depth of two texts, one behind the other, is the sum of their depths.
pub proof fn lemma_depth_concat(first: Seq<char>, second: Seq<char>)
    ensures
        depth(first + second) == depth(first) + depth(second),
    decreases second.len(),
{
    if second.len() == 0 {
        assert(first + second == first);
    } else {
        lemma_depth_concat(first, second.drop_last());
        assert((first + second).drop_last() == first + second.drop_last());
    }
}

/// Two balanced texts, one behind the other, are a balanced text.
pub proof fn lemma_balanced_concat(first: Seq<char>, second: Seq<char>)
    requires
        balanced(first),
        balanced(second),
    ensures
        balanced(first + second),
{
    let whole = first + second;
    lemma_depth_concat(first, second);
    assert forall|n: int| 0 <= n <= whole.len() implies depth(#[trigger] whole.take(n)) >= 0 by {
        if n <= first.len() {
            assert(whole.take(n) == first.take(n));
        } else {
            let k = n - first.len();
            assert(whole.take(n) == first + second.take(k));
            lemma_depth_concat(first, second.take(k));
        }
    }
}

/// A text without parentheses is balanced.
pub proof fn lemma_balanced_without_parentheses(s: Seq<char>)
    requires
        forall|i: int| 0 <= i < s.len() ==> #[trigger] s[i] != '(' && s[i] != ')',
    ensures
        balanced(s),
    decreases s.len(),
{
    if s.len() > 0 {
        lemma_balanced_without_parentheses(s.drop_last());
        assert forall|n: int| 0 <= n <= s.len() implies depth(#[trigger] s.take(n)) >= 0 by {
            if n < s.len() {
                assert(s.take(n) == s.drop_last().take(n));
            } else {
                assert(s.take(n) == s);
            }
        }
    } else {
        assert forall|n: int| 0 <= n <= s.len() implies depth(#[trigger] s.take(n)) >= 0 by {
            assert(s.take(n) == s);
        }
    }
}

/// A balanced text in parentheses is a balanced text.
pub proof fn lemma_balanced_in_parentheses(s: Seq<char>)
    requires
        balanced(s),
    ensures
        balanced(seq!['('] + s + seq![')']),
{
    let open = seq!['('];
    let whole = open + s + seq![')'];
    assert(open.drop_last() == Seq::<char>::empty());
    assert(open.last() == '(');
    assert(depth(Seq::<char>::empty()) == 0);
    assert(depth(open) == 1);
    lemma_depth_concat(open, s);
    assert(whole.drop_last() == open + s);
    assert forall|n: int| 0 <= n <= whole.len() implies depth(#[trigger] whole.take(n)) >= 0 by {
        if n == 0 {
            assert(whole.take(n) == Seq::<char>::empty());
        } else if n <= s.len() + 1 {
            assert(whole.take(n) == open + s.take(n - 1));
            lemma_depth_concat(open, s.take(n - 1));
        } else {
            assert(whole.take(n) == whole);
        }
    }
}

} // verus!

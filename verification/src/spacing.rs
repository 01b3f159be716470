//! Whitespace in expressions: it may stand anywhere and changes nothing.

use vstd::prelude::*;
use crate::balance::{balanced, depth};
use crate::evaluate::vacant;
use crate::infix::{all_recognized, postfix_tokens, recognized, Conversion};
use crate::symbol::blank;

verus! {

/// The text `s` with its whitespace taken out.
pub open spec fn without_blanks(s: Seq<char>) -> Seq<char>
    decreases s.len(),
{
    if s.len() == 0 {
        s
    } else if blank(s.last()) {
        without_blanks(s.drop_last())
    } else {
        without_blanks(s.drop_last()).push(s.last())
    }
}

/// The characters of a text without its whitespace are characters of the
/// text, and none of them is whitespace.
pub proof fn lemma_without_blanks_chars(s: Seq<char>)
    ensures
        forall|i: int|
            0 <= i < without_blanks(s).len() ==> !blank(#[trigger] without_blanks(s)[i])
                && s.contains(without_blanks(s)[i]),
        forall|i: int| 0 <= i < s.len() ==> blank(#[trigger] s[i]) || without_blanks(s).contains(s[i]),
    decreases s.len(),
{
    if s.len() > 0 {
        let before = s.drop_last();
        let stripped = without_blanks(s);
        lemma_without_blanks_chars(before);
        assert forall|i: int| 0 <= i < stripped.len() implies !blank(#[trigger] stripped[i])
            && s.contains(stripped[i]) by {
            if i < without_blanks(before).len() {
                let c = without_blanks(before)[i];
                assert(before.contains(c));
                let k = choose|k: int| 0 <= k < before.len() && before[k] == c;
                assert(s[k] == c);
            } else {
                assert(stripped[i] == s[s.len() - 1]);
            }
        }
        assert forall|i: int| 0 <= i < s.len() implies blank(#[trigger] s[i])
            || stripped.contains(s[i]) by {
            if i < before.len() {
                assert(s[i] == before[i]);
                if !blank(s[i]) {
                    let k = choose|k: int|
                        0 <= k < without_blanks(before).len() && without_blanks(before)[k]
                            == s[i];
                    assert(stripped[k] == s[i]);
                }
            } else if !blank(s[i]) {
                assert(stripped[stripped.len() - 1] == s[i]);
            }
        }
    }
}

/// A text without its whitespace has the depth of the text.
pub proof fn lemma_without_blanks_depth(s: Seq<char>)
    ensures
        depth(without_blanks(s)) == depth(s),
    decreases s.len(),
{
    if s.len() > 0 {
        lemma_without_blanks_depth(s.drop_last());
        if !blank(s.last()) {
            assert(without_blanks(s).drop_last() == without_blanks(s.drop_last()));
        }
    }
}

/// A beginning of a text, without its whitespace, is a beginning of the
/// text without its whitespace.
pub proof fn lemma_without_blanks_take(s: Seq<char>, n: int)
    requires
        0 <= n <= s.len(),
    ensures
        without_blanks(s.take(n)).len() <= without_blanks(s).len(),
        without_blanks(s).take(without_blanks(s.take(n)).len() as int) == without_blanks(
            s.take(n),
        ),
    decreases s.len(),
{
    if n == s.len() {
        assert(s.take(n) == s);
    } else {
        assert(s.drop_last().take(n) == s.take(n));
        lemma_without_blanks_take(s.drop_last(), n);
    }
}

/// A text is balanced if it is so without its whitespace.
pub proof fn lemma_without_blanks_balanced(s: Seq<char>)
    requires
        balanced(without_blanks(s)),
    ensures
        balanced(s),
{
    lemma_without_blanks_depth(s);
    assert forall|n: int| 0 <= n <= s.len() implies depth(#[trigger] s.take(n)) >= 0 by {
        lemma_without_blanks_take(s, n);
        lemma_without_blanks_depth(s.take(n));
    }
}

/// A text holds only what may stand in an expression if it does so without
/// its whitespace, and it holds more than parentheses and whitespace if it
/// does so without its whitespace.
pub proof fn lemma_without_blanks_symbols(s: Seq<char>)
    ensures
        all_recognized(without_blanks(s)) ==> all_recognized(s),
        !vacant(without_blanks(s)) ==> !vacant(s),
{
    lemma_without_blanks_chars(s);
    let stripped = without_blanks(s);
    if all_recognized(stripped) {
        assert forall|i: int| 0 <= i < s.len() implies recognized(#[trigger] s[i]) by {
            if !blank(s[i]) {
                let k = choose|k: int| 0 <= k < stripped.len() && stripped[k] == s[i];
                assert(recognized(stripped[k]));
            }
        }
    }
    if vacant(s) {
        assert forall|i: int| 0 <= i < stripped.len() implies blank(#[trigger] stripped[i])
            || crate::symbol::parenthesis(stripped[i]) by {
            let k = choose|k: int| 0 <= k < s.len() && s[k] == stripped[i];
            assert(blank(s[k]) || crate::symbol::parenthesis(s[k]));
        }
    }
}

impl Conversion {
    /// Reading a text leads where reading it without its whitespace leads.
    pub proof fn lemma_run_without_blanks(self, s: Seq<char>)
        ensures
            self.run(s) == self.run(without_blanks(s)),
        decreases s.len(),
    {
        if s.len() > 0 {
            self.lemma_run_without_blanks(s.drop_last());
            if !blank(s.last()) {
                assert(without_blanks(s).drop_last() == without_blanks(s.drop_last()));
            }
        }
    }
}

/// Whitespace changes nothing: an expression has the postfix sequence that
/// it has without its whitespace.
pub proof fn lemma_whitespace_changes_nothing(s: Seq<char>)
    ensures
        postfix_tokens(s) == postfix_tokens(without_blanks(s)),
{
    Conversion::start().lemma_run_without_blanks(s);
}

} // verus!

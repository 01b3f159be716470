//! Postfix sequences: their text and their tokens.

use vstd::prelude::*;
use crate::error::EvaluationError;
use crate::expr::{outcome, reduce, shift, Expr, Reduction};
use crate::text::push_char;
use crate::token::{lemma_read_text, space_free, SpecToken, Token};

verus! {

/// A postfix sequence as text: its tokens in order, one space between each
/// two of them.
#[derive(Debug, PartialEq, Eq)]
pub struct Postfix {
    pub content: String,
}

impl View for Postfix {
    type V = Seq<char>;

    open spec fn view(&self) -> Seq<char> {
        self.content@
    }
}

/// The words one behind the other, one space between each two of them.
pub open spec fn joined(words: Seq<Seq<char>>) -> Seq<char>
    decreases words.len(),
{
    if words.len() == 0 {
        Seq::empty()
    } else if words.len() == 1 {
        words[0]
    } else {
        joined(words.drop_last()) + seq![' '] + words.last()
    }
}

/// The texts of `tokens`, in order.
pub open spec fn texts(tokens: Seq<SpecToken>) -> Seq<Seq<char>> {
    Seq::new(tokens.len(), |i: int| tokens[i].text())
}

/// The text of a sequence of tokens: the texts of the tokens, one space
/// between each two of them.
pub open spec fn render(tokens: Seq<SpecToken>) -> Seq<char> {
    joined(texts(tokens))
}

/// The parts that the spaces of `text` separate, empty ones included: a text
/// with n spaces has n + 1 parts. They are the texts without a space that,
/// joined, give `text`.
pub open spec fn parts(text: Seq<char>) -> Seq<Seq<char>>
    decreases text.len(),
{
    if text.len() == 0 {
        seq![Seq::empty()]
    } else {
        let before = parts(text.drop_last());
        if text.last() == ' ' {
            before.push(Seq::empty())
        } else {
            before.drop_last().push(before.last().push(text.last()))
        }
    }
}

/// `parts` without its first part, where that part is empty.
pub open spec fn without_empty_head(parts: Seq<Seq<char>>) -> Seq<Seq<char>> {
    if parts.len() > 0 && parts[0].len() == 0 {
        parts.drop_first()
    } else {
        parts
    }
}

/// The parts of `text` that stand for tokens: all of them, but for the first
/// where the text is empty or begins with a space.
pub open spec fn words(text: Seq<char>) -> Seq<Seq<char>> {
    without_empty_head(parts(text))
}

/// Every one of `words` stands for a token.
pub open spec fn readable(words: Seq<Seq<char>>) -> bool {
    forall|i: int| 0 <= i < words.len() ==> SpecToken::read(#[trigger] words[i]) is Some
}

/// The tokens that `words` stand for.
pub open spec fn readings(words: Seq<Seq<char>>) -> Seq<SpecToken> {
    Seq::new(words.len(), |i: int| SpecToken::read(words[i]).unwrap())
}

/// `at` is the place of the first of `words` that stands for no token.
pub open spec fn first_unread(words: Seq<Seq<char>>, at: int) -> bool {
    &&& 0 <= at < words.len()
    &&& SpecToken::read(words[at]) is None
    &&& forall|i: int| 0 <= i < at ==> SpecToken::read(#[trigger] words[i]) is Some
}

/// Every one of `tokens` is well formed.
pub open spec fn well_formed(tokens: Seq<SpecToken>) -> bool {
    forall|i: int| 0 <= i < tokens.len() ==> (#[trigger] tokens[i]).well_formed()
}

/// None of `words` holds a space.
pub open spec fn all_space_free(words: Seq<Seq<char>>) -> bool {
    forall|i: int| 0 <= i < words.len() ==> space_free(#[trigger] words[i])
}

/// Adding a token to a sequence adds its text to the text of the sequence,
/// after a space where the sequence was not empty.
pub proof fn lemma_render_push(tokens: Seq<SpecToken>, token: SpecToken)
    ensures
        render(tokens.push(token)) == if tokens.len() == 0 {
            token.text()
        } else {
            render(tokens) + seq![' '] + token.text()
        },
{
    assert(texts(tokens.push(token)).drop_last() == texts(tokens));
}

/// The parts of a text hold no space and, joined, give the text.
pub proof fn lemma_joined_parts(text: Seq<char>)
    ensures
        parts(text).len() >= 1,
        all_space_free(parts(text)),
        joined(parts(text)) == text,
    decreases text.len(),
{
    if text.len() > 0 {
        let before = parts(text.drop_last());
        let all = parts(text);
        lemma_joined_parts(text.drop_last());
        assert(text.drop_last().push(text.last()) == text);
        if text.last() == ' ' {
            assert(all.drop_last() == before);
            assert(joined(all) == joined(before) + seq![' '] + Seq::<char>::empty());
        } else if before.len() == 1 {
            assert(joined(all) == before[0].push(text.last()));
        } else {
            assert(all.drop_last() == before.drop_last());
            assert(joined(all) == (joined(before.drop_last()) + seq![' '] + before.last()).push(
                text.last(),
            ));
        }
    }
}

/// A space and a text without a space, put behind a text, add one part to
/// its parts.
pub proof fn lemma_parts_append_word(text: Seq<char>, word: Seq<char>)
    requires
        space_free(word),
    ensures
        parts(text + seq![' '] + word) == parts(text).push(word),
    decreases word.len(),
{
    let whole = text + seq![' '] + word;
    if word.len() == 0 {
        assert(whole.drop_last() == text);
        assert(whole.last() == ' ');
        assert(word == Seq::<char>::empty());
    } else {
        lemma_parts_append_word(text, word.drop_last());
        let before = parts(whole.drop_last());
        assert(whole.drop_last() == text + seq![' '] + word.drop_last());
        assert(whole.last() == word.last());
        assert(word.last() != ' ');
        assert(before.last().push(word.last()) == word);
        assert(before.drop_last() == parts(text));
    }
}

/// Texts without a space, joined, have themselves as their parts. With
/// `lemma_joined_parts` this makes `parts` and `joined` each the inverse of
/// the other, between the texts and the sequences of one or more texts
/// without a space.
pub proof fn lemma_parts_of_joined(words: Seq<Seq<char>>)
    requires
        words.len() >= 1,
        all_space_free(words),
    ensures
        parts(joined(words)) == words,
    decreases words.len(),
{
    let last = words.last();
    if words.len() == 1 {
        lemma_parts_of_word(last);
    } else {
        lemma_parts_of_joined(words.drop_last());
        lemma_parts_append_word(joined(words.drop_last()), last);
        assert(words.drop_last().push(last) == words);
    }
}

/// A text without a space is its own single part.
proof fn lemma_parts_of_word(word: Seq<char>)
    requires
        space_free(word),
    ensures
        parts(word) == seq![word],
    decreases word.len(),
{
    if word.len() == 0 {
        assert(word == Seq::<char>::empty());
    } else {
        lemma_parts_of_word(word.drop_last());
        let before = parts(word.drop_last());
        assert(word.last() != ' ');
        assert(before.last().push(word.last()) == word);
        assert(before.drop_last().push(word) == seq![word]);
    }
}

/// The parts of a beginning of a text, but for the last of them, are the
/// first parts of the whole text.
pub proof fn lemma_parts_persist(text: Seq<char>, n: int)
    requires
        0 <= n <= text.len(),
    ensures
        1 <= parts(text.take(n)).len() <= parts(text).len(),
        forall|k: int|
            0 <= k < parts(text.take(n)).len() - 1 ==> #[trigger] parts(text)[k] == parts(
                text.take(n),
            )[k],
    decreases text.len(),
{
    lemma_joined_parts(text.take(n));
    if n == text.len() {
        assert(text.take(n) == text);
    } else {
        assert(text.drop_last().take(n) == text.take(n));
        lemma_parts_persist(text.drop_last(), n);
    }
}

/// The words among the complete parts of a beginning of a text are the
/// first words of the whole text.
pub proof fn lemma_words_persist(text: Seq<char>, n: int)
    requires
        0 <= n <= text.len(),
    ensures
        ({
            let kept = without_empty_head(parts(text.take(n)).drop_last());
            &&& kept.len() <= words(text).len()
            &&& forall|k: int| 0 <= k < kept.len() ==> #[trigger] words(text)[k] == kept[k]
        }),
{
    lemma_parts_persist(text, n);
    let done = parts(text.take(n)).drop_last();
    if done.len() > 0 {
        assert(parts(text)[0] == done[0]);
    }
}

/// The words of the text of well-formed tokens are the texts of the tokens,
/// and read back as the tokens.
pub proof fn lemma_render_reads_back(tokens: Seq<SpecToken>)
    requires
        well_formed(tokens),
    ensures
        words(render(tokens)) == texts(tokens),
        readable(words(render(tokens))),
        readings(words(render(tokens))) == tokens,
{
    assert forall|i: int| 0 <= i < tokens.len() implies space_free(#[trigger] texts(tokens)[i])
        && texts(tokens)[i].len() > 0 && SpecToken::read(texts(tokens)[i]) == Some(tokens[i]) by {
        lemma_read_text(tokens[i]);
    }
    if tokens.len() == 0 {
        assert(words(render(tokens)) == texts(tokens));
    } else {
        lemma_parts_of_joined(texts(tokens));
        assert(texts(tokens)[0].len() > 0);
    }
    assert(readings(texts(tokens)) == tokens);
}

/// Lets one part of a sequence work on the stack.
fn feed(reduction: &mut Reduction, part: String) -> (r: Result<(), EvaluationError>)
    requires
        old(reduction).well_formed(),
    ensures
        final(reduction).well_formed(),
        match r {
            Ok(_) => {
                &&& SpecToken::read(part@) matches Some(token)
                &&& final(reduction).trees() == shift(old(reduction).trees(), token)
            },
            Err(error) => {
                &&& SpecToken::read(part@) is None
                &&& error matches EvaluationError::UnknownToken(unknown)
                &&& unknown@ == part@
            },
        },
{
    match Token::parse(part) {
        Ok(token) => {
            reduction.apply(token);
            Ok(())
        },
        Err(error) => Err(error),
    }
}

impl Postfix {
    /// Reduces the sequence to one expression tree, or names its first part
    /// that is neither a number nor an operator.
    ///
    /// The tokens work on a stack from left to right. What is on top of the
    /// stack at the end is the value; with nothing on the stack it is 0.
    pub fn value(&self) -> (r: Result<Expr, EvaluationError>)
        ensures
            match r {
                Ok(tree) => {
                    &&& readable(words(self@))
                    &&& tree.well_formed()
                    &&& tree@ == outcome(readings(words(self@)))
                },
                Err(error) => {
                    &&& error matches EvaluationError::UnknownToken(part)
                    &&& exists|at: int|
                        first_unread(words(self@), at) && part@ == words(self@)[at]
                },
            },
    {
        let ghost text = self@;
        let mut reduction = Reduction::new();
        let mut part = String::new();
        let mut first = true;
        proof {
            assert(text.take(0) == Seq::<char>::empty());
            assert(readings(Seq::<Seq<char>>::empty()) == Seq::<SpecToken>::empty());
        }
        for c in it: self.content.as_str().chars()
            invariant
                text == self@,
                it.seq() == text,
                ({
                    let all = parts(text.take(it.index()));
                    let kept = without_empty_head(all.drop_last());
                    &&& all.len() >= 1
                    &&& part@ == all.last()
                    &&& first == (all.len() == 1)
                    &&& readable(kept)
                    &&& reduction.well_formed()
                    &&& reduction.trees() == reduce(readings(kept))
                }),
        {
            let ghost all = parts(text.take(it.index()));
            let ghost kept = without_empty_head(all.drop_last());
            proof {
                assert(text.take(it.index() + 1).drop_last() == text.take(it.index()));
            }
            if c == ' ' {
                let ghost word = part@;
                proof {
                    assert(all.push(Seq::<char>::empty()).drop_last() == all);
                    lemma_words_persist(text, it.index() + 1);
                }
                if first && part.as_str().is_empty() {
                    proof {
                        assert(without_empty_head(all) == Seq::<Seq<char>>::empty());
                    }
                } else {
                    proof {
                        assert(without_empty_head(all) == kept.push(word));
                    }
                    match feed(&mut reduction, part) {
                        Ok(_) => {
                            proof {
                                assert(readings(kept.push(word)).drop_last() == readings(kept));
                            }
                        },
                        Err(error) => {
                            proof {
                                assert(first_unread(words(text), kept.len() as int));
                            }
                            return Err(error);
                        },
                    }
                }
                part = String::new();
                first = false;
            } else {
                push_char(&mut part, c);
                proof {
                    assert(all.drop_last().push(all.last().push(c)).drop_last() == all.drop_last());
                }
            }
        }
        let ghost all = parts(text);
        let ghost kept = without_empty_head(all.drop_last());
        let ghost word = part@;
        proof {
            assert(text.take(text.len() as int) == text);
            assert(all.drop_last().push(word) == all);
        }
        if first && part.as_str().is_empty() {
            proof {
                assert(words(text) == Seq::<Seq<char>>::empty());
            }
        } else {
            proof {
                assert(words(text) == kept.push(word));
            }
            match feed(&mut reduction, part) {
                Ok(_) => {
                    proof {
                        assert(readings(kept.push(word)).drop_last() == readings(kept));
                    }
                },
                Err(error) => {
                    proof {
                        assert(first_unread(words(text), kept.len() as int));
                    }
                    return Err(error);
                },
            }
        }
        Ok(reduction.finish())
    }
}

} // verus!

//! The words with a prefix are the prefix itself and the words with the
//! prefix and one letter more.

use crate::pack::Rule;
use crate::word::{clone_letters, clone_strings, one_rule_if, AvoidingWithPrefix, WordStrategy, WordView};
use vstd::prelude::*;

verus! {

/// Whether `children` are the classes that `word` expands to: the prefix
/// alone, and for each letter of the alphabet the words that begin with the
/// prefix and that letter.
pub open spec fn expands(word: WordView, children: Seq<AvoidingWithPrefix>) -> bool {
    &&& children.len() == word.alphabet.len() + 1
    &&& children[0]@ == (WordView { just_prefix: true, ..word })
    &&& forall|i: int|
        0 <= i < word.alphabet.len() ==> (#[trigger] children[i + 1])@ == (WordView {
            prefix: word.prefix.push(word.alphabet[i]),
            just_prefix: false,
            ..word
        })
}

/// `String::push`: appends `letter` to `text`.
#[verifier::external_body]
fn push_letter(text: &mut String, letter: char)
    ensures
        final(text)@ == old(text)@.push(letter),
{
    text.push(letter);
}

/// Every class that is more than its prefix can be expanded.
pub fn apply(word: &AvoidingWithPrefix) -> (res: Vec<Rule<WordStrategy>>)
    ensures
        one_rule_if(!word@.just_prefix, WordStrategy::Expansion, *word, res@),
{
    let mut res: Vec<Rule<WordStrategy>> = Vec::new();
    if !word.is_just_prefix() {
        res.push(Rule::new(word.clone(), WordStrategy::Expansion))
    }
    res
}

/// The prefix alone, and for each letter the words with the prefix and it.
pub fn decompose(word: &AvoidingWithPrefix) -> (children: Vec<AvoidingWithPrefix>)
    ensures
        expands(word@, children@),
{
    let mut children: Vec<AvoidingWithPrefix> = Vec::new();
    children.push(
        AvoidingWithPrefix::new_just_prefix(
            word.get_prefix().clone(),
            clone_strings(word.get_patterns()),
            clone_letters(word.get_alphabet()),
        ),
    );
    let alphabet = word.get_alphabet();
    let mut i: usize = 0;
    while i < alphabet.len()
        invariant
            i <= alphabet.len(),
            alphabet@ == word@.alphabet,
            children@.len() == i + 1,
            children@[0]@ == (WordView { just_prefix: true, ..word@ }),
            forall|j: int|
                0 <= j < i ==> (#[trigger] children@[j + 1])@ == (WordView {
                    prefix: word@.prefix.push(word@.alphabet[j]),
                    just_prefix: false,
                    ..word@
                }),
        decreases alphabet.len() - i,
    {
        let mut new_prefix = word.get_prefix().clone();
        push_letter(&mut new_prefix, alphabet[i]);
        let ghost before = children@;
        children.push(
            AvoidingWithPrefix::new(
                new_prefix,
                clone_strings(word.get_patterns()),
                clone_letters(word.get_alphabet()),
            ),
        );
        proof {
            assert forall|j: int| 0 <= j < i + 1 implies (#[trigger] children@[j + 1])@ == (WordView {
                prefix: word@.prefix.push(word@.alphabet[j]),
                just_prefix: false,
                ..word@
            }) by {
                if j < i {
                    assert(children@[j + 1] == before[j + 1]);
                }
            }
        }
        i += 1;
    }
    children
}

} // verus!

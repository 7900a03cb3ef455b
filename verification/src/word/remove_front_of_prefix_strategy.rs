//! The front of a prefix that no pattern can reach into any more can be
//! split off.

use crate::pack::Rule;
use crate::word::{clone_letters, clone_strings, one_rule_if, texts, AvoidingWithPrefix, WordStrategy, WordView};
use vstd::prelude::*;

verus! {

/// Whether `pattern` begins with `text`.
pub open spec fn begins(pattern: Seq<char>, text: Seq<char>) -> bool {
    text.len() <= pattern.len() && pattern.take(text.len() as int) == text
}

/// Whether a pattern begins with what stands in `prefix` from `i` on: a
/// pattern could still come up that starts there.
pub open spec fn open_at(prefix: Seq<char>, patterns: Seq<Seq<char>>, i: int) -> bool {
    exists|p: int| 0 <= p < patterns.len() && begins(#[trigger] patterns[p], prefix.skip(i))
}

/// The length of the longest pattern; one where there is no pattern.
pub open spec fn longest(patterns: Seq<Seq<char>>) -> nat
    decreases patterns.len(),
{
    if patterns.len() == 0 {
        1
    } else if patterns.len() == 1 {
        patterns[0].len()
    } else {
        let front = longest(patterns.drop_last());
        if patterns.last().len() > front {
            patterns.last().len()
        } else {
            front
        }
    }
}

/// The first place of `prefix`, from `i` on, where a pattern could start
/// that has not ended; the length of `prefix` where there is none.
pub open spec fn first_open(prefix: Seq<char>, patterns: Seq<Seq<char>>, i: int) -> int
    decreases prefix.len() - i,
{
    if i >= prefix.len() {
        prefix.len() as int
    } else if open_at(prefix, patterns, i) {
        i
    } else {
        first_open(prefix, patterns, i + 1)
    }
}

/// How much of the front of `prefix` no pattern can reach into any more:
/// what comes before the first place where a pattern could start that has
/// not ended, places more than the longest pattern away from the end not
/// counting.
pub open spec fn removable(prefix: Seq<char>, patterns: Seq<Seq<char>>) -> int {
    let m = longest(patterns);
    let start = if prefix.len() > m {
        prefix.len() - m
    } else {
        0
    };
    first_open(prefix, patterns, start)
}

/// Whether `children` are what `word` splits into: the removable front of
/// the prefix alone, and the words that begin with the rest.
pub open spec fn splits(word: WordView, children: Seq<AvoidingWithPrefix>) -> bool {
    let safe = removable(word.prefix, word.patterns);
    &&& children.len() == 2
    &&& children[0]@ == (WordView {
        prefix: word.prefix.take(safe),
        just_prefix: true,
        ..word
    })
    &&& children[1]@ == (WordView {
        prefix: word.prefix.skip(safe),
        just_prefix: false,
        ..word
    })
}

/// A class whose prefix has a removable front splits.
pub fn apply(comb_class: &AvoidingWithPrefix) -> (res: Vec<Rule<WordStrategy>>)
    ensures
        one_rule_if(
            !comb_class@.just_prefix && removable(comb_class@.prefix, comb_class@.patterns) > 0,
            WordStrategy::RemoveFrontOfPrefix,
            *comb_class,
            res@,
        ),
{
    let mut res: Vec<Rule<WordStrategy>> = Vec::new();
    if !comb_class.is_just_prefix() {
        let safe = removable_prefix_length(comb_class);
        if safe > 0 {
            res.push(Rule::new(comb_class.clone(), WordStrategy::RemoveFrontOfPrefix));
        }
    }
    res
}

/// Whether `pattern` begins with what stands in `prefix` from `from` on.
fn begins_with_rest(pattern: &String, prefix: &String, from: usize, len: usize) -> (b: bool)
    requires
        len == prefix@.len(),
        from <= len,
    ensures
        b == begins(pattern@, prefix@.skip(from as int)),
{
    let rest = len - from;
    let size = pattern.as_str().unicode_len();
    if rest > size {
        return false;
    }
    let mut k: usize = 0;
    while k < rest
        invariant
            k <= rest,
            rest == len - from,
            len == prefix@.len(),
            rest <= size,
            size == pattern@.len(),
            forall|n: int| 0 <= n < k ==> pattern@[n] == prefix@[from + n],
        decreases rest - k,
    {
        if pattern.as_str().get_char(k) != prefix.as_str().get_char(from + k) {
            proof {
                let text = prefix@.skip(from as int);
                assert(pattern@.take(text.len() as int)[k as int] != text[k as int]);
            }
            return false;
        }
        k += 1;
    }
    assert(pattern@.take(rest as int) =~= prefix@.skip(from as int));
    true
}

/// Whether one of `patterns` begins with what stands in `prefix` from
/// `from` on.
fn open_from(patterns: &Vec<String>, prefix: &String, from: usize, len: usize) -> (found: bool)
    requires
        len == prefix@.len(),
        from <= len,
    ensures
        found == open_at(prefix@, texts(patterns@), from as int),
{
    let mut p: usize = 0;
    while p < patterns.len()
        invariant
            p <= patterns.len(),
            len == prefix@.len(),
            from <= len,
            forall|n: int|
                0 <= n < p ==> !begins(#[trigger] texts(patterns@)[n], prefix@.skip(from as int)),
        decreases patterns.len() - p,
    {
        if begins_with_rest(&patterns[p], prefix, from, len) {
            proof {
                assert(begins(texts(patterns@)[p as int], prefix@.skip(from as int)));
            }
            return true;
        }
        p += 1;
    }
    false
}

/// How many letters at the front of the prefix can be split off.
pub fn removable_prefix_length(word: &AvoidingWithPrefix) -> (safe: usize)
    ensures
        safe == removable(word@.prefix, word@.patterns),
        safe <= word@.prefix.len(),
{
    let patterns = word.get_patterns();
    let prefix = word.get_prefix();
    let len = prefix.as_str().unicode_len();
    let mut m: usize = 1;
    let mut p: usize = 0;
    while p < patterns.len()
        invariant
            p <= patterns.len(),
            m == longest(texts(patterns@).take(p as int)),
        decreases patterns.len() - p,
    {
        let size = patterns[p].as_str().unicode_len();
        proof {
            let seen = texts(patterns@).take(p as int);
            let more = texts(patterns@).take(p + 1);
            assert(more.drop_last() =~= seen);
            assert(more.last() == patterns@[p as int]@);
            if p == 0 {
                assert(more[0] == more.last());
            }
        }
        if p == 0 || size > m {
            m = size;
        }
        p += 1;
    }
    assert(texts(patterns@).take(p as int) =~= texts(patterns@));
    let start = if len > m {
        len - m
    } else {
        0
    };
    let mut safe = start;
    let mut i = start;
    while i < len
        invariant
            start <= i <= len,
            len == prefix@.len(),
            safe == i,
            prefix@ == word@.prefix,
            texts(patterns@) == word@.patterns,
            removable(word@.prefix, word@.patterns) == first_open(
                prefix@,
                texts(patterns@),
                start as int,
            ),
            first_open(prefix@, texts(patterns@), start as int) == first_open(
                prefix@,
                texts(patterns@),
                i as int,
            ),
        decreases len - i,
    {
        let found = open_from(patterns, prefix, i, len);
        if found {
            return safe;
        }
        i += 1;
        safe = i;
    }
    safe
}

/// The removable front of the prefix alone, and the words with the rest.
pub fn decompose(word: &AvoidingWithPrefix) -> (children: Vec<AvoidingWithPrefix>)
    ensures
        splits(word@, children@),
{
    let safe = removable_prefix_length(word);
    let prefix = word.get_prefix();
    let len = prefix.as_str().unicode_len();
    let start_prefix = prefix.as_str().substring_char(0, safe);
    let end_prefix = prefix.as_str().substring_char(safe, len);
    let start = AvoidingWithPrefix::new_just_prefix(
        String::from_str(start_prefix),
        clone_strings(word.get_patterns()),
        clone_letters(word.get_alphabet()),
    );
    let end = AvoidingWithPrefix::new(
        String::from_str(end_prefix),
        clone_strings(word.get_patterns()),
        clone_letters(word.get_alphabet()),
    );
    let mut children: Vec<AvoidingWithPrefix> = Vec::new();
    children.push(start);
    children.push(end);
    proof {
        assert(prefix@.subrange(0, safe as int) =~= prefix@.take(safe as int));
        assert(prefix@.subrange(safe as int, len as int) =~= prefix@.skip(safe as int));
    }
    children
}

} // verus!

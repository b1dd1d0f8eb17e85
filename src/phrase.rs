//! Phrases: dictionary words joined by single spaces, with their letter
//! and word counts.
use vstd::prelude::*;

verus! {

/// Number of characters of `s` that are not spaces.
pub open spec fn letter_total(s: Seq<char>) -> nat
    decreases s.len(),
{
    if s.len() == 0 {
        0
    } else {
        letter_total(s.drop_last()) + if s.last() == ' ' {
            0nat
        } else {
            1nat
        }
    }
}

/// Number of spaces in `s`.
pub open spec fn space_total(s: Seq<char>) -> nat
    decreases s.len(),
{
    if s.len() == 0 {
        0
    } else {
        space_total(s.drop_last()) + if s.last() == ' ' {
            1nat
        } else {
            0nat
        }
    }
}

/// Number of words of a phrase: one more than its spaces.
pub open spec fn word_total(s: Seq<char>) -> nat {
    space_total(s) + 1
}

/// The phrase `phrase` followed by a space and `word`.
pub open spec fn extended(phrase: Seq<char>, word: Seq<char>) -> Seq<char> {
    phrase + seq![' '] + word
}

/// Each character is either a letter or a space.
pub proof fn lemma_letters_and_spaces(s: Seq<char>)
    ensures
        letter_total(s) + space_total(s) == s.len(),
    decreases s.len(),
{
    if s.len() > 0 {
        lemma_letters_and_spaces(s.drop_last());
    }
}

/// A text without spaces has one word, and as many letters as characters.
pub proof fn lemma_spaceless(s: Seq<char>)
    requires
        forall|j: int| 0 <= j < s.len() ==> s[j] != ' ',
    ensures
        space_total(s) == 0,
        letter_total(s) == s.len(),
    decreases s.len(),
{
    if s.len() > 0 {
        lemma_spaceless(s.drop_last());
    }
}

/// Letters and spaces of a concatenation add up.
pub proof fn lemma_totals_concat(a: Seq<char>, b: Seq<char>)
    ensures
        letter_total(a + b) == letter_total(a) + letter_total(b),
        space_total(a + b) == space_total(a) + space_total(b),
    decreases b.len(),
{
    if b.len() == 0 {
        assert(a + b =~= a);
    } else {
        assert((a + b).drop_last() =~= a + b.drop_last());
        lemma_totals_concat(a, b.drop_last());
    }
}

/// Extending a phrase adds the word's letters, and one word plus the
/// word's own spaces.
pub proof fn lemma_extended_totals(phrase: Seq<char>, word: Seq<char>)
    ensures
        letter_total(extended(phrase, word)) == letter_total(phrase) + letter_total(word),
        space_total(extended(phrase, word)) == space_total(phrase) + 1 + space_total(word),
        word_total(extended(phrase, word)) == word_total(phrase) + word_total(word),
        extended(phrase, word).len() == phrase.len() + 1 + word.len(),
{
    let sep = seq![' '];
    lemma_totals_concat(phrase, sep);
    lemma_totals_concat(phrase + sep, word);
    assert(sep.len() == 1 && sep.last() == ' ');
    assert(sep.drop_last() =~= Seq::<char>::empty());
    assert(letter_total(Seq::<char>::empty()) == 0);
    assert(space_total(Seq::<char>::empty()) == 0);
    assert(letter_total(sep) == 0);
    assert(space_total(sep) == 1);
}

/// Number of characters of `string` that are not spaces.
pub fn count_characters(string: &String) -> (r: usize)
    ensures
        r == letter_total(string@),
{
    let text = string.as_str();
    let n = text.unicode_len();
    let mut count: usize = 0;
    let mut i: usize = 0;
    while i < n
        invariant
            n == string@.len(),
            text@ == string@,
            i <= n,
            count <= i,
            count == letter_total(string@.subrange(0, i as int)),
        decreases n - i,
    {
        let c = text.get_char(i);
        assert(string@.subrange(0, i + 1).drop_last() =~= string@.subrange(0, i as int));
        if c != ' ' {
            count = count + 1;
        }
        i = i + 1;
    }
    assert(string@.subrange(0, n as int) =~= string@);
    count
}

/// Number of words of `string`: its spaces, plus one.
pub fn count_words(string: &String) -> (r: usize)
    requires
        string@.len() < usize::MAX,
    ensures
        r == word_total(string@),
{
    let text = string.as_str();
    let n = text.unicode_len();
    let mut spaces: usize = 0;
    let mut i: usize = 0;
    while i < n
        invariant
            n == string@.len(),
            n < usize::MAX,
            text@ == string@,
            i <= n,
            spaces <= i,
            spaces == space_total(string@.subrange(0, i as int)),
        decreases n - i,
    {
        let c = text.get_char(i);
        assert(string@.subrange(0, i + 1).drop_last() =~= string@.subrange(0, i as int));
        if c == ' ' {
            spaces = spaces + 1;
        }
        i = i + 1;
    }
    assert(string@.subrange(0, n as int) =~= string@);
    spaces + 1
}

/// `phrase` followed by a space and `word`.
pub fn extend_phrase(phrase: &String, word: &String) -> (r: String)
    ensures
        r@ == extended(phrase@, word@),
{
    let mut r = phrase.clone();
    proof {
        reveal_strlit(" ");
    }
    r.append(" ");
    r.append(word.as_str());
    r
}

} // verus!

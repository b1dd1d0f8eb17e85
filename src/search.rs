//! Depth-first search for the phrases of a dictionary that have exactly a
//! target number of words and of letters.
//!
//! The search starts from the words that may open such a phrase and extends
//! a phrase by one word at a time, keeping only the extensions that can
//! still reach the target. Its model is the tree of those phrases:
//! `tally` counts the phrases of a subtree, `search_count` the matches of the
//! whole search, and `sequence_count` the ways of picking words whose letters
//! add up to the target, which the search reaches exactly on a dictionary of
//! plain words.
use vstd::prelude::*;
use crate::phrase::{
    count_characters,
    count_words,
    extend_phrase,
    extended,
    lemma_extended_totals,
    lemma_letters_and_spaces,
    lemma_spaceless,
    letter_total,
    space_total,
    word_total,
};

verus! {

/// A word of `word_letters` letters may open a phrase of `w` words and `l`
/// letters: each of the other `w - 1` words needs a letter at least.
pub open spec fn first_word_fits(word_letters: int, w: int, l: int) -> bool {
    w >= 1 && word_letters + w <= l + 1
}

/// A word of `word_letters` letters may follow a phrase of `phrase_words`
/// words and `phrase_letters` letters: the phrase is still short of both
/// targets, and the word either leaves room for more letters or is the last
/// word and lands on the letter target.
pub open spec fn next_word_fits(
    phrase_letters: int,
    phrase_words: int,
    word_letters: int,
    w: int,
    l: int,
) -> bool {
    &&& phrase_words < w
    &&& phrase_letters < l
    &&& (phrase_letters + word_letters < l || (phrase_words + 1 == w && phrase_letters
        + word_letters == l))
}

/// `word` may open a phrase of `w` words and `l` letters.
pub open spec fn opens(word: Seq<char>, w: int, l: int) -> bool {
    first_word_fits(letter_total(word) as int, w, l)
}

/// `word` may follow `phrase` towards a phrase of `w` words and `l` letters.
pub open spec fn continues(phrase: Seq<char>, word: Seq<char>, w: int, l: int) -> bool {
    next_word_fits(
        letter_total(phrase) as int,
        word_total(phrase) as int,
        letter_total(word) as int,
        w,
        l,
    )
}

/// `phrase` has exactly `w` words and `l` letters.
pub open spec fn is_match(phrase: Seq<char>, w: int, l: int) -> bool {
    word_total(phrase) == w && letter_total(phrase) == l
}

/// How many more words `phrase` may still take.
pub open spec fn depth_left(phrase: Seq<char>, w: int) -> nat {
    if word_total(phrase) < w {
        (w - word_total(phrase)) as nat
    } else {
        0
    }
}

/// The phrases of the search tree below `phrase`, itself included: all of
/// them, or only those that match when `matches_only` holds.
pub open spec fn tally(
    dict: Seq<Seq<char>>,
    w: int,
    l: int,
    phrase: Seq<char>,
    matches_only: bool,
) -> nat
    decreases depth_left(phrase, w), dict.len() + 1,
{
    let own: nat = if !matches_only || is_match(phrase, w, l) {
        1
    } else {
        0
    };
    own + if word_total(phrase) < w && letter_total(phrase) < l {
        tally_children(dict, w, l, phrase, dict.len(), matches_only)
    } else {
        0
    }
}

/// `tally` summed over the extensions of `phrase` by the first `k` words of
/// the dictionary that may follow it.
pub open spec fn tally_children(
    dict: Seq<Seq<char>>,
    w: int,
    l: int,
    phrase: Seq<char>,
    k: nat,
    matches_only: bool,
) -> nat
    decreases depth_left(phrase, w), k,
    via tally_children_decreases
{
    if k == 0 || k > dict.len() {
        0
    } else {
        let word = dict[k - 1];
        tally_children(dict, w, l, phrase, (k - 1) as nat, matches_only) + if continues(
            phrase,
            word,
            w,
            l,
        ) {
            tally(dict, w, l, extended(phrase, word), matches_only)
        } else {
            0
        }
    }
}

#[via_fn]
proof fn tally_children_decreases(
    dict: Seq<Seq<char>>,
    w: int,
    l: int,
    phrase: Seq<char>,
    k: nat,
    matches_only: bool,
) {
    if k > 0 && k <= dict.len() {
        lemma_extended_totals(phrase, dict[k - 1]);
    }
}

/// `tally` summed over the first `k` words of the dictionary that may open
/// a phrase.
pub open spec fn tally_seeds(
    dict: Seq<Seq<char>>,
    w: int,
    l: int,
    k: nat,
    matches_only: bool,
) -> nat
    decreases k,
{
    if k == 0 || k > dict.len() {
        0
    } else {
        tally_seeds(dict, w, l, (k - 1) as nat, matches_only) + if opens(dict[k - 1], w, l) {
            tally(dict, w, l, dict[k - 1], matches_only)
        } else {
            0
        }
    }
}

/// `tally` summed over a sequence of phrases.
pub open spec fn tally_all(
    dict: Seq<Seq<char>>,
    w: int,
    l: int,
    phrases: Seq<Seq<char>>,
    matches_only: bool,
) -> nat
    decreases phrases.len(),
{
    if phrases.len() == 0 {
        0
    } else {
        tally_all(dict, w, l, phrases.drop_last(), matches_only) + tally(
            dict,
            w,
            l,
            phrases.last(),
            matches_only,
        )
    }
}

/// Number of matches that the search for `w` words and `l` letters finds.
pub open spec fn search_count(dict: Seq<Seq<char>>, w: int, l: int) -> nat {
    tally_seeds(dict, w, l, dict.len(), true)
}

/// Ways to pick `k` words of `dict` one after another (a word may be picked
/// again, and each entry of the dictionary counts apart) whose letters add up
/// to `l`, where the first pick is among the first `n` entries.
pub open spec fn picks(dict: Seq<Seq<char>>, k: nat, l: int, n: nat) -> nat
    decreases k, n,
{
    if k == 0 {
        if l == 0 {
            1
        } else {
            0
        }
    } else if n == 0 || n > dict.len() {
        0
    } else {
        picks(dict, k, l, (n - 1) as nat) + picks(
            dict,
            (k - 1) as nat,
            l - letter_total(dict[n - 1]),
            dict.len(),
        )
    }
}

/// Number of sequences of `k` dictionary words whose letters add up to `l`.
pub open spec fn sequence_count(dict: Seq<Seq<char>>, k: nat, l: int) -> nat {
    picks(dict, k, l, dict.len())
}

/// `word` is nonempty and holds no space.
pub open spec fn is_plain_word(word: Seq<char>) -> bool {
    word.len() > 0 && forall|j: int| 0 <= j < word.len() ==> word[j] != ' '
}

/// Every word of `dict` is nonempty and holds no space.
pub open spec fn plain_words(dict: Seq<Seq<char>>) -> bool {
    forall|i: int| 0 <= i < dict.len() ==> is_plain_word(#[trigger] dict[i])
}

/// The search on a target of no words, or of fewer letters than its words
/// need, is at its degenerate end: no word opens a phrase, so nothing is
/// found.
pub proof fn lemma_degenerate_target(dict: Seq<Seq<char>>, w: int, l: int)
    requires
        w == 0 || l + 1 < w,
    ensures
        search_count(dict, w, l) == 0,
{
    lemma_no_seeds(dict, w, l, dict.len());
}

proof fn lemma_no_seeds(dict: Seq<Seq<char>>, w: int, l: int, k: nat)
    requires
        w == 0 || l + 1 < w,
    ensures
        tally_seeds(dict, w, l, k, true) == 0,
    decreases k,
{
    if k > 0 {
        lemma_no_seeds(dict, w, l, (k - 1) as nat);
    }
}

/// What the search admits stays within the target: a first word has at most
/// `w` words and `l` letters, and so has a phrase extended by a word that may
/// follow it, when the word holds no space.
pub proof fn lemma_admitted_within_target(phrase: Seq<char>, word: Seq<char>, w: int, l: int)
    requires
        forall|j: int| 0 <= j < word.len() ==> word[j] != ' ',
    ensures
        opens(word, w, l) ==> word_total(word) <= w && letter_total(word) <= l,
        continues(phrase, word, w, l) ==> word_total(extended(phrase, word)) <= w
            && letter_total(extended(phrase, word)) <= l,
{
    lemma_spaceless(word);
    lemma_extended_totals(phrase, word);
}

/// Too few letters left for the words that are still to come: no way.
proof fn lemma_picks_none(dict: Seq<Seq<char>>, k: nat, l: int, n: nat)
    requires
        plain_words(dict),
        l < k,
    ensures
        picks(dict, k, l, n) == 0,
    decreases k, n,
{
    if k > 0 && n > 0 && n <= dict.len() {
        let word = dict[n - 1];
        lemma_plain_word(dict, n - 1);
        lemma_picks_none(dict, k, l, (n - 1) as nat);
        lemma_picks_none(dict, (k - 1) as nat, l - letter_total(word), dict.len());
    }
}

proof fn lemma_plain_word(dict: Seq<Seq<char>>, i: int)
    requires
        plain_words(dict),
        0 <= i < dict.len(),
    ensures
        space_total(dict[i]) == 0,
        letter_total(dict[i]) == dict[i].len(),
        dict[i].len() > 0,
{
    lemma_spaceless(dict[i]);
}

proof fn lemma_tally_counts_picks(dict: Seq<Seq<char>>, w: int, l: int, phrase: Seq<char>)
    requires
        plain_words(dict),
        word_total(phrase) <= w,
    ensures
        tally(dict, w, l, phrase, true) == picks(
            dict,
            (w - word_total(phrase)) as nat,
            l - letter_total(phrase),
            dict.len(),
        ),
    decreases depth_left(phrase, w), dict.len() + 1,
{
    let wc = word_total(phrase) as int;
    let cc = letter_total(phrase) as int;
    if wc < w && cc < l {
        lemma_children_count_picks(dict, w, l, phrase, dict.len());
    } else if wc < w {
        lemma_picks_none(dict, (w - wc) as nat, l - cc, dict.len());
    }
}

proof fn lemma_children_count_picks(
    dict: Seq<Seq<char>>,
    w: int,
    l: int,
    phrase: Seq<char>,
    k: nat,
)
    requires
        plain_words(dict),
        word_total(phrase) < w,
        letter_total(phrase) < l,
        k <= dict.len(),
    ensures
        tally_children(dict, w, l, phrase, k, true) == picks(
            dict,
            (w - word_total(phrase)) as nat,
            l - letter_total(phrase),
            k,
        ),
    decreases depth_left(phrase, w), k,
{
    if k > 0 {
        lemma_children_count_picks(dict, w, l, phrase, (k - 1) as nat);
        let word = dict[k - 1];
        lemma_plain_word(dict, k - 1);
        lemma_extended_totals(phrase, word);
        let wc = word_total(phrase) as int;
        let cc = letter_total(phrase) as int;
        if continues(phrase, word, w, l) {
            lemma_tally_counts_picks(dict, w, l, extended(phrase, word));
        } else {
            lemma_picks_none(dict, (w - wc - 1) as nat, l - cc - letter_total(word), dict.len());
        }
    }
}

proof fn lemma_seeds_count_picks(dict: Seq<Seq<char>>, w: int, l: int, k: nat)
    requires
        plain_words(dict),
        w >= 1,
        k <= dict.len(),
    ensures
        tally_seeds(dict, w, l, k, true) == picks(dict, w as nat, l, k),
    decreases k,
{
    if k > 0 {
        lemma_seeds_count_picks(dict, w, l, (k - 1) as nat);
        let word = dict[k - 1];
        lemma_plain_word(dict, k - 1);
        if opens(word, w, l) {
            lemma_tally_counts_picks(dict, w, l, word);
        } else {
            lemma_picks_none(dict, (w - 1) as nat, l - letter_total(word), dict.len());
        }
    }
}

/// Nothing is lost to pruning: on a dictionary of nonempty words without
/// spaces, the search finds exactly one phrase for each sequence of `w`
/// dictionary words whose letters add up to `l`.
pub proof fn lemma_search_complete(dict: Seq<Seq<char>>, w: int, l: int)
    requires
        plain_words(dict),
        w >= 1,
    ensures
        search_count(dict, w, l) == sequence_count(dict, w as nat, l),
{
    lemma_seeds_count_picks(dict, w, l, dict.len());
}

/// The dictionary entries at the positions of `path`, joined by single
/// spaces.
pub open spec fn joined(dict: Seq<Seq<char>>, path: Seq<int>) -> Seq<char>
    decreases path.len(),
{
    if path.len() == 0 {
        Seq::empty()
    } else if path.len() == 1 {
        dict[path[0]]
    } else {
        extended(joined(dict, path.drop_last()), dict[path.last()])
    }
}

/// `path` names one position of `dict` or more.
pub open spec fn is_path(dict: Seq<Seq<char>>, path: Seq<int>) -> bool {
    path.len() >= 1 && forall|k: int| 0 <= k < path.len() ==> 0 <= #[trigger] path[k] < dict.len()
}

/// `phrase` is a sequence of dictionary words joined by single spaces.
pub open spec fn made_of(dict: Seq<Seq<char>>, phrase: Seq<char>) -> bool {
    exists|path: Seq<int>| is_path(dict, path) && joined(dict, path) == phrase
}

/// The texts of a sequence of strings.
pub open spec fn texts(v: Seq<String>) -> Seq<Seq<char>> {
    v.map_values(|s: String| s@)
}

/// Each phrase that the search for `w` words and `l` letters may build fits
/// in memory: it holds at most `l` letters, fewer than `w` separating
/// spaces, and the spaces of one word.
pub open spec fn phrases_fit(dict: Seq<Seq<char>>, w: int, l: int) -> bool {
    forall|i: int| 0 <= i < dict.len() ==> #[trigger] dict[i].len() + w + l < usize::MAX
}

proof fn lemma_tally_all_push(
    dict: Seq<Seq<char>>,
    w: int,
    l: int,
    phrases: Seq<Seq<char>>,
    phrase: Seq<char>,
    matches_only: bool,
)
    ensures
        tally_all(dict, w, l, phrases.push(phrase), matches_only) == tally_all(
            dict,
            w,
            l,
            phrases,
            matches_only,
        ) + tally(dict, w, l, phrase, matches_only),
{
    assert(phrases.push(phrase).drop_last() =~= phrases);
}

proof fn lemma_texts_push(v: Seq<String>, s: String)
    ensures
        texts(v.push(s)) =~= texts(v).push(s@),
{
}

/// Whether a word of `word_letters` letters may open a phrase of
/// `word_count` words and `letter_count` letters.
pub fn admits_first_word(word_letters: usize, word_count: u32, letter_count: u32) -> (r: bool)
    ensures
        r == first_word_fits(word_letters as int, word_count as int, letter_count as int),
{
    if word_count == 0 || (letter_count as u64) + 1 < (word_count as u64) {
        return false;
    }
    (word_letters as u64) <= (letter_count as u64) + 1 - (word_count as u64)
}

/// Whether a word of `word_letters` letters may follow a phrase of
/// `phrase_words` words and `phrase_letters` letters, towards a phrase of
/// `word_count` words and `letter_count` letters.
pub fn admits_next_word(
    phrase_letters: usize,
    phrase_words: usize,
    word_letters: usize,
    word_count: u32,
    letter_count: u32,
) -> (r: bool)
    ensures
        r == next_word_fits(
            phrase_letters as int,
            phrase_words as int,
            word_letters as int,
            word_count as int,
            letter_count as int,
        ),
{
    let w = word_count as usize;
    let l = letter_count as usize;
    if phrase_words >= w || phrase_letters >= l {
        return false;
    }
    let room = l - phrase_letters;
    word_letters < room || (phrase_words + 1 == w && word_letters == room)
}

/// The phrases of `dictionary` words with exactly `word_count` words and
/// `letter_count` letters, found by a depth-first search that prunes every
/// phrase that can no longer reach the target. Words may repeat, and the
/// order of the words counts.
pub fn find_phrases(dictionary: &Vec<String>, word_count: u32, letter_count: u32) -> (found: Vec<
    String,
>)
    requires
        phrases_fit(texts(dictionary@), word_count as int, letter_count as int),
    ensures
        found.len() == search_count(texts(dictionary@), word_count as int, letter_count as int),
        forall|i: int|
            0 <= i < found.len() ==> is_match(
                #[trigger] found[i]@,
                word_count as int,
                letter_count as int,
            ),
        plain_words(texts(dictionary@)) && word_count >= 1 ==> found.len() == sequence_count(
            texts(dictionary@),
            word_count as nat,
            letter_count as int,
        ),
        forall|i: int| 0 <= i < found.len() ==> made_of(texts(dictionary@), #[trigger] found[i]@),
        word_count == 0 || letter_count + 1 < word_count ==> found.len() == 0,
{
    let ghost dict = texts(dictionary@);
    let ghost w = word_count as int;
    let ghost l = letter_count as int;
    let n = dictionary.len();
    let mut letters: Vec<usize> = Vec::new();
    let mut frontier: Vec<String> = Vec::new();
    let ghost mut paths: Seq<Seq<int>> = Seq::empty();
    let mut i: usize = 0;
    while i < n
        invariant
            paths.len() == frontier.len(),
            forall|k: int|
                0 <= k < paths.len() ==> is_path(dict, #[trigger] paths[k]) && joined(dict, paths[k])
                    == frontier[k]@,
            n == dictionary.len(),
            dict == texts(dictionary@),
            w == word_count as int,
            l == letter_count as int,
            phrases_fit(dict, w, l),
            i <= n,
            letters.len() == i,
            forall|j: int| 0 <= j < i ==> letters[j] == letter_total(#[trigger] dict[j]),
            tally_all(dict, w, l, texts(frontier@), true) == tally_seeds(dict, w, l, i as nat, true),
            tally_all(dict, w, l, texts(frontier@), false) == tally_seeds(
                dict,
                w,
                l,
                i as nat,
                false,
            ),
            forall|j: int| 0 <= j < frontier.len() ==> (#[trigger] frontier[j])@.len() < usize::MAX,
        decreases n - i,
    {
        let word = &dictionary[i];
        let lw = count_characters(word);
        letters.push(lw);
        if admits_first_word(lw, word_count, letter_count) {
            let ghost before = frontier@;
            frontier.push(word.clone());
            proof {
                paths = paths.push(seq![i as int]);
                lemma_texts_push(before, *word);
                lemma_tally_all_push(dict, w, l, texts(before), word@, true);
                lemma_tally_all_push(dict, w, l, texts(before), word@, false);
                assert(dict[i as int].len() + w + l < usize::MAX);
            }
        }
        i = i + 1;
    }
    let mut found: Vec<String> = Vec::new();
    while frontier.len() > 0
        invariant
            paths.len() == frontier.len(),
            forall|k: int|
                0 <= k < paths.len() ==> is_path(dict, #[trigger] paths[k]) && joined(dict, paths[k])
                    == frontier[k]@,
            forall|k: int| 0 <= k < found.len() ==> made_of(dict, #[trigger] found[k]@),
            n == dictionary.len(),
            dict == texts(dictionary@),
            w == word_count as int,
            l == letter_count as int,
            phrases_fit(dict, w, l),
            letters.len() == n,
            forall|j: int| 0 <= j < n ==> letters[j] == letter_total(#[trigger] dict[j]),
            found.len() + tally_all(dict, w, l, texts(frontier@), true) == search_count(dict, w, l),
            forall|j: int| 0 <= j < found.len() ==> is_match(#[trigger] found[j]@, w, l),
            forall|j: int| 0 <= j < frontier.len() ==> (#[trigger] frontier[j])@.len() < usize::MAX,
        decreases tally_all(dict, w, l, texts(frontier@), false),
    {
        let ghost before = frontier@;
        let check = frontier.pop().unwrap();
        proof {
            assert(before.drop_last() =~= frontier@);
            assert(texts(before).drop_last() =~= texts(frontier@));
            assert(texts(before).last() == check@);
        }
        let ghost check_path = paths.last();
        proof {
            paths = paths.drop_last();
        }
        let cc = count_characters(&check);
        let wc = count_words(&check);
        if cc == letter_count as usize && wc == word_count as usize {
            found.push(check);
            proof {
                assert(is_path(dict, check_path) && joined(dict, check_path) == check@);
            }
        } else if wc < word_count as usize && cc < letter_count as usize {
            let ghost base = texts(frontier@);
            let mut j: usize = 0;
            while j < n
                invariant
                    n == dictionary.len(),
                    dict == texts(dictionary@),
                    w == word_count as int,
                    l == letter_count as int,
                    phrases_fit(dict, w, l),
                    letters.len() == n,
                    forall|k: int| 0 <= k < n ==> letters[k] == letter_total(#[trigger] dict[k]),
                    cc == letter_total(check@),
                    wc == word_total(check@),
                    wc < w,
                    cc < l,
                    j <= n,
                    paths.len() == frontier.len(),
                    forall|k: int|
                        0 <= k < paths.len() ==> is_path(dict, #[trigger] paths[k]) && joined(
                            dict,
                            paths[k],
                        ) == frontier[k]@,
                    is_path(dict, check_path),
                    joined(dict, check_path) == check@,
                    tally_all(dict, w, l, texts(frontier@), true) == tally_all(
                        dict,
                        w,
                        l,
                        base,
                        true,
                    ) + tally_children(dict, w, l, check@, j as nat, true),
                    tally_all(dict, w, l, texts(frontier@), false) == tally_all(
                        dict,
                        w,
                        l,
                        base,
                        false,
                    ) + tally_children(dict, w, l, check@, j as nat, false),
                    forall|k: int|
                        0 <= k < frontier.len() ==> (#[trigger] frontier[k])@.len() < usize::MAX,
                decreases n - j,
            {
                if admits_next_word(cc, wc, letters[j], word_count, letter_count) {
                    let next = extend_phrase(&check, &dictionary[j]);
                    let ghost pushed = frontier@;
                    frontier.push(next);
                    proof {
                        let word = dict[j as int];
                        let next_path = check_path.push(j as int);
                        assert(next_path.drop_last() =~= check_path);
                        assert(is_path(dict, next_path));
                        paths = paths.push(next_path);
                        lemma_texts_push(pushed, next);
                        lemma_tally_all_push(dict, w, l, texts(pushed), next@, true);
                        lemma_tally_all_push(dict, w, l, texts(pushed), next@, false);
                        lemma_extended_totals(check@, word);
                        lemma_letters_and_spaces(next@);
                        lemma_letters_and_spaces(word);
                        assert(word.len() + w + l < usize::MAX);
                    }
                }
                j = j + 1;
            }
        }
    }
    proof {
        if word_count == 0 || letter_count + 1 < word_count {
            lemma_degenerate_target(dict, w, l);
        }
        if plain_words(dict) && word_count >= 1 {
            lemma_search_complete(dict, w, l);
        }
    }
    found
}

/// Number of phrases of `dictionary` words with exactly `word_count` words
/// and `letter_count` letters.
pub fn count_phrases(dictionary: &Vec<String>, word_count: u32, letter_count: u32) -> (r: usize)
    requires
        phrases_fit(texts(dictionary@), word_count as int, letter_count as int),
    ensures
        r == search_count(texts(dictionary@), word_count as int, letter_count as int),
        plain_words(texts(dictionary@)) && word_count >= 1 ==> r == sequence_count(
            texts(dictionary@),
            word_count as nat,
            letter_count as int,
        ),
        word_count == 0 || letter_count + 1 < word_count ==> r == 0,
{
    find_phrases(dictionary, word_count, letter_count).len()
}

} // verus!

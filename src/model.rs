//! Mathematical model of dictionaries, selections and passphrases.
use vstd::prelude::*;

verus! {

/// The words of one dictionary, as character sequences.
pub open spec fn words_of(dictionary: &[&str]) -> Seq<Seq<char>> {
    dictionary@.map_values(|w: &str| w@)
}

/// The dictionaries of a request, each as a sequence of words.
pub open spec fn dicts_of(dictionaries: &[&[&str]]) -> Seq<Seq<Seq<char>>> {
    dictionaries@.map_values(|d: &[&str]| words_of(d))
}

/// What is written between two consecutive words: the delimiter, or nothing.
pub open spec fn separator(delimiter: Option<&str>) -> Seq<char> {
    match delimiter {
        Some(d) => d@,
        None => Seq::empty(),
    }
}

/// The words in order, with `sep` between each two consecutive ones and
/// nowhere else.
pub open spec fn join(words: Seq<Seq<char>>, sep: Seq<char>) -> Seq<char>
    decreases words.len(),
{
    if words.len() == 0 {
        Seq::empty()
    } else if words.len() == 1 {
        words[0]
    } else {
        join(words.drop_last(), sep) + sep + words.last()
    }
}

/// Some dictionary of the list has no word.
pub open spec fn has_empty(dicts: Seq<Seq<Seq<char>>>) -> bool {
    exists|y: int| 0 <= y < dicts.len() && #[trigger] dicts[y].len() == 0
}

/// `picks` holds one index per (iteration, dictionary) pair, iteration-major,
/// each within the dictionary at that position.
pub open spec fn valid_picks(dicts: Seq<Seq<Seq<char>>>, iterations: nat, picks: Seq<usize>) -> bool {
    &&& picks.len() == iterations * dicts.len()
    &&& forall|k: int| 0 <= k < picks.len() ==> #[trigger] picks[k] < dicts[k % (dicts.len() as int)].len()
}

/// The words that `picks` designates, in order: the `k`-th comes from
/// dictionary `k % dicts.len()`.
pub open spec fn selection(dicts: Seq<Seq<Seq<char>>>, picks: Seq<usize>) -> Seq<Seq<char>> {
    Seq::new(picks.len(), |k: int| dicts[k % (dicts.len() as int)][picks[k] as int])
}

/// `s` is a passphrase for the request: the joined words of some valid
/// selection.
pub open spec fn is_passphrase(
    dicts: Seq<Seq<Seq<char>>>,
    iterations: nat,
    sep: Seq<char>,
    s: Seq<char>,
) -> bool {
    exists|picks: Seq<usize>|
        valid_picks(dicts, iterations, picks) && s == #[trigger] join(selection(dicts, picks), sep)
}

/// Appending one word to a joined sequence adds the separator (unless the
/// sequence was empty) and then the word.
pub proof fn lemma_join_push(words: Seq<Seq<char>>, w: Seq<char>, sep: Seq<char>)
    ensures
        join(words.push(w), sep) == join(words, sep) + (if words.len() > 0 {
            sep
        } else {
            Seq::empty()
        }) + w,
{
    assert(words.push(w).drop_last() =~= words);
    if words.len() == 0 {
        assert(join(words.push(w), sep) =~= Seq::<char>::empty() + Seq::<char>::empty() + w);
    }
}

} // verus!

//! Properties of passphrases that follow from the model.
use crate::model::{is_passphrase, join, selection, valid_picks};
use vstd::prelude::*;

verus! {

broadcast use vstd::seq_lib::group_seq_properties;

/// The test for the character `c`.
pub open spec fn is_char(c: char) -> spec_fn(char) -> bool {
    |x: char| x == c
}

/// How many times `c` occurs in `s`.
pub open spec fn occurrences(s: Seq<char>, c: char) -> nat {
    s.filter(is_char(c)).len()
}

/// A valid selection holds `iterations * dicts.len()` words, and the word of
/// dictionary position `y` in iteration `x` is a word of `dicts[y]`.
pub proof fn lemma_selection_words(dicts: Seq<Seq<Seq<char>>>, iterations: nat, picks: Seq<usize>)
    requires
        valid_picks(dicts, iterations, picks),
    ensures
        selection(dicts, picks).len() == iterations * dicts.len(),
        forall|x: int, y: int|
            0 <= x < iterations && 0 <= y < dicts.len() ==> dicts[y].contains(
                #[trigger] selection(dicts, picks)[x * dicts.len() + y],
            ),
{
    assert forall|x: int, y: int| 0 <= x < iterations && 0 <= y < dicts.len() implies dicts[y].contains(
        #[trigger] selection(dicts, picks)[x * dicts.len() + y],
    ) by {
        let n = dicts.len() as int;
        let k = x * n + y;
        assert(0 <= k < iterations * n) by (nonlinear_arith)
            requires
                0 <= x < iterations,
                0 <= y < n,
                k == x * n + y,
        ;
        vstd::arithmetic::div_mod::lemma_fundamental_div_mod_converse(k, n, x, y);
        assert(picks[k] < dicts[y].len());
        assert(dicts[y][picks[k] as int] == selection(dicts, picks)[k]);
    }
}

/// A passphrase is the joined sequence of exactly `iterations * dicts.len()`
/// words, the word at dictionary position `y` of iteration `x` being a word of
/// `dicts[y]`.
pub proof fn lemma_passphrase_words(
    dicts: Seq<Seq<Seq<char>>>,
    iterations: nat,
    sep: Seq<char>,
    s: Seq<char>,
)
    requires
        is_passphrase(dicts, iterations, sep, s),
    ensures
        exists|words: Seq<Seq<char>>|
            {
                &&& words.len() == iterations * dicts.len()
                &&& forall|x: int, y: int|
                    0 <= x < iterations && 0 <= y < dicts.len() ==> dicts[y].contains(
                        #[trigger] words[x * dicts.len() + y],
                    )
                &&& s == join(words, sep)
            },
{
    let picks = choose|picks: Seq<usize>|
        valid_picks(dicts, iterations, picks) && s == #[trigger] join(selection(dicts, picks), sep);
    lemma_selection_words(dicts, iterations, picks);
    let words = selection(dicts, picks);
    assert(words.len() == iterations * dicts.len());
}

proof fn lemma_join_empty_sep(words: Seq<Seq<char>>)
    ensures
        join(words, Seq::empty()) == words.flatten_alt(),
    decreases words.len(),
{
    if words.len() == 1 {
        assert(words.drop_last() =~= Seq::<Seq<char>>::empty());
        assert(Seq::<Seq<char>>::empty().flatten_alt() == Seq::<char>::empty());
        assert(words.flatten_alt() =~= words[0]);
    } else if words.len() > 1 {
        lemma_join_empty_sep(words.drop_last());
        assert(join(words, Seq::empty()) =~= words.flatten_alt());
    }
}

/// Without a delimiter, the words are concatenated with nothing between them.
pub proof fn lemma_no_delimiter(words: Seq<Seq<char>>)
    ensures
        join(words, Seq::empty()) == words.flatten(),
{
    lemma_join_empty_sep(words);
    words.lemma_flatten_and_flatten_alt_are_equivalent();
}

proof fn lemma_occurrences_concat(a: Seq<char>, b: Seq<char>, c: char)
    ensures
        occurrences(a + b, c) == occurrences(a, c) + occurrences(b, c),
{
    Seq::filter_distributes_over_add(a, b, is_char(c));
}

proof fn lemma_occurrences_absent(w: Seq<char>, c: char)
    requires
        !w.contains(c),
    ensures
        occurrences(w, c) == 0,
{
    let f = w.filter(is_char(c));
    if f.len() > 0 {
        w.lemma_filter_pred(is_char(c), 0);
        assert(f.contains(f[0]));
        w.lemma_filter_contains_rev(is_char(c), f[0]);
    }
}

proof fn lemma_occurrences_single(c: char)
    ensures
        occurrences(seq![c], c) == 1,
{
    reveal_with_fuel(Seq::filter, 2);
    assert(seq![c].drop_last() =~= Seq::<char>::empty());
}

proof fn lemma_join_occurrences(words: Seq<Seq<char>>, c: char)
    requires
        words.len() >= 1,
        forall|i: int| 0 <= i < words.len() ==> !(#[trigger] words[i]).contains(c),
    ensures
        occurrences(join(words, seq![c]), c) == words.len() - 1,
    decreases words.len(),
{
    lemma_occurrences_absent(words.last(), c);
    if words.len() > 1 {
        let rest = words.drop_last();
        lemma_join_occurrences(rest, c);
        lemma_occurrences_single(c);
        lemma_occurrences_concat(join(rest, seq![c]), seq![c], c);
        lemma_occurrences_concat(join(rest, seq![c]) + seq![c], words.last(), c);
    }
}

proof fn lemma_join_first(words: Seq<Seq<char>>, sep: Seq<char>)
    requires
        words.len() >= 1,
        words[0].len() > 0,
    ensures
        join(words, sep).len() > 0,
        join(words, sep)[0] == words[0][0],
    decreases words.len(),
{
    if words.len() > 1 {
        lemma_join_first(words.drop_last(), sep);
    }
}

/// With a delimiter of one character `c` that no word of any dictionary
/// contains, a passphrase of `iterations * dicts.len() >= 1` words holds `c`
/// exactly once fewer than it has words. It does not start with `c` when the
/// first dictionary holds no empty word, and does not end with `c` when the
/// last dictionary holds no empty word.
pub proof fn lemma_single_char_delimiter(
    dicts: Seq<Seq<Seq<char>>>,
    iterations: nat,
    c: char,
    s: Seq<char>,
)
    requires
        is_passphrase(dicts, iterations, seq![c], s),
        iterations * dicts.len() >= 1,
        forall|y: int, i: int|
            0 <= y < dicts.len() && 0 <= i < dicts[y].len() ==> !(#[trigger] dicts[y][i]).contains(c),
    ensures
        occurrences(s, c) == iterations * dicts.len() - 1,
        (forall|i: int| 0 <= i < dicts[0].len() ==> (#[trigger] dicts[0][i]).len() > 0) ==> (s.len()
            > 0 && s[0] != c),
        (forall|i: int|
            0 <= i < dicts.last().len() ==> (#[trigger] dicts.last()[i]).len() > 0) ==> (s.len() > 0
            && s.last() != c),
{
    let sep = seq![c];
    let picks = choose|picks: Seq<usize>|
        valid_picks(dicts, iterations, picks) && s == #[trigger] join(selection(dicts, picks), sep);
    let words = selection(dicts, picks);
    let n = dicts.len() as int;
    assert(n >= 1 && iterations >= 1) by (nonlinear_arith)
        requires
            iterations * n >= 1,
            n >= 0,
    ;
    assert forall|k: int| 0 <= k < words.len() implies !(#[trigger] words[k]).contains(c) by {
        assert(picks[k] < dicts[k % n].len());
    }
    lemma_join_occurrences(words, c);
    assert(words[0] == dicts[0][picks[0] as int]);
    if forall|i: int| 0 <= i < dicts[0].len() ==> (#[trigger] dicts[0][i]).len() > 0 {
        assert(words[0].len() > 0);
        lemma_join_first(words, sep);
    }
    let k = words.len() - 1;
    assert(k == (iterations - 1) * n + (n - 1)) by (nonlinear_arith)
        requires
            k == iterations * n - 1,
            iterations >= 1,
    ;
    vstd::arithmetic::div_mod::lemma_fundamental_div_mod_converse(k, n, iterations - 1, n - 1);
    assert(words[k] == dicts.last()[picks[k] as int]);
    if forall|i: int| 0 <= i < dicts.last().len() ==> (#[trigger] dicts.last()[i]).len() > 0 {
        assert(words[k].len() > 0);
        assert(words.last() == words[k]);
    }
}

} // verus!

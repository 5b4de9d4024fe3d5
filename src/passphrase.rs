//! Composition of a passphrase from dictionaries, iterations and a delimiter.
use crate::model::{dicts_of, has_empty, is_passphrase, join, lemma_join_push, selection, separator, valid_picks};
use crate::select::{random_index, PassphraseError};
use vstd::arithmetic::div_mod::lemma_fundamental_div_mod_converse;
use vstd::prelude::*;
use vstd::string::StringExecFns;

verus! {

/// Writes the passphrase whose words are designated by `picks`: for each of
/// `iterations` passes over `dictionaries`, one word per dictionary, the
/// `k`-th word being `dictionaries[k % len][picks[k]]`. The delimiter, if
/// any, stands between every two consecutive words and nowhere else.
pub fn compose(
    dictionaries: &[&'static [&'static str]],
    iterations: usize,
    delimiter: Option<&'static str>,
    picks: &[usize],
) -> (r: String)
    requires
        valid_picks(dicts_of(dictionaries), iterations as nat, picks@),
    ensures
        r@ == join(selection(dicts_of(dictionaries), picks@), separator(delimiter)),
{
    let ghost dicts = dicts_of(dictionaries);
    let ghost sep = separator(delimiter);
    let ghost words = selection(dicts, picks@);
    let mut string = String::new();
    let n = dictionaries.len();
    if n == 0 {
        assert(dicts.len() == 0);
        assert(picks@.len() == 0) by (nonlinear_arith)
            requires
                picks@.len() == iterations * dicts.len(),
                dicts.len() == 0,
        ;
        assert(words =~= Seq::<Seq<char>>::empty());
        return string;
    }
    let mut k: usize = 0;
    let mut x: usize = 0;
    while x < iterations
        invariant
            0 <= x <= iterations,
            n == dictionaries.len(),
            n > 0,
            k == x * n,
            dicts == dicts_of(dictionaries),
            sep == separator(delimiter),
            words == selection(dicts, picks@),
            valid_picks(dicts, iterations as nat, picks@),
            string@ == join(words.take(k as int), sep) + (if 0 < x < iterations {
                sep
            } else {
                Seq::empty()
            }),
        decreases iterations - x,
    {
        proof {
            assert((x > 0) == (x * n > 0)) by (nonlinear_arith)
                requires
                    n > 0,
            ;
        }
        let mut y: usize = 0;
        while y < n
            invariant
                0 <= x < iterations,
                0 <= y <= n,
                n == dictionaries.len(),
                n > 0,
                k == x * n + y,
                dicts == dicts_of(dictionaries),
                sep == separator(delimiter),
                words == selection(dicts, picks@),
                valid_picks(dicts, iterations as nat, picks@),
                string@ == join(words.take(k as int), sep) + (if k > 0 && y < n {
                    sep
                } else {
                    Seq::empty()
                }),
            decreases n - y,
        {
            proof {
                assert(x * n + y < iterations * n) by (nonlinear_arith)
                    requires
                        x < iterations,
                        y < n,
                ;
                lemma_fundamental_div_mod_converse(k as int, n as int, x as int, y as int);
                assert(words.take(k + 1) =~= words.take(k as int).push(words[k as int]));
                lemma_join_push(words.take(k as int), words[k as int], sep);
            }
            let dictionary = dictionaries[y];
            let word = dictionary[picks[k]];
            string.append(word);
            assert(string@ =~= join(words.take(k + 1), sep));
            if let Some(d) = delimiter {
                if y != n - 1 {
                    string.append(d);
                }
            }
            k = k + 1;
            y = y + 1;
            assert(string@ =~= join(words.take(k as int), sep) + (if k > 0 && y < n {
                sep
            } else {
                Seq::empty()
            }));
        }
        if let Some(d) = delimiter {
            if x != iterations - 1 {
                string.append(d);
            }
        }
        proof {
            assert((x + 1) * n == x * n + n) by (nonlinear_arith);
        }
        x = x + 1;
        assert(string@ =~= join(words.take(k as int), sep) + (if 0 < x < iterations {
            sep
        } else {
            Seq::empty()
        }));
    }
    assert(words.take(k as int) =~= words);
    string
}

/// Generates a passphrase: `iterations` passes over `dictionaries`, one word
/// drawn uniformly at random from each dictionary in turn, with the delimiter
/// (if any) between every two consecutive words. Fails with
/// `InvalidDictionary` when a word is to be drawn from an empty dictionary.
pub fn generate(
    dictionaries: &[&'static [&'static str]],
    iterations: usize,
    delimiter: Option<&'static str>,
) -> (r: Result<String, PassphraseError>)
    ensures
        r is Err <==> iterations > 0 && has_empty(dicts_of(dictionaries)),
        r matches Ok(s) ==> is_passphrase(
            dicts_of(dictionaries),
            iterations as nat,
            separator(delimiter),
            s@,
        ),
        iterations == 0 ==> (r matches Ok(s) && s@.len() == 0),
{
    let ghost dicts = dicts_of(dictionaries);
    let ghost sep = separator(delimiter);
    let n = dictionaries.len();
    if iterations == 0 || n == 0 {
        let s = String::new();
        proof {
            let picks = Seq::<usize>::empty();
            assert(picks.len() == iterations * dicts.len()) by (nonlinear_arith)
                requires
                    picks.len() == 0,
                    iterations == 0 || dicts.len() == 0,
            ;
            assert(selection(dicts, picks) =~= Seq::<Seq<char>>::empty());
            assert(valid_picks(dicts, iterations as nat, picks) && s@ == join(
                selection(dicts, picks),
                sep,
            ));
        }
        return Ok(s);
    }
    let mut y: usize = 0;
    while y < n
        invariant
            0 <= y <= n,
            iterations > 0,
            n == dictionaries.len(),
            dicts == dicts_of(dictionaries),
            forall|j: int| 0 <= j < y ==> #[trigger] dicts[j].len() > 0,
        decreases n - y,
    {
        if dictionaries[y].len() == 0 {
            assert(dicts[y as int].len() == 0);
            return Err(PassphraseError::InvalidDictionary);
        }
        y = y + 1;
    }
    let mut picks: Vec<usize> = Vec::new();
    let mut x: usize = 0;
    while x < iterations
        invariant
            0 <= x <= iterations,
            n == dictionaries.len(),
            n > 0,
            dicts == dicts_of(dictionaries),
            forall|j: int| 0 <= j < n ==> #[trigger] dicts[j].len() > 0,
            picks@.len() == x * n,
            forall|k: int| 0 <= k < picks@.len() ==> #[trigger] picks@[k] < dicts[k % (n as int)].len(),
        decreases iterations - x,
    {
        let mut y: usize = 0;
        while y < n
            invariant
                0 <= x < iterations,
                0 <= y <= n,
                n == dictionaries.len(),
                n > 0,
                dicts == dicts_of(dictionaries),
                forall|j: int| 0 <= j < n ==> #[trigger] dicts[j].len() > 0,
                picks@.len() == x * n + y,
                forall|k: int|
                    0 <= k < picks@.len() ==> #[trigger] picks@[k] < dicts[k % (n as int)].len(),
            decreases n - y,
        {
            assert(dicts[y as int].len() > 0);
            let i = random_index(dictionaries[y].len());
            proof {
                lemma_fundamental_div_mod_converse(
                    (x * n + y) as int,
                    n as int,
                    x as int,
                    y as int,
                );
            }
            picks.push(i);
            y = y + 1;
        }
        proof {
            assert((x + 1) * n == x * n + n) by (nonlinear_arith);
        }
        x = x + 1;
    }
    let s = compose(dictionaries, iterations, delimiter, picks.as_slice());
    assert(valid_picks(dicts, iterations as nat, picks@) && s@ == join(selection(dicts, picks@), sep));
    Ok(s)
}

} // verus!

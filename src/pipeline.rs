use crate::charmap::{covers, CharMap};
use crate::config::{StemmerConfig, StemmerError};
use crate::stemmer::{pair_views, stem_chars, stemmed};
use crate::text::{chars_of, string_of};
use crate::tokenizer::{str_views, tokenize, tokens};
use vstd::prelude::*;
use vstd::string::StringExecFns;

verus! {

/// The words of `ts` with one space between each two.
pub open spec fn joined(ts: Seq<Seq<char>>) -> Seq<char>
    decreases ts.len(),
{
    if ts.len() == 0 {
        seq![]
    } else if ts.len() == 1 {
        ts[0]
    } else {
        joined(ts.drop_last()) + seq![' '] + ts.last()
    }
}

/// The stem of each token, in order.
pub open spec fn stems(
    toks: Seq<Seq<char>>,
    pairs: Seq<(Seq<char>, Seq<char>)>,
    pre: Seq<Seq<char>>,
    suf: Seq<Seq<char>>,
    m: Map<u32, char>,
) -> Seq<Seq<char>> {
    toks.map_values(|t: Seq<char>| stemmed(t, pairs, pre, suf, m))
}

/// The tokens of `text` under the tables of `c`.
pub open spec fn config_tokens(text: Seq<char>, c: StemmerConfig) -> Seq<Seq<char>> {
    tokens(text, str_views(c.stopwords@), c.homophones_map@)
}

/// The stems of `toks` under the tables of `c`.
pub open spec fn config_stems(toks: Seq<Seq<char>>, c: StemmerConfig) -> Seq<Seq<char>> {
    stems(
        toks,
        pair_views(c.prefix_suffix_pair_list@),
        str_views(c.prefix_list@),
        str_views(c.suffix_list@),
        c.sadis_map@,
    )
}

/// Every token has an entry in the radical table for each of its letters.
pub open spec fn all_covered(toks: Seq<Seq<char>>, m: Map<u32, char>) -> bool {
    forall|i: int| 0 <= i < toks.len() ==> covers(m, #[trigger] toks[i])
}

/// Whether every character of `w` has an entry in `m`.
fn covered(w: &Vec<char>, m: &CharMap) -> (r: bool)
    ensures
        r == covers(m@, w@),
{
    let mut i: usize = 0;
    while i < w.len()
        invariant
            i <= w@.len(),
            forall|j: int| 0 <= j < i ==> m@.contains_key((#[trigger] w@[j]) as u32),
        decreases w@.len() - i,
    {
        if !m.contains(w[i]) {
            return false;
        }
        i = i + 1;
    }
    true
}

/// Appends the characters of `w` to `out`.
fn append_chars(out: &mut Vec<char>, w: &Vec<char>)
    ensures
        final(out)@ == old(out)@ + w@,
{
    let mut i: usize = 0;
    while i < w.len()
        invariant
            i <= w@.len(),
            out@ == old(out)@ + w@.take(i as int),
        decreases w@.len() - i,
    {
        out.push(w[i]);
        i = i + 1;
        assert(out@ =~= old(out)@ + w@.take(i as int));
    }
    assert(w@.take(w@.len() as int) =~= w@);
}

/// Tokenizes `text` and stems each token under the tables of `config`, joining
/// the stems with single spaces in the order of the tokens.
///
/// Fails with an input error exactly where a token holds a letter that the
/// radical table has no entry for.
pub fn stem_text(text: &str, config: &StemmerConfig) -> (r: Result<String, StemmerError>)
    ensures
        r is Ok <==> all_covered(config_tokens(text@, *config), config.sadis_map@),
        r matches Ok(s) ==> s@ == joined(config_stems(config_tokens(text@, *config), *config)),
        r matches Err(e) ==> e is InputError,
{
    let toks = tokenize(text, config.stopwords.as_slice(), &config.homophones_map);
    let ghost tv = str_views(toks@);
    let mut out: Vec<char> = Vec::new();
    let mut k: usize = 0;
    while k < toks.len()
        invariant
            k <= toks@.len(),
            tv == str_views(toks@),
            tv == config_tokens(text@, *config),
            all_covered(tv.take(k as int), config.sadis_map@),
            out@ == joined(config_stems(tv.take(k as int), *config)),
        decreases toks@.len() - k,
    {
        let w = chars_of(toks[k].as_str());
        assert(tv[k as int] == w@);
        if !covered(&w, &config.sadis_map) {
            return Err(StemmerError::InputError(String::from_str("a letter has no radical")));
        }
        let stem = stem_chars(
            &w,
            &config.prefix_suffix_pair_list,
            &config.prefix_list,
            &config.suffix_list,
            &config.sadis_map,
        );
        let ghost before = config_stems(tv.take(k as int), *config);
        let ghost after = config_stems(tv.take(k + 1), *config);
        assert(after =~= before.push(stem@));
        assert(after.drop_last() =~= before);
        if k > 0 {
            out.push(' ');
        }
        append_chars(&mut out, &stem);
        assert(out@ =~= joined(after));
        assert forall|i: int| 0 <= i < tv.take(k + 1).len() implies covers(
            config.sadis_map@,
            #[trigger] tv.take(k + 1)[i],
        ) by {
            if i < k {
                assert(tv.take(k + 1)[i] == tv.take(k as int)[i]);
            }
        }
        k = k + 1;
    }
    assert(tv.take(tv.len() as int) =~= tv);
    Ok(string_of(&out))
}

} // verus!

use crate::charmap::{map_char, CharMap};
use crate::text::{chars_of, string_of};
use vstd::prelude::*;

verus! {

/// Lowest code point of the Ge'ez script window.
pub const WINDOW_START: u32 = 0x1200;

/// Highest code point of the Ge'ez script window.
pub const WINDOW_END: u32 = 0x135A;

/// Whether `c` is a letter of the script; every other character separates
/// words.
pub open spec fn in_window(c: char) -> bool {
    WINDOW_START <= (c as u32) && (c as u32) <= WINDOW_END
}

/// The maximal runs of letters in `s`, in order of appearance.
pub open spec fn words(s: Seq<char>) -> Seq<Seq<char>>
    decreases s.len(),
{
    if s.len() == 0 {
        seq![]
    } else {
        let prev = words(s.drop_last());
        let c = s.last();
        if !in_window(c) {
            prev
        } else if s.len() >= 2 && in_window(s[s.len() - 2]) {
            prev.update(prev.len() - 1, prev.last().push(c))
        } else {
            prev.push(seq![c])
        }
    }
}

/// `w` with each character replaced by its homophone image.
pub open spec fn normalized(w: Seq<char>, m: Map<u32, char>) -> Seq<char> {
    w.map_values(|c: char| map_char(m, c))
}

/// The views of a sequence of strings.
pub open spec fn str_views(v: Seq<String>) -> Seq<Seq<char>> {
    v.map_values(|s: String| s@)
}

/// The words of `ws` normalised, in order, without each word that is a
/// stopword before or after normalisation.
pub open spec fn kept(ws: Seq<Seq<char>>, stop: Seq<Seq<char>>, m: Map<u32, char>) -> Seq<
    Seq<char>,
>
    decreases ws.len(),
{
    if ws.len() == 0 {
        seq![]
    } else {
        let prev = kept(ws.drop_last(), stop, m);
        if stop.contains(ws.last()) || stop.contains(normalized(ws.last(), m)) {
            prev
        } else {
            prev.push(normalized(ws.last(), m))
        }
    }
}

/// What `tokenize` returns for `text`.
pub open spec fn tokens(text: Seq<char>, stop: Seq<Seq<char>>, m: Map<u32, char>) -> Seq<
    Seq<char>,
> {
    kept(words(text), stop, m)
}

/// A text that ends in a letter has at least one word.
proof fn lemma_words_open(s: Seq<char>)
    ensures
        s.len() > 0 && in_window(s.last()) ==> words(s).len() > 0,
    decreases s.len(),
{
    if s.len() > 0 {
        lemma_words_open(s.drop_last());
    }
}

/// Every word is non-empty and made of letters only.
pub proof fn lemma_words_are_letters(s: Seq<char>)
    ensures
        forall|k: int|
            0 <= k < words(s).len() ==> (#[trigger] words(s)[k]).len() > 0 && forall|j: int|
                0 <= j < words(s)[k].len() ==> in_window(#[trigger] words(s)[k][j]),
    decreases s.len(),
{
    if s.len() > 0 {
        lemma_words_open(s.drop_last());
        lemma_words_are_letters(s.drop_last());
        let prev = words(s.drop_last());
        let c = s.last();
        if in_window(c) && s.len() >= 2 && in_window(s[s.len() - 2]) {
            assert forall|k: int| 0 <= k < words(s).len() implies (#[trigger] words(s)[k]).len()
                > 0 && forall|j: int|
                0 <= j < words(s)[k].len() ==> in_window(#[trigger] words(s)[k][j]) by {
                if k == prev.len() - 1 {
                    assert(words(s)[k] == prev.last().push(c));
                    assert forall|j: int| 0 <= j < words(s)[k].len() implies in_window(
                        #[trigger] words(s)[k][j],
                    ) by {
                        if j < prev.last().len() {
                            assert(words(s)[k][j] == prev[k][j]);
                        }
                    }
                } else {
                    assert(words(s)[k] == prev[k]);
                }
            }
        }
    }
}

/// The maximal runs of letters of `s`.
fn split_words(s: &Vec<char>) -> (r: Vec<Vec<char>>)
    ensures
        r@.map_values(|w: Vec<char>| w@) == words(s@),
{
    let mut done: Vec<Vec<char>> = Vec::new();
    let mut cur: Vec<char> = Vec::new();
    let mut i: usize = 0;
    while i < s.len()
        invariant
            i <= s@.len(),
            i > 0 && in_window(s@[i - 1]) ==> cur@.len() > 0 && words(s@.take(i as int))
                == done@.map_values(|w: Vec<char>| w@).push(cur@),
            !(i > 0 && in_window(s@[i - 1])) ==> cur@.len() == 0 && words(s@.take(i as int))
                == done@.map_values(|w: Vec<char>| w@),
        decreases s@.len() - i,
    {
        let c = s[i];
        let ghost prev = s@.take(i as int);
        assert(s@.take(i + 1).drop_last() =~= prev);
        if (c as u32) < WINDOW_START || (c as u32) > WINDOW_END {
            if cur.len() > 0 {
                let w = cur;
                cur = Vec::new();
                done.push(w);
                assert(done@.map_values(|w: Vec<char>| w@) =~= words(prev));
            }
        } else {
            let ghost before = cur@;
            cur.push(c);
            proof {
                let t = s@.take(i + 1);
                assert(t.last() == c);
                if i > 0 {
                    assert(t[i - 1] == s@[i - 1]);
                }
                if i > 0 && in_window(s@[i - 1]) {
                    assert(words(t) == words(prev).update(words(prev).len() - 1, before.push(c)));
                } else {
                    assert(words(t) == words(prev).push(seq![c]));
                    assert(cur@ =~= seq![c]);
                }
                assert(words(t) =~= done@.map_values(|w: Vec<char>| w@).push(cur@));
            }
        }
        i = i + 1;
    }
    if cur.len() > 0 {
        done.push(cur);
    }
    assert(s@.take(s@.len() as int) =~= s@);
    assert(done@.map_values(|w: Vec<char>| w@) =~= words(s@));
    done
}

/// `text` with each character replaced by its homophone image.
fn normalize(text: &Vec<char>, homophones_map: &CharMap) -> (r: Vec<char>)
    ensures
        r@ == normalized(text@, homophones_map@),
{
    let mut r: Vec<char> = Vec::new();
    let mut i: usize = 0;
    while i < text.len()
        invariant
            i <= text@.len(),
            r@ == normalized(text@.take(i as int), homophones_map@),
        decreases text@.len() - i,
    {
        let c = homophones_map.image(text[i]);
        r.push(c);
        i = i + 1;
        assert(r@ =~= normalized(text@.take(i as int), homophones_map@));
    }
    assert(text@.take(text@.len() as int) =~= text@);
    r
}

/// Whether `word` stands in `stopwords`.
fn is_stopword(word: &String, stopwords: &[String]) -> (r: bool)
    ensures
        r == str_views(stopwords@).contains(word@),
{
    let mut j: usize = 0;
    while j < stopwords.len()
        invariant
            j <= stopwords@.len(),
            forall|k: int| 0 <= k < j ==> stopwords@[k]@ != word@,
        decreases stopwords@.len() - j,
    {
        if stopwords[j] == *word {
            assert(str_views(stopwords@)[j as int] == word@);
            return true;
        }
        j = j + 1;
    }
    assert forall|k: int| 0 <= k < str_views(stopwords@).len() implies str_views(stopwords@)[k]
        != word@ by {
        assert(str_views(stopwords@)[k] == stopwords@[k]@);
    }
    false
}

/// Splits `text` into the words of the Ge'ez script, normalises them through
/// `homophones_map`, and drops each word that stands in `stopwords` before or
/// after normalisation.
///
/// Every character outside the script window (digits, Latin letters,
/// punctuation, white space) separates words; no empty word is produced, and
/// the words keep their order.
pub fn tokenize(text: &str, stopwords: &[String], homophones_map: &CharMap) -> (r: Vec<String>)
    ensures
        str_views(r@) == tokens(text@, str_views(stopwords@), homophones_map@),
{
    let chars = chars_of(text);
    let ws = split_words(&chars);
    let ghost wv = ws@.map_values(|w: Vec<char>| w@);
    let ghost stop = str_views(stopwords@);
    let mut r: Vec<String> = Vec::new();
    let mut k: usize = 0;
    while k < ws.len()
        invariant
            k <= ws@.len(),
            wv == ws@.map_values(|w: Vec<char>| w@),
            stop == str_views(stopwords@),
            str_views(r@) == kept(wv.take(k as int), stop, homophones_map@),
        decreases ws@.len() - k,
    {
        assert(wv.take(k + 1).drop_last() =~= wv.take(k as int));
        assert(wv.take(k + 1).last() == ws@[k as int]@);
        let w = string_of(&ws[k]);
        let n = normalize(&ws[k], homophones_map);
        let s = string_of(&n);
        if !is_stopword(&w, stopwords) && !is_stopword(&s, stopwords) {
            r.push(s);
            assert(str_views(r@) =~= kept(wv.take(k + 1), stop, homophones_map@));
        }
        k = k + 1;
    }
    assert(wv.take(wv.len() as int) =~= wv);
    r
}

/// Every letter that the homophone table maps, it maps onto a letter.
pub open spec fn keeps_letters(m: Map<u32, char>) -> bool {
    forall|k: u32|
        WINDOW_START <= k <= WINDOW_END && #[trigger] m.contains_key(k) ==> WINDOW_START <= (
        m[k] as u32) <= WINDOW_END
}

/// `w` is a non-empty run of letters.
pub open spec fn is_letter_run(w: Seq<char>) -> bool {
    w.len() > 0 && forall|j: int| 0 <= j < w.len() ==> in_window(#[trigger] w[j])
}

proof fn lemma_kept_no_stopword(ws: Seq<Seq<char>>, stop: Seq<Seq<char>>, m: Map<u32, char>)
    ensures
        forall|k: int|
            0 <= k < kept(ws, stop, m).len() ==> !stop.contains(#[trigger] kept(ws, stop, m)[k]),
    decreases ws.len(),
{
    if ws.len() > 0 {
        lemma_kept_no_stopword(ws.drop_last(), stop, m);
        let out = kept(ws, stop, m);
        let prev = kept(ws.drop_last(), stop, m);
        if !(stop.contains(ws.last()) || stop.contains(normalized(ws.last(), m))) {
            assert(out == prev.push(normalized(ws.last(), m)));
            assert forall|k: int| 0 <= k < out.len() implies !stop.contains(#[trigger] out[k]) by {
                if k < out.len() - 1 {
                    assert(out[k] == prev[k]);
                }
            }
        } else {
            assert(out == prev);
        }
    }
}

proof fn lemma_kept_letters(ws: Seq<Seq<char>>, stop: Seq<Seq<char>>, m: Map<u32, char>)
    requires
        keeps_letters(m),
        forall|k: int| 0 <= k < ws.len() ==> is_letter_run(#[trigger] ws[k]),
    ensures
        forall|k: int| 0 <= k < kept(ws, stop, m).len() ==> is_letter_run(#[trigger] kept(ws, stop, m)[k]),
    decreases ws.len(),
{
    if ws.len() > 0 {
        let prev = ws.drop_last();
        assert forall|k: int| 0 <= k < prev.len() implies is_letter_run(#[trigger] prev[k]) by {
            assert(prev[k] == ws[k]);
        }
        lemma_kept_letters(prev, stop, m);
        let w = ws.last();
        assert(is_letter_run(ws[ws.len() - 1]));
        let out = kept(ws, stop, m);
        if !(stop.contains(w) || stop.contains(normalized(w, m))) {
            let n = normalized(w, m);
            assert forall|j: int| 0 <= j < n.len() implies in_window(#[trigger] n[j]) by {
                assert(in_window(w[j]));
                assert(n[j] == map_char(m, w[j]));
                if m.contains_key(w[j] as u32) {
                    assert(in_window(m[w[j] as u32]));
                }
            }
            assert(out == kept(prev, stop, m).push(n));
            assert forall|k: int| 0 <= k < out.len() implies is_letter_run(#[trigger] out[k]) by {
                if k < out.len() - 1 {
                    assert(out[k] == kept(prev, stop, m)[k]);
                }
            }
        } else {
            assert(out == kept(prev, stop, m));
        }
    }
}

proof fn lemma_words_letter_runs(s: Seq<char>)
    ensures
        forall|k: int| 0 <= k < words(s).len() ==> is_letter_run(#[trigger] words(s)[k]),
{
    lemma_words_are_letters(s);
    assert forall|k: int| 0 <= k < words(s).len() implies is_letter_run(#[trigger] words(s)[k]) by {
        assert(words(s)[k].len() > 0);
    }
}

/// No token that `tokenize` returns is a stopword; and where the homophone
/// table maps letters onto letters, each token is a non-empty run of letters.
pub proof fn lemma_tokens_clean(text: Seq<char>, stop: Seq<Seq<char>>, m: Map<u32, char>)
    ensures
        forall|k: int|
            0 <= k < tokens(text, stop, m).len() ==> !stop.contains(
                #[trigger] tokens(text, stop, m)[k],
            ),
        keeps_letters(m) ==> forall|k: int|
            0 <= k < tokens(text, stop, m).len() ==> is_letter_run(
                #[trigger] tokens(text, stop, m)[k],
            ),
{
    lemma_kept_no_stopword(words(text), stop, m);
    if keeps_letters(m) {
        lemma_words_letter_runs(text);
        lemma_kept_letters(words(text), stop, m);
    }
}

/// A stopword never stands among the tokens of a text.
pub proof fn lemma_stopword_dropped(
    text: Seq<char>,
    stop: Seq<Seq<char>>,
    m: Map<u32, char>,
    s: Seq<char>,
)
    requires
        stop.contains(s),
    ensures
        !tokens(text, stop, m).contains(s),
{
    lemma_kept_no_stopword(words(text), stop, m);
}

proof fn lemma_words_of_run(t: Seq<char>)
    requires
        is_letter_run(t),
    ensures
        words(t) == seq![t],
    decreases t.len(),
{
    if t.len() == 1 {
        assert(t.drop_last() =~= Seq::<char>::empty());
        assert(words(t.drop_last()) =~= Seq::<Seq<char>>::empty());
        assert(in_window(t[0]));
        assert(words(t) == words(t.drop_last()).push(seq![t.last()]));
        assert(seq![t.last()] =~= t);
        assert(words(t) =~= seq![t]);
    } else {
        let d = t.drop_last();
        assert(in_window(t[t.len() - 1]));
        assert(is_letter_run(d)) by {
            assert forall|j: int| 0 <= j < d.len() implies in_window(#[trigger] d[j]) by {
                assert(d[j] == t[j]);
            }
        }
        lemma_words_of_run(d);
        assert(in_window(t[t.len() - 2]));
        assert(d.push(t.last()) =~= t);
        assert(words(t) == words(d).update(0, d.push(t.last())));
        assert(words(t) =~= seq![t]);
    }
}

/// Tokenizing a single normalised letter run that is no stopword gives back
/// that run alone.
pub proof fn lemma_token_idempotent(t: Seq<char>, stop: Seq<Seq<char>>, m: Map<u32, char>)
    requires
        is_letter_run(t),
        !stop.contains(t),
        normalized(t, m) == t,
    ensures
        tokens(t, stop, m) == seq![t],
{
    lemma_words_of_run(t);
    let ws = words(t);
    assert(ws.drop_last() =~= Seq::<Seq<char>>::empty());
    assert(ws.last() == t);
    assert(kept(ws.drop_last(), stop, m) =~= Seq::<Seq<char>>::empty());
    assert(kept(ws, stop, m) == kept(ws.drop_last(), stop, m).push(normalized(t, m)));
    assert(kept(ws, stop, m) =~= seq![t]);
}

/// `x` and `y` meet at a separator: one of them is empty, or `x` ends or `y`
/// begins with a character that is no letter.
pub open spec fn meet_at_separator(x: Seq<char>, y: Seq<char>) -> bool {
    x.len() == 0 || y.len() == 0 || !in_window(x.last()) || !in_window(y[0])
}

proof fn lemma_words_concat(x: Seq<char>, y: Seq<char>)
    requires
        meet_at_separator(x, y),
    ensures
        words(x + y) == words(x) + words(y),
    decreases y.len(),
{
    if y.len() == 0 {
        assert(x + y =~= x);
        assert(words(x) + words(y) =~= words(x));
    } else {
        let s = x + y;
        let yd = y.drop_last();
        let c = y.last();
        assert(s.drop_last() =~= x + yd);
        if yd.len() > 0 {
            assert(yd[0] == y[0]);
        }
        lemma_words_concat(x, yd);
        let wx = words(x);
        let wy = words(yd);
        assert(s.last() == c);
        if !in_window(c) {
            assert(words(s) == words(x + yd));
        } else if s.len() >= 2 && in_window(s[s.len() - 2]) {
            if y.len() == 1 {
                assert(s[s.len() - 2] == x.last());
                assert(y[0] == c);
                assert(false);
            }
            assert(s[s.len() - 2] == y[y.len() - 2]);
            assert(y.len() >= 2 && in_window(y[y.len() - 2]));
            lemma_words_open(yd);
            assert(yd.last() == y[y.len() - 2]);
            assert(wy.len() > 0);
            assert(words(y) == wy.update(wy.len() - 1, wy.last().push(c)));
            let w = wx + wy;
            assert(words(s) == w.update(w.len() - 1, w.last().push(c)));
            assert(words(s) =~= wx + words(y));
        } else {
            if y.len() >= 2 {
                assert(s[s.len() - 2] == y[y.len() - 2]);
            }
            assert(words(y) == wy.push(seq![c]));
            assert(words(s) =~= wx + words(y));
        }
    }
}

proof fn lemma_kept_concat(u: Seq<Seq<char>>, v: Seq<Seq<char>>, stop: Seq<Seq<char>>, m: Map<
    u32,
    char,
>)
    ensures
        kept(u + v, stop, m) == kept(u, stop, m) + kept(v, stop, m),
    decreases v.len(),
{
    if v.len() == 0 {
        assert(u + v =~= u);
        assert(kept(u, stop, m) + kept(v, stop, m) =~= kept(u, stop, m));
    } else {
        assert((u + v).drop_last() =~= u + v.drop_last());
        assert((u + v).last() == v.last());
        lemma_kept_concat(u, v.drop_last(), stop, m);
        assert(kept(u + v, stop, m) =~= kept(u, stop, m) + kept(v, stop, m));
    }
}

/// A run of letters that is a stopword adds no token, wherever it stands
/// between separators: the text tokenizes as if a space stood in its place.
pub proof fn lemma_stopword_run_adds_nothing(
    a: Seq<char>,
    r: Seq<char>,
    b: Seq<char>,
    stop: Seq<Seq<char>>,
    m: Map<u32, char>,
)
    requires
        stop.contains(r),
        is_letter_run(r),
        a.len() == 0 || !in_window(a.last()),
        b.len() == 0 || !in_window(b[0]),
    ensures
        tokens(a + r + b, stop, m) == tokens(a + seq![' '] + b, stop, m),
{
    let sp = seq![' '];
    assert(!in_window(' '));
    assert(sp.drop_last() =~= Seq::<char>::empty());
    assert(sp.last() == ' ');
    assert(words(sp.drop_last()) =~= Seq::<Seq<char>>::empty());
    assert(words(sp) == words(sp.drop_last()));
    lemma_words_of_run(r);
    lemma_words_concat(a, r);
    assert((a + r).last() == r.last());
    lemma_words_concat(a + r, b);
    lemma_words_concat(a, sp);
    assert((a + sp).last() == ' ');
    lemma_words_concat(a + sp, b);
    let wa = words(a);
    let wb = words(b);
    assert(words(a + r + b) == wa + seq![r] + wb);
    assert(words(a + sp + b) =~= wa + wb);
    lemma_kept_concat(wa + seq![r], wb, stop, m);
    lemma_kept_concat(wa, seq![r], stop, m);
    lemma_kept_concat(wa, wb, stop, m);
    let one = seq![r];
    assert(one.drop_last() =~= Seq::<Seq<char>>::empty());
    assert(one.last() == r);
    assert(kept(one.drop_last(), stop, m) =~= Seq::<Seq<char>>::empty());
    assert(kept(one, stop, m) == kept(one.drop_last(), stop, m));
    assert(kept(wa + one, stop, m) =~= kept(wa, stop, m));
}

} // verus!

use crate::charmap::{covers, CharMap};
use crate::text::{chars_of, slice_chars, string_of};
use crate::tokenizer::str_views;
use vstd::prelude::*;

verus! {

/// The shortest stem, in characters, that prefix or suffix removal may leave.
pub const MINIMUM_STEM_LENGTH: usize = 3;

/// The radical form of `w`: each character replaced by its entry in `m`.
pub open spec fn radical_form(w: Seq<char>, m: Map<u32, char>) -> Seq<char> {
    w.map_values(|c: char| m[c as u32])
}

/// The positions as integers.
pub open spec fn ints(v: Seq<usize>) -> Seq<int> {
    v.map_values(|x: usize| x as int)
}

/// The positions marked by a scan of `r` from position `i`: where the two
/// characters at `i` repeat at once, both are marked and the scan goes on two
/// further; elsewhere it goes on one further.
pub open spec fn pair_marks(r: Seq<char>, i: int) -> Seq<int>
    decreases r.len() - i,
{
    if i < 0 || i + 4 > r.len() {
        seq![]
    } else if r[i] == r[i + 2] && r[i + 1] == r[i + 3] {
        seq![i, i + 1] + pair_marks(r, i + 2)
    } else {
        pair_marks(r, i + 1)
    }
}

/// The positions `i < n` whose character equals the next one.
pub open spec fn single_marks(r: Seq<char>, n: int) -> Seq<int>
    decreases n,
{
    if n <= 0 {
        seq![]
    } else if r[n - 1] == r[n] {
        single_marks(r, n - 1).push(n - 1)
    } else {
        single_marks(r, n - 1)
    }
}

/// `w` without the characters at the marked positions, in order.
pub open spec fn drop_marked(w: Seq<char>, marks: Seq<int>) -> Seq<char>
    decreases w.len(),
{
    if w.len() == 0 {
        seq![]
    } else {
        let prev = drop_marked(w.drop_last(), marks);
        if marks.contains(w.len() - 1) {
            prev
        } else {
            prev.push(w.last())
        }
    }
}

/// Stage one: removal of a two-letter run that the radical form repeats.
pub open spec fn dedup_double(w: Seq<char>, m: Map<u32, char>) -> Seq<char> {
    drop_marked(w, pair_marks(radical_form(w, m), 0))
}

/// Last stage: removal of a letter whose radical the next letter repeats.
pub open spec fn dedup_single(w: Seq<char>, m: Map<u32, char>) -> Seq<char> {
    drop_marked(w, single_marks(radical_form(w, m), w.len() - 1))
}

/// `w` begins with `p`.
pub open spec fn is_prefix(p: Seq<char>, w: Seq<char>) -> bool {
    p.len() <= w.len() && w.subrange(0, p.len() as int) == p
}

/// `w` ends with `s`.
pub open spec fn is_suffix(s: Seq<char>, w: Seq<char>) -> bool {
    s.len() <= w.len() && w.subrange(w.len() - s.len(), w.len() as int) == s
}

/// `w` begins with `q.0` and ends with `q.1`, the two apart.
pub open spec fn pair_fits(q: (Seq<char>, Seq<char>), w: Seq<char>) -> bool {
    q.0.len() + q.1.len() <= w.len() && is_prefix(q.0, w) && is_suffix(q.1, w)
}

/// The views of a list of prefix-suffix pairs.
pub open spec fn pair_views(v: Seq<(String, String)>) -> Seq<(Seq<char>, Seq<char>)> {
    v.map_values(|q: (String, String)| (q.0@, q.1@))
}

/// Stage two, from pair `k` on: the first pair that fits loses both its ends.
pub open spec fn strip_pair(w: Seq<char>, pairs: Seq<(Seq<char>, Seq<char>)>, k: nat) -> Seq<
    char,
>
    decreases pairs.len() - k,
{
    if k >= pairs.len() {
        w
    } else if pair_fits(pairs[k as int], w) {
        w.subrange(pairs[k as int].0.len() as int, w.len() - pairs[k as int].1.len())
    } else {
        strip_pair(w, pairs, k + 1)
    }
}

/// Stage three, from prefix `k` on: the first prefix that `w` begins with goes,
/// where enough is left; else `w` stays as it is.
pub open spec fn strip_prefix(w: Seq<char>, pre: Seq<Seq<char>>, k: nat) -> Seq<char>
    decreases pre.len() - k,
{
    if k >= pre.len() {
        w
    } else if is_prefix(pre[k as int], w) {
        let stem = w.subrange(pre[k as int].len() as int, w.len() as int);
        if stem.len() >= MINIMUM_STEM_LENGTH {
            stem
        } else {
            w
        }
    } else {
        strip_prefix(w, pre, k + 1)
    }
}

/// Stage four, from suffix `k` on: the first suffix that `w` ends with goes,
/// where enough is left; else `w` stays as it is.
pub open spec fn strip_suffix(w: Seq<char>, suf: Seq<Seq<char>>, k: nat) -> Seq<char>
    decreases suf.len() - k,
{
    if k >= suf.len() {
        w
    } else if is_suffix(suf[k as int], w) {
        let stem = w.subrange(0, w.len() - suf[k as int].len());
        if stem.len() >= MINIMUM_STEM_LENGTH {
            stem
        } else {
            w
        }
    } else {
        strip_suffix(w, suf, k + 1)
    }
}

/// The stem of `w`: the five stages, each on what the one before left.
pub open spec fn stemmed(
    w: Seq<char>,
    pairs: Seq<(Seq<char>, Seq<char>)>,
    pre: Seq<Seq<char>>,
    suf: Seq<Seq<char>>,
    m: Map<u32, char>,
) -> Seq<char> {
    let a = dedup_double(w, m);
    let b = strip_pair(a, pairs, 0);
    let c = strip_prefix(b, pre, 0);
    let d = strip_suffix(c, suf, 0);
    dedup_single(d, m)
}

/// The number of characters of `word`.
pub fn count_radicals(word: &Vec<char>) -> (r: usize)
    ensures
        r == word@.len(),
{
    word.len()
}

/// The radical form of `word`.
pub fn radical(word: &Vec<char>, sadis_map: &CharMap) -> (r: Vec<char>)
    requires
        covers(sadis_map@, word@),
    ensures
        r@ == radical_form(word@, sadis_map@),
{
    let mut r: Vec<char> = Vec::new();
    let mut i: usize = 0;
    while i < word.len()
        invariant
            i <= word@.len(),
            covers(sadis_map@, word@),
            r@ == radical_form(word@.take(i as int), sadis_map@),
        decreases word@.len() - i,
    {
        let c = sadis_map.image(word[i]);
        assert(sadis_map@.contains_key(word@[i as int] as u32));
        r.push(c);
        i = i + 1;
        assert(r@ =~= radical_form(word@.take(i as int), sadis_map@));
    }
    assert(word@.take(word@.len() as int) =~= word@);
    r
}

/// The positions that a scan for repeated two-letter runs marks in `s`.
pub fn find_duplicate_pairs(s: &Vec<char>) -> (r: Vec<usize>)
    ensures
        ints(r@) == pair_marks(s@, 0),
{
    let mut indices: Vec<usize> = Vec::new();
    let mut i: usize = 0;
    while i <= s.len() && s.len() - i >= 4
        invariant
            i <= s@.len(),
            ints(indices@) + pair_marks(s@, i as int) == pair_marks(s@, 0),
        decreases s@.len() - i,
    {
        if s[i] == s[i + 2] && s[i + 1] == s[i + 3] {
            let ghost before = ints(indices@);
            indices.push(i);
            indices.push(i + 1);
            assert(ints(indices@) =~= before + seq![i as int, i + 1]);
            assert(before + pair_marks(s@, i as int) =~= ints(indices@) + pair_marks(
                s@,
                i + 2,
            ));
            i = i + 2;
        } else {
            i = i + 1;
        }
    }
    assert(ints(indices@) + pair_marks(s@, i as int) =~= ints(indices@));
    indices
}

/// Whether `i` stands in `indexes`.
fn listed(indexes: &[usize], i: usize) -> (r: bool)
    ensures
        r == ints(indexes@).contains(i as int),
{
    let mut j: usize = 0;
    while j < indexes.len()
        invariant
            j <= indexes@.len(),
            forall|k: int| 0 <= k < j ==> indexes@[k] != i,
        decreases indexes@.len() - j,
    {
        if indexes[j] == i {
            assert(ints(indexes@)[j as int] == i as int);
            return true;
        }
        j = j + 1;
    }
    assert forall|k: int| 0 <= k < ints(indexes@).len() implies ints(indexes@)[k] != i as int by {
        assert(ints(indexes@)[k] == indexes@[k] as int);
    }
    false
}

/// `s` without the characters at the positions in `indexes`.
pub fn remove_at_indexes(s: &Vec<char>, indexes: &[usize]) -> (r: Vec<char>)
    ensures
        r@ == drop_marked(s@, ints(indexes@)),
{
    let mut r: Vec<char> = Vec::new();
    let mut i: usize = 0;
    while i < s.len()
        invariant
            i <= s@.len(),
            r@ == drop_marked(s@.take(i as int), ints(indexes@)),
        decreases s@.len() - i,
    {
        assert(s@.take(i + 1).drop_last() =~= s@.take(i as int));
        if !listed(indexes, i) {
            r.push(s[i]);
        }
        i = i + 1;
    }
    assert(s@.take(s@.len() as int) =~= s@);
    r
}

/// Stage one: removes the first two letters of each two-letter run that the
/// radical form repeats at once ("ገልጠምጠም" becomes "ገልጠም").
pub fn deduplicate_double_letter(word: &Vec<char>, sadis_map: &CharMap) -> (r: Vec<char>)
    requires
        covers(sadis_map@, word@),
    ensures
        r@ == dedup_double(word@, sadis_map@),
{
    let radical = radical(word, sadis_map);
    let indices = find_duplicate_pairs(&radical);
    remove_at_indexes(word, indices.as_slice())
}

/// Last stage: removes each letter whose radical the next letter repeats.
pub fn deduplicate_single_letter(word: &Vec<char>, sadis_map: &CharMap) -> (r: Vec<char>)
    requires
        covers(sadis_map@, word@),
    ensures
        r@ == dedup_single(word@, sadis_map@),
{
    let chars = radical(word, sadis_map);
    let mut indexes: Vec<usize> = Vec::new();
    let mut i: usize = 0;
    while chars.len() > 0 && i < chars.len() - 1
        invariant
            chars@ == radical_form(word@, sadis_map@),
            chars@.len() == 0 ==> i == 0,
            chars@.len() > 0 ==> i <= chars@.len() - 1,
            ints(indexes@) == single_marks(chars@, i as int),
        decreases chars@.len() - i,
    {
        if chars[i] == chars[i + 1] {
            indexes.push(i);
            assert(ints(indexes@) =~= single_marks(chars@, i as int).push(i as int));
        }
        i = i + 1;
    }
    assert(ints(indexes@) == single_marks(chars@, word@.len() - 1));
    remove_at_indexes(word, indexes.as_slice())
}

/// Whether `w` begins with `p`.
fn has_prefix(w: &Vec<char>, p: &Vec<char>) -> (r: bool)
    ensures
        r == is_prefix(p@, w@),
{
    if p.len() > w.len() {
        return false;
    }
    let mut i: usize = 0;
    while i < p.len()
        invariant
            p@.len() <= w@.len(),
            i <= p@.len(),
            forall|j: int| 0 <= j < i ==> w@[j] == p@[j],
        decreases p@.len() - i,
    {
        if w[i] != p[i] {
            assert(w@.subrange(0, p@.len() as int)[i as int] != p@[i as int]);
            return false;
        }
        i = i + 1;
    }
    assert(w@.subrange(0, p@.len() as int) =~= p@);
    true
}

/// Whether `w` ends with `s`.
fn has_suffix(w: &Vec<char>, s: &Vec<char>) -> (r: bool)
    ensures
        r == is_suffix(s@, w@),
{
    if s.len() > w.len() {
        return false;
    }
    let n: usize = w.len();
    let d: usize = n - s.len();
    let mut i: usize = 0;
    while i < s.len()
        invariant
            n == w@.len(),
            d + s@.len() == n,
            i <= s@.len(),
            forall|j: int| 0 <= j < i ==> w@[d + j] == s@[j],
        decreases s@.len() - i,
    {
        if w[d + i] != s[i] {
            assert(w@.subrange(d as int, w@.len() as int)[i as int] != s@[i as int]);
            return false;
        }
        i = i + 1;
    }
    assert(w@.subrange(d as int, w@.len() as int) =~= s@);
    true
}

/// Stage two: removes both ends of the first pair in `prefix_suffix_pair_list`
/// that `word` begins and ends with, the two apart; with no such pair, `word`
/// stays as it is. No minimum length applies here.
pub fn rm_prefix_suffix_pair(word: Vec<char>, prefix_suffix_pair_list: &Vec<(String, String)>) -> (r:
    Vec<char>)
    ensures
        r@ == strip_pair(word@, pair_views(prefix_suffix_pair_list@), 0),
{
    let ghost pairs = pair_views(prefix_suffix_pair_list@);
    let mut k: usize = 0;
    while k < prefix_suffix_pair_list.len()
        invariant
            k <= prefix_suffix_pair_list@.len(),
            pairs == pair_views(prefix_suffix_pair_list@),
            strip_pair(word@, pairs, k as nat) == strip_pair(word@, pairs, 0),
        decreases prefix_suffix_pair_list@.len() - k,
    {
        let pair = &prefix_suffix_pair_list[k];
        let p = chars_of(pair.0.as_str());
        let s = chars_of(pair.1.as_str());
        assert(pairs[k as int] == (p@, s@));
        if p.len() <= word.len() && s.len() <= word.len() - p.len() && has_prefix(&word, &p)
            && has_suffix(&word, &s) {
            let end = word.len() - s.len();
            return slice_chars(&word, p.len(), end);
        }
        k = k + 1;
    }
    word
}

/// Which end of a word an affix list is about.
#[derive(Copy, Clone)]
pub enum AffixType {
    Prefix,
    Suffix,
}

/// Stages three and four: removes from `word` the first affix of `affix_list`
/// that it begins with (for prefixes) or ends with (for suffixes), where at
/// least `MINIMUM_STEM_LENGTH` characters are left; where fewer would be
/// left, `word` stays as it is and no later affix is tried.
pub fn rm_affix(word: Vec<char>, affix_list: &Vec<String>, affix_type: AffixType) -> (r: Vec<char>)
    ensures
        affix_type is Prefix ==> r@ == strip_prefix(word@, str_views(affix_list@), 0),
        affix_type is Suffix ==> r@ == strip_suffix(word@, str_views(affix_list@), 0),
{
    let ghost list = str_views(affix_list@);
    let mut k: usize = 0;
    while k < affix_list.len()
        invariant
            k <= affix_list@.len(),
            list == str_views(affix_list@),
            affix_type is Prefix ==> strip_prefix(word@, list, k as nat) == strip_prefix(
                word@,
                list,
                0,
            ),
            affix_type is Suffix ==> strip_suffix(word@, list, k as nat) == strip_suffix(
                word@,
                list,
                0,
            ),
        decreases affix_list@.len() - k,
    {
        let a = chars_of(affix_list[k].as_str());
        assert(list[k as int] == a@);
        match affix_type {
            AffixType::Prefix => {
                if has_prefix(&word, &a) {
                    let stem = slice_chars(&word, a.len(), word.len());
                    if count_radicals(&stem) >= MINIMUM_STEM_LENGTH {
                        return stem;
                    }
                    return word;
                }
            },
            AffixType::Suffix => {
                if has_suffix(&word, &a) {
                    let stem = slice_chars(&word, 0, word.len() - a.len());
                    if count_radicals(&stem) >= MINIMUM_STEM_LENGTH {
                        return stem;
                    }
                    return word;
                }
            },
        }
        k = k + 1;
    }
    word
}

/// `a` is `b` with some characters left out, the others in order.
pub open spec fn is_subseq(a: Seq<char>, b: Seq<char>) -> bool
    decreases b.len(),
{
    if a.len() == 0 {
        true
    } else if b.len() == 0 {
        false
    } else {
        (a.last() == b.last() && is_subseq(a.drop_last(), b.drop_last())) || is_subseq(
            a,
            b.drop_last(),
        )
    }
}

/// Removing marked characters leaves a subsequence of the word, keeps it
/// within the table, and never makes it longer.
pub proof fn lemma_drop_marked(w: Seq<char>, marks: Seq<int>, m: Map<u32, char>)
    ensures
        drop_marked(w, marks).len() <= w.len(),
        is_subseq(drop_marked(w, marks), w),
        covers(m, w) ==> covers(m, drop_marked(w, marks)),
    decreases w.len(),
{
    if w.len() > 0 {
        lemma_drop_marked(w.drop_last(), marks, m);
        let prev = drop_marked(w.drop_last(), marks);
        if marks.contains(w.len() - 1) {
            assert(drop_marked(w, marks) == prev);
            if prev.len() > 0 {
                assert(is_subseq(prev, w.drop_last()));
            }
        } else {
            let r = prev.push(w.last());
            assert(drop_marked(w, marks) == r);
            assert(r.drop_last() =~= prev);
            assert(r.last() == w.last());
        }
        if covers(m, w) {
            assert(covers(m, w.drop_last()));
            let prev = drop_marked(w.drop_last(), marks);
            assert forall|i: int| 0 <= i < prev.push(w.last()).len() implies m.contains_key(
                (#[trigger] prev.push(w.last())[i]) as u32,
            ) by {
                if i < prev.len() {
                    assert(prev.push(w.last())[i] == prev[i]);
                }
            }
        }
    }
}

proof fn lemma_subrange_covers(w: Seq<char>, a: int, b: int, m: Map<u32, char>)
    requires
        0 <= a <= b <= w.len(),
        covers(m, w),
    ensures
        covers(m, w.subrange(a, b)),
{
    assert forall|i: int| 0 <= i < w.subrange(a, b).len() implies m.contains_key(
        (#[trigger] w.subrange(a, b)[i]) as u32,
    ) by {
        assert(w.subrange(a, b)[i] == w[a + i]);
    }
}

proof fn lemma_strip_pair_covers(
    w: Seq<char>,
    pairs: Seq<(Seq<char>, Seq<char>)>,
    k: nat,
    m: Map<u32, char>,
)
    requires
        covers(m, w),
    ensures
        covers(m, strip_pair(w, pairs, k)),
    decreases pairs.len() - k,
{
    if k < pairs.len() {
        if pair_fits(pairs[k as int], w) {
            lemma_subrange_covers(
                w,
                pairs[k as int].0.len() as int,
                w.len() - pairs[k as int].1.len(),
                m,
            );
        } else {
            lemma_strip_pair_covers(w, pairs, k + 1, m);
        }
    }
}

proof fn lemma_strip_prefix_covers(w: Seq<char>, pre: Seq<Seq<char>>, k: nat, m: Map<u32, char>)
    requires
        covers(m, w),
    ensures
        covers(m, strip_prefix(w, pre, k)),
    decreases pre.len() - k,
{
    if k < pre.len() {
        if is_prefix(pre[k as int], w) {
            lemma_subrange_covers(w, pre[k as int].len() as int, w.len() as int, m);
        } else {
            lemma_strip_prefix_covers(w, pre, k + 1, m);
        }
    }
}

proof fn lemma_strip_suffix_covers(w: Seq<char>, suf: Seq<Seq<char>>, k: nat, m: Map<u32, char>)
    requires
        covers(m, w),
    ensures
        covers(m, strip_suffix(w, suf, k)),
    decreases suf.len() - k,
{
    if k < suf.len() {
        if is_suffix(suf[k as int], w) {
            lemma_subrange_covers(w, 0, w.len() - suf[k as int].len(), m);
        } else {
            lemma_strip_suffix_covers(w, suf, k + 1, m);
        }
    }
}

/// The stem of the characters `w`; see `stem_word`.
pub(crate) fn stem_chars(
    w: &Vec<char>,
    prefix_suffix_pair_list: &Vec<(String, String)>,
    prefix_list: &Vec<String>,
    suffix_list: &Vec<String>,
    sadis_map: &CharMap,
) -> (r: Vec<char>)
    requires
        covers(sadis_map@, w@),
    ensures
        r@ == stemmed(
            w@,
            pair_views(prefix_suffix_pair_list@),
            str_views(prefix_list@),
            str_views(suffix_list@),
            sadis_map@,
        ),
{
    let double_deduplicated = deduplicate_double_letter(w, sadis_map);
    proof {
        lemma_drop_marked(w@, pair_marks(radical_form(w@, sadis_map@), 0), sadis_map@);
    }
    let pref_suf_pair_rmvd = rm_prefix_suffix_pair(double_deduplicated, prefix_suffix_pair_list);
    proof {
        lemma_strip_pair_covers(
            dedup_double(w@, sadis_map@),
            pair_views(prefix_suffix_pair_list@),
            0,
            sadis_map@,
        );
    }
    let ghost b = pref_suf_pair_rmvd@;
    let pref_rmvd = rm_affix(pref_suf_pair_rmvd, prefix_list, AffixType::Prefix);
    proof {
        lemma_strip_prefix_covers(b, str_views(prefix_list@), 0, sadis_map@);
    }
    let ghost c = pref_rmvd@;
    let suf_rmvd = rm_affix(pref_rmvd, suffix_list, AffixType::Suffix);
    proof {
        lemma_strip_suffix_covers(c, str_views(suffix_list@), 0, sadis_map@);
    }
    deduplicate_single_letter(&suf_rmvd, sadis_map)
}

/// The stem of `word`: removal of a repeated two-letter run, of the first
/// fitting prefix-suffix pair, of the first matching prefix and of the first
/// matching suffix (each of these two only where `MINIMUM_STEM_LENGTH`
/// characters are left), and of doubled single letters, in that order.
///
/// Every character of `word` must have an entry in `sadis_map`.
pub fn stem_word(
    word: &str,
    prefix_suffix_pair_list: Vec<(String, String)>,
    prefix_list: Vec<String>,
    suffix_list: Vec<String>,
    sadis_map: &CharMap,
) -> (r: String)
    requires
        covers(sadis_map@, word@),
    ensures
        r@ == stemmed(
            word@,
            pair_views(prefix_suffix_pair_list@),
            str_views(prefix_list@),
            str_views(suffix_list@),
            sadis_map@,
        ),
{
    let w = chars_of(word);
    let stem = stem_chars(&w, &prefix_suffix_pair_list, &prefix_list, &suffix_list, sadis_map);
    string_of(&stem)
}

} // verus!

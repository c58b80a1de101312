use crate::charmap::CharMap;
use crate::stemmer::pair_views;
use crate::text::{chars_of, string_of};
use crate::tokenizer::{str_views, WINDOW_END, WINDOW_START};
use std::collections::HashMap;
use vstd::prelude::*;
use vstd::string::StringExecFns;

verus! {

#[verifier::external_type_specification]
#[verifier::external_body]
pub struct ExJsonError(serde_json::Error);

/// What goes wrong while the tables are built.
#[derive(Debug)]
pub enum StemmerError {
    /// A table could not be read or parsed.
    ResourceError(String),
    /// The text handed in cannot be used.
    InputError(String),
}

/// The tables that stemming reads, built once and then only shared.
pub struct StemmerConfig {
    pub prefix_suffix_pair_list: Vec<(String, String)>,
    pub suffix_list: Vec<String>,
    pub prefix_list: Vec<String>,
    pub stopwords: Vec<String>,
    pub homophones_map: CharMap,
    pub sadis_map: CharMap,
}

/// `c` has the Unicode White_Space property, which `char::is_whitespace`
/// tests.
pub open spec fn is_white_space(c: char) -> bool {
    let u = c as u32;
    (0x9 <= u <= 0xD) || u == 0x20 || u == 0x85 || u == 0xA0 || u == 0x1680 || (0x2000 <= u
        <= 0x200A) || u == 0x2028 || u == 0x2029 || u == 0x202F || u == 0x205F || u == 0x3000
}

/// `s` without its leading white space.
pub open spec fn trimmed_start(s: Seq<char>) -> Seq<char>
    decreases s.len(),
{
    if s.len() > 0 && is_white_space(s[0]) {
        trimmed_start(s.drop_first())
    } else {
        s
    }
}

/// `s` without its trailing white space.
pub open spec fn trimmed_end(s: Seq<char>) -> Seq<char>
    decreases s.len(),
{
    if s.len() > 0 && is_white_space(s.last()) {
        trimmed_end(s.drop_last())
    } else {
        s
    }
}

/// `s` without its leading and trailing white space.
pub open spec fn trimmed(s: Seq<char>) -> Seq<char> {
    trimmed_end(trimmed_start(s))
}

/// The table that a JSON object of one-letter keys and values describes, keyed
/// by code point; none where `s` is no such object.
pub uninterp spec fn json_char_map(s: Seq<char>) -> Option<Map<u32, char>>;

/// The pairs that a JSON array of two-string arrays describes; none where `s`
/// is no such array.
pub uninterp spec fn json_pairs(s: Seq<char>) -> Option<Seq<(Seq<char>, Seq<char>)>>;

/// Relies on `str::trim`: `s` without its leading and trailing characters of
/// the Unicode White_Space property.
#[verifier::external_body]
fn trim_entry(s: &str) -> (r: &str)
    ensures
        r@ == trimmed(s@),
{
    s.trim()
}

/// Relies on `serde_json::from_str` into a `HashMap<char, char>`, keys turned
/// into code points.
#[verifier::external_body]
fn parse_char_map(text: &str) -> (r: Result<HashMap<u32, char>, serde_json::Error>)
    ensures
        match r {
            Ok(t) => json_char_map(text@) == Some(t@),
            Err(_) => json_char_map(text@) is None,
        },
{
    serde_json::from_str::<HashMap<char, char>>(text).map(
        |m| m.into_iter().map(|(k, v)| (k as u32, v)).collect(),
    )
}

/// Relies on `serde_json::from_str` into a `Vec<(String, String)>`.
#[verifier::external_body]
fn parse_pair_list(text: &str) -> (r: Result<Vec<(String, String)>, serde_json::Error>)
    ensures
        match r {
            Ok(v) => json_pairs(text@) == Some(pair_views(v@)),
            Err(_) => json_pairs(text@) is None,
        },
{
    serde_json::from_str::<Vec<(String, String)>>(text)
}

/// The pieces of `s` between commas, empty ones included.
pub open spec fn pieces(s: Seq<char>) -> Seq<Seq<char>>
    decreases s.len(),
{
    if s.len() == 0 {
        seq![seq![]]
    } else {
        let prev = pieces(s.drop_last());
        if s.last() == ',' {
            prev.push(seq![])
        } else {
            prev.update(prev.len() - 1, prev.last().push(s.last()))
        }
    }
}

/// The non-empty pieces, each trimmed.
pub open spec fn entries_of(ps: Seq<Seq<char>>) -> Seq<Seq<char>>
    decreases ps.len(),
{
    if ps.len() == 0 {
        seq![]
    } else {
        let prev = entries_of(ps.drop_last());
        if ps.last().len() == 0 {
            prev
        } else {
            prev.push(trimmed(ps.last()))
        }
    }
}

/// The entries of a comma-separated list.
pub open spec fn csv_entries(s: Seq<char>) -> Seq<Seq<char>> {
    entries_of(pieces(s))
}

proof fn lemma_pieces_nonempty(s: Seq<char>)
    ensures
        pieces(s).len() > 0,
    decreases s.len(),
{
    if s.len() > 0 {
        lemma_pieces_nonempty(s.drop_last());
    }
}

/// The entries of the comma-separated list `text`: the pieces between commas,
/// with the empty ones dropped and the others trimmed.
pub fn parse_list(text: &str) -> (r: Vec<String>)
    ensures
        str_views(r@) == csv_entries(text@),
{
    let s = chars_of(text);
    let mut out: Vec<String> = Vec::new();
    let mut cur: Vec<char> = Vec::new();
    let ghost done: Seq<Seq<char>> = seq![];
    let mut i: usize = 0;
    while i < s.len()
        invariant
            i <= s@.len(),
            s@ == text@,
            pieces(s@.take(i as int)) == done.push(cur@),
            str_views(out@) == entries_of(done),
        decreases s@.len() - i,
    {
        let c = s[i];
        let ghost prev = s@.take(i as int);
        proof {
            assert(s@.take(i + 1).drop_last() =~= prev);
            assert(s@.take(i + 1).last() == c);
            lemma_pieces_nonempty(prev);
        }
        if c == ',' {
            let ghost before = done;
            if cur.len() > 0 {
                let piece = string_of(&cur);
                let entry = trim_entry(piece.as_str());
                out.push(entry.to_owned());
                assert(done.push(cur@).drop_last() =~= done);
                assert(str_views(out@) =~= entries_of(done.push(cur@)));
            } else {
                assert(done.push(cur@).drop_last() =~= done);
            }
            proof {
                done = before.push(cur@);
            }
            cur = Vec::new();
            assert(pieces(s@.take(i + 1)) =~= done.push(cur@));
        } else {
            cur.push(c);
            assert(pieces(s@.take(i + 1)) =~= done.push(cur@));
        }
        i = i + 1;
    }
    if cur.len() > 0 {
        let piece = string_of(&cur);
        let entry = trim_entry(piece.as_str());
        out.push(entry.to_owned());
    }
    assert(done.push(cur@).drop_last() =~= done);
    assert(s@.take(s@.len() as int) =~= s@);
    assert(str_views(out@) =~= entries_of(done.push(cur@)));
    out
}

/// The table has an entry for every code point of the script window.
pub open spec fn covers_window(m: Map<u32, char>) -> bool {
    forall|k: u32| WINDOW_START <= k <= WINDOW_END ==> #[trigger] m.contains_key(k)
}

/// Whether `m` has an entry for every code point of the script window.
pub fn window_covered(m: &CharMap) -> (r: bool)
    ensures
        r == covers_window(m@),
{
    let mut k: u32 = WINDOW_START;
    while k <= WINDOW_END
        invariant
            WINDOW_START <= k <= WINDOW_END + 1,
            forall|j: u32| WINDOW_START <= j < k ==> #[trigger] m@.contains_key(j),
        decreases WINDOW_END + 1 - k,
    {
        if !m.contains_code(k) {
            return false;
        }
        k = k + 1;
    }
    true
}

/// Builds the tables from the text of their resources: the prefix-suffix pairs
/// as a JSON array of two-string arrays, the suffix, prefix and stopword lists
/// as comma-separated lists, and the homophone and radical tables as JSON
/// objects from letter to letter.
///
/// Fails with a resource error exactly where one of the three JSON texts does
/// not parse, or where the radical table lacks a letter of the script window.
pub fn load_config(
    pfx_sfx_json: &str,
    suffix_csv: &str,
    prefix_csv: &str,
    stopwords_csv: &str,
    homophones_json: &str,
    sadis_json: &str,
) -> (r: Result<StemmerConfig, StemmerError>)
    ensures
        r is Ok <==> json_pairs(pfx_sfx_json@) is Some && json_char_map(homophones_json@) is Some
            && json_char_map(sadis_json@) is Some && covers_window(
            json_char_map(sadis_json@)->Some_0,
        ),
        r matches Err(e) ==> e is ResourceError,
        r matches Ok(c) ==> {
            &&& Some(pair_views(c.prefix_suffix_pair_list@)) == json_pairs(pfx_sfx_json@)
            &&& str_views(c.suffix_list@) == csv_entries(suffix_csv@)
            &&& str_views(c.prefix_list@) == csv_entries(prefix_csv@)
            &&& str_views(c.stopwords@) == csv_entries(stopwords_csv@)
            &&& Some(c.homophones_map@) == json_char_map(homophones_json@)
            &&& Some(c.sadis_map@) == json_char_map(sadis_json@)
            &&& covers_window(c.sadis_map@)
        },
{
    let prefix_suffix_pair_list = match parse_pair_list(pfx_sfx_json) {
        Ok(v) => v,
        Err(e) => {
            return Err(StemmerError::ResourceError(e.to_string()));
        },
    };
    let suffix_list = parse_list(suffix_csv);
    let prefix_list = parse_list(prefix_csv);
    let stopwords = parse_list(stopwords_csv);
    let homophones_map = match parse_char_map(homophones_json) {
        Ok(t) => CharMap::from_table(t),
        Err(e) => {
            return Err(StemmerError::ResourceError(e.to_string()));
        },
    };
    let sadis_map = match parse_char_map(sadis_json) {
        Ok(t) => CharMap::from_table(t),
        Err(e) => {
            return Err(StemmerError::ResourceError(e.to_string()));
        },
    };
    if !window_covered(&sadis_map) {
        return Err(
            StemmerError::ResourceError(
                String::from_str("the radical table lacks a letter of the script window"),
            ),
        );
    }
    Ok(
        StemmerConfig {
            prefix_suffix_pair_list,
            suffix_list,
            prefix_list,
            stopwords,
            homophones_map,
            sadis_map,
        },
    )
}

} // verus!

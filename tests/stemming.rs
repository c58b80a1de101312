use tigrigna_stemmer::{
    count_radicals, deduplicate_double_letter, deduplicate_single_letter, find_duplicate_pairs,
    load_config, parse_list, radical, remove_at_indexes, rm_affix, rm_prefix_suffix_pair,
    stem_text, stem_word, tokenize, AffixType, CharMap, StemmerConfig, StemmerError,
};

fn chars(s: &str) -> Vec<char> {
    s.chars().collect()
}

fn text(v: &[char]) -> String {
    v.iter().collect()
}

fn strings(v: &[&str]) -> Vec<String> {
    v.iter().map(|s| s.to_string()).collect()
}

fn table(pairs: &[(char, char)]) -> CharMap {
    let mut m = CharMap::new();
    for (a, b) in pairs {
        m.insert(*a, *b);
    }
    m
}

/// A radical table that maps each letter of `letters` onto itself, then the
/// given pairs.
fn radicals(letters: &str, pairs: &[(char, char)]) -> CharMap {
    let mut m = CharMap::new();
    for c in letters.chars() {
        m.insert(c, c);
    }
    for (a, b) in pairs {
        m.insert(*a, *b);
    }
    m
}

fn sample_radicals() -> CharMap {
    radicals(
        "ገልጠምግጥሰላዓለመጀርያቤትናብከ",
        &[('ገ', 'ግ'), ('ጠ', 'ጥ'), ('ሰ', 'ስ'), ('ላ', 'ል'), ('ዓ', 'ዕ'), ('መ', 'ም'), ('ጀ', 'ጅ'), ('ያ', 'ይ'), ('ቤ', 'ብ'), ('ና', 'ን'), ('ከ', 'ክ')],
    )
}

#[test]
fn tokenize_splits_on_non_script_characters() {
    let r = tokenize("ሰላም123abc ዓለም!", &[], &CharMap::new());
    assert_eq!(r, strings(&["ሰላም", "ዓለም"]));
}

#[test]
fn tokenize_empty_text_gives_no_tokens() {
    assert!(tokenize("", &[], &CharMap::new()).is_empty());
    assert!(tokenize("  12, ab. ", &[], &CharMap::new()).is_empty());
}

#[test]
fn tokenize_keeps_order_and_repeats() {
    let r = tokenize("ቤት ሰላም ቤት", &[], &CharMap::new());
    assert_eq!(r, strings(&["ቤት", "ሰላም", "ቤት"]));
}

#[test]
fn tokenize_drops_stopwords_anywhere() {
    let stop = strings(&["ናብ"]);
    let r = tokenize("ናብ ቤት ናብ ሰላም ናብ", &stop, &CharMap::new());
    assert_eq!(r, strings(&["ቤት", "ሰላም"]));
    assert!(!r.contains(&"ናብ".to_string()));
}

#[test]
fn tokenize_normalizes_homophones() {
    let m = table(&[('ሐ', 'ሀ'), ('ሠ', 'ሰ')]);
    let r = tokenize("ሐሠ, ሀሰ", &[], &m);
    assert_eq!(r, strings(&["ሀሰ", "ሀሰ"]));
}

#[test]
fn tokenize_checks_stopwords_before_and_after_normalizing() {
    let m = table(&[('ሐ', 'ሀ')]);
    let stop = strings(&["ሐለ"]);
    let r = tokenize("ሐለ ሀለ", &stop, &m);
    assert_eq!(r, strings(&["ሀለ"]));
    let m = table(&[('ሠ', 'ሰ')]);
    let stop = strings(&["ሰላም"]);
    assert!(tokenize("ሠላም", &stop, &m).is_empty());
    assert!(tokenize("ሰላም ሠላም", &stop, &m).is_empty());
}

#[test]
fn tokenize_is_idempotent_on_a_single_token() {
    let m = table(&[('ሐ', 'ሀ')]);
    let once = tokenize("ሐገር", &[], &m);
    assert_eq!(once, strings(&["ሀገር"]));
    let twice = tokenize(&once[0], &[], &m);
    assert_eq!(twice, once);
}

#[test]
fn tokenize_window_edges() {
    let r = tokenize("\u{11FF}\u{1200}\u{135A}\u{135B}", &[], &CharMap::new());
    assert_eq!(r, vec!["\u{1200}\u{135A}".to_string()]);
}

#[test]
fn radical_maps_each_letter() {
    let m = sample_radicals();
    assert_eq!(text(&radical(&chars("ገልጠምጠም"), &m)), "ግልጥምጥም");
}

#[test]
fn find_duplicate_pairs_marks_first_run() {
    assert_eq!(find_duplicate_pairs(&chars("ግልጥምጥም")), vec![2, 3]);
    assert!(find_duplicate_pairs(&chars("ግልጥ")).is_empty());
    assert!(find_duplicate_pairs(&chars("")).is_empty());
}

#[test]
fn find_duplicate_pairs_chains_by_two() {
    assert_eq!(find_duplicate_pairs(&chars("ababab")), vec![0, 1, 2, 3]);
    assert_eq!(find_duplicate_pairs(&chars("aaaaa")), vec![0, 1]);
    assert_eq!(find_duplicate_pairs(&chars("aaaaaa")), vec![0, 1, 2, 3]);
}

#[test]
fn remove_at_indexes_drops_marked_positions() {
    assert_eq!(text(&remove_at_indexes(&chars("abcdef"), &[1, 3, 9])), "acef");
    assert_eq!(text(&remove_at_indexes(&chars("abc"), &[])), "abc");
}

#[test]
fn deduplicate_double_letter_example() {
    let m = sample_radicals();
    assert_eq!(text(&deduplicate_double_letter(&chars("ገልጠምጠም"), &m)), "ገልጠም");
}

#[test]
fn deduplicate_double_letter_without_runs_is_identity() {
    let m = sample_radicals();
    assert_eq!(text(&deduplicate_double_letter(&chars("ሰላም"), &m)), "ሰላም");
    assert_eq!(text(&deduplicate_double_letter(&chars("ገል"), &m)), "ገል");
}

#[test]
fn deduplicate_double_letter_never_lengthens() {
    let m = radicals("ab", &[]);
    for w in ["", "a", "abab", "ababab", "aaaaaa", "abba"] {
        let r = deduplicate_double_letter(&chars(w), &m);
        assert!(r.len() <= w.chars().count());
    }
}

#[test]
fn rm_prefix_suffix_pair_example() {
    let pairs = vec![("መ".to_string(), "ያ".to_string())];
    assert_eq!(text(&rm_prefix_suffix_pair(chars("መጀመርያ"), &pairs)), "ጀመር");
}

#[test]
fn rm_prefix_suffix_pair_applies_first_pair_only() {
    let pairs = vec![
        ("ከ".to_string(), "ና".to_string()),
        ("መ".to_string(), "ያ".to_string()),
        ("ጀ".to_string(), "ር".to_string()),
    ];
    assert_eq!(text(&rm_prefix_suffix_pair(chars("መጀመርያ"), &pairs)), "ጀመር");
}

#[test]
fn rm_prefix_suffix_pair_needs_room_for_both() {
    let pairs = vec![("ab".to_string(), "bc".to_string())];
    assert_eq!(text(&rm_prefix_suffix_pair(chars("abc"), &pairs)), "abc");
    assert_eq!(text(&rm_prefix_suffix_pair(chars("abbc"), &pairs)), "");
    assert_eq!(text(&rm_prefix_suffix_pair(chars("abxbc"), &pairs)), "x");
}

#[test]
fn rm_affix_prefix() {
    let list = strings(&["ዝ", "ብ"]);
    assert_eq!(text(&rm_affix(chars("ብሰላም"), &list, AffixType::Prefix)), "ሰላም");
    assert_eq!(text(&rm_affix(chars("ሰላም"), &list, AffixType::Prefix)), "ሰላም");
}

#[test]
fn rm_affix_prefix_too_short_keeps_word() {
    let list = strings(&["ብ", "ብሰ"]);
    assert_eq!(text(&rm_affix(chars("ብሰላም"), &list, AffixType::Prefix)), "ሰላም");
    let list = strings(&["ብሰ", "ብ"]);
    assert_eq!(text(&rm_affix(chars("ብሰላም"), &list, AffixType::Prefix)), "ብሰላም");
}

#[test]
fn rm_affix_suffix() {
    let list = strings(&["ና", "ታት"]);
    assert_eq!(text(&rm_affix(chars("ቤታት"), &list, AffixType::Suffix)), "ቤታት");
    assert_eq!(text(&rm_affix(chars("ሰላምታት"), &list, AffixType::Suffix)), "ሰላም");
    assert_eq!(text(&rm_affix(chars("ሰላምና"), &list, AffixType::Suffix)), "ሰላም");
}

#[test]
fn deduplicate_single_letter_drops_earlier_of_equal_radicals() {
    let m = radicals("abc", &[('b', 'a')]);
    assert_eq!(text(&deduplicate_single_letter(&chars("abcc"), &m)), "bc");
    assert_eq!(text(&deduplicate_single_letter(&chars(""), &m)), "");
    assert_eq!(text(&deduplicate_single_letter(&chars("c"), &m)), "c");
}

#[test]
fn count_radicals_counts_characters() {
    assert_eq!(count_radicals(&chars("ሰላም")), 3);
    assert_eq!(count_radicals(&chars("")), 0);
}

#[test]
fn stem_word_reduplicated_example() {
    let m = sample_radicals();
    assert_eq!(stem_word("ገልጠምጠም", vec![], vec![], vec![], &m), "ገልጠም");
}

#[test]
fn stem_word_pair_takes_precedence() {
    let m = sample_radicals();
    let pairs = vec![("መ".to_string(), "ያ".to_string())];
    let prefixes = strings(&["መጀ"]);
    let suffixes = strings(&["ርያ"]);
    assert_eq!(stem_word("መጀመርያ", pairs, prefixes, suffixes, &m), "ጀመር");
}

#[test]
fn stem_word_prefix_then_suffix() {
    let m = sample_radicals();
    let prefixes = strings(&["ብ"]);
    let suffixes = strings(&["ና"]);
    assert_eq!(stem_word("ብሰላምና", vec![], prefixes, suffixes, &m), "ሰላም");
}

#[test]
fn tokenize_and_stem_sentence() {
    let m = sample_radicals();
    let prefixes = strings(&["ብ"]);
    let suffixes = strings(&["ና"]);
    let pairs = vec![("መ".to_string(), "ያ".to_string())];
    let words = tokenize("2024 ብሰላምና, abc ገልጠምጠም;መጀመርያ7", &[], &CharMap::new());
    let out: Vec<String> = words
        .iter()
        .map(|w| stem_word(w, pairs.clone(), prefixes.clone(), suffixes.clone(), &m))
        .collect();
    assert_eq!(out.join(" "), "ሰላም ገልጠም ጀመር");
}

#[test]
fn parse_list_splits_and_trims() {
    assert_eq!(parse_list("ብ, ዝ,,ከ\n"), strings(&["ብ", "ዝ", "ከ"]));
    assert_eq!(parse_list("a, ,"), strings(&["a", ""]));
    assert!(parse_list("").is_empty());
}

/// A radical table in JSON over the whole script window: each letter onto
/// itself, but for the given pairs.
fn window_json(pairs: &[(char, char)]) -> String {
    let entries: Vec<String> = (0x1200u32..=0x135A)
        .filter_map(char::from_u32)
        .map(|c| {
            let d = pairs.iter().find(|p| p.0 == c).map(|p| p.1).unwrap_or(c);
            format!("\"{c}\":\"{d}\"")
        })
        .collect();
    format!("{{{}}}", entries.join(","))
}

fn window_table(pairs: &[(char, char)]) -> CharMap {
    let mut m = CharMap::new();
    for c in (0x1200u32..=0x135A).filter_map(char::from_u32) {
        m.insert(c, c);
    }
    for (a, b) in pairs {
        m.insert(*a, *b);
    }
    m
}

#[test]
fn load_config_builds_tables() {
    let c = load_config(
        "[[\"መ\",\"ያ\"]]",
        "ና,ታት",
        "ብ",
        "ናብ",
        "{\"ሐ\":\"ሀ\"}",
        &window_json(&[('ገ', 'ግ')]),
    )
    .unwrap();
    assert_eq!(c.prefix_suffix_pair_list, vec![("መ".to_string(), "ያ".to_string())]);
    assert_eq!(c.suffix_list, strings(&["ና", "ታት"]));
    assert_eq!(c.prefix_list, strings(&["ብ"]));
    assert_eq!(c.stopwords, strings(&["ናብ"]));
    assert_eq!(c.homophones_map.image('ሐ'), 'ሀ');
    assert_eq!(c.homophones_map.image('ሀ'), 'ሀ');
    assert_eq!(c.sadis_map.image('ገ'), 'ግ');
    assert_eq!(c.sadis_map.image('ል'), 'ል');
    assert!(c.sadis_map.contains('\u{1200}'));
    assert!(c.sadis_map.contains('\u{135A}'));
    assert!(!c.sadis_map.contains('a'));
}

#[test]
fn load_config_rejects_incomplete_radical_table() {
    let r = load_config("[]", "", "", "", "{}", "{\"ገ\":\"ግ\",\"ል\":\"ል\"}");
    assert!(matches!(r, Err(StemmerError::ResourceError(_))));
    let r = load_config("[]", "", "", "", "{}", "{}");
    assert!(matches!(r, Err(StemmerError::ResourceError(_))));
    let full = window_json(&[]);
    let missing_last = full.replace(",\"\u{135A}\":\"\u{135A}\"", "");
    assert!(missing_last.len() < full.len());
    let r = load_config("[]", "", "", "", "{}", &missing_last);
    assert!(matches!(r, Err(StemmerError::ResourceError(_))));
    assert!(load_config("[]", "", "", "", "{}", &full).is_ok());
}

fn sample_config() -> StemmerConfig {
    StemmerConfig {
        prefix_suffix_pair_list: vec![("መ".to_string(), "ያ".to_string())],
        suffix_list: strings(&["ና"]),
        prefix_list: strings(&["ብ"]),
        stopwords: strings(&["ናብ"]),
        homophones_map: table(&[('ሠ', 'ሰ')]),
        sadis_map: window_table(&[('ገ', 'ግ'), ('ጠ', 'ጥ'), ('ሰ', 'ስ'), ('ላ', 'ል')]),
    }
}

#[test]
fn stem_text_joins_stems_with_single_spaces() {
    let c = sample_config();
    let r = stem_text("2024 ብሠላምና, abc ናብ ገልጠምጠም;መጀመርያ7", &c).unwrap();
    assert_eq!(r, "ሰላም ገልጠም ጀመር");
}

#[test]
fn stem_text_empty_input_gives_empty_output() {
    let c = sample_config();
    assert_eq!(stem_text("", &c).unwrap(), "");
    assert_eq!(stem_text("12 ab ናብ", &c).unwrap(), "");
}

#[test]
fn stem_text_rejects_letter_without_radical() {
    let mut c = sample_config();
    c.sadis_map = table(&[('ሰ', 'ስ')]);
    assert!(matches!(stem_text("ሰላም", &c), Err(StemmerError::InputError(_))));
    c.homophones_map = table(&[('ሀ', 'a')]);
    c.sadis_map = window_table(&[]);
    assert!(matches!(stem_text("ሀለ", &c), Err(StemmerError::InputError(_))));
}

#[test]
fn load_config_rejects_bad_json() {
    let r = load_config("[[\"መ\"", "", "", "", "{}", "{}");
    assert!(matches!(r, Err(StemmerError::ResourceError(_))));
    let r = load_config("[]", "", "", "", "{}", "{\"ab\":\"c\"}");
    assert!(matches!(r, Err(StemmerError::ResourceError(_))));
}

#[test]
fn stopword_run_tokenizes_as_a_space() {
    let stop = strings(&["ናብ"]);
    let m = CharMap::new();
    for (a, b) in [("ቤት ", " ሰላም"), ("", ""), ("1", "!ሰላም"), ("ቤት,", "")] {
        let with_run = format!("{a}ናብ{b}");
        let with_space = format!("{a} {b}");
        assert_eq!(tokenize(&with_run, &stop, &m), tokenize(&with_space, &stop, &m));
    }
}

#[test]
fn deduplicate_double_letter_keeps_order_of_letters() {
    let m = radicals("abcd", &[]);
    let w = chars("cababd");
    let r = deduplicate_double_letter(&w, &m);
    assert_eq!(text(&r), "cabd");
    let mut rest = w.iter();
    assert!(r.iter().all(|c| rest.any(|d| d == c)));
}

#[test]
fn parse_list_trims_unicode_white_space() {
    assert_eq!(parse_list("\u{3000}ብ\u{A0}, \tዝ ዝ\u{2029}"), strings(&["ብ", "ዝ ዝ"]));
}

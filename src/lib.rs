//! Normalisation and morphological stemming of Tigrigna words written in
//! Ge'ez script.
//!
//! The library has two stages. [`tokenize`] cuts free text into words of the
//! script, drops stopwords and folds homophone spellings onto one canonical
//! letter. [`stem_word`] takes one such word through a fixed pipeline:
//! removal of a reduplicated two-letter run, removal of a prefix-suffix pair,
//! of a prefix, of a suffix, and finally of doubled single letters.
//!
//! Every stage is stated as a spec function over sequences of characters, and
//! the executable functions are proved to compute exactly those.
pub mod charmap;
pub mod config;
pub mod pipeline;
pub mod stemmer;
mod text;
pub mod tokenizer;

pub use charmap::CharMap;
pub use config::{load_config, parse_list, StemmerConfig, StemmerError};
pub use stemmer::{
    count_radicals, deduplicate_double_letter, deduplicate_single_letter, find_duplicate_pairs,
    radical, remove_at_indexes, rm_affix, rm_prefix_suffix_pair, stem_word, AffixType,
    MINIMUM_STEM_LENGTH,
};
pub use pipeline::stem_text;
pub use tokenizer::tokenize;

//! Verified core of the Inputx IME: dictionary formats, user stores and
//! the pure text mappings the engines share.

pub mod fsa;
pub mod input_mode;
pub mod locale;
pub mod le;
pub mod codec;
pub mod text;
pub mod l0;
pub mod digest;
pub mod idf;
pub mod rank;
pub mod ngram;
pub mod pool;
pub mod ngram_build;
pub mod ngram_law;
pub mod idf_build;
pub mod idf_law;
pub mod jp;
pub mod rules;
pub mod wubi;
pub mod prior_correction;
pub mod pinyin;
pub mod session;
pub mod ingest;
pub mod tsv;
pub mod ingest_parse;
pub mod jieba;
pub mod corpus_text;
pub mod nihongo_data;
pub mod library_sort;

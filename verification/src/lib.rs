//! A grammar and spelling engine that reads LanguageTool's rule and dictionary
//! files (Morfologik CFSA2 dictionaries, SRX segmentation, disambiguation and
//! grammar XML) and produces `/v2/check`-shaped matches.

pub mod text;
pub mod fsa;
pub mod dict;
pub mod casing;
pub mod speller;
pub mod tagger;
pub mod regex;
pub mod tokenizer;
pub mod token_laws;
pub mod regex_translate;
pub mod entities;
pub mod strset;
pub mod spelling;
pub mod render;
pub mod response;
pub mod analyzed;
pub mod token;
pub mod pattern;
pub mod grammar;
pub mod findings;
pub mod disambig;
pub mod xml;
pub mod parse;
pub mod srx;
pub mod segmenter;
pub mod analyzer;
pub mod synth;
pub mod engine;
pub mod cli;

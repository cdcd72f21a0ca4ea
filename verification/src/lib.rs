//! Pinyin input conversion with a first-order hidden Markov model.
//!
//! An unseparated, tone-less pinyin string is split into every legal syllable
//! sequence, each sequence is decoded into ranked Chinese character strings by
//! a Viterbi search over the model's log-probability tables, and the ranked
//! lists are interleaved into one output list.
//!
//! - `vocab`: the fixed syllable vocabulary.
//! - `segment`: all splits of a string into syllables.
//! - `params`: the parameter tables, log-probabilities as fixed-point integers.
//! - `viterbi`: the recurrence and its optimality, as mathematics.
//! - `rank`: the ranking of final scores.
//! - `decode`: decoding one syllable sequence.
//! - `merge`: interleaving ranked lists.
//! - `hmm`: the model and the whole conversion.
//! - `corpus`, `tally`, `train`: counting a corpus for the tables.

pub mod corpus;
pub mod decode;
pub mod hmm;
pub mod merge;
pub mod params;
pub mod rank;
pub mod segment;
pub mod tally;
pub mod train;
pub mod viterbi;
pub mod vocab;

//! Khmer word segmentation: a cost-weighted dictionary, a dynamic program over
//! codepoints that respects orthographic clusters, and rule-based repair passes.
pub mod codepoints;
pub mod clusters;
pub mod constants;
pub mod dictionary;
pub mod frequency;
pub mod heuristics;
pub mod jsonl;
pub mod proofs;
pub mod segmenter;
pub mod trie;
pub mod variants;
pub mod wordlist;

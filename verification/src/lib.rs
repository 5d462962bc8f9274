//! Streaming longest-match substitution of character sequences.
//!
//! A set of rules maps input sequences to replacement text. The engine in
//! [`charsub`] scans text that arrives in chunks and replaces every
//! occurrence of a rule's input, preferring the longest input when several
//! rules share a prefix. What the engine computes is defined in [`matching`];
//! [`trie`] is the index it consults.
//!
//! Rules come from a rule file with one rule to a line: an input, white
//! space, an output, and after more white space whatever commentary. A line
//! that is empty or begins with white space is a comment. [`unescape`]
//! decodes escape notation for those who write their rules with it;
//! [`finl::charsub`] offers the same decoder with another wording of one
//! message. [`text`] holds what the other modules need to know about
//! characters and strings.

pub mod charsub;
pub mod finl;
pub mod matching;
pub mod text;
pub mod trie;
pub mod unescape;

//! The most frequent words of a text: tokenize, count in parallel chunks,
//! merge, and keep the K entries of highest count.
pub mod input;
pub mod counter;
pub mod table;
pub mod tokenizer;
pub mod top_k;

use crate::counter::{count_words, lists_counts};
use crate::table::entry_views;
use crate::tokenizer::{tokenize, tokens_of};
use crate::top_k::{sorted_desc, top_k, top_k_of};
use vstd::prelude::*;

verus! {

/// How many entries the ranking keeps unless told otherwise.
pub const DEFAULT_TOP_K: usize = 30;

/// How many tokens one counting task takes unless told otherwise.
pub const DEFAULT_CHUNK_SIZE: usize = 10000;

/// The `k` most frequent words of `text`, with their counts, highest first.
/// The words are counted in chunks of `chunk_size` tokens. Among words of
/// equal count the one met first in the merged table keeps its place; that
/// table is walked in no particular order. Slots left over hold an empty
/// word with count zero.
pub fn most_frequent(text: &str, k: usize, chunk_size: usize) -> (r: Vec<(String, u64)>)
    requires
        chunk_size > 0,
    ensures
        r@.len() == k,
        sorted_desc(entry_views(r@)),
        exists|es: Seq<(Seq<char>, u64)>|
            lists_counts(es, tokens_of(text@)) && entry_views(r@) == #[trigger] top_k_of(es, k as nat),
{
    let tokens = tokenize(text);
    let entries = count_words(&tokens, chunk_size);
    let r = top_k(&entries, k);
    assert(lists_counts(entry_views(entries@), tokens_of(text@)));
    r
}

} // verus!

//! What holds of every lock file and its text.

use vstd::prelude::*;
use crate::lock::parse::{lemma_join_unique, lemma_token_single_line, single_lines};
use crate::lock::text::{lock_text, lock_tokens, token_lines};
use crate::lock::unique::{lemma_lock_tokens_unique, lemma_token_lines_unique};
use crate::lock::LockView;
use crate::text::free_of;

verus! {

/// The lines of a lock file hold no line feed.
pub proof fn lemma_lock_lines_are_single(lock: LockView)
    ensures
        single_lines(token_lines(lock_tokens(lock))),
{
    let lines = token_lines(lock_tokens(lock));
    assert forall|i: int| 0 <= i < lines.len() implies free_of(#[trigger] lines[i], '\n') by {
        lemma_token_single_line(lock_tokens(lock)[i]);
    }
}

/// No two lock files have the same text: the text tells the layout
/// version, every binary, and every package with its archive, its checksum
/// and each of its three sets of names.
pub proof fn law_text_is_unique(a: LockView, b: LockView)
    requires
        lock_text(a) == lock_text(b),
    ensures
        a == b,
{
    lemma_lock_lines_are_single(a);
    lemma_lock_lines_are_single(b);
    lemma_join_unique(token_lines(lock_tokens(a)), token_lines(lock_tokens(b)));
    lemma_token_lines_unique(lock_tokens(a), lock_tokens(b));
    lemma_lock_tokens_unique(a, b);
}

} // verus!

//! The batch API: counting a whole text in one call, splitting it into bounded
//! chunks and absorbing them in order.

use vstd::prelude::*;
use crate::counter::{CounterModel, TokenCount, TokenProcessor, absorbed, empty_model, tokens_of};
use crate::matching::{Pattern, all_whitespace, char_is_whitespace};
use crate::splitter::{chunks_of, lemma_chunks_step};

verus! {

/// Absorbing a list of chunks one after the other, at the model level.
pub open spec fn absorbed_all(s: CounterModel, pattern: Seq<char>, chunks: Seq<Seq<char>>) -> CounterModel
    decreases chunks.len(),
{
    if chunks.len() == 0 {
        s
    } else {
        absorbed_all(absorbed(s, pattern, chunks[0]), pattern, chunks.drop_first())
    }
}

/// The sum over chunks of each chunk's own token count.
pub open spec fn total_of_chunks(pattern: Seq<char>, chunks: Seq<Seq<char>>) -> nat
    decreases chunks.len(),
{
    if chunks.len() == 0 {
        0
    } else {
        tokens_of(pattern, chunks[0]).len() + total_of_chunks(pattern, chunks.drop_first())
    }
}

/// Absorbing chunks in order adds up exactly: the final total is the starting
/// total plus the sum over chunks of each chunk's token count.
pub proof fn lemma_absorbed_all_total(s: CounterModel, pattern: Seq<char>, chunks: Seq<Seq<char>>)
    ensures
        absorbed_all(s, pattern, chunks).total == s.total + total_of_chunks(pattern, chunks),
    decreases chunks.len(),
{
    if chunks.len() > 0 {
        lemma_absorbed_all_total(absorbed(s, pattern, chunks[0]), pattern, chunks.drop_first());
    }
}

/// When the whole text fits in one chunk, no token is split at a chunk
/// boundary, and the sum over chunks equals the whole text's own token count.
/// (When tokens do straddle chunk boundaries the two may differ, each straddled
/// token being seen as two shorter ones.)
pub proof fn lemma_unsplit_text_total(pattern: Seq<char>, text: Seq<char>, limit: nat)
    requires
        1 <= limit,
        0 < text.len() <= limit,
    ensures
        total_of_chunks(pattern, chunks_of(text, limit)) == tokens_of(pattern, text).len(),
{
    let cs = chunks_of(text, limit);
    assert(cs == seq![text]);
    assert(cs[0] == text);
    assert(cs.drop_first() =~= Seq::<Seq<char>>::empty());
    assert(total_of_chunks(pattern, Seq::<Seq<char>>::empty()) == 0);
}

/// Counts the tokens of `text` under `pattern`, feeding it to a fresh session
/// in chunks of at most `limit` characters: the total is the sum over chunks
/// of each chunk's token count, and the unique count is the number of distinct
/// case-folded spellings absorbed over all chunks.
pub fn count_tokens_from_raw_text(text: &str, limit: usize, pattern: &Pattern) -> (r: TokenCount)
    requires
        1 <= limit,
        2 * text@.len() <= u32::MAX,
    ensures
        ({
            let m = absorbed_all(empty_model(), pattern@, chunks_of(text@, limit as nat));
            &&& r.total == m.total
            &&& r.unique == m.uniq.len()
            &&& r.total == total_of_chunks(pattern@, chunks_of(text@, limit as nat))
            &&& r.unique <= r.total
            &&& all_whitespace(text@) ==> r.total == 0 && r.unique == 0
        }),
{
    let mut processor = TokenProcessor::new();
    let n = text.unicode_len();
    let ghost goal = absorbed_all(empty_model(), pattern@, chunks_of(text@, limit as nat));
    proof {
        assert(text@.skip(0) =~= text@);
    }
    let mut start: usize = 0;
    while start < n
        invariant
            1 <= limit,
            2 * text@.len() <= u32::MAX,
            n == text@.len(),
            start <= n,
            processor.wf(),
            processor@.total <= 2 * start,
            all_whitespace(text@) ==> processor@ == empty_model(),
            absorbed_all(processor@, pattern@, chunks_of(text@.skip(start as int), limit as nat))
                == goal,
        decreases n - start,
    {
        let end: usize = if limit < n - start {
            start + limit
        } else {
            n
        };
        let chunk = text.substring_char(start, end);
        proof {
            lemma_chunks_step(text@, limit as nat, start as int, end as int);
            let rest = chunks_of(text@.skip(start as int), limit as nat);
            assert(rest[0] == chunk@);
            assert(rest.drop_first() =~= chunks_of(text@.skip(end as int), limit as nat));
            if all_whitespace(text@) {
                assert forall|j: int| 0 <= j < chunk@.len() implies char_is_whitespace(
                    chunk@[j],
                ) by {
                    assert(chunk@[j] == text@[start + j]);
                }
                assert(all_whitespace(chunk@));
            }
        }
        processor.process_chunk(pattern, chunk);
        start = end;
    }
    proof {
        assert(text@.skip(start as int) =~= Seq::<char>::empty());
        assert(processor@ == goal);
        lemma_absorbed_all_total(empty_model(), pattern@, chunks_of(text@, limit as nat));
        if all_whitespace(text@) {
            assert(processor@.uniq =~= Set::<Seq<char>>::empty());
        }
    }
    processor.get_results()
}

} // verus!

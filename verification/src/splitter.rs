//! The chunk splitter: cuts a text into bounded chunks, each boundary falling
//! on a character boundary, covering the whole text with no gap and no
//! overlap.

use vstd::prelude::*;
use vstd::string::StrSliceExecFns;

verus! {

/// The chunks of `text` under a chunk limit: successive spans of at most
/// `limit` characters each, in order. A limit of zero yields no chunks.
pub open spec fn chunks_of(text: Seq<char>, limit: nat) -> Seq<Seq<char>>
    decreases text.len(),
{
    if text.len() == 0 || limit == 0 {
        Seq::empty()
    } else if text.len() <= limit {
        seq![text]
    } else {
        seq![text.take(limit as int)] + chunks_of(text.skip(limit as int), limit)
    }
}

/// The chunks cover the text exactly: concatenated in order they give the
/// text back, so there is no gap and no overlap.
pub proof fn lemma_chunks_cover(text: Seq<char>, limit: nat)
    requires
        1 <= limit,
    ensures
        chunks_of(text, limit).flatten() == text,
    decreases text.len(),
{
    if text.len() == 0 {
        assert(chunks_of(text, limit).flatten() =~= text);
    } else if text.len() <= limit {
        let cs = seq![text];
        assert(cs.drop_first() =~= Seq::<Seq<char>>::empty());
        assert(cs.drop_first().flatten() =~= Seq::<char>::empty());
        assert(cs.flatten() == cs.first() + cs.drop_first().flatten());
        assert(cs.flatten() =~= text);
    } else {
        let l = limit as int;
        lemma_chunks_cover(text.skip(l), limit);
        let cs = chunks_of(text, limit);
        assert(cs.drop_first() =~= chunks_of(text.skip(l), limit));
        assert(cs.flatten() =~= text.take(l) + text.skip(l));
        assert(text.take(l) + text.skip(l) =~= text);
    }
}

/// Every chunk is non-empty and holds at most `limit` characters.
pub proof fn lemma_chunk_sizes(text: Seq<char>, limit: nat)
    requires
        1 <= limit,
    ensures
        forall|i: int|
            0 <= i < chunks_of(text, limit).len() ==> 1 <= (
            #[trigger] chunks_of(text, limit)[i]).len() <= limit,
    decreases text.len(),
{
    if text.len() == 0 || text.len() <= limit {
    } else {
        let l = limit as int;
        lemma_chunk_sizes(text.skip(l), limit);
        let cs = chunks_of(text, limit);
        assert forall|i: int| 0 <= i < cs.len() implies 1 <= (#[trigger] cs[i]).len() <= limit by {
            if i > 0 {
                assert(cs[i] == chunks_of(text.skip(l), limit)[i - 1]);
            }
        }
    }
}

/// Splitting what is left of `text` from character `start` on: the first chunk
/// is the next at-most-`limit` characters, and the rest splits the remainder.
pub proof fn lemma_chunks_step(text: Seq<char>, limit: nat, start: int, end: int)
    requires
        1 <= limit,
        0 <= start < text.len(),
        end == if limit < text.len() - start {
            start + limit as int
        } else {
            text.len() as int
        },
    ensures
        chunks_of(text.skip(start), limit) == seq![text.subrange(start, end)] + chunks_of(
            text.skip(end),
            limit,
        ),
{
    let tail = text.skip(start);
    if limit < text.len() - start {
        assert(tail.take(limit as int) =~= text.subrange(start, end));
        assert(tail.skip(limit as int) =~= text.skip(end));
    } else {
        assert(tail =~= text.subrange(start, end));
        assert(text.skip(end) =~= Seq::<char>::empty());
        assert(chunks_of(tail, limit) =~= seq![text.subrange(start, end)] + chunks_of(
            text.skip(end),
            limit,
        ));
    }
}

/// Cuts `text` into the chunks that `chunks_of` describes: each at most
/// `limit` characters, never splitting a character, resuming at the exact
/// offset where the previous chunk ended.
pub fn split_chunks(text: &str, limit: usize) -> (r: Vec<String>)
    requires
        1 <= limit,
    ensures
        r.deep_view() == chunks_of(text@, limit as nat),
{
    let n = text.unicode_len();
    let mut out: Vec<String> = Vec::new();
    let mut start: usize = 0;
    proof {
        assert(out.deep_view() =~= Seq::<Seq<char>>::empty());
        assert(text@.skip(0) =~= text@);
        assert(out.deep_view() + chunks_of(text@.skip(0), limit as nat) =~= chunks_of(
            text@,
            limit as nat,
        ));
    }
    while start < n
        invariant
            1 <= limit,
            n == text@.len(),
            start <= n,
            out.deep_view() + chunks_of(text@.skip(start as int), limit as nat) == chunks_of(
                text@,
                limit as nat,
            ),
        decreases n - start,
    {
        let end: usize = if limit < n - start {
            start + limit
        } else {
            n
        };
        let ghost prev = out.deep_view();
        let chunk = text.substring_char(start, end);
        out.push(chunk.to_owned());
        proof {
            lemma_chunks_step(text@, limit as nat, start as int, end as int);
            assert(out.deep_view() =~= prev.push(text@.subrange(start as int, end as int)));
            assert(out.deep_view() + chunks_of(text@.skip(end as int), limit as nat) =~= prev
                + chunks_of(text@.skip(start as int), limit as nat));
        }
        start = end;
    }
    proof {
        assert(text@.skip(start as int) =~= Seq::<char>::empty());
        assert(out.deep_view() + chunks_of(text@.skip(start as int), limit as nat) =~= out.deep_view());
    }
    out
}

/// One step of a streaming driver's cursor over a source of `total_size`
/// units: the cursor takes a whole chunk where one fits, else what is left, so
/// it strictly advances, never passes the end, and a driving loop terminates
/// and covers the source in chunks of exactly `chunk_size` but the last.
pub fn advance_offset(offset: usize, total_size: usize, chunk_size: usize) -> (r: usize)
    requires
        offset < total_size,
        1 <= chunk_size,
    ensures
        offset < r <= total_size,
        chunk_size < total_size - offset ==> r == offset + chunk_size,
        total_size - offset <= chunk_size ==> r == total_size,
{
    if chunk_size < total_size - offset {
        offset + chunk_size
    } else {
        total_size
    }
}

} // verus!

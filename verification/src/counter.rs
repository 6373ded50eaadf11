//! The incremental counter: a session absorbs text chunks one at a time and
//! keeps a running total of tokens and the set of distinct case-folded
//! spellings, without ever holding the full token list.

use vstd::prelude::*;
use crate::decode::{decode_lossy, lossy_decode_of};
use crate::matching::{Pattern, all_whitespace, char_is_whitespace, matches_of, trim_of, lower_of, find_tokens, trim_str, lowercase};

verus! {

broadcast use vstd::seq_lib::group_seq_lib_default;

/// Mathematical state of a counting session: how many tokens were absorbed,
/// and the set of their case-folded spellings.
#[verifier::ext_equal]
pub struct CounterModel {
    pub total: nat,
    pub uniq: Set<Seq<char>>,
}

/// The state of a fresh session.
pub open spec fn empty_model() -> CounterModel {
    CounterModel { total: 0, uniq: Set::empty() }
}

/// What the counter keeps of a list of raw match texts: each is trimmed of
/// surrounding whitespace, and a match that trims to nothing is discarded.
pub open spec fn retained(ms: Seq<Seq<char>>) -> Seq<Seq<char>>
    decreases ms.len(),
{
    if ms.len() == 0 {
        Seq::empty()
    } else {
        let rest = retained(ms.drop_last());
        if trim_of(ms.last()).len() > 0 {
            rest.push(trim_of(ms.last()))
        } else {
            rest
        }
    }
}

/// The case-folded spellings of the retained matches.
pub open spec fn folded(ms: Seq<Seq<char>>) -> Set<Seq<char>>
    decreases ms.len(),
{
    if ms.len() == 0 {
        Set::empty()
    } else {
        let rest = folded(ms.drop_last());
        if trim_of(ms.last()).len() > 0 {
            rest.insert(lower_of(trim_of(ms.last())))
        } else {
            rest
        }
    }
}

/// The tokens of `text` under `pattern`: the trimmed, non-empty matches, in
/// order of appearance.
pub open spec fn tokens_of(pattern: Seq<char>, text: Seq<char>) -> Seq<Seq<char>> {
    retained(matches_of(pattern, text))
}

/// The distinct case-folded spellings of the tokens of `text` under `pattern`.
pub open spec fn folded_tokens(pattern: Seq<char>, text: Seq<char>) -> Set<Seq<char>> {
    folded(matches_of(pattern, text))
}

/// One absorb step at the model level: the total grows by the number of tokens
/// of the chunk, and the unique set takes their case-folded spellings in.
pub open spec fn absorbed(s: CounterModel, pattern: Seq<char>, text: Seq<char>) -> CounterModel {
    CounterModel {
        total: s.total + tokens_of(pattern, text).len(),
        uniq: s.uniq.union(folded_tokens(pattern, text)),
    }
}

/// There are never more retained matches than raw matches.
pub proof fn lemma_retained_len(ms: Seq<Seq<char>>)
    ensures
        retained(ms).len() <= ms.len(),
    decreases ms.len(),
{
    if ms.len() > 0 {
        lemma_retained_len(ms.drop_last());
    }
}

/// The folded spellings form a finite set no larger than the retained matches.
pub proof fn lemma_folded_le_retained(ms: Seq<Seq<char>>)
    ensures
        folded(ms).finite(),
        folded(ms).len() <= retained(ms).len(),
    decreases ms.len(),
{
    if ms.len() > 0 {
        lemma_folded_le_retained(ms.drop_last());
    }
}

/// A counting session never lets the unique count pass the total: absorbing a
/// chunk preserves `uniq.len() <= total`.
pub proof fn lemma_absorb_keeps_unique_le_total(s: CounterModel, pattern: Seq<char>, text: Seq<char>)
    requires
        s.uniq.finite(),
        s.uniq.len() <= s.total,
    ensures
        absorbed(s, pattern, text).uniq.finite(),
        absorbed(s, pattern, text).uniq.len() <= absorbed(s, pattern, text).total,
{
    lemma_folded_le_retained(matches_of(pattern, text));
    vstd::set_lib::lemma_len_union(s.uniq, folded_tokens(pattern, text));
}

/// The order in which two chunks are absorbed does not matter to the total or
/// to the unique set; only the sequence of intermediate snapshots differs.
pub proof fn lemma_absorb_order_independent(
    s: CounterModel,
    pattern: Seq<char>,
    c1: Seq<char>,
    c2: Seq<char>,
)
    ensures
        absorbed(absorbed(s, pattern, c1), pattern, c2).total == absorbed(
            absorbed(s, pattern, c2),
            pattern,
            c1,
        ).total,
        absorbed(absorbed(s, pattern, c1), pattern, c2).uniq == absorbed(
            absorbed(s, pattern, c2),
            pattern,
            c1,
        ).uniq,
{
    assert(absorbed(absorbed(s, pattern, c1), pattern, c2).uniq =~= absorbed(
        absorbed(s, pattern, c2),
        pattern,
        c1,
    ).uniq);
}

/// Counters are monotonic: absorbing never decreases the total and never
/// shrinks the unique set.
pub proof fn lemma_absorb_monotonic(s: CounterModel, pattern: Seq<char>, text: Seq<char>)
    ensures
        absorbed(s, pattern, text).total >= s.total,
        s.uniq.subset_of(absorbed(s, pattern, text).uniq),
{
}

/// Swapping the pattern between two chunks changes only what the later chunk
/// contributes: after absorbing `c1` under `a` and then `c2` under `b`, the
/// first chunk's contribution is the one it had under `a`, untouched by `b`.
pub proof fn lemma_pattern_swap_keeps_absorbed(
    s: CounterModel,
    a: Seq<char>,
    b: Seq<char>,
    c1: Seq<char>,
    c2: Seq<char>,
)
    ensures
        absorbed(absorbed(s, a, c1), b, c2).total == s.total + tokens_of(a, c1).len() + tokens_of(
            b,
            c2,
        ).len(),
        absorbed(absorbed(s, a, c1), b, c2).uniq == s.uniq.union(folded_tokens(a, c1)).union(
            folded_tokens(b, c2),
        ),
{
}

/// A point-in-time snapshot of a session's counts.
#[derive(PartialEq, Eq, Structural, Clone, Copy, Debug)]
pub struct TokenCount {
    pub total: u32,
    pub unique: u32,
}

/// A counting session: owns the running counts, mutated only by absorbing a
/// chunk, read through `get_results`, and discarded when the session ends.
pub struct TokenProcessor {
    total: u32,
    unique_tokens: Vec<String>,
}

impl View for TokenProcessor {
    type V = CounterModel;

    closed spec fn view(&self) -> CounterModel {
        CounterModel {
            total: self.total as nat,
            uniq: self.unique_tokens.deep_view().to_set(),
        }
    }
}

/// Appends `s` to `v` unless an equal string is already there, keeping the
/// list free of duplicates; the set of entries gains exactly `s`.
fn insert_unique(v: &mut Vec<String>, s: String)
    requires
        old(v).deep_view().no_duplicates(),
    ensures
        final(v).deep_view().no_duplicates(),
        final(v).deep_view().to_set() == old(v).deep_view().to_set().insert(s@),
        final(v)@.len() == old(v)@.len() + (if old(v).deep_view().to_set().contains(s@) {
            0int
        } else {
            1int
        }),
{
    let ghost dv = v.deep_view();
    let n = v.len();
    let mut i: usize = 0;
    while i < n
        invariant
            n == v@.len(),
            dv == v.deep_view(),
            dv == old(v).deep_view(),
            dv.no_duplicates(),
            i <= n,
            forall|j: int| 0 <= j < i ==> dv[j] != s@,
        decreases n - i,
    {
        assert(v.deep_view()[i as int] == v@[i as int]@);
        if v[i] == s {
            proof {
                assert(dv.contains(s@));
                assert(dv.to_set().insert(s@) =~= dv.to_set());
            }
            return ;
        }
        i += 1;
    }
    proof {
        assert(forall|j: int| 0 <= j < dv.len() ==> dv[j] == v@[j]@);
        assert(!dv.contains(s@));
    }
    v.push(s);
    proof {
        assert(v.deep_view() =~= dv.push(s@));
        broadcast use vstd::prelude::Seq::lemma_push_to_set_commute;

        assert(v.deep_view().to_set() == dv.to_set().insert(s@));
    }
}

impl TokenProcessor {
    /// A fresh session with nothing absorbed.
    pub fn new() -> (r: TokenProcessor)
        ensures
            r.wf(),
            r@ == empty_model(),
    {
        let r = TokenProcessor { total: 0, unique_tokens: Vec::new() };
        proof {
            assert(r.unique_tokens.deep_view() =~= Seq::<Seq<char>>::empty());
            assert(r.unique_tokens.deep_view().to_set() =~= Set::<Seq<char>>::empty());
            assert(r@ =~= empty_model());
        }
        r
    }

    /// Well-formed: the stored spellings hold no duplicates, and there are
    /// never more of them than tokens counted.
    pub closed spec fn wf(&self) -> bool {
        &&& self.unique_tokens.deep_view().no_duplicates()
        &&& self.unique_tokens@.len() <= self.total
    }

    /// Matches `chunk` against `pattern` and absorbs the outcome: the total
    /// grows by the chunk's token count, the unique set takes the tokens'
    /// case-folded spellings in, and nothing already absorbed changes. A chunk
    /// of whitespace alone — the empty chunk included — changes nothing.
    pub fn process_chunk(&mut self, pattern: &Pattern, chunk: &str)
        requires
            old(self).wf(),
            old(self)@.total + chunk@.len() + 1 <= u32::MAX,
        ensures
            final(self).wf(),
            final(self)@ == absorbed(old(self)@, pattern@, chunk@),
            final(self)@.total <= old(self)@.total + chunk@.len() + 1,
            all_whitespace(chunk@) ==> final(self)@ == old(self)@,
    {
        let tokens = find_tokens(pattern, chunk);
        let ghost ms = matches_of(pattern@, chunk@);
        let n = tokens.len();
        let mut i: usize = 0;
        while i < n
            invariant
                old(self).wf(),
                old(self)@.total + chunk@.len() + 1 <= u32::MAX,
                n == tokens@.len(),
                tokens.deep_view() == ms,
                ms.len() <= chunk@.len() + 1,
                forall|k: int, j: int|
                    0 <= k < ms.len() && 0 <= j < ms[k].len() ==> chunk@.contains(
                        #[trigger] ms[k][j],
                    ),
                forall|k: int|
                    0 <= k < i ==> (all_whitespace(ms[k]) ==> #[trigger] trim_of(ms[k]).len()
                        == 0),
                i <= n,
                self.wf(),
                self.total <= old(self).total + i,
                self@.total == old(self)@.total + retained(ms.take(i as int)).len(),
                self@.uniq == old(self)@.uniq.union(folded(ms.take(i as int))),
            decreases n - i,
        {
            let ghost pre = ms.take(i as int);
            let ghost post = ms.take(i as int + 1);
            proof {
                assert(post.drop_last() =~= pre);
                assert(post.last() == ms[i as int]);
                assert(tokens.deep_view()[i as int] == tokens@[i as int]@);
            }
            let token_text = trim_str(tokens[i].as_str());
            if !token_text.is_empty() {
                self.total = self.total + 1;
                let folded_text = lowercase(token_text);
                proof {
                    assert(folded_text@ == lower_of(trim_of(ms[i as int])));
                }
                insert_unique(&mut self.unique_tokens, folded_text);
                proof {
                    assert(retained(post) =~= retained(pre).push(trim_of(ms[i as int])));
                    assert(self@.uniq =~= old(self)@.uniq.union(folded(post)));
                }
            } else {
                proof {
                    assert(retained(post) =~= retained(pre));
                    assert(folded(post) =~= folded(pre));
                }
            }
            i += 1;
        }
        proof {
            assert(ms.take(n as int) =~= ms);
            assert(self@ =~= absorbed(old(self)@, pattern@, chunk@));
            lemma_retained_len(ms);
            if all_whitespace(chunk@) {
                assert forall|k: int| 0 <= k < ms.len() implies #[trigger] trim_of(ms[k]).len()
                    == 0 by {
                    assert forall|j: int| 0 <= j < ms[k].len() implies char_is_whitespace(
                        ms[k][j],
                    ) by {
                        assert(chunk@.contains(ms[k][j]));
                        let idx = choose|idx: int|
                            0 <= idx < chunk@.len() && chunk@[idx] == ms[k][j];
                        assert(char_is_whitespace(chunk@[idx]));
                    }
                    assert(all_whitespace(ms[k]));
                }
                lemma_trimmed_away_matches_change_nothing(ms);
                assert(self@ =~= old(self)@);
            }
        }
    }

    /// Decodes a raw byte chunk leniently — malformed sequences become
    /// replacement characters rather than failures — and absorbs the decoded
    /// text, as `process_chunk` does.
    pub fn absorb_chunk_bytes(&mut self, pattern: &Pattern, bytes: &[u8])
        requires
            old(self).wf(),
            old(self)@.total + bytes@.len() + 1 <= u32::MAX,
        ensures
            final(self).wf(),
            final(self)@ == absorbed(old(self)@, pattern@, lossy_decode_of(bytes@)),
            final(self)@.total <= old(self)@.total + bytes@.len() + 1,
    {
        let text = decode_lossy(bytes);
        self.process_chunk(pattern, text.as_str());
    }

    /// A read-only snapshot of the counts so far; the unique count never
    /// exceeds the total.
    pub fn get_results(&self) -> (r: TokenCount)
        requires
            self.wf(),
        ensures
            r.total == self@.total,
            r.unique == self@.uniq.len(),
            r.unique <= r.total,
    {
        proof {
            self.unique_tokens.deep_view().unique_seq_to_set();
        }
        TokenCount { total: self.total, unique: self.unique_tokens.len() as u32 }
    }
}

/// Matches that all trim to nothing are all discarded, so they change nothing.
proof fn lemma_trimmed_away_matches_change_nothing(ms: Seq<Seq<char>>)
    requires
        forall|k: int| 0 <= k < ms.len() ==> trim_of(ms[k]).len() == 0,
    ensures
        retained(ms).len() == 0,
        folded(ms) == Set::<Seq<char>>::empty(),
    decreases ms.len(),
{
    if ms.len() > 0 {
        lemma_trimmed_away_matches_change_nothing(ms.drop_last());
    }
}

impl Default for TokenProcessor {
    /// Same as `new`: a fresh session with nothing absorbed.
    fn default() -> (r: TokenProcessor)
        ensures
            r.wf(),
            r@ == empty_model(),
    {
        TokenProcessor::new()
    }
}

} // verus!

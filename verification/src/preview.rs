//! Preview extraction: a short, strictly decoded look at the head of a byte
//! buffer, truncated to a byte budget on a character boundary.

use vstd::prelude::*;
use vstd::string::StrSliceExecFns;
use vstd::string::StringExecFns;
use vstd::string::StringSliceAdditionalSpecFns;
use vstd::utf8::{decode_utf8, encode_scalar, encode_utf8, encode_utf8_decode_utf8, valid_utf8};
use crate::decode::decode_strict;
use crate::errors::TokenError;

verus! {

/// The longest prefix of `text` whose UTF-8 encoding holds at most
/// `max_length` bytes: its end is the nearest character boundary at or before
/// byte offset `max_length`.
pub open spec fn prefix_within(text: Seq<char>, max_length: nat) -> Seq<char>
    decreases text.len(),
{
    if encode_utf8(text).len() <= max_length {
        text
    } else {
        prefix_within(text.drop_last(), max_length)
    }
}

/// What a preview shows of a decoded text: the text verbatim when its encoding
/// holds at most `max_length` bytes, else the longest prefix that fits the
/// byte budget — cut on a character boundary, never inside one — with a
/// truncation marker appended.
pub open spec fn preview_of(text: Seq<char>, max_length: nat) -> Seq<char> {
    if encode_utf8(text).len() <= max_length {
        text
    } else {
        prefix_within(text, max_length) + "..."@
    }
}

/// Appending one character to a text appends that character's encoding to the
/// text's encoding.
proof fn lemma_encode_push(s: Seq<char>, c: char)
    ensures
        encode_utf8(s.push(c)) == encode_utf8(s) + encode_scalar(c as u32),
    decreases s.len(),
{
    if s.len() == 0 {
        assert(s.push(c)[0] == c);
        assert(s.push(c).drop_first() =~= Seq::<char>::empty());
        assert(encode_utf8(Seq::<char>::empty()) =~= Seq::<u8>::empty());
        assert(encode_utf8(s.push(c)) =~= encode_scalar(c as u32));
        assert(encode_utf8(s) + encode_scalar(c as u32) =~= encode_scalar(c as u32));
    } else {
        lemma_encode_push(s.drop_first(), c);
        assert(s.push(c)[0] == s[0]);
        assert(s.push(c).drop_first() =~= s.drop_first().push(c));
        assert(encode_scalar(s[0] as u32) + (encode_utf8(s.drop_first()) + encode_scalar(
            c as u32,
        )) =~= (encode_scalar(s[0] as u32) + encode_utf8(s.drop_first())) + encode_scalar(
            c as u32,
        ));
    }
}

/// A prefix's encoding is never longer than the whole text's.
proof fn lemma_encode_take_le(text: Seq<char>, k: int)
    requires
        0 <= k <= text.len(),
    ensures
        encode_utf8(text.take(k)).len() <= encode_utf8(text).len(),
    decreases text.len() - k,
{
    if k == text.len() {
        assert(text.take(k) =~= text);
    } else {
        lemma_encode_push(text.take(k), text[k]);
        assert(text.take(k + 1) =~= text.take(k).push(text[k]));
        lemma_encode_take_le(text, k + 1);
    }
}

/// When `k` characters fit the byte budget and `k + 1` do not, the cut the
/// budget forces is exactly the first `k` characters.
proof fn lemma_prefix_within_is_take(text: Seq<char>, max_length: nat, k: int)
    requires
        0 <= k <= text.len(),
        encode_utf8(text.take(k)).len() <= max_length,
        k < text.len() ==> encode_utf8(text.take(k + 1)).len() > max_length,
    ensures
        prefix_within(text, max_length) == text.take(k),
    decreases text.len(),
{
    if encode_utf8(text).len() <= max_length {
        if k < text.len() {
            lemma_encode_take_le(text, k + 1);
        }
        assert(text.take(k) =~= text);
    } else {
        if k == text.len() {
            assert(text.take(k) =~= text);
        }
        let shorter = text.drop_last();
        assert(shorter.take(k) =~= text.take(k));
        if k < shorter.len() {
            assert(shorter.take(k + 1) =~= text.take(k + 1));
        }
        lemma_prefix_within_is_take(shorter, max_length, k);
    }
}

/// The preview cut is sound and maximal: what `prefix_within` keeps is a
/// prefix of the text, its encoding fits the byte budget, and every longer
/// prefix — whose end would fall on or past the next character boundary —
/// would not fit.
pub proof fn lemma_prefix_within_longest(text: Seq<char>, max_length: nat)
    ensures
        prefix_within(text, max_length).len() <= text.len(),
        prefix_within(text, max_length) == text.take(
            prefix_within(text, max_length).len() as int,
        ),
        encode_utf8(prefix_within(text, max_length)).len() <= max_length,
        forall|j: int|
            prefix_within(text, max_length).len() < j <= text.len() ==> encode_utf8(
                #[trigger] text.take(j),
            ).len() > max_length,
    decreases text.len(),
{
    if encode_utf8(text).len() <= max_length {
        assert(text.take(text.len() as int) =~= text);
    } else {
        lemma_prefix_within_longest(text.drop_last(), max_length);
        let p = prefix_within(text.drop_last(), max_length);
        assert(text.take(p.len() as int) =~= text.drop_last().take(p.len() as int));
        assert forall|j: int| p.len() < j <= text.len() implies encode_utf8(
            #[trigger] text.take(j),
        ).len() > max_length by {
            if j <= text.len() - 1 {
                assert(text.take(j) =~= text.drop_last().take(j));
            } else {
                assert(text.take(j) =~= text);
            }
        }
    }
}

/// The number of bytes in the UTF-8 encoding of one character.
fn char_width(c: char) -> (r: usize)
    ensures
        r == encode_scalar(c as u32).len(),
{
    proof {
        vstd::utf8::char_is_scalar(c);
    }
    let u = c as u32;
    if u < 0x80 {
        1
    } else if u < 0x800 {
        2
    } else if u < 0x10000 {
        3
    } else {
        4
    }
}

/// Decodes `bytes` strictly as UTF-8 — malformed bytes are rejected, not
/// silently repaired — and returns a preview of at most `max_length` bytes of
/// text: the whole text verbatim when it is short enough, else its longest
/// prefix ending on a character boundary at or before byte offset
/// `max_length`, never inside a multi-byte character, with a truncation marker
/// appended.
pub fn get_file_preview(bytes: &[u8], max_length: usize) -> (r: Result<String, TokenError>)
    ensures
        r is Ok <==> valid_utf8(bytes@),
        r is Ok ==> r.unwrap()@ == preview_of(decode_utf8(bytes@), max_length as nat),
        r is Err ==> r.unwrap_err() is NotUtf8,
{
    match decode_strict(bytes) {
        Some(text) => {
            proof {
                broadcast use vstd::slice::group_slice_axioms;

                encode_utf8_decode_utf8(text@);
                assert(bytes@.len() == vstd::slice::spec_slice_len(bytes));
            }
            if text.len() <= max_length {
                Ok(text.to_owned())
            } else {
                let n = text.unicode_len();
                let mut k: usize = 0;
                let mut fitted: usize = 0;
                let mut stop = false;
                proof {
                    assert(text@.take(0) =~= Seq::<char>::empty());
                    assert(encode_utf8(Seq::<char>::empty()) =~= Seq::<u8>::empty());
                }
                while k < n && !stop
                    invariant
                        n == text@.len(),
                        encode_utf8(text@).len() > max_length,
                        k <= n,
                        fitted == encode_utf8(text@.take(k as int)).len(),
                        fitted <= max_length,
                        stop ==> k < n && encode_utf8(text@.take(k as int + 1)).len()
                            > max_length,
                    decreases n - k, (if stop { 0int } else { 1int }),
                {
                    let c = text.get_char(k);
                    let w = char_width(c);
                    proof {
                        lemma_encode_push(text@.take(k as int), text@[k as int]);
                        assert(text@.take(k as int + 1) =~= text@.take(k as int).push(
                            text@[k as int],
                        ));
                    }
                    if w <= max_length - fitted {
                        fitted = fitted + w;
                        k = k + 1;
                    } else {
                        stop = true;
                    }
                }
                proof {
                    if !stop {
                        assert(text@.take(n as int) =~= text@);
                        assert(false);
                    }
                    lemma_prefix_within_is_take(text@, max_length as nat, k as int);
                }
                let prefix = text.substring_char(0, k);
                let mut out = prefix.to_owned();
                out.append("...");
                Ok(out)
            }
        },
        None => Err(TokenError::NotUtf8),
    }
}

} // verus!

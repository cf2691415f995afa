//! Splitting a text into chunks that each stay within a token budget.
//!
//! The text is tokenized once with the `cl100k_base` encoding; consecutive
//! tokens are grouped into windows of at most the budget, and each window is
//! turned back into text.

use crate::error::IngestError;
use std::collections::HashSet;
use vstd::prelude::*;

verus! {

/// The token budget of a chunk where nothing else is asked for.
pub const DEFAULT_MAX_TOKENS: usize = 4500;

/// A contiguous piece of a text that holds at most the budgeted number of
/// tokens.
#[derive(Clone, Debug)]
pub struct TextChunk {
    /// The text that the tokens of this chunk spell.
    pub text: String,
    /// How many tokens this chunk holds.
    pub token_len: usize,
    /// The position of this chunk among the chunks of its text.
    pub index: usize,
}

/// The tokens that the `cl100k_base` encoding gives for a text, special
/// tokens not recognised, or `None` where the tokenizer gives up on the
/// text: what `CoreBPE::encode` of `tiktoken_rs` returns, without its count,
/// on the tokenizer of `cl100k_base_singleton` and an empty set of allowed
/// special tokens, an error taken as `None`.
pub uninterp spec fn cl100k_tokens(text: Seq<char>) -> Option<Seq<u32>>;

/// The text that a sequence of `cl100k_base` tokens spells, or `None` where
/// it spells none: what `CoreBPE::decode` of `tiktoken_rs` returns on the
/// tokenizer of `cl100k_base_singleton`, an error taken as `None`.
pub uninterp spec fn cl100k_text(tokens: Seq<u32>) -> Option<Seq<char>>;

/// `tiktoken_rs::cl100k_base_singleton().encode(text, ..)` with no special
/// token allowed, so that the whole text is encoded as ordinary text. The
/// tokenizer is built once from the vocabulary that the crate carries, and
/// what comes back depends on the text alone. The call fails where the
/// pattern matcher under it runs out of its limits, as it does on some
/// millions of blanks in a row; that is `None` here.
#[verifier::external_body]
fn encode(text: &str) -> (tokens: Option<Vec<u32>>)
    ensures
        tokens matches Some(t) ==> cl100k_tokens(text@) == Some(t@),
        tokens is None ==> cl100k_tokens(text@) is None,
{
    tiktoken_rs::cl100k_base_singleton().encode(text, &HashSet::new()).ok().map(|found| found.0)
}

/// `tiktoken_rs::cl100k_base_singleton().decode(tokens)`. It fails on a
/// token that the vocabulary does not hold and on bytes that are no UTF-8;
/// both are `None` here. The text depends on the tokens alone.
#[verifier::external_body]
fn decode(tokens: &Vec<u32>) -> (text: Option<String>)
    ensures
        text matches Some(t) ==> cl100k_text(tokens@) == Some(t@),
        text is None ==> cl100k_text(tokens@) is None,
{
    tiktoken_rs::cl100k_base_singleton().decode(tokens.as_slice()).ok()
}

/// The windows that `tokens` falls into: each holds the next `max` tokens,
/// the last one what is left. With a budget of zero there are none.
pub open spec fn windows(tokens: Seq<u32>, max: nat) -> Seq<Seq<u32>>
    decreases tokens.len(),
{
    if max == 0 || tokens.len() == 0 {
        Seq::empty()
    } else if tokens.len() <= max {
        seq![tokens]
    } else {
        seq![tokens.take(max as int)] + windows(tokens.skip(max as int), max)
    }
}

/// How many windows `len` tokens fall into: `len / max`, rounded up.
pub open spec fn window_count(len: nat, max: nat) -> nat {
    if max == 0 {
        0
    } else {
        ((len + max - 1) / (max as int)) as nat
    }
}

/// The windows, put one after the other, are the tokens they were cut from:
/// nothing is lost, repeated or moved.
pub proof fn lemma_windows_concat(tokens: Seq<u32>, max: nat)
    requires
        max > 0,
    ensures
        windows(tokens, max).flatten() == tokens,
    decreases tokens.len(),
{
    if tokens.len() == 0 {
        assert(tokens =~= Seq::<u32>::empty());
    } else if tokens.len() <= max {
        seq![tokens].lemma_flatten_one_element();
    } else {
        let head = seq![tokens.take(max as int)];
        let tail = windows(tokens.skip(max as int), max);
        lemma_windows_concat(tokens.skip(max as int), max);
        vstd::seq_lib::lemma_flatten_concat(head, tail);
        head.lemma_flatten_one_element();
        assert(tokens.take(max as int) + tokens.skip(max as int) =~= tokens);
    }
}

/// There are `len / max`, rounded up, windows; each but the last holds
/// exactly `max` tokens, and the last holds at least one and at most `max`.
pub proof fn lemma_windows_shape(tokens: Seq<u32>, max: nat)
    requires
        max > 0,
    ensures
        windows(tokens, max).len() == window_count(tokens.len(), max),
        forall|i: int|
            0 <= i < windows(tokens, max).len() - 1 ==> (#[trigger] windows(tokens, max)[i]).len()
                == max,
        tokens.len() > 0 ==> 0 < windows(tokens, max).last().len() <= max,
        forall|i: int|
            0 <= i < windows(tokens, max).len() ==> (#[trigger] windows(tokens, max)[i]).len()
                <= windows(tokens, max)[0].len(),
    decreases tokens.len(),
{
    let len = tokens.len() as int;
    let m = max as int;
    if tokens.len() == 0 {
        assert((len + m - 1) / m == 0) by (nonlinear_arith)
            requires
                len == 0,
                m > 0,
        ;
    } else if tokens.len() <= max {
        assert((len + m - 1) / m == 1) by (nonlinear_arith)
            requires
                0 < len <= m,
        ;
    } else {
        let rest = tokens.skip(m);
        let tail = windows(rest, max);
        lemma_windows_shape(rest, max);
        assert((len + m - 1) / m == (len - m + m - 1) / m + 1) by (nonlinear_arith)
            requires
                len > m,
                m > 0,
        ;
        let all = windows(tokens, max);
        assert(all =~= seq![tokens.take(m)] + tail);
        assert(tail.len() >= 1);
        assert forall|i: int| 0 <= i < all.len() - 1 implies (#[trigger] all[i]).len() == max by {
            if i > 0 {
                assert(all[i] == tail[i - 1]);
            }
        }
        assert(all.last() == tail.last());
        assert forall|i: int| 0 <= i < all.len() implies (#[trigger] all[i]).len()
            <= all[0].len() by {
            if i > 0 {
                assert(all[i] == tail[i - 1]);
                assert(tail[i - 1].len() <= tail[0].len());
                assert(tail[0].len() <= max) by {
                    if tail.len() == 1 {
                        assert(tail[0] == tail.last());
                    }
                }
            }
        }
    }
}

/// Cuts `tokens` into windows of at most `max_tokens`. Refused where the
/// budget is zero.
pub fn split_tokens(tokens: &Vec<u32>, max_tokens: usize) -> (r: Result<
    Vec<Vec<u32>>,
    IngestError,
>)
    ensures
        max_tokens == 0 <==> r is Err,
        r matches Err(e) ==> e == IngestError::InvalidArgument,
        r matches Ok(out) ==> out@.len() == windows(tokens@, max_tokens as nat).len()
            && forall|i: int|
            0 <= i < out@.len() ==> (#[trigger] out@[i])@ == windows(tokens@, max_tokens as nat)[i],
{
    if max_tokens == 0 {
        return Err(IngestError::InvalidArgument);
    }
    let ghost max = max_tokens as nat;
    let mut out: Vec<Vec<u32>> = Vec::new();
    let mut start: usize = 0;
    proof {
        assert(tokens@.skip(0) =~= tokens@);
    }
    while start < tokens.len()
        invariant
            max == max_tokens,
            max > 0,
            start <= tokens.len(),
            windows(tokens@, max).len() == out@.len() + windows(
                tokens@.skip(start as int),
                max,
            ).len(),
            forall|i: int|
                0 <= i < out@.len() ==> (#[trigger] out@[i])@ == windows(tokens@, max)[i],
            forall|i: int|
                0 <= i < windows(tokens@.skip(start as int), max).len() ==> windows(
                    tokens@,
                    max,
                )[out@.len() + i] == #[trigger] windows(tokens@.skip(start as int), max)[i],
        decreases tokens.len() - start,
    {
        let end: usize = if tokens.len() - start > max_tokens {
            start + max_tokens
        } else {
            tokens.len()
        };
        let ghost rest = tokens@.skip(start as int);
        let mut window: Vec<u32> = Vec::new();
        let mut at: usize = start;
        while at < end
            invariant
                start <= at <= end <= tokens.len(),
                window@ == tokens@.subrange(start as int, at as int),
            decreases end - at,
        {
            window.push(tokens[at]);
            proof {
                assert(window@ =~= tokens@.subrange(start as int, at + 1));
            }
            at = at + 1;
        }
        proof {
            let after = tokens@.skip(end as int);
            if rest.len() <= max {
                assert(window@ =~= rest);
                assert(after.len() == 0);
                assert(windows(rest, max) =~= seq![rest]);
                assert(windows(after, max).len() == 0);
            } else {
                assert(window@ =~= rest.take(max as int));
                assert(rest.skip(max as int) =~= after);
                assert(windows(rest, max) =~= seq![rest.take(max as int)] + windows(after, max));
            }
            assert(windows(rest, max)[0] == window@);
            assert forall|i: int| 0 <= i < windows(after, max).len() implies windows(
                tokens@,
                max,
            )[out@.len() + 1 + i] == #[trigger] windows(after, max)[i] by {
                assert(windows(rest, max)[i + 1] == windows(after, max)[i]);
            }
        }
        out.push(window);
        start = end;
    }
    Ok(out)
}

/// The texts that the windows `ws` spell, or the index of the first window
/// that spells none.
pub open spec fn spelled(ws: Seq<Seq<u32>>) -> Result<Seq<Seq<char>>, int>
    decreases ws.len(),
{
    if ws.len() == 0 {
        Ok(Seq::empty())
    } else {
        match spelled(ws.drop_last()) {
            Err(first) => Err(first),
            Ok(texts) => match cl100k_text(ws.last()) {
                Some(text) => Ok(texts.push(text)),
                None => Err(ws.len() - 1),
            },
        }
    }
}

/// What cutting `text` under a budget of `max_tokens` comes to: refused
/// where the budget is zero; failed where the tokenizer gives up on the text,
/// or at the first window whose tokens it cannot turn back into text; else
/// the texts of the windows of the tokens, in order.
pub open spec fn cut(text: Seq<char>, max_tokens: nat) -> Result<Seq<Seq<char>>, IngestError> {
    if max_tokens == 0 {
        Err(IngestError::InvalidArgument)
    } else {
        match cl100k_tokens(text) {
            None => Err(IngestError::Tokenizing),
            Some(tokens) => match spelled(windows(tokens, max_tokens)) {
                Ok(texts) => Ok(texts),
                Err(first) => Err(IngestError::Encoding { chunk: first as usize }),
            },
        }
    }
}

/// The texts of `chunks`, in order.
pub open spec fn chunk_texts(chunks: Seq<TextChunk>) -> Seq<Seq<char>> {
    Seq::new(chunks.len(), |i: int| chunks[i].text@)
}

proof fn lemma_spelled_fails_on(ws: Seq<Seq<u32>>, k: int)
    requires
        0 <= k <= ws.len(),
        spelled(ws.take(k)) is Err,
    ensures
        spelled(ws) == spelled(ws.take(k)),
    decreases ws.len() - k,
{
    if k < ws.len() {
        assert(ws.take(k + 1).drop_last() =~= ws.take(k));
        lemma_spelled_fails_on(ws, k + 1);
    } else {
        assert(ws.take(k) =~= ws);
    }
}

/// Tokenizes `text`, cuts the tokens into windows of at most `max_tokens` and
/// turns each window back into text. A window may fail to spell a text where
/// it ends inside a character that takes several tokens.
pub fn chunk(text: &str, max_tokens: usize) -> (r: Result<Vec<TextChunk>, IngestError>)
    ensures
        r matches Err(e) ==> cut(text@, max_tokens as nat) == Err::<Seq<Seq<char>>, IngestError>(e),
        r matches Ok(chunks) ==> {
            let ws = windows(cl100k_tokens(text@)->0, max_tokens as nat);
            &&& cut(text@, max_tokens as nat) == Ok::<Seq<Seq<char>>, IngestError>(
                chunk_texts(chunks@),
            )
            &&& chunks@.len() == ws.len()
            &&& forall|i: int|
                0 <= i < chunks@.len() ==> (#[trigger] chunks@[i]).index == i && chunks@[i].token_len
                    == ws[i].len()
        },
{
    if max_tokens == 0 {
        return Err(IngestError::InvalidArgument);
    }
    let tokens = match encode(text) {
        Some(tokens) => tokens,
        None => {
            return Err(IngestError::Tokenizing);
        },
    };
    let split = match split_tokens(&tokens, max_tokens) {
        Ok(split) => split,
        Err(e) => {
            return Err(e);
        },
    };
    let ghost ws = windows(tokens@, max_tokens as nat);
    let mut chunks: Vec<TextChunk> = Vec::new();
    let mut i: usize = 0;
    proof {
        assert(ws.take(0) =~= Seq::<Seq<u32>>::empty());
        assert(chunk_texts(chunks@) =~= Seq::<Seq<char>>::empty());
    }
    while i < split.len()
        invariant
            i <= split.len(),
            max_tokens > 0,
            cl100k_tokens(text@) == Some(tokens@),
            ws == windows(tokens@, max_tokens as nat),
            split@.len() == ws.len(),
            forall|k: int| 0 <= k < split@.len() ==> (#[trigger] split@[k])@ == ws[k],
            chunks@.len() == i,
            spelled(ws.take(i as int)) == Ok::<Seq<Seq<char>>, int>(chunk_texts(chunks@)),
            forall|k: int|
                0 <= k < i ==> (#[trigger] chunks@[k]).index == k && chunks@[k].token_len
                    == ws[k].len(),
        decreases split.len() - i,
    {
        proof {
            assert(ws.take(i + 1).drop_last() =~= ws.take(i as int));
            assert(ws.take(i + 1).last() == split@[i as int]@);
        }
        match decode(&split[i]) {
            Some(decoded) => {
                proof {
                    assert(chunk_texts(chunks@).push(decoded@) =~= chunk_texts(
                        chunks@.push(
                            TextChunk { text: decoded, token_len: split@[i as int]@.len() as usize, index: i },
                        ),
                    ));
                }
                chunks.push(TextChunk { text: decoded, token_len: split[i].len(), index: i });
            },
            None => {
                proof {
                    assert(spelled(ws.take(i + 1)) == Err::<Seq<Seq<char>>, int>(i as int));
                    lemma_spelled_fails_on(ws, i + 1);
                }
                return Err(IngestError::Encoding { chunk: i });
            },
        }
        i = i + 1;
    }
    proof {
        assert(ws.take(i as int) =~= ws);
    }
    Ok(chunks)
}

} // verus!

//! Cutting the reply of the segmenter into its segments.
//!
//! The segmenter answers with one text in which a fixed sequence of
//! characters stands between two segments; that sequence, and nothing else,
//! ends a segment.

use crate::chat::{prompt_messages, system_role, user_role, Message};
use vstd::prelude::*;
use vstd::string::StringExecFns;

verus! {

/// The standing instructions that go with every request to the segmenter.
pub const SEGMENTER_INSTRUCTIONS: &'static str = "As a dedicated assistant, your duty is to dissect the provided chapter text into clearer, bite-sized segments. To accomplish this, isolate each sentence and code snippet as independent entities. Remember, your task is not to provide a summary, but to split the original text into a texts sequence more granunlar, respecting the text's hierarchical markings and formatting as they contribute to the understanding of the text. Balance your interpretations with the original structure for an accurate representation. reply in this format: ```<sentence>~>_^~<sentence>~>_^~<sentence>```";

/// What a request to the segmenter says before the text of the chunk.
pub const SEGMENTER_PROMPT_HEAD: &'static str = "You are examining Chapter 1 of a book. Your mission is to dissect the provided information into short, logically divided segments to facilitate further processing afterwards. \n    Please adhere to the following steps:\n    1. Break down dense paragraphs into individual sentences, with each one functioning as a distinct chunk of information. \n    2. Consider code snippets as standalone entities and separate them from the accompanying text, break down long code snippets to chunks of less than 15 lines, please respect the programming language constructs that keep a group of codes together or separate one group of codes from another. \n    3. Take into account the original source's hierarchical markings and formatting specific to a book chapter. These elements can guide the logical segmentation process.\n    Keep in mind, the goal is not to summarize, but to restructure the information into more digestible, manageable units. Now, here is the text from the chapter:";

/// What a request to the segmenter says after the text of the chunk.
pub const SEGMENTER_PROMPT_TAIL: &'static str = "\".\n    Please reply in this format:\n```\n<sentence>~>_^~<sentence>~>_^~<sentence>\n```";

/// One of the pieces that the segmenter cut a chunk into: a sentence or a
/// block of code.
#[derive(Clone, Debug)]
pub struct TextSegment {
    /// The text of the segment, as the reply holds it.
    pub text: String,
    /// The index of the chunk that the segment comes from.
    pub chunk: usize,
}

/// The characters `~>_^~` that stand between two segments of a reply.
pub open spec fn delimiter() -> Seq<char> {
    seq!['~', '>', '_', '^', '~']
}

/// Whether `pattern` stands in `s` at position `at`.
pub open spec fn occurs_at(s: Seq<char>, pattern: Seq<char>, at: int) -> bool {
    &&& 0 <= at
    &&& at + pattern.len() <= s.len()
    &&& forall|j: int| 0 <= j < pattern.len() ==> s[at + j] == #[trigger] pattern[j]
}

/// The first position at or after `from` where `pattern` stands in `s`.
pub open spec fn find_from(s: Seq<char>, pattern: Seq<char>, from: int) -> Option<int>
    decreases s.len() - from,
{
    if from < 0 || from + pattern.len() > s.len() {
        None
    } else if occurs_at(s, pattern, from) {
        Some(from)
    } else {
        find_from(s, pattern, from + 1)
    }
}

/// The pieces of `s` between the occurrences of `pattern`, found from the
/// left and not overlapping. There is always at least one piece; a piece may
/// be empty.
pub open spec fn split_on(s: Seq<char>, pattern: Seq<char>) -> Seq<Seq<char>>
    decreases s.len(),
{
    match find_from(s, pattern, 0) {
        Some(at) => {
            if pattern.len() > 0 && 0 <= at && at + pattern.len() <= s.len() {
                seq![s.take(at)] + split_on(s.skip(at + pattern.len()), pattern)
            } else {
                seq![s]
            }
        },
        None => seq![s],
    }
}

/// The pieces put together again with `pattern` between each two.
pub open spec fn join(pieces: Seq<Seq<char>>, pattern: Seq<char>) -> Seq<char>
    decreases pieces.len(),
{
    if pieces.len() == 0 {
        Seq::empty()
    } else if pieces.len() == 1 {
        pieces[0]
    } else {
        pieces[0] + pattern + join(pieces.drop_first(), pattern)
    }
}

proof fn lemma_find_none(s: Seq<char>, pattern: Seq<char>, from: int)
    requires
        forall|k: int| from <= k ==> !occurs_at(s, pattern, k),
    ensures
        find_from(s, pattern, from) is None,
    decreases s.len() - from,
{
    if !(from < 0 || from + pattern.len() > s.len()) {
        lemma_find_none(s, pattern, from + 1);
    }
}

proof fn lemma_find_some(s: Seq<char>, pattern: Seq<char>, from: int, at: int)
    requires
        0 <= from <= at,
        occurs_at(s, pattern, at),
        forall|k: int| from <= k < at ==> !occurs_at(s, pattern, k),
    ensures
        find_from(s, pattern, from) == Some(at),
    decreases at - from,
{
    if from < at {
        lemma_find_some(s, pattern, from + 1, at);
    }
}

proof fn lemma_find_is_first(s: Seq<char>, pattern: Seq<char>, from: int)
    requires
        from >= 0,
    ensures
        match find_from(s, pattern, from) {
            Some(at) => from <= at && occurs_at(s, pattern, at) && forall|k: int|
                from <= k < at ==> !occurs_at(s, pattern, k),
            None => forall|k: int| from <= k ==> !occurs_at(s, pattern, k),
        },
    decreases s.len() - from,
{
    if !(from + pattern.len() > s.len()) && !occurs_at(s, pattern, from) {
        lemma_find_is_first(s, pattern, from + 1);
    }
}

/// Putting the pieces together again, with the pattern between each two,
/// gives back what was split.
pub proof fn lemma_split_join(s: Seq<char>, pattern: Seq<char>)
    ensures
        split_on(s, pattern).len() >= 1,
        join(split_on(s, pattern), pattern) == s,
    decreases s.len(),
{
    match find_from(s, pattern, 0) {
        Some(at) => {
            if pattern.len() > 0 && 0 <= at && at + pattern.len() <= s.len() {
                let rest = s.skip(at + pattern.len());
                lemma_split_join(rest, pattern);
                lemma_find_is_first(s, pattern, 0);
                let pieces = split_on(s, pattern);
                assert(pieces.drop_first() =~= split_on(rest, pattern));
                assert(s.subrange(at, at + pattern.len()) =~= pattern);
                assert(s.take(at) + pattern + rest =~= s);
            }
        },
        None => {},
    }
}

/// The pattern stands nowhere inside a piece.
pub proof fn lemma_split_pieces_clean(s: Seq<char>, pattern: Seq<char>)
    requires
        pattern.len() > 0,
    ensures
        forall|i: int, k: int|
            0 <= i < split_on(s, pattern).len() ==> !#[trigger] occurs_at(
                split_on(s, pattern)[i],
                pattern,
                k,
            ),
    decreases s.len(),
{
    lemma_find_is_first(s, pattern, 0);
    let pieces = split_on(s, pattern);
    match find_from(s, pattern, 0) {
        Some(at) => {
            let rest = s.skip(at + pattern.len());
            lemma_split_pieces_clean(rest, pattern);
            assert forall|i: int, k: int| 0 <= i < pieces.len() implies !#[trigger] occurs_at(
                pieces[i],
                pattern,
                k,
            ) by {
                if i == 0 {
                    if occurs_at(s.take(at), pattern, k) {
                        assert forall|j: int| 0 <= j < pattern.len() implies s[k + j]
                            == #[trigger] pattern[j] by {
                            assert(s.take(at)[k + j] == pattern[j]);
                        }
                        assert(occurs_at(s, pattern, k));
                    }
                } else {
                    assert(pieces[i] == split_on(rest, pattern)[i - 1]);
                }
            }
        },
        None => {
            assert(pieces =~= seq![s]);
        },
    }
}

/// The request that asks the segmenter for the segments of `chunk`: the
/// standing instructions, then the chunk between the two fixed parts of the
/// prompt.
pub fn segmenter_request(chunk: &str) -> (messages: Vec<Message>)
    ensures
        messages@.len() == 2,
        messages@[0].role@ == system_role(),
        messages@[0].content@ == SEGMENTER_INSTRUCTIONS@,
        messages@[1].role@ == user_role(),
        messages@[1].content@ == SEGMENTER_PROMPT_HEAD@ + chunk@ + SEGMENTER_PROMPT_TAIL@,
{
    let mut prompt = SEGMENTER_PROMPT_HEAD.to_owned();
    prompt.append(chunk);
    prompt.append(SEGMENTER_PROMPT_TAIL);
    prompt_messages(SEGMENTER_INSTRUCTIONS, prompt.as_str())
}

/// The characters of `s`, one by one.
pub fn chars_of(s: &str) -> (cs: Vec<char>)
    ensures
        cs@ == s@,
{
    let mut cs: Vec<char> = Vec::new();
    for c in it: s.chars()
        invariant
            cs@ == it.seq().take(it.index()),
            it.seq() == s@,
    {
        proof {
            assert(it.seq().take(it.index() + 1) =~= it.seq().take(it.index()).push(c));
        }
        cs.push(c);
    }
    proof {
        assert(s@.take(s@.len() as int) =~= s@);
    }
    cs
}

fn stands_at(cs: &Vec<char>, pattern: &Vec<char>, at: usize) -> (b: bool)
    requires
        at <= cs.len(),
    ensures
        b == occurs_at(cs@, pattern@, at as int),
{
    if pattern.len() > cs.len() - at {
        return false;
    }
    let mut j: usize = 0;
    while j < pattern.len()
        invariant
            j <= pattern.len(),
            at + pattern.len() <= cs.len(),
            forall|k: int| 0 <= k < j ==> cs@[at + k] == #[trigger] pattern@[k],
        decreases pattern.len() - j,
    {
        if cs[at + j] != pattern[j] {
            return false;
        }
        j = j + 1;
    }
    true
}

/// The pieces of `text` between the occurrences of `pattern`, found from the
/// left and not overlapping; `text` as its only piece where `pattern` is
/// empty.
pub fn split_text(text: &str, pattern: &str) -> (out: Vec<String>)
    ensures
        out@.len() == split_on(text@, pattern@).len(),
        forall|n: int| 0 <= n < out@.len() ==> (#[trigger] out@[n])@ == split_on(text@, pattern@)[n],
{
    let cs = chars_of(text);
    let pat = chars_of(pattern);
    let mut out: Vec<String> = Vec::new();
    let mut piece = String::new();
    let mut start: usize = 0;
    let mut i: usize = 0;
    if pat.len() == 0 {
        out.push(text.to_owned());
        return out;
    }
    proof {
        assert(cs@.skip(0) =~= cs@);
    }
    while i < cs.len()
        invariant
            start <= i <= cs.len(),
            pat@.len() > 0,
            piece@ == cs@.subrange(start as int, i as int),
            forall|k: int| 0 <= k < i - start ==> !occurs_at(cs@.skip(start as int), pat@, k),
            split_on(cs@, pat@).len() == out@.len() + split_on(cs@.skip(start as int), pat@).len(),
            forall|n: int| 0 <= n < out@.len() ==> (#[trigger] out@[n])@ == split_on(cs@, pat@)[n],
            forall|n: int|
                0 <= n < split_on(cs@.skip(start as int), pat@).len() ==> split_on(
                    cs@,
                    pat@,
                )[out@.len() + n] == #[trigger] split_on(cs@.skip(start as int), pat@)[n],
        decreases cs.len() - i,
    {
        let ghost rest = cs@.skip(start as int);
        if stands_at(&cs, &pat, i) {
            proof {
                assert(occurs_at(rest, pat@, i - start)) by {
                    assert forall|j: int| 0 <= j < pat@.len() implies rest[i - start + j]
                        == #[trigger] pat@[j] by {
                        assert(cs@[i + j] == pat@[j]);
                    }
                }
                lemma_find_some(rest, pat@, 0, i - start);
                let after = cs@.skip(i + pat@.len());
                assert(rest.skip(i - start + pat@.len()) =~= after);
                assert(rest.take(i - start) =~= piece@);
                assert(split_on(rest, pat@) =~= seq![piece@] + split_on(after, pat@));
                assert(split_on(rest, pat@)[0] == piece@);
                assert forall|n: int| 0 <= n < split_on(after, pat@).len() implies split_on(
                    cs@,
                    pat@,
                )[out@.len() + 1 + n] == #[trigger] split_on(after, pat@)[n] by {
                    assert(split_on(rest, pat@)[n + 1] == split_on(after, pat@)[n]);
                }
            }
            out.push(piece);
            piece = String::new();
            i = i + pat.len();
            start = i;
            proof {
                assert(piece@ =~= cs@.subrange(start as int, i as int));
            }
        } else {
            proof {
                assert(!occurs_at(rest, pat@, i - start)) by {
                    if occurs_at(rest, pat@, i - start) {
                        assert forall|j: int| 0 <= j < pat@.len() implies cs@[i + j]
                            == #[trigger] pat@[j] by {
                            assert(rest[i - start + j] == pat@[j]);
                        }
                    }
                }
                assert(cs@.subrange(start as int, i + 1) =~= piece@.push(cs@[i as int]));
            }
            piece.push(cs[i]);
            i = i + 1;
        }
    }
    proof {
        let rest = cs@.skip(start as int);
        lemma_find_none(rest, pat@, 0);
        assert(piece@ =~= rest);
        assert(split_on(rest, pat@) =~= seq![rest]);
        assert(split_on(rest, pat@)[0] == piece@);
    }
    out.push(piece);
    out
}

/// The segments of a reply of the segmenter, in the order in which the
/// reply holds them: what stands between the delimiters, with nothing added
/// or taken away.
pub fn split_segments(reply: &str) -> (segments: Vec<String>)
    ensures
        segments@.len() == split_on(reply@, delimiter()).len(),
        forall|n: int|
            0 <= n < segments@.len() ==> (#[trigger] segments@[n])@ == split_on(
                reply@,
                delimiter(),
            )[n],
{
    proof {
        reveal_strlit("~>_^~");
        assert("~>_^~"@ =~= delimiter());
    }
    split_text(reply, "~>_^~")
}

/// The segments of the reply that the segmenter gave for the chunk with the
/// index `chunk`.
pub fn segments_of(reply: &str, chunk: usize) -> (segments: Vec<TextSegment>)
    ensures
        segments@.len() == split_on(reply@, delimiter()).len(),
        forall|n: int|
            0 <= n < segments@.len() ==> (#[trigger] segments@[n]).text@ == split_on(
                reply@,
                delimiter(),
            )[n] && segments@[n].chunk == chunk,
{
    let texts = split_segments(reply);
    let total: usize = texts.len();
    let ghost pieces = split_on(reply@, delimiter());
    let mut segments: Vec<TextSegment> = Vec::new();
    let mut i: usize = 0;
    for text in it: texts
        invariant
            i == it.index(),
            it.seq().len() == total,
            it.seq().len() == pieces.len(),
            forall|n: int| 0 <= n < it.seq().len() ==> (#[trigger] it.seq()[n])@ == pieces[n],
            segments@.len() == i,
            forall|n: int|
                0 <= n < i ==> (#[trigger] segments@[n]).text@ == pieces[n] && segments@[n].chunk
                    == chunk,
    {
        segments.push(TextSegment { text, chunk });
        i = i + 1;
    }
    segments
}

} // verus!

//! Splitting a document into the chunks that are embedded and placed.
use vstd::prelude::*;
use crate::text::{chars_of, split_on, split_chars, trim, trim_bounds, trim_nonempty, trim_nonempty_of, string_range, string_of};

verus! {

/// The paragraph break: one blank line.
pub open spec fn paragraph_sep() -> Seq<char> {
    seq!['\n', '\n']
}

/// The chunks `paragraph_split` yields for `text`: its trimmed, non-empty
/// paragraphs, or — when no paragraph survives — the whole trimmed text,
/// unless that is empty too.
pub open spec fn paragraph_chunks(text: Seq<char>) -> Seq<Seq<char>> {
    let chunks = trim_nonempty(split_on(text, paragraph_sep()));
    if chunks.len() > 0 {
        chunks
    } else if trim(text).len() == 0 {
        Seq::empty()
    } else {
        seq![trim(text)]
    }
}

/// The statements an LLM reply lists: its trimmed, non-empty lines.
pub open spec fn reply_statements(reply: Seq<char>) -> Seq<Seq<char>> {
    if reply.len() == 0 {
        Seq::empty()
    } else {
        trim_nonempty(split_on(reply, seq!['\n']))
    }
}

/// The prompt `llm_split` hands the model for `text` and `hint`.
pub open spec fn split_prompt(text: Seq<char>, hint: Seq<char>) -> Seq<char> {
    let context = if hint.len() == 0 {
        Seq::empty()
    } else {
        " This text describes "@ + hint + "."@
    };
    "Extract the key factual statements from the following text."@ + context
        + " One statement per line. No numbering. No commentary.\n\n"@ + text
}

/// Splits `text` on blank lines into trimmed, non-empty paragraphs. Text with
/// no paragraph break that is not blank is one chunk; blank text is none.
pub fn paragraph_split(text: &str) -> (r: Vec<String>)
    ensures
        r.deep_view() == paragraph_chunks(text@),
{
    let v = chars_of(text);
    let sep = vec!['\n', '\n'];
    assert(sep@ =~= paragraph_sep());
    let parts = split_chars(v.as_slice(), sep.as_slice());
    let chunks = trim_nonempty_of(&parts);
    if chunks.len() > 0 {
        return chunks;
    }
    let (a, b) = trim_bounds(v.as_slice());
    if a == b {
        let empty: Vec<String> = Vec::new();
        assert(empty.deep_view() =~= Seq::<Seq<char>>::empty());
        empty
    } else {
        let t = string_range(v.as_slice(), a, b);
        let mut one: Vec<String> = Vec::new();
        one.push(t);
        assert(one.deep_view() =~= seq![trim(text@)]);
        one
    }
}

/// Asks `llm` for the key statements of `text` (naming `hint` as what the
/// text describes when one is given) and keeps the reply's trimmed, non-empty
/// lines. An empty reply yields nothing.
pub fn llm_split<F: Fn(&str) -> String>(text: &str, hint: &str, llm: &F) -> (r: Vec<String>)
    requires
        forall|q: &str| #[trigger] call_requires(*llm, (q,)),
    ensures
        exists|prompt: &str, reply: String|
            {
                &&& prompt@ == split_prompt(text@, hint@)
                &&& #[trigger] call_ensures(*llm, (prompt,), reply)
                &&& r.deep_view() == reply_statements(reply@)
            },
{
    let mut prompt = String::from_str("Extract the key factual statements from the following text.");
    if !hint.is_empty() {
        prompt.append(" This text describes ");
        prompt.append(hint);
        prompt.append(".");
    }
    prompt.append(" One statement per line. No numbering. No commentary.\n\n");
    prompt.append(text);
    assert(prompt@ =~= split_prompt(text@, hint@));
    let p = prompt.as_str();
    let response = llm(p);
    if response.as_str().is_empty() {
        let empty: Vec<String> = Vec::new();
        assert(empty.deep_view() =~= reply_statements(response@));
        return empty;
    }
    let v = chars_of(response.as_str());
    let nl = vec!['\n'];
    assert(nl@ =~= seq!['\n']);
    let parts = split_chars(v.as_slice(), nl.as_slice());
    let r = trim_nonempty_of(&parts);
    assert(call_ensures(*llm, (p,), response));
    r
}

/// What `split` yields once the model's reply is known: its statements, or
/// the paragraphs of `text` when the reply listed none.
pub open spec fn chunks_after_reply(text: Seq<char>, reply: Seq<char>) -> Seq<Seq<char>> {
    if reply_statements(reply).len() > 0 {
        reply_statements(reply)
    } else {
        paragraph_chunks(text)
    }
}

/// A piece is clean when it is non-empty and neither starts nor ends with
/// whitespace.
pub open spec fn is_clean_piece(t: Seq<char>) -> bool {
    t.len() > 0 && !crate::text::is_ws(t[0]) && !crate::text::is_ws(t.last())
}

/// Chunks the text for embedding: the statements `llm` extracts when a model is
/// given and it lists any, otherwise the text's paragraphs.
pub fn split<F: Fn(&str) -> String>(text: &str, hint: &str, llm: Option<&F>) -> (r: Vec<String>)
    requires
        llm matches Some(f) ==> forall|q: &str| #[trigger] call_requires(*f, (q,)),
    ensures
        llm is None ==> r.deep_view() == paragraph_chunks(text@),
        llm matches Some(f) ==> exists|prompt: &str, reply: String|
            {
                &&& prompt@ == split_prompt(text@, hint@)
                &&& #[trigger] call_ensures(*f, (prompt,), reply)
                &&& r.deep_view() == chunks_after_reply(text@, reply@)
            },
{
    if let Some(llm_fn) = llm {
        let result = llm_split(text, hint, llm_fn);
        if result.len() > 0 {
            return result;
        }
        let r = paragraph_split(text);
        return r;
    }
    paragraph_split(text)
}

/// Every chunk `split` can yield — from the paragraphs or from a reply — is
/// non-empty and trimmed.
pub proof fn lemma_chunks_are_clean(text: Seq<char>, reply: Seq<char>)
    ensures
        forall|i: int| 0 <= i < paragraph_chunks(text).len() ==> is_clean_piece(
            #[trigger] paragraph_chunks(text)[i],
        ),
        forall|i: int| 0 <= i < chunks_after_reply(text, reply).len() ==> is_clean_piece(
            #[trigger] chunks_after_reply(text, reply)[i],
        ),
{
    crate::text::lemma_trim_nonempty_clean(split_on(text, paragraph_sep()));
    crate::text::lemma_trim_nonempty_clean(split_on(reply, seq!['\n']));
    crate::text::lemma_trim_shape(text);
    assert forall|i: int| 0 <= i < paragraph_chunks(text).len() implies is_clean_piece(
        #[trigger] paragraph_chunks(text)[i],
    ) by {
        let ch = trim_nonempty(split_on(text, paragraph_sep()));
        if ch.len() > 0 {
            assert(ch[i].len() > 0);
        }
    }
    assert forall|i: int| 0 <= i < chunks_after_reply(text, reply).len() implies is_clean_piece(
        #[trigger] chunks_after_reply(text, reply)[i],
    ) by {
        if reply_statements(reply).len() > 0 {
            let ch = trim_nonempty(split_on(reply, seq!['\n']));
            assert(ch[i].len() > 0);
        } else {
            assert(paragraph_chunks(text)[i] == chunks_after_reply(text, reply)[i]);
        }
    }
}

} // verus!

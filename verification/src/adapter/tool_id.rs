//! Identifiers of tool calls, which carry the identifier of the model call that made them.

use vstd::prelude::*;
use crate::text;
use crate::text_laws;

verus! {

/// What stands between the identifier of a tool call and that of its model call.
pub open spec fn separator() -> Seq<char> {
    "\nmc_"@
}

/// The identifier of a tool call with that of its model call: `{tool_call_id}\nmc_{model_call_id}`.
pub open spec fn formatted(tool_call_id: Seq<char>, model_call_id: Option<Seq<char>>) -> Seq<char> {
    match model_call_id {
        Some(m) => tool_call_id + separator() + m,
        None => tool_call_id,
    }
}

/// The identifiers that were joined, taken apart at the first separator; one without a separator is
/// that of a tool call alone.
pub open spec fn parsed(s: Seq<char>) -> (Seq<char>, Option<Seq<char>>) {
    match text::find(s, separator(), 0) {
        Some(i) => (s.take(i), Some(s.skip(i + separator().len()))),
        None => (s, None),
    }
}

/// The identifier of a tool call and that of its model call.
pub struct ToolId {
    pub tool_call_id: String,
    pub model_call_id: Option<String>,
}

impl ToolId {
    /// Joins the identifiers.
    pub fn format(tool_call_id: String, model_call_id: Option<String>) -> (r: String)
        ensures
            r@ == formatted(tool_call_id@, text::opt(model_call_id)),
    {
        let mut id = tool_call_id;
        if let Some(model) = model_call_id {
            id.append("\nmc_");
            id.append(model.as_str());
        }
        id
    }

    /// Takes the identifiers apart at the first separator.
    pub fn parse(s: &str) -> (r: ToolId)
        ensures
            (r.tool_call_id@, text::opt(r.model_call_id)) == parsed(s@),
    {
        match text::split_once(s, "\nmc_") {
            Some((tool, model)) => ToolId { tool_call_id: tool, model_call_id: Some(model) },
            None => ToolId { tool_call_id: s.to_owned(), model_call_id: None },
        }
    }
}

/// Taking joined identifiers apart gives them back, where that of the tool call holds no separator.
pub proof fn parse_undoes_format(tool: Seq<char>, model: Option<Seq<char>>)
    requires
        !text::has(tool, separator()),
    ensures
        parsed(formatted(tool, model)) == (tool, model),
{
    reveal_strlit("\nmc_");
    let sep = separator();
    if let Some(m) = model {
        let s = formatted(tool, model);
        let n = tool.len() as int;
        assert(s.subrange(n, n + sep.len()) =~= sep);
        assert forall|i: int| 0 <= i < n implies !(#[trigger] text::occurs_at(s, sep, i)) by {
            text_laws::lemma_nowhere(tool, sep, 0, i);
            if text::occurs_at(s, sep, i) {
                let there = s.subrange(i, i + sep.len());
                if i + sep.len() <= n {
                    assert(tool.subrange(i, i + sep.len()) =~= there);
                } else {
                    assert(there[n - i] == s[n]);
                    assert(s[n] == '\n');
                }
            }
        }
        lemma_find_skips(s, sep, 0, n);
        assert(s.take(n) =~= tool);
        assert(s.skip(n + sep.len()) =~= m);
    }
}

proof fn lemma_find_skips(s: Seq<char>, p: Seq<char>, from: int, to: int)
    requires
        0 <= from <= to,
        to + p.len() <= s.len(),
        text::occurs_at(s, p, to),
        forall|i: int| from <= i < to ==> !(#[trigger] text::occurs_at(s, p, i)),
    ensures
        text::find(s, p, from) == Some(to),
    decreases to - from,
{
    if from < to {
        assert(!text::occurs_at(s, p, from));
        lemma_find_skips(s, p, from + 1, to);
    }
}

} // verus!

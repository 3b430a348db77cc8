//! Names of tools, which carry the name of the server that offers them.

use vstd::prelude::*;
use crate::text;

verus! {

/// The name of a tool and of its server.
pub struct ToolName {
    pub tool_name: String,
    pub name: String,
    pub server_name: String,
}

/// The name of the server in `mcp__{server}__{tool}`; `custom` where there is none.
pub open spec fn server_of(s: Seq<char>) -> Seq<char> {
    if text::begins(s, "mcp__"@) {
        let rest = s.skip("mcp__"@.len() as int);
        match text::find(rest, "__"@, 0) {
            Some(i) => rest.take(i),
            None => "custom"@,
        }
    } else {
        "custom"@
    }
}

/// The name of the tool in `mcp__{server}__{tool}`; without a server, all after `mcp__`; without
/// `mcp__`, all.
pub open spec fn tool_of(s: Seq<char>) -> Seq<char> {
    if text::begins(s, "mcp__"@) {
        let rest = s.skip("mcp__"@.len() as int);
        match text::find(rest, "__"@, 0) {
            Some(i) => rest.skip(i + "__"@.len()),
            None => rest,
        }
    } else {
        s
    }
}

impl ToolName {
    /// Takes a name apart, and joins the parts to `mcp_{server}_{tool}`.
    pub fn parse(s: &str) -> (r: ToolName)
        ensures
            r.server_name@ == server_of(s@),
            r.name@ == tool_of(s@),
            r.tool_name@ == "mcp_"@ + server_of(s@) + "_"@ + tool_of(s@),
    {
        let server_name: String;
        let name: String;
        match text::strip_prefix(s, "mcp__") {
            Some(rest) => match text::split_once(rest.as_str(), "__") {
                Some((server, tool)) => {
                    server_name = server;
                    name = tool;
                },
                None => {
                    server_name = "custom".to_owned();
                    name = rest;
                },
            },
            None => {
                server_name = "custom".to_owned();
                name = s.to_owned();
            },
        }
        let mut tool_name = "mcp_".to_owned();
        tool_name.append(server_name.as_str());
        tool_name.append("_");
        tool_name.append(name.as_str());
        ToolName { tool_name, name, server_name }
    }
}

} // verus!

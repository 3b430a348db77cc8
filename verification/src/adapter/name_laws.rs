//! Identifiers and names of tools, taken apart and joined; the parts of a request.

use vstd::prelude::*;
use crate::adapter::content::{
    ComposerExternalLink, Image, ImageSource, ImageSourceBase64, MediaType, RawContent, Tool,
};
use crate::adapter::tool_id::ToolId;
use crate::adapter::tool_name::ToolName;
use crate::text;
use crate::text_laws;

verus! {

/// The identifier of a tool call stands alone, or before that of its model call.
pub proof fn identifiers_are_joined(tool: String, model: Option<String>, r: String)
    requires
        call_ensures(ToolId::format, (tool, model), r),
    ensures
        model is None ==> r@ == tool@,
        model matches Some(m) ==> r@ == tool@ + "\nmc_"@ + m@,
{
}

/// Identifiers are taken apart where they were joined: joined again they are what they were, and the
/// first does not hold what stands between them.
pub proof fn identifiers_are_taken_apart(s: &str, r: ToolId)
    requires
        call_ensures(ToolId::parse, (s,), r),
    ensures
        r.model_call_id is None ==> r.tool_call_id@ == s@ && !text::has(s@, "\nmc_"@),
        r.model_call_id matches Some(m) ==> s@ == r.tool_call_id@ + "\nmc_"@ + m@,
        r.model_call_id is Some ==> text::find(s@, "\nmc_"@, 0) == Some(
            r.tool_call_id@.len() as int,
        ),
{
    text_laws::lemma_find_props(s@, "\nmc_"@, 0);
    if let Some(i) = text::find(s@, "\nmc_"@, 0) {
        let n = "\nmc_"@.len();
        assert(s@.subrange(i, i + n) == "\nmc_"@);
        assert(s@ =~= s@.take(i) + "\nmc_"@ + s@.skip(i + n));
    }
}

/// Joining what was taken apart, and taking apart what was joined, changes nothing.
pub proof fn identifiers_survive_the_trip(
    s: &str,
    r: ToolId,
    joined: String,
    tool: String,
    model: Option<String>,
    id: String,
    t: &str,
    back: ToolId,
)
    requires
        call_ensures(ToolId::parse, (s,), r),
        call_ensures(ToolId::format, (r.tool_call_id, r.model_call_id), joined),
        call_ensures(ToolId::format, (tool, model), id),
        t@ == id@,
        call_ensures(ToolId::parse, (t,), back),
        !text::has(tool@, "\nmc_"@),
    ensures
        joined@ == s@,
        back.tool_call_id@ == tool@,
        text::opt(back.model_call_id) == text::opt(model),
{
    identifiers_are_taken_apart(s, r);
    crate::adapter::tool_id::parse_undoes_format(tool@, text::opt(model));
}

/// A name of the form `mcp__server__tool` is that of the tool of the server, parted at the first place
/// where it can be; any other is the name of a tool without a server.
pub proof fn names_are_taken_apart(s: &str, r: ToolName)
    requires
        call_ensures(ToolName::parse, (s,), r),
    ensures
        r.tool_name@ == "mcp_"@ + r.server_name@ + "_"@ + r.name@,
        !text::begins(s@, "mcp__"@) ==> r.server_name@ == "custom"@ && r.name@ == s@,
        text::begins(s@, "mcp__"@) ==> {
            let rest = s@.skip(5);
            &&& !text::has(rest, "__"@) ==> r.server_name@ == "custom"@ && s@ == "mcp__"@ + r.name@
            &&& text::has(rest, "__"@) ==> s@ == "mcp__"@ + r.server_name@ + "__"@ + r.name@
                && text::find(rest, "__"@, 0) == Some(r.server_name@.len() as int)
        },
{
    reveal_strlit("mcp__");
    reveal_strlit("__");
    if text::begins(s@, "mcp__"@) {
        let rest = s@.skip(5);
        assert(s@.subrange(0, 5) == "mcp__"@);
        assert(s@ =~= "mcp__"@ + rest);
        text_laws::lemma_find_props(rest, "__"@, 0);
        if let Some(i) = text::find(rest, "__"@, 0) {
            assert(rest.subrange(i, i + 2) == "__"@);
            assert(rest =~= rest.take(i) + "__"@ + rest.skip(i + 2));
            assert(s@ =~= "mcp__"@ + rest.take(i) + "__"@ + rest.skip(i + 2));
        }
    }
}

/// Each type of an image has its own name.
pub proof fn types_have_names(t: MediaType, r: &'static str)
    requires
        call_ensures(MediaType::as_mime, (t,), r),
    ensures
        t is ImagePng ==> r@ == "image/png"@,
        t is ImageJpeg ==> r@ == "image/jpeg"@,
        t is ImageGif ==> r@ == "image/gif"@,
        t is ImageWebp ==> r@ == "image/webp"@,
{
}

/// An image is taken as it is or by its address; a tool is taken apart into its name, its description
/// and the schema of its input.
pub proof fn parts_are_taken_as_they_are(
    source: &ImageSource,
    r: Result<&ImageSourceBase64, &str>,
    tool: Tool,
    t: (String, Option<String>, String),
)
    requires
        call_ensures(ImageSource::extract, (source,), r),
        call_ensures(Tool::extract, (tool,), t),
    ensures
        *source matches ImageSource::Base64(b) ==> r is Ok && *(r->Ok_0) == b,
        *source matches ImageSource::Url { url } ==> r is Err && (r->Err_0)@ == url@,
        t.0 == tool.name,
        t.1 == tool.description,
        t.2 == tool.input_schema,
{
}

/// Copies hold the same.
pub proof fn copies_hold_the_same(
    image: &Image,
    i: Image,
    raw: &RawContent,
    c: RawContent,
    link: &ComposerExternalLink,
    l: ComposerExternalLink,
)
    requires
        call_ensures(Image::copy, (image,), i),
        call_ensures(RawContent::copy, (raw,), c),
        call_ensures(ComposerExternalLink::copy, (link,), l),
    ensures
        i.data@ == image.data@ && i.width == image.width && i.height == image.height,
        *raw matches RawContent::Text(s) ==> (c matches RawContent::Text(t) && t@ == s@),
        *raw matches RawContent::Image { data, mime_type } ==> (c matches RawContent::Image {
            data: d,
            mime_type: m,
        } && d@ == data@ && m@ == mime_type@),
        l.url@ == link.url@ && l.number == link.number && l.pdf_content@ == link.pdf_content@,
        l.is_pdf == link.is_pdf && l.filename@ == link.filename@,
{
}

} // verus!

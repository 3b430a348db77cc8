//! What holds of every converted request.

use vstd::prelude::*;
use crate::adapter::anthropic;
use crate::adapter::content;
use crate::adapter::content::{
    AdapterError, ContentBlockParam, Image, MessageParam, MessageType, Role,
};
use crate::adapter::tool_id;
use crate::adapter::tool_name;
use crate::stream::decoder;
use crate::text;

verus! {

/// The record of a call of a tool carries the identifier of the call and that of the model call,
/// as they were joined in the identifier that the client sent back.
pub proof fn record_keeps_model_call(
    tool: Seq<char>,
    model: Option<Seq<char>>,
    name: Seq<char>,
    input: Seq<char>,
    contents: Seq<content::RawView>,
    is_error: bool,
)
    requires
        !text::has(tool, tool_id::separator()),
    ensures
        ({
            let id = tool_id::formatted(tool, model);
            let r = anthropic::record_of(id, name, input, contents, is_error);
            r.tool_call_id == tool && r.model_call_id == model
        }),
{
    tool_id::parse_undoes_format(tool, model);
}

proof fn lemma_keeps_drafts(
    params: Seq<MessageParam>,
    o: anthropic::Outside,
    i: int,
    st: anthropic::Outlined,
)
    requires
        0 <= i,
        anthropic::outlined_from(params, o, i, st) is Ok,
        st.drafts.len() > 0,
    ensures
        ({
            let d = anthropic::outlined_from(params, o, i, st)->Ok_0;
            d.len() >= st.drafts.len() && d[0] == st.drafts[0]
        }),
    decreases params.len() - i,
{
    if i < params.len() {
        let (next, j) = anthropic::outline_step(params, o, i, st)->Ok_0;
        lemma_keeps_drafts(params, o, j, next);
    }
}

/// The first message that goes upstream is one of the user.
pub proof fn first_message_is_human(
    params: Seq<MessageParam>,
    o: anthropic::Outside,
    found: Seq<anthropic::FoundView>,
    is_agentic: bool,
)
    requires
        params.len() > 0,
        anthropic::outlined(params, o) is Ok,
        found.len() == (anthropic::outlined(params, o)->Ok_0).len(),
    ensures
        ({
            let drafts = anthropic::outlined(params, o)->Ok_0;
            let messages = anthropic::conversation(drafts, found, is_agentic);
            &&& drafts.len() > 0
            &&& drafts[0].role == Role::User
            &&& messages.len() > 0
            &&& messages[0].message_type == MessageType::Human
        }),
{
    let drafts = anthropic::outlined(params, o)->Ok_0;
    if params[0].role == Role::Assistant {
        let first = seq![anthropic::text_draft(Role::User, Seq::empty())];
        lemma_keeps_drafts(
            params,
            o,
            0,
            anthropic::Outlined { drafts: first, images: 0, downloads: 0 },
        );
    } else {
        let st = anthropic::Outlined { drafts: Seq::empty(), images: 0, downloads: 0 };
        let (next, j) = anthropic::outline_step(params, o, 0, st)->Ok_0;
        lemma_keeps_drafts(params, o, j, next);
    }
    lemma_first_message(drafts.zip_with(found), is_agentic, drafts.len() as int);
}

proof fn lemma_first_message(
    pairs: Seq<(anthropic::DraftView, anthropic::FoundView)>,
    is_agentic: bool,
    k: int,
)
    requires
        0 < k <= pairs.len(),
    ensures
        anthropic::assembled(pairs, is_agentic, k).len() > 0,
        anthropic::assembled(pairs, is_agentic, k)[0] == anthropic::message_of(
            pairs[0].0,
            pairs[0].1,
            0,
            is_agentic,
        ),
    decreases k,
{
    if k == 1 {
        assert(anthropic::assembled(pairs, is_agentic, 0) =~= Seq::empty());
    } else {
        lemma_first_message(pairs, is_agentic, k - 1);
    }
}

/// All numbers of the parts of a message lie below the next number, and no two are the same.
pub open spec fn numbered_apart(p: anthropic::UserParts) -> bool {
    &&& forall|i: int| 0 <= i < p.images.len() ==> (#[trigger] p.images[i]).1 < p.numbers
    &&& forall|i: int| 0 <= i < p.links.len() ==> (#[trigger] p.links[i]).number < p.numbers
    &&& forall|i: int, j: int|
        0 <= i < j < p.images.len() ==> (#[trigger] p.images[i]).1 != (#[trigger] p.images[j]).1
    &&& forall|i: int, j: int|
        0 <= i < j < p.links.len() ==> (#[trigger] p.links[i]).number != (
        #[trigger] p.links[j]).number
    &&& forall|i: int, j: int|
        0 <= i < p.images.len() && 0 <= j < p.links.len() ==> (#[trigger] p.images[i]).1 != (
        #[trigger] p.links[j]).number
}

proof fn lemma_numbered_apart(
    blocks: Seq<ContentBlockParam>,
    image_support: bool,
    images: Seq<Result<Image, AdapterError>>,
    k: int,
    p: anthropic::UserParts,
)
    requires
        0 <= k,
        numbered_apart(p),
        anthropic::user_from(blocks, image_support, images, k, p) is Ok,
    ensures
        numbered_apart(anthropic::user_from(blocks, image_support, images, k, p)->Ok_0),
    decreases blocks.len() - k,
{
    if k < blocks.len() {
        let q = anthropic::user_step(blocks[k], image_support, images, p)->Ok_0;
        assert(numbered_apart(q));
        lemma_numbered_apart(blocks, image_support, images, k + 1, q);
    }
}

/// No two images or links of a message have the same number.
pub proof fn images_and_links_are_numbered_apart(
    blocks: Seq<ContentBlockParam>,
    image_support: bool,
    images: Seq<Result<Image, AdapterError>>,
    used: nat,
)
    requires
        anthropic::user_parts(blocks, image_support, images, used) is Ok,
    ensures
        numbered_apart(anthropic::user_parts(blocks, image_support, images, used)->Ok_0),
{
    lemma_numbered_apart(
        blocks,
        image_support,
        images,
        0,
        anthropic::UserParts {
            texts: Seq::empty(),
            images: Seq::empty(),
            links: Seq::empty(),
            numbers: 0,
            used,
        },
    );
}

/// The numbers of one message lie before those of the next, as long as they do not start anew.
pub proof fn messages_are_numbered_in_order(
    d: anthropic::DraftView,
    f: anthropic::FoundView,
    base: u64,
    is_agentic: bool,
)
    requires
        d.role == Role::User,
        base + d.numbers + f.links.len() <= u64::MAX,
        forall|i: int| 0 <= i < d.images.len() ==> (#[trigger] d.images[i]).1 < d.numbers,
        forall|i: int| 0 <= i < d.links.len() ==> (#[trigger] d.links[i]).number < d.numbers,
    ensures
        ({
            let m = anthropic::message_of(d, f, base, is_agentic);
            let next = anthropic::base_after(d, f, base);
            &&& forall|i: int|
                0 <= i < m.images.len() ==> base <= (#[trigger] m.images[i]).1 < next
            &&& forall|i: int|
                0 <= i < m.external_links.len() ==> base <= (#[trigger] m.external_links[i]).number
                    < next
        }),
{
}

/// Without support for images no image goes upstream, and none is asked for.
pub proof fn no_images_without_support(
    blocks: Seq<ContentBlockParam>,
    images: Seq<Result<Image, AdapterError>>,
    used: nat,
)
    ensures
        anthropic::user_parts(blocks, false, images, used) matches Ok(p) && p.images.len() == 0
            && p.used == used,
{
    lemma_no_images(
        blocks,
        images,
        0,
        anthropic::UserParts {
            texts: Seq::empty(),
            images: Seq::empty(),
            links: Seq::empty(),
            numbers: 0,
            used,
        },
    );
}

proof fn lemma_no_images(
    blocks: Seq<ContentBlockParam>,
    images: Seq<Result<Image, AdapterError>>,
    k: int,
    p: anthropic::UserParts,
)
    requires
        0 <= k,
        p.images.len() == 0,
    ensures
        anthropic::user_from(blocks, false, images, k, p) matches Ok(q) && q.images.len() == 0
            && q.used == p.used,
    decreases blocks.len() - k,
{
    if k < blocks.len() {
        let q = anthropic::user_step(blocks[k], false, images, p)->Ok_0;
        lemma_no_images(blocks, images, k + 1, q);
    }
}

/// The name under which a tool of a server is called is taken apart into the server and the tool,
/// where the name of the server does not run into the separator.
pub proof fn call_name_is_read_back(server: Seq<char>, name: Seq<char>)
    requires
        server != "custom"@,
        text::find(server + "__"@ + name, "__"@, 0) == Some(server.len() as int),
    ensures
        tool_name::server_of(decoder::call_name(seq![(server, name)])) == server,
        tool_name::tool_of(decoder::call_name(seq![(server, name)])) == name,
{
    reveal_strlit("mcp__");
    reveal_strlit("__");
    let s = decoder::call_name(seq![(server, name)]);
    let rest = server + "__"@ + name;
    let n = server.len() as int;
    assert(s =~= "mcp__"@ + rest);
    assert(s.subrange(0, 5) =~= "mcp__"@);
    assert(s.skip(5) =~= rest);
    assert(rest.take(n) =~= server);
    assert(rest.skip(n + 2) =~= name);
}

/// The name under which a tool without a server of its own is called stands for itself.
pub proof fn custom_call_name_is_read_back(name: Seq<char>)
    requires
        !text::begins(name, "mcp__"@),
    ensures
        tool_name::server_of(decoder::call_name(seq![("custom"@, name)])) == "custom"@,
        tool_name::tool_of(decoder::call_name(seq![("custom"@, name)])) == name,
{
}

} // verus!

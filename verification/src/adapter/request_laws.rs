//! What a request says upstream, message by message.

use vstd::prelude::*;
use crate::adapter::anthropic;
use crate::adapter::anthropic::{
    add_to, assemble, download_urls, encode_tool_result, image_sources, instructions, outline,
    process_base64_image, process_message_params, size_hint, with_format, Draft, DraftView, Found,
    FoundView, Outlined, Outside, ToolResultMessage, UserParts,
};
use crate::adapter::content;
use crate::adapter::content::{
    AdapterError, ComposerExternalLink, ContentBlockParam, ConversationMessage, DocumentSource,
    Image, ImageFormat, ImageSource, ImageSourceBase64, MediaType, MessageContent, MessageParam,
    MessageType, RawContent, RawView, Role, SystemContent, ToolResultContent,
    ToolResultContentBlock, UnifiedMode,
};
use crate::adapter::tool_id;
use crate::codec;
use crate::stream::message;
use crate::stream::message::WebReference;
use crate::text;
use crate::text_laws;

verus! {

/// What the chosen elements become, in order.
pub open spec fn pick<A, B>(s: Seq<A>, f: spec_fn(A) -> bool, g: spec_fn(A) -> B) -> Seq<B> {
    s.filter(f).map_values(g)
}

proof fn lemma_pick_add<A, B>(a: Seq<A>, b: Seq<A>, f: spec_fn(A) -> bool, g: spec_fn(A) -> B)
    ensures
        pick(a + b, f, g) == pick(a, f, g) + pick(b, f, g),
{
    Seq::filter_distributes_over_add(a, b, f);
    assert(pick(a + b, f, g) =~= pick(a, f, g) + pick(b, f, g));
}

proof fn lemma_pick_one<A, B>(x: A, f: spec_fn(A) -> bool, g: spec_fn(A) -> B)
    ensures
        pick(seq![x], f, g) == (if f(x) {
            seq![g(x)]
        } else {
            Seq::empty()
        }),
        pick(Seq::<A>::empty(), f, g) == Seq::<B>::empty(),
{
    reveal(Seq::filter);
    let s = seq![x];
    assert(s.drop_last() =~= Seq::empty());
    assert(Seq::<A>::empty().filter(f) =~= Seq::empty());
    assert(s.filter(f) =~= (if f(x) {
        seq![x]
    } else {
        Seq::empty()
    }));
    assert(pick(s, f, g) =~= (if f(x) {
        seq![g(x)]
    } else {
        Seq::empty()
    }));
    assert(pick(Seq::<A>::empty(), f, g) =~= Seq::<B>::empty());
}

proof fn lemma_pick_next<A, B>(s: Seq<A>, k: int, f: spec_fn(A) -> bool, g: spec_fn(A) -> B)
    requires
        0 <= k < s.len(),
    ensures
        pick(s.skip(k), f, g) == pick(seq![s[k]], f, g) + pick(s.skip(k + 1), f, g),
        pick(s.take(k + 1), f, g) == pick(s.take(k), f, g) + pick(seq![s[k]], f, g),
{
    assert(s.skip(k) =~= seq![s[k]] + s.skip(k + 1));
    lemma_pick_add(seq![s[k]], s.skip(k + 1), f, g);
    assert(s.take(k + 1) =~= s.take(k) + seq![s[k]]);
    lemma_pick_add(s.take(k), seq![s[k]], f, g);
}

/// The texts among the blocks.
pub open spec fn texts(blocks: Seq<ContentBlockParam>) -> Seq<Seq<char>> {
    pick(
        blocks,
        |b: ContentBlockParam| b is Text,
        |b: ContentBlockParam|
            match b {
                ContentBlockParam::Text { text } => text@,
                _ => Seq::empty(),
            },
    )
}

/// The images among the blocks.
pub open spec fn sources(blocks: Seq<ContentBlockParam>) -> Seq<ImageSource> {
    pick(
        blocks,
        |b: ContentBlockParam| b is Image,
        |b: ContentBlockParam|
            match b {
                ContentBlockParam::Image { source } => source,
                _ => arbitrary(),
            },
    )
}

/// The documents among the blocks.
pub open spec fn documents(blocks: Seq<ContentBlockParam>) -> Seq<DocumentSource> {
    pick(
        blocks,
        |b: ContentBlockParam| b is Document,
        |b: ContentBlockParam|
            match b {
                ContentBlockParam::Document { source } => source,
                _ => arbitrary(),
            },
    )
}

/// The pieces of reasoning among the blocks.
pub open spec fn thoughts(blocks: Seq<ContentBlockParam>) -> Seq<content::ThinkingBlockView> {
    pick(
        blocks,
        |b: ContentBlockParam| b is Thinking || b is RedactedThinking,
        |b: ContentBlockParam|
            match b {
                ContentBlockParam::Thinking { thinking, signature } => content::ThinkingBlockView {
                    text: thinking@,
                    signature: signature@,
                    redacted_thinking: Seq::empty(),
                },
                ContentBlockParam::RedactedThinking { data } => content::ThinkingBlockView {
                    text: Seq::empty(),
                    signature: Seq::empty(),
                    redacted_thinking: data@,
                },
                _ => arbitrary(),
            },
    )
}

proof fn lemma_block(b: ContentBlockParam)
    ensures
        texts(seq![b]) == (match b {
            ContentBlockParam::Text { text } => seq![text@],
            _ => Seq::empty(),
        }),
        sources(seq![b]) == (match b {
            ContentBlockParam::Image { source } => seq![source],
            _ => Seq::empty(),
        }),
        documents(seq![b]) == (match b {
            ContentBlockParam::Document { source } => seq![source],
            _ => Seq::empty(),
        }),
        thoughts(seq![b]) == (match b {
            ContentBlockParam::Thinking { thinking, signature } => seq![
                content::ThinkingBlockView {
                    text: thinking@,
                    signature: signature@,
                    redacted_thinking: Seq::empty(),
                },
            ],
            ContentBlockParam::RedactedThinking { data } => seq![
                content::ThinkingBlockView {
                    text: Seq::empty(),
                    signature: Seq::empty(),
                    redacted_thinking: data@,
                },
            ],
            _ => Seq::empty(),
        }),
        texts(Seq::empty()) == Seq::<Seq<char>>::empty(),
        sources(Seq::empty()) == Seq::<ImageSource>::empty(),
        documents(Seq::empty()) == Seq::<DocumentSource>::empty(),
        thoughts(Seq::empty()) == Seq::<content::ThinkingBlockView>::empty(),
{
    let f1 = |b: ContentBlockParam| b is Text;
    let g1 = |b: ContentBlockParam|
        match b {
            ContentBlockParam::Text { text } => text@,
            _ => Seq::empty(),
        };
    lemma_pick_one(b, f1, g1);
    let f2 = |b: ContentBlockParam| b is Image;
    let g2 = |b: ContentBlockParam|
        match b {
            ContentBlockParam::Image { source } => source,
            _ => arbitrary(),
        };
    lemma_pick_one(b, f2, g2);
    let f3 = |b: ContentBlockParam| b is Document;
    let g3 = |b: ContentBlockParam|
        match b {
            ContentBlockParam::Document { source } => source,
            _ => arbitrary(),
        };
    lemma_pick_one(b, f3, g3);
    let f4 = |b: ContentBlockParam| b is Thinking || b is RedactedThinking;
    let g4 = |b: ContentBlockParam|
        match b {
            ContentBlockParam::Thinking { thinking, signature } => content::ThinkingBlockView {
                text: thinking@,
                signature: signature@,
                redacted_thinking: Seq::empty(),
            },
            ContentBlockParam::RedactedThinking { data } => content::ThinkingBlockView {
                text: Seq::empty(),
                signature: Seq::empty(),
                redacted_thinking: data@,
            },
            _ => arbitrary(),
        };
    lemma_pick_one(b, f4, g4);
}

proof fn lemma_next(blocks: Seq<ContentBlockParam>, k: int)
    requires
        0 <= k < blocks.len(),
    ensures
        texts(blocks.skip(k)) == texts(seq![blocks[k]]) + texts(blocks.skip(k + 1)),
        sources(blocks.skip(k)) == sources(seq![blocks[k]]) + sources(blocks.skip(k + 1)),
        documents(blocks.skip(k)) == documents(seq![blocks[k]]) + documents(blocks.skip(k + 1)),
        texts(blocks.take(k + 1)) == texts(blocks.take(k)) + texts(seq![blocks[k]]),
        sources(blocks.take(k + 1)) == sources(blocks.take(k)) + sources(seq![blocks[k]]),
        thoughts(blocks.take(k + 1)) == thoughts(blocks.take(k)) + thoughts(seq![blocks[k]]),
{
    lemma_pick_next(
        blocks,
        k,
        |b: ContentBlockParam| b is Text,
        |b: ContentBlockParam|
            match b {
                ContentBlockParam::Text { text } => text@,
                _ => Seq::empty(),
            },
    );
    lemma_pick_next(
        blocks,
        k,
        |b: ContentBlockParam| b is Image,
        |b: ContentBlockParam|
            match b {
                ContentBlockParam::Image { source } => source,
                _ => arbitrary(),
            },
    );
    lemma_pick_next(
        blocks,
        k,
        |b: ContentBlockParam| b is Document,
        |b: ContentBlockParam|
            match b {
                ContentBlockParam::Document { source } => source,
                _ => arbitrary(),
            },
    );
    lemma_pick_next(
        blocks,
        k,
        |b: ContentBlockParam| b is Thinking || b is RedactedThinking,
        |b: ContentBlockParam|
            match b {
                ContentBlockParam::Thinking { thinking, signature } => content::ThinkingBlockView {
                    text: thinking@,
                    signature: signature@,
                    redacted_thinking: Seq::empty(),
                },
                ContentBlockParam::RedactedThinking { data } => content::ThinkingBlockView {
                    text: Seq::empty(),
                    signature: Seq::empty(),
                    redacted_thinking: data@,
                },
                _ => arbitrary(),
            },
    );
}

/// The link shows the document: by its address, or as a PDF with its content.
pub open spec fn links_to(link: content::LinkView, source: DocumentSource) -> bool {
    match source {
        DocumentSource::Base64 { data } => link.is_pdf && link.pdf_content == data@ && link.filename
            == "document.pdf"@ && link.url.len() == 0,
        DocumentSource::Url { url } => !link.is_pdf && link.url == url@ && link.pdf_content.len()
            == 0 && link.filename.len() == 0,
    }
}

/// The image is the prepared one with the number.
pub open spec fn is_image(
    image: content::ImageView,
    images: Seq<Result<Image, AdapterError>>,
    x: int,
) -> bool {
    0 <= x < images.len() && images[x] is Ok && image == (images[x]->Ok_0)@
}

/// The images with the numbers were prepared.
pub open spec fn prepared(images: Seq<Result<Image, AdapterError>>, first: int, n: int) -> bool {
    &&& first + n <= images.len()
    &&& forall|j: int| first <= j < first + n ==> #[trigger] images[j] is Ok
}

proof fn lemma_user_from(
    blocks: Seq<ContentBlockParam>,
    image_support: bool,
    images: Seq<Result<Image, AdapterError>>,
    k: int,
    p: UserParts,
)
    requires
        0 <= k <= blocks.len(),
    ensures
        anthropic::user_from(blocks, image_support, images, k, p) matches Ok(q) ==> {
            let n = if image_support {
                sources(blocks.skip(k)).len()
            } else {
                0
            };
            let docs = documents(blocks.skip(k));
            &&& q.texts == p.texts + texts(blocks.skip(k))
            &&& q.images.len() == p.images.len() + n
            &&& q.used == p.used + n
            &&& q.links.len() == p.links.len() + docs.len()
            &&& q.numbers == p.numbers + n + docs.len()
            &&& forall|j: int| 0 <= j < p.images.len() ==> #[trigger] q.images[j] == p.images[j]
            &&& forall|j: int| 0 <= j < p.links.len() ==> #[trigger] q.links[j] == p.links[j]
            &&& forall|j: int|
                p.images.len() <= j < q.images.len() ==> is_image(
                    (#[trigger] q.images[j]).0,
                    images,
                    p.used + j - p.images.len(),
                )
            &&& forall|j: int|
                p.links.len() <= j < q.links.len() ==> links_to(
                    #[trigger] q.links[j],
                    docs[j - p.links.len()],
                )
        },
        (!image_support || prepared(images, p.used as int, sources(blocks.skip(k)).len() as int))
            ==> anthropic::user_from(blocks, image_support, images, k, p) is Ok,
    decreases blocks.len() - k,
{
    if k < blocks.len() {
        lemma_next(blocks, k);
        lemma_block(blocks[k]);
        let ts = texts(blocks.skip(k));
        let docs = documents(blocks.skip(k));
        match anthropic::user_step(blocks[k], image_support, images, p) {
            Ok(m) => {
                lemma_user_from(blocks, image_support, images, k + 1, m);
                if let Ok(q) = anthropic::user_from(blocks, image_support, images, k + 1, m) {
                    assert(q.texts =~= p.texts + ts);
                    if blocks[k] is Document {
                        assert(q.links[p.links.len() as int] == m.links[p.links.len() as int]);
                        assert forall|j: int| p.links.len() <= j < q.links.len() implies links_to(
                            #[trigger] q.links[j],
                            docs[j - p.links.len()],
                        ) by {
                            if j > p.links.len() {
                                assert(links_to(
                                    q.links[j],
                                    documents(blocks.skip(k + 1))[j - m.links.len()],
                                ));
                            }
                        }
                    } else {
                        assert(docs =~= documents(blocks.skip(k + 1)));
                    }
                    if blocks[k] is Image && image_support {
                        assert(q.images[p.images.len() as int] == m.images[p.images.len() as int]);
                    }
                    assert forall|j: int| p.images.len() <= j < q.images.len() implies is_image(
                        (#[trigger] q.images[j]).0,
                        images,
                        p.used + j - p.images.len(),
                    ) by {
                        if j >= m.images.len() {
                            assert(is_image(q.images[j].0, images, m.used + j - m.images.len()));
                        }
                    }
                }
            },
            Err(e) => {},
        }
    } else {
        assert(blocks.skip(k) =~= Seq::empty());
        lemma_block(ContentBlockParam::RedactedThinking { data: arbitrary() });
        assert(p.texts + Seq::<Seq<char>>::empty() =~= p.texts);
    }
}

proof fn lemma_assistant(blocks: Seq<ContentBlockParam>, n: int)
    requires
        0 <= n <= blocks.len(),
    ensures
        anthropic::texts_of(blocks, n) == texts(blocks.take(n)),
        anthropic::thinking_of(blocks, n) == thoughts(blocks.take(n)),
        anthropic::sources_in(blocks, n) == sources(blocks.take(n)),
    decreases n,
{
    if n > 0 {
        lemma_assistant(blocks, n - 1);
        lemma_next(blocks, n - 1);
        lemma_block(blocks[n - 1]);
        assert(anthropic::texts_of(blocks, n) =~= texts(blocks.take(n)));
        assert(anthropic::thinking_of(blocks, n) =~= thoughts(blocks.take(n)));
        assert(anthropic::sources_in(blocks, n) =~= sources(blocks.take(n)));
    } else {
        assert(blocks.take(0) =~= Seq::empty());
        lemma_block(ContentBlockParam::RedactedThinking { data: arbitrary() });
    }
}

/// The message is the result of the call that the other one ends with, and nothing else.
pub open spec fn answers(call: MessageParam, result: MessageParam) -> bool {
    &&& call.role == Role::Assistant
    &&& result.role == Role::User
    &&& match (call.content, result.content) {
        (MessageContent::Blocks(calls), MessageContent::Blocks(results)) => {
            &&& calls@.len() > 0
            &&& results@.len() == 1
            &&& match (calls@[calls@.len() - 1], results@[0]) {
                (
                    ContentBlockParam::ToolUse { id, .. },
                    ContentBlockParam::ToolResult { tool_use_id, .. },
                ) => id@ == tool_use_id@,
                _ => false,
            }
        },
        _ => false,
    }
}

proof fn lemma_answered(params: Seq<MessageParam>, i: int)
    requires
        0 <= i,
        i + 1 < params.len(),
    ensures
        anthropic::answered(params, i) == answers(params[i], params[i + 1]),
{
}

/// What the message says, as a draft tells it: its text, its images and documents, its reasoning.
pub open spec fn tells(
    draft: DraftView,
    m: MessageParam,
    image_support: bool,
) -> bool {
    &&& draft.role == m.role
    &&& match m.content {
        MessageContent::Text(s) => {
            &&& draft.text == s@
            &&& draft.images.len() == 0
            &&& draft.links.len() == 0
            &&& draft.thinking is None
        },
        MessageContent::Blocks(blocks) => {
            &&& draft.text == text::joined(texts(blocks@), "\n"@)
            &&& match m.role {
                Role::User => {
                    &&& draft.thinking is None
                    &&& draft.images.len() == (if image_support {
                        sources(blocks@).len()
                    } else {
                        0
                    })
                    &&& draft.links.len() == documents(blocks@).len()
                    &&& forall|j: int|
                        0 <= j < draft.links.len() ==> links_to(
                            #[trigger] draft.links[j],
                            documents(blocks@)[j],
                        )
                },
                Role::Assistant => {
                    &&& draft.images.len() == 0
                    &&& draft.links.len() == 0
                    &&& reasons(draft.thinking, thoughts(blocks@))
                },
            }
        },
    }
}

/// The reasoning is that of the pieces: none, the only one as it is, or the texts of all of them one
/// behind the other.
pub open spec fn reasons(
    thinking: Option<content::ThinkingBlockView>,
    pieces: Seq<content::ThinkingBlockView>,
) -> bool {
    match thinking {
        None => pieces.len() == 0,
        Some(t) => {
            &&& pieces.len() > 0
            &&& pieces.len() == 1 ==> t == pieces[0]
            &&& pieces.len() > 1 ==> {
                &&& t.signature.len() == 0
                &&& t.redacted_thinking.len() == 0
                &&& t.text == text::joined(pieces.map_values(|p: content::ThinkingBlockView| p.text), Seq::empty())
            }
        },
    }
}

proof fn lemma_merged(pieces: Seq<content::ThinkingBlockView>)
    ensures
        reasons(anthropic::merged(pieces), pieces),
{
    lemma_thinking_text(pieces, pieces.len() as int);
    assert(pieces.take(pieces.len() as int) =~= pieces);
}

proof fn lemma_thinking_text(pieces: Seq<content::ThinkingBlockView>, n: int)
    requires
        0 <= n <= pieces.len(),
    ensures
        anthropic::thinking_text(pieces, n) == text::joined(
            pieces.take(n).map_values(|p: content::ThinkingBlockView| p.text),
            Seq::empty(),
        ),
    decreases n,
{
    let g = |p: content::ThinkingBlockView| p.text;
    let m = pieces.take(n).map_values(g);
    if n > 0 {
        lemma_thinking_text(pieces, n - 1);
        let d = pieces.take(n - 1).map_values(g);
        assert(m.drop_last() =~= d);
        assert(m.last() == pieces[n - 1].text);
        if n == 1 {
            assert(m[0] == pieces[0].text);
            assert(anthropic::thinking_text(pieces, 0) + m[0] =~= m[0]);
        } else {
            assert(text::joined(d, Seq::empty()) + Seq::<char>::empty() + m.last()
                =~= text::joined(d, Seq::empty()) + m.last());
        }
    }
}

/// Where outlining stands after the messages: as [`anthropic::outlined_from`], with the numbers.
spec fn walked(params: Seq<MessageParam>, o: Outside, i: int, st: Outlined) -> Result<
    Outlined,
    AdapterError,
>
    decreases params.len() - i,
{
    if 0 <= i < params.len() {
        match anthropic::outline_step(params, o, i, st) {
            Ok((next, j)) => if j > i {
                walked(params, o, j, next)
            } else {
                Ok(next)
            },
            Err(e) => Err(e),
        }
    } else {
        Ok(st)
    }
}

proof fn lemma_walked(params: Seq<MessageParam>, o: Outside, i: int, st: Outlined)
    ensures
        anthropic::outlined_from(params, o, i, st) == (match walked(params, o, i, st) {
            Ok(x) => Ok::<Seq<DraftView>, AdapterError>(x.drafts),
            Err(e) => Err(e),
        }),
    decreases params.len() - i,
{
    if 0 <= i < params.len() {
        if let Ok((next, j)) = anthropic::outline_step(params, o, i, st) {
            if j > i {
                lemma_walked(params, o, j, next);
            }
        }
    }
}

/// Messages behind the others do not change what comes of these, unless the first of them is the
/// result of a call.
proof fn lemma_more(params: Seq<MessageParam>, more: Seq<MessageParam>, o: Outside, i: int, st: Outlined)
    requires
        0 <= i <= params.len(),
        more.len() > 0,
        i < params.len() ==> !answers(params[params.len() - 1], more[0]),
    ensures
        walked(params + more, o, i, st) == (match walked(params, o, i, st) {
            Ok(x) => walked(params + more, o, params.len() as int, x),
            Err(e) => Err(e),
        }),
    decreases params.len() - i,
{
    let all = params + more;
    if i < params.len() {
        assert(all[i] == params[i]);
        if i + 1 < params.len() {
            assert(all[i + 1] == params[i + 1]);
            lemma_answered(all, i);
            lemma_answered(params, i);
        } else {
            assert(all[i + 1] == more[0]);
            lemma_answered(all, i);
        }
        assert(anthropic::outline_step(all, o, i, st) == anthropic::outline_step(params, o, i, st));
        if let Ok((next, j)) = anthropic::outline_step(params, o, i, st) {
            assert(i < j <= params.len());
            lemma_more(params, more, o, j, next);
        }
    }
}

/// A message that neither is the result of a call nor has its result behind it makes one draft.
proof fn lemma_step(params: Seq<MessageParam>, o: Outside, i: int, st: Outlined)
    requires
        0 <= i < params.len(),
    ensures
        anthropic::outline_step(params, o, i, st) matches Ok((next, j)) ==> {
            &&& next.drafts.len() == st.drafts.len() + 1
            &&& next.drafts.drop_last() == st.drafts
            &&& tells(next.drafts.last(), params[i], o.image_support)
            &&& !anthropic::answered(params, i) ==> j == i + 1 && next.drafts.last().tool is None
            &&& anthropic::answered(params, i) ==> j == i + 2 && next.drafts.last().tool is Some
        },
{
    let m = params[i];
    if let Ok((next, j)) = anthropic::outline_step(params, o, i, st) {
        assert(next.drafts.drop_last() =~= st.drafts);
        if let MessageContent::Blocks(blocks) = m.content {
            match m.role {
                Role::User => {
                    let p = UserParts {
                        texts: Seq::empty(),
                        images: Seq::empty(),
                        links: Seq::empty(),
                        numbers: 0,
                        used: st.images,
                    };
                    lemma_user_from(blocks@, o.image_support, o.images, 0, p);
                    assert(blocks@.skip(0) =~= blocks@);
                    assert(Seq::<Seq<char>>::empty() + texts(blocks@) =~= texts(blocks@));
                    let q = anthropic::user_parts(blocks@, o.image_support, o.images, st.images)->Ok_0;
                    assert(q.texts == texts(blocks@));
                },
                Role::Assistant => {
                    lemma_assistant(blocks@, blocks@.len() as int);
                    assert(blocks@.take(blocks@.len() as int) =~= blocks@);
                    lemma_merged(thoughts(blocks@));
                },
            }
        }
    }
}

proof fn lemma_numbers(params: Seq<MessageParam>, o: Outside, i: int, st: Outlined)
    requires
        0 <= i <= params.len(),
        st.images == (if o.image_support {
            anthropic::sources_of(params, i).len()
        } else {
            0
        }),
    ensures
        walked(params, o, i, st) matches Ok(x) ==> x.images == (if o.image_support {
            anthropic::sources_of(params, params.len() as int).len()
        } else {
            0
        }),
    decreases params.len() - i,
{
    if i < params.len() {
        if let Ok((next, j)) = anthropic::outline_step(params, o, i, st) {
            if let MessageContent::Blocks(blocks) = params[i].content {
                if params[i].role == Role::User {
                    let p = UserParts {
                        texts: Seq::empty(),
                        images: Seq::empty(),
                        links: Seq::empty(),
                        numbers: 0,
                        used: st.images,
                    };
                    lemma_user_from(blocks@, o.image_support, o.images, 0, p);
                    lemma_assistant(blocks@, blocks@.len() as int);
                    assert(blocks@.skip(0) =~= blocks@);
                    assert(blocks@.take(blocks@.len() as int) =~= blocks@);
                }
            }
            if j == i + 2 {
                lemma_answered(params, i);
                if let MessageContent::Blocks(results) = params[i + 1].content {
                    lemma_assistant(results@, 1);
                    assert(results@.take(1) =~= seq![results@[0]]);
                    lemma_block(results@[0]);
                }
                assert(anthropic::sources_of(params, i + 2).len() == anthropic::sources_of(
                    params,
                    i + 1,
                ).len());
            }
            lemma_numbers(params, o, j, next);
        }
    }
}

proof fn lemma_fetched_in(
    blocks: Seq<ToolResultContentBlock>,
    downloads: Seq<Result<RawContent, AdapterError>>,
    k: int,
    raws: Seq<RawView>,
    used: nat,
)
    requires
        0 <= k <= blocks.len(),
    ensures
        anthropic::raws_from(blocks, downloads, k, raws, used) matches Ok((x, n)) ==> n
            + anthropic::urls_in(blocks, k).len() == used + anthropic::urls_in(
            blocks,
            blocks.len() as int,
        ).len(),
    decreases blocks.len() - k,
{
    if k < blocks.len() {
        if let Ok(raw) = anthropic::raw_of(blocks[k], downloads, used) {
            let next = if anthropic::needs_download(blocks[k]) {
                used + 1
            } else {
                used
            };
            lemma_fetched_in(blocks, downloads, k + 1, raws.push(raw), next);
        }
    }
}

proof fn lemma_fetched(params: Seq<MessageParam>, o: Outside, i: int, st: Outlined)
    requires
        0 <= i <= params.len(),
        st.downloads == anthropic::urls_of(params, i).len(),
    ensures
        walked(params, o, i, st) matches Ok(x) ==> x.downloads == anthropic::urls_of(
            params,
            params.len() as int,
        ).len(),
    decreases params.len() - i,
{
    if i < params.len() {
        if let Ok((next, j)) = anthropic::outline_step(params, o, i, st) {
            if j == i + 2 {
                lemma_answered(params, i);
                let content = (anthropic::only_result(params[i + 1])->0).1;
                if let Some(ToolResultContent::Blocks(blocks)) = content {
                    lemma_fetched_in(blocks@, o.downloads, 0, Seq::empty(), st.downloads);
                    assert(anthropic::urls_in(blocks@, 0).len() == 0);
                }
                assert(!anthropic::answered(params, i + 1));
                assert(anthropic::urls_of(params, i + 2).len() == anthropic::urls_of(
                    params,
                    i + 1,
                ).len());
            } else {
                assert(!anthropic::answered(params, i));
            }
            lemma_fetched(params, o, j, next);
        }
    }
}

proof fn lemma_outline(
    params: &Vec<MessageParam>,
    image_support: bool,
    images: &Vec<Result<Image, AdapterError>>,
    downloads: &Vec<Result<RawContent, AdapterError>>,
    r: Result<Vec<Draft>, AdapterError>,
)
    requires
        call_ensures(outline, (params, image_support, images, downloads), r),
    ensures
        ({
            let o = Outside { image_support, images: images@, downloads: downloads@ };
            match walked(params@, o, 0, begun(params@)) {
                Ok(x) => r matches Ok(v) && anthropic::draft_views(v@) == x.drafts,
                Err(e) => r == Err::<Vec<Draft>, AdapterError>(e),
            }
        }),
{
    let o = Outside { image_support, images: images@, downloads: downloads@ };
    lemma_walked(params@, o, 0, begun(params@));
}

spec fn begun(params: Seq<MessageParam>) -> Outlined {
    Outlined {
        drafts: if params.len() > 0 && params[0].role == Role::Assistant {
            seq![anthropic::text_draft(Role::User, Seq::empty())]
        } else {
            Seq::empty()
        },
        images: 0,
        downloads: 0,
    }
}

/// A message more, which is no result of a call, is a draft more: it tells what the message says,
/// and the drafts before stay. Its images are those prepared behind the ones that the messages
/// before list. It fails only where one of these was not prepared; where the others fail, it changes
/// nothing.
pub proof fn message_more_is_draft_more(
    params: &Vec<MessageParam>,
    longer: &Vec<MessageParam>,
    image_support: bool,
    images: &Vec<Result<Image, AdapterError>>,
    downloads: &Vec<Result<RawContent, AdapterError>>,
    r: Result<Vec<Draft>, AdapterError>,
    s: Result<Vec<Draft>, AdapterError>,
    m: MessageParam,
    listed: Vec<&ImageSource>,
)
    requires
        call_ensures(image_sources, (params, image_support), listed),
        call_ensures(outline, (params, image_support, images, downloads), r),
        call_ensures(outline, (longer, image_support, images, downloads), s),
        params@.len() > 0,
        longer@ == params@.push(m),
        !answers(params@.last(), m),
    ensures
        r is Err ==> s == r,
        r is Ok && s is Ok ==> {
            let before = (r->Ok_0)@;
            let after = (s->Ok_0)@;
            &&& after.len() == before.len() + 1
            &&& forall|i: int| 0 <= i < before.len() ==> (#[trigger] after[i])@ == before[i]@
            &&& tells(after[after.len() - 1]@, m, image_support)
            &&& after[after.len() - 1].tool is None
            &&& forall|j: int|
                0 <= j < after[after.len() - 1]@.images.len() ==> is_image(
                    (#[trigger] after[after.len() - 1]@.images[j]).0,
                    images@,
                    listed@.len() + j,
                )
        },
        r is Ok ==> match (m.role, m.content) {
            (Role::User, MessageContent::Blocks(blocks)) => (!image_support || prepared(
                images@,
                listed@.len() as int,
                sources(blocks@).len() as int,
            )) ==> s is Ok,
            _ => s is Ok,
        },
{
    let o = Outside { image_support, images: images@, downloads: downloads@ };
    lemma_outline(params, image_support, images, downloads, r);
    lemma_outline(longer, image_support, images, downloads, s);
    let n = params@.len() as int;
    assert(longer@ =~= params@ + seq![m]);
    assert(begun(longer@) == begun(params@));
    lemma_more(params@, seq![m], o, 0, begun(params@));
    if let Ok(x) = walked(params@, o, 0, begun(params@)) {
        lemma_step(longer@, o, n, x);
        assert(!anthropic::answered(longer@, n));
        assert(longer@[n] == m);
        assert(Seq::new(listed@.len(), |k: int| *listed@[k]).len() == listed@.len());
        lemma_numbers(params@, o, 0, begun(params@));
        if let MessageContent::Blocks(blocks) = m.content {
            let p = UserParts {
                texts: Seq::empty(),
                images: Seq::empty(),
                links: Seq::empty(),
                numbers: 0,
                used: x.images,
            };
            lemma_user_from(blocks@, image_support, images@, 0, p);
            assert(blocks@.skip(0) =~= blocks@);
        }
        if let Ok((next, j)) = anthropic::outline_step(longer@, o, n, x) {
            assert(walked(longer@, o, j, next) == Ok::<Outlined, AdapterError>(next));
            if s is Ok {
                let before = (r->Ok_0)@;
                let after = (s->Ok_0)@;
                let va = anthropic::draft_views(after);
                let vb = anthropic::draft_views(before);
                assert(va == next.drafts && vb == x.drafts);
                assert(va.len() == after.len() && vb.len() == before.len());
                let last = after[after.len() - 1]@;
                assert(va.last() == last);
                assert forall|j: int| 0 <= j < last.images.len() implies is_image(
                    (#[trigger] last.images[j]).0,
                    images@,
                    listed@.len() + j,
                ) by {
                    if let MessageContent::Blocks(blocks) = m.content {
                        let q = anthropic::user_parts(
                            blocks@,
                            image_support,
                            images@,
                            x.images,
                        )->Ok_0;
                        assert(last.images[j] == q.images[j]);
                    }
                }
                assert forall|i: int| 0 <= i < before.len() implies (#[trigger] after[i])@
                    == before[i]@ by {
                    assert(va[i] == after[i]@);
                    assert(va.drop_last()[i] == vb[i]);
                }
            }
        }
    }
}

/// The first message makes a draft that tells what it says; before one of the assistant stands an
/// empty one of the user.
pub proof fn first_message_is_told(
    params: &Vec<MessageParam>,
    image_support: bool,
    images: &Vec<Result<Image, AdapterError>>,
    downloads: &Vec<Result<RawContent, AdapterError>>,
    r: Result<Vec<Draft>, AdapterError>,
)
    requires
        call_ensures(outline, (params, image_support, images, downloads), r),
        params@.len() == 1,
    ensures
        match (params@[0].role, params@[0].content) {
            (Role::User, MessageContent::Blocks(blocks)) => (!image_support || prepared(
                images@,
                0,
                sources(blocks@).len() as int,
            )) ==> r is Ok,
            _ => r is Ok,
        },
        r is Ok ==> ({
            let drafts = (r->Ok_0)@;
            let first = if params@[0].role == Role::Assistant {
                1int
            } else {
                0int
            };
            &&& drafts.len() == first + 1
            &&& tells(drafts[first]@, params@[0], image_support)
            &&& drafts[first].tool is None
            &&& forall|j: int|
                0 <= j < drafts[first]@.images.len() ==> is_image(
                    (#[trigger] drafts[first]@.images[j]).0,
                    images@,
                    j,
                )
            &&& first == 1 ==> drafts[0].role == Role::User && drafts[0].text@.len() == 0
                && drafts[0]@.images.len() == 0 && drafts[0]@.links.len() == 0
                && drafts[0].tool is None
        }),
{
    let o = Outside { image_support, images: images@, downloads: downloads@ };
    lemma_outline(params, image_support, images, downloads, r);
    let st = begun(params@);
    lemma_step(params@, o, 0, st);
    if let MessageContent::Blocks(blocks) = params@[0].content {
        let p = UserParts {
            texts: Seq::empty(),
            images: Seq::empty(),
            links: Seq::empty(),
            numbers: 0,
            used: 0,
        };
        lemma_user_from(blocks@, image_support, images@, 0, p);
        assert(blocks@.skip(0) =~= blocks@);
    }
    if let Ok((next, j)) = anthropic::outline_step(params@, o, 0, st) {
        assert(walked(params@, o, j, next) == Ok::<Outlined, AdapterError>(next));
        let drafts = (r->Ok_0)@;
        let last = drafts[drafts.len() - 1]@;
        let v = anthropic::draft_views(drafts);
        assert(v == next.drafts && v.len() == drafts.len());
        assert(v.last() == last);
        assert forall|j: int| 0 <= j < last.images.len() implies is_image(
            (#[trigger] last.images[j]).0,
            images@,
            j,
        ) by {
            if let MessageContent::Blocks(blocks) = params@[0].content {
                let q = anthropic::user_parts(blocks@, image_support, images@, 0)->Ok_0;
                assert(last.images[j] == q.images[j]);
            }
        }
        if st.drafts.len() == 1 {
            assert(v[0] == drafts[0]@);
            assert(v.drop_last()[0] == st.drafts[0]);
        }
    }
}

/// The piece shows the block: its text as it is, an image in base64 with its type, or what was
/// downloaded for an image with an address.
pub open spec fn piece_shows(
    piece: RawView,
    block: ToolResultContentBlock,
    downloads: Seq<Result<RawContent, AdapterError>>,
) -> bool {
    match block {
        ToolResultContentBlock::Text { text } => piece == RawView::Text(text@),
        ToolResultContentBlock::Image { source: ImageSource::Base64(b) } => piece
            == (RawView::Image {
            data: b.data@,
            mime_type: (match b.media_type {
                MediaType::ImagePng => "image/png"@,
                MediaType::ImageJpeg => "image/jpeg"@,
                MediaType::ImageGif => "image/gif"@,
                MediaType::ImageWebp => "image/webp"@,
            }),
        }),
        ToolResultContentBlock::Image { source: ImageSource::Url { url } } => exists|d: int|
            0 <= d < downloads.len() && (#[trigger] downloads[d] matches Ok(raw) && raw@ == piece),
    }
}

/// The pieces show the result.
pub open spec fn pieces_show(
    pieces: Seq<RawView>,
    result: Option<ToolResultContent>,
    downloads: Seq<Result<RawContent, AdapterError>>,
) -> bool {
    match result {
        None => pieces.len() == 0,
        Some(ToolResultContent::Text(s)) => pieces.len() == 1 && pieces[0] == RawView::Text(s@),
        Some(ToolResultContent::Blocks(blocks)) => {
            &&& pieces.len() == blocks@.len()
            &&& forall|j: int|
                0 <= j < pieces.len() ==> piece_shows(
                    #[trigger] pieces[j],
                    blocks@[j],
                    downloads,
                )
        },
    }
}

proof fn lemma_raws(
    blocks: Seq<ToolResultContentBlock>,
    downloads: Seq<Result<RawContent, AdapterError>>,
    k: int,
    raws: Seq<RawView>,
    used: nat,
)
    requires
        0 <= k <= blocks.len(),
        raws.len() == k,
        forall|j: int|
            0 <= j < k ==> piece_shows(#[trigger] raws[j], blocks[j], downloads),
    ensures
        anthropic::raws_from(blocks, downloads, k, raws, used) matches Ok((x, n)) ==> {
            &&& x.len() == blocks.len()
            &&& forall|j: int|
                0 <= j < x.len() ==> piece_shows(#[trigger] x[j], blocks[j], downloads)
            &&& n == used + pick(
                blocks.skip(k),
                |b: ToolResultContentBlock| anthropic::needs_download(b),
                |b: ToolResultContentBlock| b,
            ).len()
        },
    decreases blocks.len() - k,
{
    let f = |b: ToolResultContentBlock| anthropic::needs_download(b);
    let g = |b: ToolResultContentBlock| b;
    if k < blocks.len() {
        lemma_pick_next(blocks, k, f, g);
        lemma_pick_one(blocks[k], f, g);
        if let Ok(raw) = anthropic::raw_of(blocks[k], downloads, used) {
            let more = raws.push(raw);
            assert(piece_shows(raw, blocks[k], downloads)) by {
                if used < downloads.len() {
                    assert(downloads[used as int] == downloads[used as int]);
                }
            }
            assert forall|j: int| 0 <= j < k + 1 implies piece_shows(
                #[trigger] more[j],
                blocks[j],
                downloads,
            ) by {
                if j < k {
                    assert(more[j] == raws[j]);
                }
            }
            lemma_raws(
                blocks,
                downloads,
                k + 1,
                more,
                if anthropic::needs_download(blocks[k]) {
                    used + 1
                } else {
                    used
                },
            );
        }
    } else {
        assert(blocks.skip(k) =~= Seq::empty());
        lemma_pick_one(arbitrary::<ToolResultContentBlock>(), f, g);
    }
}

proof fn lemma_result(
    result: Option<ToolResultContent>,
    downloads: Seq<Result<RawContent, AdapterError>>,
    used: nat,
)
    ensures
        anthropic::result_of(result, downloads, used) matches Ok((x, n)) ==> pieces_show(
            x,
            result,
            downloads,
        ),
{
    if let Some(ToolResultContent::Blocks(blocks)) = result {
        lemma_raws(blocks@, downloads, 0, Seq::empty(), used);
    }
}

/// The result of a tool is passed on piece by piece, in order, with what was downloaded in the place
/// of addresses; text alone never fails.
pub proof fn results_are_passed_on(
    result: &Option<ToolResultContent>,
    downloads: &Vec<Result<RawContent, AdapterError>>,
    first: usize,
    r: Result<(Vec<RawContent>, usize), AdapterError>,
)
    requires
        call_ensures(add_to, (result, downloads, first), r),
    ensures
        r matches Ok(x) ==> pieces_show(content::raw_views(x.0@), *result, downloads@),
        (*result is None || (*result matches Some(ToolResultContent::Text(_)))) ==> r is Ok && (
        r->Ok_0).1 == first,
{
    lemma_result(*result, downloads@, first as nat);
}

proof fn lemma_raws_push(
    blocks: Seq<ToolResultContentBlock>,
    b: ToolResultContentBlock,
    downloads: Seq<Result<RawContent, AdapterError>>,
    k: int,
    raws: Seq<RawView>,
    used: nat,
)
    requires
        0 <= k <= blocks.len(),
    ensures
        anthropic::raws_from(blocks.push(b), downloads, k, raws, used) == (
        match anthropic::raws_from(blocks, downloads, k, raws, used) {
            Ok((x, n)) => match anthropic::raw_of(b, downloads, n) {
                Ok(raw) => Ok::<(Seq<RawView>, nat), AdapterError>(
                    (
                        x.push(raw),
                        if anthropic::needs_download(b) {
                            n + 1
                        } else {
                            n
                        },
                    ),
                ),
                Err(e) => Err(e),
            },
            Err(e) => Err(e),
        }),
    decreases blocks.len() - k,
{
    let all = blocks.push(b);
    if k < blocks.len() {
        assert(all[k] == blocks[k]);
        if let Ok(raw) = anthropic::raw_of(blocks[k], downloads, used) {
            let next = if anthropic::needs_download(blocks[k]) {
                used + 1
            } else {
                used
            };
            lemma_raws_push(blocks, b, downloads, k + 1, raws.push(raw), next);
        }
    } else {
        assert(all[k] == b);
        reveal_with_fuel(anthropic::raws_from, 3);
    }
}

/// A result is passed on block by block: one more block is what it is by itself, behind the others,
/// with the downloads that they left. The first block that fails decides.
pub proof fn results_are_taken_block_by_block(
    result: &Option<ToolResultContent>,
    longer: &Option<ToolResultContent>,
    single: &Option<ToolResultContent>,
    downloads: &Vec<Result<RawContent, AdapterError>>,
    first: usize,
    r: Result<(Vec<RawContent>, usize), AdapterError>,
    s: Result<(Vec<RawContent>, usize), AdapterError>,
    next: usize,
    q: Result<(Vec<RawContent>, usize), AdapterError>,
    i: int,
)
    requires
        call_ensures(add_to, (result, downloads, first), r),
        call_ensures(add_to, (longer, downloads, first), s),
        call_ensures(add_to, (single, downloads, next), q),
        r matches Ok(x) ==> next == x.1,
        *result is Some && (*result)->0 is Blocks,
        *longer is Some && (*longer)->0 is Blocks,
        *single is Some && (*single)->0 is Blocks,
        (*single)->0->Blocks_0@.len() == 1,
        (*longer)->0->Blocks_0@ == (*result)->0->Blocks_0@.push((*single)->0->Blocks_0@[0]),
    ensures
        s is Ok <==> r is Ok && q is Ok,
        r matches Err(e) ==> s == r,
        r is Ok ==> (q matches Err(e) ==> s == q),
        s is Ok ==> {
            let before = (r->Ok_0).0@;
            let after = (s->Ok_0).0@;
            &&& after.len() == before.len() + 1
            &&& 0 <= i < before.len() ==> after[i]@ == before[i]@
            &&& (q->Ok_0).0@.len() == 1
            &&& after[before.len() as int]@ == (q->Ok_0).0@[0]@
            &&& (s->Ok_0).1 == (q->Ok_0).1
        },
        (*result)->0->Blocks_0@.len() == 0 ==> r is Ok && (r->Ok_0).0@.len() == 0 && (r->Ok_0).1
            == first,
{
    let blocks = (*result)->0->Blocks_0@;
    let one = (*single)->0->Blocks_0@;
    let b = one[0];
    lemma_raws_push(blocks, b, downloads@, 0, Seq::empty(), first as nat);
    lemma_raws_push(Seq::empty(), b, downloads@, 0, Seq::empty(), next as nat);
    assert(Seq::<ToolResultContentBlock>::empty().push(b) =~= one);
    if s is Ok {
        let x = content::raw_views((r->Ok_0).0@);
        let y = content::raw_views((s->Ok_0).0@);
        let z = content::raw_views((q->Ok_0).0@);
        assert(x.len() == (r->Ok_0).0@.len() && y.len() == (s->Ok_0).0@.len());
        assert(z.len() == (q->Ok_0).0@.len());
        assert(z == Seq::<RawView>::empty().push(z[0]));
        assert(z[0] == (q->Ok_0).0@[0]@);
        assert(y == x.push(z[0]));
        assert(y[x.len() as int] == (s->Ok_0).0@[x.len() as int]@);
        if 0 <= i < x.len() {
            assert(y[i] == (s->Ok_0).0@[i]@ && x[i] == (r->Ok_0).0@[i]@);
        }
    }
    if blocks.len() == 0 {
        assert(content::raw_views((r->Ok_0).0@).len() == (r->Ok_0).0@.len());
    }
}

/// The first image of a result that is not valid, or cannot be had, is what the failure is about.
pub proof fn bad_images_fail(
    result: &Option<ToolResultContent>,
    downloads: &Vec<Result<RawContent, AdapterError>>,
    first: usize,
    r: Result<(Vec<RawContent>, usize), AdapterError>,
    block: ToolResultContentBlock,
)
    requires
        call_ensures(add_to, (result, downloads, first), r),
        *result matches Some(ToolResultContent::Blocks(blocks)) && blocks@ == seq![block],
    ensures
        match block {
            ToolResultContentBlock::Text { .. } => r is Ok,
            ToolResultContentBlock::Image { source: ImageSource::Base64(b) } => if codec::base64_valid(
                b.data@,
            ) {
                r is Ok
            } else {
                r == Err::<(Vec<RawContent>, usize), AdapterError>(
                    AdapterError::Base64DecodeFailed,
                )
            },
            ToolResultContentBlock::Image { source: ImageSource::Url { url } } => if !codec::is_url(
                url@,
            ) {
                r == Err::<(Vec<RawContent>, usize), AdapterError>(AdapterError::UrlParseFailed)
            } else if first >= downloads@.len() {
                r == Err::<(Vec<RawContent>, usize), AdapterError>(AdapterError::ImageUnavailable)
            } else {
                match downloads@[first as int] {
                    Ok(raw) => r matches Ok(x) && x.0@.len() == 1 && x.0@[0]@ == raw@ && x.1
                        == first + 1,
                    Err(e) => r == Err::<(Vec<RawContent>, usize), AdapterError>(e),
                }
            },
        },
{
    let blocks = (*result)->0->Blocks_0@;
    assert(blocks[0] == block);
    let none = Seq::<RawView>::empty();
    reveal_with_fuel(anthropic::raws_from, 3);
    if let Ok(x) = r {
        assert(content::raw_views(x.0@).len() == x.0@.len());
        if x.0@.len() == 1 {
            assert(content::raw_views(x.0@)[0] == x.0@[0]@);
        }
    }
}

/// A call with its result behind it makes one draft more, which carries both: the identifiers whose
/// joining is the identifier of the call, the name, the input, and the result as it is passed on with
/// the downloads behind those that the messages before list. It fails only where the result does.
pub proof fn call_and_result_are_one_draft(
    params: &Vec<MessageParam>,
    longer: &Vec<MessageParam>,
    image_support: bool,
    images: &Vec<Result<Image, AdapterError>>,
    downloads: &Vec<Result<RawContent, AdapterError>>,
    r: Result<Vec<Draft>, AdapterError>,
    s: Result<Vec<Draft>, AdapterError>,
    call: MessageParam,
    result: MessageParam,
    listed: Vec<String>,
    content: &Option<ToolResultContent>,
    first: usize,
    q: Result<(Vec<RawContent>, usize), AdapterError>,
)
    requires
        call_ensures(download_urls, (params,), listed),
        call_ensures(add_to, (content, downloads, first), q),
        first == listed@.len(),
        has_result(result, *content),
        call_ensures(outline, (params, image_support, images, downloads), r),
        call_ensures(outline, (longer, image_support, images, downloads), s),
        params@.len() > 0,
        longer@ == params@.push(call).push(result),
        answers(call, result),
    ensures
        r is Err ==> s == r,
        r is Ok && s is Ok ==> {
            let before = (r->Ok_0)@;
            let after = (s->Ok_0)@;
            let draft = after[after.len() - 1];
            &&& after.len() == before.len() + 1
            &&& forall|i: int| 0 <= i < before.len() ==> (#[trigger] after[i])@ == before[i]@
            &&& tells(draft@, call, image_support)
            &&& draft.tool matches Some(record) && records(record@, call, result, downloads@)
            &&& q matches Ok(x) && (draft.tool->0)@.contents == content::raw_views(x.0@)
        },
        s is Ok <==> r is Ok && q is Ok,
        r is Ok ==> (q matches Err(e) ==> s == Err::<Vec<Draft>, AdapterError>(e)),
{
    let o = Outside { image_support, images: images@, downloads: downloads@ };
    lemma_outline(params, image_support, images, downloads, r);
    lemma_outline(longer, image_support, images, downloads, s);
    let n = params@.len() as int;
    let more = seq![call, result];
    assert(longer@ =~= params@ + more);
    assert(begun(longer@) == begun(params@));
    lemma_more(params@, more, o, 0, begun(params@));
    if let Ok(x) = walked(params@, o, 0, begun(params@)) {
        lemma_step(longer@, o, n, x);
        lemma_answered(longer@, n);
        lemma_fetched(params@, o, 0, begun(params@));
        assert(text::views(listed@).len() == listed@.len());
        assert(longer@[n] == call && longer@[n + 1] == result);
        if let Ok((next, j)) = anthropic::outline_step(longer@, o, n, x) {
            assert(walked(longer@, o, j, next) == Ok::<Outlined, AdapterError>(next));
            let (id, content, is_error) = anthropic::only_result(result)->0;
            lemma_result(content, downloads@, x.downloads);
            lemma_parsed_joins(id);
            if s is Ok {
                let before = (r->Ok_0)@;
                let after = (s->Ok_0)@;
                let va = anthropic::draft_views(after);
                let vb = anthropic::draft_views(before);
                assert(va == next.drafts && vb == x.drafts);
                assert(va.len() == after.len() && vb.len() == before.len());
                assert(va.last() == after[after.len() - 1]@);
                assert forall|i: int| 0 <= i < before.len() implies (#[trigger] after[i])@
                    == before[i]@ by {
                    assert(va[i] == after[i]@);
                    assert(va.drop_last()[i] == vb[i]);
                }
            }
        }
    }
}

/// The message is a result with the content.
pub open spec fn has_result(m: MessageParam, content: Option<ToolResultContent>) -> bool {
    match m.content {
        MessageContent::Blocks(results) => results@.len() == 1 && match results@[0] {
            ContentBlockParam::ToolResult { tool_use_id, content: c, is_error } => c == content,
            _ => false,
        },
        _ => false,
    }
}

proof fn lemma_parsed_joins(id: Seq<char>)
    ensures
        ({
            let (tool, model) = tool_id::parsed(id);
            tool_id::formatted(tool, model) == id && !text::has(tool, "\nmc_"@)
        }),
{
    reveal_strlit("\nmc_");
    text_laws::first_occurrence_is_found(id, "\nmc_"@, 0);
    if let Some(i) = text::find(id, "\nmc_"@, 0) {
        let sep = "\nmc_"@;
        assert(id.subrange(i, i + sep.len()) == sep);
        assert(id =~= id.take(i) + sep + id.skip(i + sep.len()));
        let t = id.take(i);
        assert forall|j: int| 0 <= j implies !(#[trigger] text::occurs_at(t, sep, j)) by {
            if text::occurs_at(t, sep, j) {
                assert(id.subrange(j, j + sep.len()) =~= t.subrange(j, j + sep.len()));
                assert(text::occurs_at(id, sep, j));
            }
        }
        text_laws::lemma_find_nowhere(t, sep, 0);
    }
}

/// The record carries the call and its result.
pub open spec fn records(
    record: content::RecordView,
    call: MessageParam,
    result: MessageParam,
    downloads: Seq<Result<RawContent, AdapterError>>,
) -> bool {
    match (call.content, result.content) {
        (MessageContent::Blocks(calls), MessageContent::Blocks(results)) => match (
            calls@[calls@.len() - 1],
            results@[0],
        ) {
            (
                ContentBlockParam::ToolUse { id, name, input },
                ContentBlockParam::ToolResult { tool_use_id, content, is_error },
            ) => {
                &&& tool_id::formatted(record.tool_call_id, record.model_call_id) == id@
                &&& !text::has(record.tool_call_id, "\nmc_"@)
                &&& record.name == name@
                &&& record.tool_name == "mcp_custom_"@ + name@
                &&& record.server_name == "custom"@
                &&& record.raw_args == input@
                &&& record.tool_index == 1
                &&& record.is_error == is_error
                &&& pieces_show(record.contents, content, downloads)
            },
            _ => false,
        },
        _ => false,
    }
}

/// The result of a tool that goes upstream by itself names the tool and the call, and shows the
/// result.
pub proof fn lone_results_name_their_call(
    result: &Option<ToolResultContent>,
    is_error: bool,
    tool_use_id: &str,
    tool_name: String,
    downloads: &Vec<Result<RawContent, AdapterError>>,
    r: Result<ToolResultMessage, AdapterError>,
)
    requires
        call_ensures(encode_tool_result, (result, is_error, tool_use_id, tool_name, downloads), r),
    ensures
        r matches Ok(m) ==> {
            &&& tool_id::formatted(m.tool_call_id@, text::opt(m.model_call_id)) == tool_use_id@
            &&& !text::has(m.tool_call_id@, "\nmc_"@)
            &&& m.selected_tool@ == tool_name@
            &&& m.is_error == is_error
            &&& m.tool_index is None
            &&& pieces_show(content::raw_views(m.contents@), *result, downloads@)
        },
        (*result is None || (*result matches Some(ToolResultContent::Text(_)))) ==> r is Ok,
{
    lemma_result(*result, downloads@, 0);
    lemma_parsed_joins(tool_use_id@);
}

/// How many of the first `k` drafts carry a call of a tool.
pub open spec fn calls_before(pairs: Seq<(Draft, Found)>, k: int) -> int
    decreases k,
{
    if k <= 0 {
        0
    } else {
        calls_before(pairs, k - 1) + if pairs[k - 1].0.tool is Some {
            1int
        } else {
            0int
        }
    }
}

/// The message that goes upstream says what the draft tells: a user's text as it is, an assistant's
/// without its list of references.
pub open spec fn says(
    m: content::ConversationView,
    d: DraftView,
    f: FoundView,
    is_agentic: bool,
) -> bool {
    &&& m.thinking == d.thinking
    &&& m.tool_results.len() == 0
    &&& m.unified_mode == (if is_agentic {
        UnifiedMode::Agent
    } else {
        UnifiedMode::Chat
    })
    &&& m.images.len() == d.images.len()
    &&& forall|i: int| 0 <= i < d.images.len() ==> (#[trigger] m.images[i]).0 == d.images[i].0
    &&& forall|i: int|
        0 <= i < d.links.len() ==> same_link(#[trigger] m.external_links[i], d.links[i])
    &&& match d.role {
        Role::User => {
            &&& m.text == d.text
            &&& m.message_type == MessageType::Human
            &&& !m.has_server_bubble
            &&& m.is_agentic == is_agentic
            &&& m.web_references.len() == 0
            &&& m.use_web is None
            &&& m.external_links.len() == d.links.len() + f.links.len()
            &&& forall|i: int|
                0 <= i < f.links.len() ==> {
                    let link = m.external_links[d.links.len() + i];
                    link.url == #[trigger] f.links[i] && !link.is_pdf && link.pdf_content.len() == 0
                        && link.filename.len() == 0
                }
        },
        Role::Assistant => {
            &&& m.text == f.text
            &&& m.message_type == MessageType::Ai
            &&& m.has_server_bubble
            &&& !m.is_agentic
            &&& m.web_references == f.references
            &&& m.use_web == (if f.uses_web {
                Some(true)
            } else {
                None
            })
            &&& m.external_links.len() == d.links.len()
        },
    }
}

/// The links lead to the same.
pub open spec fn same_link(a: content::LinkView, b: content::LinkView) -> bool {
    a.url == b.url && a.pdf_content == b.pdf_content && a.is_pdf == b.is_pdf && a.filename
        == b.filename
}

/// The message carries the call of a tool with its result, and says nothing.
pub open spec fn reports(m: content::ConversationView, record: content::RecordView, is_agentic: bool) -> bool {
    &&& m.tool_results == seq![record]
    &&& m.text.len() == 0
    &&& m.message_type == MessageType::Ai
    &&& m.has_server_bubble
    &&& !m.is_agentic
    &&& m.images.len() == 0
    &&& m.web_references.len() == 0
    &&& m.external_links.len() == 0
    &&& m.thinking is None
    &&& m.use_web is None
    &&& m.unified_mode == (if is_agentic {
        UnifiedMode::Agent
    } else {
        UnifiedMode::Chat
    })
}

proof fn lemma_says(d: DraftView, f: FoundView, base: u64, is_agentic: bool)
    ensures
        says(anthropic::message_of(d, f, base, is_agentic), d, f, is_agentic),
        d.tool matches Some(record) ==> reports(
            anthropic::tool_message(record, is_agentic),
            record,
            is_agentic,
        ),
{
    let m = anthropic::message_of(d, f, base, is_agentic);
    assert forall|i: int| 0 <= i < d.links.len() implies same_link(
        #[trigger] m.external_links[i],
        d.links[i],
    ) by {
    }
    if d.role == Role::User {
        assert forall|i: int| 0 <= i < f.links.len() implies {
            let link = m.external_links[d.links.len() + i];
            link.url == #[trigger] f.links[i] && !link.is_pdf && link.pdf_content.len() == 0
                && link.filename.len() == 0
        } by {
        }
    }
}

spec fn places(pairs: Seq<(DraftView, FoundView)>, k: int) -> int
    decreases k,
{
    if k <= 0 {
        0
    } else {
        places(pairs, k - 1) + if pairs[k - 1].0.tool is Some {
            2int
        } else {
            1int
        }
    }
}

proof fn lemma_places(pairs: Seq<(DraftView, FoundView)>, k: int, n: int)
    requires
        0 <= k < n <= pairs.len(),
    ensures
        places(pairs, k) + (if pairs[k].0.tool is Some {
            2int
        } else {
            1int
        }) <= places(pairs, n),
        0 <= places(pairs, k),
    decreases n,
{
    if k < n - 1 {
        lemma_places(pairs, k, n - 1);
    } else if k > 0 {
        lemma_places(pairs, 0, k);
    }
}

proof fn lemma_assembled(
    pairs: Seq<(DraftView, FoundView)>,
    is_agentic: bool,
    n: int,
    k: int,
)
    requires
        0 <= n <= pairs.len(),
        0 <= k,
    ensures
        anthropic::assembled(pairs, is_agentic, n).len() == places(pairs, n),
        forall|j: int|
            0 <= j < places(pairs, n) ==> (#[trigger] anthropic::assembled(
                pairs,
                is_agentic,
                n,
            )[j]).supported_tools.len() == 0,
        k < n ==> {
            let m = anthropic::assembled(pairs, is_agentic, n);
            &&& 0 <= places(pairs, k) < m.len()
            &&& says(m[places(pairs, k)], pairs[k].0, pairs[k].1, is_agentic)
            &&& pairs[k].0.tool matches Some(record) ==> places(pairs, k) + 1 < m.len() && reports(
                m[places(pairs, k) + 1],
                record,
                is_agentic,
            )
        },
    decreases n,
{
    if n > 0 {
        lemma_assembled(pairs, is_agentic, n - 1, k);
        let d = pairs[n - 1].0;
        let f = pairs[n - 1].1;
        let base = anthropic::base_at(pairs, n - 1);
        lemma_says(d, f, base, is_agentic);
        if k < n {
            lemma_places(pairs, k, n);
        }
        let before = anthropic::assembled(pairs, is_agentic, n - 1);
        let m = anthropic::assembled(pairs, is_agentic, n);
        let own = anthropic::messages_of(d, f, base, is_agentic);
        assert(m == before + own);
        assert forall|j: int| 0 <= j < places(pairs, n) implies (
        #[trigger] m[j]).supported_tools.len() == 0 by {
            if j < before.len() {
                assert(m[j] == before[j]);
            } else {
                assert(m[j] == own[j - before.len()]);
            }
        }
        if k < n - 1 {
            lemma_places(pairs, k, n - 1);
            assert(m[places(pairs, k)] == before[places(pairs, k)]);
            if pairs[k].0.tool is Some {
                assert(m[places(pairs, k) + 1] == before[places(pairs, k) + 1]);
            }
        } else if k == n - 1 {
            assert(m[places(pairs, k)] == own[0]);
            if pairs[k].0.tool is Some {
                assert(m[places(pairs, k) + 1] == own[1]);
            }
        }
    }
}

proof fn lemma_calls(pairs: Seq<(Draft, Found)>, k: int)
    requires
        0 <= k <= pairs.len(),
    ensures
        places(anthropic::pair_views(pairs), k) == k + calls_before(pairs, k),
    decreases k,
{
    if k > 0 {
        lemma_calls(pairs, k - 1);
    }
}

/// Each draft becomes a message that says what the draft tells, in order; where it carries a call of
/// a tool, a message with the call and its result follows. The last message alone has the tools,
/// and its links are handed out.
pub proof fn drafts_become_messages(
    pairs: Vec<(Draft, Found)>,
    supported_tools: Vec<i32>,
    is_agentic: bool,
    r: (Vec<ConversationMessage>, Vec<ComposerExternalLink>),
    k: int,
    j: int,
)
    requires
        call_ensures(assemble, (pairs, supported_tools, is_agentic), r),
    ensures
        r.0@.len() == pairs@.len() + calls_before(pairs@, pairs@.len() as int),
        0 <= k < pairs@.len() ==> {
            let at = k + calls_before(pairs@, k);
            &&& 0 <= at < r.0@.len()
            &&& says(r.0@[at]@, pairs@[k].0@, pairs@[k].1@, is_agentic)
            &&& pairs@[k].0.tool matches Some(record) ==> at + 1 < r.0@.len() && reports(
                r.0@[at + 1]@,
                record@,
                is_agentic,
            )
        },
        0 <= j < r.0@.len() ==> r.0@[j].supported_tools@ == (if j == r.0@.len() - 1 {
            supported_tools@
        } else {
            Seq::empty()
        }),
        r.0@.len() > 0 ==> content::link_views(r.1@) == content::link_views(
            r.0@[r.0@.len() - 1].external_links@,
        ),
        r.0@.len() == 0 ==> r.1@.len() == 0,
{
    let all = anthropic::pair_views(pairs@);
    let n = pairs@.len() as int;
    let before = anthropic::assembled(all, is_agentic, n);
    let after = content::conversation_views(r.0@);
    lemma_assembled(all, is_agentic, n, if k >= 0 {
        k
    } else {
        0
    });
    lemma_calls(pairs@, n);
    assert(after.len() == r.0@.len());
    assert(content::link_views(r.1@).len() == r.1@.len());
    assert forall|i: int| 0 <= i < after.len() implies #[trigger] after[i] == r.0@[i]@ by {
    }
    if 0 <= k < n {
        lemma_calls(pairs@, k);
        assert(all[k] == (pairs@[k].0@, pairs@[k].1@));
        let at = k + calls_before(pairs@, k);
        lemma_places(all, k, n);
        assert(after[at] == r.0@[at]@);
        assert(says(before[at], pairs@[k].0@, pairs@[k].1@, is_agentic));
        assert(r.0@[at]@.external_links == before[at].external_links);
        assert(r.0@[at]@.images == before[at].images);
        assert(says(r.0@[at]@, pairs@[k].0@, pairs@[k].1@, is_agentic));
        if pairs@[k].0.tool is Some {
            assert(after[at + 1] == r.0@[at + 1]@);
        }
    }
    if 0 <= j < r.0@.len() {
        assert(after[j] == r.0@[j]@);
        if j < r.0@.len() - 1 {
            assert(after[j] == before[j]);
            assert(r.0@[j].supported_tools@ =~= Seq::empty());
        }
    }
    if r.0@.len() > 0 {
        assert(after.last() == r.0@[r.0@.len() - 1]@);
    }
}

/// How many images, documents and found links the first `k` drafts have.
pub open spec fn attached(pairs: Seq<(Draft, Found)>, k: int) -> int
    decreases k,
{
    if k <= 0 {
        0
    } else {
        attached(pairs, k - 1) + pairs[k - 1].0@.numbers + if pairs[k - 1].0.role == Role::User {
            pairs[k - 1].1@.links.len()
        } else {
            0
        }
    }
}

proof fn lemma_attached(pairs: Seq<(Draft, Found)>, k: int, n: int)
    requires
        0 <= k <= n <= pairs.len(),
        attached(pairs, n) <= u64::MAX,
    ensures
        0 <= attached(pairs, k) <= attached(pairs, n),
        anthropic::base_at(anthropic::pair_views(pairs), k) == attached(pairs, k),
    decreases n, k,
{
    if k < n {
        lemma_attached(pairs, n - 1, n - 1);
        lemma_attached(pairs, k, n - 1);
    } else if k > 0 {
        lemma_attached(pairs, k - 1, k - 1);
        let v = anthropic::pair_views(pairs);
        assert(v[k - 1] == (pairs[k - 1].0@, pairs[k - 1].1@));
    }
}

/// Images and links are numbered through the request: the numbers of a message follow those of the
/// messages before, its own images and documents first, then the links that were found in it.
pub proof fn attachments_are_numbered_through(
    pairs: Vec<(Draft, Found)>,
    supported_tools: Vec<i32>,
    is_agentic: bool,
    r: (Vec<ConversationMessage>, Vec<ComposerExternalLink>),
    k: int,
    i: int,
)
    requires
        call_ensures(assemble, (pairs, supported_tools, is_agentic), r),
        attached(pairs@, pairs@.len() as int) <= u64::MAX,
        0 <= k < pairs@.len(),
        forall|j: int|
            0 <= j < pairs@[k].0@.images.len() ==> (#[trigger] pairs@[k].0@.images[j]).1
                < pairs@[k].0@.numbers,
        forall|j: int|
            0 <= j < pairs@[k].0@.links.len() ==> (#[trigger] pairs@[k].0@.links[j]).number
                < pairs@[k].0@.numbers,
    ensures
        ({
            let at = k + calls_before(pairs@, k);
            let d = pairs@[k].0@;
            let m = r.0@[at]@;
            let n = attached(pairs@, k);
            &&& 0 <= i < d.images.len() ==> m.images[i].1 == n + d.images[i].1
            &&& 0 <= i < d.links.len() ==> m.external_links[i].number == n + d.links[i].number
            &&& d.role == Role::User && 0 <= i < pairs@[k].1@.links.len()
                ==> m.external_links[d.links.len() + i].number == n + d.numbers + i
        }),
{
    let all = anthropic::pair_views(pairs@);
    let n = pairs@.len() as int;
    let before = anthropic::assembled(all, is_agentic, n);
    let after = content::conversation_views(r.0@);
    lemma_assembled(all, is_agentic, n, k);
    lemma_numbered(all, is_agentic, n, k);
    lemma_calls(pairs@, n);
    lemma_calls(pairs@, k);
    lemma_places(all, k, n);
    lemma_attached(pairs@, k, n);
    lemma_attached(pairs@, k + 1, n);
    assert(all[k] == (pairs@[k].0@, pairs@[k].1@));
    let at = k + calls_before(pairs@, k);
    assert(after.len() == r.0@.len());
    assert(after[at] == r.0@[at]@);
    assert(r.0@[at]@.external_links == before[at].external_links);
    assert(r.0@[at]@.images == before[at].images);
}

proof fn lemma_numbered(pairs: Seq<(DraftView, FoundView)>, is_agentic: bool, n: int, k: int)
    requires
        0 <= k < n <= pairs.len(),
    ensures
        anthropic::assembled(pairs, is_agentic, n)[places(pairs, k)] == anthropic::message_of(
            pairs[k].0,
            pairs[k].1,
            anthropic::base_at(pairs, k),
            is_agentic,
        ),
    decreases n,
{
    lemma_assembled(pairs, is_agentic, n - 1, k);
    lemma_places(pairs, k, n);
    if k < n - 1 {
        lemma_numbered(pairs, is_agentic, n - 1, k);
        lemma_places(pairs, k, n - 1);
    }
}

/// What the functions found in the text of a draft.
pub open spec fn was_found<
    F: Fn(&str) -> Vec<String>,
    G: Fn(String) -> (String, Vec<WebReference>, bool),
>(d: DraftView, f: FoundView, find_links: F, find_references: G) -> bool {
    match d.role {
        Role::User => exists|s: &str, links: Vec<String>|
            s@ == d.text && #[trigger] call_ensures(find_links, (s,), links) && f.links
                == text::views(links@),
        Role::Assistant => exists|s: String, r: (String, Vec<WebReference>, bool)|
            s@ == d.text && #[trigger] call_ensures(find_references, (s,), r) && f.text == r.0@
                && f.references == message::ref_views(r.1@) && f.uses_web == r.2,
    }
}

spec fn tools_before(drafts: Seq<Draft>, k: int) -> int
    decreases k,
{
    if k <= 0 {
        0
    } else {
        tools_before(drafts, k - 1) + if drafts[k - 1].tool is Some {
            1int
        } else {
            0int
        }
    }
}

/// Where the message of the draft stands among those that go upstream: behind those of the drafts
/// before, each with the message of its tool.
pub closed spec fn place_of(drafts: Seq<Draft>, k: int) -> int {
    k + tools_before(drafts, k)
}

/// Drafts without calls stand one behind the other; each call takes one more place.
pub proof fn calls_take_a_place(drafts: Seq<Draft>, k: int)
    requires
        0 <= k < drafts.len(),
    ensures
        place_of(drafts, 0) == 0,
        place_of(drafts, k + 1) == place_of(drafts, k) + (if drafts[k].tool is Some {
            2int
        } else {
            1int
        }),
{
}

proof fn lemma_zip_places(drafts: Seq<Draft>, found: Seq<FoundView>, k: int)
    requires
        found.len() == drafts.len(),
        0 <= k <= drafts.len(),
    ensures
        places(anthropic::draft_views(drafts).zip_with(found), k) == place_of(drafts, k),
    decreases k,
{
    if k > 0 {
        lemma_zip_places(drafts, found, k - 1);
        let p = anthropic::draft_views(drafts).zip_with(found);
        assert(p[k - 1].0 == drafts[k - 1]@);
    }
}

/// A request fails exactly where outlining it fails. Otherwise each draft becomes a message that
/// says what the draft tells, with what was found in its text; the last message alone has the tools.
pub proof fn requests_say_what_was_outlined<
    F: Fn(&str) -> Vec<String>,
    G: Fn(String) -> (String, Vec<WebReference>, bool),
>(
    params: &Vec<MessageParam>,
    system: Option<SystemContent>,
    default_instructions: String,
    supported_tools: Vec<i32>,
    image_support: bool,
    images: &Vec<Result<Image, AdapterError>>,
    downloads: &Vec<Result<RawContent, AdapterError>>,
    find_links: &F,
    find_references: &G,
    is_agentic: bool,
    r: Result<(String, Vec<ConversationMessage>, Vec<ComposerExternalLink>), AdapterError>,
    s: Result<Vec<Draft>, AdapterError>,
    k: int,
)
    requires
        call_ensures(
            process_message_params::<F, G>,
            (
                params,
                system,
                default_instructions,
                supported_tools,
                image_support,
                images,
                downloads,
                find_links,
                find_references,
                is_agentic,
            ),
            r,
        ),
        call_ensures(outline, (params, image_support, images, downloads), s),
        params@.len() > 0,
    ensures
        s matches Err(e) ==> r == Err::<
            (String, Vec<ConversationMessage>, Vec<ComposerExternalLink>),
            AdapterError,
        >(e),
        s matches Ok(drafts) ==> r is Ok && {
            let messages = (r->Ok_0).1@;
            let n = drafts@.len() as int;
            &&& messages.len() == place_of(drafts@, n)
            &&& n > 0 ==> messages[messages.len() - 1].supported_tools@ == supported_tools@
            &&& n > 0 ==> content::link_views((r->Ok_0).2@) == content::link_views(
                messages[messages.len() - 1].external_links@,
            )
            &&& 0 <= k < n ==> {
                let at = place_of(drafts@, k);
                &&& 0 <= at < messages.len()
                &&& exists|f: FoundView|
                    was_found(drafts@[k]@, f, *find_links, *find_references) && #[trigger] says(
                        messages[at]@,
                        drafts@[k]@,
                        f,
                        is_agentic,
                    )
                &&& drafts@[k].tool matches Some(record) ==> at + 1 < messages.len() && reports(
                    messages[at + 1]@,
                    record@,
                    is_agentic,
                )
            }
        },
{
    if let Ok(drafts) = s {
        let d = anthropic::draft_views(drafts@);
        let n = drafts@.len() as int;
        assert(d.len() == n);
        let found = choose|found: Seq<FoundView>|
            #[trigger] anthropic::all_found(d, found, *find_links, *find_references)
                && content::conversation_views((r->Ok_0).1@) == anthropic::with_tools(
                anthropic::conversation(d, found, is_agentic),
                supported_tools@,
            ) && content::link_views((r->Ok_0).2@) == anthropic::last_links(
                anthropic::conversation(d, found, is_agentic),
            );
        let pairs = d.zip_with(found);
        let before = anthropic::assembled(pairs, is_agentic, n);
        let messages = (r->Ok_0).1@;
        let after = content::conversation_views(messages);
        lemma_assembled(pairs, is_agentic, n, if k >= 0 {
            k
        } else {
            0
        });
        lemma_zip_places(drafts@, found, n);
        assert(after.len() == messages.len());
        if n > 0 {
            lemma_places(pairs, 0, n);
            assert(after.last() == messages[messages.len() - 1]@);
        }
        if 0 <= k < n {
            lemma_zip_places(drafts@, found, k);
            lemma_places(pairs, k, n);
            let at = place_of(drafts@, k);
            assert(pairs[k] == (drafts@[k]@, found[k]));
            assert(after[at] == messages[at]@);
            assert(anthropic::finds(d[k], found[k], *find_links, *find_references));
            assert(before == anthropic::conversation(d, found, is_agentic));
            assert(says(before[at], drafts@[k]@, found[k], is_agentic));
            assert(messages[at]@.external_links == before[at].external_links);
            assert(messages[at]@.images == before[at].images);
            assert(says(messages[at]@, drafts@[k]@, found[k], is_agentic));
            if drafts@[k].tool is Some {
                assert(after[at + 1] == messages[at + 1]@);
            }
        }
    }
}

/// The message is plain text.
pub open spec fn is_plain(m: MessageParam) -> bool {
    m.content is Text
}

/// What a plain message says.
pub open spec fn plain_text(m: MessageParam) -> Seq<char> {
    match m.content {
        MessageContent::Text(s) => s@,
        _ => Seq::empty(),
    }
}

proof fn lemma_plain(params: Seq<MessageParam>, o: Outside, i: int, st: Outlined)
    requires
        0 <= i <= params.len(),
        forall|j: int| 0 <= j < params.len() ==> is_plain(#[trigger] params[j]),
    ensures
        anthropic::outlined_from(params, o, i, st) matches Ok(drafts) && {
            &&& drafts.len() == st.drafts.len() + params.len() - i
            &&& forall|j: int| 0 <= j < st.drafts.len() ==> #[trigger] drafts[j] == st.drafts[j]
            &&& forall|j: int|
                st.drafts.len() <= j < drafts.len() ==> {
                    let m = params[i + j - st.drafts.len()];
                    (#[trigger] drafts[j]).role == m.role && drafts[j].text == plain_text(m)
                        && drafts[j].tool is None
                }
        },
    decreases params.len() - i,
{
    if i < params.len() {
        assert(is_plain(params[i]));
        let next = anthropic::outline_step(params, o, i, st)->Ok_0.0;
        lemma_plain(params, o, i + 1, next);
        let drafts = anthropic::outlined_from(params, o, i, st)->Ok_0;
        assert(drafts[st.drafts.len() as int] == next.drafts[st.drafts.len() as int]);
        assert forall|j: int| 0 <= j < st.drafts.len() implies #[trigger] drafts[j]
            == st.drafts[j] by {
            assert(drafts[j] == next.drafts[j]);
        }
    }
}

proof fn lemma_plain_places(pairs: Seq<(DraftView, FoundView)>, k: int)
    requires
        0 <= k <= pairs.len(),
        forall|j: int| 0 <= j < pairs.len() ==> (#[trigger] pairs[j]).0.tool is None,
    ensures
        places(pairs, k) == k,
    decreases k,
{
    if k > 0 {
        lemma_plain_places(pairs, k - 1);
        assert(pairs[k - 1].0.tool is None);
    }
}

/// A request whose messages are all plain strings never fails. Behind the empty first message of the
/// user, where it begins with the assistant, one message goes upstream for each of its messages, in
/// order; the text of each user's message is exactly the string that the client sent, and that of
/// the assistant's is what is left of it without its references.
pub proof fn strings_go_upstream_as_they_are<
    F: Fn(&str) -> Vec<String>,
    G: Fn(String) -> (String, Vec<WebReference>, bool),
>(
    params: &Vec<MessageParam>,
    system: Option<SystemContent>,
    default_instructions: String,
    supported_tools: Vec<i32>,
    image_support: bool,
    images: &Vec<Result<Image, AdapterError>>,
    downloads: &Vec<Result<RawContent, AdapterError>>,
    find_links: &F,
    find_references: &G,
    is_agentic: bool,
    r: Result<(String, Vec<ConversationMessage>, Vec<ComposerExternalLink>), AdapterError>,
    k: int,
)
    requires
        call_ensures(
            process_message_params::<F, G>,
            (
                params,
                system,
                default_instructions,
                supported_tools,
                image_support,
                images,
                downloads,
                find_links,
                find_references,
                is_agentic,
            ),
            r,
        ),
        params@.len() > 0,
        forall|j: int| 0 <= j < params@.len() ==> is_plain(#[trigger] params@[j]),
    ensures
        r is Ok && {
            let messages = (r->Ok_0).1@;
            let first = if params@[0].role == Role::Assistant {
                1int
            } else {
                0int
            };
            &&& messages.len() == params@.len() + first
            &&& first == 1 ==> messages[0].text@.len() == 0 && messages[0].message_type
                == MessageType::Human
            &&& 0 <= k < params@.len() ==> {
                let m = messages[k + first];
                match params@[k].role {
                    Role::User => m.text@ == plain_text(params@[k]) && m.message_type
                        == MessageType::Human,
                    Role::Assistant => m.message_type == MessageType::Ai && exists|
                        s: String,
                        x: (String, Vec<WebReference>, bool),
                    |
                        s@ == plain_text(params@[k]) && #[trigger] call_ensures(
                            *find_references,
                            (s,),
                            x,
                        ) && m.text@ == x.0@,
                }
            }
        },
{
    let o = Outside { image_support, images: images@, downloads: downloads@ };
    let st = begun(params@);
    lemma_plain(params@, o, 0, st);
    let d = anthropic::outlined(params@, o)->Ok_0;
    let n = d.len() as int;
    let found = choose|found: Seq<FoundView>|
        #[trigger] anthropic::all_found(d, found, *find_links, *find_references)
            && content::conversation_views((r->Ok_0).1@) == anthropic::with_tools(
            anthropic::conversation(d, found, is_agentic),
            supported_tools@,
        ) && content::link_views((r->Ok_0).2@) == anthropic::last_links(
            anthropic::conversation(d, found, is_agentic),
        );
    let pairs = d.zip_with(found);
    let messages = (r->Ok_0).1@;
    let after = content::conversation_views(messages);
    let first = st.drafts.len() as int;
    assert forall|j: int| 0 <= j < pairs.len() implies (#[trigger] pairs[j]).0.tool is None by {
        assert(pairs[j].0 == d[j]);
        if j < first {
            assert(d[j] == st.drafts[j]);
        }
    }
    lemma_plain_places(pairs, n);
    lemma_assembled(pairs, is_agentic, n, 0);
    assert(after.len() == messages.len());
    if first == 1 {
        lemma_plain_places(pairs, 0);
        assert(d[0] == st.drafts[0]);
        assert(after[0] == messages[0]@);
        assert(pairs[0] == (d[0], found[0]));
    }
    if 0 <= k < params@.len() {
        let at = k + first;
        lemma_plain_places(pairs, at);
        lemma_assembled(pairs, is_agentic, n, at);
        assert(after[at] == messages[at]@);
        assert(pairs[at] == (d[at], found[at]));
        assert(anthropic::finds(d[at], found[at], *find_links, *find_references));
    }
}

/// A request without messages sends one empty message of the user, and no links.
pub proof fn empty_requests_say_nothing<
    F: Fn(&str) -> Vec<String>,
    G: Fn(String) -> (String, Vec<WebReference>, bool),
>(
    params: &Vec<MessageParam>,
    system: Option<SystemContent>,
    default_instructions: String,
    supported_tools: Vec<i32>,
    image_support: bool,
    images: &Vec<Result<Image, AdapterError>>,
    downloads: &Vec<Result<RawContent, AdapterError>>,
    find_links: &F,
    find_references: &G,
    is_agentic: bool,
    r: Result<(String, Vec<ConversationMessage>, Vec<ComposerExternalLink>), AdapterError>,
)
    requires
        call_ensures(
            process_message_params::<F, G>,
            (
                params,
                system,
                default_instructions,
                supported_tools,
                image_support,
                images,
                downloads,
                find_links,
                find_references,
                is_agentic,
            ),
            r,
        ),
    ensures
        r matches Ok(x) ==> match system {
            Some(SystemContent::Text(s)) => x.0@ == s@,
            Some(SystemContent::Blocks(texts)) => x.0@ == text::joined(
                text::views(texts@),
                "\n"@,
            ),
            None => x.0@ == default_instructions@,
        },
        params@.len() == 0 ==> r is Ok && (r->Ok_0).1@.len() == 1 && (r->Ok_0).1@[0].text@.len()
            == 0 && (r->Ok_0).1@[0].message_type == MessageType::Human && (r->Ok_0).2@.len() == 0,
{
    if params@.len() == 0 {
        let v = content::conversation_views((r->Ok_0).1@);
        assert(v.len() == (r->Ok_0).1@.len());
        assert(v[0] == (r->Ok_0).1@[0]@);
    }
}

/// The instructions of a request go before the default; several are joined by line ends.
pub proof fn instructions_go_first(system: Option<SystemContent>, default: String, r: String)
    requires
        call_ensures(instructions, (system, default), r),
    ensures
        system matches Some(SystemContent::Text(s)) ==> r@ == s@,
        system matches Some(SystemContent::Blocks(texts)) ==> r@ == text::joined(
            text::views(texts@),
            "\n"@,
        ),
        system is None ==> r@ == default@,
{
}

/// An image in base64 keeps its type; data that cannot be decoded fails.
pub proof fn images_keep_their_type(
    params: &ImageSourceBase64,
    r: Result<(Vec<u8>, ImageFormat), AdapterError>,
    data: Option<Vec<u8>>,
    media_type: MediaType,
    s: Result<(Vec<u8>, ImageFormat), AdapterError>,
)
    requires
        call_ensures(process_base64_image, (params,), r),
        call_ensures(with_format, (data, media_type), s),
    ensures
        r is Ok <==> codec::base64_decoded(params.data@) is Some,
        r matches Ok(x) ==> Some(x.0@) == codec::base64_decoded(params.data@) && is_format(
            x.1,
            params.media_type,
        ),
        s is Ok <==> data is Some,
        s matches Ok(x) ==> Some(x.0) == data && is_format(x.1, media_type),
        r matches Err(e) ==> e == AdapterError::Base64DecodeFailed,
        s matches Err(e) ==> e == AdapterError::Base64DecodeFailed,
{
}

/// The format is that of the type.
pub open spec fn is_format(format: ImageFormat, media_type: MediaType) -> bool {
    &&& format is Png <==> media_type is ImagePng
    &&& format is Jpeg <==> media_type is ImageJpeg
    &&& format is Gif <==> media_type is ImageGif
    &&& format is WebP <==> media_type is ImageWebp
}

/// A result has as many pieces as its hint says.
pub proof fn hint_is_the_size(
    result: &Option<ToolResultContent>,
    hint: Option<usize>,
    downloads: &Vec<Result<RawContent, AdapterError>>,
    first: usize,
    r: Result<(Vec<RawContent>, usize), AdapterError>,
)
    requires
        call_ensures(size_hint, (result,), hint),
        call_ensures(add_to, (result, downloads, first), r),
        *result matches Some(ToolResultContent::Blocks(blocks)) ==> blocks@.len() <= usize::MAX,
    ensures
        hint is None <==> *result is None,
        r matches Ok(x) ==> x.0@.len() == (match hint {
            Some(n) => n as nat,
            None => 0,
        }),
{
    lemma_result(*result, downloads@, first as nat);
    if let Ok(x) = r {
        assert(content::raw_views(x.0@).len() == x.0@.len());
    }
}

/// The images that have to be prepared are those of the users' messages, in order: as many as the
/// drafts show, and none where images are not supported.
pub proof fn images_are_listed_in_order(
    params: &Vec<MessageParam>,
    longer: &Vec<MessageParam>,
    m: MessageParam,
    r: Vec<&ImageSource>,
    s: Vec<&ImageSource>,
    none: Vec<&ImageSource>,
)
    requires
        call_ensures(image_sources, (params, true), r),
        call_ensures(image_sources, (longer, true), s),
        call_ensures(image_sources, (params, false), none),
        longer@ == params@.push(m),
    ensures
        none@.len() == 0,
        params@.len() == 0 ==> r@.len() == 0,
        Seq::new(s@.len(), |k: int| *s@[k]) == Seq::new(r@.len(), |k: int| *r@[k]) + (match (
            m.role,
            m.content,
        ) {
            (Role::User, MessageContent::Blocks(blocks)) => sources(blocks@),
            _ => Seq::empty(),
        }),
{
    let n = params@.len() as int;
    lemma_sources_same(params@, longer@, n);
    assert(longer@[n] == m);
    if let MessageContent::Blocks(blocks) = m.content {
        lemma_assistant(blocks@, blocks@.len() as int);
        assert(blocks@.take(blocks@.len() as int) =~= blocks@);
    }
    assert(Seq::new(none@.len(), |k: int| *none@[k]).len() == none@.len());
    assert(Seq::new(r@.len(), |k: int| *r@[k]).len() == r@.len());
}

proof fn lemma_sources_same(a: Seq<MessageParam>, b: Seq<MessageParam>, n: int)
    requires
        0 <= n <= a.len() <= b.len(),
        forall|i: int| 0 <= i < a.len() ==> #[trigger] b[i] == a[i],
    ensures
        anthropic::sources_of(a, n) == anthropic::sources_of(b, n),
    decreases n,
{
    if n > 0 {
        lemma_sources_same(a, b, n - 1);
        assert(b[n - 1] == a[n - 1]);
    }
}

/// The addresses that have to be downloaded are those in the results of calls: a message more that
/// is no result adds none, and a call with its result adds those of the result, in order.
pub proof fn downloads_are_listed_in_order(
    params: &Vec<MessageParam>,
    longer: &Vec<MessageParam>,
    call: MessageParam,
    result: MessageParam,
    r: Vec<String>,
    s: Vec<String>,
)
    requires
        call_ensures(download_urls, (params,), r),
        call_ensures(download_urls, (longer,), s),
        longer@ == params@.push(call).push(result),
        params@.len() > 0 ==> !answers(params@.last(), call),
    ensures
        text::views(s@) == text::views(r@) + (if answers(call, result) {
            addresses(result)
        } else {
            Seq::empty()
        }),
        params@.len() == 0 ==> r@.len() == 0,
{
    let n = params@.len() as int;
    let a = params@;
    let b = longer@;
    assert(b[n] == call && b[n + 1] == result);
    lemma_urls_same(a, b, n);
    lemma_answered(b, n);
    assert(!anthropic::answered(b, n + 1));
    assert(anthropic::urls_of(b, n + 2) =~= anthropic::urls_of(b, n + 1));
    if answers(call, result) {
        let content = (anthropic::only_result(result)->0).1;
        if let Some(ToolResultContent::Blocks(blocks)) = content {
            lemma_urls_in(blocks@, blocks@.len() as int);
            assert(blocks@.take(blocks@.len() as int) =~= blocks@);
        }
    } else {
        assert(anthropic::urls_of(b, n + 1) =~= anthropic::urls_of(b, n));
        assert(text::views(r@) + Seq::<Seq<char>>::empty() =~= text::views(r@));
    }
    assert(text::views(r@).len() == r@.len());
}

/// The addresses of images in the result that the message is.
pub open spec fn addresses(result: MessageParam) -> Seq<Seq<char>> {
    match result.content {
        MessageContent::Blocks(results) => match results@[0] {
            ContentBlockParam::ToolResult {
                content: Some(ToolResultContent::Blocks(blocks)),
                ..
            } => urls(blocks@),
            _ => Seq::empty(),
        },
        _ => Seq::empty(),
    }
}

/// The addresses of images among the blocks of a result.
pub open spec fn urls(blocks: Seq<ToolResultContentBlock>) -> Seq<Seq<char>> {
    pick(
        blocks,
        |b: ToolResultContentBlock|
            b matches ToolResultContentBlock::Image { source: ImageSource::Url { .. } },
        |b: ToolResultContentBlock|
            match b {
                ToolResultContentBlock::Image { source: ImageSource::Url { url } } => url@,
                _ => Seq::empty(),
            },
    )
}

proof fn lemma_urls_in(blocks: Seq<ToolResultContentBlock>, n: int)
    requires
        0 <= n <= blocks.len(),
    ensures
        anthropic::urls_in(blocks, n) == urls(blocks.take(n)),
    decreases n,
{
    let f = |b: ToolResultContentBlock|
        b matches ToolResultContentBlock::Image { source: ImageSource::Url { .. } };
    let g = |b: ToolResultContentBlock|
        match b {
            ToolResultContentBlock::Image { source: ImageSource::Url { url } } => url@,
            _ => Seq::empty(),
        };
    if n > 0 {
        lemma_urls_in(blocks, n - 1);
        lemma_pick_next(blocks, n - 1, f, g);
        lemma_pick_one(blocks[n - 1], f, g);
        assert(anthropic::urls_in(blocks, n) =~= urls(blocks.take(n)));
    } else {
        assert(blocks.take(0) =~= Seq::empty());
        lemma_pick_one(arbitrary::<ToolResultContentBlock>(), f, g);
    }
}

proof fn lemma_urls_same(a: Seq<MessageParam>, b: Seq<MessageParam>, n: int)
    requires
        0 <= n <= a.len() < b.len(),
        forall|i: int| 0 <= i < a.len() ==> #[trigger] b[i] == a[i],
        a.len() > 0 ==> !answers(a[a.len() - 1], b[a.len() as int]),
    ensures
        anthropic::urls_of(a, n) == anthropic::urls_of(b, n),
    decreases n,
{
    if n > 0 {
        lemma_urls_same(a, b, n - 1);
        assert(b[n - 1] == a[n - 1]);
        lemma_answered(b, n - 1);
        if n < a.len() {
            assert(b[n] == a[n]);
            lemma_answered(a, n - 1);
        }
    }
}

} // verus!

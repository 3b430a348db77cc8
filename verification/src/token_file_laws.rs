//! What the token file and the token list file say, line by line.

use vstd::prelude::*;
use crate::text;
use crate::text_laws;
use crate::tokens;
use crate::tokens::{
    load_tokens, merge_tokens, normalize, parse_list_line, parse_token_line, parse_token_list,
    parse_tokens, render_token_list, Loaded, TokenInfo, TokenView,
};
use crate::tokens_laws;

verus! {

/// The line says nothing: nothing but white space stands in it, or a comment.
pub open spec fn says_nothing(line: Seq<char>) -> bool {
    text::trimmed(line).len() == 0 || text::trimmed(line)[0] == '#'
}

/// The text is the token alone, or the alias and the token with `::` between them.
pub open spec fn is_part(s: Seq<char>, token: Seq<char>, alias: Option<Seq<char>>) -> bool {
    &&& !text::has(token, "::"@)
    &&& alias is None ==> s == token
    &&& alias is Some ==> s == alias->0 + "::"@ + token && !text::has(alias->0, "::"@)
}

proof fn lemma_part(s: Seq<char>)
    ensures
        tokens::token_part(s) matches Some((token, alias)) ==> is_part(s, token, alias),
        tokens::token_part(s) is None <==> text::pieces(s, "::"@).len() > 2,
{
    reveal_strlit("::");
    text_laws::pieces_make_the_text(s, "::"@);
    let p = text::pieces(s, "::"@);
    if p.len() == 1 {
        assert(!text::has(p[0], "::"@));
    } else if p.len() == 2 {
        assert(!text::has(p[0], "::"@) && !text::has(p[1], "::"@));
        assert(text::joined(p.drop_last(), "::"@) == p[0]);
    }
}

/// A line of the token file that says something is a token, or an alias and a token; white space
/// around it does not count. A line with more parts says nothing either.
pub proof fn token_lines_are_tokens(line: &str, r: Option<(String, Option<String>)>)
    requires
        call_ensures(parse_token_line, (line,), r),
    ensures
        says_nothing(line@) ==> r is None,
        r matches Some((token, alias)) ==> is_part(
            text::trimmed(line@),
            token@,
            match alias {
                Some(a) => Some(a@),
                None => None,
            },
        ),
        r is None && !says_nothing(line@) ==> text::pieces(text::trimmed(line@), "::"@).len() > 2,
        r is Some ==> text::pieces(text::trimmed(line@), "::"@).len() <= 2,
{
    lemma_part(text::trimmed(line@));
}

/// A line of the list file that says something is such a part and a checksum, with a comma between
/// them.
pub proof fn list_lines_are_tokens_with_checksums(line: &str, r: Option<TokenInfo>)
    requires
        call_ensures(parse_list_line, (line,), r),
    ensures
        says_nothing(line@) ==> r is None,
        r matches Some(t) ==> exists|part: Seq<char>|
            text::trimmed(line@) == part + ","@ + t.checksum@ && #[trigger] is_part(
                part,
                t.token@,
                text::opt(t.alias),
            ) && !text::has(part, ","@) && !text::has(t.checksum@, ","@),
        r is None && !says_nothing(line@) ==> {
            let p = text::pieces(text::trimmed(line@), ","@);
            p.len() != 2 || text::pieces(p[0], "::"@).len() > 2
        },
{
    reveal_strlit(",");
    let s = text::trimmed(line@);
    text_laws::pieces_make_the_text(s, ","@);
    let p = text::pieces(s, ","@);
    if p.len() == 2 {
        lemma_part(p[0]);
        assert(text::joined(p.drop_last(), ","@) == p[0]);
        assert(!text::has(p[0], ","@) && !text::has(p[1], ","@));
    }
}

/// Line ends are made uniform, and nothing else is changed.
pub proof fn line_ends_are_made_uniform(content: &str, r: String)
    requires
        call_ensures(normalize, (content,), r),
    ensures
        r@ == text::joined(text::pieces(content@, "\r\n"@), "\n"@),
        !text::has(content@, "\r\n"@) ==> r@ == content@,
{
    reveal_strlit("\r\n");
    text_laws::replacing_keeps_pieces(content@, "\r\n"@, "\n"@);
}

proof fn lemma_plain(s: Seq<char>)
    requires
        text_laws::free_of(s, '\r'),
    ensures
        tokens::normalized(s) == s,
{
    reveal_strlit("\r\n");
    text_laws::lemma_find_none(s, "\r\n"@, 0);
    text_laws::replacing_keeps_pieces(s, "\r\n"@, "\n"@);
}

proof fn lemma_line_more(content: Seq<char>, line: Seq<char>)
    requires
        text_laws::free_of(content, '\r'),
        text_laws::free_of(line, '\r'),
        text_laws::free_of(line, '\n'),
    ensures
        ({
            let lines = text::pieces(tokens::normalized(content), "\n"@);
            let more = text::pieces(tokens::normalized(content + "\n"@ + line), "\n"@);
            more == lines.push(line)
        }),
{
    reveal_strlit("\n");
    lemma_plain(content);
    let whole = content + "\n"@ + line;
    assert forall|i: int| 0 <= i < whole.len() implies #[trigger] whole[i] != '\r' by {
        if i < content.len() {
            assert(whole[i] == content[i]);
        } else if i > content.len() {
            assert(whole[i] == line[i - content.len() - 1]);
        }
    }
    lemma_plain(whole);
    text_laws::lemma_piece_more(content, "\n"@, line, 0);
}

proof fn lemma_entries_same(a: Seq<Seq<char>>, x: Seq<char>, n: int)
    requires
        0 <= n <= a.len(),
    ensures
        tokens::entries_of(a.push(x), n) == tokens::entries_of(a, n),
        tokens::list_of(a.push(x), n) == tokens::list_of(a, n),
    decreases n,
{
    if n > 0 {
        lemma_entries_same(a, x, n - 1);
        assert(a.push(x)[n - 1] == a[n - 1]);
    }
}

/// A line more in the token file is an entry more, where the line says something; the entries before
/// stay.
pub proof fn line_more_is_entry_more(
    content: &str,
    longer: &str,
    line: &str,
    r: Vec<(String, Option<String>)>,
    s: Vec<(String, Option<String>)>,
    e: Option<(String, Option<String>)>,
    i: int,
)
    requires
        call_ensures(parse_tokens, (content,), r),
        call_ensures(parse_tokens, (longer,), s),
        call_ensures(parse_token_line, (line,), e),
        longer@ == content@ + "\n"@ + line@,
        text_laws::free_of(content@, '\r'),
        text_laws::free_of(line@, '\r'),
        text_laws::free_of(line@, '\n'),
    ensures
        e is None ==> s@.len() == r@.len(),
        e is Some ==> s@.len() == r@.len() + 1,
        0 <= i < r@.len() ==> s@[i].0@ == r@[i].0@ && text::opt(s@[i].1) == text::opt(r@[i].1),
        e matches Some(x) ==> s@[r@.len() as int].0@ == x.0@ && text::opt(s@[r@.len() as int].1)
            == text::opt(x.1),
{
    lemma_line_more(content@, line@);
    let lines = text::pieces(tokens::normalized(content@), "\n"@);
    lemma_entries_same(lines, line@, lines.len() as int);
    assert(lines.push(line@)[lines.len() as int] == line@);
    let a = tokens::entry_views(r@);
    let b = tokens::entry_views(s@);
    assert(a.len() == r@.len() && b.len() == s@.len());
    if 0 <= i < r@.len() {
        assert(a[i] == (r@[i].0@, text::opt(r@[i].1)));
        assert(b[i] == (s@[i].0@, text::opt(s@[i].1)));
    }
    if e is Some {
        let n = r@.len() as int;
        assert(b[n] == (s@[n].0@, text::opt(s@[n].1)));
    }
}

/// A token file of one line has the entry of that line, if it says something.
pub proof fn single_line_is_single_entry(
    line: &str,
    r: Vec<(String, Option<String>)>,
    e: Option<(String, Option<String>)>,
    list: Vec<TokenInfo>,
    t: Option<TokenInfo>,
)
    requires
        call_ensures(parse_tokens, (line,), r),
        call_ensures(parse_token_line, (line,), e),
        call_ensures(parse_token_list, (line,), list),
        call_ensures(parse_list_line, (line,), t),
        text_laws::free_of(line@, '\r'),
        text_laws::free_of(line@, '\n'),
    ensures
        e is None ==> r@.len() == 0,
        e matches Some(x) ==> r@.len() == 1 && r@[0].0@ == x.0@ && text::opt(r@[0].1) == text::opt(
            x.1,
        ),
        t is None ==> list@.len() == 0,
        t matches Some(x) ==> list@.len() == 1 && list@[0]@ == x@,
{
    reveal_strlit("\n");
    lemma_plain(line@);
    text_laws::lemma_one_piece(line@, "\n"@);
    let lines = seq![line@];
    assert(tokens::entries_of(lines, 0) =~= Seq::empty());
    assert(tokens::list_of(lines, 0) =~= Seq::empty());
    let b = tokens::entry_views(r@);
    assert(b == tokens::entries_of(lines, 1));
    assert(b.len() == r@.len());
    if e is Some {
        assert(b[0] == (r@[0].0@, text::opt(r@[0].1)));
    }
    let c = tokens::token_views(list@);
    assert(c == tokens::list_of(lines, 1));
    assert(c.len() == list@.len());
    if t is Some {
        assert(tokens::list_of(lines, 1) == tokens::put(Seq::empty(), t->0@));
        assert(c[0] == list@[0]@);
    }
}

/// The token stands in the list.
pub open spec fn lists(list: Seq<TokenInfo>, token: Seq<char>) -> bool {
    exists|i: int| 0 <= i < list.len() && (#[trigger] list[i]).token@ == token
}

proof fn lemma_lists(list: Seq<TokenInfo>, token: Seq<char>)
    ensures
        lists(list, token) <==> tokens::position(tokens::token_views(list), token, 0) < list.len(),
{
    let v = tokens::token_views(list);
    tokens_laws::lemma_position(v, token, 0);
    assert(v.len() == list.len());
    if lists(list, token) {
        let i = choose|i: int| 0 <= i < list.len() && (#[trigger] list[i]).token@ == token;
        assert(v[i].token == token);
    }
    let p = tokens::position(v, token, 0);
    if p < list.len() {
        assert(v[p] == list[p]@);
    }
}

/// A line more in the list file puts its token at the end, or in the place that it has in the list
/// already; the other tokens stay.
pub proof fn line_more_puts_its_token(
    content: &str,
    longer: &str,
    line: &str,
    r: Vec<TokenInfo>,
    s: Vec<TokenInfo>,
    e: Option<TokenInfo>,
    i: int,
)
    requires
        call_ensures(parse_token_list, (content,), r),
        call_ensures(parse_token_list, (longer,), s),
        call_ensures(parse_list_line, (line,), e),
        longer@ == content@ + "\n"@ + line@,
        text_laws::free_of(content@, '\r'),
        text_laws::free_of(line@, '\r'),
        text_laws::free_of(line@, '\n'),
    ensures
        e is None ==> s@.len() == r@.len(),
        e is None && 0 <= i < r@.len() ==> s@[i]@ == r@[i]@,
        e matches Some(t) ==> {
            &&& !lists(r@, t.token@) ==> s@.len() == r@.len() + 1 && s@[r@.len() as int]@ == t@
            &&& lists(r@, t.token@) ==> s@.len() == r@.len()
            &&& 0 <= i < r@.len() && r@[i].token@ != t.token@ ==> s@[i]@ == r@[i]@
            &&& 0 <= i < r@.len() ==> s@[i].token@ == r@[i].token@
            &&& lists(r@, t.token@) ==> exists|j: int|
                0 <= j < s@.len() && r@[j].token@ == t.token@ && (#[trigger] s@[j])@ == t@
        },
{
    lemma_line_more(content@, line@);
    let lines = text::pieces(tokens::normalized(content@), "\n"@);
    lemma_entries_same(lines, line@, lines.len() as int);
    assert(lines.push(line@)[lines.len() as int] == line@);
    let a = tokens::token_views(r@);
    let b = tokens::token_views(s@);
    assert(a.len() == r@.len() && b.len() == s@.len());
    assert forall|j: int| 0 <= j < a.len() implies #[trigger] a[j] == r@[j]@ by {
    }
    assert forall|j: int| 0 <= j < b.len() implies #[trigger] b[j] == s@[j]@ by {
    }
    if let Some(t) = e {
        lemma_lists(r@, t.token@);
        tokens_laws::lemma_position(a, t.token@, 0);
        let p = tokens::position(a, t.token@, 0);
        assert(b == tokens::put(a, t@));
        if 0 <= i < r@.len() {
            assert(a[i] == r@[i]@ && b[i] == s@[i]@);
        }
        if p < a.len() {
            assert(b[p] == t@);
            assert(s@[p]@ == t@);
            assert(a[p] == r@[p]@);
        } else {
            assert(b[a.len() as int] == t@);
        }
    } else if 0 <= i < r@.len() {
        assert(a[i] == r@[i]@ && b[i] == s@[i]@);
    }
}

/// An entry more of the token file gives a token that the list has its alias, and no other change; one
/// that the list does not have comes to its end, with the checksum that was made for it.
pub proof fn entry_more_is_taken_in(
    list: Vec<TokenInfo>,
    entries: &Vec<(String, Option<String>)>,
    longer: &Vec<(String, Option<String>)>,
    fresh: &Vec<String>,
    r: Vec<TokenInfo>,
    s: Vec<TokenInfo>,
    i: int,
)
    requires
        call_ensures(merge_tokens, (list, entries, fresh), r),
        call_ensures(merge_tokens, (list, longer, fresh), s),
        longer@.len() == entries@.len() + 1,
        longer@.drop_last() == entries@,
        longer@.len() <= fresh@.len(),
    ensures
        ({
            let token = longer@.last().0@;
            let alias = text::opt(longer@.last().1);
            &&& !lists(r@, token) ==> s@.len() == r@.len() + 1 && s@[r@.len() as int].token@
                == token && s@[r@.len() as int].checksum@ == fresh@[entries@.len() as int]@
                && text::opt(s@[r@.len() as int].alias) == alias
            &&& lists(r@, token) ==> s@.len() == r@.len()
            &&& 0 <= i < r@.len() && r@[i].token@ != token ==> s@[i]@ == r@[i]@
            &&& 0 <= i < r@.len() ==> s@[i].token@ == r@[i].token@ && s@[i].checksum@
                == r@[i].checksum@
            &&& lists(r@, token) ==> exists|j: int|
                0 <= j < s@.len() && r@[j].token@ == token && text::opt((#[trigger] s@[j]).alias)
                    == alias
        }),
        entries@.len() == 0 ==> r@.len() == list@.len(),
        entries@.len() == 0 && 0 <= i < list@.len() ==> r@[i]@ == list@[i]@,
{
    let n = entries@.len() as int;
    let l = tokens::token_views(list@);
    let fs = text::views(fresh@);
    let es = tokens::entry_views(entries@);
    let ls = tokens::entry_views(longer@);
    assert forall|j: int| 0 <= j < n implies #[trigger] es[j] == ls[j] by {
        assert(longer@.drop_last()[j] == longer@[j]);
    }
    lemma_merged_same(l, es, ls, fs, n);
    let a = tokens::token_views(r@);
    let b = tokens::token_views(s@);
    assert(a.len() == r@.len() && b.len() == s@.len() && l.len() == list@.len());
    assert forall|j: int| 0 <= j < a.len() implies #[trigger] a[j] == r@[j]@ by {
    }
    assert forall|j: int| 0 <= j < b.len() implies #[trigger] b[j] == s@[j]@ by {
    }
    let e = ls[n];
    assert(e == (longer@.last().0@, text::opt(longer@.last().1)));
    assert(fs[n] == fresh@[n]@);
    lemma_lists(r@, e.0);
    tokens_laws::lemma_position(a, e.0, 0);
    let p = tokens::position(a, e.0, 0);
    assert(b == tokens::taken_in(a, e, fs[n]));
    if 0 <= i < r@.len() {
        assert(a[i] == r@[i]@ && b[i] == s@[i]@);
    }
    if p < a.len() {
        assert(b[p].alias == e.1);
        assert(s@[p]@ == b[p]);
        assert(a[p] == r@[p]@);
    } else {
        assert(b[a.len() as int] == s@[r@.len() as int]@);
    }
    if n == 0 {
        assert(a == l);
        if 0 <= i < list@.len() {
            assert(l[i] == list@[i]@ && a[i] == r@[i]@);
        }
    }
}

proof fn lemma_merged_same(
    list: Seq<TokenView>,
    a: Seq<(Seq<char>, Option<Seq<char>>)>,
    b: Seq<(Seq<char>, Option<Seq<char>>)>,
    fresh: Seq<Seq<char>>,
    n: int,
)
    requires
        forall|j: int| 0 <= j < n ==> #[trigger] a[j] == b[j],
    ensures
        tokens::merged(list, a, fresh, n) == tokens::merged(list, b, fresh, n),
    decreases n,
{
    if n > 0 {
        lemma_merged_same(list, a, b, fresh, n - 1);
        assert(a[n - 1] == b[n - 1]);
    }
}

/// The line of a token in the list file: the token and its checksum with a comma between them, behind
/// the alias where it has one.
pub open spec fn line_of(t: TokenInfo) -> Seq<char> {
    (match t.alias {
        Some(a) => a@ + "::"@,
        None => Seq::empty(),
    }) + t.token@ + ","@ + t.checksum@
}

/// A token more in the list is a line more in the list file.
pub proof fn token_more_is_line_more(
    list: &Vec<TokenInfo>,
    longer: &Vec<TokenInfo>,
    t: TokenInfo,
    r: String,
    s: String,
)
    requires
        call_ensures(render_token_list, (list,), r),
        call_ensures(render_token_list, (longer,), s),
        longer@ == list@.push(t),
    ensures
        list@.len() == 0 ==> r@.len() == 0 && s@ == line_of(t),
        list@.len() > 0 ==> s@ == r@ + "\n"@ + line_of(t),
{
    let a = tokens::rendered_lines(tokens::token_views(list@));
    let b = tokens::rendered_lines(tokens::token_views(longer@));
    let n = list@.len() as int;
    assert(a.len() == n && b.len() == n + 1);
    assert forall|i: int| 0 <= i < n implies #[trigger] b[i] == a[i] by {
        assert(longer@[i] == list@[i]);
    }
    assert(b.drop_last() =~= a);
    assert(longer@[n] == t);
    assert(b[n] == tokens::rendered_line(t@));
    assert(tokens::rendered_line(t@) =~= line_of(t));
    if n == 0 {
        assert(b[0] == line_of(t));
    }
}

/// Loading the files reads each of them where it is there, takes the entries of the token file into
/// the list, and writes the list; the token file is written only where its line ends change.
pub proof fn loading_reads_merges_and_writes(
    token_file: &str,
    list_file: &str,
    fresh: &Vec<String>,
    both: Loaded,
    only_tokens: Loaded,
    only_list: Loaded,
    neither: Loaded,
    entries: Vec<(String, Option<String>)>,
    list: Vec<TokenInfo>,
    empty: Vec<TokenInfo>,
    merged: Vec<TokenInfo>,
    alone: Vec<TokenInfo>,
    uniform: String,
    written: String,
)
    requires
        call_ensures(load_tokens, (Some(token_file), Some(list_file), fresh), both),
        call_ensures(load_tokens, (Some(token_file), None, fresh), only_tokens),
        call_ensures(load_tokens, (None, Some(list_file), fresh), only_list),
        call_ensures(load_tokens, (None, None, fresh), neither),
        call_ensures(parse_tokens, (token_file,), entries),
        call_ensures(parse_token_list, (list_file,), list),
        empty@.len() == 0,
        call_ensures(merge_tokens, (list, &entries, fresh), merged),
        call_ensures(merge_tokens, (empty, &entries, fresh), alone),
        call_ensures(normalize, (token_file,), uniform),
        call_ensures(render_token_list, (&both.token_infos,), written),
    ensures
        tokens::token_views(both.token_infos@) == tokens::token_views(merged@),
        tokens::token_views(only_tokens.token_infos@) == tokens::token_views(alone@),
        tokens::token_views(only_list.token_infos@) == tokens::token_views(list@),
        neither.token_infos@.len() == 0,
        both.token_list_file@ == written@,
        both.token_file is Some <==> uniform@ != token_file@,
        both.token_file matches Some(s) ==> s@ == uniform@,
        only_list.token_file is None,
        neither.token_file is None,
{
    assert(tokens::token_views(empty@) =~= Seq::empty());
    assert(tokens::entry_views(entries@).len() == entries@.len());
    assert(tokens::token_views(neither.token_infos@).len() == neither.token_infos@.len());
}

} // verus!

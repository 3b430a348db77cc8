//! The token file and the token list file.
//!
//! The token file names one token per line, the list file one token with its checksum. Either can
//! carry an alias: `alias::token`.

use vstd::prelude::*;
use crate::text;

verus! {

/// A token with its checksum.
#[derive(Debug, Clone, PartialEq)]
pub struct TokenInfo {
    pub token: String,
    pub checksum: String,
    pub alias: Option<String>,
}

/// [`TokenInfo`] as characters.
pub struct TokenView {
    pub token: Seq<char>,
    pub checksum: Seq<char>,
    pub alias: Option<Seq<char>>,
}

impl View for TokenInfo {
    type V = TokenView;

    open spec fn view(&self) -> TokenView {
        TokenView {
            token: self.token@,
            checksum: self.checksum@,
            alias: text::opt(self.alias),
        }
    }
}

/// The views of tokens.
pub open spec fn token_views(v: Seq<TokenInfo>) -> Seq<TokenView> {
    Seq::new(v.len(), |i: int| v[i]@)
}

/// A line of a file with its line end made uniform and white space at its ends dropped; nothing
/// where it is empty or a comment.
pub open spec fn significant(line: Seq<char>) -> Option<Seq<char>> {
    let t = text::trimmed(line);
    if t.len() == 0 || t[0] == '#' {
        None
    } else {
        Some(t)
    }
}

/// The token and the alias of `token` or `alias::token`; nothing where there are more parts.
pub open spec fn token_part(s: Seq<char>) -> Option<(Seq<char>, Option<Seq<char>>)> {
    let p = text::pieces(s, "::"@);
    if p.len() == 1 {
        Some((p[0], None))
    } else if p.len() == 2 {
        Some((p[1], Some(p[0])))
    } else {
        None
    }
}

/// The token and the alias of a line of the token file.
pub open spec fn token_line(line: Seq<char>) -> Option<(Seq<char>, Option<Seq<char>>)> {
    match significant(line) {
        Some(t) => token_part(t),
        None => None,
    }
}

/// The token of a line of the list file: a token part and a checksum, with a comma between.
pub open spec fn list_line(line: Seq<char>) -> Option<TokenView> {
    match significant(line) {
        Some(t) => {
            let p = text::pieces(t, ","@);
            if p.len() == 2 {
                match token_part(p[0]) {
                    Some((token, alias)) => Some(TokenView { token, checksum: p[1], alias }),
                    None => None,
                }
            } else {
                None
            }
        },
        None => None,
    }
}

/// The file content with line ends made uniform.
pub open spec fn normalized(content: Seq<char>) -> Seq<char> {
    text::replaced(content, "\r\n"@, "\n"@)
}

/// The tokens and aliases of the first `n` lines.
pub open spec fn entries_of(lines: Seq<Seq<char>>, n: int) -> Seq<(Seq<char>, Option<Seq<char>>)>
    decreases n,
{
    if n <= 0 {
        Seq::empty()
    } else {
        match token_line(lines[n - 1]) {
            Some(e) => entries_of(lines, n - 1).push(e),
            None => entries_of(lines, n - 1),
        }
    }
}

/// The tokens and aliases of the token file.
pub open spec fn entries(content: Seq<char>) -> Seq<(Seq<char>, Option<Seq<char>>)> {
    let lines = text::pieces(normalized(content), "\n"@);
    entries_of(lines, lines.len() as int)
}

/// The first position from `from` on of the token; the length where it is not there.
pub open spec fn position(list: Seq<TokenView>, token: Seq<char>, from: int) -> int
    decreases list.len() - from,
{
    if from < 0 || from >= list.len() {
        list.len() as int
    } else if list[from].token == token {
        from
    } else {
        position(list, token, from + 1)
    }
}

/// The list with a token added, or put in the place of the one that it has.
pub open spec fn put(list: Seq<TokenView>, t: TokenView) -> Seq<TokenView> {
    let i = position(list, t.token, 0);
    if i < list.len() {
        list.update(i, t)
    } else {
        list.push(t)
    }
}

/// The tokens of the first `n` lines of the list file; the last line of a token counts.
pub open spec fn list_of(lines: Seq<Seq<char>>, n: int) -> Seq<TokenView>
    decreases n,
{
    if n <= 0 {
        Seq::empty()
    } else {
        match list_line(lines[n - 1]) {
            Some(t) => put(list_of(lines, n - 1), t),
            None => list_of(lines, n - 1),
        }
    }
}

/// The tokens of the list file.
pub open spec fn listed(content: Seq<char>) -> Seq<TokenView> {
    let lines = text::pieces(normalized(content), "\n"@);
    list_of(lines, lines.len() as int)
}

/// The list with an entry of the token file taken in: a known token takes over the alias, a new
/// one gets the fresh checksum.
pub open spec fn taken_in(
    list: Seq<TokenView>,
    entry: (Seq<char>, Option<Seq<char>>),
    fresh: Seq<char>,
) -> Seq<TokenView> {
    let i = position(list, entry.0, 0);
    if i < list.len() {
        list.update(i, TokenView { alias: entry.1, ..list[i] })
    } else {
        list.push(TokenView { token: entry.0, checksum: fresh, alias: entry.1 })
    }
}

/// The list with the first `n` entries of the token file taken in.
pub open spec fn merged(
    list: Seq<TokenView>,
    entries: Seq<(Seq<char>, Option<Seq<char>>)>,
    fresh: Seq<Seq<char>>,
    n: int,
) -> Seq<TokenView>
    decreases n,
{
    if n <= 0 {
        list
    } else {
        taken_in(merged(list, entries, fresh, n - 1), entries[n - 1], fresh[n - 1])
    }
}

/// A line of the list file.
pub open spec fn rendered_line(t: TokenView) -> Seq<char> {
    match t.alias {
        Some(alias) => alias + "::"@ + t.token + ","@ + t.checksum,
        None => t.token + ","@ + t.checksum,
    }
}

/// The lines of the list file.
pub open spec fn rendered_lines(list: Seq<TokenView>) -> Seq<Seq<char>> {
    Seq::new(list.len(), |i: int| rendered_line(list[i]))
}

/// The list file.
pub open spec fn rendered(list: Seq<TokenView>) -> Seq<char> {
    text::joined(rendered_lines(list), "\n"@)
}

/// The views of entries.
pub open spec fn entry_views(v: Seq<(String, Option<String>)>) -> Seq<
    (Seq<char>, Option<Seq<char>>),
> {
    Seq::new(v.len(), |i: int| (v[i].0@, text::opt(v[i].1)))
}

/// Makes line ends uniform.
pub fn normalize(content: &str) -> (r: String)
    ensures
        r@ == normalized(content@),
{
    proof {
        reveal_strlit("\r\n");
    }
    text::replace(content, "\r\n", "\n")
}

fn significant_line(line: &str) -> (r: Option<String>)
    ensures
        text::opt(r) == significant(line@),
{
    let t = text::trim(line);
    if t.as_str().is_empty() {
        return None;
    }
    if t.as_str().get_char(0) == '#' {
        return None;
    }
    Some(t)
}

fn parse_token_part(s: &str) -> (r: Option<(String, Option<String>)>)
    ensures
        match r {
            Some((token, alias)) => token_part(s@) == Some((token@, text::opt(alias))),
            None => token_part(s@) is None,
        },
{
    proof {
        reveal_strlit("::");
    }
    let parts = text::split(s, "::");
    assert(text::views(parts@).len() == parts@.len());
    if parts.len() == 1 {
        assert(text::views(parts@)[0] == parts@[0]@);
        Some((parts[0].clone(), None))
    } else if parts.len() == 2 {
        assert(text::views(parts@)[0] == parts@[0]@);
        assert(text::views(parts@)[1] == parts@[1]@);
        Some((parts[1].clone(), Some(parts[0].clone())))
    } else {
        None
    }
}

/// Reads a line of the token file.
pub fn parse_token_line(line: &str) -> (r: Option<(String, Option<String>)>)
    ensures
        match r {
            Some((token, alias)) => token_line(line@) == Some((token@, text::opt(alias))),
            None => token_line(line@) is None,
        },
{
    match significant_line(line) {
        Some(t) => parse_token_part(t.as_str()),
        None => None,
    }
}

/// Reads a line of the list file.
pub fn parse_list_line(line: &str) -> (r: Option<TokenInfo>)
    ensures
        match r {
            Some(t) => list_line(line@) == Some(t@),
            None => list_line(line@) is None,
        },
{
    match significant_line(line) {
        Some(t) => {
            proof {
                reveal_strlit(",");
            }
            let parts = text::split(t.as_str(), ",");
            assert(text::views(parts@).len() == parts@.len());
            if parts.len() != 2 {
                return None;
            }
            assert(text::views(parts@)[0] == parts@[0]@);
            assert(text::views(parts@)[1] == parts@[1]@);
            match parse_token_part(parts[0].as_str()) {
                Some((token, alias)) => Some(
                    TokenInfo { token, checksum: parts[1].clone(), alias },
                ),
                None => None,
            }
        },
        None => None,
    }
}

/// Reads the token file.
pub fn parse_tokens(content: &str) -> (r: Vec<(String, Option<String>)>)
    ensures
        entry_views(r@) == entries(content@),
{
    let norm = normalize(content);
    proof {
        reveal_strlit("\n");
    }
    let lines = text::split(norm.as_str(), "\n");
    let ghost ls = text::views(lines@);
    let mut out: Vec<(String, Option<String>)> = Vec::new();
    let mut i: usize = 0;
    assert(entry_views(out@) =~= Seq::empty());
    while i < lines.len()
        invariant
            i <= lines@.len(),
            ls == text::views(lines@),
            entry_views(out@) == entries_of(ls, i as int),
        decreases lines@.len() - i,
    {
        let ghost before = entry_views(out@);
        assert(ls[i as int] == lines@[i as int]@);
        if let Some(e) = parse_token_line(lines[i].as_str()) {
            let ghost v = (e.0@, text::opt(e.1));
            out.push(e);
            assert(entry_views(out@) =~= before.push(v));
        }
        i += 1;
    }
    out
}

/// Returns the position of the token; the length where it is not there.
fn find_token(list: &Vec<TokenInfo>, token: &String) -> (r: usize)
    ensures
        r == position(token_views(list@), token@, 0),
        r <= list@.len(),
{
    let mut i: usize = 0;
    let ghost v = token_views(list@);
    while i < list.len()
        invariant
            i <= list@.len(),
            v == token_views(list@),
            position(v, token@, 0) == position(v, token@, i as int),
        decreases list@.len() - i,
    {
        assert(v[i as int] == list@[i as int]@);
        if list[i].token.eq(token) {
            return i;
        }
        i += 1;
    }
    i
}

/// Reads the list file.
pub fn parse_token_list(content: &str) -> (r: Vec<TokenInfo>)
    ensures
        token_views(r@) == listed(content@),
{
    let norm = normalize(content);
    proof {
        reveal_strlit("\n");
    }
    let lines = text::split(norm.as_str(), "\n");
    let ghost ls = text::views(lines@);
    let mut out: Vec<TokenInfo> = Vec::new();
    let mut i: usize = 0;
    assert(token_views(out@) =~= Seq::empty());
    while i < lines.len()
        invariant
            i <= lines@.len(),
            ls == text::views(lines@),
            token_views(out@) == list_of(ls, i as int),
        decreases lines@.len() - i,
    {
        let ghost before = token_views(out@);
        assert(ls[i as int] == lines@[i as int]@);
        if let Some(t) = parse_list_line(lines[i].as_str()) {
            let ghost v = t@;
            let at = find_token(&out, &t.token);
            if at < out.len() {
                out.set(at, t);
                assert(token_views(out@) =~= before.update(at as int, v));
            } else {
                out.push(t);
                assert(token_views(out@) =~= before.push(v));
            }
        }
        i += 1;
    }
    out
}

/// Takes the entries of the token file into the list. `fresh` holds a checksum for each entry, for
/// the case that its token is new.
pub fn merge_tokens(
    list: Vec<TokenInfo>,
    entries: &Vec<(String, Option<String>)>,
    fresh: &Vec<String>,
) -> (r: Vec<TokenInfo>)
    requires
        fresh@.len() >= entries@.len(),
    ensures
        token_views(r@) == merged(
            token_views(list@),
            entry_views(entries@),
            text::views(fresh@),
            entries@.len() as int,
        ),
{
    let ghost start = token_views(list@);
    let ghost es = entry_views(entries@);
    let ghost fs = text::views(fresh@);
    let mut out: Vec<TokenInfo> = list;
    let mut i: usize = 0;
    while i < entries.len()
        invariant
            i <= entries@.len() <= fresh@.len(),
            es == entry_views(entries@),
            fs == text::views(fresh@),
            token_views(out@) == merged(start, es, fs, i as int),
        decreases entries@.len() - i,
    {
        let ghost before = token_views(out@);
        assert(es[i as int] == (entries@[i as int].0@, text::opt(entries@[i as int].1)));
        assert(fs[i as int] == fresh@[i as int]@);
        let at = find_token(&out, &entries[i].0);
        let alias = match &entries[i].1 {
            Some(a) => Some(a.clone()),
            None => None,
        };
        if at < out.len() {
            let t = TokenInfo {
                token: out[at].token.clone(),
                checksum: out[at].checksum.clone(),
                alias,
            };
            let ghost v = t@;
            assert(before[at as int] == out@[at as int]@);
            out.set(at, t);
            assert(token_views(out@) =~= before.update(at as int, v));
        } else {
            let t = TokenInfo { token: entries[i].0.clone(), checksum: fresh[i].clone(), alias };
            let ghost v = t@;
            out.push(t);
            assert(token_views(out@) =~= before.push(v));
        }
        i += 1;
    }
    out
}

/// Writes a line of the list file.
fn render_line(t: &TokenInfo) -> (r: String)
    ensures
        r@ == rendered_line(t@),
{
    let mut s = match &t.alias {
        Some(alias) => {
            let mut s = alias.clone();
            s.append("::");
            s.append(t.token.as_str());
            s
        },
        None => t.token.clone(),
    };
    s.append(",");
    s.append(t.checksum.as_str());
    s
}

/// Writes the list file.
pub fn render_token_list(list: &Vec<TokenInfo>) -> (r: String)
    ensures
        r@ == rendered(token_views(list@)),
{
    let mut lines: Vec<String> = Vec::new();
    let mut i: usize = 0;
    let ghost v = token_views(list@);
    while i < list.len()
        invariant
            i == lines@.len() <= list@.len(),
            v == token_views(list@),
            forall|k: int| 0 <= k < i ==> (#[trigger] lines@[k])@ == rendered_line(v[k]),
        decreases list@.len() - i,
    {
        lines.push(render_line(&list[i]));
        i += 1;
    }
    assert(text::views(lines@) =~= rendered_lines(v));
    text::join(&lines, "\n")
}

/// What is left to do when the files were read.
pub struct Loaded {
    /// The token file to write, where its line ends were not uniform.
    pub token_file: Option<String>,
    /// The list file to write.
    pub token_list_file: String,
    /// The tokens.
    pub token_infos: Vec<TokenInfo>,
}

/// Reads both files, each of which can be missing. `fresh` holds a checksum for each entry of the
/// token file.
pub fn load_tokens(tokens: Option<&str>, token_list: Option<&str>, fresh: &Vec<String>) -> (r:
    Loaded)
    requires
        fresh@.len() >= (if tokens is Some {
            entries((tokens->0)@).len()
        } else {
            0
        }),
    ensures
        token_views(r.token_infos@) == loaded(
            match tokens {
                Some(s) => entries(s@),
                None => Seq::empty(),
            },
            match token_list {
                Some(s) => listed(s@),
                None => Seq::empty(),
            },
            text::views(fresh@),
        ),
        r.token_list_file@ == rendered(token_views(r.token_infos@)),
        text::opt(r.token_file) == match tokens {
            Some(s) => if normalized(s@) != s@ {
                Some(normalized(s@))
            } else {
                None
            },
            None => None,
        },
{
    let mut token_file: Option<String> = None;
    let es = match tokens {
        Some(s) => {
            let n = normalize(s);
            if !text::equal(n.as_str(), s) {
                token_file = Some(n);
            }
            parse_tokens(s)
        },
        None => {
            let none: Vec<(String, Option<String>)> = Vec::new();
            assert(entry_views(none@) =~= Seq::empty());
            none
        },
    };
    let list = match token_list {
        Some(s) => parse_token_list(s),
        None => {
            let none: Vec<TokenInfo> = Vec::new();
            assert(token_views(none@) =~= Seq::empty());
            none
        },
    };
    assert(entry_views(es@).len() == es@.len());
    let token_infos = merge_tokens(list, &es, fresh);
    let token_list_file = render_token_list(&token_infos);
    Loaded { token_file, token_list_file, token_infos }
}

/// The tokens of both files.
pub open spec fn loaded(
    entries: Seq<(Seq<char>, Option<Seq<char>>)>,
    list: Seq<TokenView>,
    fresh: Seq<Seq<char>>,
) -> Seq<TokenView> {
    merged(list, entries, fresh, entries.len() as int)
}

} // verus!

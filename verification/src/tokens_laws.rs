//! What holds of the token files, whatever they hold.

use vstd::prelude::*;
use crate::text;
use crate::text_laws;
use crate::tokens;
use crate::tokens::TokenView;

verus! {

/// No token occurs twice.
pub open spec fn distinct(list: Seq<TokenView>) -> bool {
    forall|i: int, j: int|
        #![trigger list[i], list[j]]
        0 <= i < j < list.len() ==> list[i].token != list[j].token
}

/// The position of a token is the first place where it stands.
pub proof fn lemma_position(list: Seq<TokenView>, token: Seq<char>, from: int)
    requires
        0 <= from <= list.len(),
    ensures
        from <= tokens::position(list, token, from) <= list.len(),
        tokens::position(list, token, from) < list.len() ==> list[tokens::position(
            list,
            token,
            from,
        )].token == token,
        forall|i: int|
            from <= i < tokens::position(list, token, from) ==> (#[trigger] list[i]).token != token,
    decreases list.len() - from,
{
    if from < list.len() && list[from].token != token {
        lemma_position(list, token, from + 1);
    }
}

/// No token occurs twice in the list that is read from the list file.
pub proof fn listed_tokens_are_unique(lines: Seq<Seq<char>>, n: int)
    ensures
        distinct(tokens::list_of(lines, n)),
    decreases n,
{
    if n > 0 {
        listed_tokens_are_unique(lines, n - 1);
        let l = tokens::list_of(lines, n - 1);
        match tokens::list_line(lines[n - 1]) {
            Some(t) => {
                lemma_position(l, t.token, 0);
            },
            None => {},
        }
    }
}

/// Taking the token file in keeps tokens unique.
pub proof fn merged_tokens_are_unique(
    list: Seq<TokenView>,
    entries: Seq<(Seq<char>, Option<Seq<char>>)>,
    fresh: Seq<Seq<char>>,
    n: int,
)
    requires
        distinct(list),
    ensures
        distinct(tokens::merged(list, entries, fresh, n)),
    decreases n,
{
    if n > 0 {
        merged_tokens_are_unique(list, entries, fresh, n - 1);
        lemma_position(tokens::merged(list, entries, fresh, n - 1), entries[n - 1].0, 0);
    }
}

/// A token that is in the list already stays where it is, with its checksum.
pub proof fn known_tokens_keep_checksum(
    list: Seq<TokenView>,
    entries: Seq<(Seq<char>, Option<Seq<char>>)>,
    fresh: Seq<Seq<char>>,
    n: int,
    i: int,
)
    requires
        0 <= i < list.len(),
    ensures
        list.len() <= tokens::merged(list, entries, fresh, n).len(),
        tokens::merged(list, entries, fresh, n)[i].token == list[i].token,
        tokens::merged(list, entries, fresh, n)[i].checksum == list[i].checksum,
    decreases n,
{
    if n > 0 {
        known_tokens_keep_checksum(list, entries, fresh, n - 1, i);
        lemma_position(tokens::merged(list, entries, fresh, n - 1), entries[n - 1].0, 0);
    }
}

/// Every token of the token file is in the list afterwards.
pub proof fn every_entry_is_taken_in(
    list: Seq<TokenView>,
    entries: Seq<(Seq<char>, Option<Seq<char>>)>,
    fresh: Seq<Seq<char>>,
    n: int,
    k: int,
)
    requires
        0 <= k < n <= entries.len(),
    ensures
        exists|j: int|
            0 <= j < tokens::merged(list, entries, fresh, n).len() && (#[trigger] tokens::merged(
                list,
                entries,
                fresh,
                n,
            )[j]).token == entries[k].0,
    decreases n,
{
    let before = tokens::merged(list, entries, fresh, n - 1);
    let after = tokens::merged(list, entries, fresh, n);
    lemma_position(before, entries[n - 1].0, 0);
    let p = tokens::position(before, entries[n - 1].0, 0);
    if k == n - 1 {
        assert(after[p].token == entries[k].0);
    } else {
        every_entry_is_taken_in(list, entries, fresh, n - 1, k);
        let j = choose|j: int| 0 <= j < before.len() && (#[trigger] before[j]).token == entries[k].0;
        assert(after[j].token == before[j].token);
    }
}

/// The token can be written as a line of the list file and read back: its parts hold no comma, the
/// double colon stands only between the alias and the token, the line begins and ends with visible
/// characters, and is no comment.
pub open spec fn writable(t: TokenView) -> bool {
    let line = tokens::rendered_line(t);
    &&& text_laws::free_of(t.token, ',')
    &&& text_laws::free_of(t.checksum, ',')
    &&& !text::has(t.token, "::"@)
    &&& t.alias matches Some(alias) ==> text_laws::free_of(alias, ',') && text::find(
        alias + "::"@ + t.token,
        "::"@,
        0,
    ) == Some(alias.len() as int)
    &&& !text::is_space(line[0])
    &&& line[0] != '#'
    &&& !text::is_space(line.last())
}

/// A line of the list file is read back as it was written.
pub proof fn list_line_roundtrip(t: TokenView)
    requires
        writable(t),
    ensures
        tokens::list_line(tokens::rendered_line(t)) == Some(t),
{
    reveal_strlit(",");
    reveal_strlit("::");
    let line = tokens::rendered_line(t);
    let part = match t.alias {
        Some(alias) => alias + "::"@ + t.token,
        None => t.token,
    };
    assert(line =~= part + ","@ + t.checksum);
    assert(text_laws::free_of(part, ','));
    text_laws::lemma_two_pieces(part, ","@, t.checksum);
    match t.alias {
        Some(alias) => {
            text_laws::lemma_two_pieces_at(alias, "::"@, t.token);
        },
        None => {
            assert(t.token.skip(0) =~= t.token);
        },
    }
    assert(text::trimmed(line) =~= line) by {
        assert(text::lead(line, 0) == 0);
        assert(text::trail(line, line.len() as int) == line.len());
        assert(line.subrange(0, line.len() as int) =~= line);
    }
}

/// No line end of two characters stands in the text, nor the first of them at its end.
spec fn plain_ends(s: Seq<char>) -> bool {
    &&& forall|i: int| 0 <= i < s.len() - 1 ==> !(#[trigger] s[i] == '\r' && s[i + 1] == '\n')
    &&& s.len() > 0 ==> s.last() != '\r'
}

proof fn lemma_plain_ends(lines: Seq<Seq<char>>)
    requires
        forall|i: int|
            0 <= i < lines.len() ==> text_laws::free_of(#[trigger] lines[i], '\n')
                && lines[i].len() > 0 && lines[i].last() != '\r',
    ensures
        plain_ends(text::joined(lines, "\n"@)),
    decreases lines.len(),
{
    reveal_strlit("\n");
    if lines.len() == 1 {
        let s = lines[0];
        assert forall|i: int| 0 <= i < s.len() - 1 implies !(#[trigger] s[i] == '\r' && s[i + 1]
            == '\n') by {
            assert(s[i + 1] != '\n');
        }
    } else if lines.len() > 1 {
        let d = lines.drop_last();
        assert forall|i: int| 0 <= i < d.len() implies text_laws::free_of(#[trigger] d[i], '\n')
            && d[i].len() > 0 && d[i].last() != '\r' by {
            assert(d[i] == lines[i]);
        }
        lemma_plain_ends(d);
        let w = text::joined(d, "\n"@);
        let l = lines.last();
        let s = text::joined(lines, "\n"@);
        assert(s == w + "\n"@ + l);
        assert forall|i: int| 0 <= i < s.len() - 1 implies !(#[trigger] s[i] == '\r' && s[i + 1]
            == '\n') by {
            let n = w.len() as int;
            if i < n - 1 {
                assert(s[i] == w[i] && s[i + 1] == w[i + 1]);
            } else if i == n - 1 {
                assert(s[i] == w.last());
            } else if i == n {
                assert(s[i] == '\n');
            } else {
                assert(s[i + 1] == l[i + 1 - n - 1]);
            }
        }
        assert(s.last() == l.last());
    }
}

/// The list that is read from the list file is the one that was written to it.
pub proof fn token_list_roundtrip(list: Seq<TokenView>)
    requires
        distinct(list),
        forall|i: int|
            0 <= i < list.len() ==> writable(#[trigger] list[i]) && text_laws::free_of(
                tokens::rendered_line(list[i]),
                '\n',
            ),
    ensures
        tokens::listed(tokens::rendered(list)) == list,
{
    reveal_strlit("\n");
    reveal_strlit("\r\n");
    reveal_strlit(",");
    let lines = tokens::rendered_lines(list);
    let whole = tokens::rendered(list);
    assert forall|i: int| 0 <= i < lines.len() implies text_laws::free_of(#[trigger] lines[i], '\n')
        && lines[i].len() > 0 && lines[i].last() != '\r' by {
        assert(writable(list[i]));
    }
    lemma_plain_ends(lines);
    assert forall|i: int| 0 <= i implies !(#[trigger] text::occurs_at(whole, "\r\n"@, i)) by {
        if text::occurs_at(whole, "\r\n"@, i) {
            let s = whole.subrange(i, i + 2);
            assert(s[0] == whole[i] && s[1] == whole[i + 1]);
        }
    }
    text_laws::lemma_find_nowhere(whole, "\r\n"@, 0);
    assert(whole.skip(0) =~= whole);
    assert(tokens::normalized(whole) == whole);
    if list.len() == 0 {
        text_laws::lemma_one_piece(whole, "\n"@);
        let ls = text::pieces(whole, "\n"@);
        assert(ls[0] =~= Seq::<char>::empty());
        assert(text::trimmed(ls[0]) =~= Seq::<char>::empty());
        assert(tokens::list_line(ls[0]) is None);
        assert(tokens::list_of(ls, 0) =~= Seq::empty());
        assert(tokens::list_of(ls, 1) =~= list);
    } else {
        text_laws::lemma_joined_pieces(lines, "\n"@);
        lemma_list_of(list, lines, list.len() as int);
        assert(list.take(list.len() as int) =~= list);
    }
}

proof fn lemma_list_of(list: Seq<TokenView>, lines: Seq<Seq<char>>, n: int)
    requires
        lines == tokens::rendered_lines(list),
        0 <= n <= list.len(),
        distinct(list),
        forall|i: int| 0 <= i < list.len() ==> writable(#[trigger] list[i]),
    ensures
        tokens::list_of(lines, n) == list.take(n),
    decreases n,
{
    if n == 0 {
        assert(list.take(0) =~= Seq::empty());
    } else {
        lemma_list_of(list, lines, n - 1);
        list_line_roundtrip(list[n - 1]);
        let l = list.take(n - 1);
        let t = list[n - 1];
        lemma_position(l, t.token, 0);
        let p = tokens::position(l, t.token, 0);
        if p < l.len() {
            assert(l[p] == list[p]);
        }
        assert(l.push(t) =~= list.take(n));
    }
}

} // verus!

//! What holds of searching, cutting and joining text.

use vstd::prelude::*;
use crate::text;

verus! {

/// The character does not occur in the text.
pub open spec fn free_of(s: Seq<char>, c: char) -> bool {
    forall|i: int| 0 <= i < s.len() ==> #[trigger] s[i] != c
}

/// What begins with a character that does not occur does not occur either.
pub proof fn lemma_find_none(s: Seq<char>, p: Seq<char>, from: int)
    requires
        p.len() > 0,
        0 <= from,
        forall|i: int| from <= i < s.len() ==> #[trigger] s[i] != p[0],
    ensures
        text::find(s, p, from) is None,
    decreases s.len() + 1 - from,
{
    if from + p.len() <= s.len() {
        if text::occurs_at(s, p, from) {
            assert(s.subrange(from, from + p.len())[0] == s[from]);
        }
        lemma_find_none(s, p, from + 1);
    }
}

/// What begins with a character that does not occur before is found where it stands.
pub proof fn lemma_find_at(s: Seq<char>, p: Seq<char>, from: int, to: int)
    requires
        p.len() > 0,
        0 <= from <= to,
        forall|i: int| from <= i < to ==> #[trigger] s[i] != p[0],
        text::occurs_at(s, p, to),
    ensures
        text::find(s, p, from) == Some(to),
    decreases to - from,
{
    if from < to {
        if text::occurs_at(s, p, from) {
            assert(s.subrange(from, from + p.len())[0] == s[from]);
        }
        lemma_find_at(s, p, from + 1, to);
    }
}

/// A text without the separator is one piece.
pub proof fn lemma_one_piece(s: Seq<char>, sep: Seq<char>)
    requires
        sep.len() > 0,
        free_of(s, sep[0]),
    ensures
        text::pieces(s, sep) == seq![s],
{
    lemma_find_none(s, sep, 0);
    assert(s.skip(0) =~= s);
}

/// Two texts without the separator, joined by it, are two pieces.
pub proof fn lemma_two_pieces(a: Seq<char>, sep: Seq<char>, b: Seq<char>)
    requires
        sep.len() > 0,
        free_of(a, sep[0]),
        free_of(b, sep[0]),
    ensures
        text::pieces(a + sep + b, sep) == seq![a, b],
{
    let s = a + sep + b;
    let n = a.len() as int;
    assert(s.subrange(n, n + sep.len()) =~= sep);
    assert forall|i: int| 0 <= i < n implies #[trigger] s[i] != sep[0] by {
        assert(s[i] == a[i]);
    }
    lemma_find_at(s, sep, 0, n);
    assert forall|i: int| n + sep.len() <= i < s.len() implies #[trigger] s[i] != sep[0] by {
        assert(s[i] == b[i - n - sep.len()]);
    }
    lemma_find_none(s, sep, n + sep.len());
    assert(s.skip(n + sep.len()) =~= b);
    assert(text::pieces_from(s, sep, n + sep.len()) =~= seq![b]);
    assert(s.subrange(0, n) =~= a);
    assert(seq![a] + seq![b] =~= seq![a, b]);
}

/// A line more is a piece more.
pub proof fn lemma_piece_more(s: Seq<char>, sep: Seq<char>, t: Seq<char>, from: int)
    requires
        sep.len() == 1,
        free_of(t, sep[0]),
        0 <= from <= s.len(),
    ensures
        text::pieces_from(s + sep + t, sep, from) == text::pieces_from(s, sep, from).push(t),
    decreases s.len() - from,
{
    let w = s + sep + t;
    let n = s.len() as int;
    match text::find(s, sep, from) {
        Some(i) => {
            lemma_find_props(s, sep, from);
            lemma_find_same(s, w, sep, from);
            lemma_piece_more(s, sep, t, i + 1);
            assert(w.subrange(from, i) =~= s.subrange(from, i));
            assert(seq![s.subrange(from, i)] + text::pieces_from(s, sep, i + 1).push(t) =~= (seq![
                s.subrange(from, i),
            ] + text::pieces_from(s, sep, i + 1)).push(t));
        },
        None => {
            lemma_absent(s, sep, from);
            assert forall|i: int| from <= i < n implies #[trigger] w[i] != sep[0] by {
                assert(w[i] == s[i]);
            }
            assert(w.subrange(n, n + 1) =~= sep);
            lemma_find_at(w, sep, from, n);
            assert forall|i: int| n + 1 <= i < w.len() implies #[trigger] w[i] != sep[0] by {
                assert(w[i] == t[i - n - 1]);
            }
            lemma_find_none(w, sep, n + 1);
            assert(w.skip(n + 1) =~= t);
            assert(text::pieces_from(w, sep, n + 1) =~= seq![t]);
            assert(w.subrange(from, n) =~= s.skip(from));
            assert(seq![s.skip(from)] + seq![t] =~= seq![s.skip(from)].push(t));
        },
    }
}

/// What is found stands where it is found.
pub proof fn lemma_find_props(s: Seq<char>, p: Seq<char>, from: int)
    requires
        0 <= from,
    ensures
        text::find(s, p, from) is Some ==> from <= text::find(s, p, from)->0 && text::occurs_at(
            s,
            p,
            text::find(s, p, from)->0,
        ),
    decreases s.len() + 1 - from,
{
    if from + p.len() <= s.len() && !text::occurs_at(s, p, from) {
        lemma_find_props(s, p, from + 1);
    }
}

/// A single character that is not found does not occur.
pub proof fn lemma_absent(s: Seq<char>, p: Seq<char>, from: int)
    requires
        p.len() == 1,
        0 <= from,
        text::find(s, p, from) is None,
    ensures
        forall|i: int| from <= i < s.len() ==> #[trigger] s[i] != p[0],
    decreases s.len() + 1 - from,
{
    if from < s.len() {
        assert(!text::occurs_at(s, p, from));
        if s[from] == p[0] {
            assert(s.subrange(from, from + 1) =~= p);
        }
        lemma_absent(s, p, from + 1);
    }
}

/// What is found in a text is found at the same place in a longer one.
pub proof fn lemma_find_same(s: Seq<char>, w: Seq<char>, p: Seq<char>, from: int)
    requires
        0 <= from,
        s.len() <= w.len(),
        forall|i: int| 0 <= i < s.len() ==> #[trigger] w[i] == s[i],
        text::find(s, p, from) is Some,
    ensures
        text::find(w, p, from) == text::find(s, p, from),
    decreases s.len() + 1 - from,
{
    assert(w.subrange(from, from + p.len()) =~= s.subrange(from, from + p.len()));
    if !text::occurs_at(s, p, from) {
        lemma_find_same(s, w, p, from + 1);
    }
}

/// Lines that were joined are the pieces of the whole.
pub proof fn lemma_joined_pieces(lines: Seq<Seq<char>>, sep: Seq<char>)
    requires
        sep.len() == 1,
        lines.len() > 0,
        forall|i: int| 0 <= i < lines.len() ==> free_of(#[trigger] lines[i], sep[0]),
    ensures
        text::pieces(text::joined(lines, sep), sep) == lines,
    decreases lines.len(),
{
    if lines.len() == 1 {
        lemma_one_piece(lines[0], sep);
        assert(lines =~= seq![lines[0]]);
    } else {
        let d = lines.drop_last();
        assert forall|i: int| 0 <= i < d.len() implies free_of(#[trigger] d[i], sep[0]) by {
            assert(d[i] == lines[i]);
        }
        lemma_joined_pieces(d, sep);
        lemma_piece_more(text::joined(d, sep), sep, lines.last(), 0);
        assert(d.push(lines.last()) =~= lines);
    }
}

/// A character that occurs neither in the parts nor between them does not occur in the whole.
pub proof fn lemma_joined_free(lines: Seq<Seq<char>>, sep: Seq<char>, c: char)
    requires
        free_of(sep, c),
        forall|i: int| 0 <= i < lines.len() ==> free_of(#[trigger] lines[i], c),
    ensures
        free_of(text::joined(lines, sep), c),
    decreases lines.len(),
{
    if lines.len() == 1 {
        assert(free_of(lines[0], c));
    } else if lines.len() > 1 {
        let d = lines.drop_last();
        assert forall|i: int| 0 <= i < d.len() implies free_of(#[trigger] d[i], c) by {
            assert(d[i] == lines[i]);
        }
        lemma_joined_free(d, sep, c);
        let a = text::joined(d, sep);
        let b = lines.last();
        assert(free_of(b, c)) by {
            assert(b == lines[lines.len() - 1]);
        }
        let w = a + sep + b;
        assert forall|i: int| 0 <= i < w.len() implies #[trigger] w[i] != c by {
            if i < a.len() {
                assert(w[i] == a[i]);
            } else if i < a.len() + sep.len() {
                assert(w[i] == sep[i - a.len()]);
            } else {
                assert(w[i] == b[i - a.len() - sep.len()]);
            }
        }
    }
}

/// What stands nowhere is not found.
pub proof fn lemma_find_nowhere(s: Seq<char>, p: Seq<char>, from: int)
    requires
        0 <= from,
        forall|i: int| from <= i ==> !(#[trigger] text::occurs_at(s, p, i)),
    ensures
        text::find(s, p, from) is None,
    decreases s.len() + 1 - from,
{
    if from + p.len() <= s.len() {
        assert(!text::occurs_at(s, p, from));
        lemma_find_nowhere(s, p, from + 1);
    }
}

/// What is not found stands nowhere.
pub proof fn lemma_nowhere(s: Seq<char>, p: Seq<char>, from: int, i: int)
    requires
        0 <= from <= i,
        text::find(s, p, from) is None,
    ensures
        !text::occurs_at(s, p, i),
    decreases i - from,
{
    if from + p.len() <= s.len() && from < i {
        lemma_nowhere(s, p, from + 1, i);
    }
}

/// A separator that is found between two texts, the second of which does not hold it, makes two
/// pieces of the whole.
pub proof fn lemma_two_pieces_at(a: Seq<char>, sep: Seq<char>, b: Seq<char>)
    requires
        sep.len() > 0,
        text::find(a + sep + b, sep, 0) == Some(a.len() as int),
        !text::has(b, sep),
    ensures
        text::pieces(a + sep + b, sep) == seq![a, b],
{
    let s = a + sep + b;
    let n = a.len() as int;
    let m = n + sep.len();
    assert forall|i: int| m <= i implies !(#[trigger] text::occurs_at(s, sep, i)) by {
        lemma_nowhere(b, sep, 0, i - m);
        if text::occurs_at(s, sep, i) {
            assert(b.subrange(i - m, i - m + sep.len()) =~= s.subrange(i, i + sep.len()));
        }
    }
    lemma_find_nowhere(s, sep, m);
    assert(s.skip(m) =~= b);
    assert(text::pieces_from(s, sep, m) =~= seq![b]);
    assert(s.subrange(0, n) =~= a);
    assert(seq![a] + seq![b] =~= seq![a, b]);
}

/// A text stands at a position exactly where its characters do.
pub proof fn occurs_by_characters(s: Seq<char>, p: Seq<char>, i: int)
    requires
        0 <= i,
    ensures
        text::occurs_at(s, p, i) <==> i + p.len() <= s.len() && forall|j: int|
            0 <= j < p.len() ==> s[i + j] == #[trigger] p[j],
        text::begins(s, p) <==> exists|rest: Seq<char>| s == #[trigger] (p + rest),
{
    if text::occurs_at(s, p, i) {
        assert forall|j: int| 0 <= j < p.len() implies s[i + j] == #[trigger] p[j] by {
            assert(s.subrange(i, i + p.len())[j] == s[i + j]);
        }
    }
    if i + p.len() <= s.len() && forall|j: int| 0 <= j < p.len() ==> s[i + j] == #[trigger] p[j] {
        assert(s.subrange(i, i + p.len()) =~= p);
    }
    if text::begins(s, p) {
        assert(s =~= p + s.skip(p.len() as int)) by {
            assert forall|j: int| 0 <= j < p.len() implies s[j] == #[trigger] p[j] by {
                assert(s.subrange(0, p.len() as int)[j] == s[j]);
            }
        }
    }
    if exists|rest: Seq<char>| s == #[trigger] (p + rest) {
        let rest = choose|rest: Seq<char>| s == #[trigger] (p + rest);
        assert(s.subrange(0, p.len() as int) =~= p);
    }
}

/// What is searched for is found at the first place where it stands, and found wherever it stands.
pub proof fn first_occurrence_is_found(s: Seq<char>, p: Seq<char>, from: int)
    requires
        0 <= from,
    ensures
        match text::find(s, p, from) {
            Some(i) => {
                &&& from <= i
                &&& text::occurs_at(s, p, i)
                &&& forall|j: int| from <= j < i ==> !(#[trigger] text::occurs_at(s, p, j))
            },
            None => forall|j: int| from <= j ==> !(#[trigger] text::occurs_at(s, p, j)),
        },
        text::has(s, p) <==> exists|i: int| #[trigger] text::occurs_at(s, p, i),
{
    lemma_first(s, p, from);
    lemma_first(s, p, 0);
}

proof fn lemma_first(s: Seq<char>, p: Seq<char>, from: int)
    requires
        0 <= from,
    ensures
        match text::find(s, p, from) {
            Some(i) => {
                &&& from <= i
                &&& text::occurs_at(s, p, i)
                &&& forall|j: int| from <= j < i ==> !(#[trigger] text::occurs_at(s, p, j))
            },
            None => forall|j: int| from <= j ==> !(#[trigger] text::occurs_at(s, p, j)),
        },
    decreases s.len() + 1 - from,
{
    if from + p.len() <= s.len() && !text::occurs_at(s, p, from) {
        lemma_first(s, p, from + 1);
    }
}

/// Trimming takes white space off both ends and nothing else: what stays is one stretch of the text,
/// from its first to its last character that is not white space.
pub proof fn trimming_takes_outer_space(s: Seq<char>)
    ensures
        exists|a: int, b: int|
            {
                &&& 0 <= a <= b <= s.len()
                &&& text::trimmed(s) == #[trigger] s.subrange(a, b)
                &&& forall|i: int|
                    0 <= i < a || b <= i < s.len() ==> text::is_space(#[trigger] s[i])
            },
        text::trimmed(s).len() > 0 ==> !text::is_space(text::trimmed(s)[0]) && !text::is_space(
            text::trimmed(s).last(),
        ),
        (s.len() > 0 ==> !text::is_space(s[0]) && !text::is_space(s.last())) ==> text::trimmed(s)
            == s,
{
    let n = s.len() as int;
    lemma_lead(s, 0);
    lemma_trail(s, n);
    let a = text::lead(s, 0);
    let b = text::trail(s, n);
    if a >= n {
        assert(s.subrange(n, n) =~= Seq::empty());
        assert(text::trimmed(s) == s.subrange(n, n));
    } else {
        if b <= a {
            assert(text::is_space(s[a]));
        }
        assert(text::trimmed(s) == s.subrange(a, b));
        assert(s.subrange(a, b).last() == s[b - 1]);
    }
    if s.len() > 0 && !text::is_space(s[0]) && !text::is_space(s.last()) {
        assert(a == 0 && b == n);
        assert(s.subrange(0, n) =~= s);
    }
    if s.len() == 0 {
        assert(text::trimmed(s) =~= s);
    }
}

proof fn lemma_lead(s: Seq<char>, from: int)
    requires
        0 <= from <= s.len(),
    ensures
        from <= text::lead(s, from) <= s.len(),
        forall|i: int| from <= i < text::lead(s, from) ==> text::is_space(#[trigger] s[i]),
        text::lead(s, from) < s.len() ==> !text::is_space(s[text::lead(s, from)]),
    decreases s.len() - from,
{
    if from < s.len() && text::is_space(s[from]) {
        lemma_lead(s, from + 1);
    }
}

proof fn lemma_trail(s: Seq<char>, to: int)
    requires
        0 <= to <= s.len(),
    ensures
        0 <= text::trail(s, to) <= to,
        forall|i: int| text::trail(s, to) <= i < to ==> text::is_space(#[trigger] s[i]),
        text::trail(s, to) > 0 ==> !text::is_space(s[text::trail(s, to) - 1]),
    decreases to,
{
    if to > 0 && text::is_space(s[to - 1]) {
        lemma_trail(s, to - 1);
    }
}

/// The blank, the tabulator and the line ends are white space; the visible characters of ASCII are
/// not.
pub proof fn visible_is_no_space(c: char)
    ensures
        c == ' ' || c == '\t' || c == '\n' || c == '\r' ==> text::is_space(c),
        '!' <= c <= '~' ==> !text::is_space(c),
        '\u{4e00}' <= c <= '\u{9fff}' ==> !text::is_space(c),
{
}

/// Cutting a text at a separator and joining the pieces with it gives the text back, and no piece
/// holds the separator.
pub proof fn pieces_make_the_text(s: Seq<char>, sep: Seq<char>)
    requires
        sep.len() > 0,
    ensures
        text::pieces(s, sep).len() > 0,
        text::joined(text::pieces(s, sep), sep) == s,
        forall|i: int|
            0 <= i < text::pieces(s, sep).len() ==> !text::has(
                #[trigger] text::pieces(s, sep)[i],
                sep,
            ),
{
    lemma_pieces(s, sep, 0);
    assert(s.skip(0) =~= s);
}

/// The first of several texts stands before the others.
pub proof fn lemma_joined_first(parts: Seq<Seq<char>>, sep: Seq<char>)
    requires
        parts.len() > 1,
    ensures
        text::joined(parts, sep) == parts[0] + sep + text::joined(parts.skip(1), sep),
    decreases parts.len(),
{
    let d = parts.drop_last();
    let t = parts.skip(1);
    if parts.len() == 2 {
        assert(d.len() == 1 && d[0] == parts[0]);
        assert(t.len() == 1 && t[0] == parts.last());
        assert(text::joined(parts, sep) == text::joined(d, sep) + sep + parts.last());
    } else {
        lemma_joined_first(d, sep);
        assert(d.skip(1) =~= t.drop_last());
        assert(t.last() == parts.last());
        let m = text::joined(t.drop_last(), sep);
        assert(d[0] == parts[0]);
        assert(text::joined(parts, sep) == text::joined(d, sep) + sep + parts.last());
        assert(text::joined(t, sep) == m + sep + t.last());
        assert((parts[0] + sep + m) + sep + parts.last() =~= parts[0] + sep + (m + sep
            + parts.last()));
    }
}

proof fn lemma_pieces(s: Seq<char>, sep: Seq<char>, from: int)
    requires
        sep.len() > 0,
        0 <= from <= s.len(),
    ensures
        text::pieces_from(s, sep, from).len() > 0,
        text::joined(text::pieces_from(s, sep, from), sep) == s.skip(from),
        forall|i: int|
            0 <= i < text::pieces_from(s, sep, from).len() ==> !text::has(
                #[trigger] text::pieces_from(s, sep, from)[i],
                sep,
            ),
    decreases s.len() - from,
{
    lemma_first(s, sep, from);
    let p = text::pieces_from(s, sep, from);
    match text::find(s, sep, from) {
        Some(i) => {
            let head = s.subrange(from, i);
            let next = i + sep.len();
            lemma_pieces(s, sep, next);
            let q = text::pieces_from(s, sep, next);
            assert(p == seq![head] + q);
            assert(p.skip(1) =~= q);
            lemma_joined_first(p, sep);
            assert(s.subrange(i, next) == sep);
            assert(s.skip(from) =~= head + sep + s.skip(next));
            assert(!text::has(head, sep)) by {
                assert forall|j: int| 0 <= j implies !(#[trigger] text::occurs_at(
                    head,
                    sep,
                    j,
                )) by {
                    if text::occurs_at(head, sep, j) {
                        assert(s.subrange(from + j, from + j + sep.len()) =~= head.subrange(
                            j,
                            j + sep.len(),
                        ));
                        assert(text::occurs_at(s, sep, from + j));
                    }
                }
                lemma_find_nowhere(head, sep, 0);
            }
            assert forall|j: int| 0 <= j < p.len() implies !text::has(#[trigger] p[j], sep) by {
                if j > 0 {
                    assert(p[j] == q[j - 1]);
                }
            }
        },
        None => {
            let tail = s.skip(from);
            assert forall|j: int| 0 <= j implies !(#[trigger] text::occurs_at(tail, sep, j)) by {
                if text::occurs_at(tail, sep, j) {
                    assert(s.subrange(from + j, from + j + sep.len()) =~= tail.subrange(
                        j,
                        j + sep.len(),
                    ));
                    assert(text::occurs_at(s, sep, from + j));
                }
            }
            lemma_find_nowhere(tail, sep, 0);
        },
    }
}

/// Replacing puts the new text between the pieces that the old one parts, and changes nothing in
/// them.
pub proof fn replacing_keeps_pieces(s: Seq<char>, p: Seq<char>, by: Seq<char>)
    requires
        p.len() > 0,
    ensures
        text::replaced(s, p, by) == text::joined(text::pieces(s, p), by),
        !text::has(s, p) ==> text::replaced(s, p, by) == s,
{
    lemma_replaced(s, p, by, 0);
    assert(s.skip(0) =~= s);
}

proof fn lemma_replaced(s: Seq<char>, p: Seq<char>, by: Seq<char>, from: int)
    requires
        p.len() > 0,
        0 <= from <= s.len(),
    ensures
        text::replaced_from(s, p, by, from) == text::joined(text::pieces_from(s, p, from), by),
    decreases s.len() - from,
{
    lemma_first(s, p, from);
    let q = text::pieces_from(s, p, from);
    if let Some(i) = text::find(s, p, from) {
        let next = i + p.len();
        lemma_replaced(s, p, by, next);
        lemma_pieces(s, p, next);
        let r = text::pieces_from(s, p, next);
        assert(q == seq![s.subrange(from, i)] + r);
        assert(q.skip(1) =~= r);
        lemma_joined_first(q, by);
    }
}

/// Joined texts stand one behind the other, with the separator between any two of them.
pub proof fn joining_keeps_texts(parts: Seq<Seq<char>>, sep: Seq<char>, more: Seq<char>)
    ensures
        text::joined(Seq::empty(), sep).len() == 0,
        text::joined(seq![more], sep) == more,
        parts.len() > 0 ==> text::joined(parts.push(more), sep) == text::joined(parts, sep) + sep
            + more,
{
    assert(parts.push(more).drop_last() =~= parts);
}

} // verus!

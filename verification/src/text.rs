//! Text as sequences of characters: searching, cutting and joining.

use vstd::prelude::*;

verus! {

/// [`String::push`]: appends the character.
pub assume_specification[ String::push ](s: &mut String, c: char)
    ensures
        final(s)@ == old(s)@.push(c),
;

/// `p` stands in `s` at position `i`.
pub open spec fn occurs_at(s: Seq<char>, p: Seq<char>, i: int) -> bool {
    0 <= i && i + p.len() <= s.len() && s.subrange(i, i + p.len()) == p
}

/// The first position from `from` on at which `p` stands in `s`.
pub open spec fn find(s: Seq<char>, p: Seq<char>, from: int) -> Option<int>
    decreases s.len() + 1 - from,
{
    if from < 0 || from + p.len() > s.len() {
        None
    } else if occurs_at(s, p, from) {
        Some(from)
    } else {
        find(s, p, from + 1)
    }
}

/// `s` begins with `p`.
pub open spec fn begins(s: Seq<char>, p: Seq<char>) -> bool {
    occurs_at(s, p, 0)
}

/// `p` stands somewhere in `s`.
pub open spec fn has(s: Seq<char>, p: Seq<char>) -> bool {
    find(s, p, 0) is Some
}

/// The pieces of `s` from `from` on between occurrences of `sep`.
pub open spec fn pieces_from(s: Seq<char>, sep: Seq<char>, from: int) -> Seq<Seq<char>>
    decreases s.len() - from,
{
    match find(s, sep, from) {
        Some(i) => if sep.len() > 0 && 0 <= from <= i && i + sep.len() <= s.len() {
            seq![s.subrange(from, i)] + pieces_from(s, sep, i + sep.len())
        } else {
            seq![s.skip(from)]
        },
        None => seq![s.skip(from)],
    }
}

/// The pieces of `s` between occurrences of `sep`.
pub open spec fn pieces(s: Seq<char>, sep: Seq<char>) -> Seq<Seq<char>> {
    pieces_from(s, sep, 0)
}

/// `s` from `from` on with each occurrence of `p` replaced.
pub open spec fn replaced_from(s: Seq<char>, p: Seq<char>, by: Seq<char>, from: int) -> Seq<char>
    decreases s.len() - from,
{
    match find(s, p, from) {
        Some(i) => if p.len() > 0 && 0 <= from <= i && i + p.len() <= s.len() {
            s.subrange(from, i) + by + replaced_from(s, p, by, i + p.len())
        } else {
            s.skip(from)
        },
        None => s.skip(from),
    }
}

/// `s` with each occurrence of `p` replaced.
pub open spec fn replaced(s: Seq<char>, p: Seq<char>, by: Seq<char>) -> Seq<char> {
    replaced_from(s, p, by, 0)
}

/// The character has the Unicode property `White_Space`.
pub open spec fn is_space(c: char) -> bool {
    let u = c as u32;
    ||| 0x09 <= u <= 0x0d
    ||| u == 0x20
    ||| u == 0x85
    ||| u == 0xa0
    ||| u == 0x1680
    ||| 0x2000 <= u <= 0x200a
    ||| u == 0x2028
    ||| u == 0x2029
    ||| u == 0x202f
    ||| u == 0x205f
    ||| u == 0x3000
}

/// The first position from `from` on without white space.
pub open spec fn lead(s: Seq<char>, from: int) -> int
    decreases s.len() - from,
{
    if 0 <= from < s.len() && is_space(s[from]) {
        lead(s, from + 1)
    } else {
        from
    }
}

/// The end of `s` up to `to` without the white space before it.
pub open spec fn trail(s: Seq<char>, to: int) -> int
    decreases to,
{
    if 0 < to <= s.len() && is_space(s[to - 1]) {
        trail(s, to - 1)
    } else {
        to
    }
}

/// `s` without white space at either end.
pub open spec fn trimmed(s: Seq<char>) -> Seq<char> {
    let a = lead(s, 0);
    if a >= s.len() {
        Seq::empty()
    } else {
        s.subrange(a, trail(s, s.len() as int))
    }
}

/// The texts joined with `sep` between them.
pub open spec fn joined(parts: Seq<Seq<char>>, sep: Seq<char>) -> Seq<char>
    decreases parts.len(),
{
    if parts.len() == 0 {
        Seq::empty()
    } else if parts.len() == 1 {
        parts[0]
    } else {
        joined(parts.drop_last(), sep) + sep + parts.last()
    }
}

/// The views of strings.
pub open spec fn views(v: Seq<String>) -> Seq<Seq<char>> {
    Seq::new(v.len(), |i: int| v[i]@)
}

/// The view of an optional string.
pub open spec fn opt(o: Option<String>) -> Option<Seq<char>> {
    match o {
        Some(s) => Some(s@),
        None => None,
    }
}

/// The characters of a text.
pub fn chars(s: &str) -> (v: Vec<char>)
    ensures
        v@ == s@,
{
    let mut v: Vec<char> = Vec::new();
    for c in it: s.chars()
        invariant
            v@ == it.seq().take(it.index() as int),
            it.seq() == s@,
    {
        v.push(c);
        assert(it.seq().take(it.index() + 1) =~= it.seq().take(it.index() as int).push(c));
    }
    assert(s@.take(s@.len() as int) =~= s@);
    v
}

/// The text of some of the characters.
pub fn text(v: &Vec<char>, from: usize, to: usize) -> (s: String)
    requires
        from <= to <= v@.len(),
    ensures
        s@ == v@.subrange(from as int, to as int),
{
    let mut s = String::new();
    let mut i: usize = from;
    assert(v@.subrange(from as int, from as int) =~= Seq::empty());
    while i < to
        invariant
            from <= i <= to <= v@.len(),
            s@ == v@.subrange(from as int, i as int),
        decreases to - i,
    {
        s.push(v[i]);
        assert(v@.subrange(from as int, i as int + 1) =~= v@.subrange(from as int, i as int).push(
            v@[i as int],
        ));
        i += 1;
    }
    s
}

fn stands_at(s: &Vec<char>, p: &Vec<char>, i: usize) -> (r: bool)
    requires
        i + p@.len() <= s@.len(),
    ensures
        r == occurs_at(s@, p@, i as int),
{
    let mut j: usize = 0;
    assert(i + p@.len() <= s.len());
    while j < p.len()
        invariant
            i + p@.len() <= s.len(),
            i + p@.len() <= s@.len(),
            j <= p@.len(),
            forall|x: int| 0 <= x < j ==> s@[i + x] == #[trigger] p@[x],
        decreases p@.len() - j,
    {
        if s[i + j] != p[j] {
            proof {
                if occurs_at(s@, p@, i as int) {
                    assert(s@.subrange(i as int, i + p@.len())[j as int] == p@[j as int]);
                }
            }
            return false;
        }
        j += 1;
    }
    assert(s@.subrange(i as int, i + p@.len()) =~= p@);
    true
}

fn find_in(s: &Vec<char>, p: &Vec<char>, from: usize) -> (r: Option<usize>)
    requires
        from <= s@.len(),
    ensures
        match r {
            Some(i) => find(s@, p@, from as int) == Some(i as int) && from <= i && i + p@.len()
                <= s@.len(),
            None => find(s@, p@, from as int) is None,
        },
{
    let mut i: usize = from;
    while i <= s.len() && p.len() <= s.len() - i
        invariant
            from <= i,
            i <= s@.len() + 1,
            from <= s@.len(),
            find(s@, p@, from as int) == find(s@, p@, i as int),
        decreases s@.len() + 1 - i,
    {
        if stands_at(s, p, i) {
            return Some(i);
        }
        if i == s.len() {
            assert(find(s@, p@, i + 1) is None);
            return None;
        }
        i += 1;
    }
    None
}

/// Returns `true` if both texts hold the same characters.
pub fn equal(a: &str, b: &str) -> (r: bool)
    ensures
        r == (a@ == b@),
{
    let x = chars(a);
    let y = chars(b);
    if x.len() != y.len() {
        return false;
    }
    let r = stands_at(&x, &y, 0);
    assert(x@.subrange(0, x@.len() as int) =~= x@);
    r
}

/// Returns `true` if the text begins with the other one.
pub fn starts_with(s: &str, p: &str) -> (r: bool)
    ensures
        r == begins(s@, p@),
{
    let x = chars(s);
    let y = chars(p);
    y.len() <= x.len() && stands_at(&x, &y, 0)
}

/// Returns what follows the beginning, if the text begins so.
pub fn strip_prefix(s: &str, p: &str) -> (r: Option<String>)
    ensures
        match r {
            Some(t) => begins(s@, p@) && t@ == s@.skip(p@.len() as int),
            None => !begins(s@, p@),
        },
{
    let x = chars(s);
    let y = chars(p);
    if y.len() <= x.len() && stands_at(&x, &y, 0) {
        let t = text(&x, y.len(), x.len());
        assert(t@ =~= s@.skip(p@.len() as int));
        Some(t)
    } else {
        None
    }
}

/// Returns `true` if the other text stands in the text.
pub fn contains(s: &str, p: &str) -> (r: bool)
    ensures
        r == has(s@, p@),
{
    let x = chars(s);
    let y = chars(p);
    find_in(&x, &y, 0).is_some()
}

/// Returns what stands before and after the first occurrence of a separator.
pub fn split_once(s: &str, sep: &str) -> (r: Option<(String, String)>)
    ensures
        match r {
            Some((a, b)) => {
                let i = find(s@, sep@, 0)->0;
                &&& find(s@, sep@, 0) is Some
                &&& 0 <= i
                &&& i + sep@.len() <= s@.len()
                &&& a@ == s@.take(i)
                &&& b@ == s@.skip(i + sep@.len())
            },
            None => find(s@, sep@, 0) is None,
        },
{
    let x = chars(s);
    let y = chars(sep);
    match find_in(&x, &y, 0) {
        Some(i) => {
            let a = text(&x, 0, i);
            assert(i + y@.len() <= x.len());
            let b = text(&x, i + y.len(), x.len());
            assert(a@ =~= s@.take(i as int));
            assert(b@ =~= s@.skip(i + sep@.len()));
            Some((a, b))
        },
        None => None,
    }
}

/// Returns the pieces between occurrences of the separator.
pub fn split(s: &str, sep: &str) -> (r: Vec<String>)
    requires
        sep@.len() > 0,
    ensures
        views(r@) == pieces(s@, sep@),
        r@.len() > 0,
{
    let x = chars(s);
    let y = chars(sep);
    let mut out: Vec<String> = Vec::new();
    let mut from: usize = 0;
    assert(views(out@) + pieces(s@, sep@) =~= pieces(s@, sep@));
    loop
        invariant_except_break
            views(out@) + pieces_from(s@, sep@, from as int) == pieces(s@, sep@),
        invariant
            x@ == s@,
            y@ == sep@,
            sep@.len() > 0,
            from <= s@.len(),
        ensures
            views(out@) == pieces(s@, sep@),
            out@.len() > 0,
        decreases s@.len() - from,
    {
        let ghost before = views(out@);
        match find_in(&x, &y, from) {
            Some(i) => {
                let piece = text(&x, from, i);
                out.push(piece);
                proof {
                    assert(views(out@) =~= before.push(piece@));
                    assert(views(out@) + pieces_from(s@, sep@, i + sep@.len()) =~= before + (seq![
                        piece@,
                    ] + pieces_from(s@, sep@, i + sep@.len())));
                }
                assert(i + y@.len() <= x.len());
                from = i + y.len();
            },
            None => {
                let piece = text(&x, from, x.len());
                assert(piece@ =~= s@.skip(from as int));
                out.push(piece);
                proof {
                    assert(views(out@) =~= before + seq![piece@]);
                }
                break;
            },
        }
    }
    out
}

/// Returns the text with each occurrence replaced.
pub fn replace(s: &str, p: &str, by: &str) -> (r: String)
    requires
        p@.len() > 0,
    ensures
        r@ == replaced(s@, p@, by@),
{
    let x = chars(s);
    let y = chars(p);
    let mut out = String::new();
    let mut from: usize = 0;
    assert(out@ + replaced(s@, p@, by@) =~= replaced(s@, p@, by@));
    loop
        invariant_except_break
            out@ + replaced_from(s@, p@, by@, from as int) == replaced(s@, p@, by@),
        invariant
            x@ == s@,
            y@ == p@,
            p@.len() > 0,
            from <= s@.len(),
        ensures
            out@ == replaced(s@, p@, by@),
        decreases s@.len() - from,
    {
        let ghost before = out@;
        match find_in(&x, &y, from) {
            Some(i) => {
                let piece = text(&x, from, i);
                out.append(piece.as_str());
                out.append(by);
                proof {
                    let rest = replaced_from(s@, p@, by@, i + p@.len());
                    assert(out@ + rest =~= before + (piece@ + by@ + rest));
                }
                assert(i + y@.len() <= x.len());
                from = i + y.len();
            },
            None => {
                let piece = text(&x, from, x.len());
                assert(piece@ =~= s@.skip(from as int));
                out.append(piece.as_str());
                break;
            },
        }
    }
    out
}

/// Returns `true` if the character is white space.
pub fn is_whitespace(c: char) -> (r: bool)
    ensures
        r == is_space(c),
{
    let u: u32 = c as u32;
    (0x09 <= u && u <= 0x0d) || u == 0x20 || u == 0x85 || u == 0xa0 || u == 0x1680 || (0x2000 <= u
        && u <= 0x200a) || u == 0x2028 || u == 0x2029 || u == 0x202f || u == 0x205f || u == 0x3000
}

proof fn lemma_trail(s: Seq<char>, a: int, to: int)
    requires
        0 <= a < to <= s.len(),
        !is_space(s[a]),
    ensures
        a < trail(s, to) <= to,
    decreases to,
{
    if is_space(s[to - 1]) {
        lemma_trail(s, a, to - 1);
    }
}

/// Returns the text without white space at either end.
pub fn trim(s: &str) -> (r: String)
    ensures
        r@ == trimmed(s@),
{
    let x = chars(s);
    let mut a: usize = 0;
    while a < x.len() && is_whitespace(x[a])
        invariant
            x@ == s@,
            a <= x@.len(),
            lead(s@, 0) == lead(s@, a as int),
        decreases x@.len() - a,
    {
        a += 1;
    }
    assert(lead(s@, 0) == a);
    if a == x.len() {
        return String::new();
    }
    let mut b: usize = x.len();
    proof {
        lemma_trail(s@, a as int, b as int);
    }
    while b > 0 && is_whitespace(x[b - 1])
        invariant
            x@ == s@,
            a < trail(s@, s@.len() as int),
            b <= x@.len(),
            trail(s@, s@.len() as int) == trail(s@, b as int),
        decreases b,
    {
        b -= 1;
    }
    text(&x, a, b)
}

/// Joins the texts with the separator between them.
pub fn join(parts: &Vec<String>, sep: &str) -> (r: String)
    ensures
        r@ == joined(views(parts@), sep@),
{
    let mut out = String::new();
    let mut i: usize = 0;
    let ghost v = views(parts@);
    assert(v.take(0) =~= Seq::empty());
    while i < parts.len()
        invariant
            i <= parts@.len(),
            v == views(parts@),
            out@ == joined(v.take(i as int), sep@),
        decreases parts@.len() - i,
    {
        let ghost before = out@;
        proof {
            assert(v.take(i as int + 1).drop_last() =~= v.take(i as int));
            assert(v.take(i as int + 1).last() == parts@[i as int]@);
        }
        if i > 0 {
            out.append(sep);
        }
        out.append(parts[i].as_str());
        proof {
            if i == 0 {
                assert(out@ =~= parts@[0]@);
            }
        }
        i += 1;
    }
    assert(v.take(v.len() as int) =~= v);
    out
}

} // verus!

//! What the functions on texts give for every text, in characters.

use vstd::prelude::*;
use crate::niche_types::{NonNegativeI16, NonNegativeI8};
use crate::text;
use crate::text::{
    chars, contains, equal, is_whitespace, join, replace, split, split_once, starts_with,
    strip_prefix, trim,
};
use crate::text_laws;

verus! {

/// A text has its characters, and some of them are a part of it.
pub proof fn texts_are_characters(s: &str, v: Vec<char>, w: &Vec<char>, from: usize, to: usize, r: String, i: int)
    requires
        call_ensures(chars, (s,), v),
        call_ensures(text::text, (w, from, to), r),
        from <= to <= w@.len(),
    ensures
        v@.len() == s@.len(),
        0 <= i < s@.len() ==> v@[i] == s@[i],
        r@.len() == to - from,
        0 <= i < r@.len() ==> r@[i] == w@[from + i],
{
}

/// Texts are equal where they are as long and all their characters are equal.
pub proof fn equal_texts_have_equal_characters(a: &str, b: &str, r: bool, i: int)
    requires
        call_ensures(equal, (a, b), r),
    ensures
        r ==> a@.len() == b@.len(),
        r && 0 <= i < a@.len() ==> a@[i] == b@[i],
        a@ == b@ ==> r,
{
}

/// A text begins with another one where something makes the other one into it; that is what is left
/// without the beginning.
pub proof fn beginnings_are_taken_off(s: &str, p: &str, r: bool, rest: Option<String>)
    requires
        call_ensures(starts_with, (s, p), r),
        call_ensures(strip_prefix, (s, p), rest),
    ensures
        r <==> exists|t: Seq<char>| s@ == #[trigger] (p@ + t),
        rest is Some <==> r,
        rest matches Some(t) ==> s@ == p@ + t@,
{
    text_laws::occurs_by_characters(s@, p@, 0);
    if let Some(t) = rest {
        assert(s@.subrange(0, p@.len() as int) == p@);
        assert(s@ =~= p@ + t@);
    }
}

/// A text contains another one where it stands between two parts of it.
pub proof fn contained_texts_stand_somewhere(s: &str, p: &str, r: bool)
    requires
        call_ensures(contains, (s, p), r),
    ensures
        r <==> exists|a: Seq<char>, b: Seq<char>| s@ == #[trigger] (a + p@ + b),
{
    text_laws::first_occurrence_is_found(s@, p@, 0);
    if r {
        let i = choose|i: int| #[trigger] text::occurs_at(s@, p@, i);
        let a = s@.take(i);
        let b = s@.skip(i + p@.len());
        assert(s@.subrange(i, i + p@.len()) == p@);
        assert(s@ =~= a + p@ + b);
    }
    if exists|a: Seq<char>, b: Seq<char>| s@ == #[trigger] (a + p@ + b) {
        let (a, b) = choose|a: Seq<char>, b: Seq<char>| s@ == #[trigger] (a + p@ + b);
        let n = a.len() as int;
        assert(s@.subrange(n, n + p@.len()) =~= p@);
        assert(text::occurs_at(s@, p@, n));
    }
}

/// A text is parted at the first place where the separator stands: the parts and the separator make
/// the text, and the separator does not stand earlier.
pub proof fn texts_are_parted_once(s: &str, sep: &str, r: Option<(String, String)>)
    requires
        call_ensures(split_once, (s, sep), r),
    ensures
        r is None <==> forall|i: int| !(#[trigger] text::occurs_at(s@, sep@, i)),
        r matches Some((a, b)) ==> s@ == a@ + sep@ + b@ && forall|i: int|
            0 <= i < a@.len() ==> !(#[trigger] text::occurs_at(s@, sep@, i)),
{
    text_laws::first_occurrence_is_found(s@, sep@, 0);
    if let Some((a, b)) = r {
        let i = text::find(s@, sep@, 0)->0;
        assert(s@.subrange(i, i + sep@.len()) == sep@);
        assert(s@ =~= a@ + sep@ + b@);
        assert(text::occurs_at(s@, sep@, i));
    }
}

/// The pieces of a text, joined by the separator, are the text; none of them holds the separator.
pub proof fn pieces_are_joined_again(s: &str, sep: &str, r: Vec<String>, t: String, i: int)
    requires
        call_ensures(split, (s, sep), r),
        call_ensures(join, (&r, sep), t),
        sep@.len() > 0,
    ensures
        t@ == s@,
        r@.len() > 0,
        0 <= i < r@.len() ==> !text::has(r@[i]@, sep@),
{
    text_laws::pieces_make_the_text(s@, sep@);
    let v = text::views(r@);
    assert(v.len() == r@.len());
    if 0 <= i < r@.len() {
        assert(v[i] == r@[i]@);
    }
}

/// Joining texts puts the separator between each two of them: one more text comes behind one more
/// separator.
pub proof fn joining_puts_separators_between(
    parts: &Vec<String>,
    longer: &Vec<String>,
    sep: &str,
    last: String,
    r: String,
    s: String,
)
    requires
        call_ensures(join, (parts, sep), r),
        call_ensures(join, (longer, sep), s),
        longer@ == parts@.push(last),
    ensures
        parts@.len() == 0 ==> r@.len() == 0 && s@ == last@,
        parts@.len() > 0 ==> s@ == r@ + sep@ + last@,
{
    let a = text::views(parts@);
    let b = text::views(longer@);
    let n = parts@.len() as int;
    assert(a.len() == n && b.len() == n + 1);
    assert(b.drop_last() =~= a);
    assert(b[n] == last@);
}

/// Replacing takes the pieces between the occurrences and puts the new text between them.
pub proof fn replacing_changes_occurrences_only(
    s: &str,
    p: &str,
    by: &str,
    r: String,
    pieces: Vec<String>,
    t: String,
)
    requires
        call_ensures(replace, (s, p, by), r),
        call_ensures(split, (s, p), pieces),
        call_ensures(join, (&pieces, by), t),
        p@.len() > 0,
    ensures
        r@ == t@,
        !text::has(s@, p@) ==> r@ == s@,
{
    text_laws::replacing_keeps_pieces(s@, p@, by@);
}

/// Trimming takes the white space off both ends of a text, all of it, and nothing else.
pub proof fn trimming_takes_white_space_off(s: &str, r: String)
    requires
        call_ensures(trim, (s,), r),
    ensures
        exists|a: int, b: int|
            {
                &&& 0 <= a <= b <= s@.len()
                &&& r@ == #[trigger] s@.subrange(a, b)
                &&& forall|i: int|
                    0 <= i < a || b <= i < s@.len() ==> text::is_space(#[trigger] s@[i])
            },
        r@.len() > 0 ==> !text::is_space(r@[0]) && !text::is_space(r@.last()),
{
    text_laws::trimming_takes_outer_space(s@);
}

/// White space is the blank, the tabulators, the ends of lines and pages, and the spaces of Unicode.
pub proof fn white_space_is_that_of_unicode(c: char, r: bool)
    requires
        call_ensures(is_whitespace, (c,), r),
    ensures
        c == ' ' || c == '\t' || c == '\n' || c == '\r' || c == '\u{b}' || c == '\u{c}' ==> r,
        c == '\u{85}' || c == '\u{a0}' || c == '\u{1680}' || c == '\u{2028}' || c == '\u{2029}'
            ==> r,
        '\u{2000}' <= c <= '\u{200a}' || c == '\u{202f}' || c == '\u{205f}' || c == '\u{3000}'
            ==> r,
        '\0' <= c < '\t' || '\u{e}' <= c < ' ' || '!' <= c < '\u{85}' ==> !r,
        '\u{85}' < c < '\u{a0}' || '\u{a0}' < c < '\u{1680}' || '\u{1680}' < c < '\u{2000}' ==> !r,
        '\u{200a}' < c < '\u{2028}' || '\u{2029}' < c < '\u{202f}' || '\u{202f}' < c < '\u{205f}'
            ==> !r,
        '\u{205f}' < c < '\u{3000}' || '\u{3000}' < c ==> !r,
{
}

/// Numbers that are not negative hold the number that they were made with, and are made of no other.
pub proof fn small_numbers_are_kept(
    a: i8,
    x: Option<NonNegativeI8>,
    m: i8,
    b: i16,
    y: Option<NonNegativeI16>,
    n: i16,
)
    requires
        call_ensures(NonNegativeI8::new, (a,), x),
        x is Some ==> call_ensures(NonNegativeI8::as_inner, (x->0,), m),
        call_ensures(NonNegativeI16::new, (b,), y),
        y is Some ==> call_ensures(NonNegativeI16::as_inner, (y->0,), n),
    ensures
        x is Some <==> a >= 0,
        x is Some ==> m == a,
        y is Some <==> b >= 0,
        y is Some ==> n == b,
{
}

/// The least of these numbers is zero, the greatest is the greatest of its type.
pub proof fn small_numbers_have_limits(
    least: NonNegativeI8,
    greatest: NonNegativeI8,
    first: NonNegativeI16,
    last: NonNegativeI16,
    v: i8,
    made: NonNegativeI8,
    w: i16,
    other: NonNegativeI16,
)
    requires
        call_ensures(NonNegativeI8::min, (), least),
        call_ensures(NonNegativeI8::max, (), greatest),
        call_ensures(NonNegativeI16::min, (), first),
        call_ensures(NonNegativeI16::max, (), last),
        call_ensures(NonNegativeI8::new_unchecked, (v,), made),
        call_ensures(NonNegativeI16::new_unchecked, (w,), other),
    ensures
        least.value() == 0 && first.value() == 0,
        greatest.value() == i8::MAX && last.value() == i16::MAX,
        made.value() == v && other.value() == w,
{
}

} // verus!

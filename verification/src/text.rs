//! Strings from bytes and strings built piece by piece.
use vstd::prelude::*;
use vstd::std_specs::iter::IteratorSpec;
use vstd::utf8::{decode_utf8, valid_utf8};

verus! {

/// `String::from_utf8`: the string whose UTF-8 encoding is the bytes, if
/// they are valid UTF-8.
#[verifier::external_body]
pub fn string_from_utf8(v: Vec<u8>) -> (r: Option<String>)
    ensures
        r is Some <==> valid_utf8(v@),
        r matches Some(s) ==> s@ == decode_utf8(v@),
{
    String::from_utf8(v).ok()
}

/// `String::push_str`: appends the characters of `t`.
#[verifier::external_body]
pub fn push_str(s: &mut String, t: &str)
    ensures
        final(s)@ == old(s)@ + t@,
{
    s.push_str(t);
}

/// `String::push`: appends one character.
#[verifier::external_body]
pub fn push_char(s: &mut String, c: char)
    ensures
        final(s)@ == old(s)@.push(c),
{
    s.push(c);
}

/// `str` equality: the same characters.
#[verifier::external_body]
pub fn str_eq(a: &str, b: &str) -> (r: bool)
    ensures
        r == (a@ == b@),
{
    a == b
}

/// The characters with the Unicode `White_Space` property.
pub open spec fn white_space(c: char) -> bool {
    let u = c as u32;
    ||| 0x09 <= u <= 0x0d
    ||| u == 0x20
    ||| u == 0x85
    ||| u == 0xa0
    ||| u == 0x1680
    ||| 0x2000 <= u <= 0x200a
    ||| u == 0x2028
    ||| u == 0x2029
    ||| u == 0x202f
    ||| u == 0x205f
    ||| u == 0x3000
}

/// Whether a character has the Unicode `White_Space` property, as
/// `char::is_whitespace` answers.
pub fn is_whitespace(c: char) -> (r: bool)
    ensures
        r == white_space(c),
{
    let u = c as u32;
    (0x09 <= u && u <= 0x0d) || u == 0x20 || u == 0x85 || u == 0xa0 || u == 0x1680 || (0x2000 <= u
        && u <= 0x200a) || u == 0x2028 || u == 0x2029 || u == 0x202f || u == 0x205f || u == 0x3000
}

/// Splits characters from `i` on into maximal runs without white space,
/// with `cur` the run being read and `acc` the runs read before it.
pub open spec fn split_from(cs: Seq<char>, i: nat, cur: Seq<char>, acc: Seq<Seq<char>>) -> Seq<Seq<char>>
    decreases cs.len() - i,
{
    if i >= cs.len() {
        if cur.len() > 0 {
            acc.push(cur)
        } else {
            acc
        }
    } else if white_space(cs[i as int]) {
        split_from(
            cs,
            i + 1,
            Seq::empty(),
            if cur.len() > 0 {
                acc.push(cur)
            } else {
                acc
            },
        )
    } else {
        split_from(cs, i + 1, cur.push(cs[i as int]), acc)
    }
}

/// The words of a text: its maximal runs of characters without white space.
pub open spec fn words_of(cs: Seq<char>) -> Seq<Seq<char>> {
    split_from(cs, 0, Seq::empty(), Seq::empty())
}

/// The views of a run of strings.
pub open spec fn strings_view(v: Seq<String>) -> Seq<Seq<char>> {
    Seq::new(v.len(), |i: int| v[i]@)
}

/// Splits a text into its words, as `str::split_whitespace` does.
pub fn split_words(text: &str) -> (r: Vec<String>)
    ensures
        strings_view(r@) == words_of(text@),
{
    let mut words: Vec<String> = Vec::new();
    let mut cur = String::new();
    let ghost cs = text@;
    assert(strings_view(words@) =~= Seq::<Seq<char>>::empty());
    for c in it: text.chars()
        invariant
            cs == text@,
            it.seq() == cs,
            words_of(cs) == split_from(cs, it.index() as nat, cur@, strings_view(words@)),
    {
        assert(c == cs[it.index()]);
        if is_whitespace(c) {
            if !cur.as_str().is_empty() {
                let ghost before = strings_view(words@);
                let w = cur;
                cur = String::new();
                words.push(w);
                assert(strings_view(words@) =~= before.push(w@));
            } else {
                cur = String::new();
            }
        } else {
            push_char(&mut cur, c);
        }
    }
    if !cur.as_str().is_empty() {
        let ghost before = strings_view(words@);
        words.push(cur);
        assert(strings_view(words@) =~= before.push(words@.last()@));
    }
    words
}

} // verus!

//! Splitting an argument string into words at ASCII whitespace.

use vstd::prelude::*;
use vstd::string::*;
use crate::bookmark::strings_view;

verus! {

/// The ASCII whitespace characters: space, tab, line feed, form feed and
/// carriage return.
pub open spec fn is_ascii_space(c: char) -> bool {
    c == ' ' || c == '\t' || c == '\n' || c == '\x0C' || c == '\r'
}

/// The words still to come from `s` when the characters of `word` have
/// been read into the current word.
pub open spec fn words_from(s: Seq<char>, word: Seq<char>) -> Seq<Seq<char>>
    decreases s.len(),
{
    if s.len() == 0 {
        if word.len() == 0 {
            seq![]
        } else {
            seq![word]
        }
    } else if is_ascii_space(s[0]) {
        if word.len() == 0 {
            words_from(s.drop_first(), seq![])
        } else {
            seq![word] + words_from(s.drop_first(), seq![])
        }
    } else {
        words_from(s.drop_first(), word.push(s[0]))
    }
}

/// The maximal runs of non-whitespace characters of `s`, in order.
pub open spec fn words(s: Seq<char>) -> Seq<Seq<char>> {
    words_from(s, seq![])
}

fn is_space(c: char) -> (r: bool)
    ensures
        r == is_ascii_space(c),
{
    c == ' ' || c == '\t' || c == '\n' || c == '\x0C' || c == '\r'
}

/// Splits `s` at runs of ASCII whitespace, dropping empty pieces.
pub fn split_words(s: &str) -> (r: Vec<String>)
    ensures
        strings_view(r@) == words(s@),
{
    let n = s.unicode_len();
    let mut out: Vec<String> = Vec::new();
    let mut start: usize = 0;
    let mut i: usize = 0;
    assert(strings_view(out@) =~= Seq::<Seq<char>>::empty());
    assert(s@.subrange(0, n as int) =~= s@);
    assert(s@.subrange(0, 0) =~= Seq::<char>::empty());
    assert(Seq::<Seq<char>>::empty() + words(s@) =~= words(s@));
    while i < n
        invariant
            n == s@.len(),
            start <= i <= n,
            strings_view(out@) + words_from(s@.subrange(i as int, n as int), s@.subrange(start as int, i as int))
                == words(s@),
        decreases n - i,
    {
        let c = s.get_char(i);
        let ghost rest = s@.subrange(i as int, n as int);
        let ghost word = s@.subrange(start as int, i as int);
        assert(rest[0] == c);
        assert(rest.drop_first() =~= s@.subrange(i + 1, n as int));
        if is_space(c) {
            if start < i {
                let w = s.substring_char(start, i).to_owned();
                let ghost before = strings_view(out@);
                out.push(w);
                assert(strings_view(out@) =~= before.push(word));
                assert(before.push(word) + words_from(rest.drop_first(), seq![]) =~= before + (seq![word] + words_from(rest.drop_first(), seq![])));
            }
            start = i + 1;
            assert(s@.subrange(start as int, i + 1) =~= Seq::<char>::empty());
        } else {
            assert(s@.subrange(start as int, i + 1) =~= word.push(c));
        }
        i = i + 1;
    }
    let ghost word = s@.subrange(start as int, n as int);
    assert(s@.subrange(n as int, n as int) =~= Seq::<char>::empty());
    if start < n {
        let w = s.substring_char(start, n).to_owned();
        let ghost before = strings_view(out@);
        out.push(w);
        assert(strings_view(out@) =~= before + seq![word]);
    } else {
        assert(strings_view(out@) + Seq::<Seq<char>>::empty() =~= strings_view(out@));
    }
    out
}

} // verus!

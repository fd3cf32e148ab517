//! Text as sequences of characters.
//!
//! Every string in this crate is viewed as a `Seq<char>`. The functions here
//! move between `str`/`String` and `Vec<char>` and provide the few searching
//! and rewriting operations the rest of the crate is built from.

use vstd::prelude::*;

verus! {

/// `String::push` appends one character to the end of the string.
pub assume_specification[ String::push ](s: &mut String, ch: char)
    ensures
        final(s)@ == old(s)@.push(ch),
;

/// The characters of `s`, in order.
pub fn to_chars(s: &str) -> (v: Vec<char>)
    ensures
        v@ == s@,
{
    let mut v: Vec<char> = Vec::new();
    for c in it: s.chars()
        invariant
            it.seq() == s@,
            v@ == it.seq().take(it.index() as int),
    {
        v.push(c);
    }
    v
}

/// The string made of the characters of `v`, in order.
pub fn from_chars(v: &Vec<char>) -> (s: String)
    ensures
        s@ == v@,
{
    let mut s = String::new();
    let mut i: usize = 0;
    while i < v.len()
        invariant
            i <= v.len(),
            s@ == v@.take(i as int),
        decreases v.len() - i,
    {
        s.push(v[i]);
        proof {
            assert(v@.take(i + 1) == v@.take(i as int).push(v@[i as int]));
        }
        i += 1;
    }
    s
}

/// Whether two strings hold the same characters.
pub fn str_eq(a: &str, b: &str) -> (r: bool)
    ensures
        r == (a@ == b@),
{
    let x = to_chars(a);
    let y = to_chars(b);
    chars_eq(&x, &y)
}

/// Whether two character vectors are equal.
pub fn chars_eq(a: &Vec<char>, b: &Vec<char>) -> (r: bool)
    ensures
        r == (a@ == b@),
{
    if a.len() != b.len() {
        return false;
    }
    let mut i: usize = 0;
    while i < a.len()
        invariant
            i <= a.len(),
            a.len() == b.len(),
            a@.take(i as int) == b@.take(i as int),
        decreases a.len() - i,
    {
        if a[i] != b[i] {
            return false;
        }
        proof {
            assert(a@.take(i + 1) == a@.take(i as int).push(a@[i as int]));
            assert(b@.take(i + 1) == b@.take(i as int).push(b@[i as int]));
        }
        i += 1;
    }
    proof {
        assert(a@.take(a@.len() as int) == a@);
        assert(b@.take(b@.len() as int) == b@);
    }
    true
}

/// `c` with an ASCII upper-case letter replaced by its lower-case form.
pub open spec fn fold(c: char) -> char {
    if 'A' <= c && c <= 'Z' {
        ((c as u8) + 32) as char
    } else {
        c
    }
}

/// `s` with every ASCII upper-case letter replaced by its lower-case form.
pub open spec fn folded(s: Seq<char>) -> Seq<char> {
    s.map_values(|c: char| fold(c))
}

/// Equality of two texts up to the case of ASCII letters.
pub open spec fn same_folded(a: Seq<char>, b: Seq<char>) -> bool {
    folded(a) == folded(b)
}

/// See [`fold`].
pub fn fold_char(c: char) -> (r: char)
    ensures
        r == fold(c),
{
    if 'A' <= c && c <= 'Z' {
        ((c as u8) + 32) as char
    } else {
        c
    }
}

/// Whether `a` and `b` are equal up to the case of ASCII letters.
pub fn eq_ignore_case(a: &Vec<char>, b: &Vec<char>) -> (r: bool)
    ensures
        r == same_folded(a@, b@),
{
    if a.len() != b.len() {
        proof {
            assert(folded(a@).len() != folded(b@).len());
        }
        return false;
    }
    let mut i: usize = 0;
    while i < a.len()
        invariant
            i <= a.len(),
            a.len() == b.len(),
            forall|j: int| 0 <= j < i ==> fold(a@[j]) == fold(b@[j]),
        decreases a.len() - i,
    {
        if fold_char(a[i]) != fold_char(b[i]) {
            proof {
                assert(folded(a@)[i as int] != folded(b@)[i as int]);
            }
            return false;
        }
        i += 1;
    }
    proof {
        assert(folded(a@) =~= folded(b@));
    }
    true
}

/// Whether `pattern` stands in `s` at index `at`.
pub open spec fn holds_at(s: Seq<char>, pattern: Seq<char>, at: int) -> bool {
    &&& 0 <= at
    &&& at + pattern.len() <= s.len()
    &&& s.subrange(at, at + pattern.len()) == pattern
}

/// `s` with every occurrence of `from` replaced by `to`. Occurrences are
/// found from left to right and do not overlap. An empty `from` occurs
/// nowhere.
pub open spec fn replaced(s: Seq<char>, from: Seq<char>, to: Seq<char>) -> Seq<char>
    decreases s.len(),
{
    if from.len() == 0 || s.len() == 0 {
        s
    } else if holds_at(s, from, 0) {
        to + replaced(s.skip(from.len() as int), from, to)
    } else {
        seq![s[0]] + replaced(s.skip(1), from, to)
    }
}

/// Whether `pattern` stands in `s` at index `at`.
pub fn matches_at(s: &Vec<char>, pattern: &Vec<char>, at: usize) -> (r: bool)
    ensures
        r == holds_at(s@, pattern@, at as int),
{
    if at > s.len() || pattern.len() > s.len() - at {
        return false;
    }
    let mut k: usize = 0;
    while k < pattern.len()
        invariant
            k <= pattern.len(),
            at + pattern.len() <= s.len(),
            forall|j: int| 0 <= j < k ==> s@[at + j] == pattern@[j],
        decreases pattern.len() - k,
    {
        if s[at + k] != pattern[k] {
            proof {
                assert(s@.subrange(at as int, at + pattern.len())[k as int] != pattern@[k as int]);
            }
            return false;
        }
        k += 1;
    }
    proof {
        assert(s@.subrange(at as int, at + pattern.len()) =~= pattern@);
    }
    true
}

/// See [`replaced`].
pub fn replace_all(s: &Vec<char>, from: &Vec<char>, to: &Vec<char>) -> (out: Vec<char>)
    ensures
        out@ == replaced(s@, from@, to@),
{
    let mut out: Vec<char> = Vec::new();
    let mut i: usize = 0;
    proof {
        assert(s@.skip(0) == s@);
        assert(out@ + replaced(s@, from@, to@) == replaced(s@, from@, to@));
    }
    while i < s.len()
        invariant
            i <= s.len(),
            out@ + replaced(s@.skip(i as int), from@, to@) == replaced(s@, from@, to@),
        decreases s.len() - i,
    {
        let ghost rest = s@.skip(i as int);
        let ghost before = out@;
        if from.len() > 0 && matches_at(s, from, i) {
            proof {
                assert(rest.subrange(0, from@.len() as int) == s@.subrange(
                    i as int,
                    i + from@.len(),
                ));
                assert(holds_at(rest, from@, 0));
                assert(rest.skip(from@.len() as int) == s@.skip(i + from@.len()));
            }
            let mut k: usize = 0;
            while k < to.len()
                invariant
                    k <= to.len(),
                    out@ == before + to@.take(k as int),
                decreases to.len() - k,
            {
                out.push(to[k]);
                proof {
                    assert(to@.take(k + 1) == to@.take(k as int).push(to@[k as int]));
                }
                k += 1;
            }
            proof {
                assert(to@.take(to@.len() as int) == to@);
                assert((before + to@) + replaced(rest.skip(from@.len() as int), from@, to@)
                    == before + (to@ + replaced(rest.skip(from@.len() as int), from@, to@)));
            }
            i += from.len();
        } else {
            proof {
                if from@.len() > 0 {
                    if holds_at(rest, from@, 0) {
                        assert(rest.subrange(0, from@.len() as int) == s@.subrange(
                            i as int,
                            i + from@.len(),
                        ));
                    }
                    assert(rest.skip(1) == s@.skip(i + 1));
                    assert((before.push(s@[i as int])) + replaced(rest.skip(1), from@, to@)
                        == before + (seq![rest[0]] + replaced(rest.skip(1), from@, to@)));
                } else {
                    lemma_replaced_nothing(rest, to@);
                    lemma_replaced_nothing(s@.skip(i + 1), to@);
                    assert(before.push(s@[i as int]) + s@.skip(i + 1) == before + rest);
                }
            }
            out.push(s[i]);
            i += 1;
        }
    }
    proof {
        assert(s@.skip(s@.len() as int) == Seq::<char>::empty());
        assert(out@ + Seq::<char>::empty() == out@);
    }
    out
}

/// With an empty pattern nothing is replaced.
proof fn lemma_replaced_nothing(s: Seq<char>, to: Seq<char>)
    ensures
        replaced(s, Seq::<char>::empty(), to) == s,
{
}

/// The pieces of `s` between the occurrences of `separator`, of which the
/// first is still to get `piece` in front. Occurrences are found from left
/// to right and do not overlap; an empty separator occurs nowhere.
pub open spec fn split_after(s: Seq<char>, separator: Seq<char>, piece: Seq<char>) -> Seq<
    Seq<char>,
>
    decreases s.len(),
{
    if s.len() == 0 {
        seq![piece]
    } else if separator.len() > 0 && holds_at(s, separator, 0) {
        seq![piece] + split_after(s.skip(separator.len() as int), separator, Seq::empty())
    } else {
        split_after(s.skip(1), separator, piece.push(s[0]))
    }
}

/// The pieces of `s` between the occurrences of `separator`: one more piece
/// than there are occurrences, so an empty `s` has one empty piece.
pub open spec fn split(s: Seq<char>, separator: Seq<char>) -> Seq<Seq<char>> {
    split_after(s, separator, Seq::empty())
}

/// The texts of a vector of strings.
pub open spec fn texts(v: Seq<String>) -> Seq<Seq<char>> {
    v.map_values(|s: String| s@)
}

/// See [`split`].
pub fn split_text(s: &str, separator: &str) -> (pieces: Vec<String>)
    ensures
        texts(pieces@) == split(s@, separator@),
{
    let chars = to_chars(s);
    let pattern = to_chars(separator);
    let mut pieces: Vec<String> = Vec::new();
    let mut piece: Vec<char> = Vec::new();
    let mut i: usize = 0;
    proof {
        assert(chars@.skip(0) == chars@);
        assert(texts(pieces@) =~= Seq::<Seq<char>>::empty());
        assert(Seq::<Seq<char>>::empty() + split_after(chars@, pattern@, piece@) == split(
            s@,
            separator@,
        ));
    }
    while i < chars.len()
        invariant
            i <= chars.len(),
            chars@ == s@,
            pattern@ == separator@,
            texts(pieces@) + split_after(chars@.skip(i as int), pattern@, piece@) == split(
                s@,
                separator@,
            ),
        decreases chars.len() - i,
    {
        let ghost rest = chars@.skip(i as int);
        let ghost done = texts(pieces@);
        if pattern.len() > 0 && matches_at(&chars, &pattern, i) {
            proof {
                assert(rest.subrange(0, pattern@.len() as int) == chars@.subrange(
                    i as int,
                    i + pattern@.len(),
                ));
                assert(rest.skip(pattern@.len() as int) == chars@.skip(i + pattern@.len()));
            }
            pieces.push(from_chars(&piece));
            proof {
                assert(texts(pieces@) =~= done.push(piece@));
                let tail = split_after(rest.skip(pattern@.len() as int), pattern@, Seq::empty());
                assert(done.push(piece@) + tail == done + (seq![piece@] + tail));
            }
            piece = Vec::new();
            i += pattern.len();
        } else {
            proof {
                if pattern@.len() > 0 && holds_at(rest, pattern@, 0) {
                    assert(rest.subrange(0, pattern@.len() as int) == chars@.subrange(
                        i as int,
                        i + pattern@.len(),
                    ));
                }
                assert(rest.skip(1) == chars@.skip(i + 1));
            }
            piece.push(chars[i]);
            i += 1;
        }
    }
    let ghost done = texts(pieces@);
    proof {
        assert(chars@.skip(chars@.len() as int) == Seq::<char>::empty());
    }
    pieces.push(from_chars(&piece));
    proof {
        assert(texts(pieces@) =~= done.push(piece@));
        assert(done.push(piece@) == done + seq![piece@]);
    }
    pieces
}

} // verus!

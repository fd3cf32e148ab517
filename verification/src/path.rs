//! Request paths in normal form.
//!
//! Before a path is looked up, every escaped separator `%2F` is decoded,
//! every run of separators is collapsed into one, and a separator at the end
//! is dropped unless it is all there is. The empty path becomes the root
//! `/`. Paths that differ only in these respects are thereby routed alike.

use vstd::prelude::*;
use crate::text::{from_chars, holds_at, replace_all, replaced, to_chars};

verus! {

/// The escape that stands for a separator.
pub open spec fn escape() -> Seq<char> {
    seq!['%', '2', 'F']
}

/// `s` with every escaped separator decoded.
pub open spec fn unescaped(s: Seq<char>) -> Seq<char> {
    replaced(s, escape(), seq!['/'])
}

/// `s` without each separator that directly follows another.
pub open spec fn collapsed(s: Seq<char>) -> Seq<char>
    decreases s.len(),
{
    if s.len() == 0 {
        s
    } else if s.len() >= 2 && s[s.len() - 2] == '/' && s.last() == '/' {
        collapsed(s.drop_last())
    } else {
        collapsed(s.drop_last()).push(s.last())
    }
}

/// `s` without a separator at its end, unless `s` is that separator alone.
pub open spec fn trimmed(s: Seq<char>) -> Seq<char> {
    if s.len() > 1 && s.last() == '/' {
        s.drop_last()
    } else {
        s
    }
}

/// The normal form of `path`.
pub open spec fn normalized(path: Seq<char>) -> Seq<char> {
    let t = trimmed(collapsed(unescaped(path)));
    if t.len() == 0 {
        seq!['/']
    } else {
        t
    }
}

/// Whether `s` is in normal form: not empty, free of escaped and of doubled
/// separators, and without a separator at its end unless it is the root.
pub open spec fn is_normal(s: Seq<char>) -> bool {
    &&& s.len() > 0
    &&& forall|i: int| !holds_at(s, escape(), i)
    &&& forall|i: int| 0 <= i < s.len() - 1 ==> !(s[i] == '/' && #[trigger] s[i + 1] == '/')
    &&& (s.len() == 1 || s.last() != '/')
}

/// Brings `path` into normal form.
pub fn normalize(path: &str) -> (r: String)
    ensures
        r@ == normalized(path@),
        is_normal(r@),
{
    let chars = to_chars(path);
    let mut pattern: Vec<char> = Vec::new();
    pattern.push('%');
    pattern.push('2');
    pattern.push('F');
    let mut slash: Vec<char> = Vec::new();
    slash.push('/');
    proof {
        assert(pattern@ == escape());
        assert(slash@ == seq!['/']);
    }
    let plain = replace_all(&chars, &pattern, &slash);
    let mut out: Vec<char> = Vec::new();
    let mut i: usize = 0;
    while i < plain.len()
        invariant
            i <= plain.len(),
            out@ == collapsed(plain@.take(i as int)),
        decreases plain.len() - i,
    {
        proof {
            assert(plain@.take(i + 1).drop_last() == plain@.take(i as int));
        }
        if !(i >= 1 && plain[i - 1] == '/' && plain[i] == '/') {
            out.push(plain[i]);
        }
        i += 1;
    }
    proof {
        assert(plain@.take(plain@.len() as int) == plain@);
    }
    if out.len() > 1 && out[out.len() - 1] == '/' {
        out.pop();
    }
    if out.len() == 0 {
        out.push('/');
    }
    proof {
        law_normalized_is_normal(path@);
    }
    from_chars(&out)
}

/// A text without escaped separators is left as it is by decoding.
proof fn lemma_unescaped_fixed(s: Seq<char>)
    requires
        forall|i: int| !holds_at(s, escape(), i),
    ensures
        unescaped(s) == s,
    decreases s.len(),
{
    if s.len() > 0 {
        assert(!holds_at(s, escape(), 0));
        assert forall|i: int| !holds_at(s.skip(1), escape(), i) by {
            if holds_at(s.skip(1), escape(), i) {
                assert(s.skip(1).subrange(i, i + 3) == s.subrange(i + 1, i + 4));
                assert(holds_at(s, escape(), i + 1));
            }
        }
        lemma_unescaped_fixed(s.skip(1));
        assert(seq![s[0]] + s.skip(1) == s);
    }
}

/// How decoding starts: with a separator where the text starts with the
/// escape, else with the first character of the text.
proof fn lemma_unescaped_head(s: Seq<char>)
    requires
        s.len() > 0,
    ensures
        unescaped(s).len() > 0,
        holds_at(s, escape(), 0) ==> unescaped(s)[0] == '/' && unescaped(s).skip(1) == unescaped(
            s.skip(3),
        ),
        !holds_at(s, escape(), 0) ==> unescaped(s)[0] == s[0] && unescaped(s).skip(1)
            == unescaped(s.skip(1)),
{
    if holds_at(s, escape(), 0) {
        assert((seq!['/'] + unescaped(s.skip(3))).skip(1) == unescaped(s.skip(3)));
    } else {
        assert((seq![s[0]] + unescaped(s.skip(1))).skip(1) == unescaped(s.skip(1)));
    }
}

/// Decoding leaves no escaped separator behind.
proof fn lemma_unescaped_free(s: Seq<char>)
    ensures
        forall|i: int| !holds_at(unescaped(s), escape(), i),
    decreases s.len(),
{
    let out = unescaped(s);
    if s.len() > 0 {
        lemma_unescaped_head(s);
        let rest = if holds_at(s, escape(), 0) {
            s.skip(3)
        } else {
            s.skip(1)
        };
        lemma_unescaped_free(rest);
        assert forall|i: int| !holds_at(out, escape(), i) by {
            if holds_at(out, escape(), i) {
                assert(out.subrange(i, i + 3)[0] == '%');
                assert(out.subrange(i, i + 3)[1] == '2');
                assert(out.subrange(i, i + 3)[2] == 'F');
                if i >= 1 {
                    assert(out.skip(1).subrange(i - 1, i + 2) == out.subrange(i, i + 3));
                    assert(holds_at(unescaped(rest), escape(), i - 1));
                } else {
                    // The occurrence starts the output, so `s` starts with `%`
                    // and goes on as the occurrence does.
                    assert(!holds_at(s, escape(), 0));
                    assert(s[0] == '%');
                    let s1 = s.skip(1);
                    let o1 = unescaped(s1);
                    assert(o1 == out.skip(1));
                    assert(o1[0] == '2');
                    assert(s1.len() > 0);
                    lemma_unescaped_head(s1);
                    assert(!holds_at(s1, escape(), 0));
                    assert(s1[0] == '2');
                    let s2 = s1.skip(1);
                    let o2 = unescaped(s2);
                    assert(o2 == o1.skip(1));
                    assert(o2[0] == 'F');
                    assert(s2.len() > 0);
                    lemma_unescaped_head(s2);
                    assert(!holds_at(s2, escape(), 0));
                    assert(s2[0] == 'F');
                    assert(s.subrange(0, 3) == escape());
                }
            }
        }
    }
}

/// Collapsing keeps the last character.
proof fn lemma_collapsed_last(s: Seq<char>)
    requires
        s.len() > 0,
    ensures
        collapsed(s).len() > 0,
        collapsed(s).last() == s.last(),
    decreases s.len(),
{
    if s.len() >= 2 && s[s.len() - 2] == '/' && s.last() == '/' {
        lemma_collapsed_last(s.drop_last());
    }
}

/// A text without doubled separators is left as it is by collapsing.
proof fn lemma_collapsed_fixed(s: Seq<char>)
    requires
        forall|i: int| 0 <= i < s.len() - 1 ==> !(s[i] == '/' && #[trigger] s[i + 1] == '/'),
    ensures
        collapsed(s) == s,
    decreases s.len(),
{
    if s.len() > 0 {
        let front = s.drop_last();
        assert forall|i: int| 0 <= i < front.len() - 1 implies !(front[i] == '/'
            && #[trigger] front[i + 1] == '/') by {
            assert(front[i + 1] == s[i + 1]);
        }
        lemma_collapsed_fixed(front);
        if s.len() >= 2 {
            assert(!(s[s.len() - 2] == '/' && s[s.len() - 2 + 1] == '/'));
        }
        assert(front.push(s.last()) == s);
    }
}

/// Collapsing leaves no doubled separator behind, and brings in no escaped
/// separator.
proof fn lemma_collapsed_free(s: Seq<char>)
    requires
        forall|i: int| !holds_at(s, escape(), i),
    ensures
        forall|i: int|
            0 <= i < collapsed(s).len() - 1 ==> !(collapsed(s)[i] == '/'
                && #[trigger] collapsed(s)[i + 1] == '/'),
        forall|i: int| !holds_at(collapsed(s), escape(), i),
    decreases s.len(),
{
    if s.len() > 0 {
        let front = s.drop_last();
        assert forall|i: int| !holds_at(front, escape(), i) by {
            if holds_at(front, escape(), i) {
                assert(front.subrange(i, i + 3) == s.subrange(i, i + 3));
                assert(holds_at(s, escape(), i));
            }
        }
        lemma_collapsed_free(front);
        let r = collapsed(front);
        if !(s.len() >= 2 && s[s.len() - 2] == '/' && s.last() == '/') {
            let out = r.push(s.last());
            if front.len() > 0 {
                lemma_collapsed_last(front);
            }
            assert forall|i: int| 0 <= i < out.len() - 1 implies !(out[i] == '/'
                && #[trigger] out[i + 1] == '/') by {
                if i + 1 < r.len() {
                    assert(out[i + 1] == r[i + 1]);
                }
            }
            assert forall|i: int| !holds_at(out, escape(), i) by {
                if holds_at(out, escape(), i) {
                    assert(out.subrange(i, i + 3)[0] == '%');
                    assert(out.subrange(i, i + 3)[1] == '2');
                    assert(out.subrange(i, i + 3)[2] == 'F');
                    if i + 3 <= r.len() {
                        assert(r.subrange(i, i + 3) == out.subrange(i, i + 3));
                        assert(holds_at(r, escape(), i));
                    } else {
                        // The occurrence ends the output: `s` ends with it too.
                        assert(s.last() == 'F');
                        assert(r.last() == '2');
                        assert(front.last() == '2');
                        let f2 = front.drop_last();
                        assert(collapsed(front) == collapsed(f2).push('2'));
                        assert(collapsed(f2).last() == '%');
                        assert(f2.len() > 0);
                        lemma_collapsed_last(f2);
                        assert(f2.last() == '%');
                        assert(s.subrange(s.len() - 3, s.len() as int) == escape());
                        assert(holds_at(s, escape(), s.len() - 3));
                    }
                }
            }
        }
    }
}

/// Every normal form is normal.
pub proof fn law_normalized_is_normal(path: Seq<char>)
    ensures
        is_normal(normalized(path)),
{
    let u = unescaped(path);
    lemma_unescaped_free(path);
    lemma_collapsed_free(u);
    let c = collapsed(u);
    let t = trimmed(c);
    assert forall|i: int| !holds_at(t, escape(), i) by {
        if holds_at(t, escape(), i) {
            assert(t.subrange(i, i + 3) == c.subrange(i, i + 3));
            assert(holds_at(c, escape(), i));
        }
    }
    assert forall|i: int| 0 <= i < t.len() - 1 implies !(t[i] == '/' && #[trigger] t[i + 1]
        == '/') by {
        assert(t[i + 1] == c[i + 1]);
    }
    if t.len() == 0 {
        let root = seq!['/'];
        assert forall|i: int| !holds_at(root, escape(), i) by {}
    } else if c.len() > 1 && c.last() == '/' {
        assert(c[c.len() - 2 + 1] == '/');
        assert(t.last() == c[c.len() - 2]);
    }
}

/// A path in normal form is its own normal form.
pub proof fn law_normal_is_fixed(path: Seq<char>)
    requires
        is_normal(path),
    ensures
        normalized(path) == path,
{
    lemma_unescaped_fixed(path);
    lemma_collapsed_fixed(path);
}

/// Normalizing twice gives what normalizing once gives.
pub proof fn law_normalize_idempotent(path: Seq<char>)
    ensures
        normalized(normalized(path)) == normalized(path),
{
    law_normalized_is_normal(path);
    law_normal_is_fixed(normalized(path));
}

} // verus!

//! Header lists.
//!
//! A header list is a sequence of name/value pairs. Names are compared
//! without regard to the case of ASCII letters. Several fields may share a
//! name; reading such a name yields their values joined by `", "`, in the
//! order in which they were added.

use vstd::prelude::*;
use vstd::string::*;
use crate::text::{eq_ignore_case, same_folded, to_chars};

verus! {

/// One header field as a pair of texts: name, then value.
pub type Field = (Seq<char>, Seq<char>);

/// The text that separates the values of fields that share a name.
pub open spec fn joiner() -> Seq<char> {
    seq![',', ' ']
}

/// The value read under `name`: `None` where no field bears the name, else
/// the values of all fields that do, joined in order.
pub open spec fn lookup(fields: Seq<Field>, name: Seq<char>) -> Option<Seq<char>>
    decreases fields.len(),
{
    if fields.len() == 0 {
        None
    } else {
        let earlier = lookup(fields.drop_last(), name);
        let (n, v) = fields.last();
        if same_folded(n, name) {
            match earlier {
                None => Some(v),
                Some(e) => Some(e + joiner() + v),
            }
        } else {
            earlier
        }
    }
}

/// `fields` without the fields named `name`, the others in their order.
pub open spec fn without(fields: Seq<Field>, name: Seq<char>) -> Seq<Field>
    decreases fields.len(),
{
    if fields.len() == 0 {
        Seq::empty()
    } else {
        let earlier = without(fields.drop_last(), name);
        if same_folded(fields.last().0, name) {
            earlier
        } else {
            earlier.push(fields.last())
        }
    }
}

/// `fields` with `name` set to `value`: every earlier field of that name is
/// gone and one field `(name, value)` stands at the end.
pub open spec fn put(fields: Seq<Field>, name: Seq<char>, value: Seq<char>) -> Seq<Field> {
    without(fields, name).push((name, value))
}

/// `base` after each field of `extra` has been set on it, first to last.
pub open spec fn put_all(base: Seq<Field>, extra: Seq<Field>) -> Seq<Field>
    decreases extra.len(),
{
    if extra.len() == 0 {
        base
    } else {
        put(put_all(base, extra.drop_last()), extra.last().0, extra.last().1)
    }
}

/// The fields that a vector of string pairs stands for.
pub open spec fn fields_of(pairs: Seq<(String, String)>) -> Seq<Field> {
    pairs.map_values(|e: (String, String)| (e.0@, e.1@))
}

/// An ordered list of header fields.
#[derive(Debug, Clone, PartialEq, Eq)]
pub struct Headers {
    pub entries: Vec<(String, String)>,
}

impl View for Headers {
    type V = Seq<Field>;

    open spec fn view(&self) -> Seq<Field> {
        fields_of(self.entries@)
    }
}

impl Headers {
    /// The empty list.
    pub fn new() -> (h: Headers)
        ensures
            h@ == Seq::<Field>::empty(),
    {
        let h = Headers { entries: Vec::new() };
        proof {
            assert(h@ =~= Seq::<Field>::empty());
        }
        h
    }

    /// The number of fields.
    pub fn len(&self) -> (n: usize)
        ensures
            n == self@.len(),
    {
        self.entries.len()
    }

    /// Reads `name`; see [`lookup`].
    pub fn get(&self, name: &str) -> (r: Option<String>)
        ensures
            match r {
                Some(v) => lookup(self@, name@) == Some(v@),
                None => lookup(self@, name@) is None,
            },
    {
        let wanted = to_chars(name);
        let mut found: Option<String> = None;
        let mut i: usize = 0;
        while i < self.entries.len()
            invariant
                i <= self.entries.len(),
                wanted@ == name@,
                match found {
                    Some(v) => lookup(self@.take(i as int), name@) == Some(v@),
                    None => lookup(self@.take(i as int), name@) is None,
                },
            decreases self.entries.len() - i,
        {
            let here = to_chars(self.entries[i].0.as_str());
            proof {
                assert(self@.take(i + 1).drop_last() == self@.take(i as int));
                assert(self@.take(i + 1).last() == self@[i as int]);
            }
            if eq_ignore_case(&here, &wanted) {
                found = match found {
                    None => Some(self.entries[i].1.clone()),
                    Some(e) => {
                        let mut joined = e;
                        joined.push(',');
                        joined.push(' ');
                        joined.append(self.entries[i].1.as_str());
                        proof {
                            assert(joined@ =~= lookup(self@.take(i as int), name@).unwrap()
                                + joiner() + self@[i as int].1);
                        }
                        Some(joined)
                    },
                };
            }
            i += 1;
        }
        proof {
            assert(self@.take(self@.len() as int) == self@);
        }
        found
    }

    /// Whether a field named `name` is present.
    pub fn has(&self, name: &str) -> (r: bool)
        ensures
            r == lookup(self@, name@).is_some(),
    {
        self.get(name).is_some()
    }

    /// Adds the field `(name, value)` at the end and leaves the others as
    /// they are.
    pub fn append(&mut self, name: &str, value: &str)
        ensures
            final(self)@ == old(self)@.push((name@, value@)),
    {
        self.entries.push((String::from_str(name), String::from_str(value)));
        proof {
            assert(self@ =~= old(self)@.push((name@, value@)));
        }
    }

    /// Removes every field named `name`.
    pub fn delete(&mut self, name: &str)
        ensures
            final(self)@ == without(old(self)@, name@),
    {
        let wanted = to_chars(name);
        let mut kept: Vec<(String, String)> = Vec::new();
        let mut i: usize = 0;
        while i < self.entries.len()
            invariant
                i <= self.entries.len(),
                wanted@ == name@,
                fields_of(kept@) == without(self@.take(i as int), name@),
            decreases self.entries.len() - i,
        {
            let here = to_chars(self.entries[i].0.as_str());
            proof {
                assert(self@.take(i + 1).drop_last() == self@.take(i as int));
                assert(self@.take(i + 1).last() == self@[i as int]);
            }
            if !eq_ignore_case(&here, &wanted) {
                let ghost before = kept@;
                kept.push((self.entries[i].0.clone(), self.entries[i].1.clone()));
                proof {
                    assert(fields_of(kept@) =~= fields_of(before).push(self@[i as int]));
                }
            }
            i += 1;
        }
        proof {
            assert(self@.take(self@.len() as int) == self@);
        }
        self.entries = kept;
    }

    /// Sets `name` to `value`; see [`put`].
    pub fn set(&mut self, name: &str, value: &str)
        ensures
            final(self)@ == put(old(self)@, name@, value@),
    {
        self.delete(name);
        self.append(name, value);
    }

    /// Sets each field of `extra` on this list, first to last; see
    /// [`put_all`].
    pub fn set_all(&mut self, extra: &Headers)
        ensures
            final(self)@ == put_all(old(self)@, extra@),
    {
        let mut i: usize = 0;
        while i < extra.entries.len()
            invariant
                i <= extra.entries.len(),
                self@ == put_all(old(self)@, extra@.take(i as int)),
            decreases extra.entries.len() - i,
        {
            proof {
                assert(extra@.take(i + 1).drop_last() == extra@.take(i as int));
                assert(extra@.take(i + 1).last() == extra@[i as int]);
            }
            self.set(extra.entries[i].0.as_str(), extra.entries[i].1.as_str());
            i += 1;
        }
        proof {
            assert(extra@.take(extra@.len() as int) == extra@);
        }
    }
}

/// A name that was removed reads as absent, under any spelling of it; every
/// other name reads as before.
pub proof fn law_without(fields: Seq<Field>, name: Seq<char>, other: Seq<char>)
    ensures
        lookup(without(fields, name), other) == if same_folded(name, other) {
            None
        } else {
            lookup(fields, other)
        },
    decreases fields.len(),
{
    if fields.len() > 0 {
        law_without(fields.drop_last(), name, other);
        let earlier = without(fields.drop_last(), name);
        if !same_folded(fields.last().0, name) {
            assert(earlier.push(fields.last()).drop_last() == earlier);
            assert(earlier.push(fields.last()).last() == fields.last());
        }
    }
}

/// After `name` is set to `value`, reading the name under any spelling gives
/// exactly `value`, and every other name reads as before.
pub proof fn law_put(fields: Seq<Field>, name: Seq<char>, value: Seq<char>, other: Seq<char>)
    ensures
        lookup(put(fields, name, value), other) == if same_folded(name, other) {
            Some(value)
        } else {
            lookup(fields, other)
        },
{
    law_without(fields, name, other);
    let kept = without(fields, name);
    assert(kept.push((name, value)).drop_last() == kept);
    assert(kept.push((name, value)).last() == (name, value));
}

/// Whether a field named `name` stands in `fields` at index `from` or later.
pub open spec fn named_from(fields: Seq<Field>, name: Seq<char>, from: int) -> bool {
    exists|j: int| from <= j < fields.len() && same_folded(#[trigger] fields[j].0, name)
}

/// After every field of `extra` has been set on `base`, a name that `extra`
/// does not hold reads as it did in `base`.
pub proof fn law_put_all_keeps(base: Seq<Field>, extra: Seq<Field>, other: Seq<char>)
    requires
        !named_from(extra, other, 0),
    ensures
        lookup(put_all(base, extra), other) == lookup(base, other),
    decreases extra.len(),
{
    if extra.len() > 0 {
        let rest = extra.drop_last();
        assert(!named_from(rest, other, 0)) by {
            if named_from(rest, other, 0) {
                let j = choose|j: int| 0 <= j < rest.len() && same_folded(#[trigger] rest[j].0, other);
                assert(same_folded(extra[j].0, other));
            }
        }
        law_put_all_keeps(base, rest, other);
        assert(!same_folded(extra.last().0, other)) by {
            if same_folded(extra.last().0, other) {
                assert(same_folded(extra[extra.len() - 1].0, other));
            }
        }
        law_put(put_all(base, rest), extra.last().0, extra.last().1, other);
    }
}

/// After every field of `extra` has been set on `base`, each field of
/// `extra` whose name does not come again later in `extra` reads with
/// exactly its own value, whatever `base` held under that name.
pub proof fn law_put_all_sets(base: Seq<Field>, extra: Seq<Field>, i: int)
    requires
        0 <= i < extra.len(),
        !named_from(extra, extra[i].0, i + 1),
    ensures
        lookup(put_all(base, extra), extra[i].0) == Some(extra[i].1),
    decreases extra.len(),
{
    let rest = extra.drop_last();
    let name = extra[i].0;
    if i == extra.len() - 1 {
        law_put(put_all(base, rest), extra.last().0, extra.last().1, name);
    } else {
        assert(rest[i] == extra[i]);
        assert(!named_from(rest, name, i + 1)) by {
            if named_from(rest, name, i + 1) {
                let j = choose|j: int| i + 1 <= j < rest.len() && same_folded(#[trigger] rest[j].0, name);
                assert(same_folded(extra[j].0, name));
            }
        }
        law_put_all_sets(base, rest, i);
        assert(!same_folded(extra.last().0, name)) by {
            if same_folded(extra.last().0, name) {
                assert(same_folded(extra[extra.len() - 1].0, name));
            }
        }
        law_put(put_all(base, rest), extra.last().0, extra.last().1, name);
    }
}

/// Two spellings of one name read the same value.
pub proof fn law_lookup_any_case(fields: Seq<Field>, name: Seq<char>, other: Seq<char>)
    requires
        same_folded(name, other),
    ensures
        lookup(fields, name) == lookup(fields, other),
    decreases fields.len(),
{
    if fields.len() > 0 {
        law_lookup_any_case(fields.drop_last(), name, other);
    }
}

} // verus!

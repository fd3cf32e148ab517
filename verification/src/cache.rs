//! A bounded memo with a time to live and at most one computation in flight
//! for each key.
//!
//! The cache computes nothing itself and knows no clock. A caller asks
//! [`MemoCache::begin`] what to do for a key at a given time: use the value
//! that is stored, wait for the computation that is already under way, or
//! compute the value itself. In the last case the caller reports the
//! outcome with [`MemoCache::complete`], and whoever waited gets the same
//! outcome from the caller; or it gives up with [`MemoCache::abandon`], and
//! the next caller is told to compute. Times are seconds on any clock that
//! does not run backwards.
//!
//! A value is stored whatever it is: a cache of results stores the failures
//! for as long as the successes. At most `capacity` values are stored. When
//! one more comes in, the value that was stored first leaves.

use vstd::prelude::*;

verus! {

/// A key of a cache: a value that can be compared with another by its view.
pub trait Key: View + Sized {
    fn same(&self, other: &Self) -> (r: bool)
        ensures
            r == (self@ == other@),
    ;
}

impl Key for String {
    fn same(&self, other: &Self) -> (r: bool) {
        *self == *other
    }
}

impl Key for (String, bool) {
    fn same(&self, other: &Self) -> (r: bool) {
        self.0 == other.0 && self.1 == other.1
    }
}

/// What the cache holds for a key.
#[derive(Debug, Clone, PartialEq, Eq)]
pub enum Slot<V> {
    /// The value is being computed.
    Pending,
    /// The value, and the time at which it was stored.
    Ready { value: V, stored: u64 },
}

/// One line of a cache: a key, by its view, and what is held for it.
pub struct Line<K, V> {
    pub key: K,
    pub slot: Slot<V>,
}

/// What a caller is to do for a key.
#[derive(Debug, Clone, Copy, PartialEq, Eq)]
pub enum Admission {
    /// Use the stored value.
    Hit,
    /// Wait for the computation that is under way.
    Join,
    /// Compute the value, then report it.
    Compute,
}

/// Whether no key stands in two lines.
pub open spec fn distinct<K, V>(lines: Seq<Line<K, V>>) -> bool {
    forall|i: int, j: int|
        0 <= i < j < lines.len() ==> (#[trigger] lines[i]).key != (#[trigger] lines[j]).key
}

/// Whether `key` has a line.
pub open spec fn holds<K, V>(lines: Seq<Line<K, V>>, key: K) -> bool {
    exists|i: int| 0 <= i < lines.len() && (#[trigger] lines[i]).key == key
}

/// The index of a line of `key`.
pub open spec fn place<K, V>(lines: Seq<Line<K, V>>, key: K) -> int {
    choose|i: int| 0 <= i < lines.len() && (#[trigger] lines[i]).key == key
}

/// What is held for `key`, if it has a line.
pub open spec fn slot_of<K, V>(lines: Seq<Line<K, V>>, key: K) -> Option<Slot<V>> {
    if holds(lines, key) {
        Some(lines[place(lines, key)].slot)
    } else {
        None
    }
}

/// The lines without the line of `key`.
pub open spec fn without_key<K, V>(lines: Seq<Line<K, V>>, key: K) -> Seq<Line<K, V>> {
    if holds(lines, key) {
        lines.remove(place(lines, key))
    } else {
        lines
    }
}

/// The number of lines that hold a value.
pub open spec fn ready_count<K, V>(lines: Seq<Line<K, V>>) -> nat
    decreases lines.len(),
{
    if lines.len() == 0 {
        0
    } else {
        ready_count(lines.drop_last()) + if lines.last().slot is Ready {
            1nat
        } else {
            0nat
        }
    }
}

/// Whether the line at `i` holds a value and no line before it does.
pub open spec fn is_oldest_ready<K, V>(lines: Seq<Line<K, V>>, i: int) -> bool {
    &&& 0 <= i < lines.len()
    &&& lines[i].slot is Ready
    &&& forall|j: int| 0 <= j < i ==> !((#[trigger] lines[j]).slot is Ready)
}

/// The index of the value that was stored first.
pub open spec fn oldest_ready<K, V>(lines: Seq<Line<K, V>>) -> int {
    choose|i: int| is_oldest_ready(lines, i)
}

/// Whether a value stored at `stored` is still good at `now`, with `ttl`
/// seconds to live.
pub open spec fn fresh(stored: u64, now: u64, ttl: u64) -> bool {
    now < stored + ttl
}

/// What a caller is to do for `key` at `now`: use the value if one is
/// stored and still good, wait if one is being computed, else compute.
pub open spec fn admission<K, V>(lines: Seq<Line<K, V>>, key: K, now: u64, ttl: u64) -> Admission {
    match slot_of(lines, key) {
        Some(Slot::Pending) => Admission::Join,
        Some(Slot::Ready { value, stored }) => if fresh(stored, now, ttl) {
            Admission::Hit
        } else {
            Admission::Compute
        },
        None => Admission::Compute,
    }
}

/// The lines after a caller asked for `key` at `now`. Where the caller is
/// to compute, an expired value of the key is gone and the key is pending
/// in a new line at the end. Otherwise nothing changes.
pub open spec fn begun<K, V>(lines: Seq<Line<K, V>>, key: K, now: u64, ttl: u64) -> Seq<
    Line<K, V>,
> {
    if admission(lines, key, now, ttl) is Compute {
        without_key(lines, key).push(Line { key, slot: Slot::Pending })
    } else {
        lines
    }
}

/// The lines after `value` was reported for `key` at `now`. The key's line
/// is replaced by a new line at the end that holds the value. If more than
/// `capacity` values are stored then, the one that was stored first leaves.
pub open spec fn completed<K, V>(
    lines: Seq<Line<K, V>>,
    key: K,
    value: V,
    now: u64,
    capacity: usize,
) -> Seq<Line<K, V>> {
    let stored = without_key(lines, key).push(
        Line { key, slot: Slot::Ready { value, stored: now } },
    );
    if ready_count(stored) > capacity {
        stored.remove(oldest_ready(stored))
    } else {
        stored
    }
}

/// The lines after the caller that was to compute `key` gave up: the key's
/// line is gone if it was pending, so that the next caller is told to
/// compute. A value that is stored stays.
pub open spec fn abandoned<K, V>(lines: Seq<Line<K, V>>, key: K) -> Seq<Line<K, V>> {
    if slot_of(lines, key) == Some(Slot::<V>::Pending) {
        without_key(lines, key)
    } else {
        lines
    }
}

/// The value that is stored for `key` and still good at `now`, if any.
pub open spec fn cached<K, V>(lines: Seq<Line<K, V>>, key: K, now: u64, ttl: u64) -> Option<V> {
    match slot_of(lines, key) {
        Some(Slot::Ready { value, stored }) => if fresh(stored, now, ttl) {
            Some(value)
        } else {
            None
        },
        _ => None,
    }
}

struct Entry<K, V> {
    key: K,
    slot: Slot<V>,
}

/// The cache. See the module's description.
pub struct MemoCache<K: Key, V> {
    capacity: usize,
    ttl: u64,
    entries: Vec<Entry<K, V>>,
    ready: usize,
}

spec fn lines_of<K: Key, V>(entries: Seq<Entry<K, V>>) -> Seq<Line<K::V, V>> {
    entries.map_values(|e: Entry<K, V>| Line { key: e.key@, slot: e.slot })
}

proof fn lemma_count_push<K, V>(lines: Seq<Line<K, V>>, line: Line<K, V>)
    ensures
        ready_count(lines.push(line)) == ready_count(lines) + if line.slot is Ready {
            1nat
        } else {
            0nat
        },
{
    assert(lines.push(line).drop_last() == lines);
}

proof fn lemma_count_remove<K, V>(lines: Seq<Line<K, V>>, i: int)
    requires
        0 <= i < lines.len(),
    ensures
        ready_count(lines.remove(i)) + (if lines[i].slot is Ready {
            1nat
        } else {
            0nat
        }) == ready_count(lines),
    decreases lines.len(),
{
    if i == lines.len() - 1 {
        assert(lines.remove(i) == lines.drop_last());
    } else {
        lemma_count_remove(lines.drop_last(), i);
        assert(lines.remove(i).drop_last() == lines.drop_last().remove(i));
        assert(lines.remove(i).last() == lines.last());
    }
}

proof fn lemma_count_none<K, V>(lines: Seq<Line<K, V>>)
    requires
        forall|j: int| 0 <= j < lines.len() ==> !((#[trigger] lines[j]).slot is Ready),
    ensures
        ready_count(lines) == 0,
    decreases lines.len(),
{
    if lines.len() > 0 {
        assert(!(lines[lines.len() - 1].slot is Ready));
        assert forall|j: int| 0 <= j < lines.drop_last().len() implies !((
        #[trigger] lines.drop_last()[j]).slot is Ready) by {
            assert(lines.drop_last()[j] == lines[j]);
        }
        lemma_count_none(lines.drop_last());
    }
}

proof fn lemma_place<K, V>(lines: Seq<Line<K, V>>, key: K, i: int)
    requires
        distinct(lines),
        0 <= i < lines.len(),
        lines[i].key == key,
    ensures
        holds(lines, key),
        place(lines, key) == i,
{
    let p = place(lines, key);
    if p < i {
        assert(lines[p].key != lines[i].key);
    } else if i < p {
        assert(lines[i].key != lines[p].key);
    }
}

proof fn lemma_oldest<K, V>(lines: Seq<Line<K, V>>, i: int)
    requires
        is_oldest_ready(lines, i),
    ensures
        oldest_ready(lines) == i,
{
    let p = oldest_ready(lines);
    if p < i {
        assert(!(lines[p].slot is Ready));
    } else if i < p {
        assert(!(lines[i].slot is Ready));
    }
}

proof fn lemma_remove_distinct<K, V>(lines: Seq<Line<K, V>>, i: int)
    requires
        distinct(lines),
        0 <= i < lines.len(),
    ensures
        distinct(lines.remove(i)),
        forall|j: int| 0 <= j < lines.len() - 1 ==> (#[trigger] lines.remove(i)[j]).key != lines[i].key,
{
    let r = lines.remove(i);
    assert forall|a: int, b: int| 0 <= a < b < r.len() implies (#[trigger] r[a]).key != (
    #[trigger] r[b]).key by {
        let a0 = if a < i { a } else { a + 1 };
        let b0 = if b < i { b } else { b + 1 };
        assert(r[a] == lines[a0]);
        assert(r[b] == lines[b0]);
    }
    assert forall|j: int| 0 <= j < lines.len() - 1 implies (#[trigger] r[j]).key
        != lines[i].key by {
        let j0 = if j < i { j } else { j + 1 };
        assert(r[j] == lines[j0]);
        if j0 < i {
            assert(lines[j0].key != lines[i].key);
        } else {
            assert(lines[i].key != lines[j0].key);
        }
    }
}

impl<K: Key, V> MemoCache<K, V> {
    /// Whether the cache is well formed: no key stands in two lines, and no
    /// more values are stored than the capacity allows. Every cache that
    /// this module hands out is.
    pub closed spec fn wf(&self) -> bool {
        &&& distinct(lines_of(self.entries@))
        &&& self.ready == ready_count(lines_of(self.entries@))
        &&& self.ready <= self.capacity
    }

    /// What a well-formed cache is, in terms of its lines.
    pub proof fn law_well_formed(&self)
        requires
            self.wf(),
        ensures
            distinct(self.lines()),
            ready_count(self.lines()) <= self.capacity(),
    {
    }

    /// The lines of the cache, in the order in which they came in.
    pub closed spec fn lines(&self) -> Seq<Line<K::V, V>> {
        lines_of(self.entries@)
    }

    /// The number of values that the cache stores at most.
    pub closed spec fn capacity(&self) -> usize {
        self.capacity
    }

    /// The number of seconds for which a stored value is good.
    pub closed spec fn ttl(&self) -> u64 {
        self.ttl
    }

    /// An empty cache for at most `capacity` values, each good for `ttl`
    /// seconds.
    pub fn new(capacity: usize, ttl: u64) -> (cache: Self)
        ensures
            cache.wf(),
            cache.lines() == Seq::<Line<K::V, V>>::empty(),
            cache.capacity() == capacity,
            cache.ttl() == ttl,
    {
        let entries: Vec<Entry<K, V>> = Vec::new();
        proof {
            assert(lines_of(entries@) =~= Seq::<Line<K::V, V>>::empty());
        }
        MemoCache { capacity, ttl, entries, ready: 0 }
    }

    spec fn tidy(&self) -> bool {
        &&& distinct(lines_of(self.entries@))
        &&& self.ready == ready_count(lines_of(self.entries@))
    }

    fn find(&self, key: &K) -> (found: Option<usize>)
        requires
            self.tidy(),
        ensures
            match found {
                Some(i) => i < self.lines().len() && holds(self.lines(), key@) && place(
                    self.lines(),
                    key@,
                ) == i,
                None => !holds(self.lines(), key@),
            },
    {
        let mut i: usize = 0;
        while i < self.entries.len()
            invariant
                i <= self.entries.len(),
                distinct(self.lines()),
                forall|j: int| 0 <= j < i ==> (#[trigger] self.lines()[j]).key != key@,
            decreases self.entries.len() - i,
        {
            if self.entries[i].key.same(key) {
                proof {
                    assert(self.lines()[i as int].key == key@);
                    lemma_place(self.lines(), key@, i as int);
                }
                return Some(i);
            }
            i += 1;
        }
        None
    }

    fn is_fresh(&self, stored: u64, now: u64) -> (r: bool)
        ensures
            r == fresh(stored, now, self.ttl()),
    {
        now < stored || now - stored < self.ttl
    }

    fn holds_value(&self, j: usize) -> (r: bool)
        requires
            j < self.lines().len(),
        ensures
            r == (self.lines()[j as int].slot is Ready),
    {
        match &self.entries[j].slot {
            Slot::Ready { .. } => true,
            Slot::Pending => false,
        }
    }

    /// Takes the line at `i` out.
    fn take_out(&mut self, i: usize)
        requires
            old(self).tidy(),
            i < old(self).lines().len(),
        ensures
            final(self).tidy(),
            final(self).lines() == old(self).lines().remove(i as int),
            final(self).ready <= old(self).ready,
            final(self).capacity == old(self).capacity,
            final(self).ttl == old(self).ttl,
    {
        let ghost before = self.lines();
        proof {
            lemma_count_remove(before, i as int);
            lemma_remove_distinct(before, i as int);
        }
        let gone = self.entries.remove(i);
        match gone.slot {
            Slot::Ready { .. } => {
                self.ready = self.ready - 1;
            },
            Slot::Pending => {},
        }
        proof {
            assert(self.lines() =~= before.remove(i as int));
        }
    }

    /// Puts a line for `key` at the end.
    fn put_in(&mut self, key: K, slot: Slot<V>)
        requires
            old(self).tidy(),
            !holds(old(self).lines(), key@),
        ensures
            final(self).tidy(),
            final(self).lines() == old(self).lines().push(Line { key: key@, slot }),
            final(self).ready == old(self).ready + if slot is Ready {
                1int
            } else {
                0int
            },
            final(self).capacity == old(self).capacity,
            final(self).ttl == old(self).ttl,
    {
        let ghost before = self.lines();
        let ghost line = Line { key: key@, slot };
        let counts = match &slot {
            Slot::Ready { .. } => true,
            Slot::Pending => false,
        };
        self.entries.push(Entry { key, slot });
        proof {
            assert(self.lines() =~= before.push(line));
            lemma_count_push(before, line);
            lemma_count_bound(self.lines());
            assert(distinct(self.lines())) by {
                lemma_push_distinct(before, line);
            }
        }
        if counts {
            let held = self.entries.len();
            assert(self.ready < held) by {
                assert(self.lines().len() == held);
            }
            self.ready = self.ready + 1;
        }
    }

    /// Lets the value that was stored first go if there are more values than
    /// the capacity allows.
    fn trim(&mut self)
        requires
            old(self).tidy(),
            old(self).ready <= old(self).capacity + 1,
        ensures
            final(self).wf(),
            final(self).lines() == if ready_count(old(self).lines()) > old(self).capacity {
                old(self).lines().remove(oldest_ready(old(self).lines()))
            } else {
                old(self).lines()
            },
            final(self).capacity == old(self).capacity,
            final(self).ttl == old(self).ttl,
    {
        if self.ready > self.capacity {
            let ghost before = self.lines();
            let mut j: usize = 0;
            while j < self.entries.len() && !self.holds_value(j)
                invariant
                    j <= self.entries.len(),
                    forall|k: int| 0 <= k < j ==> !((#[trigger] self.lines()[k]).slot is Ready),
                decreases self.entries.len() - j,
            {
                j += 1;
            }
            proof {
                if j == self.entries.len() {
                    lemma_count_none(before);
                }
                lemma_oldest(before, j as int);
            }
            self.take_out(j);
            proof {
                lemma_count_remove(before, j as int);
            }
        }
    }

    /// Asks what is to be done for `key` at `now`; see [`admission`] and
    /// [`begun`].
    pub fn begin(&mut self, key: K, now: u64) -> (r: Admission)
        requires
            old(self).wf(),
        ensures
            final(self).wf(),
            r == admission(old(self).lines(), key@, now, old(self).ttl()),
            final(self).lines() == begun(old(self).lines(), key@, now, old(self).ttl()),
            r is Compute ==> slot_of(final(self).lines(), key@) == Some(Slot::<V>::Pending),
            final(self).capacity() == old(self).capacity(),
            final(self).ttl() == old(self).ttl(),
    {
        assert(admission(self.lines(), key@, now, self.ttl()) is Compute ==> slot_of(
            begun(self.lines(), key@, now, self.ttl()),
            key@,
        ) == Some(Slot::<V>::Pending)) by {
            if admission(self.lines(), key@, now, self.ttl()) is Compute {
                lemma_begun_pending(self.lines(), key@, now, self.ttl());
            }
        }
        match self.find(&key) {
            Some(i) => {
                let expired = match &self.entries[i].slot {
                    Slot::Pending => false,
                    Slot::Ready { value: _, stored } => !self.is_fresh(*stored, now),
                };
                if expired {
                    proof {
                        lemma_remove_distinct(self.lines(), i as int);
                    }
                    self.take_out(i);
                    assert(!holds(self.lines(), key@));
                    self.put_in(key, Slot::Pending);
                    Admission::Compute
                } else if self.holds_value(i) {
                    Admission::Hit
                } else {
                    Admission::Join
                }
            },
            None => {
                self.put_in(key, Slot::Pending);
                Admission::Compute
            },
        }
    }

    /// The value that is stored for `key` and still good at `now`; see
    /// [`cached`].
    pub fn get(&self, key: &K, now: u64) -> (r: Option<&V>)
        requires
            self.wf(),
        ensures
            match r {
                Some(v) => cached(self.lines(), key@, now, self.ttl()) == Some(*v),
                None => cached(self.lines(), key@, now, self.ttl()) is None,
            },
    {
        match self.find(key) {
            Some(i) => match &self.entries[i].slot {
                Slot::Pending => None,
                Slot::Ready { value, stored } => if self.is_fresh(*stored, now) {
                    Some(value)
                } else {
                    None
                },
            },
            None => None,
        }
    }

    /// Reports that the computation for `key` was given up; see
    /// [`abandoned`].
    pub fn abandon(&mut self, key: &K)
        requires
            old(self).wf(),
        ensures
            final(self).wf(),
            final(self).lines() == abandoned(old(self).lines(), key@),
            slot_of(old(self).lines(), key@) == Some(Slot::<V>::Pending) ==> !holds(
                final(self).lines(),
                key@,
            ),
            final(self).capacity() == old(self).capacity(),
            final(self).ttl() == old(self).ttl(),
    {
        proof {
            lemma_without_key(self.lines(), key@);
        }
        match self.find(key) {
            Some(i) => {
                if !self.holds_value(i) {
                    self.take_out(i);
                }
            },
            None => {},
        }
    }

    /// Reports that `value` was computed for `key` at `now`; see
    /// [`completed`].
    pub fn complete(&mut self, key: K, value: V, now: u64)
        requires
            old(self).wf(),
        ensures
            final(self).wf(),
            final(self).lines() == completed(
                old(self).lines(),
                key@,
                value,
                now,
                old(self).capacity(),
            ),
            old(self).capacity() > 0 ==> slot_of(final(self).lines(), key@) == Some(
                Slot::Ready { value, stored: now },
            ),
            final(self).capacity() == old(self).capacity(),
            final(self).ttl() == old(self).ttl(),
    {
        assert(self.capacity() > 0 ==> slot_of(
            completed(self.lines(), key@, value, now, self.capacity()),
            key@,
        ) == Some(Slot::Ready { value, stored: now })) by {
            if self.capacity() > 0 {
                lemma_completed(self.lines(), key@, value, now, self.capacity());
            }
        }
        match self.find(&key) {
            Some(i) => {
                proof {
                    lemma_remove_distinct(self.lines(), i as int);
                }
                self.take_out(i);
                assert(!holds(self.lines(), key@));
            },
            None => {},
        }
        self.put_in(key, Slot::Ready { value, stored: now });
        self.trim();
    }
}

proof fn lemma_push_distinct<K, V>(lines: Seq<Line<K, V>>, line: Line<K, V>)
    requires
        distinct(lines),
        !holds(lines, line.key),
    ensures
        distinct(lines.push(line)),
{
    let after = lines.push(line);
    assert forall|i: int, j: int| 0 <= i < j < after.len() implies (#[trigger] after[i]).key != (
    #[trigger] after[j]).key by {
        if j < lines.len() {
            assert(after[i] == lines[i] && after[j] == lines[j]);
        } else {
            assert(after[i] == lines[i]);
            assert(lines[i].key != line.key);
        }
    }
}

proof fn lemma_count_bound<K, V>(lines: Seq<Line<K, V>>)
    ensures
        ready_count(lines) <= lines.len(),
    decreases lines.len(),
{
    if lines.len() > 0 {
        lemma_count_bound(lines.drop_last());
    }
}

/// The answers to a run of calls for one key: the lines after the run, and
/// what each call was told, in order.
pub open spec fn asked<K, V>(lines: Seq<Line<K, V>>, key: K, times: Seq<u64>, ttl: u64) -> (
    Seq<Line<K, V>>,
    Seq<Admission>,
)
    decreases times.len(),
{
    if times.len() == 0 {
        (lines, Seq::empty())
    } else {
        let (then, told) = asked(lines, key, times.drop_last(), ttl);
        (
            begun(then, key, times.last(), ttl),
            told.push(admission(then, key, times.last(), ttl)),
        )
    }
}

proof fn lemma_without_key<K, V>(lines: Seq<Line<K, V>>, key: K)
    requires
        distinct(lines),
    ensures
        distinct(without_key(lines, key)),
        !holds(without_key(lines, key), key),
        ready_count(without_key(lines, key)) <= ready_count(lines),
{
    if holds(lines, key) {
        lemma_remove_distinct(lines, place(lines, key));
        lemma_count_remove(lines, place(lines, key));
    }
}

proof fn lemma_begun_pending<K, V>(lines: Seq<Line<K, V>>, key: K, now: u64, ttl: u64)
    requires
        distinct(lines),
        admission(lines, key, now, ttl) is Compute,
    ensures
        distinct(begun(lines, key, now, ttl)),
        slot_of(begun(lines, key, now, ttl), key) == Some(Slot::<V>::Pending),
{
    let rest = without_key(lines, key);
    let line = Line { key, slot: Slot::<V>::Pending };
    lemma_without_key(lines, key);
    lemma_push_distinct(rest, line);
    let after = rest.push(line);
    assert(after[after.len() - 1].key == key);
    lemma_place(after, key, after.len() - 1);
}

/// Single flight. Of the calls for one key that come in before the value
/// is reported, the first is told to compute, if no good value is stored
/// by then, and every later one is told to wait; in the end the key is
/// pending. So one computation serves them all.
pub proof fn law_single_flight<K, V>(lines: Seq<Line<K, V>>, key: K, times: Seq<u64>, ttl: u64)
    requires
        distinct(lines),
        times.len() > 0,
        admission(lines, key, times[0], ttl) is Compute,
    ensures
        asked(lines, key, times, ttl).1.len() == times.len(),
        asked(lines, key, times, ttl).1[0] is Compute,
        forall|i: int| 1 <= i < times.len() ==> #[trigger] asked(lines, key, times, ttl).1[i] is Join,
        distinct(asked(lines, key, times, ttl).0),
        slot_of(asked(lines, key, times, ttl).0, key) == Some(Slot::<V>::Pending),
    decreases times.len(),
{
    let front = times.drop_last();
    if front.len() == 0 {
        assert(asked(lines, key, front, ttl) == (lines, Seq::<Admission>::empty()));
        lemma_begun_pending(lines, key, times[0], ttl);
    } else {
        assert(front[0] == times[0]);
        law_single_flight(lines, key, front, ttl);
        let (then, told) = asked(lines, key, front, ttl);
        assert(admission(then, key, times.last(), ttl) is Join);
        assert forall|i: int| 1 <= i < times.len() implies #[trigger] asked(
            lines,
            key,
            times,
            ttl,
        ).1[i] is Join by {
            if i < front.len() {
                assert(asked(lines, key, times, ttl).1[i] == told[i]);
            }
        }
    }
}

proof fn lemma_completed<K, V>(lines: Seq<Line<K, V>>, key: K, value: V, now: u64, capacity: usize)
    requires
        distinct(lines),
        ready_count(lines) <= capacity,
        capacity > 0,
    ensures
        distinct(completed(lines, key, value, now, capacity)),
        ready_count(completed(lines, key, value, now, capacity)) <= capacity,
        slot_of(completed(lines, key, value, now, capacity), key) == Some(
            Slot::Ready { value, stored: now },
        ),
{
    let rest = without_key(lines, key);
    let line = Line { key, slot: Slot::Ready { value, stored: now } };
    lemma_without_key(lines, key);
    let stored = rest.push(line);
    lemma_count_push(rest, line);
    lemma_push_distinct(rest, line);
    let last = stored.len() - 1;
    assert(stored[last] == line);
    if ready_count(stored) > capacity {
        // Another value is stored before the new one, so the new one stays.
        lemma_some_ready(rest);
        let first = oldest_ready(rest);
        assert(is_oldest_ready(stored, first)) by {
            assert(stored[first] == rest[first]);
            assert forall|j: int| 0 <= j < first implies !((#[trigger] stored[j]).slot is Ready) by {
                assert(stored[j] == rest[j]);
            }
        }
        lemma_oldest(stored, first);
        lemma_count_remove(stored, first);
        lemma_remove_distinct(stored, first);
        let after = stored.remove(first);
        assert(after[after.len() - 1] == line);
        lemma_place(after, key, after.len() - 1);
    } else {
        lemma_place(stored, key, last);
    }
}

proof fn lemma_some_ready<K, V>(lines: Seq<Line<K, V>>)
    requires
        ready_count(lines) > 0,
    ensures
        exists|i: int| is_oldest_ready(lines, i),
    decreases lines.len(),
{
    let front = lines.drop_last();
    if ready_count(front) > 0 {
        lemma_some_ready(front);
        let i = choose|i: int| is_oldest_ready(front, i);
        assert(lines[i] == front[i]);
        assert forall|j: int| 0 <= j < i implies !((#[trigger] lines[j]).slot is Ready) by {
            assert(lines[j] == front[j]);
        }
        assert(is_oldest_ready(lines, i));
    } else {
        let i = lines.len() - 1;
        assert forall|j: int| 0 <= j < i implies !((#[trigger] lines[j]).slot is Ready) by {
            if lines[j].slot is Ready {
                assert(front[j] == lines[j]);
                lemma_count_remove(front, j);
            }
        }
        assert(is_oldest_ready(lines, i));
    }
}

proof fn lemma_kept_after_remove<K, V>(lines: Seq<Line<K, V>>, key: K, i: int)
    requires
        distinct(lines),
        holds(lines, key),
        0 <= i < lines.len(),
        place(lines, key) != i,
    ensures
        slot_of(lines.remove(i), key) == slot_of(lines, key),
{
    let p = place(lines, key);
    let q = if p < i {
        p
    } else {
        p - 1
    };
    lemma_remove_distinct(lines, i);
    assert(lines.remove(i)[q] == lines[p]);
    lemma_place(lines.remove(i), key, q);
}

proof fn lemma_kept_after_push<K, V>(lines: Seq<Line<K, V>>, key: K, line: Line<K, V>)
    requires
        distinct(lines.push(line)),
        holds(lines, key),
    ensures
        slot_of(lines.push(line), key) == slot_of(lines, key),
{
    let p = place(lines, key);
    assert(lines.push(line)[p] == lines[p]);
    lemma_place(lines.push(line), key, p);
}

proof fn lemma_kept_without<K, V>(lines: Seq<Line<K, V>>, key: K, other: K)
    requires
        distinct(lines),
        holds(lines, key),
        other != key,
    ensures
        holds(without_key(lines, other), key),
        slot_of(without_key(lines, other), key) == slot_of(lines, key),
{
    if holds(lines, other) {
        lemma_kept_after_remove(lines, key, place(lines, other));
    }
}

/// A key that is pending stays pending whatever is asked or reported for
/// other keys in the meantime: only values leave to make room, never a
/// computation that is under way.
pub proof fn law_pending_stays<K, V>(
    lines: Seq<Line<K, V>>,
    key: K,
    other: K,
    value: V,
    now: u64,
    capacity: usize,
    ttl: u64,
)
    requires
        distinct(lines),
        slot_of(lines, key) == Some(Slot::<V>::Pending),
        other != key,
    ensures
        slot_of(begun(lines, other, now, ttl), key) == Some(Slot::<V>::Pending),
        slot_of(completed(lines, other, value, now, capacity), key) == Some(
            Slot::<V>::Pending,
        ),
{
    let rest = without_key(lines, other);
    lemma_without_key(lines, other);
    lemma_kept_without(lines, key, other);
    if admission(lines, other, now, ttl) is Compute {
        let line = Line { key: other, slot: Slot::<V>::Pending };
        lemma_push_distinct(rest, line);
        lemma_kept_after_push(rest, key, line);
    }
    let line = Line { key: other, slot: Slot::Ready { value, stored: now } };
    let stored = rest.push(line);
    lemma_push_distinct(rest, line);
    lemma_kept_after_push(rest, key, line);
    if ready_count(stored) > capacity {
        lemma_some_ready(stored);
        let first = oldest_ready(stored);
        assert(is_oldest_ready(stored, first));
        lemma_kept_after_remove(stored, key, first);
    }
}

/// Time to live. Once a value is reported for a key of a cache that stores
/// at least one value, every call for the key before the value's time is
/// up is told to use it, is given that very value, and changes nothing. The
/// first call at or after that time is told to compute afresh, and leaves
/// the key pending, so that the calls after it wait.
pub proof fn law_time_to_live<K, V>(
    lines: Seq<Line<K, V>>,
    key: K,
    value: V,
    stored: u64,
    now: u64,
    capacity: usize,
    ttl: u64,
)
    requires
        distinct(lines),
        ready_count(lines) <= capacity,
        capacity > 0,
    ensures
        ({
            let after = completed(lines, key, value, stored, capacity);
            if now < stored + ttl {
                &&& admission(after, key, now, ttl) is Hit
                &&& cached(after, key, now, ttl) == Some(value)
                &&& begun(after, key, now, ttl) == after
            } else {
                &&& admission(after, key, now, ttl) is Compute
                &&& cached(after, key, now, ttl) is None
                &&& slot_of(begun(after, key, now, ttl), key) == Some(Slot::<V>::Pending)
            }
        }),
{
    lemma_completed(lines, key, value, stored, capacity);
    let after = completed(lines, key, value, stored, capacity);
    if !(now < stored + ttl) {
        lemma_begun_pending(after, key, now, ttl);
    }
}

/// Capacity. When a cache is full and a value comes in for a key that has
/// no line, the value that was stored first leaves, and it alone: the other
/// lines stay as they are and in their order, and the new value stands at
/// the end.
pub proof fn law_capacity<K, V>(lines: Seq<Line<K, V>>, key: K, value: V, now: u64, capacity: usize)
    requires
        distinct(lines),
        ready_count(lines) == capacity,
        capacity > 0,
        !holds(lines, key),
    ensures
        ({
            let after = completed(lines, key, value, now, capacity);
            let first = oldest_ready(lines);
            &&& is_oldest_ready(lines, first)
            &&& after == lines.remove(first).push(
                Line { key, slot: Slot::Ready { value, stored: now } },
            )
            &&& !holds(after, lines[first].key)
            &&& ready_count(after) == capacity
        }),
{
    let line = Line { key, slot: Slot::Ready { value, stored: now } };
    let stored = lines.push(line);
    lemma_count_push(lines, line);
    lemma_some_ready(lines);
    let first = oldest_ready(lines);
    assert(is_oldest_ready(stored, first)) by {
        assert(stored[first] == lines[first]);
        assert forall|j: int| 0 <= j < first implies !((#[trigger] stored[j]).slot is Ready) by {
            assert(stored[j] == lines[j]);
        }
    }
    lemma_oldest(stored, first);
    lemma_count_remove(stored, first);
    let after = stored.remove(first);
    assert(after =~= lines.remove(first).push(line));
    lemma_remove_distinct(lines, first);
    assert(!holds(after, lines[first].key)) by {
        if holds(after, lines[first].key) {
            let i = choose|i: int| 0 <= i < after.len() && (#[trigger] after[i]).key == lines[first].key;
            if i < after.len() - 1 {
                assert(after[i] == lines.remove(first)[i]);
            } else {
                assert(after[i] == line);
                assert(lines[first].key == key);
            }
        }
    }
}

proof fn lemma_count_all<K, V>(lines: Seq<Line<K, V>>)
    requires
        forall|j: int| 0 <= j < lines.len() ==> (#[trigger] lines[j]).slot is Ready,
    ensures
        ready_count(lines) == lines.len(),
    decreases lines.len(),
{
    if lines.len() > 0 {
        assert(lines[lines.len() - 1].slot is Ready);
        assert forall|j: int| 0 <= j < lines.drop_last().len() implies (
        #[trigger] lines.drop_last()[j]).slot is Ready by {
            assert(lines.drop_last()[j] == lines[j]);
        }
        lemma_count_all(lines.drop_last());
    }
}

/// The line that holds the `i`-th of `values` for the `i`-th of `keys`,
/// stored at the `i`-th of `times`.
pub open spec fn stored_line<K, V>(keys: Seq<K>, values: Seq<V>, times: Seq<u64>, i: int) -> Line<
    K,
    V,
> {
    Line { key: keys[i], slot: Slot::Ready { value: values[i], stored: times[i] } }
}

/// The lines of a cache that was empty when the first `n` of `keys` were
/// asked for and reported, one after the other.
pub open spec fn filled<K, V>(
    keys: Seq<K>,
    values: Seq<V>,
    times: Seq<u64>,
    n: nat,
    capacity: usize,
    ttl: u64,
) -> Seq<Line<K, V>>
    decreases n,
{
    if n == 0 {
        Seq::empty()
    } else {
        let i = n - 1;
        completed(
            begun(filled(keys, values, times, i as nat, capacity, ttl), keys[i], times[i], ttl),
            keys[i],
            values[i],
            times[i],
            capacity,
        )
    }
}

/// The number of values that a cache of the given capacity stores after `n`
/// values came in for keys that differ.
pub open spec fn kept(n: nat, capacity: usize) -> nat {
    if n <= capacity {
        n
    } else {
        capacity as nat
    }
}

/// The values that came in last among the first `n`, as many as the
/// capacity allows, each in its line and in the order in which they came.
pub open spec fn latest<K, V>(
    keys: Seq<K>,
    values: Seq<V>,
    times: Seq<u64>,
    n: nat,
    capacity: usize,
) -> Seq<Line<K, V>> {
    Seq::new(
        kept(n, capacity),
        |j: int| stored_line(keys, values, times, n - kept(n, capacity) + j),
    )
}

proof fn lemma_latest<K, V>(keys: Seq<K>, values: Seq<V>, times: Seq<u64>, n: nat, capacity: usize)
    requires
        n <= keys.len(),
        forall|i: int, j: int| 0 <= i < j < keys.len() ==> keys[i] != keys[j],
    ensures
        distinct(latest(keys, values, times, n, capacity)),
        forall|i: int|
            0 <= i < keys.len() && !(n - kept(n, capacity) <= i < n) ==> !holds(
                latest(keys, values, times, n, capacity),
                #[trigger] keys[i],
            ),
        forall|i: int|
            n - kept(n, capacity) <= i < n ==> slot_of(
                latest(keys, values, times, n, capacity),
                #[trigger] keys[i],
            ) == Some(stored_line(keys, values, times, i).slot),
{
    let w = latest(keys, values, times, n, capacity);
    let lo = n - kept(n, capacity);
    assert forall|x: int, y: int| 0 <= x < y < w.len() implies (#[trigger] w[x]).key != (
    #[trigger] w[y]).key by {
        assert(w[x].key == keys[lo + x]);
        assert(w[y].key == keys[lo + y]);
    }
    assert forall|i: int| 0 <= i < keys.len() && !(lo <= i < n) implies !holds(
        w,
        #[trigger] keys[i],
    ) by {
        if holds(w, keys[i]) {
            let x = place(w, keys[i]);
            assert(w[x].key == keys[lo + x]);
        }
    }
    assert forall|i: int| lo <= i < n implies slot_of(w, #[trigger] keys[i]) == Some(
        stored_line(keys, values, times, i).slot,
    ) by {
        assert(w[i - lo] == stored_line(keys, values, times, i));
        lemma_place(w, keys[i], i - lo);
    }
}

proof fn lemma_fill_step<K, V>(
    keys: Seq<K>,
    values: Seq<V>,
    times: Seq<u64>,
    i: nat,
    capacity: usize,
    ttl: u64,
)
    requires
        i < keys.len(),
        forall|i: int, j: int| 0 <= i < j < keys.len() ==> keys[i] != keys[j],
        capacity > 0,
    ensures
        completed(
            begun(latest(keys, values, times, i, capacity), keys[i as int], times[i as int], ttl),
            keys[i as int],
            values[i as int],
            times[i as int],
            capacity,
        ) == latest(keys, values, times, i + 1, capacity),
{
    let before = latest(keys, values, times, i, capacity);
    let key = keys[i as int];
    lemma_latest(keys, values, times, i, capacity);
    assert(!holds(before, key));
    let pending = Line { key, slot: Slot::<V>::Pending };
    let waiting = before.push(pending);
    lemma_push_distinct(before, pending);
    assert(waiting[before.len() as int] == pending);
    lemma_place(waiting, key, before.len() as int);
    assert(waiting.remove(before.len() as int) =~= before);
    let line = stored_line(keys, values, times, i as int);
    let stored = before.push(line);
    assert forall|j: int| 0 <= j < stored.len() implies (#[trigger] stored[j]).slot is Ready by {
        if j < before.len() {
            assert(stored[j] == before[j]);
        }
    }
    lemma_count_all(stored);
    let next = latest(keys, values, times, i + 1, capacity);
    if stored.len() > capacity {
        assert(is_oldest_ready(stored, 0));
        lemma_oldest(stored, 0);
        assert(stored.remove(0) =~= next);
    } else {
        assert(stored =~= next);
    }
}

/// Filling a cache. After values came in for `n` keys that all differ, a
/// cache that was empty holds the values that came in last, as many as its
/// capacity allows, in the order in which they came; all that came before
/// them have left, the first first. So one key more than the capacity
/// pushes out the key that came first, and it alone.
pub proof fn law_fill<K, V>(
    keys: Seq<K>,
    values: Seq<V>,
    times: Seq<u64>,
    n: nat,
    capacity: usize,
    ttl: u64,
)
    requires
        n <= keys.len(),
        keys.len() == values.len(),
        keys.len() == times.len(),
        forall|i: int, j: int| 0 <= i < j < keys.len() ==> keys[i] != keys[j],
        capacity > 0,
    ensures
        filled(keys, values, times, n, capacity, ttl) == latest(keys, values, times, n, capacity),
        forall|i: int|
            0 <= i < n - kept(n, capacity) ==> !holds(
                filled(keys, values, times, n, capacity, ttl),
                #[trigger] keys[i],
            ),
        forall|i: int|
            n - kept(n, capacity) <= i < n ==> slot_of(
                filled(keys, values, times, n, capacity, ttl),
                #[trigger] keys[i],
            ) == Some(stored_line(keys, values, times, i).slot),
    decreases n,
{
    if n == 0 {
        assert(filled(keys, values, times, n, capacity, ttl) =~= latest(
            keys,
            values,
            times,
            n,
            capacity,
        ));
    } else {
        law_fill(keys, values, times, (n - 1) as nat, capacity, ttl);
        lemma_fill_step(keys, values, times, (n - 1) as nat, capacity, ttl);
    }
    lemma_latest(keys, values, times, n, capacity);
}

} // verus!

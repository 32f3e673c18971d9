//! Component counters: an ordered association from component name to quantity.
//!
//! One type serves a node's fingerprint, the counts a user asks for and the
//! totals of a group. A missing component counts as zero.
use crate::text::same_text;
use vstd::prelude::*;

verus! {

/// The value that `entries` holds for `key`, the last entry winning.
pub open spec fn lookup<V>(entries: Seq<(Seq<char>, V)>, key: Seq<char>) -> Option<V>
    decreases entries.len(),
{
    if entries.len() == 0 {
        None
    } else if entries.last().0 == key {
        Some(entries.last().1)
    } else {
        lookup(entries.drop_last(), key)
    }
}

/// The index of the last entry of `entries` under `key`, or -1.
pub open spec fn index_of<V>(entries: Seq<(Seq<char>, V)>, key: Seq<char>) -> int
    decreases entries.len(),
{
    if entries.len() == 0 {
        -1
    } else if entries.last().0 == key {
        entries.len() - 1
    } else {
        index_of(entries.drop_last(), key)
    }
}

pub open spec fn has_key<V>(entries: Seq<(Seq<char>, V)>, key: Seq<char>) -> bool {
    lookup(entries, key) is Some
}

/// No two entries share a key.
pub open spec fn keys_distinct<V>(entries: Seq<(Seq<char>, V)>) -> bool {
    forall|i: int, j: int|
        0 <= i < j < entries.len() ==> (#[trigger] entries[i]).0 != (#[trigger] entries[j]).0
}

/// The quantity of `key`, zero where it is missing.
pub open spec fn count_of(entries: Seq<(Seq<char>, nat)>, key: Seq<char>) -> nat {
    match lookup(entries, key) {
        Some(q) => q,
        None => 0,
    }
}

/// The sum of all quantities.
pub open spec fn sum_counts(entries: Seq<(Seq<char>, nat)>) -> nat
    decreases entries.len(),
{
    if entries.len() == 0 {
        0
    } else {
        sum_counts(entries.drop_last()) + entries.last().1
    }
}

/// `entries` with `key` bound to `value`: replaced in place where the key is
/// present, appended where it is not.
pub open spec fn with_entry<V>(entries: Seq<(Seq<char>, V)>, key: Seq<char>, value: V) -> Seq<
    (Seq<char>, V),
> {
    if index_of(entries, key) >= 0 {
        entries.update(index_of(entries, key), (key, value))
    } else {
        entries.push((key, value))
    }
}

pub proof fn lemma_index_of<V>(entries: Seq<(Seq<char>, V)>, key: Seq<char>)
    ensures
        -1 <= index_of(entries, key) < entries.len(),
        index_of(entries, key) >= 0 <==> has_key(entries, key),
        index_of(entries, key) >= 0 ==> entries[index_of(entries, key)].0 == key && lookup(
            entries,
            key,
        ) == Some(entries[index_of(entries, key)].1),
        forall|j: int|
            index_of(entries, key) < j < entries.len() ==> (#[trigger] entries[j]).0 != key,
    decreases entries.len(),
{
    if entries.len() > 0 && entries.last().0 != key {
        let front = entries.drop_last();
        lemma_index_of(front, key);
        assert forall|j: int| index_of(entries, key) < j < entries.len() implies (
        #[trigger] entries[j]).0 != key by {
            if j < front.len() {
                assert(front[j] == entries[j]);
            }
        }
    }
}

/// Where keys are distinct, an entry is found under its own key.
pub proof fn lemma_lookup_at<V>(entries: Seq<(Seq<char>, V)>, i: int)
    requires
        keys_distinct(entries),
        0 <= i < entries.len(),
    ensures
        index_of(entries, entries[i].0) == i,
        lookup(entries, entries[i].0) == Some(entries[i].1),
{
    lemma_index_of(entries, entries[i].0);
}

pub proof fn lemma_with_entry<V>(entries: Seq<(Seq<char>, V)>, key: Seq<char>, value: V)
    ensures
        lookup(with_entry(entries, key, value), key) == Some(value),
        forall|other: Seq<char>|
            other != key ==> #[trigger] lookup(with_entry(entries, key, value), other) == lookup(
                entries,
                other,
            ),
        keys_distinct(entries) ==> keys_distinct(with_entry(entries, key, value)),
        with_entry(entries, key, value).len() >= entries.len(),
    decreases entries.len(),
{
    lemma_index_of(entries, key);
    let out = with_entry(entries, key, value);
    if index_of(entries, key) >= 0 {
        if entries.last().0 == key {
            assert(out.drop_last() == entries.drop_last());
        } else {
            let front = entries.drop_last();
            lemma_with_entry(front, key, value);
            lemma_index_of(front, key);
            assert(out.drop_last() == with_entry(front, key, value));
            assert(out.last() == entries.last());
            assert forall|other: Seq<char>| other != key implies #[trigger] lookup(out, other)
                == lookup(entries, other) by {
                if entries.last().0 != other {
                    assert(lookup(out, other) == lookup(out.drop_last(), other));
                }
            }
        }
        if keys_distinct(entries) {
            assert forall|i: int, j: int| 0 <= i < j < out.len() implies (#[trigger] out[i]).0 != (
            #[trigger] out[j]).0 by {
                assert(entries[i].0 != entries[j].0);
            }
        }
    } else {
        assert(out.drop_last() == entries);
        if keys_distinct(entries) {
            assert forall|i: int, j: int| 0 <= i < j < out.len() implies (#[trigger] out[i]).0 != (
            #[trigger] out[j]).0 by {
                if j < entries.len() {
                    assert(entries[i].0 != entries[j].0);
                } else {
                    assert(entries[i].0 != key);
                }
            }
        }
    }
}

/// Counters of hardware components, in the order in which the components were
/// first entered.
#[derive(Clone, Debug)]
pub struct ComponentCounts {
    entries: Vec<(String, usize)>,
}

impl View for ComponentCounts {
    type V = Seq<(Seq<char>, nat)>;

    closed spec fn view(&self) -> Seq<(Seq<char>, nat)> {
        Seq::new(self.entries@.len(), |i: int| (self.entries@[i].0@, self.entries@[i].1 as nat))
    }
}

impl ComponentCounts {
    /// No component occurs twice.
    pub open spec fn wf(&self) -> bool {
        keys_distinct(self@)
    }

    /// Every quantity is one that the machine holds.
    pub proof fn lemma_bounded(&self)
        ensures
            forall|i: int| 0 <= i < self@.len() ==> (#[trigger] self@[i]).1 <= usize::MAX,
            forall|key: Seq<char>| #[trigger] count_of(self@, key) <= usize::MAX,
    {
        assert forall|key: Seq<char>| #[trigger] count_of(self@, key) <= usize::MAX by {
            lemma_index_of(self@, key);
        }
    }

    pub fn new() -> (r: Self)
        ensures
            r@ == Seq::<(Seq<char>, nat)>::empty(),
            r.wf(),
    {
        let r = ComponentCounts { entries: Vec::new() };
        assert(r@ =~= Seq::<(Seq<char>, nat)>::empty());
        r
    }

    pub fn len(&self) -> (r: usize)
        ensures
            r == self@.len(),
    {
        self.entries.len()
    }

    /// The component of the entry at `i`.
    pub fn key(&self, i: usize) -> (r: &String)
        requires
            i < self@.len(),
        ensures
            r@ == self@[i as int].0,
    {
        &self.entries[i].0
    }

    /// The quantity of the entry at `i`.
    pub fn quantity(&self, i: usize) -> (r: usize)
        requires
            i < self@.len(),
        ensures
            r == self@[i as int].1,
    {
        self.entries[i].1
    }

    /// The position of the last entry under `key`.
    pub fn position(&self, key: &str) -> (r: Option<usize>)
        ensures
            match r {
                Some(i) => i == index_of(self@, key@),
                None => index_of(self@, key@) < 0,
            },
    {
        let mut i: usize = self.entries.len();
        proof {
            assert(self@.take(self@.len() as int) == self@);
        }
        while i > 0
            invariant
                i <= self.entries@.len(),
                index_of(self@, key@) == index_of(self@.take(i as int), key@),
            decreases i,
        {
            i = i - 1;
            proof {
                assert(self@.take(i + 1).drop_last() == self@.take(i as int));
            }
            if same_text(self.entries[i].0.as_str(), key) {
                return Some(i);
            }
        }
        None
    }

    /// The quantity entered for `key`.
    pub fn get(&self, key: &str) -> (r: Option<usize>)
        ensures
            r == match lookup(self@, key@) {
                Some(q) => Some(q as usize),
                None => None,
            },
            r is Some <==> has_key(self@, key@),
    {
        proof {
            lemma_index_of(self@, key@);
        }
        match self.position(key) {
            Some(i) => Some(self.entries[i].1),
            None => None,
        }
    }

    /// The quantity of `key`, zero where it is missing.
    pub fn count(&self, key: &str) -> (r: usize)
        ensures
            r == count_of(self@, key@),
    {
        proof {
            self.lemma_bounded();
        }
        match self.get(key) {
            Some(q) => q,
            None => 0,
        }
    }

    pub fn contains_key(&self, key: &str) -> (r: bool)
        ensures
            r == has_key(self@, key@),
    {
        self.get(key).is_some()
    }

    /// Binds `key` to `quantity`: in place where the key is present, at the
    /// end where it is not.
    pub fn insert(&mut self, key: String, quantity: usize)
        ensures
            final(self)@ == with_entry(old(self)@, key@, quantity as nat),
            old(self).wf() ==> final(self).wf(),
    {
        proof {
            lemma_with_entry(self@, key@, quantity as nat);
            lemma_index_of(self@, key@);
        }
        match self.position(key.as_str()) {
            Some(i) => {
                self.entries[i] = (key, quantity);
            },
            None => {
                self.entries.push((key, quantity));
            },
        }
        assert(self@ =~= with_entry(old(self)@, key@, quantity as nat));
    }

    /// The sum of all quantities.
    pub fn total(&self) -> (r: usize)
        requires
            sum_counts(self@) <= usize::MAX,
        ensures
            r == sum_counts(self@),
    {
        let mut sum: usize = 0;
        let mut i: usize = 0;
        proof {
            assert(self@.take(0) == Seq::<(Seq<char>, nat)>::empty());
        }
        while i < self.entries.len()
            invariant
                i <= self.entries@.len(),
                sum == sum_counts(self@.take(i as int)),
                sum_counts(self@) <= usize::MAX,
            decreases self.entries@.len() - i,
        {
            proof {
                assert(self@.take(i + 1).drop_last() == self@.take(i as int));
                lemma_sum_prefix(self@, i + 1);
            }
            sum = sum + self.entries[i].1;
            i = i + 1;
        }
        proof {
            assert(self@.take(self@.len() as int) == self@);
        }
        sum
    }

    /// A copy with the same entries.
    pub fn duplicate(&self) -> (r: Self)
        ensures
            r@ == self@,
    {
        let mut entries: Vec<(String, usize)> = Vec::new();
        let mut i: usize = 0;
        while i < self.entries.len()
            invariant
                i <= self.entries@.len(),
                entries@.len() == i,
                forall|k: int|
                    0 <= k < i ==> (#[trigger] entries@[k]).0@ == self.entries@[k].0@
                        && entries@[k].1 == self.entries@[k].1,
            decreases self.entries@.len() - i,
        {
            entries.push((self.entries[i].0.clone(), self.entries[i].1));
            i = i + 1;
        }
        let r = ComponentCounts { entries };
        assert(r@ =~= self@);
        r
    }

    /// The counters that `pairs` enter one after the other, a later entry
    /// replacing an earlier one of the same component.
    pub fn from_pairs(pairs: Vec<(String, usize)>) -> (r: Self)
        ensures
            r@ == entered(pair_views(pairs@)),
            r.wf(),
    {
        let mut out = ComponentCounts::new();
        let mut i: usize = 0;
        proof {
            assert(pair_views(pairs@).take(0) == Seq::<(Seq<char>, nat)>::empty());
        }
        while i < pairs.len()
            invariant
                i <= pairs@.len(),
                out.wf(),
                out@ == entered(pair_views(pairs@).take(i as int)),
            decreases pairs@.len() - i,
        {
            proof {
                let p = pair_views(pairs@);
                assert(p.take(i + 1).drop_last() == p.take(i as int));
            }
            out.insert(pairs[i].0.clone(), pairs[i].1);
            i = i + 1;
        }
        proof {
            assert(pair_views(pairs@).take(pairs@.len() as int) == pair_views(pairs@));
        }
        out
    }

    /// The components, in the order of the entries.
    pub fn keys(&self) -> (r: Vec<String>)
        ensures
            crate::text::texts(r@) == keys_of(self@),
    {
        let mut out: Vec<String> = Vec::new();
        let mut i: usize = 0;
        while i < self.entries.len()
            invariant
                i <= self.entries@.len(),
                out@.len() == i,
                forall|k: int| 0 <= k < i ==> (#[trigger] out@[k])@ == self.entries@[k].0@,
            decreases self.entries@.len() - i,
        {
            out.push(self.entries[i].0.clone());
            i = i + 1;
        }
        assert(crate::text::texts(out@) =~= keys_of(self@));
        out
    }
}

pub proof fn lemma_sum_prefix(entries: Seq<(Seq<char>, nat)>, n: int)
    requires
        0 <= n <= entries.len(),
    ensures
        sum_counts(entries.take(n)) <= sum_counts(entries),
    decreases entries.len(),
{
    if n == entries.len() {
        assert(entries.take(n) == entries);
    } else {
        assert(entries.drop_last().take(n) == entries.take(n));
        lemma_sum_prefix(entries.drop_last(), n);
    }
}

/// The keys of `entries`, in order.
pub open spec fn keys_of<V>(entries: Seq<(Seq<char>, V)>) -> Seq<Seq<char>> {
    Seq::new(entries.len(), |i: int| entries[i].0)
}

/// What a vector of pairs holds.
pub open spec fn pair_views(pairs: Seq<(String, usize)>) -> Seq<(Seq<char>, nat)> {
    Seq::new(pairs.len(), |i: int| (pairs[i].0@, pairs[i].1 as nat))
}

/// The entries that result from entering `pairs` one after the other.
pub open spec fn entered<V>(pairs: Seq<(Seq<char>, V)>) -> Seq<(Seq<char>, V)>
    decreases pairs.len(),
{
    if pairs.len() == 0 {
        Seq::empty()
    } else {
        with_entry(entered(pairs.drop_last()), pairs.last().0, pairs.last().1)
    }
}

} // verus!

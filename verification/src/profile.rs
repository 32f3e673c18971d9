//! Hardware profiles: groups of properties that a node has all of, and how
//! many nodes of a group match each profile.
use crate::text::{
    id_less, join_with_colon, joined, lemma_id_less_total, lemma_id_less_transitive, node_id_less,
    same_text, texts,
};
use vstd::prelude::*;
use vstd::string::*;

verus! {

/// What a vector of profiles holds: the properties of each.
pub open spec fn profile_views(profiles: Seq<Vec<String>>) -> Seq<Seq<Seq<char>>> {
    Seq::new(profiles.len(), |i: int| texts(profiles[i]@))
}

/// What the counters of the nodes hold.
pub open spec fn counter_views(nodes: Seq<(String, Vec<u8>)>) -> Seq<(Seq<char>, Seq<u8>)> {
    Seq::new(nodes.len(), |i: int| (nodes[i].0@, nodes[i].1@))
}

/// Whether every property of `profile` is among `properties`.
pub open spec fn covers(profile: Seq<Seq<char>>, properties: Seq<Seq<char>>) -> bool {
    forall|i: int| 0 <= i < profile.len() ==> properties.contains(#[trigger] profile[i])
}

/// One where a node with the given properties, which must be some, has
/// all properties of `profile`; zero otherwise.
pub open spec fn complies(profile: Seq<Seq<char>>, properties: Seq<Seq<char>>) -> u8 {
    if properties.len() > 0 && covers(profile, properties) {
        1
    } else {
        0
    }
}

/// The position of the first of `items` that equals `wanted`, or -1.
pub open spec fn first_equal<T>(items: Seq<T>, wanted: T) -> int
    decreases items.len(),
{
    if items.len() == 0 {
        -1
    } else {
        let before = first_equal(items.drop_last(), wanted);
        if before >= 0 {
            before
        } else if items.last() == wanted {
            items.len() - 1
        } else {
            -1
        }
    }
}

pub proof fn lemma_first_equal<T>(items: Seq<T>, wanted: T)
    ensures
        -1 <= first_equal(items, wanted) < items.len(),
        first_equal(items, wanted) >= 0 ==> items[first_equal(items, wanted)] == wanted,
        first_equal(items, wanted) < 0 <==> !items.contains(wanted),
        forall|i: int| 0 <= i < first_equal(items, wanted) ==> #[trigger] items[i] != wanted,
    decreases items.len(),
{
    if items.len() > 0 {
        let front = items.drop_last();
        lemma_first_equal(front, wanted);
        if first_equal(front, wanted) >= 0 {
            assert(items[first_equal(front, wanted)] == wanted);
        } else {
            if items.last() == wanted {
                assert(items[items.len() - 1] == wanted);
            }
            if items.contains(wanted) {
                let i = choose|i: int| 0 <= i < items.len() && items[i] == wanted;
                if i < front.len() {
                    assert(front[i] == wanted);
                }
            }
        }
        assert forall|i: int| 0 <= i < first_equal(items, wanted) implies #[trigger] items[i]
            != wanted by {
            if i < front.len() {
                assert(front[i] == items[i]);
                if items[i] == wanted {
                    assert(front.contains(wanted));
                }
            }
        }
    }
}

pub proof fn lemma_first_equal_prefix<T>(items: Seq<T>, wanted: T, n: int)
    requires
        0 <= n <= items.len(),
        first_equal(items.take(n), wanted) >= 0,
    ensures
        first_equal(items, wanted) == first_equal(items.take(n), wanted),
    decreases items.len(),
{
    if n == items.len() {
        assert(items.take(n) == items);
    } else {
        assert(items.drop_last().take(n) == items.take(n));
        lemma_first_equal_prefix(items.drop_last(), wanted, n);
    }
}

/// The counters at `at`, summed over the nodes.
pub open spec fn column_total(nodes: Seq<(Seq<char>, Seq<u8>)>, at: int) -> nat
    decreases nodes.len(),
{
    if nodes.len() == 0 {
        0
    } else {
        column_total(nodes.drop_last(), at) + nodes.last().1[at] as nat
    }
}

pub proof fn lemma_column_prefix(nodes: Seq<(Seq<char>, Seq<u8>)>, at: int, n: int)
    requires
        0 <= n <= nodes.len(),
    ensures
        column_total(nodes.take(n), at) <= column_total(nodes, at),
    decreases nodes.len(),
{
    if n == nodes.len() {
        assert(nodes.take(n) == nodes);
    } else {
        assert(nodes.drop_last().take(n) == nodes.take(n));
        lemma_column_prefix(nodes.drop_last(), at, n);
    }
}

/// Whether `item` is among `list`.
pub fn list_contains(list: &Vec<String>, item: &str) -> (r: bool)
    ensures
        r == texts(list@).contains(item@),
{
    let mut i: usize = 0;
    while i < list.len()
        invariant
            i <= list@.len(),
            forall|k: int| 0 <= k < i ==> (#[trigger] list@[k])@ != item@,
        decreases list@.len() - i,
    {
        if same_text(list[i].as_str(), item) {
            assert(texts(list@)[i as int] == item@);
            return true;
        }
        i = i + 1;
    }
    assert forall|k: int| 0 <= k < texts(list@).len() implies #[trigger] texts(list@)[k]
        != item@ by {
        assert(list@[k]@ != item@);
    }
    false
}

/// Whether every property of `profile` is among `properties`.
pub fn covers_all(profile: &Vec<String>, properties: &Vec<String>) -> (r: bool)
    ensures
        r == covers(texts(profile@), texts(properties@)),
{
    let mut i: usize = 0;
    while i < profile.len()
        invariant
            i <= profile@.len(),
            forall|k: int|
                0 <= k < i ==> texts(properties@).contains(#[trigger] texts(profile@)[k]),
        decreases profile@.len() - i,
    {
        if !list_contains(properties, profile[i].as_str()) {
            assert(texts(profile@)[i as int] == profile@[i as int]@);
            return false;
        }
        assert(texts(profile@)[i as int] == profile@[i as int]@);
        i = i + 1;
    }
    true
}

/// Whether two lists hold the same texts in the same order.
pub fn same_list(a: &Vec<String>, b: &Vec<String>) -> (r: bool)
    ensures
        r == (texts(a@) == texts(b@)),
{
    if a.len() != b.len() {
        assert(texts(a@).len() != texts(b@).len());
        return false;
    }
    let mut i: usize = 0;
    while i < a.len()
        invariant
            i <= a@.len(),
            a@.len() == b@.len(),
            forall|k: int| 0 <= k < i ==> (#[trigger] a@[k])@ == b@[k]@,
        decreases a@.len() - i,
    {
        if !same_text(a[i].as_str(), b[i].as_str()) {
            assert(texts(a@)[i as int] != texts(b@)[i as int]);
            return false;
        }
        i = i + 1;
    }
    assert(texts(a@) =~= texts(b@));
    true
}

/// One where a node with the properties `node_property_vec`, which must be
/// some, has all properties of the profile `user_property_vec`; zero
/// otherwise.
pub fn check_node_complains_pattern(
    user_property_vec: &Vec<String>,
    node_property_vec: &Vec<String>,
) -> (r: u8)
    ensures
        r == complies(texts(user_property_vec@), texts(node_property_vec@)),
{
    if node_property_vec.len() > 0 && covers_all(user_property_vec, node_property_vec) {
        1
    } else {
        0
    }
}

/// The properties that a node was found to have; none where nothing was
/// found.
pub open spec fn found_properties(found: Option<Vec<String>>) -> Seq<Seq<char>> {
    match found {
        Some(list) => texts(list@),
        None => Seq::empty(),
    }
}

/// For each node, in order, and each profile, in order, whether the node
/// complies with the profile.
pub open spec fn pattern_counts(
    profiles: Seq<Seq<Seq<char>>>,
    nodes: Seq<(String, Option<Vec<String>>)>,
) -> Seq<(Seq<char>, Seq<u8>)> {
    Seq::new(
        nodes.len(),
        |i: int|
            (
                nodes[i].0@,
                Seq::new(
                    profiles.len(),
                    |j: int| complies(profiles[j], found_properties(nodes[i].1)),
                ),
            ),
    )
}

/// Says of each node with which of the profiles it complies.
pub fn count_patterns(
    user_defined_hw_properties_grouped_by_hw_profile_vec_sorted: &Vec<Vec<String>>,
    nodes_hw_properties_from_user_pattern_vec: &Vec<(String, Option<Vec<String>>)>,
) -> (r: Vec<(String, Vec<u8>)>)
    ensures
        counter_views(r@) == pattern_counts(
            profile_views(user_defined_hw_properties_grouped_by_hw_profile_vec_sorted@),
            nodes_hw_properties_from_user_pattern_vec@,
        ),
{
    let profiles = user_defined_hw_properties_grouped_by_hw_profile_vec_sorted;
    let nodes = nodes_hw_properties_from_user_pattern_vec;
    let none: Vec<String> = Vec::new();
    let mut out: Vec<(String, Vec<u8>)> = Vec::new();
    let mut i: usize = 0;
    proof {
        assert(texts(none@) =~= Seq::<Seq<char>>::empty());
    }
    while i < nodes.len()
        invariant
            i <= nodes@.len(),
            out@.len() == i,
            texts(none@) == Seq::<Seq<char>>::empty(),
            forall|k: int|
                0 <= k < i ==> (#[trigger] counter_views(out@)[k]) == pattern_counts(
                    profile_views(profiles@),
                    nodes@,
                )[k],
        decreases nodes@.len() - i,
    {
        let properties: &Vec<String> = match &nodes[i].1 {
            Some(list) => list,
            None => &none,
        };
        let mut row: Vec<u8> = Vec::new();
        let mut j: usize = 0;
        while j < profiles.len()
            invariant
                j <= profiles@.len(),
                row@.len() == j,
                texts(properties@) == found_properties(nodes@[i as int].1),
                i < nodes@.len(),
                forall|k: int|
                    0 <= k < j ==> #[trigger] row@[k] == complies(
                        profile_views(profiles@)[k],
                        found_properties(nodes@[i as int].1),
                    ),
            decreases profiles@.len() - j,
        {
            row.push(check_node_complains_pattern(&profiles[j], properties));
            j = j + 1;
        }
        let ghost before = counter_views(out@);
        out.push((nodes[i].0.clone(), row));
        proof {
            let want = pattern_counts(profile_views(profiles@), nodes@);
            assert(counter_views(out@)[i as int].1 =~= want[i as int].1);
            assert forall|k: int| 0 <= k < i + 1 implies (#[trigger] counter_views(out@)[k])
                == want[k] by {
                if k < i {
                    assert(counter_views(out@)[k] == before[k]);
                }
            }
        }
        i = i + 1;
    }
    assert(counter_views(out@) =~= pattern_counts(profile_views(profiles@), nodes@));
    out
}

/// What a summary holds.
pub struct Summary {
    pub profiles: Seq<Seq<Seq<char>>>,
    pub nodes: Seq<(Seq<char>, Seq<u8>)>,
}

/// How many nodes of a group match each of the profiles that a user
/// defined. The counter at `i` of a node belongs to the profile at `i`.
#[derive(Clone, Debug)]
pub struct HsmHwPatternSummary {
    user_defined_hw_profile_vec_hw_prop_vec_sorted: Vec<Vec<String>>,
    node_counter_vec: Vec<(String, Vec<u8>)>,
}

impl View for HsmHwPatternSummary {
    type V = Summary;

    closed spec fn view(&self) -> Summary {
        Summary {
            profiles: profile_views(self.user_defined_hw_profile_vec_hw_prop_vec_sorted@),
            nodes: counter_views(self.node_counter_vec@),
        }
    }
}

/// The counters of the first node `id`, or as many zeros as there are
/// profiles.
pub open spec fn counters_of(summary: Summary, id: Seq<char>) -> Seq<u8> {
    let ids = Seq::new(summary.nodes.len(), |i: int| summary.nodes[i].0);
    if 0 <= first_equal(ids, id) < summary.nodes.len() {
        summary.nodes[first_equal(ids, id)].1
    } else {
        Seq::new(summary.profiles.len(), |i: int| 0u8)
    }
}

/// Whether the properties of a node match `profile`: all of them the same,
/// in the same order, where `exact`; otherwise where the node has all
/// properties of the profile.
pub open spec fn matches_profile(
    profile: Seq<Seq<char>>,
    properties: Seq<Seq<char>>,
    exact: bool,
) -> bool {
    if exact {
        profile == properties
    } else {
        covers(profile, properties)
    }
}

/// `counters` with `by` added at each profile that the properties match.
pub open spec fn raised(
    counters: Seq<u8>,
    profiles: Seq<Seq<Seq<char>>>,
    properties: Seq<Seq<char>>,
    by: u8,
    exact: bool,
) -> Seq<int> {
    Seq::new(
        counters.len(),
        |i: int|
            if matches_profile(profiles[i], properties, exact) {
                counters[i] + by
            } else {
                counters[i] as int
            },
    )
}

/// The counters as plain numbers.
pub open spec fn plain(counters: Seq<u8>) -> Seq<int> {
    Seq::new(counters.len(), |i: int| counters[i] as int)
}

/// The nodes whose counter at `at` is above zero, in order.
pub open spec fn matching_nodes(nodes: Seq<(Seq<char>, Seq<u8>)>, at: int) -> Seq<Seq<char>>
    decreases nodes.len(),
{
    if nodes.len() == 0 {
        Seq::empty()
    } else if nodes.last().1[at] > 0 {
        matching_nodes(nodes.drop_last(), at).push(nodes.last().0)
    } else {
        matching_nodes(nodes.drop_last(), at)
    }
}

/// How many of `items` come before `x`.
pub open spec fn text_rank(items: Seq<Seq<char>>, x: Seq<char>) -> int
    decreases items.len(),
{
    if items.len() == 0 {
        0
    } else {
        text_rank(items.drop_last(), x) + if id_less(items.last(), x) {
            1int
        } else {
            0int
        }
    }
}

/// `items` in the order of identifiers, each entered before those that do
/// not come before it.
pub open spec fn in_order(items: Seq<Seq<char>>) -> Seq<Seq<char>>
    decreases items.len(),
{
    if items.len() == 0 {
        Seq::empty()
    } else {
        let before = in_order(items.drop_last());
        before.insert(text_rank(before, items.last()), items.last())
    }
}

/// No text comes before one that precedes it.
pub open spec fn ordered(items: Seq<Seq<char>>) -> bool {
    forall|i: int, j: int| 0 <= i < j < items.len() ==> !id_less(items[j], items[i])
}

pub proof fn lemma_text_rank(items: Seq<Seq<char>>, x: Seq<char>)
    requires
        ordered(items),
    ensures
        0 <= text_rank(items, x) <= items.len(),
        forall|i: int| 0 <= i < text_rank(items, x) ==> id_less(#[trigger] items[i], x),
        forall|i: int| text_rank(items, x) <= i < items.len() ==> !id_less(#[trigger] items[i], x),
    decreases items.len(),
{
    if items.len() > 0 {
        let front = items.drop_last();
        assert(ordered(front)) by {
            assert forall|i: int, j: int| 0 <= i < j < front.len() implies !id_less(
                front[j],
                front[i],
            ) by {
                assert(front[i] == items[i] && front[j] == items[j]);
            }
        }
        lemma_text_rank(front, x);
        let r = text_rank(front, x);
        if id_less(items.last(), x) {
            assert forall|i: int| 0 <= i < front.len() implies id_less(#[trigger] items[i], x) by {
                assert(!id_less(items[items.len() - 1], items[i]));
                lemma_id_less_total(items[i], items.last());
                if items[i] != items.last() {
                    lemma_id_less_transitive(items[i], items.last(), x);
                }
            }
            assert(r == front.len()) by {
                if r < front.len() {
                    assert(!id_less(front[r], x));
                    assert(front[r] == items[r]);
                }
            }
        } else {
            assert forall|i: int| 0 <= i < r implies id_less(#[trigger] items[i], x) by {
                assert(front[i] == items[i]);
            }
            assert forall|i: int| r <= i < items.len() implies !id_less(#[trigger] items[i], x) by {
                if i < front.len() {
                    assert(front[i] == items[i]);
                }
            }
        }
    }
}

/// The order of identifiers holds of what `in_order` gives, and nothing
/// is lost.
pub proof fn lemma_in_order(items: Seq<Seq<char>>)
    ensures
        ordered(in_order(items)),
        in_order(items).len() == items.len(),
        in_order(items).to_multiset() == items.to_multiset(),
    decreases items.len(),
{
    if items.len() > 0 {
        let front = items.drop_last();
        let before = in_order(front);
        let x = items.last();
        lemma_in_order(front);
        lemma_text_rank(before, x);
        let r = text_rank(before, x);
        let out = before.insert(r, x);
        assert forall|i: int, j: int| 0 <= i < j < out.len() implies !id_less(out[j], out[i]) by {
            if j == r {
                assert(out[i] == before[i]);
                lemma_id_less_total(before[i], x);
            } else if i == r {
                assert(out[j] == before[j - 1]);
            } else {
                let a = if i < r {
                    i
                } else {
                    i - 1
                };
                let b = if j < r {
                    j
                } else {
                    j - 1
                };
                assert(out[i] == before[a] && out[j] == before[b]);
            }
        }
        vstd::seq_lib::to_multiset_insert(before, r, x);
        vstd::seq_lib::to_multiset_build(front, x);
        assert(items == front.push(x));
    } else {
        assert(in_order(items) =~= items);
    }
}

/// Sorts texts in the order of identifiers.
pub fn sort_texts(items: &Vec<String>) -> (r: Vec<String>)
    ensures
        texts(r@) == in_order(texts(items@)),
{
    let mut out: Vec<String> = Vec::new();
    let mut i: usize = 0;
    proof {
        assert(texts(items@).take(0) == Seq::<Seq<char>>::empty());
        assert(texts(out@) =~= Seq::<Seq<char>>::empty());
    }
    while i < items.len()
        invariant
            i <= items@.len(),
            texts(out@) == in_order(texts(items@).take(i as int)),
        decreases items@.len() - i,
    {
        let ghost before = texts(out@);
        proof {
            let t = texts(items@);
            assert(t.take(i + 1).drop_last() == t.take(i as int));
            assert(t.take(i + 1).last() == items@[i as int]@);
            lemma_in_order(t.take(i as int));
            lemma_text_rank(before, items@[i as int]@);
        }
        let mut at: usize = 0;
        while at < out.len() && node_id_less(out[at].as_str(), items[i].as_str())
            invariant
                at <= out@.len(),
                i < items@.len(),
                texts(out@) == before,
                forall|k: int| 0 <= k < at ==> id_less(#[trigger] before[k], items@[i as int]@),
            decreases out@.len() - at,
        {
            assert(before[at as int] == out@[at as int]@);
            at = at + 1;
        }
        proof {
            let x = items@[i as int]@;
            if at < out@.len() {
                assert(before[at as int] == out@[at as int]@);
            }
            assert(text_rank(before, x) == at) by {
                if text_rank(before, x) < at {
                    assert(id_less(before[text_rank(before, x)], x));
                } else if text_rank(before, x) > at {
                    assert(id_less(before[at as int], x));
                }
            }
        }
        out.insert(at, items[i].clone());
        proof {
            assert(texts(out@) =~= before.insert(at as int, items@[i as int]@));
        }
        i = i + 1;
    }
    proof {
        assert(texts(items@).take(items@.len() as int) == texts(items@));
    }
    out
}

impl HsmHwPatternSummary {
    /// Every node has one counter for each profile.
    pub open spec fn wf(&self) -> bool {
        forall|i: int|
            0 <= i < self@.nodes.len() ==> (#[trigger] self@.nodes[i]).1.len()
                == self@.profiles.len()
    }

    /// A summary of no nodes for the given profiles.
    pub fn new(profiles: Vec<Vec<String>>) -> (r: Self)
        ensures
            r@.profiles == profile_views(profiles@),
            r@.nodes == Seq::<(Seq<char>, Seq<u8>)>::empty(),
            r.wf(),
    {
        let r = HsmHwPatternSummary {
            user_defined_hw_profile_vec_hw_prop_vec_sorted: profiles,
            node_counter_vec: Vec::new(),
        };
        assert(r@.nodes =~= Seq::<(Seq<char>, Seq<u8>)>::empty());
        r
    }

    /// The identifiers of the nodes, in the order of their entries.
    pub fn node_ids(&self) -> (r: Vec<String>)
        ensures
            r@.len() == self@.nodes.len(),
            forall|i: int| 0 <= i < r@.len() ==> (#[trigger] r@[i])@ == self@.nodes[i].0,
    {
        let mut out: Vec<String> = Vec::new();
        let mut i: usize = 0;
        while i < self.node_counter_vec.len()
            invariant
                i <= self.node_counter_vec@.len(),
                out@.len() == i,
                forall|k: int| 0 <= k < i ==> (#[trigger] out@[k])@ == self@.nodes[k].0,
            decreases self.node_counter_vec@.len() - i,
        {
            out.push(self.node_counter_vec[i].0.clone());
            i = i + 1;
        }
        out
    }

    /// The profiles, each with its properties joined by colons.
    pub fn profile_names(&self) -> (r: Vec<String>)
        ensures
            r@.len() == self@.profiles.len(),
            forall|i: int| 0 <= i < r@.len() ==> (#[trigger] r@[i])@ == joined(self@.profiles[i]),
    {
        let mut out: Vec<String> = Vec::new();
        let mut i: usize = 0;
        while i < self.user_defined_hw_profile_vec_hw_prop_vec_sorted.len()
            invariant
                i <= self@.profiles.len(),
                out@.len() == i,
                forall|k: int| 0 <= k < i ==> (#[trigger] out@[k])@ == joined(self@.profiles[k]),
            decreases self@.profiles.len() - i,
        {
            out.push(join_with_colon(&self.user_defined_hw_profile_vec_hw_prop_vec_sorted[i]));
            i = i + 1;
        }
        out
    }

    /// How many profiles the summary is about.
    pub fn profile_count(&self) -> (r: usize)
        ensures
            r == self@.profiles.len(),
    {
        self.user_defined_hw_profile_vec_hw_prop_vec_sorted.len()
    }

    /// The position of the first profile with just the properties
    /// `hw_profile`, in that order.
    pub fn profile_position(&self, hw_profile: &Vec<String>) -> (r: Option<usize>)
        ensures
            match r {
                Some(at) => at == first_equal(self@.profiles, texts(hw_profile@)),
                None => first_equal(self@.profiles, texts(hw_profile@)) < 0,
            },
    {
        let profiles = &self.user_defined_hw_profile_vec_hw_prop_vec_sorted;
        let mut i: usize = 0;
        proof {
            assert(self@.profiles.take(0) == Seq::<Seq<Seq<char>>>::empty());
        }
        while i < profiles.len()
            invariant
                i <= profiles@.len(),
                profiles == &self.user_defined_hw_profile_vec_hw_prop_vec_sorted,
                first_equal(self@.profiles.take(i as int), texts(hw_profile@)) < 0,
            decreases profiles@.len() - i,
        {
            proof {
                let p = self@.profiles;
                assert(p.take(i + 1).drop_last() == p.take(i as int));
                assert(p.take(i + 1).last() == texts(profiles@[i as int]@));
            }
            if same_list(&profiles[i], hw_profile) {
                proof {
                    lemma_first_equal_prefix(self@.profiles, texts(hw_profile@), i + 1);
                }
                return Some(i);
            }
            i = i + 1;
        }
        proof {
            assert(self@.profiles.take(self@.profiles.len() as int) == self@.profiles);
        }
        None
    }

    /// The sum of the counters of the profile `hw_profile` over all nodes.
    pub fn get_hw_profile_counters_total_count(&self, hw_profile: Vec<String>) -> (r: u8)
        requires
            self.wf(),
            self@.profiles.contains(texts(hw_profile@)),
            column_total(self@.nodes, first_equal(self@.profiles, texts(hw_profile@))) <= u8::MAX,
        ensures
            r == column_total(self@.nodes, first_equal(self@.profiles, texts(hw_profile@))),
    {
        proof {
            lemma_first_equal(self@.profiles, texts(hw_profile@));
        }
        let at: usize = match self.profile_position(&hw_profile) {
            Some(at) => at,
            None => 0,
        };
        self.column_sum(at)
    }

    /// The sum of the counters at `at` over all nodes.
    fn column_sum(&self, at: usize) -> (r: u8)
        requires
            self.wf(),
            at < self@.profiles.len(),
            column_total(self@.nodes, at as int) <= u8::MAX,
        ensures
            r == column_total(self@.nodes, at as int),
    {
        let mut sum: u8 = 0;
        let mut i: usize = 0;
        proof {
            assert(self@.nodes.take(0) == Seq::<(Seq<char>, Seq<u8>)>::empty());
        }
        while i < self.node_counter_vec.len()
            invariant
                i <= self.node_counter_vec@.len(),
                self.wf(),
                at < self@.profiles.len(),
                sum == column_total(self@.nodes.take(i as int), at as int),
                column_total(self@.nodes, at as int) <= u8::MAX,
            decreases self.node_counter_vec@.len() - i,
        {
            proof {
                let n = self@.nodes;
                assert(n.take(i + 1).drop_last() == n.take(i as int));
                assert(n.take(i + 1).last() == n[i as int]);
                lemma_column_prefix(n, at as int, i + 1);
                assert(n[i as int].1.len() == self@.profiles.len());
            }
            sum = sum + self.node_counter_vec[i].1[at];
            i = i + 1;
        }
        proof {
            assert(self@.nodes.take(self@.nodes.len() as int) == self@.nodes);
        }
        sum
    }

    /// The counters of each node, in order.
    pub fn get_hw_profile_counters(&self) -> (r: Vec<Vec<u8>>)
        ensures
            r@.len() == self@.nodes.len(),
            forall|i: int| 0 <= i < r@.len() ==> (#[trigger] r@[i])@ == self@.nodes[i].1,
    {
        let mut out: Vec<Vec<u8>> = Vec::new();
        let mut i: usize = 0;
        while i < self.node_counter_vec.len()
            invariant
                i <= self.node_counter_vec@.len(),
                out@.len() == i,
                forall|k: int| 0 <= k < i ==> (#[trigger] out@[k])@ == self@.nodes[k].1,
            decreases self.node_counter_vec@.len() - i,
        {
            out.push(copy_counters(&self.node_counter_vec[i].1));
            i = i + 1;
        }
        out
    }

    /// The counters that the first node `node` has so far, or zeros.
    fn counters_for(&self, node: &str) -> (r: Vec<u8>)
        ensures
            r@ == counters_of(self@, node@),
    {
        let ghost ids = Seq::new(self@.nodes.len(), |i: int| self@.nodes[i].0);
        let mut i: usize = 0;
        proof {
            assert(ids.take(0) == Seq::<Seq<char>>::empty());
        }
        while i < self.node_counter_vec.len()
            invariant
                i <= self.node_counter_vec@.len(),
                ids == Seq::new(self@.nodes.len(), |i: int| self@.nodes[i].0),
                first_equal(ids.take(i as int), node@) < 0,
            decreases self.node_counter_vec@.len() - i,
        {
            proof {
                assert(ids.take(i + 1).drop_last() == ids.take(i as int));
                assert(ids.take(i + 1).last() == self.node_counter_vec@[i as int].0@);
            }
            if same_text(self.node_counter_vec[i].0.as_str(), node) {
                proof {
                    lemma_first_equal_prefix(ids, node@, i + 1);
                }
                return copy_counters(&self.node_counter_vec[i].1);
            }
            i = i + 1;
        }
        proof {
            assert(ids.take(ids.len() as int) == ids);
        }
        let mut zeros: Vec<u8> = Vec::new();
        let mut j: usize = 0;
        while j < self.user_defined_hw_profile_vec_hw_prop_vec_sorted.len()
            invariant
                j <= self@.profiles.len(),
                zeros@.len() == j,
                forall|k: int| 0 <= k < j ==> #[trigger] zeros@[k] == 0u8,
            decreases self@.profiles.len() - j,
        {
            zeros.push(0);
            j = j + 1;
        }
        assert(zeros@ =~= counters_of(self@, node@));
        zeros
    }

    /// Enters counters for `node`: those it has so far, or zeros, with
    /// `new_counter` added at each profile that the properties match. An
    /// earlier entry of the node stays.
    fn insert_counter(
        &mut self,
        node: String,
        node_hw_property_list: &Vec<String>,
        new_counter: u8,
        exact: bool,
    )
        requires
            old(self).wf(),
            forall|i: int|
                0 <= i < raised(
                    counters_of(old(self)@, node@),
                    old(self)@.profiles,
                    texts(node_hw_property_list@),
                    new_counter,
                    exact,
                ).len() ==> #[trigger] raised(
                    counters_of(old(self)@, node@),
                    old(self)@.profiles,
                    texts(node_hw_property_list@),
                    new_counter,
                    exact,
                )[i] <= u8::MAX,
        ensures
            final(self).wf(),
            final(self)@.profiles == old(self)@.profiles,
            final(self)@.nodes.len() == old(self)@.nodes.len() + 1,
            final(self)@.nodes.drop_last() == old(self)@.nodes,
            final(self)@.nodes.last().0 == node@,
            plain(final(self)@.nodes.last().1) == raised(
                counters_of(old(self)@, node@),
                old(self)@.profiles,
                texts(node_hw_property_list@),
                new_counter,
                exact,
            ),
    {
        let mut counter: Vec<u8> = self.counters_for(node.as_str());
        let ghost start = counter@;
        let ghost want = raised(
            start,
            self@.profiles,
            texts(node_hw_property_list@),
            new_counter,
            exact,
        );
        proof {
            lemma_first_equal(Seq::new(self@.nodes.len(), |i: int| self@.nodes[i].0), node@);
            assert(start.len() == self@.profiles.len());
        }
        let mut i: usize = 0;
        while i < self.user_defined_hw_profile_vec_hw_prop_vec_sorted.len()
            invariant
                i <= self@.profiles.len(),
                self@ == old(self)@,
                counter@.len() == start.len(),
                start.len() == self@.profiles.len(),
                want == raised(
                    start,
                    self@.profiles,
                    texts(node_hw_property_list@),
                    new_counter,
                    exact,
                ),
                forall|k: int| 0 <= k < want.len() ==> #[trigger] want[k] <= u8::MAX,
                forall|k: int| 0 <= k < i ==> #[trigger] counter@[k] as int == want[k],
                forall|k: int| i <= k < counter@.len() ==> #[trigger] counter@[k] == start[k],
            decreases self@.profiles.len() - i,
        {
            let profile: &Vec<String> = &self.user_defined_hw_profile_vec_hw_prop_vec_sorted[i];
            let hit: bool = if exact {
                same_list(profile, node_hw_property_list)
            } else {
                covers_all(profile, node_hw_property_list)
            };
            proof {
                assert(self@.profiles[i as int] == texts(profile@));
                assert(want[i as int] <= u8::MAX);
            }
            if hit {
                let raised_to: u8 = counter[i] + new_counter;
                counter[i] = raised_to;
            }
            i = i + 1;
        }
        let ghost before = self@.nodes;
        self.node_counter_vec.push((node, counter));
        proof {
            assert(self@.nodes.drop_last() =~= before);
            assert(plain(self@.nodes.last().1) =~= want);
            assert forall|k: int| 0 <= k < self@.nodes.len() implies (#[trigger] self@.nodes[k]).1.len()
                == self@.profiles.len() by {
                if k < before.len() {
                    assert(self@.nodes[k] == before[k]);
                }
            }
        }
    }

    /// Whether the counters that an insertion would enter are all ones that
    /// the machine holds.
    pub fn insertion_fits(
        &self,
        node: &str,
        node_hw_property_list: &Vec<String>,
        new_counter: u8,
        exact: bool,
    ) -> (r: bool)
        requires
            self.wf(),
        ensures
            r == forall|i: int|
                0 <= i < raised(
                    counters_of(self@, node@),
                    self@.profiles,
                    texts(node_hw_property_list@),
                    new_counter,
                    exact,
                ).len() ==> #[trigger] raised(
                    counters_of(self@, node@),
                    self@.profiles,
                    texts(node_hw_property_list@),
                    new_counter,
                    exact,
                )[i] <= u8::MAX,
    {
        let counter: Vec<u8> = self.counters_for(node);
        let ghost want = raised(
            counter@,
            self@.profiles,
            texts(node_hw_property_list@),
            new_counter,
            exact,
        );
        proof {
            lemma_first_equal(Seq::new(self@.nodes.len(), |i: int| self@.nodes[i].0), node@);
            assert(counter@.len() == self@.profiles.len());
        }
        let mut i: usize = 0;
        while i < self.user_defined_hw_profile_vec_hw_prop_vec_sorted.len()
            invariant
                i <= self@.profiles.len(),
                counter@.len() == self@.profiles.len(),
                counter@ == counters_of(self@, node@),
                want == raised(
                    counter@,
                    self@.profiles,
                    texts(node_hw_property_list@),
                    new_counter,
                    exact,
                ),
                forall|k: int| 0 <= k < i ==> #[trigger] want[k] <= u8::MAX,
            decreases self@.profiles.len() - i,
        {
            let profile: &Vec<String> = &self.user_defined_hw_profile_vec_hw_prop_vec_sorted[i];
            let hit: bool = if exact {
                same_list(profile, node_hw_property_list)
            } else {
                covers_all(profile, node_hw_property_list)
            };
            proof {
                assert(self@.profiles[i as int] == texts(profile@));
            }
            if hit && counter[i] > u8::MAX - new_counter {
                assert(want[i as int] > u8::MAX);
                return false;
            }
            i = i + 1;
        }
        true
    }

    /// Whether the counters of each profile add up to a number that the
    /// machine holds in a counter.
    pub fn totals_fit(&self) -> (r: bool)
        requires
            self.wf(),
        ensures
            r == forall|at: int|
                0 <= at < self@.profiles.len() ==> #[trigger] column_total(self@.nodes, at)
                    <= u8::MAX,
    {
        let mut at: usize = 0;
        while at < self.user_defined_hw_profile_vec_hw_prop_vec_sorted.len()
            invariant
                at <= self@.profiles.len(),
                self.wf(),
                forall|k: int| 0 <= k < at ==> #[trigger] column_total(self@.nodes, k) <= u8::MAX,
            decreases self@.profiles.len() - at,
        {
            let mut sum: u8 = 0;
            let mut i: usize = 0;
            proof {
                assert(self@.nodes.take(0) == Seq::<(Seq<char>, Seq<u8>)>::empty());
            }
            while i < self.node_counter_vec.len()
                invariant
                    i <= self.node_counter_vec@.len(),
                    self.wf(),
                    at < self@.profiles.len(),
                    sum == column_total(self@.nodes.take(i as int), at as int),
                decreases self.node_counter_vec@.len() - i,
            {
                proof {
                    let n = self@.nodes;
                    assert(n.take(i + 1).drop_last() == n.take(i as int));
                    assert(n.take(i + 1).last() == n[i as int]);
                    lemma_column_prefix(n, at as int, i + 1);
                    assert(n[i as int].1.len() == self@.profiles.len());
                }
                let counter: u8 = self.node_counter_vec[i].1[at];
                if sum > u8::MAX - counter {
                    return false;
                }
                sum = sum + counter;
                i = i + 1;
            }
            proof {
                assert(self@.nodes.take(self@.nodes.len() as int) == self@.nodes);
            }
            at = at + 1;
        }
        true
    }

    /// Enters counters for `node`: those it has so far, or zeros, with
    /// `new_counter` added at each profile of which the node has all
    /// properties. An earlier entry of the node stays.
    pub fn insert_node_hw_properties_counter(
        &mut self,
        node: String,
        node_hw_property_list: Vec<String>,
        new_counter: u8,
    )
        requires
            old(self).wf(),
            forall|i: int|
                0 <= i < raised(
                    counters_of(old(self)@, node@),
                    old(self)@.profiles,
                    texts(node_hw_property_list@),
                    new_counter,
                    false,
                ).len() ==> #[trigger] raised(
                    counters_of(old(self)@, node@),
                    old(self)@.profiles,
                    texts(node_hw_property_list@),
                    new_counter,
                    false,
                )[i] <= u8::MAX,
        ensures
            final(self).wf(),
            final(self)@.profiles == old(self)@.profiles,
            final(self)@.nodes.len() == old(self)@.nodes.len() + 1,
            final(self)@.nodes.drop_last() == old(self)@.nodes,
            final(self)@.nodes.last().0 == node@,
            plain(final(self)@.nodes.last().1) == raised(
                counters_of(old(self)@, node@),
                old(self)@.profiles,
                texts(node_hw_property_list@),
                new_counter,
                false,
            ),
    {
        self.insert_counter(node, &node_hw_property_list, new_counter, false);
    }

    /// Enters counters for `node`: those it has so far, or zeros, with
    /// `new_counter` added at each profile that has just the properties of
    /// the node, in the same order. An earlier entry of the node stays.
    pub fn insert_node_hw_profile_counter(
        &mut self,
        node: String,
        node_hw_property_list: Vec<String>,
        new_counter: u8,
    )
        requires
            old(self).wf(),
            forall|i: int|
                0 <= i < raised(
                    counters_of(old(self)@, node@),
                    old(self)@.profiles,
                    texts(node_hw_property_list@),
                    new_counter,
                    true,
                ).len() ==> #[trigger] raised(
                    counters_of(old(self)@, node@),
                    old(self)@.profiles,
                    texts(node_hw_property_list@),
                    new_counter,
                    true,
                )[i] <= u8::MAX,
        ensures
            final(self).wf(),
            final(self)@.profiles == old(self)@.profiles,
            final(self)@.nodes.len() == old(self)@.nodes.len() + 1,
            final(self)@.nodes.drop_last() == old(self)@.nodes,
            final(self)@.nodes.last().0 == node@,
            plain(final(self)@.nodes.last().1) == raised(
                counters_of(old(self)@, node@),
                old(self)@.profiles,
                texts(node_hw_property_list@),
                new_counter,
                true,
            ),
    {
        self.insert_counter(node, &node_hw_property_list, new_counter, true);
    }

    /// For each profile, its properties joined by colons and the sum of
    /// its counters over all nodes.
    pub fn get_hw_profile_total_counters(&self) -> (r: Vec<(String, u16)>)
        requires
            self.wf(),
            forall|at: int|
                0 <= at < self@.profiles.len() ==> #[trigger] column_total(self@.nodes, at)
                    <= u8::MAX,
        ensures
            r@.len() == self@.profiles.len(),
            forall|at: int|
                0 <= at < r@.len() ==> (#[trigger] r@[at]).0@ == joined(self@.profiles[at])
                    && r@[at].1 == column_total(self@.nodes, at),
    {
        let mut out: Vec<(String, u16)> = Vec::new();
        let mut at: usize = 0;
        while at < self.user_defined_hw_profile_vec_hw_prop_vec_sorted.len()
            invariant
                at <= self@.profiles.len(),
                self.wf(),
                out@.len() == at,
                forall|k: int|
                    0 <= k < self@.profiles.len() ==> #[trigger] column_total(self@.nodes, k)
                        <= u8::MAX,
                forall|k: int|
                    0 <= k < at ==> (#[trigger] out@[k]).0@ == joined(self@.profiles[k])
                        && out@[k].1 == column_total(self@.nodes, k),
            decreases self@.profiles.len() - at,
        {
            proof {
                assert(column_total(self@.nodes, at as int) <= u8::MAX);
            }
            let sum: u8 = self.column_sum(at);
            let name: String = join_with_colon(
                &self.user_defined_hw_profile_vec_hw_prop_vec_sorted[at],
            );
            out.push((name, sum as u16));
            at = at + 1;
        }
        out
    }

    /// The position of the first profile whose properties, joined by
    /// colons, are `name`.
    pub fn profile_named(&self, name: &str) -> (r: Option<usize>)
        ensures
            match r {
                Some(at) => at == named_profile(self@.profiles, name@),
                None => named_profile(self@.profiles, name@) < 0,
            },
    {
        let profiles = &self.user_defined_hw_profile_vec_hw_prop_vec_sorted;
        let ghost names = Seq::new(self@.profiles.len(), |i: int| joined(self@.profiles[i]));
        let mut at: usize = 0;
        proof {
            assert(names.take(0) == Seq::<Seq<char>>::empty());
        }
        while at < profiles.len()
            invariant
                at <= profiles@.len(),
                profiles == &self.user_defined_hw_profile_vec_hw_prop_vec_sorted,
                names == Seq::new(self@.profiles.len(), |i: int| joined(self@.profiles[i])),
                first_equal(names.take(at as int), name@) < 0,
            decreases profiles@.len() - at,
        {
            proof {
                assert(names.take(at + 1).drop_last() == names.take(at as int));
                assert(names.take(at + 1).last() == joined(texts(profiles@[at as int]@)));
            }
            let joined_name: String = join_with_colon(&profiles[at]);
            if same_text(joined_name.as_str(), name) {
                proof {
                    lemma_first_equal_prefix(names, name@, at + 1);
                }
                return Some(at);
            }
            at = at + 1;
        }
        proof {
            assert(names.take(names.len() as int) == names);
        }
        None
    }

    /// The nodes whose counter at `at` is above zero, in order.
    fn nodes_matching(&self, at: usize) -> (r: Vec<String>)
        requires
            self.wf(),
            at < self@.profiles.len(),
        ensures
            texts(r@) == matching_nodes(self@.nodes, at as int),
    {
        let mut out: Vec<String> = Vec::new();
        let mut i: usize = 0;
        proof {
            assert(self@.nodes.take(0) == Seq::<(Seq<char>, Seq<u8>)>::empty());
            assert(texts(out@) =~= Seq::<Seq<char>>::empty());
        }
        while i < self.node_counter_vec.len()
            invariant
                i <= self.node_counter_vec@.len(),
                self.wf(),
                at < self@.profiles.len(),
                texts(out@) == matching_nodes(self@.nodes.take(i as int), at as int),
            decreases self.node_counter_vec@.len() - i,
        {
            proof {
                let n = self@.nodes;
                assert(n.take(i + 1).drop_last() == n.take(i as int));
                assert(n.take(i + 1).last() == n[i as int]);
                assert(n[i as int].1.len() == self@.profiles.len());
            }
            if self.node_counter_vec[i].1[at] > 0 {
                let ghost before = texts(out@);
                out.push(self.node_counter_vec[i].0.clone());
                proof {
                    assert(texts(out@) =~= before.push(self@.nodes[i as int].0));
                }
            }
            i = i + 1;
        }
        proof {
            assert(self@.nodes.take(self@.nodes.len() as int) == self@.nodes);
        }
        out
    }

    /// The first `num_candidate_nodes`, in the order of identifiers, of the
    /// nodes that match the profile whose properties, joined by colons,
    /// are `hw_profile`; none where fewer match. The nodes that match are
    /// counted up to 255 and then again from zero.
    pub fn get_candidate_nodes_with_specific_hw_profile(
        &self,
        hw_profile: &String,
        num_candidate_nodes: u8,
    ) -> (r: Vec<String>)
        requires
            self.wf(),
            named_profile(self@.profiles, hw_profile@) >= 0,
        ensures
            texts(r@) == candidates_of(
                matching_nodes(self@.nodes, named_profile(self@.profiles, hw_profile@)),
                num_candidate_nodes,
            ),
    {
        let at: usize = match self.profile_named(hw_profile.as_str()) {
            Some(at) => at,
            None => 0,
        };
        proof {
            lemma_first_equal(
                Seq::new(self@.profiles.len(), |i: int| joined(self@.profiles[i])),
                hw_profile@,
            );
        }
        let found: Vec<String> = self.nodes_matching(at);
        if ((found.len() % 256) as u8) < num_candidate_nodes {
            let none: Vec<String> = Vec::new();
            assert(texts(none@) =~= Seq::<Seq<char>>::empty());
            none
        } else {
            let sorted: Vec<String> = sort_texts(&found);
            proof {
                lemma_in_order(texts(found@));
            }
            let mut out: Vec<String> = Vec::new();
            let mut i: usize = 0;
            while i < num_candidate_nodes as usize && i < sorted.len()
                invariant
                    i <= num_candidate_nodes,
                    i <= sorted@.len(),
                    out@.len() == i,
                    forall|k: int| 0 <= k < i ==> (#[trigger] out@[k])@ == sorted@[k]@,
                decreases sorted@.len() - i,
            {
                out.push(sorted[i].clone());
                i = i + 1;
            }
            proof {
                let want = candidates_of(texts(found@), num_candidate_nodes);
                assert(texts(out@) =~= want);
            }
            out
        }
    }
}

/// The position of the first profile whose properties, joined by colons,
/// are `name`, or -1.
pub open spec fn named_profile(profiles: Seq<Seq<Seq<char>>>, name: Seq<char>) -> int {
    first_equal(Seq::new(profiles.len(), |i: int| joined(profiles[i])), name)
}

/// The first `wanted` of `found` in the order of identifiers, or all of
/// them where they are fewer; none where the number of `found`, counted
/// up to 255 and then again from zero, is below `wanted`.
pub open spec fn candidates_of(found: Seq<Seq<char>>, wanted: u8) -> Seq<Seq<char>> {
    if found.len() % 256 < wanted {
        Seq::empty()
    } else if found.len() < wanted {
        in_order(found)
    } else {
        in_order(found).take(wanted as int)
    }
}

fn copy_counters(counters: &Vec<u8>) -> (r: Vec<u8>)
    ensures
        r@ == counters@,
{
    let mut out: Vec<u8> = Vec::new();
    let mut i: usize = 0;
    while i < counters.len()
        invariant
            i <= counters@.len(),
            out@ == counters@.take(i as int),
        decreases counters@.len() - i,
    {
        out.push(counters[i]);
        proof {
            assert(counters@.take(i + 1) == counters@.take(i as int).push(counters@[i as int]));
        }
        i = i + 1;
    }
    proof {
        assert(counters@.take(counters@.len() as int) == counters@);
    }
    out
}

} // verus!

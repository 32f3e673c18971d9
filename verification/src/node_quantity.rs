//! Rebalancing by numbers of nodes: the user names hardware profiles and
//! says how many nodes of each the target is to hold.
use crate::counts::{count_of, with_entry, ComponentCounts};
use crate::fingerprint::{
    accelerator_models, hw_inventory_from_value, or_empty, processor_models, HwInventory,
};
use crate::profile::{
    candidates_of, column_total, in_order, list_contains, matching_nodes, named_profile,
    profile_views, sort_texts, HsmHwPatternSummary, Summary,
};
use crate::text::{
    contains_text, decimal_value, is_decimal, is_substring, join_with_colon, joined, lowercase,
    parse_count, texts, to_lowercase,
};
use serde_json::Value;
use vstd::prelude::*;
use vstd::string::*;

verus! {

/// A count of nodes: decimal digits that write a number up to 255.
pub open spec fn is_node_count(s: Seq<char>) -> bool {
    is_decimal(s) && decimal_value(s) <= u8::MAX
}

/// What the parts of a pattern after the group say.
pub struct ProfileRequest {
    /// The profiles, in the order in which their counts come.
    pub profiles: Seq<Seq<Seq<char>>>,
    /// For each profile, by its properties joined with colons, how many
    /// nodes are asked for; a later count replaces an earlier one.
    pub quantities: Seq<(Seq<char>, nat)>,
    /// The properties that came after the last count.
    pub open: Seq<Seq<char>>,
}

/// Reads the parts one after the other: a count closes the profile that
/// the properties before it make up; a property that the profile holds
/// already is passed over.
pub open spec fn scanned(parts: Seq<Seq<char>>) -> ProfileRequest
    decreases parts.len(),
{
    if parts.len() == 0 {
        ProfileRequest { profiles: Seq::empty(), quantities: Seq::empty(), open: Seq::empty() }
    } else {
        let before = scanned(parts.drop_last());
        let part = parts.last();
        if is_node_count(part) {
            ProfileRequest {
                profiles: before.profiles.push(before.open),
                quantities: with_entry(before.quantities, joined(before.open), decimal_value(part)),
                open: Seq::empty(),
            }
        } else if before.open.contains(part) {
            before
        } else {
            ProfileRequest { open: before.open.push(part), ..before }
        }
    }
}

fn copy_list(list: &Vec<String>) -> (r: Vec<String>)
    ensures
        texts(r@) == texts(list@),
{
    let mut out: Vec<String> = Vec::new();
    let mut i: usize = 0;
    while i < list.len()
        invariant
            i <= list@.len(),
            out@.len() == i,
            forall|k: int| 0 <= k < i ==> (#[trigger] out@[k])@ == list@[k]@,
        decreases list@.len() - i,
    {
        out.push(list[i].clone());
        i = i + 1;
    }
    assert(texts(out@) =~= texts(list@));
    out
}

/// Reads the parts of a pattern after the group: the profiles and how
/// many nodes of each are asked for. Properties after the last count are
/// left out.
pub fn parse_profiles(parts: &Vec<String>) -> (r: (Vec<Vec<String>>, ComponentCounts))
    ensures
        profile_views(r.0@) == scanned(texts(parts@)).profiles,
        r.1@ == scanned(texts(parts@)).quantities,
        r.1.wf(),
{
    let mut profiles: Vec<Vec<String>> = Vec::new();
    let mut quantities = ComponentCounts::new();
    let mut open: Vec<String> = Vec::new();
    let mut i: usize = 0;
    proof {
        assert(texts(parts@).take(0) == Seq::<Seq<char>>::empty());
        assert(profile_views(profiles@) =~= Seq::<Seq<Seq<char>>>::empty());
        assert(texts(open@) =~= Seq::<Seq<char>>::empty());
    }
    while i < parts.len()
        invariant
            i <= parts@.len(),
            quantities.wf(),
            profile_views(profiles@) == scanned(texts(parts@).take(i as int)).profiles,
            quantities@ == scanned(texts(parts@).take(i as int)).quantities,
            texts(open@) == scanned(texts(parts@).take(i as int)).open,
        decreases parts@.len() - i,
    {
        proof {
            let t = texts(parts@);
            assert(t.take(i + 1).drop_last() == t.take(i as int));
            assert(t.take(i + 1).last() == parts@[i as int]@);
        }
        let count: Option<usize> = parse_count(parts[i].as_str());
        let small: bool = match count {
            Some(n) => n <= 255,
            None => false,
        };
        if small {
            let n: usize = match count {
                Some(n) => n,
                None => 0,
            };
            let name: String = join_with_colon(&open);
            let ghost before = profile_views(profiles@);
            let ghost closed = texts(open@);
            profiles.push(open);
            quantities.insert(name, n);
            open = Vec::new();
            proof {
                assert(profile_views(profiles@) =~= before.push(closed));
                assert(texts(open@) =~= Seq::<Seq<char>>::empty());
            }
        } else if !list_contains(&open, parts[i].as_str()) {
            let ghost before = texts(open@);
            open.push(parts[i].clone());
            proof {
                assert(texts(open@) =~= before.push(parts@[i as int]@));
            }
        }
        i = i + 1;
    }
    proof {
        assert(texts(parts@).take(parts@.len() as int) == texts(parts@));
    }
    (profiles, quantities)
}

/// How many of `profiles` have at least `len` properties.
pub open spec fn length_rank(profiles: Seq<Seq<Seq<char>>>, len: nat) -> int
    decreases profiles.len(),
{
    if profiles.len() == 0 {
        0
    } else {
        length_rank(profiles.drop_last(), len) + if profiles.last().len() >= len {
            1int
        } else {
            0int
        }
    }
}

/// `profiles` with the one of most properties first; among profiles of one
/// length the order stays.
pub open spec fn by_length(profiles: Seq<Seq<Seq<char>>>) -> Seq<Seq<Seq<char>>>
    decreases profiles.len(),
{
    if profiles.len() == 0 {
        Seq::empty()
    } else {
        let before = by_length(profiles.drop_last());
        before.insert(length_rank(before, profiles.last().len()), profiles.last())
    }
}

/// No profile has more properties than one that precedes it.
pub open spec fn shortening(profiles: Seq<Seq<Seq<char>>>) -> bool {
    forall|i: int, j: int| 0 <= i < j < profiles.len() ==> profiles[i].len() >= profiles[j].len()
}

pub proof fn lemma_length_rank(profiles: Seq<Seq<Seq<char>>>, len: nat)
    requires
        shortening(profiles),
    ensures
        0 <= length_rank(profiles, len) <= profiles.len(),
        forall|i: int| 0 <= i < length_rank(profiles, len) ==> (#[trigger] profiles[i]).len() >= len,
        forall|i: int|
            length_rank(profiles, len) <= i < profiles.len() ==> (#[trigger] profiles[i]).len()
                < len,
    decreases profiles.len(),
{
    if profiles.len() > 0 {
        let front = profiles.drop_last();
        assert(shortening(front)) by {
            assert forall|i: int, j: int| 0 <= i < j < front.len() implies front[i].len()
                >= front[j].len() by {
                assert(front[i] == profiles[i] && front[j] == profiles[j]);
            }
        }
        lemma_length_rank(front, len);
        let r = length_rank(front, len);
        if profiles.last().len() >= len {
            assert forall|i: int| 0 <= i < front.len() implies (#[trigger] profiles[i]).len()
                >= len by {
                assert(profiles[i].len() >= profiles[profiles.len() - 1].len());
            }
            assert(r == front.len()) by {
                if r < front.len() {
                    assert(front[r].len() < len);
                    assert(front[r] == profiles[r]);
                }
            }
        } else {
            assert forall|i: int| 0 <= i < r implies (#[trigger] profiles[i]).len() >= len by {
                assert(front[i] == profiles[i]);
            }
            assert forall|i: int| r <= i < profiles.len() implies (#[trigger] profiles[i]).len()
                < len by {
                if i < front.len() {
                    assert(front[i] == profiles[i]);
                }
            }
        }
    }
}

/// What `by_length` gives shortens from profile to profile and holds what
/// it was given.
pub proof fn lemma_by_length(profiles: Seq<Seq<Seq<char>>>)
    ensures
        shortening(by_length(profiles)),
        by_length(profiles).len() == profiles.len(),
        by_length(profiles).to_multiset() == profiles.to_multiset(),
    decreases profiles.len(),
{
    if profiles.len() > 0 {
        let front = profiles.drop_last();
        let before = by_length(front);
        let x = profiles.last();
        lemma_by_length(front);
        lemma_length_rank(before, x.len());
        let r = length_rank(before, x.len());
        let out = before.insert(r, x);
        assert forall|i: int, j: int| 0 <= i < j < out.len() implies out[i].len()
            >= out[j].len() by {
            if j == r {
                assert(out[i] == before[i]);
            } else if i == r {
                assert(out[j] == before[j - 1]);
            } else {
                let a = if i < r {
                    i
                } else {
                    i - 1
                };
                let b = if j < r {
                    j
                } else {
                    j - 1
                };
                assert(out[i] == before[a] && out[j] == before[b]);
            }
        }
        vstd::seq_lib::to_multiset_insert(before, r, x);
        vstd::seq_lib::to_multiset_build(front, x);
        assert(profiles == front.push(x));
    } else {
        assert(by_length(profiles) =~= profiles);
    }
}

/// Puts the profile of most properties first, keeping the order among
/// profiles of one length.
pub fn sort_by_length(profiles: &Vec<Vec<String>>) -> (r: Vec<Vec<String>>)
    ensures
        profile_views(r@) == by_length(profile_views(profiles@)),
{
    let mut out: Vec<Vec<String>> = Vec::new();
    let mut i: usize = 0;
    proof {
        assert(profile_views(profiles@).take(0) == Seq::<Seq<Seq<char>>>::empty());
        assert(profile_views(out@) =~= Seq::<Seq<Seq<char>>>::empty());
    }
    while i < profiles.len()
        invariant
            i <= profiles@.len(),
            profile_views(out@) == by_length(profile_views(profiles@).take(i as int)),
        decreases profiles@.len() - i,
    {
        let ghost before = profile_views(out@);
        let len: usize = profiles[i].len();
        proof {
            let t = profile_views(profiles@);
            assert(t.take(i + 1).drop_last() == t.take(i as int));
            assert(t.take(i + 1).last() == texts(profiles@[i as int]@));
            lemma_by_length(t.take(i as int));
            lemma_length_rank(before, len as nat);
        }
        let mut at: usize = 0;
        while at < out.len() && out[at].len() >= len
            invariant
                at <= out@.len(),
                profile_views(out@) == before,
                forall|k: int| 0 <= k < at ==> (#[trigger] before[k]).len() >= len,
            decreases out@.len() - at,
        {
            assert(before[at as int].len() == out@[at as int]@.len());
            at = at + 1;
        }
        proof {
            if at < out@.len() {
                assert(before[at as int].len() == out@[at as int]@.len());
            }
            assert(length_rank(before, len as nat) == at) by {
                if length_rank(before, len as nat) < at {
                    assert(before[length_rank(before, len as nat)].len() >= len);
                } else if length_rank(before, len as nat) > at {
                    assert(before[at as int].len() >= len);
                }
            }
        }
        out.insert(at, copy_list(&profiles[i]));
        proof {
            assert(profile_views(out@) =~= before.insert(at as int, texts(profiles@[i as int]@)));
        }
        i = i + 1;
    }
    proof {
        assert(profile_views(profiles@).take(profiles@.len() as int) == profile_views(profiles@));
    }
    out
}

/// The texts of `parts`, one after the other.
pub open spec fn flat(parts: Seq<Seq<char>>) -> Seq<char>
    decreases parts.len(),
{
    if parts.len() == 0 {
        Seq::empty()
    } else {
        flat(parts.drop_last()) + parts.last()
    }
}

/// Whether every property of `profile` occurs in `text`.
pub open spec fn all_occur(profile: Seq<Seq<char>>, text: Seq<char>) -> bool {
    forall|i: int| 0 <= i < profile.len() ==> is_substring(#[trigger] profile[i], text)
}

/// The position of the first of `profiles` of which every property occurs
/// in `text`, or -1.
pub open spec fn first_profile_in(profiles: Seq<Seq<Seq<char>>>, text: Seq<char>) -> int
    decreases profiles.len(),
{
    if profiles.len() == 0 {
        -1
    } else {
        let before = first_profile_in(profiles.drop_last(), text);
        if before >= 0 {
            before
        } else if all_occur(profiles.last(), text) {
            profiles.len() - 1
        } else {
            -1
        }
    }
}

pub proof fn lemma_first_profile_prefix(profiles: Seq<Seq<Seq<char>>>, text: Seq<char>, n: int)
    requires
        0 <= n <= profiles.len(),
        first_profile_in(profiles.take(n), text) >= 0,
    ensures
        first_profile_in(profiles, text) == first_profile_in(profiles.take(n), text),
    decreases profiles.len(),
{
    if n == profiles.len() {
        assert(profiles.take(n) == profiles);
    } else {
        assert(profiles.drop_last().take(n) == profiles.take(n));
        lemma_first_profile_prefix(profiles.drop_last(), text, n);
    }
}

fn concat_all(out: &mut String, parts: &Vec<String>)
    ensures
        final(out)@ == old(out)@ + flat(texts(parts@)),
{
    let mut i: usize = 0;
    proof {
        assert(texts(parts@).take(0) == Seq::<Seq<char>>::empty());
        assert(out@ =~= old(out)@ + flat(texts(parts@).take(0)));
    }
    while i < parts.len()
        invariant
            i <= parts@.len(),
            out@ == old(out)@ + flat(texts(parts@).take(i as int)),
        decreases parts@.len() - i,
    {
        let ghost before = out@;
        out.append(parts[i].as_str());
        proof {
            let t = texts(parts@);
            assert(t.take(i + 1).drop_last() == t.take(i as int));
            assert(t.take(i + 1).last() == parts@[i as int]@);
            assert(out@ =~= old(out)@ + flat(t.take(i + 1)));
        }
        i = i + 1;
    }
    proof {
        assert(texts(parts@).take(parts@.len() as int) == texts(parts@));
    }
}

fn all_occur_in(profile: &Vec<String>, text: &str) -> (r: bool)
    ensures
        r == all_occur(texts(profile@), text@),
{
    let mut i: usize = 0;
    while i < profile.len()
        invariant
            i <= profile@.len(),
            forall|k: int| 0 <= k < i ==> is_substring(#[trigger] texts(profile@)[k], text@),
        decreases profile@.len() - i,
    {
        assert(texts(profile@)[i as int] == profile@[i as int]@);
        if !contains_text(text, profile[i].as_str()) {
            return false;
        }
        i = i + 1;
    }
    true
}

/// The profile of a node, given its hardware in lower case as one text:
/// of the profiles, the one of most properties first, the first of which
/// every property occurs in the text.
pub fn match_profile(hardware: &str, hw_property_list: &Vec<Vec<String>>) -> (r: Option<
    Vec<String>,
>)
    ensures
        match r {
            Some(profile) => {
                let at = first_profile_in(by_length(profile_views(hw_property_list@)), hardware@);
                &&& 0 <= at < hw_property_list@.len()
                &&& texts(profile@) == by_length(profile_views(hw_property_list@))[at]
            },
            None => first_profile_in(by_length(profile_views(hw_property_list@)), hardware@) < 0,
        },
{
    let sorted: Vec<Vec<String>> = sort_by_length(hw_property_list);
    proof {
        lemma_by_length(profile_views(hw_property_list@));
        assert(profile_views(sorted@).take(0) == Seq::<Seq<Seq<char>>>::empty());
    }
    let mut i: usize = 0;
    while i < sorted.len()
        invariant
            i <= sorted@.len(),
            sorted@.len() == hw_property_list@.len(),
            profile_views(sorted@) == by_length(profile_views(hw_property_list@)),
            first_profile_in(profile_views(sorted@).take(i as int), hardware@) < 0,
        decreases sorted@.len() - i,
    {
        proof {
            let p = profile_views(sorted@);
            assert(p.take(i + 1).drop_last() == p.take(i as int));
            assert(p.take(i + 1).last() == texts(sorted@[i as int]@));
        }
        if all_occur_in(&sorted[i], hardware) {
            proof {
                lemma_first_profile_prefix(profile_views(sorted@), hardware@, i + 1);
            }
            return Some(copy_list(&sorted[i]));
        }
        i = i + 1;
    }
    proof {
        assert(profile_views(sorted@).take(sorted@.len() as int) == profile_views(sorted@));
    }
    None
}

/// The profile of a node with the given processors and accelerators: their
/// models are put together to one text in lower case, and of the
/// profiles, the one of most properties first, the first is taken of
/// which every property occurs in that text.
pub fn match_node_profile(
    processors: &Vec<String>,
    accelerators: &Vec<String>,
    hw_property_list: &Vec<Vec<String>>,
) -> (r: Option<Vec<String>>)
    ensures
        match r {
            Some(profile) => {
                let at = first_profile_in(
                    by_length(profile_views(hw_property_list@)),
                    lowercase(flat(texts(processors@)) + flat(texts(accelerators@))),
                );
                &&& 0 <= at < hw_property_list@.len()
                &&& texts(profile@) == by_length(profile_views(hw_property_list@))[at]
            },
            None => first_profile_in(
                by_length(profile_views(hw_property_list@)),
                lowercase(flat(texts(processors@)) + flat(texts(accelerators@))),
            ) < 0,
        },
{
    let mut hardware: String = String::new();
    concat_all(&mut hardware, processors);
    concat_all(&mut hardware, accelerators);
    proof {
        assert(hardware@ =~= flat(texts(processors@)) + flat(texts(accelerators@)));
    }
    let lowered: String = to_lowercase(hardware.as_str());
    match_profile(lowered.as_str(), hw_property_list)
}

/// The profile of the first node of an inventory document: of the
/// profiles, the one of most properties first, the first of which every
/// property occurs in the models of the processors and accelerators of the
/// node, put together to one text in lower case.
pub fn get_node_hw_properties(
    node_hw_inventory_value: &Value,
    hw_property_list: &Vec<Vec<String>>,
) -> (r: Option<Vec<String>>)
    ensures
        match r {
            Some(profile) => {
                let at = first_profile_in(
                    by_length(profile_views(hw_property_list@)),
                    lowercase(
                        flat(or_empty(processor_models(*node_hw_inventory_value))) + flat(
                            or_empty(accelerator_models(*node_hw_inventory_value)),
                        ),
                    ),
                );
                &&& 0 <= at < hw_property_list@.len()
                &&& texts(profile@) == by_length(profile_views(hw_property_list@))[at]
            },
            None => first_profile_in(
                by_length(profile_views(hw_property_list@)),
                lowercase(
                    flat(or_empty(processor_models(*node_hw_inventory_value))) + flat(
                        or_empty(accelerator_models(*node_hw_inventory_value)),
                    ),
                ),
            ) < 0,
        },
{
    let inventory: HwInventory = hw_inventory_from_value(node_hw_inventory_value);
    match_node_profile(&inventory.processors, &inventory.accelerators, hw_property_list)
}

/// `list` without the texts that are among `dropped`.
pub open spec fn without(list: Seq<Seq<char>>, dropped: Seq<Seq<char>>) -> Seq<Seq<char>>
    decreases list.len(),
{
    if list.len() == 0 {
        Seq::empty()
    } else if dropped.contains(list.last()) {
        without(list.drop_last(), dropped)
    } else {
        without(list.drop_last(), dropped).push(list.last())
    }
}

fn retain_others(list: &Vec<String>, dropped: &Vec<String>) -> (r: Vec<String>)
    ensures
        texts(r@) == without(texts(list@), texts(dropped@)),
{
    let mut out: Vec<String> = Vec::new();
    let mut i: usize = 0;
    proof {
        assert(texts(list@).take(0) == Seq::<Seq<char>>::empty());
        assert(texts(out@) =~= Seq::<Seq<char>>::empty());
    }
    while i < list.len()
        invariant
            i <= list@.len(),
            texts(out@) == without(texts(list@).take(i as int), texts(dropped@)),
        decreases list@.len() - i,
    {
        proof {
            let t = texts(list@);
            assert(t.take(i + 1).drop_last() == t.take(i as int));
            assert(t.take(i + 1).last() == list@[i as int]@);
        }
        if !list_contains(dropped, list[i].as_str()) {
            let ghost before = texts(out@);
            out.push(list[i].clone());
            proof {
                assert(texts(out@) =~= before.push(list@[i as int]@));
            }
        }
        i = i + 1;
    }
    proof {
        assert(texts(list@).take(list@.len() as int) == texts(list@));
    }
    out
}

fn extend_with(list: &mut Vec<String>, more: &Vec<String>)
    ensures
        texts(final(list)@) == texts(old(list)@) + texts(more@),
{
    let mut i: usize = 0;
    proof {
        assert(texts(list@) =~= texts(old(list)@) + texts(more@).take(0));
    }
    while i < more.len()
        invariant
            i <= more@.len(),
            texts(list@) == texts(old(list)@) + texts(more@).take(i as int),
        decreases more@.len() - i,
    {
        let ghost before = texts(list@);
        list.push(more[i].clone());
        proof {
            assert(texts(list@) =~= before.push(more@[i as int]@));
            assert(texts(more@).take(i + 1) =~= texts(more@).take(i as int).push(more@[i as int]@));
            assert(texts(list@) =~= texts(old(list)@) + texts(more@).take(i + 1));
        }
        i = i + 1;
    }
    proof {
        assert(texts(more@).take(more@.len() as int) == texts(more@));
    }
}

/// Why the groups could not be rebalanced.
#[derive(Clone, Debug, PartialEq, Eq)]
pub enum RebalanceError {
    /// The pool holds fewer nodes of a profile than the target lacks.
    NotEnoughNodes { profile: String, available: usize, needed: usize },
}

/// The memberships of the two groups, or the profile that the pool cannot
/// supply, with the nodes that it has and those that are needed.
pub enum Rebalance {
    Done { target: Seq<Seq<char>>, parent: Seq<Seq<char>> },
    Short { profile: Seq<char>, available: nat, needed: nat },
}

/// The memberships once the first `upto` profiles have been dealt with,
/// one after the other. Where the target holds fewer nodes of a profile
/// than asked for, the missing number is taken from the pool, the first in
/// the order of identifiers; where it holds more, the excess, the first
/// in the order of identifiers, goes to the pool.
pub open spec fn rebalanced(
    quantities: Seq<(Seq<char>, nat)>,
    target: Summary,
    free: Summary,
    members: Seq<Seq<char>>,
    pool: Seq<Seq<char>>,
    upto: int,
) -> Rebalance
    decreases upto,
{
    if upto <= 0 {
        Rebalance::Done { target: members, parent: pool }
    } else {
        match rebalanced(quantities, target, free, members, pool, upto - 1) {
            Rebalance::Short { profile, available, needed } => Rebalance::Short {
                profile,
                available,
                needed,
            },
            Rebalance::Done { target: so_far, parent: left } => {
                let at = upto - 1;
                let name = joined(target.profiles[at]);
                let wanted = count_of(quantities, name);
                let held = column_total(target.nodes, at);
                if wanted > held {
                    let needed = (wanted - held) as nat;
                    let found = candidates_of(
                        matching_nodes(free.nodes, named_profile(free.profiles, name)),
                        needed as u8,
                    );
                    if found.len() < needed {
                        Rebalance::Short { profile: name, available: found.len(), needed }
                    } else {
                        Rebalance::Done { target: so_far + found, parent: without(left, found) }
                    }
                } else if wanted < held {
                    let excess = (held - wanted) as nat;
                    let found = candidates_of(
                        matching_nodes(target.nodes, named_profile(target.profiles, name)),
                        excess as u8,
                    );
                    Rebalance::Done { target: without(so_far, found), parent: left + found }
                } else {
                    Rebalance::Done { target: so_far, parent: left }
                }
            },
        }
    }
}

/// A profile that the pool cannot supply ends the rebalancing.
pub proof fn lemma_rebalanced_short(
    quantities: Seq<(Seq<char>, nat)>,
    target: Summary,
    free: Summary,
    members: Seq<Seq<char>>,
    pool: Seq<Seq<char>>,
    at: int,
    upto: int,
)
    requires
        0 <= at <= upto,
        rebalanced(quantities, target, free, members, pool, at) is Short,
    ensures
        rebalanced(quantities, target, free, members, pool, upto) == rebalanced(
            quantities,
            target,
            free,
            members,
            pool,
            at,
        ),
    decreases upto - at,
{
    if at < upto {
        lemma_rebalanced_short(quantities, target, free, members, pool, at, upto - 1);
    }
}

/// The memberships in the order of identifiers.
pub open spec fn settled_groups(outcome: Rebalance) -> Rebalance {
    match outcome {
        Rebalance::Done { target, parent } => Rebalance::Done {
            target: in_order(target),
            parent: in_order(parent),
        },
        short => short,
    }
}

/// Moves nodes between a target group and a pool until the target holds of
/// each profile the number of nodes asked for. Both summaries are about
/// the same profiles; `quantities` says for each, by its properties
/// joined with colons, how many nodes are asked for, none where it is not
/// named. Returns the members of the target and of the pool, each in the
/// order of identifiers.
pub fn rebalance_by_node_quantity(
    quantities: &ComponentCounts,
    target: &HsmHwPatternSummary,
    free: &HsmHwPatternSummary,
    target_members: Vec<String>,
    parent_members: Vec<String>,
) -> (r: Result<(Vec<String>, Vec<String>), RebalanceError>)
    requires
        target.wf(),
        free.wf(),
        free@.profiles == target@.profiles,
        forall|at: int|
            0 <= at < target@.profiles.len() ==> #[trigger] column_total(target@.nodes, at)
                <= u8::MAX,
        forall|i: int| 0 <= i < quantities@.len() ==> (#[trigger] quantities@[i]).1 <= u8::MAX,
    ensures
        match r {
            Ok(groups) => settled_groups(
                rebalanced(
                    quantities@,
                    target@,
                    free@,
                    texts(target_members@),
                    texts(parent_members@),
                    target@.profiles.len() as int,
                ),
            ) == (Rebalance::Done { target: texts(groups.0@), parent: texts(groups.1@) }),
            Err(RebalanceError::NotEnoughNodes { profile, available, needed }) => rebalanced(
                quantities@,
                target@,
                free@,
                texts(target_members@),
                texts(parent_members@),
                target@.profiles.len() as int,
            ) == (Rebalance::Short {
                profile: profile@,
                available: available as nat,
                needed: needed as nat,
            }),
        },
{
    let totals: Vec<(String, u16)> = target.get_hw_profile_total_counters();
    let mut members: Vec<String> = target_members;
    let mut pool: Vec<String> = parent_members;
    let mut at: usize = 0;
    while at < totals.len()
        invariant
            at <= totals@.len(),
            totals@.len() == target@.profiles.len(),
            target.wf(),
            free.wf(),
            free@.profiles == target@.profiles,
            forall|k: int|
                0 <= k < totals@.len() ==> (#[trigger] totals@[k]).0@ == joined(target@.profiles[k])
                    && totals@[k].1 == column_total(target@.nodes, k),
            forall|k: int|
                0 <= k < target@.profiles.len() ==> #[trigger] column_total(target@.nodes, k)
                    <= u8::MAX,
            forall|i: int| 0 <= i < quantities@.len() ==> (#[trigger] quantities@[i]).1 <= u8::MAX,
            rebalanced(
                quantities@,
                target@,
                free@,
                texts(target_members@),
                texts(parent_members@),
                at as int,
            ) == (Rebalance::Done { target: texts(members@), parent: texts(pool@) }),
        decreases totals@.len() - at,
    {
        let name: &String = &totals[at].0;
        let held: usize = totals[at].1 as usize;
        let wanted: usize = quantities.count(name.as_str());
        proof {
            assert(column_total(target@.nodes, at as int) <= u8::MAX);
            crate::profile::lemma_first_equal(
                Seq::new(target@.profiles.len(), |i: int| joined(target@.profiles[i])),
                name@,
            );
            assert(Seq::new(target@.profiles.len(), |i: int| joined(target@.profiles[i]))[at as int]
                == name@);
            crate::counts::lemma_index_of(quantities@, name@);
        }
        if wanted > held {
            let needed: usize = wanted - held;
            let found: Vec<String> = free.get_candidate_nodes_with_specific_hw_profile(
                name,
                needed as u8,
            );
            if found.len() < needed {
                proof {
                    lemma_rebalanced_short(
                        quantities@,
                        target@,
                        free@,
                        texts(target_members@),
                        texts(parent_members@),
                        at + 1,
                        target@.profiles.len() as int,
                    );
                }
                return Err(
                    RebalanceError::NotEnoughNodes {
                        profile: name.clone(),
                        available: found.len(),
                        needed,
                    },
                );
            }
            extend_with(&mut members, &found);
            pool = retain_others(&pool, &found);
        } else if wanted < held {
            let excess: u8 = (held - wanted) as u8;
            let found: Vec<String> = target.get_candidate_nodes_with_specific_hw_profile(
                name,
                excess,
            );
            members = retain_others(&members, &found);
            extend_with(&mut pool, &found);
        }
        at = at + 1;
    }
    Ok((sort_texts(&members), sort_texts(&pool)))
}

} // verus!

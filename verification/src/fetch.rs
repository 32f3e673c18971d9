//! Gathering the inventory of a group: which request to make next, with a
//! bound on the requests that are out at one time.
//!
//! The requests themselves are made elsewhere. This module decides: given
//! what has been asked and what has come back, whether to ask for another
//! node, to wait, or to stop.
use crate::counts::ComponentCounts;
use crate::fingerprint::{fingerprint, fingerprint_of, HwInventory};
use crate::inventory::{counts_wf, merged, node_views, GroupInventory, Nodes};
use crate::text::texts;
use vstd::prelude::*;

verus! {

/// The most requests that are out at one time.
pub const FETCH_CONCURRENCY: usize = 5;

/// What to do next.
#[derive(Clone, Debug)]
pub enum FetchAction {
    /// Ask for the inventory of this node.
    Request(String),
    /// Wait for a request to come back.
    Wait,
    /// All nodes have been asked for and all requests are back.
    Done,
}

/// The state of a gathering.
pub struct FetchState {
    /// The members of the group, in the order in which they are asked for.
    pub members: Seq<Seq<char>>,
    /// The components that the user named.
    pub keys: Seq<Seq<char>>,
    /// How many members have been asked for.
    pub started: nat,
    /// How many requests are out.
    pub outstanding: nat,
    /// The nodes whose inventory came back, with their fingerprints.
    pub fetched: Nodes,
    /// How many requests failed.
    pub failed: nat,
}

/// A gathering of the inventories of the members of a group.
#[derive(Debug)]
pub struct Fetcher {
    members: Vec<String>,
    keys: Vec<String>,
    started: usize,
    outstanding: usize,
    fetched: Vec<(String, ComponentCounts)>,
    failed: usize,
}

impl View for Fetcher {
    type V = FetchState;

    closed spec fn view(&self) -> FetchState {
        FetchState {
            members: texts(self.members@),
            keys: texts(self.keys@),
            started: self.started as nat,
            outstanding: self.outstanding as nat,
            fetched: node_views(self.fetched@),
            failed: self.failed as nat,
        }
    }
}

/// What holds of a gathering at all times: no more requests are out than
/// the bound allows, and every request made is out, back or failed.
pub open spec fn fetch_wf(state: FetchState) -> bool {
    &&& state.outstanding <= FETCH_CONCURRENCY
    &&& state.started <= state.members.len()
    &&& state.fetched.len() + state.failed + state.outstanding == state.started
    &&& counts_wf(state.fetched)
}

impl Fetcher {
    pub open spec fn wf(&self) -> bool {
        fetch_wf(self@)
    }

    /// A gathering for the given members, none asked for yet. The keys are
    /// the components that the user named.
    pub fn new(members: Vec<String>, keys: Vec<String>) -> (r: Self)
        ensures
            r.wf(),
            r@ == (FetchState {
                members: texts(members@),
                keys: texts(keys@),
                started: 0,
                outstanding: 0,
                fetched: Seq::empty(),
                failed: 0,
            }),
    {
        let r = Fetcher {
            members,
            keys,
            started: 0,
            outstanding: 0,
            fetched: Vec::new(),
            failed: 0,
        };
        assert(node_views(r.fetched@) =~= Seq::empty());
        r
    }

    /// How many requests are out.
    pub fn outstanding(&self) -> (r: usize)
        ensures
            r == self@.outstanding,
    {
        self.outstanding
    }

    /// What to do next: ask for the next member where fewer requests are
    /// out than the bound allows and a member is left; otherwise wait
    /// where a request is out; otherwise stop.
    pub fn next_action(&mut self) -> (r: FetchAction)
        requires
            old(self).wf(),
        ensures
            final(self).wf(),
            final(self)@.members == old(self)@.members,
            final(self)@.keys == old(self)@.keys,
            final(self)@.fetched == old(self)@.fetched,
            final(self)@.failed == old(self)@.failed,
            match r {
                FetchAction::Request(node) => {
                    &&& old(self)@.outstanding < FETCH_CONCURRENCY
                    &&& old(self)@.started < old(self)@.members.len()
                    &&& node@ == old(self)@.members[old(self)@.started as int]
                    &&& final(self)@.started == old(self)@.started + 1
                    &&& final(self)@.outstanding == old(self)@.outstanding + 1
                },
                FetchAction::Wait => {
                    &&& old(self)@.outstanding > 0
                    &&& old(self)@.outstanding == FETCH_CONCURRENCY || old(self)@.started
                        == old(self)@.members.len()
                    &&& final(self)@ == old(self)@
                },
                FetchAction::Done => {
                    &&& old(self)@.outstanding == 0
                    &&& old(self)@.started == old(self)@.members.len()
                    &&& final(self)@ == old(self)@
                },
            },
    {
        if self.outstanding < FETCH_CONCURRENCY && self.started < self.members.len() {
            let node: String = self.members[self.started].clone();
            self.started = self.started + 1;
            self.outstanding = self.outstanding + 1;
            FetchAction::Request(node)
        } else if self.outstanding > 0 {
            FetchAction::Wait
        } else {
            FetchAction::Done
        }
    }

    /// Takes note that the request for `node` is back: with the inventory
    /// of the node, whose fingerprint is kept, or without, in which case
    /// the node is left out. Returns whether a request was out.
    pub fn completed(&mut self, node: String, outcome: Option<HwInventory>) -> (r: bool)
        requires
            old(self).wf(),
        ensures
            final(self).wf(),
            r == (old(self)@.outstanding > 0),
            !r ==> final(self)@ == old(self)@,
            r ==> final(self)@ == (FetchState {
                outstanding: (old(self)@.outstanding - 1) as nat,
                fetched: match outcome {
                    Some(inventory) => old(self)@.fetched.push(
                        (
                            node@,
                            fingerprint_of(
                                texts(inventory.processors@),
                                texts(inventory.accelerators@),
                                inventory.memory@,
                                old(self)@.keys,
                            ),
                        ),
                    ),
                    None => old(self)@.fetched,
                },
                failed: match outcome {
                    Some(_) => old(self)@.failed,
                    None => old(self)@.failed + 1,
                },
                ..old(self)@
            }),
    {
        if self.outstanding == 0 {
            return false;
        }
        self.outstanding = self.outstanding - 1;
        match outcome {
            Some(inventory) => {
                let counts: ComponentCounts = fingerprint(&inventory, &self.keys);
                let ghost before = node_views(self.fetched@);
                self.fetched.push((node, counts));
                proof {
                    assert(node_views(self.fetched@) =~= before.push((node@, counts@)));
                    assert forall|i: int|
                        0 <= i < node_views(self.fetched@).len() implies crate::counts::keys_distinct(
                        (#[trigger] node_views(self.fetched@)[i]).1,
                    ) by {
                        if i < before.len() {
                            assert(node_views(self.fetched@)[i] == before[i]);
                        }
                    }
                }
            },
            None => {
                self.failed = self.failed + 1;
            },
        }
        true
    }

    /// Whether all members have been asked for and all requests are back.
    pub fn is_done(&self) -> (r: bool)
        ensures
            r == (self@.outstanding == 0 && self@.started == self@.members.len()),
    {
        self.outstanding == 0 && self.started == self.members.len()
    }

    /// The inventory of the group: the nodes whose inventory came back,
    /// sorted by identifier; of a node that came back twice the first is
    /// kept.
    pub fn inventory(&self) -> (r: GroupInventory)
        requires
            self.wf(),
        ensures
            r@ == merged(Seq::empty(), self@.fetched),
            r.wf(),
    {
        GroupInventory::from_nodes(&self.fetched)
    }
}

} // verus!

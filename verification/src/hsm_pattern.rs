//! The pattern that says what a group holds: how many processors and
//! accelerators of each model, and how much memory.
use crate::artifact::{ArtifactSummary, NodeSummary};
use crate::counts::{count_of, with_entry, ComponentCounts};
use crate::text::{chars, decimal_value, is_decimal, parse_count, push_char};
use vstd::prelude::*;
use vstd::string::*;

verus! {

/// Whether a character is white space, as the standard library has it.
pub uninterp spec fn whitespace(c: char) -> bool;

/// `char::is_whitespace`: the result depends on the character alone and is
/// what `whitespace` names.
#[verifier::external_body]
fn is_whitespace(c: char) -> (r: bool)
    ensures
        r == whitespace(c),
{
    c.is_whitespace()
}

/// `s` without its white space.
pub open spec fn stripped(s: Seq<char>) -> Seq<char>
    decreases s.len(),
{
    if s.len() == 0 {
        Seq::empty()
    } else if whitespace(s.last()) {
        stripped(s.drop_last())
    } else {
        stripped(s.drop_last()).push(s.last())
    }
}

/// What of `s` comes before its first blank; all of it where it has none.
pub open spec fn first_word(s: Seq<char>) -> Seq<char>
    decreases s.len(),
{
    if s.len() == 0 {
        Seq::empty()
    } else if first_word(s.drop_last()).len() < s.len() - 1 || s.last() == ' ' {
        first_word(s.drop_last())
    } else {
        s
    }
}

pub proof fn lemma_first_word(s: Seq<char>)
    ensures
        first_word(s).len() <= s.len(),
        first_word(s) == s.take(first_word(s).len() as int),
        forall|i: int| 0 <= i < first_word(s).len() ==> #[trigger] s[i] != ' ',
        first_word(s).len() < s.len() ==> s[first_word(s).len() as int] == ' ',
    decreases s.len(),
{
    if s.len() > 0 {
        let front = s.drop_last();
        lemma_first_word(front);
        let w = first_word(front);
        if w.len() < s.len() - 1 || s.last() == ' ' {
            assert(front.take(w.len() as int) == s.take(w.len() as int));
            assert forall|i: int| 0 <= i < w.len() implies #[trigger] s[i] != ' ' by {
                assert(front[i] == s[i]);
            }
            if w.len() < front.len() {
                assert(front[w.len() as int] == s[w.len() as int]);
            }
        } else {
            assert(s.take(s.len() as int) == s);
            assert(w == front);
            assert forall|i: int| 0 <= i < s.len() implies #[trigger] s[i] != ' ' by {
                if i < front.len() {
                    assert(front[i] == s[i]);
                }
            }
        }
    } else {
        assert(s.take(0) =~= Seq::<char>::empty());
    }
}

/// Takes the white space out of a text.
pub fn strip_whitespace(s: &str) -> (r: String)
    ensures
        r@ == stripped(s@),
{
    let text: Vec<char> = chars(s);
    let mut out: String = String::new();
    let mut i: usize = 0;
    proof {
        assert(s@.take(0) == Seq::<char>::empty());
    }
    while i < text.len()
        invariant
            i <= text@.len(),
            text@ == s@,
            out@ == stripped(s@.take(i as int)),
        decreases text@.len() - i,
    {
        proof {
            assert(s@.take(i + 1).drop_last() == s@.take(i as int));
        }
        if !is_whitespace(text[i]) {
            push_char(&mut out, text[i]);
        }
        i = i + 1;
    }
    proof {
        assert(s@.take(s@.len() as int) == s@);
    }
    out
}

/// The capacity that the description of a memory module begins with.
pub fn leading_count(info: &str) -> (r: Option<usize>)
    ensures
        r == if is_decimal(first_word(info@)) && decimal_value(first_word(info@)) <= usize::MAX {
            Some(decimal_value(first_word(info@)) as usize)
        } else {
            None
        },
{
    let text: Vec<char> = chars(info);
    let mut i: usize = 0;
    while i < text.len() && text[i] != ' '
        invariant
            i <= text@.len(),
            text@ == info@,
            forall|k: int| 0 <= k < i ==> #[trigger] info@[k] != ' ',
        decreases text@.len() - i,
    {
        i = i + 1;
    }
    proof {
        lemma_first_word(info@);
        let w = first_word(info@).len();
        if w < i {
            assert(info@[w as int] == ' ');
        } else if w > i {
            assert(info@[i as int] != ' ');
        }
        assert(first_word(info@) == info@.subrange(0, i as int));
    }
    parse_count(info.substring_char(0, i))
}

/// `counts` with `by` added under `key`; nothing where the sum is more
/// than the machine holds.
pub open spec fn bumped(counts: Option<Seq<(Seq<char>, nat)>>, key: Seq<char>, by: nat) -> Option<
    Seq<(Seq<char>, nat)>,
> {
    match counts {
        None => None,
        Some(held) => if count_of(held, key) + by <= usize::MAX {
            Some(with_entry(held, key, count_of(held, key) + by))
        } else {
            None
        },
    }
}

/// `counts` with one more of each of the models `infos`, white space taken
/// out of their names.
pub open spec fn with_models(counts: Option<Seq<(Seq<char>, nat)>>, infos: Seq<Seq<char>>) -> Option<
    Seq<(Seq<char>, nat)>,
>
    decreases infos.len(),
{
    if infos.len() == 0 {
        counts
    } else {
        bumped(with_models(counts, infos.drop_last()), stripped(infos.last()), 1)
    }
}

/// `counts` with the capacities added under `memory` that the
/// descriptions `infos` begin with; nothing where one begins with no
/// number.
pub open spec fn with_memory(counts: Option<Seq<(Seq<char>, nat)>>, infos: Seq<Seq<char>>) -> Option<
    Seq<(Seq<char>, nat)>,
>
    decreases infos.len(),
{
    if infos.len() == 0 {
        counts
    } else {
        let word = first_word(infos.last());
        if is_decimal(word) && decimal_value(word) <= usize::MAX {
            bumped(with_memory(counts, infos.drop_last()), "memory"@, decimal_value(word))
        } else {
            None
        }
    }
}

/// The descriptions of the artifacts.
pub open spec fn infos(artifacts: Seq<ArtifactSummary>) -> Seq<Seq<char>> {
    Seq::new(artifacts.len(), |i: int| artifacts[i].info@)
}

/// What the nodes hold, node by node: of each node first its processors,
/// then its accelerators, then its memory.
pub open spec fn pattern_counts(nodes: Seq<NodeSummary>) -> Option<Seq<(Seq<char>, nat)>>
    decreases nodes.len(),
{
    if nodes.len() == 0 {
        Some(Seq::empty())
    } else {
        let node = nodes.last();
        with_memory(
            with_models(
                with_models(pattern_counts(nodes.drop_last()), infos(node.processors@)),
                infos(node.node_accels@),
            ),
            infos(node.memory@),
        )
    }
}

fn bump(counts: &mut ComponentCounts, key: String, by: usize) -> (r: bool)
    requires
        old(counts).wf(),
    ensures
        final(counts).wf(),
        r ==> bumped(Some(old(counts)@), key@, by as nat) == Some(final(counts)@),
        !r ==> bumped(Some(old(counts)@), key@, by as nat) is None,
{
    let held: usize = counts.count(key.as_str());
    if held > usize::MAX - by {
        return false;
    }
    counts.insert(key, held + by);
    true
}

fn add_models(counts: &mut ComponentCounts, artifacts: &Vec<ArtifactSummary>) -> (r: bool)
    requires
        old(counts).wf(),
    ensures
        final(counts).wf(),
        r ==> with_models(Some(old(counts)@), infos(artifacts@)) == Some(final(counts)@),
        !r ==> with_models(Some(old(counts)@), infos(artifacts@)) is None,
{
    let mut i: usize = 0;
    proof {
        assert(infos(artifacts@).take(0) == Seq::<Seq<char>>::empty());
    }
    while i < artifacts.len()
        invariant
            i <= artifacts@.len(),
            counts.wf(),
            with_models(Some(old(counts)@), infos(artifacts@).take(i as int)) == Some(counts@),
        decreases artifacts@.len() - i,
    {
        proof {
            let t = infos(artifacts@);
            assert(t.take(i + 1).drop_last() == t.take(i as int));
            assert(t.take(i + 1).last() == artifacts@[i as int].info@);
        }
        if !bump(counts, strip_whitespace(artifacts[i].info.as_str()), 1) {
            proof {
                lemma_models_fail(Some(old(counts)@), infos(artifacts@), i + 1);
            }
            return false;
        }
        i = i + 1;
    }
    proof {
        assert(infos(artifacts@).take(artifacts@.len() as int) == infos(artifacts@));
    }
    true
}

fn add_memory(counts: &mut ComponentCounts, artifacts: &Vec<ArtifactSummary>) -> (r: bool)
    requires
        old(counts).wf(),
    ensures
        final(counts).wf(),
        r ==> with_memory(Some(old(counts)@), infos(artifacts@)) == Some(final(counts)@),
        !r ==> with_memory(Some(old(counts)@), infos(artifacts@)) is None,
{
    let mut i: usize = 0;
    proof {
        assert(infos(artifacts@).take(0) == Seq::<Seq<char>>::empty());
    }
    while i < artifacts.len()
        invariant
            i <= artifacts@.len(),
            counts.wf(),
            with_memory(Some(old(counts)@), infos(artifacts@).take(i as int)) == Some(counts@),
        decreases artifacts@.len() - i,
    {
        proof {
            let t = infos(artifacts@);
            assert(t.take(i + 1).drop_last() == t.take(i as int));
            assert(t.take(i + 1).last() == artifacts@[i as int].info@);
        }
        let added: bool = match leading_count(artifacts[i].info.as_str()) {
            Some(capacity) => bump(counts, "memory".to_owned(), capacity),
            None => false,
        };
        if !added {
            proof {
                lemma_memory_fail(Some(old(counts)@), infos(artifacts@), i + 1);
            }
            return false;
        }
        i = i + 1;
    }
    proof {
        assert(infos(artifacts@).take(artifacts@.len() as int) == infos(artifacts@));
    }
    true
}

proof fn lemma_models_fail(counts: Option<Seq<(Seq<char>, nat)>>, infos: Seq<Seq<char>>, n: int)
    requires
        0 <= n <= infos.len(),
        with_models(counts, infos.take(n)) is None,
    ensures
        with_models(counts, infos) is None,
    decreases infos.len(),
{
    if n == infos.len() {
        assert(infos.take(n) == infos);
    } else {
        assert(infos.drop_last().take(n) == infos.take(n));
        lemma_models_fail(counts, infos.drop_last(), n);
    }
}

proof fn lemma_memory_fail(counts: Option<Seq<(Seq<char>, nat)>>, infos: Seq<Seq<char>>, n: int)
    requires
        0 <= n <= infos.len(),
        with_memory(counts, infos.take(n)) is None,
    ensures
        with_memory(counts, infos) is None,
    decreases infos.len(),
{
    if n == infos.len() {
        assert(infos.take(n) == infos);
    } else {
        assert(infos.drop_last().take(n) == infos.take(n));
        lemma_memory_fail(counts, infos.drop_last(), n);
    }
}

proof fn lemma_none_stays(infos_a: Seq<Seq<char>>, infos_b: Seq<Seq<char>>)
    ensures
        with_models(None, infos_a) is None,
        with_memory(None, infos_b) is None,
    decreases infos_a.len() + infos_b.len(),
{
    if infos_a.len() > 0 {
        lemma_none_stays(infos_a.drop_last(), infos_b);
    } else if infos_b.len() > 0 {
        lemma_none_stays(infos_a, infos_b.drop_last());
    }
}

proof fn lemma_pattern_fail(nodes: Seq<NodeSummary>, n: int)
    requires
        0 <= n <= nodes.len(),
        pattern_counts(nodes.take(n)) is None,
    ensures
        pattern_counts(nodes) is None,
    decreases nodes.len(),
{
    if n == nodes.len() {
        assert(nodes.take(n) == nodes);
    } else {
        assert(nodes.drop_last().take(n) == nodes.take(n));
        lemma_pattern_fail(nodes.drop_last(), n);
        let node = nodes.last();
        lemma_none_stays(infos(node.processors@), infos(node.memory@));
        lemma_none_stays(infos(node.node_accels@), infos(node.memory@));
    }
}

/// Counts what the nodes of a group hold: the processors and the
/// accelerators by their models, white space taken out of the names, and
/// under `memory` the capacities of the memory modules, each the number
/// that its description begins with. Gives nothing where a description
/// of a memory module begins with no number or a count is more than the
/// machine holds.
pub fn pattern_of(nodes: &Vec<NodeSummary>) -> (r: Option<ComponentCounts>)
    ensures
        match r {
            Some(counts) => pattern_counts(nodes@) == Some(counts@) && counts.wf(),
            None => pattern_counts(nodes@) is None,
        },
{
    let mut counts = ComponentCounts::new();
    let mut i: usize = 0;
    proof {
        assert(nodes@.take(0) == Seq::<NodeSummary>::empty());
    }
    while i < nodes.len()
        invariant
            i <= nodes@.len(),
            counts.wf(),
            pattern_counts(nodes@.take(i as int)) == Some(counts@),
        decreases nodes@.len() - i,
    {
        proof {
            assert(nodes@.take(i + 1).drop_last() == nodes@.take(i as int));
            assert(nodes@.take(i + 1).last() == nodes@[i as int]);
        }
        let node: &NodeSummary = &nodes[i];
        let ghost node_infos_m = infos(node.memory@);
        if !add_models(&mut counts, &node.processors) {
            proof {
                lemma_none_stays(infos(node.node_accels@), node_infos_m);
                lemma_pattern_fail(nodes@, i + 1);
            }
            return None;
        }
        if !add_models(&mut counts, &node.node_accels) {
            proof {
                lemma_none_stays(infos(node.node_accels@), node_infos_m);
                lemma_pattern_fail(nodes@, i + 1);
            }
            return None;
        }
        if !add_memory(&mut counts, &node.memory) {
            proof {
                lemma_pattern_fail(nodes@, i + 1);
            }
            return None;
        }
        i = i + 1;
    }
    proof {
        assert(nodes@.take(nodes@.len() as int) == nodes@);
    }
    Some(counts)
}

} // verus!

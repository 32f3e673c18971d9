//! Fingerprints: the counters of one node, from the models of its
//! processors and accelerators and the capacities of its memory.
use crate::counts::{count_of, lemma_with_entry, lookup, with_entry, ComponentCounts};
use crate::json::{counts_in, counts_of, texts_in, texts_of};
use crate::text::{contains_text, is_substring, lowercase, texts, to_lowercase};
use serde_json::Value;
use vstd::prelude::*;
use vstd::string::*;

verus! {

/// The capacity that counts as one unit of memory.
pub const MEMORY_QUANTUM: u64 = 16384;

/// What the hardware inventory of one node says of its processors, its
/// accelerators and its memory.
#[derive(Clone, Debug)]
pub struct HwInventory {
    /// The model of each processor.
    pub processors: Vec<String>,
    /// The model of each accelerator.
    pub accelerators: Vec<String>,
    /// The capacity of each memory module.
    pub memory: Vec<u64>,
}

/// The position of the first of `keys` that occurs in `model`, or -1.
pub open spec fn first_match(keys: Seq<Seq<char>>, model: Seq<char>) -> int
    decreases keys.len(),
{
    if keys.len() == 0 {
        -1
    } else {
        let before = first_match(keys.drop_last(), model);
        if before >= 0 {
            before
        } else if is_substring(keys.last(), model) {
            keys.len() - 1
        } else {
            -1
        }
    }
}

/// The component under which a model is counted: the first of `keys` that
/// occurs in it, or the model itself.
pub open spec fn label_of(model: Seq<char>, keys: Seq<Seq<char>>) -> Seq<char> {
    if 0 <= first_match(keys, model) < keys.len() {
        keys[first_match(keys, model)]
    } else {
        model
    }
}

/// The component of each model, the model taken in lower case.
pub open spec fn labels(models: Seq<Seq<char>>, keys: Seq<Seq<char>>) -> Seq<Seq<char>> {
    Seq::new(models.len(), |i: int| label_of(lowercase(models[i]), keys))
}

/// How often each text occurs, in the order of first occurrence.
pub open spec fn tallied(items: Seq<Seq<char>>) -> Seq<(Seq<char>, nat)>
    decreases items.len(),
{
    if items.len() == 0 {
        Seq::empty()
    } else {
        let before = tallied(items.drop_last());
        with_entry(before, items.last(), count_of(before, items.last()) + 1)
    }
}

/// The sum of the capacities.
pub open spec fn memory_total(capacities: Seq<u64>) -> nat
    decreases capacities.len(),
{
    if capacities.len() == 0 {
        0
    } else {
        memory_total(capacities.drop_last()) + capacities.last() as nat
    }
}

/// The units of memory: the sum of the capacities in whole quanta, and
/// zero where the machine does not hold that number.
pub open spec fn memory_units(capacities: Seq<u64>) -> nat {
    if memory_total(capacities) / (MEMORY_QUANTUM as nat) <= usize::MAX {
        memory_total(capacities) / (MEMORY_QUANTUM as nat)
    } else {
        0
    }
}

/// The fingerprint of a node.
pub open spec fn fingerprint_of(
    processors: Seq<Seq<char>>,
    accelerators: Seq<Seq<char>>,
    memory: Seq<u64>,
    keys: Seq<Seq<char>>,
) -> Seq<(Seq<char>, nat)> {
    with_entry(tallied(labels(processors + accelerators, keys)), "memory"@, memory_units(memory))
}

pub proof fn lemma_first_match_prefix(keys: Seq<Seq<char>>, model: Seq<char>, n: int)
    requires
        0 <= n <= keys.len(),
        first_match(keys.take(n), model) >= 0,
    ensures
        first_match(keys, model) == first_match(keys.take(n), model),
        first_match(keys, model) < n,
    decreases keys.len(),
{
    if n == keys.len() {
        assert(keys.take(n) == keys);
        lemma_first_match_bound(keys, model);
    } else {
        assert(keys.drop_last().take(n) == keys.take(n));
        lemma_first_match_prefix(keys.drop_last(), model, n);
    }
}

pub proof fn lemma_first_match_bound(keys: Seq<Seq<char>>, model: Seq<char>)
    ensures
        -1 <= first_match(keys, model) < keys.len(),
    decreases keys.len(),
{
    if keys.len() > 0 {
        lemma_first_match_bound(keys.drop_last(), model);
    }
}

/// The component under which a model, given in lower case, is counted.
pub fn label(model: &str, keys: &Vec<String>) -> (r: String)
    ensures
        r@ == label_of(model@, texts(keys@)),
{
    let mut i: usize = 0;
    proof {
        assert(texts(keys@).take(0) == Seq::<Seq<char>>::empty());
    }
    while i < keys.len()
        invariant
            i <= keys@.len(),
            first_match(texts(keys@).take(i as int), model@) < 0,
        decreases keys@.len() - i,
    {
        proof {
            let t = texts(keys@);
            assert(t.take(i + 1).drop_last() == t.take(i as int));
            assert(t.take(i + 1).last() == keys@[i as int]@);
        }
        if contains_text(model, keys[i].as_str()) {
            proof {
                lemma_first_match_prefix(texts(keys@), model@, i + 1);
            }
            return keys[i].clone();
        }
        i = i + 1;
    }
    proof {
        assert(texts(keys@).take(keys@.len() as int) == texts(keys@));
    }
    model.to_owned()
}

/// Appends to `out` the component of each of `models`.
fn label_all(models: &Vec<String>, keys: &Vec<String>, out: &mut Vec<String>)
    ensures
        texts(final(out)@) == texts(old(out)@) + labels(texts(models@), texts(keys@)),
{
    let mut i: usize = 0;
    proof {
        assert(texts(out@) =~= texts(old(out)@) + labels(texts(models@), texts(keys@)).take(0));
    }
    while i < models.len()
        invariant
            i <= models@.len(),
            texts(out@) == texts(old(out)@) + labels(texts(models@), texts(keys@)).take(i as int),
        decreases models@.len() - i,
    {
        let lowered: String = to_lowercase(models[i].as_str());
        let ghost before = texts(out@);
        let found: String = label(lowered.as_str(), keys);
        out.push(found);
        proof {
            let all = labels(texts(models@), texts(keys@));
            assert(texts(out@) =~= before.push(all[i as int]));
            assert(all.take(i + 1) =~= all.take(i as int).push(all[i as int]));
            assert(texts(out@) =~= texts(old(out)@) + all.take(i + 1));
        }
        i = i + 1;
    }
    proof {
        let all = labels(texts(models@), texts(keys@));
        assert(all.take(models@.len() as int) == all);
    }
}

/// The components of the processors and accelerators of a node, one for
/// each of them, and the capacities of its memory. A model counts under
/// the first of `keys` that occurs in it, taken in lower case, and under
/// its own name in lower case where none does.
pub fn classify_components(inventory: &HwInventory, keys: &Vec<String>) -> (r: (
    Vec<String>,
    Vec<u64>,
))
    ensures
        texts(r.0@) == labels(
            texts(inventory.processors@) + texts(inventory.accelerators@),
            texts(keys@),
        ),
        r.1@ == inventory.memory@,
{
    let mut found: Vec<String> = Vec::new();
    label_all(&inventory.processors, keys, &mut found);
    label_all(&inventory.accelerators, keys, &mut found);
    let mut memory: Vec<u64> = Vec::new();
    let mut i: usize = 0;
    while i < inventory.memory.len()
        invariant
            i <= inventory.memory@.len(),
            memory@ == inventory.memory@.take(i as int),
        decreases inventory.memory@.len() - i,
    {
        memory.push(inventory.memory[i]);
        proof {
            assert(inventory.memory@.take(i + 1) == inventory.memory@.take(i as int).push(
                inventory.memory@[i as int],
            ));
        }
        i = i + 1;
    }
    proof {
        assert(inventory.memory@.take(inventory.memory@.len() as int) == inventory.memory@);
        let p = texts(inventory.processors@);
        let a = texts(inventory.accelerators@);
        let k = texts(keys@);
        assert(texts(found@) =~= labels(p, k) + labels(a, k));
        assert(labels(p, k) + labels(a, k) =~= labels(p + a, k));
    }
    (found, memory)
}

pub proof fn lemma_tallied_bound(items: Seq<Seq<char>>, key: Seq<char>)
    ensures
        count_of(tallied(items), key) <= items.len(),
    decreases items.len(),
{
    if items.len() > 0 {
        let before = tallied(items.drop_last());
        lemma_tallied_bound(items.drop_last(), key);
        lemma_tallied_bound(items.drop_last(), items.last());
        lemma_with_entry(before, items.last(), count_of(before, items.last()) + 1);
        if key != items.last() {
            assert(lookup(tallied(items), key) == lookup(before, key));
        }
    }
}

/// Counts how often each text occurs.
pub fn tally(items: &Vec<String>) -> (r: ComponentCounts)
    ensures
        r@ == tallied(texts(items@)),
        r.wf(),
{
    let mut out = ComponentCounts::new();
    let mut i: usize = 0;
    proof {
        assert(texts(items@).take(0) == Seq::<Seq<char>>::empty());
    }
    while i < items.len()
        invariant
            i <= items@.len(),
            out.wf(),
            out@ == tallied(texts(items@).take(i as int)),
        decreases items@.len() - i,
    {
        proof {
            let t = texts(items@);
            assert(t.take(i + 1).drop_last() == t.take(i as int));
            assert(t.take(i + 1).last() == items@[i as int]@);
            lemma_tallied_bound(t.take(i as int), items@[i as int]@);
        }
        let seen: usize = out.count(items[i].as_str());
        out.insert(items[i].clone(), seen + 1);
        i = i + 1;
    }
    proof {
        assert(texts(items@).take(items@.len() as int) == texts(items@));
    }
    out
}

/// The units of memory that the capacities add up to.
pub fn memory_bucket(capacities: &Vec<u64>) -> (r: usize)
    ensures
        r == memory_units(capacities@),
{
    let mut sum: u128 = 0;
    let mut i: usize = 0;
    proof {
        assert(capacities@.take(0) == Seq::<u64>::empty());
    }
    while i < capacities.len()
        invariant
            i <= capacities@.len(),
            sum == memory_total(capacities@.take(i as int)),
            sum <= i * u64::MAX,
        decreases capacities@.len() - i,
    {
        proof {
            assert(capacities@.take(i + 1).drop_last() == capacities@.take(i as int));
            assert((i + 1) * u64::MAX == i * u64::MAX + u64::MAX) by (nonlinear_arith);
            assert((i + 1) * u64::MAX <= u128::MAX) by (nonlinear_arith)
                requires
                    i + 1 <= 0xffff_ffff_ffff_ffff,
            ;
        }
        sum = sum + capacities[i] as u128;
        i = i + 1;
    }
    proof {
        assert(capacities@.take(capacities@.len() as int) == capacities@);
    }
    let units: u128 = sum / (MEMORY_QUANTUM as u128);
    if units <= usize::MAX as u128 {
        units as usize
    } else {
        0
    }
}

/// The fingerprint of a node: how many of its processors and accelerators
/// count under each component, and under `memory` the units of its
/// memory. A node of which nothing is known has the fingerprint
/// `memory: 0`.
pub fn fingerprint(inventory: &HwInventory, keys: &Vec<String>) -> (r: ComponentCounts)
    ensures
        r@ == fingerprint_of(
            texts(inventory.processors@),
            texts(inventory.accelerators@),
            inventory.memory@,
            texts(keys@),
        ),
        r.wf(),
{
    let found: (Vec<String>, Vec<u64>) = classify_components(inventory, keys);
    let mut out: ComponentCounts = tally(&found.0);
    out.insert("memory".to_owned(), memory_bucket(&found.1));
    out
}

/// The smallest of the numbers above zero; the greatest number there is
/// where none is above zero.
pub open spec fn least_positive(numbers: Seq<u64>) -> u64
    decreases numbers.len(),
{
    if numbers.len() == 0 {
        u64::MAX
    } else {
        let before = least_positive(numbers.drop_last());
        if 0 < numbers.last() < before {
            numbers.last()
        } else {
            before
        }
    }
}

/// The unit is above zero, no capacity above zero is below it, and it is
/// one of the capacities unless none is above zero.
pub proof fn lemma_least_positive(numbers: Seq<u64>)
    ensures
        forall|i: int|
            0 <= i < numbers.len() && (#[trigger] numbers[i]) > 0 ==> least_positive(numbers)
                <= numbers[i],
        least_positive(numbers) == u64::MAX || numbers.contains(least_positive(numbers)),
        least_positive(numbers) > 0,
    decreases numbers.len(),
{
    if numbers.len() > 0 {
        let front = numbers.drop_last();
        lemma_least_positive(front);
        assert forall|i: int| 0 <= i < numbers.len() && (#[trigger] numbers[i])
            > 0 implies least_positive(numbers) <= numbers[i] by {
            if i < front.len() {
                assert(front[i] == numbers[i]);
            }
        }
        if least_positive(numbers) == numbers.last() {
            assert(numbers[numbers.len() - 1] == numbers.last());
        } else if front.contains(least_positive(front)) {
            let i = choose|i: int| 0 <= i < front.len() && front[i] == least_positive(front);
            assert(numbers[i] == least_positive(front));
        }
    }
}

/// The unit in which capacities are counted: each capacity is its own
/// greatest factor, and the unit is the smallest of these.
pub fn calculate_lcm(numbers: &Vec<u64>) -> (r: u64)
    ensures
        r == least_positive(numbers@),
{
    let mut lcm: u64 = u64::MAX;
    let mut i: usize = 0;
    proof {
        assert(numbers@.take(0) == Seq::<u64>::empty());
    }
    while i < numbers.len()
        invariant
            i <= numbers@.len(),
            lcm == least_positive(numbers@.take(i as int)),
        decreases numbers@.len() - i,
    {
        proof {
            assert(numbers@.take(i + 1).drop_last() == numbers@.take(i as int));
        }
        let number: u64 = numbers[i];
        if number > 0 && number < lcm {
            lcm = number;
        }
        i = i + 1;
    }
    proof {
        assert(numbers@.take(numbers@.len() as int) == numbers@);
    }
    lcm
}

/// The models of the processors that an inventory document lists.
pub open spec fn processor_models(document: Value) -> Option<Seq<Seq<char>>> {
    texts_of(document, "/Nodes/0/Processors"@, "/PopulatedFRU/ProcessorFRUInfo/Model"@)
}

/// The models of the accelerators that an inventory document lists.
pub open spec fn accelerator_models(document: Value) -> Option<Seq<Seq<char>>> {
    texts_of(document, "/Nodes/0/NodeAccels"@, "/PopulatedFRU/NodeAccelFRUInfo/Model"@)
}

/// The capacities of the memory modules that an inventory document lists.
pub open spec fn memory_capacities(document: Value) -> Option<Seq<u64>> {
    counts_of(document, "/Nodes/0/Memory"@, "/PopulatedFRU/MemoryFRUInfo/CapacityMiB"@)
}

/// A list, or none where there is nothing.
pub open spec fn or_empty<T>(list: Option<Seq<T>>) -> Seq<T> {
    match list {
        Some(items) => items,
        None => Seq::empty(),
    }
}

/// The models of the processors of the first node of an inventory
/// document; nothing where the document lists no processors there or a
/// processor without a model.
pub fn get_list_processor_model_from_hw_inventory_value(hw_inventory: &Value) -> (r: Option<
    Vec<String>,
>)
    ensures
        match r {
            Some(found) => processor_models(*hw_inventory) == Some(texts(found@)),
            None => processor_models(*hw_inventory) is None,
        },
{
    texts_in(hw_inventory, "/Nodes/0/Processors", "/PopulatedFRU/ProcessorFRUInfo/Model")
}

/// The models of the accelerators of the first node of an inventory
/// document; nothing where the document lists no accelerators there or an
/// accelerator without a model.
pub fn get_list_accelerator_model_from_hw_inventory_value(hw_inventory: &Value) -> (r: Option<
    Vec<String>,
>)
    ensures
        match r {
            Some(found) => accelerator_models(*hw_inventory) == Some(texts(found@)),
            None => accelerator_models(*hw_inventory) is None,
        },
{
    texts_in(hw_inventory, "/Nodes/0/NodeAccels", "/PopulatedFRU/NodeAccelFRUInfo/Model")
}

/// The capacities of the memory modules of the first node of an inventory
/// document; nothing where the document lists no memory there or a module
/// without a capacity.
pub fn get_list_memory_capacity_from_hw_inventory_value(hw_inventory: &Value) -> (r: Option<
    Vec<u64>,
>)
    ensures
        match r {
            Some(found) => memory_capacities(*hw_inventory) == Some(found@),
            None => memory_capacities(*hw_inventory) is None,
        },
{
    counts_in(hw_inventory, "/Nodes/0/Memory", "/PopulatedFRU/MemoryFRUInfo/CapacityMiB")
}

/// What an inventory document says of the first node that it lists. A list
/// that the document does not hold is taken as empty.
pub fn hw_inventory_from_value(hw_inventory: &Value) -> (r: HwInventory)
    ensures
        texts(r.processors@) == or_empty(processor_models(*hw_inventory)),
        texts(r.accelerators@) == or_empty(accelerator_models(*hw_inventory)),
        r.memory@ == or_empty(memory_capacities(*hw_inventory)),
{
    let processors: Vec<String> = match get_list_processor_model_from_hw_inventory_value(
        hw_inventory,
    ) {
        Some(found) => found,
        None => Vec::new(),
    };
    let accelerators: Vec<String> = match get_list_accelerator_model_from_hw_inventory_value(
        hw_inventory,
    ) {
        Some(found) => found,
        None => Vec::new(),
    };
    let memory: Vec<u64> = match get_list_memory_capacity_from_hw_inventory_value(hw_inventory) {
        Some(found) => found,
        None => Vec::new(),
    };
    proof {
        if processor_models(*hw_inventory) is None {
            assert(texts(processors@) =~= Seq::<Seq<char>>::empty());
        }
        if accelerator_models(*hw_inventory) is None {
            assert(texts(accelerators@) =~= Seq::<Seq<char>>::empty());
        }
    }
    HwInventory { processors, accelerators, memory }
}

/// The components of the processors and accelerators of the first node of
/// an inventory document, one for each of them, and the capacities of its
/// memory. A model counts under the first of the patterns that occurs in
/// it, taken in lower case, and under its own name in lower case where
/// none does.
pub fn get_node_hw_properties_from_value(
    node_hw_inventory_value: &Value,
    hw_component_pattern_list: &Vec<String>,
) -> (r: (Vec<String>, Vec<u64>))
    ensures
        texts(r.0@) == labels(
            or_empty(processor_models(*node_hw_inventory_value)) + or_empty(
                accelerator_models(*node_hw_inventory_value),
            ),
            texts(hw_component_pattern_list@),
        ),
        r.1@ == or_empty(memory_capacities(*node_hw_inventory_value)),
{
    let inventory: HwInventory = hw_inventory_from_value(node_hw_inventory_value);
    classify_components(&inventory, hw_component_pattern_list)
}

} // verus!

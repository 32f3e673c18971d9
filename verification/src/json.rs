//! Inventory documents: the lists of texts and of numbers that a JSON
//! document holds.
use crate::text::{decimal_text, digits_of, texts};
use serde_json::Value;
use vstd::prelude::*;
use vstd::string::*;

verus! {

/// `serde_json::Value`: a JSON document. The proofs see nothing of what is
/// inside it; what they know of a document they know through
/// `json_entries`.
#[verifier::external_type_specification]
#[verifier::external_body]
pub struct ExValue(Value);

/// What a document holds at one place: a text, a whole number that is not
/// negative, a list of so many items, or something else.
pub enum JsonEntry {
    Text(Seq<char>),
    Count(u64),
    List(nat),
    Other,
}

/// What was found in a document at one place.
#[derive(Clone, Debug)]
pub enum Found {
    Text(String),
    Count(u64),
    List(usize),
    Other,
}

impl View for Found {
    type V = JsonEntry;

    open spec fn view(&self) -> JsonEntry {
        match self {
            Found::Text(text) => JsonEntry::Text(text@),
            Found::Count(number) => JsonEntry::Count(*number),
            Found::List(len) => JsonEntry::List(*len as nat),
            Found::Other => JsonEntry::Other,
        }
    }
}

/// What a document holds, each value under the JSON pointer that leads to
/// it.
pub uninterp spec fn json_entries(document: Value) -> Map<Seq<char>, JsonEntry>;

/// What the document holds at `pointer`, if anything.
pub open spec fn entry_at(document: Value, pointer: Seq<char>) -> Option<JsonEntry> {
    if json_entries(document).dom().contains(pointer) {
        Some(json_entries(document)[pointer])
    } else {
        None
    }
}

/// `Value::pointer`: the value to which the pointer leads, and nothing
/// where it leads nowhere. Of the value a text is handed out as it is, of
/// a number what `Value::as_u64` gives, of a list its length; every other
/// value counts as something else.
#[verifier::external_body]
fn find(document: &Value, pointer: &str) -> (r: Option<Found>)
    ensures
        match r {
            Some(found) => json_entries(*document).dom().contains(pointer@) && json_entries(
                *document,
            )[pointer@] == found@,
            None => !json_entries(*document).dom().contains(pointer@),
        },
{
    match document.pointer(pointer) {
        None => None,
        Some(Value::String(text)) => Some(Found::Text(text.clone())),
        Some(Value::Array(items)) => Some(Found::List(items.len())),
        Some(number @ Value::Number(_)) => match number.as_u64() {
            Some(count) => Some(Found::Count(count)),
            None => Some(Found::Other),
        },
        Some(_) => Some(Found::Other),
    }
}

/// The pointer to a field of the item at `index` of a list.
pub open spec fn item_pointer(list: Seq<char>, index: nat, field: Seq<char>) -> Seq<char> {
    list + "/"@ + digits_of(index) + field
}

/// The texts that the first `upto` items of a list hold in a field;
/// nothing where one of them holds no text there.
pub open spec fn texts_upto(document: Value, list: Seq<char>, field: Seq<char>, upto: nat) -> Option<
    Seq<Seq<char>>,
>
    decreases upto,
{
    if upto == 0 {
        Some(Seq::empty())
    } else {
        match (
            texts_upto(document, list, field, (upto - 1) as nat),
            entry_at(document, item_pointer(list, (upto - 1) as nat, field)),
        ) {
            (Some(before), Some(JsonEntry::Text(text))) => Some(before.push(text)),
            _ => None,
        }
    }
}

/// The numbers that the first `upto` items of a list hold in a field;
/// nothing where one of them holds no such number there.
pub open spec fn counts_upto(document: Value, list: Seq<char>, field: Seq<char>, upto: nat) -> Option<
    Seq<u64>,
>
    decreases upto,
{
    if upto == 0 {
        Some(Seq::empty())
    } else {
        match (
            counts_upto(document, list, field, (upto - 1) as nat),
            entry_at(document, item_pointer(list, (upto - 1) as nat, field)),
        ) {
            (Some(before), Some(JsonEntry::Count(number))) => Some(before.push(number)),
            _ => None,
        }
    }
}

/// The texts that the items of the list at `list` hold in `field`;
/// nothing where the document holds no list there or an item holds no
/// text in the field.
pub open spec fn texts_of(document: Value, list: Seq<char>, field: Seq<char>) -> Option<
    Seq<Seq<char>>,
> {
    match entry_at(document, list) {
        Some(JsonEntry::List(len)) => texts_upto(document, list, field, len),
        _ => None,
    }
}

/// The numbers that the items of the list at `list` hold in `field`;
/// nothing where the document holds no list there or an item holds no
/// whole number in the field that is not negative.
pub open spec fn counts_of(document: Value, list: Seq<char>, field: Seq<char>) -> Option<Seq<u64>> {
    match entry_at(document, list) {
        Some(JsonEntry::List(len)) => counts_upto(document, list, field, len),
        _ => None,
    }
}

proof fn lemma_texts_fail(document: Value, list: Seq<char>, field: Seq<char>, at: nat, upto: nat)
    requires
        at <= upto,
        texts_upto(document, list, field, at) is None,
    ensures
        texts_upto(document, list, field, upto) is None,
    decreases upto,
{
    if at < upto {
        lemma_texts_fail(document, list, field, at, (upto - 1) as nat);
    }
}

proof fn lemma_counts_fail(document: Value, list: Seq<char>, field: Seq<char>, at: nat, upto: nat)
    requires
        at <= upto,
        counts_upto(document, list, field, at) is None,
    ensures
        counts_upto(document, list, field, upto) is None,
    decreases upto,
{
    if at < upto {
        lemma_counts_fail(document, list, field, at, (upto - 1) as nat);
    }
}

fn pointer_to(list: &str, index: usize, field: &str) -> (r: String)
    ensures
        r@ == item_pointer(list@, index as nat, field@),
{
    let mut out: String = list.to_owned();
    out.append("/");
    let digits: String = decimal_text(index as u64);
    out.append(digits.as_str());
    out.append(field);
    out
}

/// Reads the texts that the items of a list hold in a field.
pub fn texts_in(document: &Value, list: &str, field: &str) -> (r: Option<Vec<String>>)
    ensures
        match r {
            Some(found) => texts_of(*document, list@, field@) == Some(texts(found@)),
            None => texts_of(*document, list@, field@) is None,
        },
{
    let len: usize = match find(document, list) {
        Some(Found::List(len)) => len,
        _ => {
            return None;
        },
    };
    let mut out: Vec<String> = Vec::new();
    let mut i: usize = 0;
    proof {
        assert(texts(out@) =~= Seq::<Seq<char>>::empty());
    }
    while i < len
        invariant
            i <= len,
            entry_at(*document, list@) == Some(JsonEntry::List(len as nat)),
            texts_upto(*document, list@, field@, i as nat) == Some(texts(out@)),
        decreases len - i,
    {
        let pointer: String = pointer_to(list, i, field);
        match find(document, pointer.as_str()) {
            Some(Found::Text(text)) => {
                let ghost before = texts(out@);
                out.push(text);
                proof {
                    assert(texts(out@) =~= before.push(text@));
                }
            },
            _ => {
                proof {
                    assert(texts_upto(*document, list@, field@, (i + 1) as nat) is None);
                    lemma_texts_fail(*document, list@, field@, (i + 1) as nat, len as nat);
                }
                return None;
            },
        }
        i = i + 1;
    }
    Some(out)
}

/// Reads the numbers that the items of a list hold in a field.
pub fn counts_in(document: &Value, list: &str, field: &str) -> (r: Option<Vec<u64>>)
    ensures
        match r {
            Some(found) => counts_of(*document, list@, field@) == Some(found@),
            None => counts_of(*document, list@, field@) is None,
        },
{
    let len: usize = match find(document, list) {
        Some(Found::List(len)) => len,
        _ => {
            return None;
        },
    };
    let mut out: Vec<u64> = Vec::new();
    let mut i: usize = 0;
    while i < len
        invariant
            i <= len,
            entry_at(*document, list@) == Some(JsonEntry::List(len as nat)),
            counts_upto(*document, list@, field@, i as nat) == Some(out@),
        decreases len - i,
    {
        let pointer: String = pointer_to(list, i, field);
        match find(document, pointer.as_str()) {
            Some(Found::Count(number)) => {
                out.push(number);
            },
            _ => {
                proof {
                    assert(counts_upto(*document, list@, field@, (i + 1) as nat) is None);
                    lemma_counts_fail(*document, list@, field@, (i + 1) as nat, len as nat);
                }
                return None;
            },
        }
        i = i + 1;
    }
    Some(out)
}

/// The text that the document holds at `pointer`.
pub fn text_at(document: &Value, pointer: &str) -> (r: Option<String>)
    ensures
        match r {
            Some(text) => entry_at(*document, pointer@) == Some(JsonEntry::Text(text@)),
            None => !(entry_at(*document, pointer@) matches Some(JsonEntry::Text(_))),
        },
{
    match find(document, pointer) {
        Some(Found::Text(text)) => Some(text),
        _ => None,
    }
}

/// The whole number that the document holds at `pointer`.
pub fn count_at(document: &Value, pointer: &str) -> (r: Option<u64>)
    ensures
        match r {
            Some(number) => entry_at(*document, pointer@) == Some(JsonEntry::Count(number)),
            None => !(entry_at(*document, pointer@) matches Some(JsonEntry::Count(_))),
        },
{
    match find(document, pointer) {
        Some(Found::Count(number)) => Some(number),
        _ => None,
    }
}

/// The length of the list that the document holds at `pointer`.
pub fn len_at(document: &Value, pointer: &str) -> (r: Option<usize>)
    ensures
        match r {
            Some(len) => entry_at(*document, pointer@) == Some(JsonEntry::List(len as nat)),
            None => !(entry_at(*document, pointer@) matches Some(JsonEntry::List(_))),
        },
{
    match find(document, pointer) {
        Some(Found::List(len)) => Some(len),
        _ => None,
    }
}

/// The pointer to a field of the item at `index` of a list.
pub fn item_pointer_text(list: &str, index: usize, field: &str) -> (r: String)
    ensures
        r@ == item_pointer(list@, index as nat, field@),
{
    pointer_to(list, index, field)
}

} // verus!

//! The request pattern: `<group>(:<component>:<count>)*`.
use crate::counts::{has_key, keys_distinct, ComponentCounts};
use crate::planner::PlanError;
use crate::text::{
    chars, decimal_value, is_decimal, is_digit, lowercase, parse_count, texts, to_lowercase,
};
use vstd::prelude::*;
use vstd::string::*;

verus! {

/// The parts of `s` between its colons; one part more than there are
/// colons.
pub open spec fn split(s: Seq<char>) -> Seq<Seq<char>>
    decreases s.len(),
{
    if s.len() == 0 {
        seq![Seq::empty()]
    } else {
        let before = split(s.drop_last());
        if s.last() == ':' {
            before.push(Seq::empty())
        } else {
            before.update(before.len() - 1, before.last().push(s.last()))
        }
    }
}

pub proof fn lemma_split_nonempty(s: Seq<char>)
    ensures
        split(s).len() >= 1,
    decreases s.len(),
{
    if s.len() > 0 {
        lemma_split_nonempty(s.drop_last());
    }
}

/// A component key: lower-case letters and digits, at least one of them a
/// letter.
pub open spec fn is_component_key(s: Seq<char>) -> bool {
    &&& s.len() > 0
    &&& forall|i: int| 0 <= i < s.len() ==> is_digit(#[trigger] s[i]) || 'a' <= s[i] <= 'z'
    &&& !is_decimal(s)
}

/// A count: decimal digits that write a number the machine holds.
pub open spec fn is_count(s: Seq<char>) -> bool {
    is_decimal(s) && decimal_value(s) <= usize::MAX
}

/// The counts that the parts after the group write, pair by pair; nothing
/// where a part is left over, a key or a count is none, or a key comes
/// twice.
pub open spec fn entries_of(parts: Seq<Seq<char>>) -> Option<Seq<(Seq<char>, nat)>>
    decreases parts.len(),
{
    if parts.len() == 0 {
        Some(Seq::empty())
    } else if parts.len() == 1 {
        None
    } else {
        let key = parts[parts.len() - 2];
        let count = parts[parts.len() - 1];
        match entries_of(parts.take(parts.len() - 2)) {
            None => None,
            Some(before) => if is_component_key(key) && is_count(count) && !has_key(before, key) {
                Some(before.push((key, decimal_value(count))))
            } else {
                None
            },
        }
    }
}

/// What a pattern in lower case asks for: the group and the counts.
pub open spec fn parsed(lowered: Seq<char>) -> Option<(Seq<char>, Seq<(Seq<char>, nat)>)> {
    let parts = split(lowered);
    if parts[0].len() == 0 {
        None
    } else {
        match entries_of(parts.skip(1)) {
            None => None,
            Some(entries) => Some((parts[0], entries)),
        }
    }
}

/// Pairs that fail fail the whole; a part left over fails it too.
pub proof fn lemma_entries_prefix(parts: Seq<Seq<char>>, n: int)
    requires
        0 <= n,
        2 * n <= parts.len(),
    ensures
        entries_of(parts.take(2 * n)) is None ==> entries_of(parts) is None,
        (parts.len() - 2 * n) % 2 == 1 ==> entries_of(parts) is None,
    decreases parts.len(),
{
    if parts.len() == 2 * n {
        assert(parts.take(2 * n) == parts);
    } else if parts.len() >= 2 {
        let front = parts.take(parts.len() - 2);
        if parts.len() - 2 >= 2 * n {
            assert(front.take(2 * n) == parts.take(2 * n));
            lemma_entries_prefix(front, n);
        } else {
            assert(parts.len() == 2 * n + 1);
            lemma_entries_prefix(front, n - 1);
        }
    }
}

/// What a pattern asks for names every component once, and each name is
/// a component key; it is made of half as many entries as there are parts.
pub proof fn lemma_entries_distinct(parts: Seq<Seq<char>>)
    ensures
        entries_of(parts) is Some ==> keys_distinct(entries_of(parts)->0) && 2 * entries_of(
            parts,
        )->0.len() == parts.len(),
        entries_of(parts) is Some ==> forall|key: Seq<char>|
            has_key(entries_of(parts)->0, key) ==> #[trigger] is_component_key(key),
    decreases parts.len(),
{
    if parts.len() >= 2 {
        let front = parts.take(parts.len() - 2);
        lemma_entries_distinct(front);
        if entries_of(parts) is Some {
            let before = entries_of(front)->0;
            let key = parts[parts.len() - 2];
            let out = entries_of(parts)->0;
            crate::counts::lemma_index_of(before, key);
            assert(out.drop_last() == before);
            assert forall|i: int, j: int| 0 <= i < j < out.len() implies (#[trigger] out[i]).0 != (
            #[trigger] out[j]).0 by {
                if j < before.len() {
                    assert(before[i].0 != before[j].0);
                } else {
                    assert(out[i] == before[i]);
                }
            }
        }
    } else if parts.len() == 0 {
        assert(keys_distinct(entries_of(parts)->0));
    }
}

/// Splits `s` at its colons.
pub fn split_at_colons(s: &str) -> (r: Vec<String>)
    ensures
        texts(r@) == split(s@),
{
    let text: Vec<char> = chars(s);
    let mut out: Vec<String> = Vec::new();
    let mut start: usize = 0;
    let mut i: usize = 0;
    proof {
        assert(s@.take(0) == Seq::<char>::empty());
        assert(s@.subrange(0, 0) == Seq::<char>::empty());
        assert(texts(out@).push(s@.subrange(0, 0)) == seq![Seq::<char>::empty()]);
    }
    while i < text.len()
        invariant
            start <= i <= text@.len(),
            text@ == s@,
            split(s@.take(i as int)) == texts(out@).push(s@.subrange(start as int, i as int)),
        decreases text@.len() - i,
    {
        proof {
            assert(s@.take(i + 1).drop_last() == s@.take(i as int));
            assert(s@.take(i + 1).last() == s@[i as int]);
        }
        if text[i] == ':' {
            let part: String = s.substring_char(start, i).to_owned();
            let ghost before = texts(out@);
            out.push(part);
            start = i + 1;
            proof {
                assert(s@.subrange(start as int, i + 1) == Seq::<char>::empty());
                assert(texts(out@) =~= split(s@.take(i as int)));
            }
        } else {
            proof {
                assert(s@.subrange(start as int, i + 1) == s@.subrange(start as int, i as int).push(
                    s@[i as int],
                ));
                let before = split(s@.take(i as int));
                assert(before.update(before.len() - 1, before.last().push(s@[i as int]))
                    =~= texts(out@).push(s@.subrange(start as int, i + 1)));
            }
        }
        i = i + 1;
    }
    let part: String = s.substring_char(start, i).to_owned();
    let ghost before = texts(out@);
    out.push(part);
    proof {
        assert(s@.take(s@.len() as int) == s@);
        assert(texts(out@) =~= before.push(s@.subrange(start as int, i as int)));
    }
    out
}

/// Whether `s` is a component key.
pub fn check_component_key(s: &str) -> (r: bool)
    ensures
        r == is_component_key(s@),
{
    let text: Vec<char> = chars(s);
    if text.len() == 0 {
        return false;
    }
    let mut letters: bool = false;
    let mut i: usize = 0;
    while i < text.len()
        invariant
            i <= text@.len(),
            text@ == s@,
            forall|k: int| 0 <= k < i ==> is_digit(#[trigger] text@[k]) || 'a' <= text@[k] <= 'z',
            letters == exists|k: int| 0 <= k < i && !is_digit(#[trigger] text@[k]),
        decreases text@.len() - i,
    {
        let c: char = text[i];
        if c >= 'a' && c <= 'z' {
            letters = true;
        } else if !(c >= '0' && c <= '9') {
            return false;
        }
        i = i + 1;
    }
    letters
}

/// Reads a pattern that is in lower case already. The group must not be
/// empty; after it come pairs of a component key and a count; no key may
/// come twice.
pub fn parse_lowered_pattern(lowered: &str) -> (r: Result<(String, ComponentCounts), PlanError>)
    ensures
        match r {
            Ok(found) => parsed(lowered@) == Some((found.0@, found.1@)) && found.1.wf(),
            Err(PlanError::MalformedPattern) => parsed(lowered@) is None,
            Err(_) => false,
        },
{
    let parts: Vec<String> = split_at_colons(lowered);
    proof {
        lemma_split_nonempty(lowered@);
        assert(texts(parts@)[0] == parts@[0]@);
    }
    if chars(parts[0].as_str()).len() == 0 {
        return Err(PlanError::MalformedPattern);
    }
    let ghost rest = split(lowered@).skip(1);
    let mut out = ComponentCounts::new();
    let mut i: usize = 1;
    proof {
        assert(rest.take(0) == Seq::<Seq<char>>::empty());
    }
    while i < parts.len()
        invariant
            1 <= i <= parts@.len(),
            (i - 1) % 2 == 0,
            texts(parts@) == split(lowered@),
            rest == split(lowered@).skip(1),
            out.wf(),
            entries_of(rest.take(i - 1)) == Some(out@),
        decreases parts@.len() - i,
    {
        if i + 1 >= parts.len() {
            proof {
                lemma_entries_prefix(rest, (i - 1) / 2);
            }
            return Err(PlanError::MalformedPattern);
        }
        proof {
            let pair = rest.take(i + 1);
            assert(pair.take(pair.len() - 2) == rest.take(i - 1));
            assert(pair[pair.len() - 2] == parts@[i as int]@);
            assert(pair[pair.len() - 1] == parts@[i + 1]@);
            lemma_entries_prefix(rest, (i + 1) / 2);
        }
        let key: &String = &parts[i];
        if !check_component_key(key.as_str()) || out.contains_key(key.as_str()) {
            return Err(PlanError::MalformedPattern);
        }
        match parse_count(parts[i + 1].as_str()) {
            None => {
                return Err(PlanError::MalformedPattern);
            },
            Some(count) => {
                proof {
                    crate::counts::lemma_index_of(out@, key@);
                }
                out.insert(key.clone(), count);
            },
        }
        i = i + 2;
    }
    proof {
        assert(rest.take(rest.len() as int) == rest);
    }
    Ok((parts[0].clone(), out))
}

/// Reads a pattern: the whole text is put in lower case, the part before
/// the first colon names the target group, and the parts after it say, in
/// pairs, how many of which component the group is to hold.
pub fn parse_pattern(pattern: &str) -> (r: Result<(String, ComponentCounts), PlanError>)
    ensures
        match r {
            Ok(found) => parsed(lowercase(pattern@)) == Some((found.0@, found.1@))
                && found.1.wf(),
            Err(PlanError::MalformedPattern) => parsed(lowercase(pattern@)) is None,
            Err(_) => false,
        },
{
    let lowered: String = to_lowercase(pattern);
    parse_lowered_pattern(lowered.as_str())
}

} // verus!

//! Message text and lookup by name.

use vstd::prelude::*;
use vstd::string::*;

verus! {

/// The decimal digit of a number below ten.
pub open spec fn digit(value: nat) -> char {
    (48 + value) as char
}

/// A number in decimal.
pub open spec fn digits(value: nat) -> Seq<char>
    decreases value,
{
    if value < 10 {
        seq![digit(value)]
    } else {
        digits(value / 10).push(digit(value % 10))
    }
}

fn digit_text(value: usize) -> (text: &'static str)
    requires
        value < 10,
    ensures
        text@ == seq![digit(value as nat)],
{
    proof {
        reveal_strlit("0");
        reveal_strlit("1");
        reveal_strlit("2");
        reveal_strlit("3");
        reveal_strlit("4");
        reveal_strlit("5");
        reveal_strlit("6");
        reveal_strlit("7");
        reveal_strlit("8");
        reveal_strlit("9");
    }
    match value {
        0 => "0",
        1 => "1",
        2 => "2",
        3 => "3",
        4 => "4",
        5 => "5",
        6 => "6",
        7 => "7",
        8 => "8",
        _ => "9",
    }
}

/// A count in decimal.
pub fn decimal(value: usize) -> (text: String)
    ensures
        text@ == digits(value as nat),
    decreases value,
{
    if value < 10 {
        digit_text(value).to_owned()
    } else {
        let mut text: String = decimal(value / 10);
        text.append(digit_text(value % 10));
        assert(text@ =~= digits(value as nat));
        text
    }
}

/// The index of the first of `names` that reads `name`.
pub open spec fn first_position(names: Seq<String>, name: Seq<char>) -> Option<nat>
    decreases names.len(),
{
    if names.len() == 0 {
        None
    } else {
        match first_position(names.drop_last(), name) {
            Some(index) => Some(index),
            None => if names.last()@ == name {
                Some((names.len() - 1) as nat)
            } else {
                None
            },
        }
    }
}

/// A position is that of the first name that matches, and there is one exactly
/// where some name does.
pub proof fn lemma_first_position(names: Seq<String>, name: Seq<char>)
    ensures
        match first_position(names, name) {
            Some(index) => index < names.len() && names[index as int]@ == name && forall|j: int|
                0 <= j < index ==> (#[trigger] names[j])@ != name,
            None => forall|j: int| 0 <= j < names.len() ==> (#[trigger] names[j])@ != name,
        },
    decreases names.len(),
{
    if names.len() > 0 {
        let rest = names.drop_last();
        lemma_first_position(rest, name);
        assert forall|j: int| 0 <= j < rest.len() implies rest[j] == names[j] by {}
        match first_position(rest, name) {
            Some(index) => {
                assert(names[index as int] == rest[index as int]);
                assert forall|j: int| 0 <= j < index implies (#[trigger] names[j])@ != name by {
                    assert(rest[j] == names[j]);
                }
            },
            None => {
                assert forall|j: int| 0 <= j < rest.len() implies (#[trigger] names[j])@
                    != name by {
                    assert(rest[j] == names[j]);
                }
            },
        }
    }
}

/// The index of the first of `names` that equals `name`.
pub fn position(names: &[String], name: &String) -> (result: Option<usize>)
    ensures
        match result {
            Some(index) => first_position(names@, name@) == Some(index as nat),
            None => first_position(names@, name@) is None,
        },
        result matches Some(index) ==> index < names@.len(),
{
    let mut index: usize = 0;
    assert(names@.take(0) =~= Seq::<String>::empty());
    while index < names.len()
        invariant
            index <= names@.len(),
            first_position(names@.take(index as int), name@) is None,
        decreases names@.len() - index,
    {
        proof {
            assert(names@.take(index + 1).drop_last() =~= names@.take(index as int));
            assert(names@.take(index + 1).last() == names@[index as int]);
        }
        if names[index] == *name {
            proof {
                lemma_position_of_prefix(names@, name@, index as int + 1);
            }
            return Some(index);
        }
        index = index + 1;
    }
    assert(names@.take(names@.len() as int) =~= names@);
    None
}

/// A position found in a prefix is the position in the whole.
proof fn lemma_position_of_prefix(names: Seq<String>, name: Seq<char>, length: int)
    requires
        0 <= length <= names.len(),
        first_position(names.take(length), name) is Some,
    ensures
        first_position(names, name) == first_position(names.take(length), name),
    decreases names.len() - length,
{
    if length < names.len() {
        assert(names.take(length + 1).drop_last() =~= names.take(length));
        lemma_position_of_prefix(names, name, length + 1);
    } else {
        assert(names.take(length) =~= names);
    }
}

} // verus!

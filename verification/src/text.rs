//! Names and numbers that come as text.

use vstd::prelude::*;
use vstd::string::*;
use crate::distance::Metric;
use crate::error::{ends, invalid_input, refused_input, PrismResult, Verdict};
use crate::filter::{mentions, permits, Filter};

verus! {

/// A decimal digit.
pub open spec fn is_digit(c: char) -> bool {
    '0' <= c && c <= '9'
}

/// All are decimal digits.
pub open spec fn all_digits(text: Seq<char>) -> bool {
    forall|i: int| 0 <= i < text.len() ==> is_digit(#[trigger] text[i])
}

/// The number that decimal digits denote.
pub open spec fn decimal(digits: Seq<char>) -> int
    decreases digits.len(),
{
    if digits.len() == 0 {
        0
    } else {
        decimal(digits.drop_last()) * 10 + (digits.last() as int - '0' as int)
    }
}

/// The text without a sign in front.
pub open spec fn unsigned_part(text: Seq<char>) -> Seq<char> {
    if text.len() > 0 && text[0] == '+' {
        text.skip(1)
    } else {
        text
    }
}

/// The number that a text denotes: digits, perhaps after a plus sign, that
/// make a representable number.
pub open spec fn number_in(text: Seq<char>) -> Option<usize> {
    let digits = unsigned_part(text);
    if digits.len() > 0 && all_digits(digits) && decimal(digits) <= usize::MAX {
        Some(decimal(digits) as usize)
    } else {
        None
    }
}

proof fn decimal_grows(digits: Seq<char>, upto: int)
    requires
        0 <= upto <= digits.len(),
        all_digits(digits),
    ensures
        0 <= decimal(digits.take(upto)) <= decimal(digits),
    decreases digits.len() - upto,
{
    if upto < digits.len() {
        decimal_grows(digits, upto + 1);
        let more = digits.take(upto + 1);
        assert(more.drop_last() =~= digits.take(upto));
        assert(is_digit(digits[upto]));
        decimal_is_positive(digits, upto);
    } else {
        assert(digits.take(upto) =~= digits);
        decimal_is_positive(digits, upto);
    }
}

proof fn decimal_is_positive(digits: Seq<char>, upto: int)
    requires
        0 <= upto <= digits.len(),
        all_digits(digits),
    ensures
        0 <= decimal(digits.take(upto)),
    decreases upto,
{
    if upto > 0 {
        decimal_is_positive(digits, upto - 1);
        assert(digits.take(upto).drop_last() =~= digits.take(upto - 1));
        assert(is_digit(digits[upto - 1]));
    }
}

/// The number that the rest of a text denotes.
fn parse_from(text: &str, from: usize) -> (number: Option<usize>)
    requires
        from <= text@.len(),
    ensures
        number == number_in(text@.skip(from as int)),
{
    let count: usize = text.unicode_len();
    let ghost whole = text@.skip(from as int);
    let start: usize = if from < count && text.get_char(from) == '+' { from + 1 } else { from };
    let ghost digits = unsigned_part(whole);
    assert(digits =~= text@.skip(start as int));
    if start >= count {
        return None;
    }
    let mut value: usize = 0;
    let mut i: usize = start;
    while i < count
        invariant
            start <= i <= count,
            count == text@.len(),
            digits == text@.skip(start as int),
            value == decimal(digits.take(i - start)),
            forall|j: int| 0 <= j < i - start ==> is_digit(#[trigger] digits[j]),
            digits == unsigned_part(whole),
            number_in(whole) == number_in(text@.skip(from as int)),
        decreases count - i,
    {
        let c: char = text.get_char(i);
        assert(c == digits[i - start]);
        if c < '0' || '9' < c {
            assert(!is_digit(digits[i - start]));
            return None;
        }
        let digit: usize = (c as u32 - '0' as u32) as usize;
        proof {
            let more = digits.take(i - start + 1);
            assert(more.drop_last() =~= digits.take(i - start));
            assert(decimal(more) == value * 10 + digit);
            if all_digits(digits) {
                decimal_grows(digits, i - start + 1);
            }
        }
        let scaled: usize = match value.checked_mul(10) {
            Some(scaled) => scaled,
            None => {
                return None;
            },
        };
        value = match scaled.checked_add(digit) {
            Some(next) => next,
            None => {
                return None;
            },
        };
        i = i + 1;
    }
    assert(digits.take(count - start) =~= digits);
    Some(value)
}

/// The number that a text denotes.
pub fn parse_number(text: &str) -> (number: Option<usize>)
    ensures
        number == number_in(text@),
{
    assert(text@.skip(0) =~= text@);
    parse_from(text, 0)
}

/// Where a flag is first followed by another argument.
pub open spec fn flag_at(args: Seq<String>, flag: Seq<char>, upto: int) -> Option<int>
    decreases upto,
{
    if upto <= 0 {
        None
    } else {
        match flag_at(args, flag, upto - 1) {
            Some(i) => Some(i),
            None => if upto < args.len() && args[upto - 1]@ == flag {
                Some(upto - 1)
            } else {
                None
            },
        }
    }
}

/// The number after a flag.
pub open spec fn flag_value(args: Seq<String>, flag: Seq<char>, default: usize) -> usize {
    match flag_at(args, flag, args.len() as int) {
        Some(i) => match number_in(args[i + 1]@) {
            Some(number) => number,
            None => default,
        },
        None => default,
    }
}

/// The number that follows a flag, or a default where the flag is missing or
/// no number follows it.
pub fn parse_arg(args: &[String], flag: &str, default: usize) -> (value: usize)
    ensures
        value == flag_value(args@, flag@, default),
{
    let wanted = flag.to_owned();
    let count: usize = args.len();
    let mut i: usize = 0;
    while i < count
        invariant
            i <= count,
            count == args@.len(),
            wanted@ == flag@,
            flag_at(args@, flag@, i as int) is None,
        decreases count - i,
    {
        if i + 1 < count && args[i] == wanted {
            proof {
                flag_stays(args@, flag@, i + 1, count as int);
            }
            return match parse_number(args[i + 1].as_str()) {
                Some(number) => number,
                None => default,
            };
        }
        i = i + 1;
    }
    default
}

proof fn flag_stays(args: Seq<String>, flag: Seq<char>, upto: int, all: int)
    requires
        0 <= upto <= all,
        flag_at(args, flag, upto) is Some,
    ensures
        flag_at(args, flag, all) == flag_at(args, flag, upto),
    decreases all - upto,
{
    if upto < all {
        flag_stays(args, flag, upto, all - 1);
    }
}

/// The metric that a name denotes.
pub open spec fn metric_named(name: Seq<char>) -> Option<Metric> {
    if name == "l2"@ {
        Some(Metric::L2)
    } else if name == "ip"@ || name == "inner_product"@ {
        Some(Metric::InnerProduct)
    } else if name == "cosine"@ {
        Some(Metric::Cosine)
    } else {
        None
    }
}

/// The metric that a name denotes.
pub fn parse_metric(name: &str) -> (result: PrismResult<Metric>)
    ensures
        match metric_named(name@) {
            Some(metric) => result == Ok::<Metric, crate::error::PrismError>(metric),
            None => refused_input(result),
        },
{
    let given = name.to_owned();
    if given == "l2".to_owned() {
        Ok(Metric::L2)
    } else if given == "ip".to_owned() || given == "inner_product".to_owned() {
        Ok(Metric::InnerProduct)
    } else if given == "cosine".to_owned() {
        Ok(Metric::Cosine)
    } else {
        Err(invalid_input("unknown metric, expected 'l2', 'ip', or 'cosine'"))
    }
}

/// The attribute that a key names: its number after `attr_`.
pub open spec fn attribute_named(key: Seq<char>) -> Option<usize> {
    if key.len() >= 5 && key.take(5) == "attr_"@ {
        number_in(key.skip(5))
    } else {
        None
    }
}

/// The attribute that a key names.
pub fn parse_attribute(key: &str) -> (attribute: Option<usize>)
    ensures
        attribute == attribute_named(key@),
{
    proof {
        reveal_strlit("attr_");
    }
    if key.unicode_len() < 5 {
        return None;
    }
    if key.get_char(0) != 'a' || key.get_char(1) != 't' || key.get_char(2) != 't' || key.get_char(
        3,
    ) != 'r' || key.get_char(4) != '_' {
        proof {
            let head = key@.take(5);
            assert(head[0] == key@[0] && head[1] == key@[1] && head[2] == key@[2] && head[3]
                == key@[3] && head[4] == key@[4]);
        }
        return None;
    }
    assert(key@.take(5) =~= "attr_"@);
    parse_from(key, 5)
}

/// Conditions by key, as they come from outside.
pub type NamedValues = (String, Vec<u32>);

/// A condition that makes sense for so many attributes.
pub open spec fn condition_fits(entry: NamedValues, attributes: int) -> bool {
    match attribute_named(entry.0@) {
        Some(j) => j < attributes && entry.1@.len() > 0,
        None => false,
    }
}

/// Copies values.
fn copy_values(values: &Vec<u32>) -> (copy: Vec<u32>)
    ensures
        copy@ == values@,
{
    let mut copy: Vec<u32> = Vec::new();
    while copy.len() < values.len()
        invariant
            copy@.len() <= values@.len(),
            forall|i: int| 0 <= i < copy@.len() ==> #[trigger] copy@[i] == values@[i],
        decreases values@.len() - copy@.len(),
    {
        copy.push(values[copy.len()]);
    }
    assert(copy@ =~= values@);
    copy
}

/// The filter that named conditions make: every key has to name an attribute,
/// and to allow some value of it.
pub fn parse_filter(entries: &[NamedValues], num_attrs: usize) -> (result: PrismResult<Filter>)
    ensures
        ends(
            result,
            if forall|i: int|
                0 <= i < entries@.len() ==> condition_fits(#[trigger] entries@[i], num_attrs as int) {
                Verdict::Accepted
            } else {
                Verdict::InvalidInput
            },
        ),
        result matches Ok(filter) ==> {
            &&& filter.wf()
            &&& forall|j: usize|
                #[trigger] mentions(filter.constraints@, j) <==> exists|i: int|
                    0 <= i < entries@.len() && attribute_named((#[trigger] entries@[i]).0@) == Some(j)
            &&& forall|j: usize, v: u32|
                #[trigger] permits(filter.constraints@, j, v) <==> forall|i: int|
                    0 <= i < entries@.len() && attribute_named((#[trigger] entries@[i]).0@) == Some(
                        j,
                    ) ==> entries@[i].1@.contains(v)
        },
{
    let mut constraints: Vec<(usize, Vec<u32>)> = Vec::new();
    while constraints.len() < entries.len()
        invariant
            constraints@.len() <= entries@.len(),
            forall|i: int|
                0 <= i < constraints@.len() ==> condition_fits(
                    #[trigger] entries@[i],
                    num_attrs as int,
                ),
            forall|i: int|
                0 <= i < constraints@.len() ==> attribute_named(entries@[i].0@) == Some(
                    (#[trigger] constraints@[i]).0,
                ) && constraints@[i].1@ == entries@[i].1@,
        decreases entries@.len() - constraints@.len(),
    {
        let i: usize = constraints.len();
        let entry = &entries[i];
        match parse_attribute(entry.0.as_str()) {
            Some(j) => {
                if j >= num_attrs {
                    assert(!condition_fits(entries@[i as int], num_attrs as int));
                    return Err(invalid_input("attribute index out of range"));
                }
                if entry.1.len() == 0 {
                    assert(!condition_fits(entries@[i as int], num_attrs as int));
                    return Err(invalid_input("filter has an empty value list"));
                }
                constraints.push((j, copy_values(&entry.1)));
            },
            None => {
                assert(!condition_fits(entries@[i as int], num_attrs as int));
                return Err(invalid_input("invalid filter key, expected 'attr_N'"));
            },
        }
    }
    let ghost given = constraints@;
    let filter = Filter::new(constraints);
    proof {
        assert forall|j: usize| #[trigger] mentions(filter.constraints@, j) <==> exists|i: int|
            0 <= i < entries@.len() && attribute_named((#[trigger] entries@[i]).0@) == Some(j) by {
            assert(mentions(filter.constraints@, j) <==> mentions(given, j));
            if mentions(given, j) {
                let i = choose|i: int| 0 <= i < given.len() && (#[trigger] given[i]).0 == j;
                assert(attribute_named(entries@[i].0@) == Some(j));
            }
            if exists|i: int|
                0 <= i < entries@.len() && attribute_named((#[trigger] entries@[i]).0@) == Some(j) {
                let i = choose|i: int|
                    0 <= i < entries@.len() && attribute_named((#[trigger] entries@[i]).0@) == Some(j);
                assert(given[i].0 == j);
            }
        }
        assert forall|j: usize, v: u32| #[trigger] permits(filter.constraints@, j, v) <==> forall|i: int|
            0 <= i < entries@.len() && attribute_named((#[trigger] entries@[i]).0@) == Some(j)
                ==> entries@[i].1@.contains(v) by {
            assert(permits(filter.constraints@, j, v) <==> permits(given, j, v));
            if permits(given, j, v) {
                assert forall|i: int|
                    0 <= i < entries@.len() && attribute_named((#[trigger] entries@[i]).0@) == Some(
                        j,
                    ) implies entries@[i].1@.contains(v) by {
                    assert(given[i].0 == j);
                }
            }
            if forall|i: int|
                0 <= i < entries@.len() && attribute_named((#[trigger] entries@[i]).0@) == Some(j)
                    ==> entries@[i].1@.contains(v) {
                assert forall|i: int| 0 <= i < given.len() && (#[trigger] given[i]).0 == j implies given[i].1@.contains(
                    v,
                ) by {
                    assert(entries@[i].1@.contains(v));
                }
            }
        }
    }
    Ok(filter)
}

} // verus!

//! The names of segment files.
use crate::storage::manifest::texts;
use crate::text::{
    all_digits, chars_of, decimal, decimal_is_numeral, decimal_text, digits_are_read,
    digits_value, is_digit, lemma_filled_number, parse_unsigned, unsigned_number, zero_filled,
};
use vstd::prelude::*;
use vstd::string::*;

verus! {

/// The name of the segment file with an id.
pub open spec fn segment_name_of(id: u64) -> Seq<char> {
    "seg-"@ + zero_filled(decimal_text(id as nat), 8) + ".lsm"@
}

/// The id in the name of a segment file.
pub open spec fn segment_id_of(name: Seq<char>) -> Option<u64> {
    if name.len() >= 8 && name.subrange(0, 4) == "seg-"@ && name.subrange(
        name.len() - 4,
        name.len() as int,
    ) == ".lsm"@ {
        unsigned_number(name.subrange(4, name.len() - 4))
    } else {
        None
    }
}

/// One more than the highest id among some names, or 0 where none has an id.
pub open spec fn next_id(names: Seq<Seq<char>>) -> nat
    decreases names.len(),
{
    if names.len() == 0 {
        0
    } else {
        let before = next_id(names.drop_last());
        match segment_id_of(names.last()) {
            Some(id) => if id + 1 > before {
                id as nat + 1
            } else {
                before
            },
            None => before,
        }
    }
}

/// The characters of the fixed parts of a name.
proof fn lemma_fixed_parts()
    ensures
        "seg-"@ == seq!['s', 'e', 'g', '-'],
        ".lsm"@ == seq!['.', 'l', 's', 'm'],
{
    reveal_strlit("seg-");
    reveal_strlit(".lsm");
    assert("seg-"@ =~= seq!['s', 'e', 'g', '-']);
    assert(".lsm"@ =~= seq!['.', 'l', 's', 'm']);
}

/// The name of the segment file with an id.
pub fn segment_name(id: u64) -> (name: String)
    ensures
        name@ == segment_name_of(id),
{
    let digits = decimal(id);
    let chars = chars_of(digits.as_str());
    let mut name = String::from_str("seg-");
    let mut k: usize = chars.len();
    let ghost zeros: Seq<char> = seq![];
    assert(name@ =~= "seg-"@ + zeros);
    while k < 8
        invariant
            chars@ == decimal_text(id as nat),
            k >= chars@.len(),
            chars@.len() < 8 ==> k <= 8,
            chars@.len() >= 8 ==> k == chars@.len(),
            zeros == Seq::new((k - chars@.len()) as nat, |i: int| '0'),
            name@ == "seg-"@ + zeros,
        decreases 8 - k,
    {
        name.push('0');
        k = k + 1;
        proof {
            let grown = Seq::new((k - chars@.len()) as nat, |i: int| '0');
            assert(zeros.push('0') =~= grown);
            assert(("seg-"@ + zeros).push('0') =~= "seg-"@ + grown);
            zeros = grown;
        }
    }
    name.append(digits.as_str());
    name.append(".lsm");
    assert(zeros + chars@ =~= zero_filled(decimal_text(id as nat), 8));
    assert(name@ =~= segment_name_of(id));
    name
}

/// The id in the name of a segment file.
pub fn parse_segment_id(name: &str) -> (id: Option<u64>)
    ensures
        id == segment_id_of(name@),
{
    proof {
        lemma_fixed_parts();
    }
    let c = chars_of(name);
    let n = c.len();
    if n < 8 {
        return None;
    }
    if !(c[0] == 's' && c[1] == 'e' && c[2] == 'g' && c[3] == '-') {
        assert(name@.subrange(0, 4) != "seg-"@) by {
            let s = name@.subrange(0, 4);
            assert(s[0] == c@[0] && s[1] == c@[1] && s[2] == c@[2] && s[3] == c@[3]);
        }
        return None;
    }
    assert(name@.subrange(0, 4) =~= "seg-"@);
    if !(c[n - 4] == '.' && c[n - 3] == 'l' && c[n - 2] == 's' && c[n - 1] == 'm') {
        assert(name@.subrange(n - 4, n as int) != ".lsm"@) by {
            let s = name@.subrange(n - 4, n as int);
            assert(s[0] == c@[n - 4] && s[1] == c@[n - 3] && s[2] == c@[n - 2] && s[3] == c@[n - 1]);
        }
        return None;
    }
    assert(name@.subrange(n - 4, n as int) =~= ".lsm"@);
    parse_unsigned(c.as_slice(), 4, n - 4)
}

/// One more than the highest id among some names, or 0 where none has an id, as
/// long as that is a number of 64 bits.
pub fn next_segment_id(names: &[String]) -> (id: Option<u64>)
    ensures
        id == if next_id(texts(names@)) <= u64::MAX {
            Some(next_id(texts(names@)) as u64)
        } else {
            None
        },
{
    let ghost all = texts(names@);
    let mut highest: Option<u64> = None;
    let mut i: usize = 0;
    while i < names.len()
        invariant
            i <= names@.len(),
            all == texts(names@),
            next_id(all.take(i as int)) == match highest {
                Some(id) => id + 1,
                None => 0,
            },
        decreases names@.len() - i,
    {
        proof {
            let grown = all.take(i + 1);
            assert(grown.drop_last() =~= all.take(i as int));
            assert(grown.last() == names@[i as int]@);
        }
        match parse_segment_id(names[i].as_str()) {
            Some(id) => {
                highest = match highest {
                    Some(h) => if id > h {
                        Some(id)
                    } else {
                        Some(h)
                    },
                    None => Some(id),
                };
            },
            None => {},
        }
        i = i + 1;
    }
    assert(all.take(i as int) =~= all);
    match highest {
        Some(id) => if id < u64::MAX {
            Some(id + 1)
        } else {
            None
        },
        None => Some(0),
    }
}

/// The id in the name of a segment file is the one that the name was made from.
pub proof fn name_tells_id(id: u64)
    ensures
        segment_id_of(segment_name_of(id)) == Some(id),
{
    lemma_fixed_parts();
    lemma_filled_number(id, 8);
    let name = segment_name_of(id);
    let middle = zero_filled(decimal_text(id as nat), 8);
    assert(name.subrange(0, 4) =~= "seg-"@);
    assert(name.subrange(name.len() - 4, name.len() as int) =~= ".lsm"@);
    assert(name.subrange(4, name.len() - 4) =~= middle);
}

/// A segment name is a line of its own: no white space in it, and not empty.
pub proof fn lemma_name_chars(id: u64)
    ensures
        segment_name_of(id).len() >= 8,
        forall|i: int|
            0 <= i < segment_name_of(id).len() ==> 0x2d <= (#[trigger] segment_name_of(id)[i]) as u32
                <= 0x7a,
{
    lemma_fixed_parts();
    lemma_filled_number(id, 8);
    let middle = zero_filled(decimal_text(id as nat), 8);
    let name = segment_name_of(id);
    assert forall|i: int| 0 <= i < name.len() implies 0x2d <= (#[trigger] name[i]) as u32
        <= 0x7a by {
        if 4 <= i < 4 + middle.len() {
            assert(is_digit(middle[i - 4]));
            assert(name[i] == middle[i - 4]);
        } else if i < 4 {
            assert(name[i] == "seg-"@[i]);
        } else {
            assert(name[i] == ".lsm"@[i - 4 - middle.len()]);
        }
    }
}

/// The next id is above the id of every name, so that the name made from it is
/// none of them.
pub proof fn next_id_is_new(names: Seq<Seq<char>>)
    ensures
        forall|i: int|
            0 <= i < names.len() ==> match #[trigger] segment_id_of(names[i]) {
                Some(id) => id < next_id(names),
                None => true,
            },
        forall|id: u64| next_id(names) <= id ==> !names.contains(#[trigger] segment_name_of(id)),
    decreases names.len(),
{
    if names.len() > 0 {
        next_id_is_new(names.drop_last());
        assert forall|i: int| 0 <= i < names.len() implies match #[trigger] segment_id_of(
            names[i],
        ) {
            Some(id) => id < next_id(names),
            None => true,
        } by {
            if i < names.len() - 1 {
                assert(names.drop_last()[i] == names[i]);
            }
        }
    }
    assert forall|id: u64| next_id(names) <= id implies !names.contains(
        #[trigger] segment_name_of(id),
    ) by {
        name_tells_id(id);
        if names.contains(segment_name_of(id)) {
            let i = choose|i: int| 0 <= i < names.len() && names[i] == segment_name_of(id);
            assert(segment_id_of(names[i]) == Some(id));
        }
    }
}

/// Appending a name with a new id moves the next id behind it.
pub proof fn lemma_next_id_push(names: Seq<Seq<char>>, id: u64)
    requires
        next_id(names) <= id,
    ensures
        next_id(names.push(segment_name_of(id))) == id + 1,
{
    name_tells_id(id);
    assert(names.push(segment_name_of(id)).drop_last() =~= names);
}

/// A segment file is named by its id in decimal, with zeros in front up to eight digits and
/// none beyond that.
pub proof fn name_holds_the_digits(id: u64)
    ensures
        ({
            let name = segment_name_of(id);
            let digits = name.subrange(4, name.len() - 4);
            &&& name.len() >= 16
            &&& name.subrange(0, 4) == "seg-"@
            &&& name.subrange(name.len() - 4, name.len() as int) == ".lsm"@
            &&& all_digits(digits)
            &&& digits_value(digits) == id
            &&& digits.len() == 8 || digits.len() > 8 && digits[0] != '0'
        }),
{
    lemma_fixed_parts();
    lemma_filled_number(id, 8);
    decimal_is_numeral(id as nat);
    let name = segment_name_of(id);
    let middle = zero_filled(decimal_text(id as nat), 8);
    assert(name.subrange(0, 4) =~= "seg-"@);
    assert(name.subrange(name.len() - 4, name.len() as int) =~= ".lsm"@);
    assert(name.subrange(4, name.len() - 4) =~= middle);
    assert(is_digit(middle[0]));
    assert(middle[0] != '+');
}

/// Any digits between the fixed parts are read as an id, as long as the number fits; and
/// only names with such digits have one.
pub proof fn digits_tell_the_id(name: Seq<char>, digits: Seq<char>)
    ensures
        all_digits(digits) && digits_value(digits) <= u64::MAX ==> segment_id_of(
            "seg-"@ + digits + ".lsm"@,
        ) == Some(digits_value(digits) as u64),
        segment_id_of(name) matches Some(id) ==> exists|d: Seq<char>| #[trigger]
            all_digits(d) && digits_value(d) == id && (name == "seg-"@ + d + ".lsm"@ || name
                == "seg-"@ + (seq!['+'] + d) + ".lsm"@),
{
    lemma_fixed_parts();
    let whole = "seg-"@ + digits + ".lsm"@;
    assert(whole.subrange(0, 4) =~= "seg-"@);
    assert(whole.subrange(whole.len() - 4, whole.len() as int) =~= ".lsm"@);
    assert(whole.subrange(4, whole.len() - 4) =~= digits);
    digits_are_read(digits);
    if let Some(id) = segment_id_of(name) {
        let middle = name.subrange(4, name.len() - 4);
        assert(name =~= "seg-"@ + middle + ".lsm"@);
        if middle.len() > 0 && middle[0] == '+' {
            let d = middle.skip(1);
            assert(middle =~= seq!['+'] + d);
            assert(all_digits(d) && digits_value(d) == id);
        } else {
            assert(all_digits(middle) && digits_value(middle) == id);
        }
    }
}

/// The next id is no higher than it must be: it is 0, or one of the names has the id
/// before it.
pub proof fn next_id_is_least(names: Seq<Seq<char>>)
    ensures
        next_id(names) > 0 ==> exists|i: int|
            0 <= i < names.len() && #[trigger] segment_id_of(names[i]) == Some(
                (next_id(names) - 1) as u64,
            ),
        next_id(names) <= u64::MAX + 1,
    decreases names.len(),
{
    if names.len() > 0 {
        let init = names.drop_last();
        next_id_is_least(init);
        if next_id(names) == next_id(init) {
            if next_id(init) > 0 {
                let i = choose|i: int|
                    0 <= i < init.len() && #[trigger] segment_id_of(init[i]) == Some(
                        (next_id(init) - 1) as u64,
                    );
                assert(names[i] == init[i]);
                assert(segment_id_of(names[i]) == Some((next_id(names) - 1) as u64));
            }
        } else {
            assert(segment_id_of(names[names.len() - 1]) == Some((next_id(names) - 1) as u64));
        }
    }
}

/// The name that is made from an id tells that id, and the next id after some names is
/// above each of theirs, so that its name is new; it is 0, or follows upon one of them.
pub proof fn names_and_ids_agree(
    id: u64,
    name: String,
    text: &str,
    told: Option<u64>,
    names: &[String],
    next: Option<u64>,
    i: int,
)
    requires
        call_ensures(segment_name, (id,), name),
        call_ensures(parse_segment_id, (text,), told),
        call_ensures(next_segment_id, (names,), next),
        0 <= i < names@.len(),
    ensures
        text@ == name@ ==> told == Some(id),
        text@ == names@[i]@ ==> (told matches Some(t) ==> (next matches Some(n) ==> t < n)),
        next is None ==> exists|k: int|
            0 <= k < names@.len() && #[trigger] segment_id_of(texts(names@)[k]) == Some(u64::MAX),
        next matches Some(n) ==> n == 0 || exists|k: int|
            0 <= k < names@.len() && #[trigger] segment_id_of(texts(names@)[k]) == Some(
                (n - 1) as u64,
            ),
{
    name_tells_id(id);
    next_id_is_new(texts(names@));
    next_id_is_least(texts(names@));
    assert(texts(names@)[i] == names@[i]@);
    assert(segment_id_of(texts(names@)[i]) == segment_id_of(names@[i]@));
}

} // verus!

//! The files of a store: how they are named, in what order they are read,
//! and what has to be written and taken away to bring them up to what the
//! store holds.
//!
//! The file of generation 12 is named `12.log`: the number in decimal
//! digits, without a sign or leading zeros, and `.log`.
//!
//! Nothing here touches a file. The program that keeps the files hands over
//! what it found, and carries out what comes back.

use vstd::prelude::*;
use vstd::seq_lib::*;
use vstd::string::*;
use crate::log::{has_generation, views_of, Generation, GenerationView};

verus! {

/// The decimal digit of a number below 10.
pub open spec fn digit(n: int) -> char {
    if n == 0 {
        '0'
    } else if n == 1 {
        '1'
    } else if n == 2 {
        '2'
    } else if n == 3 {
        '3'
    } else if n == 4 {
        '4'
    } else if n == 5 {
        '5'
    } else if n == 6 {
        '6'
    } else if n == 7 {
        '7'
    } else if n == 8 {
        '8'
    } else {
        '9'
    }
}

/// Whether the character is a decimal digit.
pub open spec fn is_digit(c: char) -> bool {
    0x30 <= c as int <= 0x39
}

/// The number that a decimal digit stands for.
pub open spec fn digit_value(c: char) -> nat {
    if is_digit(c) {
        (c as int - 0x30) as nat
    } else {
        0
    }
}

/// The decimal digits of a number, without leading zeros.
pub open spec fn decimal(n: nat) -> Seq<char>
    decreases n,
{
    if n < 10 {
        seq![digit(n as int)]
    } else {
        decimal(n / 10).push(digit((n % 10) as int))
    }
}

/// The number that decimal digits stand for.
pub open spec fn value_of(digits: Seq<char>) -> nat
    decreases digits.len(),
{
    if digits.len() == 0 {
        0
    } else {
        value_of(digits.drop_last()) * 10 + digit_value(digits.last())
    }
}

/// Whether the characters are decimal digits, at least one, without a
/// leading zero.
pub open spec fn canonical(digits: Seq<char>) -> bool {
    &&& digits.len() >= 1
    &&& forall|i: int| 0 <= i < digits.len() ==> is_digit(#[trigger] digits[i])
    &&& (digits.len() == 1 || digits[0] != '0')
}

/// What the name of every generation file ends in.
pub open spec fn suffix() -> Seq<char> {
    seq!['.', 'l', 'o', 'g']
}

/// The name of the file of a generation.
pub open spec fn name_of(id: u64) -> Seq<char> {
    decimal(id as nat) + suffix()
}

/// The generation whose file has this name, or `None` where the name is
/// not that of a generation file.
pub open spec fn generation_named(name: Seq<char>) -> Option<u64> {
    let digits = name.take(name.len() - 4);
    if name.len() >= 5 && name.skip(name.len() - 4) == suffix() && canonical(digits) && value_of(
        digits,
    ) <= u64::MAX {
        Some(value_of(digits) as u64)
    } else {
        None
    }
}

/// The first digits of a number stand for no more than all of them.
pub proof fn lemma_value_of_take(digits: Seq<char>, i: int)
    requires
        0 <= i <= digits.len(),
    ensures
        value_of(digits.take(i)) <= value_of(digits),
    decreases digits.len(),
{
    if i == digits.len() {
        assert(digits.take(i) =~= digits);
    } else {
        assert(digits.drop_last().take(i) =~= digits.take(i));
        lemma_value_of_take(digits.drop_last(), i);
    }
}

/// The decimal digits of a number are canonical and stand for the number.
pub proof fn lemma_decimal(n: nat)
    ensures
        canonical(decimal(n)),
        value_of(decimal(n)) == n,
        n >= 1 ==> decimal(n)[0] != '0',
    decreases n,
{
    let digits = decimal(n);
    if n < 10 {
        assert(digits.drop_last() =~= Seq::<char>::empty());
        assert(value_of(Seq::<char>::empty()) == 0);
    } else {
        lemma_decimal(n / 10);
        assert(digits.drop_last() =~= decimal(n / 10));
        assert(digits[0] == decimal(n / 10)[0]);
        assert forall|i: int| 0 <= i < digits.len() implies is_digit(#[trigger] digits[i]) by {
            if i < digits.len() - 1 {
                assert(digits[i] == decimal(n / 10)[i]);
            }
        }
    }
}

/// Canonical digits are the decimal digits of the number they stand for.
pub proof fn lemma_decimal_of_value(digits: Seq<char>)
    requires
        canonical(digits),
    ensures
        decimal(value_of(digits)) == digits,
        digits[0] != '0' ==> value_of(digits) >= 1,
    decreases digits.len(),
{
    let last = digits.last();
    let front = digits.drop_last();
    assert(digit(digit_value(last) as int) == last);
    if digits.len() == 1 {
        assert(front =~= Seq::<char>::empty());
        assert(value_of(front) == 0);
        assert(decimal(value_of(digits)) =~= digits);
    } else {
        assert(front[0] == digits[0]);
        assert forall|i: int| 0 <= i < front.len() implies is_digit(#[trigger] front[i]) by {
            assert(front[i] == digits[i]);
        }
        lemma_decimal_of_value(front);
        assert(decimal(value_of(digits)) =~= digits);
    }
}

/// The name of a generation file names its generation, and no other name
/// does: a name and a number belong together exactly when each is made
/// from the other.
pub proof fn lemma_names(name: Seq<char>, id: u64)
    ensures
        generation_named(name_of(id)) == Some(id),
        generation_named(name) == Some(id) <==> name == name_of(id),
{
    let made = name_of(id);
    lemma_decimal(id as nat);
    assert(made.take(made.len() - 4) =~= decimal(id as nat));
    assert(made.skip(made.len() - 4) =~= suffix());
    if generation_named(name) == Some(id) {
        let digits = name.take(name.len() - 4);
        lemma_decimal_of_value(digits);
        assert(name =~= digits + name.skip(name.len() - 4));
    }
}

/// The text of one decimal digit.
fn digit_text(d: u64) -> (text: &'static str)
    requires
        d < 10,
    ensures
        text@ == seq![digit(d as int)],
{
    let text = if d == 0 {
        "0"
    } else if d == 1 {
        "1"
    } else if d == 2 {
        "2"
    } else if d == 3 {
        "3"
    } else if d == 4 {
        "4"
    } else if d == 5 {
        "5"
    } else if d == 6 {
        "6"
    } else if d == 7 {
        "7"
    } else if d == 8 {
        "8"
    } else {
        "9"
    };
    proof {
        reveal_strlit("0");
        reveal_strlit("1");
        reveal_strlit("2");
        reveal_strlit("3");
        reveal_strlit("4");
        reveal_strlit("5");
        reveal_strlit("6");
        reveal_strlit("7");
        reveal_strlit("8");
        reveal_strlit("9");
        assert(text@ =~= seq![digit(d as int)]);
    }
    text
}

/// The decimal digits of a number as text.
fn decimal_text(n: u64) -> (text: String)
    ensures
        text@ == decimal(n as nat),
    decreases n,
{
    if n < 10 {
        digit_text(n).to_owned()
    } else {
        let mut text = decimal_text(n / 10);
        text.append(digit_text(n % 10));
        assert(text@ =~= decimal(n as nat));
        text
    }
}

/// The name of the file of a generation.
pub fn generation_name(id: u64) -> (name: String)
    ensures
        name@ == name_of(id),
{
    let mut name = decimal_text(id);
    proof {
        reveal_strlit(".log");
        assert(".log"@ =~= suffix());
    }
    name.append(".log");
    name
}

/// The generation whose file has this name, or `None` where the name is
/// not that of a generation file.
pub fn generation_of(name: &str) -> (r: Option<u64>)
    ensures
        r == generation_named(name@),
{
    let n: usize = name.unicode_len();
    if n < 5 {
        return None;
    }
    let count: usize = n - 4;
    let ghost digits = name@.take(count as int);
    let ghost tail = name@.skip(count as int);
    if name.get_char(count) != '.' || name.get_char(count + 1) != 'l' || name.get_char(count + 2)
        != 'o' || name.get_char(count + 3) != 'g' {
        proof {
            assert(tail[0] == name@[count as int]);
            assert(tail[1] == name@[count + 1]);
            assert(tail[2] == name@[count + 2]);
            assert(tail[3] == name@[count + 3]);
        }
        return None;
    }
    assert(tail =~= suffix());
    if count > 1 && name.get_char(0) == '0' {
        assert(digits[0] == '0');
        return None;
    }
    let mut value: u64 = 0;
    let mut i: usize = 0;
    assert(digits.take(0) =~= Seq::<char>::empty());
    while i < count
        invariant
            i <= count,
            count == n - 4,
            n == name@.len(),
            digits == name@.take(count as int),
            forall|k: int| 0 <= k < i ==> is_digit(#[trigger] digits[k]),
            value == value_of(digits.take(i as int)),
        decreases count - i,
    {
        let c = name.get_char(i);
        let code: u32 = c as u32;
        proof {
            assert(digits[i as int] == c);
            assert(digits.take(i + 1).drop_last() =~= digits.take(i as int));
            assert(digits.take(i + 1).last() == c);
            lemma_value_of_take(digits, i + 1);
        }
        if code < 0x30 || code > 0x39 {
            assert(!is_digit(digits[i as int]));
            return None;
        }
        let d: u64 = (code - 0x30) as u64;
        if value > (u64::MAX - d) / 10 {
            return None;
        }
        value = value * 10 + d;
        i += 1;
    }
    assert(digits.take(count as int) =~= digits);
    Some(value)
}

/// Whether no number is followed by a smaller one.
pub open spec fn nondecreasing(numbers: Seq<u64>) -> bool {
    forall|i: int, j: int| 0 <= i < j < numbers.len() ==> numbers[i] <= numbers[j]
}

/// The numbers in ascending order: the order in which the generations are
/// handed to the store.
pub fn ascending_order(numbers: &Vec<u64>) -> (sorted: Vec<u64>)
    ensures
        nondecreasing(sorted@),
        sorted@.to_multiset() == numbers@.to_multiset(),
{
    let mut sorted: Vec<u64> = Vec::new();
    let mut i: usize = 0;
    assert(numbers@.take(0) =~= Seq::<u64>::empty());
    while i < numbers.len()
        invariant
            i <= numbers.len(),
            nondecreasing(sorted@),
            sorted@.to_multiset() == numbers@.take(i as int).to_multiset(),
        decreases numbers.len() - i,
    {
        let number: u64 = numbers[i];
        let mut at: usize = 0;
        while at < sorted.len() && sorted[at] <= number
            invariant
                at <= sorted.len(),
                forall|k: int| 0 <= k < at ==> sorted@[k] <= number,
            decreases sorted.len() - at,
        {
            at += 1;
        }
        let ghost before = sorted@;
        sorted.insert(at, number);
        proof {
            to_multiset_insert(before, at as int, number);
            to_multiset_build(numbers@.take(i as int), number);
            assert(numbers@.take(i + 1) =~= numbers@.take(i as int).push(number));
            assert forall|a: int, b: int| 0 <= a < b < sorted@.len() implies sorted@[a]
                <= sorted@[b] by {
                if b < at {
                    assert(before[a] <= before[b]);
                } else if a > at {
                    assert(before[a - 1] <= before[b - 1]);
                } else if a < at && b > at {
                    assert(before[a] <= before[b - 1]);
                } else if a == at && b > at {
                    assert(before[at as int] <= before[b - 1]);
                }
            }
        }
        i += 1;
    }
    assert(numbers@.take(i as int) =~= numbers@);
    sorted
}

/// One step of bringing the files up to the store.
#[derive(Debug, Clone, Copy, PartialEq, Eq, Structural)]
pub enum Action {
    /// Write the whole generation into a new file.
    Create { generation: u64 },
    /// Write the bytes of the generation from offset `from` on to the end
    /// of its file.
    Append { generation: u64, from: u64 },
    /// Take the file of the generation away.
    Remove { generation: u64 },
}

/// The length of the file of a generation, or `None` where it has no file.
/// A file is given by the number of its generation and its length.
pub open spec fn written(files: Seq<(u64, u64)>, id: u64) -> Option<u64>
    decreases files.len(),
{
    if files.len() == 0 {
        None
    } else if files[0].0 == id {
        Some(files[0].1)
    } else {
        written(files.drop_first(), id)
    }
}

/// What has to be written of a generation: all of it where it has no file,
/// the bytes that its file lacks where the file is shorter, nothing
/// otherwise.
pub open spec fn needed(files: Seq<(u64, u64)>, generation: GenerationView) -> Option<Action> {
    match written(files, generation.id) {
        None => Some(Action::Create { generation: generation.id }),
        Some(length) => if length < generation.bytes.len() {
            Some(Action::Append { generation: generation.id, from: length })
        } else {
            None
        },
    }
}

/// What has to be written, in the order of the generations.
pub open spec fn writes(files: Seq<(u64, u64)>, generations: Seq<GenerationView>) -> Seq<Action>
    decreases generations.len(),
{
    if generations.len() == 0 {
        Seq::empty()
    } else {
        match needed(files, generations.last()) {
            Some(action) => writes(files, generations.drop_last()).push(action),
            None => writes(files, generations.drop_last()),
        }
    }
}

/// What has to be taken away, in the order of the files: each file whose
/// generation the store does not hold.
pub open spec fn removals(files: Seq<(u64, u64)>, generations: Seq<GenerationView>) -> Seq<
    Action,
>
    decreases files.len(),
{
    if files.len() == 0 {
        Seq::empty()
    } else if has_generation(generations, files.last().0) {
        removals(files.drop_last(), generations)
    } else {
        removals(files.drop_last(), generations).push(
            Action::Remove { generation: files.last().0 },
        )
    }
}

/// The steps that bring the files up to the generations: first all that
/// has to be written, then all that has to be taken away.
pub open spec fn plan_of(files: Seq<(u64, u64)>, generations: Seq<GenerationView>) -> Seq<
    Action,
> {
    writes(files, generations) + removals(files, generations)
}

/// Nothing that has to be written is a removal, and each write is what a
/// held generation needs.
pub proof fn lemma_writes(files: Seq<(u64, u64)>, generations: Seq<GenerationView>)
    ensures
        forall|i: int|
            0 <= i < writes(files, generations).len() ==> !(#[trigger] writes(
                files,
                generations,
            )[i] is Remove),
        forall|action: Action| #[trigger]
            writes(files, generations).contains(action) <==> exists|g: int|
                0 <= g < generations.len() && needed(files, #[trigger] generations[g]) == Some(
                    action,
                ),
    decreases generations.len(),
{
    let all = writes(files, generations);
    if generations.len() > 0 {
        let older = generations.drop_last();
        let before = writes(files, older);
        lemma_writes(files, older);
        let last = needed(files, generations.last());
        assert forall|action: Action| #[trigger] all.contains(action) <==> exists|g: int|
            0 <= g < generations.len() && needed(files, #[trigger] generations[g]) == Some(
                action,
            ) by {
            if all.contains(action) {
                let i = choose|i: int| 0 <= i < all.len() && all[i] == action;
                if i < before.len() {
                    assert(before[i] == action);
                    assert(before.contains(action));
                    let g = choose|g: int|
                        0 <= g < older.len() && needed(files, #[trigger] older[g]) == Some(action);
                    assert(generations[g] == older[g]);
                } else {
                    assert(needed(files, generations[generations.len() - 1]) == Some(action));
                }
            }
            if exists|g: int|
                0 <= g < generations.len() && needed(files, #[trigger] generations[g]) == Some(
                    action,
                ) {
                let g = choose|g: int|
                    0 <= g < generations.len() && needed(files, #[trigger] generations[g])
                        == Some(action);
                if g < older.len() {
                    assert(older[g] == generations[g]);
                    assert(before.contains(action));
                    let i = choose|i: int| 0 <= i < before.len() && before[i] == action;
                    assert(all[i] == action);
                } else {
                    assert(all[all.len() - 1] == action);
                }
            }
        }
    }
}

/// All that has to be taken away is removals: of each file whose
/// generation the store does not hold, and of no other.
pub proof fn lemma_removals(files: Seq<(u64, u64)>, generations: Seq<GenerationView>)
    ensures
        forall|i: int|
            0 <= i < removals(files, generations).len() ==> #[trigger] removals(
                files,
                generations,
            )[i] is Remove,
        forall|id: u64| #[trigger]
            removals(files, generations).contains(Action::Remove { generation: id }) <==> (
            !has_generation(generations, id) && exists|f: int|
                0 <= f < files.len() && (#[trigger] files[f]).0 == id),
    decreases files.len(),
{
    let all = removals(files, generations);
    if files.len() > 0 {
        let earlier = files.drop_last();
        let before = removals(earlier, generations);
        lemma_removals(earlier, generations);
        assert forall|id: u64| #[trigger]
            all.contains(Action::Remove { generation: id }) <==> (!has_generation(generations, id)
                && exists|f: int| 0 <= f < files.len() && (#[trigger] files[f]).0 == id) by {
            let action = Action::Remove { generation: id };
            if all.contains(action) {
                let i = choose|i: int| 0 <= i < all.len() && all[i] == action;
                if i < before.len() {
                    assert(before[i] == action);
                    assert(before.contains(action));
                    let f = choose|f: int| 0 <= f < earlier.len() && (#[trigger] earlier[f]).0 == id;
                    assert(files[f].0 == id);
                } else {
                    assert(files[files.len() - 1].0 == id);
                }
            }
            if !has_generation(generations, id) && exists|f: int|
                0 <= f < files.len() && (#[trigger] files[f]).0 == id {
                let f = choose|f: int| 0 <= f < files.len() && (#[trigger] files[f]).0 == id;
                if f < earlier.len() {
                    assert(earlier[f].0 == id);
                    assert(before.contains(action));
                    let i = choose|i: int| 0 <= i < before.len() && before[i] == action;
                    assert(all[i] == action);
                } else {
                    assert(all[all.len() - 1] == action);
                }
            }
        }
    }
}

/// The length of the file of a generation, or `None` where it has no file.
fn length_of(files: &Vec<(u64, u64)>, id: u64) -> (r: Option<u64>)
    ensures
        r == written(files@, id),
{
    let mut i: usize = 0;
    assert(files@.skip(0) =~= files@);
    while i < files.len()
        invariant
            i <= files.len(),
            written(files@, id) == written(files@.skip(i as int), id),
        decreases files.len() - i,
    {
        assert(files@.skip(i as int).drop_first() =~= files@.skip(i + 1));
        if files[i].0 == id {
            return Some(files[i].1);
        }
        i += 1;
    }
    None
}

/// Whether the store holds a generation with this number.
fn holds(generations: &Vec<Generation>, id: u64) -> (r: bool)
    ensures
        r == has_generation(views_of(generations@), id),
{
    let mut i: usize = 0;
    while i < generations.len()
        invariant
            i <= generations.len(),
            forall|j: int| 0 <= j < i ==> (#[trigger] views_of(generations@)[j]).id != id,
        decreases generations.len() - i,
    {
        if generations[i].id == id {
            assert(views_of(generations@)[i as int].id == id);
            return true;
        }
        i += 1;
    }
    false
}

/// What has to be done to the files, given by the number of their
/// generation and their length, to bring them up to the generations: for
/// each generation, in their order, what its file lacks; then, for each
/// file that belongs to no generation, in the order of the files, its
/// removal. No write comes after a removal, so that nothing is taken away
/// before all that is new has been written.
pub fn plan(files: &Vec<(u64, u64)>, generations: &Vec<Generation>) -> (actions: Vec<Action>)
    ensures
        actions@ == plan_of(files@, views_of(generations@)),
        forall|i: int, j: int|
            0 <= i < j < actions@.len() && actions@[i] is Remove ==> actions@[j] is Remove,
        forall|id: u64| #[trigger]
            actions@.contains(Action::Remove { generation: id }) <==> (!has_generation(
                views_of(generations@),
                id,
            ) && exists|f: int| 0 <= f < files@.len() && (#[trigger] files@[f]).0 == id),
{
    let ghost held = views_of(generations@);
    let mut actions: Vec<Action> = Vec::new();
    let mut g: usize = 0;
    assert(held.take(0) =~= Seq::<GenerationView>::empty());
    while g < generations.len()
        invariant
            g <= generations.len(),
            held == views_of(generations@),
            actions@ == writes(files@, held.take(g as int)),
        decreases generations.len() - g,
    {
        proof {
            assert(held.take(g + 1).drop_last() =~= held.take(g as int));
            assert(held.take(g + 1).last() == held[g as int]);
        }
        match length_of(files, generations[g].id) {
            None => {
                actions.push(Action::Create { generation: generations[g].id });
            },
            Some(length) => {
                if length < generations[g].bytes.len() as u64 {
                    actions.push(Action::Append { generation: generations[g].id, from: length });
                }
            },
        }
        g += 1;
    }
    assert(held.take(g as int) =~= held);
    let ghost written_first = actions@;
    let mut f: usize = 0;
    assert(files@.take(0) =~= Seq::<(u64, u64)>::empty());
    while f < files.len()
        invariant
            f <= files.len(),
            held == views_of(generations@),
            written_first == writes(files@, held),
            actions@ == written_first + removals(files@.take(f as int), held),
        decreases files.len() - f,
    {
        proof {
            assert(files@.take(f + 1).drop_last() =~= files@.take(f as int));
            assert(files@.take(f + 1).last() == files@[f as int]);
        }
        if !holds(generations, files[f].0) {
            actions.push(Action::Remove { generation: files[f].0 });
        }
        f += 1;
    }
    proof {
        assert(files@.take(f as int) =~= files@);
        lemma_writes(files@, held);
        lemma_removals(files@, held);
        let first = writes(files@, held);
        let second = removals(files@, held);
        assert forall|id: u64| #[trigger]
            actions@.contains(Action::Remove { generation: id }) <==> second.contains(
                Action::Remove { generation: id },
            ) by {
            let action = Action::Remove { generation: id };
            if actions@.contains(action) {
                let i = choose|i: int| 0 <= i < actions@.len() && actions@[i] == action;
                if i < first.len() {
                    assert(first[i] == action);
                } else {
                    assert(second[i - first.len()] == action);
                }
            }
            if second.contains(action) {
                let i = choose|i: int| 0 <= i < second.len() && second[i] == action;
                assert(actions@[first.len() + i] == action);
            }
        }
        assert forall|i: int, j: int|
            0 <= i < j < actions@.len() && actions@[i] is Remove implies actions@[j] is Remove by {
            if i < first.len() {
                assert(actions@[i] == first[i]);
            }
            assert(actions@[j] == second[j - first.len()]);
        }
    }
    actions
}

} // verus!

//! The names of segment files: the decimal numeral of a generation and the
//! extension `.Error`.

use vstd::prelude::*;
use vstd::string::*;

verus! {

/// The character of the decimal digit `d`.
pub open spec fn digit_char(d: nat) -> char {
    if d == 0 {
        '0'
    } else if d == 1 {
        '1'
    } else if d == 2 {
        '2'
    } else if d == 3 {
        '3'
    } else if d == 4 {
        '4'
    } else if d == 5 {
        '5'
    } else if d == 6 {
        '6'
    } else if d == 7 {
        '7'
    } else if d == 8 {
        '8'
    } else {
        '9'
    }
}

/// The digit that a character stands for, if it is a decimal digit.
pub open spec fn digit_value(c: char) -> Option<nat> {
    if c == '0' {
        Some(0)
    } else if c == '1' {
        Some(1)
    } else if c == '2' {
        Some(2)
    } else if c == '3' {
        Some(3)
    } else if c == '4' {
        Some(4)
    } else if c == '5' {
        Some(5)
    } else if c == '6' {
        Some(6)
    } else if c == '7' {
        Some(7)
    } else if c == '8' {
        Some(8)
    } else if c == '9' {
        Some(9)
    } else {
        None
    }
}

/// The decimal numeral of `n`, without leading zeros.
pub open spec fn decimal(n: nat) -> Seq<char>
    decreases n,
{
    if n < 10 {
        seq![digit_char(n)]
    } else {
        decimal(n / 10).push(digit_char(n % 10))
    }
}

/// The number that a sequence of decimal digits stands for.
pub open spec fn numeral_value(digits: Seq<char>) -> nat
    decreases digits.len(),
{
    if digits.len() == 0 {
        0
    } else {
        numeral_value(digits.drop_last()) * 10 + digit_value(digits.last()).unwrap_or(0)
    }
}

/// The extension `.Error`, which every segment file carries.
pub open spec fn extension() -> Seq<char> {
    seq!['.', 'E', 'r', 'r', 'o', 'r']
}

/// The name of the segment file of generation `gen`.
pub open spec fn segment_name(gen: u64) -> Seq<char> {
    decimal(gen as nat) + extension()
}

/// The generation whose segment file has the name `name`; `None` where the
/// name is that of no segment file. Generations begin at 1.
pub open spec fn generation_of(name: Seq<char>) -> Option<u64> {
    if exists|gen: u64| gen >= 1 && name == #[trigger] segment_name(gen) {
        Some(choose|gen: u64| gen >= 1 && name == #[trigger] segment_name(gen))
    } else {
        None
    }
}

/// The path of the segment file of generation `gen` in the directory `path`.
pub open spec fn segment_path(path: Seq<char>, gen: u64) -> Seq<char> {
    path + seq!['/'] + segment_name(gen)
}

/// A numeral is made of digits, does not begin with `0` unless it is `0`,
/// and stands for its number.
pub proof fn lemma_decimal(n: nat)
    ensures
        decimal(n).len() >= 1,
        forall|i: int| 0 <= i < decimal(n).len() ==> digit_value(#[trigger] decimal(n)[i]) is Some,
        n >= 1 ==> decimal(n)[0] != '0',
        numeral_value(decimal(n)) == n,
    decreases n,
{
    if n < 10 {
        assert(decimal(n).drop_last() =~= Seq::<char>::empty());
        assert(numeral_value(decimal(n).drop_last()) == 0);
    } else {
        lemma_decimal(n / 10);
        assert(decimal(n).drop_last() =~= decimal(n / 10));
        assert(decimal(n).last() == digit_char(n % 10));
        assert(decimal(n)[0] == decimal(n / 10)[0]);
    }
}

/// Digits that do not begin with `0` are the numeral of their number.
pub proof fn lemma_numeral(digits: Seq<char>)
    requires
        digits.len() >= 1,
        forall|i: int| 0 <= i < digits.len() ==> digit_value(#[trigger] digits[i]) is Some,
        digits[0] != '0',
    ensures
        decimal(numeral_value(digits)) == digits,
        numeral_value(digits) >= 1,
    decreases digits.len(),
{
    let front = digits.drop_last();
    let d = digit_value(digits.last()).unwrap();
    assert(digit_char(d) == digits.last());
    if digits.len() == 1 {
        assert(front =~= Seq::<char>::empty());
        assert(numeral_value(front) == 0);
        assert(decimal(d) =~= digits);
    } else {
        assert forall|i: int| 0 <= i < front.len() implies digit_value(#[trigger] front[i])
            is Some by {
            assert(front[i] == digits[i]);
        }
        assert(front[0] == digits[0]);
        lemma_numeral(front);
        let v = numeral_value(front) * 10 + d;
        assert(v / 10 == numeral_value(front) && v % 10 == d);
        assert(decimal(v) =~= digits);
    }
}

/// Two generations with the same file name are the same generation.
pub proof fn lemma_segment_name_injective(a: u64, b: u64)
    requires
        segment_name(a) == segment_name(b),
    ensures
        a == b,
{
    lemma_decimal(a as nat);
    lemma_decimal(b as nat);
    let n = segment_name(a).len() - 6;
    assert(decimal(a as nat).len() == n);
    assert(decimal(b as nat).len() == n);
    assert(segment_name(a).subrange(0, n) =~= decimal(a as nat));
    assert(segment_name(b).subrange(0, n) =~= decimal(b as nat));
}

/// The file name of a generation from 1 on names that generation.
pub proof fn lemma_generation_of_name(gen: u64)
    requires
        gen >= 1,
    ensures
        generation_of(segment_name(gen)) == Some(gen),
{
    let other = choose|g: u64| g >= 1 && segment_name(gen) == #[trigger] segment_name(g);
    lemma_segment_name_injective(gen, other);
}

/// The number of a prefix of digits is at most the number of all of them.
pub proof fn lemma_numeral_prefix(digits: Seq<char>, n: int)
    requires
        0 <= n <= digits.len(),
    ensures
        numeral_value(digits.subrange(0, n)) <= numeral_value(digits),
    decreases digits.len() - n,
{
    if n == digits.len() {
        assert(digits.subrange(0, n) =~= digits);
    } else {
        lemma_numeral_prefix(digits, n + 1);
        assert(digits.subrange(0, n + 1).drop_last() =~= digits.subrange(0, n));
    }
}

fn digit_text(d: u64) -> (r: &'static str)
    requires
        d < 10,
    ensures
        r@ == seq![digit_char(d as nat)],
{
    proof {
        reveal_strlit("0");
        reveal_strlit("1");
        reveal_strlit("2");
        reveal_strlit("3");
        reveal_strlit("4");
        reveal_strlit("5");
        reveal_strlit("6");
        reveal_strlit("7");
        reveal_strlit("8");
        reveal_strlit("9");
    }
    let r = if d == 0 {
        "0"
    } else if d == 1 {
        "1"
    } else if d == 2 {
        "2"
    } else if d == 3 {
        "3"
    } else if d == 4 {
        "4"
    } else if d == 5 {
        "5"
    } else if d == 6 {
        "6"
    } else if d == 7 {
        "7"
    } else if d == 8 {
        "8"
    } else {
        "9"
    };
    assert(r@ =~= seq![digit_char(d as nat)]);
    r
}

fn decimal_text(n: u64) -> (r: String)
    ensures
        r@ == decimal(n as nat),
    decreases n,
{
    if n < 10 {
        digit_text(n).to_owned()
    } else {
        decimal_text(n / 10).concat(digit_text(n % 10))
    }
}

/// The name of the segment file of generation `gen`: its decimal numeral and
/// the extension `.Error`.
pub fn segment_file_name(gen: u64) -> (r: String)
    ensures
        r@ == segment_name(gen),
{
    proof {
        reveal_strlit(".Error");
    }
    let r = decimal_text(gen).concat(".Error");
    assert(".Error"@ =~= extension());
    r
}

/// The path of the segment file of generation `gen` in the store directory
/// `path`.
pub fn db_path(path: &str, gen: u64) -> (r: String)
    ensures
        r@ == segment_path(path@, gen),
{
    proof {
        reveal_strlit("/");
    }
    let name = segment_file_name(gen);
    let r = path.to_owned().concat("/").concat(name.as_str());
    assert("/"@ =~= seq!['/']);
    r
}

fn digit_of(c: char) -> (r: Option<u64>)
    ensures
        match r {
            Some(d) => digit_value(c) == Some(d as nat) && d < 10,
            None => digit_value(c) is None,
        },
{
    if c == '0' {
        Some(0)
    } else if c == '1' {
        Some(1)
    } else if c == '2' {
        Some(2)
    } else if c == '3' {
        Some(3)
    } else if c == '4' {
        Some(4)
    } else if c == '5' {
        Some(5)
    } else if c == '6' {
        Some(6)
    } else if c == '7' {
        Some(7)
    } else if c == '8' {
        Some(8)
    } else if c == '9' {
        Some(9)
    } else {
        None
    }
}

/// What a name must be to name the segment file of a generation from 1 on.
proof fn lemma_segment_name_shape(name: Seq<char>, gen: u64)
    requires
        gen >= 1,
        name == segment_name(gen),
    ensures
        name.len() >= 7,
        name.subrange(name.len() - 6, name.len() as int) == extension(),
        name.subrange(0, name.len() - 6) == decimal(gen as nat),
        forall|i: int| 0 <= i < name.len() - 6 ==> digit_value(#[trigger] name[i]) is Some,
        name[0] != '0',
        numeral_value(name.subrange(0, name.len() - 6)) == gen,
{
    lemma_decimal(gen as nat);
    let d = decimal(gen as nat);
    assert(name.subrange(name.len() - 6, name.len() as int) =~= extension());
    assert(name.subrange(0, name.len() - 6) =~= d);
    assert forall|i: int| 0 <= i < name.len() - 6 implies digit_value(#[trigger] name[i])
        is Some by {
        assert(name[i] == d[i]);
    }
    assert(name[0] == d[0]);
}

/// The generation whose segment file has the name `name`: the name is a
/// decimal numeral from 1 to the largest 64-bit number, without leading
/// zeros, followed by `.Error`. `None` for every other name.
pub fn parse_generation(name: &str) -> (r: Option<u64>)
    ensures
        r == generation_of(name@),
{
    let n = name.unicode_len();
    if n < 7 {
        proof {
            if exists|gen: u64| gen >= 1 && name@ == #[trigger] segment_name(gen) {
                let gen = choose|gen: u64| gen >= 1 && name@ == #[trigger] segment_name(gen);
                lemma_segment_name_shape(name@, gen);
            }
        }
        return None;
    }
    let d = n - 6;
    if name.get_char(d) != '.' || name.get_char(d + 1) != 'E' || name.get_char(d + 2) != 'r'
        || name.get_char(d + 3) != 'r' || name.get_char(d + 4) != 'o' || name.get_char(d + 5)
        != 'r' {
        proof {
            if exists|gen: u64| gen >= 1 && name@ == #[trigger] segment_name(gen) {
                let gen = choose|gen: u64| gen >= 1 && name@ == #[trigger] segment_name(gen);
                lemma_segment_name_shape(name@, gen);
                let tail = name@.subrange(n - 6, n as int);
                assert(tail[0] == name@[d as int] && tail[1] == name@[d + 1] && tail[2] == name@[d
                    + 2] && tail[3] == name@[d + 3] && tail[4] == name@[d + 4] && tail[5]
                    == name@[d + 5]);
            }
        }
        return None;
    }
    if name.get_char(0) == '0' {
        proof {
            if exists|gen: u64| gen >= 1 && name@ == #[trigger] segment_name(gen) {
                let gen = choose|gen: u64| gen >= 1 && name@ == #[trigger] segment_name(gen);
                lemma_segment_name_shape(name@, gen);
            }
        }
        return None;
    }
    let ghost digits = name@.subrange(0, d as int);
    let mut value: u64 = 0;
    let mut i: usize = 0;
    while i < d
        invariant
            i <= d,
            d + 6 == n,
            n == name@.len(),
            digits == name@.subrange(0, d as int),
            value == numeral_value(digits.subrange(0, i as int)),
            forall|j: int| 0 <= j < i ==> digit_value(#[trigger] name@[j]) is Some,
        decreases d - i,
    {
        let digit = match digit_of(name.get_char(i)) {
            Some(digit) => digit,
            None => {
                proof {
                    if exists|gen: u64| gen >= 1 && name@ == #[trigger] segment_name(gen) {
                        let gen = choose|gen: u64|
                            gen >= 1 && name@ == #[trigger] segment_name(gen);
                        lemma_segment_name_shape(name@, gen);
                    }
                }
                return None;
            },
        };
        proof {
            assert(digits.subrange(0, i + 1).drop_last() =~= digits.subrange(0, i as int));
            assert(digits.subrange(0, i + 1).last() == name@[i as int]);
        }
        if value > (u64::MAX - digit) / 10 {
            proof {
                if exists|gen: u64| gen >= 1 && name@ == #[trigger] segment_name(gen) {
                    let gen = choose|gen: u64| gen >= 1 && name@ == #[trigger] segment_name(gen);
                    lemma_segment_name_shape(name@, gen);
                    lemma_numeral_prefix(digits, i + 1);
                }
            }
            return None;
        }
        value = value * 10 + digit;
        i += 1;
    }
    proof {
        assert(digits.subrange(0, d as int) =~= digits);
        assert forall|j: int| 0 <= j < digits.len() implies digit_value(#[trigger] digits[j])
            is Some by {
            assert(digits[j] == name@[j]);
        }
        lemma_numeral(digits);
        assert(name@ =~= digits + name@.subrange(d as int, n as int));
        assert(name@.subrange(d as int, n as int) =~= extension());
        lemma_generation_of_name(value);
    }
    Some(value)
}

/// Each generation is smaller than the ones behind it.
pub open spec fn ascending(gens: Seq<u64>) -> bool {
    forall|i: int, j: int| 0 <= i < j < gens.len() ==> gens[i] < gens[j]
}

/// One of `names` is the name of the segment file of generation `gen`.
pub open spec fn names_generation(names: Seq<Seq<char>>, gen: u64) -> bool {
    exists|i: int| 0 <= i < names.len() && generation_of(#[trigger] names[i]) == Some(gen)
}

/// What the contracts see of a list of names.
pub open spec fn names_view(names: Seq<String>) -> Seq<Seq<char>> {
    Seq::new(names.len(), |i: int| names[i]@)
}

/// Puts `gen` at its place among ascending generations, unless it is there.
fn insert_ascending(gens: &mut Vec<u64>, gen: u64)
    requires
        ascending(old(gens)@),
    ensures
        ascending(final(gens)@),
        forall|g: u64| final(gens)@.contains(g) <==> (g == gen || old(gens)@.contains(g)),
{
    let ghost before = gens@;
    let mut i: usize = gens.len();
    while i > 0 && gens[i - 1] > gen
        invariant
            i <= gens.len(),
            gens@ == before,
            ascending(before),
            forall|j: int| i <= j < before.len() ==> before[j] > gen,
        decreases i,
    {
        i -= 1;
    }
    if i > 0 && gens[i - 1] == gen {
        assert(before.contains(gen));
        return ;
    }
    gens.insert(i, gen);
    proof {
        let after = gens@;
        assert(after == before.insert(i as int, gen));
        assert forall|a: int, b: int| 0 <= a < b < after.len() implies after[a] < after[b] by {
            if i > 0 {
                assert(before[i - 1] < gen);
            }
            let a0 = if a < i { a } else { a - 1 };
            let b0 = if b < i { b } else { b - 1 };
            if a != i && b != i {
                assert(before[a0] < before[b0]);
            } else if a == i {
                assert(before[b0] > gen);
            } else {
                if a0 < i - 1 {
                    assert(before[a0] < before[i - 1]);
                }
            }
        }
        assert forall|g: u64| after.contains(g) <==> (g == gen || before.contains(g)) by {
            if after.contains(g) {
                let a = choose|a: int| 0 <= a < after.len() && after[a] == g;
                if a != i {
                    let a0 = if a < i { a } else { a - 1 };
                    assert(before[a0] == g);
                }
            }
            if g == gen {
                assert(after[i as int] == g);
            }
            if before.contains(g) {
                let a = choose|a: int| 0 <= a < before.len() && before[a] == g;
                let a1 = if a < i { a } else { a + 1 };
                assert(after[a1] == g);
            }
        }
    }
}

/// The generations among `parsed`, each once, in ascending order.
pub fn ascending_generations(parsed: &Vec<Option<u64>>) -> (r: Vec<u64>)
    ensures
        ascending(r@),
        forall|g: u64| r@.contains(g) <==> parsed@.contains(Some(g)),
{
    let mut r: Vec<u64> = Vec::new();
    let mut i: usize = 0;
    while i < parsed.len()
        invariant
            i <= parsed.len(),
            ascending(r@),
            forall|g: u64| r@.contains(g) <==> parsed@.subrange(0, i as int).contains(Some(g)),
        decreases parsed.len() - i,
    {
        let ghost seen = parsed@.subrange(0, i as int);
        let ghost next = parsed@.subrange(0, i + 1);
        let ghost before = r@;
        proof {
            assert forall|x: Option<u64>| next.contains(x) <==> (seen.contains(x) || x
                == parsed@[i as int]) by {
                if next.contains(x) {
                    let a = choose|a: int| 0 <= a < next.len() && next[a] == x;
                    if a < i {
                        assert(seen[a] == x);
                    }
                }
                if seen.contains(x) {
                    let a = choose|a: int| 0 <= a < seen.len() && seen[a] == x;
                    assert(next[a] == x);
                }
                if x == parsed@[i as int] {
                    assert(next[i as int] == x);
                }
            }
        }
        match parsed[i] {
            Some(gen) => {
                insert_ascending(&mut r, gen);
            },
            None => {},
        }
        i += 1;
    }
    assert(parsed@.subrange(0, parsed.len() as int) =~= parsed@);
    r
}

/// The generations of the segment files among `names`, each once, in
/// ascending order. Names that are not those of segment files are passed
/// over.
pub fn generations(names: &Vec<String>) -> (r: Vec<u64>)
    ensures
        ascending(r@),
        forall|g: u64| r@.contains(g) <==> names_generation(names_view(names@), g),
{
    let mut parsed: Vec<Option<u64>> = Vec::new();
    let mut i: usize = 0;
    while i < names.len()
        invariant
            i <= names.len(),
            parsed.len() == i,
            forall|j: int| 0 <= j < i ==> parsed@[j] == generation_of(names@[j]@),
        decreases names.len() - i,
    {
        parsed.push(parse_generation(names[i].as_str()));
        i += 1;
    }
    let r = ascending_generations(&parsed);
    proof {
        let views = names_view(names@);
        assert forall|g: u64| parsed@.contains(Some(g)) <==> names_generation(views, g) by {
            if parsed@.contains(Some(g)) {
                let a = choose|a: int| 0 <= a < parsed@.len() && parsed@[a] == Some(g);
                assert(generation_of(views[a]) == Some(g));
            }
            if names_generation(views, g) {
                let a = choose|a: int|
                    0 <= a < views.len() && generation_of(#[trigger] views[a]) == Some(g);
                assert(parsed@[a] == Some(g));
            }
        }
    }
    r
}

} // verus!

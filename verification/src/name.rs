use vstd::prelude::*;
use vstd::string::*;

verus! {

/// The character of a decimal digit.
pub open spec fn digit(d: nat) -> char {
    if d == 0 {
        '0'
    } else if d == 1 {
        '1'
    } else if d == 2 {
        '2'
    } else if d == 3 {
        '3'
    } else if d == 4 {
        '4'
    } else if d == 5 {
        '5'
    } else if d == 6 {
        '6'
    } else if d == 7 {
        '7'
    } else if d == 8 {
        '8'
    } else {
        '9'
    }
}

/// The digit that a character stands for, if it is one of `0` to `9`.
pub open spec fn digit_value(c: char) -> Option<nat> {
    if c == '0' {
        Some(0)
    } else if c == '1' {
        Some(1)
    } else if c == '2' {
        Some(2)
    } else if c == '3' {
        Some(3)
    } else if c == '4' {
        Some(4)
    } else if c == '5' {
        Some(5)
    } else if c == '6' {
        Some(6)
    } else if c == '7' {
        Some(7)
    } else if c == '8' {
        Some(8)
    } else if c == '9' {
        Some(9)
    } else {
        None
    }
}

/// A number in decimal, without leading zeros.
pub open spec fn decimal(n: nat) -> Seq<char>
    decreases n,
{
    if n < 10 {
        seq![digit(n)]
    } else {
        decimal(n / 10).push(digit(n % 10))
    }
}

/// The number that a row of decimal digits stands for.
pub open spec fn number_of(digits: Seq<char>) -> nat
    decreases digits.len(),
{
    if digits.len() == 0 {
        0
    } else {
        number_of(digits.drop_last()) * 10 + match digit_value(digits.last()) {
            Some(d) => d,
            None => 0,
        }
    }
}

/// The name of the file of segment `file_id`: the identifier in decimal,
/// then `.log`.
pub open spec fn log_name(file_id: usize) -> Seq<char> {
    decimal(file_id as nat) + ".log"@
}

/// A number in decimal has at least one character, only digits, and stands
/// for that number.
pub proof fn lemma_decimal_digits(n: nat)
    ensures
        decimal(n).len() >= 1,
        forall|j: int| 0 <= j < decimal(n).len() ==> digit_value(#[trigger] decimal(n)[j]) is Some,
        number_of(decimal(n)) == n,
    decreases n,
{
    if n < 10 {
        assert(decimal(n).drop_last() =~= Seq::<char>::empty());
        assert(number_of(decimal(n).drop_last()) == 0);
    } else {
        lemma_decimal_digits(n / 10);
        assert(decimal(n).drop_last() =~= decimal(n / 10));
    }
}

/// The first few digits of a row stand for no more than the first few more.
pub proof fn lemma_number_of_prefix(digits: Seq<char>, a: int, b: int)
    requires
        0 <= a <= b <= digits.len(),
    ensures
        number_of(digits.take(a)) <= number_of(digits.take(b)),
    decreases b - a,
{
    if a < b {
        lemma_number_of_prefix(digits, a, b - 1);
        assert(digits.take(b).drop_last() =~= digits.take(b - 1));
    }
}

/// The digit `d` as a string.
fn digit_str(d: usize) -> (s: &'static str)
    requires
        d < 10,
    ensures
        s@ == seq![digit(d as nat)],
{
    proof {
        reveal_strlit("0");
        reveal_strlit("1");
        reveal_strlit("2");
        reveal_strlit("3");
        reveal_strlit("4");
        reveal_strlit("5");
        reveal_strlit("6");
        reveal_strlit("7");
        reveal_strlit("8");
        reveal_strlit("9");
    }
    let s = if d == 0 {
        "0"
    } else if d == 1 {
        "1"
    } else if d == 2 {
        "2"
    } else if d == 3 {
        "3"
    } else if d == 4 {
        "4"
    } else if d == 5 {
        "5"
    } else if d == 6 {
        "6"
    } else if d == 7 {
        "7"
    } else if d == 8 {
        "8"
    } else {
        "9"
    };
    assert(s@ =~= seq![digit(d as nat)]);
    s
}

/// The digit that `c` stands for, if it is one.
fn digit_of(c: char) -> (d: Option<usize>)
    ensures
        match d {
            Some(d) => digit_value(c) == Some(d as nat) && d < 10,
            None => digit_value(c) is None,
        },
{
    if c == '0' {
        Some(0)
    } else if c == '1' {
        Some(1)
    } else if c == '2' {
        Some(2)
    } else if c == '3' {
        Some(3)
    } else if c == '4' {
        Some(4)
    } else if c == '5' {
        Some(5)
    } else if c == '6' {
        Some(6)
    } else if c == '7' {
        Some(7)
    } else if c == '8' {
        Some(8)
    } else if c == '9' {
        Some(9)
    } else {
        None
    }
}

/// `n` in decimal.
fn decimal_string(n: usize) -> (s: String)
    ensures
        s@ == decimal(n as nat),
    decreases n,
{
    if n < 10 {
        String::from_str(digit_str(n))
    } else {
        let mut s = decimal_string(n / 10);
        s.append(digit_str(n % 10));
        assert(s@ =~= decimal(n as nat));
        s
    }
}

/// The name of the file that holds segment `file_id`, within the store's
/// directory.
pub fn log_path(file_id: usize) -> (name: String)
    ensures
        name@ == log_name(file_id),
{
    let mut name = decimal_string(file_id);
    name.append(".log");
    name
}

/// The segment that a file of the directory holds, going by its name. A file
/// whose name is not exactly that of a segment holds none.
pub fn segment_id(name: &str) -> (id: Option<usize>)
    ensures
        match id {
            Some(i) => name@ == log_name(i),
            None => forall|i: usize| name@ != #[trigger] log_name(i),
        },
{
    proof {
        reveal_strlit(".log");
    }
    let n = name.unicode_len();
    if n < 5 {
        assert forall|i: usize| name@ != #[trigger] log_name(i) by {
            lemma_decimal_digits(i as nat);
        }
        return None;
    }
    let count = n - 4;
    let mut number: usize = 0;
    let mut at: usize = 0;
    assert(name@.take(0) =~= Seq::<char>::empty());
    while at < count
        invariant
            n == name@.len(),
            count == n - 4,
            ".log"@.len() == 4,
            at <= count,
            number == number_of(name@.take(at as int)),
        decreases count - at,
    {
        let c = name.get_char(at);
        assert(name@.take(at + 1).drop_last() =~= name@.take(at as int));
        let d = match digit_of(c) {
            Some(d) => d,
            None => {
                assert forall|i: usize| name@ != #[trigger] log_name(i) by {
                    lemma_decimal_digits(i as nat);
                    if name@ == log_name(i) {
                        assert(decimal(i as nat).len() == count);
                        assert(log_name(i)[at as int] == decimal(i as nat)[at as int]);
                        assert(decimal(i as nat)[at as int] == c);
                    }
                }
                return None;
            },
        };
        if number > (usize::MAX - d) / 10 {
            assert forall|i: usize| name@ != #[trigger] log_name(i) by {
                lemma_decimal_digits(i as nat);
                if name@ == log_name(i) {
                    assert(name@.take(count as int) =~= decimal(i as nat));
                    lemma_number_of_prefix(name@.take(count as int), at + 1, count as int);
                    assert(name@.take(count as int).take(at + 1) =~= name@.take(at + 1));
                    assert(name@.take(count as int).take(count as int) =~= name@.take(
                        count as int,
                    ));
                }
            }
            return None;
        }
        number = number * 10 + d;
        at += 1;
    }
    let rendered = log_path(number);
    if rendered == name.to_owned() {
        Some(number)
    } else {
        assert forall|i: usize| name@ != #[trigger] log_name(i) by {
            lemma_decimal_digits(i as nat);
            if name@ == log_name(i) {
                assert(name@.take(count as int) =~= decimal(i as nat));
            }
        }
        None
    }
}

} // verus!

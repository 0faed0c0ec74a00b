//! The names of log files: `<gen>.kvstore`, where `<gen>` is the generation written
//! in decimal, without sign and without leading zeros.

use vstd::prelude::*;
use vstd::string::{StrSliceExecFns, StringExecFns};

verus! {

/// The extension of a log file's name.
pub const BUCKET_EXT: &'static str = "kvstore";

/// What follows the generation in a log file's name.
pub open spec fn suffix() -> Seq<char> {
    ".kvstore"@
}

/// The character of a decimal digit.
pub open spec fn digit_char(d: int) -> char {
    if d == 0 {
        '0'
    } else if d == 1 {
        '1'
    } else if d == 2 {
        '2'
    } else if d == 3 {
        '3'
    } else if d == 4 {
        '4'
    } else if d == 5 {
        '5'
    } else if d == 6 {
        '6'
    } else if d == 7 {
        '7'
    } else if d == 8 {
        '8'
    } else {
        '9'
    }
}

/// The digit that a character stands for, if it is a decimal digit.
pub open spec fn digit_value(c: char) -> Option<int> {
    if c == '0' {
        Some(0)
    } else if c == '1' {
        Some(1)
    } else if c == '2' {
        Some(2)
    } else if c == '3' {
        Some(3)
    } else if c == '4' {
        Some(4)
    } else if c == '5' {
        Some(5)
    } else if c == '6' {
        Some(6)
    } else if c == '7' {
        Some(7)
    } else if c == '8' {
        Some(8)
    } else if c == '9' {
        Some(9)
    } else {
        None
    }
}

/// A number written in decimal.
pub open spec fn decimal(n: nat) -> Seq<char>
    decreases n,
{
    if n < 10 {
        seq![digit_char(n as int)]
    } else {
        decimal(n / 10).push(digit_char((n % 10) as int))
    }
}

/// The number that a text is the decimal writing of; `None` if it is none, or has
/// leading zeros.
pub open spec fn numeral(s: Seq<char>) -> Option<nat>
    decreases s.len(),
{
    if s.len() == 0 {
        None
    } else if s.len() == 1 {
        match digit_value(s[0]) {
            Some(d) => Some(d as nat),
            None => None,
        }
    } else {
        match numeral(s.drop_last()) {
            Some(h) => match digit_value(s.last()) {
                Some(d) => if h > 0 {
                    Some((h * 10 + d) as nat)
                } else {
                    None
                },
                None => None,
            },
            None => None,
        }
    }
}

/// The name of the log file of a generation.
pub open spec fn file_name(gen: u64) -> Seq<char> {
    decimal(gen as nat) + suffix()
}

/// The generation that a file name is the log file name of; `None` if it is no log
/// file's name.
pub open spec fn generation_of(name: Seq<char>) -> Option<u64> {
    if name.len() > suffix().len() && name.subrange(name.len() - suffix().len(), name.len() as int)
        == suffix() {
        match numeral(name.subrange(0, name.len() - suffix().len())) {
            Some(n) => if n <= u64::MAX {
                Some(n as u64)
            } else {
                None
            },
            None => None,
        }
    } else {
        None
    }
}

/// A number's writing has at least one digit.
pub proof fn lemma_decimal_len(n: nat)
    ensures
        decimal(n).len() >= 1,
    decreases n,
{
    if n >= 10 {
        lemma_decimal_len(n / 10);
    }
}

/// Reading what was written gives the number back.
pub proof fn lemma_numeral_of_decimal(n: nat)
    ensures
        numeral(decimal(n)) == Some(n),
    decreases n,
{
    if n < 10 {
    } else {
        let s = decimal(n);
        lemma_numeral_of_decimal(n / 10);
        lemma_decimal_len(n / 10);
        assert(s.drop_last() =~= decimal(n / 10));
        assert(s.last() == digit_char((n % 10) as int));
    }
}

/// A text that reads as a number is the writing of that number.
pub proof fn lemma_decimal_of_numeral(s: Seq<char>)
    requires
        numeral(s) is Some,
    ensures
        decimal(numeral(s)->0) == s,
    decreases s.len(),
{
    if s.len() == 1 {
        assert(decimal(numeral(s)->0) =~= s);
    } else {
        lemma_decimal_of_numeral(s.drop_last());
        let h = numeral(s.drop_last())->0;
        let d = digit_value(s.last())->0;
        let n = numeral(s)->0;
        assert(n / 10 == h && n % 10 == d) by (nonlinear_arith)
            requires
                n == h * 10 + d,
                0 <= d < 10,
        ;
        assert(decimal(n) =~= s);
    }
}

/// Where a text reads as a number, so does each of its beginnings, as a number
/// that is no greater, and greater than 0 unless it is the whole text.
pub proof fn lemma_numeral_prefix(s: Seq<char>, j: int)
    requires
        numeral(s) is Some,
        1 <= j <= s.len(),
    ensures
        numeral(s.subrange(0, j)) is Some,
        numeral(s.subrange(0, j))->0 <= numeral(s)->0,
        j < s.len() ==> numeral(s.subrange(0, j))->0 > 0,
    decreases s.len() - j,
{
    if j == s.len() {
        assert(s.subrange(0, j) =~= s);
    } else {
        lemma_numeral_prefix(s.drop_last(), j);
        assert(s.drop_last().subrange(0, j) =~= s.subrange(0, j));
        if j == s.len() - 1 {
            assert(s.subrange(0, j) =~= s.drop_last());
        }
    }
}

/// The suffix is eight characters long.
pub proof fn lemma_suffix()
    ensures
        suffix().len() == 8,
        suffix() == seq!['.', 'k', 'v', 's', 't', 'o', 'r', 'e'],
{
    reveal_strlit(".kvstore");
    assert(suffix() =~= seq!['.', 'k', 'v', 's', 't', 'o', 'r', 'e']);
}

/// The name of a generation's log file is read as that generation.
pub proof fn lemma_generation_of_file_name(gen: u64)
    ensures
        generation_of(file_name(gen)) == Some(gen),
{
    let name = file_name(gen);
    lemma_suffix();
    lemma_decimal_len(gen as nat);
    lemma_numeral_of_decimal(gen as nat);
    assert(name.subrange(name.len() - 8, name.len() as int) =~= suffix());
    assert(name.subrange(0, name.len() - 8) =~= decimal(gen as nat));
}

/// A name that is read as a generation is the name of that generation's log file.
pub proof fn lemma_file_name_of_generation(name: Seq<char>)
    requires
        generation_of(name) is Some,
    ensures
        file_name(generation_of(name)->0) == name,
{
    lemma_suffix();
    let stem = name.subrange(0, name.len() - 8);
    lemma_decimal_of_numeral(stem);
    assert(stem + name.subrange(name.len() - 8, name.len() as int) =~= name);
}

/// The text of a decimal digit.
fn digit_text(d: u64) -> (text: &'static str)
    requires
        d < 10,
    ensures
        text@ == seq![digit_char(d as int)],
{
    proof {
        reveal_strlit("0");
        reveal_strlit("1");
        reveal_strlit("2");
        reveal_strlit("3");
        reveal_strlit("4");
        reveal_strlit("5");
        reveal_strlit("6");
        reveal_strlit("7");
        reveal_strlit("8");
        reveal_strlit("9");
    }
    let text = if d == 0 {
        "0"
    } else if d == 1 {
        "1"
    } else if d == 2 {
        "2"
    } else if d == 3 {
        "3"
    } else if d == 4 {
        "4"
    } else if d == 5 {
        "5"
    } else if d == 6 {
        "6"
    } else if d == 7 {
        "7"
    } else if d == 8 {
        "8"
    } else {
        "9"
    };
    assert(text@ =~= seq![digit_char(d as int)]);
    text
}

/// Writes a number in decimal.
pub fn decimal_string(n: u64) -> (text: String)
    ensures
        text@ == decimal(n as nat),
    decreases n,
{
    if n < 10 {
        String::from_str(digit_text(n))
    } else {
        let mut text = decimal_string(n / 10);
        text.append(digit_text(n % 10));
        assert(text@ =~= decimal(n as nat));
        text
    }
}

/// The name of the log file of a generation.
pub fn log_file_name(gen: u64) -> (name: String)
    ensures
        name@ == file_name(gen),
{
    let mut name = decimal_string(gen);
    name.append(".kvstore");
    name
}

/// The digit that a character stands for.
fn digit_of(c: char) -> (r: Option<u64>)
    ensures
        match r {
            Some(d) => digit_value(c) == Some(d as int) && d < 10,
            None => digit_value(c) is None,
        },
{
    if c == '0' {
        Some(0)
    } else if c == '1' {
        Some(1)
    } else if c == '2' {
        Some(2)
    } else if c == '3' {
        Some(3)
    } else if c == '4' {
        Some(4)
    } else if c == '5' {
        Some(5)
    } else if c == '6' {
        Some(6)
    } else if c == '7' {
        Some(7)
    } else if c == '8' {
        Some(8)
    } else if c == '9' {
        Some(9)
    } else {
        None
    }
}

/// Reads a file name: the generation whose log file has this name, `None` if the
/// name is no log file's name.
pub fn parse_log_file_name(name: &String) -> (r: Option<u64>)
    ensures
        r == generation_of(name@),
{
    let s = name.as_str();
    let n = s.unicode_len();
    let ext = ".kvstore";
    proof {
        lemma_suffix();
    }
    if n <= 8 {
        return None;
    }
    let stem = n - 8;
    let mut j: usize = 0;
    while j < 8
        invariant
            s@ == name@,
            n == s@.len(),
            stem == n - 8,
            n > 8,
            j <= 8,
            ext@ == suffix(),
            suffix().len() == 8,
            forall|t: int| 0 <= t < j ==> s@[stem + t] == suffix()[t],
        decreases 8 - j,
    {
        if s.get_char(stem + j) != ext.get_char(j) {
            assert(s@.subrange(n - 8, n as int)[j as int] != suffix()[j as int]);
            return None;
        }
        j = j + 1;
    }
    assert(s@.subrange(n - 8, n as int) =~= suffix());
    let ghost digits = s@.subrange(0, stem as int);
    let mut acc: u64 = 0;
    let mut i: usize = 0;
    while i < stem
        invariant
            s@ == name@,
            n == s@.len(),
            n > 8,
            stem == n - 8,
            i <= stem,
            suffix().len() == 8,
            s@.subrange(n - 8, n as int) == suffix(),
            digits == s@.subrange(0, stem as int),
            i > 0 ==> numeral(digits.subrange(0, i as int)) == Some(acc as nat),
        decreases stem - i,
    {
        let c = s.get_char(i);
        assert(digits.subrange(0, i + 1).last() == c);
        assert(digits.subrange(0, i + 1).drop_last() =~= digits.subrange(0, i as int));
        proof {
            if numeral(digits) is Some {
                lemma_numeral_prefix(digits, i + 1);
                if i > 0 {
                    lemma_numeral_prefix(digits, i as int);
                }
            }
        }
        let d = match digit_of(c) {
            Some(d) => d,
            None => {
                return None;
            },
        };
        if i == 0 {
            acc = d;
        } else {
            if acc == 0 {
                return None;
            }
            if acc > (u64::MAX - d) / 10 {
                assert(acc * 10 + d > u64::MAX) by (nonlinear_arith)
                    requires
                        acc > (u64::MAX - d) / 10,
                        0 <= d < 10,
                ;
                return None;
            }
            assert(acc * 10 + d <= u64::MAX) by (nonlinear_arith)
                requires
                    acc <= (u64::MAX - d) / 10,
                    0 <= d < 10,
            ;
            acc = acc * 10 + d;
        }
        i = i + 1;
    }
    assert(digits.subrange(0, stem as int) =~= digits);
    Some(acc)
}

/// The generations ascend strictly.
pub open spec fn ascending_gens(v: Seq<u64>) -> bool {
    forall|i: int, j: int| 0 <= i < j < v.len() ==> v[i] < v[j]
}

/// Puts a generation into an ascending list, unless it is there.
pub fn insert_generation(v: &mut Vec<u64>, gen: u64)
    requires
        ascending_gens(old(v)@),
    ensures
        ascending_gens(final(v)@),
        forall|g: u64| final(v)@.contains(g) <==> (old(v)@.contains(g) || g == gen),
{
    let mut at: usize = 0;
    while at < v.len() && v[at] < gen
        invariant
            at <= v.len(),
            v@ == old(v)@,
            forall|t: int| 0 <= t < at ==> v@[t] < gen,
        decreases v.len() - at,
    {
        at = at + 1;
    }
    if at < v.len() && v[at] == gen {
        assert forall|g: u64| v@.contains(g) <==> (old(v)@.contains(g) || g == gen) by {
            if g == gen {
                assert(v@[at as int] == g);
            }
        }
        return ;
    }
    v.insert(at, gen);
    assert forall|g: u64| v@.contains(g) <==> (old(v)@.contains(g) || g == gen) by {
        if old(v)@.contains(g) {
            let t = choose|t: int| 0 <= t < old(v)@.len() && old(v)@[t] == g;
            if t < at {
                assert(v@[t] == g);
            } else {
                assert(v@[t + 1] == g);
            }
        }
        if g == gen {
            assert(v@[at as int] == g);
        }
        if v@.contains(g) {
            let t = choose|t: int| 0 <= t < v@.len() && v@[t] == g;
            if t < at {
                assert(old(v)@[t] == g);
            } else if t > at {
                assert(old(v)@[t - 1] == g);
            }
        }
    }
}

/// The generations of the log files among the names of a directory's files, in
/// ascending order. Names that are no log file's name are left out.
pub fn sorted_generations(names: &Vec<String>) -> (gens: Vec<u64>)
    ensures
        ascending_gens(gens@),
        forall|g: u64|
            gens@.contains(g) <==> exists|i: int|
                0 <= i < names@.len() && generation_of(#[trigger] names@[i]@) == Some(g),
{
    let mut gens: Vec<u64> = Vec::new();
    let mut i: usize = 0;
    while i < names.len()
        invariant
            i <= names@.len(),
            ascending_gens(gens@),
            forall|g: u64|
                gens@.contains(g) <==> exists|t: int|
                    0 <= t < i && generation_of(#[trigger] names@[t]@) == Some(g),
        decreases names@.len() - i,
    {
        let ghost before = gens@;
        match parse_log_file_name(&names[i]) {
            Some(gen) => {
                insert_generation(&mut gens, gen);
            },
            None => {},
        }
        assert forall|g: u64|
            gens@.contains(g) <==> exists|t: int|
                0 <= t < i + 1 && generation_of(#[trigger] names@[t]@) == Some(g) by {
            if gens@.contains(g) {
                if before.contains(g) {
                    let t = choose|t: int|
                        0 <= t < i && generation_of(#[trigger] names@[t]@) == Some(g);
                    assert(0 <= t < i + 1 && generation_of(names@[t]@) == Some(g));
                } else {
                    assert(generation_of(names@[i as int]@) == Some(g));
                }
            }
            if exists|t: int| 0 <= t < i + 1 && generation_of(#[trigger] names@[t]@) == Some(g) {
                let t = choose|t: int|
                    0 <= t < i + 1 && generation_of(#[trigger] names@[t]@) == Some(g);
                if t < i {
                    assert(before.contains(g));
                }
            }
        }
        i = i + 1;
    }
    gens
}

} // verus!

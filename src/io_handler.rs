use vstd::prelude::*;
use vstd::string::StringExecFns;

verus! {

/// Names the segment files of one directory.
#[derive(Debug)]
pub struct IOHandlerFactory {
    dir_path: String,
}

/// The decimal digits of `n`.
pub open spec fn decimal_digits(n: nat) -> Seq<char>
    decreases n,
{
    if n < 10 {
        seq![digit_char(n)]
    } else {
        decimal_digits(n / 10).push(digit_char(n % 10))
    }
}

pub open spec fn digit_char(d: nat) -> char {
    if d == 0 {
        '0'
    } else if d == 1 {
        '1'
    } else if d == 2 {
        '2'
    } else if d == 3 {
        '3'
    } else if d == 4 {
        '4'
    } else if d == 5 {
        '5'
    } else if d == 6 {
        '6'
    } else if d == 7 {
        '7'
    } else if d == 8 {
        '8'
    } else {
        '9'
    }
}

/// `n` in decimal, with a minus sign where it is negative.
pub open spec fn decimal_of(n: int) -> Seq<char> {
    if n < 0 {
        seq!['-'] + decimal_digits((-n) as nat)
    } else {
        decimal_digits(n as nat)
    }
}

/// The one-character string of decimal digit `d`.
fn digit_str(d: u64) -> (r: &'static str)
    requires
        d < 10,
    ensures
        r@ == seq![digit_char(d as nat)],
{
    if d == 0 {
        proof { reveal_strlit("0"); }
        "0"
    } else if d == 1 {
        proof { reveal_strlit("1"); }
        "1"
    } else if d == 2 {
        proof { reveal_strlit("2"); }
        "2"
    } else if d == 3 {
        proof { reveal_strlit("3"); }
        "3"
    } else if d == 4 {
        proof { reveal_strlit("4"); }
        "4"
    } else if d == 5 {
        proof { reveal_strlit("5"); }
        "5"
    } else if d == 6 {
        proof { reveal_strlit("6"); }
        "6"
    } else if d == 7 {
        proof { reveal_strlit("7"); }
        "7"
    } else if d == 8 {
        proof { reveal_strlit("8"); }
        "8"
    } else {
        proof { reveal_strlit("9"); }
        "9"
    }
}

/// Appends the decimal digits of `n` to `s`.
fn push_decimal(s: &mut String, n: u64)
    ensures
        final(s)@ == old(s)@ + decimal_digits(n as nat),
    decreases n,
{
    if n >= 10 {
        push_decimal(s, n / 10);
    }
    s.append(digit_str(n % 10));
    proof {
        if n >= 10 {
            assert(final(s)@ =~= old(s)@ + decimal_digits(n as nat));
        } else {
            assert(final(s)@ =~= old(s)@ + decimal_digits(n as nat));
        }
    }
}

/// The file name of the segment of generation `gen`: `<gen>.log`.
pub fn log_path(gen: i64) -> (r: String)
    ensures
        r@ == decimal_of(gen as int) + seq!['.', 'l', 'o', 'g'],
{
    let mut s = String::new();
    let magnitude: u64 = if gen < 0 {
        proof { reveal_strlit("-"); }
        s.append("-");
        (-(gen as i128)) as u64
    } else {
        gen as u64
    };
    push_decimal(&mut s, magnitude);
    proof { reveal_strlit(".log"); }
    s.append(".log");
    assert(s@ =~= decimal_of(gen as int) + seq!['.', 'l', 'o', 'g']);
    s
}

impl IOHandlerFactory {
    pub fn new(dir_path: String) -> (r: Self)
        ensures
            r.dir_view() == dir_path@,
    {
        IOHandlerFactory { dir_path }
    }

    pub closed spec fn dir_view(&self) -> Seq<char> {
        self.dir_path@
    }

    /// The directory that holds the segments.
    pub fn get_dir_path(&self) -> (r: &String)
        ensures
            r@ == self.dir_view(),
    {
        &self.dir_path
    }
}


pub open spec fn is_digit(c: char) -> bool {
    '0' as u32 <= c as u32 <= '9' as u32
}

/// The number that the decimal digits `s` spell.
pub open spec fn digits_value(s: Seq<char>) -> int
    decreases s.len(),
{
    if s.len() == 0 {
        0
    } else {
        digits_value(s.drop_last()) * 10 + (s.last() as u32 - '0' as u32)
    }
}

/// What `i64::from_str` makes of `s`: an optional sign, then at least one
/// decimal digit and nothing else, and a value in range.
pub open spec fn parse_i64_spec(s: Seq<char>) -> Option<i64> {
    let signed = s.len() > 0 && (s[0] == '-' || s[0] == '+');
    let body = if signed {
        s.drop_first()
    } else {
        s
    };
    let v = if signed && s[0] == '-' {
        -digits_value(body)
    } else {
        digits_value(body)
    };
    if body.len() == 0 || !(forall|i: int| 0 <= i < body.len() ==> is_digit(#[trigger] body[i])) {
        None
    } else if i64::MIN <= v <= i64::MAX {
        Some(v as i64)
    } else {
        None
    }
}

/// Relies on `str::parse::<i64>`: an optional `+` or `-`, then decimal
/// digits only, within the range of `i64`.
#[verifier::external_body]
fn parse_gen(s: &String) -> (r: Option<i64>)
    ensures
        r == parse_i64_spec(s@),
{
    s.parse::<i64>().ok()
}

/// Relies on `slice::sort_unstable`: the same numbers, ascending.
#[verifier::external_body]
fn sort_gens(v: Vec<i64>) -> (r: Vec<i64>)
    ensures
        r@.to_multiset() == v@.to_multiset(),
        forall|i: int, j: int| 0 <= i < j < r@.len() ==> r@[i] <= r@[j],
{
    let mut v = v;
    v.sort_unstable();
    v
}

/// The generations that the names `stems` spell, in order, skipping
/// names that are no number.
pub open spec fn parsed_gens(stems: Seq<String>) -> Seq<i64>
    decreases stems.len(),
{
    if stems.len() == 0 {
        Seq::empty()
    } else {
        match parse_i64_spec(stems.last()@) {
            Some(g) => parsed_gens(stems.drop_last()).push(g),
            None => parsed_gens(stems.drop_last()),
        }
    }
}

/// The generations of segment files, given the names of the `.log` files
/// without that suffix: those that are numbers, ascending.
pub fn sorted_gen_list(stems: &Vec<String>) -> (r: Vec<i64>)
    ensures
        r@.to_multiset() == parsed_gens(stems@).to_multiset(),
        forall|i: int, j: int| 0 <= i < j < r@.len() ==> r@[i] <= r@[j],
{
    let mut gens: Vec<i64> = Vec::new();
    let mut i: usize = 0;
    while i < stems.len()
        invariant
            i <= stems@.len(),
            gens@ == parsed_gens(stems@.subrange(0, i as int)),
        decreases stems@.len() - i,
    {
        proof {
            assert(stems@.subrange(0, i as int + 1).drop_last() =~= stems@.subrange(0, i as int));
        }
        match parse_gen(&stems[i]) {
            Some(g) => gens.push(g),
            None => {},
        }
        i = i + 1;
    }
    assert(stems@.subrange(0, i as int) =~= stems@);
    sort_gens(gens)
}

} // verus!

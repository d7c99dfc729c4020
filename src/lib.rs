pub mod model;
pub mod dev_fn;
pub mod user_fn;

use vstd::prelude::*;

verus! {

/// The deepest n-gram level that models are built for.
pub const DEPTH: usize = 20;

pub const NOT_ENOUGH_ARGUMENTS: &'static str = "\
Недостаточно аргументов.
Используйте следующие аргументы:
число от 1 до 10 для выбора уровня глубины алгоритма.

Not enough arguments.
Use following arguments:
a number from 1 to 10 to choose depth level of algorithm.";

pub const NOT_AN_INTEGER: &'static str = "Не удалось преобразовать аргумент в целое число.\nCouldn't convert argument into an integer.";

pub const DEPTH_TOO_SMALL: &'static str = "Уровень глубины не может быть меньше 1.\nDepth level can't be less than 1.";

pub const DEPTH_TOO_LARGE: &'static str = "Уровень глубины не может быть больше 20.\nDepth level can't be more than 20.";

pub open spec fn is_digit(c: char) -> bool {
    '0' <= c <= '9'
}

/// The value of a string of decimal digits.
pub open spec fn digits_value(s: Seq<char>) -> nat
    decreases s.len(),
{
    if s.len() == 0 {
        0
    } else {
        digits_value(s.drop_last()) * 10 + (s.last() as int - '0' as int) as nat
    }
}

/// The digits of a decimal numeral, after an optional leading `+`.
pub open spec fn unsigned_digits(s: Seq<char>) -> Seq<char> {
    if s.len() > 0 && s[0] == '+' {
        s.drop_first()
    } else {
        s
    }
}

/// The `u8` that a decimal numeral denotes, if it is one: an optional `+`
/// followed by at least one digit, with a value of at most 255.
pub open spec fn decimal_u8(s: Seq<char>) -> Option<u8> {
    let d = unsigned_digits(s);
    if d.len() > 0 && (forall|i: int| 0 <= i < d.len() ==> is_digit(#[trigger] d[i]))
        && digits_value(d) <= 255 {
        Some(digits_value(d) as u8)
    } else {
        None
    }
}

proof fn lemma_digits_grow(d: Seq<char>, i: int)
    requires
        0 <= i <= d.len(),
        forall|j: int| 0 <= j < d.len() ==> is_digit(#[trigger] d[j]),
    ensures
        digits_value(d.subrange(0, i)) <= digits_value(d),
    decreases d.len() - i,
{
    if i < d.len() {
        lemma_digits_grow(d, i + 1);
        assert(d.subrange(0, i + 1).drop_last() =~= d.subrange(0, i));
        assert(is_digit(d[i]));
    } else {
        assert(d.subrange(0, i) =~= d);
    }
}

/// Parses a decimal `u8` as `str::parse::<u8>` does.
pub fn parse_u8(s: &str) -> (r: Option<u8>)
    ensures
        r == decimal_u8(s@),
{
    let n = s.unicode_len();
    let mut start: usize = 0;
    if n > 0 && s.get_char(0) == '+' {
        start = 1;
    }
    let ghost d = unsigned_digits(s@);
    assert(d =~= s@.subrange(start as int, n as int));
    if start == n {
        return None;
    }
    let mut v: u32 = 0;
    let mut i: usize = start;
    while i < n
        invariant
            n == s@.len(),
            start <= i <= n,
            d == s@.subrange(start as int, n as int),
            d == unsigned_digits(s@),
            v <= 255,
            v == digits_value(d.subrange(0, i - start)),
            forall|j: int| 0 <= j < i - start ==> is_digit(#[trigger] d[j]),
        decreases n - i,
    {
        let c = s.get_char(i);
        if !('0' <= c && c <= '9') {
            assert(!is_digit(d[i - start]));
            assert(!(forall|j: int| 0 <= j < d.len() ==> is_digit(#[trigger] d[j])));
            return None;
        }
        assert(d.subrange(0, i - start + 1).drop_last() =~= d.subrange(0, i - start));
        let digit = (c as u32) - ('0' as u32);
        assert(digit == d[i - start] as int - '0' as int);
        v = v * 10 + digit;
        i = i + 1;
        assert(v == digits_value(d.subrange(0, i - start)));
        if v > 255 {
            proof {
                if forall|j: int| 0 <= j < d.len() ==> is_digit(#[trigger] d[j]) {
                    lemma_digits_grow(d, i - start);
                }
            }
            return None;
        }
    }
    assert(d.subrange(0, i - start) =~= d);
    Some(v as u8)
}

/// The settings of one run: the depth level to generate at, and whether
/// models are built first.
pub struct Config {
    pub depth_level: u8,
    pub dev_mode: bool,
}

impl Config {
    /// Reads the depth level from the second argument; it must be a decimal
    /// number in `1..=DEPTH`.
    pub fn build(args: &[String], dev_mode: bool) -> (r: Result<Config, &'static str>)
        ensures
            args@.len() < 2 ==> r == Err::<Config, &str>(NOT_ENOUGH_ARGUMENTS),
            args@.len() >= 2 ==> match decimal_u8(args@[1]@) {
                None => r == Err::<Config, &str>(NOT_AN_INTEGER),
                Some(v) => if v < 1 {
                    r == Err::<Config, &str>(DEPTH_TOO_SMALL)
                } else if v > DEPTH {
                    r == Err::<Config, &str>(DEPTH_TOO_LARGE)
                } else {
                    r matches Ok(c) && c.depth_level == v && c.dev_mode == dev_mode
                },
            },
    {
        if args.len() < 2 {
            return Err(NOT_ENOUGH_ARGUMENTS);
        }
        let depth_level = match parse_u8(args[1].as_str()) {
            Some(v) => v,
            None => return Err(NOT_AN_INTEGER),
        };
        if depth_level < 1 {
            return Err(DEPTH_TOO_SMALL);
        } else if depth_level as usize > DEPTH {
            return Err(DEPTH_TOO_LARGE);
        }
        Ok(Config { depth_level, dev_mode })
    }
}

} // verus!

use vstd::prelude::*;
use vstd::string::{StrSliceExecFns, StringExecFns};

verus! {

pub open spec fn is_digit(c: char) -> bool {
    '0' <= c && c <= '9'
}

/// At least one character, each an ASCII digit.
pub open spec fn all_digits(s: Seq<char>) -> bool {
    s.len() > 0 && forall|i: int| 0 <= i < s.len() ==> is_digit(#[trigger] s[i])
}

/// The number that a run of digits spells in decimal.
pub open spec fn digits_value(s: Seq<char>) -> nat
    decreases s.len(),
{
    if s.len() == 0 {
        0
    } else {
        digits_value(s.drop_last()) * 10 + (s.last() as nat - '0' as nat) as nat
    }
}

/// The value of an unsigned decimal numeral: an optional `+`, then digits.
pub open spec fn unsigned_text(s: Seq<char>) -> Option<nat> {
    if s.len() > 0 && s[0] == '+' {
        if all_digits(s.drop_first()) { Some(digits_value(s.drop_first())) } else { None }
    } else if all_digits(s) {
        Some(digits_value(s))
    } else {
        None
    }
}

/// The value of a signed decimal numeral: an optional `+` or `-`, then digits.
pub open spec fn signed_text(s: Seq<char>) -> Option<int> {
    if s.len() > 0 && s[0] == '-' {
        if all_digits(s.drop_first()) { Some(-digits_value(s.drop_first())) } else { None }
    } else {
        match unsigned_text(s) {
            Some(v) => Some(v as int),
            None => None,
        }
    }
}

/// A prefix of a run of digits spells no more than the whole.
proof fn lemma_digits_prefix(s: Seq<char>, i: int)
    requires
        0 <= i <= s.len(),
    ensures
        digits_value(s.take(i)) <= digits_value(s),
    decreases s.len(),
{
    if i < s.len() {
        assert(s.drop_last().take(i) =~= s.take(i));
        lemma_digits_prefix(s.drop_last(), i);
    } else {
        assert(s.take(i) =~= s);
    }
}

/// The number of characters of `s`.
pub fn str_len(s: &String) -> (r: usize)
    ensures
        r == s@.len(),
{
    s.as_str().unicode_len()
}

/// The character at `pos`, or `'\0'` past the end.
pub fn char_at(s: &String, pos: usize) -> (r: char)
    ensures
        r == if pos < s@.len() { s@[pos as int] } else { '\0' },
{
    if pos >= str_len(s) {
        '\0'
    } else {
        s.as_str().get_char(pos)
    }
}

/// The characters from `start` up to `end` (cut at the end of `s`); empty when
/// `start > end` or `start` is past the end.
pub fn substring(s: &String, start: usize, end: usize) -> (r: String)
    ensures
        r@ == if start > end || start >= s@.len() {
            Seq::<char>::empty()
        } else {
            s@.subrange(start as int, if end > s@.len() { s@.len() as int } else { end as int })
        },
{
    let len = str_len(s);
    if start > end || start >= len {
        proof {
            reveal_strlit("");
        }
        String::from_str("")
    } else {
        let stop = if end > len { len } else { end };
        String::from_str(s.as_str().substring_char(start, stop))
    }
}

/// The value of the digits of `s` from `from` on, if they are all digits, at
/// least one, and the value fits in a `usize`.
fn digits_from(s: &str, from: usize) -> (r: Option<usize>)
    requires
        from <= s@.len(),
    ensures
        r == if all_digits(s@.skip(from as int)) && digits_value(s@.skip(from as int)) <= usize::MAX {
            Some(digits_value(s@.skip(from as int)) as usize)
        } else {
            None
        },
{
    let len = s.unicode_len();
    let ghost ds = s@.skip(from as int);
    if from == len {
        return None;
    }
    let mut acc: usize = 0;
    let mut i: usize = from;
    while i < len
        invariant
            from <= i <= len,
            len == s@.len(),
            ds == s@.skip(from as int),
            forall|j: int| 0 <= j < i - from ==> is_digit(#[trigger] ds[j]),
            acc == digits_value(ds.take(i - from)),
        decreases len - i,
    {
        let c = s.get_char(i);
        assert(ds[i - from] == c);
        if c < '0' || c > '9' {
            return None;
        }
        assert(ds.take(i + 1 - from).drop_last() =~= ds.take(i - from));
        let d = (c as u32 - '0' as u32) as usize;
        match acc.checked_mul(10) {
            Some(m) => match m.checked_add(d) {
                Some(v) => {
                    acc = v;
                },
                None => {
                    proof {
                        lemma_digits_prefix(ds, i + 1 - from);
                    }
                    return None;
                },
            },
            None => {
                proof {
                    lemma_digits_prefix(ds, i + 1 - from);
                }
                return None;
            },
        }
        i += 1;
    }
    assert(ds.take(len - from) =~= ds);
    Some(acc)
}

/// Reads an unsigned decimal numeral, as `str::parse::<usize>` accepts it.
pub fn parse_usize(s: &str) -> (r: Option<usize>)
    ensures
        r == match unsigned_text(s@) {
            Some(v) => if v <= usize::MAX { Some(v as usize) } else { None },
            None => None,
        },
{
    let len = s.unicode_len();
    if len > 0 && s.get_char(0) == '+' {
        assert(s@.skip(1) =~= s@.drop_first());
        digits_from(s, 1)
    } else {
        assert(s@.skip(0) =~= s@);
        digits_from(s, 0)
    }
}

/// Reads a signed decimal numeral, as `str::parse::<isize>` accepts it.
pub fn parse_isize(s: &str) -> (r: Option<isize>)
    ensures
        r == match signed_text(s@) {
            Some(v) => if isize::MIN <= v <= isize::MAX { Some(v as isize) } else { None },
            None => None,
        },
{
    let len = s.unicode_len();
    if len > 0 && s.get_char(0) == '-' {
        assert(s@.skip(1) =~= s@.drop_first());
        match digits_from(s, 1) {
            Some(m) => {
                if m == 0 {
                    Some(0)
                } else if m - 1 <= isize::MAX as usize {
                    Some(-((m - 1) as isize) - 1)
                } else {
                    None
                }
            },
            None => None,
        }
    } else {
        match parse_usize(s) {
            Some(m) => if m <= isize::MAX as usize { Some(m as isize) } else { None },
            None => None,
        }
    }
}

/// What one line typed at a numeric prompt holds.
#[derive(Debug, Clone, Copy, PartialEq, Eq, Structural)]
pub enum NumEntry {
    /// Nothing was typed: keep reading.
    Blank,
    Number(isize),
    /// Something other than a number was typed.
    Invalid,
}

/// Reads a line typed at a numeric prompt.
pub fn read_num(line: &String) -> (r: NumEntry)
    ensures
        line@.len() == 0 ==> r == NumEntry::Blank,
        line@.len() > 0 ==> r == match signed_text(line@) {
            Some(v) => if isize::MIN <= v <= isize::MAX { NumEntry::Number(v as isize) } else { NumEntry::Invalid },
            None => NumEntry::Invalid,
        },
{
    if str_len(line) == 0 {
        NumEntry::Blank
    } else {
        match parse_isize(line.as_str()) {
            Some(n) => NumEntry::Number(n),
            None => NumEntry::Invalid,
        }
    }
}

/// A menu choice `num` as an index, if it lies between `min` and `max`.
pub fn check_choice(num: isize, min: isize, max: isize) -> (r: Option<usize>)
    requires
        min >= 0,
    ensures
        r == if min <= num <= max { Some(num as usize) } else { None },
{
    if num >= min && num <= max {
        Some(num as usize)
    } else {
        None
    }
}

/// Why a typed coordinate pair was refused.
#[derive(Debug, Clone, Copy, PartialEq, Eq, Structural)]
pub enum CoordError {
    /// No space parts the two numbers.
    NoSeparator,
    /// One of the two parts is not an unsigned number.
    NotANumber,
    /// A number lies outside the allowed range.
    OutOfRange,
}

/// A space ends the first number of a coordinate pair.
pub open spec fn is_separator(c: char) -> bool {
    c == ' '
}

/// `i` is where the first number of `s` ends: the first separator, or the end.
pub open spec fn first_separator(s: Seq<char>, i: int) -> bool {
    &&& 0 <= i <= s.len()
    &&& i < s.len() ==> is_separator(s[i])
    &&& forall|j: int| 0 <= j < i ==> !is_separator(#[trigger] s[j])
}

/// A number in `min..=max`, from what `unsigned_text` read.
pub open spec fn in_bounds(v: Option<nat>, min: int, max: int) -> bool {
    match v {
        Some(n) => min <= n <= max,
        None => false,
    }
}

/// Reads `"x y"`: two unsigned numbers parted by the first space, each in its range.
pub fn parse_coords(line: &String, xmin: usize, xmax: usize, ymin: usize, ymax: usize) -> (r: Result<
    crate::board::Coord,
    CoordError,
>)
    requires
        xmax <= isize::MAX,
        ymax <= isize::MAX,
    ensures
        forall|i: int| #[trigger] first_separator(line@, i) ==> {
            let xs = unsigned_text(line@.subrange(0, i));
            let ys = unsigned_text(line@.subrange(i + 1, line@.len() as int));
            r == if i == line@.len() {
                Err(CoordError::NoSeparator)
            } else if xs is None || ys is None || xs->0 > usize::MAX || ys->0 > usize::MAX {
                Err(CoordError::NotANumber)
            } else if !in_bounds(xs, xmin as int, xmax as int) || !in_bounds(ys, ymin as int, ymax as int) {
                Err(CoordError::OutOfRange)
            } else {
                Ok(crate::board::coord(xs->0 as int, ys->0 as int))
            }
        },
{
    let len = str_len(line);
    let mut current: usize = 0;
    while current < len && char_at(line, current) != ' '
        invariant
            current <= len,
            len == line@.len(),
            forall|j: int| 0 <= j < current ==> !is_separator(#[trigger] line@[j]),
        decreases len - current,
    {
        current += 1;
    }
    assert(first_separator(line@, current as int));
    assert forall|i: int| #[trigger] first_separator(line@, i) implies i == current by {
        if i < current {
            assert(!is_separator(line@[i]));
        } else if i > current {
            assert(!is_separator(line@[current as int]));
        }
    }
    if current >= len {
        return Err(CoordError::NoSeparator);
    }
    let xs = substring(line, 0, current);
    let ys = substring(line, current + 1, len);
    let x = match parse_usize(xs.as_str()) {
        Some(v) => v,
        None => return Err(CoordError::NotANumber),
    };
    let y = match parse_usize(ys.as_str()) {
        Some(v) => v,
        None => return Err(CoordError::NotANumber),
    };
    if x < xmin || x > xmax || y < ymin || y > ymax {
        return Err(CoordError::OutOfRange);
    }
    Ok(crate::board::Coord::new(x as isize, y as isize))
}

} // verus!

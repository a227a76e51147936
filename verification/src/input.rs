//! What the user types, and what it means.
use vstd::prelude::*;
use vstd::string::*;

verus! {

/// Whether a character counts as white space.
pub open spec fn is_white(c: char) -> bool {
    ||| '\u{9}' <= c <= '\u{d}'
    ||| c == ' '
    ||| c == '\u{85}'
    ||| c == '\u{a0}'
    ||| c == '\u{1680}'
    ||| '\u{2000}' <= c <= '\u{200a}'
    ||| c == '\u{2028}'
    ||| c == '\u{2029}'
    ||| c == '\u{202f}'
    ||| c == '\u{205f}'
    ||| c == '\u{3000}'
}

/// The characters that one trims off a line.
#[derive(Debug, Clone, Copy, PartialEq, Eq, Structural)]
pub enum Margin {
    White,
    Only(char),
}

impl Margin {
    pub open spec fn has(self, c: char) -> bool {
        match self {
            Margin::White => is_white(c),
            Margin::Only(d) => c == d,
        }
    }

    fn test(&self, c: char) -> (r: bool)
        ensures
            r == self.has(c),
    {
        match *self {
            Margin::White => ('\u{9}' <= c && c <= '\u{d}') || c == ' ' || c == '\u{85}' || c
                == '\u{a0}' || c == '\u{1680}' || ('\u{2000}' <= c && c <= '\u{200a}') || c
                == '\u{2028}' || c == '\u{2029}' || c == '\u{202f}' || c == '\u{205f}' || c
                == '\u{3000}',
            Margin::Only(d) => c == d,
        }
    }
}

/// What is left of a line once its margin is trimmed off at the front.
pub open spec fn trimmed_front(s: Seq<char>, m: Margin) -> Seq<char>
    decreases s.len(),
{
    if s.len() > 0 && m.has(s[0]) {
        trimmed_front(s.drop_first(), m)
    } else {
        s
    }
}

/// What is left of a line once its margin is trimmed off at the back.
pub open spec fn trimmed_back(s: Seq<char>, m: Margin) -> Seq<char>
    decreases s.len(),
{
    if s.len() > 0 && m.has(s.last()) {
        trimmed_back(s.drop_last(), m)
    } else {
        s
    }
}

/// What is left of a line once its margin is trimmed off at both ends.
pub open spec fn trimmed(s: Seq<char>, m: Margin) -> Seq<char> {
    trimmed_back(trimmed_front(s, m), m)
}

/// What is left of a line once its margin is trimmed off at both ends.
pub fn trim<'a>(s: &'a str, m: Margin) -> (r: &'a str)
    ensures
        r@ == trimmed(s@, m),
{
    let len: usize = s.unicode_len();
    let mut start: usize = 0;
    assert(s@.skip(0) =~= s@);
    while start < len && m.test(s.get_char(start))
        invariant
            start <= len == s@.len(),
            trimmed_front(s@, m) == trimmed_front(s@.skip(start as int), m),
        ensures
            start <= len,
            start == len || !m.has(s@[start as int]),
            trimmed_front(s@, m) == trimmed_front(s@.skip(start as int), m),
        decreases len - start,
    {
        assert(s@.skip(start as int).drop_first() =~= s@.skip(start as int + 1));
        start = start + 1;
    }
    assert(trimmed_front(s@, m) == s@.skip(start as int));
    let mut end: usize = len;
    let ghost front = s@.skip(start as int);
    assert(s@.subrange(start as int, end as int) =~= front);
    while end > start && m.test(s.get_char(end - 1))
        invariant
            start <= end <= len == s@.len(),
            trimmed_back(front, m) == trimmed_back(s@.subrange(start as int, end as int), m),
        ensures
            start <= end <= len,
            end == start || !m.has(s@[end - 1]),
            trimmed_back(front, m) == trimmed_back(s@.subrange(start as int, end as int), m),
        decreases end,
    {
        assert(s@.subrange(start as int, end as int).drop_last() =~= s@.subrange(
            start as int,
            end as int - 1,
        ));
        end = end - 1;
    }
    s.substring_char(start, end)
}

/// The path in a line: without the white space around it, nor the quotes of a path that was
/// dropped on the terminal.
pub open spec fn path_in(line: Seq<char>) -> Seq<char> {
    trimmed(trimmed(trimmed(line, Margin::White), Margin::Only('"')), Margin::Only('\''))
}

/// The path in a line, if there is one: see `path_in`.
pub fn input_path<'a>(line: &'a str) -> (r: Option<&'a str>)
    ensures
        r is None <==> path_in(line@).len() == 0,
        r matches Some(path) ==> path@ == path_in(line@),
{
    let path: &'a str = trim(
        trim(trim(line, Margin::White), Margin::Only('"')),
        Margin::Only('\''),
    );
    if path.unicode_len() == 0 {
        None
    } else {
        Some(path)
    }
}

/// Whether a line is a yes, in either case.
pub open spec fn is_yes(line: Seq<char>) -> bool {
    trimmed(line, Margin::White) == seq!['y'] || trimmed(line, Margin::White) == seq!['Y']
}

/// Whether a line asks for shades of gray.
pub fn wants_mono(line: &str) -> (r: bool)
    ensures
        r == is_yes(line@),
{
    let answer: &str = trim(line, Margin::White);
    if answer.unicode_len() != 1 {
        return false;
    }
    let c: char = answer.get_char(0);
    assert(answer@ =~= seq![c]);
    assert(seq!['y'][0] == 'y' && seq!['Y'][0] == 'Y');
    c == 'y' || c == 'Y'
}

/// Whether all characters are decimal digits.
pub open spec fn all_digits(s: Seq<char>) -> bool {
    forall|i: int| 0 <= i < s.len() ==> '0' <= #[trigger] s[i] && s[i] <= '9'
}

/// The number that decimal digits write.
pub open spec fn decimal(s: Seq<char>) -> nat
    decreases s.len(),
{
    if s.len() == 0 {
        0
    } else {
        10 * decimal(s.drop_last()) + (s.last() as nat - '0' as nat) as nat
    }
}

/// The digits of a number that may start with a plus sign.
pub open spec fn digits_of(s: Seq<char>) -> Seq<char> {
    if s.len() > 0 && s[0] == '+' {
        s.drop_first()
    } else {
        s
    }
}

/// The number that a text writes: an optional plus sign and decimal digits. None where it is no
/// number, or one that does not fit.
pub open spec fn number_in(s: Seq<char>) -> Option<u32> {
    let digits = digits_of(s);
    if digits.len() > 0 && all_digits(digits) && decimal(digits) <= u32::MAX {
        Some(decimal(digits) as u32)
    } else {
        None
    }
}

/// More digits write no smaller number.
proof fn lemma_decimal_grows(s: Seq<char>, i: int)
    requires
        all_digits(s),
        0 <= i <= s.len(),
    ensures
        decimal(s.take(i)) <= decimal(s),
    decreases s.len() - i,
{
    if i == s.len() {
        assert(s.take(i) =~= s);
    } else {
        assert(s.take(i + 1).drop_last() =~= s.take(i));
        assert('0' <= s[i] && s[i] <= '9');
        assert(s.take(i + 1).last() == s[i]);
        lemma_decimal_grows(s, i + 1);
    }
}

/// The number that a text writes: see `number_in`.
pub fn parse_number(s: &str) -> (r: Option<u32>)
    ensures
        r == number_in(s@),
{
    let len: usize = s.unicode_len();
    let start: usize = if len > 0 && s.get_char(0) == '+' {
        1
    } else {
        0
    };
    let ghost digits = digits_of(s@);
    assert(digits =~= s@.skip(start as int));
    if start == len {
        return None;
    }
    let mut value: u32 = 0;
    let mut i: usize = start;
    assert(digits.take(0).len() == 0);
    while i < len
        invariant
            start <= i <= len == s@.len(),
            digits == digits_of(s@),
            digits == s@.skip(start as int),
            digits.len() > 0,
            all_digits(digits.take(i - start)),
            value == decimal(digits.take(i - start)),
        decreases len - i,
    {
        let c: char = s.get_char(i);
        let ghost k = i - start;
        assert(c == digits[k]);
        if !('0' <= c && c <= '9') {
            return None;
        }
        let wide: u64 = 10 * (value as u64) + (c as u64 - '0' as u64);
        proof {
            assert(digits.take(k + 1).drop_last() =~= digits.take(k));
            assert(digits.take(k + 1).last() == c);
            assert forall|j: int| 0 <= j < k + 1 implies '0' <= #[trigger] digits.take(k + 1)[j]
                && digits.take(k + 1)[j] <= '9' by {
                if j < k {
                    assert(digits.take(k)[j] == digits.take(k + 1)[j]);
                }
            }
            assert(wide == decimal(digits.take(k + 1)));
        }
        if wide > u32::MAX as u64 {
            proof {
                if all_digits(digits) {
                    lemma_decimal_grows(digits, k + 1);
                }
            }
            return None;
        }
        value = wide as u32;
        i = i + 1;
    }
    assert(digits.take(len - start) =~= digits);
    Some(value)
}

/// What to do with a picture before it is halftoned.
#[derive(Debug, Clone, Copy, PartialEq, Eq, Structural)]
pub enum ResizePlan {
    /// Leave it as it is.
    Keep,
    /// Leave it as it is: what was typed is no height.
    Invalid,
    /// Scale it to these dimensions; a side of zero counts as one.
    Resize { width: u32, height: u32 },
}

/// The width that goes with a new height, in proportion, rounded down and not zero.
pub open spec fn width_for(width: u32, height: u32, new_height: u32) -> u32 {
    let w = width * new_height / (height as int);
    if w > u32::MAX || w == 0 {
        1
    } else {
        w as u32
    }
}

/// The height that a line asks for; see `number_in`.
pub open spec fn height_in(line: Seq<char>) -> Option<u32> {
    number_in(trimmed(line, Margin::White))
}

/// What a line that asks for a height means for a picture: nothing if it is blank or asks for the
/// height that the picture has.
pub open spec fn plan_of(width: u32, height: u32, line: Seq<char>) -> ResizePlan {
    if trimmed(line, Margin::White).len() == 0 {
        ResizePlan::Keep
    } else {
        match height_in(line) {
            None => ResizePlan::Invalid,
            Some(new_height) => if new_height == height {
                ResizePlan::Keep
            } else {
                ResizePlan::Resize {
                    width: width_for(width, height, new_height),
                    height: new_height,
                }
            },
        }
    }
}

/// What a line that asks for a height means for a picture: see `plan_of`.
pub fn plan_resize(width: u32, height: u32, line: &str) -> (r: ResizePlan)
    requires
        height > 0 || height_in(line@) is None || height_in(line@) == Some(0u32),
    ensures
        r == plan_of(width, height, line@),
{
    let text: &str = trim(line, Margin::White);
    if text.unicode_len() == 0 {
        return ResizePlan::Keep;
    }
    match parse_number(text) {
        None => ResizePlan::Invalid,
        Some(new_height) => {
            if new_height == height {
                return ResizePlan::Keep;
            }
            assert(0 <= width * new_height <= 0xffff_ffff * 0xffff_ffff) by (nonlinear_arith)
                requires
                    0 <= width <= 0xffff_ffff,
                    0 <= new_height <= 0xffff_ffff,
            ;
            let w: u64 = (width as u64 * new_height as u64) / height as u64;
            let new_width: u32 = if w > u32::MAX as u64 || w == 0 {
                1
            } else {
                w as u32
            };
            ResizePlan::Resize { width: new_width, height: new_height }
        },
    }
}

/// The name of the file that a halftone is saved to, from that of the picture without its
/// extension.
pub fn output_filename(stem: &str) -> (r: String)
    ensures
        r@ == stem@ + "_dbs.png"@,
{
    let mut name: String = String::from_str(stem);
    name.append("_dbs.png");
    name
}

} // verus!

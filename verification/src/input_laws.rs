//! What typed lines mean: the text between white space, the numbers, and the scaling asked for.
use crate::input::{
    all_digits, decimal, digits_of, height_in, is_white, is_yes, number_in, path_in, plan_of,
    trimmed, trimmed_back, trimmed_front, width_for, Margin, ResizePlan,
};
use vstd::arithmetic::div_mod::*;
use vstd::prelude::*;

verus! {

/// All characters belong to a margin.
pub open spec fn all_margin(s: Seq<char>, m: Margin) -> bool {
    forall|i: int| 0 <= i < s.len() ==> m.has(#[trigger] s[i])
}

/// Neither the first nor the last character belongs to a margin.
pub open spec fn clear_ends(s: Seq<char>, m: Margin) -> bool {
    s.len() > 0 ==> !m.has(s[0]) && !m.has(s.last())
}

/// Which characters are white: these, and no others.
pub proof fn law_white_characters(c: char)
    ensures
        is_white(c) <==> set![
            0x9u32,
            0xa,
            0xb,
            0xc,
            0xd,
            0x20,
            0x85,
            0xa0,
            0x1680,
            0x2000,
            0x2001,
            0x2002,
            0x2003,
            0x2004,
            0x2005,
            0x2006,
            0x2007,
            0x2008,
            0x2009,
            0x200a,
            0x2028,
            0x2029,
            0x202f,
            0x205f,
            0x3000,
        ].contains(c as u32),
{
}

/// What the two margins are made of.
pub proof fn law_margins(c: char, d: char)
    ensures
        Margin::White.has(c) <==> is_white(c),
        Margin::Only(d).has(c) <==> c == d,
{
}

/// A margin at the front is trimmed off.
proof fn lemma_front(a: Seq<char>, rest: Seq<char>, m: Margin)
    requires
        all_margin(a, m),
        rest.len() > 0 ==> !m.has(rest[0]),
    ensures
        trimmed_front(a + rest, m) == rest,
    decreases a.len(),
{
    if a.len() == 0 {
        assert(a + rest =~= rest);
    } else {
        assert(m.has(a[0]));
        assert((a + rest).drop_first() =~= a.drop_first() + rest);
        assert forall|i: int| 0 <= i < a.drop_first().len() implies m.has(
            #[trigger] a.drop_first()[i],
        ) by {
            assert(a.drop_first()[i] == a[i + 1]);
        }
        lemma_front(a.drop_first(), rest, m);
    }
}

/// A margin at the back is trimmed off.
proof fn lemma_back(rest: Seq<char>, b: Seq<char>, m: Margin)
    requires
        all_margin(b, m),
        rest.len() > 0 ==> !m.has(rest.last()),
    ensures
        trimmed_back(rest + b, m) == rest,
    decreases b.len(),
{
    if b.len() == 0 {
        assert(rest + b =~= rest);
    } else {
        assert(m.has(b[b.len() - 1]));
        assert((rest + b).drop_last() =~= rest + b.drop_last());
        assert forall|i: int| 0 <= i < b.drop_last().len() implies m.has(
            #[trigger] b.drop_last()[i],
        ) by {
            assert(b.drop_last()[i] == b[i]);
        }
        lemma_back(rest, b.drop_last(), m);
    }
}

/// Trimming finds the text that stands between two pieces of margin.
pub proof fn law_trim_finds_text(a: Seq<char>, text: Seq<char>, b: Seq<char>, m: Margin)
    requires
        all_margin(a, m),
        all_margin(b, m),
        clear_ends(text, m),
    ensures
        trimmed(a + text + b, m) == text,
{
    if text.len() == 0 {
        let empty = Seq::<char>::empty();
        assert(a + text + b =~= (a + b) + empty);
        assert forall|i: int| 0 <= i < (a + b).len() implies m.has(#[trigger] (a + b)[i]) by {
            if i < a.len() {
                assert((a + b)[i] == a[i]);
            } else {
                assert((a + b)[i] == b[i - a.len()]);
            }
        }
        lemma_front(a + b, empty, m);
        assert(text =~= empty);
    } else {
        assert(a + text + b =~= a + (text + b));
        assert((text + b)[0] == text[0]);
        lemma_front(a, text + b, m);
        lemma_back(text, b, m);
    }
}

/// The path in a line stands between white space, double quotes, and single quotes, from the
/// outside to the inside.
pub proof fn law_path_between_quotes(
    white: (Seq<char>, Seq<char>),
    double: (Seq<char>, Seq<char>),
    single: (Seq<char>, Seq<char>),
    path: Seq<char>,
)
    requires
        all_margin(white.0, Margin::White),
        all_margin(white.1, Margin::White),
        all_margin(double.0, Margin::Only('"')),
        all_margin(double.1, Margin::Only('"')),
        all_margin(single.0, Margin::Only('\'')),
        all_margin(single.1, Margin::Only('\'')),
        clear_ends(path, Margin::Only('\'')),
        clear_ends(single.0 + path + single.1, Margin::Only('"')),
        clear_ends(double.0 + (single.0 + path + single.1) + double.1, Margin::White),
    ensures
        path_in(white.0 + (double.0 + (single.0 + path + single.1) + double.1) + white.1) == path,
{
    let inner = single.0 + path + single.1;
    let middle = double.0 + inner + double.1;
    law_trim_finds_text(white.0, middle, white.1, Margin::White);
    law_trim_finds_text(double.0, inner, double.1, Margin::Only('"'));
    law_trim_finds_text(single.0, path, single.1, Margin::Only('\''));
}

/// A yes is the letter alone, in either case, between white space.
pub proof fn law_yes_is_one_letter(a: Seq<char>, text: Seq<char>, b: Seq<char>)
    requires
        all_margin(a, Margin::White),
        all_margin(b, Margin::White),
        clear_ends(text, Margin::White),
    ensures
        is_yes(a + text + b) <==> text.len() == 1 && (text[0] == 'y' || text[0] == 'Y'),
{
    law_trim_finds_text(a, text, b, Margin::White);
    assert(seq!['y'].len() == 1 && seq!['y'][0] == 'y');
    assert(seq!['Y'].len() == 1 && seq!['Y'][0] == 'Y');
    if text.len() == 1 && text[0] == 'y' {
        assert(text =~= seq!['y']);
    }
    if text.len() == 1 && text[0] == 'Y' {
        assert(text =~= seq!['Y']);
    }
}

/// A decimal digit.
pub open spec fn digit(d: nat) -> char {
    ('0' as int + d) as char
}

/// A number as it is written, in decimal digits without leading zeros.
pub open spec fn written(n: nat) -> Seq<char>
    decreases n,
{
    if n < 10 {
        seq![digit(n)]
    } else {
        written(n / 10).push(digit(n % 10))
    }
}

/// A written number is made of digits that write it.
proof fn lemma_written(n: nat)
    ensures
        written(n).len() > 0,
        all_digits(written(n)),
        decimal(written(n)) == n,
    decreases n,
{
    let s = written(n);
    if n < 10 {
        assert(s.drop_last().len() == 0);
        assert(decimal(s.drop_last()) == 0);
        assert(s.last() == digit(n));
    } else {
        lemma_written(n / 10);
        assert(s.drop_last() =~= written(n / 10));
        assert(s.last() == digit(n % 10));
        assert forall|i: int| 0 <= i < s.len() implies '0' <= #[trigger] s[i] && s[i] <= '9' by {
            if i < s.len() - 1 {
                assert(s[i] == written(n / 10)[i]);
            }
        }
    }
}

/// A number that is written in decimal digits is read back, unless the word does not hold it.
pub proof fn law_written_number_is_read(n: nat)
    ensures
        n <= u32::MAX ==> number_in(written(n)) == Some(n as u32),
        n > u32::MAX ==> number_in(written(n)) is None,
{
    lemma_written(n);
    let s = written(n);
    assert('0' <= s[0] && s[0] <= '9');
}

/// A leading zero adds nothing.
proof fn lemma_leading_zero(s: Seq<char>)
    ensures
        decimal(seq!['0'] + s) == decimal(s),
    decreases s.len(),
{
    let z = seq!['0'] + s;
    if s.len() == 0 {
        assert(z.drop_last().len() == 0);
        assert(z.last() == '0');
        assert(decimal(z.drop_last()) == 0);
    } else {
        lemma_leading_zero(s.drop_last());
        assert(z.drop_last() =~= seq!['0'] + s.drop_last());
        assert(z.last() == s.last());
    }
}

/// Leading zeros do not change a number, nor does one plus sign before it.
pub proof fn law_zeros_and_plus(s: Seq<char>)
    requires
        s.len() > 0,
        s[0] != '+',
    ensures
        number_in(seq!['0'] + s) == number_in(s),
        number_in(seq!['+'] + s) == number_in(s),
{
    let z = seq!['0'] + s;
    lemma_leading_zero(s);
    assert(z[0] == '0');
    assert(forall|i: int| 0 <= i < s.len() ==> s[i] == #[trigger] z[i + 1]);
    assert(all_digits(z) == all_digits(s)) by {
        if all_digits(z) {
            assert forall|i: int| 0 <= i < s.len() implies '0' <= #[trigger] s[i] && s[i]
                <= '9' by {
                assert(z[i + 1] == s[i]);
            }
        }
        if all_digits(s) {
            assert forall|i: int| 0 <= i < z.len() implies '0' <= #[trigger] z[i] && z[i]
                <= '9' by {
                if i > 0 {
                    assert(z[i] == s[i - 1]);
                }
            }
        }
    }
    let p = seq!['+'] + s;
    assert(p[0] == '+');
    assert(p.drop_first() =~= s);
}

/// A text is a number only if it is made of digits, at least one, and at most a plus sign before
/// them.
pub proof fn law_numbers_are_digits(s: Seq<char>)
    requires
        number_in(s) is Some,
    ensures
        s.len() > 0,
        s[0] == '+' ==> s.len() > 1,
        s[0] == '+' || ('0' <= s[0] && s[0] <= '9'),
        forall|i: int| 0 < i < s.len() ==> '0' <= #[trigger] s[i] && s[i] <= '9',
{
    let d = digits_of(s);
    if s[0] == '+' {
        assert forall|i: int| 0 < i < s.len() implies '0' <= #[trigger] s[i] && s[i] <= '9' by {
            assert(d[i - 1] == s[i]);
        }
    }
}

/// The height that is typed between white space is the height that is asked for.
pub proof fn law_typed_height(a: Seq<char>, n: u32, b: Seq<char>)
    requires
        all_margin(a, Margin::White),
        all_margin(b, Margin::White),
    ensures
        height_in(a + written(n as nat) + b) == Some(n),
{
    let s = written(n as nat);
    lemma_written(n as nat);
    law_written_number_is_read(n as nat);
    assert('0' <= s[0] && s[0] <= '9');
    assert('0' <= s[s.len() - 1] && s[s.len() - 1] <= '9');
    law_trim_finds_text(a, s, b, Margin::White);
}

/// A new width goes with the new height as the width goes with the height: it is the largest that
/// is not too wide, unless that is none at all or one that the word does not hold.
pub proof fn law_width_in_proportion(width: u32, height: u32, new_height: u32)
    requires
        height > 0,
    ensures
        ({
            let w = width_for(width, height, new_height);
            if height <= width * new_height < 0x1_0000_0000 * height {
                w * height <= width * new_height < (w + 1) * height
            } else {
                w == 1
            }
        }),
{
    let p = width * new_height;
    let h = height as int;
    assert(p >= 0) by (nonlinear_arith)
        requires
            p == width * new_height,
    ;
    lemma_fundamental_div_mod(p, h);
    let q = p / h;
    assert(q * h <= p < (q + 1) * h) by (nonlinear_arith)
        requires
            p == h * q + p % h,
            0 <= p % h < h,
    ;
    assert(h <= p < 0x1_0000_0000 * h ==> 1 <= q < 0x1_0000_0000) by (nonlinear_arith)
        requires
            q * h <= p < (q + 1) * h,
            h > 0,
    ;
    assert(p < h ==> q < 1) by (nonlinear_arith)
        requires
            q * h <= p,
            h > 0,
    ;
    assert(p >= 0 ==> q >= 0) by (nonlinear_arith)
        requires
            p < (q + 1) * h,
            h > 0,
    ;
    assert(p >= 0x1_0000_0000 * h ==> q >= 0x1_0000_0000) by (nonlinear_arith)
        requires
            p < (q + 1) * h,
            h > 0,
    ;
}

/// A blank line leaves a picture as it is, and so does its own height. Any other height scales it
/// to that height, with a width in proportion. What is no height is turned down.
pub proof fn law_plan_of_a_line(width: u32, height: u32, line: Seq<char>)
    requires
        height > 0,
    ensures
        ({
            let plan = plan_of(width, height, line);
            &&& plan is Invalid <==> height_in(line) is None && trimmed(line, Margin::White).len()
                > 0
            &&& plan is Keep <==> trimmed(line, Margin::White).len() == 0 || height_in(line)
                == Some(height)
            &&& plan matches ResizePlan::Resize { width: w, height: h } ==> {
                &&& height_in(line) == Some(h)
                &&& h != height
                &&& if height <= width * h < 0x1_0000_0000 * height {
                    w * height <= width * h < (w + 1) * height
                } else {
                    w == 1
                }
            }
        }),
{
    if height_in(line) is Some {
        law_numbers_are_digits(trimmed(line, Margin::White));
        law_width_in_proportion(width, height, height_in(line)->0);
    }
}

/// To type a height asks for it: the plan for a picture, in the numbers alone.
pub proof fn law_plan_of_a_height(width: u32, height: u32, a: Seq<char>, n: u32, b: Seq<char>)
    requires
        height > 0,
        all_margin(a, Margin::White),
        all_margin(b, Margin::White),
    ensures
        ({
            let plan = plan_of(width, height, a + written(n as nat) + b);
            &&& n == height ==> plan is Keep
            &&& n != height ==> (plan matches ResizePlan::Resize { width: w, height: h } && h == n
                && if height <= width * n < 0x1_0000_0000 * height {
                w * height <= width * n < (w + 1) * height
            } else {
                w == 1
            })
        }),
{
    let line = a + written(n as nat) + b;
    law_typed_height(a, n, b);
    law_plan_of_a_line(width, height, line);
    law_numbers_are_digits(trimmed(line, Margin::White));
}

} // verus!

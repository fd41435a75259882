//! Building the text of messages: decimal and hexadecimal numbers.

use vstd::prelude::*;

verus! {

/// `String::push` appends one character to the end of the string.
pub assume_specification[ String::push ](s: &mut String, c: char)
    ensures
        final(s)@ == old(s)@.push(c),
;

/// The upper-case digit that stands for `d`, for `d` below sixteen.
pub open spec fn digit(d: int) -> char {
    if d < 10 {
        (0x30 + d) as char
    } else {
        (0x37 + d) as char
    }
}

/// `n` in decimal, without leading zeros.
pub open spec fn decimal(n: nat) -> Seq<char>
    decreases n,
{
    if n < 10 {
        seq![digit(n as int)]
    } else {
        decimal(n / 10).push(digit((n % 10) as int))
    }
}

/// `n` in upper-case hexadecimal, filled up with zeros on the left to at
/// least `width` digits.
pub open spec fn hex(n: nat, width: nat) -> Seq<char>
    decreases n, width,
{
    if n < 16 && width <= 1 {
        seq![digit(n as int)]
    } else {
        hex(n / 16, if width == 0 { 0 } else { (width - 1) as nat }).push(digit((n % 16) as int))
    }
}

/// The digit of a value below sixteen.
fn digit_of(d: u8) -> (c: char)
    requires
        d < 16,
    ensures
        c == digit(d as int),
{
    if d < 10 {
        (0x30 + d) as char
    } else {
        (0x37 + d) as char
    }
}

/// Append `n` in decimal.
pub fn push_decimal(s: &mut String, n: u64)
    ensures
        final(s)@ == old(s)@ + decimal(n as nat),
    decreases n,
{
    if n >= 10 {
        push_decimal(s, n / 10);
    }
    s.push(digit_of((n % 10) as u8));
}

/// Append `n` in hexadecimal with at least `width` digits.
pub fn push_hex(s: &mut String, n: u64, width: u8)
    ensures
        final(s)@ == old(s)@ + hex(n as nat, width as nat),
    decreases n, width,
{
    if n >= 16 || width > 1 {
        push_hex(s, n / 16, if width == 0 { 0 } else { width - 1 });
    }
    s.push(digit_of((n % 16) as u8));
}

/// The lower-case form of an ASCII letter; any other character is left as it is.
pub open spec fn lower_char(c: char) -> char {
    if 'A' <= c <= 'Z' {
        (c as int + 32) as char
    } else {
        c
    }
}

/// The text with ASCII letters in lower case.
pub open spec fn lower_text(text: Seq<char>) -> Seq<char> {
    Seq::new(text.len(), |i: int| lower_char(text[i]))
}

/// The text with ASCII letters in lower case.
pub fn to_ascii_lowercase(text: &str) -> (r: String)
    ensures
        r@ == lower_text(text@),
{
    let n: usize = text.unicode_len();
    let mut r = String::new();
    let mut i: usize = 0;
    assert(r@ =~= lower_text(text@).take(0));
    while i < n
        invariant
            i <= n,
            n == text@.len(),
            r@ == lower_text(text@).take(i as int),
        decreases n - i,
    {
        let c = text.get_char(i);
        let l = if 'A' <= c && c <= 'Z' {
            (c as u8 + 32) as char
        } else {
            c
        };
        r.push(l);
        i += 1;
        assert(r@ =~= lower_text(text@).take(i as int));
    }
    assert(r@ =~= lower_text(text@));
    r
}

/// Whether two texts are the same.
pub fn same_text(a: &str, b: &str) -> (r: bool)
    ensures
        r == (a@ == b@),
{
    let n: usize = a.unicode_len();
    if n != b.unicode_len() {
        return false;
    }
    let mut i: usize = 0;
    while i < n
        invariant
            i <= n,
            n == a@.len(),
            n == b@.len(),
            forall|j: int| 0 <= j < i ==> a@[j] == b@[j],
        decreases n - i,
    {
        if a.get_char(i) != b.get_char(i) {
            return false;
        }
        i += 1;
    }
    assert(a@ =~= b@);
    true
}

/// The number that a digit character stands for, in upper case.
pub open spec fn digit_value(c: char) -> int {
    if '0' <= c <= '9' {
        c as int - '0' as int
    } else {
        c as int - 'A' as int + 10
    }
}

/// The number that is written in `text` to the base `base`.
pub open spec fn number_in(text: Seq<char>, base: int) -> int
    decreases text.len(),
{
    if text.len() == 0 {
        0
    } else {
        number_in(text.drop_last(), base) * base + digit_value(text.last())
    }
}

/// A decimal number reads back as itself, is made of decimal digits, and has no
/// leading zero unless it is zero.
pub proof fn law_decimal_reads_back(n: nat)
    ensures
        number_in(decimal(n), 10) == n,
        decimal(n).len() > 0,
        forall|i: int| 0 <= i < decimal(n).len() ==> '0' <= #[trigger] decimal(n)[i] <= '9',
        n > 0 ==> decimal(n)[0] != '0',
        n == 0 ==> decimal(n).len() == 1,
    decreases n,
{
    reveal_with_fuel(number_in, 2);
    let text = decimal(n);
    if n >= 10 {
        let head = decimal(n / 10);
        law_decimal_reads_back(n / 10);
        assert(text.drop_last() =~= head);
        assert(text.last() == digit((n % 10) as int));
        assert(number_in(head, 10) * 10 == (n / 10) * 10);
        assert forall|i: int| 0 <= i < text.len() implies '0' <= #[trigger] text[i] <= '9' by {
            if i < head.len() {
                assert(text[i] == head[i]);
            }
        }
        assert(text[0] == head[0]);
    } else {
        assert(text.drop_last() =~= Seq::<char>::empty());
    }
}

/// A hexadecimal number reads back as itself, is made of upper-case digits, and has
/// at least the width that was asked for; it is wider only if it has to be.
pub proof fn law_hex_reads_back(n: nat, width: nat)
    ensures
        number_in(hex(n, width), 16) == n,
        hex(n, width).len() >= width,
        hex(n, width).len() > 0,
        hex(n, width).len() > width && hex(n, width).len() > 1 ==> hex(n, width)[0] != '0',
        forall|i: int|
            0 <= i < hex(n, width).len() ==> ('0' <= #[trigger] hex(n, width)[i] <= '9' || 'A'
                <= hex(n, width)[i] <= 'F'),
    decreases n, width,
{
    reveal_with_fuel(number_in, 2);
    let text = hex(n, width);
    if n < 16 && width <= 1 {
        assert(text.drop_last() =~= Seq::<char>::empty());
    } else {
        let w = if width == 0 {
            0
        } else {
            (width - 1) as nat
        };
        let head = hex(n / 16, w);
        law_hex_reads_back(n / 16, w);
        assert(text.drop_last() =~= head);
        assert(text.last() == digit((n % 16) as int));
        assert(number_in(head, 16) * 16 == (n / 16) * 16);
        assert forall|i: int| 0 <= i < text.len() implies ('0' <= #[trigger] text[i] <= '9' || 'A'
            <= text[i] <= 'F') by {
            if i < head.len() {
                assert(text[i] == head[i]);
            }
        }
        assert(text[0] == head[0]);
        if text.len() > width && head.len() == 1 {
            assert(n >= 16);
            assert(number_in(head, 16) == digit_value(head[0])) by {
                assert(head.drop_last() =~= Seq::<char>::empty());
            }
        }
    }
}

/// Lower-casing keeps the length and every character but the letters `A` to `Z`,
/// which it moves 32 places up, to `a` to `z`. Done twice it does nothing more.
pub proof fn law_lower_text(text: Seq<char>, i: int)
    requires
        0 <= i < text.len(),
    ensures
        lower_text(text).len() == text.len(),
        'A' <= text[i] <= 'Z' ==> lower_text(text)[i] as int == text[i] as int + 32,
        !('A' <= text[i] <= 'Z') ==> lower_text(text)[i] == text[i],
        lower_text(lower_text(text)) == lower_text(text),
{
    let once = lower_text(text);
    assert forall|j: int| 0 <= j < text.len() implies lower_char(once[j]) == once[j] by {
        let c = text[j];
        assert(once[j] == lower_char(c));
    }
    assert(lower_text(once) =~= once);
}

} // verus!

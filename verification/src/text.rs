//! Text: comparing names, and writing numbers in the tools' output columns.
use vstd::prelude::*;

verus! {

/// `String::push` of std: the given character is appended to the string and nothing
/// else changes.
pub assume_specification[ String::push ](s: &mut String, c: char)
    ensures
        final(s)@ == old(s)@.push(c),
;

/// True when both texts hold the same characters.
pub fn same_text(a: &str, b: &str) -> (r: bool)
    ensures
        r == (a@ == b@),
{
    a.to_owned() == b.to_owned()
}

/// The characters of `s`.
pub fn chars_of(s: &str) -> (v: Vec<char>)
    ensures
        v@ == s@,
{
    let mut v: Vec<char> = Vec::new();
    let n: usize = s.unicode_len();
    let mut i: usize = 0;
    while i < n
        invariant
            i <= n == s@.len(),
            v@ == s@.take(i as int),
        decreases n - i,
    {
        v.push(s.get_char(i));
        i = i + 1;
        assert(s@.take(i as int) =~= s@.take(i - 1).push(s@[i - 1]));
    }
    assert(s@.take(n as int) =~= s@);
    v
}

/// What texts hold.
pub open spec fn texts_of(v: Seq<String>) -> Seq<Seq<char>> {
    v.map_values(|s: String| s@)
}

// ---------------------------------------------------------------------------
// Reading numbers
// ---------------------------------------------------------------------------
/// The value of a digit in a base of up to 16.
pub open spec fn digit_value(c: char, base: nat) -> Option<nat> {
    let n = c as u32;
    let v: int = if 48 <= n <= 57 {
        n - 48
    } else if 97 <= n <= 102 {
        n - 87
    } else if 65 <= n <= 70 {
        n - 55
    } else {
        16
    };
    if v < base && v < 16 {
        Some(v as nat)
    } else {
        None
    }
}

/// The value of a run of digits; of none, zero.
pub open spec fn digits_value(s: Seq<char>, base: nat) -> Option<nat>
    decreases s.len(),
{
    if s.len() == 0 {
        Some(0)
    } else {
        match (digits_value(s.drop_last(), base), digit_value(s.last(), base)) {
            (Some(n), Some(d)) => Some(n * base + d),
            _ => None,
        }
    }
}

/// The number that `s` spells: at least one digit, perhaps behind a plus sign, and no
/// more than `max`.
pub open spec fn number_read(s: Seq<char>, base: nat, max: nat) -> Option<nat> {
    let run = if s.len() > 0 && s[0] == '+' {
        s.skip(1)
    } else {
        s
    };
    if run.len() == 0 {
        None
    } else {
        match digits_value(run, base) {
            Some(n) => if n <= max {
                Some(n)
            } else {
                None
            },
            None => None,
        }
    }
}

fn char_value(c: char, base: u32) -> (r: Option<u32>)
    requires
        2 <= base <= 16,
    ensures
        match (r, digit_value(c, base as nat)) {
            (Some(a), Some(b)) => a == b && a < base,
            (None, None) => true,
            _ => false,
        },
{
    let n: u32 = c as u32;
    let v: u32 = if 48 <= n && n <= 57 {
        n - 48
    } else if 97 <= n && n <= 102 {
        n - 87
    } else if 65 <= n && n <= 70 {
        n - 55
    } else {
        16
    };
    if v < base {
        Some(v)
    } else {
        None
    }
}

/// Digits behind a run that is too large, or is none, do not mend it.
proof fn lemma_run_stays_bad(s: Seq<char>, k: int, base: nat, max: nat)
    requires
        0 <= k <= s.len(),
        base >= 2,
        digits_value(s.take(k), base) matches Some(n) ==> n > max,
    ensures
        digits_value(s, base) matches Some(n) ==> n > max,
    decreases s.len() - k,
{
    if k == s.len() {
        assert(s.take(k) =~= s);
    } else {
        assert(s.take(k + 1).drop_last() =~= s.take(k));
        if let (Some(n), Some(d)) = (
            digits_value(s.take(k), base),
            digit_value(s.take(k + 1).last(), base),
        ) {
            assert(n * base + d >= n) by (nonlinear_arith)
                requires
                    base >= 2,
            ;
        }
        lemma_run_stays_bad(s, k + 1, base, max);
    }
}

/// Reads an unsigned number of at most `max`.
pub fn read_number(cs: &[char], base: u32, max: u32) -> (r: Option<u32>)
    requires
        2 <= base <= 16,
    ensures
        match (r, number_read(cs@, base as nat, max as nat)) {
            (Some(a), Some(b)) => a == b,
            (None, None) => true,
            _ => false,
        },
{
    let start: usize = if cs.len() > 0 && cs[0] == '+' {
        1
    } else {
        0
    };
    let ghost run = if cs@.len() > 0 && cs@[0] == '+' {
        cs@.skip(1)
    } else {
        cs@
    };
    assert(run =~= cs@.skip(start as int));
    if cs.len() == start {
        return None;
    }
    let mut n: u32 = 0;
    let mut i: usize = start;
    assert(run.take(0) =~= Seq::<char>::empty());
    while i < cs.len()
        invariant
            2 <= base <= 16,
            start <= i <= cs@.len(),
            start <= 1,
            run == cs@.skip(start as int),
            n <= max,
            digits_value(run.take(i - start), base as nat) == Some(n as nat),
            run.len() > 0,
            run == (if cs@.len() > 0 && cs@[0] == '+' {
                cs@.skip(1)
            } else {
                cs@
            }),
        decreases cs.len() - i,
    {
        assert(run.take(i - start + 1).drop_last() =~= run.take(i - start));
        match char_value(cs[i], base) {
            Some(d) => {
                assert(0 <= n * base <= 16 * u32::MAX) by (nonlinear_arith)
                    requires
                        2 <= base <= 16,
                ;
                let next: u64 = n as u64 * base as u64 + d as u64;
                if next > max as u64 {
                    proof {
                        lemma_run_stays_bad(run, i - start + 1, base as nat, max as nat);
                    }
                    return None;
                }
                n = next as u32;
            },
            None => {
                proof {
                    lemma_run_stays_bad(run, i - start + 1, base as nat, max as nat);
                }
                return None;
            },
        }
        i = i + 1;
    }
    assert(run.take(cs@.len() - start) =~= run);
    Some(n)
}

// ---------------------------------------------------------------------------
// Writing numbers
// ---------------------------------------------------------------------------
/// The digit for `n`: `0` to `9`, then `a` to `z`.
pub open spec fn digit(n: nat) -> char {
    if n < 10 {
        (48 + n) as char
    } else {
        (87 + n) as char
    }
}

/// `n` in the given base without leading zeros.
pub open spec fn digits(n: nat, base: nat) -> Seq<char>
    decreases n,
{
    if n < base || base < 2 {
        seq![digit(n)]
    } else {
        proof {
            assert(n / base < n) by (nonlinear_arith)
                requires
                    n >= base,
                    base >= 2,
            ;
        }
        digits(n / base, base).push(digit(n % base))
    }
}

/// `n` copies of `c`.
pub open spec fn fill(n: int, c: char) -> Seq<char> {
    Seq::new(
        if n < 0 {
            0
        } else {
            n as nat
        },
        |i: int| c,
    )
}

/// `text` with `c` put in front up to `width` characters.
pub open spec fn pad_left(text: Seq<char>, width: nat, c: char) -> Seq<char> {
    fill(width - text.len(), c) + text
}

/// `text` with spaces put behind up to `width` characters.
pub open spec fn pad_right(text: Seq<char>, width: nat) -> Seq<char> {
    text + fill(width - text.len(), ' ')
}

/// One byte as two hexadecimal digits.
pub open spec fn hex2(b: u8) -> Seq<char> {
    seq![digit((b / 16) as nat), digit((b % 16) as nat)]
}

/// `n` in decimal.
pub open spec fn dec(n: nat) -> Seq<char> {
    digits(n, 10)
}

/// `n` in decimal, with a minus sign when it is negative.
pub open spec fn dec_signed(n: int) -> Seq<char> {
    if n < 0 {
        seq!['-'] + dec((-n) as nat)
    } else {
        dec(n as nat)
    }
}

/// How `{}` prints a flag.
pub open spec fn bool_text(b: bool) -> Seq<char> {
    if b {
        "true"@
    } else {
        "false"@
    }
}

fn digit_char(n: u8) -> (c: char)
    requires
        n < 36,
    ensures
        c == digit(n as nat),
{
    let d: u8 = if n < 10 {
        48 + n
    } else {
        87 + n
    };
    d as char
}

/// Writes `c` to `s` `n` times.
fn push_fill(s: &mut String, n: usize, c: char)
    ensures
        final(s)@ == old(s)@ + fill(n as int, c),
{
    let ghost before = s@;
    let mut i: usize = 0;
    while i < n
        invariant
            i <= n,
            s@ == before + fill(i as int, c),
        decreases n - i,
    {
        s.push(c);
        i = i + 1;
        assert(before + fill(i as int, c) =~= (before + fill(i - 1, c)).push(c));
    }
    assert(before + fill(0, c) =~= before);
}

/// Writes the characters `cs` to `s`.
fn push_chars(s: &mut String, cs: &Vec<char>)
    ensures
        final(s)@ == old(s)@ + cs@,
{
    let ghost before = s@;
    let mut i: usize = 0;
    while i < cs.len()
        invariant
            i <= cs@.len(),
            s@ == before + cs@.take(i as int),
        decreases cs.len() - i,
    {
        s.push(cs[i]);
        i = i + 1;
        assert(before + cs@.take(i as int) =~= (before + cs@.take(i - 1)).push(cs@[i - 1]));
    }
    assert(before + cs@.take(0) =~= before);
    assert(cs@.take(cs@.len() as int) =~= cs@);
}

/// The digits of `n` in `base`.
fn number_chars(n: u64, base: u64) -> (v: Vec<char>)
    requires
        2 <= base <= 36,
    ensures
        v@ == digits(n as nat, base as nat),
    decreases n,
{
    if n < base {
        let mut v: Vec<char> = Vec::new();
        v.push(digit_char(n as u8));
        assert(v@ =~= digits(n as nat, base as nat));
        v
    } else {
        assert(n / base < n) by (nonlinear_arith)
            requires
                n >= base,
                base >= 2,
        ;
        let mut v: Vec<char> = number_chars(n / base, base);
        v.push(digit_char((n % base) as u8));
        v
    }
}

/// Writes `n` in `base`, padded in front with `pad` to at least `width` characters.
pub fn push_number(s: &mut String, n: u64, base: u64, width: usize, pad: char)
    requires
        2 <= base <= 36,
    ensures
        final(s)@ == old(s)@ + pad_left(digits(n as nat, base as nat), width as nat, pad),
{
    let ghost before = s@;
    let v: Vec<char> = number_chars(n, base);
    if v.len() < width {
        push_fill(s, width - v.len(), pad);
    }
    push_chars(s, &v);
    assert(s@ =~= before + pad_left(v@, width as nat, pad));
}

/// Writes `n` in decimal.
pub fn push_dec(s: &mut String, n: u64)
    ensures
        final(s)@ == old(s)@ + dec(n as nat),
{
    let ghost before = s@;
    let v: Vec<char> = number_chars(n, 10);
    push_chars(s, &v);
}

/// Writes `n` in decimal with its sign when negative.
pub fn push_dec_signed(s: &mut String, n: i64)
    requires
        n > i64::MIN,
    ensures
        final(s)@ == old(s)@ + dec_signed(n as int),
{
    let ghost before = s@;
    if n < 0 {
        s.push('-');
        push_dec(s, (-n) as u64);
        assert(s@ =~= before + dec_signed(n as int));
    } else {
        push_dec(s, n as u64);
    }
}

/// Writes one byte as two hexadecimal digits.
pub fn push_hex2(s: &mut String, b: u8)
    ensures
        final(s)@ == old(s)@ + hex2(b),
{
    let ghost before = s@;
    s.push(digit_char(b / 16));
    s.push(digit_char(b % 16));
    assert(s@ =~= before + hex2(b));
}

/// Writes `true` or `false`.
pub fn push_bool(s: &mut String, b: bool)
    ensures
        final(s)@ == old(s)@ + bool_text(b),
{
    if b {
        s.append("true");
    } else {
        s.append("false");
    }
}

/// Adds the spaces that a column of `width` characters needs behind `have` of them.
pub fn push_pad_right(s: &mut String, have: usize, width: usize)
    ensures
        final(s)@ == old(s)@ + fill(width - have, ' '),
{
    let ghost before = s@;
    if have < width {
        push_fill(s, width - have, ' ');
    } else {
        assert(before + fill(width - have, ' ') =~= before);
    }
}

// ---------------------------------------------------------------------------
// Laws
// ---------------------------------------------------------------------------
/// The digits run from `0` to `9` and on from `a` to `f`, and each is read as what it was
/// written for; so are the large letters.
pub proof fn law_digits_in_order(n: nat, base: nat)
    requires
        n < base <= 16,
    ensures
        n < 10 ==> digit(n) as int == '0' as int + n,
        n >= 10 ==> digit(n) as int == 'a' as int + n - 10,
        digit_value(digit(n), base) == Some(n),
        n >= 10 ==> digit_value((digit(n) as int - 'a' as int + 'A' as int) as char, base) == Some(
            n,
        ),
{
}

/// A number that was written is read back, and is written without leading zeros.
pub proof fn law_written_number_is_read_back(n: nat, base: nat)
    requires
        2 <= base <= 16,
    ensures
        digits_value(digits(n, base), base) == Some(n),
        digits(n, base).len() > 0,
        n > 0 ==> digits(n, base)[0] != '0',
        digits(n, base)[0] != '+',
    decreases n,
{
    if n < base {
        law_digits_in_order(n, base);
        let one = seq![digit(n)];
        assert(one.drop_last() =~= Seq::<char>::empty());
        assert(digits_value(one.drop_last(), base) == Some(0nat));
        assert(0 * base == 0) by (nonlinear_arith);
    } else {
        let (q, r) = (n / base, n % base);
        assert(0 < q < n && r < base && n == q * base + r) by (nonlinear_arith)
            requires
                n >= base,
                base >= 2,
                q == n / base,
                r == n % base,
        ;
        law_written_number_is_read_back(q, base);
        law_digits_in_order(r, base);
        assert(digits(n, base).drop_last() =~= digits(q, base));
    }
}

/// Reading what was written gives the number, if it is not above the most that may be
/// read; a plus sign in front changes nothing.
pub proof fn law_number_in_decimal_is_read(n: nat, max: nat)
    ensures
        n <= max ==> number_read(dec(n), 10, max) == Some(n),
        n > max ==> number_read(dec(n), 10, max) is None,
        number_read(seq!['+'] + dec(n), 10, max) == number_read(dec(n), 10, max),
        number_read(Seq::empty(), 10, max) is None,
        number_read(seq!['+'], 10, max) is None,
{
    law_written_number_is_read_back(n, 10);
    assert((seq!['+'] + dec(n)).skip(1) =~= dec(n));
}

/// One character that is no digit of the base, anywhere in a run, spoils it.
pub proof fn law_run_holds_digits_only(s: Seq<char>, base: nat, i: int)
    requires
        0 <= i < s.len(),
        digit_value(s[i], base) is None,
    ensures
        digits_value(s, base) is None,
    decreases s.len(),
{
    if i < s.len() - 1 {
        law_run_holds_digits_only(s.drop_last(), base, i);
    }
}

/// Only figures are decimal digits, and only those and the letters `a` to `f` and `A` to
/// `F` are hexadecimal ones.
pub proof fn law_no_other_digits(c: char)
    ensures
        digit_value(c, 10) is Some <==> '0' <= c <= '9',
        digit_value(c, 16) is Some <==> '0' <= c <= '9' || 'a' <= c <= 'f' || 'A' <= c <= 'F',
{
}

/// A byte in hexadecimal is two digits, small letters, that are read as the byte.
pub proof fn law_hex_is_read_back(b: u8)
    ensures
        hex2(b).len() == 2,
        digits_value(hex2(b), 16) == Some(b as nat),
        forall|i: int| 0 <= i < 2 ==> !('A' <= #[trigger] hex2(b)[i] <= 'F'),
{
    let (h, l) = ((b / 16) as nat, (b % 16) as nat);
    law_digits_in_order(h, 16);
    law_digits_in_order(l, 16);
    let s = hex2(b);
    let front = s.drop_last();
    assert(front.drop_last() =~= Seq::<char>::empty());
    assert(digits_value(front.drop_last(), 16) == Some(0nat));
    assert(digits_value(front, 16) == Some(h));
}

/// Padding reaches the width, with the text at the far end, and cuts nothing off.
pub proof fn law_padding_reaches_the_width(text: Seq<char>, width: nat, c: char)
    ensures
        ({
            let l = pad_left(text, width, c);
            let r = pad_right(text, width);
            let n = text.len();
            &&& n >= width ==> l == text && r == text
            &&& n < width ==> {
                &&& l.len() == width && r.len() == width
                &&& l.skip(width - n) == text
                &&& r.take(n as int) == text
                &&& forall|i: int| 0 <= i < width - n ==> #[trigger] l[i] == c
                &&& forall|i: int| n <= i < width ==> #[trigger] r[i] == ' '
            }
        }),
{
    let l = pad_left(text, width, c);
    let r = pad_right(text, width);
    if text.len() >= width {
        assert(l =~= text);
        assert(r =~= text);
    } else {
        assert(l.skip(width - text.len()) =~= text);
        assert(r.take(text.len() as int) =~= text);
    }
}

/// A negative number is a minus sign and its size.
pub proof fn law_sign_in_front(n: nat)
    requires
        n > 0,
    ensures
        dec_signed(-n) == seq!['-'] + dec(n),
        dec_signed(n as int) == dec(n),
{
}

/// A digit behind a run makes it so much larger; leading zeros make it no larger.
pub proof fn law_run_digit_by_digit(s: Seq<char>, n: nat, d: nat, base: nat)
    requires
        d < base <= 16,
        digits_value(s, base) == Some(n),
    ensures
        digits_value(s.push(digit(d)), base) == Some(n * base + d),
        digits_value(Seq::empty(), base) == Some(0nat),
{
    law_digits_in_order(d, base);
    assert(s.push(digit(d)).drop_last() =~= s);
}

/// Flags are written out.
pub proof fn law_flags_are_written_out()
    ensures
        bool_text(true) == seq!['t', 'r', 'u', 'e'],
        bool_text(false) == seq!['f', 'a', 'l', 's', 'e'],
{
    reveal_strlit("true");
    reveal_strlit("false");
    assert("true"@ =~= seq!['t', 'r', 'u', 'e']);
    assert("false"@ =~= seq!['f', 'a', 'l', 's', 'e']);
}

} // verus!

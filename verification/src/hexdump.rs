//! Bytes in hexadecimal, sixteen to the line.
use vstd::arithmetic::power::pow;
use vstd::prelude::*;
use crate::text::{push_hex2, push_number, push_pad_right};
use crate::text::{digits, digits_value, fill, hex2, pad_left, pad_right, texts_of};
use crate::text::{law_hex_is_read_back, law_written_number_is_read_back};

verus! {

/// Bytes of a full line.
pub const PER_LINE: usize = 16;

/// Width of the hexadecimal column.
pub const HEX_WIDTH: usize = 48;

/// The bytes in hexadecimal, each with a space behind it.
pub open spec fn hex_column(bytes: Seq<u8>) -> Seq<char>
    decreases bytes.len(),
{
    if bytes.len() == 0 {
        Seq::empty()
    } else {
        hex_column(bytes.drop_last()) + hex2(bytes.last()).push(' ')
    }
}

/// A byte as a character: itself where it prints, else a dot.
pub open spec fn shown(b: u8) -> char {
    if 0x20 <= b < 0x7f {
        b as char
    } else {
        '.'
    }
}

/// The bytes as characters.
pub open spec fn text_column(bytes: Seq<u8>) -> Seq<char> {
    bytes.map_values(|b: u8| shown(b))
}

/// One line: the offset, the bytes in hexadecimal, the bytes as characters.
pub open spec fn dump_line(off: nat, bytes: Seq<u8>) -> Seq<char> {
    pad_left(digits(off, 16), 8, '0') + "  "@ + pad_right(hex_column(bytes), HEX_WIDTH as nat)
        + " |"@ + text_column(bytes) + "|"@
}

/// How many lines `n` bytes take.
pub open spec fn line_count(n: nat) -> nat {
    (n + 15) / 16
}

/// The bytes of line `i`.
pub open spec fn line_bytes(bytes: Seq<u8>, i: int) -> Seq<u8> {
    bytes.subrange(
        16 * i,
        if 16 * i + 16 <= bytes.len() {
            16 * i + 16
        } else {
            bytes.len() as int
        },
    )
}

/// The lines of `bytes`, the first of which stands at `off`.
pub open spec fn dump_lines(off: nat, bytes: Seq<u8>) -> Seq<Seq<char>> {
    Seq::new(
        line_count(bytes.len()),
        |i: int| dump_line((off + 16 * i) as nat, line_bytes(bytes, i)),
    )
}

/// Writes the bytes from `from` up to `to` in hexadecimal, each with a space behind it.
pub fn push_hex_column(s: &mut String, bytes: &[u8], from: usize, to: usize)
    requires
        from <= to <= bytes@.len(),
    ensures
        final(s)@ == old(s)@ + hex_column(bytes@.subrange(from as int, to as int)),
{
    let ghost before = s@;
    let mut i: usize = from;
    assert(bytes@.subrange(from as int, from as int) =~= Seq::<u8>::empty());
    assert(before + hex_column(Seq::<u8>::empty()) =~= before);
    while i < to
        invariant
            from <= i <= to <= bytes@.len(),
            s@ == before + hex_column(bytes@.subrange(from as int, i as int)),
        decreases to - i,
    {
        push_hex2(s, bytes[i]);
        s.push(' ');
        proof {
            let done = bytes@.subrange(from as int, i as int);
            let more = bytes@.subrange(from as int, i + 1);
            assert(more.drop_last() =~= done);
            assert(s@ =~= before + (hex_column(done) + hex2(bytes@[i as int]).push(' ')));
        }
        i = i + 1;
    }
}

/// Each byte takes three characters.
proof fn lemma_hex_column_len(bytes: Seq<u8>)
    ensures
        hex_column(bytes).len() == 3 * bytes.len(),
    decreases bytes.len(),
{
    if bytes.len() > 0 {
        lemma_hex_column_len(bytes.drop_last());
    }
}

fn push_text_column(s: &mut String, bytes: &[u8], from: usize, to: usize)
    requires
        from <= to <= bytes@.len(),
    ensures
        final(s)@ == old(s)@ + text_column(bytes@.subrange(from as int, to as int)),
{
    let ghost before = s@;
    let mut i: usize = from;
    assert(before + text_column(bytes@.subrange(from as int, from as int)) =~= before);
    while i < to
        invariant
            from <= i <= to <= bytes@.len(),
            s@ == before + text_column(bytes@.subrange(from as int, i as int)),
        decreases to - i,
    {
        let b: u8 = bytes[i];
        s.push(
            if 0x20 <= b && b < 0x7f {
                b as char
            } else {
                '.'
            },
        );
        assert(s@ =~= before + text_column(bytes@.subrange(from as int, i + 1)));
        i = i + 1;
    }
}

/// Counts the bytes of a stream while they are printed.
pub struct HexDump {
    off: u64,
}

impl View for HexDump {
    type V = nat;

    /// How many bytes were printed.
    closed spec fn view(&self) -> nat {
        self.off as nat
    }
}

impl HexDump {
    pub fn new() -> (d: HexDump)
        ensures
            d@ == 0,
    {
        HexDump { off: 0 }
    }

    /// The lines for the next bytes of the stream.
    pub fn feed(&mut self, bytes: &[u8]) -> (lines: Vec<String>)
        requires
            old(self)@ + bytes@.len() <= u64::MAX,
        ensures
            final(self)@ == old(self)@ + bytes@.len(),
            texts_of(lines@) == dump_lines(old(self)@, bytes@),
    {
        let ghost start = self.off as nat;
        let mut lines: Vec<String> = Vec::new();
        let n: usize = bytes.len();
        let mut at: usize = 0;
        let ghost mut k: int = 0;
        while at < n
            invariant
                n == bytes@.len(),
                start + n <= u64::MAX,
                at <= n,
                self.off == start + at,
                k == lines@.len(),
                at == (if 16 * k <= n {
                    16 * k
                } else {
                    n as int
                }),
                k <= line_count(n as nat),
                forall|i: int|
                    0 <= i < k ==> #[trigger] texts_of(lines@)[i] == dump_line(
                        (start + 16 * i) as nat,
                        line_bytes(bytes@, i),
                    ),
            decreases n - at,
        {
            let end: usize = if n - at >= PER_LINE {
                at + PER_LINE
            } else {
                n
            };
            let ghost part = bytes@.subrange(at as int, end as int);
            assert(part == line_bytes(bytes@, k));
            let mut line: String = String::new();
            push_number(&mut line, self.off, 16, 8, '0');
            line.append("  ");
            push_hex_column(&mut line, bytes, at, end);
            proof {
                lemma_hex_column_len(part);
            }
            push_pad_right(&mut line, 3 * (end - at), HEX_WIDTH);
            line.append(" |");
            push_text_column(&mut line, bytes, at, end);
            line.append("|");
            assert(line@ =~= dump_line((start + at) as nat, part));
            let ghost before = lines@;
            lines.push(line);
            assert(texts_of(lines@) =~= texts_of(before).push(line@));
            self.off = self.off + (end - at) as u64;
            at = end;
            proof {
                k = k + 1;
            }
        }
        assert(texts_of(lines@) =~= dump_lines(start, bytes@));
        lines
    }
}

// ---------------------------------------------------------------------------
// Laws
// ---------------------------------------------------------------------------
/// Every byte is printed once and in order: the lines' bytes put together are the bytes
/// of the stream.
#[verifier::spinoff_prover]
pub proof fn law_lines_hold_every_byte(bytes: Seq<u8>)
    ensures
        Seq::new(line_count(bytes.len()), |i: int| line_bytes(bytes, i)).flatten() == bytes,
    decreases bytes.len(),
{
    let parts = Seq::new(line_count(bytes.len()), |i: int| line_bytes(bytes, i));
    if bytes.len() == 0 {
        assert(parts =~= Seq::<Seq<u8>>::empty());
        assert(parts.flatten() =~= bytes);
    } else {
        let first = line_bytes(bytes, 0);
        let rest = bytes.skip(first.len() as int);
        law_lines_hold_every_byte(rest);
        let later = Seq::new(line_count(rest.len()), |i: int| line_bytes(rest, i));
        assert(parts.drop_first() =~= later) by {
            assert forall|i: int| 0 <= i < later.len() implies parts.drop_first()[i] == later[i] by {
                assert(line_bytes(bytes, i + 1) =~= line_bytes(rest, i));
            }
        }
        assert(parts.flatten() =~= first + later.flatten());
        assert(first + rest =~= bytes);
    }
}

/// A stream printed in two pieces, the first of whole lines, prints as in one.
#[verifier::spinoff_prover]
pub proof fn law_dump_in_pieces(off: nat, a: Seq<u8>, b: Seq<u8>)
    requires
        a.len() % 16 == 0,
    ensures
        dump_lines(off, a + b) == dump_lines(off, a) + dump_lines(off + a.len(), b),
{
    let whole = dump_lines(off, a + b);
    let parts = dump_lines(off, a) + dump_lines(off + a.len(), b);
    let n = line_count(a.len()) as int;
    assert(16 * n == a.len());
    assert(whole.len() == parts.len());
    assert forall|i: int| 0 <= i < whole.len() implies whole[i] == parts[i] by {
        if i < n {
            assert(line_bytes(a + b, i) =~= line_bytes(a, i));
        } else {
            assert(line_bytes(a + b, i) =~= line_bytes(b, i - n));
            assert(off + 16 * i == off + a.len() + 16 * (i - n));
        }
    }
    assert(whole =~= parts);
}

/// Every line but the last holds sixteen bytes, and the last as many as are left.
pub proof fn law_lines_hold_sixteen(bytes: Seq<u8>, i: int)
    requires
        0 <= i < line_count(bytes.len()),
    ensures
        i + 1 < line_count(bytes.len()) ==> line_bytes(bytes, i).len() == 16,
        i + 1 == line_count(bytes.len()) ==> 1 <= line_bytes(bytes, i).len() <= 16
            && line_bytes(bytes, i).len() == bytes.len() - 16 * i,
{
}

/// The characters that bytes are shown as: those that print as themselves, any other as
/// a dot.
pub proof fn law_shown_characters(b: u8)
    ensures
        ' ' as int <= b <= '~' as int ==> shown(b) as int == b,
        b < ' ' as int || b > '~' as int ==> shown(b) == '.',
{
}

proof fn lemma_hex_at(bytes: Seq<u8>, k: int)
    requires
        0 <= k < bytes.len(),
    ensures
        hex_column(bytes)[3 * k] == hex2(bytes[k])[0],
        hex_column(bytes)[3 * k + 1] == hex2(bytes[k])[1],
        hex_column(bytes)[3 * k + 2] == ' ',
    decreases bytes.len(),
{
    let front = bytes.drop_last();
    lemma_hex_column_len(front);
    if k < front.len() {
        lemma_hex_at(front, k);
    }
}

proof fn lemma_digits_len(n: nat, k: nat)
    requires
        k >= 1,
        n < pow(16, k),
    ensures
        digits(n, 16).len() <= k,
    decreases k,
{
    reveal(pow);
    if n >= 16 {
        assert(pow(16, 0) == 1);
        if k == 1 {
            assert(pow(16, 1) == 16 * pow(16, 0));
        } else {
            assert(pow(16, k) == 16 * pow(16, (k - 1) as nat));
            lemma_digits_len(n / 16, (k - 1) as nat);
        }
    }
}

proof fn lemma_leading_zeros(s: Seq<char>, n: nat)
    ensures
        digits_value(fill(n as int, '0') + s, 16) == digits_value(s, 16),
    decreases s.len(), n,
{
    let zeros = fill(n as int, '0');
    if s.len() > 0 {
        lemma_leading_zeros(s.drop_last(), n);
        assert((zeros + s).drop_last() =~= zeros + s.drop_last());
    } else if n > 0 {
        lemma_leading_zeros(s, (n - 1) as nat);
        assert((zeros + s).drop_last() =~= fill(n - 1, '0') + s);
        assert((zeros + s).last() == '0');
    } else {
        assert(zeros + s =~= s);
    }
}

/// A line by its columns: eight digits that are read as the offset; from the tenth
/// character on the bytes in hexadecimal, three characters each, up to the 58th; then the
/// bytes as characters between two bars.
#[verifier::spinoff_prover]
pub proof fn law_line_by_columns(off: nat, bytes: Seq<u8>, k: int)
    requires
        off < 0x1_0000_0000,
        bytes.len() <= 16,
        0 <= k < bytes.len(),
    ensures
        ({
            let line = dump_line(off, bytes);
            &&& line.len() == 61 + bytes.len()
            &&& digits_value(line.take(8), 16) == Some(off)
            &&& line[8] == ' ' && line[9] == ' '
            &&& digits_value(line.subrange(10 + 3 * k, 12 + 3 * k), 16) == Some(bytes[k] as nat)
            &&& line[12 + 3 * k] == ' '
            &&& line[58] == ' ' && line[59] == '|'
            &&& line[60 + k] == shown(bytes[k])
            &&& line.last() == '|'
        }),
{
    reveal_strlit("  ");
    reveal_strlit(" |");
    reveal_strlit("|");
    let line = dump_line(off, bytes);
    let d = digits(off, 16);
    let head = pad_left(d, 8, '0');
    assert(pow(16, 8) == 0x1_0000_0000) by {
        reveal_with_fuel(pow, 9);
    }
    lemma_digits_len(off, 8);
    lemma_hex_column_len(bytes);
    let hex = pad_right(hex_column(bytes), 48);
    assert(head.len() == 8 && hex.len() == 48);
    assert(line.take(8) =~= head);
    law_written_number_is_read_back(off, 16);
    lemma_leading_zeros(d, (8 - d.len()) as nat);
    lemma_hex_at(bytes, k);
    law_hex_is_read_back(bytes[k]);
    assert(line[10 + 3 * k] == hex[3 * k]);
    assert(line.subrange(10 + 3 * k, 12 + 3 * k) =~= hex2(bytes[k]));
}

} // verus!

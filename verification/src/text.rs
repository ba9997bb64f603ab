//! Tab-separated text: lines, fields and decimal integers.

use vstd::prelude::*;
use crate::chrom::DIGIT_ZERO;

verus! {

/// The field separator.
pub const TAB: u8 = 9;

/// The line terminator.
pub const NEWLINE: u8 = 10;

/// ASCII `-`.
pub const MINUS: u8 = 45;

/// The pieces of `s` between occurrences of `sep`: one more piece than there
/// are separators, so an empty text is one empty piece.
pub open spec fn split(s: Seq<u8>, sep: u8) -> Seq<Seq<u8>>
    decreases s.len(),
{
    if s.len() == 0 {
        seq![Seq::<u8>::empty()]
    } else {
        let before = split(s.drop_last(), sep);
        if s.last() == sep {
            before.push(Seq::<u8>::empty())
        } else {
            before.drop_last().push(before.last().push(s.last()))
        }
    }
}

/// The pieces that are not empty, in their order.
pub open spec fn nonempty(pieces: Seq<Seq<u8>>) -> Seq<Seq<u8>> {
    pieces.filter(|piece: Seq<u8>| piece.len() > 0)
}

/// The fields of each line.
pub open spec fn fields_of_lines(lines: Seq<Seq<u8>>) -> Seq<Seq<Seq<u8>>> {
    lines.map_values(|line: Seq<u8>| split(line, TAB))
}

/// The lines of a text: its pieces between newlines, the empty ones left
/// out. A newline at the end of the text therefore starts no line.
pub open spec fn lines_of(text: Seq<u8>) -> Seq<Seq<u8>> {
    nonempty(split(text, NEWLINE))
}

/// The fields of every line of a text.
pub open spec fn cells_of(text: Seq<u8>) -> Seq<Seq<Seq<u8>>> {
    fields_of_lines(lines_of(text))
}

/// One more piece adds itself to the pieces that are not empty, unless it
/// is empty.
pub proof fn lemma_nonempty_push(pieces: Seq<Seq<u8>>, piece: Seq<u8>)
    ensures
        nonempty(pieces.push(piece)) == if piece.len() > 0 {
            nonempty(pieces).push(piece)
        } else {
            nonempty(pieces)
        },
{
    pieces.lemma_filter_push(piece, |piece: Seq<u8>| piece.len() > 0);
}

/// A line of a text holds a byte at least, and no newline.
pub proof fn lemma_lines_plain(text: Seq<u8>)
    ensures
        forall|i: int|
            0 <= i < lines_of(text).len() ==> (#[trigger] lines_of(text)[i]).len() > 0 && free_of(
                lines_of(text)[i],
                NEWLINE,
            ),
{
    let pieces = split(text, NEWLINE);
    let pred = |piece: Seq<u8>| piece.len() > 0;
    lemma_split_pieces(text, NEWLINE);
    assert(lines_of(text) == pieces.filter(pred));
    assert forall|i: int| 0 <= i < lines_of(text).len() implies (#[trigger] lines_of(text)[i]).len()
        > 0 && free_of(lines_of(text)[i], NEWLINE) by {
        pieces.lemma_filter_pred(pred, i);
        let line = lines_of(text)[i];
        assert(pieces.filter(pred).contains(line));
        pieces.lemma_filter_contains_rev(pred, line);
        assert(pieces.contains(line));
        let at = choose|at: int| 0 <= at < pieces.len() && pieces[at] == line;
        assert(free_of(pieces[at], NEWLINE));
    }
}

/// One more line adds its fields.
pub proof fn lemma_fields_of_lines_push(lines: Seq<Seq<u8>>, line: Seq<u8>)
    ensures
        fields_of_lines(lines.push(line)) == fields_of_lines(lines).push(split(line, TAB)),
{
    assert(fields_of_lines(lines.push(line)) =~= fields_of_lines(lines).push(split(line, TAB)));
}

/// The byte strings that a vector of byte vectors holds.
pub open spec fn fields_of(row: Seq<Vec<u8>>) -> Seq<Seq<u8>> {
    row.map_values(|field: Vec<u8>| field@)
}

/// The byte strings that a vector of rows holds.
pub open spec fn grid_of(rows: Seq<Vec<Vec<u8>>>) -> Seq<Seq<Seq<u8>>> {
    rows.map_values(|row: Vec<Vec<u8>>| fields_of(row@))
}

/// Whether a byte occurs nowhere in a string.
pub open spec fn free_of(s: Seq<u8>, byte: u8) -> bool {
    forall|i: int| 0 <= i < s.len() ==> s[i] != byte
}

/// A split never yields an empty list, and no piece holds the separator.
pub proof fn lemma_split_pieces(s: Seq<u8>, sep: u8)
    ensures
        split(s, sep).len() >= 1,
        forall|k: int| 0 <= k < split(s, sep).len() ==> free_of(#[trigger] split(s, sep)[k], sep),
    decreases s.len(),
{
    if s.len() > 0 {
        lemma_split_pieces(s.drop_last(), sep);
    }
}

/// Cuts `s` at every `sep`.
pub fn split_bytes(s: &[u8], sep: u8) -> (pieces: Vec<Vec<u8>>)
    ensures
        fields_of(pieces@) == split(s@, sep),
{
    let mut done: Vec<Vec<u8>> = Vec::new();
    let mut current: Vec<u8> = Vec::new();
    let mut i: usize = 0;
    proof {
        assert(s@.take(0) =~= Seq::<u8>::empty());
        assert(fields_of(done@).push(current@) =~= split(s@.take(0), sep));
    }
    while i < s.len()
        invariant
            i <= s.len(),
            fields_of(done@).push(current@) == split(s@.take(i as int), sep),
        decreases s.len() - i,
    {
        let ghost before = split(s@.take(i as int), sep);
        proof {
            assert(s@.take(i + 1).drop_last() =~= s@.take(i as int));
            assert(s@.take(i + 1).last() == s@[i as int]);
            assert(before.last() == current@);
            assert(before.drop_last() =~= fields_of(done@));
        }
        if s[i] == sep {
            done.push(current);
            current = Vec::new();
            proof {
                assert(fields_of(done@) =~= before);
            }
        } else {
            current.push(s[i]);
        }
        i += 1;
    }
    proof {
        assert(s@.take(i as int) =~= s@);
    }
    let ghost head = fields_of(done@);
    let ghost tail = current@;
    done.push(current);
    proof {
        assert(fields_of(done@) =~= head.push(tail));
    }
    done
}

/// Whether a byte is an ASCII digit.
pub open spec fn is_digit(b: u8) -> bool {
    DIGIT_ZERO <= b <= DIGIT_ZERO + 9
}

/// Whether a string is made of ASCII digits, and of one at least.
pub open spec fn is_digits(s: Seq<u8>) -> bool {
    s.len() > 0 && forall|i: int| 0 <= i < s.len() ==> is_digit(#[trigger] s[i])
}

/// The number that a string of digits writes in base ten.
pub open spec fn decimal_value(s: Seq<u8>) -> nat
    decreases s.len(),
{
    if s.len() == 0 {
        0
    } else {
        decimal_value(s.drop_last()) * 10 + (s.last() - DIGIT_ZERO) as nat
    }
}

/// The integer that a field writes: digits, with or without a minus sign in
/// front, of a value that fits in 64 bits. Any other field writes none.
pub open spec fn integer_of(s: Seq<u8>) -> Option<int> {
    if is_digits(s) {
        if decimal_value(s) <= i64::MAX {
            Some(decimal_value(s) as int)
        } else {
            None
        }
    } else if s.len() > 0 && s[0] == MINUS && is_digits(s.skip(1)) {
        if decimal_value(s.skip(1)) <= -(i64::MIN as int) {
            Some(-(decimal_value(s.skip(1)) as int))
        } else {
            None
        }
    } else {
        None
    }
}

/// The decimal digits of `n`, without leading zeros; `0` for zero.
pub open spec fn digits_of(n: nat) -> Seq<u8>
    decreases n,
{
    if n < 10 {
        seq![(DIGIT_ZERO + n) as u8]
    } else {
        digits_of(n / 10).push((DIGIT_ZERO + n % 10) as u8)
    }
}

/// The text of an integer: its digits, after a minus sign if it is negative.
pub open spec fn text_of(v: int) -> Seq<u8> {
    if v < 0 {
        seq![MINUS] + digits_of((-v) as nat)
    } else {
        digits_of(v as nat)
    }
}

/// The digits of a number are digits, and write that number.
pub proof fn lemma_digits_of(n: nat)
    ensures
        is_digits(digits_of(n)),
        decimal_value(digits_of(n)) == n,
    decreases n,
{
    if n < 10 {
        let s = digits_of(n);
        assert(s.drop_last() =~= Seq::<u8>::empty());
        assert(decimal_value(s.drop_last()) == 0);
    } else {
        lemma_digits_of(n / 10);
        let s = digits_of(n);
        assert(s.drop_last() =~= digits_of(n / 10));
    }
}

/// Reading the text of an integer gives the integer back.
pub proof fn lemma_integer_round_trip(v: int)
    requires
        i64::MIN <= v <= i64::MAX,
    ensures
        integer_of(text_of(v)) == Some(v),
        free_of(text_of(v), TAB),
        free_of(text_of(v), NEWLINE),
        text_of(v).len() > 0,
{
    if v < 0 {
        let n = (-v) as nat;
        lemma_digits_of(n);
        let s = text_of(v);
        assert(s.skip(1) =~= digits_of(n));
        assert(!is_digit(s[0]));
    } else {
        lemma_digits_of(v as nat);
    }
}

/// Reads a field as a decimal integer.
pub fn parse_integer(s: &[u8]) -> (value: Option<i64>)
    ensures
        match value {
            Some(v) => integer_of(s@) == Some(v as int),
            None => integer_of(s@) is None,
        },
{
    if s.len() == 0 {
        return None;
    }
    let negative: bool = s[0] == MINUS;
    let start: usize = if negative {
        1
    } else {
        0
    };
    if start == s.len() {
        return None;
    }
    let ghost body = s@.skip(start as int);
    // The magnitude, which may be one more than the largest positive value.
    let limit: u64 = if negative {
        0x8000_0000_0000_0000
    } else {
        0x7FFF_FFFF_FFFF_FFFF
    };
    let mut total: u64 = 0;
    let mut i: usize = start;
    proof {
        assert(body.take(0) =~= Seq::<u8>::empty());
    }
    while i < s.len()
        invariant
            start <= i <= s.len(),
            body == s@.skip(start as int),
            start < s.len(),
            i > start ==> is_digits(body.take(i - start)),
            total == decimal_value(body.take(i - start)),
            total <= limit,
            negative == (s@[0] == MINUS),
            start == if negative { 1int } else { 0int },
            limit == if negative { 0x8000_0000_0000_0000u64 } else { 0x7FFF_FFFF_FFFF_FFFFu64 },
        decreases s.len() - i,
    {
        let b: u8 = s[i];
        proof {
            assert(body.take(i - start + 1).drop_last() =~= body.take(i - start));
            assert(body.take(i - start + 1).last() == b);
        }
        if b < DIGIT_ZERO || b > DIGIT_ZERO + 9 {
            proof {
                assert(!is_digit(body[i - start]));
                assert(!is_digits(body));
                if !negative {
                    assert(body =~= s@);
                    assert(!is_digit(s@[i as int]));
                } else {
                    assert(!is_digit(s@[0]));
                }
            }
            return None;
        }
        let d: u64 = (b - DIGIT_ZERO) as u64;
        if total > (limit - d) / 10 {
            proof {
                lemma_decimal_grows(body, i - start + 1);
                assert(decimal_value(body) > limit);
                if !negative {
                    assert(body =~= s@);
                } else {
                    assert(!is_digit(s@[0]));
                }
            }
            return None;
        }
        total = total * 10 + d;
        proof {
            assert forall|k: int| 0 <= k < i - start + 1 implies is_digit(
                #[trigger] body.take(i - start + 1)[k],
            ) by {
                if k < i - start {
                    assert(body.take(i - start)[k] == body[k]);
                }
            }
        }
        i += 1;
    }
    proof {
        assert(body.take(i - start) =~= body);
        if !negative {
            assert(body =~= s@);
        } else {
            assert(!is_digit(s@[0]));
        }
    }
    if negative {
        if total == 0x8000_0000_0000_0000 {
            Some(i64::MIN)
        } else {
            Some(-(total as i64))
        }
    } else {
        Some(total as i64)
    }
}

/// Appends the decimal digits of `n`.
pub fn push_digits(n: u64, out: &mut Vec<u8>)
    ensures
        final(out)@ == old(out)@ + digits_of(n as nat),
    decreases n,
{
    if n < 10 {
        out.push(DIGIT_ZERO + (n as u8));
        proof {
            assert(final(out)@ =~= old(out)@ + digits_of(n as nat));
        }
    } else {
        push_digits(n / 10, out);
        out.push(DIGIT_ZERO + ((n % 10) as u8));
        proof {
            assert(final(out)@ =~= old(out)@ + digits_of(n as nat));
        }
    }
}

/// Appends the text of an integer.
pub fn push_integer(v: i64, out: &mut Vec<u8>)
    ensures
        final(out)@ == old(out)@ + text_of(v as int),
{
    if v < 0 {
        out.push(MINUS);
        let magnitude: u64 = if v == i64::MIN {
            0x8000_0000_0000_0000
        } else {
            (-v) as u64
        };
        push_digits(magnitude, out);
        proof {
            assert(final(out)@ =~= old(out)@ + text_of(v as int));
        }
    } else {
        push_digits(v as u64, out);
    }
}

/// A string of digits is worth at least as much as any of its beginnings
/// when what follows is digits too.
pub proof fn lemma_decimal_grows(s: Seq<u8>, n: int)
    requires
        0 <= n <= s.len(),
    ensures
        decimal_value(s.take(n)) <= decimal_value(s),
    decreases s.len() - n,
{
    if n < s.len() {
        assert(s.take(n + 1).drop_last() =~= s.take(n));
        lemma_decimal_grows(s, n + 1);
    } else {
        assert(s.take(n) =~= s);
    }
}

} // verus!

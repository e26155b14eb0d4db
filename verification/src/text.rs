//! Plain-text rendering: decimal numbers, left-aligned columns, repeated text.

use vstd::prelude::*;
use vstd::string::*;

verus! {

/// The ten decimal digits, indexed by their value.
pub open spec fn digit_chars() -> Seq<char> {
    seq!['0', '1', '2', '3', '4', '5', '6', '7', '8', '9']
}

/// The decimal notation of `n`, without leading zeros.
pub open spec fn decimal_text(n: nat) -> Seq<char>
    decreases n,
{
    if n < 10 {
        seq![digit_chars()[n as int]]
    } else {
        decimal_text(n / 10).push(digit_chars()[(n % 10) as int])
    }
}

/// `count` copies of `piece`, one after the other.
pub open spec fn repeated(piece: Seq<char>, count: nat) -> Seq<char>
    decreases count,
{
    if count == 0 {
        Seq::empty()
    } else {
        repeated(piece, (count - 1) as nat) + piece
    }
}

/// `text` followed by as many spaces as it takes to be `width` characters
/// long; a text that is already that long stays as it is.
pub open spec fn padded(text: Seq<char>, width: nat) -> Seq<char> {
    text + repeated(" "@, if text.len() < width { (width - text.len()) as nat } else { 0 })
}

fn digit(d: u64) -> (s: &'static str)
    requires
        d < 10,
    ensures
        s@ == seq![digit_chars()[d as int]],
{
    proof {
        reveal_strlit("0");
        reveal_strlit("1");
        reveal_strlit("2");
        reveal_strlit("3");
        reveal_strlit("4");
        reveal_strlit("5");
        reveal_strlit("6");
        reveal_strlit("7");
        reveal_strlit("8");
        reveal_strlit("9");
    }
    let s: &'static str = match d {
        0 => "0",
        1 => "1",
        2 => "2",
        3 => "3",
        4 => "4",
        5 => "5",
        6 => "6",
        7 => "7",
        8 => "8",
        _ => "9",
    };
    assert(s@ =~= seq![digit_chars()[d as int]]);
    s
}

/// Writes `n` in decimal notation.
pub fn decimal(n: u64) -> (s: String)
    ensures
        s@ == decimal_text(n as nat),
        is_decimal_of(s@, n as nat),
    decreases n,
{
    proof {
        law_decimal_reads_back(n as nat);
    }
    if n < 10 {
        digit(n).to_owned()
    } else {
        let mut s: String = decimal(n / 10);
        s.append(digit(n % 10));
        assert(s@ =~= decimal_text((n / 10) as nat).push(digit_chars()[(n % 10) as int]));
        s
    }
}

/// Appends `count` copies of `piece` to `out`.
pub fn append_repeated(out: &mut String, piece: &str, count: usize)
    ensures
        final(out)@ == old(out)@ + repeated(piece@, count as nat),
{
    let mut done: usize = 0;
    while done < count
        invariant
            done <= count,
            out@ =~= old(out)@ + repeated(piece@, done as nat),
        decreases count - done,
    {
        out.append(piece);
        done = done + 1;
    }
}

/// Appends `text` to `out` in a left-aligned column of `width` characters.
pub fn append_padded(out: &mut String, text: &str, width: usize)
    ensures
        final(out)@ == old(out)@ + padded(text@, width as nat),
        is_column(final(out)@.skip(old(out)@.len() as int), text@, width as nat),
{
    let len: usize = text.unicode_len();
    let gap: usize = if len < width { width - len } else { 0 };
    out.append(text);
    append_repeated(out, " ", gap);
    assert(out@ =~= old(out)@ + padded(text@, width as nat));
    proof {
        law_padded_text_is_a_column(text@, width as nat);
        assert(out@.skip(old(out)@.len() as int) =~= padded(text@, width as nat));
    }
}

// --- Laws -------------------------------------------------------------------

/// The number that a text of decimal digits stands for.
pub open spec fn decimal_value(digits: Seq<char>) -> int
    decreases digits.len(),
{
    if digits.len() == 0 {
        0
    } else {
        decimal_value(digits.drop_last()) * 10 + (digits.last() as int - '0' as int)
    }
}

/// Whether `s` is the decimal notation of `n`: digits that stand for `n`, with
/// no zero in front of others.
pub open spec fn is_decimal_of(s: Seq<char>, n: nat) -> bool {
    &&& s.len() > 0
    &&& forall|i: int| 0 <= i < s.len() ==> '0' <= #[trigger] s[i] <= '9'
    &&& decimal_value(s) == n
    &&& s.len() > 1 ==> s[0] != '0'
}

/// Whether `s` is a left-aligned column with `text` in it: the text, and behind
/// it spaces up to the width, if it is not that wide already.
pub open spec fn is_column(s: Seq<char>, text: Seq<char>, width: nat) -> bool {
    &&& s.len() == if text.len() < width { width } else { text.len() }
    &&& s.take(text.len() as int) == text
    &&& forall|i: int| text.len() <= i < s.len() ==> #[trigger] s[i] == ' '
}

/// A number that is written out reads back as itself.
pub proof fn law_decimal_reads_back(n: nat)
    ensures
        is_decimal_of(decimal_text(n), n),
    decreases n,
{
    let s = decimal_text(n);
    if n >= 10 {
        let front = decimal_text(n / 10);
        law_decimal_reads_back(n / 10);
        assert(s.drop_last() =~= front);
        if front.len() == 1 {
            reveal_with_fuel(decimal_value, 2);
            assert(front.drop_last() =~= Seq::empty());
        }
    } else {
        reveal_with_fuel(decimal_value, 2);
        assert(s.drop_last() =~= Seq::empty());
    }
}

/// The digits of a number are its remainders by ten, the last one first.
pub proof fn law_digits_are_remainders(n: nat)
    ensures
        decimal_text(n).last() as int == '0' as int + n % 10,
        n < 10 ==> decimal_text(n).len() == 1,
        n >= 10 ==> decimal_text(n).drop_last() == decimal_text(n / 10),
{
    if n >= 10 {
        assert(decimal_text(n).drop_last() =~= decimal_text(n / 10));
    }
}

/// Different numbers are written differently.
pub proof fn law_decimals_differ(n: nat, m: nat)
    requires
        decimal_text(n) == decimal_text(m),
    ensures
        n == m,
{
    law_decimal_reads_back(n);
    law_decimal_reads_back(m);
}

/// Repeated text is the piece over and over: as long as all copies together,
/// and at each offset of each copy the character that the piece has there.
pub proof fn law_copies_repeat_the_piece(piece: Seq<char>, count: nat, copy: int, offset: int)
    requires
        0 <= copy < count,
        0 <= offset < piece.len(),
    ensures
        repeated(piece, count).len() == count * piece.len(),
        0 <= copy * piece.len() + offset < repeated(piece, count).len(),
        repeated(piece, count)[copy * piece.len() + offset] == piece[offset],
    decreases count,
{
    let fewer = (count - 1) as nat;
    law_copies_add_up_in_length(piece, count);
    law_copies_add_up_in_length(piece, fewer);
    assert(copy * piece.len() + offset < count * piece.len()) by (nonlinear_arith)
        requires
            copy + 1 <= count,
            offset < piece.len(),
    ;
    assert(0 <= copy * piece.len()) by (nonlinear_arith)
        requires
            0 <= copy,
    ;
    if copy < fewer {
        law_copies_repeat_the_piece(piece, fewer, copy, offset);
    }
}

/// Repeated text is as long as all copies of the piece together.
pub proof fn law_copies_add_up_in_length(piece: Seq<char>, count: nat)
    ensures
        repeated(piece, count).len() == count * piece.len(),
    decreases count,
{
    if count > 0 {
        law_copies_add_up_in_length(piece, (count - 1) as nat);
        assert(count * piece.len() == (count - 1) * piece.len() + piece.len())
            by (nonlinear_arith);
    } else {
        assert(0 * piece.len() == 0) by (nonlinear_arith);
    }
}

/// A padded text is a left-aligned column.
pub proof fn law_padded_text_is_a_column(text: Seq<char>, width: nat)
    ensures
        is_column(padded(text, width), text, width),
        padded(text, width).len() >= width,
        text.len() >= width ==> padded(text, width) == text,
        text.is_prefix_of(padded(text, width)),
        forall|i: int|
            text.len() <= i < padded(text, width).len() ==> #[trigger] padded(text, width)[i]
                == ' ',
{
    reveal_strlit(" ");
    let gap: nat = if text.len() < width { (width - text.len()) as nat } else { 0 };
    let s = padded(text, width);
    law_copies_add_up_in_length(" "@, gap);
    assert forall|i: int| text.len() <= i < s.len() implies #[trigger] s[i] == ' ' by {
        law_copies_repeat_the_piece(" "@, gap, i - text.len(), 0);
        assert(s[i] == repeated(" "@, gap)[i - text.len()]);
    }
    assert(s.take(text.len() as int) =~= text);
}

} // verus!

//! Placing glyphs on a square grid and naming the files that single glyphs go to.

use vstd::prelude::*;

verus! {

/// `side` is the side of the smallest square grid with room for `count` cells.
pub open spec fn is_grid_side(count: int, side: int) -> bool {
    &&& side >= 0
    &&& side * side >= count
    &&& (side == 0 || (side - 1) * (side - 1) < count)
}

/// The number of columns of the smallest square grid with room for `count` glyphs: the
/// square root of `count`, rounded up.
pub fn grid_columns(count: usize) -> (side: usize)
    ensures
        is_grid_side(count as int, side as int),
{
    let mut side: usize = 0;
    loop
        invariant
            side <= count,
            side == 0 || (side - 1) * (side - 1) < count,
        ensures
            side * side >= count,
            side == 0 || (side - 1) * (side - 1) < count,
        decreases count - side,
    {
        let wide = side as u128;
        assert(wide * wide < 0x1_0000_0000_0000_0000_0000_0000_0000_0000) by (nonlinear_arith)
            requires
                wide < 0x1_0000_0000_0000_0000,
        ;
        if wide * wide >= count as u128 {
            break;
        }
        assert(side < count) by (nonlinear_arith)
            requires
                side * side < count,
        ;
        side += 1;
    }
    side
}

/// The column and the row of the cell at `index` in a grid with `columns` columns,
/// filled row by row.
pub fn grid_cell(index: usize, columns: usize) -> (cell: (usize, usize))
    requires
        columns > 0,
    ensures
        cell.0 == index % columns,
        cell.1 == index / columns,
        cell.0 < columns,
        cell.1 * columns + cell.0 == index,
{
    let cell = (index % columns, index / columns);
    assert(cell.1 * columns + cell.0 == index) by (nonlinear_arith)
        requires
            columns > 0,
            cell.0 == index % columns,
            cell.1 == index / columns,
    ;
    cell
}

/// Every glyph of a list finds a cell inside the square grid made for the list: its
/// row, like its column, is below the number of columns.
pub proof fn grid_holds_every_glyph(count: int, side: int, index: int)
    requires
        is_grid_side(count, side),
        0 <= index < count,
    ensures
        side > 0,
        index / side < side,
        index % side < side,
{
    assert(side > 0) by (nonlinear_arith)
        requires
            side >= 0,
            side * side >= count,
            count > 0,
    ;
    assert(index / side < side) by (nonlinear_arith)
        requires
            side > 0,
            0 <= index < count,
            side * side >= count,
    ;
}

/// The lower-case hexadecimal digit of a value below 16.
pub open spec fn hex_digit(d: nat) -> char {
    if d < 10 {
        (48 + d) as char
    } else {
        (87 + d) as char
    }
}

/// The lower-case hexadecimal digits of `n`, most significant first, without leading zeros.
pub open spec fn hex_digits(n: nat) -> Seq<char>
    decreases n,
{
    if n < 16 {
        seq![hex_digit(n)]
    } else {
        hex_digits(n / 16).push(hex_digit(n % 16))
    }
}

/// Appends `c` to `out`, through `String::push` of the standard library.
#[verifier::external_body]
fn push_char(out: &mut String, c: char)
    ensures
        final(out)@ == old(out)@.push(c),
{
    out.push(c);
}

fn push_hex(out: &mut String, n: u32)
    ensures
        final(out)@ == old(out)@ + hex_digits(n as nat),
    decreases n,
{
    let ghost start = out@;
    if n >= 16 {
        push_hex(out, n / 16);
    }
    let d = n % 16;
    let b: u8 = if d < 10 {
        48 + d as u8
    } else {
        87 + d as u8
    };
    push_char(out, b as char);
    assert(out@ =~= start + hex_digits(n as nat));
}

/// The stem of the file that the drawing of `character` goes to: the character, a dash,
/// and its code point in lower-case hexadecimal after `0x`.
pub open spec fn glyph_stem_of(character: char) -> Seq<char> {
    seq![character, '-', '0', 'x'] + hex_digits(character as nat)
}

/// Names the file for the drawing of `character`, as in `B-0x42`.
pub fn glyph_stem(character: char) -> (stem: String)
    ensures
        stem@ == glyph_stem_of(character),
{
    let mut out = String::new();
    push_char(&mut out, character);
    push_char(&mut out, '-');
    push_char(&mut out, '0');
    push_char(&mut out, 'x');
    push_hex(&mut out, character as u32);
    assert(out@ =~= glyph_stem_of(character));
    out
}

/// Distinct characters get distinct file stems, so their drawings never overwrite each other.
pub proof fn glyph_stems_distinct(a: char, b: char)
    ensures
        glyph_stem_of(a) == glyph_stem_of(b) ==> a == b,
{
    if glyph_stem_of(a) == glyph_stem_of(b) {
        assert(glyph_stem_of(a)[0] == a);
        assert(glyph_stem_of(b)[0] == b);
    }
}

/// A lower-case hexadecimal digit: `0` to `9` or `a` to `f`.
pub open spec fn is_hex_char(c: char) -> bool {
    (48 <= c as int <= 57) || (97 <= c as int <= 102)
}

/// The value of a lower-case hexadecimal digit.
pub open spec fn hex_char_value(c: char) -> int {
    if c as int <= 57 {
        c as int - 48
    } else {
        c as int - 87
    }
}

/// The value of a string of hexadecimal digits, read most significant first.
pub open spec fn hex_value(digits: Seq<char>) -> int
    decreases digits.len(),
{
    if digits.len() == 0 {
        0
    } else {
        16 * hex_value(digits.drop_last()) + hex_char_value(digits.last())
    }
}

/// Each digit is a lower-case hexadecimal digit with the value it stands for.
pub proof fn lemma_hex_digit_value(d: nat)
    requires
        d < 16,
    ensures
        is_hex_char(hex_digit(d)),
        hex_char_value(hex_digit(d)) == d,
        d > 0 ==> hex_digit(d) != '0',
{
    if d < 10 {
        assert((48 + d) as char as int == 48 + d);
    } else {
        assert((87 + d) as char as int == 87 + d);
    }
}

/// The digits of a number are lower-case hexadecimal digits, without a leading zero
/// (save for zero itself), that read back in base 16 give the number.
pub proof fn hex_digits_spell_the_number(n: nat)
    ensures
        hex_digits(n).len() >= 1,
        forall|i: int| 0 <= i < hex_digits(n).len() ==> is_hex_char(#[trigger] hex_digits(n)[i]),
        hex_value(hex_digits(n)) == n,
        n > 0 ==> hex_digits(n)[0] != '0',
    decreases n,
{
    lemma_hex_digit_value((n % 16) as nat);
    if n < 16 {
        assert(n % 16 == n);
        assert(hex_digits(n) == seq![hex_digit(n)]);
        assert(hex_digits(n).drop_last() =~= Seq::<char>::empty());
        assert(hex_value(Seq::<char>::empty()) == 0);
        assert(hex_value(hex_digits(n)) == 16 * hex_value(Seq::<char>::empty()) + hex_char_value(
            hex_digit(n),
        ));
    } else {
        hex_digits_spell_the_number(n / 16);
        let front = hex_digits(n / 16);
        let d = hex_digit(n % 16);
        assert(hex_digits(n) == front.push(d));
        assert(front.push(d).drop_last() =~= front);
        assert(hex_value(front.push(d)) == 16 * hex_value(front) + hex_char_value(d));
        assert(16 * ((n / 16) as int) + n % 16 == n);
        assert forall|i: int| 0 <= i < hex_digits(n).len() implies is_hex_char(#[trigger] hex_digits(n)[i]) by {
            if i < front.len() {
                assert(hex_digits(n)[i] == front[i]);
            }
        }
        assert(hex_digits(n)[0] == front[0]);
    }
}

/// The stem of a glyph's file is the character, then `-0x`, then lower-case hexadecimal
/// digits without a leading zero whose value is the character's code point.
pub proof fn glyph_stem_spells_code_point(character: char)
    ensures
        glyph_stem_of(character).len() >= 5,
        glyph_stem_of(character)[0] == character,
        glyph_stem_of(character)[1] == '-',
        glyph_stem_of(character)[2] == '0',
        glyph_stem_of(character)[3] == 'x',
        forall|i: int|
            4 <= i < glyph_stem_of(character).len() ==> is_hex_char(#[trigger] glyph_stem_of(character)[i]),
        hex_value(glyph_stem_of(character).skip(4)) == character as int,
        character as int > 0 ==> glyph_stem_of(character)[4] != '0',
{
    let digits = hex_digits(character as nat);
    hex_digits_spell_the_number(character as nat);
    assert(glyph_stem_of(character).skip(4) =~= digits);
    assert forall|i: int| 4 <= i < glyph_stem_of(character).len() implies is_hex_char(
        #[trigger] glyph_stem_of(character)[i],
    ) by {
        assert(glyph_stem_of(character)[i] == digits[i - 4]);
    }
}

} // verus!

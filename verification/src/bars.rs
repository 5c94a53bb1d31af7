//! Bars, numbers and rows: the text of one histogram line.

use vstd::prelude::*;
use vstd::arithmetic::div_mod::{lemma_fundamental_div_mod, lemma_fundamental_div_mod_converse};

verus! {

/// `String::push` appends one character.
pub assume_specification[ String::push ](s: &mut String, c: char)
    ensures
        final(s)@ == old(s)@.push(c),
;

/// The glyph of a cell that is filled to `level` eighths.
pub open spec fn glyph(level: nat) -> char {
    if level == 0 {
        ' '
    } else if level == 1 {
        '\u{258F}'
    } else if level == 2 {
        '\u{258E}'
    } else if level == 3 {
        '\u{258D}'
    } else if level == 4 {
        '\u{258C}'
    } else if level == 5 {
        '\u{258B}'
    } else if level == 6 {
        '\u{258A}'
    } else if level == 7 {
        '\u{2589}'
    } else {
        '\u{2588}'
    }
}

/// The fraction `numer / denom` of `width` cells in eighths of a cell,
/// rounded to the nearest whole, a half upwards.
pub open spec fn rounded_eighths(numer: nat, denom: nat, width: nat) -> nat
    recommends
        denom > 0,
{
    ((2 * (numer * (8 * width)) + denom) / (2 * denom)) as nat
}

/// The fill of cell `i` when `total` eighths are handed out from the left,
/// at most eight to a cell.
pub open spec fn cell_level(total: nat, i: nat) -> nat {
    if total >= 8 * (i + 1) {
        8
    } else if total <= 8 * i {
        0
    } else {
        (total - 8 * i) as nat
    }
}

/// The bar for `numer / denom` on `width` cells.
pub open spec fn bar_text(numer: nat, denom: nat, width: nat) -> Seq<char> {
    Seq::new(width, |i: int| glyph(cell_level(rounded_eighths(numer, denom, width), i as nat)))
}

/// Rounding to the nearest by the remainder of the division.
pub proof fn lemma_round_half_up(p: int, d: int)
    requires
        p >= 0,
        d > 0,
    ensures
        (2 * p + d) / (2 * d) == p / d + (if p % d >= d - p % d {
            1int
        } else {
            0int
        }),
{
    let q = p / d;
    let r = p % d;
    lemma_fundamental_div_mod(p, d);
    assert(p == q * d + r) by (nonlinear_arith)
        requires
            p == d * q + r,
    ;
    if r >= d - r {
        assert(2 * p + d == (q + 1) * (2 * d) + (2 * r - d)) by (nonlinear_arith)
            requires
                p == q * d + r,
        ;
        lemma_fundamental_div_mod_converse(2 * p + d, 2 * d, q + 1, 2 * r - d);
    } else {
        assert(2 * p + d == q * (2 * d) + (2 * r + d)) by (nonlinear_arith)
            requires
                p == q * d + r,
        ;
        lemma_fundamental_div_mod_converse(2 * p + d, 2 * d, q, 2 * r + d);
    }
}

fn glyph_for(level: usize) -> (c: char)
    ensures
        c == glyph(level as nat),
{
    if level == 0 {
        ' '
    } else if level == 1 {
        '\u{258F}'
    } else if level == 2 {
        '\u{258E}'
    } else if level == 3 {
        '\u{258D}'
    } else if level == 4 {
        '\u{258C}'
    } else if level == 5 {
        '\u{258B}'
    } else if level == 6 {
        '\u{258A}'
    } else if level == 7 {
        '\u{2589}'
    } else {
        '\u{2588}'
    }
}

/// A fraction of one or more fills every cell.
pub proof fn lemma_whole_fills(numer: nat, denom: nat, width: nat)
    requires
        denom > 0,
        numer >= denom,
    ensures
        rounded_eighths(numer, denom, width) >= 8 * width,
{
    let cells = 8 * width;
    let doubled = 2 * (numer * cells) + denom;
    assert(doubled >= cells * (2 * denom)) by (nonlinear_arith)
        requires
            doubled == 2 * (numer * cells) + denom,
            numer >= denom,
            denom > 0,
    ;
    lemma_fundamental_div_mod(doubled as int, (2 * denom) as int);
    assert(doubled / (2 * denom) >= cells) by (nonlinear_arith)
        requires
            doubled >= cells * (2 * denom),
            denom > 0,
            doubled == (2 * denom) * (doubled / (2 * denom)) + doubled % (2 * denom),
            0 <= doubled % (2 * denom) < 2 * denom,
    ;
}

/// Quantizes the fraction `numer / denom` into `width` cells of nine fill
/// levels each: full cells first, then at most one partial cell, then empty
/// ones.
pub fn pct_to_bar(numer: u64, denom: u64, width: usize) -> (bar: String)
    requires
        denom > 0,
    ensures
        bar@ == bar_text(numer as nat, denom as nat, width as nat),
{
    let full: u128 = 8 * (width as u128);
    let ghost total = rounded_eighths(numer as nat, denom as nat, width as nat);
    let capped: u128 = if numer >= denom {
        proof {
            lemma_whole_fills(numer as nat, denom as nat, width as nat);
        }
        full
    } else {
        let whole: u128 = full / (denom as u128);
        let part: u128 = full % (denom as u128);
        proof {
            lemma_fundamental_div_mod(full as int, denom as int);
            assert((numer as int) * (whole as int) <= full) by (nonlinear_arith)
                requires
                    0 <= numer < denom,
                    whole >= 0,
                    part >= 0,
                    full == (denom as int) * (whole as int) + (part as int),
            ;
            assert((numer as int) * (part as int) <= 0xffff_ffff_ffff_ffff * 0xffff_ffff_ffff_ffff)
                by (nonlinear_arith)
                requires
                    0 <= numer as int <= 0xffff_ffff_ffff_ffff,
                    0 <= part as int <= 0xffff_ffff_ffff_ffff,
            ;
        }
        let scaled: u128 = (numer as u128) * part;
        let carried: u128 = scaled / (denom as u128);
        let rest: u128 = scaled % (denom as u128);
        proof {
            lemma_fundamental_div_mod(scaled as int, denom as int);
            assert(carried <= part) by (nonlinear_arith)
                requires
                    scaled == (numer as int) * (part as int),
                    scaled == (denom as int) * (carried as int) + (rest as int),
                    0 <= numer < denom,
                    rest >= 0,
                    part >= 0,
                    carried >= 0,
            ;
        }
        let quotient: u128 = (numer as u128) * whole + carried;
        let rounded: u128 = if rest >= (denom as u128) - rest {
            quotient + 1
        } else {
            quotient
        };
        proof {
            let product = (numer as int) * (8 * (width as int));
            lemma_fundamental_div_mod(scaled as int, denom as int);
            assert(product == (quotient as int) * (denom as int) + (rest as int))
                by (nonlinear_arith)
                requires
                    product == (numer as int) * (full as int),
                    full == (denom as int) * (whole as int) + (part as int),
                    scaled == (numer as int) * (part as int),
                    scaled == (denom as int) * (carried as int) + (rest as int),
                    quotient == (numer as int) * (whole as int) + (carried as int),
            ;
            lemma_fundamental_div_mod_converse(product, denom as int, quotient as int, rest as int);
            lemma_round_half_up(product, denom as int);
            assert(rounded == total);
        }
        if rounded >= full {
            full
        } else {
            rounded
        }
    };
    let mut remaining: u128 = capped;
    let mut bar = String::new();
    let mut i: usize = 0;
    while i < width
        invariant
            i <= width,
            full == 8 * width,
            remaining as int == (if total >= full {
                full - 8 * i
            } else if total >= 8 * i {
                total - 8 * i
            } else {
                0
            }),
            bar@ == Seq::new(i as nat, |k: int| glyph(cell_level(total, k as nat))),
        decreases width - i,
    {
        let level: usize = if remaining < 8 {
            remaining as usize
        } else {
            8
        };
        remaining -= level as u128;
        assert(level == cell_level(total, i as nat));
        bar.push(glyph_for(level));
        i += 1;
        assert(bar@ =~= Seq::new(i as nat, |k: int| glyph(cell_level(total, k as nat))));
    }
    bar
}

/// The character of one decimal digit.
pub open spec fn digit_char(d: nat) -> char
    recommends
        d < 10,
{
    ((48 + d) as u8) as char
}

/// A number in decimal, without leading zeros.
pub open spec fn decimal_text(n: nat) -> Seq<char>
    decreases n,
{
    if n < 10 {
        seq![digit_char(n)]
    } else {
        decimal_text(n / 10).push(digit_char(n % 10))
    }
}

/// Appends `n` in decimal to `out`.
pub fn push_decimal(out: &mut String, n: u64)
    ensures
        final(out)@ == old(out)@ + decimal_text(n as nat),
    decreases n,
{
    if n >= 10 {
        push_decimal(out, n / 10);
    }
    let digit: u8 = 48u8 + ((n % 10) as u8);
    out.push(digit as char);
    assert(out@ =~= old(out)@ + decimal_text(n as nat));
}

/// One histogram row: the bar of `count` against `max_count` on ten cells,
/// the count and the term, with single blanks between.
pub open spec fn row_line(max_count: nat, text: Seq<char>, count: nat) -> Seq<char> {
    bar_text(count, max_count, 10) + seq![' '] + decimal_text(count) + seq![' '] + text
}

/// The text of one histogram row.
pub fn format_term_count(max_count: u64, text: &str, count: u64) -> (line: String)
    requires
        max_count > 0,
    ensures
        line@ == row_line(max_count as nat, text@, count as nat),
{
    let mut line = pct_to_bar(count, max_count, 10);
    line.push(' ');
    push_decimal(&mut line, count);
    line.push(' ');
    line.append(text);
    assert(line@ =~= row_line(max_count as nat, text@, count as nat));
    line
}

} // verus!

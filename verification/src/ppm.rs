//! The plain-text PPM form ("P3") of a canvas.
//!
//! The text opens with three header lines: `P3`, the width and the length, and
//! `255`. The channel values of the pixels follow in reading order, red, green
//! and blue of each pixel, in decimal. A value is followed by a space, or by a
//! line break where the row of pixels ends or the line has grown long.

use crate::canvas::{Canvas, Pixel, Rgb};
use vstd::arithmetic::div_mod::lemma_fundamental_div_mod_converse;
use vstd::prelude::*;
use vstd::string::*;

verus! {

/// The most columns a line may have taken up, each value counted with the
/// separator that follows it, before the next value is still followed by a
/// space.
pub const LINE_LIMIT: usize = 66;

/// No line of the text has this many characters.
pub const LINE_WIDTH: usize = 70;

/// One channel value as it appears in the text.
pub struct ColorValue {
    /// The decimal digits of the value.
    pub val: String,
    /// The number of columns the value takes up together with its separator.
    pub len: usize,
}

/// The text of a whole canvas.
pub struct PPM {
    pub lines: String,
}

/// The character for one decimal digit.
pub open spec fn digit(d: int) -> char {
    seq!['0', '1', '2', '3', '4', '5', '6', '7', '8', '9'][d]
}

/// The decimal digits of `n`, without leading zeros.
pub open spec fn decimal(n: nat) -> Seq<char>
    decreases n,
{
    if n < 10 {
        seq![digit(n as int)]
    } else {
        decimal(n / 10).push(digit((n % 10) as int))
    }
}

/// A channel level brought into the range that the format can hold.
pub open spec fn limited(level: int) -> nat {
    if level < 0 {
        0
    } else if level > 255 {
        255
    } else {
        level as nat
    }
}

/// The red (0), green (1) or blue (2) level of a colour.
pub open spec fn channel(color: Rgb, which: int) -> int {
    if which == 0 {
        color.red as int
    } else if which == 1 {
        color.green as int
    } else {
        color.blue as int
    }
}

/// The values to write for a sequence of pixels, three for each pixel, each
/// paired with whether it is the last value of a row `width` pixels wide.
pub open spec fn tokens(pixels: Seq<Pixel<Rgb>>, width: nat) -> Seq<(nat, bool)> {
    Seq::new(
        3 * pixels.len(),
        |i: int|
            (limited(channel(pixels[i / 3].color, i % 3)), i % 3 == 2 && pixels[i / 3].x + 1 == width),
    )
}

/// The columns that a value takes up together with its separator.
pub open spec fn token_len(value: nat) -> nat {
    decimal(value).len() + 1
}

/// Whether a line break follows a value that is written at column `column`:
/// it does where the line would pass the limit, and where a row of pixels
/// ends.
pub open spec fn breaks(column: nat, value: nat, ends_row: bool) -> bool {
    column + token_len(value) > LINE_LIMIT || ends_row
}

/// A value with the separator that follows it when it is written at column
/// `column`.
pub open spec fn token_text(column: nat, value: nat, ends_row: bool) -> Seq<char> {
    decimal(value).push(
        if breaks(column, value, ends_row) {
            '\n'
        } else {
            ' '
        },
    )
}

/// The column that is reached once a value is written at column `column`.
pub open spec fn next_column(column: nat, value: nat, ends_row: bool) -> nat {
    if breaks(column, value, ends_row) {
        0
    } else {
        column + token_len(value)
    }
}

/// The columns taken up on the current line once `count` values are written.
pub open spec fn column(tokens: Seq<(nat, bool)>, count: nat) -> nat
    decreases count,
{
    if count == 0 {
        0
    } else {
        next_column(column(tokens, (count - 1) as nat), tokens[count - 1].0, tokens[count - 1].1)
    }
}

/// The text of the first `count` values, each with its separator.
pub open spec fn body(tokens: Seq<(nat, bool)>, count: nat) -> Seq<char>
    decreases count,
{
    if count == 0 {
        Seq::empty()
    } else {
        body(tokens, (count - 1) as nat) + token_text(
            column(tokens, (count - 1) as nat),
            tokens[count - 1].0,
            tokens[count - 1].1,
        )
    }
}

/// The three header lines.
pub open spec fn header(width: nat, length: nat) -> Seq<char> {
    seq!['P', '3', '\n'] + decimal(width) + seq![' '] + decimal(length) + seq![
        '\n',
        '2',
        '5',
        '5',
        '\n',
    ]
}

/// The whole text of a canvas of the given size whose pixels are `pixels`.
pub open spec fn ppm_text(width: nat, length: nat, pixels: Seq<Pixel<Rgb>>) -> Seq<char> {
    header(width, length) + body(tokens(pixels, width), 3 * pixels.len())
}

/// Whether the `LINE_WIDTH` characters of `text` from `start` on hold a line
/// break.
pub open spec fn breaks_within(text: Seq<char>, start: int) -> bool {
    exists|at: int| start <= at < start + LINE_WIDTH && #[trigger] text[at] == '\n'
}

/// Whether every run of `LINE_WIDTH` characters of `text` holds a line break,
/// so that no line is that long.
pub open spec fn lines_fit(text: Seq<char>) -> bool {
    forall|start: int|
        0 <= start && start + LINE_WIDTH <= text.len() ==> #[trigger] breaks_within(text, start)
}

impl ColorValue {
    /// Brings a channel level into `0..=255`.
    pub fn constrain(level: i64) -> (out: i32)
        ensures
            out == limited(level as int),
    {
        if level > 255 {
            255
        } else if level < 0 {
            0
        } else {
            level as i32
        }
    }

    /// The text of one channel level: the digits of the level brought into
    /// range, and their number plus one for the separator.
    pub fn new(level: i64) -> (value: ColorValue)
        ensures
            value.val@ == decimal(limited(level as int)),
            value.len == value.val@.len() + 1,
            2 <= value.len <= 4,
    {
        let out = Self::constrain(level);
        let val = decimal_string(out as usize);
        let len: usize = if out < 10 {
            2
        } else if out < 100 {
            3
        } else {
            4
        };
        proof {
            reveal_with_fuel(decimal, 3);
        }
        ColorValue { val, len }
    }
}

impl PPM {
    /// Writes out a canvas: the header, then the channel values of every
    /// pixel, broken into lines of fewer than `LINE_WIDTH` characters, the
    /// last of them closed by a line break.
    pub fn parse(canvas: &Canvas<Rgb>) -> (ppm: PPM)
        ensures
            ppm.lines@ == ppm_text(canvas.spec_width(), canvas.spec_length(), canvas.pixels()),
            ppm.lines@.last() == '\n',
            lines_fit(ppm.lines@),
    {
        let width = canvas.width();
        let length = canvas.length();
        let ghost all = tokens(canvas.pixels(), width as nat);
        let mut lines = String::from_str("P3\n");
        lines.append(decimal_string(width).as_str());
        lines.append(" ");
        lines.append(decimal_string(length).as_str());
        lines.append("\n255\n");
        proof {
            reveal_strlit("P3\n");
            reveal_strlit(" ");
            reveal_strlit("\n255\n");
        }
        let mut line_length: usize = 0;
        let mut it = canvas.iter();
        loop
            invariant
                it.canvas() == canvas,
                width == canvas.spec_width(),
                all == tokens(canvas.pixels(), width as nat),
                it.index() <= canvas.pixels().len(),
                lines@ == header(width as nat, length as nat) + body(all, 3 * it.index()),
                line_length == column(all, 3 * it.index()),
                line_length <= LINE_LIMIT,
            ensures
                lines@ == header(width as nat, length as nat) + body(all, 3 * canvas.pixels().len()),
            decreases canvas.pixels().len() - it.index(),
        {
            let ghost done = 3 * it.index();
            match it.next() {
                None => {
                    break ;
                },
                Some(p) => {
                    proof {
                        lemma_pixel_in_row(canvas, (done / 3) as int);
                    }
                    let ends_row = p.x == width - 1;
                    let ghost head = header(width as nat, length as nat);
                    write_value(&mut lines, &mut line_length, p.color.red, false);
                    assert(line_length == column(all, (done + 1) as nat));
                    assert(lines@ =~= head + body(all, (done + 1) as nat));
                    write_value(&mut lines, &mut line_length, p.color.green, false);
                    assert(line_length == column(all, (done + 2) as nat));
                    assert(lines@ =~= head + body(all, (done + 2) as nat));
                    write_value(&mut lines, &mut line_length, p.color.blue, ends_row);
                },
            }
        }
        proof {
            let head = header(width as nat, length as nat);
            lemma_header_shape(width as nat, length as nat);
            assert(all.len() > 0 ==> all.last().1) by {
                if all.len() > 0 {
                    lemma_last_pixel_ends_row(width as int, length as int);
                }
            }
            lemma_body_lines_fit(head, all, all.len());
            if all.len() > 0 {
                lemma_body_ends_with_newline(all);
            }
        }
        PPM { lines }
    }
}

impl Canvas<Rgb> {
    /// The canvas as PPM text: the header, then the channel values of every
    /// pixel, broken into lines of fewer than `LINE_WIDTH` characters, the
    /// last of them closed by a line break.
    pub fn to_ppm(&self) -> (text: String)
        ensures
            text@ == ppm_text(self.spec_width(), self.spec_length(), self.pixels()),
            text@.last() == '\n',
            lines_fit(text@),
    {
        PPM::parse(self).lines
    }
}

/// Appends one value and its separator to the text and moves the column on.
fn write_value(lines: &mut String, line_length: &mut usize, level: i64, ends_row: bool)
    requires
        *old(line_length) <= LINE_LIMIT,
    ensures
        final(lines)@ == old(lines)@ + token_text(
            *old(line_length) as nat,
            limited(level as int),
            ends_row,
        ),
        *final(line_length) == next_column(*old(line_length) as nat, limited(level as int), ends_row),
        *final(line_length) <= LINE_LIMIT,
{
    let value = ColorValue::new(level);
    let wraps = *line_length + value.len > LINE_LIMIT || ends_row;
    lines.append(value.val.as_str());
    if wraps {
        lines.append("\n");
        *line_length = 0;
    } else {
        lines.append(" ");
        *line_length = *line_length + value.len;
    }
    proof {
        reveal_strlit("\n");
        reveal_strlit(" ");
        assert(lines@ =~= old(lines)@ + token_text(
            *old(line_length) as nat,
            limited(level as int),
            ends_row,
        ));
    }
}

/// The text of one decimal digit.
fn digit_str(d: usize) -> (s: &'static str)
    requires
        d < 10,
    ensures
        s@ == seq![digit(d as int)],
{
    proof {
        reveal_strlit("0");
        reveal_strlit("1");
        reveal_strlit("2");
        reveal_strlit("3");
        reveal_strlit("4");
        reveal_strlit("5");
        reveal_strlit("6");
        reveal_strlit("7");
        reveal_strlit("8");
        reveal_strlit("9");
    }
    let s = match d {
        0 => "0",
        1 => "1",
        2 => "2",
        3 => "3",
        4 => "4",
        5 => "5",
        6 => "6",
        7 => "7",
        8 => "8",
        _ => "9",
    };
    s
}

/// The decimal digits of `n` as a string.
fn decimal_string(n: usize) -> (s: String)
    ensures
        s@ == decimal(n as nat),
    decreases n,
{
    if n < 10 {
        String::from_str(digit_str(n))
    } else {
        let mut s = decimal_string(n / 10);
        s.append(digit_str(n % 10));
        s
    }
}

/// The digits of a number hold neither a space nor a line break, so that a
/// separator never falls inside a number.
pub proof fn lemma_decimal_holds_no_separator(n: nat)
    ensures
        forall|i: int|
            0 <= i < decimal(n).len() ==> (#[trigger] decimal(n)[i]) != ' ' && decimal(n)[i] != '\n',
    decreases n,
{
    if n >= 10 {
        let front = decimal(n / 10);
        lemma_decimal_holds_no_separator(n / 10);
        assert forall|i: int| 0 <= i < decimal(n).len() implies (#[trigger] decimal(n)[i]) != ' '
            && decimal(n)[i] != '\n' by {
            if i < front.len() {
                assert(decimal(n)[i] == front[i]);
            }
        }
    }
}

/// Ten to the power `k`.
spec fn pow10(k: nat) -> nat
    decreases k,
{
    if k == 0 {
        1
    } else {
        10 * pow10((k - 1) as nat)
    }
}

/// A number below ten to the `k` has at most `k` decimal digits, and every
/// number has at least one.
proof fn lemma_decimal_len(n: nat, k: nat)
    requires
        k >= 1,
        n < pow10(k),
    ensures
        1 <= decimal(n).len() <= k,
    decreases n,
{
    if n >= 10 {
        assert(k >= 2) by {
            reveal_with_fuel(pow10, 2);
        }
        lemma_decimal_len(n / 10, (k - 1) as nat);
    }
}

/// The header is shorter than the line width and ends in a line break.
proof fn lemma_header_shape(width: nat, length: nat)
    requires
        width <= usize::MAX,
        length <= usize::MAX,
    ensures
        0 < header(width, length).len() < LINE_WIDTH,
        header(width, length).last() == '\n',
        lines_fit(header(width, length)),
{
    assert(pow10(20) == 100000000000000000000) by {
        reveal_with_fuel(pow10, 21);
    }
    lemma_decimal_len(width, 20);
    lemma_decimal_len(length, 20);
}

/// The `k`-th pixel of a canvas stands in one of its columns.
proof fn lemma_pixel_in_row(canvas: &Canvas<Rgb>, k: int)
    requires
        0 <= k < canvas.pixels().len(),
        canvas.spec_width() <= usize::MAX,
    ensures
        canvas.spec_width() > 0,
        canvas.pixels()[k].x < canvas.spec_width(),
{
    let width = canvas.spec_width() as int;
    let length = canvas.spec_length() as int;
    assert(width != 0) by (nonlinear_arith)
        requires
            0 <= k < width * length,
    ;
}

/// The last pixel of a canvas stands in the last column.
proof fn lemma_last_pixel_ends_row(width: int, length: int)
    requires
        0 < width,
        0 < length,
    ensures
        (width * length - 1) % width + 1 == width,
        (width * length - 1) / width + 1 == length,
        width * length > 0,
{
    assert((length - 1) * width + (width - 1) == width * length - 1) by (nonlinear_arith);
    lemma_fundamental_div_mod_converse(width * length - 1, width, length - 1, width - 1);
    assert(width * length > 0) by (nonlinear_arith)
        requires
            0 < width,
            0 < length,
    ;
}

/// Values that follow a text which ends in a line break and keeps to the
/// line width leave a text that keeps to it too: the last line break lies
/// exactly `column` characters before the end.
proof fn lemma_body_lines_fit(head: Seq<char>, tokens: Seq<(nat, bool)>, count: nat)
    requires
        head.len() > 0,
        head.last() == '\n',
        lines_fit(head),
        count <= tokens.len(),
        forall|i: int| 0 <= i < tokens.len() ==> (#[trigger] tokens[i]).0 <= 255,
    ensures
        column(tokens, count) <= LINE_LIMIT,
        (head + body(tokens, count)).len() > column(tokens, count),
        (head + body(tokens, count))[(head + body(tokens, count)).len() - 1 - column(tokens, count)]
            == '\n',
        lines_fit(head + body(tokens, count)),
    decreases count,
{
    if count > 0 {
        let before = (count - 1) as nat;
        lemma_body_lines_fit(head, tokens, before);
        let old_text = head + body(tokens, before);
        let old_column = column(tokens, before);
        let value = tokens[count - 1].0;
        let ends_row = tokens[count - 1].1;
        let added = token_text(old_column, value, ends_row);
        let text = head + body(tokens, count);
        assert(pow10(3) == 1000) by {
            reveal_with_fuel(pow10, 4);
        }
        lemma_decimal_len(value, 3);
        assert(text =~= old_text + added);
        let last_break = old_text.len() - 1 - old_column;
        assert forall|start: int|
            0 <= start && start + LINE_WIDTH <= text.len() implies #[trigger] breaks_within(
            text,
            start,
        ) by {
            if start + LINE_WIDTH <= old_text.len() {
                assert(breaks_within(old_text, start));
                let at = choose|at: int|
                    start <= at < start + LINE_WIDTH && #[trigger] old_text[at] == '\n';
                assert(text[at] == old_text[at]);
            } else if start <= last_break {
                assert(text[last_break] == '\n');
            } else {
                assert(text[text.len() - 1] == '\n');
            }
        }
    }
}

/// Where the last value ends a row, the text of all values ends in a line
/// break.
proof fn lemma_body_ends_with_newline(tokens: Seq<(nat, bool)>)
    requires
        tokens.len() > 0,
        tokens.last().1,
    ensures
        body(tokens, tokens.len()).len() > 0,
        body(tokens, tokens.len()).last() == '\n',
{
}

} // verus!

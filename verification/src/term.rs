//! The escape sequences that drive a raw terminal, as termion writes them.

use vstd::prelude::*;
use vstd::string::*;

verus! {

/// What starts a control sequence: the escape character and `[`.
pub open spec fn csi() -> Seq<char> {
    seq!['\u{1b}', '[']
}

/// The ten digits.
pub open spec fn digits() -> Seq<char> {
    seq!['0', '1', '2', '3', '4', '5', '6', '7', '8', '9']
}

/// The number `n` written in decimal digits.
pub open spec fn decimal(n: nat) -> Seq<char>
    decreases n,
{
    if n < 10 {
        seq![digits()[n as int]]
    } else {
        decimal(n / 10).push(digits()[(n % 10) as int])
    }
}

/// The sequence that moves the cursor to the column `col` and the row
/// `row`, both counted from 1: the row is written first.
pub open spec fn goto_text(col: u16, row: u16) -> Seq<char> {
    csi() + decimal(row as nat) + seq![';'] + decimal(col as nat) + seq!['H']
}

/// The sequence that moves the cursor to the row and column `pos`, both
/// counted from 0.
pub open spec fn goto_sequence(pos: (u16, u16)) -> Seq<char> {
    csi() + decimal((pos.0 + 1) as nat) + seq![';'] + decimal((pos.1 + 1) as nat) + seq!['H']
}

/// The sequence that clears the screen from the cursor on.
pub open spec fn clear_sequence() -> Seq<char> {
    csi() + seq!['J']
}

/// The sequence that ends every style.
pub open spec fn style_reset_sequence() -> Seq<char> {
    csi() + seq!['m']
}

/// The sequence that hides the cursor.
pub open spec fn hide_sequence() -> Seq<char> {
    csi() + seq!['?', '2', '5', 'l']
}

/// The sequence that shows the cursor.
pub open spec fn show_sequence() -> Seq<char> {
    csi() + seq!['?', '2', '5', 'h']
}

/// What termion's `cursor::Goto(col, row)` writes for a column and a row
/// that are both counted from 1: the escape character, `[`, the row, `;`,
/// the column and `H`, the numbers in decimal digits.
#[verifier::external_body]
fn goto_str(col: u16, row: u16) -> (s: String)
    requires
        col >= 1,
        row >= 1,
    ensures
        s@ == goto_text(col, row),
{
    format!("{}", termion::cursor::Goto(col, row))
}

/// The sequence that moves the cursor to the row and column `pos`, both
/// counted from 0.
pub fn term_goto_str(pos: (u16, u16)) -> (s: String)
    requires
        pos.0 < u16::MAX,
        pos.1 < u16::MAX,
    ensures
        s@ == goto_sequence(pos),
{
    goto_str(pos.1 + 1, pos.0 + 1)
}

/// What termion's `clear::AfterCursor` writes: the escape character, `[`
/// and `J`.
#[verifier::external_body]
pub fn term_clear_afer_cursor_str() -> (s: String)
    ensures
        s@ == clear_sequence(),
{
    format!("{}", termion::clear::AfterCursor)
}

/// What termion's `style::Reset` writes: the escape character, `[` and `m`.
#[verifier::external_body]
pub fn term_style_reset_str() -> (s: String)
    ensures
        s@ == style_reset_sequence(),
{
    format!("{}", termion::style::Reset)
}

/// What termion's `cursor::Hide` writes: the escape character and `[?25l`.
#[verifier::external_body]
pub fn term_hide_cursor_str() -> (s: String)
    ensures
        s@ == hide_sequence(),
{
    format!("{}", termion::cursor::Hide)
}

/// What termion's `cursor::Show` writes: the escape character and `[?25h`.
#[verifier::external_body]
pub fn term_show_cursor_str() -> (s: String)
    ensures
        s@ == show_sequence(),
{
    format!("{}", termion::cursor::Show)
}

/// The sequence that brings a terminal back to its start: the cursor to the
/// upper left corner, the screen cleared, every style ended.
pub fn term_reset_str() -> (s: String)
    ensures
        s@ == goto_sequence((0, 0)) + clear_sequence() + style_reset_sequence(),
{
    let mut s = term_goto_str((0, 0));
    let clear = term_clear_afer_cursor_str();
    let reset = term_style_reset_str();
    s.append(clear.as_str());
    s.append(reset.as_str());
    s
}

} // verus!

//! Item texts as sequences of characters: conversion, trimming, and the
//! single-line edit buffer.

use vstd::prelude::*;

verus! {

/// `String::push` appends the character to the end of the string.
pub assume_specification[ String::push ](s: &mut String, ch: char)
    ensures
        final(s)@ == old(s)@.push(ch),
;

/// The characters of `s`, in order.
pub fn to_chars(s: &str) -> (out: Vec<char>)
    ensures
        out@ == s@,
{
    let mut out: Vec<char> = Vec::new();
    for c in it: s.chars()
        invariant
            it.seq() == s@,
            out@ =~= s@.take(it.index() as int),
    {
        out.push(c);
    }
    out
}

/// The string made of the characters `chars[from..to]`.
pub fn from_chars(chars: &Vec<char>, from: usize, to: usize) -> (out: String)
    requires
        from <= to <= chars.len(),
    ensures
        out@ == chars@.subrange(from as int, to as int),
{
    let mut out = String::new();
    let mut i: usize = from;
    while i < to
        invariant
            from <= i <= to <= chars.len(),
            out@ =~= chars@.subrange(from as int, i as int),
        decreases to - i,
    {
        out.push(chars[i]);
        i += 1;
    }
    out
}

/// Whether `c` is white space: the characters with Unicode's `White_Space`
/// property.
pub open spec fn is_space(c: char) -> bool {
    let n = c as u32;
    ||| 0x09 <= n <= 0x0d
    ||| n == 0x20
    ||| n == 0x85
    ||| n == 0xa0
    ||| n == 0x1680
    ||| 0x2000 <= n <= 0x200a
    ||| n == 0x2028
    ||| n == 0x2029
    ||| n == 0x202f
    ||| n == 0x205f
    ||| n == 0x3000
}

/// Tests `is_space`.
pub fn char_is_space(c: char) -> (b: bool)
    ensures
        b == is_space(c),
{
    let n: u32 = c as u32;
    (0x09 <= n && n <= 0x0d) || n == 0x20 || n == 0x85 || n == 0xa0 || n == 0x1680 || (0x2000 <= n
        && n <= 0x200a) || n == 0x2028 || n == 0x2029 || n == 0x202f || n == 0x205f || n == 0x3000
}

/// Whether every character of `s` before position `upto` is white space.
pub open spec fn spaces_before(s: Seq<char>, upto: int) -> bool {
    forall|i: int| 0 <= i < upto ==> is_space(#[trigger] s[i])
}

/// Whether every character of `s` from position `from` on is white space.
pub open spec fn spaces_from(s: Seq<char>, from: int) -> bool {
    forall|i: int| from <= i < s.len() ==> is_space(#[trigger] s[i])
}

/// Whether `s[from..to]` is `s` without its leading and trailing white space:
/// only white space lies outside the range, and the range is empty or starts
/// and ends with a character that is none.
pub open spec fn is_trim_range(s: Seq<char>, from: int, to: int) -> bool {
    &&& 0 <= from <= to <= s.len()
    &&& spaces_before(s, from)
    &&& spaces_from(s, to)
    &&& from < to ==> !is_space(s[from]) && !is_space(s[to - 1])
    &&& from == to ==> from == s.len()
}

/// `s` without its leading and trailing white space.
pub open spec fn trimmed(s: Seq<char>) -> Seq<char> {
    let (from, to) = choose|r: (int, int)| is_trim_range(s, r.0, r.1);
    s.subrange(from, to)
}

/// Whether `s` neither starts nor ends with white space.
pub open spec fn is_trimmed(s: Seq<char>) -> bool {
    s.len() > 0 ==> !is_space(s[0]) && !is_space(s[s.len() - 1])
}

/// A sequence has one trim range only.
pub proof fn lemma_trim_range_unique(s: Seq<char>, a: int, b: int, c: int, d: int)
    requires
        is_trim_range(s, a, b),
        is_trim_range(s, c, d),
    ensures
        a == c,
        b == d,
{
    if a < c {
        assert(is_space(s[a]));
    }
    if c < a {
        assert(is_space(s[c]));
    }
    if b < d {
        assert(is_space(s[d - 1]));
    }
    if d < b {
        assert(is_space(s[b - 1]));
    }
}

/// Trimming a range that meets `is_trim_range` gives that range.
pub proof fn lemma_trimmed_is(s: Seq<char>, from: int, to: int)
    requires
        is_trim_range(s, from, to),
    ensures
        trimmed(s) == s.subrange(from, to),
{
    let r = choose|r: (int, int)| is_trim_range(s, r.0, r.1);
    assert(is_trim_range(s, (from, to).0, (from, to).1));
    lemma_trim_range_unique(s, from, to, r.0, r.1);
}

/// Trimming leaves a text that neither starts nor ends with white space
/// unchanged.
pub proof fn lemma_trimmed_of_trimmed(s: Seq<char>)
    requires
        is_trimmed(s),
    ensures
        trimmed(s) == s,
{
    lemma_trimmed_is(s, 0, s.len() as int);
    assert(s.subrange(0, s.len() as int) =~= s);
}

/// The positions between which `chars` is free of surrounding white space.
pub fn trim_range(chars: &Vec<char>) -> (r: (usize, usize))
    ensures
        is_trim_range(chars@, r.0 as int, r.1 as int),
{
    let n: usize = chars.len();
    let mut from: usize = 0;
    while from < n && char_is_space(chars[from])
        invariant
            from <= n == chars.len(),
            spaces_before(chars@, from as int),
        decreases n - from,
    {
        from += 1;
    }
    if from == n {
        return (n, n);
    }
    let mut to: usize = n;
    while to > from + 1 && char_is_space(chars[to - 1])
        invariant
            from < to <= n == chars.len(),
            !is_space(chars@[from as int]),
            spaces_from(chars@, to as int),
        decreases to,
    {
        to -= 1;
    }
    (from, to)
}

/// `s` without its leading and trailing white space.
pub fn trim(s: &str) -> (out: String)
    ensures
        out@ == trimmed(s@),
{
    let chars = to_chars(s);
    let (from, to) = trim_range(&chars);
    proof {
        lemma_trimmed_is(chars@, from as int, to as int);
    }
    from_chars(&chars, from, to)
}

/// Whether `s` neither starts nor ends with white space.
pub fn text_is_trimmed(s: &str) -> (b: bool)
    ensures
        b == is_trimmed(s@),
{
    let chars = to_chars(s);
    let n: usize = chars.len();
    n == 0 || (!char_is_space(chars[0]) && !char_is_space(chars[n - 1]))
}

/// One keystroke as the edit buffer sees it.
#[derive(Clone, Copy, Debug, PartialEq, Eq, Structural)]
pub enum EditKey {
    /// A character key.
    Char(char),
    /// Cursor one character to the left.
    Left,
    /// Cursor one character to the right.
    Right,
    /// Delete the character before the cursor.
    Backspace,
    /// Delete the character under the cursor.
    Delete,
    /// Cursor to the start of the text.
    Home,
    /// Cursor to the end of the text.
    End,
    /// Any other key: it leaves the buffer alone.
    Other,
}

/// The codes that curses gives for the keys that have no character.
#[derive(Clone, Copy, Debug, PartialEq, Eq, Structural)]
pub struct KeyCodes {
    pub left: i32,
    pub right: i32,
    pub home: i32,
    pub backspace: i32,
    pub delete: i32,
    pub end: i32,
}

/// The key codes as curses defines them.
pub open spec fn curses_key_codes() -> KeyCodes {
    KeyCodes { left: 0x104, right: 0x105, home: 0x106, backspace: 0x107, delete: 0x14a, end: 0x168 }
}

/// The constants `KEY_LEFT`, `KEY_RIGHT`, `KEY_HOME`, `KEY_BACKSPACE`,
/// `KEY_DC` and `KEY_END` of the ncurses crate: 0x104, 0x105, 0x106, 0x107,
/// 0x14a and 0x168.
#[verifier::external_body]
fn key_codes() -> (codes: KeyCodes)
    ensures
        codes == curses_key_codes(),
{
    KeyCodes {
        left: ncurses::constants::KEY_LEFT,
        right: ncurses::constants::KEY_RIGHT,
        home: ncurses::constants::KEY_HOME,
        backspace: ncurses::constants::KEY_BACKSPACE,
        delete: ncurses::constants::KEY_DC,
        end: ncurses::constants::KEY_END,
    }
}

/// What the key with the curses code `key` means to the edit buffer. The
/// codes 32 to 126 are the printable characters; 127 is one more backspace,
/// 1 (ctrl-a) one more home and 5 (ctrl-e) one more end key.
pub open spec fn key_meaning(key: i32) -> EditKey {
    let codes = curses_key_codes();
    if 32 <= key <= 126 {
        EditKey::Char(key as u8 as char)
    } else if key == codes.left {
        EditKey::Left
    } else if key == codes.right {
        EditKey::Right
    } else if key == codes.backspace || key == 127 {
        EditKey::Backspace
    } else if key == codes.delete {
        EditKey::Delete
    } else if key == codes.home || key == 1 {
        EditKey::Home
    } else if key == codes.end || key == 5 {
        EditKey::End
    } else {
        EditKey::Other
    }
}

/// What the key with the curses code `key` means to the edit buffer.
pub fn decode_key(key: i32) -> (k: EditKey)
    ensures
        k == key_meaning(key),
{
    let codes = key_codes();
    if 32 <= key && key <= 126 {
        EditKey::Char(key as u8 as char)
    } else if key == codes.left {
        EditKey::Left
    } else if key == codes.right {
        EditKey::Right
    } else if key == codes.backspace || key == 127 {
        EditKey::Backspace
    } else if key == codes.delete {
        EditKey::Delete
    } else if key == codes.home || key == 1 {
        EditKey::Home
    } else if key == codes.end || key == 5 {
        EditKey::End
    } else {
        EditKey::Other
    }
}

/// Whether `c` is a printable ASCII character, the only kind the buffer takes.
pub open spec fn is_printable(c: char) -> bool {
    32 <= c as u32 <= 126
}

/// `cur` brought back into the text: a cursor behind the end stands at the end.
pub open spec fn clamped(len: nat, cur: usize) -> int {
    if cur <= len {
        cur as int
    } else {
        len as int
    }
}

/// The text after `key` was pressed with the cursor at `cur`.
pub open spec fn edited_text(text: Seq<char>, cur: usize, key: EditKey) -> Seq<char> {
    let at = clamped(text.len(), cur);
    match key {
        EditKey::Char(c) => if is_printable(c) {
            text.insert(at, c)
        } else {
            text
        },
        EditKey::Backspace => if at > 0 {
            text.remove(at - 1)
        } else {
            text
        },
        EditKey::Delete => if at < text.len() {
            text.remove(at)
        } else {
            text
        },
        _ => text,
    }
}

/// Where the cursor stands after `key` was pressed with the cursor at `cur`.
pub open spec fn edited_cursor(text: Seq<char>, cur: usize, key: EditKey) -> int {
    let at = clamped(text.len(), cur);
    match key {
        EditKey::Char(c) => if is_printable(c) {
            at + 1
        } else {
            at
        },
        EditKey::Left | EditKey::Backspace => if at > 0 {
            at - 1
        } else {
            at
        },
        EditKey::Right => if at < text.len() {
            at + 1
        } else {
            at
        },
        EditKey::Home => 0,
        EditKey::End => text.len() as int,
        EditKey::Delete | EditKey::Other => at,
    }
}

/// Applies one keystroke to the text and its cursor. The cursor counts
/// characters; one that stands behind the end is first moved to the end.
pub fn edit_text(text: &mut String, cur: &mut usize, key: EditKey)
    ensures
        final(text)@ == edited_text(old(text)@, *old(cur), key),
        *final(cur) == edited_cursor(old(text)@, *old(cur), key),
{
    let mut chars = to_chars(text.as_str());
    let len: usize = chars.len();
    if *cur > len {
        *cur = len;
    }
    match key {
        EditKey::Char(c) => {
            let n: u32 = c as u32;
            if 32 <= n && n <= 126 {
                chars.insert(*cur, c);
                assert(chars.len() == len + 1);
                *cur += 1;
                *text = from_chars(&chars, 0, chars.len());
                assert(chars@.subrange(0, chars@.len() as int) =~= chars@);
            }
        },
        EditKey::Left => {
            if *cur > 0 {
                *cur -= 1;
            }
        },
        EditKey::Right => {
            if *cur < len {
                *cur += 1;
            }
        },
        EditKey::Backspace => {
            if *cur > 0 {
                *cur -= 1;
                chars.remove(*cur);
                *text = from_chars(&chars, 0, chars.len());
                assert(chars@.subrange(0, chars@.len() as int) =~= chars@);
            }
        },
        EditKey::Delete => {
            if *cur < len {
                chars.remove(*cur);
                *text = from_chars(&chars, 0, chars.len());
                assert(chars@.subrange(0, chars@.len() as int) =~= chars@);
            }
        },
        EditKey::Home => {
            *cur = 0;
        },
        EditKey::End => {
            *cur = len;
        },
        EditKey::Other => {},
    }
}

} // verus!

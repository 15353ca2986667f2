//! The stored form of the two lists: one line per item, indented by four
//! spaces for every level of nesting, the active list first, then a separator
//! line, then the completed list.
//!
//! ```text
//! TODO(*): an active item
//!     TODO(): a completed subtask
//! <--->
//! DONE(2024-01-31 09:30 +0100): a completed item
//! ```

use vstd::prelude::*;
use crate::text::{from_chars, is_space, lemma_trimmed_is, to_chars, trim_range, trimmed};


verus! {

/// The number of spaces that one level of nesting takes.
pub const INDENT_SIZE: usize = 4;

/// The line between the active and the completed list.
pub open spec fn separator() -> Seq<char> {
    seq!['<', '-', '-', '-', '>']
}

/// What opens the line of an active item that is not complete.
pub open spec fn todo_starred() -> Seq<char> {
    seq!['T', 'O', 'D', 'O', '(', '*', ')', ':', ' ']
}

/// What opens the line of an active item that is complete.
pub open spec fn todo_plain() -> Seq<char> {
    seq!['T', 'O', 'D', 'O', '(', ')', ':', ' ']
}

/// What opens the line of a completed item, up to its timestamp.
pub open spec fn done_open() -> Seq<char> {
    seq!['D', 'O', 'N', 'E', '(']
}

/// What stands between the timestamp of a completed item and its text.
pub open spec fn close() -> Seq<char> {
    seq![')', ':', ' ']
}

/// `n` spaces.
pub open spec fn spaces(n: nat) -> Seq<char> {
    Seq::new(n, |i: int| ' ')
}

/// Whether `pat` stands in `s` at position `at`.
pub open spec fn has_at(s: Seq<char>, at: int, pat: Seq<char>) -> bool {
    0 <= at && at + pat.len() <= s.len() && s.subrange(at, at + pat.len()) == pat
}

/// Whether `s` starts with exactly `k` spaces.
pub open spec fn is_lead(s: Seq<char>, k: int) -> bool {
    &&& 0 <= k <= s.len()
    &&& forall|i: int| 0 <= i < k ==> #[trigger] s[i] == ' '
    &&& k < s.len() ==> s[k] != ' '
}

/// The number of spaces that `s` starts with.
pub open spec fn lead(s: Seq<char>) -> int {
    choose|k: int| is_lead(s, k)
}

/// Whether `i` is the first position at or after `from` where `pat` stands.
pub open spec fn is_first_at(s: Seq<char>, from: int, pat: Seq<char>, i: int) -> bool {
    &&& from <= i
    &&& has_at(s, i, pat)
    &&& forall|j: int| from <= j < i ==> !#[trigger] has_at(s, j, pat)
}

/// The first position at or after `from` where `pat` stands in `s`, or -1.
pub open spec fn find(s: Seq<char>, from: int, pat: Seq<char>) -> int {
    if exists|i: int| is_first_at(s, from, pat, i) {
        choose|i: int| is_first_at(s, from, pat, i)
    } else {
        -1
    }
}

/// The nesting depth that the indentation of `line` gives: its leading
/// spaces come in fours, and what follows them is no white space.
pub open spec fn indent(line: Seq<char>) -> Option<nat> {
    let k = lead(line);
    if k % 4 == 0 && k < line.len() && !is_space(line[k]) {
        Some((k / 4) as nat)
    } else {
        None
    }
}

/// What one line says of an item.
pub ghost struct EntryView {
    /// The nesting depth.
    pub depth: nat,
    /// Whether the item is marked as not complete.
    pub active: bool,
    /// The timestamp as it is written; empty for an active item.
    pub stamp: Seq<char>,
    /// The text, without the white space around it.
    pub text: Seq<char>,
}

/// The line without its leading spaces.
pub open spec fn body(line: Seq<char>) -> Seq<char> {
    line.skip(lead(line))
}

/// What the body of a line of the active list says: whether the item is
/// marked as not complete, and its text as written.
pub open spec fn todo_body(rest: Seq<char>) -> Option<(bool, Seq<char>)> {
    if has_at(rest, 0, todo_starred()) {
        Some((true, rest.skip(9)))
    } else if has_at(rest, 0, todo_plain()) {
        Some((false, rest.skip(8)))
    } else {
        None
    }
}

/// What the body of a line of the completed list says: the timestamp, which
/// ends where `): ` stands first, and the text as written.
pub open spec fn done_body(rest: Seq<char>) -> Option<(Seq<char>, Seq<char>)> {
    let end = find(rest, 5, close());
    if has_at(rest, 0, done_open()) && end >= 0 {
        Some((rest.subrange(5, end), rest.skip(end + 3)))
    } else {
        None
    }
}

/// What `line` says as a line of the active list, if it is one.
pub open spec fn todo_entry(line: Seq<char>) -> Option<EntryView> {
    match (indent(line), todo_body(body(line))) {
        (Some(depth), Some((active, raw))) => Some(
            EntryView { depth, active, stamp: Seq::empty(), text: trimmed(raw) },
        ),
        _ => None,
    }
}

/// What `line` says as a line of the completed list, if it is one.
pub open spec fn done_entry(line: Seq<char>) -> Option<EntryView> {
    match (indent(line), done_body(body(line))) {
        (Some(depth), Some((stamp, raw))) => Some(
            EntryView { depth, active: false, stamp, text: trimmed(raw) },
        ),
        _ => None,
    }
}

/// The line of an active item.
pub open spec fn todo_line(depth: nat, active: bool, text: Seq<char>) -> Seq<char> {
    spaces(4 * depth) + if active {
        todo_starred()
    } else {
        todo_plain()
    } + text
}

/// The line of a completed item.
pub open spec fn done_line(depth: nat, stamp: Seq<char>, text: Seq<char>) -> Seq<char> {
    spaces(4 * depth) + done_open() + stamp + close() + text
}

/// A line starts with one number of spaces only.
pub proof fn lemma_lead_unique(s: Seq<char>, a: int, b: int)
    requires
        is_lead(s, a),
        is_lead(s, b),
    ensures
        a == b,
{
    if a < b {
        assert(s[a] == ' ');
    }
    if b < a {
        assert(s[b] == ' ');
    }
}

/// A number of spaces that meets `is_lead` is the lead of the line.
pub proof fn lemma_lead_is(s: Seq<char>, k: int)
    requires
        is_lead(s, k),
    ensures
        lead(s) == k,
{
    lemma_lead_unique(s, k, lead(s));
}

/// A position that meets `is_first_at` is what `find` gives.
pub proof fn lemma_find_is(s: Seq<char>, from: int, pat: Seq<char>, i: int)
    requires
        is_first_at(s, from, pat, i),
    ensures
        find(s, from, pat) == i,
{
    let j = find(s, from, pat);
    assert(is_first_at(s, from, pat, j));
    if i < j {
        assert(has_at(s, i, pat));
    }
    if j < i {
        assert(has_at(s, j, pat));
    }
}

/// Where the pattern stands nowhere from `from` on, `find` gives -1.
pub proof fn lemma_find_none(s: Seq<char>, from: int, pat: Seq<char>)
    requires
        forall|j: int| from <= j ==> !#[trigger] has_at(s, j, pat),
    ensures
        find(s, from, pat) == -1,
{
}

/// What follows an indentation of `depth` levels is the body of the line.
pub proof fn lemma_indented(depth: nat, rest: Seq<char>)
    requires
        rest.len() > 0,
        !is_space(rest[0]),
    ensures
        indent(spaces(4 * depth) + rest) == Some(depth),
        body(spaces(4 * depth) + rest) == rest,
{
    let line = spaces(4 * depth) + rest;
    let k = (4 * depth) as int;
    assert(line[k] == rest[0]);
    assert(is_lead(line, k));
    lemma_lead_is(line, k);
    assert(line.skip(k) =~= rest);
}

/// The body of the line of an active item reads back.
pub proof fn lemma_todo_body(active: bool, text: Seq<char>)
    ensures
        todo_body(
            if active {
                todo_starred()
            } else {
                todo_plain()
            } + text,
        ) == Some((active, text)),
{
    let open = if active {
        todo_starred()
    } else {
        todo_plain()
    };
    let rest = open + text;
    assert(rest.subrange(0, open.len() as int) =~= open);
    assert(rest.skip(open.len() as int) =~= text);
    if !active {
        if has_at(rest, 0, todo_starred()) {
            assert(rest.subrange(0, 9)[5] == '*');
            assert(rest[5] == ')');
        }
    }
}

/// Where `pat` stands first in the middle one of three parts.
proof fn lemma_find_in_middle(head: Seq<char>, mid: Seq<char>, tail: Seq<char>, pat: Seq<char>, at: int)
    requires
        pat.len() > 0,
        0 <= at,
        at + pat.len() == mid.len(),
        has_at(mid, at, pat),
        forall|j: int| 0 <= j < at ==> !#[trigger] has_at(mid, j, pat),
    ensures
        find(head + mid + tail, head.len() as int, pat) == head.len() + at,
{
    let s = head + mid + tail;
    let from = head.len() as int;
    assert forall|j: int| from <= j <= from + at implies (has_at(s, j, pat) <==> has_at(
        mid,
        j - from,
        pat,
    )) by {
        assert(s.subrange(j, j + pat.len()) =~= mid.subrange(j - from, j - from + pat.len()));
    }
    assert(has_at(s, from + at, pat));
    assert forall|j: int| from <= j < from + at implies !#[trigger] has_at(s, j, pat) by {
        assert(!has_at(mid, j - from, pat));
    }
    lemma_find_is(s, from, pat, from + at);
}

/// Whether `): ` stands nowhere in `stamp`, nor across its end.
pub open spec fn closes_once(stamp: Seq<char>) -> bool {
    forall|j: int| 0 <= j < stamp.len() ==> !#[trigger] has_at(stamp + close(), j, close())
}

/// The body of the line of a completed item reads back, unless `): ` stands
/// in the timestamp itself.
pub proof fn lemma_done_body(stamp: Seq<char>, text: Seq<char>)
    requires
        closes_once(stamp),
    ensures
        done_body(done_open() + stamp + close() + text) == Some((stamp, text)),
{
    let head = done_open();
    let mid = stamp + close();
    let rest = done_open() + stamp + close() + text;
    assert(rest =~= head + mid + text);
    assert(mid.subrange(stamp.len() as int, stamp.len() as int + 3) =~= close());
    lemma_find_in_middle(head, mid, text, close(), stamp.len() as int);
    let end = 5 + stamp.len() as int;
    assert(find(rest, 5, close()) == end);
    lemma_done_parts(rest, stamp, text);
}

/// The parts of the body of a completed item's line, by their positions.
proof fn lemma_done_parts(rest: Seq<char>, stamp: Seq<char>, text: Seq<char>)
    requires
        rest == done_open() + stamp + close() + text,
    ensures
        has_at(rest, 0, done_open()),
        rest.subrange(5, 5 + stamp.len() as int) == stamp,
        rest.skip(5 + stamp.len() as int + 3) == text,
{
    assert(rest.subrange(0, 5) =~= done_open());
    assert(rest.subrange(5, 5 + stamp.len() as int) =~= stamp);
    assert(rest.skip(5 + stamp.len() as int + 3) =~= text);
}

/// The line of an active item reads back as that item, its text trimmed.
pub proof fn lemma_todo_line_reads_back(depth: nat, active: bool, text: Seq<char>)
    ensures
        todo_entry(todo_line(depth, active, text)) == Some(
            EntryView { depth, active, stamp: Seq::empty(), text: trimmed(text) },
        ),
{
    let open = if active {
        todo_starred()
    } else {
        todo_plain()
    };
    assert((open + text)[0] == 'T');
    lemma_indented(depth, open + text);
    lemma_todo_body(active, text);
    assert(todo_line(depth, active, text) =~= spaces(4 * depth) + (open + text));
}

/// The line of a completed item reads back as that item, its text trimmed,
/// unless `): ` stands in the timestamp itself.
pub proof fn lemma_done_line_reads_back(depth: nat, stamp: Seq<char>, text: Seq<char>)
    requires
        closes_once(stamp),
    ensures
        done_entry(done_line(depth, stamp, text)) == Some(
            EntryView { depth, active: false, stamp, text: trimmed(text) },
        ),
{
    let rest = done_open() + stamp + close() + text;
    assert(rest[0] == 'D');
    lemma_indented(depth, rest);
    lemma_done_body(stamp, text);
    assert(done_line(depth, stamp, text) =~= spaces(4 * depth) + rest);
}

/// Why a stored list cannot be read.
#[derive(Clone, Copy, Debug, PartialEq, Eq, Structural)]
pub enum ParseErrorKind {
    /// A second separator line.
    InvalidSeparator,
    /// Leading spaces that do not come in fours, a line without content, or
    /// a line more than one level deeper than the line before it.
    InvalidIndentation,
    /// A line of the active list that is not `TODO(): ...` or `TODO(*): ...`.
    InvalidTodo,
    /// A line of the completed list that is not `DONE(...): ...`.
    InvalidDone,
    /// A timestamp that is not `YYYY-MM-DD HH:MM ±HHMM`.
    InvalidDate,
}

/// A line that cannot be read, by its number, the first line being 1.
#[derive(Clone, Copy, Debug, PartialEq, Eq, Structural)]
pub struct ParseError {
    pub line: usize,
    pub kind: ParseErrorKind,
}

impl ParseErrorKind {
    /// The error in words.
    pub open spec fn text(self) -> Seq<char> {
        match self {
            ParseErrorKind::InvalidSeparator => "invalid separator"@,
            ParseErrorKind::InvalidIndentation => "invalid indentation"@,
            ParseErrorKind::InvalidTodo => "invalid format for a TODO item"@,
            ParseErrorKind::InvalidDone => "invalid format for a DONE item"@,
            ParseErrorKind::InvalidDate => "invalid date format for a DONE item"@,
        }
    }

    /// The error in words.
    pub fn message(&self) -> (s: &'static str)
        ensures
            s@ == self.text(),
    {
        match self {
            ParseErrorKind::InvalidSeparator => "invalid separator",
            ParseErrorKind::InvalidIndentation => "invalid indentation",
            ParseErrorKind::InvalidTodo => "invalid format for a TODO item",
            ParseErrorKind::InvalidDone => "invalid format for a DONE item",
            ParseErrorKind::InvalidDate => "invalid date format for a DONE item",
        }
    }
}

/// What one line says of an item.
#[derive(Debug)]
pub struct Entry {
    pub depth: usize,
    pub active: bool,
    pub stamp: String,
    pub text: String,
}

impl View for Entry {
    type V = EntryView;

    open spec fn view(&self) -> EntryView {
        EntryView {
            depth: self.depth as nat,
            active: self.active,
            stamp: self.stamp@,
            text: self.text@,
        }
    }
}

/// The number of spaces that `chars` starts with.
fn count_lead(chars: &Vec<char>) -> (k: usize)
    ensures
        k == lead(chars@),
        is_lead(chars@, k as int),
{
    let mut k: usize = 0;
    while k < chars.len() && chars[k] == ' '
        invariant
            k <= chars.len(),
            forall|i: int| 0 <= i < k ==> #[trigger] chars@[i] == ' ',
        decreases chars.len() - k,
    {
        k += 1;
    }
    proof {
        lemma_lead_is(chars@, k as int);
    }
    k
}

/// Whether `pat` stands in `chars` at position `at`.
fn stands_at(chars: &Vec<char>, at: usize, pat: &Vec<char>) -> (b: bool)
    ensures
        b == has_at(chars@, at as int, pat@),
{
    if pat.len() > chars.len() || at > chars.len() - pat.len() {
        return false;
    }
    let mut i: usize = 0;
    while i < pat.len()
        invariant
            i <= pat.len(),
            at + pat.len() <= chars.len(),
            forall|j: int| 0 <= j < i ==> #[trigger] chars@[at + j] == pat@[j],
        decreases pat.len() - i,
    {
        if chars[at + i] != pat[i] {
            assert(chars@.subrange(at as int, at + pat.len())[i as int] != pat@[i as int]);
            return false;
        }
        i += 1;
    }
    assert forall|j: int| 0 <= j < pat.len() implies chars@.subrange(at as int, at + pat.len())[j]
        == pat@[j] by {
        assert(chars@[at + j] == pat@[j]);
    }
    assert(chars@.subrange(at as int, at + pat.len()) =~= pat@);
    true
}

/// The first position at or after `from` where `pat` stands in `chars`.
fn find_from(chars: &Vec<char>, from: usize, pat: &Vec<char>) -> (r: Option<usize>)
    ensures
        match r {
            Some(i) => i == find(chars@, from as int, pat@) && is_first_at(
                chars@,
                from as int,
                pat@,
                i as int,
            ),
            None => find(chars@, from as int, pat@) == -1,
        },
{
    let mut i: usize = from;
    while i < chars.len()
        invariant
            from <= i,
            forall|j: int| from <= j < i ==> !#[trigger] has_at(chars@, j, pat@),
        decreases chars.len() - i,
    {
        if stands_at(chars, i, pat) {
            proof {
                lemma_find_is(chars@, from as int, pat@, i as int);
            }
            return Some(i);
        }
        i += 1;
    }
    if stands_at(chars, i, pat) {
        proof {
            lemma_find_is(chars@, from as int, pat@, i as int);
        }
        return Some(i);
    }
    proof {
        assert forall|j: int| from <= j implies !#[trigger] has_at(chars@, j, pat@) by {
            if j > i {
                assert(j + pat@.len() > chars@.len() || pat@.len() == 0);
                if pat@.len() == 0 {
                    assert(!(j + pat@.len() <= chars@.len()));
                }
            }
        }
        lemma_find_none(chars@, from as int, pat@);
    }
    None
}

/// The nesting depth that the indentation of `chars` gives.
fn read_indent(chars: &Vec<char>) -> (r: Option<usize>)
    ensures
        match r {
            Some(d) => indent(chars@) == Some(d as nat),
            None => indent(chars@) is None,
        },
{
    let k: usize = count_lead(chars);
    if k % INDENT_SIZE == 0 && k < chars.len() && !crate::text::char_is_space(chars[k]) {
        Some(k / INDENT_SIZE)
    } else {
        None
    }
}

/// The text that `chars` holds from `from` on, trimmed.
fn trimmed_rest(chars: &Vec<char>, from: usize) -> (out: String)
    requires
        from <= chars.len(),
    ensures
        out@ == trimmed(chars@.skip(from as int)),
{
    let mut rest: Vec<char> = Vec::new();
    let mut i: usize = from;
    while i < chars.len()
        invariant
            from <= i <= chars.len(),
            rest@ =~= chars@.subrange(from as int, i as int),
        decreases chars.len() - i,
    {
        rest.push(chars[i]);
        i += 1;
    }
    assert(rest@ =~= chars@.skip(from as int));
    let (a, b) = trim_range(&rest);
    proof {
        lemma_trimmed_is(rest@, a as int, b as int);
    }
    from_chars(&rest, a, b)
}

/// The characters of `chars` from `from` on.
fn rest_of(chars: &Vec<char>, from: usize) -> (rest: Vec<char>)
    requires
        from <= chars.len(),
    ensures
        rest@ == chars@.skip(from as int),
{
    let mut rest: Vec<char> = Vec::new();
    let mut i: usize = from;
    while i < chars.len()
        invariant
            from <= i <= chars.len(),
            rest@ =~= chars@.subrange(from as int, i as int),
        decreases chars.len() - i,
    {
        rest.push(chars[i]);
        i += 1;
    }
    assert(rest@ =~= chars@.skip(from as int));
    rest
}

/// Reads a line of the active list.
pub fn read_todo(line: &str) -> (r: Option<Entry>)
    ensures
        match r {
            Some(e) => todo_entry(line@) == Some(e@),
            None => todo_entry(line@) is None,
        },
{
    let chars = to_chars(line);
    let k: usize = count_lead(&chars);
    match read_indent(&chars) {
        Some(depth) => {
            let rest = rest_of(&chars, k);
            let starred: Vec<char> = vec!['T', 'O', 'D', 'O', '(', '*', ')', ':', ' '];
            let plain: Vec<char> = vec!['T', 'O', 'D', 'O', '(', ')', ':', ' '];
            assert(starred@ =~= todo_starred());
            assert(plain@ =~= todo_plain());
            if stands_at(&rest, 0, &starred) {
                assert(starred@.len() == 9 && 9 <= rest.len());
                let text = trimmed_rest(&rest, 9);
                Some(Entry { depth, active: true, stamp: String::new(), text })
            } else if stands_at(&rest, 0, &plain) {
                assert(plain@.len() == 8 && 8 <= rest.len());
                let text = trimmed_rest(&rest, 8);
                Some(Entry { depth, active: false, stamp: String::new(), text })
            } else {
                None
            }
        },
        None => None,
    }
}

/// Reads a line of the completed list, but for what its timestamp means.
pub fn read_done(line: &str) -> (r: Option<Entry>)
    ensures
        match r {
            Some(e) => done_entry(line@) == Some(e@),
            None => done_entry(line@) is None,
        },
{
    let chars = to_chars(line);
    let k: usize = count_lead(&chars);
    match read_indent(&chars) {
        Some(depth) => {
            let rest = rest_of(&chars, k);
            let open: Vec<char> = vec!['D', 'O', 'N', 'E', '('];
            let shut: Vec<char> = vec![')', ':', ' '];
            assert(open@ =~= done_open());
            assert(shut@ =~= close());
            if stands_at(&rest, 0, &open) {
                assert(open@.len() == 5 && 5 <= rest.len());
                match find_from(&rest, 5, &shut) {
                    Some(end) => {
                        assert(shut@.len() == 3 && end + 3 <= rest.len());
                        let stamp = from_chars(&rest, 5, end);
                        let text = trimmed_rest(&rest, end + 3);
                        Some(Entry { depth, active: false, stamp, text })
                    },
                    None => None,
                }
            } else {
                None
            }
        },
        None => None,
    }
}

/// The nesting depth that the indentation of `line` gives.
pub fn line_depth(line: &str) -> (r: Option<usize>)
    ensures
        match r {
            Some(d) => indent(line@) == Some(d as nat),
            None => indent(line@) is None,
        },
{
    let chars = to_chars(line);
    read_indent(&chars)
}

/// A line without a valid indentation is no line of either list.
pub proof fn lemma_no_entry_without_indent(line: Seq<char>)
    ensures
        indent(line) is None ==> todo_entry(line) is None && done_entry(line) is None,
        todo_entry(line) matches Some(e) ==> indent(line) == Some(e.depth),
        done_entry(line) matches Some(e) ==> indent(line) == Some(e.depth),
{
}

/// Whether `): ` stands nowhere in `stamp`, nor across its end, so that a
/// line written with it gives it back.
pub fn stamp_closes_once(stamp: &str) -> (b: bool)
    ensures
        b == closes_once(stamp@),
{
    let mut chars = to_chars(stamp);
    let n: usize = chars.len();
    let shut: Vec<char> = vec![')', ':', ' '];
    assert(shut@ =~= close());
    push_all(&mut chars, &shut);
    assert(chars@ =~= stamp@ + close());
    assert(has_at(chars@, n as int, close())) by {
        assert(chars@.subrange(n as int, n + 3) =~= close());
    }
    match find_from(&chars, 0, &shut) {
        Some(first) => {
            assert(first <= n) by {
                if first > n {
                    assert(!has_at(chars@, n as int, close()));
                }
            }
            proof {
                if first < n {
                    assert(has_at(stamp@ + close(), first as int, close()));
                }
            }
            first == n
        },
        None => {
            proof {
                lemma_found_if_there(chars@, 0, close(), n as int);
            }
            false
        },
    }
}

/// Where the pattern stands somewhere from `from` on, `find` finds it.
pub proof fn lemma_found_if_there(s: Seq<char>, from: int, pat: Seq<char>, at: int)
    requires
        from <= at,
        has_at(s, at, pat),
    ensures
        from <= find(s, from, pat) <= at,
    decreases at - from,
{
    if exists|j: int| from <= j < at && has_at(s, j, pat) {
        let j = choose|j: int| from <= j < at && has_at(s, j, pat);
        lemma_found_if_there(s, from, pat, j);
    } else {
        assert(is_first_at(s, from, pat, at));
        lemma_find_is(s, from, pat, at);
    }
}

/// Whether `line` is the separator line.
pub fn is_separator(line: &str) -> (b: bool)
    ensures
        b == (line@ == separator()),
{
    let chars = to_chars(line);
    let sep: Vec<char> = vec!['<', '-', '-', '-', '>'];
    assert(sep@ =~= separator());
    let b = chars.len() == 5 && stands_at(&chars, 0, &sep);
    proof {
        if chars.len() == 5 {
            assert(chars@.subrange(0, 5) =~= chars@);
        }
    }
    b
}

/// Writes the line of an active item.
pub fn write_todo(depth: usize, active: bool, text: &str) -> (line: String)
    requires
        4 * depth <= usize::MAX,
    ensures
        line@ == todo_line(depth as nat, active, text@),
{
    let mut out: Vec<char> = Vec::new();
    push_spaces(&mut out, depth * INDENT_SIZE);
    let open: Vec<char> = if active {
        vec!['T', 'O', 'D', 'O', '(', '*', ')', ':', ' ']
    } else {
        vec!['T', 'O', 'D', 'O', '(', ')', ':', ' ']
    };
    push_all(&mut out, &open);
    let body = to_chars(text);
    push_all(&mut out, &body);
    assert(out@ =~= todo_line(depth as nat, active, text@));
    let n: usize = out.len();
    let line = from_chars(&out, 0, n);
    assert(out@.subrange(0, n as int) =~= out@);
    line
}

/// Writes the line of a completed item.
pub fn write_done(depth: usize, stamp: &str, text: &str) -> (line: String)
    requires
        4 * depth <= usize::MAX,
    ensures
        line@ == done_line(depth as nat, stamp@, text@),
{
    let mut out: Vec<char> = Vec::new();
    push_spaces(&mut out, depth * INDENT_SIZE);
    let open: Vec<char> = vec!['D', 'O', 'N', 'E', '('];
    push_all(&mut out, &open);
    let when = to_chars(stamp);
    push_all(&mut out, &when);
    let shut: Vec<char> = vec![')', ':', ' '];
    push_all(&mut out, &shut);
    let body = to_chars(text);
    push_all(&mut out, &body);
    assert(out@ =~= done_line(depth as nat, stamp@, text@));
    let n: usize = out.len();
    let line = from_chars(&out, 0, n);
    assert(out@.subrange(0, n as int) =~= out@);
    line
}

/// Adds `n` spaces to `out`.
fn push_spaces(out: &mut Vec<char>, n: usize)
    ensures
        final(out)@ == old(out)@ + spaces(n as nat),
{
    let mut i: usize = 0;
    while i < n
        invariant
            i <= n,
            out@ =~= old(out)@ + spaces(i as nat),
        decreases n - i,
    {
        out.push(' ');
        i += 1;
    }
}

/// Adds the characters of `more` to `out`.
fn push_all(out: &mut Vec<char>, more: &Vec<char>)
    ensures
        final(out)@ == old(out)@ + more@,
{
    let mut i: usize = 0;
    while i < more.len()
        invariant
            i <= more.len(),
            out@ =~= old(out)@ + more@.take(i as int),
        decreases more.len() - i,
    {
        out.push(more[i]);
        i += 1;
    }
    assert(more@.take(more.len() as int) =~= more@);
}

} // verus!

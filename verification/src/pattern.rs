//! Reading regular expressions as far as needed to tell where their backreferences stand.
//!
//! A backreference inside the group that it names cannot be matched in general: while a repeated
//! group is matched again, its start is already known and its end is still that of the last time.

use crate::text::{chars_of, decimal_value, is_digit, parse_usize, parsed_number};
use fancy_regex::Regex;
use vstd::prelude::*;

verus! {

/// The text of a regular expression.
pub uninterp spec fn pattern_text(pattern: Regex) -> Seq<char>;

/// Calls `Regex::as_str`, which gives back the text that the pattern was made from.
#[verifier::external_body]
fn read_pattern(pattern: &Regex) -> (text: String)
    ensures
        text@ == pattern_text(*pattern),
{
    pattern.as_str().to_string()
}

/// The character is at the position.
pub open spec fn is_at(text: Seq<char>, i: int, ch: char) -> bool {
    0 <= i < text.len() && text[i] == ch
}

/// Is the character at the position?
fn check_at(text: &Vec<char>, i: usize, ch: char) -> (result: bool)
    ensures
        result == is_at(text@, i as int, ch),
{
    i < text.len() && text[i] == ch
}

/// The next position, or the end of the text.
pub open spec fn ahead(text: Seq<char>, i: int, n: int) -> int {
    if i + n < text.len() {
        i + n
    } else {
        text.len() as int
    }
}

/// Go ahead by some characters, but not past the end of the text.
fn go_ahead(text: &Vec<char>, i: usize, n: usize) -> (next: usize)
    requires
        i <= text.len(),
    ensures
        next == ahead(text@, i as int, n as int),
{
    if n < text.len() - i {
        i + n
    } else {
        text.len()
    }
}

/// What kind of gap between the parts of a pattern a position is in.
#[derive(Clone, Copy, PartialEq, Eq, Structural)]
pub enum Gap {
    /// In none.
    Outside,
    /// In a comment up to the end of the line.
    Line,
    /// In a comment in brackets.
    Brackets,
}

/// The character is white space that verbose patterns may be laid out with.
pub open spec fn is_layout(ch: char) -> bool {
    ch == ' ' || ch == '\r' || ch == '\n' || ch == '\t'
}

/// The position after comments, and after white space if the pattern is verbose.
pub open spec fn gap_end(text: Seq<char>, i: int, verbose: bool, gap: Gap) -> int
    decreases text.len() - i,
{
    if i >= text.len() {
        text.len() as int
    } else {
        match gap {
            Gap::Line => gap_end(
                text,
                i + 1,
                verbose,
                if text[i] == '\n' {
                    Gap::Outside
                } else {
                    Gap::Line
                },
            ),
            Gap::Brackets => if text[i] == ')' {
                gap_end(text, i + 1, verbose, Gap::Outside)
            } else {
                gap_end(text, ahead(text, i, if text[i] == '\\' {
                        2
                    } else {
                        1
                    }), verbose, Gap::Brackets)
            },
            Gap::Outside => if verbose && text[i] == '#' {
                gap_end(text, i + 1, verbose, Gap::Line)
            } else if verbose && is_layout(text[i]) {
                gap_end(text, i + 1, verbose, Gap::Outside)
            } else if text[i] == '(' && is_at(text, i + 1, '?') && is_at(text, i + 2, '#') {
                gap_end(text, ahead(text, i, 3), verbose, Gap::Brackets)
            } else {
                i
            },
        }
    }
}

/// A gap does not end before it starts.
proof fn lemma_gap(text: Seq<char>, i: int, verbose: bool, gap: Gap)
    requires
        0 <= i <= text.len(),
    ensures
        i <= gap_end(text, i, verbose, gap) <= text.len(),
    decreases text.len() - i,
{
    if i < text.len() {
        match gap {
            Gap::Line => {
                lemma_gap(text, i + 1, verbose, Gap::Outside);
                lemma_gap(text, i + 1, verbose, Gap::Line);
            },
            Gap::Brackets => {
                lemma_gap(text, i + 1, verbose, Gap::Outside);
                lemma_gap(text, ahead(text, i, 1), verbose, Gap::Brackets);
                lemma_gap(text, ahead(text, i, 2), verbose, Gap::Brackets);
            },
            Gap::Outside => {
                lemma_gap(text, i + 1, verbose, Gap::Line);
                lemma_gap(text, i + 1, verbose, Gap::Outside);
                lemma_gap(text, ahead(text, i, 3), verbose, Gap::Brackets);
            },
        }
    }
}

/// Skip comments, and white space if the pattern is verbose.
fn skip_gap(text: &Vec<char>, start: usize, verbose: bool) -> (end: usize)
    requires
        start <= text.len(),
    ensures
        end == gap_end(text@, start as int, verbose, Gap::Outside),
        start <= end <= text@.len(),
{
    proof {
        lemma_gap(text@, start as int, verbose, Gap::Outside);
    }
    let mut i: usize = start;
    let mut gap: Gap = Gap::Outside;
    while i < text.len()
        invariant
            start <= i <= text@.len(),
            start <= gap_end(text@, start as int, verbose, Gap::Outside) <= text@.len(),
            gap_end(text@, i as int, verbose, gap) == gap_end(
                text@,
                start as int,
                verbose,
                Gap::Outside,
            ),
        decreases text@.len() - i,
    {
        let ch: char = text[i];
        match gap {
            Gap::Line => {
                if ch == '\n' {
                    gap = Gap::Outside;
                }
                i = i + 1;
            },
            Gap::Brackets => {
                if ch == ')' {
                    gap = Gap::Outside;
                    i = i + 1;
                } else if ch == '\\' {
                    i = go_ahead(text, i, 2);
                } else {
                    i = go_ahead(text, i, 1);
                }
            },
            Gap::Outside => {
                if verbose && ch == '#' {
                    gap = Gap::Line;
                    i = i + 1;
                } else if verbose && (ch == ' ' || ch == '\r' || ch == '\n' || ch == '\t') {
                    i = i + 1;
                } else if ch == '(' && check_at(text, i + 1, '?') && text.len() - i > 2
                    && check_at(text, i + 2, '#') {
                    gap = Gap::Brackets;
                    i = go_ahead(text, i, 3);
                } else {
                    return i;
                }
            },
        }
    }
    i
}

/// The position of a character from some position on, or the end of the text.
pub open spec fn position_of(text: Seq<char>, i: int, ch: char) -> int
    decreases text.len() - i,
{
    if i >= text.len() {
        text.len() as int
    } else if text[i] == ch {
        i
    } else {
        position_of(text, i + 1, ch)
    }
}

/// Find a character from some position on.
fn find_char(text: &Vec<char>, start: usize, ch: char) -> (end: usize)
    requires
        start <= text.len(),
    ensures
        end == position_of(text@, start as int, ch),
        start <= end <= text@.len(),
{
    let mut i: usize = start;
    while i < text.len() && text[i] != ch
        invariant
            start <= i <= text@.len(),
            position_of(text@, i as int, ch) == position_of(text@, start as int, ch),
        decreases text@.len() - i,
    {
        i = i + 1;
    }
    i
}

/// The position after the digits from some position on.
pub open spec fn digits_end(text: Seq<char>, i: int) -> int
    decreases text.len() - i,
{
    if i >= text.len() {
        text.len() as int
    } else if is_digit(text[i]) {
        digits_end(text, i + 1)
    } else {
        i
    }
}

/// Skip digits.
fn skip_digits(text: &Vec<char>, start: usize) -> (end: usize)
    requires
        start <= text.len(),
    ensures
        end == digits_end(text@, start as int),
        start <= end <= text@.len(),
{
    let mut i: usize = start;
    while i < text.len() && text[i] >= '0' && text[i] <= '9'
        invariant
            start <= i <= text@.len(),
            digits_end(text@, i as int) == digits_end(text@, start as int),
        decreases text@.len() - i,
    {
        i = i + 1;
    }
    i
}

/// The position after a character class, from some position in it on. Classes may be nested.
pub open spec fn class_end(text: Seq<char>, i: int, nesting: nat) -> int
    decreases text.len() - i,
{
    if i >= text.len() {
        text.len() as int
    } else if text[i] == '\\' {
        class_end(text, ahead(text, i, 2), nesting)
    } else if text[i] == '[' {
        class_end(text, i + 1, nesting + 1)
    } else if text[i] == ']' {
        if nesting <= 1 {
            i + 1
        } else {
            class_end(text, i + 1, (nesting - 1) as nat)
        }
    } else {
        class_end(text, i + 1, nesting)
    }
}

/// The position after the characters that are special at the start of a character class: it may be
/// negated, and a closing bracket that comes first stands for itself.
pub open spec fn class_start(text: Seq<char>, i: int) -> int {
    let first = if is_at(text, i, '^') {
        i + 1
    } else {
        i
    };
    if is_at(text, first, ']') {
        first + 1
    } else {
        first
    }
}

/// Skip a character class, given the position after its opening bracket.
fn skip_class(text: &Vec<char>, start: usize) -> (end: usize)
    requires
        0 < start <= text.len(),
    ensures
        end == class_end(text@, class_start(text@, start as int), 1),
        start <= end <= text@.len(),
{
    let mut i: usize = start;
    if check_at(text, i, '^') {
        i = i + 1;
    }
    if check_at(text, i, ']') {
        i = i + 1;
    }
    let mut nesting: usize = 1;
    let ghost first = i as int;
    while i < text.len()
        invariant
            0 < start <= first <= i <= text@.len(),
            1 <= nesting <= i - first + 1,
            class_end(text@, i as int, nesting as nat) == class_end(text@, first, 1),
            first == class_start(text@, start as int),
        decreases text@.len() - i,
    {
        let ch: char = text[i];
        if ch == '\\' {
            i = go_ahead(text, i, 2);
        } else if ch == '[' {
            nesting = nesting + 1;
            i = i + 1;
        } else if ch == ']' {
            if nesting == 1 {
                return i + 1;
            }
            nesting = nesting - 1;
            i = i + 1;
        } else {
            i = i + 1;
        }
    }
    i
}

/// What flags say.
pub struct Flags {
    /// The position after them.
    pub end: int,
    /// White space and comments are skipped from now on.
    pub verbose: bool,
    /// They hold for a group that they open.
    pub scoped: bool,
}

/// Read flags from some position on.
pub open spec fn flags_from(text: Seq<char>, i: int, verbose: bool, negated: bool) -> Flags
    decreases text.len() - i,
{
    let next = gap_end(text, i, verbose, Gap::Outside);
    if i >= text.len() {
        Flags { end: text.len() as int, verbose, scoped: false }
    } else if i < next <= text.len() {
        flags_from(text, next, verbose, negated)
    } else if text[i] == ')' {
        Flags { end: i + 1, verbose, scoped: false }
    } else if text[i] == ':' {
        Flags { end: i + 1, verbose, scoped: true }
    } else if text[i] == 'x' {
        flags_from(text, i + 1, !negated, negated)
    } else if text[i] == '-' {
        flags_from(text, i + 1, verbose, true)
    } else {
        flags_from(text, i + 1, verbose, negated)
    }
}

/// Read flags. Returns the position after them, whether the pattern is verbose from now on, and
/// whether that holds for a group that they open.
fn read_flags(text: &Vec<char>, start: usize, verbose: bool) -> (result: (usize, bool, bool))
    requires
        start <= text.len(),
    ensures
        flags_from(text@, start as int, verbose, false) == (Flags {
            end: result.0 as int,
            verbose: result.1,
            scoped: result.2,
        }),
        start <= result.0 <= text@.len(),
{
    let ghost flags = flags_from(text@, start as int, verbose, false);
    let mut i: usize = start;
    let mut now: bool = verbose;
    let mut negated: bool = false;
    while i < text.len()
        invariant
            start <= i <= text@.len(),
            flags_from(text@, i as int, now, negated) == flags,
            flags == flags_from(text@, start as int, verbose, false),
        decreases text@.len() - i,
    {
        let next: usize = skip_gap(text, i, now);
        if next > i {
            i = next;
        } else {
            let ch: char = text[i];
            i = i + 1;
            if ch == ')' {
                return (i, now, false);
            } else if ch == ':' {
                return (i, now, true);
            } else if ch == 'x' {
                now = !negated;
            } else if ch == '-' {
                negated = true;
            }
        }
    }
    (i, now, false)
}

/// What has been read of a pattern.
pub struct Reading {
    /// White space and comments are skipped.
    pub verbose: bool,
    /// The number of groups that capture what they match.
    pub groups: usize,
    /// The brackets that are open. Each has the number of its group, or zero, and whether the
    /// pattern is verbose again at its end, if it may differ.
    pub open: Seq<(usize, Option<bool>)>,
    /// The names of groups.
    pub names: Seq<(Seq<char>, usize)>,
}

impl Reading {
    /// Brackets are opened that do not capture anything.
    pub open spec fn with_plain(self) -> Reading {
        Reading { open: self.open.push((0, None)), ..self }
    }

    /// A group is opened.
    pub open spec fn with_group(self) -> Reading {
        let group = (self.groups + 1) as usize;
        Reading { groups: group, open: self.open.push((group, None)), ..self }
    }

    /// A group with a name is opened.
    pub open spec fn with_named(self, name: Seq<char>) -> Reading {
        let group = (self.groups + 1) as usize;
        Reading { names: self.names.push((name, group)), ..self.with_group() }
    }

    /// Flags are set.
    pub open spec fn with_flags(self, flags: Flags) -> Reading {
        let open = if flags.scoped {
            self.open.push((0, Some(self.verbose)))
        } else {
            self.open
        };
        Reading { verbose: flags.verbose, open, ..self }
    }

    /// The last brackets are closed.
    pub open spec fn with_close(self) -> Reading {
        if self.open.len() == 0 {
            self
        } else {
            let verbose = match self.open.last().1 {
                Some(verbose) => verbose,
                None => self.verbose,
            };
            Reading { verbose, open: self.open.drop_last(), ..self }
        }
    }

    /// A group is open.
    pub open spec fn is_open(self, group: usize) -> bool {
        group > 0 && exists|k: int| 0 <= k < self.open.len() && (#[trigger] self.open[k]).0 == group
    }
}

/// The group with a name: the last one that was given it, or else the one with that number.
pub open spec fn named_group(names: Seq<(Seq<char>, usize)>, name: Seq<char>) -> Option<nat>
    decreases names.len(),
{
    if names.len() == 0 {
        parsed_number(name, usize::MAX as nat)
    } else if names.last().0 == name {
        Some(names.last().1 as nat)
    } else {
        named_group(names.drop_last(), name)
    }
}

/// A part of a pattern.
pub struct Part {
    /// The position after it.
    pub end: int,
    /// What has been read by then.
    pub reading: Reading,
    /// The group that it refers back to, if any.
    pub refers: Option<nat>,
}

/// The part that starts with a backslash.
pub open spec fn escape_at(text: Seq<char>, i: int, reading: Reading) -> Part {
    if i + 1 < text.len() && is_digit(text[i + 1]) {
        let end = digits_end(text, i + 1);
        Part { end, reading, refers: parsed_number(text.subrange(i + 1, end), usize::MAX as nat) }
    } else if is_at(text, i + 1, 'k') && is_at(text, i + 2, '<') {
        let close = position_of(text, ahead(text, i, 3), '>');
        Part {
            end: ahead(text, close, 1),
            reading,
            refers: named_group(reading.names, text.subrange(ahead(text, i, 3), close)),
        }
    } else {
        Part { end: ahead(text, i, 2), reading, refers: None }
    }
}

/// The part that starts with an opening bracket, given the position of the question mark after it.
pub open spec fn special_at(text: Seq<char>, i: int, reading: Reading) -> Part {
    let plain = Part { end: ahead(text, i, 2), reading: reading.with_plain(), refers: None };
    if is_at(text, i + 1, '=') || is_at(text, i + 1, '!') || is_at(text, i + 1, '>') {
        plain
    } else if is_at(text, i + 1, '<') && (is_at(text, i + 2, '=') || is_at(text, i + 2, '!')) {
        Part { end: ahead(text, i, 3), ..plain }
    } else if is_at(text, i + 1, '<') {
        let close = position_of(text, ahead(text, i, 2), '>');
        Part {
            end: ahead(text, close, 1),
            reading: reading.with_named(text.subrange(ahead(text, i, 2), close)),
            refers: None,
        }
    } else if is_at(text, i + 1, 'P') && is_at(text, i + 2, '<') {
        let close = position_of(text, ahead(text, i, 3), '>');
        Part {
            end: ahead(text, close, 1),
            reading: reading.with_named(text.subrange(ahead(text, i, 3), close)),
            refers: None,
        }
    } else if is_at(text, i + 1, 'P') && is_at(text, i + 2, '=') {
        let close = position_of(text, ahead(text, i, 3), ')');
        Part {
            end: ahead(text, close, 1),
            reading,
            refers: named_group(reading.names, text.subrange(ahead(text, i, 3), close)),
        }
    } else if is_at(text, i + 1, '(') {
        // A conditional, and its condition.
        Part { reading: reading.with_plain().with_plain(), ..plain }
    } else {
        let flags = flags_from(text, ahead(text, i, 1), reading.verbose, false);
        Part { end: flags.end, reading: reading.with_flags(flags), refers: None }
    }
}

/// The part of a pattern at a position.
pub open spec fn part_at(text: Seq<char>, i: int, reading: Reading) -> Part {
    let gap = gap_end(text, i, reading.verbose, Gap::Outside);
    if gap > i {
        Part { end: gap, reading, refers: None }
    } else if text[i] == '\\' {
        escape_at(text, i, reading)
    } else if text[i] == '[' {
        Part { end: class_end(text, class_start(text, i + 1), 1), reading, refers: None }
    } else if text[i] == '(' {
        let next = gap_end(text, i + 1, reading.verbose, Gap::Outside);
        if is_at(text, next, '?') {
            special_at(text, next, reading)
        } else {
            Part { end: next, reading: reading.with_group(), refers: None }
        }
    } else if text[i] == ')' {
        Part { end: i + 1, reading: reading.with_close(), refers: None }
    } else {
        Part { end: i + 1, reading, refers: None }
    }
}

/// From some position on, no backreference stands inside the group that it names.
pub open spec fn refers_outward_from(text: Seq<char>, i: int, reading: Reading) -> bool
    decreases text.len() - i,
{
    if i >= text.len() {
        true
    } else {
        let part = part_at(text, i, reading);
        &&& part.refers matches Some(group) ==> !reading.is_open(group as usize)
        &&& i < part.end <= text.len() ==> refers_outward_from(text, part.end, part.reading)
    }
}

/// No backreference of a pattern stands inside the group that it names.
pub open spec fn refers_outward(text: Seq<char>) -> bool {
    refers_outward_from(
        text,
        0,
        Reading { verbose: false, groups: 0, open: Seq::empty(), names: Seq::empty() },
    )
}

/// Reads a pattern part by part.
struct Reader {
    verbose: bool,
    groups: usize,
    open: Vec<(usize, Option<bool>)>,
    names: Vec<(Vec<char>, usize)>,
}

impl View for Reader {
    type V = Reading;

    closed spec fn view(&self) -> Reading {
        Reading {
            verbose: self.verbose,
            groups: self.groups,
            open: self.open@,
            names: self.names@.map_values(|name: (Vec<char>, usize)| (name.0@, name.1)),
        }
    }
}

/// The characters between two positions.
fn part_of(text: &Vec<char>, start: usize, end: usize) -> (part: Vec<char>)
    requires
        start <= end <= text@.len(),
    ensures
        part@ == text@.subrange(start as int, end as int),
{
    let mut part: Vec<char> = Vec::new();
    let mut i: usize = start;
    while i < end
        invariant
            start <= i <= end <= text@.len(),
            part@ == text@.subrange(start as int, i as int),
        decreases end - i,
    {
        part.push(text[i]);
        i = i + 1;
        assert(part@ =~= text@.subrange(start as int, i as int));
    }
    part
}

impl Reader {
    /// Open brackets that do not capture anything.
    fn open_plain(&mut self)
        ensures
            final(self)@ == old(self)@.with_plain(),
    {
        self.open.push((0, None));
    }

    /// Open a group.
    fn open_group(&mut self)
        requires
            old(self).groups < usize::MAX,
        ensures
            final(self)@ == old(self)@.with_group(),
            final(self).groups == old(self).groups + 1,
    {
        self.groups = self.groups + 1;
        self.open.push((self.groups, None));
    }

    /// Open a group with a name.
    fn open_named(&mut self, name: Vec<char>)
        requires
            old(self).groups < usize::MAX,
        ensures
            final(self)@ == old(self)@.with_named(name@),
            final(self).groups == old(self).groups + 1,
    {
        self.open_group();
        self.names.push((name, self.groups));
        assert(self@.names =~= old(self)@.names.push((name@, self.groups)));
    }

    /// Close the last brackets.
    fn close(&mut self)
        ensures
            final(self)@ == old(self)@.with_close(),
            final(self).groups == old(self).groups,
    {
        if let Some((_, verbose)) = self.open.pop() {
            if let Some(verbose) = verbose {
                self.verbose = verbose;
            }
        }
    }

    /// Find the group with a name.
    fn find_group(&self, name: &Vec<char>) -> (group: Option<usize>)
        ensures
            match group {
                Some(group) => named_group(self@.names, name@) == Some(group as nat),
                None => named_group(self@.names, name@) is None,
            },
    {
        let mut n: usize = self.names.len();
        let ghost names = self@.names;
        assert(names.take(n as int) =~= names);
        while n > 0
            invariant
                names == self@.names,
                0 <= n <= self.names@.len(),
                named_group(names.take(n as int), name@) == named_group(names, name@),
            decreases n,
        {
            n = n - 1;
            proof {
                assert(names.take(n + 1).drop_last() =~= names.take(n as int));
                assert(names.take(n + 1).last() == names[n as int]);
                assert(names[n as int].0 == self.names@[n as int].0@);
            }
            if same_chars(&self.names[n].0, name) {
                return Some(self.names[n].1);
            }
        }
        assert(names.take(0).len() == 0);
        parse_usize(name)
    }

    /// Is a group open?
    fn check_open(&self, group: usize) -> (result: bool)
        ensures
            result == self@.is_open(group),
    {
        if group == 0 {
            return false;
        }
        let mut k: usize = 0;
        while k < self.open.len()
            invariant
                group > 0,
                0 <= k <= self.open@.len(),
                forall|m: int| 0 <= m < k ==> (#[trigger] self.open@[m]).0 != group,
            decreases self.open@.len() - k,
        {
            if self.open[k].0 == group {
                assert(self@.open[k as int].0 == group);
                return true;
            }
            k = k + 1;
        }
        false
    }

    /// Read the part that starts with a backslash. Returns the position after it and the group that
    /// it refers back to.
    fn read_escape(&self, text: &Vec<char>, i: usize) -> (result: (usize, Option<usize>))
        requires
            i < text.len(),
        ensures
            is_part(escape_at(text@, i as int, self@), result.0, self@, result.1),
            i < result.0 <= text@.len(),
    {
        let next: usize = i + 1;
        if next < text.len() && text[next] >= '0' && text[next] <= '9' {
            let end: usize = skip_digits(text, next);
            assert(digits_end(text@, next as int) == digits_end(text@, next + 1));
            return (end, parse_usize(&part_of(text, next, end)));
        }
        if check_at(text, next, 'k') && check_at(text, next + 1, '<') {
            let start: usize = go_ahead(text, i, 3);
            let close: usize = find_char(text, start, '>');
            let name: Vec<char> = part_of(text, start, close);
            return (go_ahead(text, close, 1), self.find_group(&name));
        }
        (go_ahead(text, i, 2), None)
    }

    /// Read the part that starts with an opening bracket, given the position of the question mark
    /// after it.
    fn read_special(&mut self, text: &Vec<char>, i: usize) -> (result: (usize, Option<usize>))
        requires
            i < text.len(),
            old(self).groups < usize::MAX,
        ensures
            is_part(
                special_at(text@, i as int, old(self)@),
                result.0,
                final(self)@,
                result.1,
            ),
            i < result.0 <= text@.len(),
            final(self).groups <= old(self).groups + 1,
            result.1 is Some ==> final(self)@ == old(self)@,
    {
        let next: usize = i + 1;
        if check_at(text, next, '=') || check_at(text, next, '!') || check_at(text, next, '>') {
            self.open_plain();
            return (go_ahead(text, i, 2), None);
        }
        if check_at(text, next, '<') {
            if check_at(text, next + 1, '=') || check_at(text, next + 1, '!') {
                self.open_plain();
                return (go_ahead(text, i, 3), None);
            }
            let start: usize = go_ahead(text, i, 2);
            let close: usize = find_char(text, start, '>');
            self.open_named(part_of(text, start, close));
            return (go_ahead(text, close, 1), None);
        }
        if check_at(text, next, 'P') && check_at(text, next + 1, '<') {
            let start: usize = go_ahead(text, i, 3);
            let close: usize = find_char(text, start, '>');
            self.open_named(part_of(text, start, close));
            return (go_ahead(text, close, 1), None);
        }
        if check_at(text, next, 'P') && check_at(text, next + 1, '=') {
            let start: usize = go_ahead(text, i, 3);
            let close: usize = find_char(text, start, ')');
            let name: Vec<char> = part_of(text, start, close);
            return (go_ahead(text, close, 1), self.find_group(&name));
        }
        if check_at(text, next, '(') {
            self.open_plain();
            self.open_plain();
            return (go_ahead(text, i, 2), None);
        }
        let (end, verbose, scoped): (usize, bool, bool) = read_flags(text, next, self.verbose);
        if scoped {
            self.open.push((0, Some(self.verbose)));
        }
        self.verbose = verbose;
        (end, None)
    }

    /// Read the part at a position. Returns the position after it and the group that it refers back
    /// to.
    fn read_part(&mut self, text: &Vec<char>, i: usize) -> (result: (usize, Option<usize>))
        requires
            i < text.len(),
            old(self).groups < usize::MAX,
        ensures
            is_part(part_at(text@, i as int, old(self)@), result.0, final(self)@, result.1),
            i < result.0 <= text@.len(),
            final(self).groups <= old(self).groups + 1,
            result.1 is Some ==> final(self)@ == old(self)@,
    {
        let gap: usize = skip_gap(text, i, self.verbose);
        if gap > i {
            return (gap, None);
        }
        let ch: char = text[i];
        if ch == '\\' {
            self.read_escape(text, i)
        } else if ch == '[' {
            (skip_class(text, i + 1), None)
        } else if ch == '(' {
            let next: usize = skip_gap(text, i + 1, self.verbose);
            if check_at(text, next, '?') {
                self.read_special(text, next)
            } else {
                self.open_group();
                (next, None)
            }
        } else if ch == ')' {
            self.close();
            (i + 1, None)
        } else {
            (i + 1, None)
        }
    }
}

/// The part ends at the position, after this has been read, and refers back to this group.
pub open spec fn is_part(part: Part, end: usize, reading: Reading, refers: Option<usize>) -> bool {
    &&& part.end == end
    &&& part.reading == reading
    &&& match refers {
        Some(group) => part.refers == Some(group as nat),
        None => part.refers is None,
    }
}

/// Are the characters the same?
fn same_chars(left: &Vec<char>, right: &Vec<char>) -> (result: bool)
    ensures
        result == (left@ == right@),
{
    if left.len() != right.len() {
        return false;
    }
    let mut i: usize = 0;
    while i < left.len()
        invariant
            left@.len() == right@.len(),
            0 <= i <= left@.len(),
            forall|k: int| 0 <= k < i ==> left@[k] == right@[k],
        decreases left@.len() - i,
    {
        if left[i] != right[i] {
            assert(left@[i as int] != right@[i as int]);
            return false;
        }
        i = i + 1;
    }
    assert(left@ =~= right@);
    true
}

/// Does every backreference of a pattern stand outside the group that it names?
pub fn check_references(text: &str) -> (result: bool)
    ensures
        result == refers_outward(text@),
{
    let chars: Vec<char> = chars_of(text);
    let mut reader: Reader = Reader {
        verbose: false,
        groups: 0,
        open: Vec::new(),
        names: Vec::new(),
    };
    let mut i: usize = 0;
    assert(reader@.names =~= Seq::empty());
    assert(reader@.open =~= Seq::empty());
    while i < chars.len()
        invariant
            chars@ == text@,
            0 <= i <= chars@.len(),
            reader.groups <= i,
            refers_outward_from(chars@, i as int, reader@) == refers_outward(text@),
        decreases chars@.len() - i,
    {
        let (end, refers): (usize, Option<usize>) = reader.read_part(&chars, i);
        if let Some(group) = refers {
            if reader.check_open(group) {
                return false;
            }
        }
        i = end;
    }
    true
}

/// Can a pattern be matched? That is so if none of its backreferences stands inside the group that
/// it names.
pub fn check_pattern(pattern: &Regex) -> (result: bool)
    ensures
        result == refers_outward(pattern_text(*pattern)),
{
    check_references(read_pattern(pattern).as_str())
}

/// A pattern without brackets has no group that a backreference could stand in.
pub proof fn lemma_no_groups(text: Seq<char>)
    requires
        !text.contains('('),
    ensures
        refers_outward(text),
{
    lemma_no_groups_from(
        text,
        0,
        Reading { verbose: false, groups: 0, open: Seq::empty(), names: Seq::empty() },
    );
}

/// No group is open from some position on.
proof fn lemma_no_groups_from(text: Seq<char>, i: int, reading: Reading)
    requires
        !text.contains('('),
        0 <= i,
        reading.open.len() == 0,
    ensures
        refers_outward_from(text, i, reading),
    decreases text.len() - i,
{
    if i < text.len() {
        let part = part_at(text, i, reading);
        assert(text[i] != '(') by {
            if text[i] == '(' {
                assert(text.contains('('));
            }
        }
        if i < part.end <= text.len() {
            lemma_no_groups_from(text, part.end, part.reading);
        }
    }
}

/// A pattern without a backslash and without an equals sign has no backreference.
pub proof fn lemma_no_references(text: Seq<char>)
    requires
        !text.contains('\\'),
        !text.contains('='),
    ensures
        refers_outward(text),
{
    lemma_no_references_from(
        text,
        0,
        Reading { verbose: false, groups: 0, open: Seq::empty(), names: Seq::empty() },
    );
}

/// There is no backreference from some position on.
proof fn lemma_no_references_from(text: Seq<char>, i: int, reading: Reading)
    requires
        !text.contains('\\'),
        !text.contains('='),
        0 <= i,
    ensures
        refers_outward_from(text, i, reading),
    decreases text.len() - i,
{
    if i < text.len() {
        let part = part_at(text, i, reading);
        assert(text[i] != '\\') by {
            if text[i] == '\\' {
                assert(text.contains('\\'));
            }
        }
        assert forall|k: int| !is_at(text, k, '=') by {
            if is_at(text, k, '=') {
                assert(text[k] == '=');
                assert(text.contains('='));
            }
        }
        assert(part.refers is None);
        if i < part.end <= text.len() {
            lemma_no_references_from(text, part.end, part.reading);
        }
    }
}

/// A backreference to the first group that stands inside it, after characters without a special
/// meaning, is found.
pub proof fn lemma_inner_reference(before: Seq<char>, after: Seq<char>)
    requires
        forall|i: int|
            0 <= i < before.len() ==> (#[trigger] before[i]) != '\\' && before[i] != '(' && before[i]
                != ')' && before[i] != '[',
        before.len() > 0 ==> before[0] != '?',
        after.len() > 0 ==> !is_digit(after[0]),
    ensures
        !refers_outward(seq!['('] + before + seq!['\\', '1'] + after),
{
    let text = seq!['('] + before + seq!['\\', '1'] + after;
    let reading = Reading { verbose: false, groups: 0, open: Seq::empty(), names: Seq::empty() };
    let n = before.len() as int;
    assert(text[0] == '(');
    assert(text[n + 1] == '\\' && text[n + 2] == '1');
    assert forall|i: int| 1 <= i <= n implies (#[trigger] text[i]) == before[i - 1] by {}
    assert(!is_at(text, 1, '?'));
    assert(gap_end(text, 0, false, Gap::Outside) == 0);
    assert(text[1] != '(') by {
        if n > 0 {
            assert(text[1] == before[0]);
        }
    }
    assert(gap_end(text, 1, false, Gap::Outside) == 1);
    let inside = reading.with_group();
    let part = part_at(text, 0, reading);
    assert(part.end == 1 && part.reading == inside && part.refers is None);
    assert(inside.open[0] == (1usize, None::<bool>));
    assert(inside.is_open(1));
    lemma_inner_reference_from(text, n, 1, inside);
}

/// The backreference is found from a position before it.
proof fn lemma_inner_reference_from(text: Seq<char>, n: int, i: int, reading: Reading)
    requires
        !reading.verbose,
        reading.is_open(1),
        1 <= i <= n + 1,
        n + 3 <= text.len(),
        forall|k: int|
            1 <= k <= n ==> (#[trigger] text[k]) != '\\' && text[k] != '(' && text[k] != ')'
                && text[k] != '[',
        text[n + 1] == '\\',
        text[n + 2] == '1',
        n + 3 < text.len() ==> !is_digit(text[n + 3]),
    ensures
        !refers_outward_from(text, i, reading),
    decreases n + 1 - i,
{
    assert(gap_end(text, i, false, Gap::Outside) == i);
    if i <= n {
        let part = part_at(text, i, reading);
        assert(part.end == i + 1 && part.reading == reading);
        lemma_inner_reference_from(text, n, i + 1, reading);
    } else {
        reveal_with_fuel(digits_end, 3);
        let digits = text.subrange(n + 2, n + 3);
        assert(digits_end(text, n + 2) == n + 3);
        assert(digits =~= seq!['1']);
        assert(is_digit('1'));
        assert(decimal_value(digits) == 1) by {
            reveal_with_fuel(decimal_value, 2);
            assert(digits.drop_last() =~= Seq::empty());
        }
        assert(parsed_number(digits, usize::MAX as nat) == Some(1nat));
    }
}

} // verus!

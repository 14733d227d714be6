//! Reading word lists.

use crate::grid_input::{lowercase, lowercase_text_of};
use crate::text::{
    chars_of, is_white_space, joined, lemma_split_append, lemma_split_joined, lemma_split_single,
    lemma_trimmed_part, parsed_number, split, split_lines, text_lines, text_of, trim_chars, trimmed,
};
use crate::types::GlobalWordId;
use crate::word_list::{parse_entry, parsed_entry, WordList};
use vstd::prelude::*;

verus! {

/// The line is blank.
pub open spec fn is_blank_line(line: Seq<char>) -> bool {
    trimmed(line).len() == 0
}

/// The word, in lowercase, and its score that a line of a word list adds. Words that are too long are
/// left out.
pub open spec fn line_entry(line: Seq<char>, max_length: Option<usize>) -> Option<(Seq<char>, nat)> {
    match parsed_entry(line) {
        Some((word, score)) => {
            let word = lowercase_text_of(word);
            if is_blank_line(line) || (max_length matches Some(max_length) && word.len()
                > max_length) {
                None
            } else {
                Some((word, score))
            }
        },
        None => None,
    }
}

/// The score that the lines of a word list give a word. The last line counts.
pub open spec fn listed_score(
    lines: Seq<Seq<char>>,
    max_length: Option<usize>,
    word: Seq<char>,
) -> Option<nat>
    decreases lines.len(),
{
    if lines.len() == 0 {
        None
    } else {
        match line_entry(lines.last(), max_length) {
            Some((listed, score)) if listed == word => Some(score),
            _ => listed_score(lines.drop_last(), max_length, word),
        }
    }
}

/// What is said of a line that cannot be read.
pub open spec fn line_error(line: Seq<char>) -> Seq<char> {
    "invalid line in word list: "@ + line
}

/// What is wrong with the lines of a word list, in order.
pub open spec fn line_errors(lines: Seq<Seq<char>>) -> Seq<Seq<char>>
    decreases lines.len(),
{
    if lines.len() == 0 {
        Seq::empty()
    } else {
        let earlier = line_errors(lines.drop_last());
        if is_blank_line(lines.last()) || parsed_entry(lines.last()) is Some {
            earlier
        } else {
            earlier.push(line_error(lines.last()))
        }
    }
}

/// The list is as before, with the words that are listed.
pub open spec fn has_listed(
    after: WordList,
    before: WordList,
    lines: Seq<Seq<char>>,
    max_length: Option<usize>,
) -> bool {
    &&& after.extends(&before)
    &&& forall|word: Seq<char>| #[trigger]
        listed_score(lines, max_length, word) is Some ==> after.knows(word)
    &&& forall|id: GlobalWordId| #[trigger]
        after.has_word(id) ==> match listed_score(lines, max_length, after.text(id)) {
            Some(score) => after.word(id).score == score && after.word(id).letter_score == 0
                && !after.word(id).hidden,
            None => before.has_word(id) && after.word(id) == before.word(id),
        }
}

/// The errors say this.
pub open spec fn are_messages(errors: Seq<String>, messages: Seq<Seq<char>>) -> bool {
    &&& errors.len() == messages.len()
    &&& forall|i: int| 0 <= i < errors.len() ==> (#[trigger] errors[i])@ == messages[i]
}

/// One more line is read.
proof fn lemma_next_line(
    before: WordList,
    list: WordList,
    next: WordList,
    lines: Seq<Seq<char>>,
    max_length: Option<usize>,
    id: GlobalWordId,
    word: Seq<char>,
    score: u16,
)
    requires
        lines.len() > 0,
        list.wf(),
        next.wf(),
        has_listed(list, before, lines.drop_last(), max_length),
        line_entry(lines.last(), max_length) == Some((word, score as nat)),
        next.extends(&list),
        next.has_word(id),
        next.text(id) == word,
        next.word(id).score == score,
        next.word(id).letter_score == 0,
        !next.word(id).hidden,
        forall|other: GlobalWordId|
            #![trigger next.has_word(other)]
            #![trigger list.has_word(other)]
            other != id ==> next.has_word(other) == list.has_word(other) && (list.has_word(other)
                ==> next.word(other) == list.word(other)),
    ensures
        has_listed(next, before, lines, max_length),
{
    assert forall|other: Seq<char>| #[trigger]
        listed_score(lines, max_length, other) is Some implies next.knows(other) by {
        if other != word {
            assert(listed_score(lines.drop_last(), max_length, other) is Some);
            let known = choose|known: GlobalWordId| #[trigger]
                list.has_word(known) && list.text(known) == other;
            assert(next.has_word(known));
        }
    }
    assert forall|other: GlobalWordId| #[trigger] next.has_word(other) implies match listed_score(
        lines,
        max_length,
        next.text(other),
    ) {
        Some(listed) => next.word(other).score == listed && next.word(other).letter_score == 0
            && !next.word(other).hidden,
        None => before.has_word(other) && next.word(other) == before.word(other),
    } by {
        if other != id {
            assert(list.has_word(other));
            if next.text(other) == word {
                next.lemma_text_unique(other, id);
            }
        }
    }
    assert forall|other: GlobalWordId| #[trigger] before.has_word(other) implies next.has_word(
        other,
    ) && next.word(other).glyphs@ == before.word(other).glyphs@ && next.text(other)
        == before.text(other) by {
        assert(list.has_word(other));
    }
}

/// Add the words of a list, one per line with its score, except for those that are too long. Returns
/// what is wrong with lines that cannot be read.
pub fn load_words(
    word_list: &mut WordList,
    contents: &str,
    max_length: Option<usize>,
) -> (errors: Vec<String>)
    requires
        old(word_list).wf(),
    ensures
        final(word_list).wf(),
        has_listed(*final(word_list), *old(word_list), text_lines(contents@), max_length),
        are_messages(errors@, line_errors(text_lines(contents@))),
{
    let lines: Vec<Vec<char>> = split_lines(&chars_of(contents));
    let ghost texts = text_lines(contents@);
    let mut errors: Vec<String> = Vec::new();
    let mut i: usize = 0;
    while i < lines.len()
        invariant
            lines@.len() == texts.len(),
            forall|k: int| 0 <= k < lines@.len() ==> (#[trigger] lines@[k])@ == texts[k],
            0 <= i <= lines@.len(),
            word_list.wf(),
            has_listed(*word_list, *old(word_list), texts.take(i as int), max_length),
            are_messages(errors@, line_errors(texts.take(i as int))),
        decreases lines@.len() - i,
    {
        let ghost before = *word_list;
        let ghost now = texts.take(i + 1);
        proof {
            assert(now.drop_last() =~= texts.take(i as int));
            assert(now.last() == lines@[i as int]@);
        }
        if trim_chars(&lines[i]).len() > 0 {
            let line: String = text_of(lines[i].as_slice());
            match parse_entry(line.as_str()) {
                Some((word, score)) => {
                    let word: String = lowercase(word.as_str());
                    let fits: bool = match max_length {
                        Some(max_length) => chars_of(word.as_str()).len() <= max_length,
                        None => true,
                    };
                    if fits {
                        let id: GlobalWordId = word_list.add_word(word.as_str(), score, 0);
                        proof {
                            lemma_next_line(
                                *old(word_list),
                                before,
                                *word_list,
                                now,
                                max_length,
                                id,
                                word@,
                                score,
                            );
                        }
                    } else {
                        assert(line_entry(now.last(), max_length) is None);
                        assert(has_listed(*word_list, *old(word_list), now, max_length)) by {
                            lemma_skipped_line(*word_list, *old(word_list), now, max_length);
                        }
                    }
                },
                None => {
                    let mut error: String = "invalid line in word list: ".to_owned();
                    error.append(line.as_str());
                    errors.push(error);
                    proof {
                        lemma_skipped_line(*word_list, *old(word_list), now, max_length);
                    }
                },
            }
        } else {
            proof {
                lemma_skipped_line(*word_list, *old(word_list), now, max_length);
            }
        }
        i = i + 1;
    }
    assert(texts.take(i as int) =~= texts);
    errors
}

/// A line that adds nothing is read.
proof fn lemma_skipped_line(
    list: WordList,
    before: WordList,
    lines: Seq<Seq<char>>,
    max_length: Option<usize>,
)
    requires
        lines.len() > 0,
        has_listed(list, before, lines.drop_last(), max_length),
        line_entry(lines.last(), max_length) is None,
    ensures
        has_listed(list, before, lines, max_length),
{
    let earlier = lines.drop_last();
    assert forall|word: Seq<char>| #[trigger] listed_score(lines, max_length, word)
        == listed_score(earlier, max_length, word) by {}
}

/// A line gives a word a score: there is one semicolon, the word before it and the score behind it,
/// with or without white space around them. The word is taken in lowercase.
pub open spec fn lists(line: Seq<char>, word: Seq<char>, score: nat) -> bool {
    exists|at: int|
        {
            &&& 0 <= at < line.len()
            &&& #[trigger] line[at] == ';'
            &&& forall|i: int| 0 <= i < line.len() && i != at ==> #[trigger] line[i] != ';'
            &&& trimmed(line.take(at)).len() > 0
            &&& word == lowercase_text_of(trimmed(line.take(at)))
            &&& parsed_number(trimmed(line.skip(at + 1)), 65535) == Some(score)
        }
}

/// What a line of a word list adds is the word that it lists, with its score, unless the word is too
/// long.
pub proof fn lemma_line_lists(line: Seq<char>, max_length: Option<usize>, word: Seq<char>, score: nat)
    ensures
        (line_entry(line, max_length) == Some((word, score))) == (lists(line, word, score) && (
        max_length matches Some(max_length) ==> word.len() <= max_length)),
        is_blank_line(line) ==> !lists(line, word, score),
        parsed_entry(line) is Some == exists|w: Seq<char>, n: nat| lists(line, w, n),
{
    let parts = split(line, ';');
    if lists(line, word, score) {
        lemma_lists_parsed(line, word, score);
    }
    if parsed_entry(line) is Some {
        let (w, n) = parsed_entry(line)->Some_0;
        lemma_split_joined(line, ';');
        let at = parts[0].len() as int;
        assert(parts.drop_last() =~= seq![parts[0]]);
        assert(joined(seq![parts[0]], ';') == parts[0]);
        assert(line == parts[0].push(';') + parts[1]);
        assert(line.take(at) =~= parts[0]);
        assert(line.skip(at + 1) =~= parts[1]);
        assert forall|i: int| 0 <= i < line.len() && i != at implies #[trigger] line[i] != ';' by {
            if i < at {
                assert(parts[0][i] == line[i]);
                assert(!parts[0].contains(';'));
            } else {
                assert(parts[1][i - at - 1] == line[i]);
                assert(!parts[1].contains(';'));
            }
        }
        assert(line[at] == ';');
        assert(lists(line, lowercase_text_of(w), n));
        lemma_lists_parsed(line, lowercase_text_of(w), n);
    }
    if exists|w: Seq<char>, n: nat| lists(line, w, n) {
        let (w, n) = choose|w: Seq<char>, n: nat| lists(line, w, n);
        lemma_lists_parsed(line, w, n);
    }
}

/// A line that lists a word can be read.
proof fn lemma_lists_parsed(line: Seq<char>, word: Seq<char>, score: nat)
    requires
        lists(line, word, score),
    ensures
        parsed_entry(line) matches Some((w, n)) && lowercase_text_of(w) == word && n == score,
        !is_blank_line(line),
{
    let at = choose|at: int|
        {
            &&& 0 <= at < line.len()
            &&& #[trigger] line[at] == ';'
            &&& forall|i: int| 0 <= i < line.len() && i != at ==> #[trigger] line[i] != ';'
            &&& trimmed(line.take(at)).len() > 0
            &&& word == lowercase_text_of(trimmed(line.take(at)))
            &&& parsed_number(trimmed(line.skip(at + 1)), 65535) == Some(score)
        };
    let name = line.take(at);
    let number = line.skip(at + 1);
    assert(!name.contains(';')) by {
        if name.contains(';') {
            assert(line[name.index_of(';')] == ';');
        }
    }
    assert(!number.contains(';')) by {
        if number.contains(';') {
            assert(line[number.index_of(';') + at + 1] == ';');
        }
    }
    lemma_split_single(name, ';');
    lemma_split_append(name, ';', number);
    assert(line =~= name.push(';') + number);
    assert(split(line, ';') =~= seq![name, number]);
    let bounds = lemma_trimmed_part(line);
    if bounds.0 == bounds.1 {
        assert(is_white_space(line[at]));
    }
}

/// The score of a word is the one that the last line which lists it gives it: there is such a line,
/// and no later one lists the word. Words that are too long have none.
pub proof fn lemma_last_line_counts(
    lines: Seq<Seq<char>>,
    max_length: Option<usize>,
    word: Seq<char>,
    score: nat,
)
    requires
        max_length matches Some(max_length) ==> word.len() <= max_length,
    ensures
        (listed_score(lines, max_length, word) == Some(score)) == is_listed(lines, word, score),
    decreases lines.len(),
{
    if lines.len() > 0 {
        let front = lines.drop_last();
        lemma_last_line_counts(front, max_length, word, score);
        assert forall|n: nat| lists(lines.last(), word, n) == (line_entry(lines.last(), max_length)
            == Some((word, n))) by {
            lemma_line_lists(lines.last(), max_length, word, n);
        }
        if is_listed(front, word, score) && (forall|n: nat| !lists(lines.last(), word, n)) {
            let i = choose|i: int|
                {
                    &&& 0 <= i < front.len()
                    &&& lists(#[trigger] front[i], word, score)
                    &&& forall|k: int, n: nat|
                        i < k < front.len() ==> !#[trigger] lists(front[k], word, n)
                };
            assert(lists(lines[i], word, score));
            assert forall|k: int, n: nat| i < k < lines.len() implies !#[trigger] lists(
                lines[k],
                word,
                n,
            ) by {
                if k < front.len() {
                    assert(!lists(front[k], word, n));
                }
            }
            assert(is_listed(lines, word, score));
        }
        if is_listed(lines, word, score) {
            let i = choose|i: int|
                {
                    &&& 0 <= i < lines.len()
                    &&& lists(#[trigger] lines[i], word, score)
                    &&& forall|k: int, n: nat|
                        i < k < lines.len() ==> !#[trigger] lists(lines[k], word, n)
                };
            if i < front.len() {
                assert(lists(front[i], word, score));
                assert forall|k: int, n: nat| i < k < front.len() implies !#[trigger] lists(
                    front[k],
                    word,
                    n,
                ) by {
                    assert(!lists(lines[k], word, n));
                }
                assert forall|n: nat| !#[trigger] lists(lines.last(), word, n) by {
                    let last = lines.len() - 1;
                    assert(!lists(lines[last], word, n));
                }
            }
        }
        if let Some((listed, n)) = line_entry(lines.last(), max_length) {
            if listed == word {
                assert(lists(lines[lines.len() - 1], word, n));
                if is_listed(lines, word, score) {
                    assert(lists(lines.last(), word, score));
                }
            }
        }
    }
}

/// A line of the list gives the word this score, and no later one lists the word.
pub open spec fn is_listed(lines: Seq<Seq<char>>, word: Seq<char>, score: nat) -> bool {
    exists|i: int|
        {
            &&& 0 <= i < lines.len()
            &&& lists(#[trigger] lines[i], word, score)
            &&& forall|k: int, n: nat|
                i < k < lines.len() ==> !#[trigger] lists(lines[k], word, n)
        }
}

/// The line is neither blank nor lists a word.
pub open spec fn is_bad_line(line: Seq<char>) -> bool {
    &&& exists|i: int| 0 <= i < line.len() && !is_white_space(#[trigger] line[i])
    &&& forall|word: Seq<char>, score: nat| !#[trigger] lists(line, word, score)
}

/// Every line that is neither blank nor lists a word is complained about, in order, and no other one
/// is.
pub proof fn lemma_bad_lines_reported(lines: Seq<Seq<char>>) -> (bad: Seq<int>)
    ensures
        line_errors(lines).len() == bad.len(),
        forall|k: int|
            0 <= k < bad.len() ==> 0 <= #[trigger] bad[k] < lines.len() && line_errors(lines)[k]
                == "invalid line in word list: "@ + lines[bad[k]],
        forall|k: int, m: int| 0 <= k < m < bad.len() ==> bad[k] < bad[m],
        forall|i: int| 0 <= i < lines.len() ==> (is_bad_line(#[trigger] lines[i]) == bad.contains(i)),
    decreases lines.len(),
{
    if lines.len() == 0 {
        Seq::empty()
    } else {
        let front = lines.drop_last();
        let n = lines.len() - 1;
        let before = lemma_bad_lines_reported(front);
        let line = lines.last();
        lemma_line_lists(line, None, Seq::empty(), 0);
        let bounds = lemma_trimmed_part(line);
        if is_blank_line(line) {
            assert forall|i: int| 0 <= i < line.len() implies is_white_space(#[trigger] line[i]) by {}
        } else {
            assert(!is_white_space(line[bounds.0]));
        }
        let is_bad = !is_blank_line(line) && parsed_entry(line) is None;
        assert(is_bad == is_bad_line(line));
        let bad = if is_bad {
            before.push(n)
        } else {
            before
        };
        assert forall|i: int| 0 <= i < lines.len() implies (is_bad_line(#[trigger] lines[i])
            == bad.contains(i)) by {
            if i < n {
                assert(front[i] == lines[i]);
                if before.contains(i) {
                    assert(bad[before.index_of(i)] == i);
                }
                if bad.contains(i) {
                    assert(before[bad.index_of(i)] == i);
                }
            } else {
                if is_bad {
                    assert(bad[before.len() as int] == n);
                } else if bad.contains(i) {
                    assert(before[bad.index_of(i)] < front.len());
                }
            }
        }
        assert forall|k: int| 0 <= k < bad.len() implies 0 <= #[trigger] bad[k] < lines.len()
            && line_errors(lines)[k] == "invalid line in word list: "@ + lines[bad[k]] by {
            if k < before.len() {
                assert(before[k] == bad[k]);
                assert(front[bad[k]] == lines[bad[k]]);
            }
        }
        bad
    }
}

} // verus!

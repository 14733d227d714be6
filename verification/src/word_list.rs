//! The scored words that slots are filled from.

use crate::dupe_index::{
    lemma_with_word_linked, windows, AnyDupeIndex, BoxedDupeIndex, DupeIndex, DupeModel,
};
use crate::sequence_index::SequenceIndex;
use crate::text::{
    chars_of, parse_usize, parsed_number, split, split_chars, text_of, trim_chars, trimmed,
};
use crate::types::{GlobalWordId, GlyphId, WordId};
use std::collections::HashMap;
use vstd::prelude::*;

verus! {

broadcast use vstd::std_specs::hash::group_hash_axioms;

/// A word of the list.
#[derive(Debug, Clone)]
pub struct Word {
    /// The text of the word, one character for each of its glyphs.
    pub normalized_string: String,
    /// The glyph in each cell of the word.
    pub glyphs: Vec<GlyphId>,
    /// How desirable the word is.
    pub score: u16,
    /// How desirable the letters of the word are.
    pub letter_score: u16,
    /// Words that were only added because a grid contains them are never offered as options.
    pub hidden: bool,
}

/// The words available for filling grids, with the glyphs that they are made of.
pub struct WordList {
    /// The characters that glyph ids stand for.
    pub glyphs: Vec<char>,
    /// The glyph id of each character, by code point.
    pub glyph_id_by_char: HashMap<u32, GlyphId>,
    /// The words by length; a `WordId` is a position in the bucket of its length.
    pub words: Vec<Vec<Word>>,
    /// The `WordId` of each glyph sequence, by length.
    pub word_id_by_glyphs: Vec<SequenceIndex>,
    /// Which words duplicate each other.
    pub dupe_index: BoxedDupeIndex,
}

impl WordList {
    /// The glyphs are numbered without repetition, and each can be found by its character.
    pub open spec fn glyphs_wf(&self) -> bool {
        &&& self.glyphs@.no_duplicates()
        &&& forall|g: int|
            0 <= g < self.glyphs@.len() ==> self.glyph_id_by_char@.contains_key(
                #[trigger] self.glyphs@[g] as u32,
            ) && self.glyph_id_by_char@[self.glyphs@[g] as u32] == g
        &&& forall|code: u32| #[trigger]
            self.glyph_id_by_char@.contains_key(code) ==> self.glyph_id_by_char@[code]
                < self.glyphs@.len() && self.glyphs@[self.glyph_id_by_char@[code] as int] as u32
                == code
    }

    /// A word fits the bucket of its length, is made of known glyphs and spells its text.
    pub open spec fn word_wf(&self, length: int, word: Word) -> bool {
        &&& word.glyphs@.len() == length
        &&& forall|c: int| 0 <= c < length ==> #[trigger] word.glyphs@[c] < self.glyphs@.len()
        &&& word.normalized_string@ == self.spelling(word.glyphs@)
    }

    /// Every word is well formed and can be found by its glyphs, so no word occurs twice.
    pub open spec fn words_wf(&self) -> bool {
        &&& self.words@.len() == self.word_id_by_glyphs@.len()
        &&& forall|length: int|
            0 <= length < self.words@.len() ==> self.bucket_wf(length, #[trigger] self.words@[length]@)
    }

    /// The bucket of a length matches its lookup table.
    pub open spec fn bucket_wf(&self, length: int, bucket: Seq<Word>) -> bool {
        &&& self.word_id_by_glyphs@[length].wf()
        &&& self.word_id_by_glyphs@[length]@.len() == bucket.len()
        &&& forall|id: int|
            0 <= id < bucket.len() ==> self.word_wf(length, #[trigger] bucket[id])
                && self.word_id_by_glyphs@[length]@[id] == bucket[id].glyphs@
    }

    /// The text that a sequence of glyphs spells.
    pub open spec fn spelling(&self, glyphs: Seq<GlyphId>) -> Seq<char> {
        glyphs.map_values(|g: GlyphId| self.glyphs@[g as int])
    }

    /// The list has a word with this id.
    pub open spec fn has_word(&self, id: GlobalWordId) -> bool {
        id.0 < self.words@.len() && id.1 < self.words@[id.0 as int]@.len()
    }

    /// The dupe index records exactly the words of the list, and its pairs go both ways.
    pub open spec fn dupes_wf(&self) -> bool {
        &&& self.dupe_index.wf()
        &&& self.dupe_index.model().linked()
        &&& self.dupe_index.model().pairs_symmetric()
        &&& self.dupe_index.model().window == 0 ==> forall|id: GlobalWordId|
            !#[trigger] self.dupe_index.model().substrings.contains_key(id)
        &&& self.dupe_index.model().window > 0 ==> forall|id: GlobalWordId|
            #![trigger self.dupe_index.model().substrings.contains_key(id)]
            #![trigger self.has_word(id)]
            self.dupe_index.model().substrings.contains_key(id) == self.has_word(id)
        &&& self.dupe_index.model().window > 0 ==> forall|id: GlobalWordId| #[trigger]
            self.has_word(id) ==> self.dupe_index.model().substrings[id] == windows(
                self.words@[id.0 as int]@[id.1 as int].glyphs@,
                self.dupe_index.model().window,
            )
    }

    /// All parts of the list fit together.
    pub open spec fn wf(&self) -> bool {
        self.glyphs_wf() && self.words_wf() && self.dupes_wf()
    }

    /// The text is spelled by a word of the list.
    pub open spec fn knows(&self, text: Seq<char>) -> bool {
        exists|id: GlobalWordId| #[trigger] self.has_word(id) && self.text(id) == text
    }

    /// The text of a word.
    pub open spec fn text(&self, id: GlobalWordId) -> Seq<char> {
        self.word(id).normalized_string@
    }

    /// The word with this id.
    pub open spec fn word(&self, id: GlobalWordId) -> Word {
        self.words@[id.0 as int]@[id.1 as int]
    }

    /// The list has the same words as the other one, under the same ids.
    pub open spec fn same_words(&self, earlier: &WordList) -> bool {
        forall|id: GlobalWordId|
            #![trigger self.has_word(id)]
            #![trigger earlier.has_word(id)]
            self.has_word(id) == earlier.has_word(id) && (earlier.has_word(id) ==> self.word(id)
                == earlier.word(id))
    }

    /// The list has one word more than the other one.
    pub open spec fn adds_only(&self, earlier: &WordList, added: GlobalWordId) -> bool {
        forall|id: GlobalWordId|
            #![trigger self.has_word(id)]
            #![trigger earlier.has_word(id)]
            self.has_word(id) == (id == added || earlier.has_word(id)) && (earlier.has_word(id)
                ==> self.word(id) == earlier.word(id))
    }

    /// The lengths of words can be represented.
    pub proof fn lemma_length_fits(&self, length: int)
        requires
            0 <= length < self.words@.len(),
        ensures
            length as usize == length,
    {
        assert(self.words.len() == self.words@.len());
    }

    /// Words with the same text are the same.
    pub proof fn lemma_text_unique(&self, left: GlobalWordId, right: GlobalWordId)
        requires
            self.wf(),
            self.has_word(left),
            self.has_word(right),
            self.text(left) == self.text(right),
        ensures
            left == right,
    {
        let n = left.0 as int;
        let m = right.0 as int;
        assert(self.bucket_wf(n, self.words@[n]@));
        assert(self.bucket_wf(m, self.words@[m]@));
        assert(self.word_wf(n, self.word(left)));
        assert(self.word_wf(m, self.word(right)));
        assert(self.spelling(self.word(left).glyphs@).len() == n);
        assert(self.spelling(self.word(right).glyphs@).len() == m);
        lemma_spelling_injective(*self, self.word(left).glyphs@, self.word(right).glyphs@);
        assert(self.word_id_by_glyphs@[n]@[left.1 as int] == self.word_id_by_glyphs@[n]@[right.1 as int]);
        assert(self.word_id_by_glyphs@[n]@.no_duplicates());
    }

    /// A text is known exactly when its glyphs are.
    proof fn lemma_knows(&self, before: WordList, spelled: WordList, glyphs: Seq<GlyphId>)
        requires
            before.wf(),
            spelled.wf(),
            self.wf(),
            before.glyphs@.is_prefix_of(spelled.glyphs@),
            spelled.words == before.words,
            self.glyphs == spelled.glyphs,
            glyphs.len() < self.words@.len(),
            spelled.words@.len() <= self.words@.len(),
            forall|n: int|
                0 <= n < spelled.words@.len() ==> #[trigger] self.words@[n] == spelled.words@[n],
            forall|n: int|
                spelled.words@.len() <= n < self.words@.len() ==> (
                #[trigger] self.words@[n])@.len() == 0,
            forall|c: int| 0 <= c < glyphs.len() ==> #[trigger] glyphs[c] < self.glyphs@.len(),
        ensures
            self.same_words(&before),
            before.knows(self.spelling(glyphs)) ==> self.word_id_by_glyphs@[glyphs.len() as int]@.contains(
                glyphs,
            ),
    {
        let text = self.spelling(glyphs);
        assert forall|id: GlobalWordId|
            #![trigger self.has_word(id)]
            #![trigger before.has_word(id)]
            self.has_word(id) == before.has_word(id) && (before.has_word(id) ==> self.word(id)
                == before.word(id)) by {
            if id.0 < spelled.words@.len() {
                assert(self.words@[id.0 as int] == spelled.words@[id.0 as int]);
            }
        }
        if before.knows(text) {
            let id = choose|id: GlobalWordId| #[trigger]
                before.has_word(id) && before.text(id) == text;
            assert(self.has_word(id) && self.text(id) == text);
            assert(self.bucket_wf(id.0 as int, self.words@[id.0 as int]@));
            let word = self.word(id);
            assert(self.word_wf(id.0 as int, word));
            lemma_spelling_injective(*self, word.glyphs@, glyphs);
            assert(self.word_id_by_glyphs@[glyphs.len() as int]@[id.1 as int] == glyphs);
        }
    }

    /// The glyphs and words of `earlier` all keep their ids, except that the scores of words and
    /// whether they are hidden may differ. What makes words dupes is the same.
    pub open spec fn extends(&self, earlier: &WordList) -> bool {
        &&& earlier.glyphs@.is_prefix_of(self.glyphs@)
        &&& earlier.words@.len() <= self.words@.len()
        &&& forall|id: GlobalWordId| #[trigger]
            earlier.has_word(id) ==> self.has_word(id) && self.word(id).glyphs@ == earlier.word(
                id,
            ).glyphs@ && self.text(id) == earlier.text(id)
        &&& self.dupe_index.model().window == earlier.dupe_index.model().window
        &&& self.dupe_index.model().extra == earlier.dupe_index.model().extra
    }
}

/// Characters with the same code point are the same.
proof fn lemma_code_point(left: char, right: char)
    requires
        left as u32 == right as u32,
    ensures
        left == right,
{
}

/// Glyphs that were known spell the same text when more glyphs are known.
pub proof fn lemma_spelling_extends(earlier: WordList, later: WordList, glyphs: Seq<GlyphId>)
    requires
        earlier.glyphs@.is_prefix_of(later.glyphs@),
        forall|c: int| 0 <= c < glyphs.len() ==> #[trigger] glyphs[c] < earlier.glyphs@.len(),
    ensures
        later.spelling(glyphs) == earlier.spelling(glyphs),
{
    assert(later.spelling(glyphs) =~= earlier.spelling(glyphs));
}

/// Without repetition among the characters, a text has one spelling.
pub proof fn lemma_spelling_injective(list: WordList, left: Seq<GlyphId>, right: Seq<GlyphId>)
    requires
        list.glyphs_wf(),
        forall|c: int| 0 <= c < left.len() ==> #[trigger] left[c] < list.glyphs@.len(),
        forall|c: int| 0 <= c < right.len() ==> #[trigger] right[c] < list.glyphs@.len(),
        list.spelling(left) == list.spelling(right),
    ensures
        left == right,
{
    assert(list.spelling(left).len() == left.len());
    assert(list.spelling(right).len() == right.len());
    assert(left.len() == right.len());
    assert forall|c: int| 0 <= c < left.len() implies left[c] == right[c] by {
        assert(list.spelling(left)[c] == list.spelling(right)[c]);
        assert(list.spelling(left)[c] == list.glyphs@[left[c] as int]);
        assert(list.spelling(right)[c] == list.glyphs@[right[c] as int]);
        assert(left[c] < list.glyphs@.len() && right[c] < list.glyphs@.len());
    }
    assert(left =~= right);
}

impl WordList {
    /// More glyphs leave the words as they are.
    proof fn lemma_more_glyphs(earlier: WordList, later: WordList)
        requires
            earlier.words_wf(),
            earlier.glyphs@.is_prefix_of(later.glyphs@),
            later.words == earlier.words,
            later.word_id_by_glyphs == earlier.word_id_by_glyphs,
        ensures
            later.words_wf(),
    {
        assert forall|length: int| 0 <= length < later.words@.len() implies later.bucket_wf(
            length,
            #[trigger] later.words@[length]@,
        ) by {
            let bucket = later.words@[length]@;
            assert(earlier.bucket_wf(length, earlier.words@[length]@));
            assert forall|id: int| 0 <= id < bucket.len() implies later.word_wf(
                length,
                #[trigger] bucket[id],
            ) && later.word_id_by_glyphs@[length]@[id] == bucket[id].glyphs@ by {
                assert(earlier.word_wf(length, bucket[id]));
                lemma_spelling_extends(earlier, later, bucket[id].glyphs@);
            }
        }
    }

    /// Get the id of the glyph for a character, adding it if it isn't known yet.
    pub fn glyph_id_for_char(&mut self, ch: char) -> (glyph_id: GlyphId)
        requires
            old(self).wf(),
        ensures
            final(self).wf(),
            glyph_id < final(self).glyphs@.len(),
            final(self).glyphs@[glyph_id as int] == ch,
            final(self).glyphs@ == if old(self).glyphs@.contains(ch) {
                old(self).glyphs@
            } else {
                old(self).glyphs@.push(ch)
            },
            final(self).words == old(self).words,
            final(self).word_id_by_glyphs == old(self).word_id_by_glyphs,
            final(self).dupe_index == old(self).dupe_index,
    {
        let code: u32 = ch as u32;
        if let Some(glyph_id) = self.glyph_id_by_char.get(&code) {
            let glyph_id: GlyphId = *glyph_id;
            proof {
                assert(self.glyphs@[glyph_id as int] as u32 == code);
                lemma_code_point(self.glyphs@[glyph_id as int], ch);
            }
            return glyph_id;
        }
        let glyph_id: GlyphId = self.glyphs.len();
        proof {
            assert forall|g: int| 0 <= g < self.glyphs@.len() implies self.glyphs@[g] != ch by {
                assert(self.glyph_id_by_char@.contains_key(self.glyphs@[g] as u32));
            }
        }
        self.glyphs.push(ch);
        self.glyph_id_by_char.insert(code, glyph_id);
        proof {
            assert(old(self).glyphs@.is_prefix_of(self.glyphs@));
            assert forall|g: int| 0 <= g < self.glyphs@.len() implies self.glyph_id_by_char@.contains_key(
                #[trigger] self.glyphs@[g] as u32,
            ) && self.glyph_id_by_char@[self.glyphs@[g] as u32] == g by {
                if g < glyph_id {
                    assert(old(self).glyphs@[g] == self.glyphs@[g]);
                    assert(self.glyphs@[g] != ch);
                    if self.glyphs@[g] as u32 == code {
                        lemma_code_point(self.glyphs@[g], ch);
                    }
                }
            }
            WordList::lemma_more_glyphs(*old(self), *self);
            assert forall|id: GlobalWordId| #[trigger] self.has_word(id) == old(self).has_word(id) by {}
        }
        glyph_id
    }

    /// Get the glyphs of a text, adding those that aren't known yet.
    fn add_glyphs(&mut self, text: &str) -> (glyphs: Vec<GlyphId>)
        requires
            old(self).wf(),
        ensures
            final(self).wf(),
            old(self).glyphs@.is_prefix_of(final(self).glyphs@),
            final(self).words == old(self).words,
            final(self).word_id_by_glyphs == old(self).word_id_by_glyphs,
            final(self).dupe_index == old(self).dupe_index,
            forall|c: int| 0 <= c < glyphs@.len() ==> #[trigger] glyphs@[c] < final(self).glyphs@.len(),
            final(self).spelling(glyphs@) == text@,
            (forall|c: int| 0 <= c < text@.len() ==> old(self).glyphs@.contains(#[trigger] text@[c]))
                ==> final(self).glyphs@ == old(self).glyphs@,
    {
        let chars: Vec<char> = chars_of(text);
        let mut glyphs: Vec<GlyphId> = Vec::new();
        let mut i: usize = 0;
        while i < chars.len()
            invariant
                chars@ == text@,
                0 <= i <= chars@.len(),
                self.wf(),
                old(self).glyphs@.is_prefix_of(self.glyphs@),
                self.words == old(self).words,
                self.word_id_by_glyphs == old(self).word_id_by_glyphs,
                self.dupe_index == old(self).dupe_index,
                glyphs@.len() == i,
                forall|c: int| 0 <= c < i ==> #[trigger] glyphs@[c] < self.glyphs@.len(),
                forall|c: int| 0 <= c < i ==> self.glyphs@[#[trigger] glyphs@[c] as int] == text@[c],
                (forall|c: int|
                    0 <= c < text@.len() ==> old(self).glyphs@.contains(#[trigger] text@[c]))
                    ==> self.glyphs@ == old(self).glyphs@,
            decreases chars@.len() - i,
        {
            let ghost before = self.glyphs@;
            let glyph_id: GlyphId = self.glyph_id_for_char(chars[i]);
            proof {
                assert(before.is_prefix_of(self.glyphs@));
                assert(old(self).glyphs@.is_prefix_of(self.glyphs@));
                assert forall|c: int| 0 <= c < i implies self.glyphs@[#[trigger] glyphs@[c] as int]
                    == text@[c] by {
                    assert(before[glyphs@[c] as int] == text@[c]);
                }
            }
            glyphs.push(glyph_id);
            i = i + 1;
        }
        assert(self.spelling(glyphs@) =~= text@);
        glyphs
    }

    /// Make sure that there is a bucket for words of the given length.
    pub fn add_buckets(&mut self, length: usize)
        requires
            old(self).wf(),
        ensures
            final(self).wf(),
            length < final(self).words@.len(),
            final(self).words@.len() == if length < old(self).words@.len() {
                old(self).words@.len() as int
            } else {
                length + 1
            },
            final(self).glyphs == old(self).glyphs,
            final(self).glyph_id_by_char == old(self).glyph_id_by_char,
            final(self).dupe_index == old(self).dupe_index,
            forall|n: int|
                0 <= n < old(self).words@.len() ==> #[trigger] final(self).words@[n]
                    == old(self).words@[n],
            forall|n: int|
                old(self).words@.len() <= n < final(self).words@.len() ==> (#[trigger] final(self).words@[n])@.len() == 0,
    {
        while self.words.len() <= length
            invariant
                self.glyphs_wf(),
                self.words_wf(),
                self.dupes_wf(),
                self.glyphs == old(self).glyphs,
                self.glyph_id_by_char == old(self).glyph_id_by_char,
                self.dupe_index == old(self).dupe_index,
                old(self).words@.len() <= self.words@.len(),
                self.words@.len() <= length + 1 || self.words@.len() == old(self).words@.len(),
                forall|n: int|
                    0 <= n < old(self).words@.len() ==> #[trigger] self.words@[n] == old(self).words@[n],
                forall|n: int|
                    old(self).words@.len() <= n < self.words@.len() ==> (
                    #[trigger] self.words@[n])@.len() == 0,
            decreases length + 1 - self.words@.len(),
        {
            let ghost before = *self;
            self.words.push(Vec::new());
            self.word_id_by_glyphs.push(SequenceIndex::new());
            proof {
                assert forall|n: int| 0 <= n < self.words@.len() implies self.bucket_wf(
                    n,
                    #[trigger] self.words@[n]@,
                ) by {
                    if n < before.words@.len() {
                        let bucket = before.words@[n]@;
                        assert(before.bucket_wf(n, bucket));
                        assert(self.words@[n] == before.words@[n]);
                        assert(self.word_id_by_glyphs@[n] == before.word_id_by_glyphs@[n]);
                        assert forall|id: int| 0 <= id < bucket.len() implies self.word_wf(
                            n,
                            #[trigger] bucket[id],
                        ) by {
                            assert(before.word_wf(n, bucket[id]));
                            lemma_spelling_extends(before, *self, bucket[id].glyphs@);
                        }
                    }
                }
                assert forall|id: GlobalWordId| #[trigger] self.has_word(id) == before.has_word(
                    id,
                ) by {}
                assert forall|id: GlobalWordId| #[trigger]
                    self.has_word(id) && self.dupe_index.model().window > 0 implies self.dupe_index.model().substrings[id]
                    == windows(
                    self.words@[id.0 as int]@[id.1 as int].glyphs@,
                    self.dupe_index.model().window,
                ) by {
                    assert(before.has_word(id));
                    assert(self.words@[id.0 as int] == before.words@[id.0 as int]);
                }
            }
        }
    }

    /// The id of the word with the given glyphs.
    fn find_glyphs(&self, glyphs: &Vec<GlyphId>) -> (word_id: Option<WordId>)
        requires
            self.wf(),
            glyphs@.len() < self.words@.len(),
        ensures
            match word_id {
                Some(word_id) => word_id < self.words@[glyphs@.len() as int]@.len()
                    && self.words@[glyphs@.len() as int]@[word_id as int].glyphs@ == glyphs@,
                None => !self.word_id_by_glyphs@[glyphs@.len() as int]@.contains(glyphs@),
            },
    {
        let length: usize = glyphs.len();
        assert(self.bucket_wf(length as int, self.words@[length as int]@));
        let found = self.word_id_by_glyphs[length].find(glyphs.as_slice());
        proof {
            if let Some(word_id) = found {
                assert(self.words@[length as int]@[word_id as int].glyphs@ == glyphs@);
            }
        }
        found
    }

    /// Add a word that isn't in the list yet.
    fn push_word(&mut self, word: Word) -> (word_id: WordId)
        requires
            old(self).wf(),
            word.glyphs@.len() < old(self).words@.len(),
            old(self).word_wf(word.glyphs@.len() as int, word),
            !old(self).word_id_by_glyphs@[word.glyphs@.len() as int]@.contains(word.glyphs@),
        ensures
            final(self).wf(),
            final(self).glyphs == old(self).glyphs,
            final(self).words@.len() == old(self).words@.len(),
            word_id == old(self).words@[word.glyphs@.len() as int]@.len(),
            final(self).words@[word.glyphs@.len() as int]@
                == old(self).words@[word.glyphs@.len() as int]@.push(word),
            forall|n: int|
                0 <= n < old(self).words@.len() && n != word.glyphs@.len() ==> #[trigger] final(self).words@[n] == old(self).words@[n],
            final(self).dupe_index.model() == old(self).dupe_index.model().with_word(
                (word.glyphs@.len() as usize, word_id),
                word.glyphs@,
            ),
    {
        let length: usize = word.glyphs.len();
        let word_id: WordId = self.words[length].len();
        let ghost id = (length, word_id);
        let ghost added = word;
        proof {
            assert(self.bucket_wf(length as int, self.words@[length as int]@));
            assert(!self.has_word(id));
            lemma_with_word_linked(self.dupe_index.model(), id, word.glyphs@);
        }
        let mut key: Vec<GlyphId> = Vec::new();
        let mut i: usize = 0;
        while i < length
            invariant
                length == word.glyphs@.len(),
                0 <= i <= length,
                key@ == word.glyphs@.take(i as int),
            decreases length - i,
        {
            key.push(word.glyphs[i]);
            i = i + 1;
            assert(key@ =~= word.glyphs@.take(i as int));
        }
        assert(key@ =~= word.glyphs@);
        self.dupe_index.add_word(word_id, &word);
        self.word_id_by_glyphs[length].insert(key);
        self.words[length].push(word);
        proof {
            let before = *old(self);
            let now = *self;
            assert forall|n: int| 0 <= n < now.words@.len() implies now.bucket_wf(
                n,
                #[trigger] now.words@[n]@,
            ) by {
                let bucket = before.words@[n]@;
                assert(before.bucket_wf(n, bucket));
                let grown = now.words@[n]@;
                assert forall|k: int| 0 <= k < grown.len() implies now.word_wf(
                    n,
                    #[trigger] grown[k],
                ) && now.word_id_by_glyphs@[n]@[k] == grown[k].glyphs@ by {
                    if k < bucket.len() {
                        assert(before.word_wf(n, bucket[k]));
                        assert(grown[k] == bucket[k]);
                    }
                    lemma_spelling_extends(before, now, grown[k].glyphs@);
                }
            }
            assert(now.words_wf());
            let model = before.dupe_index.model();
            if model.window > 0 {
                assert forall|other: GlobalWordId|
                    #![trigger now.dupe_index.model().substrings.contains_key(other)]
                    #![trigger now.has_word(other)]
                    now.dupe_index.model().substrings.contains_key(other) == now.has_word(other) by {
                    assert(model.substrings.contains_key(other) == before.has_word(other));
                    assert(other == id || now.has_word(other) == before.has_word(other));
                }
                assert forall|other: GlobalWordId| #[trigger] now.has_word(other) implies now.dupe_index.model().substrings[other]
                    == windows(
                    now.words@[other.0 as int]@[other.1 as int].glyphs@,
                    model.window,
                ) by {
                    if other != id {
                        assert(before.has_word(other));
                    }
                }
            }
        }
        word_id
    }

    /// Get the id of the word with the given text. If there is none, add one that is hidden, so that
    /// it is never offered as an option.
    pub fn get_word_id_or_add_hidden(&mut self, text: &str) -> (id: GlobalWordId)
        requires
            old(self).wf(),
        ensures
            final(self).wf(),
            final(self).extends(old(self)),
            final(self).has_word(id),
            id.0 == text@.len(),
            final(self).text(id) == text@,
            (forall|c: int| 0 <= c < text@.len() ==> old(self).glyphs@.contains(#[trigger] text@[c]))
                ==> final(self).glyphs@ == old(self).glyphs@,
            old(self).knows(text@) ==> final(self).same_words(old(self))
                && final(self).dupe_index.model() == old(self).dupe_index.model(),
            !old(self).knows(text@) ==> {
                &&& !old(self).has_word(id)
                &&& final(self).word(id).hidden
                &&& final(self).word(id).score == 0
                &&& final(self).word(id).letter_score == 0
                &&& final(self).adds_only(old(self), id)
                &&& final(self).dupe_index.model() == old(self).dupe_index.model().with_word(
                    id,
                    final(self).word(id).glyphs@,
                )
            },
    {
        let ghost before = *self;
        let glyphs: Vec<GlyphId> = self.add_glyphs(text);
        let length: usize = glyphs.len();
        proof {
            assert(self.spelling(glyphs@).len() == glyphs@.len());
        }
        let ghost spelled = *self;
        self.add_buckets(length);
        let ghost roomy = *self;
        proof {
            lemma_spelling_extends(spelled, roomy, glyphs@);
            roomy.lemma_knows(before, spelled, glyphs@);
        }
        if let Some(word_id) = self.find_glyphs(&glyphs) {
            proof {
                let id = (length, word_id);
                assert(roomy.has_word(id));
                assert(roomy.bucket_wf(length as int, roomy.words@[length as int]@));
                assert(roomy.text(id) == text@);
                assert(before.has_word(id));
                assert(before.text(id) == text@);
            }
            return (length, word_id);
        }
        let word = Word {
            normalized_string: text.to_owned(),
            glyphs,
            score: 0,
            letter_score: 0,
            hidden: true,
        };
        let word_id: WordId = self.push_word(word);
        (length, word_id)
    }

    /// Add a word with its scores. A word that is in the list already gets the new scores, and is no
    /// longer hidden.
    pub fn add_word(&mut self, text: &str, score: u16, letter_score: u16) -> (id: GlobalWordId)
        requires
            old(self).wf(),
        ensures
            final(self).wf(),
            final(self).extends(old(self)),
            final(self).has_word(id),
            id.0 == text@.len(),
            final(self).text(id) == text@,
            final(self).word(id).score == score,
            final(self).word(id).letter_score == letter_score,
            !final(self).word(id).hidden,
            old(self).has_word(id) == old(self).knows(text@),
            final(self).dupe_index.model() == if old(self).knows(text@) {
                old(self).dupe_index.model()
            } else {
                old(self).dupe_index.model().with_word(id, final(self).word(id).glyphs@)
            },
            (forall|c: int| 0 <= c < text@.len() ==> old(self).glyphs@.contains(#[trigger] text@[c]))
                ==> final(self).glyphs@ == old(self).glyphs@,
            forall|other: GlobalWordId|
                #![trigger final(self).has_word(other)]
                #![trigger old(self).has_word(other)]
                other != id ==> final(self).has_word(other) == old(self).has_word(other) && (
                old(self).has_word(other) ==> final(self).word(other) == old(self).word(other)),
    {
        let id: GlobalWordId = self.get_word_id_or_add_hidden(text);
        let ghost before = *self;
        let length: usize = id.0;
        let word_id: WordId = id.1;
        proof {
            if old(self).knows(text@) {
                assert(self.has_word(id) == old(self).has_word(id));
            }
        }
        self.words[length][word_id].score = score;
        self.words[length][word_id].letter_score = letter_score;
        self.words[length][word_id].hidden = false;
        proof {
            let now = *self;
            assert forall|n: int| 0 <= n < now.words@.len() implies now.bucket_wf(
                n,
                #[trigger] now.words@[n]@,
            ) by {
                let bucket = before.words@[n]@;
                let changed = now.words@[n]@;
                assert(before.bucket_wf(n, bucket));
                assert forall|k: int| 0 <= k < changed.len() implies now.word_wf(
                    n,
                    #[trigger] changed[k],
                ) && now.word_id_by_glyphs@[n]@[k] == changed[k].glyphs@ by {
                    assert(before.word_wf(n, bucket[k]));
                    assert(changed[k].glyphs == bucket[k].glyphs);
                    assert(changed[k].normalized_string == bucket[k].normalized_string);
                    lemma_spelling_extends(before, now, changed[k].glyphs@);
                }
            }
            assert forall|other: GlobalWordId| #[trigger] now.has_word(other) == before.has_word(
                other,
            ) && (before.has_word(other) ==> now.word(other).glyphs == before.word(other).glyphs) by {}
            assert forall|other: GlobalWordId|
                #![trigger now.has_word(other)]
                #![trigger old(self).has_word(other)]
                other != id implies now.has_word(other) == old(self).has_word(other) && (old(self).has_word(other) ==> now.word(other) == old(self).word(other)) by {
                assert(before.has_word(other) == old(self).has_word(other));
            }
        }
        id
    }

    /// A list without words, ready for words up to the given length. Words duplicate each other if
    /// they share `dupe_window` glyphs in a row; with a window of zero, only if they are recorded as
    /// a pair.
    pub fn new(max_length: usize, dupe_window: usize) -> (list: WordList)
        requires
            max_length < usize::MAX,
            supported_window(dupe_window),
        ensures
            list.wf(),
            list.words@.len() == max_length + 1,
            list.glyphs@.len() == 0,
            forall|id: GlobalWordId| !#[trigger] list.has_word(id),
            list.dupe_index.model() == DupeModel::empty(dupe_window as nat),
    {
        let mut list = empty_list(dupe_window);
        list.add_buckets(max_length);
        list
    }

    /// Does the list have no words at all?
    pub fn is_empty(&self) -> (result: bool)
        ensures
            result == forall|id: GlobalWordId| !#[trigger] self.has_word(id),
    {
        let mut length: usize = 0;
        while length < self.words.len()
            invariant
                0 <= length <= self.words@.len(),
                forall|n: int| 0 <= n < length ==> (#[trigger] self.words@[n])@.len() == 0,
            decreases self.words@.len() - length,
        {
            if self.words[length].len() > 0 {
                assert(self.has_word((length, 0)));
                return false;
            }
            length = length + 1;
        }
        true
    }
}

/// The word and the score that a line like "word;50" of a word list stands for.
pub open spec fn parsed_entry(line: Seq<char>) -> Option<(Seq<char>, nat)> {
    let parts = split(line, ';');
    if parts.len() != 2 || trimmed(parts[0]).len() == 0 {
        None
    } else {
        match parsed_number(trimmed(parts[1]), u16::MAX as nat) {
            Some(score) => Some((trimmed(parts[0]), score)),
            None => None,
        }
    }
}

/// Parse a line like "word;50" of a word list.
pub fn parse_entry(line: &str) -> (entry: Option<(String, u16)>)
    ensures
        match entry {
            Some((word, score)) => parsed_entry(line@) == Some((word@, score as nat)),
            None => parsed_entry(line@) is None,
        },
{
    let parts: Vec<Vec<char>> = split_chars(&chars_of(line), ';');
    if parts.len() != 2 {
        return None;
    }
    let word: Vec<char> = trim_chars(&parts[0]);
    if word.len() == 0 {
        return None;
    }
    match parse_usize(&trim_chars(&parts[1])) {
        Some(score) => {
            if score <= u16::MAX as usize {
                Some((text_of(word.as_slice()), score as u16))
            } else {
                None
            }
        },
        None => None,
    }
}

/// The window sizes that are available.
pub open spec fn supported_window(dupe_window: usize) -> bool {
    dupe_window == 0 || 3 <= dupe_window <= 11
}

/// A list without words.
fn empty_list(dupe_window: usize) -> (list: WordList)
    requires
        supported_window(dupe_window),
    ensures
        list.wf(),
        list.words@.len() == 0,
        list.glyphs@.len() == 0,
        list.dupe_index.model() == DupeModel::empty(dupe_window as nat),
{
    if dupe_window == 0 {
        list_with_index(DupeIndex::<0>::default())
    } else if dupe_window == 3 {
        list_with_index(DupeIndex::<3>::default())
    } else if dupe_window == 4 {
        list_with_index(DupeIndex::<4>::default())
    } else if dupe_window == 5 {
        list_with_index(DupeIndex::<5>::default())
    } else if dupe_window == 6 {
        list_with_index(DupeIndex::<6>::default())
    } else if dupe_window == 7 {
        list_with_index(DupeIndex::<7>::default())
    } else if dupe_window == 8 {
        list_with_index(DupeIndex::<8>::default())
    } else if dupe_window == 9 {
        list_with_index(DupeIndex::<9>::default())
    } else if dupe_window == 10 {
        list_with_index(DupeIndex::<10>::default())
    } else {
        list_with_index(DupeIndex::<11>::default())
    }
}

/// A list without words that uses the given index.
fn list_with_index<const WINDOW_SIZE: usize>(index: DupeIndex<WINDOW_SIZE>) -> (list: WordList)
    requires
        index.wf(),
        index.model() == DupeModel::empty(WINDOW_SIZE as nat),
    ensures
        list.wf(),
        list.words@.len() == 0,
        list.glyphs@.len() == 0,
        list.dupe_index.model() == DupeModel::empty(WINDOW_SIZE as nat),
{
    WordList {
        glyphs: Vec::new(),
        glyph_id_by_char: HashMap::new(),
        words: Vec::new(),
        word_id_by_glyphs: Vec::new(),
        dupe_index: Box::new(index),
    }
}

} // verus!

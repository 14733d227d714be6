//! Which words may not appear in the same grid because they overlap.

use crate::sequence_index::SequenceIndex;
use crate::types::{GlobalWordId, GlyphId, WordId};
use crate::word_list::Word;
use std::collections::{HashMap, HashSet};
use vstd::prelude::*;
use vstd::slice::{slice_subrange, slice_to_vec};

verus! {

broadcast use vstd::std_specs::hash::group_hash_axioms;

/// A `GlobalWordId` packed into one integer: the length in the high half, the id in the low half.
pub type WordKey = u128;

/// The packed form of a global word id.
pub open spec fn word_key(id: GlobalWordId) -> WordKey {
    (id.0 as int * 0x1_0000_0000_0000_0000 + id.1 as int) as u128
}

/// Pack a global word id.
pub fn pack_word_id(id: GlobalWordId) -> (key: WordKey)
    ensures
        key == word_key(id),
{
    id.0 as u128 * 0x1_0000_0000_0000_0000u128 + id.1 as u128
}

/// No two ids have the same packed form.
pub proof fn lemma_word_key_injective(left: GlobalWordId, right: GlobalWordId)
    requires
        word_key(left) == word_key(right),
    ensures
        left == right,
{
}

/// The substrings of the given length, from left to right.
pub open spec fn windows(glyphs: Seq<GlyphId>, size: nat) -> Seq<Seq<GlyphId>> {
    if size == 0 || glyphs.len() < size {
        Seq::empty()
    } else {
        Seq::new((glyphs.len() - size + 1) as nat, |i: int| glyphs.subrange(i, i + size))
    }
}

/// The contents of a map of extra pairs, by id.
pub open spec fn extra_pairs(map: Map<WordKey, Vec<GlobalWordId>>) -> Map<
    GlobalWordId,
    Seq<GlobalWordId>,
> {
    Map::new(
        |id: GlobalWordId| map.contains_key(word_key(id)),
        |id: GlobalWordId| map[word_key(id)]@,
    )
}

/// A list of ids without the occurrences of one id.
pub open spec fn without_id(ids: Seq<GlobalWordId>, unwanted: GlobalWordId) -> Seq<GlobalWordId> {
    ids.filter(other_than(unwanted))
}

/// The ids that differ from one.
pub open spec fn other_than(unwanted: GlobalWordId) -> spec_fn(GlobalWordId) -> bool {
    |id: GlobalWordId| id != unwanted
}

/// What a `DupeIndex` records.
#[verifier::ext_equal]
pub struct DupeModel {
    /// The number of sequential glyphs that have to be shared to count as a dupe.
    pub window: nat,
    /// The words recorded under each substring, once for each occurrence.
    pub groups: Map<Seq<GlyphId>, Seq<GlobalWordId>>,
    /// The substrings of each recorded word, from left to right.
    pub substrings: Map<GlobalWordId, Seq<Seq<GlyphId>>>,
    /// The pairwise dupe relationships that aren't based on substrings.
    pub extra: Map<GlobalWordId, Seq<GlobalWordId>>,
}

impl DupeModel {
    /// An index that records nothing.
    pub open spec fn empty(window: nat) -> DupeModel {
        DupeModel {
            window,
            groups: Map::empty(),
            substrings: Map::empty(),
            extra: Map::empty(),
        }
    }

    /// The words recorded under a substring.
    pub open spec fn group(self, substring: Seq<GlyphId>) -> Seq<GlobalWordId> {
        if self.groups.contains_key(substring) {
            self.groups[substring]
        } else {
            Seq::empty()
        }
    }

    /// The groups after recording `id` under each of the given substrings in turn.
    pub open spec fn with_windows(
        groups: Map<Seq<GlyphId>, Seq<GlobalWordId>>,
        id: GlobalWordId,
        substrings: Seq<Seq<GlyphId>>,
    ) -> Map<Seq<GlyphId>, Seq<GlobalWordId>>
        decreases substrings.len(),
    {
        if substrings.len() == 0 {
            groups
        } else {
            let earlier = Self::with_windows(groups, id, substrings.drop_last());
            let last = substrings.last();
            earlier.insert(
                last,
                if earlier.contains_key(last) {
                    earlier[last].push(id)
                } else {
                    seq![id]
                },
            )
        }
    }

    /// The index after recording the word `id` with the given glyphs. Without a window only extra
    /// dupes are recorded.
    pub open spec fn with_word(self, id: GlobalWordId, glyphs: Seq<GlyphId>) -> DupeModel {
        if self.window == 0 {
            self
        } else {
            DupeModel {
                window: self.window,
                groups: Self::with_windows(self.groups, id, windows(glyphs, self.window)),
                substrings: self.substrings.insert(id, windows(glyphs, self.window)),
                extra: self.extra,
            }
        }
    }

    /// The extra pairs after recording that `to` duplicates `from`.
    pub open spec fn add_link(
        pairs: Map<GlobalWordId, Seq<GlobalWordId>>,
        from: GlobalWordId,
        to: GlobalWordId,
    ) -> Map<GlobalWordId, Seq<GlobalWordId>> {
        if !pairs.contains_key(from) {
            pairs.insert(from, seq![to])
        } else if pairs[from].contains(to) {
            pairs
        } else {
            pairs.insert(from, pairs[from].push(to))
        }
    }

    /// The extra pairs after forgetting that `to` duplicates `from`.
    pub open spec fn remove_link(
        pairs: Map<GlobalWordId, Seq<GlobalWordId>>,
        from: GlobalWordId,
        to: GlobalWordId,
    ) -> Map<GlobalWordId, Seq<GlobalWordId>> {
        if pairs.contains_key(from) {
            pairs.insert(from, without_id(pairs[from], to))
        } else {
            pairs
        }
    }

    /// The index with other extra pairs.
    pub open spec fn with_extra(self, extra: Map<GlobalWordId, Seq<GlobalWordId>>) -> DupeModel {
        DupeModel { extra, ..self }
    }

    /// The index after recording that two words duplicate each other.
    pub open spec fn with_pair(self, left: GlobalWordId, right: GlobalWordId) -> DupeModel {
        self.with_extra(Self::add_link(Self::add_link(self.extra, left, right), right, left))
    }

    /// The index after forgetting that two words duplicate each other.
    pub open spec fn without_pair(self, left: GlobalWordId, right: GlobalWordId) -> DupeModel {
        self.with_extra(Self::remove_link(Self::remove_link(self.extra, left, right), right, left))
    }

    /// The words `left` and `right` have a recorded substring in common.
    pub open spec fn share_window(self, left: GlobalWordId, right: GlobalWordId) -> bool {
        &&& self.substrings.contains_key(left)
        &&& exists|k: int|
            0 <= k < self.substrings[left].len() && self.group(
                #[trigger] self.substrings[left][k],
            ).contains(right)
    }

    /// The words `left` and `right` are an extra pair.
    pub open spec fn paired(self, left: GlobalWordId, right: GlobalWordId) -> bool {
        self.extra.contains_key(left) && self.extra[left].contains(right)
    }

    /// The groups list a word under a substring exactly when the word has that substring.
    pub open spec fn linked(self) -> bool {
        forall|substring: Seq<GlyphId>, id: GlobalWordId|
            #![trigger self.group(substring).contains(id)]
            self.group(substring).contains(id) == (self.substrings.contains_key(id)
                && self.substrings[id].contains(substring))
    }

    /// The extra pairs go both ways.
    pub open spec fn pairs_symmetric(self) -> bool {
        forall|left: GlobalWordId, right: GlobalWordId|
            #![trigger self.paired(left, right)]
            self.paired(left, right) == self.paired(right, left)
    }

    /// The word `right` duplicates the word `left`. All words duplicate themselves.
    pub open spec fn dupes(self, left: GlobalWordId, right: GlobalWordId) -> bool {
        left == right || self.share_window(left, right) || self.paired(left, right)
    }
}

/// Being a dupe goes both ways.
pub proof fn lemma_dupes_symmetric(model: DupeModel, left: GlobalWordId, right: GlobalWordId)
    requires
        model.linked(),
        model.pairs_symmetric(),
    ensures
        model.dupes(left, right) == model.dupes(right, left),
{
    if model.share_window(left, right) {
        lemma_share_window_symmetric(model, left, right);
    }
    if model.share_window(right, left) {
        lemma_share_window_symmetric(model, right, left);
    }
    assert(model.paired(left, right) == model.paired(right, left));
}

/// A common substring is common to both words.
proof fn lemma_share_window_symmetric(model: DupeModel, left: GlobalWordId, right: GlobalWordId)
    requires
        model.linked(),
        model.share_window(left, right),
    ensures
        model.share_window(right, left),
{
    let k = choose|k: int|
        0 <= k < model.substrings[left].len() && model.group(
            #[trigger] model.substrings[left][k],
        ).contains(right);
    let substring = model.substrings[left][k];
    assert(model.group(substring).contains(right));
    assert(model.substrings[right].contains(substring));
    let m = model.substrings[right].index_of(substring);
    assert(model.substrings[left].contains(substring));
    assert(model.group(substring).contains(left));
    assert(model.group(model.substrings[right][m]).contains(left));
}

/// Which words are in which groups after recording a word under substrings.
proof fn lemma_with_windows(
    groups: Map<Seq<GlyphId>, Seq<GlobalWordId>>,
    id: GlobalWordId,
    substrings: Seq<Seq<GlyphId>>,
    substring: Seq<GlyphId>,
    other: GlobalWordId,
)
    ensures
        ({
            let after = DupeModel::with_windows(groups, id, substrings);
            (after.contains_key(substring) && after[substring].contains(other)) == ((
            groups.contains_key(substring) && groups[substring].contains(other)) || (other == id
                && substrings.contains(substring)))
        }),
    decreases substrings.len(),
{
    if substrings.len() > 0 {
        let front = substrings.drop_last();
        let last = substrings.last();
        lemma_with_windows(groups, id, front, substring, other);
        let earlier = DupeModel::with_windows(groups, id, front);
        let after = DupeModel::with_windows(groups, id, substrings);
        assert(substrings.contains(substring) == (front.contains(substring) || substring == last)) by {
            assert(substrings[substrings.len() - 1] == last);
            if front.contains(substring) {
                assert(substrings[front.index_of(substring)] == substring);
            }
            if substrings.contains(substring) && substring != last {
                assert(front[substrings.index_of(substring)] == substring);
            }
        }
        if substring == last {
            if earlier.contains_key(last) {
                let group = earlier[last];
                assert(group.push(id)[group.len() as int] == id);
                if group.contains(other) {
                    assert(group.push(id)[group.index_of(other)] == other);
                }
                if group.push(id).contains(other) && other != id {
                    assert(group[group.push(id).index_of(other)] == other);
                }
            } else {
                assert(seq![id][0] == id);
            }
        }
    }
}

/// Recording a new word keeps the groups and the substrings of words in line.
pub proof fn lemma_with_word_linked(model: DupeModel, id: GlobalWordId, glyphs: Seq<GlyphId>)
    requires
        model.linked(),
        model.window > 0 ==> !model.substrings.contains_key(id),
    ensures
        model.with_word(id, glyphs).linked(),
        model.pairs_symmetric() ==> model.with_word(id, glyphs).pairs_symmetric(),
{
    let after = model.with_word(id, glyphs);
    if model.window > 0 {
        assert forall|substring: Seq<GlyphId>, other: GlobalWordId|
            #![trigger after.group(substring).contains(other)]
            after.group(substring).contains(other) == (after.substrings.contains_key(other)
                && after.substrings[other].contains(substring)) by {
            lemma_with_windows(
                model.groups,
                id,
                windows(glyphs, model.window),
                substring,
                other,
            );
            assert(model.group(substring).contains(other) == (model.substrings.contains_key(other)
                && model.substrings[other].contains(substring)));
        }
    }
    if model.pairs_symmetric() {
        assert forall|left: GlobalWordId, right: GlobalWordId|
            #![trigger after.paired(left, right)]
            after.paired(left, right) == after.paired(right, left) by {
            assert(model.paired(left, right) == model.paired(right, left));
        }
    }
}

/// Which words are paired after recording that one duplicates another.
proof fn lemma_add_link(
    pairs: Map<GlobalWordId, Seq<GlobalWordId>>,
    from: GlobalWordId,
    to: GlobalWordId,
    left: GlobalWordId,
    right: GlobalWordId,
)
    ensures
        ({
            let after = DupeModel::add_link(pairs, from, to);
            (after.contains_key(left) && after[left].contains(right)) == ((pairs.contains_key(left)
                && pairs[left].contains(right)) || (left == from && right == to))
        }),
{
    assert(seq![to][0] == to);
    if pairs.contains_key(from) {
        let linked = pairs[from];
        assert(linked.push(to)[linked.len() as int] == to);
        if linked.contains(right) {
            assert(linked.push(to)[linked.index_of(right)] == right);
        }
        if linked.push(to).contains(right) && right != to {
            assert(linked[linked.push(to).index_of(right)] == right);
        }
    }
}

/// Which words are paired after forgetting that one duplicates another.
proof fn lemma_remove_link(
    pairs: Map<GlobalWordId, Seq<GlobalWordId>>,
    from: GlobalWordId,
    to: GlobalWordId,
    left: GlobalWordId,
    right: GlobalWordId,
)
    ensures
        ({
            let after = DupeModel::remove_link(pairs, from, to);
            (after.contains_key(left) && after[left].contains(right)) == ((pairs.contains_key(left)
                && pairs[left].contains(right)) && !(left == from && right == to))
        }),
{
    if pairs.contains_key(from) {
        let linked = pairs[from];
        let wanted = other_than(to);
        if linked.contains(right) && right != to {
            linked.filter_lemma(wanted);
            let at = linked.index_of(right);
            assert(wanted(linked[at]));
            assert(linked.filter(wanted).contains(linked[at]));
        }
        if linked.filter(wanted).contains(right) {
            linked.filter_lemma(wanted);
            let at = linked.filter(wanted).index_of(right);
            assert(wanted(linked.filter(wanted)[at]));
            linked.lemma_filter_contains_rev(wanted, right);
        }
    }
}

/// Recording a pair makes the two words dupes of each other, changes no other pair, and leaves the
/// pairs going both ways.
pub proof fn lemma_with_pair(model: DupeModel, left: GlobalWordId, right: GlobalWordId)
    ensures
        model.with_pair(left, right).dupes(left, right),
        model.with_pair(left, right).dupes(right, left),
        forall|a: GlobalWordId, b: GlobalWordId|
            #![trigger model.with_pair(left, right).paired(a, b)]
            model.with_pair(left, right).paired(a, b) == (model.paired(a, b) || (a == left && b
                == right) || (a == right && b == left)),
        model.pairs_symmetric() ==> model.with_pair(left, right).pairs_symmetric(),
        model.linked() ==> model.with_pair(left, right).linked(),
{
    let after = model.with_pair(left, right);
    let first = DupeModel::add_link(model.extra, left, right);
    assert forall|a: GlobalWordId, b: GlobalWordId|
        #![trigger after.paired(a, b)]
        after.paired(a, b) == (model.paired(a, b) || (a == left && b == right) || (a == right && b
            == left)) by {
        lemma_add_link(model.extra, left, right, a, b);
        lemma_add_link(first, right, left, a, b);
    }
    assert(after.paired(left, right) && after.paired(right, left));
    lemma_same_groups(model, after);
    if model.pairs_symmetric() {
        assert forall|a: GlobalWordId, b: GlobalWordId|
            #![trigger after.paired(a, b)]
            after.paired(a, b) == after.paired(b, a) by {
            assert(model.paired(a, b) == model.paired(b, a));
        }
    }
}

/// Forgetting a pair leaves the two words dupes only if they have a substring in common, changes no
/// other pair, and leaves the pairs going both ways.
pub proof fn lemma_without_pair(model: DupeModel, left: GlobalWordId, right: GlobalWordId)
    ensures
        left != right ==> model.without_pair(left, right).dupes(left, right) == model.share_window(
            left,
            right,
        ),
        forall|a: GlobalWordId, b: GlobalWordId|
            #![trigger model.without_pair(left, right).paired(a, b)]
            model.without_pair(left, right).paired(a, b) == (model.paired(a, b) && !((a == left
                && b == right) || (a == right && b == left))),
        model.pairs_symmetric() ==> model.without_pair(left, right).pairs_symmetric(),
        model.linked() ==> model.without_pair(left, right).linked(),
{
    let after = model.without_pair(left, right);
    let first = DupeModel::remove_link(model.extra, left, right);
    assert forall|a: GlobalWordId, b: GlobalWordId|
        #![trigger after.paired(a, b)]
        after.paired(a, b) == (model.paired(a, b) && !((a == left && b == right) || (a == right && b
            == left))) by {
        lemma_remove_link(model.extra, left, right, a, b);
        lemma_remove_link(first, right, left, a, b);
    }
    assert(!after.paired(left, right));
    lemma_same_groups(model, after);
    assert(after.share_window(left, right) == model.share_window(left, right)) by {
        if model.share_window(left, right) {
            let k = choose|k: int|
                0 <= k < model.substrings[left].len() && model.group(
                    #[trigger] model.substrings[left][k],
                ).contains(right);
            assert(after.group(after.substrings[left][k]).contains(right));
        }
        if after.share_window(left, right) {
            let k = choose|k: int|
                0 <= k < after.substrings[left].len() && after.group(
                    #[trigger] after.substrings[left][k],
                ).contains(right);
            assert(model.group(model.substrings[left][k]).contains(right));
        }
    }
    if model.pairs_symmetric() {
        assert forall|a: GlobalWordId, b: GlobalWordId|
            #![trigger after.paired(a, b)]
            after.paired(a, b) == after.paired(b, a) by {
            assert(model.paired(a, b) == model.paired(b, a));
        }
    }
}

/// Whether the groups are in line doesn't depend on the extra pairs.
proof fn lemma_same_groups(model: DupeModel, other: DupeModel)
    requires
        other == model.with_extra(other.extra),
    ensures
        model.linked() ==> other.linked(),
{
    if model.linked() {
        assert forall|substring: Seq<GlyphId>, id: GlobalWordId|
            #![trigger other.group(substring).contains(id)]
            other.group(substring).contains(id) == (other.substrings.contains_key(id)
                && other.substrings[id].contains(substring)) by {
            assert(model.group(substring).contains(id) == (model.substrings.contains_key(id)
                && model.substrings[id].contains(substring)));
        }
    }
}

/// Putting back the extra pairs that were taken out restores the index.
pub proof fn lemma_extra_round_trip(model: DupeModel)
    ensures
        model.with_extra(Map::empty()).with_extra(model.extra) == model,
{
}

/// Two words that are both recorded with their substrings duplicate each other exactly when they
/// are the same, have a substring of the window's length in common, or are an extra pair.
pub proof fn lemma_dupes_meaning(
    model: DupeModel,
    left: GlobalWordId,
    left_glyphs: Seq<GlyphId>,
    right: GlobalWordId,
    right_glyphs: Seq<GlyphId>,
)
    requires
        model.linked(),
        model.substrings.contains_key(left),
        model.substrings[left] == windows(left_glyphs, model.window),
        model.substrings.contains_key(right),
        model.substrings[right] == windows(right_glyphs, model.window),
    ensures
        model.dupes(left, right) == (left == right || model.paired(left, right)
            || have_common_substring(left_glyphs, right_glyphs, model.window)),
{
    if model.share_window(left, right) {
        let k = choose|k: int|
            0 <= k < model.substrings[left].len() && model.group(
                #[trigger] model.substrings[left][k],
            ).contains(right);
        let substring = model.substrings[left][k];
        assert(model.group(substring).contains(right));
        let m = model.substrings[right].index_of(substring);
        assert(left_glyphs.subrange(k, k + model.window) == right_glyphs.subrange(
            m,
            m + model.window,
        ));
    }
    if have_common_substring(left_glyphs, right_glyphs, model.window) {
        let (i, j) = choose|i: int, j: int|
            #![trigger left_glyphs.subrange(i, i + model.window), right_glyphs.subrange(
                j,
                j + model.window,
            )]
            0 <= i <= left_glyphs.len() - model.window && 0 <= j <= right_glyphs.len()
                - model.window && left_glyphs.subrange(i, i + model.window)
                == right_glyphs.subrange(j, j + model.window);
        let substring = model.substrings[left][i];
        assert(model.substrings[right][j] == substring);
        assert(model.substrings[right].contains(substring));
        assert(model.group(substring).contains(right));
    }
}

/// The words have a substring of the given length in common.
pub open spec fn have_common_substring(
    left: Seq<GlyphId>,
    right: Seq<GlyphId>,
    size: nat,
) -> bool {
    size > 0 && exists|i: int, j: int|
        #![trigger left.subrange(i, i + size), right.subrange(j, j + size)]
        0 <= i <= left.len() - size && 0 <= j <= right.len() - size && left.subrange(i, i + size)
            == right.subrange(j, j + size)
}

/// Interface representing a `DupeIndex` with any window size.
pub trait AnyDupeIndex {
    /// The internal tables fit together.
    spec fn wf(&self) -> bool;

    /// What the index records.
    spec fn model(&self) -> DupeModel;

    /// Accessor for the index's window size (the number of sequential characters that have to be
    /// shared to count as a dupe).
    fn window_size(&self) -> (size: usize)
        ensures
            size == self.model().window,
    ;

    /// Record a word in the index, adding it to the groups representing each of its substrings of
    /// the window's length.
    fn add_word(&mut self, word_id: WordId, word: &Word)
        requires
            old(self).wf(),
        ensures
            final(self).wf(),
            final(self).model() == old(self).model().with_word(
                (word.glyphs@.len() as usize, word_id),
                word.glyphs@,
            ),
    ;

    /// Record that two arbitrary words should be considered duplicates of each other.
    fn add_dupe_pair(&mut self, global_word_id_1: GlobalWordId, global_word_id_2: GlobalWordId)
        requires
            old(self).wf(),
        ensures
            final(self).wf(),
            final(self).model() == old(self).model().with_pair(global_word_id_1, global_word_id_2),
    ;

    /// Remove a word pair from the extra dupes index (note that they will still be considered dupes
    /// if they have a long enough overlapping substring, etc.).
    fn remove_dupe_pair(&mut self, global_word_id_1: GlobalWordId, global_word_id_2: GlobalWordId)
        requires
            old(self).wf(),
        ensures
            final(self).wf(),
            final(self).model() == old(self).model().without_pair(
                global_word_id_1,
                global_word_id_2,
            ),
    ;

    /// For a given word, get a map containing all words that duplicate it, indexed by their length.
    fn get_dupes_by_length(&self, global_word_id: GlobalWordId) -> (dupes: HashMap<
        usize,
        HashSet<WordId>,
    >)
        requires
            self.wf(),
        ensures
            lists_dupes(dupes@, self.model(), global_word_id),
    ;

    /// Move the extra dupe pairs out, to facilitate replacing the word list.
    fn take_extra_dupes(&mut self) -> (extra_dupes: HashMap<WordKey, Vec<GlobalWordId>>)
        requires
            old(self).wf(),
        ensures
            final(self).wf(),
            final(self).model() == old(self).model().with_extra(Map::empty()),
            extra_pairs(extra_dupes@) == old(self).model().extra,
    ;

    /// Move extra dupe pairs in, replacing those that are there.
    fn put_extra_dupes(&mut self, extra_dupes: HashMap<WordKey, Vec<GlobalWordId>>)
        requires
            old(self).wf(),
        ensures
            final(self).wf(),
            final(self).model() == old(self).model().with_extra(extra_pairs(extra_dupes@)),
    ;
}

/// The map lists the word `id` under its length.
pub open spec fn listed(dupes: Map<usize, HashSet<WordId>>, id: GlobalWordId) -> bool {
    dupes.contains_key(id.0) && dupes[id.0]@.contains(id.1)
}

/// Every length in the map has a word.
pub open spec fn no_empty_length(dupes: Map<usize, HashSet<WordId>>) -> bool {
    forall|length: usize| #[trigger]
        dupes.contains_key(length) ==> exists|word_id: WordId| dupes[length]@.contains(word_id)
}

/// The map holds exactly the words that duplicate `id`, each under its length.
pub open spec fn lists_dupes(
    dupes: Map<usize, HashSet<WordId>>,
    model: DupeModel,
    id: GlobalWordId,
) -> bool {
    &&& forall|other: GlobalWordId|
        #![trigger listed(dupes, other)]
        #![trigger model.dupes(id, other)]
        listed(dupes, other) == model.dupes(id, other)
    &&& no_empty_length(dupes)
}

/// An index over words of any kind, chosen when the word list is built.
pub type BoxedDupeIndex = Box<dyn AnyDupeIndex>;

/// A struct used to track which words in the list share N-letter substrings, so that we can
/// efficiently enforce rules against choosing overlapping words. This is generic over the window
/// size.
#[derive(Debug, Clone)]
pub struct DupeIndex<const WINDOW_SIZE: usize> {
    /// An array of groups of words that share a given substring.
    pub groups: Vec<Vec<GlobalWordId>>,
    /// A map of extra pairwise dupe relationships that aren't based on substrings.
    pub extra_dupes_by_word: HashMap<WordKey, Vec<GlobalWordId>>,
    /// For a given word, an array of group ids (indices of `groups`) that it belongs to.
    pub group_keys_by_word: HashMap<WordKey, Vec<usize>>,
    /// For a given substring, the index in `groups` that represents words containing it.
    pub group_key_by_substring: SequenceIndex,
}

impl<const WINDOW_SIZE: usize> Default for DupeIndex<WINDOW_SIZE> {
    /// Build an empty `DupeIndex`.
    fn default() -> (result: Self)
        ensures
            result.wf(),
            result.model() == DupeModel::empty(WINDOW_SIZE as nat),
    {
        let result = DupeIndex {
            groups: Vec::new(),
            extra_dupes_by_word: HashMap::new(),
            group_keys_by_word: HashMap::new(),
            group_key_by_substring: SequenceIndex::new(),
        };
        assert(result.model() =~= DupeModel::empty(WINDOW_SIZE as nat));
        result
    }
}

impl<const WINDOW_SIZE: usize> DupeIndex<WINDOW_SIZE> {
    /// The groups by substring.
    pub open spec fn groups_by_substring(&self) -> Map<Seq<GlyphId>, Seq<GlobalWordId>> {
        Map::new(
            |s: Seq<GlyphId>| self.group_key_by_substring@.contains(s),
            |s: Seq<GlyphId>| self.groups@[self.group_key_by_substring@.index_of(s)]@,
        )
    }

    /// The substrings that a list of group ids stands for.
    pub open spec fn substrings_of(&self, keys: Seq<usize>) -> Seq<Seq<GlyphId>> {
        Seq::new(keys.len(), |k: int| self.group_key_by_substring@[keys[k] as int])
    }

    /// The tables of groups fit together.
    pub open spec fn groups_wf(&self) -> bool {
        &&& self.group_key_by_substring.wf()
        &&& self.groups@.len() == self.group_key_by_substring@.len()
    }

    /// Record a word under one substring and return the group's id.
    fn add_to_group(&mut self, id: GlobalWordId, substring: &[GlyphId]) -> (key: usize)
        requires
            old(self).groups_wf(),
        ensures
            final(self).groups_wf(),
            key < final(self).groups@.len(),
            final(self).group_key_by_substring@[key as int] == substring@,
            old(self).group_key_by_substring@.is_prefix_of(final(self).group_key_by_substring@),
            final(self).extra_dupes_by_word == old(self).extra_dupes_by_word,
            final(self).group_keys_by_word == old(self).group_keys_by_word,
            final(self).groups_by_substring() == DupeModel::with_windows(
                old(self).groups_by_substring(),
                id,
                seq![substring@],
            ),
    {
        let ghost before = self.groups_by_substring();
        let ghost expected = DupeModel::with_windows(before, id, seq![substring@]);
        proof {
            assert(seq![substring@].drop_last() =~= Seq::empty());
            reveal_with_fuel(DupeModel::with_windows, 2);
        }
        match self.group_key_by_substring.find(substring) {
            Some(key) => {
                self.groups[key].push(id);
                proof {
                    let names = self.group_key_by_substring@;
                    assert(names.contains(substring@));
                    assert(names.index_of(substring@) == key);
                    assert forall|s: Seq<GlyphId>| names.contains(s) implies #[trigger] self.groups_by_substring()[s]
                        == expected[s] by {
                        let at = names.index_of(s);
                        assert(names[at] == s);
                    }
                    assert(self.groups_by_substring() =~= expected);
                }
                key
            },
            None => {
                let mut group: Vec<GlobalWordId> = Vec::new();
                group.push(id);
                self.groups.push(group);
                let ghost names = self.group_key_by_substring@;
                let key: usize = self.group_key_by_substring.insert(slice_to_vec(substring));
                proof {
                    let grown = self.group_key_by_substring@;
                    assert(grown[key as int] == substring@);
                    assert forall|s: Seq<GlyphId>| grown.contains(s) implies names.contains(s) || s
                        == substring@ by {
                        let at = grown.index_of(s);
                        assert(grown[at] == s);
                        if at < names.len() {
                            assert(names[at] == s);
                        }
                    }
                    assert forall|s: Seq<GlyphId>| names.contains(s) implies grown.contains(s) by {
                        assert(grown[names.index_of(s)] == s);
                    }
                    assert forall|s: Seq<GlyphId>| grown.contains(s) implies #[trigger] self.groups_by_substring()[s]
                        == expected[s] by {
                        let at = grown.index_of(s);
                        assert(grown[at] == s);
                        if names.contains(s) {
                            let was = names.index_of(s);
                            assert(grown[was] == s);
                            assert(was == at);
                        }
                    }
                    assert(group@ =~= seq![id]);
                    assert(self.groups_by_substring() =~= expected);
                }
                key
            },
        }
    }
}

/// Record a word in a map of dupes by length.
fn record_dupe(dupes: &mut HashMap<usize, HashSet<WordId>>, id: GlobalWordId)
    requires
        no_empty_length(old(dupes)@),
    ensures
        no_empty_length(final(dupes)@),
        forall|other: GlobalWordId| #[trigger]
            listed(final(dupes)@, other) == (other == id || listed(old(dupes)@, other)),
{
    let mut words: HashSet<WordId> = match dupes.remove(&id.0) {
        Some(words) => words,
        None => HashSet::new(),
    };
    words.insert(id.1);
    dupes.insert(id.0, words);
    proof {
        assert(dupes@[id.0]@.contains(id.1));
        assert forall|length: usize| #[trigger] dupes@.contains_key(length) implies exists|
            word_id: WordId,
        | dupes@[length]@.contains(word_id) by {
            if length != id.0 {
                assert(old(dupes)@.contains_key(length));
                assert(dupes@[length] == old(dupes)@[length]);
            }
        }
    }
}

/// Record every word of a list in a map of dupes by length.
fn record_dupes(dupes: &mut HashMap<usize, HashSet<WordId>>, ids: &Vec<GlobalWordId>)
    requires
        no_empty_length(old(dupes)@),
    ensures
        no_empty_length(final(dupes)@),
        forall|other: GlobalWordId| #[trigger]
            listed(final(dupes)@, other) == (ids@.contains(other) || listed(old(dupes)@, other)),
{
    let mut i: usize = 0;
    while i < ids.len()
        invariant
            0 <= i <= ids@.len(),
            no_empty_length(dupes@),
            forall|other: GlobalWordId| #[trigger]
                listed(dupes@, other) == (ids@.take(i as int).contains(other) || listed(
                    old(dupes)@,
                    other,
                )),
        decreases ids@.len() - i,
    {
        let ghost before = dupes@;
        record_dupe(dupes, ids[i]);
        proof {
            let shorter = ids@.take(i as int);
            let longer = ids@.take(i + 1);
            assert(longer =~= shorter.push(ids@[i as int]));
            assert forall|other: GlobalWordId| #[trigger]
                listed(dupes@, other) == (longer.contains(other) || listed(old(dupes)@, other)) by {
                assert(listed(before, other) == (shorter.contains(other) || listed(
                    old(dupes)@,
                    other,
                )));
                if shorter.contains(other) {
                    assert(longer[shorter.index_of(other)] == other);
                }
                assert(longer[i as int] == ids@[i as int]);
            }
        }
        i = i + 1;
    }
    assert(ids@.take(i as int) =~= ids@);
}

/// Drop every occurrence of an id from a list.
fn drop_id(ids: &mut Vec<GlobalWordId>, unwanted: GlobalWordId)
    ensures
        final(ids)@ == without_id(old(ids)@, unwanted),
{
    let mut kept: Vec<GlobalWordId> = Vec::new();
    let mut i: usize = 0;
    while i < ids.len()
        invariant
            0 <= i <= ids@.len(),
            ids@ == old(ids)@,
            kept@ == without_id(ids@.take(i as int), unwanted),
        decreases ids@.len() - i,
    {
        proof {
            reveal(Seq::filter);
            assert(ids@.take(i + 1).drop_last() =~= ids@.take(i as int));
        }
        if ids[i].0 != unwanted.0 || ids[i].1 != unwanted.1 {
            kept.push(ids[i]);
        }
        i = i + 1;
    }
    assert(ids@.take(i as int) =~= ids@);
    *ids = kept;
}

/// Does a list contain an id?
fn has_id(ids: &Vec<GlobalWordId>, wanted: GlobalWordId) -> (result: bool)
    ensures
        result == ids@.contains(wanted),
{
    let mut i: usize = 0;
    while i < ids.len()
        invariant
            0 <= i <= ids@.len(),
            forall|k: int| 0 <= k < i ==> ids@[k] != wanted,
        decreases ids@.len() - i,
    {
        if ids[i].0 == wanted.0 && ids[i].1 == wanted.1 {
            assert(ids@[i as int] == wanted);
            return true;
        }
        i = i + 1;
    }
    false
}

/// Record that `to` duplicates `from` in a map of extra pairs.
fn add_link(pairs: &mut HashMap<WordKey, Vec<GlobalWordId>>, from: GlobalWordId, to: GlobalWordId)
    ensures
        extra_pairs(final(pairs)@) == DupeModel::add_link(extra_pairs(old(pairs)@), from, to),
{
    let key: WordKey = pack_word_id(from);
    let ghost before = extra_pairs(pairs@);
    let mut ids: Vec<GlobalWordId> = match pairs.remove(&key) {
        Some(ids) => ids,
        None => Vec::new(),
    };
    let ghost listed = ids@;
    if !has_id(&ids, to) {
        ids.push(to);
    }
    pairs.insert(key, ids);
    proof {
        let after = extra_pairs(pairs@);
        let expected = DupeModel::add_link(before, from, to);
        if !before.contains_key(from) {
            assert(listed =~= Seq::empty());
            assert(ids@ =~= seq![to]);
        }
        assert forall|id: GlobalWordId| id != from implies word_key(id) != key by {
            if word_key(id) == key {
                lemma_word_key_injective(id, from);
            }
        }
        assert(after =~= expected);
    }
}

/// Forget that `to` duplicates `from` in a map of extra pairs.
fn remove_link(
    pairs: &mut HashMap<WordKey, Vec<GlobalWordId>>,
    from: GlobalWordId,
    to: GlobalWordId,
)
    ensures
        extra_pairs(final(pairs)@) == DupeModel::remove_link(extra_pairs(old(pairs)@), from, to),
{
    let key: WordKey = pack_word_id(from);
    let ghost before = extra_pairs(pairs@);
    match pairs.remove(&key) {
        Some(ids) => {
            let mut kept = ids;
            drop_id(&mut kept, to);
            pairs.insert(key, kept);
        },
        None => {},
    }
    proof {
        assert forall|id: GlobalWordId| id != from implies word_key(id) != key by {
            if word_key(id) == key {
                lemma_word_key_injective(id, from);
            }
        }
        assert(extra_pairs(pairs@) =~= DupeModel::remove_link(before, from, to));
    }
}

impl<const WINDOW_SIZE: usize> AnyDupeIndex for DupeIndex<WINDOW_SIZE> {
    open spec fn wf(&self) -> bool {
        &&& self.groups_wf()
        &&& forall|key: WordKey, k: int|
            #![trigger self.group_keys_by_word@[key]@[k]]
            self.group_keys_by_word@.contains_key(key) && 0 <= k
                < self.group_keys_by_word@[key]@.len() ==> self.group_keys_by_word@[key]@[k]
                < self.groups@.len()
    }

    open spec fn model(&self) -> DupeModel {
        DupeModel {
            window: WINDOW_SIZE as nat,
            groups: self.groups_by_substring(),
            substrings: Map::new(
                |id: GlobalWordId| self.group_keys_by_word@.contains_key(word_key(id)),
                |id: GlobalWordId| self.substrings_of(self.group_keys_by_word@[word_key(id)]@),
            ),
            extra: extra_pairs(self.extra_dupes_by_word@),
        }
    }

    fn window_size(&self) -> (size: usize) {
        WINDOW_SIZE
    }

    fn add_word(&mut self, word_id: WordId, word: &Word) {
        // If `WINDOW_SIZE` is zero, this index only tracks extra dupes, not window-based dupes.
        if WINDOW_SIZE == 0 {
            return;
        }
        let length: usize = word.glyphs.len();
        let global_word_id: GlobalWordId = (length, word_id);
        let mut group_keys: Vec<usize> = Vec::new();
        let ghost all = windows(word.glyphs@, WINDOW_SIZE as nat);
        let ghost names = self.group_key_by_substring@;
        if WINDOW_SIZE <= length {
            let mut start: usize = 0;
            while start <= length - WINDOW_SIZE
                invariant
                    0 < WINDOW_SIZE <= length,
                    length == word.glyphs@.len(),
                    0 <= start <= length - WINDOW_SIZE + 1,
                    global_word_id == (length, word_id),
                    all == windows(word.glyphs@, WINDOW_SIZE as nat),
                    self.groups_wf(),
                    self.extra_dupes_by_word == old(self).extra_dupes_by_word,
                    self.group_keys_by_word == old(self).group_keys_by_word,
                    names.is_prefix_of(self.group_key_by_substring@),
                    self.groups_by_substring() == DupeModel::with_windows(
                        old(self).groups_by_substring(),
                        global_word_id,
                        all.take(start as int),
                    ),
                    group_keys@.len() == start,
                    forall|k: int|
                        #![trigger group_keys@[k]]
                        0 <= k < start ==> group_keys@[k] < self.groups@.len()
                            && self.group_key_by_substring@[group_keys@[k] as int] == all[k],
                decreases length - WINDOW_SIZE + 1 - start,
            {
                let substring = slice_subrange(word.glyphs.as_slice(), start, start + WINDOW_SIZE);
                let ghost before = *self;
                let group_key: usize = self.add_to_group(global_word_id, substring);
                group_keys.push(group_key);
                proof {
                    assert(all[start as int] =~= substring@);
                    assert(all.take(start + 1).drop_last() =~= all.take(start as int));
                    assert(all.take(start + 1).last() == substring@);
                    assert(seq![substring@].drop_last() =~= Seq::empty());
                    reveal_with_fuel(DupeModel::with_windows, 2);
                    let earlier = before.group_key_by_substring@;
                    let later = self.group_key_by_substring@;
                    assert forall|k: int| #![trigger group_keys@[k]] 0 <= k < start + 1 implies group_keys@[k]
                        < self.groups@.len() && later[group_keys@[k] as int] == all[k] by {
                        if k < start {
                            assert(earlier[group_keys@[k] as int] == all[k]);
                            assert(later[group_keys@[k] as int] == earlier[group_keys@[k] as int]);
                        }
                    }
                }
                start = start + 1;
            }
            assert(all.take(start as int) =~= all);
        }
        let key: WordKey = pack_word_id(global_word_id);
        self.group_keys_by_word.insert(key, group_keys);
        proof {
            let later = self.group_key_by_substring@;
            assert(self.substrings_of(group_keys@) =~= all);
            let expected = old(self).model().with_word(global_word_id, word.glyphs@);
            assert forall|id: GlobalWordId| id != global_word_id implies word_key(id) != key by {
                if word_key(id) == key {
                    lemma_word_key_injective(id, global_word_id);
                }
            }
            assert forall|id: GlobalWordId|
                old(self).group_keys_by_word@.contains_key(word_key(id)) && id
                    != global_word_id implies #[trigger] self.substrings_of(
                self.group_keys_by_word@[word_key(id)]@,
            ) == old(self).substrings_of(old(self).group_keys_by_word@[word_key(id)]@) by {
                let keys = old(self).group_keys_by_word@[word_key(id)]@;
                assert(self.substrings_of(keys) =~= old(self).substrings_of(keys)) by {
                    assert forall|k: int| 0 <= k < keys.len() implies later[keys[k] as int]
                        == names[keys[k] as int] by {
                        assert(old(self).group_keys_by_word@[word_key(id)]@[k] < old(
                            self,
                        ).groups@.len());
                    }
                }
            }
            assert(self.model().substrings =~= expected.substrings);
            assert(self.model() =~= expected);
            assert forall|key: WordKey, k: int|
                #![trigger self.group_keys_by_word@[key]@[k]]
                self.group_keys_by_word@.contains_key(key) && 0 <= k
                    < self.group_keys_by_word@[key]@.len() implies self.group_keys_by_word@[key]@[k]
                < self.groups@.len() by {
                if key != word_key(global_word_id) {
                    assert(old(self).group_keys_by_word@[key]@[k] < old(self).groups@.len());
                }
            }
        }
    }

    fn add_dupe_pair(&mut self, global_word_id_1: GlobalWordId, global_word_id_2: GlobalWordId) {
        add_link(&mut self.extra_dupes_by_word, global_word_id_1, global_word_id_2);
        add_link(&mut self.extra_dupes_by_word, global_word_id_2, global_word_id_1);
        assert(self.model() =~= old(self).model().with_pair(global_word_id_1, global_word_id_2));
    }

    fn remove_dupe_pair(&mut self, global_word_id_1: GlobalWordId, global_word_id_2: GlobalWordId) {
        remove_link(&mut self.extra_dupes_by_word, global_word_id_1, global_word_id_2);
        remove_link(&mut self.extra_dupes_by_word, global_word_id_2, global_word_id_1);
        assert(self.model() =~= old(self).model().without_pair(global_word_id_1, global_word_id_2));
    }

    fn get_dupes_by_length(&self, global_word_id: GlobalWordId) -> (dupes: HashMap<
        usize,
        HashSet<WordId>,
    >) {
        let mut dupes_by_length: HashMap<usize, HashSet<WordId>> = HashMap::new();
        let ghost model = self.model();
        // All words duplicate themselves, regardless of length.
        record_dupe(&mut dupes_by_length, global_word_id);
        let key: WordKey = pack_word_id(global_word_id);
        if let Some(group_ids) = self.group_keys_by_word.get(&key) {
            let mut i: usize = 0;
            while i < group_ids.len()
                invariant
                    self.wf(),
                    model == self.model(),
                    key == word_key(global_word_id),
                    self.group_keys_by_word@.contains_key(key),
                    *group_ids == self.group_keys_by_word@[key],
                    0 <= i <= group_ids@.len(),
                    no_empty_length(dupes_by_length@),
                    forall|other: GlobalWordId| #[trigger]
                        listed(dupes_by_length@, other) == (other == global_word_id || exists|
                            k: int,
                        |
                            0 <= k < i && model.group(
                                #[trigger] model.substrings[global_word_id][k],
                            ).contains(other)),
                decreases group_ids@.len() - i,
            {
                let group_id: usize = group_ids[i];
                assert(self.group_keys_by_word@[key]@[i as int] < self.groups@.len());
                let ghost before = dupes_by_length@;
                record_dupes(&mut dupes_by_length, &self.groups[group_id]);
                proof {
                    let names = self.group_key_by_substring@;
                    let name = names[group_id as int];
                    assert(model.substrings[global_word_id][i as int] == name);
                    assert(names.contains(name));
                    assert(names.index_of(name) == group_id);
                    assert(model.group(name) == self.groups@[group_id as int]@);
                    assert forall|other: GlobalWordId| #[trigger]
                        listed(dupes_by_length@, other) == (other == global_word_id || exists|
                            k: int,
                        |
                            0 <= k < i + 1 && model.group(
                                #[trigger] model.substrings[global_word_id][k],
                            ).contains(other)) by {
                        if listed(before, other) && other != global_word_id {
                            let k = choose|k: int|
                                0 <= k < i && model.group(
                                    #[trigger] model.substrings[global_word_id][k],
                                ).contains(other);
                            assert(model.group(model.substrings[global_word_id][k]).contains(
                                other,
                            ));
                        }
                    }
                }
                i = i + 1;
            }
        }
        let ghost grouped = dupes_by_length@;
        if let Some(extra_dupes) = self.extra_dupes_by_word.get(&key) {
            record_dupes(&mut dupes_by_length, extra_dupes);
        }
        dupes_by_length
    }

    fn take_extra_dupes(&mut self) -> (extra_dupes: HashMap<WordKey, Vec<GlobalWordId>>) {
        let mut extra_dupes: HashMap<WordKey, Vec<GlobalWordId>> = HashMap::new();
        std::mem::swap(&mut extra_dupes, &mut self.extra_dupes_by_word);
        proof {
            assert(extra_pairs(self.extra_dupes_by_word@) =~= Map::empty());
            assert(self.model() =~= old(self).model().with_extra(Map::empty()));
        }
        extra_dupes
    }

    fn put_extra_dupes(&mut self, extra_dupes: HashMap<WordKey, Vec<GlobalWordId>>) {
        self.extra_dupes_by_word = extra_dupes;
        assert(self.model() =~= old(self).model().with_extra(extra_pairs(extra_dupes@)));
    }
}

/// Removing a pair after adding it leaves the pairs as they were, apart from that one.
pub proof fn lemma_pair_round_trip(
    model: DupeModel,
    left: GlobalWordId,
    right: GlobalWordId,
    a: GlobalWordId,
    b: GlobalWordId,
)
    ensures
        model.with_pair(left, right).without_pair(left, right).paired(a, b) == (model.paired(a, b)
            && !((a == left && b == right) || (a == right && b == left))),
{
    let paired = model.with_pair(left, right);
    lemma_with_pair(model, left, right);
    lemma_without_pair(paired, left, right);
    assert(paired.paired(a, b) == (model.paired(a, b) || (a == left && b == right) || (a == right
        && b == left)));
    assert(paired.without_pair(left, right).paired(a, b) == (paired.paired(a, b) && !((a == left
        && b == right) || (a == right && b == left))));
}

/// After two words are recorded as a pair, they duplicate each other both ways, and all other words do
/// so exactly as before.
pub proof fn lemma_pair_added(
    model: DupeModel,
    left: GlobalWordId,
    right: GlobalWordId,
    a: GlobalWordId,
    b: GlobalWordId,
)
    ensures
        model.with_pair(left, right).dupes(a, b) == (model.dupes(a, b) || (a == left && b == right)
            || (a == right && b == left)),
{
    lemma_with_pair(model, left, right);
    let paired = model.with_pair(left, right);
    assert(paired.paired(a, b) == (model.paired(a, b) || (a == left && b == right) || (a == right
        && b == left)));
    assert(paired.share_window(a, b) == model.share_window(a, b)) by {
        lemma_same_windows(model, paired, a, b);
    }
}

/// After a pair is removed, the two words only duplicate each other if they have a substring in common
/// or are the same, and all other words do so exactly as before.
pub proof fn lemma_pair_removed(
    model: DupeModel,
    left: GlobalWordId,
    right: GlobalWordId,
    a: GlobalWordId,
    b: GlobalWordId,
)
    ensures
        model.without_pair(left, right).dupes(a, b) == if (a == left && b == right) || (a == right
            && b == left) {
            a == b || model.share_window(a, b)
        } else {
            model.dupes(a, b)
        },
{
    lemma_without_pair(model, left, right);
    let rest = model.without_pair(left, right);
    assert(rest.paired(a, b) == (model.paired(a, b) && !((a == left && b == right) || (a == right
        && b == left))));
    lemma_same_windows(model, rest, a, b);
}

/// Pairs make no difference to substrings.
proof fn lemma_same_windows(
    model: DupeModel,
    other: DupeModel,
    a: GlobalWordId,
    b: GlobalWordId,
)
    requires
        other.groups == model.groups,
        other.substrings == model.substrings,
    ensures
        other.share_window(a, b) == model.share_window(a, b),
{
    assert forall|substring: Seq<GlyphId>| other.group(substring) == #[trigger] model.group(
        substring,
    ) by {}
    if model.share_window(a, b) {
        let k = choose|k: int|
            0 <= k < model.substrings[a].len() && model.group(
                #[trigger] model.substrings[a][k],
            ).contains(b);
        assert(other.group(other.substrings[a][k]).contains(b));
    }
    if other.share_window(a, b) {
        let k = choose|k: int|
            0 <= k < other.substrings[a].len() && other.group(
                #[trigger] other.substrings[a][k],
            ).contains(b);
        assert(model.group(model.substrings[a][k]).contains(b));
    }
}

} // verus!

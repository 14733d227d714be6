//! Keeping strings together and reusing their memory.

use vstd::prelude::*;
use vstd::string::StringSliceAdditionalSpecFns;
use vstd::utf8::{
    encode_utf8, encode_utf8_decode_utf8, encode_utf8_first_scalar, encode_utf8_valid_utf8,
    is_char_boundary, pop_first_scalar,
};

verus! {

/// `String::with_capacity` makes an empty string with room for some bytes, `isize::MAX` at most. How
/// much room there really is depends on the allocator, so nothing is claimed of that.
pub assume_specification[ String::with_capacity ](capacity: usize) -> (string: String)
    requires
        capacity <= isize::MAX,
    ensures
        string@ == Seq::<char>::empty(),
;

/// `String::clear` removes all contents of a string.
pub assume_specification[ String::clear ](string: &mut String)
    ensures
        final(string)@ == Seq::<char>::empty(),
;

/// `String::capacity` tells how many bytes a string has room for. That is up to the allocator, so
/// nothing is claimed of it.
pub assume_specification[ String::capacity ](string: &String) -> usize
;

/// The strings one after the other.
pub open spec fn joined(strings: Seq<Seq<char>>) -> Seq<char>
    decreases strings.len(),
{
    if strings.len() == 0 {
        Seq::empty()
    } else {
        joined(strings.drop_last()) + strings.last()
    }
}

/// The number of bytes that a text takes up.
pub open spec fn byte_length(text: Seq<char>) -> int {
    encode_utf8(text).len() as int
}

/// The bytes of two texts one after the other are those of both.
proof fn lemma_encode_concat(left: Seq<char>, right: Seq<char>)
    ensures
        encode_utf8(left + right) == encode_utf8(left) + encode_utf8(right),
    decreases left.len(),
{
    if left.len() == 0 {
        assert(left + right =~= right);
        assert(encode_utf8(left) + encode_utf8(right) =~= encode_utf8(right));
    } else {
        assert((left + right).drop_first() =~= left.drop_first() + right);
        lemma_encode_concat(left.drop_first(), right);
        assert(encode_utf8(left + right) =~= encode_utf8(left) + encode_utf8(right));
    }
}

/// There is a character boundary between two texts.
proof fn lemma_boundary(left: Seq<char>, right: Seq<char>)
    ensures
        is_char_boundary(encode_utf8(left + right), byte_length(left)),
    decreases left.len(),
{
    let whole = left + right;
    let bytes = encode_utf8(whole);
    encode_utf8_valid_utf8(whole);
    if left.len() > 0 {
        assert(whole.drop_first() =~= left.drop_first() + right);
        lemma_boundary(left.drop_first(), right);
        lemma_encode_concat(left, right);
        encode_utf8_first_scalar(whole);
        assert(pop_first_scalar(bytes) =~= encode_utf8(whole.drop_first()));
        assert(whole[0] == left[0]);
    }
}

/// Texts with the same bytes are the same.
proof fn lemma_encode_injective(left: Seq<char>, right: Seq<char>)
    requires
        encode_utf8(left) == encode_utf8(right),
    ensures
        left == right,
{
    encode_utf8_decode_utf8(left);
    encode_utf8_decode_utf8(right);
}

/// The part of a joined text up to a string, and the rest.
proof fn lemma_joined_take(strings: Seq<Seq<char>>, n: int) -> (rest: Seq<char>)
    requires
        0 <= n <= strings.len(),
    ensures
        joined(strings) == joined(strings.take(n)) + rest,
    decreases strings.len() - n,
{
    if n == strings.len() {
        assert(strings.take(n) =~= strings);
        assert(joined(strings) =~= joined(strings) + Seq::empty());
        Seq::empty()
    } else {
        let rest = lemma_joined_take(strings, n + 1);
        assert(strings.take(n + 1).drop_last() =~= strings.take(n));
        assert(joined(strings) =~= joined(strings.take(n)) + (strings[n] + rest));
        strings[n] + rest
    }
}

/// A struct to batch multiple strings into a single allocation.
pub struct BatchedStrings {
    /// The raw storage buffer that holds all strings.
    buffer: String,
    /// Start and end indices of each string within the buffer.
    spans: Vec<(usize, usize)>,
    /// The strings.
    strings: Ghost<Seq<Seq<char>>>,
}

impl View for BatchedStrings {
    type V = Seq<Seq<char>>;

    closed spec fn view(&self) -> Seq<Seq<char>> {
        self.strings@
    }
}

impl BatchedStrings {
    /// The buffer holds the strings, and the spans say where.
    pub closed spec fn wf(&self) -> bool {
        &&& self.spans@.len() == self.strings@.len()
        &&& self.buffer@ == joined(self.strings@)
        &&& forall|i: int|
            0 <= i < self.spans@.len() ==> (#[trigger] self.spans@[i]).0 == byte_length(
                joined(self.strings@.take(i)),
            ) && self.spans@[i].1 == byte_length(joined(self.strings@.take(i + 1)))
    }

    /// Create a new empty batch.
    pub fn new() -> (batch: Self)
        ensures
            batch.wf(),
            batch@ == Seq::<Seq<char>>::empty(),
    {
        let batch = BatchedStrings {
            buffer: String::new(),
            spans: Vec::new(),
            strings: Ghost(Seq::empty()),
        };
        assert(batch.buffer@ =~= joined(batch.strings@));
        batch
    }

    /// Create a new batch with an initial capacity.
    pub fn with_capacity(capacity: usize) -> (batch: Self)
        requires
            capacity <= isize::MAX,
        ensures
            batch.wf(),
            batch@ == Seq::<Seq<char>>::empty(),
            batch.is_sized_for(capacity),
    {
        BatchedStrings {
            buffer: String::with_capacity(capacity),
            spans: Vec::new(),
            strings: Ghost(Seq::empty()),
        }
    }

    /// The buffer is one that `String::with_capacity` makes when asked for the given capacity.
    pub closed spec fn is_sized_for(&self, capacity: usize) -> bool {
        call_ensures(String::with_capacity, (capacity,), self.buffer)
    }

    /// Add a string to the batch, returning its index.
    pub fn add(&mut self, s: &str) -> (index: usize)
        requires
            old(self).wf(),
        ensures
            final(self).wf(),
            final(self)@ == old(self)@.push(s@),
            index == old(self)@.len(),
    {
        let ghost before = self.strings@;
        let start: usize = self.buffer.as_str().as_bytes().len();
        self.buffer.append(s);
        let end: usize = self.buffer.as_str().as_bytes().len();
        self.spans.push((start, end));
        self.strings = Ghost(before.push(s@));
        proof {
            let after = self.strings@;
            assert(after.drop_last() =~= before);
            assert(after.take(before.len() as int) =~= before);
            assert(after.take(before.len() as int + 1) =~= after);
            assert forall|i: int| 0 <= i < self.spans@.len() implies (
            #[trigger] self.spans@[i]).0 == byte_length(joined(after.take(i)))
                && self.spans@[i].1 == byte_length(joined(after.take(i + 1))) by {
                if i < before.len() {
                    assert(after.take(i) =~= before.take(i));
                    assert(after.take(i + 1) =~= before.take(i + 1));
                    assert(self.spans@[i] == old(self).spans@[i]);
                }
            }
        }
        self.spans.len() - 1
    }

    /// Get a string by its index.
    pub fn get(&self, index: usize) -> (s: &str)
        requires
            self.wf(),
            index < self@.len(),
        ensures
            s@ == self@[index as int],
    {
        let (start, end): (usize, usize) = self.spans[index];
        let ghost strings = self.strings@;
        let ghost before = joined(strings.take(index as int));
        let ghost upto = joined(strings.take(index + 1));
        let ghost rest = lemma_joined_take(strings, index + 1);
        proof {
            assert(strings.take(index + 1).drop_last() =~= strings.take(index as int));
            assert(upto == before + strings[index as int]);
            lemma_boundary(upto, rest);
        }
        let (head, _): (&str, &str) = self.buffer.as_str().split_at(end);
        proof {
            lemma_encode_concat(upto, rest);
            assert(head.spec_bytes() =~= encode_utf8(upto));
            lemma_encode_injective(head@, upto);
            lemma_boundary(before, strings[index as int]);
        }
        let (_, s): (&str, &str) = head.split_at(start);
        proof {
            lemma_encode_concat(before, strings[index as int]);
            assert(s.spec_bytes() =~= encode_utf8(strings[index as int]));
            lemma_encode_injective(s@, strings[index as int]);
        }
        s
    }

    /// Get the number of strings in the batch.
    pub fn len(&self) -> (count: usize)
        requires
            self.wf(),
        ensures
            count == self@.len(),
    {
        self.spans.len()
    }
}

/// The sizes of buffers that are told apart, in bytes.
pub const SMALL_BUFFER: usize = 1024;

pub const MEDIUM_BUFFER: usize = 10240;

pub const LARGE_BUFFER: usize = 102400;

/// A buffer pool for reusing string allocations.
pub struct StringBufferPool {
    /// For strings < 1KB.
    pub small_buffers: Vec<String>,
    /// For strings < 10KB.
    pub medium_buffers: Vec<String>,
    /// For strings < 100KB.
    pub large_buffers: Vec<String>,
}

/// All buffers are empty.
pub open spec fn all_empty(buffers: Seq<String>) -> bool {
    forall|i: int| 0 <= i < buffers.len() ==> (#[trigger] buffers[i])@.len() == 0
}

/// The buffers are as before, with some added that `String::with_capacity` makes when asked for the
/// given capacity.
pub open spec fn are_added(
    before: Seq<String>,
    after: Seq<String>,
    count: int,
    capacity: usize,
) -> bool {
    &&& after.len() == before.len() + count
    &&& before.is_prefix_of(after)
    &&& forall|i: int|
        before.len() <= i < after.len() ==> call_ensures(
            String::with_capacity,
            (capacity,),
            #[trigger] after[i],
        )
}

/// Add empty buffers of some size.
fn add_buffers(buffers: &mut Vec<String>, count: usize, capacity: usize)
    requires
        capacity <= isize::MAX,
        all_empty(old(buffers)@),
    ensures
        all_empty(final(buffers)@),
        are_added(old(buffers)@, final(buffers)@, count as int, capacity),
{
    let mut i: usize = 0;
    while i < count
        invariant
            capacity <= isize::MAX,
            0 <= i <= count,
            all_empty(buffers@),
            are_added(old(buffers)@, buffers@, i as int, capacity),
        decreases count - i,
    {
        buffers.push(String::with_capacity(capacity));
        i = i + 1;
    }
}

/// Empty a buffer, keeping its memory.
pub fn emptied(buffer: String) -> (result: String)
    ensures
        result@.len() == 0,
        exists|string: &mut String| #[trigger]
            call_ensures(String::clear, (string,), ()) && *string == buffer && *final(string)
                == result,
{
    let mut result: String = buffer;
    result.clear();
    result
}

impl StringBufferPool {
    /// The buffers in the pool are empty.
    pub open spec fn wf(&self) -> bool {
        &&& all_empty(self.small_buffers@)
        &&& all_empty(self.medium_buffers@)
        &&& all_empty(self.large_buffers@)
    }

    /// Create a new buffer pool.
    pub fn new() -> (pool: Self)
        ensures
            pool.wf(),
            pool.small_buffers@.len() == 0,
            pool.medium_buffers@.len() == 0,
            pool.large_buffers@.len() == 0,
    {
        StringBufferPool {
            small_buffers: Vec::new(),
            medium_buffers: Vec::new(),
            large_buffers: Vec::new(),
        }
    }

    /// Initialize the pool with some pre-allocated buffers.
    pub fn initialize(&mut self)
        requires
            old(self).wf(),
        ensures
            final(self).wf(),
            are_added(old(self).small_buffers@, final(self).small_buffers@, 10, SMALL_BUFFER),
            are_added(old(self).medium_buffers@, final(self).medium_buffers@, 5, MEDIUM_BUFFER),
            are_added(old(self).large_buffers@, final(self).large_buffers@, 2, LARGE_BUFFER),
    {
        add_buffers(&mut self.small_buffers, 10, SMALL_BUFFER);
        add_buffers(&mut self.medium_buffers, 5, MEDIUM_BUFFER);
        add_buffers(&mut self.large_buffers, 2, LARGE_BUFFER);
    }

    /// The buffers that one of the given capacity is taken from.
    pub open spec fn buffers_for(&self, min_capacity: usize) -> Seq<String> {
        if min_capacity < SMALL_BUFFER {
            self.small_buffers@
        } else if min_capacity < MEDIUM_BUFFER {
            self.medium_buffers@
        } else {
            self.large_buffers@
        }
    }

    /// Get a buffer of appropriate size: one from the pool if it has enough room, or else a new one.
    pub fn get_buffer(&mut self, min_capacity: usize) -> (buffer: String)
        requires
            old(self).wf(),
            min_capacity <= isize::MAX,
        ensures
            final(self).wf(),
            buffer@.len() == 0,
            is_taken(old(self).buffers_for(min_capacity), min_capacity, buffer),
            final(self).small_buffers@ == if min_capacity < SMALL_BUFFER {
                without_last(old(self).small_buffers@)
            } else {
                old(self).small_buffers@
            },
            final(self).medium_buffers@ == if SMALL_BUFFER <= min_capacity < MEDIUM_BUFFER {
                without_last(old(self).medium_buffers@)
            } else {
                old(self).medium_buffers@
            },
            final(self).large_buffers@ == if MEDIUM_BUFFER <= min_capacity {
                without_last(old(self).large_buffers@)
            } else {
                old(self).large_buffers@
            },
    {
        if min_capacity < SMALL_BUFFER {
            take_buffer(&mut self.small_buffers, min_capacity)
        } else if min_capacity < MEDIUM_BUFFER {
            take_buffer(&mut self.medium_buffers, min_capacity)
        } else {
            take_buffer(&mut self.large_buffers, min_capacity)
        }
    }

    /// Return a buffer to the pool.
    pub fn return_buffer(&mut self, buffer: String)
        requires
            old(self).wf(),
        ensures
            final(self).wf(),
            exists|capacity: usize| #[trigger]
                call_ensures(String::capacity, (&buffer,), capacity) && final(self).takes_back(
                    old(self),
                    buffer,
                    capacity,
                ),
    {
        let capacity: usize = buffer.capacity();
        assert(call_ensures(String::capacity, (&buffer,), capacity));
        self.return_sized_buffer(buffer, capacity);
    }

    /// The pool is as `before`, with a buffer of the given capacity, once it is emptied, added to those
    /// of its size, unless there are enough of them or it is too large.
    pub open spec fn takes_back(&self, before: &Self, buffer: String, capacity: usize) -> bool {
        let keeps_small = capacity < SMALL_BUFFER && before.small_buffers@.len() < 20;
        let keeps_medium = SMALL_BUFFER <= capacity < MEDIUM_BUFFER && before.medium_buffers@.len()
            < 10;
        let keeps_large = MEDIUM_BUFFER <= capacity < LARGE_BUFFER && before.large_buffers@.len()
            < 5;
        &&& is_kept(before.small_buffers@, self.small_buffers@, buffer, keeps_small)
        &&& is_kept(before.medium_buffers@, self.medium_buffers@, buffer, keeps_medium)
        &&& is_kept(before.large_buffers@, self.large_buffers@, buffer, keeps_large)
    }

    /// Return a buffer of the given capacity to the pool.
    pub fn return_sized_buffer(&mut self, buffer: String, capacity: usize)
        requires
            old(self).wf(),
        ensures
            final(self).wf(),
            final(self).takes_back(old(self), buffer, capacity),
    {
        let ghost given = buffer;
        let buffer: String = emptied(buffer);
        assert(call_ensures(emptied, (given,), buffer));
        if capacity < SMALL_BUFFER {
            if self.small_buffers.len() < 20 {
                self.small_buffers.push(buffer);
                assert(self.small_buffers@.drop_last() =~= old(self).small_buffers@);
            }
        } else if capacity < MEDIUM_BUFFER {
            if self.medium_buffers.len() < 10 {
                self.medium_buffers.push(buffer);
                assert(self.medium_buffers@.drop_last() =~= old(self).medium_buffers@);
            }
        } else if capacity < LARGE_BUFFER {
            if self.large_buffers.len() < 5 {
                self.large_buffers.push(buffer);
                assert(self.large_buffers@.drop_last() =~= old(self).large_buffers@);
            }
        }
    }
}

/// The buffers are as before, or with the given one added once it is emptied.
pub open spec fn is_kept(
    before: Seq<String>,
    after: Seq<String>,
    buffer: String,
    keeps: bool,
) -> bool {
    if keeps {
        &&& after.len() == before.len() + 1
        &&& after.drop_last() == before
        &&& after.last()@.len() == 0
        &&& call_ensures(emptied, (buffer,), after.last())
    } else {
        after == before
    }
}

/// The buffer is the last one if that has enough room, and else one that `String::with_capacity`
/// makes.
pub open spec fn is_taken(buffers: Seq<String>, min_capacity: usize, buffer: String) -> bool {
    if buffers.len() > 0 {
        exists|capacity: usize| #[trigger]
            call_ensures(String::capacity, (&buffers.last(),), capacity) && if min_capacity
                <= capacity {
                buffer == buffers.last()
            } else {
                call_ensures(String::with_capacity, (min_capacity,), buffer)
            }
    } else {
        call_ensures(String::with_capacity, (min_capacity,), buffer)
    }
}

/// The buffers without the last one, if there is one.
pub open spec fn without_last(buffers: Seq<String>) -> Seq<String> {
    if buffers.len() > 0 {
        buffers.drop_last()
    } else {
        buffers
    }
}

/// Take a buffer, or make one if there is none with enough room.
fn take_buffer(buffers: &mut Vec<String>, min_capacity: usize) -> (buffer: String)
    requires
        all_empty(old(buffers)@),
        min_capacity <= isize::MAX,
    ensures
        all_empty(final(buffers)@),
        final(buffers)@ == without_last(old(buffers)@),
        buffer@.len() == 0,
        is_taken(old(buffers)@, min_capacity, buffer),
{
    match buffers.pop() {
        Some(buffer) => {
            let capacity: usize = buffer.capacity();
            let ghost last = old(buffers)@.last();
            assert(call_ensures(String::capacity, (&last,), capacity));
            if min_capacity <= capacity {
                buffer
            } else {
                let made: String = String::with_capacity(min_capacity);
                assert(call_ensures(String::with_capacity, (min_capacity,), made));
                made
            }
        },
        None => String::with_capacity(min_capacity),
    }
}

/// A string that was added to a batch is found at its index, and the others stay where they are.
pub proof fn lemma_batch_keeps(strings: Seq<Seq<char>>, added: Seq<char>)
    ensures
        strings.push(added)[strings.len() as int] == added,
        forall|i: int| 0 <= i < strings.len() ==> strings.push(added)[i] == strings[i],
{
}

/// A pool that takes buffers back never has more than twenty small, ten medium and five large ones,
/// if it did not have more to begin with.
pub proof fn lemma_pool_bounded(
    before: StringBufferPool,
    after: StringBufferPool,
    buffer: String,
    capacity: usize,
)
    requires
        after.takes_back(&before, buffer, capacity),
        before.small_buffers@.len() <= 20,
        before.medium_buffers@.len() <= 10,
        before.large_buffers@.len() <= 5,
    ensures
        after.small_buffers@.len() <= 20,
        after.medium_buffers@.len() <= 10,
        after.large_buffers@.len() <= 5,
{
}

/// Buffers of less than 1 KB are taken from the small ones, others of less than 10 KB from the medium
/// ones, and the rest from the large ones. The same holds of buffers that are returned, except that
/// those of 100 KB and more are not kept.
pub proof fn lemma_buffer_sizes(
    before: StringBufferPool,
    after: StringBufferPool,
    buffer: String,
    capacity: usize,
)
    requires
        after.takes_back(&before, buffer, capacity),
    ensures
        capacity < 1024 ==> before.buffers_for(capacity) == before.small_buffers@,
        1024 <= capacity < 10 * 1024 ==> before.buffers_for(capacity) == before.medium_buffers@,
        10 * 1024 <= capacity ==> before.buffers_for(capacity) == before.large_buffers@,
        capacity >= 100 * 1024 ==> after.small_buffers@ == before.small_buffers@
            && after.medium_buffers@ == before.medium_buffers@ && after.large_buffers@
            == before.large_buffers@,
        capacity < 100 * 1024 && before.buffers_for(capacity).len() < 5 ==> {
            &&& after.buffers_for(capacity).len() == before.buffers_for(capacity).len() + 1
            &&& after.buffers_for(capacity).last()@.len() == 0
            &&& after.buffers_for(capacity).drop_last() == before.buffers_for(capacity)
        },
        capacity < 1024 && before.small_buffers@.len() < 20 ==> after.small_buffers@.len()
            == before.small_buffers@.len() + 1,
        1024 <= capacity < 10 * 1024 && before.medium_buffers@.len() < 10
            ==> after.medium_buffers@.len() == before.medium_buffers@.len() + 1,
        capacity >= 1024 ==> after.small_buffers@ == before.small_buffers@,
        capacity < 1024 || capacity >= 10 * 1024 ==> after.medium_buffers@
            == before.medium_buffers@,
        capacity < 10 * 1024 ==> after.large_buffers@ == before.large_buffers@,
{
}

} // verus!

use vstd::prelude::*;
use crate::bytes_trie::BytesTrie;
use crate::trie::{Trie, TrieResult};
use crate::uchars_trie::UCharsTrie;

verus! {

// Layout of a dictionary file: an ICU data header of 0x90 bytes, then
// eight 32-bit integers, in the byte order that the ICU header declares.
const ICU_HEADER_SIZE: usize = 0x90;
const HEADER_SIZE: usize = 0xb0;
const BIG_ENDIAN_FLAG: usize = 8;
const TRIE_OFFSET_INDEX: usize = 0x90;
const TRIE_TYPE_INDEX: usize = 0xa0;
const TRANSFORM_INDEX: usize = 0xa4;

const TRIE_TYPE_BYTES: u32 = 0;
const TRIE_TYPE_UCHARS: u32 = 1;
const TRIE_TYPE_MASK: u32 = 7;

const TRANSFORM_TYPE_OFFSET: u32 = 0x1000000;
const TRANSFORM_TYPE_MASK: u32 = 0x7f000000;
const TRANSFORM_OFFSET_MASK: u32 = 0x1fffff;

/// How input code units become trie units.
#[derive(Clone, Copy, Debug, PartialEq, Eq, Structural)]
pub enum Transform {
    /// Code units are trie units.
    Identity,
    /// A code unit `c` becomes the byte `c - base`, ZWNJ becomes 0xfe and
    /// ZWJ 0xff; any other unit outside the 0..=0xfd range is refused.
    Offset(u32),
}

/// Why a dictionary file was refused.
#[derive(Clone, Copy, Debug, PartialEq, Eq, Structural)]
pub enum MalformedDictionary {
    /// The file is shorter than its header.
    TooShort,
    /// The header names a trie type other than bytes or 16-bit units.
    UnknownTrieType,
    /// The trie would start at or past the end of the file.
    TrieOffsetOutOfRange,
}

/// The unit that `transform` makes of the code unit `c`, or -1 where it
/// refuses `c`.
pub open spec fn transform_unit(transform: Transform, c: u16) -> int {
    match transform {
        Transform::Identity => c as int,
        Transform::Offset(base) => if c == 0x200c {
            0xfe
        } else if c == 0x200d {
            0xff
        } else if 0 <= c - base <= 0xfd {
            c - base
        } else {
            -1
        },
    }
}

/// Whether the ICU header of `blob` declares big-endian data.
pub open spec fn is_big_endian(blob: Seq<u8>) -> bool {
    blob[8] != 0
}

/// The 32-bit integer at `p`, in the byte order of `blob`.
pub open spec fn u32_at(blob: Seq<u8>, p: int) -> int {
    if is_big_endian(blob) {
        blob[p] * 0x1000000 + blob[p + 1] * 0x10000 + blob[p + 2] * 0x100 + blob[p + 3]
    } else {
        blob[p] + blob[p + 1] * 0x100 + blob[p + 2] * 0x10000 + blob[p + 3] * 0x1000000
    }
}

/// Where the trie of `blob` starts.
pub open spec fn trie_start(blob: Seq<u8>) -> int {
    0x90 + u32_at(blob, 0x90)
}

/// The trie type field of `blob`, masked to its meaningful bits.
pub open spec fn trie_type(blob: Seq<u8>) -> int {
    u32_at(blob, 0xa0) % 8
}

/// The transform that the header of `blob` declares.
pub open spec fn header_transform(blob: Seq<u8>) -> Transform {
    let word = u32_at(blob, 0xa4);
    if (word / 0x1000000) % 0x80 == 1 {
        Transform::Offset((word % 0x200000) as u32)
    } else {
        Transform::Identity
    }
}

/// The reason to refuse `blob`, if any.
pub open spec fn header_error(blob: Seq<u8>) -> Option<MalformedDictionary> {
    if blob.len() < 0xb0 {
        Some(MalformedDictionary::TooShort)
    } else if trie_type(blob) > 1 {
        Some(MalformedDictionary::UnknownTrieType)
    } else if trie_start(blob) >= blob.len() {
        Some(MalformedDictionary::TrieOffsetOutOfRange)
    } else {
        None
    }
}

/// The fresh cursor over the trie of an accepted `blob`.
pub open spec fn header_cursor(blob: Seq<u8>) -> Cursor {
    if trie_type(blob) == 0 {
        Cursor::Bytes(BytesTrie::initial(trie_start(blob) as usize))
    } else {
        Cursor::UChars(UCharsTrie::initial(trie_start(blob) as usize, is_big_endian(blob)))
    }
}

/// A cursor of either trie flavour.
#[derive(Clone, Copy, Debug)]
pub enum Cursor {
    Bytes(BytesTrie),
    UChars(UCharsTrie),
}

impl Trie for Cursor {
    open spec fn first_spec(&self, data: Seq<u8>, unit: int) -> (Cursor, TrieResult) {
        match *self {
            Cursor::Bytes(t) => (Cursor::Bytes(t.first_spec(data, unit).0), t.first_spec(data, unit).1),
            Cursor::UChars(t) => (Cursor::UChars(t.first_spec(data, unit).0), t.first_spec(data, unit).1),
        }
    }

    open spec fn next_spec(&self, data: Seq<u8>, unit: int) -> (Cursor, TrieResult) {
        match *self {
            Cursor::Bytes(t) => (Cursor::Bytes(t.next_spec(data, unit).0), t.next_spec(data, unit).1),
            Cursor::UChars(t) => (Cursor::UChars(t.next_spec(data, unit).0), t.next_spec(data, unit).1),
        }
    }

    open spec fn current_spec(&self, data: Seq<u8>) -> TrieResult {
        match *self {
            Cursor::Bytes(t) => t.current_spec(data),
            Cursor::UChars(t) => t.current_spec(data),
        }
    }

    open spec fn reset_spec(&self) -> Cursor {
        match *self {
            Cursor::Bytes(t) => Cursor::Bytes(t.reset_spec()),
            Cursor::UChars(t) => Cursor::UChars(t.reset_spec()),
        }
    }

    open spec fn is_stopped(&self) -> bool {
        match *self {
            Cursor::Bytes(t) => t.is_stopped(),
            Cursor::UChars(t) => t.is_stopped(),
        }
    }

    proof fn lemma_steps_settle(&self, data: Seq<u8>, unit: int) {
        match *self {
            Cursor::Bytes(t) => t.lemma_steps_settle(data, unit),
            Cursor::UChars(t) => t.lemma_steps_settle(data, unit),
        }
    }

    proof fn lemma_stopped_stays(&self, data: Seq<u8>, unit: int) {
        match *self {
            Cursor::Bytes(t) => t.lemma_stopped_stays(data, unit),
            Cursor::UChars(t) => t.lemma_stopped_stays(data, unit),
        }
    }

    proof fn lemma_negative_unit(&self, data: Seq<u8>, unit: int) {
        match *self {
            Cursor::Bytes(t) => t.lemma_negative_unit(data, unit),
            Cursor::UChars(t) => t.lemma_negative_unit(data, unit),
        }
    }

    proof fn lemma_first_from_origin(&self, data: Seq<u8>, unit: int) {
        match *self {
            Cursor::Bytes(t) => t.lemma_first_from_origin(data, unit),
            Cursor::UChars(t) => t.lemma_first_from_origin(data, unit),
        }
    }

    fn first(&mut self, trie_data: &[u8], unit: i32) -> (r: TrieResult) {
        match self {
            Cursor::Bytes(t) => t.first(trie_data, unit),
            Cursor::UChars(t) => t.first(trie_data, unit),
        }
    }

    fn next(&mut self, trie_data: &[u8], unit: i32) -> (r: TrieResult) {
        match self {
            Cursor::Bytes(t) => t.next(trie_data, unit),
            Cursor::UChars(t) => t.next(trie_data, unit),
        }
    }

    fn current(&self, trie_data: &[u8]) -> (r: TrieResult) {
        match self {
            Cursor::Bytes(t) => t.current(trie_data),
            Cursor::UChars(t) => t.current(trie_data),
        }
    }

    fn reset(&mut self) {
        match self {
            Cursor::Bytes(t) => t.reset(),
            Cursor::UChars(t) => t.reset(),
        }
    }
}

/// Where one advance from `front` ends: `i` units past `front` have been
/// fed to `cursor`, and `best` is the length of the longest key met so far
/// (0 for none). `Some(n)` commits the boundary `n`; `None` means that no
/// key starts at `front`.
pub open spec fn scan(
    data: Seq<u8>,
    input: Seq<u16>,
    transform: Transform,
    cursor: Cursor,
    front: int,
    i: int,
    best: int,
) -> Option<int>
    decreases input.len() - front - i,
{
    if front + i >= input.len() {
        Some(input.len() as int)
    } else {
        let unit = transform_unit(transform, input[front + i]);
        let st = if i == 0 {
            cursor.first_spec(data, unit)
        } else {
            cursor.next_spec(data, unit)
        };
        match st.1 {
            TrieResult::FinalValue => Some(front + i + 1),
            TrieResult::Intermediate => scan(data, input, transform, st.0, front, i + 1, i + 1),
            TrieResult::NoValue => scan(data, input, transform, st.0, front, i + 1, best),
            TrieResult::NoMatch => if best > 0 {
                Some(front + best)
            } else {
                None
            },
        }
    }
}

/// Greedy longest-match segmentation of `input` over a dictionary.
///
/// Each call of `next` looks for the longest key of the dictionary that
/// starts at `front_offset`, and returns the offset where it ends.
#[derive(Clone, Copy, Debug)]
pub struct DictionaryIterator<'a> {
    pub dictionary: &'a [u8],
    pub input: &'a [u16],
    pub front_offset: usize,
    pub transform: Transform,
    pub cursor: Cursor,
}

impl<'a> DictionaryIterator<'a> {
    /// The front offset and result of one `next`.
    pub open spec fn advance_spec(self) -> (usize, Option<usize>) {
        if self.front_offset >= self.input@.len() {
            (self.front_offset, None)
        } else {
            match scan(
                self.dictionary@,
                self.input@,
                self.transform,
                self.cursor.reset_spec(),
                self.front_offset as int,
                0,
                0,
            ) {
                Some(n) => (n as usize, Some(n as usize)),
                None => (self.input@.len() as usize, None),
            }
        }
    }

    /// The iterator with its front offset moved to `front`.
    pub open spec fn at_front(self, front: usize) -> DictionaryIterator<'a> {
        DictionaryIterator { front_offset: front, ..self }
    }

    /// The boundaries that successive calls of `next` return, up to the
    /// first `None`. (Each boundary lies past the front offset it was found
    /// from: see `lemma_advance_bounds`.)
    pub open spec fn boundaries(self) -> Seq<usize>
        decreases self.input@.len() - self.front_offset,
    {
        let (f, r) = self.advance_spec();
        if r is Some && self.front_offset < f <= self.input@.len() {
            seq![f] + self.at_front(f).boundaries()
        } else {
            Seq::empty()
        }
    }

    /// The iterator after successive calls of `next` up to the first `None`.
    pub open spec fn exhausted(self) -> DictionaryIterator<'a>
        decreases self.input@.len() - self.front_offset,
    {
        let (f, r) = self.advance_spec();
        if r is Some && self.front_offset < f <= self.input@.len() {
            self.at_front(f).exhausted()
        } else {
            self.at_front(f)
        }
    }

    /// An iterator from the start of `input`, over the trie that `cursor`
    /// walks in `dictionary`, with `transform` applied to each code unit.
    pub fn from_parts(
        dictionary: &'a [u8],
        cursor: Cursor,
        transform: Transform,
        input: &'a [u16],
    ) -> (r: DictionaryIterator<'a>)
        ensures
            r.dictionary@ == dictionary@,
            r.input@ == input@,
            r.front_offset == 0,
            r.transform == transform,
            r.cursor == cursor,
    {
        DictionaryIterator { dictionary, input, front_offset: 0, transform, cursor }
    }

    /// Reads the header of the dictionary file `dictionary` and makes an
    /// iterator from the start of `input` over its trie.
    ///
    /// The header's integers, and the units of a 16-bit trie, are read in
    /// the byte order that the ICU header declares in its byte 8 (0 for
    /// little-endian).
    pub fn new(dictionary: &'a [u8], input: &'a [u16]) -> (r: Result<
        DictionaryIterator<'a>,
        MalformedDictionary,
    >)
        ensures
            match header_error(dictionary@) {
                Some(e) => r == Err::<DictionaryIterator<'a>, MalformedDictionary>(e),
                None => (r matches Ok(it) && it.dictionary@ == dictionary@ && it.input@ == input@
                    && it.front_offset == 0 && it.transform == header_transform(dictionary@)
                    && it.cursor == header_cursor(dictionary@)),
            },
    {
        if dictionary.len() < HEADER_SIZE {
            return Err(MalformedDictionary::TooShort);
        }
        let big_endian = dictionary[BIG_ENDIAN_FLAG] != 0;
        let trie_offset = read_u32(dictionary, big_endian, TRIE_OFFSET_INDEX);
        let trie_type_word = read_u32(dictionary, big_endian, TRIE_TYPE_INDEX);
        let trie_type = trie_type_word & TRIE_TYPE_MASK;
        proof {
            assert(trie_type_word & 7 == trie_type_word % 8) by (bit_vector);
        }
        let word = read_u32(dictionary, big_endian, TRANSFORM_INDEX);
        if trie_type != TRIE_TYPE_BYTES && trie_type != TRIE_TYPE_UCHARS {
            return Err(MalformedDictionary::UnknownTrieType);
        }
        if trie_offset as u64 >= (dictionary.len() - ICU_HEADER_SIZE) as u64 {
            return Err(MalformedDictionary::TrieOffsetOutOfRange);
        }
        let root = ICU_HEADER_SIZE + trie_offset as usize;
        proof {
            assert(word & 0x7f000000 == 0x1000000 <==> (word / 0x1000000) % 0x80 == 1)
                by (bit_vector);
            assert(word & 0x1fffff == word % 0x200000) by (bit_vector);
        }
        let transform = if word & TRANSFORM_TYPE_MASK == TRANSFORM_TYPE_OFFSET {
            Transform::Offset(word & TRANSFORM_OFFSET_MASK)
        } else {
            Transform::Identity
        };
        let cursor = if trie_type == TRIE_TYPE_BYTES {
            Cursor::Bytes(BytesTrie::new(root))
        } else {
            Cursor::UChars(UCharsTrie::new(root, big_endian))
        };
        Ok(DictionaryIterator::from_parts(dictionary, cursor, transform, input))
    }

    /// Advances to the end of the longest key that starts at the front
    /// offset and returns that end; where only shorter keys were met on the
    /// way, to the end of the longest of them. Returns `None`, with the front
    /// offset moved to the end of the input, where no key starts there, and
    /// `None` once the input is used up.
    pub fn next(&mut self) -> (r: Option<usize>)
        ensures
            (final(self).front_offset, r) == old(self).advance_spec(),
            final(self).dictionary@ == old(self).dictionary@,
            final(self).input@ == old(self).input@,
            final(self).transform == old(self).transform,
            final(self).cursor.reset_spec() == old(self).cursor.reset_spec(),
    {
        if self.input.len() <= self.front_offset {
            return None;
        }
        let ghost origin = self.cursor.reset_spec();
        let ghost goal = scan(
            self.dictionary@,
            self.input@,
            self.transform,
            origin,
            self.front_offset as int,
            0,
            0,
        );
        let mut i: usize = 0;
        let mut intermediate_length: usize = 0;
        loop
            invariant
                self.dictionary@ == old(self).dictionary@,
                self.input@ == old(self).input@,
                self.transform == old(self).transform,
                self.front_offset == old(self).front_offset,
                self.front_offset < self.input@.len(),
                self.front_offset + i <= self.input@.len(),
                self.cursor.reset_spec() == origin,
                origin == old(self).cursor.reset_spec(),
                intermediate_length <= i,
                goal == scan(
                    self.dictionary@,
                    self.input@,
                    self.transform,
                    origin,
                    self.front_offset as int,
                    0,
                    0,
                ),
                i > 0 ==> scan(
                    self.dictionary@,
                    self.input@,
                    self.transform,
                    self.cursor,
                    self.front_offset as int,
                    i as int,
                    intermediate_length as int,
                ) == goal,
                i == 0 ==> intermediate_length == 0,
            decreases self.input@.len() - self.front_offset - i,
        {
            if self.input.len() - self.front_offset <= i {
                // The input ends inside a match.
                self.front_offset = self.input.len();
                return Some(self.front_offset);
            }
            let unit = self.transform(self.input[self.front_offset + i]);
            let dictionary = self.dictionary;
            proof {
                assert(dictionary@.len() == dictionary.len());
                self.cursor.lemma_first_from_origin(dictionary@, unit as int);
                self.cursor.lemma_steps_settle(dictionary@, unit as int);
            }
            let result = if i == 0 {
                self.cursor.first(dictionary, unit)
            } else {
                self.cursor.next(dictionary, unit)
            };
            match result {
                TrieResult::FinalValue => {
                    self.front_offset = self.front_offset + i + 1;
                    return Some(self.front_offset);
                },
                TrieResult::Intermediate => {
                    intermediate_length = i + 1;
                },
                TrieResult::NoValue => {},
                TrieResult::NoMatch => {
                    if intermediate_length > 0 {
                        self.front_offset = self.front_offset + intermediate_length;
                        return Some(self.front_offset);
                    }
                    // No key starts here.
                    self.front_offset = self.input.len();
                    return None;
                },
            }
            i = i + 1;
        }
    }

    /// The trie unit for the code unit `c`, or -1 where the transform
    /// refuses it.
    pub fn transform(&self, c: u16) -> (r: i32)
        ensures
            r == transform_unit(self.transform, c),
    {
        match self.transform {
            Transform::Identity => c as i32,
            Transform::Offset(base) => {
                if c == 0x200c {
                    0xfe
                } else if c == 0x200d {
                    0xff
                } else if (c as u32) < base || c as u32 - base > 0xfd {
                    -1
                } else {
                    (c as u32 - base) as i32
                }
            },
        }
    }
}

proof fn lemma_scan_bounds(
    data: Seq<u8>,
    input: Seq<u16>,
    transform: Transform,
    cursor: Cursor,
    front: int,
    i: int,
    best: int,
)
    requires
        0 <= front < input.len(),
        0 <= best <= i,
        front + i <= input.len(),
    ensures
        scan(data, input, transform, cursor, front, i, best) matches Some(n) ==> front < n
            <= input.len(),
    decreases input.len() - front - i,
{
    if front + i < input.len() {
        let unit = transform_unit(transform, input[front + i]);
        let st = if i == 0 {
            cursor.first_spec(data, unit)
        } else {
            cursor.next_spec(data, unit)
        };
        if st.1 == TrieResult::Intermediate {
            lemma_scan_bounds(data, input, transform, st.0, front, i + 1, i + 1);
        } else if st.1 == TrieResult::NoValue {
            lemma_scan_bounds(data, input, transform, st.0, front, i + 1, best);
        }
    }
}

/// A call of `next` that returns a boundary returns one past the front
/// offset and within the input, and moves the front offset there; one that
/// returns `None` leaves the front offset at or past the end of the input.
pub proof fn lemma_advance_bounds(it: DictionaryIterator)
    ensures
        it.advance_spec().1 matches Some(n) ==> it.front_offset < n <= it.input@.len()
            && it.advance_spec().0 == n,
        it.advance_spec().1 is None ==> it.advance_spec().0 >= it.input@.len(),
{
    assert(it.input@.len() == it.input.len());
    if it.front_offset < it.input@.len() {
        lemma_scan_bounds(
            it.dictionary@,
            it.input@,
            it.transform,
            it.cursor.reset_spec(),
            it.front_offset as int,
            0,
            0,
        );
    }
}

/// The boundaries that an iterator returns increase strictly, lie past its
/// front offset, and do not pass the end of the input.
pub proof fn lemma_boundaries_increase(it: DictionaryIterator)
    ensures
        forall|i: int, j: int|
            0 <= i < j < it.boundaries().len() ==> #[trigger] it.boundaries()[i]
                < #[trigger] it.boundaries()[j],
        forall|i: int|
            0 <= i < it.boundaries().len() ==> it.front_offset < #[trigger] it.boundaries()[i]
                <= it.input@.len(),
    decreases it.input@.len() - it.front_offset,
{
    let (f, r) = it.advance_spec();
    if r is Some && it.front_offset < f <= it.input@.len() {
        let rest = it.at_front(f);
        lemma_boundaries_increase(rest);
        assert(it.boundaries() == seq![f] + rest.boundaries());
    }
}

/// Calling `next` until it returns `None` moves the front offset of an
/// iterator to the end of its input: the advances add up to the input's
/// length.
pub proof fn lemma_front_reaches_end(it: DictionaryIterator)
    requires
        it.front_offset <= it.input@.len(),
    ensures
        it.exhausted().front_offset == it.input@.len(),
        it.exhausted().advance_spec().1 is None,
    decreases it.input@.len() - it.front_offset,
{
    lemma_advance_bounds(it);
    let (f, r) = it.advance_spec();
    if r is Some && it.front_offset < f <= it.input@.len() {
        lemma_front_reaches_end(it.at_front(f));
    }
}

/// A code unit that the transform refuses matches nothing, from any state
/// of any cursor.
pub proof fn lemma_untransformable_unit_no_match<T: Trie>(
    cursor: T,
    data: Seq<u8>,
    transform: Transform,
    c: u16,
)
    requires
        transform_unit(transform, c) == -1,
    ensures
        cursor.first_spec(data, transform_unit(transform, c)).1 == TrieResult::NoMatch,
        cursor.next_spec(data, transform_unit(transform, c)).1 == TrieResult::NoMatch,
{
    cursor.lemma_negative_unit(data, transform_unit(transform, c));
}

/// The 32-bit integer at `p`, in the byte order given.
fn read_u32(blob: &[u8], big_endian: bool, p: usize) -> (r: u32)
    requires
        p + 4 <= blob@.len(),
        big_endian == is_big_endian(blob@),
    ensures
        r == u32_at(blob@, p as int),
{
    let b0 = blob[p] as u32;
    let b1 = blob[p + 1] as u32;
    let b2 = blob[p + 2] as u32;
    let b3 = blob[p + 3] as u32;
    if big_endian {
        b0 * 0x1000000 + b1 * 0x10000 + b2 * 0x100 + b3
    } else {
        b0 + b1 * 0x100 + b2 * 0x10000 + b3 * 0x1000000
    }
}

} // verus!

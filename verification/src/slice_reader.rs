//! The reader of one piece of a file: a range within one block, the bytes
//! fetched for it, and the state of the fetch.
use vstd::prelude::*;
use std::ops::Range;

verus! {

/// The life of a slice reader:
///
/// ```text
/// New --> Busy --> Ready
///  ^       |         |
///  |       v         v
/// Refresh Break --> Invalid
/// ```
#[derive(Debug, Clone, Copy, PartialEq, Eq, Structural)]
pub enum SliceReaderState {
    /// Waiting for its fetch to start.
    New,
    /// The fetch is running.
    Busy,
    /// The bytes are to be fetched again.
    Refresh,
    /// The fetch is to be given up.
    Break,
    /// The bytes are there.
    Ready,
    /// The reader is of no use any more and is to be removed.
    Invalid,
}

/// The state that stands behind the number `v`.
pub open spec fn state_of(v: u8) -> SliceReaderState {
    if v == 0 {
        SliceReaderState::New
    } else if v == 1 {
        SliceReaderState::Busy
    } else if v == 2 {
        SliceReaderState::Refresh
    } else if v == 3 {
        SliceReaderState::Break
    } else if v == 4 {
        SliceReaderState::Ready
    } else {
        SliceReaderState::Invalid
    }
}

impl SliceReaderState {
    /// Whether a reader in this state serves reads, now or later.
    pub open spec fn is_valid(self) -> bool {
        !(self is Break) && !(self is Invalid)
    }

    /// Whether a reader in this state serves reads, now or later.
    pub fn valid(&self) -> (b: bool)
        ensures
            b == self.is_valid(),
    {
        !matches!(self, SliceReaderState::Break | SliceReaderState::Invalid)
    }

    /// The number that stands for this state.
    pub fn to_u8(self) -> (v: u8)
        ensures
            v < 6,
            state_of(v) == self,
    {
        match self {
            SliceReaderState::New => 0,
            SliceReaderState::Busy => 1,
            SliceReaderState::Refresh => 2,
            SliceReaderState::Break => 3,
            SliceReaderState::Ready => 4,
            SliceReaderState::Invalid => 5,
        }
    }
}

impl From<u8> for SliceReaderState {
    /// The state that stands behind the number `v`; a number that stands
    /// for no state is taken as `Invalid`.
    fn from(v: u8) -> (s: Self) {
        match v {
            0 => SliceReaderState::New,
            1 => SliceReaderState::Busy,
            2 => SliceReaderState::Refresh,
            3 => SliceReaderState::Break,
            4 => SliceReaderState::Ready,
            _ => SliceReaderState::Invalid,
        }
    }
}

impl vstd::std_specs::convert::FromSpecImpl<u8> for SliceReaderState {
    open spec fn obeys_from_spec() -> bool {
        true
    }

    open spec fn from_spec(v: u8) -> Self {
        state_of(v)
    }
}

/// What the background task of a slice reader does when it ends.
#[derive(Debug, Clone, Copy, PartialEq, Eq, Structural)]
pub enum CleanupAction {
    /// Try the fetch again after a delay.
    Retry,
    /// Keep the reader: its bytes are there.
    Keep,
    /// Remove the reader from its file reader.
    Delete,
    /// Nothing.
    Nothing,
}

/// The state in which the background task of a reader leaves it: a fetch
/// that was under way or asked for again starts over; a fetch that was
/// given up, or any reader of a file reader that is closing, ends.
pub open spec fn cleaned(state: SliceReaderState, closing: bool) -> SliceReaderState {
    if state is Busy || state is Refresh {
        SliceReaderState::New
    } else if state is Break || closing {
        SliceReaderState::Invalid
    } else {
        state
    }
}

/// What is to be done with a reader that its background task left in
/// `state`.
pub open spec fn action_for(state: SliceReaderState) -> CleanupAction {
    match state {
        SliceReaderState::New => CleanupAction::Retry,
        SliceReaderState::Ready => CleanupAction::Keep,
        SliceReaderState::Invalid => CleanupAction::Delete,
        _ => CleanupAction::Nothing,
    }
}

/// Decides in which state the background task of a reader leaves it, and
/// what is to be done with the reader then.
pub fn cleanup_transition(state: SliceReaderState, closing: bool) -> (out: (
    SliceReaderState,
    CleanupAction,
))
    ensures
        out.0 == cleaned(state, closing),
        out.1 == action_for(out.0),
{
    let next = if matches!(state, SliceReaderState::Busy | SliceReaderState::Refresh) {
        SliceReaderState::New
    } else if matches!(state, SliceReaderState::Break) || closing {
        SliceReaderState::Invalid
    } else {
        state
    };
    let action = match next {
        SliceReaderState::New => CleanupAction::Retry,
        SliceReaderState::Ready => CleanupAction::Keep,
        SliceReaderState::Invalid => CleanupAction::Delete,
        _ => CleanupAction::Nothing,
    };
    (next, action)
}

/// The reader of one piece of a file.
#[derive(Debug)]
pub struct SliceReader {
    internal_seq_id: u64,
    chunk_idx: usize,
    range: Range<usize>,
    state: SliceReaderState,
    last_access: usize,
    read_buf: Vec<u8>,
}

impl SliceReader {
    /// The local sequence number, which identifies the reader.
    pub closed spec fn seq(&self) -> u64 {
        self.internal_seq_id
    }

    /// The chunk in which the piece lies.
    pub closed spec fn chunk_idx(&self) -> usize {
        self.chunk_idx
    }

    /// The piece of the file that the reader covers.
    pub closed spec fn range(&self) -> Range<usize> {
        self.range
    }

    /// The state of the fetch.
    pub closed spec fn state(&self) -> SliceReaderState {
        self.state
    }

    /// When the reader last served a request.
    pub closed spec fn last_access(&self) -> usize {
        self.last_access
    }

    /// The bytes fetched for the piece.
    pub closed spec fn bytes(&self) -> Seq<u8> {
        self.read_buf@
    }

    /// The reader's invariant: its piece is not empty, and once it is ready
    /// it holds one byte for each offset of the piece.
    pub open spec fn wf(&self) -> bool {
        &&& self.range().start < self.range().end
        &&& self.state() is Ready ==> self.bytes().len() == self.range().end - self.range().start
    }

    /// Whether the reader serves reads, now or later.
    pub open spec fn is_valid(&self) -> bool {
        self.state().is_valid()
    }

    /// Whether the reader covers the whole of `r`.
    pub open spec fn contains_range(&self, r: Range<usize>) -> bool {
        self.range().start <= r.start && self.range().end >= r.end
    }

    /// This reader in the state `state`, last used at `last_access`.
    pub closed spec fn with_state(self, state: SliceReaderState, last_access: usize) -> SliceReader {
        SliceReader { state, last_access, ..self }
    }

    /// A new reader for the bytes `[start, end)` of the file, in the chunk
    /// `chunk_idx`, made at the time `now`.
    pub fn new(seq: u64, chunk_idx: usize, start: usize, end: usize, now: usize) -> (sr: SliceReader)
        requires
            start < end,
        ensures
            sr.wf(),
            sr.seq() == seq,
            sr.chunk_idx() == chunk_idx,
            sr.range().start == start,
            sr.range().end == end,
            sr.state() is New,
            sr.last_access() == now,
            sr.bytes().len() == 0,
    {
        SliceReader {
            internal_seq_id: seq,
            chunk_idx,
            range: start..end,
            state: SliceReaderState::New,
            last_access: now,
            read_buf: Vec::new(),
        }
    }

    /// The local sequence number.
    pub fn internal_seq_id(&self) -> (seq: u64)
        ensures
            seq == self.seq(),
    {
        self.internal_seq_id
    }

    /// Where the piece starts in the file.
    pub fn start(&self) -> (p: usize)
        ensures
            p == self.range().start,
    {
        self.range.start
    }

    /// Where the piece ends in the file.
    pub fn end(&self) -> (p: usize)
        ensures
            p == self.range().end,
    {
        self.range.end
    }

    /// The state of the fetch.
    pub fn get_state(&self) -> (s: SliceReaderState)
        ensures
            s == self.state(),
    {
        self.state
    }

    /// Whether the reader serves reads, now or later.
    pub fn valid(&self) -> (b: bool)
        ensures
            b == self.is_valid(),
    {
        self.state.valid()
    }

    /// Whether the reader covers the whole of `rhs`.
    pub fn covers(&self, rhs: &Range<usize>) -> (b: bool)
        ensures
            b == self.contains_range(*rhs),
    {
        self.range.start <= rhs.start && self.range.end >= rhs.end
    }

    /// Notes that the reader served a request at the time `now`.
    pub fn touch(&mut self, now: usize)
        ensures
            *final(self) == old(self).with_state(old(self).state(), now),
    {
        self.last_access = now;
    }

    /// Starts the fetch, if the reader is new and its file reader is not
    /// closing. Says whether the fetch is to be made; if not, the
    /// background task has nothing left but to clean up.
    pub fn begin_fetch(&mut self, closing: bool) -> (fetch: bool)
        ensures
            fetch == (old(self).state() is New && !closing),
            *final(self) == old(self).with_state(
                if fetch {
                    SliceReaderState::Busy
                } else {
                    old(self).state()
                },
                old(self).last_access(),
            ),
    {
        if !matches!(self.state, SliceReaderState::New) || closing {
            return false;
        }
        self.state = SliceReaderState::Busy;
        true
    }

    /// Takes the fetched bytes. They count only if the fetch was under way
    /// and brought one byte for each offset of the piece: then the reader
    /// is ready. Says whether they counted.
    pub fn complete_fetch(&mut self, data: Vec<u8>) -> (counted: bool)
        requires
            old(self).wf(),
        ensures
            final(self).wf(),
            counted == (old(self).state() is Busy
                && data@.len() == old(self).range().end - old(self).range().start),
            !counted ==> *final(self) == *old(self),
            counted ==> final(self).state() is Ready && final(self).bytes() == data@
                && final(self).seq() == old(self).seq() && final(self).range() == old(self).range()
                && final(self).chunk_idx() == old(self).chunk_idx()
                && final(self).last_access() == old(self).last_access(),
    {
        if !matches!(self.state, SliceReaderState::Busy) || data.len() != self.range.end
            - self.range.start {
            return false;
        }
        self.read_buf = data;
        self.state = SliceReaderState::Ready;
        true
    }

    /// Ends the background task of the reader: moves the reader to the
    /// state in which the task leaves it and says what is to be done next.
    pub fn cleanup(&mut self, closing: bool) -> (action: CleanupAction)
        requires
            old(self).wf(),
        ensures
            final(self).wf(),
            *final(self) == old(self).with_state(
                cleaned(old(self).state(), closing),
                old(self).last_access(),
            ),
            action == action_for(cleaned(old(self).state(), closing)),
    {
        let (next, action) = cleanup_transition(self.state, closing);
        self.state = next;
        action
    }

    /// Appends to `out` the bytes of the piece from `from` up to `to`, both
    /// counted from the start of the piece. Only a ready reader has bytes
    /// to give, and only for a range inside its piece.
    pub fn copy_out(&self, from: usize, to: usize, out: &mut Vec<u8>) -> (done: bool)
        ensures
            done == (self.state() is Ready && from <= to <= self.bytes().len()),
            done ==> final(out)@ == old(out)@ + self.bytes().subrange(from as int, to as int),
            !done ==> final(out)@ == old(out)@,
    {
        if !matches!(self.state, SliceReaderState::Ready) || from > to || to > self.read_buf.len() {
            return false;
        }
        let mut k: usize = from;
        proof {
            assert(old(out)@ + self.bytes().subrange(from as int, from as int) =~= old(out)@);
        }
        while k < to
            invariant
                from <= k <= to,
                to <= self.read_buf.len(),
                out@ == old(out)@ + self.bytes().subrange(from as int, k as int),
            decreases to - k,
        {
            out.push(self.read_buf[k]);
            k = k + 1;
            assert(out@ =~= old(out)@ + self.bytes().subrange(from as int, k as int));
        }
        true
    }
}

/// What changing the state of a reader leaves as it was.
pub broadcast proof fn lemma_with_state(r: SliceReader, state: SliceReaderState, at: usize)
    ensures
        (#[trigger] r.with_state(state, at)).state() == state,
        r.with_state(state, at).last_access() == at,
        r.with_state(state, at).seq() == r.seq(),
        r.with_state(state, at).chunk_idx() == r.chunk_idx(),
        r.with_state(state, at).range() == r.range(),
        r.with_state(state, at).bytes() == r.bytes(),
        r.with_state(r.state(), r.last_access()) == r,
{
}

/// Changing the state of a reader twice is changing it once.
pub broadcast proof fn lemma_with_state_twice(
    r: SliceReader,
    s1: SliceReaderState,
    t1: usize,
    s2: SliceReaderState,
    t2: usize,
)
    ensures
        #[trigger] r.with_state(s1, t1).with_state(s2, t2) == r.with_state(s2, t2),
{
}

pub broadcast group group_slice_reader {
    lemma_with_state,
    lemma_with_state_twice,
}

/// The life of a slice reader: only a new reader starts a fetch; a fetch
/// that ends well makes the reader ready; cleaning up never revives a
/// reader that is invalid, and makes every reader of a closing file reader
/// invalid unless its fetch was under way or asked for again.
pub proof fn lemma_reader_life(state: SliceReaderState, closing: bool)
    ensures
        state is Invalid ==> cleaned(state, closing) is Invalid,
        state is Break ==> cleaned(state, closing) is Invalid,
        (state is Busy || state is Refresh) ==> cleaned(state, closing) is New,
        closing && !(state is Busy) && !(state is Refresh) ==> cleaned(state, closing) is Invalid,
        !closing && (state is New || state is Ready) ==> cleaned(state, closing) == state,
        !cleaned(state, closing).is_valid() ==> action_for(cleaned(state, closing))
            == CleanupAction::Delete,
{
}

} // verus!

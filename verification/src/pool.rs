//! A bounded pool of equally sized pages inside one pre-allocated file.
//!
//! The pool hands out page tokens and takes them back. It never touches the
//! file itself: a token says which bytes of the mapped file its holder may
//! use, and the copy routines of a token work on the mapped bytes that the
//! caller passes in.
use vstd::prelude::*;
use crossbeam_queue::ArrayQueue;
use crate::err::StorageError;

verus! {

#[verifier::external_type_specification]
#[verifier::external_body]
#[verifier::reject_recursive_types(T)]
pub struct ExArrayQueue<T>(ArrayQueue<T>);

/// The page ids waiting in a queue, the one that leaves next first.
pub uninterp spec fn queue_items(q: ArrayQueue<u64>) -> Seq<u64>;

/// The number of ids that a queue was made to hold.
pub uninterp spec fn queue_limit(q: ArrayQueue<u64>) -> nat;

/// `ArrayQueue::new`: an empty queue for at most `cap` ids. The outside
/// function panics on a capacity of zero and on one whose slots, of sixteen
/// bytes each, do not fit the address space, which `requires` leaves out.
#[verifier::external_body]
fn queue_new(cap: usize) -> (q: ArrayQueue<u64>)
    requires
        0 < cap <= isize::MAX / 16,
    ensures
        queue_items(q) == Seq::<u64>::empty(),
        queue_limit(q) == cap,
{
    ArrayQueue::new(cap)
}

/// `ArrayQueue::push`: appends `id` behind the waiting ids unless the queue
/// is full, and says whether it did. A full queue is left as it was.
#[verifier::external_body]
fn queue_push(q: &mut ArrayQueue<u64>, id: u64) -> (pushed: bool)
    ensures
        queue_limit(*final(q)) == queue_limit(*old(q)),
        pushed == (queue_items(*old(q)).len() < queue_limit(*old(q))),
        pushed ==> queue_items(*final(q)) == queue_items(*old(q)).push(id),
        !pushed ==> queue_items(*final(q)) == queue_items(*old(q)),
{
    q.push(id).is_ok()
}

/// `ArrayQueue::pop`: takes the id that has waited longest, or nothing from
/// an empty queue.
#[verifier::external_body]
fn queue_pop(q: &mut ArrayQueue<u64>) -> (id: Option<u64>)
    ensures
        queue_limit(*final(q)) == queue_limit(*old(q)),
        queue_items(*old(q)).len() == 0 ==> id is None && queue_items(*final(q)) == queue_items(
            *old(q),
        ),
        queue_items(*old(q)).len() > 0 ==> id == Some(queue_items(*old(q))[0]) && queue_items(
            *final(q),
        ) == queue_items(*old(q)).drop_first(),
{
    q.pop()
}

/// `ArrayQueue::len`: the number of waiting ids.
#[verifier::external_body]
fn queue_len(q: &ArrayQueue<u64>) -> (n: usize)
    ensures
        n == queue_items(*q).len(),
{
    q.len()
}

/// Number of `true` entries in `s`.
pub open spec fn count_true(s: Seq<bool>) -> nat
    decreases s.len(),
{
    if s.len() == 0 {
        0
    } else {
        count_true(s.drop_last()) + if s.last() {
            1nat
        } else {
            0nat
        }
    }
}

proof fn lemma_count_update(s: Seq<bool>, i: int, b: bool)
    requires
        0 <= i < s.len(),
    ensures
        count_true(s.update(i, b)) + (if s[i] {
            1int
        } else {
            0int
        }) == count_true(s) + (if b {
            1int
        } else {
            0int
        }),
    decreases s.len(),
{
    let t = s.update(i, b);
    if i == s.len() - 1 {
        assert(t.drop_last() =~= s.drop_last());
    } else {
        assert(t.drop_last() =~= s.drop_last().update(i, b));
        lemma_count_update(s.drop_last(), i, b);
    }
}

proof fn lemma_count_bounds(s: Seq<bool>)
    ensures
        count_true(s) <= s.len(),
        (forall|i: int| 0 <= i < s.len() ==> !s[i]) ==> count_true(s) == 0,
        (exists|i: int| 0 <= i < s.len() && s[i]) ==> count_true(s) > 0,
    decreases s.len(),
{
    if s.len() > 0 {
        lemma_count_bounds(s.drop_last());
        if exists|i: int| 0 <= i < s.len() && s[i] {
            let i = choose|i: int| 0 <= i < s.len() && s[i];
            if i < s.len() - 1 {
                assert(s.drop_last()[i]);
            }
        }
    }
}

proof fn lemma_page_span(id: int, total: int, page_size: int)
    requires
        0 <= id < total,
        page_size > 0,
    ensures
        0 <= id * page_size,
        id * page_size + page_size <= total * page_size,
{
    assert(0 <= id * page_size && id * page_size + page_size <= total * page_size)
        by (nonlinear_arith)
        requires
            0 <= id < total,
            page_size > 0,
    ;
}

/// An exclusive token for one page of the pool file.
#[derive(Debug)]
pub struct FilePage {
    page_id: u64,
    start: usize,
    size: usize,
}

impl FilePage {
    /// The number of the page.
    pub closed spec fn id(&self) -> u64 {
        self.page_id
    }

    /// Offset in the pool file of the page's first byte.
    pub closed spec fn start(&self) -> int {
        self.start as int
    }

    /// The size of the page in bytes.
    pub closed spec fn size(&self) -> int {
        self.size as int
    }

    /// A page starts at its number times its size and ends within the
    /// address space.
    pub open spec fn wf(&self) -> bool {
        &&& self.start() == self.id() * self.size()
        &&& self.start() + self.size() <= usize::MAX
    }

    /// The number of the page.
    pub fn page_id(&self) -> (id: u64)
        ensures
            id == self.id(),
    {
        self.page_id
    }

    /// The size of the page in bytes.
    pub fn page_size(&self) -> (size: usize)
        ensures
            size == self.size(),
    {
        self.size
    }

    /// Offset in the pool file of the page's first byte.
    pub fn cal_offset(&self) -> (start: usize)
        ensures
            start == self.start(),
    {
        self.start
    }

    /// Copies `data` into the page at `offset`, through the mapped bytes
    /// `image` of the pool file. Nothing is copied unless the whole of `data`
    /// fits the page and the page's bytes exist in `image`.
    pub fn copy_from_reader(&self, image: &mut [u8], offset: usize, data: &[u8]) -> (done: Result<
        (),
        StorageError,
    >)
        requires
            self.wf(),
        ensures
            final(image)@.len() == old(image)@.len(),
            done is Ok <==> offset + data.len() <= self.size() && self.start() + self.size()
                <= old(image)@.len(),
            done is Err ==> done == Err::<(), StorageError>(StorageError::Bounds) && final(image)@
                == old(image)@,
            done is Ok ==> final(image)@ == old(image)@.subrange(0, self.start() + offset)
                + data@ + old(image)@.subrange(
                self.start() + offset + data.len(),
                old(image)@.len() as int,
            ),
    {
        if offset > self.size || data.len() > self.size - offset || self.size > image.len()
            || self.start > image.len() - self.size {
            return Err(StorageError::Bounds);
        }
        let base: usize = self.start + offset;
        let mut k: usize = 0;
        while k < data.len()
            invariant
                k <= data.len(),
                base + data.len() <= image.len(),
                image@.len() == old(image)@.len(),
                forall|i: int| 0 <= i < k ==> image@[base + i] == data@[i],
                forall|i: int|
                    0 <= i < image@.len() && !(base <= i < base + k) ==> image@[i] == old(image)@[i],
            decreases data.len() - k,
        {
            image[base + k] = data[k];
            k = k + 1;
        }
        assert(image@ =~= old(image)@.subrange(0, base as int) + data@ + old(image)@.subrange(
            base + data.len(),
            old(image)@.len() as int,
        ));
        Ok(())
    }

    /// Appends to `out` the `length` bytes of the page that start at
    /// `offset`, read from the mapped bytes `image` of the pool file. Nothing
    /// is appended unless the range fits the page and the page's bytes exist
    /// in `image`.
    pub fn copy_to_writer(&self, image: &[u8], offset: usize, length: usize, out: &mut Vec<u8>) -> (done:
        Result<(), StorageError>)
        requires
            self.wf(),
        ensures
            done is Ok <==> offset + length <= self.size() && self.start() + self.size()
                <= image@.len(),
            done is Err ==> done == Err::<(), StorageError>(StorageError::Bounds) && final(out)@
                == old(out)@,
            done is Ok ==> final(out)@ == old(out)@ + image@.subrange(
                self.start() + offset,
                self.start() + offset + length,
            ),
    {
        if offset > self.size || length > self.size - offset || self.size > image.len()
            || self.start > image.len() - self.size {
            return Err(StorageError::Bounds);
        }
        let base: usize = self.start + offset;
        let mut k: usize = 0;
        while k < length
            invariant
                k <= length,
                base + length <= image.len(),
                out@ == old(out)@ + image@.subrange(base as int, base + k),
            decreases length - k,
        {
            out.push(image[base + k]);
            k = k + 1;
            assert(out@ =~= old(out)@ + image@.subrange(base as int, base + k));
        }
        Ok(())
    }
}

/// What was written into a page is what is read back from it.
pub proof fn lemma_page_round_trip(image: Seq<u8>, at: int, data: Seq<u8>)
    requires
        0 <= at,
        at + data.len() <= image.len(),
    ensures
        (image.subrange(0, at) + data + image.subrange(
            at + data.len(),
            image.len() as int,
        )).subrange(at, at + data.len()) == data,
{
    let after = image.subrange(0, at) + data + image.subrange(
        at + data.len(),
        image.len() as int,
    );
    assert(after.subrange(at, at + data.len()) =~= data);
}

/// The pool: which pages of the file are free, in the order they will be
/// handed out, and which are with a holder.
pub struct DiskPagePool {
    page_size: usize,
    capacity: usize,
    queue: ArrayQueue<u64>,
    in_use: Vec<bool>,
}

impl DiskPagePool {
    /// The size of each page in bytes.
    pub closed spec fn page_size(&self) -> int {
        self.page_size as int
    }

    /// The size of the pool file in bytes.
    pub closed spec fn capacity(&self) -> int {
        self.capacity as int
    }

    /// The number of pages in the pool file.
    pub open spec fn total(&self) -> int {
        self.capacity() / self.page_size()
    }

    /// The free pages, the one handed out next first.
    pub closed spec fn free(&self) -> Seq<u64> {
        queue_items(self.queue)
    }

    /// Whether the page `id` is with a holder.
    pub closed spec fn is_out(&self, id: u64) -> bool {
        id < self.in_use.len() && self.in_use[id as int]
    }

    /// The number of pages that are with a holder.
    pub closed spec fn outstanding(&self) -> nat {
        count_true(self.in_use@)
    }

    /// The pool's invariant: the file is cut into at least two whole pages,
    /// and every page is either free, once, or with a holder.
    pub closed spec fn wf(&self) -> bool {
        &&& self.page_size > 0
        &&& self.capacity % self.page_size == 0
        &&& self.capacity > self.page_size
        &&& self.in_use.len() == self.capacity / self.page_size
        &&& queue_limit(self.queue) == self.in_use.len()
        &&& self.free().no_duplicates()
        &&& forall|k: int|
            0 <= k < self.free().len() ==> (#[trigger] self.free()[k]) < self.in_use.len()
                && !self.in_use[self.free()[k] as int]
        &&& self.free().len() + count_true(self.in_use@) == self.in_use.len()
        &&& forall|id: int|
            0 <= id < self.in_use.len() && !(#[trigger] self.in_use[id]) ==> self.free().contains(
                id as u64,
            )
    }

    /// A pool over a file of `capacity` bytes cut into pages of `page_size`
    /// bytes, all of them free, lowest number first.
    pub fn new(page_size: usize, capacity: usize) -> (pool: DiskPagePool)
        requires
            page_size > 0,
            capacity % page_size == 0,
            capacity > page_size,
            capacity / page_size <= isize::MAX / 16,
        ensures
            pool.wf(),
            pool.page_size() == page_size,
            pool.capacity() == capacity,
            pool.free().len() == pool.total(),
            forall|k: int| 0 <= k < pool.total() ==> pool.free()[k] == k,
            pool.outstanding() == 0,
    {
        let cnt: usize = capacity / page_size;
        assert(cnt > 0) by (nonlinear_arith)
            requires
                cnt == capacity / page_size,
                capacity > page_size > 0,
        ;
        let mut queue = queue_new(cnt);
        let mut in_use: Vec<bool> = Vec::new();
        let mut page_id: usize = 0;
        while page_id < cnt
            invariant
                page_id <= cnt,
                queue_limit(queue) == cnt,
                queue_items(queue).len() == page_id,
                in_use.len() == page_id,
                forall|k: int| 0 <= k < page_id ==> queue_items(queue)[k] == k,
                forall|k: int| 0 <= k < page_id ==> !in_use[k],
            decreases cnt - page_id,
        {
            let pushed = queue_push(&mut queue, page_id as u64);
            assert(pushed);
            in_use.push(false);
            page_id = page_id + 1;
        }
        proof {
            lemma_count_bounds(in_use@);
            assert(queue_items(queue).no_duplicates());
            assert forall|id: int| 0 <= id < in_use.len() && !(#[trigger] in_use[id]) implies queue_items(
                queue,
            ).contains(id as u64) by {
                assert(queue_items(queue)[id] == id as u64);
            }
        }
        DiskPagePool { page_size, capacity, queue, in_use }
    }

    /// Takes the next free page, if there is one. Never waits.
    pub fn try_acquire_page(&mut self) -> (page: Option<FilePage>)
        requires
            old(self).wf(),
        ensures
            final(self).wf(),
            final(self).page_size() == old(self).page_size(),
            final(self).capacity() == old(self).capacity(),
            page is None <==> old(self).free().len() == 0,
            page is None ==> final(self).free() == old(self).free() && final(self).outstanding()
                == old(self).outstanding(),
            page matches Some(p) ==> {
                &&& p.id() == old(self).free()[0]
                &&& p.size() == old(self).page_size()
                &&& p.wf()
                &&& p.start() + p.size() <= old(self).capacity()
                &&& !old(self).is_out(p.id())
                &&& final(self).is_out(p.id())
                &&& final(self).free() == old(self).free().drop_first()
                &&& final(self).outstanding() == old(self).outstanding() + 1
            },
            forall|id: u64|
                (page is None || page->Some_0.id() != id)
                    ==> final(self).is_out(id) == old(self).is_out(id),
    {
        match queue_pop(&mut self.queue) {
            None => None,
            Some(id) => {
                proof {
                    assert(old(self).free()[0] == id);
                    lemma_count_update(old(self).in_use@, id as int, true);
                    lemma_page_span(
                        id as int,
                        (self.capacity / self.page_size) as int,
                        self.page_size as int,
                    );
                    vstd::arithmetic::div_mod::lemma_fundamental_div_mod(
                        self.capacity as int,
                        self.page_size as int,
                    );
                    assert(self.page_size * (self.capacity / self.page_size) == (self.capacity
                        / self.page_size) * self.page_size) by (nonlinear_arith);
                }
                self.in_use.set(id as usize, true);
                let start: usize = (id as usize) * self.page_size;
                proof {
                    assert forall|k: int| 0 <= k < self.free().len() implies (
                    #[trigger] self.free()[k]) < self.in_use.len()
                        && !self.in_use[self.free()[k] as int] by {
                        assert(self.free()[k] == old(self).free()[k + 1]);
                    }
                    assert forall|other: int|
                        0 <= other < self.in_use.len() && !(
                        #[trigger] self.in_use[other]) implies self.free().contains(
                        other as u64,
                    ) by {
                        assert(!old(self).in_use[other]);
                        assert(old(self).free().contains(other as u64));
                        let k = choose|k: int|
                            0 <= k < old(self).free().len() && old(self).free()[k] == other as u64;
                        assert(k > 0);
                        assert(self.free()[k - 1] == other as u64);
                    }
                }
                Some(FilePage { page_id: id, start, size: self.page_size })
            },
        }
    }

    /// Takes a page back. Says whether the pool had handed the page out:
    /// only then does the page become free again, behind the other free
    /// pages; otherwise the pool is left as it was.
    pub fn release_page(&mut self, page: FilePage) -> (returned: bool)
        requires
            old(self).wf(),
        ensures
            final(self).wf(),
            final(self).page_size() == old(self).page_size(),
            final(self).capacity() == old(self).capacity(),
            returned == old(self).is_out(page.id()),
            !final(self).is_out(page.id()),
            returned ==> {
                &&& final(self).free() == old(self).free().push(page.id())
                &&& final(self).outstanding() == old(self).outstanding() - 1
            },
            !returned ==> final(self).free() == old(self).free() && final(self).outstanding()
                == old(self).outstanding(),
            forall|id: u64| id != page.id() ==> final(self).is_out(id) == old(self).is_out(id),
    {
        let id: u64 = page.page_id;
        if id >= self.in_use.len() as u64 {
            return false;
        }
        if !self.in_use[id as usize] {
            return false;
        }
        proof {
            lemma_count_update(old(self).in_use@, id as int, false);
            lemma_count_bounds(old(self).in_use@);
        }
        self.in_use.set(id as usize, false);
        let pushed = queue_push(&mut self.queue, id);
        proof {
            assert(pushed);
            assert forall|k: int| 0 <= k < self.free().len() implies (#[trigger] self.free()[k])
                < self.in_use.len() && !self.in_use[self.free()[k] as int] by {
                if k < old(self).free().len() {
                    assert(self.free()[k] == old(self).free()[k]);
                }
            }
            assert forall|other: int|
                0 <= other < self.in_use.len() && !(#[trigger] self.in_use[other]) implies self.free().contains(
                other as u64,
            ) by {
                if other == id {
                    assert(self.free()[self.free().len() - 1] == id);
                } else {
                    assert(!old(self).in_use[other]);
                    assert(old(self).free().contains(other as u64));
                    let k = choose|k: int|
                        0 <= k < old(self).free().len() && old(self).free()[k] == other as u64;
                    assert(self.free()[k] == other as u64);
                }
            }
            assert(self.free().no_duplicates()) by {
                assert forall|i: int, j: int|
                    0 <= i < self.free().len() && 0 <= j < self.free().len()
                        && i != j implies self.free()[i]
                    != self.free()[j] by {
                    if i < old(self).free().len() {
                        assert(self.free()[i] == old(self).free()[i]);
                    }
                    if j < old(self).free().len() {
                        assert(self.free()[j] == old(self).free()[j]);
                    }
                }
            }
        }
        true
    }

    /// The number of free pages.
    pub fn remain_page_cnt(&self) -> (n: usize)
        ensures
            n == self.free().len(),
    {
        queue_len(&self.queue)
    }

    /// The number of pages in the pool file.
    pub fn total_page_cnt(&self) -> (n: usize)
        requires
            self.wf(),
        ensures
            n == self.total(),
    {
        self.capacity / self.page_size
    }

    /// The size of each page in bytes.
    pub fn page_bytes(&self) -> (n: usize)
        ensures
            n == self.page_size(),
    {
        self.page_size
    }

    /// The size of the pool file in bytes.
    pub fn capacity_bytes(&self) -> (n: usize)
        ensures
            n == self.capacity(),
    {
        self.capacity
    }

    /// Whether more than seven tenths of the pages are free.
    pub fn mostly_free(&self) -> (yes: bool)
        requires
            self.wf(),
        ensures
            yes == (self.free().len() * 10 > self.total() * 7),
    {
        let remain: u128 = queue_len(&self.queue) as u128;
        let total: u128 = (self.capacity / self.page_size) as u128;
        remain * 10 > total * 7
    }

    /// A page that is with a holder lies within the pool file.
    pub proof fn lemma_out_page_span(&self, id: u64)
        requires
            self.wf(),
            self.is_out(id),
        ensures
            0 <= id < self.total(),
            id * self.page_size() + self.page_size() <= self.capacity(),
    {
        self.lemma_accounting();
        lemma_page_span(id as int, self.total(), self.page_size());
    }

    /// Every page is either free, once, or with a holder: the free pages
    /// and the pages handed out add up to all pages of the file, and a
    /// page is with a holder exactly if it is not among the free pages.
    pub proof fn lemma_accounting(&self)
        requires
            self.wf(),
        ensures
            self.free().len() + self.outstanding() == self.total(),
            self.total() >= 2,
            self.page_size() > 0,
            self.total() * self.page_size() == self.capacity(),
            forall|k: int| 0 <= k < self.free().len() ==> !self.is_out(#[trigger] self.free()[k]),
            forall|id: u64|
                id < self.total() ==> (#[trigger] self.is_out(id) <==> !self.free().contains(id)),
            self.free().no_duplicates(),
    {
        vstd::arithmetic::div_mod::lemma_fundamental_div_mod(
            self.capacity as int,
            self.page_size as int,
        );
        let t = (self.capacity / self.page_size) as int;
        let p = self.page_size as int;
        assert(p * t == t * p) by (nonlinear_arith);
        assert(t >= 2) by (nonlinear_arith)
            requires
                t * p == self.capacity,
                self.capacity > p,
                p > 0,
                t >= 0,
        ;
    }
}

} // verus!

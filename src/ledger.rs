//! The outcome ledger: one tag byte per test, in declaration order, followed by an append-only
//! heap of message records, one for each failed test, all in a single fixed region.
use vstd::prelude::*;
use crate::outcome::Outcome;
use crate::record::{
    align_forward, align_up, lemma_align_up, lemma_record_frame, read_forward, record_at,
    record_size, MessageWriter, RegionFull, MAX_REGION,
};

verus! {

/// The tag byte stored for an outcome.
pub open spec fn tag_of<D>(o: Outcome<D>) -> u8 {
    match o {
        Outcome::Passed => 0u8,
        Outcome::Failed(_) => 1u8,
        Outcome::Ignored => 2u8,
    }
}

/// An outcome whose message is given as a byte slice.
pub open spec fn outcome_bytes(o: Outcome<&[u8]>) -> Outcome<Seq<u8>> {
    match o {
        Outcome::Passed => Outcome::Passed,
        Outcome::Failed(s) => Outcome::Failed(s@),
        Outcome::Ignored => Outcome::Ignored,
    }
}

/// An outcome whose message is held in a vector.
pub open spec fn outcome_view(o: Outcome<Vec<u8>>) -> Outcome<Seq<u8>> {
    match o {
        Outcome::Passed => Outcome::Passed,
        Outcome::Failed(v) => Outcome::Failed(v@),
        Outcome::Ignored => Outcome::Ignored,
    }
}

/// The messages of the failed outcomes among `h`, in order.
pub open spec fn messages(h: Seq<Outcome<Seq<u8>>>) -> Seq<Seq<u8>>
    decreases h.len(),
{
    if h.len() == 0 {
        seq![]
    } else {
        let earlier = messages(h.drop_last());
        match h.last() {
            Outcome::Failed(m) => earlier.push(m),
            _ => earlier,
        }
    }
}

/// The number of failed outcomes among `h`.
pub open spec fn failed_count(h: Seq<Outcome<Seq<u8>>>) -> nat
    decreases h.len(),
{
    if h.len() == 0 {
        0
    } else {
        failed_count(h.drop_last()) + if h.last() is Failed {
            1nat
        } else {
            0nat
        }
    }
}

/// The heap bytes taken by the records of the first `j` outcomes of `h`.
pub open spec fn heap_offset(h: Seq<Outcome<Seq<u8>>>, j: int) -> int
    decreases j,
{
    if j <= 0 {
        0
    } else {
        heap_offset(h, j - 1) + match h[j - 1] {
            Outcome::Failed(m) => record_size(m.len() as int),
            _ => 0,
        }
    }
}

/// The heap bytes taken by records of `msgs`.
pub open spec fn chain_len(msgs: Seq<Seq<u8>>) -> int
    decreases msgs.len(),
{
    if msgs.len() == 0 {
        0
    } else {
        chain_len(msgs.drop_last()) + record_size(msgs.last().len() as int)
    }
}

/// `msgs` are stored as back-to-back records from `start` on.
pub open spec fn records_chain(region: Seq<u8>, start: int, msgs: Seq<Seq<u8>>) -> bool
    decreases msgs.len(),
{
    if msgs.len() == 0 {
        true
    } else {
        records_chain(region, start, msgs.drop_last()) && record_at(
            region,
            start + chain_len(msgs.drop_last()),
            msgs.last(),
        )
    }
}

/// Where the record heap of a ledger of `n` tests starts.
pub open spec fn heap_start(n: int) -> int {
    align_up(n)
}

/// The region holds the tags of `h` and, from the heap start on, a record for each of its
/// failures.
pub open spec fn layout_holds(region: Seq<u8>, n: int, h: Seq<Outcome<Seq<u8>>>) -> bool {
    &&& h.len() <= n
    &&& heap_start(n) + heap_offset(h, h.len() as int) <= region.len()
    &&& forall|j: int| 0 <= j < h.len() ==> region[j] == tag_of(#[trigger] h[j])
    &&& forall|j: int|
        0 <= j < h.len() ==> match #[trigger] h[j] {
            Outcome::Failed(m) => record_at(region, heap_start(n) + heap_offset(h, j), m),
            _ => true,
        }
}

pub proof fn lemma_heap_offset_mono(h: Seq<Outcome<Seq<u8>>>, j: int, k: int)
    requires
        0 <= j <= k <= h.len(),
    ensures
        heap_offset(h, j) <= heap_offset(h, k),
        j < k && h[j] is Failed ==> heap_offset(h, j) + record_size(
            h[j]->Failed_0.len() as int,
        ) <= heap_offset(h, k),
    decreases k - j,
{
    if j < k {
        lemma_heap_offset_mono(h, j, k - 1);
        lemma_align_up(h[k - 1]->Failed_0.len() as int);
        lemma_align_up(h[j]->Failed_0.len() as int);
    }
}

pub proof fn lemma_heap_offset_push(h: Seq<Outcome<Seq<u8>>>, o: Outcome<Seq<u8>>, j: int)
    requires
        0 <= j <= h.len(),
    ensures
        heap_offset(h.push(o), j) == heap_offset(h, j),
    decreases j,
{
    if j > 0 {
        lemma_heap_offset_push(h, o, j - 1);
    }
}

pub proof fn lemma_heap_offset_aligned(h: Seq<Outcome<Seq<u8>>>, j: int)
    ensures
        heap_offset(h, j) >= 0,
        heap_offset(h, j) % 4 == 0,
    decreases j,
{
    if j > 0 {
        lemma_heap_offset_aligned(h, j - 1);
        if h[j - 1] is Failed {
            lemma_align_up(h[j - 1]->Failed_0.len() as int);
        }
    }
}

/// The testing context: which test runs next, whether one is running, and the region into
/// which each completed test's outcome goes.
pub struct Ledger {
    /// The index of the next test to run, or of the one running.
    index: usize,
    /// The module path of each test, in declaration order.
    modules: Vec<Vec<String>>,
    /// Whether a test has been started and not yet completed.
    waiting_for_completion: bool,
    /// Where the next message record goes.
    data: usize,
    /// The tag array, then the record heap.
    region: Vec<u8>,
    /// The outcomes recorded so far.
    history: Ghost<Seq<Outcome<Seq<u8>>>>,
}

impl Ledger {
    /// The ledger's internal consistency: its region holds exactly what was recorded.
    pub closed spec fn wf(&self) -> bool {
        let n = self.modules.len() as int;
        &&& self.region.len() <= MAX_REGION
        &&& heap_start(n) <= self.region.len()
        &&& self.index <= n
        &&& self.history@.len() == self.index
        &&& self.waiting_for_completion ==> self.index < n
        &&& self.data == heap_start(n) + heap_offset(self.history@, self.index as int)
        &&& layout_holds(self.region@, n, self.history@)
    }

    /// The number of tests.
    pub closed spec fn test_count(&self) -> nat {
        self.modules@.len()
    }

    /// The module path of each test.
    pub closed spec fn module_paths(&self) -> Seq<Seq<Seq<char>>> {
        self.modules.deep_view()
    }

    /// The index of the next test to run, or of the one running.
    pub closed spec fn index(&self) -> nat {
        self.index as nat
    }

    /// Whether a test has been started and not yet completed.
    pub closed spec fn waiting(&self) -> bool {
        self.waiting_for_completion
    }

    /// The outcomes recorded so far, in declaration order.
    pub closed spec fn history(&self) -> Seq<Outcome<Seq<u8>>> {
        self.history@
    }

    /// The region size.
    pub closed spec fn region_len(&self) -> nat {
        self.region@.len()
    }

    /// The region: the tag array, then the record heap.
    pub closed spec fn region_bytes(&self) -> Seq<u8> {
        self.region@
    }

    /// Where the next message record goes.
    pub closed spec fn data(&self) -> int {
        self.data as int
    }

    /// Creates a ledger for tests with the given module paths, over a region whose contents
    /// are indeterminate. The tag array must fit in the region.
    pub fn new(modules: Vec<Vec<String>>, region: Vec<u8>) -> (l: Ledger)
        requires
            region.len() <= MAX_REGION,
            heap_start(modules.len() as int) <= region.len(),
        ensures
            l.wf(),
            l.test_count() == modules.len(),
            l.module_paths() == modules.deep_view(),
            l.index() == 0,
            !l.waiting(),
            l.history() == Seq::<Outcome<Seq<u8>>>::empty(),
            l.region_len() == region.len(),
            l.data() == heap_start(modules.len() as int),
    {
        let data = align_forward(modules.len());
        Ledger {
            index: 0,
            modules,
            waiting_for_completion: false,
            data,
            region,
            history: Ghost(Seq::empty()),
        }
    }

    /// Where the next message record goes.
    pub fn data_cursor(&self) -> (r: usize)
        ensures
            r == self.data(),
    {
        self.data
    }

    /// Registers the next test as running and returns its index, or `None` when every test has
    /// run. Starting a test while another is still running is a logic error.
    pub fn start_test(&mut self) -> (r: Option<usize>)
        requires
            old(self).wf(),
            !old(self).waiting(),
        ensures
            final(self).wf(),
            final(self).test_count() == old(self).test_count(),
            final(self).module_paths() == old(self).module_paths(),
            final(self).index() == old(self).index(),
            final(self).history() == old(self).history(),
            final(self).region_len() == old(self).region_len(),
            final(self).data() == old(self).data(),
            old(self).index() < old(self).test_count() ==> r == Some(old(self).index() as usize)
                && final(self).waiting(),
            old(self).index() >= old(self).test_count() ==> r is None && !final(self).waiting(),
    {
        if self.index < self.modules.len() {
            self.waiting_for_completion = true;
            Some(self.index)
        } else {
            None
        }
    }

    /// The index of the running test, if one is running.
    pub fn current_test(&self) -> (r: Option<usize>)
        requires
            self.wf(),
        ensures
            r == if self.waiting() {
                Some(self.index() as usize)
            } else {
                None
            },
            r is Some ==> r->Some_0 < self.test_count(),
    {
        if self.waiting_for_completion {
            Some(self.index)
        } else {
            None
        }
    }
}

impl Ledger {
    /// Records the outcome of the running test, and for a failure its message as a record.
    ///
    /// Fails, changing nothing, when a failure's record does not fit in what is left of the
    /// region. Completing a test when none is running is a logic error.
    pub fn complete_test(&mut self, outcome: Outcome<&[u8]>) -> (r: Result<(), RegionFull>)
        requires
            old(self).wf(),
            old(self).waiting(),
        ensures
            final(self).wf(),
            final(self).test_count() == old(self).test_count(),
            final(self).module_paths() == old(self).module_paths(),
            final(self).region_len() == old(self).region_len(),
            r is Ok <==> match outcome {
                Outcome::Failed(m) => old(self).data() + record_size(m@.len() as int)
                    <= old(self).region_len(),
                _ => true,
            },
            r is Ok ==> !final(self).waiting() && final(self).index() == old(self).index() + 1
                && final(self).history() == old(self).history().push(outcome_bytes(outcome)),
            r is Ok ==> final(self).data() == old(self).data() + match outcome {
                Outcome::Failed(m) => record_size(m@.len() as int),
                _ => 0,
            },
            forall|i: int|
                0 <= i < old(self).data() && i != old(self).index() ==> final(self).region_bytes()[i]
                    == old(self).region_bytes()[i],
            r is Err ==> final(self).region_bytes() == old(self).region_bytes(),
            r is Err ==> final(self).waiting() && final(self).index() == old(self).index()
                && final(self).history() == old(self).history() && final(self).data()
                == old(self).data(),
    {
        let ghost n = self.modules.len() as int;
        let ghost h = self.history@;
        let ghost o = outcome_bytes(outcome);
        let ghost before = self.region@;
        proof {
            lemma_align_up(n);
            lemma_heap_offset_aligned(h, h.len() as int);
        }
        let tag: u8 = match outcome {
            Outcome::Passed => 0,
            Outcome::Failed(_) => 1,
            Outcome::Ignored => 2,
        };
        if let Outcome::Failed(bytes) = outcome {
            if bytes.len() > self.region.len() - self.data {
                return Err(RegionFull);
            }
            let need = align_forward(bytes.len()) + 8;
            if need > self.region.len() - self.data {
                return Err(RegionFull);
            }
            self.region.set(self.index, tag);
            let ghost tagged = self.region@;
            let mut writer = MessageWriter::open(&self.region, self.data);
            let written = writer.write_str(&mut self.region, bytes);
            proof {
                lemma_align_up(bytes@.len() as int);
                crate::record::lemma_align_up_shift(self.data as int + 4, bytes@.len() as int);
                assert(written is Ok);
                assert(tagged.subrange(self.data + 4, self.data + 4) =~= Seq::<u8>::empty());
                assert(writer.written(self.region@) =~= bytes@);
            }
            let next = writer.finish(&mut self.region);
            let ghost h2 = h.push(o);
            proof {
                assert(self.region@.len() == before.len());
                assert forall|i: int| 0 <= i < before.len() && i != self.index && !(self.data <= i
                    < next) implies self.region@[i] == before[i] by {}
                assert forall|j: int| 0 <= j < h2.len() implies match #[trigger] h2[j] {
                    Outcome::Failed(m) => record_at(self.region@, heap_start(n) + heap_offset(h2, j), m),
                    _ => true,
                } by {
                    lemma_heap_offset_push(h, o, j);
                    if j < h.len() {
                        if h[j] is Failed {
                            lemma_heap_offset_mono(h, j, h.len() as int);
                            lemma_heap_offset_aligned(h, j);
                            lemma_record_frame(before, self.region@, heap_start(n) + heap_offset(h, j), h[j]->Failed_0);
                        }
                    }
                }
                assert forall|j: int| 0 <= j < h2.len() implies self.region@[j] == tag_of(#[trigger] h2[j]) by {}
                lemma_heap_offset_push(h, o, h.len() as int);
            }
            self.data = next;
            self.history = Ghost(h2);
        } else {
            self.region.set(self.index, tag);
            let ghost h2 = h.push(o);
            proof {
                assert forall|j: int| 0 <= j < h2.len() implies match #[trigger] h2[j] {
                    Outcome::Failed(m) => record_at(self.region@, heap_start(n) + heap_offset(h2, j), m),
                    _ => true,
                } by {
                    lemma_heap_offset_push(h, o, j);
                    if j < h.len() {
                        if h[j] is Failed {
                            lemma_heap_offset_mono(h, j, h.len() as int);
                            lemma_heap_offset_aligned(h, j);
                            lemma_record_frame(before, self.region@, heap_start(n) + heap_offset(h, j), h[j]->Failed_0);
                        }
                    }
                }
                assert forall|j: int| 0 <= j < h2.len() implies self.region@[j] == tag_of(#[trigger] h2[j]) by {}
                lemma_heap_offset_push(h, o, h.len() as int);
            }
            self.history = Ghost(h2);
        }
        self.index = self.index + 1;
        self.waiting_for_completion = false;
        Ok(())
    }
}

/// The outcomes of a finished run, read back from the ledger's region.
pub struct TestOutcomes {
    /// The module path of each test, in declaration order.
    pub(crate) modules: Vec<Vec<String>>,
    /// The tag array, then the record heap.
    pub(crate) region: Vec<u8>,
    /// The outcome of each test.
    pub(crate) history: Ghost<Seq<Outcome<Seq<u8>>>>,
}

impl TestOutcomes {
    pub(crate) open spec fn inv(&self) -> bool {
        let n = self.modules@.len() as int;
        &&& self.region@.len() <= MAX_REGION
        &&& heap_start(n) <= self.region@.len()
        &&& self.history@.len() == n
        &&& layout_holds(self.region@, n, self.history@)
    }

    /// The region holds one tag per test and a record for each failure.
    pub closed spec fn wf(&self) -> bool {
        self.inv()
    }

    /// The outcome of each test, in declaration order.
    pub closed spec fn history(&self) -> Seq<Outcome<Seq<u8>>> {
        self.history@
    }

    /// The module path of each test.
    pub closed spec fn module_paths(&self) -> Seq<Seq<Seq<char>>> {
        self.modules.deep_view()
    }

    /// The region: the tag array, then the record heap.
    pub closed spec fn region_bytes(&self) -> Seq<u8> {
        self.region@
    }

    pub(crate) proof fn lemma_views(&self)
        ensures
            self.wf() == self.inv(),
            self.history() == self.history@,
            self.module_paths() == self.modules.deep_view(),
    {
    }

    /// The raw region: the tag array, then the record heap.
    pub fn region(&self) -> (r: &Vec<u8>)
        ensures
            r@ == self.region_bytes(),
    {
        &self.region
    }

    /// Reads back every outcome, in declaration order, each failure with its message.
    pub fn iter(&self) -> (r: Vec<Outcome<Vec<u8>>>)
        requires
            self.wf(),
        ensures
            r@.len() == self.history().len(),
            forall|j: int| 0 <= j < r@.len() ==> outcome_view(#[trigger] r@[j]) == self.history()[j],
    {
        let ghost h = self.history@;
        let ghost n = self.modules@.len() as int;
        let mut out: Vec<Outcome<Vec<u8>>> = Vec::new();
        let mut pos = align_forward(self.modules.len());
        let mut j: usize = 0;
        while j < self.modules.len()
            invariant
                self.inv(),
                h == self.history@,
                n == self.modules@.len(),
                0 <= j <= n,
                pos == heap_start(n) + heap_offset(h, j as int),
                out@.len() == j,
                forall|i: int| 0 <= i < j ==> outcome_view(#[trigger] out@[i]) == h[i],
            decreases n - j,
        {
            proof {
                lemma_align_up(n);
            }
            let tag = self.region[j];
            let ghost o = h[j as int];
            if tag == 1 {
                assert(o is Failed);
                let (message, next) = read_forward(&self.region, pos);
                out.push(Outcome::Failed(message));
                pos = next;
            } else if tag == 0 {
                out.push(Outcome::Passed);
            } else {
                out.push(Outcome::Ignored);
            }
            j = j + 1;
        }
        out
    }
}

proof fn lemma_chain_prefix(region: Seq<u8>, n: int, h: Seq<Outcome<Seq<u8>>>, j: int)
    requires
        layout_holds(region, n, h),
        0 <= j <= h.len(),
    ensures
        ({
            let p = h.subrange(0, j);
            &&& records_chain(region, heap_start(n), messages(p))
            &&& chain_len(messages(p)) == heap_offset(h, j)
            &&& messages(p).len() == failed_count(p)
        }),
    decreases j,
{
    if j > 0 {
        lemma_chain_prefix(region, n, h, j - 1);
        let p = h.subrange(0, j);
        assert(p.drop_last() =~= h.subrange(0, j - 1));
        assert(p.last() == h[j - 1]);
        if h[j - 1] is Failed {
            assert(messages(p) == messages(h.subrange(0, j - 1)).push(h[j - 1]->Failed_0));
            assert(messages(p).drop_last() =~= messages(h.subrange(0, j - 1)));
        }
    } else {
        assert(h.subrange(0, 0).len() == 0);
    }
}

/// Every test has exactly one outcome, and the record heap holds, back to back from its start,
/// exactly one record per failed test, with that test's message, in declaration order.
pub proof fn lemma_records_match_failures(out: &TestOutcomes)
    requires
        out.wf(),
    ensures
        out.history().len() == out.module_paths().len(),
        records_chain(
            out.region_bytes(),
            heap_start(out.history().len() as int),
            messages(out.history()),
        ),
        messages(out.history()).len() == failed_count(out.history()),
{
    let h = out.history();
    lemma_chain_prefix(out.region_bytes(), h.len() as int, h, h.len() as int);
    assert(h.subrange(0, h.len() as int) =~= h);
}

/// At every point of a run, the append cursor sits just past a back-to-back chain of one
/// record per failed test so far, starting at the heap start.
pub proof fn lemma_cursor_at_chain_end(l: &Ledger)
    requires
        l.wf(),
    ensures
        records_chain(l.region_bytes(), heap_start(l.test_count() as int), messages(l.history())),
        l.data() == heap_start(l.test_count() as int) + chain_len(messages(l.history())),
        messages(l.history()).len() == failed_count(l.history()),
{
    let h = l.history@;
    lemma_chain_prefix(l.region@, l.modules@.len() as int, h, h.len() as int);
    assert(h.subrange(0, h.len() as int) =~= h);
}

/// A failed test's record can be read forward from where it starts, or backward from where it
/// ends, and both readings give back exactly the message that was written.
pub proof fn lemma_message_round_trip(out: &TestOutcomes, j: int)
    requires
        out.wf(),
        0 <= j < out.history().len(),
        out.history()[j] is Failed,
    ensures
        ({
            let h = out.history();
            let m = h[j]->Failed_0;
            let start = heap_start(h.len() as int) + heap_offset(h, j);
            let end = heap_start(h.len() as int) + heap_offset(h, j + 1);
            &&& record_at(out.region_bytes(), start, m)
            &&& end == start + record_size(m.len() as int)
            &&& forall|m2: Seq<u8>| record_at(out.region_bytes(), start, m2) ==> m2 == m
            &&& forall|s2: int, m2: Seq<u8>|
                record_at(out.region_bytes(), s2, m2) && s2 + record_size(m2.len() as int) == end ==> s2
                    == start && m2 == m
        }),
{
    let h = out.history();
    let m = h[j]->Failed_0;
    let start = heap_start(h.len() as int) + heap_offset(h, j);
    assert forall|m2: Seq<u8>| record_at(out.region_bytes(), start, m2) implies m2 == m by {
        crate::record::lemma_record_unique(out.region_bytes(), start, m2, m);
    }
    assert forall|s2: int, m2: Seq<u8>|
        record_at(out.region_bytes(), s2, m2) && s2 + record_size(m2.len() as int) == start
            + record_size(m.len() as int) implies s2 == start && m2 == m by {
        crate::record::lemma_record_end(out.region_bytes(), s2, m2, start + record_size(m.len() as int));
        crate::record::lemma_record_end(out.region_bytes(), start, m, start + record_size(m.len() as int));
        crate::record::lemma_record_unique(out.region_bytes(), start, m2, m);
    }
}

impl Ledger {
    /// Hands the finished ledger over for reading. Reading before every test has run is a logic
    /// error.
    pub fn outcomes(self) -> (r: TestOutcomes)
        requires
            self.wf(),
            self.index() == self.test_count(),
        ensures
            r.wf(),
            r.history() == self.history(),
            r.module_paths() == self.module_paths(),
            r.region_bytes() == self.region_bytes(),
    {
        TestOutcomes { modules: self.modules, region: self.region, history: self.history }
    }
}

} // verus!

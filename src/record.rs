//! Message records: `[u32 length][bytes][padding][u32 length]`, 4-byte aligned at both ends.
//!
//! The length is stored twice so that a heap of records can be walked in either direction
//! without any index: a forward reader reads the header, a backward reader reads the footer.
use vstd::prelude::*;

verus! {

/// The largest region a ledger may manage, so that every offset and length fits a `u32` header.
pub const MAX_REGION: usize = 0xFFFF_FFF0;

/// `x` rounded up to the next multiple of 4.
pub open spec fn align_up(x: int) -> int {
    x + (4 - x % 4) % 4
}

/// `x` rounded down to a multiple of 4.
pub open spec fn align_down(x: int) -> int {
    x - x % 4
}

/// The number of heap bytes one record with a message of `len` bytes occupies.
pub open spec fn record_size(len: int) -> int {
    align_up(len) + 8
}

/// The little-endian `u32` stored at `at`.
pub open spec fn le32(s: Seq<u8>, at: int) -> int {
    s[at] as int + 256 * (s[at + 1] as int) + 65536 * (s[at + 2] as int) + 16777216 * (
    s[at + 3] as int)
}

/// A record holding `msg` starts at `start` of `region`.
pub open spec fn record_at(region: Seq<u8>, start: int, msg: Seq<u8>) -> bool {
    &&& 0 <= start
    &&& start % 4 == 0
    &&& start + record_size(msg.len() as int) <= region.len()
    &&& le32(region, start) == msg.len()
    &&& region.subrange(start + 4, start + 4 + msg.len()) == msg
    &&& le32(region, start + 4 + align_up(msg.len() as int)) == msg.len()
}

pub proof fn lemma_align_up(x: int)
    requires
        0 <= x,
    ensures
        align_up(x) % 4 == 0,
        x <= align_up(x) < x + 4,
        x % 4 == 0 ==> align_up(x) == x,
{
}

pub proof fn lemma_align_up_shift(s: int, x: int)
    requires
        0 <= s,
        0 <= x,
        s % 4 == 0,
    ensures
        align_up(s + x) == s + align_up(x),
{
}

/// A record stays in place when the bytes it covers stay the same.
pub proof fn lemma_record_frame(r1: Seq<u8>, r2: Seq<u8>, start: int, msg: Seq<u8>)
    requires
        record_at(r1, start, msg),
        r1.len() == r2.len(),
        forall|i: int| start <= i < start + record_size(msg.len() as int) ==> r1[i] == r2[i],
    ensures
        record_at(r2, start, msg),
{
    lemma_align_up(msg.len() as int);
    assert(r2.subrange(start + 4, start + 4 + msg.len()) =~= r1.subrange(
        start + 4,
        start + 4 + msg.len(),
    ));
}

/// At most one message can be read from a given place.
pub proof fn lemma_record_unique(region: Seq<u8>, start: int, m1: Seq<u8>, m2: Seq<u8>)
    requires
        record_at(region, start, m1),
        record_at(region, start, m2),
    ensures
        m1 == m2,
{
}

/// A record's footer sits just before its end, and its start is found from the footer.
pub proof fn lemma_record_end(region: Seq<u8>, start: int, msg: Seq<u8>, end: int)
    requires
        record_at(region, start, msg),
        start + record_size(msg.len() as int) == end,
    ensures
        le32(region, end - 4) == msg.len(),
        align_down(end - 8 - msg.len()) == start,
        end <= region.len(),
        start + 8 <= end,
{
    lemma_align_up(msg.len() as int);
}

/// Rounds `x` up to the next multiple of 4.
pub fn align_forward(x: usize) -> (r: usize)
    requires
        x <= MAX_REGION,
    ensures
        r == align_up(x as int),
        r % 4 == 0,
        x <= r < x + 4,
{
    x + (4 - x % 4) % 4
}

/// Rounds `x` down to a multiple of 4.
pub fn align_backward(x: usize) -> (r: usize)
    ensures
        r == align_down(x as int),
        r % 4 == 0,
        r <= x < r + 4,
{
    x - x % 4
}

/// Stores `v` little-endian in the four bytes at `at`, leaving every other byte as it was.
fn store_u32(region: &mut Vec<u8>, at: usize, v: u32)
    requires
        at + 4 <= old(region).len(),
    ensures
        final(region).len() == old(region).len(),
        le32(final(region)@, at as int) == v,
        forall|i: int|
            0 <= i < old(region).len() && !(at <= i < at + 4) ==> final(region)@[i] == old(
                region,
            )@[i],
{
    let b0 = (v % 256) as u8;
    let b1 = ((v / 256) % 256) as u8;
    let b2 = ((v / 65536) % 256) as u8;
    let b3 = (v / 16777216) as u8;
    region.set(at, b0);
    region.set(at + 1, b1);
    region.set(at + 2, b2);
    region.set(at + 3, b3);
    assert(b0 as int + 256 * (b1 as int) + 65536 * (b2 as int) + 16777216 * (b3 as int) == v)
        by (nonlinear_arith)
        requires
            b0 == v % 256,
            b1 == (v / 256) % 256,
            b2 == (v / 65536) % 256,
            b3 == v / 16777216,
    ;
}

/// Loads the little-endian `u32` stored at `at`.
fn load_u32(region: &Vec<u8>, at: usize) -> (r: u32)
    requires
        at + 4 <= region.len(),
    ensures
        r == le32(region@, at as int),
{
    let b0 = region[at] as u32;
    let b1 = region[at + 1] as u32;
    let b2 = region[at + 2] as u32;
    let b3 = region[at + 3] as u32;
    b0 + 256 * b1 + 65536 * b2 + 16777216 * b3
}


/// The region has no room left for the bytes being written.
#[derive(Debug, Clone, Copy, PartialEq, Eq)]
pub struct RegionFull;

/// Writes one record: message bytes go straight into the region, and `finish` then writes the
/// header, the padding and the footer.
pub(crate) struct MessageWriter {
    /// Where the record starts: its header is written there by `finish`.
    pub(crate) start: usize,
    /// Where the next message byte goes.
    pub(crate) cursor: usize,
}

impl MessageWriter {
    pub(crate) open spec fn start(&self) -> int {
        self.start as int
    }

    pub(crate) open spec fn cursor(&self) -> int {
        self.cursor as int
    }

    /// The writer can still be finished within a region of `len` bytes.
    pub(crate) open spec fn fits(&self, len: int) -> bool {
        &&& self.start % 4 == 0
        &&& self.start + 4 <= self.cursor
        &&& align_up(self.cursor as int) + 4 <= len
        &&& len <= MAX_REGION
    }

    /// The bytes written so far.
    pub(crate) open spec fn written(&self, region: Seq<u8>) -> Seq<u8> {
        region.subrange(self.start + 4, self.cursor as int)
    }

    /// Opens a record at `start`, leaving room for its header.
    pub(crate) fn open(region: &Vec<u8>, start: usize) -> (w: MessageWriter)
        requires
            start % 4 == 0,
            start + 8 <= region.len(),
            region.len() <= MAX_REGION,
        ensures
            w.start() == start,
            w.cursor() == start + 4,
            w.fits(region.len() as int),
    {
        MessageWriter { start, cursor: start + 4 }
    }

    /// Appends `s` to the message, or fails if the finished record would not fit the region.
    pub(crate) fn write_str(&mut self, region: &mut Vec<u8>, s: &[u8]) -> (r: Result<(), RegionFull>)
        requires
            old(self).fits(old(region).len() as int),
        ensures
            final(region).len() == old(region).len(),
            final(self).fits(final(region).len() as int),
            final(self).start() == old(self).start(),
            r is Ok <==> align_up(old(self).cursor() + s@.len()) + 4 <= old(region).len(),
            r is Ok ==> final(self).cursor() == old(self).cursor() + s@.len() && final(self).written(
                final(region)@,
            ) == old(self).written(old(region)@) + s@,
            r is Err ==> *final(self) == *old(self) && final(region)@ == old(region)@,
            forall|i: int|
                0 <= i < old(region).len() && !(old(self).cursor() <= i < final(self).cursor())
                    ==> final(region)@[i] == old(region)@[i],
    {
        let len = region.len();
        if s.len() > len || self.cursor > len - s.len() {
            return Err(RegionFull);
        }
        let end = self.cursor + s.len();
        if end > MAX_REGION || align_forward(end) + 4 > len {
            return Err(RegionFull);
        }
        let ghost before = region@;
        let mut i: usize = 0;
        while i < s.len()
            invariant
                self.cursor + s@.len() <= region.len(),
                region.len() == before.len(),
                0 <= i <= s@.len(),
                forall|k: int| 0 <= k < i ==> region@[self.cursor + k] == s@[k],
                forall|k: int|
                    0 <= k < before.len() && !(self.cursor <= k < self.cursor + i) ==> region@[k]
                        == before[k],
            decreases s@.len() - i,
        {
            region.set(self.cursor + i, s[i]);
            i = i + 1;
        }
        let ghost start = self.start;
        let ghost old_cursor = self.cursor;
        self.cursor = end;
        assert(region@.subrange(start + 4, end as int) =~= before.subrange(start + 4, old_cursor as int)
            + s@);
        Ok(())
    }

    /// Writes the header, the padding and the footer, and returns where the next record starts.
    pub(crate) fn finish(self, region: &mut Vec<u8>) -> (next: usize)
        requires
            self.fits(old(region).len() as int),
        ensures
            final(region).len() == old(region).len(),
            next == self.start() + record_size(self.cursor() - self.start() - 4),
            next <= final(region).len(),
            record_at(final(region)@, self.start(), self.written(old(region)@)),
            forall|i: int|
                self.cursor() <= i < self.start() + 4 + align_up(self.cursor() - self.start() - 4)
                    ==> final(region)@[i] == 0,
            forall|i: int|
                0 <= i < old(region).len() && !(self.start() <= i < next) ==> final(region)@[i]
                    == old(region)@[i],
    {
        let ghost before = region@;
        let ghost msg = self.written(before);
        let length = self.cursor - self.start - 4;
        let footer = align_forward(self.cursor);
        proof {
            lemma_align_up_shift(self.start + 4, length as int);
            lemma_align_up(length as int);
        }
        store_u32(region, self.start, length as u32);
        let ghost after_header = region@;
        let mut p = self.cursor;
        while p < footer
            invariant
                self.cursor <= p <= footer,
                footer + 4 <= region.len(),
                region.len() == before.len(),
                forall|k: int|
                    0 <= k < before.len() && !(self.start <= k < self.start + 4) && !(
                    self.cursor <= k < p) ==> region@[k] == before[k],
                le32(region@, self.start as int) == length,
                self.start + 4 <= self.cursor,
                forall|k: int| self.cursor <= k < p ==> region@[k] == 0,
            decreases footer - p,
        {
            region.set(p, 0);
            p = p + 1;
        }
        store_u32(region, footer, length as u32);
        assert(region@.subrange(self.start + 4, self.start + 4 + length) =~= msg);
        footer + 4
    }
}

/// Steps over the record that starts at `start`, returning where the next one starts.
pub fn skip_forward(region: &Vec<u8>, start: usize) -> (r: usize)
    requires
        exists|msg: Seq<u8>| record_at(region@, start as int, msg),
        region.len() <= MAX_REGION,
    ensures
        forall|m: Seq<u8>|
            record_at(region@, start as int, m) ==> r == start + record_size(m.len() as int),
{
    let ghost msg = choose|msg: Seq<u8>| record_at(region@, start as int, msg);
    proof {
        lemma_align_up(msg.len() as int);
    }
    let length = load_u32(region, start) as usize;
    start + 4 + align_forward(length) + 4
}

/// Steps back over the record that ends at `end`, footer first, returning where it starts.
pub fn skip_backward(region: &Vec<u8>, end: usize) -> (r: usize)
    requires
        exists|start: int, msg: Seq<u8>|
            record_at(region@, start, msg) && start + record_size(msg.len() as int) == end,
        region.len() <= MAX_REGION,
    ensures
        forall|s: int, m: Seq<u8>|
            record_at(region@, s, m) && s + record_size(m.len() as int) == end ==> s == r,
{
    let ghost (start, msg) = choose|start: int, msg: Seq<u8>|
        record_at(region@, start, msg) && start + record_size(msg.len() as int) == end;
    proof {
        lemma_align_up(msg.len() as int);
    }
    proof {
        lemma_record_end(region@, start, msg, end as int);
    }
    let length = load_u32(region, end - 4) as usize;
    let first = align_backward(end - 8 - length);
    proof {
        assert forall|s: int, m: Seq<u8>|
            record_at(region@, s, m) && s + record_size(m.len() as int) == end implies s
                == first by {
            lemma_record_end(region@, s, m, end as int);
        }
    }
    first
}

/// Reads the record that starts at `start`: its message, and where the next record starts.
pub fn read_forward(region: &Vec<u8>, start: usize) -> (r: (Vec<u8>, usize))
    requires
        exists|msg: Seq<u8>| record_at(region@, start as int, msg),
        region.len() <= MAX_REGION,
    ensures
        record_at(region@, start as int, r.0@),
        r.1 == start + record_size(r.0@.len() as int),
        forall|m: Seq<u8>| record_at(region@, start as int, m) ==> m == r.0@,
{
    let ghost msg = choose|msg: Seq<u8>| record_at(region@, start as int, msg);
    proof {
        lemma_align_up(msg.len() as int);
    }
    let length = load_u32(region, start) as usize;
    let mut out: Vec<u8> = Vec::new();
    let mut i: usize = 0;
    while i < length
        invariant
            record_at(region@, start as int, msg),
            length == msg.len(),
            0 <= i <= length,
            out@ == msg.subrange(0, i as int),
            region.len() <= MAX_REGION,
        decreases length - i,
    {
        assert(region@.subrange(start + 4, start + 4 + msg.len())[i as int] == region@[start + 4 + i]);
        out.push(region[start + 4 + i]);
        i = i + 1;
        assert(out@ =~= msg.subrange(0, i as int));
    }
    assert(out@ =~= msg);
    proof {
        assert forall|m: Seq<u8>| record_at(region@, start as int, m) implies m == out@ by {
            lemma_record_unique(region@, start as int, m, msg);
        }
    }
    (out, start + 4 + align_forward(length) + 4)
}


/// Reads the record that ends at `end`, footer first: its message, and where it starts.
pub fn read_backward(region: &Vec<u8>, end: usize) -> (r: (Vec<u8>, usize))
    requires
        exists|start: int, msg: Seq<u8>|
            record_at(region@, start, msg) && start + record_size(msg.len() as int) == end,
        region.len() <= MAX_REGION,
    ensures
        record_at(region@, r.1 as int, r.0@),
        r.1 + record_size(r.0@.len() as int) == end,
        forall|s: int, m: Seq<u8>|
            record_at(region@, s, m) && s + record_size(m.len() as int) == end ==> s == r.1 && m
                == r.0@,
{
    let ghost (start, msg) = choose|start: int, msg: Seq<u8>|
        record_at(region@, start, msg) && start + record_size(msg.len() as int) == end;
    proof {
        lemma_align_up(msg.len() as int);
    }
    let length = load_u32(region, end - 4) as usize;
    let first = align_backward(end - 8 - length);
    assert(first == start);
    let (message, _) = read_forward(region, first);
    proof {
        assert forall|s: int, m: Seq<u8>|
            record_at(region@, s, m) && s + record_size(m.len() as int) == end implies s == first
                && m == message@ by {
            lemma_align_up(m.len() as int);
            lemma_record_unique(region@, s, m, message@);
        }
    }
    (message, first)
}

} // verus!

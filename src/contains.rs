//! Substring search by rolling hash (Rabin-Karp), used to check an expected panic's message.
use vstd::prelude::*;
use vstd::arithmetic::div_mod::{
    lemma_add_mod_noop, lemma_add_mod_noop_right, lemma_mod_add_multiples_vanish,
    lemma_mul_mod_noop_left, lemma_mul_mod_noop_right, lemma_sub_mod_noop,
};
use vstd::arithmetic::power::pow;
use vstd::string::StringSliceAdditionalSpecFns;

verus! {

/// The bytes of `s` read as a base-256 number, most significant first.
pub open spec fn poly(s: Seq<u8>) -> int
    decreases s.len(),
{
    if s.len() == 0 {
        0
    } else {
        poly(s.drop_last()) * 256 + s.last()
    }
}

/// The hash of a byte string: its base-256 value modulo 101.
pub open spec fn hash_of(s: Seq<u8>) -> int {
    poly(s) % 101
}

/// `s` occurs in `m` at position `i`.
pub open spec fn occurs_at(m: Seq<u8>, s: Seq<u8>, i: int) -> bool {
    0 <= i && i + s.len() <= m.len() && m.subrange(i, i + s.len()) == s
}

/// `s` occurs somewhere in `m`.
pub open spec fn contains_bytes(m: Seq<u8>, s: Seq<u8>) -> bool {
    exists|i: int| occurs_at(m, s, i)
}

proof fn lemma_poly_nonneg(s: Seq<u8>)
    ensures
        poly(s) >= 0,
    decreases s.len(),
{
    if s.len() > 0 {
        lemma_poly_nonneg(s.drop_last());
    }
}

/// Appending a byte to a hashed string, the way the hash is computed.
proof fn lemma_hash_step(p: Seq<u8>, b: u8, h: int)
    requires
        h == hash_of(p),
    ensures
        ((h * 256) % 101 + b) % 101 == hash_of(p.push(b)),
{
    assert(p.push(b).drop_last() =~= p);
    let x = poly(p);
    lemma_mul_mod_noop_left(x, 256, 101);
    lemma_add_mod_noop_right((x * 256) % 101, b as int, 101);
    lemma_add_mod_noop(x * 256, b as int, 101);
    lemma_add_mod_noop_right(x * 256 % 101, b as int, 101);
}

/// The first byte of a string weighs `256^(len - 1)`.
proof fn lemma_poly_first(s: Seq<u8>)
    requires
        s.len() >= 1,
    ensures
        poly(s) == s[0] * pow(256, (s.len() - 1) as nat) + poly(s.drop_first()),
    decreases s.len(),
{
    assert(poly(s) == poly(s.drop_last()) * 256 + s.last());
    if s.len() == 1 {
        assert(s.drop_last().len() == 0);
        assert(s.drop_first().len() == 0);
        assert(poly(s.drop_last()) == 0);
        assert(poly(s.drop_first()) == 0);
        assert(pow(256, 0) == 1) by {
            reveal(pow);
        }
    } else {
        let d = s.drop_last();
        lemma_poly_first(d);
        assert(d.drop_first() =~= s.drop_first().drop_last());
        assert(s.drop_first().last() == s.last());
        assert(poly(s.drop_first()) == poly(s.drop_first().drop_last()) * 256 + s.drop_first().last());
        assert(d[0] == s[0]);
        let e = (s.len() - 2) as nat;
        assert(pow(256, (e + 1) as nat) == 256 * pow(256, e)) by {
            reveal(pow);
        }
        let a = s[0] as int;
        let p = pow(256, e);
        let q = poly(d.drop_first());
        assert((a * p + q) * 256 + s.last() == a * (256 * p) + (q * 256 + s.last()))
            by (nonlinear_arith);
    }
}

/// Sliding the window one byte right: drop `out`, weighing `power`, and take `b` in.
proof fn lemma_roll(x: int, y: int, b: u8, rolling: int, removed: int)
    requires
        rolling == x % 101,
        removed == y % 101,
    ensures
        (((rolling + 101 - removed) * 256) % 101 + b) % 101 == ((x - y) * 256 + b) % 101,
{
    let t = rolling + 101 - removed;
    lemma_sub_mod_noop(x, y, 101);
    lemma_mod_add_multiples_vanish(rolling - removed, 101);
    assert(t % 101 == (x - y) % 101);
    lemma_mul_mod_noop_left(t, 256, 101);
    lemma_mul_mod_noop_left(x - y, 256, 101);
    lemma_add_mod_noop_right((t * 256) % 101, b as int, 101);
    lemma_add_mod_noop((x - y) * 256, b as int, 101);
    lemma_add_mod_noop_right(((x - y) * 256) % 101, b as int, 101);
}

/// The weight, modulo 101, of the first byte of a `len`-byte string in its base-256 value.
fn weight_of_first(len: usize) -> (r: usize)
    requires
        len >= 1,
    ensures
        r == pow(256, (len - 1) as nat) % 101,
        r < 101,
{
    let mut power: usize = 1;
    let mut k: usize = 1;
    assert(pow(256, 0) == 1) by {
        reveal(pow);
    }
    while k < len
        invariant
            1 <= k <= len,
            power == pow(256, (k - 1) as nat) % 101,
            power < 101,
        decreases len - k,
    {
        proof {
            assert(pow(256, k as nat) == 256 * pow(256, (k - 1) as nat)) by {
                reveal(pow);
            }
            lemma_mul_mod_noop_right(256, pow(256, (k - 1) as nat), 101);
        }
        power = (power * 256) % 101;
        k = k + 1;
    }
    power
}

/// The hash of the first `end` bytes of `b`.
fn hash_prefix(b: &[u8], end: usize) -> (r: usize)
    requires
        end <= b@.len(),
    ensures
        r == hash_of(b@.subrange(0, end as int)),
        r < 101,
{
    let mut result: usize = 0;
    let mut i: usize = 0;
    while i < end
        invariant
            end <= b@.len(),
            0 <= i <= end,
            result == hash_of(b@.subrange(0, i as int)),
            result < 101,
        decreases end - i,
    {
        proof {
            lemma_hash_step(b@.subrange(0, i as int), b@[i as int], result as int);
            assert(b@.subrange(0, i as int).push(b@[i as int]) =~= b@.subrange(0, i + 1));
        }
        result = ((result * 256) % 101 + b[i] as usize) % 101;
        i = i + 1;
    }
    result
}

/// The hash of a string's bytes.
pub fn hash(string: &str) -> (r: usize)
    ensures
        r == hash_of(string.spec_bytes()),
{
    let b = string.as_bytes();
    let r = hash_prefix(b, b.len());
    assert(b@.subrange(0, b@.len() as int) =~= b@);
    r
}

/// Whether `s` occurs in `m` at `i`, byte by byte.
fn equal_at(m: &[u8], s: &[u8], i: usize) -> (r: bool)
    requires
        i + s@.len() <= m@.len(),
    ensures
        r == occurs_at(m@, s@, i as int),
{
    let mlen = m.len();
    let mut k: usize = 0;
    while k < s.len()
        invariant
            mlen == m@.len(),
            i + s@.len() <= m@.len(),
            0 <= k <= s@.len(),
            forall|j: int| 0 <= j < k ==> m@[i + j] == s@[j],
        decreases s@.len() - k,
    {
        if m[i + k] != s[k] {
            assert(m@.subrange(i as int, i + s@.len())[k as int] != s@[k as int]);
            return false;
        }
        k = k + 1;
    }
    assert(m@.subrange(i as int, i + s@.len()) =~= s@);
    true
}

/// Whether `substring` occurs in `message`. An empty substring always does; one longer than
/// the message never does.
pub fn contains(message: &str, substring: &str) -> (r: bool)
    ensures
        r == contains_bytes(message.spec_bytes(), substring.spec_bytes()),
{
    let m = message.as_bytes();
    let s = substring.as_bytes();
    let len = s.len();
    let mlen = m.len();
    if len == 0 {
        assert(m@.subrange(0, 0) =~= s@);
        assert(occurs_at(m@, s@, 0));
        return true;
    }
    if len > m.len() {
        return false;
    }
    let target = hash(substring);
    let mut rolling = hash_prefix(m, len);
    // The weight of the byte that leaves the window.
    let power = weight_of_first(len);
    let ghost ms = m@;
    let ghost ss = s@;
    let mut i: usize = 0;
    loop
        invariant
            ms == m@,
            ss == s@,
            ms == message.spec_bytes(),
            ss == substring.spec_bytes(),
            mlen == ms.len(),
            power < 101,
            len == ss.len(),
            len >= 1,
            i + len <= ms.len(),
            rolling == hash_of(ms.subrange(i as int, i + len)),
            rolling < 101,
            target == hash_of(ss),
            power == pow(256, (len - 1) as nat) % 101,
            forall|j: int| 0 <= j < i ==> !occurs_at(ms, ss, j),
        decreases ms.len() - i,
    {
        if rolling == target && equal_at(m, s, i) {
            assert(occurs_at(ms, ss, i as int));
            return true;
        }
        assert(!occurs_at(ms, ss, i as int));
        if i + len == mlen {
            assert forall|j: int| !occurs_at(ms, ss, j) by {}
            return false;
        }
        let out = m[i];
        assert((out as int) * (power as int) <= 255 * 100) by (nonlinear_arith)
            requires
                out <= 255,
                power < 101,
        ;
        let removed = (out as usize * power) % 101;
        proof {
            let w = ms.subrange(i as int, i + len);
            let w2 = ms.subrange(i + 1, i + 1 + len);
            lemma_poly_first(w);
            assert(w.drop_first() =~= w2.drop_last());
            assert(w2.last() == ms[i + len]);
            lemma_mul_mod_noop_right(out as int, pow(256, (len - 1) as nat), 101);
            lemma_roll(
                poly(w),
                out * pow(256, (len - 1) as nat),
                ms[i + len],
                rolling as int,
                removed as int,
            );
        }
        rolling = (((rolling + 101 - removed) * 256) % 101 + m[i + len] as usize) % 101;
        i = i + 1;
    }
}

/// Slot `j` of a ring of `len` slots whose oldest entry is at `head`.
pub open spec fn ring_slot(head: int, j: int, len: int) -> int {
    if head + j < len {
        head + j
    } else {
        head + j - len
    }
}

/// The first `k` entries of a ring, oldest first.
pub open spec fn ring_order(w: Seq<u8>, head: int, k: int) -> Seq<u8> {
    Seq::new(k as nat, |j: int| w[ring_slot(head, j, w.len() as int)])
}

/// The last `k` bytes of `t`.
pub open spec fn tail(t: Seq<u8>, k: int) -> Seq<u8> {
    t.subrange(t.len() - k, t.len() as int)
}

proof fn lemma_occurs_extend(t: Seq<u8>, b: u8, p: Seq<u8>, i: int)
    requires
        occurs_at(t, p, i),
    ensures
        occurs_at(t.push(b), p, i),
{
    assert(t.push(b).subrange(i, i + p.len()) =~= t.subrange(i, i + p.len()));
}

/// A pattern occurs in a text one byte longer when it occurred before or ends the new text.
proof fn lemma_contains_push(t: Seq<u8>, b: u8, p: Seq<u8>)
    requires
        p.len() >= 1,
    ensures
        contains_bytes(t.push(b), p) == (contains_bytes(t, p) || (t.len() + 1 >= p.len() && tail(
            t.push(b),
            p.len() as int,
        ) == p)),
{
    let t2 = t.push(b);
    if contains_bytes(t, p) {
        let i = choose|i: int| occurs_at(t, p, i);
        lemma_occurs_extend(t, b, p, i);
    }
    if t.len() + 1 >= p.len() && tail(t2, p.len() as int) == p {
        assert(occurs_at(t2, p, t2.len() - p.len()));
    }
    if contains_bytes(t2, p) {
        let i = choose|i: int| occurs_at(t2, p, i);
        if i + p.len() <= t.len() {
            assert(t.subrange(i, i + p.len()) =~= t2.subrange(i, i + p.len()));
            assert(occurs_at(t, p, i));
        } else {
            assert(i == t2.len() - p.len());
        }
    }
}

/// Searches a text that arrives in pieces for a pattern, keeping only the last pattern-length
/// bytes: a rolling hash picks the windows worth comparing byte by byte.
pub struct Searcher {
    pattern: Vec<u8>,
    target: usize,
    power: usize,
    window: Vec<u8>,
    head: usize,
    filled: usize,
    rolling: usize,
    found: bool,
    text: Ghost<Seq<u8>>,
}

impl Searcher {
    /// The pattern searched for.
    pub closed spec fn pattern(&self) -> Seq<u8> {
        self.pattern@
    }

    /// Everything fed so far.
    pub closed spec fn text(&self) -> Seq<u8> {
        self.text@
    }

    pub closed spec fn wf(&self) -> bool {
        let l = self.pattern@.len() as int;
        let t = self.text@;
        &&& l == 0 ==> self.found
        &&& self.found == contains_bytes(t, self.pattern@)
        &&& l >= 1 && !self.found ==> {
            &&& self.window@.len() == l
            &&& self.target == hash_of(self.pattern@)
            &&& self.power == pow(256, (l - 1) as nat) % 101
            &&& self.power < 101
            &&& self.filled <= l
            &&& self.filled == if t.len() < l {
                t.len() as int
            } else {
                l
            }
            &&& self.head < l
            &&& self.filled < l ==> self.head == 0
            &&& ring_order(self.window@, self.head as int, self.filled as int) == tail(
                t,
                self.filled as int,
            )
            &&& self.rolling == hash_of(tail(t, self.filled as int))
            &&& self.rolling < 101
        }
    }

    /// Starts a search for `pattern` in a text not yet fed.
    pub fn new(pattern: &str) -> (r: Searcher)
        ensures
            r.wf(),
            r.pattern() == pattern.spec_bytes(),
            r.text() == Seq::<u8>::empty(),
    {
        let p = pattern.as_bytes();
        let mut copy: Vec<u8> = Vec::new();
        let mut window: Vec<u8> = Vec::new();
        let mut i: usize = 0;
        while i < p.len()
            invariant
                0 <= i <= p@.len(),
                copy@ == p@.subrange(0, i as int),
                window@.len() == i,
            decreases p@.len() - i,
        {
            copy.push(p[i]);
            window.push(0);
            i = i + 1;
            assert(copy@ =~= p@.subrange(0, i as int));
        }
        assert(copy@ =~= p@);
        let len = p.len();
        let power = if len == 0 {
            1
        } else {
            weight_of_first(len)
        };
        let target = hash(pattern);
        let ghost empty = Seq::<u8>::empty();
        proof {
            if len == 0 {
                assert(empty.subrange(0, 0) =~= p@);
                assert(occurs_at(empty, p@, 0));
            }
            assert(tail(empty, 0) =~= Seq::<u8>::empty());
            assert(ring_order(window@, 0, 0) =~= Seq::<u8>::empty());
            assert(poly(Seq::<u8>::empty()) == 0);
        }
        Searcher {
            pattern: copy,
            target,
            power,
            window,
            head: 0,
            filled: 0,
            rolling: 0,
            found: len == 0,
            text: Ghost(empty),
        }
    }

    /// Whether the pattern occurs in everything fed so far.
    pub fn found(&self) -> (r: bool)
        requires
            self.wf(),
        ensures
            r == contains_bytes(self.text(), self.pattern()),
    {
        self.found
    }

    /// Feeds the next piece of the text.
    pub fn write_str(&mut self, piece: &str)
        requires
            old(self).wf(),
        ensures
            final(self).wf(),
            final(self).pattern() == old(self).pattern(),
            final(self).text() == old(self).text() + piece.spec_bytes(),
    {
        let b = piece.as_bytes();
        let ghost start = self.text@;
        let mut i: usize = 0;
        while i < b.len()
            invariant
                self.wf(),
                self.pattern@ == old(self).pattern@,
                0 <= i <= b@.len(),
                self.text@ == start + b@.subrange(0, i as int),
            decreases b@.len() - i,
        {
            self.push_byte(b[i]);
            i = i + 1;
            assert(self.text@ =~= start + b@.subrange(0, i as int));
        }
        assert(b@.subrange(0, b@.len() as int) =~= b@);
    }

    fn push_byte(&mut self, byte: u8)
        requires
            old(self).wf(),
        ensures
            final(self).wf(),
            final(self).pattern@ == old(self).pattern@,
            final(self).text@ == old(self).text@.push(byte),
    {
        let ghost t = self.text@;
        let ghost t2 = t.push(byte);
        let ghost pat = self.pattern@;
        if self.found {
            proof {
                let i = choose|i: int| occurs_at(t, pat, i);
                lemma_occurs_extend(t, byte, pat, i);
            }
            self.text = Ghost(t2);
            return;
        }
        let len = self.pattern.len();
        let ghost l = len as int;
        proof {
            lemma_contains_push(t, byte, pat);
        }
        if self.filled < len {
            let ghost before = tail(t, self.filled as int);
            proof {
                lemma_hash_step(before, byte, self.rolling as int);
                assert(before =~= t);
                assert(tail(t2, self.filled + 1) =~= t2);
            }
            self.window.set(self.filled, byte);
            self.rolling = ((self.rolling * 256) % 101 + byte as usize) % 101;
            self.filled = self.filled + 1;
            proof {
                assert(ring_order(self.window@, 0, self.filled as int) =~= t2);
            }
        } else {
            let out = self.window[self.head];
            let ghost w = tail(t, l);
            let ghost w2 = tail(t2, l);
            assert(w[0] == out);
            assert((out as int) * (self.power as int) <= 255 * 100) by (nonlinear_arith)
                requires
                    out <= 255,
                    self.power < 101,
            ;
            let removed = (out as usize * self.power) % 101;
            proof {
                lemma_poly_first(w);
                assert(w.drop_first() =~= w2.drop_last());
                assert(w2.last() == byte);
                lemma_mul_mod_noop_right(out as int, pow(256, (len - 1) as nat), 101);
                lemma_roll(
                    poly(w),
                    out * pow(256, (len - 1) as nat),
                    byte,
                    self.rolling as int,
                    removed as int,
                );
            }
            self.rolling = (((self.rolling + 101 - removed) * 256) % 101 + byte as usize) % 101;
            let ghost old_window = self.window@;
            let ghost old_head = self.head as int;
            self.window.set(self.head, byte);
            self.head = if self.head + 1 < len {
                self.head + 1
            } else {
                0
            };
            proof {
                assert forall|j: int| 0 <= j < l implies ring_order(
                    self.window@,
                    self.head as int,
                    l,
                )[j] == w2[j] by {
                    if j < l - 1 {
                        assert(ring_slot(self.head as int, j, l) == ring_slot(old_head, j + 1, l));
                        assert(ring_slot(old_head, j + 1, l) != old_head);
                        assert(ring_order(old_window, old_head, l)[j + 1] == w[j + 1]);
                    }
                }
                assert(ring_order(self.window@, self.head as int, l) =~= w2);
            }
        }
        self.text = Ghost(t2);
        if self.filled == len && self.rolling == self.target {
            let mut k: usize = 0;
            let mut same = true;
            while k < len
                invariant
                    len == self.pattern@.len(),
                    self.window@.len() == len,
                    self.head < len,
                    0 <= k <= len,
                    same == forall|j: int| 0 <= j < k ==> self.window@[ring_slot(
                        self.head as int,
                        j,
                        len as int,
                    )] == self.pattern@[j],
                decreases len - k,
            {
                let slot = if k < len - self.head {
                    self.head + k
                } else {
                    k - (len - self.head)
                };
                if self.window[slot] != self.pattern[k] {
                    same = false;
                }
                k = k + 1;
            }
            proof {
                if same {
                    assert(ring_order(self.window@, self.head as int, len as int) =~= pat);
                } else {
                    let j = choose|j: int| 0 <= j < len && !(self.window@[ring_slot(
                        self.head as int,
                        j,
                        len as int,
                    )] == self.pattern@[j]);
                    assert(ring_order(self.window@, self.head as int, len as int)[j] != pat[j]);
                }
            }
            self.found = same;
        }
    }
}

} // verus!

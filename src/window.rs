//! A scrollable, filtered view of at most `size` outcomes of a finished run.
//!
//! The window keeps its two ends as positions in the tag array and as offsets in the record
//! heap, so scrolling by one entry walks over a few records instead of rescanning the ledger.
use vstd::prelude::*;
use crate::ledger::{
    heap_offset, heap_start, lemma_heap_offset_aligned, lemma_heap_offset_mono, outcome_view,
    tag_of, TestOutcomes,
};
use crate::outcome::Outcome;
use crate::record::{align_forward, lemma_align_up, read_backward, read_forward, skip_backward, skip_forward};

verus! {

/// Which outcomes a window shows.
#[derive(Debug, Clone, Copy, PartialEq, Eq)]
pub enum Filter {
    /// Every outcome.
    All,
    /// Passed tests only.
    Passed,
    /// Failed tests only.
    Failed,
    /// Ignored tests only.
    Ignored,
}

impl Filter {
    /// The filter lets `o` through.
    pub open spec fn accepts<D>(self, o: Outcome<D>) -> bool {
        match self {
            Filter::All => true,
            Filter::Passed => o is Passed,
            Filter::Failed => o is Failed,
            Filter::Ignored => o is Ignored,
        }
    }

    /// Whether the filter lets `outcome` through.
    pub fn filter<D>(&self, outcome: &Outcome<D>) -> (r: bool)
        ensures
            r == self.accepts(*outcome),
    {
        match self {
            Filter::All => true,
            Filter::Passed => matches!(outcome, Outcome::Passed),
            Filter::Failed => matches!(outcome, Outcome::Failed(_)),
            Filter::Ignored => matches!(outcome, Outcome::Ignored),
        }
    }

    fn filter_tag(&self, tag: u8) -> (r: bool)
        ensures
            forall|o: Outcome<Seq<u8>>| tag == tag_of(o) ==> r == self.accepts(o),
    {
        match self {
            Filter::All => true,
            Filter::Passed => tag == 0,
            Filter::Failed => tag == 1,
            Filter::Ignored => tag == 2,
        }
    }
}

/// `prefix` is a leading part of `path`.
pub open spec fn is_prefix(prefix: Seq<Seq<char>>, path: Seq<Seq<char>>) -> bool {
    prefix.len() <= path.len() && path.subrange(0, prefix.len() as int) == prefix
}

/// Restricts a window to the tests under one module path.
#[derive(Debug)]
pub struct ModuleFilter {
    prefix: Vec<String>,
}

impl ModuleFilter {
    /// The module path that tests must lie under.
    pub closed spec fn path(&self) -> Seq<Seq<char>> {
        self.prefix.deep_view()
    }

    pub fn new(prefix: Vec<String>) -> (r: ModuleFilter)
        ensures
            r.path() == prefix.deep_view(),
    {
        ModuleFilter { prefix }
    }

    /// Whether a test with the given module path lies under this filter's path.
    pub fn filter(&self, modules: &Vec<String>) -> (r: bool)
        ensures
            r == is_prefix(self.path(), modules.deep_view()),
    {
        let ghost path = self.path();
        let ghost mods = modules.deep_view();
        if self.prefix.len() > modules.len() {
            return false;
        }
        let mut i: usize = 0;
        while i < self.prefix.len()
            invariant
                path == self.path(),
                mods == modules.deep_view(),
                path.len() == self.prefix@.len(),
                mods.len() == modules@.len(),
                self.prefix@.len() <= modules@.len(),
                0 <= i <= self.prefix@.len(),
                forall|k: int| 0 <= k < i ==> mods[k] == path[k],
            decreases self.prefix@.len() - i,
        {
            assert(mods[i as int] == modules@[i as int]@);
            assert(path[i as int] == self.prefix@[i as int]@);
            if !modules[i].eq(&self.prefix[i]) {
                assert(mods.subrange(0, path.len() as int)[i as int] != path[i as int]);
                return false;
            }
            i = i + 1;
        }
        assert(mods.subrange(0, path.len() as int) =~= path);
        true
    }

    /// The module path that tests must lie under.
    pub fn prefix(&self) -> (r: &Vec<String>)
        ensures
            r.deep_view() == self.path(),
    {
        &self.prefix
    }
}

/// The module path that a module filter restricts to, if any.
pub open spec fn scope_of(module_filter: Option<ModuleFilter>) -> Option<Seq<Seq<char>>> {
    match module_filter {
        None => None,
        Some(m) => Some(m.path()),
    }
}

/// Test `j` of `out` is shown by a window with `filter` restricted to `scope`.
pub open spec fn shown(
    out: &TestOutcomes,
    filter: Filter,
    scope: Option<Seq<Seq<char>>>,
    j: int,
) -> bool {
    &&& filter.accepts(out.history()[j])
    &&& match scope {
        None => true,
        Some(p) => is_prefix(p, out.module_paths()[j]),
    }
}

/// How many of the tests `lo..hi` of `out` are shown.
pub open spec fn count_shown(
    out: &TestOutcomes,
    filter: Filter,
    scope: Option<Seq<Seq<char>>>,
    lo: int,
    hi: int,
) -> nat
    decreases hi - lo,
{
    if hi <= lo {
        0
    } else {
        count_shown(out, filter, scope, lo, hi - 1) + if shown(out, filter, scope, hi - 1) {
            1nat
        } else {
            0nat
        }
    }
}

pub proof fn lemma_count_split(
    out: &TestOutcomes,
    filter: Filter,
    scope: Option<Seq<Seq<char>>>,
    lo: int,
    mid: int,
    hi: int,
)
    requires
        lo <= mid <= hi,
    ensures
        count_shown(out, filter, scope, lo, hi) == count_shown(out, filter, scope, lo, mid)
            + count_shown(out, filter, scope, mid, hi),
    decreases hi - mid,
{
    if mid < hi {
        lemma_count_split(out, filter, scope, lo, mid, hi - 1);
    }
}

/// Position `j` is the `k`-th shown test (counting from 0).
pub open spec fn kth_shown(
    out: &TestOutcomes,
    filter: Filter,
    scope: Option<Seq<Seq<char>>>,
    k: int,
    j: int,
) -> bool {
    0 <= j < out.history().len() && shown(out, filter, scope, j) && count_shown(
        out,
        filter,
        scope,
        0,
        j,
    ) == k
}

/// The read-back of tests `0..hi`, each with its index, keeping those that are shown.
pub open spec fn filtered(
    out: &TestOutcomes,
    filter: Filter,
    scope: Option<Seq<Seq<char>>>,
    hi: int,
) -> Seq<(int, Outcome<Seq<u8>>)>
    decreases hi,
{
    if hi <= 0 {
        seq![]
    } else {
        let earlier = filtered(out, filter, scope, hi - 1);
        if shown(out, filter, scope, hi - 1) {
            earlier.push((hi - 1, out.history()[hi - 1]))
        } else {
            earlier
        }
    }
}

proof fn lemma_filtered_prefix(
    out: &TestOutcomes,
    filter: Filter,
    scope: Option<Seq<Seq<char>>>,
    hi: int,
)
    requires
        0 <= hi,
    ensures
        filtered(out, filter, scope, hi).len() == count_shown(out, filter, scope, 0, hi),
        forall|j: int|
            0 <= j < hi && shown(out, filter, scope, j) ==> filtered(out, filter, scope, hi)[
                count_shown(out, filter, scope, 0, j) as int] == (j, out.history()[j]),
    decreases hi,
{
    if hi > 0 {
        lemma_filtered_prefix(out, filter, scope, hi - 1);
        assert forall|j: int|
            0 <= j < hi && shown(out, filter, scope, j) implies filtered(out, filter, scope, hi)[
            count_shown(out, filter, scope, 0, j) as int] == (j, out.history()[j]) by {
            if j < hi - 1 {
                lemma_count_split(out, filter, scope, 0, j, hi - 1);
                lemma_count_split(out, filter, scope, j, j + 1, hi - 1);
                lemma_count_split(out, filter, scope, j, j, j + 1);
            }
        }
    }
}

/// What a window shows is the read-back with the filter applied: the `k`-th shown test, the
/// one a window returns for position `k`, is entry `k` of the filtered read-back, and the
/// filtered read-back has exactly as many entries as there are shown tests.
pub proof fn lemma_window_is_filtered_read_back(
    out: &TestOutcomes,
    filter: Filter,
    scope: Option<Seq<Seq<char>>>,
)
    requires
        out.wf(),
    ensures
        ({
            let n = out.history().len() as int;
            &&& filtered(out, filter, scope, n).len() == count_shown(out, filter, scope, 0, n)
            &&& forall|k: int, j: int|
                kth_shown(out, filter, scope, k, j) ==> filtered(out, filter, scope, n)[k] == (
                j,
                out.history()[j],
            )
        }),
{
    lemma_filtered_prefix(out, filter, scope, out.history().len() as int);
}

/// A window of at most `size` consecutive shown outcomes of a finished run.
pub struct Window {
    filter: Filter,
    module_filter: Option<ModuleFilter>,
    size: usize,
    /// The test at the top of the window.
    top: usize,
    /// The heap offset of the first record at or after `top`.
    front: usize,
    /// The test just past the bottom of the window.
    bottom: usize,
    /// The heap offset of the first record at or after `bottom`.
    back: usize,
    /// How many tests are shown in all.
    filtered_length: usize,
    /// How many shown tests lie above the window.
    filtered_index: usize,
}

impl Window {
    pub closed spec fn filter_kind(&self) -> Filter {
        self.filter
    }

    pub closed spec fn module_filter(&self) -> Option<ModuleFilter> {
        self.module_filter
    }

    /// The module path the window is restricted to, if any.
    pub closed spec fn scope(&self) -> Option<Seq<Seq<char>>> {
        scope_of(self.module_filter)
    }

    pub closed spec fn size(&self) -> nat {
        self.size as nat
    }

    /// How many shown tests lie above the window.
    pub closed spec fn filtered_index(&self) -> nat {
        self.filtered_index as nat
    }

    /// How many tests are shown in all.
    pub closed spec fn filtered_length(&self) -> nat {
        self.filtered_length as nat
    }

    /// How many entries the window shows.
    pub open spec fn visible(&self) -> nat {
        if self.filtered_index() + self.size() <= self.filtered_length() {
            self.size()
        } else {
            (self.filtered_length() - self.filtered_index()) as nat
        }
    }

    /// The window's positions agree with each other and with `out`.
    pub closed spec fn wf(&self, out: &TestOutcomes) -> bool {
        let n = out.history().len() as int;
        let h = out.history();
        let f = self.filter;
        let sc = self.scope();
        let k = self.filtered_index as int;
        &&& out.wf()
        &&& self.size > 0
        &&& self.filtered_length == count_shown(out, f, sc, 0, n)
        &&& k <= self.filtered_length
        &&& k > 0 ==> k + self.size <= self.filtered_length
        &&& self.top <= self.bottom <= n
        &&& count_shown(out, f, sc, 0, self.top as int) == k
        &&& self.top < n ==> shown(out, f, sc, self.top as int)
        &&& self.top == n ==> k == self.filtered_length
        &&& count_shown(out, f, sc, self.top as int, self.bottom as int) == self.visible()
        &&& self.visible() == self.size ==> shown(out, f, sc, self.bottom - 1)
        &&& self.visible() < self.size ==> self.bottom == n
        &&& self.front == heap_start(n) + heap_offset(h, self.top as int)
        &&& self.back == heap_start(n) + heap_offset(h, self.bottom as int)
    }
}

impl Window {
    /// How many tests the window's filter lets through in all.
    pub fn length(&self) -> (r: usize)
        ensures
            r == self.filtered_length(),
    {
        self.filtered_length
    }

    /// Opens a window of `size` entries at the top of the outcomes that `filter` and
    /// `module_filter` let through.
    pub fn new(out: &TestOutcomes, filter: Filter, module_filter: Option<ModuleFilter>, size: usize) -> (w:
        Window)
        requires
            out.wf(),
            size > 0,
        ensures
            w.wf(out),
            w.filter_kind() == filter,
            w.module_filter() == module_filter,
            w.scope() == scope_of(module_filter),
            w.size() == size,
            w.filtered_index() == 0,
            w.filtered_length() == count_shown(
                out,
                filter,
                w.scope(),
                0,
                out.history().len() as int,
            ),
    {
        proof {
            out.lemma_views();
        }
        let ghost sc = scope_of(module_filter);
        let ghost h = out.history();
        let n = out.modules.len();
        let ghost hs = heap_start(n as int);
        // Count every shown test.
        let mut filtered_length: usize = 0;
        let mut j: usize = 0;
        while j < n
            invariant
                out.wf(),
                sc == scope_of(module_filter),
                n == out.history().len(),
                0 <= j <= n,
                filtered_length == count_shown(out, filter, sc, 0, j as int),
                filtered_length <= j,
            decreases n - j,
        {
            if shown_at(out, filter, &module_filter, j) {
                filtered_length = filtered_length + 1;
            }
            j = j + 1;
        }
        // Find the first shown test.
        let mut top: usize = 0;
        let mut front = align_forward(n);
        while top < n && !shown_at(out, filter, &module_filter, top)
            invariant
                out.wf(),
                sc == scope_of(module_filter),
                n == out.history().len(),
                h == out.history(),
                hs == heap_start(n as int),
                0 <= top <= n,
                count_shown(out, filter, sc, 0, top as int) == 0,
                front == hs + heap_offset(h, top as int),
            decreases n - top,
        {
            front = advance(out, top, front);
            top = top + 1;
        }
        proof {
            lemma_count_split(out, filter, sc, 0, top as int, n as int);
        }
        // Find the bottom: just past the `size`-th shown test, or the end when there are fewer.
        let mut bottom = top;
        let mut back = front;
        let mut seen: usize = 0;
        while seen < size && bottom < n
            invariant
                out.wf(),
                sc == scope_of(module_filter),
                n == out.history().len(),
                h == out.history(),
                hs == heap_start(n as int),
                top <= bottom <= n,
                size > 0,
                filtered_length == count_shown(out, filter, sc, top as int, n as int),
                seen == count_shown(out, filter, sc, top as int, bottom as int),
                seen <= size,
                seen == size ==> shown(out, filter, sc, bottom - 1),
                back == hs + heap_offset(h, bottom as int),
            decreases n - bottom,
        {
            if shown_at(out, filter, &module_filter, bottom) {
                seen = seen + 1;
            }
            back = advance(out, bottom, back);
            bottom = bottom + 1;
        }
        proof {
            lemma_count_split(out, filter, sc, top as int, bottom as int, n as int);
        }
        Window {
            filter,
            module_filter,
            size,
            top,
            front,
            bottom,
            back,
            filtered_length,
            filtered_index: 0,
        }
    }
}

impl Window {
    /// Slides the window down by one shown entry and returns the entry that came into view at
    /// the bottom, with its test index. At the last position nothing changes and `None` is
    /// returned.
    pub fn next(&mut self, out: &TestOutcomes) -> (r: Option<(usize, Outcome<Vec<u8>>)>)
        requires
            old(self).wf(out),
        ensures
            final(self).wf(out),
            final(self).filter_kind() == old(self).filter_kind(),
            final(self).module_filter() == old(self).module_filter(),
            final(self).size() == old(self).size(),
            final(self).filtered_length() == old(self).filtered_length(),
            old(self).filtered_index() + old(self).size() < old(self).filtered_length() ==> {
                &&& final(self).filtered_index() == old(self).filtered_index() + 1
                &&& r matches Some((j, o)) && kth_shown(
                    out,
                    old(self).filter_kind(),
                    old(self).scope(),
                    (old(self).filtered_index() + old(self).size()) as int,
                    j as int,
                ) && outcome_view(o) == out.history()[j as int]
            },
            old(self).filtered_index() + old(self).size() >= old(self).filtered_length() ==> r is None
                && *final(self) == *old(self),
    {
        if self.filtered_index >= self.filtered_length || self.size >= self.filtered_length
            - self.filtered_index {
            return None;
        }
        proof {
            out.lemma_views();
        }
        let ghost h = out.history();
        let ghost n = h.len() as int;
        let ghost hs = heap_start(n);
        let ghost sc = self.scope();
        let ghost k = self.filtered_index as int;
        let ghost top0 = self.top as int;
        let ghost bottom0 = self.bottom as int;
        proof {
            lemma_count_split(out, self.filter, sc, 0, top0, bottom0);
            lemma_count_split(out, self.filter, sc, 0, bottom0, n);
        }
        let count = out.modules.len();
        // Find the next shown test below the window.
        let mut j = self.bottom;
        let mut back = self.back;
        while !shown_at(out, self.filter, &self.module_filter, j)
            invariant
                out.wf(),
                h == out.history(),
                n == h.len(),
                hs == heap_start(n),
                sc == scope_of(self.module_filter),
                bottom0 <= j < n,
                n == count,
                count_shown(out, self.filter, sc, j as int, n) > 0,
                count_shown(out, self.filter, sc, bottom0, j as int) == 0,
                back == hs + heap_offset(h, j as int),
            decreases n - j,
        {
            proof {
                lemma_count_split(out, self.filter, sc, j as int, j + 1, n);
                lemma_count_split(out, self.filter, sc, bottom0, j as int, j + 1);
                lemma_count_split(out, self.filter, sc, j + 1, j + 1, n);
            }
            back = advance(out, j, back);
            j = j + 1;
            proof {
                if j >= n {
                    assert(count_shown(out, self.filter, sc, j as int, n) == 0);
                }
            }
        }
        let outcome = entry(out, j, back);
        back = advance(out, j, back);
        proof {
            lemma_count_split(out, self.filter, sc, 0, bottom0, j as int);
            lemma_count_split(out, self.filter, sc, top0, bottom0, j + 1);
            lemma_count_split(out, self.filter, sc, bottom0, j as int, j + 1);
        }
        // The top entry leaves the window: move to the next shown test.
        let mut top = self.top;
        let mut front = self.front;
        front = advance(out, top, front);
        top = top + 1;
        proof {
            lemma_count_split(out, self.filter, sc, 0, top0, top as int);
            lemma_count_split(out, self.filter, sc, top0, top as int, j + 1);
        }
        while !shown_at(out, self.filter, &self.module_filter, top)
            invariant
                out.wf(),
                h == out.history(),
                n == h.len(),
                hs == heap_start(n),
                sc == scope_of(self.module_filter),
                top0 < top <= j < n,
                count_shown(out, self.filter, sc, 0, top as int) == k + 1,
                count_shown(out, self.filter, sc, top as int, j + 1) == self.size,
                front == hs + heap_offset(h, top as int),
                self.size > 0,
            decreases j - top,
        {
            proof {
                lemma_count_split(out, self.filter, sc, 0, top as int, top + 1);
                lemma_count_split(out, self.filter, sc, top as int, top + 1, j + 1);
            }
            front = advance(out, top, front);
            top = top + 1;
        }
        self.top = top;
        self.front = front;
        self.bottom = j + 1;
        self.back = back;
        self.filtered_index = self.filtered_index + 1;
        Some((j, outcome))
    }
}

impl Window {
    /// Slides the window up by one shown entry and returns the entry that came into view at the
    /// top, with its test index. At the first position nothing changes and `None` is returned.
    pub fn prev(&mut self, out: &TestOutcomes) -> (r: Option<(usize, Outcome<Vec<u8>>)>)
        requires
            old(self).wf(out),
        ensures
            final(self).wf(out),
            final(self).filter_kind() == old(self).filter_kind(),
            final(self).module_filter() == old(self).module_filter(),
            final(self).size() == old(self).size(),
            final(self).filtered_length() == old(self).filtered_length(),
            old(self).filtered_index() > 0 ==> {
                &&& final(self).filtered_index() == old(self).filtered_index() - 1
                &&& r matches Some((j, o)) && kth_shown(
                    out,
                    old(self).filter_kind(),
                    old(self).scope(),
                    old(self).filtered_index() - 1,
                    j as int,
                ) && outcome_view(o) == out.history()[j as int]
            },
            old(self).filtered_index() == 0 ==> r is None && *final(self) == *old(self),
    {
        if self.filtered_index == 0 {
            return None;
        }
        proof {
            out.lemma_views();
        }
        let ghost h = out.history();
        let ghost n = h.len() as int;
        let ghost hs = heap_start(n);
        let ghost sc = self.scope();
        let ghost k = self.filtered_index as int;
        let ghost top0 = self.top as int;
        let ghost bottom0 = self.bottom as int;
        // Find the shown test just above the window.
        let mut t = self.top - 1;
        let mut front = retreat(out, self.top, self.front);
        proof {
            lemma_count_split(out, self.filter, sc, 0, t as int, top0);
        }
        while !shown_at(out, self.filter, &self.module_filter, t)
            invariant
                out.wf(),
                h == out.history(),
                n == h.len(),
                hs == heap_start(n),
                sc == scope_of(self.module_filter),
                0 <= t < top0 <= n,
                count_shown(out, self.filter, sc, 0, t + 1) == k,
                count_shown(out, self.filter, sc, t + 1, top0) == 0,
                k > 0,
                front == hs + heap_offset(h, t as int),
            decreases t,
        {
            proof {
                lemma_count_split(out, self.filter, sc, 0, t as int, t + 1);
                lemma_count_split(out, self.filter, sc, t as int, t + 1, top0);
                lemma_count_split(out, self.filter, sc, t as int, t as int, t + 1);
            }
            front = retreat(out, t, front);
            t = t - 1;
        }
        let outcome = entry(out, t, front);
        proof {
            lemma_count_split(out, self.filter, sc, 0, t as int, t + 1);
            lemma_count_split(out, self.filter, sc, t as int, t + 1, top0);
            lemma_count_split(out, self.filter, sc, t as int, top0, bottom0);
            lemma_count_split(out, self.filter, sc, t as int, t + 1, t + 1);
        }
        // The bottom entry leaves the window: move back past it, then up to the entry before.
        let mut b = self.bottom - 1;
        let mut back = retreat(out, self.bottom, self.back);
        proof {
            lemma_count_split(out, self.filter, sc, t as int, b as int, bottom0);
        }
        while !shown_at(out, self.filter, &self.module_filter, b - 1)
            invariant
                out.wf(),
                h == out.history(),
                n == h.len(),
                hs == heap_start(n),
                sc == scope_of(self.module_filter),
                t < b <= n,
                count_shown(out, self.filter, sc, t as int, b as int) == self.size,
                self.size > 0,
                back == hs + heap_offset(h, b as int),
            decreases b,
        {
            proof {
                lemma_count_split(out, self.filter, sc, t as int, b - 1, b as int);
                lemma_count_split(out, self.filter, sc, b - 1, b - 1, b as int);
            }
            back = retreat(out, b, back);
            b = b - 1;
        }
        self.top = t;
        self.front = front;
        self.bottom = b;
        self.back = back;
        self.filtered_index = self.filtered_index - 1;
        Some((t, outcome))
    }
}

impl Window {
    /// The `index`-th entry counted from the top of the window, with its test index: the shown
    /// test that has `filtered_index() + index` shown tests before it, if there is one.
    pub fn get(&self, out: &TestOutcomes, index: usize) -> (r: Option<(usize, Outcome<Vec<u8>>)>)
        requires
            self.wf(out),
        ensures
            self.filtered_index() + index < self.filtered_length() ==> (r matches Some((j, o))
                && kth_shown(
                out,
                self.filter_kind(),
                self.scope(),
                self.filtered_index() + index,
                j as int,
            ) && outcome_view(o) == out.history()[j as int]),
            self.filtered_index() + index >= self.filtered_length() ==> r is None,
    {
        proof {
            out.lemma_views();
        }
        let ghost h = out.history();
        let ghost n = h.len() as int;
        let ghost hs = heap_start(n);
        let ghost sc = self.scope();
        let ghost k = self.filtered_index as int;
        let count = out.modules.len();
        let mut j = self.top;
        let mut pos = self.front;
        let mut seen: usize = 0;
        while j < count
            invariant
                out.wf(),
                h == out.history(),
                n == h.len(),
                n == count,
                hs == heap_start(n),
                sc == scope_of(self.module_filter),
                self.top <= j <= n,
                k == self.filtered_index,
                seen <= index,
                count_shown(out, self.filter, sc, 0, j as int) == k + seen,
                pos == hs + heap_offset(h, j as int),
                self.filtered_length == count_shown(out, self.filter, sc, 0, n),
            decreases n - j,
        {
            proof {
                lemma_count_split(out, self.filter, sc, 0, j as int, j + 1);
                lemma_count_split(out, self.filter, sc, j as int, j as int, j + 1);
            }
            if shown_at(out, self.filter, &self.module_filter, j) {
                if seen == index {
                    proof {
                        lemma_count_split(out, self.filter, sc, 0, j + 1, n);
                    }
                    let o = entry(out, j, pos);
                    return Some((j, o));
                }
                seen = seen + 1;
            }
            pos = advance(out, j, pos);
            j = j + 1;
        }
        None
    }
}

/// A window's whole state is fixed by the outcomes, its filter, its size and its position: two
/// windows that agree on those are equal, however each got there.
pub proof fn lemma_window_determined(w1: Window, w2: Window, out: &TestOutcomes)
    requires
        w1.wf(out),
        w2.wf(out),
        w1.filter_kind() == w2.filter_kind(),
        w1.module_filter() == w2.module_filter(),
        w1.size() == w2.size(),
        w1.filtered_index() == w2.filtered_index(),
    ensures
        w1 == w2,
{
    let sc = w1.scope();
    let f = w1.filter;
    let n = out.history().len() as int;
    if w1.top < w2.top {
        lemma_count_split(out, f, sc, 0, w1.top as int, w2.top as int);
        lemma_count_split(out, f, sc, w1.top as int, w1.top + 1, w2.top as int);
        lemma_count_split(out, f, sc, w1.top as int, w1.top as int, w1.top + 1);
    } else if w2.top < w1.top {
        lemma_count_split(out, f, sc, 0, w2.top as int, w1.top as int);
        lemma_count_split(out, f, sc, w2.top as int, w2.top + 1, w1.top as int);
        lemma_count_split(out, f, sc, w2.top as int, w2.top as int, w2.top + 1);
    }
    assert(w1.top == w2.top);
    if w1.bottom < w2.bottom {
        lemma_count_split(out, f, sc, w1.top as int, w1.bottom as int, w2.bottom as int);
        lemma_count_split(out, f, sc, w1.bottom as int, w2.bottom - 1, w2.bottom as int);
        lemma_count_split(out, f, sc, w2.bottom - 1, w2.bottom - 1, w2.bottom as int);
    } else if w2.bottom < w1.bottom {
        lemma_count_split(out, f, sc, w2.top as int, w2.bottom as int, w1.bottom as int);
        lemma_count_split(out, f, sc, w2.bottom as int, w1.bottom - 1, w1.bottom as int);
        lemma_count_split(out, f, sc, w1.bottom - 1, w1.bottom - 1, w1.bottom as int);
    }
    assert(w1.bottom == w2.bottom);
}

/// Whether test `j` is shown.
fn shown_at(out: &TestOutcomes, filter: Filter, module_filter: &Option<ModuleFilter>, j: usize) -> (r:
    bool)
    requires
        out.wf(),
        j < out.history().len(),
    ensures
        r == shown(out, filter, scope_of(*module_filter), j as int),
{
    proof {
        out.lemma_views();
    }
    let tag = out.region[j];
    if !filter.filter_tag(tag) {
        return false;
    }
    match module_filter {
        None => true,
        Some(m) => {
            assert(out.module_paths()[j as int] == out.modules@[j as int].deep_view());
            m.filter(&out.modules[j])
        },
    }
}

/// The heap offset just past test `j`'s record, given the one just before it.
fn advance(out: &TestOutcomes, j: usize, pos: usize) -> (r: usize)
    requires
        out.wf(),
        j < out.history().len(),
        pos == heap_start(out.history().len() as int) + heap_offset(out.history(), j as int),
    ensures
        r == heap_start(out.history().len() as int) + heap_offset(out.history(), j + 1),
{
    proof {
        out.lemma_views();
    }
    if out.region[j] == 1 {
        assert(out.history()[j as int] is Failed);
        skip_forward(&out.region, pos)
    } else {
        pos
    }
}

/// The heap offset just before test `j - 1`'s record, given the one just after it.
fn retreat(out: &TestOutcomes, j: usize, pos: usize) -> (r: usize)
    requires
        out.wf(),
        0 < j <= out.history().len(),
        pos == heap_start(out.history().len() as int) + heap_offset(out.history(), j as int),
    ensures
        r == heap_start(out.history().len() as int) + heap_offset(out.history(), j - 1),
{
    proof {
        out.lemma_views();
        lemma_heap_offset_aligned(out.history(), j - 1);
    }
    if out.region[j - 1] == 1 {
        assert(out.history()[j - 1] is Failed);
        skip_backward(&out.region, pos)
    } else {
        pos
    }
}

/// The outcome of test `j`, given the heap offset just before its record.
fn entry(out: &TestOutcomes, j: usize, pos: usize) -> (r: Outcome<Vec<u8>>)
    requires
        out.wf(),
        j < out.history().len(),
        pos == heap_start(out.history().len() as int) + heap_offset(out.history(), j as int),
    ensures
        outcome_view(r) == out.history()[j as int],
{
    proof {
        out.lemma_views();
    }
    let tag = out.region[j];
    if tag == 1 {
        assert(out.history()[j as int] is Failed);
        let (message, _) = read_forward(&out.region, pos);
        Outcome::Failed(message)
    } else if tag == 0 {
        Outcome::Passed
    } else {
        Outcome::Ignored
    }
}

} // verus!

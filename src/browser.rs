//! The decisions of the results screen: which page of results is shown, which row is selected,
//! and what a key press does. The screen itself waits for the key presses and draws.
use vstd::prelude::*;
use crate::ledger::{outcome_view, TestOutcomes};
use crate::modules::prefix_of;
use crate::mmio::{held, KeyInput, KEY_A, KEY_DOWN, KEY_L, KEY_R, KEY_START, KEY_UP};
use crate::outcome::Outcome;
use crate::window::{kth_shown, scope_of, Filter, ModuleFilter, Window};

verus! {

/// How many results the screen shows at once.
pub const RESULT_ROWS: usize = 18;

/// One page of the results screen per filter.
#[derive(Debug, Clone, Copy, PartialEq, Eq)]
pub enum Page {
    All,
    Failed,
    Passed,
    Ignored,
}

/// What the screen does after a key press.
#[derive(Debug)]
pub enum Action {
    /// Nothing changed.
    Wait,
    /// The page, the selection or the window moved: draw again.
    Redraw,
    /// Show the selected entry: its test index and outcome.
    ShowEntry(usize, Outcome<Vec<u8>>),
    /// Let the user choose a module filter.
    ChooseModule,
}

/// The page that R moves to.
pub open spec fn page_right(p: Page) -> Page {
    match p {
        Page::All => Page::Failed,
        Page::Failed => Page::Passed,
        _ => Page::Ignored,
    }
}

/// The page that L moves to.
pub open spec fn page_left(p: Page) -> Page {
    match p {
        Page::Ignored => Page::Passed,
        Page::Passed => Page::Failed,
        _ => Page::All,
    }
}

/// `key` is held in `keys`.
pub open spec fn pressed(keys: KeyInput, key: u16) -> bool {
    held(keys) & held(KeyInput(key)) == held(KeyInput(key))
}

/// The results screen: four windows, one per page, each with its selected row.
pub struct Browser {
    all: Window,
    failed: Window,
    passed: Window,
    ignored: Window,
    page: Page,
    rows: [usize; 4],
    old_keys: KeyInput,
}

/// The slot of a page in the browser's per-page arrays.
pub open spec fn slot(p: Page) -> int {
    match p {
        Page::All => 0,
        Page::Failed => 1,
        Page::Passed => 2,
        Page::Ignored => 3,
    }
}

fn slot_of(p: Page) -> (r: usize)
    ensures
        r == slot(p),
{
    match p {
        Page::All => 0,
        Page::Failed => 1,
        Page::Passed => 2,
        Page::Ignored => 3,
    }
}

impl Browser {
    /// The page shown.
    pub closed spec fn page(&self) -> Page {
        self.page
    }

    /// The selected row of page `p`, counted from the top of its window.
    pub closed spec fn row(&self, p: Page) -> nat {
        self.rows[slot(p)] as nat
    }

    /// The window of page `p`.
    pub closed spec fn window(&self, p: Page) -> Window {
        match p {
            Page::All => self.all,
            Page::Failed => self.failed,
            Page::Passed => self.passed,
            Page::Ignored => self.ignored,
        }
    }

    /// The key state last seen.
    pub closed spec fn old_keys(&self) -> KeyInput {
        self.old_keys
    }

    /// Every window is well formed over `out`, with its page's filter and `RESULT_ROWS` rows.
    pub closed spec fn wf(&self, out: &TestOutcomes) -> bool {
        &&& self.all.wf(out) && self.all.filter_kind() == Filter::All
        &&& self.failed.wf(out) && self.failed.filter_kind() == Filter::Failed
        &&& self.passed.wf(out) && self.passed.filter_kind() == Filter::Passed
        &&& self.ignored.wf(out) && self.ignored.filter_kind() == Filter::Ignored
        &&& self.all.size() == RESULT_ROWS
        &&& self.failed.size() == RESULT_ROWS
        &&& self.passed.size() == RESULT_ROWS
        &&& self.ignored.size() == RESULT_ROWS
        &&& self.rows_in_range()
    }

    /// Every page's selected row lies within its window.
    pub closed spec fn rows_in_range(&self) -> bool {
        forall|p: Page| #[trigger] self.row(p) <= last_row(self.window(p).filtered_length())
    }

    /// Opens the screen on the All page, each page at its top, for the tests under `prefix`
    /// (all tests when `None`).
    pub fn new(out: &TestOutcomes, prefix: Option<Vec<String>>) -> (b: Browser)
        requires
            out.wf(),
        ensures
            b.wf(out),
            b.page() == Page::All,
            forall|p: Page| b.row(p) == 0 && b.window(p).filtered_index() == 0,
            forall|p: Page|
                scope_of(#[trigger] b.window(p).module_filter()) == match prefix {
                    None => None::<Seq<Seq<char>>>,
                    Some(v) => Some(v.deep_view()),
                },
            b.old_keys() == KeyInput(KEY_A),
    {
        let (f1, f2, f3, f4) = match prefix {
            None => (None, None, None, None),
            Some(v) => {
                assert(v.deep_view().subrange(0, v@.len() as int) =~= v.deep_view());
                (
                Some(ModuleFilter::new(prefix_of(&v, v.len()))),
                Some(ModuleFilter::new(prefix_of(&v, v.len()))),
                Some(ModuleFilter::new(prefix_of(&v, v.len()))),
                Some(ModuleFilter::new(v)),
            )
            },
        };
        Browser {
            all: Window::new(out, Filter::All, f1, RESULT_ROWS),
            failed: Window::new(out, Filter::Failed, f2, RESULT_ROWS),
            passed: Window::new(out, Filter::Passed, f3, RESULT_ROWS),
            ignored: Window::new(out, Filter::Ignored, f4, RESULT_ROWS),
            page: Page::All,
            rows: [0, 0, 0, 0],
            old_keys: KeyInput(KEY_A),
        }
    }

    /// The page shown.
    pub fn current_page(&self) -> (r: Page)
        ensures
            r == self.page(),
    {
        self.page
    }

    /// The selected row of the page shown.
    pub fn selected_row(&self) -> (r: usize)
        ensures
            r == self.row(self.page()),
    {
        self.rows[slot_of(self.page)]
    }

    /// The entry in row `row` of the page shown, with its test index.
    pub fn entry(&self, out: &TestOutcomes, row: usize) -> (r: Option<(usize, Outcome<Vec<u8>>)>)
        requires
            self.wf(out),
        ensures
            ({
                let w = self.window(self.page());
                &&& w.filtered_index() + row < w.filtered_length() ==> (r matches Some((j, o))
                    && kth_shown(out, w.filter_kind(), w.scope(), w.filtered_index() + row, j as int)
                    && outcome_view(o) == out.history()[j as int])
                &&& w.filtered_index() + row >= w.filtered_length() ==> r is None
            }),
    {
        match self.page {
            Page::All => self.all.get(out, row),
            Page::Failed => self.failed.get(out, row),
            Page::Passed => self.passed.get(out, row),
            Page::Ignored => self.ignored.get(out, row),
        }
    }
}

/// `b2` differs from `b1` at most in page `p`'s window and row.
pub open spec fn same_but(b1: Browser, b2: Browser, p: Page) -> bool {
    &&& b2.page() == b1.page()
    &&& forall|q: Page| q != p ==> #[trigger] b2.window(q) == b1.window(q) && b2.row(q) == b1.row(q)
    &&& b2.window(p).filter_kind() == b1.window(p).filter_kind()
    &&& b2.window(p).module_filter() == b1.window(p).module_filter()
    &&& b2.window(p).size() == b1.window(p).size()
    &&& b2.window(p).filtered_length() == b1.window(p).filtered_length()
}

/// The row that DOWN scrolls at instead of moving the selection: the window's last.
pub open spec fn last_row(len: nat) -> nat {
    if len == 0 {
        0
    } else if len - 1 < RESULT_ROWS - 1 {
        (len - 1) as nat
    } else {
        (RESULT_ROWS - 1) as nat
    }
}

/// A browser whose rows lie within their windows has page `p`'s row within its window.
proof fn lemma_row_bound(b: Browser, p: Page)
    requires
        b.rows_in_range(),
    ensures
        b.row(p) <= last_row(b.window(p).filtered_length()),
{
}

/// Rows stay within their windows when at most page `p`'s row moves, to a row within its
/// window, and no window's length changes.
proof fn lemma_rows_in_range(b1: Browser, b2: Browser, p: Page)
    requires
        b1.rows_in_range(),
        forall|q: Page| #[trigger] b2.window(q).filtered_length() == b1.window(q).filtered_length(),
        forall|q: Page| q != p ==> #[trigger] b2.row(q) == b1.row(q),
        b2.row(p) <= b1.row(p) || b2.row(p) <= last_row(b2.window(p).filtered_length()),
    ensures
        b2.rows_in_range(),
{
    assert forall|q: Page| #[trigger] b2.row(q) <= last_row(b2.window(q).filtered_length()) by {
        assert(b2.window(q).filtered_length() == b1.window(q).filtered_length());
        assert(b1.row(q) <= last_row(b1.window(q).filtered_length()));
        if q != p {
            assert(b2.row(q) == b1.row(q));
        }
    }
}

impl Browser {
    /// Scrolls page `p`'s window up by one entry, when it is not at the top.
    fn scroll_up(&mut self, out: &TestOutcomes)
        requires
            old(self).wf(out),
        ensures
            final(self).wf(out),
            same_but(*old(self), *final(self), old(self).page()),
            final(self).old_keys() == old(self).old_keys(),
            final(self).row(old(self).page()) == old(self).row(old(self).page()),
            final(self).window(old(self).page()).filtered_index() == if old(self).window(
                old(self).page(),
            ).filtered_index() > 0 {
                old(self).window(old(self).page()).filtered_index() - 1
            } else {
                old(self).window(old(self).page()).filtered_index() as int
            },
    {
        let ghost before = *self;
        match self.page {
            Page::All => {
                self.all.prev(out);
            },
            Page::Failed => {
                self.failed.prev(out);
            },
            Page::Passed => {
                self.passed.prev(out);
            },
            Page::Ignored => {
                self.ignored.prev(out);
            },
        }
        proof {
            lemma_rows_in_range(before, *self, before.page());
        }
    }

    /// Scrolls page `p`'s window down by one entry, when it is not at the bottom.
    fn scroll_down(&mut self, out: &TestOutcomes)
        requires
            old(self).wf(out),
        ensures
            final(self).wf(out),
            same_but(*old(self), *final(self), old(self).page()),
            final(self).old_keys() == old(self).old_keys(),
            final(self).row(old(self).page()) == old(self).row(old(self).page()),
            ({
                let w = old(self).window(old(self).page());
                final(self).window(old(self).page()).filtered_index() == if w.filtered_index()
                    + w.size() < w.filtered_length() {
                    w.filtered_index() + 1
                } else {
                    w.filtered_index() + 0
                }
            }),
    {
        let ghost before = *self;
        match self.page {
            Page::All => {
                self.all.next(out);
            },
            Page::Failed => {
                self.failed.next(out);
            },
            Page::Passed => {
                self.passed.next(out);
            },
            Page::Ignored => {
                self.ignored.next(out);
            },
        }
        proof {
            lemma_rows_in_range(before, *self, before.page());
        }
    }

    /// Handles the key state `keys`: UP and DOWN move the selection, scrolling at the window's
    /// ends; R and L change page; A shows the selected entry; START asks for a module filter.
    /// Only a change of key state counts, and the first of these keys held decides.
    pub fn press(&mut self, out: &TestOutcomes, keys: KeyInput) -> (r: Action)
        requires
            old(self).wf(out),
        ensures
            final(self).wf(out),
            keys == old(self).old_keys() ==> r is Wait && *final(self) == *old(self),
            keys != old(self).old_keys() ==> ({
                let p = old(self).page();
                let i = old(self).row(p);
                let w = old(self).window(p);
                let mut_row = final(self).row(p);
                &&& final(self).old_keys() == keys
                &&& if pressed(keys, KEY_UP) {
                    &&& r is Redraw
                    &&& same_but(*old(self), *final(self), p)
                    &&& i == 0 ==> mut_row == 0 && final(self).window(p).filtered_index() == if w.filtered_index() > 0 {
                        w.filtered_index() - 1
                    } else {
                        w.filtered_index() as int
                    }
                    &&& i > 0 ==> mut_row == i - 1 && final(self).window(p) == w
                } else if pressed(keys, KEY_DOWN) {
                    &&& r is Redraw
                    &&& same_but(*old(self), *final(self), p)
                    &&& i == last_row(w.filtered_length()) ==> mut_row == i && final(self).window(p).filtered_index() == if w.filtered_index() + w.size() < w.filtered_length() {
                        w.filtered_index() + 1
                    } else {
                        w.filtered_index() + 0
                    }
                    &&& i != last_row(w.filtered_length()) ==> mut_row == i + 1 && final(self).window(p) == w
                } else if pressed(keys, KEY_R) {
                    &&& r is Redraw
                    &&& final(self).page() == page_right(p)
                    &&& forall|q: Page| #[trigger] final(self).window(q) == old(self).window(q) && final(self).row(q) == old(self).row(q)
                } else if pressed(keys, KEY_L) {
                    &&& r is Redraw
                    &&& final(self).page() == page_left(p)
                    &&& forall|q: Page| #[trigger] final(self).window(q) == old(self).window(q) && final(self).row(q) == old(self).row(q)
                } else {
                    &&& final(self).page() == p
                    &&& forall|q: Page| #[trigger] final(self).window(q) == old(self).window(q) && final(self).row(q) == old(self).row(q)
                    &&& if pressed(keys, KEY_A) && w.filtered_index() + i < w.filtered_length() {
                        r matches Action::ShowEntry(j, o) && kth_shown(
                            out,
                            w.filter_kind(),
                            w.scope(),
                            (w.filtered_index() + i) as int,
                            j as int,
                        ) && outcome_view(o) == out.history()[j as int]
                    } else if pressed(keys, KEY_START) {
                        r is ChooseModule
                    } else {
                        r is Wait
                    }
                }
            }),
    {
        if keys.0 == self.old_keys.0 {
            return Action::Wait;
        }
        let ghost start = *self;
        self.old_keys = keys;
        proof {
            lemma_rows_in_range(start, *self, start.page());
        }
        let s = slot_of(self.page);
        let i = self.rows[s];
        if keys.contains(KeyInput(KEY_UP)) {
            let ghost before = *self;
            if i == 0 {
                self.scroll_up(out);
            } else {
                self.rows[s] = i - 1;
                proof {
                    assert forall|q: Page| q != before.page() implies #[trigger] self.row(q)
                        == before.row(q) by {
                        assert(slot(q) != slot(before.page()));
                    }
                }
            }
            proof {
                lemma_rows_in_range(start, *self, before.page());
            }
            return Action::Redraw;
        }
        if keys.contains(KeyInput(KEY_DOWN)) {
            let len = match self.page {
                Page::All => self.all.length(),
                Page::Failed => self.failed.length(),
                Page::Passed => self.passed.length(),
                Page::Ignored => self.ignored.length(),
            };
            let last = if len == 0 {
                0
            } else if len - 1 < RESULT_ROWS - 1 {
                len - 1
            } else {
                RESULT_ROWS - 1
            };
            let ghost before = *self;
            proof {
                lemma_row_bound(start, start.page());
            }
            if i == last {
                self.scroll_down(out);
            } else {
                self.rows[s] = i + 1;
                proof {
                    assert forall|q: Page| q != before.page() implies #[trigger] self.row(q)
                        == before.row(q) by {
                        assert(slot(q) != slot(before.page()));
                    }
                }
            }
            proof {
                lemma_rows_in_range(start, *self, before.page());
            }
            return Action::Redraw;
        }
        if keys.contains(KeyInput(KEY_R)) {
            self.page = match self.page {
                Page::All => Page::Failed,
                Page::Failed => Page::Passed,
                _ => Page::Ignored,
            };
            proof {
                lemma_rows_in_range(start, *self, start.page());
            }
            return Action::Redraw;
        }
        if keys.contains(KeyInput(KEY_L)) {
            self.page = match self.page {
                Page::Ignored => Page::Passed,
                Page::Passed => Page::Failed,
                _ => Page::All,
            };
            proof {
                lemma_rows_in_range(start, *self, start.page());
            }
            return Action::Redraw;
        }
        if keys.contains(KeyInput(KEY_A)) {
            if let Some((j, o)) = self.entry(out, i) {
                return Action::ShowEntry(j, o);
            }
        }
        if keys.contains(KeyInput(KEY_START)) {
            return Action::ChooseModule;
        }
        Action::Wait
    }

}

} // verus!

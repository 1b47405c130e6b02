//! The module tree walker: which module paths to list, one level at a time, in a collapsible
//! module browser.
use vstd::prelude::*;
use crate::ledger::TestOutcomes;
use crate::window::is_prefix;
use crate::mmio::{held, KeyInput, KEY_A, KEY_B, KEY_DOWN, KEY_LEFT, KEY_RIGHT, KEY_START, KEY_UP};
use crate::browser::pressed;

verus! {

/// A module path, one segment per entry.
pub type Path = Seq<Seq<char>>;

/// How many leading segments `a` and `b` share, counting from `i`.
pub open spec fn common_from(a: Path, b: Path, i: int) -> int
    decreases a.len() - i,
{
    if 0 <= i < a.len() && i < b.len() && a[i] == b[i] {
        common_from(a, b, i + 1)
    } else {
        i
    }
}

/// How many prefixes of `m` are listed under `parent`: those whose parent path lies along
/// `parent`.
pub open spec fn depth(m: Path, parent: Path) -> int {
    let c = common_from(m, parent, 0);
    if c + 1 <= m.len() {
        c + 1
    } else {
        m.len() as int
    }
}

/// The prefixes of `m` listed under `parent`, shortest first.
pub open spec fn candidates(m: Path, parent: Path) -> Seq<Path> {
    Seq::new(depth(m, parent) as nat, |l: int| m.subrange(0, l + 1))
}

/// `acc` followed by the entries of `c` it does not yet hold, each once, in order.
pub open spec fn add_new(acc: Seq<Path>, c: Seq<Path>) -> Seq<Path>
    decreases c.len(),
{
    if c.len() == 0 {
        acc
    } else {
        add_new(
            if acc.contains(c[0]) {
                acc
            } else {
                acc.push(c[0])
            },
            c.drop_first(),
        )
    }
}

/// The module paths listed under `parent` for the first `j` tests.
pub open spec fn walk(mods: Seq<Path>, parent: Path, j: int) -> Seq<Path>
    decreases j,
{
    if j <= 0 {
        seq![]
    } else {
        add_new(walk(mods, parent, j - 1), candidates(mods[j - 1], parent))
    }
}

/// Whether two module paths are the same.
pub fn same_path(a: &Vec<String>, b: &Vec<String>) -> (r: bool)
    ensures
        r == (a.deep_view() == b.deep_view()),
{
    let ghost av = a.deep_view();
    let ghost bv = b.deep_view();
    if a.len() != b.len() {
        assert(av.len() != bv.len());
        return false;
    }
    let mut i: usize = 0;
    while i < a.len()
        invariant
            av == a.deep_view(),
            bv == b.deep_view(),
            av.len() == a@.len(),
            bv.len() == b@.len(),
            a@.len() == b@.len(),
            0 <= i <= a@.len(),
            forall|k: int| 0 <= k < i ==> av[k] == bv[k],
        decreases a@.len() - i,
    {
        assert(av[i as int] == a@[i as int]@);
        assert(bv[i as int] == b@[i as int]@);
        if !a[i].eq(&b[i]) {
            return false;
        }
        i = i + 1;
    }
    assert(av =~= bv);
    true
}

/// The first `len` segments of `m`.
pub(crate) fn prefix_of(m: &Vec<String>, len: usize) -> (r: Vec<String>)
    requires
        len <= m@.len(),
    ensures
        r.deep_view() == m.deep_view().subrange(0, len as int),
{
    let mut r: Vec<String> = Vec::new();
    let mut i: usize = 0;
    while i < len
        invariant
            len <= m@.len(),
            0 <= i <= len,
            r@.len() == i,
            forall|k: int| 0 <= k < i ==> (#[trigger] r@[k])@ == m@[k]@,
        decreases len - i,
    {
        let s = m[i].clone();
        r.push(s);
        i = i + 1;
    }
    assert forall|k: int| 0 <= k < len implies r.deep_view()[k] == m.deep_view().subrange(
        0,
        len as int,
    )[k] by {
        assert(r.deep_view()[k] == r@[k]@);
        assert(m.deep_view()[k] == m@[k]@);
    }
    assert(r.deep_view() =~= m.deep_view().subrange(0, len as int));
    r
}

/// The position of `path` in `list`, if it is there.
pub fn position(list: &Vec<Vec<String>>, path: &Vec<String>) -> (r: Option<usize>)
    ensures
        match r {
            Some(i) => i < list@.len() && list.deep_view()[i as int] == path.deep_view() && forall|
                k: int,
            | 0 <= k < i ==> list.deep_view()[k] != path.deep_view(),
            None => !list.deep_view().contains(path.deep_view()),
        },
{
    let ghost lv = list.deep_view();
    let mut i: usize = 0;
    while i < list.len()
        invariant
            lv == list.deep_view(),
            lv.len() == list@.len(),
            0 <= i <= list@.len(),
            forall|k: int| 0 <= k < i ==> lv[k] != path.deep_view(),
        decreases list@.len() - i,
    {
        assert(lv[i as int] == list@[i as int].deep_view());
        if same_path(&list[i], path) {
            return Some(i);
        }
        i = i + 1;
    }
    None
}

/// How many leading segments `m` shares with `parent`.
fn common_len(m: &Vec<String>, parent: &Vec<String>) -> (r: usize)
    ensures
        r == common_from(m.deep_view(), parent.deep_view(), 0),
        r <= m@.len(),
{
    let ghost mv = m.deep_view();
    let ghost pv = parent.deep_view();
    let mut i: usize = 0;
    while i < m.len() && i < parent.len() && m[i].eq(&parent[i])
        invariant
            mv == m.deep_view(),
            pv == parent.deep_view(),
            mv.len() == m@.len(),
            pv.len() == parent@.len(),
            0 <= i <= m@.len(),
            common_from(mv, pv, i as int) == common_from(mv, pv, 0),
        decreases m@.len() - i,
    {
        assert(mv[i as int] == m@[i as int]@);
        assert(pv[i as int] == parent@[i as int]@);
        i = i + 1;
    }
    proof {
        if i < m@.len() && i < parent@.len() {
            assert(mv[i as int] == m@[i as int]@);
            assert(pv[i as int] == parent@[i as int]@);
        }
    }
    i
}

impl TestOutcomes {
    /// The module paths to list under `parent`: for each test in declaration order, each
    /// prefix of its module path whose own parent lies along `parent`, each path listed once,
    /// where it is first met.
    pub fn modules(&self, parent: &Vec<String>) -> (r: Vec<Vec<String>>)
        requires
            self.wf(),
        ensures
            r.deep_view() == walk(
                self.module_paths(),
                parent.deep_view(),
                self.module_paths().len() as int,
            ),
    {
        proof {
            self.lemma_views();
        }
        let ghost mods = self.module_paths();
        let ghost pv = parent.deep_view();
        let mut result: Vec<Vec<String>> = Vec::new();
        let mut j: usize = 0;
        while j < self.modules.len()
            invariant
                mods == self.module_paths(),
                mods == self.modules.deep_view(),
                mods.len() == self.modules@.len(),
                pv == parent.deep_view(),
                0 <= j <= mods.len(),
                result.deep_view() == walk(mods, pv, j as int),
            decreases mods.len() - j,
        {
            let m = &self.modules[j];
            assert(m.deep_view() == mods[j as int]);
            let c = common_len(m, parent);
            let d = if c < m.len() {
                c + 1
            } else {
                m.len()
            };
            let ghost cands = candidates(mods[j as int], pv);
            assert(d == cands.len());
            assert(cands.subrange(0, d as int) =~= cands);
            assert(walk(mods, pv, j + 1) == add_new(walk(mods, pv, j as int), cands));
            let mut l: usize = 0;
            while l < d
                invariant
                    mods == self.modules.deep_view(),
                    m.deep_view() == mods[j as int],
                    pv == parent.deep_view(),
                    cands == candidates(mods[j as int], pv),
                    d == cands.len(),
                    d <= m@.len(),
                    0 <= l <= d,
                    add_new(result.deep_view(), cands.subrange(l as int, d as int)) == walk(
                        mods,
                        pv,
                        j + 1,
                    ),
                decreases d - l,
            {
                let p = prefix_of(m, l + 1);
                assert(p.deep_view() == cands[l as int]);
                let ghost before = result.deep_view();
                assert(cands.subrange(l as int, d as int).drop_first() =~= cands.subrange(
                    l + 1,
                    d as int,
                ));
                match position(&result, &p) {
                    Some(_) => {},
                    None => {
                        result.push(p);
                        assert(result.deep_view() =~= before.push(cands[l as int]));
                    },
                }
                l = l + 1;
            }
            assert(cands.subrange(d as int, d as int) =~= Seq::<Path>::empty());
            j = j + 1;
        }
        result
    }
}

/// How many module paths the browser shows at once.
pub const ROWS: usize = 18;

/// `parent` as it is listed among the module paths under itself, if it is listed there.
pub fn find_parent_in_outcomes(outcomes: &TestOutcomes, parent: &Vec<String>) -> (r: Option<
    Vec<String>,
>)
    requires
        outcomes.wf(),
    ensures
        walk(
            outcomes.module_paths(),
            parent.deep_view(),
            outcomes.module_paths().len() as int,
        ).contains(parent.deep_view()) <==> r is Some,
        r matches Some(p) ==> p.deep_view() == parent.deep_view(),
{
    let mut listed = outcomes.modules(parent);
    match position(&listed, parent) {
        Some(i) => {
            let ghost lv = listed.deep_view();
            let found = listed.remove(i);
            assert(found.deep_view() == lv[i as int]);
            Some(found)
        },
        None => None,
    }
}

/// The selected row and the first row shown after the browser moves into `parent`: the row of
/// `parent` in `modules`, scrolled into view with as little movement from `offset_index` as
/// possible; the top of the list when `parent` is not listed.
pub fn adjust_index_for_new_parent(
    offset_index: usize,
    modules: &Vec<Vec<String>>,
    parent: &Vec<String>,
) -> (r: (usize, usize))
    ensures
        !modules.deep_view().contains(parent.deep_view()) ==> r == (0usize, 0usize),
        modules.deep_view().contains(parent.deep_view()) ==> {
            &&& r.0 < modules@.len()
            &&& modules.deep_view()[r.0 as int] == parent.deep_view()
            &&& forall|k: int| 0 <= k < r.0 ==> modules.deep_view()[k] != parent.deep_view()
            &&& r.1 == if r.0 > offset_index + (ROWS - 1) {
                (r.0 - (ROWS - 1)) as usize
            } else if offset_index > r.0 {
                r.0
            } else {
                offset_index
            }
        },
{
    match position(modules, parent) {
        Some(index) => {
            if index > offset_index && index - offset_index > ROWS - 1 {
                (index, index - (ROWS - 1))
            } else if offset_index > index {
                (index, index)
            } else {
                (index, offset_index)
            }
        },
        None => (0, 0),
    }
}

/// The first row shown when row `row` must be visible and `offset` was the first row before.
pub open spec fn scrolled(offset: int, row: int) -> int {
    if row > offset + (ROWS - 1) {
        row - (ROWS - 1)
    } else if offset > row {
        row
    } else {
        offset
    }
}

/// The module paths a module browser over `out` lists under `parent`.
pub open spec fn listed(out: &TestOutcomes, parent: Path) -> Seq<Path> {
    walk(out.module_paths(), parent, out.module_paths().len() as int)
}

/// What the module screen does after a key press.
#[derive(Debug)]
pub enum ModuleAction {
    /// Nothing changed.
    Wait,
    /// The selection or the listed level changed: draw again.
    Redraw,
    /// The user chose: a module path, or `None` for every module.
    Select(Option<Vec<String>>),
    /// The user left without choosing.
    Cancel,
}

/// The module screen: a list whose first row stands for every module, followed by the module
/// paths listed under `parent`.
pub struct ModuleBrowser {
    index: usize,
    offset: usize,
    parent: Vec<String>,
    old_keys: KeyInput,
}

impl ModuleBrowser {
    /// The selected row: 0 for every module, `k + 1` for listed path `k`.
    pub closed spec fn index(&self) -> nat {
        self.index as nat
    }

    /// The first row shown.
    pub closed spec fn offset(&self) -> nat {
        self.offset as nat
    }

    /// The path whose children are listed.
    pub closed spec fn parent_path(&self) -> Path {
        self.parent.deep_view()
    }

    pub closed spec fn old_keys(&self) -> KeyInput {
        self.old_keys
    }

    /// Opens the screen at the top, listing under `parent` when it is listed under itself and
    /// at the top level otherwise.
    pub fn new(out: &TestOutcomes, parent: &Vec<String>) -> (b: ModuleBrowser)
        requires
            out.wf(),
        ensures
            b.index() == 0,
            b.offset() == 0,
            b.parent_path() == if listed(out, parent.deep_view()).contains(parent.deep_view()) {
                parent.deep_view()
            } else {
                Seq::<Seq<char>>::empty()
            },
            b.old_keys() == KeyInput(KEY_START),
    {
        let p = match find_parent_in_outcomes(out, parent) {
            Some(p) => p,
            None => {
                let v: Vec<String> = Vec::new();
                assert(v.deep_view() =~= Seq::<Seq<char>>::empty());
                v
            },
        };
        ModuleBrowser { index: 0, offset: 0, parent: p, old_keys: KeyInput(KEY_START) }
    }

    /// The selected row.
    pub fn selected(&self) -> (r: usize)
        ensures
            r == self.index(),
    {
        self.index
    }

    /// The first row shown.
    pub fn first_shown(&self) -> (r: usize)
        ensures
            r == self.offset(),
    {
        self.offset
    }

    /// The path whose children are listed.
    pub fn parent(&self) -> (r: &Vec<String>)
        ensures
            r.deep_view() == self.parent_path(),
    {
        &self.parent
    }

    /// Handles the key state `keys`: UP and DOWN move the selection; LEFT collapses the
    /// selected path when it lies along the listed level; RIGHT lists under the selected path,
    /// keeping it selected; A chooses the selected row; B or START leaves. Only a change of key
    /// state counts, and the first of these keys that applies decides.
    pub fn press(&mut self, out: &TestOutcomes, keys: KeyInput) -> (r: ModuleAction)
        requires
            out.wf(),
        ensures
            keys == old(self).old_keys() ==> r is Wait && *final(self) == *old(self),
            keys != old(self).old_keys() ==> ({
                let i = old(self).index();
                let l = listed(out, old(self).parent_path());
                let has_module = 1 <= i <= l.len();
                let current = l[i - 1];
                &&& final(self).old_keys() == keys
                &&& if pressed(keys, KEY_UP) {
                    r is Redraw && final(self).index() == if i > 0 {
                        i - 1
                    } else {
                        0
                    } && final(self).offset() == old(self).offset() && final(self).parent_path()
                        == old(self).parent_path()
                } else if pressed(keys, KEY_DOWN) {
                    r is Redraw && final(self).index() == if i < usize::MAX {
                        i + 1
                    } else {
                        i + 0
                    } && final(self).offset() == old(self).offset() && final(self).parent_path()
                        == old(self).parent_path()
                } else if pressed(keys, KEY_LEFT) && has_module && current.len() > 0 && is_prefix(
                    current,
                    old(self).parent_path(),
                ) {
                    r is Redraw && final(self).parent_path() == current.drop_last() && final(self).index()
                        == i && final(self).offset() == old(self).offset()
                } else if pressed(keys, KEY_RIGHT) && has_module {
                    &&& r is Redraw
                    &&& final(self).parent_path() == current
                    &&& if listed(out, current).contains(current) {
                        &&& 1 <= final(self).index() <= listed(out, current).len()
                        &&& listed(out, current)[final(self).index() - 1] == current
                        &&& forall|k: int|
                            0 <= k < final(self).index() - 1 ==> listed(out, current)[k] != current
                        &&& final(self).offset() == scrolled(
                            old(self).offset() as int,
                            final(self).index() as int,
                        )
                    } else {
                        final(self).index() == 0 && final(self).offset() == 0
                    }
                } else if pressed(keys, KEY_A) {
                    &&& final(self).index() == i && final(self).offset() == old(self).offset()
                        && final(self).parent_path() == old(self).parent_path()
                    &&& i == 0 ==> (r matches ModuleAction::Select(None))
                    &&& has_module ==> (r matches ModuleAction::Select(Some(v)) && v.deep_view()
                        == current)
                    &&& i > l.len() ==> if pressed(keys, KEY_B) || pressed(keys, KEY_START) {
                        r is Cancel
                    } else {
                        r is Wait
                    }
                } else {
                    &&& final(self).index() == i && final(self).offset() == old(self).offset()
                        && final(self).parent_path() == old(self).parent_path()
                    &&& if pressed(keys, KEY_B) || pressed(keys, KEY_START) {
                        r is Cancel
                    } else {
                        r is Wait
                    }
                }
            }),
    {
        if keys.0 == self.old_keys.0 {
            return ModuleAction::Wait;
        }
        self.old_keys = keys;
        let listed = out.modules(&self.parent);
        let ghost l = listed.deep_view();
        assert(l.len() == listed@.len());
        let i = self.index;
        if keys.contains(KeyInput(KEY_UP)) {
            if i > 0 {
                self.index = i - 1;
            }
            return ModuleAction::Redraw;
        }
        if keys.contains(KeyInput(KEY_DOWN)) {
            if i < usize::MAX {
                self.index = i + 1;
            }
            return ModuleAction::Redraw;
        }
        let has_module = 1 <= i && i <= listed.len();
        if keys.contains(KeyInput(KEY_LEFT)) && has_module {
            let current = &listed[i - 1];
            assert(current.deep_view() == l[i - 1]);
            let along = if current.len() > 0 && current.len() <= self.parent.len() {
                let head = prefix_of(&self.parent, current.len());
                same_path(&head, current)
            } else {
                false
            };
            if along {
                let up = prefix_of(current, current.len() - 1);
                assert(current.deep_view().subrange(0, current.len() - 1) =~= current.deep_view().drop_last());
                self.parent = up;
                return ModuleAction::Redraw;
            }
        }
        if keys.contains(KeyInput(KEY_RIGHT)) && has_module {
            let current = prefix_of(&listed[i - 1], listed[i - 1].len());
            assert(listed@[i - 1].deep_view().subrange(0, listed@[i - 1]@.len() as int) =~= l[i - 1]);
            let below = out.modules(&current);
            let count = below.len();
            match position(&below, &current) {
                Some(p) => {
                    assert(p < count);
                    let row = p + 1;
                    self.offset = if row > self.offset && row - self.offset > ROWS - 1 {
                        row - (ROWS - 1)
                    } else if self.offset > row {
                        row
                    } else {
                        self.offset
                    };
                    self.index = row;
                },
                None => {
                    self.index = 0;
                    self.offset = 0;
                },
            }
            self.parent = current;
            return ModuleAction::Redraw;
        }
        if keys.contains(KeyInput(KEY_A)) {
            if i == 0 {
                return ModuleAction::Select(None);
            }
            if has_module {
                let chosen = prefix_of(&listed[i - 1], listed[i - 1].len());
                assert(listed@[i - 1].deep_view().subrange(0, listed@[i - 1]@.len() as int) =~= l[i - 1]);
                return ModuleAction::Select(Some(chosen));
            }
        }
        if keys.contains(KeyInput(KEY_B)) || keys.contains(KeyInput(KEY_START)) {
            return ModuleAction::Cancel;
        }
        ModuleAction::Wait
    }
}

} // verus!

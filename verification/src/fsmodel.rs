//! The filesystem model: entries, actions, and their meaning.
//!
//! The engine never touches the real filesystem. It describes what it would
//! write as a list of `FsAction` values over a model of the target paths — a
//! map from absolute path to entry. An adapter outside the library performs
//! the actions with real I/O; `FsMap` is the same model made executable, so
//! tests can run a whole materialization hermetically.

use vstd::prelude::*;

use crate::text::str_eq;

verus! {

/// What one target path holds: a directory, a text file, raw bytes, or a
/// symbolic link with its destination string.
pub enum FsEntry {
    Dir,
    Text(String),
    Bytes(Vec<u8>),
    Link(String),
}

/// The mathematical value of an entry.
pub enum EntryModel {
    Dir,
    Text(Seq<char>),
    Bytes(Seq<u8>),
    Link(Seq<char>),
}

impl View for FsEntry {
    type V = EntryModel;

    open spec fn view(&self) -> EntryModel {
        match self {
            FsEntry::Dir => EntryModel::Dir,
            FsEntry::Text(s) => EntryModel::Text(s@),
            FsEntry::Bytes(b) => EntryModel::Bytes(b@),
            FsEntry::Link(d) => EntryModel::Link(d@),
        }
    }
}

/// One effect on the filesystem: write an entry at a path (creating or
/// fully replacing it), or delete whatever the path holds.
pub enum FsAction {
    Write(String, FsEntry),
    Delete(String),
}

/// The mathematical value of an action.
pub enum ActionModel {
    Write(Seq<char>, EntryModel),
    Delete(Seq<char>),
}

impl View for FsAction {
    type V = ActionModel;

    open spec fn view(&self) -> ActionModel {
        match self {
            FsAction::Write(p, e) => ActionModel::Write(p@, e@),
            FsAction::Delete(p) => ActionModel::Delete(p@),
        }
    }
}

/// The path an action touches.
pub open spec fn action_path(a: ActionModel) -> Seq<char> {
    match a {
        ActionModel::Write(p, _) => p,
        ActionModel::Delete(p) => p,
    }
}

/// The model state of the filesystem: what each existing path holds.
pub type FsModel = Map<Seq<char>, EntryModel>;

/// What one action does to the model.
pub open spec fn apply_action(fs: FsModel, a: ActionModel) -> FsModel {
    match a {
        ActionModel::Write(p, e) => fs.insert(p, e),
        ActionModel::Delete(p) => fs.remove(p),
    }
}

/// What a list of actions does to the model, first action first.
pub open spec fn apply_actions(fs: FsModel, acts: Seq<ActionModel>) -> FsModel
    decreases acts.len(),
{
    if acts.len() == 0 {
        fs
    } else {
        apply_actions(apply_action(fs, acts[0]), acts.drop_first())
    }
}

/// What a path holds in the model, or nothing.
pub open spec fn entry_at(fs: FsModel, p: Seq<char>) -> Option<EntryModel> {
    if fs.contains_key(p) {
        Some(fs[p])
    } else {
        None
    }
}

/// Applying a concatenation is applying the parts in turn.
pub proof fn lemma_apply_actions_app(fs: FsModel, a: Seq<ActionModel>, b: Seq<ActionModel>)
    ensures
        apply_actions(fs, a + b) == apply_actions(apply_actions(fs, a), b),
    decreases a.len(),
{
    if a.len() == 0 {
        assert(a + b =~= b);
    } else {
        assert((a + b).drop_first() =~= a.drop_first() + b);
        lemma_apply_actions_app(apply_action(fs, a[0]), a.drop_first(), b);
    }
}

/// Actions that never touch a path leave that path alone.
pub proof fn lemma_apply_frame(fs: FsModel, acts: Seq<ActionModel>, p: Seq<char>)
    requires
        forall|q: int| 0 <= q < acts.len() ==> action_path(#[trigger] acts[q]) != p,
    ensures
        entry_at(apply_actions(fs, acts), p) == entry_at(fs, p),
    decreases acts.len(),
{
    if acts.len() > 0 {
        assert(entry_at(apply_action(fs, acts[0]), p) == entry_at(fs, p));
        lemma_apply_frame(apply_action(fs, acts[0]), acts.drop_first(), p);
    }
}

/// One executable cell of the model map.
struct FsCell {
    path: String,
    entry: FsEntry,
}

/// The filesystem model as a runnable value: a finite map from path to
/// entry, held as a vector of cells with pairwise distinct paths.
pub struct FsMap {
    cells: Vec<FsCell>,
}

/// The map a cell sequence denotes; later cells win, though well-formed
/// maps never repeat a path.
spec fn cells_map(s: Seq<FsCell>) -> FsModel
    decreases s.len(),
{
    if s.len() == 0 {
        Map::empty()
    } else {
        cells_map(s.drop_last()).insert(s.last().path@, s.last().entry@)
    }
}

impl View for FsMap {
    type V = FsModel;

    closed spec fn view(&self) -> FsModel {
        cells_map(self.cells@)
    }
}

proof fn lemma_cells_map_contains(s: Seq<FsCell>, p: Seq<char>)
    ensures
        cells_map(s).contains_key(p) <==> exists|i: int|
            0 <= i < s.len() && #[trigger] s[i].path@ == p,
    decreases s.len(),
{
    if s.len() > 0 {
        lemma_cells_map_contains(s.drop_last(), p);
        if cells_map(s).contains_key(p) {
            if s.last().path@ == p {
                assert(s[s.len() - 1].path@ == p);
            } else {
                let i = choose|i: int| 0 <= i < s.len() - 1 && #[trigger] s.drop_last()[i].path@ == p;
                assert(s[i].path@ == p);
            }
        }
        if exists|i: int| 0 <= i < s.len() && #[trigger] s[i].path@ == p {
            let i = choose|i: int| 0 <= i < s.len() && #[trigger] s[i].path@ == p;
            if i < s.len() - 1 {
                assert(s.drop_last()[i].path@ == p);
            }
        }
    }
}

proof fn lemma_cells_map_value(s: Seq<FsCell>, i: int)
    requires
        0 <= i < s.len(),
        forall|a: int, b: int| 0 <= a < b < s.len() ==> s[a].path@ != s[b].path@,
    ensures
        cells_map(s).contains_key(s[i].path@),
        cells_map(s)[s[i].path@] == s[i].entry@,
    decreases s.len(),
{
    if i == s.len() - 1 {
    } else {
        assert(forall|a: int, b: int|
            0 <= a < b < s.len() - 1 ==> s.drop_last()[a].path@ != s.drop_last()[b].path@);
        lemma_cells_map_value(s.drop_last(), i);
        assert(s.drop_last()[i] == s[i]);
        assert(s[i].path@ != s.last().path@);
    }
}

impl FsMap {
    /// Paths never repeat.
    pub closed spec fn wf(&self) -> bool {
        forall|a: int, b: int|
            0 <= a < b < self.cells@.len() ==> self.cells@[a].path@ != self.cells@[b].path@
    }

    /// An empty filesystem model.
    pub fn new() -> (res: FsMap)
        ensures
            res.wf(),
            res@ == Map::<Seq<char>, EntryModel>::empty(),
    {
        FsMap { cells: Vec::new() }
    }

    /// Whether no path exists at all.
    pub fn is_empty(&self) -> (r: bool)
        requires
            self.wf(),
        ensures
            r == (self@ == Map::<Seq<char>, EntryModel>::empty()),
    {
        proof {
            if self.cells@.len() > 0 {
                lemma_cells_map_value(self.cells@, 0);
                assert(self@.contains_key(self.cells@[0].path@));
                assert(self@ != Map::<Seq<char>, EntryModel>::empty());
            } else {
                assert(self@ =~= Map::<Seq<char>, EntryModel>::empty());
            }
        }
        self.cells.len() == 0
    }

    /// The position of the cell holding `path`, if one does.
    fn find(&self, path: &str) -> (r: Option<usize>)
        ensures
            match r {
                Some(i) => i < self.cells@.len() && self.cells@[i as int].path@ == path@,
                None => forall|i: int|
                    0 <= i < self.cells@.len() ==> self.cells@[i].path@ != path@,
            },
    {
        let n = self.cells.len();
        let mut i: usize = 0;
        while i < n
            invariant
                0 <= i <= n,
                n == self.cells@.len(),
                forall|q: int| 0 <= q < i ==> self.cells@[q].path@ != path@,
            decreases n - i,
        {
            if str_eq(self.cells[i].path.as_str(), path) {
                return Some(i);
            }
            i += 1;
        }
        None
    }

    /// What the model holds at a path.
    pub fn lookup(&self, path: &str) -> (r: Option<&FsEntry>)
        requires
            self.wf(),
        ensures
            match r {
                Some(e) => self@.contains_key(path@) && self@[path@] == e@,
                None => !self@.contains_key(path@),
            },
    {
        proof {
            lemma_cells_map_contains(self.cells@, path@);
        }
        match self.find(path) {
            Some(i) => {
                proof {
                    lemma_cells_map_value(self.cells@, i as int);
                }
                Some(&self.cells[i].entry)
            },
            None => None,
        }
    }

    /// Performs one action on the model.
    pub fn apply(&mut self, action: FsAction)
        requires
            old(self).wf(),
        ensures
            final(self).wf(),
            final(self)@ == apply_action(old(self)@, action@),
    {
        let ghost pre = self.cells@;
        match action {
            FsAction::Write(path, entry) => {
                match self.find(path.as_str()) {
                    Some(i) => {
                        let _ = self.cells.remove(i);
                        let ghost mid = self.cells@;
                        self.cells.push(FsCell { path, entry });
                        proof {
                            assert(mid =~= pre.remove(i as int));
                            assert(forall|a: int, b: int|
                                0 <= a < b < mid.len() ==> mid[a].path@ != mid[b].path@) by {
                                assert(forall|a: int|
                                    0 <= a < mid.len() ==> mid[a] == (if a < i as int {
                                        pre[a]
                                    } else {
                                        pre[a + 1]
                                    }));
                            }
                            assert(forall|a: int|
                                0 <= a < mid.len() ==> mid[a].path@ != path@) by {
                                assert(forall|a: int|
                                    0 <= a < mid.len() ==> mid[a] == (if a < i as int {
                                        pre[a]
                                    } else {
                                        pre[a + 1]
                                    }));
                            }
                            lemma_map_after_write(pre, mid, i as int, path@, entry@);
                            let cur = self.cells@;
                            assert(cur.drop_last() =~= mid);
                            assert(cur.last().path@ == path@ && cur.last().entry@ == entry@);
                            assert(self@ == cells_map(mid).insert(path@, entry@));
                            assert(forall|a: int, b: int|
                                0 <= a < b < cur.len() ==> cur[a].path@ != cur[b].path@) by {
                                assert(forall|a: int| 0 <= a < mid.len() ==> cur[a] == mid[a]);
                            }
                        }
                    },
                    None => {
                        self.cells.push(FsCell { path, entry });
                        proof {
                            let cur = self.cells@;
                            assert(cur.drop_last() =~= pre);
                            assert(cur.last().path@ == path@ && cur.last().entry@ == entry@);
                            assert(forall|a: int, b: int|
                                0 <= a < b < cur.len() ==> cur[a].path@ != cur[b].path@) by {
                                assert(forall|a: int| 0 <= a < pre.len() ==> cur[a] == pre[a]);
                            }
                        }
                    },
                }
            },
            FsAction::Delete(path) => {
                match self.find(path.as_str()) {
                    Some(i) => {
                        let _ = self.cells.remove(i);
                        proof {
                            let cur = self.cells@;
                            assert(cur =~= pre.remove(i as int));
                            assert(forall|a: int|
                                0 <= a < cur.len() ==> cur[a] == (if a < i as int {
                                    pre[a]
                                } else {
                                    pre[a + 1]
                                }));
                            lemma_map_after_delete(pre, cur, i as int, path@);
                        }
                    },
                    None => {
                        proof {
                            lemma_cells_map_contains(pre, path@);
                            assert(!cells_map(pre).contains_key(path@));
                            assert(cells_map(pre).remove(path@) =~= cells_map(pre));
                        }
                    },
                }
            },
        }
    }
}

/// After removing the cell at `i` and appending a fresh cell for the same
/// path, the denoted map is the old map with that path overwritten.
proof fn lemma_map_after_write(
    pre: Seq<FsCell>,
    mid: Seq<FsCell>,
    i: int,
    p: Seq<char>,
    e: EntryModel,
)
    requires
        0 <= i < pre.len(),
        mid == pre.remove(i),
        pre[i].path@ == p,
        forall|a: int, b: int| 0 <= a < b < pre.len() ==> pre[a].path@ != pre[b].path@,
        forall|a: int, b: int| 0 <= a < b < mid.len() ==> mid[a].path@ != mid[b].path@,
    ensures
        cells_map(mid).insert(p, e) == cells_map(pre).insert(p, e),
{
    let lhs = cells_map(mid).insert(p, e);
    let rhs = cells_map(pre).insert(p, e);
    assert forall|q: Seq<char>| lhs.contains_key(q) == rhs.contains_key(q) by {
        lemma_cells_map_contains(mid, q);
        lemma_cells_map_contains(pre, q);
        if q != p {
            if exists|a: int| 0 <= a < mid.len() && #[trigger] mid[a].path@ == q {
                let a = choose|a: int| 0 <= a < mid.len() && #[trigger] mid[a].path@ == q;
                if a < i {
                    assert(pre[a].path@ == q);
                } else {
                    assert(pre[a + 1].path@ == q);
                }
            }
            if exists|a: int| 0 <= a < pre.len() && #[trigger] pre[a].path@ == q {
                let a = choose|a: int| 0 <= a < pre.len() && #[trigger] pre[a].path@ == q;
                assert(a != i);
                if a < i {
                    assert(mid[a].path@ == q);
                } else {
                    assert(mid[a - 1].path@ == q);
                }
            }
        }
    }
    assert forall|q: Seq<char>| lhs.contains_key(q) && rhs.contains_key(q) implies lhs[q]
        == rhs[q] by {
        if q != p {
            lemma_cells_map_contains(mid, q);
            let a = choose|a: int| 0 <= a < mid.len() && #[trigger] mid[a].path@ == q;
            lemma_cells_map_value(mid, a);
            let b = if a < i {
                a
            } else {
                a + 1
            };
            assert(pre[b].path@ == q && pre[b].entry@ == mid[a].entry@);
            lemma_cells_map_value(pre, b);
        }
    }
    assert(lhs =~= rhs);
}

/// Removing the cell at `i` removes exactly its path from the denoted map.
proof fn lemma_map_after_delete(pre: Seq<FsCell>, cur: Seq<FsCell>, i: int, p: Seq<char>)
    requires
        0 <= i < pre.len(),
        cur == pre.remove(i),
        pre[i].path@ == p,
        forall|a: int, b: int| 0 <= a < b < pre.len() ==> pre[a].path@ != pre[b].path@,
        forall|a: int, b: int| 0 <= a < b < cur.len() ==> cur[a].path@ != cur[b].path@,
    ensures
        cells_map(cur) == cells_map(pre).remove(p),
{
    let lhs = cells_map(cur);
    let rhs = cells_map(pre).remove(p);
    assert forall|q: Seq<char>| lhs.contains_key(q) == rhs.contains_key(q) by {
        lemma_cells_map_contains(cur, q);
        lemma_cells_map_contains(pre, q);
        if q != p {
            if exists|a: int| 0 <= a < cur.len() && #[trigger] cur[a].path@ == q {
                let a = choose|a: int| 0 <= a < cur.len() && #[trigger] cur[a].path@ == q;
                if a < i {
                    assert(pre[a].path@ == q);
                } else {
                    assert(pre[a + 1].path@ == q);
                }
            }
            if exists|a: int| 0 <= a < pre.len() && #[trigger] pre[a].path@ == q {
                let a = choose|a: int| 0 <= a < pre.len() && #[trigger] pre[a].path@ == q;
                assert(a != i);
                if a < i {
                    assert(cur[a].path@ == q);
                } else {
                    assert(cur[a - 1].path@ == q);
                }
            }
        } else {
            if exists|a: int| 0 <= a < cur.len() && #[trigger] cur[a].path@ == q {
                let a = choose|a: int| 0 <= a < cur.len() && #[trigger] cur[a].path@ == q;
                let b = if a < i {
                    a
                } else {
                    a + 1
                };
                assert(pre[b].path@ == q);
                assert(false);
            }
        }
    }
    assert forall|q: Seq<char>| lhs.contains_key(q) && rhs.contains_key(q) implies lhs[q]
        == rhs[q] by {
        lemma_cells_map_contains(cur, q);
        let a = choose|a: int| 0 <= a < cur.len() && #[trigger] cur[a].path@ == q;
        lemma_cells_map_value(cur, a);
        let b = if a < i {
            a
        } else {
            a + 1
        };
        assert(pre[b].path@ == q && pre[b].entry@ == cur[a].entry@);
        lemma_cells_map_value(pre, b);
    }
    assert(lhs =~= rhs);
}

} // verus!

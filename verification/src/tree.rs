//! The file-node tree: building, substituting, saving and restoring.
//!
//! A tree is the flat, depth-first list of nodes a source walk produced:
//! the root entry first, every descendant after its ancestors. Each node
//! records its target path, its content, and a backup of whatever the
//! target path held when the tree was built — captured strictly before any
//! mutation, so that restoring is possible whether or not saving ran, ran
//! partly, or failed halfway.
//!
//! Saving and restoring are described as action lists over the filesystem
//! model; the rollback law at the bottom states that applying any prefix of
//! the save actions and then all restore actions returns the model to the
//! state the tree was built against.

use vstd::prelude::*;

use crate::error::DotfilerError;
use crate::fsmodel::{
    action_path, apply_actions, entry_at, ActionModel, EntryModel, FsAction, FsEntry, FsModel,
};
use crate::text::str_eq;
use crate::vars::{render_once, template_from, VarTable};

verus! {

/// What the walk found at one source entry.
pub enum SourcePayload {
    Dir,
    Text(String),
    Bytes(Vec<u8>),
    Link(String),
}

/// The mathematical value of a source payload.
pub enum PayloadModel {
    Dir,
    Text(Seq<char>),
    Bytes(Seq<u8>),
    Link(Seq<char>),
}

impl View for SourcePayload {
    type V = PayloadModel;

    open spec fn view(&self) -> PayloadModel {
        match self {
            SourcePayload::Dir => PayloadModel::Dir,
            SourcePayload::Text(s) => PayloadModel::Text(s@),
            SourcePayload::Bytes(b) => PayloadModel::Bytes(b@),
            SourcePayload::Link(d) => PayloadModel::Link(d@),
        }
    }
}

/// One walked source entry: its path suffix below the mapping's source
/// root (empty for the root itself), what the source holds, and what the
/// computed target path currently holds, probed before any write.
pub struct RawEntry {
    pub suffix: String,
    pub payload: SourcePayload,
    pub current: Option<FsEntry>,
}

/// The mathematical value of a walked entry.
pub struct RawModel {
    pub suffix: Seq<char>,
    pub payload: PayloadModel,
    pub current: Option<EntryModel>,
}

impl View for RawEntry {
    type V = RawModel;

    open spec fn view(&self) -> RawModel {
        RawModel {
            suffix: self.suffix@,
            payload: self.payload@,
            current: match &self.current {
                Some(e) => Some(e@),
                None => None,
            },
        }
    }
}

/// The views of a walked entry list.
pub open spec fn raw_views(s: Seq<RawEntry>) -> Seq<RawModel> {
    s.map_values(|r: RawEntry| r@)
}

/// The views of a node list.
pub open spec fn node_views(s: Seq<FileNode>) -> Seq<NodeModel> {
    s.map_values(|n: FileNode| n@)
}

/// The content a database node will copy to its target: the source file
/// body, as text or bytes.
pub enum FileBody {
    Text(String),
    Bytes(Vec<u8>),
}

impl View for FileBody {
    type V = EntryModel;

    open spec fn view(&self) -> EntryModel {
        match self {
            FileBody::Text(s) => EntryModel::Text(s@),
            FileBody::Bytes(b) => EntryModel::Bytes(b@),
        }
    }
}

/// The type-specific part of a node. `backup` is the entry the target path
/// held at build time, if any; `existed` plays that role for directories.
/// A database node's `pending` records which rewrite the node owes its
/// target after saving: `true` expands placeholders, `false` templates.
#[allow(inconsistent_fields)]
pub enum NodeKind {
    Directory { existed: bool },
    TextFile { data: String, backup: Option<FsEntry> },
    BinaryFile { data: Vec<u8>, backup: Option<FsEntry> },
    Symlink { dest: String, backup: Option<FsEntry> },
    DatabaseFile { body: FileBody, pending: Option<bool>, backup: Option<FsEntry> },
}

/// One filesystem node of a materialization tree.
pub struct FileNode {
    pub target_path: String,
    pub kind: NodeKind,
}

/// The mathematical value of a node.
#[allow(inconsistent_fields)]
pub enum NodeModel {
    Directory { path: Seq<char>, existed: bool },
    TextFile { path: Seq<char>, data: Seq<char>, backup: Option<EntryModel> },
    BinaryFile { path: Seq<char>, data: Seq<u8>, backup: Option<EntryModel> },
    Symlink { path: Seq<char>, dest: Seq<char>, backup: Option<EntryModel> },
    DatabaseFile {
        path: Seq<char>,
        body: EntryModel,
        pending: Option<bool>,
        backup: Option<EntryModel>,
    },
}

/// The view of an optional backup entry.
pub open spec fn backup_view(o: &Option<FsEntry>) -> Option<EntryModel> {
    match o {
        Some(e) => Some(e@),
        None => None,
    }
}

impl View for FileNode {
    type V = NodeModel;

    open spec fn view(&self) -> NodeModel {
        match &self.kind {
            NodeKind::Directory { existed } => NodeModel::Directory {
                path: self.target_path@,
                existed: *existed,
            },
            NodeKind::TextFile { data, backup } => NodeModel::TextFile {
                path: self.target_path@,
                data: data@,
                backup: backup_view(backup),
            },
            NodeKind::BinaryFile { data, backup } => NodeModel::BinaryFile {
                path: self.target_path@,
                data: data@,
                backup: backup_view(backup),
            },
            NodeKind::Symlink { dest, backup } => NodeModel::Symlink {
                path: self.target_path@,
                dest: dest@,
                backup: backup_view(backup),
            },
            NodeKind::DatabaseFile { body, pending, backup } => NodeModel::DatabaseFile {
                path: self.target_path@,
                body: body@,
                pending: *pending,
                backup: backup_view(backup),
            },
        }
    }
}

/// The target path of a node.
pub open spec fn node_path(n: NodeModel) -> Seq<char> {
    match n {
        NodeModel::Directory { path, .. } => path,
        NodeModel::TextFile { path, .. } => path,
        NodeModel::BinaryFile { path, .. } => path,
        NodeModel::Symlink { path, .. } => path,
        NodeModel::DatabaseFile { path, .. } => path,
    }
}

/// A directory node whose target already existed: saving and restoring it
/// both do nothing.
pub open spec fn is_existed_dir(n: NodeModel) -> bool {
    match n {
        NodeModel::Directory { existed, .. } => existed,
        _ => false,
    }
}

/// What saving the node writes at its target path.
pub open spec fn saved_entry(n: NodeModel) -> EntryModel {
    match n {
        NodeModel::Directory { .. } => EntryModel::Dir,
        NodeModel::TextFile { data, .. } => EntryModel::Text(data),
        NodeModel::BinaryFile { data, .. } => EntryModel::Bytes(data),
        NodeModel::Symlink { dest, .. } => EntryModel::Link(dest),
        NodeModel::DatabaseFile { body, .. } => body,
    }
}

/// The entry the target path held before saving, if any.
pub open spec fn prior_state(n: NodeModel) -> Option<EntryModel> {
    match n {
        NodeModel::Directory { existed, .. } => if existed {
            Some(EntryModel::Dir)
        } else {
            None
        },
        NodeModel::TextFile { backup, .. } => backup,
        NodeModel::BinaryFile { backup, .. } => backup,
        NodeModel::Symlink { backup, .. } => backup,
        NodeModel::DatabaseFile { backup, .. } => backup,
    }
}

/// The save actions of one node.
pub open spec fn save_of(n: NodeModel) -> Seq<ActionModel> {
    if is_existed_dir(n) {
        Seq::empty()
    } else {
        seq![ActionModel::Write(node_path(n), saved_entry(n))]
    }
}

/// The restore actions of one node: put the target path back into its
/// prior state, except that a directory that already existed is left
/// alone.
pub open spec fn restore_of(n: NodeModel) -> Seq<ActionModel> {
    match n {
        NodeModel::Directory { path, existed } => if existed {
            Seq::empty()
        } else {
            seq![ActionModel::Delete(path)]
        },
        _ => match prior_state(n) {
            Some(e) => seq![ActionModel::Write(node_path(n), e)],
            None => seq![ActionModel::Delete(node_path(n))],
        },
    }
}

/// The save actions of a tree: node order, parents before descendants.
pub open spec fn save_seq(ns: Seq<NodeModel>) -> Seq<ActionModel>
    decreases ns.len(),
{
    if ns.len() == 0 {
        Seq::empty()
    } else {
        save_of(ns[0]) + save_seq(ns.drop_first())
    }
}

/// The restore actions of a tree: reverse node order, so every descendant
/// is undone before its directory, and a non-empty directory removal is
/// never attempted.
pub open spec fn restore_seq(ns: Seq<NodeModel>) -> Seq<ActionModel>
    decreases ns.len(),
{
    if ns.len() == 0 {
        Seq::empty()
    } else {
        restore_seq(ns.drop_first()) + restore_of(ns[0])
    }
}

/// The database rewrites a tree owes after its save actions are applied:
/// one per database node marked by render or template.
pub open spec fn rewrites_of(ns: Seq<NodeModel>) -> Seq<(Seq<char>, bool)>
    decreases ns.len(),
{
    if ns.len() == 0 {
        Seq::empty()
    } else {
        let rest = rewrites_of(ns.drop_first());
        match ns[0] {
            NodeModel::DatabaseFile { path, pending: Some(fwd), .. } => seq![(path, fwd)]
                + rest,
            _ => rest,
        }
    }
}

/// Target paths never repeat within a tree.
pub open spec fn tree_wf(ns: Seq<NodeModel>) -> bool {
    forall|i: int, j: int|
        0 <= i < j < ns.len() ==> node_path(#[trigger] ns[i]) != node_path(#[trigger] ns[j])
}

/// Every node's backup reflects what the model holds at its target path.
pub open spec fn tree_matches(ns: Seq<NodeModel>, fs: FsModel) -> bool {
    forall|i: int|
        0 <= i < ns.len() ==> entry_at(fs, node_path(#[trigger] ns[i])) == prior_state(ns[i])
}

/// What rendering does to one node: text content has its placeholders
/// expanded, a database node is marked for a forward rewrite, and symlink
/// and binary nodes are untouched.
pub open spec fn render_node_m(n: NodeModel, ps: Seq<(Seq<char>, Seq<char>)>) -> NodeModel {
    match n {
        NodeModel::TextFile { path, data, backup } => NodeModel::TextFile {
            path,
            data: render_once(data, ps),
            backup,
        },
        NodeModel::DatabaseFile { path, body, pending: _, backup } => NodeModel::DatabaseFile {
            path,
            body,
            pending: Some(true),
            backup,
        },
        _ => n,
    }
}

/// What templating does to one node: the inverse markings of rendering.
pub open spec fn template_node_m(n: NodeModel, ps: Seq<(Seq<char>, Seq<char>)>) -> NodeModel {
    match n {
        NodeModel::TextFile { path, data, backup } => NodeModel::TextFile {
            path,
            data: template_from(data, ps, 0),
            backup,
        },
        NodeModel::DatabaseFile { path, body, pending: _, backup } => NodeModel::DatabaseFile {
            path,
            body,
            pending: Some(false),
            backup,
        },
        _ => n,
    }
}

/// SUBSTITUTION IGNORES LINKS AND BINARIES. Rendering and templating leave
/// symlink and binary-file nodes exactly as they are: their content is not
/// interpretable as text, so both passes are the identity on them.
pub proof fn lemma_subst_ignores_links_and_binaries(
    n: NodeModel,
    ps: Seq<(Seq<char>, Seq<char>)>,
)
    requires
        n is Symlink || n is BinaryFile,
    ensures
        render_node_m(n, ps) == n,
        template_node_m(n, ps) == n,
{
}

/// The magic header that marks an embedded database file, as bytes.
pub open spec fn db_magic_bytes() -> Seq<u8> {
    seq![83u8, 81u8, 76u8, 105u8, 116u8, 101u8]
}

/// The magic header that marks an embedded database file, as text.
pub open spec fn db_magic_chars() -> Seq<char> {
    seq!['S', 'Q', 'L', 'i', 't', 'e']
}

/// A byte body is a database file: at least six bytes, starting with the
/// magic header.
pub open spec fn is_db_bytes(b: Seq<u8>) -> bool {
    b.len() >= 6 && b.subrange(0, 6) == db_magic_bytes()
}

/// A text body is a database file: at least six characters, starting with
/// the magic header.
pub open spec fn is_db_text(s: Seq<char>) -> bool {
    s.len() >= 6 && s.subrange(0, 6) == db_magic_chars()
}

/// Decides `is_db_bytes`.
pub fn bytes_is_db(b: &Vec<u8>) -> (r: bool)
    ensures
        r == is_db_bytes(b@),
{
    if b.len() < 6 {
        return false;
    }
    let r = b[0] == 83 && b[1] == 81 && b[2] == 76 && b[3] == 105 && b[4] == 116 && b[5] == 101;
    proof {
        if r {
            assert(b@.subrange(0, 6) =~= db_magic_bytes());
        } else {
            assert(b@.subrange(0, 6) != db_magic_bytes()) by {
                if b@.subrange(0, 6) == db_magic_bytes() {
                    assert(b@[0] == b@.subrange(0, 6)[0]);
                    assert(b@[1] == b@.subrange(0, 6)[1]);
                    assert(b@[2] == b@.subrange(0, 6)[2]);
                    assert(b@[3] == b@.subrange(0, 6)[3]);
                    assert(b@[4] == b@.subrange(0, 6)[4]);
                    assert(b@[5] == b@.subrange(0, 6)[5]);
                }
            }
        }
    }
    r
}

/// Decides `is_db_text`.
pub fn text_is_db(s: &str) -> (r: bool)
    ensures
        r == is_db_text(s@),
{
    if s.unicode_len() < 6 {
        return false;
    }
    let r = s.get_char(0) == 'S' && s.get_char(1) == 'Q' && s.get_char(2) == 'L' && s.get_char(3)
        == 'i' && s.get_char(4) == 't' && s.get_char(5) == 'e';
    proof {
        if r {
            assert(s@.subrange(0, 6) =~= db_magic_chars());
        } else {
            assert(s@.subrange(0, 6) != db_magic_chars()) by {
                if s@.subrange(0, 6) == db_magic_chars() {
                    assert(s@[0] == s@.subrange(0, 6)[0]);
                    assert(s@[1] == s@.subrange(0, 6)[1]);
                    assert(s@[2] == s@.subrange(0, 6)[2]);
                    assert(s@[3] == s@.subrange(0, 6)[3]);
                    assert(s@[4] == s@.subrange(0, 6)[4]);
                    assert(s@[5] == s@.subrange(0, 6)[5]);
                }
            }
        }
    }
    r
}

/// How one walked entry classifies: the node it becomes, or the target
/// path on which it conflicts. A directory target under a file entry — or
/// any non-directory target under a directory entry — is a conflict; a
/// regular file becomes a database node when its body carries the magic
/// header, a text node when the source decoded as text, and a binary node
/// otherwise.
pub open spec fn classify_model(e: RawModel, prefix: Seq<char>) -> Result<NodeModel, Seq<char>> {
    let p = prefix + e.suffix;
    match e.payload {
        PayloadModel::Dir => match e.current {
            Some(EntryModel::Dir) => Ok(NodeModel::Directory { path: p, existed: true }),
            None => Ok(NodeModel::Directory { path: p, existed: false }),
            Some(_) => Err(p),
        },
        PayloadModel::Text(s) => if e.current == Some(EntryModel::Dir) {
            Err(p)
        } else if is_db_text(s) {
            Ok(NodeModel::DatabaseFile {
                path: p,
                body: EntryModel::Text(s),
                pending: None,
                backup: e.current,
            })
        } else {
            Ok(NodeModel::TextFile { path: p, data: s, backup: e.current })
        },
        PayloadModel::Bytes(b) => if e.current == Some(EntryModel::Dir) {
            Err(p)
        } else if is_db_bytes(b) {
            Ok(NodeModel::DatabaseFile {
                path: p,
                body: EntryModel::Bytes(b),
                pending: None,
                backup: e.current,
            })
        } else {
            Ok(NodeModel::BinaryFile { path: p, data: b, backup: e.current })
        },
        PayloadModel::Link(d) => if e.current == Some(EntryModel::Dir) {
            Err(p)
        } else {
            Ok(NodeModel::Symlink { path: p, dest: d, backup: e.current })
        },
    }
}

/// Builds the node for one walked entry, or reports the path conflict.
pub fn classify_entry(entry: RawEntry, target_prefix: &str) -> (res: Result<
    FileNode,
    DotfilerError,
>)
    ensures
        match res {
            Ok(n) => classify_model(entry@, target_prefix@) == Ok::<NodeModel, Seq<char>>(n@),
            Err(e) => classify_model(entry@, target_prefix@) is Err && (e matches
                DotfilerError::PathConflict(m) && m@ == classify_model(
                entry@,
                target_prefix@,
            )->Err_0),
        },
{
    let RawEntry { suffix, payload, current } = entry;
    let mut target = target_prefix.to_owned();
    target.append(suffix.as_str());
    let current_is_dir = match &current {
        Some(FsEntry::Dir) => true,
        _ => false,
    };
    proof {
        assert(current_is_dir == (backup_view(&current) == Some(EntryModel::Dir)));
    }
    match payload {
        SourcePayload::Dir => {
            match &current {
                None => Ok(FileNode {
                    target_path: target,
                    kind: NodeKind::Directory { existed: false },
                }),
                Some(FsEntry::Dir) => Ok(FileNode {
                    target_path: target,
                    kind: NodeKind::Directory { existed: true },
                }),
                Some(_) => Err(DotfilerError::PathConflict(target)),
            }
        },
        SourcePayload::Text(s) => {
            if current_is_dir {
                Err(DotfilerError::PathConflict(target))
            } else if text_is_db(s.as_str()) {
                Ok(FileNode {
                    target_path: target,
                    kind: NodeKind::DatabaseFile {
                        body: FileBody::Text(s),
                        pending: None,
                        backup: current,
                    },
                })
            } else {
                Ok(FileNode {
                    target_path: target,
                    kind: NodeKind::TextFile { data: s, backup: current },
                })
            }
        },
        SourcePayload::Bytes(b) => {
            if current_is_dir {
                Err(DotfilerError::PathConflict(target))
            } else if bytes_is_db(&b) {
                Ok(FileNode {
                    target_path: target,
                    kind: NodeKind::DatabaseFile {
                        body: FileBody::Bytes(b),
                        pending: None,
                        backup: current,
                    },
                })
            } else {
                Ok(FileNode {
                    target_path: target,
                    kind: NodeKind::BinaryFile { data: b, backup: current },
                })
            }
        },
        SourcePayload::Link(d) => {
            if current_is_dir {
                Err(DotfilerError::PathConflict(target))
            } else {
                Ok(FileNode {
                    target_path: target,
                    kind: NodeKind::Symlink { dest: d, backup: current },
                })
            }
        },
    }
}

/// Every walked entry classifies without conflict.
pub open spec fn all_classify_ok(es: Seq<RawModel>, prefix: Seq<char>) -> bool {
    forall|i: int| 0 <= i < es.len() ==> classify_model(#[trigger] es[i], prefix) is Ok
}

/// The nodes the walked entries classify into, assuming no conflicts.
pub open spec fn models_of(es: Seq<RawModel>, prefix: Seq<char>) -> Seq<NodeModel> {
    Seq::new(es.len(), |i: int| classify_model(es[i], prefix)->Ok_0)
}

/// The first entry that fails to classify.
pub open spec fn first_bad(es: Seq<RawModel>, prefix: Seq<char>) -> int
    decreases es.len(),
{
    if es.len() == 0 {
        0
    } else if classify_model(es[0], prefix) is Err {
        0
    } else {
        1 + first_bad(es.drop_first(), prefix)
    }
}

proof fn lemma_first_bad(es: Seq<RawModel>, prefix: Seq<char>)
    requires
        !all_classify_ok(es, prefix),
    ensures
        0 <= first_bad(es, prefix) < es.len(),
        classify_model(es[first_bad(es, prefix)], prefix) is Err,
        forall|i: int| 0 <= i < first_bad(es, prefix) ==> classify_model(
            #[trigger] es[i],
            prefix,
        ) is Ok,
    decreases es.len(),
{
    if es.len() == 0 {
        assert(false);
    } else if classify_model(es[0], prefix) is Err {
    } else {
        assert(!all_classify_ok(es.drop_first(), prefix)) by {
            let i = choose|i: int|
                0 <= i < es.len() && !(classify_model(#[trigger] es[i], prefix) is Ok);
            assert(es.drop_first()[i - 1] == es[i]);
        }
        lemma_first_bad(es.drop_first(), prefix);
        assert(forall|i: int|
            1 <= i < first_bad(es, prefix) ==> es[i] == es.drop_first()[i - 1]);
    }
}

/// A materialization tree: the flat, depth-first node list of one mapping.
pub struct FileTree {
    nodes: Vec<FileNode>,
}

impl View for FileTree {
    type V = Seq<NodeModel>;

    closed spec fn view(&self) -> Seq<NodeModel> {
        node_views(self.nodes@)
    }
}

/// Builds the node tree for one mapping from its walked source entries.
/// Fails with the first path conflict, or with a build failure naming a
/// target path that two entries would share.
#[verifier::loop_isolation(false)]
pub fn build_tree(entries: Vec<RawEntry>, target_prefix: &str) -> (res: Result<
    FileTree,
    DotfilerError,
>)
    ensures
        ({
            let es = raw_views(entries@);
            let prefix = target_prefix@;
            match res {
                Ok(t) => all_classify_ok(es, prefix) && t@ == models_of(es, prefix)
                    && tree_wf(t@),
                Err(e) => {
                    ||| (!all_classify_ok(es, prefix) && (e matches DotfilerError::PathConflict(
                        m,
                    ) && m@ == classify_model(es[first_bad(es, prefix)], prefix)->Err_0))
                    ||| (all_classify_ok(es, prefix) && !tree_wf(models_of(es, prefix)) && (
                    e matches DotfilerError::BuildFailure(m) && exists|i: int, j: int|
                        0 <= i < j < es.len() && node_path(
                            #[trigger] models_of(es, prefix)[i],
                        ) == node_path(#[trigger] models_of(es, prefix)[j]) && m@ == node_path(
                            models_of(es, prefix)[j],
                        )))
                },
            }
        }),
{
    let ghost es = raw_views(entries@);
    let ghost prefix = target_prefix@;
    let mut remaining = entries;
    let mut nodes: Vec<FileNode> = Vec::new();
    proof {
        assert(raw_views(remaining@) =~= es.skip(0));
        assert(node_views(nodes@) =~= models_of(es, prefix).take(0));
    }
    while remaining.len() > 0
        invariant
            nodes@.len() + remaining@.len() == es.len(),
            raw_views(remaining@) == es.skip(nodes@.len() as int),
            forall|q: int| 0 <= q < nodes@.len() ==> classify_model(
                #[trigger] es[q],
                prefix,
            ) is Ok,
            node_views(nodes@) == models_of(es, prefix).take(
                nodes@.len() as int,
            ),
        decreases remaining@.len(),
    {
        let ghost i = nodes@.len() as int;
        let ghost pre = remaining@;
        let e = remaining.remove(0);
        let ghost ev = e@;
        proof {
            assert(raw_views(pre)[0] == ev);
            assert(ev == es[i]);
            assert(raw_views(remaining@) =~= raw_views(pre).drop_first());
            assert(raw_views(remaining@) =~= es.skip(i + 1));
        }
        match classify_entry(e, target_prefix) {
            Ok(n) => {
                let ghost nv = n@;
                let ghost before = nodes@;
                nodes.push(n);
                proof {
                    assert(classify_model(es[i], prefix) == Ok::<NodeModel, Seq<char>>(nv));
                    assert(models_of(es, prefix)[i] == nv);
                    assert(node_views(nodes@) =~= models_of(es, prefix).take(i + 1)) by {
                        assert(forall|q: int|
                            0 <= q < before.len() ==> nodes@[q] == before[q]);
                        assert(node_views(nodes@)[i] == nv);
                    }
                }
            },
            Err(err) => {
                proof {
                    assert(classify_model(ev, prefix) is Err);
                    assert(!(classify_model(es[i], prefix) is Ok));
                    assert(!all_classify_ok(es, prefix));
                    lemma_first_bad(es, prefix);
                    let fb = first_bad(es, prefix);
                    if fb < i {
                        assert(classify_model(es[fb], prefix) is Ok);
                        assert(false);
                    } else if i < fb {
                        assert(classify_model(es[i], prefix) is Ok);
                        assert(false);
                    }
                    assert(fb == i);
                    assert(classify_model(es[fb], prefix) == classify_model(ev, prefix));
                }
                return Err(err);
            },
        }
    }
    proof {
        assert(nodes@.len() == es.len());
        assert(all_classify_ok(es, prefix));
        assert(node_views(nodes@) =~= models_of(es, prefix));
    }
    // No two nodes may share a target path: restoring relies on it.
    let n = nodes.len();
    let mut j: usize = 1;
    while j < n
        invariant
            1 <= j <= n || n == 0,
            n == nodes@.len(),
            node_views(nodes@) == models_of(es, prefix),
            all_classify_ok(es, prefix),
            es.len() == n,
            forall|b: int, a: int| 0 <= a < b < j ==> nodes@[a].target_path@
                != nodes@[b].target_path@,
        decreases n - j,
    {
        let mut i: usize = 0;
        while i < j
            invariant
                0 <= i <= j < n,
                n == nodes@.len(),
                node_views(nodes@) == models_of(es, prefix),
                all_classify_ok(es, prefix),
                es.len() == n,
                forall|a: int| 0 <= a < i ==> nodes@[a].target_path@
                    != nodes@[j as int].target_path@,
            decreases j - i,
        {
            if str_eq(nodes[i].target_path.as_str(), nodes[j].target_path.as_str()) {
                let dup = nodes[j].target_path.clone();
                proof {
                    assert(node_views(nodes@)[i as int] == nodes@[i as int]@);
                    assert(node_views(nodes@)[j as int] == nodes@[j as int]@);
                    assert(models_of(es, prefix)[i as int] == nodes@[i as int]@);
                    assert(models_of(es, prefix)[j as int] == nodes@[j as int]@);
                    assert(node_path(nodes@[i as int]@) == nodes@[i as int].target_path@);
                    assert(node_path(nodes@[j as int]@) == nodes@[j as int].target_path@);
                    assert(0 <= (i as int) && (i as int) < (j as int) && (j as int) < es.len()
                        && node_path(
                        #[trigger] models_of(es, prefix)[i as int],
                    ) == node_path(#[trigger] models_of(es, prefix)[j as int]) && dup@
                        == node_path(models_of(es, prefix)[j as int]));
                    assert(!tree_wf(models_of(es, prefix)));
                }
                return Err(DotfilerError::BuildFailure(dup));
            }
            i += 1;
        }
        j += 1;
    }
    let tree = FileTree { nodes };
    proof {
        assert(tree_wf(tree@)) by {
            assert(forall|a: int|
                0 <= a < tree@.len() ==> node_path(#[trigger] tree@[a])
                    == tree.nodes@[a].target_path@);
        }
    }
    Ok(tree)
}

/// What rendering does to a whole tree.
pub open spec fn render_tree_m(
    ns: Seq<NodeModel>,
    ps: Seq<(Seq<char>, Seq<char>)>,
) -> Seq<NodeModel> {
    ns.map_values(|n: NodeModel| render_node_m(n, ps))
}

/// What templating does to a whole tree.
pub open spec fn template_tree_m(
    ns: Seq<NodeModel>,
    ps: Seq<(Seq<char>, Seq<char>)>,
) -> Seq<NodeModel> {
    ns.map_values(|n: NodeModel| template_node_m(n, ps))
}

/// Renders one node.
fn render_one(n: FileNode, vars: &VarTable) -> (res: FileNode)
    ensures
        res@ == render_node_m(n@, vars@),
{
    let FileNode { target_path, kind } = n;
    match kind {
        NodeKind::TextFile { data, backup } => FileNode {
            target_path,
            kind: NodeKind::TextFile {
                data: crate::vars::render_text(data.as_str(), vars),
                backup,
            },
        },
        NodeKind::DatabaseFile { body, pending: _, backup } => FileNode {
            target_path,
            kind: NodeKind::DatabaseFile { body, pending: Some(true), backup },
        },
        other => FileNode { target_path, kind: other },
    }
}

/// Templates one node.
fn template_one(n: FileNode, vars: &VarTable) -> (res: FileNode)
    ensures
        res@ == template_node_m(n@, vars@),
{
    let FileNode { target_path, kind } = n;
    match kind {
        NodeKind::TextFile { data, backup } => FileNode {
            target_path,
            kind: NodeKind::TextFile {
                data: crate::vars::template_text(data.as_str(), vars),
                backup,
            },
        },
        NodeKind::DatabaseFile { body, pending: _, backup } => FileNode {
            target_path,
            kind: NodeKind::DatabaseFile { body, pending: Some(false), backup },
        },
        other => FileNode { target_path, kind: other },
    }
}

/// One pending database rewrite: which target file, and in which
/// direction (`true` expands placeholders, `false` templates them).
pub struct DbRewrite {
    pub path: String,
    pub forward: bool,
}

impl View for DbRewrite {
    type V = (Seq<char>, bool);

    open spec fn view(&self) -> (Seq<char>, bool) {
        (self.path@, self.forward)
    }
}

/// The views of an action list.
pub open spec fn acts_view(s: Seq<FsAction>) -> Seq<ActionModel> {
    s.map_values(|a: FsAction| a@)
}

/// The views of a rewrite list.
pub open spec fn rewrites_view(s: Seq<DbRewrite>) -> Seq<(Seq<char>, bool)> {
    s.map_values(|r: DbRewrite| r@)
}

impl FileTree {
    /// Expands every placeholder in text content and marks database nodes
    /// for a forward rewrite; symlinks and binaries stay untouched.
    pub fn render(self, vars: &VarTable) -> (res: FileTree)
        ensures
            res@ == render_tree_m(self@, vars@),
    {
        let ghost orig = self@;
        let mut remaining = self.nodes;
        let mut out: Vec<FileNode> = Vec::new();
        while remaining.len() > 0
            invariant
                out@.len() + remaining@.len() == orig.len(),
                node_views(remaining@) == orig.skip(out@.len() as int),
                node_views(out@) == render_tree_m(orig, vars@).take(
                    out@.len() as int,
                ),
            decreases remaining@.len(),
        {
            let ghost i = out@.len() as int;
            let ghost pre = remaining@;
            let nd = remaining.remove(0);
            proof {
                assert(node_views(pre)[0] == nd@);
                assert(node_views(remaining@) =~= node_views(pre).drop_first());
                assert(node_views(remaining@) =~= orig.skip(i + 1));
            }
            let ghost before = out@;
            out.push(render_one(nd, vars));
            proof {
                assert(node_views(out@) =~= render_tree_m(orig, vars@).take(
                    i + 1,
                )) by {
                    assert(forall|q: int| 0 <= q < before.len() ==> out@[q] == before[q]);
                }
            }
        }
        let res = FileTree { nodes: out };
        proof {
            assert(res@ =~= render_tree_m(orig, vars@));
        }
        res
    }

    /// Replaces literal variable values in text content with placeholders
    /// and marks database nodes for the inverse rewrite; symlinks and
    /// binaries stay untouched.
    pub fn template(self, vars: &VarTable) -> (res: FileTree)
        ensures
            res@ == template_tree_m(self@, vars@),
    {
        let ghost orig = self@;
        let mut remaining = self.nodes;
        let mut out: Vec<FileNode> = Vec::new();
        while remaining.len() > 0
            invariant
                out@.len() + remaining@.len() == orig.len(),
                node_views(remaining@) == orig.skip(out@.len() as int),
                node_views(out@) == template_tree_m(orig, vars@).take(
                    out@.len() as int,
                ),
            decreases remaining@.len(),
        {
            let ghost i = out@.len() as int;
            let ghost pre = remaining@;
            let nd = remaining.remove(0);
            proof {
                assert(node_views(pre)[0] == nd@);
                assert(node_views(remaining@) =~= node_views(pre).drop_first());
                assert(node_views(remaining@) =~= orig.skip(i + 1));
            }
            let ghost before = out@;
            out.push(template_one(nd, vars));
            proof {
                assert(node_views(out@) =~= template_tree_m(
                    orig,
                    vars@,
                ).take(i + 1)) by {
                    assert(forall|q: int| 0 <= q < before.len() ==> out@[q] == before[q]);
                }
            }
        }
        let res = FileTree { nodes: out };
        proof {
            assert(res@ =~= template_tree_m(orig, vars@));
        }
        res
    }

    /// The actions that save the tree: every node written in order,
    /// parents before descendants; a directory that already existed needs
    /// nothing.
    pub fn save_actions(&self) -> (res: Vec<FsAction>)
        ensures
            acts_view(res@) == save_seq(self@),
    {
        let n = self.nodes.len();
        let mut out: Vec<FsAction> = Vec::new();
        let mut i: usize = 0;
        proof {
            assert(self@.skip(0) =~= self@);
            assert(acts_view(out@) + save_seq(self@) =~= save_seq(self@));
        }
        while i < n
            invariant
                0 <= i <= n,
                n == self@.len(),
                n == self.nodes@.len(),
                acts_view(out@) + save_seq(self@.skip(i as int)) == save_seq(self@),
            decreases n - i,
        {
            let ghost tail = self@.skip(i as int);
            proof {
                assert(tail.drop_first() =~= self@.skip(i + 1));
                assert(tail[0] == self@[i as int]);
                assert(self@[i as int] == self.nodes@[i as int]@);
            }
            let ghost before = out@;
            let node = &self.nodes[i];
            match &node.kind {
                NodeKind::Directory { existed } => {
                    if !*existed {
                        out.push(FsAction::Write(node.target_path.clone(), FsEntry::Dir));
                    }
                },
                NodeKind::TextFile { data, .. } => {
                    out.push(
                        FsAction::Write(node.target_path.clone(), FsEntry::Text(data.clone())),
                    );
                },
                NodeKind::BinaryFile { data, .. } => {
                    out.push(
                        FsAction::Write(node.target_path.clone(), FsEntry::Bytes(data.clone())),
                    );
                },
                NodeKind::Symlink { dest, .. } => {
                    out.push(
                        FsAction::Write(node.target_path.clone(), FsEntry::Link(dest.clone())),
                    );
                },
                NodeKind::DatabaseFile { body, .. } => {
                    let entry = match body {
                        FileBody::Text(s) => FsEntry::Text(s.clone()),
                        FileBody::Bytes(b) => FsEntry::Bytes(b.clone()),
                    };
                    out.push(FsAction::Write(node.target_path.clone(), entry));
                },
            }
            proof {
                assert(acts_view(out@) =~= acts_view(before) + save_of(self@[i as int])) by {
                    assert(forall|q: int| 0 <= q < before.len() ==> out@[q] == before[q]);
                }
                assert(acts_view(before) + (save_of(self@[i as int]) + save_seq(
                    self@.skip(i + 1),
                )) =~= (acts_view(before) + save_of(self@[i as int])) + save_seq(
                    self@.skip(i + 1),
                ));
            }
            i += 1;
        }
        proof {
            assert(self@.skip(n as int) =~= Seq::<NodeModel>::empty());
            assert(acts_view(out@) =~= acts_view(out@) + save_seq(self@.skip(n as int)));
        }
        out
    }

    /// The actions that roll the tree back: every node's target restored
    /// to its prior state in reverse node order, so descendants are undone
    /// before the directory that holds them.
    pub fn restore_actions(&self) -> (res: Vec<FsAction>)
        ensures
            acts_view(res@) == restore_seq(self@),
    {
        let n = self.nodes.len();
        let mut out: Vec<FsAction> = Vec::new();
        let mut i: usize = n;
        proof {
            assert(self@.skip(n as int) =~= Seq::<NodeModel>::empty());
            assert(acts_view(out@) =~= restore_seq(self@.skip(n as int)));
        }
        while i > 0
            invariant
                0 <= i <= n,
                n == self@.len(),
                n == self.nodes@.len(),
                acts_view(out@) == restore_seq(self@.skip(i as int)),
            decreases i,
        {
            i -= 1;
            let ghost tail = self@.skip(i as int);
            proof {
                assert(tail.drop_first() =~= self@.skip(i + 1));
                assert(tail[0] == self@[i as int]);
                assert(self@[i as int] == self.nodes@[i as int]@);
            }
            let ghost before = out@;
            let node = &self.nodes[i];
            match &node.kind {
                NodeKind::Directory { existed } => {
                    if !*existed {
                        out.push(FsAction::Delete(node.target_path.clone()));
                    }
                },
                NodeKind::TextFile { backup, .. } => {
                    out.push(restore_action(&node.target_path, backup));
                },
                NodeKind::BinaryFile { backup, .. } => {
                    out.push(restore_action(&node.target_path, backup));
                },
                NodeKind::Symlink { backup, .. } => {
                    out.push(restore_action(&node.target_path, backup));
                },
                NodeKind::DatabaseFile { backup, .. } => {
                    out.push(restore_action(&node.target_path, backup));
                },
            }
            proof {
                assert(acts_view(out@) =~= acts_view(before) + restore_of(self@[i as int]))
                    by {
                    assert(forall|q: int| 0 <= q < before.len() ==> out@[q] == before[q]);
                }
            }
        }
        proof {
            assert(self@.skip(0) =~= self@);
        }
        out
    }

    /// The database rewrites the tree owes once its save actions applied.
    pub fn db_rewrites(&self) -> (res: Vec<DbRewrite>)
        ensures
            rewrites_view(res@) == rewrites_of(self@),
    {
        let n = self.nodes.len();
        let mut out: Vec<DbRewrite> = Vec::new();
        let mut i: usize = 0;
        proof {
            assert(self@.skip(0) =~= self@);
            assert(rewrites_view(out@) + rewrites_of(self@) =~= rewrites_of(self@));
        }
        while i < n
            invariant
                0 <= i <= n,
                n == self@.len(),
                n == self.nodes@.len(),
                rewrites_view(out@) + rewrites_of(self@.skip(i as int)) == rewrites_of(self@),
            decreases n - i,
        {
            let ghost tail = self@.skip(i as int);
            proof {
                assert(tail.drop_first() =~= self@.skip(i + 1));
                assert(tail[0] == self@[i as int]);
                assert(self@[i as int] == self.nodes@[i as int]@);
            }
            let ghost before = out@;
            let node = &self.nodes[i];
            match &node.kind {
                NodeKind::DatabaseFile { pending: Some(fwd), .. } => {
                    out.push(DbRewrite { path: node.target_path.clone(), forward: *fwd });
                },
                _ => {},
            }
            proof {
                let step = match self@[i as int] {
                    NodeModel::DatabaseFile { path, pending: Some(fwd), .. } => seq![
                        (path, fwd),
                    ],
                    _ => Seq::<(Seq<char>, bool)>::empty(),
                };
                assert(rewrites_view(out@) =~= rewrites_view(before) + step) by {
                    assert(forall|q: int| 0 <= q < before.len() ==> out@[q] == before[q]);
                }
                assert(rewrites_view(before) + (step + rewrites_of(self@.skip(i + 1))) =~= (
                rewrites_view(before) + step) + rewrites_of(self@.skip(i + 1)));
            }
            i += 1;
        }
        proof {
            assert(self@.skip(n as int) =~= Seq::<NodeModel>::empty());
            assert(rewrites_view(out@) =~= rewrites_view(out@) + rewrites_of(
                self@.skip(n as int),
            ));
        }
        out
    }
}

/// A tree built from truthful probes matches the filesystem model it was
/// probed against: classification keeps each entry's probe as the node's
/// backup, so every prior state is exactly what the model holds.
pub proof fn lemma_built_tree_matches(es: Seq<RawModel>, prefix: Seq<char>, fs: FsModel)
    requires
        all_classify_ok(es, prefix),
        forall|i: int| 0 <= i < es.len() ==> (#[trigger] es[i]).current == entry_at(
            fs,
            prefix + es[i].suffix,
        ),
    ensures
        tree_matches(models_of(es, prefix), fs),
{
    let ms = models_of(es, prefix);
    assert forall|i: int| 0 <= i < ms.len() implies entry_at(fs, node_path(#[trigger] ms[i]))
        == prior_state(ms[i]) by {
        assert(classify_model(es[i], prefix) is Ok);
        assert(ms[i] == classify_model(es[i], prefix)->Ok_0);
        assert(node_path(ms[i]) == prefix + es[i].suffix);
        assert(prior_state(ms[i]) == es[i].current);
    }
}

/// Every save action is the write of some non-skipped node.
proof fn lemma_save_action_origin(ns: Seq<NodeModel>, q: int)
    requires
        0 <= q < save_seq(ns).len(),
    ensures
        exists|i: int|
            0 <= i < ns.len() && !is_existed_dir(#[trigger] ns[i]) && save_seq(ns)[q]
                == ActionModel::Write(node_path(ns[i]), saved_entry(ns[i])),
    decreases ns.len(),
{
    let s0 = save_of(ns[0]);
    if q < s0.len() {
        assert(save_seq(ns)[q] == s0[q]);
        assert(0 <= 0 < ns.len() && !is_existed_dir(ns[0]) && save_seq(ns)[q]
            == ActionModel::Write(node_path(ns[0]), saved_entry(ns[0])));
    } else {
        lemma_save_action_origin(ns.drop_first(), q - s0.len());
        let i = choose|i: int|
            0 <= i < ns.drop_first().len() && !is_existed_dir(#[trigger] ns.drop_first()[i])
                && save_seq(ns.drop_first())[q - s0.len()] == ActionModel::Write(
                node_path(ns.drop_first()[i]),
                saved_entry(ns.drop_first()[i]),
            );
        assert(save_seq(ns)[q] == save_seq(ns.drop_first())[q - s0.len()]);
        assert(ns.drop_first()[i] == ns[i + 1]);
        assert(0 <= i + 1 < ns.len() && !is_existed_dir(ns[i + 1]) && save_seq(ns)[q]
            == ActionModel::Write(node_path(ns[i + 1]), saved_entry(ns[i + 1])));
    }
}

/// Restoring a tree leaves any path that belongs to none of its nodes
/// alone.
proof fn lemma_restore_miss(ns: Seq<NodeModel>, fs2: FsModel, p: Seq<char>)
    requires
        forall|i: int| 0 <= i < ns.len() ==> node_path(#[trigger] ns[i]) != p,
    ensures
        entry_at(apply_actions(fs2, restore_seq(ns)), p) == entry_at(fs2, p),
    decreases ns.len(),
{
    if ns.len() == 0 {
    } else {
        let rest = ns.drop_first();
        assert(forall|i: int| 0 <= i < rest.len() ==> node_path(#[trigger] rest[i]) != p) by {
            assert(forall|i: int| 0 <= i < rest.len() ==> rest[i] == ns[i + 1]);
        }
        lemma_restore_miss(rest, fs2, p);
        crate::fsmodel::lemma_apply_actions_app(fs2, restore_seq(rest), restore_of(ns[0]));
        let r1 = apply_actions(fs2, restore_seq(rest));
        assert(forall|q: int| 0 <= q < restore_of(ns[0]).len() ==> action_path(
            #[trigger] restore_of(ns[0])[q],
        ) != p);
        crate::fsmodel::lemma_apply_frame(r1, restore_of(ns[0]), p);
    }
}

/// Restoring a tree puts each node's own path back into its prior state —
/// except under a directory that already existed, which is left alone.
proof fn lemma_restore_hit(ns: Seq<NodeModel>, fs2: FsModel, i: int)
    requires
        tree_wf(ns),
        0 <= i < ns.len(),
    ensures
        entry_at(apply_actions(fs2, restore_seq(ns)), node_path(ns[i])) == if is_existed_dir(
            ns[i],
        ) {
            entry_at(fs2, node_path(ns[i]))
        } else {
            prior_state(ns[i])
        },
    decreases ns.len(),
{
    let p = node_path(ns[i]);
    let rest = ns.drop_first();
    let r1 = apply_actions(fs2, restore_seq(rest));
    crate::fsmodel::lemma_apply_actions_app(fs2, restore_seq(rest), restore_of(ns[0]));
    assert(forall|a: int| 0 <= a < rest.len() ==> rest[a] == ns[a + 1]);
    if i == 0 {
        assert(forall|a: int| 0 <= a < rest.len() ==> node_path(#[trigger] rest[a]) != p);
        lemma_restore_miss(rest, fs2, p);
        if is_existed_dir(ns[0]) {
            assert(restore_of(ns[0]) =~= Seq::<ActionModel>::empty());
            assert(apply_actions(r1, restore_of(ns[0])) == r1);
        } else {
            let acts = restore_of(ns[0]);
            match prior_state(ns[0]) {
                Some(e) => {
                    assert(acts == seq![ActionModel::Write(p, e)]);
                    assert(acts.drop_first() =~= Seq::<ActionModel>::empty());
                    assert(apply_actions(r1, acts) == apply_actions(
                        r1.insert(p, e),
                        acts.drop_first(),
                    ));
                    assert(apply_actions(r1, acts) == r1.insert(p, e));
                    assert(entry_at(r1.insert(p, e), p) == Some(e));
                },
                None => {
                    assert(acts == seq![ActionModel::Delete(p)]);
                    assert(acts.drop_first() =~= Seq::<ActionModel>::empty());
                    assert(apply_actions(r1, acts) == apply_actions(
                        r1.remove(p),
                        acts.drop_first(),
                    ));
                    assert(apply_actions(r1, acts) == r1.remove(p));
                    assert(entry_at(r1.remove(p), p) == None::<EntryModel>);
                },
            }
        }
    } else {
        assert(tree_wf(rest)) by {
            assert(forall|a: int, b: int|
                0 <= a < b < rest.len() ==> node_path(#[trigger] rest[a]) != node_path(
                    #[trigger] rest[b],
                ));
        }
        lemma_restore_hit(rest, fs2, i - 1);
        assert(rest[i - 1] == ns[i]);
        assert(node_path(ns[0]) != p);
        assert(forall|q: int| 0 <= q < restore_of(ns[0]).len() ==> action_path(
            #[trigger] restore_of(ns[0])[q],
        ) != p);
        crate::fsmodel::lemma_apply_frame(r1, restore_of(ns[0]), p);
    }
}

/// THE ROLLBACK LAW. Take a tree whose backups reflect the filesystem
/// model it was built against. Apply any prefix of its save actions — all
/// of them, none, or a save interrupted anywhere in between — and then all
/// of its restore actions. The model is back exactly where it started:
/// presence, absence, content and link targets alike.
pub proof fn lemma_save_then_restore_rolls_back(ns: Seq<NodeModel>, fs: FsModel, m: int)
    requires
        tree_wf(ns),
        tree_matches(ns, fs),
        0 <= m <= save_seq(ns).len(),
    ensures
        apply_actions(apply_actions(fs, save_seq(ns).take(m)), restore_seq(ns)) == fs,
{
    let taken = save_seq(ns).take(m);
    let fs1 = apply_actions(fs, taken);
    let fin = apply_actions(fs1, restore_seq(ns));
    assert forall|p: Seq<char>| entry_at(fin, p) == entry_at(fs, p) by {
        if exists|i: int| 0 <= i < ns.len() && node_path(#[trigger] ns[i]) == p {
            let i = choose|i: int| 0 <= i < ns.len() && node_path(#[trigger] ns[i]) == p;
            lemma_restore_hit(ns, fs1, i);
            if is_existed_dir(ns[i]) {
                assert forall|q: int| 0 <= q < taken.len() implies action_path(
                    #[trigger] taken[q],
                ) != p by {
                    lemma_save_action_origin(ns, q);
                    let j = choose|j: int|
                        0 <= j < ns.len() && !is_existed_dir(#[trigger] ns[j]) && save_seq(
                            ns,
                        )[q] == ActionModel::Write(node_path(ns[j]), saved_entry(ns[j]));
                    if node_path(ns[j]) == p {
                        if i < j {
                            assert(node_path(ns[i]) != node_path(ns[j]));
                        } else if j < i {
                            assert(node_path(ns[j]) != node_path(ns[i]));
                        }
                        assert(j == i);
                        assert(false);
                    }
                }
                crate::fsmodel::lemma_apply_frame(fs, taken, p);
            } else {
                assert(entry_at(fs, p) == prior_state(ns[i]));
            }
        } else {
            lemma_restore_miss(ns, fs1, p);
            assert forall|q: int| 0 <= q < taken.len() implies action_path(
                #[trigger] taken[q],
            ) != p by {
                lemma_save_action_origin(ns, q);
                let j = choose|j: int|
                    0 <= j < ns.len() && !is_existed_dir(#[trigger] ns[j]) && save_seq(ns)[q]
                        == ActionModel::Write(node_path(ns[j]), saved_entry(ns[j]));
                assert(node_path(ns[j]) != p);
            }
            crate::fsmodel::lemma_apply_frame(fs, taken, p);
        }
    }
    assert forall|p: Seq<char>| #[trigger] fin.contains_key(p) == fs.contains_key(p) && (
    fin.contains_key(p) ==> fin[p] == fs[p]) by {
        assert(entry_at(fin, p) == entry_at(fs, p));
    }
    assert(fin =~= fs);
}

/// The rollback law in its plain form: a completed save followed by the
/// restore leaves the target subtree in the exact state it had before.
pub proof fn lemma_save_then_restore_is_identity(ns: Seq<NodeModel>, fs: FsModel)
    requires
        tree_wf(ns),
        tree_matches(ns, fs),
    ensures
        apply_actions(apply_actions(fs, save_seq(ns)), restore_seq(ns)) == fs,
{
    lemma_save_then_restore_rolls_back(ns, fs, save_seq(ns).len() as int);
    assert(save_seq(ns).take(save_seq(ns).len() as int) =~= save_seq(ns));
}

/// The single restore action of a file-kind node.
fn restore_action(path: &String, backup: &Option<FsEntry>) -> (res: FsAction)
    ensures
        res@ == match backup_view(backup) {
            Some(e) => ActionModel::Write(path@, e),
            None => ActionModel::Delete(path@),
        },
{
    match backup {
        Some(FsEntry::Dir) => FsAction::Write(path.clone(), FsEntry::Dir),
        Some(FsEntry::Text(s)) => FsAction::Write(path.clone(), FsEntry::Text(s.clone())),
        Some(FsEntry::Bytes(b)) => FsAction::Write(path.clone(), FsEntry::Bytes(b.clone())),
        Some(FsEntry::Link(d)) => FsAction::Write(path.clone(), FsEntry::Link(d.clone())),
        None => FsAction::Delete(path.clone()),
    }
}

} // verus!

//! The materializer: per-mapping planning and the failure policy.
//!
//! One mapping is materialized in stages: build the tree from the walked
//! source entries, substitute (render forward, template backward, or
//! neither), compute the save actions and the database rewrites the tree
//! owes. An adapter applies the actions with real I/O and runs the
//! rewrites; if anything fails, it applies the recovery plan. Mappings are
//! processed independently: one mapping's failure is reported and the run
//! continues with the next, which `judge_outcome` encodes — a restore that
//! itself failed is judged unrecoverable and reported distinctly, never
//! silently swallowed.

use vstd::prelude::*;

use crate::error::DotfilerError;
use crate::fsmodel::{FsAction, FsModel};
use crate::tree::{
    acts_view, all_classify_ok, build_tree, classify_model, first_bad, models_of, node_path,
    prior_state, raw_views, render_tree_m, restore_seq, rewrites_of, rewrites_view, save_seq,
    template_tree_m, tree_matches, tree_wf, DbRewrite, FileTree, NodeModel, RawEntry,
};
use crate::vars::VarTable;

verus! {

/// Which substitution a materialization performs on the tree.
pub enum SubstMode {
    /// Expand placeholders into values: template source to live target.
    Render,
    /// Replace values with placeholders: live content back to a template.
    Template,
    /// Copy content unchanged.
    Copy,
}

/// What a mode does to the built tree.
pub open spec fn subst_tree(
    ns: Seq<NodeModel>,
    ps: Seq<(Seq<char>, Seq<char>)>,
    mode: SubstMode,
) -> Seq<NodeModel> {
    match mode {
        SubstMode::Render => render_tree_m(ns, ps),
        SubstMode::Template => template_tree_m(ns, ps),
        SubstMode::Copy => ns,
    }
}

/// Substitution never moves a node or touches its backup: paths and prior
/// states survive rendering and templating unchanged, so a substituted
/// tree rolls back exactly like the tree it came from.
pub proof fn lemma_subst_keeps_paths_and_backups(
    ns: Seq<NodeModel>,
    ps: Seq<(Seq<char>, Seq<char>)>,
    mode: SubstMode,
)
    ensures
        subst_tree(ns, ps, mode).len() == ns.len(),
        forall|i: int| 0 <= i < ns.len() ==> node_path(#[trigger] subst_tree(ns, ps, mode)[i])
            == node_path(ns[i]),
        forall|i: int| 0 <= i < ns.len() ==> prior_state(
            #[trigger] subst_tree(ns, ps, mode)[i],
        ) == prior_state(ns[i]),
        tree_wf(subst_tree(ns, ps, mode)) == tree_wf(ns),
        forall|fs: FsModel| #[trigger] tree_matches(subst_tree(ns, ps, mode), fs)
            == tree_matches(ns, fs),
{
    let sub = subst_tree(ns, ps, mode);
    assert(forall|i: int| 0 <= i < ns.len() ==> node_path(#[trigger] sub[i]) == node_path(
        ns[i],
    ));
    assert(forall|i: int| 0 <= i < ns.len() ==> prior_state(#[trigger] sub[i]) == prior_state(
        ns[i],
    ));
    assert(tree_wf(sub) == tree_wf(ns)) by {
        if tree_wf(ns) {
            assert(forall|i: int, j: int|
                0 <= i < j < sub.len() ==> node_path(#[trigger] sub[i]) != node_path(
                    #[trigger] sub[j],
                ));
        }
        if tree_wf(sub) {
            assert forall|i: int, j: int|
                0 <= i < j < ns.len() implies node_path(#[trigger] ns[i]) != node_path(
                #[trigger] ns[j],
            ) by {
                assert(node_path(sub[i]) == node_path(ns[i]));
                assert(node_path(sub[j]) == node_path(ns[j]));
                assert(node_path(sub[i]) != node_path(sub[j]));
            }
        }
    }
    assert forall|fs: FsModel| #[trigger] tree_matches(sub, fs) == tree_matches(ns, fs) by {
        if tree_matches(ns, fs) {
            assert(forall|i: int|
                0 <= i < sub.len() ==> crate::fsmodel::entry_at(fs, node_path(
                    #[trigger] sub[i],
                )) == prior_state(sub[i]));
        }
        if tree_matches(sub, fs) {
            assert forall|i: int|
                0 <= i < ns.len() implies crate::fsmodel::entry_at(fs, node_path(
                #[trigger] ns[i],
            )) == prior_state(ns[i]) by {
                assert(crate::fsmodel::entry_at(fs, node_path(sub[i])) == prior_state(
                    sub[i],
                ));
                assert(node_path(sub[i]) == node_path(ns[i]));
                assert(prior_state(sub[i]) == prior_state(ns[i]));
            }
        }
    }
}

/// A WHOLE PLAN ROLLS BACK. Build a tree from walked entries whose probes
/// truthfully report the filesystem model, substitute in any mode, apply
/// any prefix of the resulting save actions, then apply the restore
/// actions: the model is back exactly where it started. This is the
/// rollback law carried through the full planning pipeline.
pub proof fn lemma_plan_rolls_back(
    es: Seq<crate::tree::RawModel>,
    prefix: Seq<char>,
    ps: Seq<(Seq<char>, Seq<char>)>,
    mode: SubstMode,
    fs: FsModel,
    m: int,
)
    requires
        all_classify_ok(es, prefix),
        tree_wf(models_of(es, prefix)),
        forall|i: int| 0 <= i < es.len() ==> (#[trigger] es[i]).current
            == crate::fsmodel::entry_at(fs, prefix + es[i].suffix),
        0 <= m <= save_seq(subst_tree(models_of(es, prefix), ps, mode)).len(),
    ensures
        ({
            let tree = subst_tree(models_of(es, prefix), ps, mode);
            crate::fsmodel::apply_actions(
                crate::fsmodel::apply_actions(fs, save_seq(tree).take(m)),
                restore_seq(tree),
            ) == fs
        }),
{
    let built = models_of(es, prefix);
    let tree = subst_tree(built, ps, mode);
    crate::tree::lemma_built_tree_matches(es, prefix, fs);
    lemma_subst_keeps_paths_and_backups(built, ps, mode);
    assert(tree_wf(tree));
    assert(tree_matches(tree, fs));
    crate::tree::lemma_save_then_restore_rolls_back(tree, fs, m);
}

/// Everything one mapping needs to be applied: the substituted tree, its
/// save actions, and the database rewrites owed after the actions ran.
pub struct MappingPlan {
    pub tree: FileTree,
    pub save: Vec<FsAction>,
    pub rewrites: Vec<DbRewrite>,
}

/// Plans one mapping: builds the tree from the walked entries, performs
/// the mode's substitution, and lays out the save actions and database
/// rewrites. Fails exactly where building fails.
pub fn plan_mapping(
    entries: Vec<RawEntry>,
    target_prefix: &str,
    vars: &VarTable,
    mode: SubstMode,
) -> (res: Result<MappingPlan, DotfilerError>)
    ensures
        ({
            let es = raw_views(entries@);
            let prefix = target_prefix@;
            match res {
                Ok(plan) => all_classify_ok(es, prefix) && tree_wf(models_of(es, prefix))
                    && plan.tree@ == subst_tree(models_of(es, prefix), vars@, mode)
                    && acts_view(plan.save@) == save_seq(plan.tree@) && rewrites_view(
                    plan.rewrites@,
                ) == rewrites_of(plan.tree@),
                Err(e) => {
                    ||| (!all_classify_ok(es, prefix) && (e matches DotfilerError::PathConflict(
                        m,
                    ) && m@ == classify_model(es[first_bad(es, prefix)], prefix)->Err_0))
                    ||| (all_classify_ok(es, prefix) && !tree_wf(models_of(es, prefix)) && (
                    e matches DotfilerError::BuildFailure(m) && exists|i: int, j: int|
                        0 <= i < j < es.len() && node_path(
                            #[trigger] models_of(es, prefix)[i],
                        ) == node_path(#[trigger] models_of(es, prefix)[j]) && m@ == node_path(
                            models_of(es, prefix)[j],
                        )))
                },
            }
        }),
{
    let built = match build_tree(entries, target_prefix) {
        Ok(t) => t,
        Err(e) => {
            return Err(e);
        },
    };
    let tree = match mode {
        SubstMode::Render => built.render(vars),
        SubstMode::Template => built.template(vars),
        SubstMode::Copy => built,
    };
    let save = tree.save_actions();
    let rewrites = tree.db_rewrites();
    Ok(MappingPlan { tree, save, rewrites })
}

/// The recovery plan of a mapping: the actions that put every touched
/// target path back into the state it held when the tree was built,
/// descendants before their directories.
pub fn recovery_plan(tree: &FileTree) -> (res: Vec<FsAction>)
    ensures
        acts_view(res@) == restore_seq(tree@),
{
    tree.restore_actions()
}

/// How one mapping ended.
pub enum MappingReport {
    /// Saved and rewritten completely; nothing to undo.
    Committed,
    /// Something failed and the rollback succeeded: the target subtree is
    /// back in its prior state.
    Failed(DotfilerError),
    /// Something failed and the rollback failed too: the target may be
    /// half-written, and manual intervention is required.
    Unrecoverable { cause: DotfilerError, rollback: DotfilerError },
}

/// Judges one mapping's outcome from what the adapter reports: no failure
/// commits; a failure with a clean rollback is reported and the run goes
/// on; a failure whose rollback also failed is unrecoverable, and both
/// errors are reported, never just one. A rollback only runs after a
/// failure.
pub fn judge_outcome(
    failure: Option<DotfilerError>,
    rollback_failure: Option<DotfilerError>,
) -> (res: MappingReport)
    requires
        failure is None ==> rollback_failure is None,
    ensures
        ({
            match (failure, rollback_failure) {
                (None, _) => res is Committed,
                (Some(e), None) => res == MappingReport::Failed(e),
                (Some(e), Some(r)) => res == MappingReport::Unrecoverable {
                    cause: e,
                    rollback: r,
                },
            }
        }),
{
    match (failure, rollback_failure) {
        (None, _) => MappingReport::Committed,
        (Some(e), None) => MappingReport::Failed(e),
        (Some(e), Some(r)) => MappingReport::Unrecoverable { cause: e, rollback: r },
    }
}

} // verus!

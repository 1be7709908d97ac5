//! Going back to the baseline after a failed commit, and checking that it was reached.

use crate::error;
use crate::error::{NbError, NbErrorView};
use crate::paths;
use crate::paths::parent_path;
use crate::text;
use crate::transaction::materialize::Found;
use vstd::prelude::*;

verus! {

/// What is done with an output of the failed plan.
#[derive(Debug, Clone, Copy, PartialEq, Eq, Structural)]
pub enum Cleanup {
    RemoveFile,
    RemoveFolder,
    Nothing,
    /// The path could not be looked at, so it may still be there.
    Report,
}

/// What is done with an output of the failed plan, given what stands there.
pub open spec fn cleanup_of(found: Found) -> Cleanup {
    match found {
        Found::File => Cleanup::RemoveFile,
        Found::Symlink => Cleanup::RemoveFile,
        Found::Folder => Cleanup::RemoveFolder,
        Found::Other => Cleanup::Nothing,
        Found::Absent => Cleanup::Nothing,
        Found::Failed { .. } => Cleanup::Report,
    }
}

/// What is done with an output of the failed plan.
pub fn decide_cleanup(found: &Found) -> (r: Cleanup)
    ensures
        r == cleanup_of(*found),
{
    match found {
        Found::File => Cleanup::RemoveFile,
        Found::Symlink => Cleanup::RemoveFile,
        Found::Folder => Cleanup::RemoveFolder,
        Found::Other => Cleanup::Nothing,
        Found::Absent => Cleanup::Nothing,
        Found::Failed { .. } => Cleanup::Report,
    }
}

/// The report of an output that could not be removed.
pub fn left_behind(rel: &str, why: &str) -> (r: String)
    ensures
        r@ == rel@ + " ("@ + why@ + ")"@,
{
    text::cat4(rel, " (", why, ")")
}

/// A parent is shorter than its path.
pub proof fn lemma_parent_is_shorter(s: Seq<char>)
    ensures
        paths::parent_folder(s) matches Some(p) ==> p.len() < s.len(),
{
    paths::lemma_parent_len(s);
}

/// The folders from `folder` up that may be removed when they are empty: none from the first
/// one that the baseline has.
pub open spec fn prunable_from(folder: Option<Seq<char>>, baseline: Seq<Seq<char>>) -> Seq<Seq<char>>
    decreases
            match folder {
                Some(f) => f.len() + 1,
                None => 0,
            },
{
    match folder {
        None => Seq::empty(),
        Some(f) => if baseline.contains(f) {
            Seq::empty()
        } else {
            proof {
                lemma_parent_is_shorter(f);
            }
            seq![f] + prunable_from(paths::parent_folder(f), baseline)
        },
    }
}

/// The folders above an output, from the nearest up, that may be removed when they are empty.
/// A folder of the baseline, and what is above it, stays.
pub fn prunable_parents(rel: &str, baseline: &Vec<String>) -> (r: Vec<String>)
    ensures
        text::texts(r@) == prunable_from(paths::parent_folder(rel@), text::texts(baseline@)),
{
    let ghost dirs = text::texts(baseline@);
    let ghost all = prunable_from(paths::parent_folder(rel@), dirs);
    let mut out: Vec<String> = Vec::new();
    let mut next = parent_path(rel);
    assert(text::texts(out@) + all =~= all);
    loop
        invariant
            dirs == text::texts(baseline@),
            all == prunable_from(paths::parent_folder(rel@), dirs),
            text::texts(out@) + prunable_from(error::opt_text(next), dirs) == all,
        ensures
            text::texts(out@) == all,
        decreases
            match next {
                Some(f) => f@.len() + 1,
                None => 0,
            },
    {
        match next {
            None => {
                assert(text::texts(out@) + Seq::<Seq<char>>::empty() =~= text::texts(out@));
                break;
            },
            Some(folder) => {
                if text::list_contains(baseline, folder.as_str()) {
                    assert(text::texts(out@) + Seq::<Seq<char>>::empty() =~= text::texts(out@));
                    break;
                }
                let above = parent_path(folder.as_str());
                proof {
                    lemma_parent_is_shorter(folder@);
                }
                let ghost before = out@;
                let ghost f = folder@;
                out.push(folder);
                next = above;
                proof {
                    let rest = prunable_from(paths::parent_folder(f), dirs);
                    assert(text::texts(out@) =~= text::texts(before).push(f));
                    assert(text::texts(out@) + rest =~= text::texts(before) + (seq![f] + rest));
                }
            },
        }
    }
    out
}

/// A folder of the baseline is never removed.
pub proof fn law_baseline_folders_stay(folder: Option<Seq<char>>, baseline: Seq<Seq<char>>)
    ensures
        forall|k: int|
            0 <= k < prunable_from(folder, baseline).len() ==> !baseline.contains(
                #[trigger] prunable_from(folder, baseline)[k],
            ),
    decreases
            match folder {
                Some(f) => f.len() + 1,
                None => 0,
            },
{
    if let Some(f) = folder {
        if !baseline.contains(f) {
            lemma_parent_is_shorter(f);
            let rest = prunable_from(paths::parent_folder(f), baseline);
            law_baseline_folders_stay(paths::parent_folder(f), baseline);
            assert forall|k: int| 0 <= k < prunable_from(folder, baseline).len() implies !baseline.contains(
                #[trigger] prunable_from(folder, baseline)[k],
            ) by {
                if k > 0 {
                    assert(prunable_from(folder, baseline)[k] == rest[k - 1]);
                }
            }
        }
    }
}

/// What happened on the way back to the baseline. What comes after the first failure is not
/// looked at.
#[derive(Debug)]
pub struct RestoreFindings {
    /// Why the worktree could not be reset and cleaned.
    pub reset_error: Option<NbError>,
    /// A folder of the baseline that could not be made again, and why.
    pub lost_folder: Option<(String, String)>,
    /// Outputs that could not be removed.
    pub remaining: Vec<String>,
    /// Outputs that are still there after all.
    pub still_present: Vec<String>,
    /// The revision that the worktree is at.
    pub head: Result<String, NbError>,
    /// Whether the worktree has changes.
    pub dirty: Result<bool, NbError>,
    /// The revision and the status, as far as they could be read for a report.
    pub observed_head: Option<String>,
    pub observed_status: Option<String>,
}

/// What is done on the way back to the baseline.
#[derive(Debug, Clone, Copy, PartialEq, Eq, Structural)]
pub enum RestoreStage {
    /// Reset and clean the worktree.
    Reset,
    /// Make the folders of the baseline again.
    Folders,
    /// Remove what the failed plan wrote.
    Remove,
    /// Read the revision and whether there are changes, and look for what is still there.
    Verify,
    /// Read the revision and the status for a report.
    Observe,
    Over,
}

/// What is done after a stage: the first failure ends the way back.
pub open spec fn stage_after(stage: RestoreStage, f: RestoreFindings) -> RestoreStage {
    match stage {
        RestoreStage::Reset => if f.reset_error is None {
            RestoreStage::Folders
        } else {
            RestoreStage::Observe
        },
        RestoreStage::Folders => if f.lost_folder is None {
            RestoreStage::Remove
        } else {
            RestoreStage::Observe
        },
        RestoreStage::Remove => if f.remaining@.len() == 0 {
            RestoreStage::Verify
        } else {
            RestoreStage::Observe
        },
        RestoreStage::Verify => RestoreStage::Observe,
        RestoreStage::Observe => RestoreStage::Over,
        RestoreStage::Over => RestoreStage::Over,
    }
}

/// What is done after a stage.
pub fn next_stage(stage: RestoreStage, findings: &RestoreFindings) -> (r: RestoreStage)
    ensures
        r == stage_after(stage, *findings),
{
    let failed = match stage {
        RestoreStage::Reset => findings.reset_error.is_some(),
        RestoreStage::Folders => findings.lost_folder.is_some(),
        RestoreStage::Remove => findings.remaining.len() > 0,
        _ => false,
    };
    if failed {
        return RestoreStage::Observe;
    }
    match stage {
        RestoreStage::Reset => RestoreStage::Folders,
        RestoreStage::Folders => RestoreStage::Remove,
        RestoreStage::Remove => RestoreStage::Verify,
        RestoreStage::Verify => RestoreStage::Observe,
        RestoreStage::Observe => RestoreStage::Over,
        RestoreStage::Over => RestoreStage::Over,
    }
}

/// The stage that is reached after `n` stages.
pub open spec fn stage_reached(f: RestoreFindings, n: nat) -> RestoreStage
    decreases n,
{
    if n == 0 {
        RestoreStage::Reset
    } else {
        stage_after(stage_reached(f, (n - 1) as nat), f)
    }
}

/// Folders are made again only after a reset that succeeded, outputs of the plan are removed
/// only where the folders are there again, and the baseline is verified only where nothing is
/// left of them. However it goes, the worktree is observed before the way back is over.
pub proof fn law_restore_keeps_its_order(f: RestoreFindings, n: nat)
    ensures
        stage_reached(f, n) is Folders ==> f.reset_error is None,
        stage_reached(f, n) is Remove ==> f.reset_error is None && f.lost_folder is None,
        stage_reached(f, n) is Verify ==> f.reset_error is None && f.lost_folder is None
            && f.remaining@.len() == 0,
        stage_reached(f, n) is Over ==> exists|k: nat| k < n && stage_reached(f, k) is Observe,
        n >= 5 ==> stage_reached(f, n) is Over,
    decreases n,
{
    if n > 0 {
        let m = (n - 1) as nat;
        law_restore_keeps_its_order(f, m);
        if stage_reached(f, n) is Over {
            if stage_reached(f, m) is Over {
                let k = choose|k: nat| k < m && stage_reached(f, k) is Observe;
                assert(k < n && stage_reached(f, k) is Observe);
            } else {
                assert(m < n && stage_reached(f, m) is Observe);
            }
        }
        if n == 5 {
            reveal_with_fuel(stage_reached, 6);
        }
    }
}

/// The paths of a report: none where the list is empty.
pub open spec fn report_paths(v: Seq<Seq<char>>) -> Option<Seq<Seq<char>>> {
    if v.len() == 0 {
        None
    } else {
        Some(v)
    }
}

/// Whether the baseline was reached, or what has to be looked at by hand.
pub open spec fn verdict(pre: Seq<char>, owned: Seq<Seq<char>>, f: RestoreFindings) -> Option<
    NbErrorView,
> {
    let present = text::texts(f.still_present@);
    if let Some(e) = f.reset_error {
        Some(
            NbErrorView::RecoveryRequired {
                pre_revision: pre,
                post_revision_observed: error::opt_text(f.observed_head),
                status_observed: error::opt_text(f.observed_status),
                preserved_paths: Some(owned),
                guidance:
                    "cleanup after failed commit could not be verified; inspect HEAD/status before retry. underlying: "@
                    + error::message(e@),
            },
        )
    } else if let Some(lost) = f.lost_folder {
        Some(
            NbErrorView::RecoveryRequired {
                pre_revision: pre,
                post_revision_observed: error::opt_text(f.observed_head),
                status_observed: error::opt_text(f.observed_status),
                preserved_paths: Some(seq![lost.0@]),
                guidance: "failed to restore baseline directory `"@ + lost.0@
                    + "` after cleanup; do not retry blindly. underlying: "@ + lost.1@,
            },
        )
    } else if f.remaining@.len() > 0 {
        Some(
            NbErrorView::RecoveryRequired {
                pre_revision: pre,
                post_revision_observed: error::opt_text(f.observed_head),
                status_observed: error::opt_text(f.observed_status),
                preserved_paths: Some(text::texts(f.remaining@)),
                guidance:
                    "failed to remove transaction-owned outputs after aborted commit; do not retry blindly"@,
            },
        )
    } else {
        match f.head {
            Err(e) => Some(
                NbErrorView::RecoveryRequired {
                    pre_revision: pre,
                    post_revision_observed: None,
                    status_observed: error::opt_text(f.observed_status),
                    preserved_paths: report_paths(present),
                    guidance:
                        "cleanup ran but HEAD re-read failed during verification; do not retry blindly. underlying: "@
                        + error::message(e@),
                },
            ),
            Ok(head) => match f.dirty {
                Err(e) => Some(
                    NbErrorView::RecoveryRequired {
                        pre_revision: pre,
                        post_revision_observed: Some(head@),
                        status_observed: error::opt_text(f.observed_status),
                        preserved_paths: report_paths(present),
                        guidance:
                            "cleanup ran but dirty-status check failed during verification; do not retry blindly. underlying: "@
                            + error::message(e@),
                    },
                ),
                Ok(dirty) => if head@ != pre || dirty || present.len() > 0 {
                    Some(
                        NbErrorView::RecoveryRequired {
                            pre_revision: pre,
                            post_revision_observed: Some(head@),
                            status_observed: error::opt_text(f.observed_status),
                            preserved_paths: report_paths(present),
                            guidance:
                                "cleanup ran but HEAD/status/owned-path verification failed; do not retry blindly"@,
                        },
                    )
                } else {
                    None
                },
            },
        }
    }
}

/// The paths of a report.
fn report(v: Vec<String>) -> (r: Option<Vec<String>>)
    ensures
        error::opt_texts(r) == report_paths(text::texts(v@)),
{
    assert(text::texts(v@).len() == v@.len());
    if v.len() == 0 {
        None
    } else {
        Some(v)
    }
}

/// Whether the baseline was reached again.
pub fn restore_verdict(pre_revision: &str, owned: &Vec<String>, findings: RestoreFindings) -> (r:
    Result<(), NbError>)
    ensures
        match r {
            Ok(()) => verdict(pre_revision@, text::texts(owned@), findings) is None,
            Err(e) => verdict(pre_revision@, text::texts(owned@), findings) == Some(e@),
        },
{
    let f = findings;
    if let Some(e) = &f.reset_error {
        let why = e.message_text();
        return Err(
            NbError::RecoveryRequired {
                pre_revision: pre_revision.to_string(),
                post_revision_observed: f.observed_head,
                status_observed: f.observed_status,
                preserved_paths: Some(text::copied(owned.as_slice())),
                guidance: text::cat2(
                    "cleanup after failed commit could not be verified; inspect HEAD/status before retry. underlying: ",
                    why.as_str(),
                ),
            },
        );
    }
    if let Some(lost) = &f.lost_folder {
        let mut list: Vec<String> = Vec::new();
        list.push(lost.0.clone());
        assert(text::texts(list@) =~= seq![lost.0@]);
        return Err(
            NbError::RecoveryRequired {
                pre_revision: pre_revision.to_string(),
                post_revision_observed: f.observed_head,
                status_observed: f.observed_status,
                preserved_paths: Some(list),
                guidance: text::cat4(
                    "failed to restore baseline directory `",
                    lost.0.as_str(),
                    "` after cleanup; do not retry blindly. underlying: ",
                    lost.1.as_str(),
                ),
            },
        );
    }
    if f.remaining.len() > 0 {
        return Err(
            NbError::RecoveryRequired {
                pre_revision: pre_revision.to_string(),
                post_revision_observed: f.observed_head,
                status_observed: f.observed_status,
                preserved_paths: Some(f.remaining),
                guidance:
                    "failed to remove transaction-owned outputs after aborted commit; do not retry blindly".to_string(),
            },
        );
    }
    let head = match f.head {
        Ok(h) => h,
        Err(e) => {
            let why = e.message_text();
            return Err(
                NbError::RecoveryRequired {
                    pre_revision: pre_revision.to_string(),
                    post_revision_observed: None,
                    status_observed: f.observed_status,
                    preserved_paths: report(f.still_present),
                    guidance: text::cat2(
                        "cleanup ran but HEAD re-read failed during verification; do not retry blindly. underlying: ",
                        why.as_str(),
                    ),
                },
            );
        },
    };
    let dirty = match f.dirty {
        Ok(d) => d,
        Err(e) => {
            let why = e.message_text();
            return Err(
                NbError::RecoveryRequired {
                    pre_revision: pre_revision.to_string(),
                    post_revision_observed: Some(head),
                    status_observed: f.observed_status,
                    preserved_paths: report(f.still_present),
                    guidance: text::cat2(
                        "cleanup ran but dirty-status check failed during verification; do not retry blindly. underlying: ",
                        why.as_str(),
                    ),
                },
            );
        },
    };
    assert(text::texts(f.still_present@).len() == f.still_present@.len());
    if !text::equal(head.as_str(), pre_revision) || dirty || f.still_present.len() > 0 {
        return Err(
            NbError::RecoveryRequired {
                pre_revision: pre_revision.to_string(),
                post_revision_observed: Some(head),
                status_observed: f.observed_status,
                preserved_paths: report(f.still_present),
                guidance:
                    "cleanup ran but HEAD/status/owned-path verification failed; do not retry blindly".to_string(),
            },
        );
    }
    Ok(())
}

/// The original error of a commit is reported alone only where the worktree is verifiably at
/// the baseline: at its revision, without changes and without an output of the plan.
pub proof fn law_restored_means_baseline(pre: Seq<char>, owned: Seq<Seq<char>>, f: RestoreFindings)
    ensures
        verdict(pre, owned, f) is None <==> f.reset_error is None && f.lost_folder is None
            && f.remaining@.len() == 0 && f.still_present@.len() == 0 && (f.head matches Ok(h)
            && h@ == pre) && f.dirty == Ok::<bool, NbError>(false),
{
    assert(text::texts(f.still_present@).len() == f.still_present@.len());
}

} // verus!

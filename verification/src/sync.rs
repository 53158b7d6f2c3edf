//! Reconciliation planning and bookkeeping.
//!
//! [`plan_sync_operations`] compares a desired label list against the
//! observed snapshot and emits an ordered operation plan; each desired entry
//! is resolved greedily by exact name, then declared aliases, then name
//! similarity, and every observed label is consumed by at most one desired
//! entry.  [`operation_store_calls`] says which store calls one operation
//! needs, and [`SyncResult`] accumulates what happened as a caller applies
//! the plan, tolerating per-operation failure.

use vstd::prelude::*;
use vstd::string::StringExecFns;

use crate::config::LabelConfig;
use crate::config::LabelConfigV;
use crate::config::norm_color;
use crate::github::GitHubLabel;
use crate::github::GitHubLabelV;
use crate::similarity::Similarity;
use crate::similarity::calculate_label_similarity;
use crate::similarity::score_exceeds_threshold;
use crate::similarity::score_gt;

verus! {

/// Mathematical content of a [`SyncOperation`].
pub ghost enum SyncOperationV {
    Create { label: LabelConfigV },
    Update { current_name: Seq<char>, new_label: LabelConfigV, changes: Seq<Seq<char>> },
    Delete { name: Seq<char>, reason: Seq<char> },
    Rename { current_name: Seq<char>, new_name: Seq<char>, new_label: LabelConfigV },
    NoChange { name: Seq<char> },
}

/// One step of a synchronization plan.
#[derive(Debug, PartialEq)]
pub enum SyncOperation {
    /// Create a label that has no observed counterpart.
    Create { label: LabelConfig },
    /// Bring an observed label up to its desired color and description;
    /// `changes` holds one descriptor per differing field.
    Update { current_name: String, new_label: LabelConfig, changes: Vec<String> },
    /// Remove an observed label, with the reason it goes.
    Delete { name: String, reason: String },
    /// Give an observed label its desired name (and fields).
    Rename { current_name: String, new_name: String, new_label: LabelConfig },
    /// The observed label already matches its desired form.
    NoChange { name: String },
}

impl View for SyncOperation {
    type V = SyncOperationV;

    open spec fn view(&self) -> SyncOperationV {
        match self {
            SyncOperation::Create { label } => SyncOperationV::Create { label: label@ },
            SyncOperation::Update { current_name, new_label, changes } => SyncOperationV::Update {
                current_name: current_name@,
                new_label: new_label@,
                changes: changes.deep_view(),
            },
            SyncOperation::Delete { name, reason } => SyncOperationV::Delete {
                name: name@,
                reason: reason@,
            },
            SyncOperation::Rename { current_name, new_name, new_label } => SyncOperationV::Rename {
                current_name: current_name@,
                new_name: new_name@,
                new_label: new_label@,
            },
            SyncOperation::NoChange { name } => SyncOperationV::NoChange { name: name@ },
        }
    }
}

impl DeepView for SyncOperation {
    type V = SyncOperationV;

    open spec fn deep_view(&self) -> SyncOperationV {
        self.view()
    }
}

impl Clone for SyncOperation {
    /// Cloning keeps the operation's content, stated at the level of views.
    fn clone(&self) -> (r: Self)
        ensures
            r@ == self@,
    {
        match self {
            SyncOperation::Create { label } => SyncOperation::Create { label: label.clone() },
            SyncOperation::Update { current_name, new_label, changes } => {
                let r = SyncOperation::Update {
                    current_name: current_name.clone(),
                    new_label: new_label.clone(),
                    changes: changes.clone(),
                };
                proof {
                    assert(r->Update_changes.deep_view() =~= changes.deep_view());
                }
                r
            },
            SyncOperation::Delete { name, reason } => SyncOperation::Delete {
                name: name.clone(),
                reason: reason.clone(),
            },
            SyncOperation::Rename { current_name, new_name, new_label } => SyncOperation::Rename {
                current_name: current_name.clone(),
                new_name: new_name.clone(),
                new_label: new_label.clone(),
            },
            SyncOperation::NoChange { name } => SyncOperation::NoChange { name: name.clone() },
        }
    }
}

/// The five operation kinds, used to keep the per-kind counters tied to the
/// operation log.
pub ghost enum OpKind {
    Create,
    Update,
    Delete,
    Rename,
    NoChange,
}

/// The kind of an operation.
pub open spec fn kind_of(op: SyncOperationV) -> OpKind {
    match op {
        SyncOperationV::Create { .. } => OpKind::Create,
        SyncOperationV::Update { .. } => OpKind::Update,
        SyncOperationV::Delete { .. } => OpKind::Delete,
        SyncOperationV::Rename { .. } => OpKind::Rename,
        SyncOperationV::NoChange { .. } => OpKind::NoChange,
    }
}

/// How many operations of the given kind the sequence holds.
pub open spec fn count_kind(s: Seq<SyncOperationV>, k: OpKind) -> int
    decreases s.len(),
{
    if s.len() == 0 {
        0
    } else {
        count_kind(s.drop_last(), k) + if kind_of(s.last()) == k {
            1int
        } else {
            0int
        }
    }
}

/// The five per-kind counts are non-negative and add up to the length of
/// the sequence.
pub proof fn lemma_count_kind_sum(s: Seq<SyncOperationV>)
    ensures
        count_kind(s, OpKind::Create) + count_kind(s, OpKind::Update) + count_kind(
            s,
            OpKind::Delete,
        ) + count_kind(s, OpKind::Rename) + count_kind(s, OpKind::NoChange) == s.len(),
        0 <= count_kind(s, OpKind::Create),
        0 <= count_kind(s, OpKind::Update),
        0 <= count_kind(s, OpKind::Delete),
        0 <= count_kind(s, OpKind::Rename),
        0 <= count_kind(s, OpKind::NoChange),
    decreases s.len(),
{
    if s.len() > 0 {
        lemma_count_kind_sum(s.drop_last());
    }
}

/// What happened over one synchronization run: the operations that were
/// carried through (or previewed), counters per kind, and the error
/// messages of the operations that failed.
#[derive(Debug)]
pub struct SyncResult {
    /// The operations processed, in order.
    pub operations: Vec<SyncOperation>,
    /// Number of labels created.
    pub created: u32,
    /// Number of labels updated.
    pub updated: u32,
    /// Number of labels deleted.
    pub deleted: u32,
    /// Number of labels renamed.
    pub renamed: u32,
    /// Number of labels left unchanged.
    pub unchanged: u32,
    /// Whether the run was a preview that made no store calls.
    pub dry_run: bool,
    /// One message per failed operation, in order.
    pub errors: Vec<String>,
}

impl Clone for SyncResult {
    /// Cloning keeps the counters, the flag, and the contents of the
    /// operation and error logs.
    fn clone(&self) -> (r: Self)
        ensures
            r.operations.deep_view() == self.operations.deep_view(),
            r.created == self.created,
            r.updated == self.updated,
            r.deleted == self.deleted,
            r.renamed == self.renamed,
            r.unchanged == self.unchanged,
            r.dry_run == self.dry_run,
            r.errors.deep_view() == self.errors.deep_view(),
            self.wf() ==> r.wf(),
    {
        let r = SyncResult {
            operations: self.operations.clone(),
            created: self.created,
            updated: self.updated,
            deleted: self.deleted,
            renamed: self.renamed,
            unchanged: self.unchanged,
            dry_run: self.dry_run,
            errors: self.errors.clone(),
        };
        proof {
            assert forall|i: int|
                0 <= i < self.operations@.len() implies #[trigger] r.operations.deep_view()[i]
                == self.operations.deep_view()[i] by {
                assert(cloned::<SyncOperation>(self.operations[i], r.operations[i]));
            }
            assert(r.operations.deep_view() =~= self.operations.deep_view());
            assert(r.errors@ =~= self.errors@);
            assert(r.errors.deep_view() =~= self.errors.deep_view());
        }
        r
    }
}

impl SyncResult {
    /// The counters agree with the operation log, kind by kind.
    pub open spec fn wf(self) -> bool {
        &&& self.created as int == count_kind(self.operations.deep_view(), OpKind::Create)
        &&& self.updated as int == count_kind(self.operations.deep_view(), OpKind::Update)
        &&& self.deleted as int == count_kind(self.operations.deep_view(), OpKind::Delete)
        &&& self.renamed as int == count_kind(self.operations.deep_view(), OpKind::Rename)
        &&& self.unchanged as int == count_kind(self.operations.deep_view(), OpKind::NoChange)
        &&& self.operations@.len() <= u32::MAX
    }

    /// A fresh, empty result for one run.
    pub fn new(dry_run: bool) -> (r: SyncResult)
        ensures
            r.wf(),
            r.operations@.len() == 0,
            r.created == 0,
            r.updated == 0,
            r.deleted == 0,
            r.renamed == 0,
            r.unchanged == 0,
            r.dry_run == dry_run,
            r.errors@.len() == 0,
    {
        let r = SyncResult {
            operations: Vec::new(),
            created: 0,
            updated: 0,
            deleted: 0,
            renamed: 0,
            unchanged: 0,
            dry_run,
            errors: Vec::new(),
        };
        proof {
            assert(r.operations.deep_view() =~= Seq::<SyncOperationV>::empty());
        }
        r
    }

    /// Append a processed operation to the log and bump the counter of its
    /// kind.
    pub fn add_operation(&mut self, operation: SyncOperation)
        requires
            old(self).wf(),
            old(self).operations@.len() < u32::MAX,
        ensures
            final(self).wf(),
            final(self).operations.deep_view() == old(self).operations.deep_view().push(
                operation@,
            ),
            final(self).created as int == old(self).created as int + (if kind_of(operation@)
                == OpKind::Create {
                1int
            } else {
                0int
            }),
            final(self).updated as int == old(self).updated as int + (if kind_of(operation@)
                == OpKind::Update {
                1int
            } else {
                0int
            }),
            final(self).deleted as int == old(self).deleted as int + (if kind_of(operation@)
                == OpKind::Delete {
                1int
            } else {
                0int
            }),
            final(self).renamed as int == old(self).renamed as int + (if kind_of(operation@)
                == OpKind::Rename {
                1int
            } else {
                0int
            }),
            final(self).unchanged as int == old(self).unchanged as int + (if kind_of(operation@)
                == OpKind::NoChange {
                1int
            } else {
                0int
            }),
            final(self).dry_run == old(self).dry_run,
            final(self).errors == old(self).errors,
    {
        proof {
            lemma_count_kind_sum(self.operations.deep_view());
        }
        match &operation {
            SyncOperation::Create { .. } => {
                self.created = self.created + 1;
            },
            SyncOperation::Update { .. } => {
                self.updated = self.updated + 1;
            },
            SyncOperation::Delete { .. } => {
                self.deleted = self.deleted + 1;
            },
            SyncOperation::Rename { .. } => {
                self.renamed = self.renamed + 1;
            },
            SyncOperation::NoChange { .. } => {
                self.unchanged = self.unchanged + 1;
            },
        }
        let ghost before = self.operations.deep_view();
        self.operations.push(operation);
        proof {
            assert(self.operations.deep_view() =~= before.push(operation@));
            assert(before.push(operation@).drop_last() =~= before);
        }
    }

    /// Record the message of a failed operation; nothing else changes.
    pub fn add_error(&mut self, error: String)
        ensures
            old(self).wf() ==> final(self).wf(),
            final(self).errors.deep_view() == old(self).errors.deep_view().push(error@),
            final(self).operations == old(self).operations,
            final(self).created == old(self).created,
            final(self).updated == old(self).updated,
            final(self).deleted == old(self).deleted,
            final(self).renamed == old(self).renamed,
            final(self).unchanged == old(self).unchanged,
            final(self).dry_run == old(self).dry_run,
    {
        let ghost before = self.errors.deep_view();
        self.errors.push(error);
        proof {
            assert(self.errors.deep_view() =~= before.push(error@));
        }
    }

    /// Whether the run changed (or, on a preview, would change) anything:
    /// unchanged entries never count.
    pub fn has_changes(&self) -> (r: bool)
        ensures
            r == (self.created > 0 || self.updated > 0 || self.deleted > 0 || self.renamed > 0),
    {
        self.created > 0 || self.updated > 0 || self.deleted > 0 || self.renamed > 0
    }

    /// Total number of operations processed: the five counters together,
    /// which by well-formedness is the length of the operation log.
    pub fn total_operations(&self) -> (r: u32)
        requires
            self.wf(),
        ensures
            r as int == self.created as int + self.updated as int + self.deleted as int
                + self.renamed as int + self.unchanged as int,
            r as int == self.operations@.len(),
    {
        proof {
            lemma_count_kind_sum(self.operations.deep_view());
        }
        self.created + self.updated + self.deleted + self.renamed + self.unchanged
    }
}

/// An index option widened from the executable `usize` form to the
/// mathematical one.
pub open spec fn opt_as_int(o: Option<usize>) -> Option<int> {
    match o {
        Some(u) => Some(u as int),
        None => None,
    }
}

/// First observed label at or after position `i` that is unprocessed and
/// bears exactly the given name.
pub open spec fn find_from(
    obs: Seq<GitHubLabelV>,
    processed: Seq<bool>,
    name: Seq<char>,
    i: int,
) -> Option<int>
    decreases obs.len() - i,
{
    if i < 0 || i >= obs.len() {
        None
    } else if !processed[i] && obs[i].name == name {
        Some(i)
    } else {
        find_from(obs, processed, name, i + 1)
    }
}

/// First unprocessed observed label bearing exactly the given name.
pub open spec fn find_exact(obs: Seq<GitHubLabelV>, processed: Seq<bool>, name: Seq<char>) -> Option<
    int,
> {
    find_from(obs, processed, name, 0)
}

/// Walk the aliases from position `k` in declared order; the first alias
/// that names an unprocessed observed label decides.
pub open spec fn find_alias_from(
    obs: Seq<GitHubLabelV>,
    processed: Seq<bool>,
    aliases: Seq<Seq<char>>,
    k: int,
) -> Option<int>
    decreases aliases.len() - k,
{
    if k < 0 || k >= aliases.len() {
        None
    } else {
        match find_exact(obs, processed, aliases[k]) {
            Some(i) => Some(i),
            None => find_alias_from(obs, processed, aliases, k + 1),
        }
    }
}

/// The observed label claimed by the first matching alias, if any.
pub open spec fn find_alias(
    obs: Seq<GitHubLabelV>,
    processed: Seq<bool>,
    aliases: Seq<Seq<char>>,
) -> Option<int> {
    find_alias_from(obs, processed, aliases, 0)
}

/// Scan the unprocessed observed labels from position `i`, carrying the
/// best candidate so far: a label displaces it only with a score that both
/// exceeds the threshold and strictly beats it, so among equals the
/// earliest index wins.
pub open spec fn find_similar_from(
    obs: Seq<GitHubLabelV>,
    processed: Seq<bool>,
    dname: Seq<char>,
    i: int,
    best: Option<int>,
) -> Option<int>
    decreases obs.len() - i,
{
    if i < 0 || i >= obs.len() {
        best
    } else {
        let better = !processed[i] && score_exceeds_threshold(obs[i].name, dname) && (match best {
            None => true,
            Some(b) => score_gt(obs[i].name, obs[b].name, dname),
        });
        find_similar_from(
            obs,
            processed,
            dname,
            i + 1,
            if better {
                Some(i)
            } else {
                best
            },
        )
    }
}

/// The unprocessed observed label most similar to the desired name, if its
/// score strictly exceeds the threshold; ties go to the earliest index.
pub open spec fn find_similar(
    obs: Seq<GitHubLabelV>,
    processed: Seq<bool>,
    dname: Seq<char>,
) -> Option<int> {
    find_similar_from(obs, processed, dname, 0, None)
}

/// The change descriptor for a color difference, over normalized colors.
pub open spec fn color_change_msg(cur: Seq<char>, tgt: Seq<char>) -> Seq<char> {
    "color: "@ + norm_color(cur) + " -> "@ + norm_color(tgt)
}

/// A description as shown in a change descriptor; an absent one shows as
/// `(none)`.
pub open spec fn desc_text(d: Option<Seq<char>>) -> Seq<char> {
    match d {
        Some(s) => s,
        None => "(none)"@,
    }
}

/// The change descriptor for a description difference.
pub open spec fn desc_change_msg(cur: Option<Seq<char>>, tgt: Option<Seq<char>>) -> Seq<char> {
    "description: "@ + desc_text(cur) + " -> "@ + desc_text(tgt)
}

/// The operation owed to an exact name match: `NoChange` when the
/// normalized colors and the descriptions agree, otherwise an `Update`
/// carrying one descriptor per differing field, color first.
pub open spec fn spec_check_changes(cur: GitHubLabelV, tgt: LabelConfigV) -> SyncOperationV {
    let color_differs = norm_color(cur.color) != norm_color(tgt.color);
    let desc_differs = cur.description != tgt.description;
    if !color_differs && !desc_differs {
        SyncOperationV::NoChange { name: cur.name }
    } else {
        SyncOperationV::Update {
            current_name: cur.name,
            new_label: tgt,
            changes: (if color_differs {
                seq![color_change_msg(cur.color, tgt.color)]
            } else {
                Seq::empty()
            }) + (if desc_differs {
                seq![desc_change_msg(cur.description, tgt.description)]
            } else {
                Seq::empty()
            }),
        }
    }
}

/// The observed label one desired entry consumes, if any: for a deletion
/// mark, the exact name; otherwise the exact name first, then the first
/// matching alias, then the best similar name.
pub open spec fn entry_index(
    obs: Seq<GitHubLabelV>,
    processed: Seq<bool>,
    d: LabelConfigV,
) -> Option<int> {
    if d.delete {
        find_exact(obs, processed, d.name)
    } else {
        match find_exact(obs, processed, d.name) {
            Some(i) => Some(i),
            None => match find_alias(obs, processed, d.aliases) {
                Some(i) => Some(i),
                None => find_similar(obs, processed, d.name),
            },
        }
    }
}

/// The operations one desired entry emits: nothing for a deletion mark
/// without a counterpart, otherwise exactly one operation.
pub open spec fn entry_ops(
    obs: Seq<GitHubLabelV>,
    processed: Seq<bool>,
    d: LabelConfigV,
) -> Seq<SyncOperationV> {
    if d.delete {
        match find_exact(obs, processed, d.name) {
            Some(_) => seq![
                SyncOperationV::Delete { name: d.name, reason: "marked for deletion"@ },
            ],
            None => Seq::empty(),
        }
    } else {
        seq![
            match find_exact(obs, processed, d.name) {
                Some(i) => spec_check_changes(obs[i], d),
                None => match find_alias(obs, processed, d.aliases) {
                    Some(i) => SyncOperationV::Rename {
                        current_name: obs[i].name,
                        new_name: d.name,
                        new_label: d,
                    },
                    None => match find_similar(obs, processed, d.name) {
                        Some(i) => SyncOperationV::Rename {
                            current_name: obs[i].name,
                            new_name: d.name,
                            new_label: d,
                        },
                        None => SyncOperationV::Create { label: d },
                    },
                },
            },
        ]
    }
}

/// The processed set after one desired entry: its consumed observed label,
/// if any, is marked.
pub open spec fn after_entry(
    obs: Seq<GitHubLabelV>,
    processed: Seq<bool>,
    d: LabelConfigV,
) -> Seq<bool> {
    match entry_index(obs, processed, d) {
        Some(i) => processed.update(i, true),
        None => processed,
    }
}

/// The operations emitted for the desired entries from position `k` on,
/// threading the processed set left to right.
pub open spec fn ops_from(
    obs: Seq<GitHubLabelV>,
    processed: Seq<bool>,
    des: Seq<LabelConfigV>,
    k: int,
) -> Seq<SyncOperationV>
    decreases des.len() - k,
{
    if k < 0 || k >= des.len() {
        Seq::empty()
    } else {
        entry_ops(obs, processed, des[k]) + ops_from(
            obs,
            after_entry(obs, processed, des[k]),
            des,
            k + 1,
        )
    }
}

/// The processed set after the desired entries from position `k` on.
pub open spec fn processed_from(
    obs: Seq<GitHubLabelV>,
    processed: Seq<bool>,
    des: Seq<LabelConfigV>,
    k: int,
) -> Seq<bool>
    decreases des.len() - k,
{
    if k < 0 || k >= des.len() {
        processed
    } else {
        processed_from(obs, after_entry(obs, processed, des[k]), des, k + 1)
    }
}

/// The deletions of the post-pass cleanup: one `Delete` for every observed
/// label from position `i` on that no desired entry consumed, in observed
/// order.
pub open spec fn cleanup_from(obs: Seq<GitHubLabelV>, processed: Seq<bool>, i: int) -> Seq<
    SyncOperationV,
>
    decreases obs.len() - i,
{
    if i < 0 || i >= obs.len() {
        Seq::empty()
    } else {
        (if !processed[i] {
            seq![
                SyncOperationV::Delete {
                    name: obs[i].name,
                    reason: "not defined in configuration"@,
                },
            ]
        } else {
            Seq::empty()
        }) + cleanup_from(obs, processed, i + 1)
    }
}

/// The processed set at the start of a pass: nothing consumed yet.
pub open spec fn no_labels_processed(obs: Seq<GitHubLabelV>) -> Seq<bool> {
    Seq::new(obs.len(), |i: int| false)
}

/// The whole plan for one pass: every desired entry resolved in order, and,
/// unless added labels are allowed, one cleanup `Delete` per observed label
/// left unconsumed.
pub open spec fn spec_plan(
    obs: Seq<GitHubLabelV>,
    des: Seq<LabelConfigV>,
    allow_added: bool,
) -> Seq<SyncOperationV> {
    let p0 = no_labels_processed(obs);
    ops_from(obs, p0, des, 0) + if allow_added {
        Seq::empty()
    } else {
        cleanup_from(obs, processed_from(obs, p0, des, 0), 0)
    }
}

/// First unprocessed observed label named exactly `name`, scanning in
/// observed order.
fn find_exact_idx(observed: &Vec<GitHubLabel>, processed: &Vec<bool>, name: &String) -> (r: Option<
    usize,
>)
    requires
        processed@.len() == observed@.len(),
    ensures
        opt_as_int(r) == find_exact(observed.deep_view(), processed@, name@),
        r matches Some(u) ==> (u as int) < observed@.len(),
{
    let mut i: usize = 0;
    while i < observed.len()
        invariant
            i <= observed@.len(),
            processed@.len() == observed@.len(),
            find_exact(observed.deep_view(), processed@, name@) == find_from(
                observed.deep_view(),
                processed@,
                name@,
                i as int,
            ),
        decreases observed@.len() - i,
    {
        if !processed[i] && observed[i].name == *name {
            return Some(i);
        }
        i = i + 1;
    }
    None
}

/// The observed label named by the first alias, in declared order, that
/// names an unprocessed observed label.
fn find_alias_idx(observed: &Vec<GitHubLabel>, processed: &Vec<bool>, aliases: &Vec<String>) -> (r:
    Option<usize>)
    requires
        processed@.len() == observed@.len(),
    ensures
        opt_as_int(r) == find_alias(observed.deep_view(), processed@, aliases.deep_view()),
        r matches Some(u) ==> (u as int) < observed@.len(),
{
    let mut k: usize = 0;
    while k < aliases.len()
        invariant
            k <= aliases@.len(),
            processed@.len() == observed@.len(),
            find_alias(observed.deep_view(), processed@, aliases.deep_view()) == find_alias_from(
                observed.deep_view(),
                processed@,
                aliases.deep_view(),
                k as int,
            ),
        decreases aliases@.len() - k,
    {
        let hit = find_exact_idx(observed, processed, &aliases[k]);
        match hit {
            Some(i) => {
                return Some(i);
            },
            None => {},
        }
        k = k + 1;
    }
    None
}

/// The unprocessed observed label most similar to the desired name,
/// provided its score strictly exceeds the threshold; among equal scores
/// the earliest observed label wins.
fn find_similar_idx(observed: &Vec<GitHubLabel>, processed: &Vec<bool>, name: &String) -> (r:
    Option<usize>)
    requires
        processed@.len() == observed@.len(),
    ensures
        opt_as_int(r) == find_similar(observed.deep_view(), processed@, name@),
        r matches Some(u) ==> (u as int) < observed@.len(),
{
    let mut best: Option<usize> = None;
    let mut best_sim = Similarity { num: 0, den: 1 };
    let mut i: usize = 0;
    while i < observed.len()
        invariant
            i <= observed@.len(),
            processed@.len() == observed@.len(),
            best matches Some(b) ==> (b as int) < observed@.len() && best_sim.is_score_of(
                observed@[b as int].name@,
                name@,
            ),
            find_similar(observed.deep_view(), processed@, name@) == find_similar_from(
                observed.deep_view(),
                processed@,
                name@,
                i as int,
                opt_as_int(best),
            ),
        decreases observed@.len() - i,
    {
        if !processed[i] {
            let sim = calculate_label_similarity(observed[i].name.as_str(), name.as_str());
            let better = sim.exceeds_threshold() && (match best {
                None => true,
                Some(_) => sim.gt(&best_sim),
            });
            if better {
                best = Some(i);
                best_sim = sim;
            }
        }
        i = i + 1;
    }
    best
}

/// The operation owed to an exact name match: `NoChange` when the
/// normalized color and the description already agree, otherwise an
/// `Update` naming what differs, color first.
pub fn check_label_changes(current: &GitHubLabel, target: &LabelConfig) -> (op: SyncOperation)
    ensures
        op@ == spec_check_changes(current@, target@),
{
    let cur_norm = LabelConfig::normalize_color(current.color.as_str());
    let tgt_norm = LabelConfig::normalize_color(target.color.as_str());
    let color_differs = !(cur_norm == tgt_norm);
    let desc_differs = match (&current.description, &target.description) {
        (None, None) => false,
        (Some(a), Some(b)) => !(*a == *b),
        _ => true,
    };
    proof {
        assert(color_differs == (norm_color(current@.color) != norm_color(target@.color)));
        assert(desc_differs == (current@.description != target@.description));
    }
    let mut changes: Vec<String> = Vec::new();
    if color_differs {
        let mut m = String::from_str("color: ");
        m.append(cur_norm.as_str());
        m.append(" -> ");
        m.append(tgt_norm.as_str());
        proof {
            assert(m@ =~= color_change_msg(current@.color, target@.color));
        }
        changes.push(m);
    }
    if desc_differs {
        let mut m = String::from_str("description: ");
        match &current.description {
            Some(s) => m.append(s.as_str()),
            None => m.append("(none)"),
        }
        m.append(" -> ");
        match &target.description {
            Some(s) => m.append(s.as_str()),
            None => m.append("(none)"),
        }
        proof {
            assert(m@ =~= desc_change_msg(current@.description, target@.description));
        }
        changes.push(m);
    }
    if changes.len() == 0 {
        let op = SyncOperation::NoChange { name: current.name.clone() };
        proof {
            assert(op@ == spec_check_changes(current@, target@));
        }
        op
    } else {
        let op = SyncOperation::Update {
            current_name: current.name.clone(),
            new_label: target.clone(),
            changes,
        };
        proof {
            assert(op->Update_changes.deep_view() =~= spec_check_changes(
                current@,
                target@,
            )->Update_changes);
        }
        op
    }
}

/// Plan one reconciliation pass.
///
/// Desired entries are resolved in list order, each one greedily: a
/// deletion mark removes its exact namesake if one is unconsumed; otherwise
/// the entry claims the exact name match, else the first matching alias,
/// else the most similar name above the threshold, and failing all three is
/// created.  A claimed observed label is consumed and cannot match a later
/// entry.  Afterwards, unless `allow_added_labels` is set, every unconsumed
/// observed label receives one `Delete`, in observed order.
pub fn plan_sync_operations(
    observed: &Vec<GitHubLabel>,
    desired: &Vec<LabelConfig>,
    allow_added_labels: bool,
) -> (ops: Vec<SyncOperation>)
    ensures
        ops.deep_view() == spec_plan(observed.deep_view(), desired.deep_view(), allow_added_labels),
{
    let ghost obs = observed.deep_view();
    let ghost des = desired.deep_view();
    let ghost p0 = no_labels_processed(obs);
    let mut operations: Vec<SyncOperation> = Vec::new();
    let mut processed: Vec<bool> = Vec::new();
    let mut t: usize = 0;
    while t < observed.len()
        invariant
            t <= observed@.len(),
            processed@.len() == t,
            forall|j: int| 0 <= j < t ==> #[trigger] processed@[j] == false,
        decreases observed@.len() - t,
    {
        processed.push(false);
        t = t + 1;
    }
    proof {
        assert(processed@ =~= p0);
    }
    let mut k: usize = 0;
    while k < desired.len()
        invariant
            k <= desired@.len(),
            obs == observed.deep_view(),
            des == desired.deep_view(),
            p0 == no_labels_processed(obs),
            processed@.len() == obs.len(),
            operations.deep_view() + ops_from(obs, processed@, des, k as int) == ops_from(
                obs,
                p0,
                des,
                0,
            ),
            processed_from(obs, processed@, des, k as int) == processed_from(obs, p0, des, 0),
        decreases desired@.len() - k,
    {
        let d = &desired[k];
        let ghost dv = des[k as int];
        let ghost p_before = processed@;
        let ghost ops_before = operations.deep_view();
        if d.delete {
            match find_exact_idx(observed, &processed, &d.name) {
                Some(i) => {
                    operations.push(
                        SyncOperation::Delete {
                            name: d.name.clone(),
                            reason: String::from_str("marked for deletion"),
                        },
                    );
                    processed.set(i, true);
                },
                None => {},
            }
        } else {
            let exact = find_exact_idx(observed, &processed, &d.name);
            match exact {
                Some(i) => {
                    let op = check_label_changes(&observed[i], d);
                    operations.push(op);
                    processed.set(i, true);
                },
                None => {
                    let by_alias = find_alias_idx(observed, &processed, &d.aliases);
                    match by_alias {
                        Some(i) => {
                            operations.push(
                                SyncOperation::Rename {
                                    current_name: observed[i].name.clone(),
                                    new_name: d.name.clone(),
                                    new_label: d.clone(),
                                },
                            );
                            processed.set(i, true);
                        },
                        None => {
                            let by_similarity = find_similar_idx(observed, &processed, &d.name);
                            match by_similarity {
                                Some(i) => {
                                    operations.push(
                                        SyncOperation::Rename {
                                            current_name: observed[i].name.clone(),
                                            new_name: d.name.clone(),
                                            new_label: d.clone(),
                                        },
                                    );
                                    processed.set(i, true);
                                },
                                None => {
                                    operations.push(SyncOperation::Create { label: d.clone() });
                                },
                            }
                        },
                    }
                },
            }
        }
        proof {
            assert(operations.deep_view() =~= ops_before + entry_ops(obs, p_before, dv));
            assert(processed@ == after_entry(obs, p_before, dv));
            assert(ops_from(obs, p_before, des, k as int) == entry_ops(obs, p_before, dv)
                + ops_from(obs, after_entry(obs, p_before, dv), des, k as int + 1));
            assert(operations.deep_view() + ops_from(obs, processed@, des, k as int + 1) =~= (
            ops_before + ops_from(obs, p_before, des, k as int)));
        }
        k = k + 1;
    }
    proof {
        assert(processed@ == processed_from(obs, p0, des, 0));
        assert(operations.deep_view() =~= ops_from(obs, p0, des, 0));
    }
    if !allow_added_labels {
        let ghost pfin = processed@;
        let ghost phase1 = operations.deep_view();
        let mut i: usize = 0;
        while i < observed.len()
            invariant
                i <= observed@.len(),
                obs == observed.deep_view(),
                processed@ == pfin,
                pfin.len() == obs.len(),
                operations.deep_view() + cleanup_from(obs, pfin, i as int) == phase1
                    + cleanup_from(obs, pfin, 0),
            decreases observed@.len() - i,
        {
            let ghost ops_before = operations.deep_view();
            if !processed[i] {
                operations.push(
                    SyncOperation::Delete {
                        name: observed[i].name.clone(),
                        reason: String::from_str("not defined in configuration"),
                    },
                );
            }
            proof {
                assert(cleanup_from(obs, pfin, i as int) == (if !pfin[i as int] {
                    seq![
                        SyncOperationV::Delete {
                            name: obs[i as int].name,
                            reason: "not defined in configuration"@,
                        },
                    ]
                } else {
                    Seq::<SyncOperationV>::empty()
                }) + cleanup_from(obs, pfin, i as int + 1));
                assert(operations.deep_view() + cleanup_from(obs, pfin, i as int + 1) =~= (
                ops_before + cleanup_from(obs, pfin, i as int)));
            }
            i = i + 1;
        }
        proof {
            assert(operations.deep_view() =~= phase1 + cleanup_from(obs, pfin, 0));
        }
    } else {
        proof {
            assert(operations.deep_view() =~= ops_from(obs, p0, des, 0) + Seq::<
                SyncOperationV,
            >::empty());
        }
    }
    operations
}

/// Mathematical content of a [`StoreCall`].
pub ghost enum StoreCallV {
    Create { label: LabelConfigV },
    Delete { name: Seq<char> },
}

/// One mutating call against the label store.
#[derive(Debug, PartialEq)]
pub enum StoreCall {
    /// Create this label in the store.
    Create { label: LabelConfig },
    /// Delete the label of this name from the store.
    Delete { name: String },
}

impl View for StoreCall {
    type V = StoreCallV;

    open spec fn view(&self) -> StoreCallV {
        match self {
            StoreCall::Create { label } => StoreCallV::Create { label: label@ },
            StoreCall::Delete { name } => StoreCallV::Delete { name: name@ },
        }
    }
}

impl DeepView for StoreCall {
    type V = StoreCallV;

    open spec fn deep_view(&self) -> StoreCallV {
        self.view()
    }
}

/// The store calls one operation needs.  A dry run makes none at all.
/// Updates and renames are carried out as a delete of the current name
/// followed by a create of the new label; the pair is not atomic, so a
/// failure between the two loses the label until a later pass recreates
/// it.
pub open spec fn spec_store_calls(op: SyncOperationV, dry_run: bool) -> Seq<StoreCallV> {
    if dry_run {
        Seq::empty()
    } else {
        match op {
            SyncOperationV::Create { label } => seq![StoreCallV::Create { label }],
            SyncOperationV::Update { current_name, new_label, .. } => seq![
                StoreCallV::Delete { name: current_name },
                StoreCallV::Create { label: new_label },
            ],
            SyncOperationV::Rename { current_name, new_label, .. } => seq![
                StoreCallV::Delete { name: current_name },
                StoreCallV::Create { label: new_label },
            ],
            SyncOperationV::Delete { name, .. } => seq![StoreCallV::Delete { name }],
            SyncOperationV::NoChange { .. } => Seq::empty(),
        }
    }
}

/// The mutating store calls that carrying out one operation requires, in
/// order.  With `dry_run` set the list is empty for every operation:
/// a preview never touches the store.
pub fn operation_store_calls(op: &SyncOperation, dry_run: bool) -> (calls: Vec<StoreCall>)
    ensures
        calls.deep_view() == spec_store_calls(op@, dry_run),
{
    let mut calls: Vec<StoreCall> = Vec::new();
    if !dry_run {
        match op {
            SyncOperation::Create { label } => {
                calls.push(StoreCall::Create { label: label.clone() });
            },
            SyncOperation::Update { current_name, new_label, .. } => {
                calls.push(StoreCall::Delete { name: current_name.clone() });
                calls.push(StoreCall::Create { label: new_label.clone() });
            },
            SyncOperation::Rename { current_name, new_label, .. } => {
                calls.push(StoreCall::Delete { name: current_name.clone() });
                calls.push(StoreCall::Create { label: new_label.clone() });
            },
            SyncOperation::Delete { name, .. } => {
                calls.push(StoreCall::Delete { name: name.clone() });
            },
            SyncOperation::NoChange { .. } => {},
        }
    }
    proof {
        assert(calls.deep_view() =~= spec_store_calls(op@, dry_run));
    }
    calls
}

/// The operations that went through: plan entry `j` is kept exactly when
/// outcome `j` reports no failure, independent of every other outcome.
pub open spec fn successful_ops(
    plan: Seq<SyncOperationV>,
    outcomes: Seq<Option<String>>,
) -> Seq<SyncOperationV>
    decreases plan.len(),
{
    if plan.len() == 0 || outcomes.len() == 0 {
        Seq::empty()
    } else {
        successful_ops(plan.drop_last(), outcomes.drop_last()) + (match outcomes.last() {
            None => seq![plan.last()],
            Some(_) => Seq::empty(),
        })
    }
}

/// The messages of the outcomes that report a failure, in order.
pub open spec fn failure_msgs(outcomes: Seq<Option<String>>) -> Seq<Seq<char>>
    decreases outcomes.len(),
{
    if outcomes.len() == 0 {
        Seq::empty()
    } else {
        failure_msgs(outcomes.drop_last()) + (match outcomes.last() {
            Some(m) => seq![m@],
            None => Seq::empty(),
        })
    }
}

/// Account for a whole plan, one outcome per operation, in plan order.
///
/// `outcomes[j]` is `None` when operation `j` went through (on a dry run,
/// every operation does, since nothing is attempted) and holds the error
/// message when its store call failed.  A successful operation is logged
/// and counted; a failed one only adds its message to the error log.  Each
/// entry is accounted from its own outcome alone, so one operation's
/// failure never keeps a later operation from being counted.
pub fn execute_plan(
    plan: &Vec<SyncOperation>,
    outcomes: &Vec<Option<String>>,
    dry_run: bool,
) -> (r: SyncResult)
    requires
        outcomes@.len() == plan@.len(),
        plan@.len() <= u32::MAX,
    ensures
        r.wf(),
        r.operations.deep_view() == successful_ops(plan.deep_view(), outcomes@),
        r.errors.deep_view() == failure_msgs(outcomes@),
        r.dry_run == dry_run,
{
    let mut result = SyncResult::new(dry_run);
    proof {
        assert(result.operations.deep_view() =~= successful_ops(
            plan.deep_view().take(0),
            outcomes@.take(0),
        ));
        assert(result.errors.deep_view() =~= failure_msgs(outcomes@.take(0)));
    }
    let mut j: usize = 0;
    while j < plan.len()
        invariant
            j <= plan@.len(),
            outcomes@.len() == plan@.len(),
            plan@.len() <= u32::MAX,
            result.wf(),
            result.operations.deep_view() == successful_ops(
                plan.deep_view().take(j as int),
                outcomes@.take(j as int),
            ),
            result.errors.deep_view() == failure_msgs(outcomes@.take(j as int)),
            result.dry_run == dry_run,
            result.operations@.len() <= j,
        decreases plan@.len() - j,
    {
        match &outcomes[j] {
            None => {
                result.add_operation(plan[j].clone());
            },
            Some(m) => {
                result.add_error(m.clone());
            },
        }
        proof {
            assert(plan.deep_view().take(j + 1).drop_last() =~= plan.deep_view().take(j as int));
            assert(outcomes@.take(j + 1).drop_last() =~= outcomes@.take(j as int));
            assert(plan.deep_view().take(j + 1).last() == plan.deep_view()[j as int]);
            assert(outcomes@.take(j + 1).last() == outcomes@[j as int]);
        }
        j = j + 1;
    }
    proof {
        assert(plan.deep_view().take(plan@.len() as int) =~= plan.deep_view());
        assert(outcomes@.take(outcomes@.len() as int) =~= outcomes@);
    }
    result
}

} // verus!

//! Laws of the planner and of the plan accounting.
//!
//! Each public proof function here states one guarantee of the
//! reconciliation pass over the specification functions of
//! [`crate::sync`], so that a reader can see the guarantee spelled out
//! rather than having to derive it from the definitions.  The second half
//! of the module models how an applied plan transforms the stored label
//! set ([`apply_plan`]) and proves the pass idempotent: replanning after
//! an applied pass owes nothing but `NoChange`.

use vstd::prelude::*;

use crate::config::LabelConfigV;
use crate::config::norm_color;
use crate::github::GitHubLabelV;
use crate::similarity::score_exceeds_threshold;
use crate::similarity::score_gt;
use crate::sync::StoreCallV;
use crate::sync::SyncOperationV;
use crate::sync::after_entry;
use crate::sync::cleanup_from;
use crate::sync::entry_index;
use crate::sync::entry_ops;
use crate::sync::find_alias;
use crate::sync::find_alias_from;
use crate::sync::find_exact;
use crate::sync::find_from;
use crate::sync::find_similar;
use crate::sync::find_similar_from;
use crate::sync::no_labels_processed;
use crate::sync::ops_from;
use crate::sync::processed_from;
use crate::sync::spec_check_changes;
use crate::sync::spec_plan;
use crate::sync::spec_store_calls;
use crate::sync::successful_ops;

verus! {

/// When no unprocessed observed label at or after `i` bears the name, the
/// scan finds nothing.
proof fn lemma_find_from_none(
    obs: Seq<GitHubLabelV>,
    processed: Seq<bool>,
    name: Seq<char>,
    i: int,
)
    requires
        forall|j: int| i <= j < obs.len() && !processed[j] ==> #[trigger] obs[j].name != name,
    ensures
        find_from(obs, processed, name, i) is None,
    decreases obs.len() - i,
{
    if 0 <= i < obs.len() {
        lemma_find_from_none(obs, processed, name, i + 1);
    }
}

/// When some unprocessed observed label at or after `i` bears the name,
/// the scan returns the first such index.
proof fn lemma_find_from_some(
    obs: Seq<GitHubLabelV>,
    processed: Seq<bool>,
    name: Seq<char>,
    i: int,
    w: int,
)
    requires
        0 <= i <= w < obs.len(),
        !processed[w],
        obs[w].name == name,
    ensures
        find_from(obs, processed, name, i) matches Some(j) && i <= j < obs.len() && !processed[j]
            && obs[j].name == name,
    decreases obs.len() - i,
{
    if 0 <= i < obs.len() {
        if !(!processed[i] && obs[i].name == name) {
            lemma_find_from_some(obs, processed, name, i + 1, w);
        }
    }
}

/// Exact-match precedence: when an unprocessed observed label named
/// exactly `d.name` exists, the desired entry `d` resolves to a field
/// comparison against that label — a `NoChange` or an `Update` — and
/// neither an alias nor a similarity rename can be emitted for it.
pub proof fn lemma_exact_match_precedence(
    obs: Seq<GitHubLabelV>,
    processed: Seq<bool>,
    d: LabelConfigV,
)
    requires
        !d.delete,
        find_exact(obs, processed, d.name) is Some,
    ensures
        entry_index(obs, processed, d) == find_exact(obs, processed, d.name),
        entry_ops(obs, processed, d) == seq![
            spec_check_changes(obs[find_exact(obs, processed, d.name).unwrap()], d),
        ],
        entry_ops(obs, processed, d)[0] is NoChange || entry_ops(obs, processed, d)[0] is Update,
{
}

/// Alias precedence: aliases are consulted in declared order, and the
/// first alias that names an unprocessed observed label decides the
/// match, whatever any later alias would have named.
pub proof fn lemma_alias_precedence(
    obs: Seq<GitHubLabelV>,
    processed: Seq<bool>,
    aliases: Seq<Seq<char>>,
    t: int,
)
    requires
        0 <= t < aliases.len(),
        find_exact(obs, processed, aliases[t]) is Some,
        forall|u: int| 0 <= u < t ==> find_exact(obs, processed, #[trigger] aliases[u]) is None,
    ensures
        find_alias(obs, processed, aliases) == find_exact(obs, processed, aliases[t]),
{
    lemma_alias_precedence_from(obs, processed, aliases, 0, t);
}

proof fn lemma_alias_precedence_from(
    obs: Seq<GitHubLabelV>,
    processed: Seq<bool>,
    aliases: Seq<Seq<char>>,
    k: int,
    t: int,
)
    requires
        0 <= k <= t < aliases.len(),
        find_exact(obs, processed, aliases[t]) is Some,
        forall|u: int| k <= u < t ==> find_exact(obs, processed, #[trigger] aliases[u]) is None,
    ensures
        find_alias_from(obs, processed, aliases, k) == find_exact(obs, processed, aliases[t]),
    decreases t - k,
{
    if k < t {
        lemma_alias_precedence_from(obs, processed, aliases, k + 1, t);
    }
}

/// What the similarity scan's accumulator guarantees: whatever comes out
/// was an unprocessed candidate whose score strictly exceeds the
/// threshold, and when nothing comes out, no unprocessed candidate from
/// position `i` on exceeds it (and neither did the carried one).
proof fn lemma_find_similar_from(
    obs: Seq<GitHubLabelV>,
    processed: Seq<bool>,
    dname: Seq<char>,
    i: int,
    best: Option<int>,
)
    requires
        0 <= i,
        best matches Some(b) ==> 0 <= b < obs.len() && !processed[b] && score_exceeds_threshold(
            obs[b].name,
            dname,
        ),
    ensures
        find_similar_from(obs, processed, dname, i, best) matches Some(r) ==> 0 <= r < obs.len()
            && !processed[r] && score_exceeds_threshold(obs[r].name, dname),
        find_similar_from(obs, processed, dname, i, best) is None ==> (best is None && forall|
            j: int,
        |
            i <= j < obs.len() && !processed[j] ==> !score_exceeds_threshold(
                #[trigger] obs[j].name,
                dname,
            )),
    decreases obs.len() - i,
{
    if 0 <= i < obs.len() {
        let better = !processed[i] && score_exceeds_threshold(obs[i].name, dname) && (match best {
            None => true,
            Some(b) => crate::similarity::score_gt(obs[i].name, obs[b].name, dname),
        });
        let next = if better {
            Some(i)
        } else {
            best
        };
        lemma_find_similar_from(obs, processed, dname, i + 1, next);
        if find_similar_from(obs, processed, dname, i, best) is None {
            assert(find_similar_from(obs, processed, dname, i + 1, next) is None);
            assert(next is None);
            assert(best is None);
            assert(!better);
            assert forall|j: int|
                i <= j < obs.len() && !processed[j] implies !score_exceeds_threshold(
                #[trigger] obs[j].name,
                dname,
            ) by {
                if j > i {
                    assert(!score_exceeds_threshold(obs[j].name, dname));
                } else {
                    assert(j == i);
                }
            }
        }
    }
}

/// Similarity threshold: the similarity rule selects an observed label
/// only when its score strictly exceeds the `7/10` threshold — a score of
/// exactly the threshold never matches — and when it selects nothing, no
/// unprocessed observed label's score exceeds the threshold.
pub proof fn lemma_similarity_threshold(
    obs: Seq<GitHubLabelV>,
    processed: Seq<bool>,
    dname: Seq<char>,
)
    ensures
        find_similar(obs, processed, dname) matches Some(r) ==> 0 <= r < obs.len() && !processed[r]
            && score_exceeds_threshold(obs[r].name, dname),
        find_similar(obs, processed, dname) is None ==> forall|j: int|
            0 <= j < obs.len() && !processed[j] ==> !score_exceeds_threshold(
                #[trigger] obs[j].name,
                dname,
            ),
{
    lemma_find_similar_from(obs, processed, dname, 0, None);
}

/// Ordering fractions with positive denominators by cross-multiplication
/// is transitive.
proof fn lemma_frac_le_trans(n1: int, d1: int, n2: int, d2: int, n3: int, d3: int)
    by (nonlinear_arith)
    requires
        d1 >= 1,
        d2 >= 1,
        d3 >= 1,
        n1 * d2 <= n2 * d1,
        n2 * d3 <= n3 * d2,
    ensures
        n1 * d3 <= n3 * d1,
{
}

/// A fraction at most a second one, which is strictly below a third, is
/// strictly below the third.
proof fn lemma_frac_le_lt_trans(n1: int, d1: int, n2: int, d2: int, n3: int, d3: int)
    by (nonlinear_arith)
    requires
        d1 >= 1,
        d2 >= 1,
        d3 >= 1,
        n1 * d2 <= n2 * d1,
        n2 * d3 < n3 * d2,
    ensures
        n1 * d3 < n3 * d1,
{
}

/// A similarity score's denominator is positive.
proof fn lemma_score_den_pos(o: Seq<char>, d: Seq<char>)
    ensures
        crate::similarity::score_den(o, d) >= 1,
{
    let a = crate::similarity::lower_of(o);
    let b = crate::similarity::lower_of(d);
    if a != b {
        if a.len() == 0 && b.len() == 0 {
            assert(a =~= b);
        }
    }
}

/// The similarity scan's accumulator also keeps a running maximum: nothing
/// scanned so far beats the carried candidate, and the carried candidate
/// strictly beats everything before it.
proof fn lemma_find_similar_max(
    obs: Seq<GitHubLabelV>,
    processed: Seq<bool>,
    dname: Seq<char>,
    i: int,
    best: Option<int>,
)
    requires
        0 <= i,
        best matches Some(b) ==> 0 <= b < i && b < obs.len() && !processed[b]
            && score_exceeds_threshold(obs[b].name, dname),
        best matches Some(b) ==> forall|j: int|
            0 <= j < i && j < obs.len() && !processed[j] && score_exceeds_threshold(
                #[trigger] obs[j].name,
                dname,
            ) ==> (!score_gt(obs[j].name, obs[b].name, dname) && (j < b ==> score_gt(
                obs[b].name,
                obs[j].name,
                dname,
            ))),
        best is None ==> forall|j: int|
            0 <= j < i && j < obs.len() && !processed[j] ==> !score_exceeds_threshold(
                #[trigger] obs[j].name,
                dname,
            ),
    ensures
        find_similar_from(obs, processed, dname, i, best) matches Some(r) ==> (0 <= r < obs.len()
            && !processed[r] && score_exceeds_threshold(obs[r].name, dname) && forall|j: int|
            0 <= j < obs.len() && !processed[j] && score_exceeds_threshold(
                #[trigger] obs[j].name,
                dname,
            ) ==> (!score_gt(obs[j].name, obs[r].name, dname) && (j < r ==> score_gt(
                obs[r].name,
                obs[j].name,
                dname,
            )))),
    decreases obs.len() - i,
{
    if i >= obs.len() {
    } else {
        let better = !processed[i] && score_exceeds_threshold(obs[i].name, dname) && (match best {
            None => true,
            Some(b) => score_gt(obs[i].name, obs[b].name, dname),
        });
        let next = if better {
            Some(i)
        } else {
            best
        };
        if better && best is Some {
            let b = best.unwrap();
            // Everything before `b` was at most `b`'s score, which `i`
            // strictly beats.
            assert forall|j: int|
                0 <= j < i + 1 && j < obs.len() && !processed[j] && score_exceeds_threshold(
                    #[trigger] obs[j].name,
                    dname,
                ) implies (!score_gt(obs[j].name, obs[i].name, dname) && (j < i ==> score_gt(
                obs[i].name,
                obs[j].name,
                dname,
            ))) by {
                lemma_score_den_pos(obs[j].name, dname);
                lemma_score_den_pos(obs[b].name, dname);
                lemma_score_den_pos(obs[i].name, dname);
                if j < i {
                    lemma_frac_le_lt_trans(
                        crate::similarity::score_num(obs[j].name, dname),
                        crate::similarity::score_den(obs[j].name, dname),
                        crate::similarity::score_num(obs[b].name, dname),
                        crate::similarity::score_den(obs[b].name, dname),
                        crate::similarity::score_num(obs[i].name, dname),
                        crate::similarity::score_den(obs[i].name, dname),
                    );
                }
            }
        }
        lemma_find_similar_max(obs, processed, dname, i + 1, next);
    }
}

/// Similarity maximality: the label the similarity rule selects has the
/// best score among all unprocessed observed labels — none scores strictly
/// higher — and it strictly beats every unprocessed label before it, so
/// among equal scores the earliest observed label is the one selected.
pub proof fn lemma_similarity_picks_maximum(
    obs: Seq<GitHubLabelV>,
    processed: Seq<bool>,
    dname: Seq<char>,
)
    ensures
        find_similar(obs, processed, dname) matches Some(r) ==> (0 <= r < obs.len()
            && !processed[r] && score_exceeds_threshold(obs[r].name, dname) && forall|j: int|
            0 <= j < obs.len() && !processed[j] ==> (!score_gt(
                #[trigger] obs[j].name,
                obs[r].name,
                dname,
            ) && (j < r ==> score_gt(obs[r].name, obs[j].name, dname)))),
{
    lemma_find_similar_max(obs, processed, dname, 0, None);
    if find_similar(obs, processed, dname) is Some {
        let r = find_similar(obs, processed, dname).unwrap();
        assert forall|j: int| 0 <= j < obs.len() && !processed[j] implies (!score_gt(
            #[trigger] obs[j].name,
            obs[r].name,
            dname,
        ) && (j < r ==> score_gt(obs[r].name, obs[j].name, dname))) by {
            if !score_exceeds_threshold(obs[j].name, dname) {
                // Below the threshold, a candidate is strictly below the
                // selected score, which exceeds it.
                lemma_score_den_pos(obs[j].name, dname);
                lemma_score_den_pos(obs[r].name, dname);
                lemma_frac_le_lt_trans(
                    crate::similarity::score_num(obs[j].name, dname),
                    crate::similarity::score_den(obs[j].name, dname),
                    crate::similarity::SIMILARITY_THRESHOLD_NUM as int,
                    crate::similarity::SIMILARITY_THRESHOLD_DEN as int,
                    crate::similarity::score_num(obs[r].name, dname),
                    crate::similarity::score_den(obs[r].name, dname),
                );
            }
        }
    }
}

/// Dry-run purity: with the dry-run flag set, no operation asks for any
/// store call.  The operation log, the counters and the error log of an
/// accounted run do not mention the flag at all — `successful_ops` and
/// `failure_msgs` take only the plan and the outcomes — so a preview's
/// books are identical to a real run's with the same outcomes.
pub proof fn lemma_dry_run_purity(op: SyncOperationV)
    ensures
        spec_store_calls(op, true) == Seq::<StoreCallV>::empty(),
{
}

/// Failure isolation: when operation `k` succeeds, it appears in the
/// accounted log between the accounting of the operations before it and
/// after it, whatever the other outcomes were: no other operation's
/// failure can push it out.
pub proof fn lemma_failure_isolation(
    plan: Seq<SyncOperationV>,
    outcomes: Seq<Option<String>>,
    k: int,
)
    requires
        plan.len() == outcomes.len(),
        0 <= k < plan.len(),
        outcomes[k] is None,
    ensures
        successful_ops(plan, outcomes) == successful_ops(plan.take(k), outcomes.take(k)) + seq![
            plan[k],
        ] + successful_ops(plan.skip(k + 1), outcomes.skip(k + 1)),
    decreases plan.len(),
{
    if k == plan.len() - 1 {
        assert(plan.drop_last() =~= plan.take(k));
        assert(outcomes.drop_last() =~= outcomes.take(k));
        assert(plan.skip(k + 1) =~= Seq::<SyncOperationV>::empty());
        assert(outcomes.skip(k + 1) =~= Seq::<Option<String>>::empty());
        assert(successful_ops(plan, outcomes) =~= successful_ops(plan.take(k), outcomes.take(k))
            + seq![plan[k]] + successful_ops(plan.skip(k + 1), outcomes.skip(k + 1)));
    } else {
        lemma_failure_isolation(plan.drop_last(), outcomes.drop_last(), k);
        assert(plan.drop_last().take(k) =~= plan.take(k));
        assert(outcomes.drop_last().take(k) =~= outcomes.take(k));
        assert(plan.drop_last().skip(k + 1) =~= plan.skip(k + 1).drop_last());
        assert(outcomes.drop_last().skip(k + 1) =~= outcomes.skip(k + 1).drop_last());
        assert(plan.skip(k + 1).len() > 0);
        assert(plan.skip(k + 1).last() == plan.last());
        assert(outcomes.skip(k + 1).last() == outcomes.last());
        assert(successful_ops(plan, outcomes) =~= successful_ops(plan.take(k), outcomes.take(k))
            + seq![plan[k]] + successful_ops(plan.skip(k + 1), outcomes.skip(k + 1)));
    }
}

/// A run in which every operation succeeds — as every dry run does — logs
/// exactly the plan, in order, and records no error.
pub proof fn lemma_all_successful(plan: Seq<SyncOperationV>, outcomes: Seq<Option<String>>)
    requires
        plan.len() == outcomes.len(),
        forall|j: int| 0 <= j < outcomes.len() ==> (#[trigger] outcomes[j]) is None,
    ensures
        successful_ops(plan, outcomes) == plan,
        crate::sync::failure_msgs(outcomes) == Seq::<Seq<char>>::empty(),
    decreases plan.len(),
{
    if plan.len() > 0 {
        lemma_all_successful(plan.drop_last(), outcomes.drop_last());
        assert(successful_ops(plan, outcomes) =~= plan);
        assert(crate::sync::failure_msgs(outcomes) =~= Seq::<Seq<char>>::empty());
    } else {
        assert(successful_ops(plan, outcomes) =~= plan);
    }
}

/// The cleanup deletion owed to the observed label at index `j`.
pub open spec fn cleanup_delete(obs: Seq<GitHubLabelV>, j: int) -> SyncOperationV {
    SyncOperationV::Delete { name: obs[j].name, reason: "not defined in configuration"@ }
}

/// How many observed labels from position `i` on are unprocessed.
pub open spec fn count_unprocessed(processed: Seq<bool>, i: int) -> int
    decreases processed.len() - i,
{
    if i < 0 || i >= processed.len() {
        0
    } else {
        (if !processed[i] {
            1int
        } else {
            0int
        }) + count_unprocessed(processed, i + 1)
    }
}

/// Deletion gating, kept side: when added labels are allowed, the plan is
/// the per-entry operations alone — no cleanup deletion is ever appended.
pub proof fn lemma_deletion_gating_kept(obs: Seq<GitHubLabelV>, des: Seq<LabelConfigV>)
    ensures
        spec_plan(obs, des, true) == ops_from(obs, no_labels_processed(obs), des, 0),
{
    assert(spec_plan(obs, des, true) =~= ops_from(obs, no_labels_processed(obs), des, 0));
}

/// Deletion gating, delete side: the cleanup holds exactly one deletion
/// per unprocessed observed label — its length is the number of
/// unprocessed labels, each unprocessed label's deletion appears, and
/// nothing else does.
pub proof fn lemma_deletion_gating_cleanup(
    obs: Seq<GitHubLabelV>,
    processed: Seq<bool>,
    i: int,
)
    requires
        processed.len() == obs.len(),
        0 <= i,
    ensures
        cleanup_from(obs, processed, i).len() == count_unprocessed(processed, i),
        forall|j: int|
            i <= j < obs.len() && !processed[j] ==> cleanup_from(obs, processed, i).contains(
                #[trigger] cleanup_delete(obs, j),
            ),
        forall|t: int|
            0 <= t < cleanup_from(obs, processed, i).len() ==> exists|j: int|
                i <= j < obs.len() && !processed[j] && #[trigger] cleanup_from(
                    obs,
                    processed,
                    i,
                )[t] == cleanup_delete(obs, j),
    decreases obs.len() - i,
{
    if i < obs.len() {
        lemma_deletion_gating_cleanup(obs, processed, i + 1);
        let c = cleanup_from(obs, processed, i);
        let head: Seq<SyncOperationV> = if !processed[i] {
            seq![cleanup_delete(obs, i)]
        } else {
            Seq::empty()
        };
        let tail = cleanup_from(obs, processed, i + 1);
        assert(c == head + tail);
        assert forall|j: int| i <= j < obs.len() && !processed[j] implies c.contains(
            #[trigger] cleanup_delete(obs, j),
        ) by {
            if j == i {
                assert(c[0] == cleanup_delete(obs, i));
            } else {
                assert(tail.contains(cleanup_delete(obs, j)));
                let t = choose|t: int| 0 <= t < tail.len() && tail[t] == cleanup_delete(obs, j);
                assert(c[head.len() + t] == cleanup_delete(obs, j));
            }
        }
        assert forall|t: int| 0 <= t < c.len() implies exists|j: int|
            i <= j < obs.len() && !processed[j] && #[trigger] c[t] == cleanup_delete(obs, j) by {
            if t < head.len() {
                assert(c[t] == cleanup_delete(obs, i));
                assert(i <= i < obs.len() && !processed[i] && c[t] == cleanup_delete(obs, i));
            } else {
                assert(c[t] == tail[t - head.len()]);
                let j = choose|j: int|
                    i + 1 <= j < obs.len() && !processed[j] && tail[t - head.len()]
                        == cleanup_delete(obs, j);
                assert(i <= j < obs.len() && !processed[j] && c[t] == cleanup_delete(obs, j));
            }
        }
    }
}

/// An observed label already realizes a desired one: it bears its name,
/// its normalized color, and its description.
pub open spec fn realizes(o: GitHubLabelV, d: LabelConfigV) -> bool {
    o.name == d.name && norm_color(o.color) == norm_color(d.color) && o.description
        == d.description
}

/// Desired names are pairwise distinct.
pub open spec fn distinct_desired_names(des: Seq<LabelConfigV>) -> bool {
    forall|a: int, b: int|
        0 <= a < b < des.len() ==> #[trigger] des[a].name != #[trigger] des[b].name
}

/// Observed names are pairwise distinct, as they are in a name-keyed
/// snapshot.
pub open spec fn distinct_observed_names(obs: Seq<GitHubLabelV>) -> bool {
    forall|a: int, b: int|
        0 <= a < b < obs.len() ==> #[trigger] obs[a].name != #[trigger] obs[b].name
}

/// The operations an already-reconciled pass owes: one `NoChange` per
/// desired entry not marked for deletion, in desired order, and nothing
/// else.
pub open spec fn nochange_ops(des: Seq<LabelConfigV>, k: int) -> Seq<SyncOperationV>
    decreases des.len() - k,
{
    if k < 0 || k >= des.len() {
        Seq::empty()
    } else {
        (if des[k].delete {
            Seq::empty()
        } else {
            seq![SyncOperationV::NoChange { name: des[k].name }]
        }) + nochange_ops(des, k + 1)
    }
}

/// The inductive heart of idempotence: while every remaining non-deletion
/// entry still has an unprocessed observed label realizing it, and no
/// remaining deletion name survives unprocessed, the pass emits only
/// `NoChange`, and whatever ends up unprocessed matches no remaining
/// non-deletion name.
proof fn lemma_idempotent_from(
    obs: Seq<GitHubLabelV>,
    processed: Seq<bool>,
    des: Seq<LabelConfigV>,
    k: int,
)
    requires
        processed.len() == obs.len(),
        0 <= k <= des.len(),
        distinct_observed_names(obs),
        distinct_desired_names(des),
        forall|l: int|
            k <= l < des.len() && !(#[trigger] des[l]).delete ==> exists|i: int|
                0 <= i < obs.len() && !processed[i] && realizes(#[trigger] obs[i], des[l]),
        forall|l: int, i: int|
            k <= l < des.len() && (#[trigger] des[l]).delete && 0 <= i < obs.len()
                && !processed[i] ==> (#[trigger] obs[i]).name != des[l].name,
    ensures
        ops_from(obs, processed, des, k) == nochange_ops(des, k),
        forall|i: int|
            0 <= i < obs.len() && !(#[trigger] processed_from(obs, processed, des, k)[i]) ==> (
            !processed[i] && forall|l: int|
                k <= l < des.len() && !(#[trigger] des[l]).delete ==> obs[i].name != des[l].name),
        processed_from(obs, processed, des, k).len() == obs.len(),
    decreases des.len() - k,
{
    if k < des.len() {
        let d = des[k];
        if d.delete {
            lemma_find_from_none(obs, processed, d.name, 0);
            assert(find_exact(obs, processed, d.name) is None);
            assert(entry_ops(obs, processed, d) =~= Seq::<SyncOperationV>::empty());
            assert(after_entry(obs, processed, d) == processed);
            lemma_idempotent_from(obs, processed, des, k + 1);
            assert(ops_from(obs, processed, des, k) =~= nochange_ops(des, k));
        } else {
            let i = choose|i: int|
                0 <= i < obs.len() && !processed[i] && realizes(#[trigger] obs[i], d);
            lemma_find_from_some(obs, processed, d.name, 0, i);
            let j = find_exact(obs, processed, d.name).unwrap();
            assert(obs[j].name == d.name && obs[i].name == d.name);
            assert(j == i);
            assert(spec_check_changes(obs[i], d) == SyncOperationV::NoChange { name: d.name });
            assert(entry_ops(obs, processed, d) =~= seq![
                SyncOperationV::NoChange { name: d.name },
            ]);
            let p2 = processed.update(i, true);
            assert(after_entry(obs, processed, d) == p2);
            assert forall|l: int|
                k + 1 <= l < des.len() && !(#[trigger] des[l]).delete implies exists|w: int|
                0 <= w < obs.len() && !p2[w] && realizes(#[trigger] obs[w], des[l]) by {
                let w = choose|w: int|
                    0 <= w < obs.len() && !processed[w] && realizes(#[trigger] obs[w], des[l]);
                assert(des[l].name != d.name);
                assert(obs[w].name == des[l].name);
                assert(w != i);
                assert(0 <= w < obs.len() && !p2[w] && realizes(obs[w], des[l]));
            }
            lemma_idempotent_from(obs, p2, des, k + 1);
            assert(ops_from(obs, processed, des, k) =~= nochange_ops(des, k));
            assert forall|w: int|
                0 <= w < obs.len() && !(#[trigger] processed_from(obs, processed, des, k)[w])
                implies (!processed[w] && forall|l: int|
                k <= l < des.len() && !(#[trigger] des[l]).delete ==> obs[w].name != des[l].name)
                by {
                assert(processed_from(obs, processed, des, k) == processed_from(
                    obs,
                    p2,
                    des,
                    k + 1,
                ));
                assert(!p2[w]);
                assert(w != i);
                assert(!processed[w]);
                assert forall|l: int|
                    k <= l < des.len() && !(#[trigger] des[l]).delete implies obs[w].name
                    != des[l].name by {
                    if l == k {
                        if obs[w].name == d.name {
                            assert(obs[i].name == d.name);
                            assert(w == i);
                        }
                    }
                }
            }
        }
    }
}

/// Idempotence: planning against an observed set that already realizes the
/// desired list — every non-deletion entry has its exact, clean
/// counterpart and no deletion-marked name is present — yields a
/// `NoChange` for every non-deletion entry, in order, and nothing else
/// from the per-entry phase.
pub proof fn lemma_plan_idempotent(obs: Seq<GitHubLabelV>, des: Seq<LabelConfigV>)
    requires
        distinct_observed_names(obs),
        distinct_desired_names(des),
        forall|l: int|
            0 <= l < des.len() && !(#[trigger] des[l]).delete ==> exists|i: int|
                0 <= i < obs.len() && realizes(#[trigger] obs[i], des[l]),
        forall|l: int, i: int|
            0 <= l < des.len() && (#[trigger] des[l]).delete && 0 <= i < obs.len() ==> (
            #[trigger] obs[i]).name != des[l].name,
    ensures
        ops_from(obs, no_labels_processed(obs), des, 0) == nochange_ops(des, 0),
        spec_plan(obs, des, true) == nochange_ops(des, 0),
{
    let p0 = no_labels_processed(obs);
    assert forall|l: int|
        0 <= l < des.len() && !(#[trigger] des[l]).delete implies exists|i: int|
        0 <= i < obs.len() && !p0[i] && realizes(#[trigger] obs[i], des[l]) by {
        let i = choose|i: int| 0 <= i < obs.len() && realizes(#[trigger] obs[i], des[l]);
        assert(0 <= i < obs.len() && !p0[i] && realizes(obs[i], des[l]));
    }
    lemma_idempotent_from(obs, p0, des, 0);
    assert(spec_plan(obs, des, true) =~= ops_from(obs, p0, des, 0));
}

/// Idempotence with deletion gating: when additionally every observed
/// label is named by some non-deletion desired entry, the cleanup finds
/// nothing unprocessed, and the whole plan — even with added labels
/// disallowed — is exactly the `NoChange` sequence.
pub proof fn lemma_plan_idempotent_full(obs: Seq<GitHubLabelV>, des: Seq<LabelConfigV>)
    requires
        distinct_observed_names(obs),
        distinct_desired_names(des),
        forall|l: int|
            0 <= l < des.len() && !(#[trigger] des[l]).delete ==> exists|i: int|
                0 <= i < obs.len() && realizes(#[trigger] obs[i], des[l]),
        forall|l: int, i: int|
            0 <= l < des.len() && (#[trigger] des[l]).delete && 0 <= i < obs.len() ==> (
            #[trigger] obs[i]).name != des[l].name,
        forall|i: int|
            0 <= i < obs.len() ==> exists|l: int|
                0 <= l < des.len() && !des[l].delete && (#[trigger] obs[i]).name == des[l].name,
    ensures
        spec_plan(obs, des, false) == nochange_ops(des, 0),
{
    let p0 = no_labels_processed(obs);
    assert forall|l: int|
        0 <= l < des.len() && !(#[trigger] des[l]).delete implies exists|i: int|
        0 <= i < obs.len() && !p0[i] && realizes(#[trigger] obs[i], des[l]) by {
        let i = choose|i: int| 0 <= i < obs.len() && realizes(#[trigger] obs[i], des[l]);
        assert(0 <= i < obs.len() && !p0[i] && realizes(obs[i], des[l]));
    }
    lemma_idempotent_from(obs, p0, des, 0);
    let pf = processed_from(obs, p0, des, 0);
    assert forall|i: int| 0 <= i < obs.len() implies pf[i] by {
        if !pf[i] {
            let l = choose|l: int|
                0 <= l < des.len() && !des[l].delete && (#[trigger] obs[i]).name == des[l].name;
            assert(obs[i].name != des[l].name);
        }
    }
    lemma_cleanup_all_processed(obs, pf, 0);
    assert(spec_plan(obs, des, false) =~= ops_from(obs, p0, des, 0));
}

/// Lowercasing an already ASCII-lowercased character changes nothing.
proof fn lemma_ascii_lower_char_fixpoint(c: char)
    ensures
        crate::config::ascii_lower_char(crate::config::ascii_lower_char(c))
            == crate::config::ascii_lower_char(c),
{
}

/// An ASCII-lowercased character is `#` only when the character was.
proof fn lemma_ascii_lower_char_hash(c: char)
    ensures
        (crate::config::ascii_lower_char(c) == '#') == (c == '#'),
{
    let v = c as u32;
    if ('A' as u32) <= v && v <= ('Z' as u32) {
        let r = ((v + 32) as u8) as char;
        assert(r as u32 == v + 32);
        assert(r != '#');
    }
}

/// Stripping leading hashes leaves nothing, or a head that is not `#`.
proof fn lemma_strip_hashes_no_leading(s: Seq<char>)
    ensures
        crate::config::strip_hashes(s).len() == 0 || crate::config::strip_hashes(s)[0] != '#',
    decreases s.len(),
{
    if s.len() > 0 && s[0] == '#' {
        lemma_strip_hashes_no_leading(s.drop_first());
    }
}

/// Normalizing a color twice is the same as normalizing it once.
pub proof fn lemma_norm_color_idempotent(s: Seq<char>)
    ensures
        norm_color(norm_color(s)) == norm_color(s),
{
    let y = crate::config::strip_hashes(s);
    let n = crate::config::ascii_lower(y);
    lemma_strip_hashes_no_leading(s);
    if n.len() > 0 {
        lemma_ascii_lower_char_hash(y[0]);
        assert(n[0] != '#');
    }
    assert(crate::config::strip_hashes(n) == n);
    assert forall|i: int| 0 <= i < n.len() implies crate::config::ascii_lower_char(#[trigger] n[i])
        == n[i] by {
        lemma_ascii_lower_char_fixpoint(y[i]);
    }
    assert(crate::config::ascii_lower(n) =~= n);
}

/// The stored label one desired entry leaves behind: its name, its
/// normalized color, its description.  The remaining fields do not bear on
/// reconciliation and are fixed arbitrarily.
pub open spec fn realization(d: LabelConfigV) -> GitHubLabelV {
    GitHubLabelV {
        id: 0,
        name: d.name,
        color: norm_color(d.color),
        description: d.description,
        default: false,
        url: Seq::empty(),
    }
}

/// All observed labels but those of the given name.
pub open spec fn remove_by_name(obs: Seq<GitHubLabelV>, name: Seq<char>) -> Seq<GitHubLabelV> {
    obs.filter(|o: GitHubLabelV| o.name != name)
}

/// How one applied operation transforms the stored label set: creates push
/// the new label's realization, updates and renames replace the current
/// name by the new label's realization, deletions remove the name, and a
/// `NoChange` leaves the set alone.
pub open spec fn apply_op(state: Seq<GitHubLabelV>, op: SyncOperationV) -> Seq<GitHubLabelV> {
    match op {
        SyncOperationV::Create { label } => state.push(realization(label)),
        SyncOperationV::Update { current_name, new_label, .. } => remove_by_name(
            state,
            current_name,
        ).push(realization(new_label)),
        SyncOperationV::Rename { current_name, new_label, .. } => remove_by_name(
            state,
            current_name,
        ).push(realization(new_label)),
        SyncOperationV::Delete { name, .. } => remove_by_name(state, name),
        SyncOperationV::NoChange { .. } => state,
    }
}

/// The stored label set after a whole plan is applied, operation by
/// operation, in plan order.
pub open spec fn apply_plan(state: Seq<GitHubLabelV>, ops: Seq<SyncOperationV>) -> Seq<
    GitHubLabelV,
>
    decreases ops.len(),
{
    if ops.len() == 0 {
        state
    } else {
        apply_plan(apply_op(state, ops[0]), ops.drop_first())
    }
}

/// The creations a plan over an empty repository owes: one `Create` per
/// desired entry not marked for deletion, in order.
pub open spec fn create_ops(des: Seq<LabelConfigV>, k: int) -> Seq<SyncOperationV>
    decreases des.len() - k,
{
    if k < 0 || k >= des.len() {
        Seq::empty()
    } else {
        (if des[k].delete {
            Seq::empty()
        } else {
            seq![SyncOperationV::Create { label: des[k] }]
        }) + create_ops(des, k + 1)
    }
}

/// The labels those creations leave in the repository, in order.
pub open spec fn created_set(des: Seq<LabelConfigV>, k: int) -> Seq<GitHubLabelV>
    decreases des.len() - k,
{
    if k < 0 || k >= des.len() {
        Seq::empty()
    } else {
        (if des[k].delete {
            Seq::empty()
        } else {
            seq![realization(des[k])]
        }) + created_set(des, k + 1)
    }
}

/// Against an empty repository, no matching rule fires: find-by-name finds
/// nothing among the aliases either.
proof fn lemma_find_alias_empty(processed: Seq<bool>, aliases: Seq<Seq<char>>, k: int)
    requires
        0 <= k,
    ensures
        find_alias_from(Seq::empty(), processed, aliases, k) is None,
    decreases aliases.len() - k,
{
    if k < aliases.len() {
        lemma_find_alias_empty(processed, aliases, k + 1);
    }
}

/// A plan over an empty repository creates every desired entry not marked
/// for deletion, in order, and does nothing else.
pub proof fn lemma_plan_on_empty(des: Seq<LabelConfigV>, allow_added: bool)
    ensures
        spec_plan(Seq::empty(), des, allow_added) == create_ops(des, 0),
{
    lemma_plan_on_empty_from(des, 0);
    let p0 = no_labels_processed(Seq::empty());
    assert(cleanup_from(Seq::empty(), processed_from(Seq::empty(), p0, des, 0), 0) =~= Seq::<
        SyncOperationV,
    >::empty());
    assert(spec_plan(Seq::empty(), des, allow_added) =~= ops_from(Seq::empty(), p0, des, 0));
}

proof fn lemma_plan_on_empty_from(des: Seq<LabelConfigV>, k: int)
    requires
        0 <= k,
    ensures
        ops_from(Seq::empty(), no_labels_processed(Seq::empty()), des, k) == create_ops(des, k),
    decreases des.len() - k,
{
    let obs: Seq<GitHubLabelV> = Seq::empty();
    let p0 = no_labels_processed(obs);
    if k < des.len() {
        let d = des[k];
        assert(find_exact(obs, p0, d.name) is None);
        if !d.delete {
            lemma_find_alias_empty(p0, d.aliases, 0);
        }
        assert(after_entry(obs, p0, d) == p0);
        lemma_plan_on_empty_from(des, k + 1);
        assert(ops_from(obs, p0, des, k) =~= create_ops(des, k));
    }
}

/// Applying the creations of an empty-repository plan to the empty
/// repository leaves exactly the created labels, in order.
proof fn lemma_apply_creates(state: Seq<GitHubLabelV>, des: Seq<LabelConfigV>, k: int)
    requires
        0 <= k,
    ensures
        apply_plan(state, create_ops(des, k)) == state + created_set(des, k),
    decreases des.len() - k,
{
    if k >= des.len() {
        assert(apply_plan(state, create_ops(des, k)) =~= state + created_set(des, k));
    } else {
        let d = des[k];
        if d.delete {
            lemma_apply_creates(state, des, k + 1);
            assert(create_ops(des, k) =~= create_ops(des, k + 1));
            assert(created_set(des, k) =~= created_set(des, k + 1));
        } else {
            let ops = create_ops(des, k);
            assert(ops[0] == SyncOperationV::Create { label: d });
            assert(ops.drop_first() =~= create_ops(des, k + 1));
            let state2 = state.push(realization(d));
            lemma_apply_creates(state2, des, k + 1);
            assert(state2 + created_set(des, k + 1) =~= state + created_set(des, k));
        }
    }
}

/// Every created label is the realization of a remaining non-deletion
/// entry, and every remaining non-deletion entry's realization is there.
proof fn lemma_created_set_facts(des: Seq<LabelConfigV>, k: int)
    requires
        0 <= k,
    ensures
        forall|t: int|
            0 <= t < created_set(des, k).len() ==> exists|l: int|
                k <= l < des.len() && !des[l].delete && #[trigger] created_set(des, k)[t]
                    == realization(des[l]),
        forall|l: int|
            k <= l < des.len() && !(#[trigger] des[l]).delete ==> exists|t: int|
                0 <= t < created_set(des, k).len() && created_set(des, k)[t] == realization(
                    des[l],
                ),
    decreases des.len() - k,
{
    if k < des.len() {
        lemma_created_set_facts(des, k + 1);
        let c = created_set(des, k);
        let head: Seq<GitHubLabelV> = if des[k].delete {
            Seq::empty()
        } else {
            seq![realization(des[k])]
        };
        let rest = created_set(des, k + 1);
        assert(c == head + rest);
        assert forall|t: int| 0 <= t < c.len() implies exists|l: int|
            k <= l < des.len() && !des[l].delete && #[trigger] c[t] == realization(des[l]) by {
            if t < head.len() {
                assert(c[t] == realization(des[k]));
                assert(k <= k < des.len() && !des[k].delete && c[t] == realization(des[k]));
            } else {
                assert(c[t] == rest[t - head.len()]);
                let l = choose|l: int|
                    k + 1 <= l < des.len() && !des[l].delete && rest[t - head.len()]
                        == realization(des[l]);
                assert(k <= l < des.len() && !des[l].delete && c[t] == realization(des[l]));
            }
        }
        assert forall|l: int|
            k <= l < des.len() && !(#[trigger] des[l]).delete implies exists|t: int|
            0 <= t < c.len() && c[t] == realization(des[l]) by {
            if l == k {
                assert(c[0] == realization(des[k]));
            } else {
                let t = choose|t: int|
                    0 <= t < rest.len() && rest[t] == realization(#[trigger] des[l]);
                assert(c[head.len() + t] == realization(des[l]));
            }
        }
    }
}

/// Distinct desired names make the created names pairwise distinct.
proof fn lemma_created_distinct(des: Seq<LabelConfigV>)
    requires
        distinct_desired_names(des),
    ensures
        distinct_observed_names(created_set(des, 0)),
{
    let obs = created_set(des, 0);
    assert forall|a: int, b: int| 0 <= a < b < obs.len() implies #[trigger] obs[a].name
        != #[trigger] obs[b].name by {
        lemma_created_positions_ordered(des, 0, a, b);
    }
}

/// Each non-deletion entry finds its created label, which realizes it.
proof fn lemma_created_realizes(des: Seq<LabelConfigV>)
    ensures
        forall|l: int|
            0 <= l < des.len() && !(#[trigger] des[l]).delete ==> exists|i: int|
                0 <= i < created_set(des, 0).len() && realizes(
                    #[trigger] created_set(des, 0)[i],
                    des[l],
                ),
{
    let obs = created_set(des, 0);
    lemma_created_set_facts(des, 0);
    assert forall|l: int|
        0 <= l < des.len() && !(#[trigger] des[l]).delete implies exists|i: int|
        0 <= i < obs.len() && realizes(#[trigger] obs[i], des[l]) by {
        let t = choose|t: int| 0 <= t < obs.len() && obs[t] == realization(#[trigger] des[l]);
        lemma_norm_color_idempotent(des[l].color);
        assert(realizes(obs[t], des[l]));
    }
}

/// Every created name belongs to some non-deletion entry; in particular no
/// deletion-marked name is among them.
proof fn lemma_created_names(des: Seq<LabelConfigV>)
    requires
        distinct_desired_names(des),
    ensures
        forall|i: int|
            0 <= i < created_set(des, 0).len() ==> exists|l: int|
                0 <= l < des.len() && !des[l].delete && (#[trigger] created_set(des, 0)[i]).name
                    == des[l].name,
        forall|l: int, i: int|
            0 <= l < des.len() && (#[trigger] des[l]).delete && 0 <= i < created_set(
                des,
                0,
            ).len() ==> (#[trigger] created_set(des, 0)[i]).name != des[l].name,
{
    let obs = created_set(des, 0);
    lemma_created_set_facts(des, 0);
    assert forall|i: int| 0 <= i < obs.len() implies exists|l: int|
        0 <= l < des.len() && !des[l].delete && (#[trigger] obs[i]).name == des[l].name by {
        let w = choose|w: int| 0 <= w < des.len() && !des[w].delete && obs[i] == realization(
            des[w],
        );
        assert(obs[i].name == des[w].name);
    }
    assert forall|l: int, i: int|
        0 <= l < des.len() && (#[trigger] des[l]).delete && 0 <= i < obs.len() implies (
    #[trigger] obs[i]).name != des[l].name by {
        let w = choose|w: int| 0 <= w < des.len() && !des[w].delete && obs[i] == realization(
            des[w],
        );
        assert(obs[i].name == des[w].name);
        assert(w != l);
    }
}

/// Setting up a repository from nothing and immediately reconciling again
/// changes nothing: the plan over the empty repository creates each
/// non-deletion entry; applied, those creations leave exactly the desired
/// labels; and a second plan against that store is one `NoChange` per
/// non-deletion entry and nothing more.
pub proof fn lemma_first_run_then_replan(des: Seq<LabelConfigV>, allow_added: bool)
    requires
        distinct_desired_names(des),
    ensures
        spec_plan(Seq::empty(), des, allow_added) == create_ops(des, 0),
        apply_plan(Seq::empty(), spec_plan(Seq::empty(), des, allow_added)) == created_set(des, 0),
        spec_plan(created_set(des, 0), des, allow_added) == nochange_ops(des, 0),
{
    lemma_plan_on_empty(des, allow_added);
    lemma_apply_creates(Seq::empty(), des, 0);
    assert(Seq::empty() + created_set(des, 0) =~= created_set(des, 0));
    let obs = created_set(des, 0);
    lemma_created_distinct(des);
    lemma_created_realizes(des);
    lemma_created_names(des);
    lemma_plan_idempotent(obs, des);
    if !allow_added {
        lemma_plan_idempotent_full(obs, des);
    } else {
        assert(spec_plan(obs, des, true) =~= ops_from(obs, no_labels_processed(obs), des, 0));
    }
}

/// Two distinct positions of the created set realize two distinct desired
/// entries, so with distinct desired names their names differ.
proof fn lemma_created_positions_ordered(des: Seq<LabelConfigV>, k: int, a: int, b: int)
    requires
        0 <= k,
        distinct_desired_names(des),
        0 <= a < b < created_set(des, k).len(),
    ensures
        created_set(des, k)[a].name != created_set(des, k)[b].name,
    decreases des.len() - k,
{
    if k < des.len() {
        let c = created_set(des, k);
        let head: Seq<GitHubLabelV> = if des[k].delete {
            Seq::empty()
        } else {
            seq![realization(des[k])]
        };
        let rest = created_set(des, k + 1);
        assert(c == head + rest);
        if a >= head.len() {
            lemma_created_positions_ordered(des, k + 1, a - head.len(), b - head.len());
            assert(c[a] == rest[a - head.len()]);
            assert(c[b] == rest[b - head.len()]);
        } else {
            // `a` is the head: its name is `des[k].name`, while `b` sits in
            // the rest, which realizes later entries with other names.
            lemma_created_set_facts(des, k + 1);
            assert(c[b] == rest[b - head.len()]);
            let l = choose|l: int|
                k + 1 <= l < des.len() && !des[l].delete && rest[b - head.len()] == realization(
                    des[l],
                );
            assert(c[a].name == des[k].name);
            assert(c[b].name == des[l].name);
        }
    }
}

/// The observed labels still present in the store, scanning from `j`:
/// those whose index is still marked kept, in observed order.
spec fn kept_part(obs: Seq<GitHubLabelV>, keep: Seq<bool>, j: int) -> Seq<GitHubLabelV>
    decreases obs.len() - j,
{
    if j < 0 || j >= obs.len() {
        Seq::empty()
    } else {
        (if keep[j] {
            seq![obs[j]]
        } else {
            Seq::empty()
        }) + kept_part(obs, keep, j + 1)
    }
}

/// Removing a name that no element bears changes nothing.
proof fn lemma_remove_absent(s: Seq<GitHubLabelV>, name: Seq<char>)
    requires
        forall|t: int| 0 <= t < s.len() ==> (#[trigger] s[t]).name != name,
    ensures
        remove_by_name(s, name) == s,
    decreases s.len(),
{
    reveal(Seq::filter);
    if s.len() > 0 {
        lemma_remove_absent(s.drop_last(), name);
        assert(remove_by_name(s, name) =~= s);
    } else {
        assert(remove_by_name(s, name) =~= s);
    }
}

/// Removal distributes over concatenation.
proof fn lemma_remove_concat(s1: Seq<GitHubLabelV>, s2: Seq<GitHubLabelV>, name: Seq<char>)
    ensures
        remove_by_name(s1 + s2, name) == remove_by_name(s1, name) + remove_by_name(s2, name),
    decreases s2.len(),
{
    reveal(Seq::filter);
    if s2.len() == 0 {
        assert(s1 + s2 =~= s1);
        assert(remove_by_name(s1 + s2, name) =~= remove_by_name(s1, name) + remove_by_name(
            s2,
            name,
        ));
    } else {
        lemma_remove_concat(s1, s2.drop_last(), name);
        assert((s1 + s2).drop_last() =~= s1 + s2.drop_last());
        assert((s1 + s2).last() == s2.last());
        assert(remove_by_name(s1 + s2, name) =~= remove_by_name(s1, name) + remove_by_name(
            s2,
            name,
        ));
    }
}

/// The kept part reads only the marks from `j` on.
proof fn lemma_kept_part_agree(obs: Seq<GitHubLabelV>, k1: Seq<bool>, k2: Seq<bool>, j: int)
    requires
        forall|t: int| j <= t < obs.len() ==> k1[t] == k2[t],
    ensures
        kept_part(obs, k1, j) == kept_part(obs, k2, j),
    decreases obs.len() - j,
{
    if 0 <= j < obs.len() {
        lemma_kept_part_agree(obs, k1, k2, j + 1);
        assert(kept_part(obs, k1, j) =~= kept_part(obs, k2, j));
    }
}

/// Every element of the kept part is a kept observed label from `j` on.
proof fn lemma_kept_part_origin(obs: Seq<GitHubLabelV>, keep: Seq<bool>, j: int, p: int)
    requires
        0 <= p < kept_part(obs, keep, j).len(),
    ensures
        exists|t: int|
            #![auto]
            j <= t < obs.len() && keep[t] && kept_part(obs, keep, j)[p] == obs[t],
    decreases obs.len() - j,
{
    if 0 <= j < obs.len() {
        let c = kept_part(obs, keep, j);
        let head: Seq<GitHubLabelV> = if keep[j] {
            seq![obs[j]]
        } else {
            Seq::empty()
        };
        let rest = kept_part(obs, keep, j + 1);
        if p < head.len() {
            assert(j <= j < obs.len() && keep[j] && c[p] == obs[j]);
        } else {
            assert(c[p] == rest[p - head.len()]);
            lemma_kept_part_origin(obs, keep, j + 1, p - head.len());
            let t = choose|t: int|
                #![auto]
                j + 1 <= t < obs.len() && keep[t] && rest[p - head.len()] == obs[t];
            assert(j <= t < obs.len() && keep[t] && c[p] == obs[t]);
        }
    }
}

/// Every kept observed label from `j` on appears in the kept part.
proof fn lemma_kept_part_member(obs: Seq<GitHubLabelV>, keep: Seq<bool>, j: int, t: int)
    requires
        0 <= j <= t < obs.len(),
        keep[t],
    ensures
        exists|p: int|
            0 <= p < kept_part(obs, keep, j).len() && #[trigger] kept_part(obs, keep, j)[p]
                == obs[t],
    decreases obs.len() - j,
{
    let c = kept_part(obs, keep, j);
    let head: Seq<GitHubLabelV> = if keep[j] {
        seq![obs[j]]
    } else {
        Seq::empty()
    };
    let rest = kept_part(obs, keep, j + 1);
    if t == j {
        assert(c[0] == obs[t]);
    } else {
        lemma_kept_part_member(obs, keep, j + 1, t);
        let p = choose|p: int| 0 <= p < rest.len() && rest[p] == obs[t];
        assert(c[head.len() + p] == obs[t]);
    }
}

/// Removing a kept label's name from the kept part is the same as marking
/// that one label not kept, provided observed names are distinct.
proof fn lemma_remove_kept(obs: Seq<GitHubLabelV>, keep: Seq<bool>, i: int, j: int)
    requires
        distinct_observed_names(obs),
        keep.len() == obs.len(),
        0 <= j <= i < obs.len(),
        keep[i],
    ensures
        remove_by_name(kept_part(obs, keep, j), obs[i].name) == kept_part(
            obs,
            keep.update(i, false),
            j,
        ),
    decreases obs.len() - j,
{
    let name = obs[i].name;
    let keep2 = keep.update(i, false);
    let head: Seq<GitHubLabelV> = if keep[j] {
        seq![obs[j]]
    } else {
        Seq::empty()
    };
    let rest = kept_part(obs, keep, j + 1);
    assert(kept_part(obs, keep, j) == head + rest);
    lemma_remove_concat(head, rest, name);
    if j == i {
        // The head is the one label being removed; the rest bears other
        // names only.
        assert(head == seq![obs[i]]);
        reveal(Seq::filter);
        assert(seq![obs[i]].drop_last() =~= Seq::<GitHubLabelV>::empty());
        assert(remove_by_name(Seq::<GitHubLabelV>::empty(), name) =~= Seq::<GitHubLabelV>::empty());
        assert(remove_by_name(head, name) =~= Seq::<GitHubLabelV>::empty());
        assert forall|t: int| 0 <= t < rest.len() implies (#[trigger] rest[t]).name != name by {
            lemma_kept_part_origin(obs, keep, j + 1, t);
            let w = choose|w: int|
                #![auto]
                j + 1 <= w < obs.len() && keep[w] && rest[t] == obs[w];
            assert(obs[w].name != obs[i].name);
        }
        lemma_remove_absent(rest, name);
        lemma_kept_part_agree(obs, keep, keep2, j + 1);
        assert(remove_by_name(kept_part(obs, keep, j), name) =~= kept_part(obs, keep2, j));
    } else {
        assert(obs[j].name != obs[i].name);
        lemma_remove_absent(head, name);
        lemma_remove_kept(obs, keep, i, j + 1);
        assert(remove_by_name(kept_part(obs, keep, j), name) =~= kept_part(obs, keep2, j));
    }
}

/// With every label kept, the kept part from `j` is the tail of the
/// observed snapshot.
proof fn lemma_kept_part_all(obs: Seq<GitHubLabelV>, keep: Seq<bool>, j: int)
    requires
        keep.len() == obs.len(),
        forall|t: int| 0 <= t < obs.len() ==> #[trigger] keep[t],
        0 <= j <= obs.len(),
    ensures
        kept_part(obs, keep, j) == obs.skip(j),
    decreases obs.len() - j,
{
    if j < obs.len() {
        lemma_kept_part_all(obs, keep, j + 1);
        assert(kept_part(obs, keep, j) =~= obs.skip(j));
    } else {
        assert(kept_part(obs, keep, j) =~= obs.skip(j));
    }
}

/// Applying one operation is applying its one-element plan.
proof fn lemma_apply_one(state: Seq<GitHubLabelV>, op: SyncOperationV)
    ensures
        apply_plan(state, seq![op]) == apply_op(state, op),
{
    assert(seq![op].drop_first() =~= Seq::<SyncOperationV>::empty());
    assert(apply_plan(apply_op(state, op), Seq::<SyncOperationV>::empty()) == apply_op(state, op));
}

/// Application runs a concatenated plan front part first.
proof fn lemma_apply_concat(state: Seq<GitHubLabelV>, o1: Seq<SyncOperationV>, o2: Seq<
    SyncOperationV,
>)
    ensures
        apply_plan(state, o1 + o2) == apply_plan(apply_plan(state, o1), o2),
    decreases o1.len(),
{
    if o1.len() == 0 {
        assert(o1 + o2 =~= o2);
    } else {
        assert((o1 + o2)[0] == o1[0]);
        assert((o1 + o2).drop_first() =~= o1.drop_first() + o2);
        lemma_apply_concat(apply_op(state, o1[0]), o1.drop_first(), o2);
        assert((o1 + o2).len() > 0);
    }
}

/// Whether the desired entry finds its exact namesake already in desired
/// form and leaves it standing.
spec fn entry_keeps(obs: Seq<GitHubLabelV>, processed: Seq<bool>, d: LabelConfigV) -> bool {
    !d.delete && match find_exact(obs, processed, d.name) {
        Some(i) => spec_check_changes(obs[i], d) is NoChange,
        None => false,
    }
}

/// The store marks after one applied entry: the consumed label leaves the
/// store unless the entry found it already in desired form.
spec fn keep_after_entry(
    obs: Seq<GitHubLabelV>,
    processed: Seq<bool>,
    keep: Seq<bool>,
    d: LabelConfigV,
) -> Seq<bool> {
    match entry_index(obs, processed, d) {
        Some(i) => if entry_keeps(obs, processed, d) {
            keep
        } else {
            keep.update(i, false)
        },
        None => keep,
    }
}

/// The store marks after applying the entries from `k` on.
spec fn keep_from(
    obs: Seq<GitHubLabelV>,
    processed: Seq<bool>,
    keep: Seq<bool>,
    des: Seq<LabelConfigV>,
    k: int,
) -> Seq<bool>
    decreases des.len() - k,
{
    if k < 0 || k >= des.len() {
        keep
    } else {
        keep_from(
            obs,
            after_entry(obs, processed, des[k]),
            keep_after_entry(obs, processed, keep, des[k]),
            des,
            k + 1,
        )
    }
}

/// The labels one applied entry adds to the store: the realization of the
/// desired entry, unless the entry is a deletion mark or leaves its
/// namesake standing.
spec fn entry_reals(obs: Seq<GitHubLabelV>, processed: Seq<bool>, d: LabelConfigV) -> Seq<
    GitHubLabelV,
> {
    if d.delete || entry_keeps(obs, processed, d) {
        Seq::empty()
    } else {
        seq![realization(d)]
    }
}

/// The labels the applied entries from `k` on add to the store, in order.
spec fn reals_from(
    obs: Seq<GitHubLabelV>,
    processed: Seq<bool>,
    des: Seq<LabelConfigV>,
    k: int,
) -> Seq<GitHubLabelV>
    decreases des.len() - k,
{
    if k < 0 || k >= des.len() {
        Seq::empty()
    } else {
        entry_reals(obs, processed, des[k]) + reals_from(
            obs,
            after_entry(obs, processed, des[k]),
            des,
            k + 1,
        )
    }
}

/// Whatever the name scan returns is in range, unprocessed, and bears the
/// name.
proof fn lemma_find_from_sound(
    obs: Seq<GitHubLabelV>,
    processed: Seq<bool>,
    name: Seq<char>,
    i: int,
)
    ensures
        find_from(obs, processed, name, i) matches Some(j) ==> (i <= j < obs.len()
            && !processed[j] && obs[j].name == name),
    decreases obs.len() - i,
{
    if 0 <= i < obs.len() {
        if !(!processed[i] && obs[i].name == name) {
            lemma_find_from_sound(obs, processed, name, i + 1);
        }
    }
}

/// Whatever the alias scan returns is in range and unprocessed.
proof fn lemma_find_alias_sound(
    obs: Seq<GitHubLabelV>,
    processed: Seq<bool>,
    aliases: Seq<Seq<char>>,
    k: int,
)
    ensures
        find_alias_from(obs, processed, aliases, k) matches Some(j) ==> (0 <= j < obs.len()
            && !processed[j]),
    decreases aliases.len() - k,
{
    if 0 <= k < aliases.len() {
        lemma_find_from_sound(obs, processed, aliases[k], 0);
        lemma_find_alias_sound(obs, processed, aliases, k + 1);
    }
}

/// When the scan finds nothing, no unprocessed label from `i` on bears
/// the name.
proof fn lemma_find_from_none_inv(
    obs: Seq<GitHubLabelV>,
    processed: Seq<bool>,
    name: Seq<char>,
    i: int,
)
    requires
        0 <= i,
        find_from(obs, processed, name, i) is None,
    ensures
        forall|j: int|
            i <= j < obs.len() && !processed[j] ==> (#[trigger] obs[j]).name != name,
    decreases obs.len() - i,
{
    if 0 <= i < obs.len() {
        lemma_find_from_none_inv(obs, processed, name, i + 1);
    }
}

/// Applying the operations of one desired entry to the store carries the
/// marks from `keep` to `keep_after_entry` and appends `entry_reals`: a
/// deletion or a dirty match removes the one present namesake, a rename
/// removes the consumed label, an update or rename or creation adds the
/// entry's realization, and a clean match moves nothing.
proof fn lemma_step_apply(
    obs: Seq<GitHubLabelV>,
    processed: Seq<bool>,
    keep: Seq<bool>,
    tail: Seq<GitHubLabelV>,
    d: LabelConfigV,
)
    requires
        processed.len() == obs.len(),
        keep.len() == obs.len(),
        distinct_observed_names(obs),
        forall|i: int| 0 <= i < obs.len() && !processed[i] ==> keep[i],
        forall|t: int, i: int|
            0 <= t < tail.len() && 0 <= i < obs.len() && keep[i] ==> (#[trigger] tail[t]).name != (
            #[trigger] obs[i]).name,
    ensures
        apply_plan(kept_part(obs, keep, 0) + tail, entry_ops(obs, processed, d)) == kept_part(
            obs,
            keep_after_entry(obs, processed, keep, d),
            0,
        ) + (tail + entry_reals(obs, processed, d)),
{
    lemma_find_from_sound(obs, processed, d.name, 0);
    lemma_find_alias_sound(obs, processed, d.aliases, 0);
    lemma_similarity_threshold(obs, processed, d.name);
    let state0 = kept_part(obs, keep, 0) + tail;
    if d.delete {
        match find_exact(obs, processed, d.name) {
            Some(i) => {
                let op = SyncOperationV::Delete { name: d.name, reason: "marked for deletion"@ };
                assert(entry_ops(obs, processed, d) =~= seq![op]);
                lemma_apply_one(state0, op);
                lemma_remove_concat(kept_part(obs, keep, 0), tail, d.name);
                assert(keep[i]);
                assert(obs[i].name == d.name);
                lemma_remove_kept(obs, keep, i, 0);
                assert forall|t: int| 0 <= t < tail.len() implies (#[trigger] tail[t]).name
                    != d.name by {
                    assert(tail[t].name != obs[i].name);
                }
                lemma_remove_absent(tail, d.name);
                assert(keep_after_entry(obs, processed, keep, d) == keep.update(i, false));
                assert(tail + entry_reals(obs, processed, d) =~= tail);
                assert(apply_plan(state0, entry_ops(obs, processed, d)) == kept_part(
                    obs,
                    keep.update(i, false),
                    0,
                ) + tail);
            },
            None => {
                assert(entry_ops(obs, processed, d) =~= Seq::<SyncOperationV>::empty());
                assert(apply_plan(state0, Seq::<SyncOperationV>::empty()) == state0);
                assert(keep_after_entry(obs, processed, keep, d) == keep);
                assert(tail + entry_reals(obs, processed, d) =~= tail);
            },
        }
    } else {
        match find_exact(obs, processed, d.name) {
            Some(i) => {
                let chg = spec_check_changes(obs[i], d);
                assert(entry_ops(obs, processed, d) =~= seq![chg]);
                lemma_apply_one(state0, chg);
                if chg is NoChange {
                    assert(entry_keeps(obs, processed, d));
                    assert(apply_op(state0, chg) == state0);
                    assert(keep_after_entry(obs, processed, keep, d) == keep);
                    assert(tail + entry_reals(obs, processed, d) =~= tail);
                } else {
                    assert(chg is Update);
                    assert(chg->Update_current_name == obs[i].name);
                    lemma_remove_concat(kept_part(obs, keep, 0), tail, obs[i].name);
                    assert(keep[i]);
                    lemma_remove_kept(obs, keep, i, 0);
                    assert forall|t: int| 0 <= t < tail.len() implies (#[trigger] tail[t]).name
                        != obs[i].name by {}
                    lemma_remove_absent(tail, obs[i].name);
                    assert(!entry_keeps(obs, processed, d));
                    assert(keep_after_entry(obs, processed, keep, d) == keep.update(i, false));
                    assert(entry_reals(obs, processed, d) =~= seq![realization(d)]);
                    assert(apply_op(state0, chg) =~= kept_part(obs, keep.update(i, false), 0) + (
                    tail + seq![realization(d)]));
                }
            },
            None => {
                let by_alias = find_alias(obs, processed, d.aliases);
                let by_sim = find_similar(obs, processed, d.name);
                let idx = entry_index(obs, processed, d);
                assert(!entry_keeps(obs, processed, d));
                assert(entry_reals(obs, processed, d) =~= seq![realization(d)]);
                match by_alias {
                    Some(i) => {
                        let op = SyncOperationV::Rename {
                            current_name: obs[i].name,
                            new_name: d.name,
                            new_label: d,
                        };
                        assert(entry_ops(obs, processed, d) =~= seq![op]);
                        lemma_apply_one(state0, op);
                        lemma_remove_concat(kept_part(obs, keep, 0), tail, obs[i].name);
                        assert(keep[i]);
                        lemma_remove_kept(obs, keep, i, 0);
                        assert forall|t: int| 0 <= t < tail.len() implies (
                        #[trigger] tail[t]).name != obs[i].name by {}
                        lemma_remove_absent(tail, obs[i].name);
                        assert(keep_after_entry(obs, processed, keep, d) == keep.update(i, false));
                        assert(apply_op(state0, op) =~= kept_part(obs, keep.update(i, false), 0)
                            + (tail + seq![realization(d)]));
                    },
                    None => {
                        match by_sim {
                            Some(i) => {
                                let op = SyncOperationV::Rename {
                                    current_name: obs[i].name,
                                    new_name: d.name,
                                    new_label: d,
                                };
                                assert(entry_ops(obs, processed, d) =~= seq![op]);
                                lemma_apply_one(state0, op);
                                lemma_remove_concat(kept_part(obs, keep, 0), tail, obs[i].name);
                                assert(keep[i]);
                                lemma_remove_kept(obs, keep, i, 0);
                                assert forall|t: int| 0 <= t < tail.len() implies (
                                #[trigger] tail[t]).name != obs[i].name by {}
                                lemma_remove_absent(tail, obs[i].name);
                                assert(keep_after_entry(obs, processed, keep, d) == keep.update(
                                    i,
                                    false,
                                ));
                                assert(apply_op(state0, op) =~= kept_part(
                                    obs,
                                    keep.update(i, false),
                                    0,
                                ) + (tail + seq![realization(d)]));
                            },
                            None => {
                                let op = SyncOperationV::Create { label: d };
                                assert(entry_ops(obs, processed, d) =~= seq![op]);
                                lemma_apply_one(state0, op);
                                assert(idx is None);
                                assert(keep_after_entry(obs, processed, keep, d) == keep);
                                assert(apply_op(state0, op) =~= kept_part(obs, keep, 0) + (tail
                                    + seq![realization(d)]));
                            },
                        }
                    },
                }
            },
        }
    }
}

/// The bookkeeping invariants of an applied pass survive one entry: the
/// consumed label (if any) moves from unprocessed to processed, a clean
/// match stays in the store as its entry's holder, an added realization
/// becomes its entry's holder, and no name collision arises.
#[verifier::rlimit(60)]
proof fn lemma_step_invariants(
    obs: Seq<GitHubLabelV>,
    processed: Seq<bool>,
    keep: Seq<bool>,
    tail: Seq<GitHubLabelV>,
    des: Seq<LabelConfigV>,
    k: int,
)
    requires
        processed.len() == obs.len(),
        keep.len() == obs.len(),
        0 <= k < des.len(),
        distinct_observed_names(obs),
        distinct_desired_names(des),
        forall|i: int| 0 <= i < obs.len() && !processed[i] ==> keep[i],
        forall|i: int|
            0 <= i < obs.len() && processed[i] && keep[i] ==> exists|l: int|
                #![auto]
                0 <= l < k && !des[l].delete && obs[i].name == des[l].name && realizes(
                    obs[i],
                    des[l],
                ),
        forall|l: int, i: int|
            0 <= l < k && !(#[trigger] des[l]).delete && 0 <= i < obs.len() && !processed[i] ==> (
            #[trigger] obs[i]).name != des[l].name,
        forall|t: int|
            #![trigger tail[t]]
            0 <= t < tail.len() ==> exists|l: int|
                #![auto]
                0 <= l < k && !des[l].delete && tail[t] == realization(des[l]),
        forall|t1: int, t2: int|
            0 <= t1 < t2 < tail.len() ==> (#[trigger] tail[t1]).name != (#[trigger] tail[t2]).name,
        forall|t: int, i: int|
            0 <= t < tail.len() && 0 <= i < obs.len() && keep[i] ==> (#[trigger] tail[t]).name != (
            #[trigger] obs[i]).name,
        forall|l: int|
            0 <= l < k && !(#[trigger] des[l]).delete ==> ((exists|i: int|
                #![auto]
                0 <= i < obs.len() && keep[i] && processed[i] && obs[i].name == des[l].name
                    && realizes(obs[i], des[l])) || (exists|t: int|
                #![auto]
                0 <= t < tail.len() && tail[t] == realization(des[l]))),
    ensures
        ({
            let p2 = after_entry(obs, processed, des[k]);
            let keep2 = keep_after_entry(obs, processed, keep, des[k]);
            let tail2 = tail + entry_reals(obs, processed, des[k]);
            &&& p2.len() == obs.len()
            &&& keep2.len() == obs.len()
            &&& (forall|i: int| 0 <= i < obs.len() && !p2[i] ==> keep2[i])
            &&& (forall|i: int|
                0 <= i < obs.len() && p2[i] && keep2[i] ==> exists|l: int|
                    #![auto]
                    0 <= l < k + 1 && !des[l].delete && obs[i].name == des[l].name && realizes(
                        obs[i],
                        des[l],
                    ))
            &&& (forall|l: int, i: int|
                0 <= l < k + 1 && !(#[trigger] des[l]).delete && 0 <= i < obs.len() && !p2[i]
                    ==> (#[trigger] obs[i]).name != des[l].name)
            &&& (forall|t: int|
                #![trigger tail2[t]]
                0 <= t < tail2.len() ==> exists|l: int|
                    #![auto]
                    0 <= l < k + 1 && !des[l].delete && tail2[t] == realization(des[l]))
            &&& (forall|t1: int, t2: int|
                0 <= t1 < t2 < tail2.len() ==> (#[trigger] tail2[t1]).name != (
                #[trigger] tail2[t2]).name)
            &&& (forall|t: int, i: int|
                0 <= t < tail2.len() && 0 <= i < obs.len() && keep2[i] ==> (
                #[trigger] tail2[t]).name != (#[trigger] obs[i]).name)
            &&& (forall|l: int|
                0 <= l < k + 1 && !(#[trigger] des[l]).delete ==> ((exists|i: int|
                    #![auto]
                    0 <= i < obs.len() && keep2[i] && p2[i] && obs[i].name == des[l].name
                        && realizes(obs[i], des[l])) || (exists|t: int|
                    #![auto]
                    0 <= t < tail2.len() && tail2[t] == realization(des[l]))))
        }),
{
    let d = des[k];
    let p2 = after_entry(obs, processed, d);
    let keep2 = keep_after_entry(obs, processed, keep, d);
    let tail2 = tail + entry_reals(obs, processed, d);
    lemma_find_from_sound(obs, processed, d.name, 0);
    lemma_find_alias_sound(obs, processed, d.aliases, 0);
    lemma_similarity_threshold(obs, processed, d.name);
    // After the entry, no unprocessed label bears this entry's name.
    assert forall|j: int|
        0 <= j < obs.len() && !p2[j] && !d.delete implies (#[trigger] obs[j]).name != d.name by {
        match find_exact(obs, processed, d.name) {
            Some(i0) => {
                assert(p2[i0]);
                if obs[j].name == d.name {
                    assert(obs[i0].name == d.name);
                    assert(j == i0);
                }
            },
            None => {
                lemma_find_from_none_inv(obs, processed, d.name, 0);
                assert(!processed[j]);
            },
        }
    }
    // The entry's holder.
    if !d.delete {
        if entry_keeps(obs, processed, d) {
            let i0 = find_exact(obs, processed, d.name).unwrap();
            assert(spec_check_changes(obs[i0], d) is NoChange);
            assert(realizes(obs[i0], d));
            assert(keep2[i0] && p2[i0] && obs[i0].name == d.name);
        } else {
            assert(tail2[tail.len() as int] == realization(d));
            lemma_norm_color_idempotent(d.color);
            assert(realizes(realization(d), d));
        }
    }
    // New additions bear this entry's name; old components bear other
    // names or are consumed.
    assert forall|t: int|
        #![trigger tail2[t]]
        0 <= t < tail2.len() implies exists|l: int|
        #![auto]
        0 <= l < k + 1 && !des[l].delete && tail2[t] == realization(des[l]) by {
        if t < tail.len() {
            assert(tail2[t] == tail[t]);
            let l = choose|l: int|
                #![auto]
                0 <= l < k && !des[l].delete && tail[t] == realization(des[l]);
            assert(0 <= l < k + 1 && !des[l].delete && tail2[t] == realization(des[l]));
        } else {
            assert(tail2[t] == realization(d) && !d.delete);
        }
    }
    assert forall|t1: int, t2: int|
        0 <= t1 < t2 < tail2.len() implies (#[trigger] tail2[t1]).name != (
    #[trigger] tail2[t2]).name by {
        if t2 < tail.len() {
        } else {
            assert(t1 < tail.len() && tail2[t1] == tail[t1] && tail2[t2] == realization(d));
            let l = choose|l: int|
                #![auto]
                0 <= l < k && !des[l].delete && tail[t1] == realization(des[l]);
            assert(des[l].name != d.name);
        }
    }
    assert forall|t: int, i: int|
        0 <= t < tail2.len() && 0 <= i < obs.len() && keep2[i] implies (#[trigger] tail2[t]).name
        != (#[trigger] obs[i]).name by {
        assert(keep[i]);
        if t < tail.len() {
            assert(tail2[t] == tail[t]);
        } else {
            assert(tail2[t] == realization(d));
            assert(!d.delete && !entry_keeps(obs, processed, d));
            if p2[i] {
                if processed[i] {
                    let l = choose|l: int|
                        #![auto]
                        0 <= l < k && !des[l].delete && obs[i].name == des[l].name && realizes(
                            obs[i],
                            des[l],
                        );
                    assert(des[l].name != d.name);
                } else {
                    // The freshly consumed label is no longer kept.
                    assert(entry_index(obs, processed, d) == Some(i));
                    assert(!keep2[i]);
                }
            } else {
                assert(obs[i].name != d.name);
            }
        }
    }
    assert forall|i: int|
        0 <= i < obs.len() && p2[i] && keep2[i] implies exists|l: int|
        #![auto]
        0 <= l < k + 1 && !des[l].delete && obs[i].name == des[l].name && realizes(
            obs[i],
            des[l],
        ) by {
        if processed[i] {
            assert(keep[i]);
            let l = choose|l: int|
                #![auto]
                0 <= l < k && !des[l].delete && obs[i].name == des[l].name && realizes(
                    obs[i],
                    des[l],
                );
            assert(0 <= l < k + 1 && !des[l].delete && obs[i].name == des[l].name && realizes(
                obs[i],
                des[l],
            ));
        } else {
            // Freshly processed: the entry's own clean namesake.
            assert(entry_index(obs, processed, d) == Some(i));
            assert(entry_keeps(obs, processed, d));
            assert(obs[i].name == d.name && realizes(obs[i], d) && !d.delete);
        }
    }
    assert forall|l: int|
        0 <= l < k + 1 && !(#[trigger] des[l]).delete implies ((exists|i: int|
        #![auto]
        0 <= i < obs.len() && keep2[i] && p2[i] && obs[i].name == des[l].name && realizes(
            obs[i],
            des[l],
        )) || (exists|t: int| #![auto] 0 <= t < tail2.len() && tail2[t] == realization(des[l]))) by {
        if l < k {
            if exists|i: int|
                #![auto]
                0 <= i < obs.len() && keep[i] && processed[i] && obs[i].name == des[l].name
                    && realizes(obs[i], des[l]) {
                let i = choose|i: int|
                    #![auto]
                    0 <= i < obs.len() && keep[i] && processed[i] && obs[i].name == des[l].name
                        && realizes(obs[i], des[l]);
                // The holder is processed, so it is not the consumed label.
                assert(keep2[i] && p2[i]);
                assert(0 <= i < obs.len() && keep2[i] && p2[i] && obs[i].name == des[l].name
                    && realizes(obs[i], des[l]));
            } else {
                let t = choose|t: int|
                    #![auto]
                    0 <= t < tail.len() && tail[t] == realization(des[l]);
                assert(tail2[t] == realization(des[l]));
            }
        } else {
            assert(l == k && !d.delete);
            if entry_keeps(obs, processed, d) {
                let i0 = find_exact(obs, processed, d.name).unwrap();
                assert(0 <= i0 < obs.len() && keep2[i0] && p2[i0] && obs[i0].name == des[l].name
                    && realizes(obs[i0], des[l]));
            } else {
                assert(tail2[tail.len() as int] == realization(des[l]));
            }
        }
    }
}

/// The bookkeeping invariants of an applied pass, pushed through every
/// remaining entry: they hold of the final marks and additions, with every
/// non-deletion entry holding a clean kept namesake or its realization.
#[verifier::rlimit(60)]
proof fn lemma_phase1_invariants(
    obs: Seq<GitHubLabelV>,
    processed: Seq<bool>,
    keep: Seq<bool>,
    tail: Seq<GitHubLabelV>,
    des: Seq<LabelConfigV>,
    k: int,
)
    requires
        processed.len() == obs.len(),
        keep.len() == obs.len(),
        0 <= k <= des.len(),
        distinct_observed_names(obs),
        distinct_desired_names(des),
        forall|i: int| 0 <= i < obs.len() && !processed[i] ==> keep[i],
        forall|i: int|
            0 <= i < obs.len() && processed[i] && keep[i] ==> exists|l: int|
                #![auto]
                0 <= l < k && !des[l].delete && obs[i].name == des[l].name && realizes(
                    obs[i],
                    des[l],
                ),
        forall|l: int, i: int|
            0 <= l < k && !(#[trigger] des[l]).delete && 0 <= i < obs.len() && !processed[i] ==> (
            #[trigger] obs[i]).name != des[l].name,
        forall|t: int|
            #![trigger tail[t]]
            0 <= t < tail.len() ==> exists|l: int|
                #![auto]
                0 <= l < k && !des[l].delete && tail[t] == realization(des[l]),
        forall|t1: int, t2: int|
            0 <= t1 < t2 < tail.len() ==> (#[trigger] tail[t1]).name != (#[trigger] tail[t2]).name,
        forall|t: int, i: int|
            0 <= t < tail.len() && 0 <= i < obs.len() && keep[i] ==> (#[trigger] tail[t]).name != (
            #[trigger] obs[i]).name,
        forall|l: int|
            0 <= l < k && !(#[trigger] des[l]).delete ==> ((exists|i: int|
                #![auto]
                0 <= i < obs.len() && keep[i] && processed[i] && obs[i].name == des[l].name
                    && realizes(obs[i], des[l])) || (exists|t: int|
                #![auto]
                0 <= t < tail.len() && tail[t] == realization(des[l]))),
    ensures
        ({
            let pf = processed_from(obs, processed, des, k);
            let kf = keep_from(obs, processed, keep, des, k);
            let tf = tail + reals_from(obs, processed, des, k);
            &&& pf.len() == obs.len()
            &&& kf.len() == obs.len()
            &&& (forall|i: int| 0 <= i < obs.len() && !pf[i] ==> kf[i])
            &&& (forall|i: int|
                0 <= i < obs.len() && pf[i] && kf[i] ==> exists|l: int|
                    #![auto]
                    0 <= l < des.len() && !des[l].delete && obs[i].name == des[l].name && realizes(
                        obs[i],
                        des[l],
                    ))
            &&& (forall|l: int, i: int|
                0 <= l < des.len() && !(#[trigger] des[l]).delete && 0 <= i < obs.len() && !pf[i]
                    ==> (#[trigger] obs[i]).name != des[l].name)
            &&& (forall|t: int|
                #![trigger tf[t]]
                0 <= t < tf.len() ==> exists|l: int|
                    #![auto]
                    0 <= l < des.len() && !des[l].delete && tf[t] == realization(des[l]))
            &&& (forall|t1: int, t2: int|
                0 <= t1 < t2 < tf.len() ==> (#[trigger] tf[t1]).name != (#[trigger] tf[t2]).name)
            &&& (forall|t: int, i: int|
                0 <= t < tf.len() && 0 <= i < obs.len() && kf[i] ==> (#[trigger] tf[t]).name != (
                #[trigger] obs[i]).name)
            &&& (forall|l: int|
                0 <= l < des.len() && !(#[trigger] des[l]).delete ==> ((exists|i: int|
                    #![auto]
                    0 <= i < obs.len() && kf[i] && pf[i] && obs[i].name == des[l].name && realizes(
                        obs[i],
                        des[l],
                    )) || (exists|t: int|
                    #![auto]
                    0 <= t < tf.len() && tf[t] == realization(des[l]))))
        }),
    decreases des.len() - k,
{
    if k >= des.len() {
        assert(reals_from(obs, processed, des, k) =~= Seq::<GitHubLabelV>::empty());
        assert(tail + reals_from(obs, processed, des, k) =~= tail);
    } else {
        let d = des[k];
        let p2 = after_entry(obs, processed, d);
        let keep2 = keep_after_entry(obs, processed, keep, d);
        let tail2 = tail + entry_reals(obs, processed, d);
        lemma_step_invariants(obs, processed, keep, tail, des, k);
        lemma_phase1_invariants(obs, p2, keep2, tail2, des, k + 1);
        assert(tail2 + reals_from(obs, p2, des, k + 1) =~= tail + reals_from(
            obs,
            processed,
            des,
            k,
        ));
        assert(keep_from(obs, processed, keep, des, k) == keep_from(obs, p2, keep2, des, k + 1));
        assert(processed_from(obs, processed, des, k) == processed_from(obs, p2, des, k + 1));
    }
}

/// Applying the per-entry phase of a plan, entry by entry: the store ends
/// at the `keep_from` marks, with the `reals_from` additions appended
/// after whatever was already added.
#[verifier::rlimit(60)]
proof fn lemma_apply_phase1(
    obs: Seq<GitHubLabelV>,
    processed: Seq<bool>,
    keep: Seq<bool>,
    tail: Seq<GitHubLabelV>,
    des: Seq<LabelConfigV>,
    k: int,
)
    requires
        processed.len() == obs.len(),
        keep.len() == obs.len(),
        0 <= k <= des.len(),
        distinct_observed_names(obs),
        distinct_desired_names(des),
        forall|i: int| 0 <= i < obs.len() && !processed[i] ==> keep[i],
        forall|i: int|
            0 <= i < obs.len() && processed[i] && keep[i] ==> exists|l: int|
                #![auto]
                0 <= l < k && !des[l].delete && obs[i].name == des[l].name && realizes(
                    obs[i],
                    des[l],
                ),
        forall|l: int, i: int|
            0 <= l < k && !(#[trigger] des[l]).delete && 0 <= i < obs.len() && !processed[i] ==> (
            #[trigger] obs[i]).name != des[l].name,
        forall|t: int|
            #![trigger tail[t]]
            0 <= t < tail.len() ==> exists|l: int|
                #![auto]
                0 <= l < k && !des[l].delete && tail[t] == realization(des[l]),
        forall|t1: int, t2: int|
            0 <= t1 < t2 < tail.len() ==> (#[trigger] tail[t1]).name != (#[trigger] tail[t2]).name,
        forall|t: int, i: int|
            0 <= t < tail.len() && 0 <= i < obs.len() && keep[i] ==> (#[trigger] tail[t]).name != (
            #[trigger] obs[i]).name,
        forall|l: int|
            0 <= l < k && !(#[trigger] des[l]).delete ==> ((exists|i: int|
                #![auto]
                0 <= i < obs.len() && keep[i] && processed[i] && obs[i].name == des[l].name
                    && realizes(obs[i], des[l])) || (exists|t: int|
                #![auto]
                0 <= t < tail.len() && tail[t] == realization(des[l]))),
    ensures
        apply_plan(kept_part(obs, keep, 0) + tail, ops_from(obs, processed, des, k)) == kept_part(
            obs,
            keep_from(obs, processed, keep, des, k),
            0,
        ) + (tail + reals_from(obs, processed, des, k)),
    decreases des.len() - k,
{
    if k >= des.len() {
        assert(ops_from(obs, processed, des, k) =~= Seq::<SyncOperationV>::empty());
        assert(reals_from(obs, processed, des, k) =~= Seq::<GitHubLabelV>::empty());
        assert(tail + reals_from(obs, processed, des, k) =~= tail);
        assert(apply_plan(kept_part(obs, keep, 0) + tail, ops_from(obs, processed, des, k))
            == kept_part(obs, keep, 0) + tail);
    } else {
        let d = des[k];
        let p2 = after_entry(obs, processed, d);
        let keep2 = keep_after_entry(obs, processed, keep, d);
        let tail2 = tail + entry_reals(obs, processed, d);
        lemma_step_apply(obs, processed, keep, tail, d);
        lemma_step_invariants(obs, processed, keep, tail, des, k);
        lemma_apply_phase1(obs, p2, keep2, tail2, des, k + 1);
        assert(ops_from(obs, processed, des, k) == entry_ops(obs, processed, d) + ops_from(
            obs,
            p2,
            des,
            k + 1,
        ));
        lemma_apply_concat(
            kept_part(obs, keep, 0) + tail,
            entry_ops(obs, processed, d),
            ops_from(obs, p2, des, k + 1),
        );
        assert(tail2 + reals_from(obs, p2, des, k + 1) =~= tail + reals_from(
            obs,
            processed,
            des,
            k,
        ));
        assert(keep_from(obs, processed, keep, des, k) == keep_from(obs, p2, keep2, des, k + 1));
    }
}

/// Idempotence after an applied pass, for any starting snapshot: plan
/// against a name-distinct observed set with added labels disallowed,
/// apply every operation of that plan to the store, and plan again — the
/// second plan is exactly one `NoChange` per non-deletion desired entry,
/// and nothing else, not even a cleanup deletion.
#[verifier::rlimit(100)]
pub proof fn lemma_replan_after_apply(obs: Seq<GitHubLabelV>, des: Seq<LabelConfigV>)
    requires
        distinct_observed_names(obs),
        distinct_desired_names(des),
    ensures
        spec_plan(apply_plan(obs, spec_plan(obs, des, false)), des, false) == nochange_ops(des, 0),
{
    let p0 = no_labels_processed(obs);
    let keep0 = Seq::new(obs.len(), |i: int| true);
    let tail0 = Seq::<GitHubLabelV>::empty();
    lemma_kept_part_all(obs, keep0, 0);
    assert(obs.skip(0) =~= obs);
    assert(kept_part(obs, keep0, 0) + tail0 =~= obs);
    let phase1_ops = ops_from(obs, p0, des, 0);
    let pf = processed_from(obs, p0, des, 0);
    let kf = keep_from(obs, p0, keep0, des, 0);
    let tf = tail0 + reals_from(obs, p0, des, 0);
    let cleanup = cleanup_from(obs, pf, 0);
    assert(spec_plan(obs, des, false) == phase1_ops + cleanup);
    lemma_apply_concat(obs, phase1_ops, cleanup);
    lemma_apply_phase1(obs, p0, keep0, tail0, des, 0);
    lemma_phase1_invariants(obs, p0, keep0, tail0, des, 0);
    assert(apply_plan(obs, phase1_ops) == kept_part(obs, kf, 0) + tf);
    // The added labels never collide with a label the cleanup removes.
    assert forall|t: int, i: int|
        0 <= t < tf.len() && 0 <= i < obs.len() && !pf[i] implies (#[trigger] tf[t]).name != (
    #[trigger] obs[i]).name by {
        let l = choose|l: int|
            #![auto]
            0 <= l < des.len() && !des[l].delete && tf[t] == realization(des[l]);
        assert(obs[i].name != des[l].name);
    }
    lemma_apply_cleanup(obs, pf, kf, tf, 0);
    let kc = cleanup_keep(kf, pf, 0);
    let obs2 = kept_part(obs, kc, 0) + tf;
    assert(apply_plan(obs, spec_plan(obs, des, false)) == obs2);
    // What survives the cleanup was kept and processed.
    assert forall|i: int| 0 <= i < obs.len() && #[trigger] kc[i] implies kf[i] && pf[i] by {}
    let klen = kept_part(obs, kc, 0).len() as int;
    // Every final label realizes the non-deletion entry whose name it
    // bears; in particular no deletion-marked name survives, and every
    // final label is named by its entry.
    assert forall|x: int|
        #![trigger obs2[x]]
        0 <= x < obs2.len() implies exists|l: int|
        #![auto]
        0 <= l < des.len() && !des[l].delete && obs2[x].name == des[l].name by {
        if x < klen {
            lemma_kept_part_origin(obs, kc, 0, x);
            let i = choose|t: int| #![auto] 0 <= t < obs.len() && kc[t] && kept_part(obs, kc, 0)[x] == obs[t];
            let l = choose|l: int|
                #![auto]
                0 <= l < des.len() && !des[l].delete && obs[i].name == des[l].name && realizes(
                    obs[i],
                    des[l],
                );
            assert(obs2[x] == obs[i]);
            assert(0 <= l < des.len() && !des[l].delete && obs2[x].name == des[l].name);
        } else {
            assert(obs2[x] == tf[x - klen]);
            let l = choose|l: int|
                #![auto]
                0 <= l < des.len() && !des[l].delete && tf[x - klen] == realization(des[l]);
            assert(0 <= l < des.len() && !des[l].delete && obs2[x].name == des[l].name);
        }
    }
    assert forall|l: int, i: int|
        0 <= l < des.len() && (#[trigger] des[l]).delete && 0 <= i < obs2.len() implies (
    #[trigger] obs2[i]).name != des[l].name by {
        let w = choose|w: int|
            #![auto]
            0 <= w < des.len() && !des[w].delete && obs2[i].name == des[w].name;
        assert(w != l);
    }
    // Every non-deletion entry's holder survives into the final store.
    assert forall|l: int|
        0 <= l < des.len() && !(#[trigger] des[l]).delete implies exists|i: int|
        0 <= i < obs2.len() && realizes(#[trigger] obs2[i], des[l]) by {
        if exists|i: int|
            #![auto]
            0 <= i < obs.len() && kf[i] && pf[i] && obs[i].name == des[l].name && realizes(
                obs[i],
                des[l],
            ) {
            let i = choose|i: int|
                #![auto]
                0 <= i < obs.len() && kf[i] && pf[i] && obs[i].name == des[l].name && realizes(
                    obs[i],
                    des[l],
                );
            assert(kc[i]);
            lemma_kept_part_member(obs, kc, 0, i);
            let p = choose|p: int|
                0 <= p < kept_part(obs, kc, 0).len() && #[trigger] kept_part(obs, kc, 0)[p]
                    == obs[i];
            assert(obs2[p] == obs[i]);
            assert(0 <= p < obs2.len() && realizes(obs2[p], des[l]));
        } else {
            let t = choose|t: int| #![auto] 0 <= t < tf.len() && tf[t] == realization(des[l]);
            lemma_norm_color_idempotent(des[l].color);
            assert(obs2[klen + t] == realization(des[l]));
            assert(realizes(obs2[klen + t], des[l]));
        }
    }
    // The final names are pairwise distinct.
    lemma_kept_part_distinct(obs, kc, 0);
    assert forall|a: int, b: int| 0 <= a < b < obs2.len() implies (#[trigger] obs2[a]).name != (
    #[trigger] obs2[b]).name by {
        if b < klen {
            assert(obs2[a] == kept_part(obs, kc, 0)[a]);
            assert(obs2[b] == kept_part(obs, kc, 0)[b]);
        } else if a >= klen {
            assert(obs2[a] == tf[a - klen]);
            assert(obs2[b] == tf[b - klen]);
        } else {
            assert(obs2[a] == kept_part(obs, kc, 0)[a]);
            assert(obs2[b] == tf[b - klen]);
            lemma_kept_part_origin(obs, kc, 0, a);
            let i = choose|t: int|
                #![auto]
                0 <= t < obs.len() && kc[t] && kept_part(obs, kc, 0)[a] == obs[t];
            assert(kf[i]);
            assert(tf[b - klen].name != obs[i].name);
        }
    }
    lemma_plan_idempotent_full(obs2, des);
}

/// The store marks after the cleanup has run from position `j`: a label
/// stays only if it was kept and is processed (or sits before `j`).
spec fn cleanup_keep(keep: Seq<bool>, processed: Seq<bool>, j: int) -> Seq<bool> {
    Seq::new(keep.len(), |t: int| keep[t] && (processed[t] || t < j))
}

/// Applying the cleanup deletions from position `j` removes exactly the
/// still-unprocessed labels from the store and touches nothing else.
proof fn lemma_apply_cleanup(
    obs: Seq<GitHubLabelV>,
    processed: Seq<bool>,
    keep: Seq<bool>,
    tail: Seq<GitHubLabelV>,
    j: int,
)
    requires
        processed.len() == obs.len(),
        keep.len() == obs.len(),
        0 <= j,
        distinct_observed_names(obs),
        forall|i: int| j <= i < obs.len() && !processed[i] ==> keep[i],
        forall|t: int, i: int|
            0 <= t < tail.len() && 0 <= i < obs.len() && !processed[i] ==> (
            #[trigger] tail[t]).name != (#[trigger] obs[i]).name,
    ensures
        apply_plan(kept_part(obs, keep, 0) + tail, cleanup_from(obs, processed, j)) == kept_part(
            obs,
            cleanup_keep(keep, processed, j),
            0,
        ) + tail,
    decreases obs.len() - j,
{
    let state0 = kept_part(obs, keep, 0) + tail;
    if j >= obs.len() {
        assert(cleanup_keep(keep, processed, j) =~= keep);
        assert(cleanup_from(obs, processed, j) =~= Seq::<SyncOperationV>::empty());
        assert(apply_plan(state0, Seq::<SyncOperationV>::empty()) == state0);
    } else {
        if !processed[j] {
            let op = SyncOperationV::Delete {
                name: obs[j].name,
                reason: "not defined in configuration"@,
            };
            assert(cleanup_from(obs, processed, j) == seq![op] + cleanup_from(
                obs,
                processed,
                j + 1,
            ));
            lemma_apply_concat(state0, seq![op], cleanup_from(obs, processed, j + 1));
            lemma_apply_one(state0, op);
            lemma_remove_concat(kept_part(obs, keep, 0), tail, obs[j].name);
            assert(keep[j]);
            lemma_remove_kept(obs, keep, j, 0);
            lemma_remove_absent(tail, obs[j].name);
            lemma_apply_cleanup(obs, processed, keep.update(j, false), tail, j + 1);
            assert(cleanup_keep(keep.update(j, false), processed, j + 1) =~= cleanup_keep(
                keep,
                processed,
                j,
            ));
        } else {
            assert(cleanup_from(obs, processed, j) =~= cleanup_from(obs, processed, j + 1));
            lemma_apply_cleanup(obs, processed, keep, tail, j + 1);
            assert(cleanup_keep(keep, processed, j + 1) =~= cleanup_keep(keep, processed, j));
        }
    }
}

/// With distinct observed names, the kept part bears pairwise distinct
/// names.
proof fn lemma_kept_part_distinct(obs: Seq<GitHubLabelV>, keep: Seq<bool>, j: int)
    requires
        distinct_observed_names(obs),
    ensures
        forall|p1: int, p2: int|
            0 <= p1 < p2 < kept_part(obs, keep, j).len() ==> (#[trigger] kept_part(
                obs,
                keep,
                j,
            )[p1]).name != (#[trigger] kept_part(obs, keep, j)[p2]).name,
    decreases obs.len() - j,
{
    if 0 <= j < obs.len() {
        lemma_kept_part_distinct(obs, keep, j + 1);
        let c = kept_part(obs, keep, j);
        let head: Seq<GitHubLabelV> = if keep[j] {
            seq![obs[j]]
        } else {
            Seq::empty()
        };
        let rest = kept_part(obs, keep, j + 1);
        assert forall|p1: int, p2: int|
            0 <= p1 < p2 < c.len() implies (#[trigger] c[p1]).name != (#[trigger] c[p2]).name by {
            if p1 < head.len() {
                assert(c[p1] == obs[j]);
                assert(c[p2] == rest[p2 - head.len()]);
                lemma_kept_part_origin(obs, keep, j + 1, p2 - head.len());
                let t = choose|t: int|
                    #![auto]
                    j + 1 <= t < obs.len() && keep[t] && rest[p2 - head.len()] == obs[t];
                assert(obs[j].name != obs[t].name);
            } else {
                assert(c[p1] == rest[p1 - head.len()]);
                assert(c[p2] == rest[p2 - head.len()]);
            }
        }
    }
}

/// A cleanup over a fully processed snapshot deletes nothing.
proof fn lemma_cleanup_all_processed(obs: Seq<GitHubLabelV>, processed: Seq<bool>, i: int)
    requires
        processed.len() == obs.len(),
        forall|j: int| 0 <= j < obs.len() ==> #[trigger] processed[j],
    ensures
        cleanup_from(obs, processed, i) == Seq::<SyncOperationV>::empty(),
    decreases obs.len() - i,
{
    if 0 <= i < obs.len() {
        lemma_cleanup_all_processed(obs, processed, i + 1);
        assert(cleanup_from(obs, processed, i) =~= Seq::<SyncOperationV>::empty());
    }
}

} // verus!

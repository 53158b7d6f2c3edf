use gh_labeler::config::LabelConfig;
use gh_labeler::config::SyncConfig;
use gh_labeler::github::GitHubLabel;
use gh_labeler::sync::{
    check_label_changes, execute_plan, operation_store_calls, plan_sync_operations, StoreCall,
    SyncOperation, SyncResult,
};

fn desired(name: &str, color: &str) -> LabelConfig {
    LabelConfig {
        name: name.to_string(),
        color: color.to_string(),
        description: None,
        aliases: Vec::new(),
        delete: false,
    }
}

fn observed(id: u64, name: &str, color: &str, description: Option<&str>) -> GitHubLabel {
    GitHubLabel {
        id,
        name: name.to_string(),
        color: color.to_string(),
        description: description.map(|d| d.to_string()),
        default: false,
        url: format!("https://api.github.com/repos/owner/repo/labels/{}", name),
    }
}

#[test]
fn test_sync_result_operations() {
    let mut result = SyncResult::new(false);

    result.add_operation(SyncOperation::Create {
        label: LabelConfig {
            name: "test".to_string(),
            color: "ff0000".to_string(),
            description: None,
            aliases: Vec::new(),
            delete: false,
        },
    });

    assert_eq!(result.created, 1);
    assert_eq!(result.total_operations(), 1);
    assert!(result.has_changes());
}

#[test]
fn test_alias_map_building() {
    let labels = vec![
        LabelConfig {
            name: "bug".to_string(),
            color: "ff0000".to_string(),
            description: None,
            aliases: vec!["defect".to_string(), "issue".to_string()],
            delete: false,
        },
        LabelConfig {
            name: "enhancement".to_string(),
            color: "00ff00".to_string(),
            description: None,
            aliases: vec!["feature".to_string()],
            delete: false,
        },
    ];

    let _config = SyncConfig {
        access_token: "test".to_string(),
        repository: "owner/repo".to_string(),
        dry_run: true,
        allow_added_labels: false,
        labels: Some(labels.clone()),
    };
}

#[test]
fn test_plan_creates_missing_label() {
    let observed_labels: Vec<GitHubLabel> = Vec::new();
    let desired_labels = vec![desired("bug", "d73a4a")];
    let plan = plan_sync_operations(&observed_labels, &desired_labels, false);
    assert_eq!(
        plan,
        vec![SyncOperation::Create {
            label: desired("bug", "d73a4a")
        }]
    );
}

#[test]
fn test_plan_renames_via_alias() {
    let observed_labels = vec![observed(1, "defect", "d73a4a", None)];
    let mut bug = desired("bug", "d73a4a");
    bug.aliases = vec!["defect".to_string()];
    let desired_labels = vec![bug.clone()];
    let plan = plan_sync_operations(&observed_labels, &desired_labels, false);
    assert_eq!(
        plan,
        vec![SyncOperation::Rename {
            current_name: "defect".to_string(),
            new_name: "bug".to_string(),
            new_label: bug,
        }]
    );
}

#[test]
fn test_plan_updates_changed_color() {
    let observed_labels = vec![observed(1, "bug", "d73a4a", Some("old"))];
    let mut bug = desired("bug", "#ff0000");
    bug.description = Some("old".to_string());
    let desired_labels = vec![bug.clone()];
    let plan = plan_sync_operations(&observed_labels, &desired_labels, false);
    assert_eq!(
        plan,
        vec![SyncOperation::Update {
            current_name: "bug".to_string(),
            new_label: bug,
            changes: vec!["color: d73a4a -> ff0000".to_string()],
        }]
    );
}

#[test]
fn test_plan_deletes_unconfigured_label() {
    let observed_labels = vec![
        observed(1, "bug", "d73a4a", None),
        observed(2, "extra", "ffffff", None),
    ];
    let desired_labels = vec![desired("bug", "d73a4a")];
    let plan = plan_sync_operations(&observed_labels, &desired_labels, false);
    assert_eq!(
        plan,
        vec![
            SyncOperation::NoChange {
                name: "bug".to_string()
            },
            SyncOperation::Delete {
                name: "extra".to_string(),
                reason: "not defined in configuration".to_string()
            },
        ]
    );
}

#[test]
fn test_plan_keeps_unconfigured_label_when_allowed() {
    let observed_labels = vec![
        observed(1, "bug", "d73a4a", None),
        observed(2, "extra", "ffffff", None),
    ];
    let desired_labels = vec![desired("bug", "d73a4a")];
    let plan = plan_sync_operations(&observed_labels, &desired_labels, true);
    assert_eq!(
        plan,
        vec![SyncOperation::NoChange {
            name: "bug".to_string()
        }]
    );
}

#[test]
fn test_plan_renames_similar_label() {
    let observed_labels = vec![observed(1, "bug-reports", "d73a4a", None)];
    let desired_labels = vec![desired("bug-report", "d73a4a")];
    let plan = plan_sync_operations(&observed_labels, &desired_labels, false);
    assert_eq!(
        plan,
        vec![SyncOperation::Rename {
            current_name: "bug-reports".to_string(),
            new_name: "bug-report".to_string(),
            new_label: desired("bug-report", "d73a4a"),
        }]
    );
}

#[test]
fn test_plan_similarity_threshold_is_strict() {
    // Score exactly 7/10: no match, the label is created and the stranger
    // deleted.
    let observed_labels = vec![observed(1, "aaaaaaabbb", "d73a4a", None)];
    let desired_labels = vec![desired("aaaaaaaaaa", "d73a4a")];
    let plan = plan_sync_operations(&observed_labels, &desired_labels, false);
    assert_eq!(
        plan,
        vec![
            SyncOperation::Create {
                label: desired("aaaaaaaaaa", "d73a4a")
            },
            SyncOperation::Delete {
                name: "aaaaaaabbb".to_string(),
                reason: "not defined in configuration".to_string()
            },
        ]
    );

    // Score 8/10: matches, and is renamed.
    let observed_labels = vec![observed(1, "aaaaaaaabb", "d73a4a", None)];
    let plan = plan_sync_operations(&observed_labels, &desired_labels, false);
    assert_eq!(
        plan,
        vec![SyncOperation::Rename {
            current_name: "aaaaaaaabb".to_string(),
            new_name: "aaaaaaaaaa".to_string(),
            new_label: desired("aaaaaaaaaa", "d73a4a"),
        }]
    );
}

#[test]
fn test_plan_exact_match_beats_alias() {
    // An exact namesake exists, so the alias must not fire even though it
    // also names an observed label.
    let observed_labels = vec![
        observed(1, "defect", "d73a4a", None),
        observed(2, "bug", "d73a4a", None),
    ];
    let mut bug = desired("bug", "d73a4a");
    bug.aliases = vec!["defect".to_string()];
    let desired_labels = vec![bug];
    let plan = plan_sync_operations(&observed_labels, &desired_labels, true);
    assert_eq!(
        plan,
        vec![SyncOperation::NoChange {
            name: "bug".to_string()
        }]
    );
}

#[test]
fn test_plan_first_alias_wins() {
    let observed_labels = vec![
        observed(1, "issue", "d73a4a", None),
        observed(2, "defect", "d73a4a", None),
    ];
    let mut bug = desired("bug", "d73a4a");
    bug.aliases = vec!["defect".to_string(), "issue".to_string()];
    let desired_labels = vec![bug.clone()];
    let plan = plan_sync_operations(&observed_labels, &desired_labels, true);
    assert_eq!(
        plan,
        vec![SyncOperation::Rename {
            current_name: "defect".to_string(),
            new_name: "bug".to_string(),
            new_label: bug,
        }]
    );
}

#[test]
fn test_plan_delete_marked_label() {
    let observed_labels = vec![observed(1, "old-label", "cccccc", None)];
    let mut gone = desired("old-label", "cccccc");
    gone.delete = true;
    let desired_labels = vec![gone];
    let plan = plan_sync_operations(&observed_labels, &desired_labels, true);
    assert_eq!(
        plan,
        vec![SyncOperation::Delete {
            name: "old-label".to_string(),
            reason: "marked for deletion".to_string()
        }]
    );

    // Absent remotely: nothing is emitted, and nothing is counted.
    let plan = plan_sync_operations(&Vec::new(), &desired_labels, true);
    assert_eq!(plan, Vec::new());
}

#[test]
fn test_plan_consumed_label_not_reused() {
    // The first desired entry claims "shared" through its alias; the second
    // can no longer match it and must create.
    let observed_labels = vec![observed(1, "shared", "d73a4a", None)];
    let mut first = desired("first", "d73a4a");
    first.aliases = vec!["shared".to_string()];
    let desired_labels = vec![first.clone(), desired("shared", "00ff00")];
    let plan = plan_sync_operations(&observed_labels, &desired_labels, true);
    assert_eq!(
        plan,
        vec![
            SyncOperation::Rename {
                current_name: "shared".to_string(),
                new_name: "first".to_string(),
                new_label: first,
            },
            SyncOperation::Create {
                label: desired("shared", "00ff00")
            },
        ]
    );
}

#[test]
fn test_plan_is_idempotent_after_apply() {
    // A snapshot that already realizes the desired list plans to nothing
    // but no-ops.
    let observed_labels = vec![
        observed(1, "bug", "d73a4a", Some("Something isn't working")),
        observed(2, "enhancement", "a2eeef", None),
    ];
    let mut bug = desired("bug", "d73a4a");
    bug.description = Some("Something isn't working".to_string());
    let desired_labels = vec![bug, desired("enhancement", "a2eeef")];
    let plan = plan_sync_operations(&observed_labels, &desired_labels, false);
    assert_eq!(
        plan,
        vec![
            SyncOperation::NoChange {
                name: "bug".to_string()
            },
            SyncOperation::NoChange {
                name: "enhancement".to_string()
            },
        ]
    );
}

#[test]
fn test_check_label_changes_reports_both_fields() {
    let current = observed(1, "bug", "d73a4a", Some("old"));
    let mut target = desired("bug", "ff0000");
    target.description = Some("new".to_string());
    let op = check_label_changes(&current, &target);
    assert_eq!(
        op,
        SyncOperation::Update {
            current_name: "bug".to_string(),
            new_label: target,
            changes: vec![
                "color: d73a4a -> ff0000".to_string(),
                "description: old -> new".to_string(),
            ],
        }
    );
}

#[test]
fn test_check_label_changes_description_presence() {
    // A present-but-empty description differs from an absent one.
    let current = observed(1, "bug", "d73a4a", None);
    let mut target = desired("bug", "d73a4a");
    target.description = Some("".to_string());
    let op = check_label_changes(&current, &target);
    assert_eq!(
        op,
        SyncOperation::Update {
            current_name: "bug".to_string(),
            new_label: target,
            changes: vec!["description: (none) -> ".to_string()],
        }
    );
}

#[test]
fn test_store_calls_dry_run_makes_none() {
    let ops = vec![
        SyncOperation::Create {
            label: desired("bug", "d73a4a"),
        },
        SyncOperation::Update {
            current_name: "bug".to_string(),
            new_label: desired("bug", "ff0000"),
            changes: vec!["color: d73a4a -> ff0000".to_string()],
        },
        SyncOperation::Delete {
            name: "extra".to_string(),
            reason: "not defined in configuration".to_string(),
        },
        SyncOperation::NoChange {
            name: "bug".to_string(),
        },
    ];
    for op in &ops {
        assert_eq!(operation_store_calls(op, true), Vec::new());
    }
}

#[test]
fn test_store_calls_update_is_delete_then_create() {
    let op = SyncOperation::Rename {
        current_name: "defect".to_string(),
        new_name: "bug".to_string(),
        new_label: desired("bug", "d73a4a"),
    };
    assert_eq!(
        operation_store_calls(&op, false),
        vec![
            StoreCall::Delete {
                name: "defect".to_string()
            },
            StoreCall::Create {
                label: desired("bug", "d73a4a")
            },
        ]
    );

    let op = SyncOperation::NoChange {
        name: "bug".to_string(),
    };
    assert_eq!(operation_store_calls(&op, false), Vec::new());
}

#[test]
fn test_execute_plan_counts_by_kind() {
    let plan = vec![
        SyncOperation::Create {
            label: desired("a", "d73a4a"),
        },
        SyncOperation::NoChange {
            name: "b".to_string(),
        },
        SyncOperation::Delete {
            name: "c".to_string(),
            reason: "not defined in configuration".to_string(),
        },
    ];
    let outcomes = vec![None, None, None];
    let result = execute_plan(&plan, &outcomes, true);
    assert_eq!(result.created, 1);
    assert_eq!(result.unchanged, 1);
    assert_eq!(result.deleted, 1);
    assert_eq!(result.updated, 0);
    assert_eq!(result.renamed, 0);
    assert_eq!(result.total_operations(), 3);
    assert_eq!(result.operations, plan);
    assert!(result.errors.is_empty());
    assert!(result.dry_run);
}

#[test]
fn test_execute_plan_isolates_failures() {
    let plan = vec![
        SyncOperation::Create {
            label: desired("a", "d73a4a"),
        },
        SyncOperation::Delete {
            name: "b".to_string(),
            reason: "not defined in configuration".to_string(),
        },
        SyncOperation::Create {
            label: desired("c", "00ff00"),
        },
    ];
    let outcomes = vec![None, Some("store failure: b".to_string()), None];
    let result = execute_plan(&plan, &outcomes, false);
    // The failure of the middle operation leaves the later one counted.
    assert_eq!(result.created, 2);
    assert_eq!(result.deleted, 0);
    assert_eq!(
        result.operations,
        vec![plan[0].clone(), plan[2].clone()]
    );
    assert_eq!(result.errors, vec!["store failure: b".to_string()]);
    assert!(result.has_changes());
    assert_eq!(result.total_operations(), 2);
}

#[test]
fn test_dry_run_books_match_real_run() {
    let plan = vec![
        SyncOperation::Create {
            label: desired("a", "d73a4a"),
        },
        SyncOperation::NoChange {
            name: "b".to_string(),
        },
    ];
    let outcomes = vec![None, None];
    let wet = execute_plan(&plan, &outcomes, false);
    let dry = execute_plan(&plan, &outcomes, true);
    assert_eq!(dry.operations, wet.operations);
    assert_eq!(dry.created, wet.created);
    assert_eq!(dry.unchanged, wet.unchanged);
    assert_eq!(dry.errors, wet.errors);
    assert!(dry.dry_run && !wet.dry_run);
}

#[test]
fn test_no_changes_when_only_noops() {
    let mut result = SyncResult::new(false);
    result.add_operation(SyncOperation::NoChange {
        name: "bug".to_string(),
    });
    assert!(!result.has_changes());
    assert_eq!(result.total_operations(), 1);
    result.add_error("late failure".to_string());
    assert_eq!(result.errors.len(), 1);
    assert!(!result.has_changes());
}

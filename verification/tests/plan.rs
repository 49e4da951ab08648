//! Rollback plans: what runs, in which order, and what refuses it.

use rewind::db::UnknownIntervalRow;
use rewind::depgraph::{EvidenceKind, History};
use rewind::model::{
    Effect, EffectType, Fingerprint, OperationKind, OperationRecord, OperationStatus,
    Reversibility, TrackingConfidence, WorkspaceCondition,
};
use rewind::plan::{
    approve, confirm, needs_observation, plan_rollback, BlockReason, IncludedReason, Observation,
    PlanDecision, PlanInput, PlannedStep, RollbackConflict, RollbackPlan, RollbackTarget,
    TargetDirection,
};

fn changed(path: &str) -> Effect {
    let file = |hash: &str| Fingerprint::RegularFile {
        content_hash: hash.to_owned(),
        size: 1,
        metadata: Default::default(),
    };
    Effect {
        path: path.to_owned(),
        from_path: None,
        effect_type: EffectType::Modify,
        pre: file("a"),
        post: file("b"),
    }
}

fn operation(id: i64, status: OperationStatus) -> OperationRecord {
    OperationRecord {
        id,
        workspace_id: 1,
        kind: OperationKind::Strong,
        status,
        pre_state_id: Some(format!("s{}", id - 1)),
        post_state_id: Some(format!("s{id}")),
        command: Some(format!("cmd-{id}")),
        cwd: None,
        exit_code: Some(0),
        confidence: TrackingConfidence::FullyTracked,
        reversibility: Reversibility::FullyReversible,
        error: None,
        created_at: id * 10,
        effects: vec![changed("f")],
    }
}

fn input(operations: Vec<OperationRecord>) -> PlanInput {
    PlanInput {
        history: History {
            workspace_id: 1,
            operations,
            known_states: (0..10).map(|n| format!("s{n}")).collect(),
            boundaries: Vec::new(),
        },
        condition: WorkspaceCondition::Healthy,
        pending_bypass: false,
        unfinished: None,
        intervals: Vec::new(),
    }
}

fn three() -> Vec<OperationRecord> {
    (1..=3)
        .map(|id| operation(id, OperationStatus::Completed))
        .collect()
}

fn seen(state: &str) -> Option<Observation> {
    Some(Observation::Seen(state.to_owned()))
}

fn plan(input: PlanInput, targets: Vec<RollbackTarget>, live: Option<Observation>) -> RollbackPlan {
    plan_rollback(input, &targets, live).expect("plan")
}

#[test]
fn an_undo_takes_everything_after_it_along_newest_first() {
    let plan = plan(input(three()), vec![RollbackTarget::undo(2)], seen("s3"));
    assert_eq!(plan.decision, PlanDecision::Executable);
    assert!(plan.is_executable() && plan.live_state_checked && plan.complete);
    assert_eq!(
        plan.order,
        vec![
            PlannedStep {
                operation_id: 3,
                direction: TargetDirection::Undo,
                reason: IncludedReason::RequiredBy { operation_id: 2 },
            },
            PlannedStep {
                operation_id: 2,
                direction: TargetDirection::Undo,
                reason: IncludedReason::Selected,
            },
        ]
    );
    assert!(plan.conflicts.is_empty() && plan.block_reasons.is_empty());
    assert!(approve(&plan).is_ok());
}

#[test]
fn a_redo_stands_alone() {
    let mut ops = three();
    ops[2].status = OperationStatus::Undone;
    let plan = plan(input(ops), vec![RollbackTarget::redo(3)], seen("s2"));
    assert_eq!(plan.decision, PlanDecision::Executable);
    assert_eq!(plan.order.len(), 1);
    assert_eq!(plan.order[0].direction, TargetDirection::Redo);
}

#[test]
fn the_order_of_targets_does_not_matter() {
    let forward = plan(
        input(three()),
        vec![RollbackTarget::undo(2), RollbackTarget::undo(3)],
        None,
    );
    let backward = plan(
        input(three()),
        vec![
            RollbackTarget::undo(3),
            RollbackTarget::undo(2),
            RollbackTarget::undo(3),
        ],
        None,
    );
    assert_eq!(forward, backward);
    assert!(!needs_observation(&vec![
        RollbackTarget::undo(2),
        RollbackTarget::undo(3)
    ]));
    assert!(needs_observation(&vec![RollbackTarget::undo(2)]));
}

#[test]
fn a_live_state_that_differs_refuses() {
    let refused = plan(input(three()), vec![RollbackTarget::undo(3)], seen("elsewhere"));
    assert_eq!(refused.decision, PlanDecision::Refused);
    assert!(refused.block_reasons.contains(&BlockReason::LiveStateMismatch {
        expected_state_id: "s3".to_owned(),
        found_state_id: "elsewhere".to_owned(),
    }));
    assert!(approve(&refused).is_err());
    let blind = plan(
        input(three()),
        vec![RollbackTarget::undo(3)],
        Some(Observation::Unavailable("scan failed".to_owned())),
    );
    assert!(blind.conflicts.contains(&RollbackConflict::LiveStateUnavailable {
        detail: "scan failed".to_owned()
    }));
    assert_eq!(blind.decision, PlanDecision::Refused);
}

#[test]
fn gates_of_the_workspace_refuse() {
    let mut unhealthy = input(three());
    unhealthy.condition = WorkspaceCondition::Degraded;
    let refused = plan(unhealthy, vec![RollbackTarget::undo(3)], seen("s3"));
    assert!(refused
        .block_reasons
        .iter()
        .any(|reason| matches!(reason, BlockReason::WorkspaceNotHealthy { .. })));

    let mut busy = input(three());
    busy.unfinished = Some(5);
    let refused = plan(busy, vec![RollbackTarget::undo(3)], seen("s3"));
    assert!(refused.block_reasons.contains(&BlockReason::RecoveryRequired {
        transaction_id: "00000000-0000-0000-0000-000000000005".to_owned()
    }));

    let mut unknown = input(three());
    unknown.intervals = vec![UnknownIntervalRow {
        id: 4,
        start_state_id: None,
        end_state_id: None,
        reason: "gap".to_owned(),
        is_open: true,
        created_at: 25,
        closed_at: None,
    }];
    let refused = plan(unknown, vec![RollbackTarget::undo(2)], seen("s3"));
    assert_eq!(refused.decision, PlanDecision::Refused);
    assert!(refused
        .block_reasons
        .iter()
        .any(|reason| matches!(reason, BlockReason::UnknownInterval { interval_id: 4, .. })));
}

#[test]
fn what_cannot_be_reversed_refuses() {
    let mut ops = three();
    ops[2].reversibility = Reversibility::Unsupported;
    ops[2].effects[0].post = Fingerprint::Unsupported {
        object_kind: "SOCKET".to_owned(),
        descriptor: "0".to_owned(),
    };
    let refused = plan(input(ops), vec![RollbackTarget::undo(2)], seen("s3"));
    assert_eq!(refused.decision, PlanDecision::Refused);
    assert!(refused
        .block_reasons
        .iter()
        .any(|reason| matches!(reason, BlockReason::NotReversible { operation_id: 3, .. })));
    assert!(refused
        .block_reasons
        .iter()
        .any(|reason| matches!(reason, BlockReason::UnsupportedObject { operation_id: 3, .. })));

    let mut lost = three();
    lost[1].pre_state_id = Some("gone".to_owned());
    let refused = plan(input(lost), vec![RollbackTarget::undo(2)], seen("s3"));
    assert!(refused.block_reasons.contains(&BlockReason::MissingHistoricalState {
        operation_id: 2,
        state_id: "gone".to_owned()
    }));
    assert!(refused.conflicts.contains(&RollbackConflict::DependencyUnknown {
        operation_id: 2,
        evidence: EvidenceKind::StateLineage
    }));
    assert!(!refused.complete);
}

#[test]
fn targets_that_do_not_go_together_refuse() {
    let mut ops = three();
    ops[2].status = OperationStatus::Undone;
    let refused = plan(
        input(ops),
        vec![RollbackTarget::undo(2), RollbackTarget::redo(3)],
        None,
    );
    assert!(refused
        .conflicts
        .iter()
        .any(|conflict| matches!(conflict, RollbackConflict::ConflictingTargets { .. })));
    let refused = plan(input(three()), vec![RollbackTarget::redo(3)], seen("s2"));
    assert!(refused
        .conflicts
        .iter()
        .any(|conflict| matches!(conflict, RollbackConflict::TargetNotEligible { operation_id: 3, .. })));
}

#[test]
fn unknown_targets_and_no_targets_are_errors() {
    assert!(plan_rollback(input(three()), &vec![RollbackTarget::undo(9)], seen("s3")).is_err());
    assert!(plan_rollback(input(three()), &Vec::new(), None).is_err());
}

#[test]
fn a_plan_runs_only_while_it_still_holds() {
    let first = plan(input(three()), vec![RollbackTarget::undo(2)], seen("s3"));
    let same = plan(input(three()), vec![RollbackTarget::undo(2)], seen("s3"));
    assert_eq!(confirm(&first, &same).expect("confirmed").len(), 2);
    let mut more = three();
    more.push(operation(4, OperationStatus::Completed));
    let later = plan(input(more), vec![RollbackTarget::undo(2)], seen("s4"));
    assert!(confirm(&first, &later).is_err());
}

/// The text by which findings are ordered is the one that `Debug` writes.
#[test]
fn findings_are_written_as_debug_writes_them() {
    for conflict in [
        RollbackConflict::TargetNotEligible {
            operation_id: -1,
            status: "S\"\\\n".to_owned(),
            reversibility: "é".to_owned(),
            direction: TargetDirection::Redo,
        },
        RollbackConflict::ConflictingTargets {
            operation_ids: vec![1, 2],
            detail: String::new(),
        },
        RollbackConflict::DependencyUnknown {
            operation_id: 1,
            evidence: EvidenceKind::EffectOverlap,
        },
        RollbackConflict::UnknownInterval {
            interval_id: 1,
            reason: "r".to_owned(),
        },
        RollbackConflict::UnsupportedObject {
            operation_id: 1,
            path: "p".to_owned(),
            descriptor: "d".to_owned(),
        },
        RollbackConflict::MissingHistoricalState {
            operation_id: 1,
            state_id: "s".to_owned(),
        },
        RollbackConflict::IncompatibleOrdering {
            operation_ids: Vec::new(),
        },
        RollbackConflict::CycleDetected {
            nodes: vec!["OPERATION:1".to_owned(), "x".to_owned()],
        },
        RollbackConflict::LiveStateMismatch {
            expected_state_id: "a".to_owned(),
            found_state_id: "b".to_owned(),
        },
        RollbackConflict::LiveStateUnavailable {
            detail: "\u{1}'\t".to_owned(),
        },
    ] {
        assert_eq!(conflict.debug_text(), format!("{conflict:?}"));
    }
    for reason in [
        BlockReason::NotReversible {
            operation_id: 1,
            reversibility: "x".to_owned(),
        },
        BlockReason::UnknownInterval {
            interval_id: 1,
            detail: "x".to_owned(),
        },
        BlockReason::MissingHistoricalState {
            operation_id: 1,
            state_id: "x".to_owned(),
        },
        BlockReason::UnsupportedObject {
            operation_id: 1,
            path: "x".to_owned(),
        },
        BlockReason::WorkspaceNotHealthy {
            condition: "x".to_owned(),
            pending_bypass: true,
        },
        BlockReason::RecoveryRequired {
            transaction_id: "x".to_owned(),
        },
        BlockReason::ConflictingTargets {
            operation_ids: vec![-3],
            detail: "x".to_owned(),
        },
        BlockReason::CycleInClosure { nodes: Vec::new() },
        BlockReason::LiveStateMismatch {
            expected_state_id: "x".to_owned(),
            found_state_id: "y".to_owned(),
        },
        BlockReason::LiveStateUnavailable {
            detail: "x".to_owned(),
        },
    ] {
        assert_eq!(reason.debug_text(), format!("{reason:?}"));
    }
}

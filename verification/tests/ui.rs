//! The read-only inspection surface: commands and what they show.

use rewind::depgraph::{DependencyEdge, DependencyGraph};
use rewind::model::{
    OperationKind, OperationRecord, OperationStatus, Reversibility, TrackingConfidence,
};
use rewind::plan::{PlanDecision, RollbackPlan, RollbackTarget};
use rewind::ui::{help, parse, render_graph, render_history, render_plan, render_refusal, UiAction};

#[test]
fn plan_undo_accepts_many_ids() {
    assert_eq!(
        parse("plan undo 3 4"),
        UiAction::Plan {
            targets: vec![RollbackTarget::undo(3), RollbackTarget::undo(4)]
        }
    );
}

#[test]
fn plan_redo_accepts_exactly_one_id() {
    assert_eq!(
        parse("plan redo 7"),
        UiAction::Plan {
            targets: vec![RollbackTarget::redo(7)]
        }
    );
    assert!(matches!(parse("plan redo 7 8"), UiAction::Invalid { .. }));
}

#[test]
fn mutating_verbs_are_refused_not_ignored() {
    for verb in ["apply", "undo", "redo", "restore", "snapshot"] {
        match parse(verb) {
            UiAction::Refused { verb: refused, .. } => assert_eq!(refused, verb),
            other => panic!("{verb} must be refused, got {other:?}"),
        }
    }
}

#[test]
fn an_unknown_command_is_reported_as_invalid() {
    assert!(matches!(parse("frobnicate"), UiAction::Invalid { .. }));
}

#[test]
fn an_empty_line_shows_help() {
    assert_eq!(parse("   "), UiAction::Help);
}

#[test]
fn limits_and_operations_are_read() {
    assert_eq!(parse("history 5"), UiAction::History { limit: 5 });
    assert_eq!(
        parse("graph 12"),
        UiAction::Graph {
            operation: Some(12)
        }
    );
    assert_eq!(parse("graph"), UiAction::Graph { operation: None });
    assert_eq!(parse("quit"), UiAction::Quit);
    assert_eq!(parse("help"), UiAction::Help);
    assert_eq!(parse("history many"), UiAction::History { limit: 20 });
    assert_eq!(parse("history"), UiAction::History { limit: 20 });
    assert_eq!(parse("graph x"), UiAction::Graph { operation: None });
    assert!(matches!(parse("plan"), UiAction::Invalid { .. }));
    assert!(matches!(parse("plan undo"), UiAction::Invalid { .. }));
    assert!(matches!(parse("plan undo x"), UiAction::Invalid { .. }));
}

fn operation(id: i64) -> OperationRecord {
    OperationRecord {
        id,
        workspace_id: 0,
        kind: OperationKind::Strong,
        status: OperationStatus::Completed,
        pre_state_id: None,
        post_state_id: None,
        command: Some(format!("cmd-{id}")),
        cwd: None,
        exit_code: Some(0),
        confidence: TrackingConfidence::FullyTracked,
        reversibility: Reversibility::FullyReversible,
        error: None,
        created_at: id,
        effects: Vec::new(),
    }
}

#[test]
fn history_is_bounded_by_its_limit() {
    let all: Vec<OperationRecord> = (1..=4).map(operation).collect();
    assert_eq!(
        render_history(all.clone(), 2),
        "    3  STRONG              COMPLETED  FULLY_REVERSIBLE  cmd-3\n    4  STRONG              COMPLETED  FULLY_REVERSIBLE  cmd-4\n"
    );
    assert_eq!(render_history(all, 9).matches("cmd-").count(), 4);
}

#[test]
fn a_graph_view_can_be_narrowed_to_one_operation() {
    let graph = DependencyGraph::from_edges(
        "w",
        vec![
            DependencyEdge::state_lineage(1, 2, "s"),
            DependencyEdge::state_lineage(3, 4, "t"),
        ],
    );
    assert_eq!(
        render_graph(&graph, None),
        "4 nodes, 2 edges, 0 cycles, 0 incomplete\n  OPERATION:1 -> OPERATION:2  [STATE_LINEAGE]\n  OPERATION:3 -> OPERATION:4  [STATE_LINEAGE]\n"
    );
    assert_eq!(
        render_graph(&graph, Some(3)),
        "4 nodes, 2 edges, 0 cycles, 0 incomplete\n  OPERATION:3 -> OPERATION:4  [STATE_LINEAGE]\n"
    );
}

#[test]
fn a_plan_view_says_that_nothing_ran() {
    let plan = RollbackPlan {
        workspace_id: "w".to_owned(),
        targets: vec![RollbackTarget::undo(1)],
        decision: PlanDecision::Refused,
        order: Vec::new(),
        conflicts: Vec::new(),
        block_reasons: Vec::new(),
        unknowns: Vec::new(),
        advisory_context: Vec::new(),
        live_state_checked: false,
        complete: false,
    };
    assert_eq!(render_plan(&plan), "decision REFUSED\nnothing was executed\n");
}

#[test]
fn refusals_name_what_was_refused() {
    let refused = render_refusal(&parse("undo")).expect("refusal");
    assert!(refused.starts_with("refused: undo\nthis surface is read-only."));
    let invalid = render_refusal(&parse(" frobnicate ")).expect("invalid");
    assert_eq!(invalid, "invalid: frobnicate\nunknown command; type `help`\n");
    assert!(render_refusal(&UiAction::Help).is_none());
    assert!(help().contains("plan"));
}

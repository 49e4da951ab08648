//! Dependency graphs: cycles, normal form, reachability and histories.

use rewind::depgraph::{
    confidence_rank, DependencyEdge, DependencyGraph, EdgeConfidence, EvidenceKind, History,
    NodeId, EFFECT_SUPPORT_LIMIT,
};
use rewind::model::{
    Effect, EffectType, Fingerprint, OperationKind, OperationRecord, OperationStatus,
    Reversibility, TrackingConfidence,
};

fn lineage(from: i64, to: i64) -> DependencyEdge {
    DependencyEdge::state_lineage(from, to, "shared-state")
}

#[test]
fn detects_a_simple_cycle() {
    let graph = DependencyGraph::from_edges("w", vec![lineage(1, 2), lineage(2, 3), lineage(3, 1)]);
    assert_eq!(graph.cycles.len(), 1);
    assert_eq!(
        graph.cycles[0],
        vec![
            NodeId::operation(1),
            NodeId::operation(2),
            NodeId::operation(3)
        ]
    );
}

#[test]
fn detects_a_longer_cycle() {
    let graph = DependencyGraph::from_edges(
        "w",
        vec![lineage(1, 2), lineage(2, 3), lineage(3, 4), lineage(4, 2)],
    );
    assert_eq!(graph.cycles.len(), 1);
    assert_eq!(
        graph.cycles[0],
        vec![
            NodeId::operation(2),
            NodeId::operation(3),
            NodeId::operation(4)
        ],
        "a cycle is reported rotated to its smallest node"
    );
}

#[test]
fn detects_a_self_edge() {
    let graph = DependencyGraph::from_edges("w", vec![lineage(7, 7)]);
    assert_eq!(graph.cycles, vec![vec![NodeId::operation(7)]]);
}

#[test]
fn detects_two_independent_cycles() {
    let graph = DependencyGraph::from_edges(
        "w",
        vec![
            lineage(1, 2),
            lineage(2, 3),
            lineage(3, 1),
            lineage(10, 11),
            lineage(11, 12),
            lineage(12, 10),
        ],
    );
    assert_eq!(graph.cycles.len(), 2);
    assert_eq!(graph.cycles[0][0], NodeId::operation(1));
    assert_eq!(graph.cycles[1][0], NodeId::operation(10));
}

#[test]
fn a_cycle_next_to_unrelated_edges_is_still_reported() {
    let graph = DependencyGraph::from_edges("w", vec![lineage(1, 2), lineage(2, 1), lineage(3, 4)]);
    assert_eq!(graph.cycles.len(), 1);
    assert_eq!(
        graph.cycles[0],
        vec![NodeId::operation(1), NodeId::operation(2)]
    );
}

#[test]
fn normalisation_is_deterministic_under_shuffled_input() {
    let forward = vec![lineage(1, 2), lineage(2, 3), lineage(3, 1)];
    let backward = vec![lineage(3, 1), lineage(1, 2), lineage(2, 3)];
    let ordered = DependencyGraph::from_edges("w", forward);
    let shuffled = DependencyGraph::from_edges("w", backward);
    assert_eq!(ordered.nodes, shuffled.nodes);
    assert_eq!(ordered.edges, shuffled.edges);
    assert_eq!(ordered.cycles, shuffled.cycles);
    assert_eq!(format!("{ordered:?}"), format!("{shuffled:?}"));
}

#[test]
fn only_lineage_evidence_is_known() {
    assert_eq!(
        EvidenceKind::StateLineage.confidence(),
        EdgeConfidence::Known
    );
    assert_eq!(
        EvidenceKind::EffectOverlap.confidence(),
        EdgeConfidence::Advisory
    );
    assert_eq!(
        EvidenceKind::TemporalOrdering.confidence(),
        EdgeConfidence::Advisory
    );
    assert!(confidence_rank(EdgeConfidence::Known) < confidence_rank(EdgeConfidence::Advisory));
}

#[test]
fn reachability_respects_confidence() {
    let graph = DependencyGraph::from_edges(
        "w",
        vec![
            lineage(1, 2),
            DependencyEdge::effect_overlap(2, 3, vec!["a.txt".to_owned()]),
        ],
    );
    assert!(graph.reaches_known(&NodeId::operation(1), &NodeId::operation(2)));
    assert!(!graph.reaches_known(&NodeId::operation(1), &NodeId::operation(3)));
    assert!(graph.reaches_any(&NodeId::operation(1), &NodeId::operation(3)));
}

fn file(hash: &str) -> Fingerprint {
    Fingerprint::RegularFile {
        content_hash: hash.to_owned(),
        size: 1,
        metadata: Default::default(),
    }
}

fn changed(path: &str) -> Effect {
    Effect {
        path: path.to_owned(),
        from_path: None,
        effect_type: EffectType::Modify,
        pre: file("a"),
        post: file("b"),
    }
}

fn operation(id: i64, pre: &str, post: &str, created_at: i64, paths: &[&str]) -> OperationRecord {
    OperationRecord {
        id,
        workspace_id: 0,
        kind: OperationKind::Strong,
        status: OperationStatus::Completed,
        pre_state_id: Some(pre.to_owned()),
        post_state_id: Some(post.to_owned()),
        command: Some(format!("cmd-{id}")),
        cwd: None,
        exit_code: Some(0),
        confidence: TrackingConfidence::FullyTracked,
        reversibility: Reversibility::FullyReversible,
        error: None,
        created_at,
        effects: paths.iter().map(|path| changed(path)).collect(),
    }
}

fn history(operations: Vec<OperationRecord>, known: &[&str], boundaries: &[&str]) -> History {
    History {
        workspace_id: 1,
        operations,
        known_states: known.iter().map(|state| state.to_string()).collect(),
        boundaries: boundaries.iter().map(|id| id.to_string()).collect(),
    }
}

#[test]
fn lineage_edges_from_real_history_are_known() {
    let build = || {
        DependencyGraph::build(history(
            vec![
                operation(1, "s0", "s1", 10, &["one.txt"]),
                operation(2, "s1", "s2", 20, &["two.txt"]),
            ],
            &["s0", "s1", "s2"],
            &[],
        ))
    };
    let graph = build();
    assert!(graph.is_finished(), "a built graph is in normal form");

    let operations: Vec<&NodeId> = graph
        .nodes
        .iter()
        .filter(|node| matches!(node, NodeId::Operation { .. }))
        .collect();
    assert_eq!(operations.len(), 2, "one node per recorded operation");

    let known: Vec<_> = graph
        .edges
        .iter()
        .filter(|edge| edge.confidence == EdgeConfidence::Known)
        .collect();
    assert!(
        !known.is_empty(),
        "two chained strong captures share a state id, so a known edge must exist"
    );
    assert!(
        known
            .iter()
            .all(|edge| edge.evidence == EvidenceKind::StateLineage),
        "only state lineage may be known"
    );
    assert!(
        graph.cycles.is_empty(),
        "recorded history must not produce a cycle"
    );
    assert_eq!(graph, build());
}

#[test]
fn shared_paths_are_advisory_support() {
    let graph = DependencyGraph::build(history(
        vec![
            operation(1, "s0", "s1", 10, &["a.txt", "b.txt"]),
            operation(2, "x", "y", 20, &["b.txt", "c.txt"]),
        ],
        &["s0", "s1", "x", "y"],
        &["boundary"],
    ));
    let overlaps: Vec<&DependencyEdge> = graph
        .edges
        .iter()
        .filter(|edge| edge.evidence == EvidenceKind::EffectOverlap)
        .collect();
    assert_eq!(overlaps.len(), 1);
    assert_eq!(overlaps[0].from, NodeId::operation(1));
    assert_eq!(overlaps[0].to, NodeId::operation(2));
    assert_eq!(overlaps[0].support, vec!["b.txt".to_owned()]);
    assert!(!graph.reaches_known(&NodeId::operation(1), &NodeId::operation(2)));
    assert!(graph.nodes.contains(&NodeId::Boundary {
        id: "boundary".to_owned()
    }));
}

#[test]
fn support_is_bounded() {
    let names: Vec<String> = (0..40).map(|n| format!("file-{n:02}")).collect();
    let paths: Vec<&str> = names.iter().map(|name| name.as_str()).collect();
    let graph = DependencyGraph::build(history(
        vec![
            operation(1, "s0", "s1", 10, &paths),
            operation(2, "x", "y", 20, &paths),
        ],
        &["s0", "s1", "x", "y"],
        &[],
    ));
    let overlap = graph
        .edges
        .iter()
        .find(|edge| edge.evidence == EvidenceKind::EffectOverlap)
        .expect("overlap");
    assert_eq!(overlap.support.len(), EFFECT_SUPPORT_LIMIT + 1);
    assert_eq!(overlap.support[0], "file-00");
    assert_eq!(overlap.support[EFFECT_SUPPORT_LIMIT], "... (24 more)");
}

#[test]
fn missing_states_are_reported_as_gaps() {
    let graph = DependencyGraph::build(history(
        vec![operation(1, "gone", "s1", 10, &["a.txt"])],
        &["s1"],
        &[],
    ));
    assert_eq!(graph.incomplete.len(), 1);
    assert_eq!(graph.incomplete[0].operation_id, 1);
    assert_eq!(graph.incomplete[0].evidence, EvidenceKind::StateLineage);
    assert!(graph.incomplete[0].detail.contains("gone"));
}

#[test]
fn incident_edges_touch_the_node() {
    let graph = DependencyGraph::from_edges("w", vec![lineage(1, 2), lineage(2, 3), lineage(4, 5)]);
    let edges = graph.incident(&NodeId::operation(2));
    assert_eq!(edges.len(), 2);
    assert!(graph.incident(&NodeId::operation(9)).is_empty());
    assert_eq!(NodeId::operation(2).as_text(), "OPERATION:2");
}

//! The interactive surface. It shows what the library found and decides
//! nothing: a command that would change anything is refused.

use vstd::prelude::*;
use vstd::string::*;

use crate::depgraph::{
    DependencyEdge, DependencyGraph, EdgeConfidence, Gap, IncompleteEvidence, Link, NodeId, NodeKey,
};
use crate::model::OperationRecord;
use crate::order;
use crate::order::views;
use crate::plan::{Block, Conflict, IncludedReason, PlanDecision, PlannedStep, RollbackPlan, RollbackTarget};
use crate::plan::TargetDirection;
use crate::text;
use crate::text::decimal;
use crate::text::decimal_int;
use crate::text::filled;
use crate::text::shifted;
use crate::words;
use crate::words::signed;
use crate::words::trimmed;
use crate::words::unsigned;
use crate::words::words_of;

verus! {

/// What a line asks for.
#[derive(Clone, Debug, PartialEq, Eq)]
pub enum UiAction {
    Help,
    Quit,
    History { limit: usize },
    Graph { operation: Option<i64> },
    Plan { targets: Vec<RollbackTarget> },
    /// A command that this surface does not perform.
    Refused { verb: String, detail: String },
    Invalid { input: String, detail: String },
}

/// What a line asks for, with its texts as sequences.
pub enum Wish {
    Help,
    Quit,
    History { limit: int },
    Graph { operation: Option<int> },
    Plan { targets: Seq<RollbackTarget> },
    Refused { verb: Seq<char>, detail: Seq<char> },
    Invalid { input: Seq<char>, detail: Seq<char> },
}

impl View for UiAction {
    type V = Wish;

    open spec fn view(&self) -> Wish {
        match self {
            UiAction::Help => Wish::Help,
            UiAction::Quit => Wish::Quit,
            UiAction::History { limit } => Wish::History { limit: *limit as int },
            UiAction::Graph { operation } => Wish::Graph {
                operation: match operation {
                    Some(id) => Some(*id as int),
                    None => None,
                },
            },
            UiAction::Plan { targets } => Wish::Plan { targets: targets@ },
            UiAction::Refused { verb, detail } => Wish::Refused { verb: verb@, detail: detail@ },
            UiAction::Invalid { input, detail } => Wish::Invalid { input: input@, detail: detail@ },
        }
    }
}

/// The commands that change something.
pub open spec fn mutates(verb: Seq<char>) -> bool {
    ||| verb == "apply"@
    ||| verb == "undo"@
    ||| verb == "redo"@
    ||| verb == "restore"@
    ||| verb == "snapshot"@
    ||| verb == "reconcile"@
    ||| verb == "recover"@
}

/// The numbers among some words, in order.
pub open spec fn ids_among(list: Seq<Seq<char>>) -> Seq<i64> {
    order::kept(list, |w: Seq<char>| signed(w) is Some, |w: Seq<char>| signed(w)->0 as i64)
}

pub open spec fn targets_for(ids: Seq<i64>, direction: TargetDirection) -> Seq<RollbackTarget> {
    ids.map_values(|id: i64| RollbackTarget { operation_id: id, direction })
}

/// What a request for a plan asks for.
pub open spec fn plan_wish(line: Seq<char>, list: Seq<Seq<char>>) -> Wish {
    let direction = if list.len() > 1 {
        list[1]
    } else {
        ""@
    };
    let ids = ids_among(list.skip(2));
    if direction == "undo"@ && ids.len() > 0 {
        Wish::Plan { targets: targets_for(ids, TargetDirection::Undo) }
    } else if direction == "redo"@ && ids.len() == 1 {
        Wish::Plan { targets: targets_for(ids, TargetDirection::Redo) }
    } else {
        Wish::Invalid {
            input: trimmed(line),
            detail: if direction == "undo"@ {
                "usage: plan undo <id> [<id>...]"@
            } else if direction == "redo"@ {
                "usage: plan redo <id>"@
            } else {
                "usage: plan undo <id>... | plan redo <id>"@
            },
        }
    }
}

/// What a line asks for.
pub open spec fn wish_of(line: Seq<char>) -> Wish {
    let list = words_of(line);
    if list.len() == 0 {
        Wish::Help
    } else {
        let head = list[0];
        if head == "help"@ || head == "?"@ {
            Wish::Help
        } else if head == "quit"@ || head == "exit"@ || head == "q"@ {
            Wish::Quit
        } else if head == "history"@ {
            Wish::History {
                limit: if list.len() > 1 && unsigned(list[1]) is Some && unsigned(list[1])->0 <= usize::MAX {
                    unsigned(list[1])->0 as int
                } else {
                    20
                },
            }
        } else if head == "graph"@ {
            Wish::Graph {
                operation: if list.len() > 1 {
                    signed(list[1])
                } else {
                    None
                },
            }
        } else if head == "plan"@ {
            plan_wish(line, list)
        } else if mutates(head) {
            Wish::Refused {
                verb: head,
                detail: "this surface is read-only. It renders plans and never executes or mutates them; use `rewind apply rollback` explicitly."@,
            }
        } else {
            Wish::Invalid { input: trimmed(line), detail: "unknown command; type `help`"@ }
        }
    }
}

fn invalid(line: &str, detail: &str) -> (r: UiAction)
    ensures
        r@ == (Wish::Invalid { input: trimmed(line@), detail: detail@ }),
{
    UiAction::Invalid { input: words::trim(line), detail: text::copy(detail) }
}

fn is_mutating(verb: &str) -> (r: bool)
    ensures
        r == mutates(verb@),
{
    text::same(verb, "apply") || text::same(verb, "undo") || text::same(verb, "redo") || text::same(verb, "restore")
        || text::same(verb, "snapshot") || text::same(verb, "reconcile") || text::same(verb, "recover")
}

fn parse_plan(line: &str, list: &Vec<String>) -> (r: UiAction)
    requires
        views(list@) == words_of(line@),
        list@.len() > 0,
    ensures
        r@ == plan_wish(line@, words_of(line@)),
{
    let ghost all = words_of(line@);
    let ghost rest = all.skip(2);
    let ghost keep = |w: Seq<char>| signed(w) is Some;
    let ghost f = |w: Seq<char>| signed(w)->0 as i64;
    let mut ids: Vec<i64> = Vec::new();
    assert(rest.take(0) =~= Seq::<Seq<char>>::empty());
    let mut i: usize = 2;
    assert(list@.len() < 2 ==> all.skip(2) =~= all.skip(2));
    if list.len() >= 2 {
        while i < list.len()
            invariant
                2 <= i <= list@.len(),
                views(list@) == all,
                rest == all.skip(2),
                keep == (|w: Seq<char>| signed(w) is Some),
                f == (|w: Seq<char>| signed(w)->0 as i64),
                ids@ == order::kept(rest.take(i - 2), keep, f),
            decreases list@.len() - i,
        {
            proof {
                order::kept_step(rest, i - 2, keep, f);
                assert(rest[i - 2] == list@[i as int]@);
            }
            if let Some(id) = words::parse_i64(list[i].as_str()) {
                ids.push(id);
            }
            i = i + 1;
        }
        assert(rest.take(rest.len() as int) =~= rest);
        assert(ids@ == ids_among(rest));
    }
    let direction = if list.len() > 1 {
        list[1].as_str()
    } else {
        ""
    };
    if list.len() < 2 {
        proof {
            reveal_strlit("");
            reveal_strlit("undo");
            reveal_strlit("redo");
            assert(""@.len() == 0 && "undo"@.len() == 4 && "redo"@.len() == 4);
        }
        return invalid(line, "usage: plan undo <id>... | plan redo <id>");
    }
    if text::same(direction, "undo") && ids.len() > 0 {
        return UiAction::Plan { targets: targets_of(&ids, TargetDirection::Undo) };
    }
    if text::same(direction, "redo") && ids.len() == 1 {
        return UiAction::Plan { targets: targets_of(&ids, TargetDirection::Redo) };
    }
    if text::same(direction, "undo") {
        invalid(line, "usage: plan undo <id> [<id>...]")
    } else if text::same(direction, "redo") {
        invalid(line, "usage: plan redo <id>")
    } else {
        invalid(line, "usage: plan undo <id>... | plan redo <id>")
    }
}

fn targets_of(ids: &Vec<i64>, direction: TargetDirection) -> (r: Vec<RollbackTarget>)
    ensures
        r@ == targets_for(ids@, direction),
{
    let mut out: Vec<RollbackTarget> = Vec::new();
    for i in 0..ids.len()
        invariant
            out@ == targets_for(ids@.take(i as int), direction),
    {
        out.push(RollbackTarget { operation_id: ids[i], direction });
        assert(targets_for(ids@.take(i + 1), direction) =~= targets_for(ids@.take(i as int), direction).push(
            RollbackTarget { operation_id: ids@[i as int], direction },
        ));
    }
    assert(ids@.take(ids@.len() as int) =~= ids@);
    out
}

/// Reads one line.
pub fn parse(line: &str) -> (r: UiAction)
    ensures
        r@ == wish_of(line@),
{
    let list = words::words(line);
    if list.len() == 0 {
        return UiAction::Help;
    }
    let head = list[0].as_str();
    assert(words_of(line@)[0] == head@);
    if text::same(head, "help") || text::same(head, "?") {
        return UiAction::Help;
    }
    if text::same(head, "quit") || text::same(head, "exit") || text::same(head, "q") {
        return UiAction::Quit;
    }
    if text::same(head, "history") {
        let mut limit: usize = 20;
        if list.len() > 1 {
            assert(words_of(line@)[1] == list@[1]@);
            if let Some(n) = words::parse_u64(list[1].as_str()) {
                if n <= usize::MAX as u64 {
                    limit = n as usize;
                }
            }
        }
        return UiAction::History { limit };
    }
    if text::same(head, "graph") {
        let operation = if list.len() > 1 {
            assert(words_of(line@)[1] == list@[1]@);
            words::parse_i64(list[1].as_str())
        } else {
            None
        };
        return UiAction::Graph { operation };
    }
    if text::same(head, "plan") {
        return parse_plan(line, &list);
    }
    if is_mutating(head) {
        return UiAction::Refused {
            verb: text::copy(head),
            detail: text::copy(
                "this surface is read-only. It renders plans and never executes or mutates them; use `rewind apply rollback` explicitly.",
            ),
        };
    }
    invalid(line, "unknown command; type `help`")
}

// ---------------------------------------------------------------------------
// Showing
// ---------------------------------------------------------------------------

/// The line of an operation.
pub open spec fn history_line(op: OperationRecord) -> Seq<char> {
    shifted(decimal_int(op.id as int), 5) + "  "@ + filled(op.kind.text(), 19) + " "@ + filled(op.status.text(), 10)
        + " "@ + filled(op.reversibility.text(), 17) + " "@ + (match op.command {
        Some(command) => command@,
        None => "<no command>"@,
    }) + "\n"@
}

/// The texts of some values, one behind the other.
pub open spec fn all_lines<A>(list: Seq<A>, f: spec_fn(A) -> Seq<char>) -> Seq<char>
    decreases list.len(),
{
    if list.len() == 0 {
        Seq::empty()
    } else {
        all_lines(list.drop_last(), f) + f(list.last())
    }
}

proof fn lines_step<A>(list: Seq<A>, i: int, f: spec_fn(A) -> Seq<char>)
    requires
        0 <= i < list.len(),
    ensures
        all_lines(list.take(i + 1), f) == all_lines(list.take(i), f) + f(list[i]),
{
    assert(list.take(i + 1).drop_last() =~= list.take(i));
    assert(list.take(i + 1).last() == list[i]);
}

fn add_history_line(out: &mut String, op: &OperationRecord)
    ensures
        final(out)@ == old(out)@ + history_line(*op),
{
    let ghost start = out@;
    out.append(text::shift(text::decimal_i64(op.id).as_str(), 5).as_str());
    out.append("  ");
    out.append(text::fill(op.kind.as_str(), 19).as_str());
    out.append(" ");
    out.append(text::fill(op.status.as_str(), 10).as_str());
    out.append(" ");
    out.append(text::fill(op.reversibility.as_str(), 17).as_str());
    out.append(" ");
    match &op.command {
        Some(command) => {
            out.append(command.as_str());
        },
        None => {
            out.append("<no command>");
        },
    }
    out.append("\n");
    assert(out@ =~= start + history_line(*op));
}

/// The operations that a request for the history shows: the latest, oldest
/// first.
pub open spec fn shown_history(ops: Seq<OperationRecord>, limit: nat) -> Seq<OperationRecord> {
    let ordered = order::sorted(ops);
    if ordered.len() > limit {
        ordered.skip(ordered.len() - limit)
    } else {
        ordered
    }
}

/// Shows the latest operations, by the time they were recorded.
pub fn render_history(operations: Vec<OperationRecord>, limit: usize) -> (r: String)
    ensures
        r@ == all_lines(shown_history(operations@, limit as nat), |op: OperationRecord| history_line(op)),
{
    let ghost f = |op: OperationRecord| history_line(op);
    let ordered = order::sort(operations);
    let count = ordered.len();
    let from: usize = if count > limit {
        count - limit
    } else {
        0
    };
    let ghost shown = ordered@.skip(from as int);
    assert(shown =~= shown_history(operations@, limit as nat));
    proof {
        reveal_strlit("");
    }
    let mut out = text::copy("");
    assert(shown.take(0) =~= Seq::<OperationRecord>::empty());
    assert(out@ =~= all_lines(shown.take(0), f));
    for i in from..count
        invariant
            count == ordered@.len(),
            from <= count,
            shown == ordered@.skip(from as int),
            f == (|op: OperationRecord| history_line(op)),
            out@ == all_lines(shown.take(i - from), f),
    {
        proof {
            lines_step(shown, i - from, f);
            assert(shown[i - from] == ordered@[i as int]);
        }
        add_history_line(&mut out, &ordered[i]);
    }
    assert(shown.take(shown.len() as int) =~= shown);
    out
}

/// The line of an edge.
pub open spec fn edge_line(e: Link) -> Seq<char> {
    "  "@ + e.from.as_text() + " "@ + (if e.confidence == EdgeConfidence::Known {
        "->"@
    } else {
        "~>"@
    }) + " "@ + e.to.as_text() + "  ["@ + e.evidence.text() + "]\n"@
}

/// The line of evidence that is missing.
pub open spec fn gap_line(g: Gap) -> Seq<char> {
    "  ? operation "@ + decimal_int(g.operation_id as int) + "  "@ + g.evidence.text() + "  "@ + g.detail + "\n"@
}

/// Whether an edge touches an operation.
pub open spec fn touches(e: Link, operation: Option<i64>) -> bool {
    match operation {
        Some(id) => e.from == (NodeKey::Operation { id }) || e.to == (NodeKey::Operation { id }),
        None => true,
    }
}

/// What is shown of a graph: its size, its edges or those of one operation, and
/// with all of it the evidence that is missing.
pub open spec fn graph_text(graph: DependencyGraph, operation: Option<i64>) -> Seq<char> {
    decimal(graph.nodes@.len()) + " nodes, "@ + decimal(graph.edges@.len()) + " edges, "@ + decimal(
        graph.cycles@.len(),
    ) + " cycles, "@ + decimal(graph.incomplete@.len()) + " incomplete\n"@ + all_lines(
        views(graph.edges@),
        |e: Link|
            if touches(e, operation) {
                edge_line(e)
            } else {
                Seq::empty()
            },
    ) + (if operation is None {
        all_lines(views(graph.incomplete@), |g: Gap| gap_line(g))
    } else {
        Seq::empty()
    })
}

fn add_edge_line(out: &mut String, edge: &DependencyEdge)
    ensures
        final(out)@ == old(out)@ + edge_line(edge@),
{
    let ghost start = out@;
    out.append("  ");
    out.append(edge.from.as_text().as_str());
    out.append(" ");
    match edge.confidence {
        EdgeConfidence::Known => {
            out.append("->");
        },
        EdgeConfidence::Advisory => {
            out.append("~>");
        },
    }
    out.append(" ");
    out.append(edge.to.as_text().as_str());
    out.append("  [");
    out.append(edge.evidence.as_str());
    out.append("]\n");
    assert(out@ =~= start + edge_line(edge@));
}

fn add_gap_line(out: &mut String, record: &IncompleteEvidence)
    ensures
        final(out)@ == old(out)@ + gap_line(record@),
{
    let ghost start = out@;
    out.append("  ? operation ");
    out.append(text::decimal_i64(record.operation_id).as_str());
    out.append("  ");
    out.append(record.evidence.as_str());
    out.append("  ");
    out.append(record.detail.as_str());
    out.append("\n");
    assert(out@ =~= start + gap_line(record@));
}

/// Shows a graph, or the part of it around one operation.
pub fn render_graph(graph: &DependencyGraph, operation: Option<i64>) -> (r: String)
    ensures
        r@ == graph_text(*graph, operation),
{
    let ghost f = |e: Link|
        if touches(e, operation) {
            edge_line(e)
        } else {
            Seq::<char>::empty()
        };
    let ghost g = |gap: Gap| gap_line(gap);
    let mut out = text::decimal_usize(graph.nodes.len());
    out.append(" nodes, ");
    out.append(text::decimal_usize(graph.edges.len()).as_str());
    out.append(" edges, ");
    out.append(text::decimal_usize(graph.cycles.len()).as_str());
    out.append(" cycles, ");
    out.append(text::decimal_usize(graph.incomplete.len()).as_str());
    out.append(" incomplete\n");
    let ghost head = out@;
    let ghost links = views(graph.edges@);
    assert(links.take(0) =~= Seq::<Link>::empty());
    assert(out@ =~= head + all_lines(links.take(0), f));
    for i in 0..graph.edges.len()
        invariant
            links == views(graph.edges@),
            f == (|e: Link|
                if touches(e, operation) {
                    edge_line(e)
                } else {
                    Seq::<char>::empty()
                }),
            out@ == head + all_lines(links.take(i as int), f),
    {
        let edge = &graph.edges[i];
        proof {
            lines_step(links, i as int, f);
            assert(links[i as int] == edge@);
        }
        let shown = match operation {
            Some(id) => is_operation(&edge.from, id) || is_operation(&edge.to, id),
            None => true,
        };
        let ghost before = out@;
        if shown {
            add_edge_line(&mut out, edge);
        } else {
            assert(out@ =~= before + Seq::<char>::empty());
        }
        assert(out@ =~= head + (all_lines(links.take(i as int), f) + f(edge@)));
    }
    assert(links.take(links.len() as int) =~= links);
    let ghost middle = out@;
    let ghost gaps = views(graph.incomplete@);
    if operation.is_none() {
        assert(gaps.take(0) =~= Seq::<Gap>::empty());
        assert(out@ =~= middle + all_lines(gaps.take(0), g));
        for i in 0..graph.incomplete.len()
            invariant
                gaps == views(graph.incomplete@),
                g == (|gap: Gap| gap_line(gap)),
                out@ == middle + all_lines(gaps.take(i as int), g),
        {
            let record = &graph.incomplete[i];
            proof {
                lines_step(gaps, i as int, g);
                assert(gaps[i as int] == record@);
            }
            add_gap_line(&mut out, record);
            assert(out@ =~= middle + (all_lines(gaps.take(i as int), g) + g(record@)));
        }
        assert(gaps.take(gaps.len() as int) =~= gaps);
    } else {
        assert(out@ =~= middle + Seq::<char>::empty());
    }
    out
}

fn is_operation(node: &NodeId, id: i64) -> (r: bool)
    ensures
        r == (node@ == (NodeKey::Operation { id })),
{
    match node {
        NodeId::Operation { id: found } => *found == id,
        _ => false,
    }
}

/// The line of a step of a plan.
pub open spec fn plan_line(position: nat, step: PlannedStep) -> Seq<char> {
    "  "@ + decimal(position) + ". undo operation "@ + decimal_int(step.operation_id as int) + " ("@ + (
    match step.reason {
        IncludedReason::Selected => "selected"@,
        IncludedReason::RequiredBy { operation_id } => "required by "@ + decimal_int(operation_id as int),
    }) + ")\n"@
}

pub open spec fn plan_lines(order: Seq<PlannedStep>) -> Seq<char>
    decreases order.len(),
{
    if order.len() == 0 {
        Seq::empty()
    } else {
        plan_lines(order.drop_last()) + plan_line(order.len(), order.last())
    }
}

/// What is shown of a plan. It always ends by saying that nothing was executed.
pub open spec fn plan_text(plan: RollbackPlan) -> Seq<char> {
    "decision "@ + (match plan.decision {
        PlanDecision::Executable => "EXECUTABLE"@,
        PlanDecision::Refused => "REFUSED"@,
    }) + "\n"@ + plan_lines(plan.order@) + all_lines(
        views(plan.block_reasons@),
        |b: Block| "  blocked: "@ + b.debug() + "\n"@,
    ) + all_lines(views(plan.conflicts@), |c: Conflict| "  conflict: "@ + c.debug() + "\n"@) + (
    if plan.advisory_context@.len() > 0 {
        "  "@ + decimal(plan.advisory_context@.len()) + " advisory edges shown as context and not acted on\n"@
    } else {
        Seq::empty()
    }) + "nothing was executed\n"@
}

/// Shows a plan.
pub fn render_plan(plan: &RollbackPlan) -> (r: String)
    ensures
        r@ == plan_text(*plan),
{
    let mut out = text::copy("decision ");
    match plan.decision {
        PlanDecision::Executable => {
            out.append("EXECUTABLE");
        },
        PlanDecision::Refused => {
            out.append("REFUSED");
        },
    }
    out.append("\n");
    let ghost head = out@;
    assert(plan.order@.take(0) =~= Seq::<PlannedStep>::empty());
    assert(out@ =~= head + plan_lines(plan.order@.take(0)));
    for i in 0..plan.order.len()
        invariant
            out@ == head + plan_lines(plan.order@.take(i as int)),
    {
        let step = &plan.order[i];
        proof {
            let more = plan.order@.take(i + 1);
            assert(more.drop_last() =~= plan.order@.take(i as int));
            assert(more.last() == *step);
        }
        let ghost before = out@;
        out.append("  ");
        out.append(text::decimal_u64(i as u64 + 1).as_str());
        out.append(". undo operation ");
        out.append(text::decimal_i64(step.operation_id).as_str());
        out.append(" (");
        match step.reason {
            IncludedReason::Selected => {
                out.append("selected");
            },
            IncludedReason::RequiredBy { operation_id } => {
                out.append("required by ");
                out.append(text::decimal_i64(operation_id).as_str());
            },
        }
        out.append(")\n");
        assert(out@ =~= before + plan_line((i + 1) as nat, *step));
        assert(out@ =~= head + (plan_lines(plan.order@.take(i as int)) + plan_line((i + 1) as nat, *step)));
    }
    assert(plan.order@.take(plan.order@.len() as int) =~= plan.order@);
    let ghost second = out@;
    let ghost blocks = views(plan.block_reasons@);
    let ghost f = |b: Block| "  blocked: "@ + b.debug() + "\n"@;
    assert(blocks.take(0) =~= Seq::<Block>::empty());
    assert(out@ =~= second + all_lines(blocks.take(0), f));
    for i in 0..plan.block_reasons.len()
        invariant
            blocks == views(plan.block_reasons@),
            f == (|b: Block| "  blocked: "@ + b.debug() + "\n"@),
            out@ == second + all_lines(blocks.take(i as int), f),
    {
        let reason = &plan.block_reasons[i];
        proof {
            lines_step(blocks, i as int, f);
            assert(blocks[i as int] == reason@);
        }
        let ghost before = out@;
        out.append("  blocked: ");
        out.append(reason.debug_text().as_str());
        out.append("\n");
        assert(out@ =~= before + f(reason@));
        assert(out@ =~= second + (all_lines(blocks.take(i as int), f) + f(reason@)));
    }
    assert(blocks.take(blocks.len() as int) =~= blocks);
    let ghost third = out@;
    let ghost conflicts = views(plan.conflicts@);
    let ghost g = |c: Conflict| "  conflict: "@ + c.debug() + "\n"@;
    assert(conflicts.take(0) =~= Seq::<Conflict>::empty());
    assert(out@ =~= third + all_lines(conflicts.take(0), g));
    for i in 0..plan.conflicts.len()
        invariant
            conflicts == views(plan.conflicts@),
            g == (|c: Conflict| "  conflict: "@ + c.debug() + "\n"@),
            out@ == third + all_lines(conflicts.take(i as int), g),
    {
        let conflict = &plan.conflicts[i];
        proof {
            lines_step(conflicts, i as int, g);
            assert(conflicts[i as int] == conflict@);
        }
        let ghost before = out@;
        out.append("  conflict: ");
        out.append(conflict.debug_text().as_str());
        out.append("\n");
        assert(out@ =~= before + g(conflict@));
        assert(out@ =~= third + (all_lines(conflicts.take(i as int), g) + g(conflict@)));
    }
    assert(conflicts.take(conflicts.len() as int) =~= conflicts);
    let ghost fourth = out@;
    if plan.advisory_context.len() > 0 {
        out.append("  ");
        out.append(text::decimal_usize(plan.advisory_context.len()).as_str());
        out.append(" advisory edges shown as context and not acted on\n");
    } else {
        assert(out@ =~= fourth + Seq::<char>::empty());
    }
    out.append("nothing was executed\n");
    assert(out@ =~= plan_text(*plan));
    out
}

pub open spec fn help_text() -> Seq<char> {
    "commands:\n  history [n]          recorded operations, oldest first (default 20)\n  graph [operation]    the dependency graph, or the edges incident to one operation\n  plan undo <id>...    what a rollback would do; never executes\n  plan redo <id>       the same for one redo target\n  help                 this text\n  quit                 leave\n"@
}

/// The help text.
pub fn help() -> (r: String)
    ensures
        r@ == help_text(),
{
    text::copy(
        "commands:\n  history [n]          recorded operations, oldest first (default 20)\n  graph [operation]    the dependency graph, or the edges incident to one operation\n  plan undo <id>...    what a rollback would do; never executes\n  plan redo <id>       the same for one redo target\n  help                 this text\n  quit                 leave\n",
    )
}

/// What is shown for a line that is refused or not understood.
pub fn render_refusal(action: &UiAction) -> (r: Option<String>)
    ensures
        match action@ {
            Wish::Refused { verb, detail } => r is Some && r->0@ == "refused: "@ + verb + "\n"@ + detail + "\n"@,
            Wish::Invalid { input, detail } => r is Some && r->0@ == "invalid: "@ + input + "\n"@ + detail + "\n"@,
            _ => r is None,
        },
{
    let (prefix, subject, detail) = match action {
        UiAction::Refused { verb, detail } => ("refused: ", verb.as_str(), detail.as_str()),
        UiAction::Invalid { input, detail } => ("invalid: ", input.as_str(), detail.as_str()),
        _ => {
            return None;
        },
    };
    let mut out = text::copy(prefix);
    out.append(subject);
    out.append("\n");
    out.append(detail);
    out.append("\n");
    Some(out)
}

/// No line makes this surface change anything: a command that would is refused.
pub proof fn surface_is_read_only(line: Seq<char>)
    requires
        words_of(line).len() > 0,
        mutates(words_of(line)[0]),
    ensures
        wish_of(line) is Refused,
{
    reveal_strlit("apply");
    reveal_strlit("undo");
    reveal_strlit("redo");
    reveal_strlit("restore");
    reveal_strlit("snapshot");
    reveal_strlit("reconcile");
    reveal_strlit("recover");
    reveal_strlit("help");
    reveal_strlit("?");
    reveal_strlit("quit");
    reveal_strlit("exit");
    reveal_strlit("q");
    reveal_strlit("history");
    reveal_strlit("graph");
    reveal_strlit("plan");
    assert("apply"@.len() == 5 && "apply"@[0] == 'a');
    assert("undo"@.len() == 4 && "undo"@[0] == 'u');
    assert("redo"@.len() == 4 && "redo"@[0] == 'r');
    assert("restore"@.len() == 7 && "restore"@[0] == 'r');
    assert("snapshot"@.len() == 8 && "snapshot"@[0] == 's');
    assert("reconcile"@.len() == 9 && "reconcile"@[0] == 'r');
    assert("recover"@.len() == 7 && "recover"@[0] == 'r');
    assert("help"@.len() == 4 && "help"@[0] == 'h');
    assert("?"@.len() == 1);
    assert("quit"@.len() == 4 && "quit"@[0] == 'q');
    assert("exit"@.len() == 4 && "exit"@[0] == 'e');
    assert("q"@.len() == 1);
    assert("history"@.len() == 7 && "history"@[0] == 'h');
    assert("graph"@.len() == 5 && "graph"@[0] == 'g');
    assert("plan"@.len() == 4 && "plan"@[0] == 'p');
}

// ---------------------------------------------------------------------------
// What the calls promise
// ---------------------------------------------------------------------------

proof fn line_is_among<A>(list: Seq<A>, f: spec_fn(A) -> Seq<char>, k: int) -> (parts: (Seq<char>, Seq<char>))
    requires
        0 <= k < list.len(),
    ensures
        all_lines(list, f) == parts.0 + f(list[k]) + parts.1,
    decreases list.len(),
{
    let head = all_lines(list.drop_last(), f);
    if k == list.len() - 1 {
        assert(head + f(list[k]) =~= head + f(list[k]) + Seq::<char>::empty());
        (head, Seq::empty())
    } else {
        let (a, b) = line_is_among(list.drop_last(), f, k);
        assert(list.drop_last()[k] == list[k]);
        assert(a + f(list[k]) + b + f(list.last()) =~= a + f(list[k]) + (b + f(list.last())));
        (a, b + f(list.last()))
    }
}

/// A text with something before it and something behind it.
pub open spec fn around(before: Seq<char>, middle: Seq<char>, behind: Seq<char>) -> Seq<char> {
    before + middle + behind
}

/// A history with room for every operation shows each of them, with its command
/// exactly where one is recorded.
pub proof fn a_history_shows_each_command(
    operations: Vec<OperationRecord>,
    limit: usize,
    r: String,
    i: int,
    said: Seq<char>,
)
    requires
        call_ensures(render_history, (operations, limit), r),
        operations@.len() <= limit,
        0 <= i < operations@.len(),
        operations@[i].command is Some ==> said == operations@[i].command->0@ + "\n"@,
        operations@[i].command is None ==> said == "<no command>"@ + "\n"@,
    ensures
        exists|a: Seq<char>, b: Seq<char>| r@ == #[trigger] around(a, said, b),
{
    let op = operations@[i];
    let list = shown_history(operations@, limit as nat);
    order::sorted_ascends(operations@);
    let p = crate::depgraph::position(operations@, i);
    let f = |op: OperationRecord| history_line(op);
    assert(list[p] == op);
    let (x, y) = line_is_among(list, f, p);
    let command = match op.command {
        Some(command) => command@,
        None => "<no command>"@,
    };
    let lead = shifted(decimal_int(op.id as int), 5) + "  "@ + filled(op.kind.text(), 19) + " "@ + filled(
        op.status.text(),
        10,
    ) + " "@ + filled(op.reversibility.text(), 17) + " "@;
    assert(f(list[p]) == lead + command + "\n"@);
    assert(x + (lead + command + "\n"@) + y =~= (x + lead) + said + y);
    assert(r@ == around(x + lead, said, y));
}

/// A plan is shown with its decision first, and with the word that nothing was
/// executed last.
pub proof fn a_shown_plan_says_what_was_decided(plan: RollbackPlan, r: String)
    requires
        call_ensures(render_plan, (&plan,), r),
    ensures
        plan.decision == PlanDecision::Executable ==> exists|rest: Seq<char>|
            r@ == #[trigger] around("decision "@, "EXECUTABLE\n"@, rest),
        plan.decision == PlanDecision::Refused ==> exists|rest: Seq<char>|
            r@ == #[trigger] around("decision "@, "REFUSED\n"@, rest),
        exists|most: Seq<char>| r@ == #[trigger] around(most, "nothing was executed\n"@, Seq::empty()),
{
    let first = "decision "@ + (match plan.decision {
        PlanDecision::Executable => "EXECUTABLE"@,
        PlanDecision::Refused => "REFUSED"@,
    }) + "\n"@;
    let steps = plan_lines(plan.order@);
    let blocks = all_lines(views(plan.block_reasons@), |b: Block| "  blocked: "@ + b.debug() + "\n"@);
    let conflicts = all_lines(views(plan.conflicts@), |c: Conflict| "  conflict: "@ + c.debug() + "\n"@);
    let advice = if plan.advisory_context@.len() > 0 {
        "  "@ + decimal(plan.advisory_context@.len()) + " advisory edges shown as context and not acted on\n"@
    } else {
        Seq::empty()
    };
    let end = "nothing was executed\n"@;
    assert(r@ == first + steps + blocks + conflicts + advice + end);
    let rest = steps + blocks + conflicts + advice + end;
    let most = first + steps + blocks + conflicts + advice;
    reveal_strlit("EXECUTABLE");
    reveal_strlit("EXECUTABLE\n");
    reveal_strlit("REFUSED");
    reveal_strlit("REFUSED\n");
    reveal_strlit("\n");
    assert("EXECUTABLE"@ + "\n"@ =~= "EXECUTABLE\n"@);
    assert("REFUSED"@ + "\n"@ =~= "REFUSED\n"@);
    assert(r@ =~= first + rest);
    if plan.decision == PlanDecision::Executable {
        assert(r@ =~= around("decision "@, "EXECUTABLE\n"@, rest));
    } else {
        assert(r@ =~= around("decision "@, "REFUSED\n"@, rest));
    }
    assert(r@ =~= around(most, end, Seq::empty()));
}

/// What is shown of a graph has a line for each edge that touches the operation
/// that was asked for, or for every edge where none was, and it tells facts from
/// correlations.
pub proof fn a_shown_graph_has_its_edges(graph: DependencyGraph, operation: Option<i64>, r: String, k: int, arrow: Seq<char>)
    requires
        call_ensures(render_graph, (&graph, operation), r),
        0 <= k < graph.edges@.len(),
        operation is Some ==> graph.edges@[k].from@ == (NodeKey::Operation { id: operation->0 })
            || graph.edges@[k].to@ == (NodeKey::Operation { id: operation->0 }),
        arrow == if graph.edges@[k].confidence == EdgeConfidence::Known {
            " -> "@
        } else {
            " ~> "@
        },
    ensures
        exists|a: Seq<char>, b: Seq<char>|
            r@ == #[trigger] around(a, graph.edges@[k].from@.as_text() + arrow + graph.edges@[k].to@.as_text(), b),
{
    let links = views(graph.edges@);
    let e = links[k];
    assert(e == graph.edges@[k]@);
    let f = |e: Link|
        if touches(e, operation) {
            edge_line(e)
        } else {
            Seq::empty()
        };
    let (x, y) = line_is_among(links, f, k);
    let head = decimal(graph.nodes@.len()) + " nodes, "@ + decimal(graph.edges@.len()) + " edges, "@ + decimal(
        graph.cycles@.len(),
    ) + " cycles, "@ + decimal(graph.incomplete@.len()) + " incomplete\n"@;
    let tail = if operation is None {
        all_lines(views(graph.incomplete@), |g: Gap| gap_line(g))
    } else {
        Seq::empty()
    };
    assert(r@ == head + all_lines(links, f) + tail);
    let end = edge_parts(e, arrow);
    let middle = e.from.as_text() + arrow + e.to.as_text();
    assert(f(links[k]) == "  "@ + middle + end);
    regrouped(head, x, "  "@, middle, end, y, tail);
    assert(r@ == around(head + x + "  "@, middle, end + y + tail));
}

proof fn edge_parts(e: Link, arrow: Seq<char>) -> (end: Seq<char>)
    requires
        arrow == if e.confidence == EdgeConfidence::Known {
            " -> "@
        } else {
            " ~> "@
        },
    ensures
        edge_line(e) == "  "@ + (e.from.as_text() + arrow + e.to.as_text()) + end,
{
    let mark = if e.confidence == EdgeConfidence::Known {
        "->"@
    } else {
        "~>"@
    };
    assert(" "@ + mark + " "@ == arrow) by {
        reveal_strlit("->");
        reveal_strlit("~>");
        reveal_strlit(" -> ");
        reveal_strlit(" ~> ");
        reveal_strlit(" ");
        assert(" "@ + mark + " "@ =~= arrow);
    }
    edge_regrouped("  "@, e.from.as_text(), " "@, mark, e.to.as_text(), "  ["@, e.evidence.text(), "]\n"@);
    "  ["@ + e.evidence.text() + "]\n"@
}

proof fn edge_regrouped(
    lead: Seq<char>,
    from: Seq<char>,
    gap: Seq<char>,
    mark: Seq<char>,
    to: Seq<char>,
    opening: Seq<char>,
    evidence: Seq<char>,
    closing: Seq<char>,
)
    ensures
        lead + from + gap + mark + gap + to + opening + evidence + closing == lead + (from + (gap + mark + gap) + to) + (
        opening + evidence + closing),
{
    let line = lead + from + gap + mark + gap + to;
    assert(line =~= lead + (from + (gap + mark + gap) + to));
    assert(line + opening + evidence + closing =~= line + (opening + evidence + closing));
}

proof fn regrouped(
    head: Seq<char>,
    x: Seq<char>,
    lead: Seq<char>,
    middle: Seq<char>,
    end: Seq<char>,
    y: Seq<char>,
    tail: Seq<char>,
)
    ensures
        head + (x + (lead + middle + end) + y) + tail == around(head + x + lead, middle, end + y + tail),
{
    assert(x + (lead + middle + end) + y =~= (x + lead + middle) + (end + y));
    assert(head + ((x + lead + middle) + (end + y)) + tail =~= (head + x + lead + middle) + (end + y + tail));
}

} // verus!

//! The decisions of a run: what a node does next, and what the end of a build means.
use crate::builder::node::ShardNode;
use crate::dag::{DagQueue, DagState};
use crate::executor::bake::BuildError;
use crate::logs;
use crate::logs::log_path;
use crate::order;
use crate::text;
use crate::text::{add_text, copy_texts, decimal_of, joined};
use crate::tui::state;
use crate::tui::state::{BoardView, DashboardState, StatusView, TargetStatus};
use vstd::prelude::*;
use vstd::string::*;

pub mod laws;

verus! {

/// A build to be done.
#[derive(Debug, Clone)]
pub struct BuildRequest {
    /// The builder of the node.
    pub shard_builder: String,
    pub target: String,
    /// The platforms that the target asks for.
    pub platforms: Vec<String>,
    pub log_path: String,
}

/// What a request holds.
#[verifier::ext_equal]
pub struct RequestView {
    pub shard_builder: Seq<char>,
    pub target: Seq<char>,
    pub platforms: Seq<Seq<char>>,
    pub log_path: Seq<char>,
}

impl View for BuildRequest {
    type V = RequestView;

    open spec fn view(&self) -> RequestView {
        RequestView {
            shard_builder: self.shard_builder@,
            target: self.target@,
            platforms: text::texts(self.platforms@),
            log_path: self.log_path@,
        }
    }
}

/// What a node does next.
pub enum Turn {
    /// It has nothing more to do.
    Exit,
    /// It waits for a build to end.
    Wait,
    /// It builds a target.
    Build(BuildRequest),
}

/// What a node does next.
pub enum TurnView {
    Exit,
    Wait,
    Build(RequestView),
}

impl View for Turn {
    type V = TurnView;

    open spec fn view(&self) -> TurnView {
        match self {
            Turn::Exit => TurnView::Exit,
            Turn::Wait => TurnView::Wait,
            Turn::Build(r) => TurnView::Build(r@),
        }
    }
}

/// What a node does next, and the queue then. It claims one target at a time: a fast node is
/// done sooner and takes the next one.
pub open spec fn next_turn(
    q: DagState,
    node: Seq<Seq<char>>,
    shard_builder: Seq<char>,
    run_dir: Seq<char>,
    cancelled: bool,
) -> (TurnView, DagState) {
    let at = q.first_fit(node);
    if cancelled {
        (TurnView::Exit, q)
    } else if at < q.ready.len() {
        let t = q.ready[at];
        (
            TurnView::Build(
                RequestView {
                    shard_builder,
                    target: t,
                    platforms: q.wants(t),
                    log_path: logs::log_file_of(run_dir, t),
                },
            ),
            q.claim_at(at),
        )
    } else if q.done() || q.stalled() {
        (TurnView::Exit, q)
    } else {
        (TurnView::Wait, q)
    }
}

/// What a node does next: it claims a target that it can build; where there is none it waits for
/// a build to end, unless no build can still end.
pub fn worker_turn(queue: &mut DagQueue, node: &ShardNode, run_dir: &str, cancelled: bool) -> (r:
    Turn)
    requires
        old(queue).wf(),
    ensures
        final(queue).wf(),
        (r@, final(queue)@) == next_turn(
            old(queue)@,
            text::texts(node.platforms@),
            node.shard_builder@,
            run_dir@,
            cancelled,
        ),
{
    if cancelled {
        return Turn::Exit;
    }
    match queue.claim_for_platforms(node.platforms.as_slice()) {
        Some(target) => {
            let platforms = copy_texts(queue.target_platforms(target.as_str()));
            let log = log_path(run_dir, target.as_str());
            let request = BuildRequest {
                shard_builder: node.shard_builder.clone(),
                target,
                platforms,
                log_path: log,
            };
            Turn::Build(request)
        },
        None => {
            if queue.is_done() || queue.is_stalled() {
                Turn::Exit
            } else {
                Turn::Wait
            }
        },
    }
}

/// Notes that a build starts: where its log is, and that it is being built.
pub fn begin_build(state: &mut DashboardState, node_name: &str, request: &BuildRequest)
    requires
        old(state).wf(),
        old(state)@.version + 2 <= u64::MAX,
    ensures
        final(state).wf(),
        old(state)@.with_log_path(request.target@, request.log_path@).comes_to(
            request.target@,
            node_name@,
            StatusView::Building,
            final(state)@,
        ),
{
    state.set_log_path(request.target.as_str(), request.log_path.clone());
    state.set_target_status(request.target.as_str(), node_name, TargetStatus::Building);
}

/// A link in the chain of causes of an error: an error of a build, or any other, by its text.
#[derive(Debug, Clone)]
pub enum Cause {
    Build(BuildError),
    Other(String),
}

impl Cause {
    /// Whether this says that the build was cancelled.
    pub open spec fn cancels(self) -> bool {
        self matches Cause::Build(e) && e is Cancelled
    }

    /// The text of the cause.
    pub open spec fn text_of(self) -> Seq<char> {
        match self {
            Cause::Build(e) => crate::executor::bake::build_error_text(e@),
            Cause::Other(s) => s@,
        }
    }

    /// The text of the cause.
    pub fn message(&self) -> (r: String)
        ensures
            r@ == self.text_of(),
    {
        match self {
            Cause::Build(e) => e.message(),
            Cause::Other(s) => s.clone(),
        }
    }
}

/// Whether an error, with all that caused it, says that the build was cancelled.
pub open spec fn says_cancelled(chain: Seq<Cause>) -> bool {
    exists|i: int| 0 <= i < chain.len() && (#[trigger] chain[i]).cancels()
}

/// Whether an error, with all that caused it, says that the build was cancelled. The error is
/// asked, not whether the run is cancelled: a build can still fail by itself after that.
pub fn was_cancelled(chain: &[Cause]) -> (r: bool)
    ensures
        r == says_cancelled(chain@),
{
    let mut i: usize = 0;
    while i < chain.len()
        invariant
            i <= chain@.len(),
            forall|j: int| 0 <= j < i ==> !(#[trigger] chain@[j]).cancels(),
        decreases chain@.len() - i,
    {
        if let Cause::Build(BuildError::Cancelled) = &chain[i] {
            assert(chain@[i as int].cancels());
            return true;
        }
        i += 1;
    }
    false
}

/// How a build ended.
#[derive(Debug, Clone)]
pub enum BuildEnd {
    Built,
    Cancelled,
    /// It failed, for this reason.
    Failed(String),
}

/// How a build ended.
pub enum EndView {
    Built,
    Cancelled,
    Failed(Seq<char>),
}

impl View for BuildEnd {
    type V = EndView;

    open spec fn view(&self) -> EndView {
        match self {
            BuildEnd::Built => EndView::Built,
            BuildEnd::Cancelled => EndView::Cancelled,
            BuildEnd::Failed(e) => EndView::Failed(e@),
        }
    }
}

/// How a build ended, by the chain of causes of its error: empty where it was built.
pub open spec fn end_of(chain: Seq<Cause>) -> EndView {
    if chain.len() == 0 {
        EndView::Built
    } else if says_cancelled(chain) {
        EndView::Cancelled
    } else {
        EndView::Failed(chain[0].text_of())
    }
}

/// How a build ended, by the chain of causes of its error: empty where it was built.
pub fn build_end(chain: &[Cause]) -> (r: BuildEnd)
    ensures
        r@ == end_of(chain@),
{
    if chain.len() == 0 {
        BuildEnd::Built
    } else if was_cancelled(chain) {
        BuildEnd::Cancelled
    } else {
        BuildEnd::Failed(chain[0].message())
    }
}

/// The status that the end of a build gives its target.
pub open spec fn status_of(end: EndView, secs: u64) -> StatusView {
    match end {
        EndView::Built => StatusView::Done(secs),
        EndView::Cancelled => StatusView::Cancelled,
        EndView::Failed(e) => StatusView::Failed(e),
    }
}

/// Notes how a build ended, where it is shown.
pub fn record_end(
    state: &mut DashboardState,
    node_name: &str,
    target: &str,
    end: &BuildEnd,
    elapsed_secs: u64,
)
    requires
        old(state).wf(),
        old(state)@.version < u64::MAX,
    ensures
        final(state).wf(),
        final(state)@ == old(state)@.with_status(
            target@,
            node_name@,
            status_of(end@, elapsed_secs),
        ),
{
    let status = match end {
        BuildEnd::Built => TargetStatus::Done(elapsed_secs),
        BuildEnd::Cancelled => TargetStatus::Cancelled,
        BuildEnd::Failed(e) => TargetStatus::Failed(e.clone()),
    };
    state.set_target_status(target, node_name, status);
}

/// Whether the queue takes note of the end of a build.
pub open spec fn queue_after(q: DagState, t: Seq<char>, end: EndView, next: DagState) -> bool {
    match end {
        EndView::Built => q.completes(t, next),
        EndView::Cancelled => next == q.cancels(t),
        EndView::Failed(_) => next == q.fails(t),
    }
}

/// Notes how a build ended, in the queue. Says whether the run is to be cancelled: on a failure,
/// where the first one is to end the run and it is not cancelled yet.
pub fn finish_build(
    queue: &mut DagQueue,
    target: &str,
    end: &BuildEnd,
    fail_fast: bool,
    cancelled: bool,
) -> (r: bool)
    requires
        old(queue).wf(),
    ensures
        final(queue).wf(),
        queue_after(old(queue)@, target@, end@, final(queue)@),
        r == (end is Failed && fail_fast && !cancelled),
{
    match end {
        BuildEnd::Built => {
            queue.complete(target);
            false
        },
        BuildEnd::Cancelled => {
            queue.cancel(target);
            false
        },
        BuildEnd::Failed(_) => {
            queue.fail(target);
            fail_fast && !cancelled
        },
    }
}

/// A cycle, from its first target to that target again.
pub open spec fn cycle_line(cycle: Seq<Seq<char>>) -> Seq<char> {
    "  "@ + text::join(cycle, " → "@) + " → "@ + cycle[0]
}

/// The warning of cycles, line by line; none where there are no cycles.
pub open spec fn cycle_warning(cycles: Seq<Seq<Seq<char>>>) -> Seq<Seq<char>> {
    if cycles.len() == 0 {
        Seq::empty()
    } else {
        seq!["\nWarning: dependency cycles detected:"@] + cycles.map_values(
            |c: Seq<Seq<char>>| cycle_line(c),
        ) + seq!["Targets in cycles will never be built.\n"@]
    }
}

/// The warning of cycles, line by line; none where there are no cycles.
pub fn cycle_warning_lines(cycles: &Vec<Vec<String>>) -> (r: Vec<String>)
    requires
        forall|i: int| 0 <= i < cycles@.len() ==> (#[trigger] cycles@[i])@.len() > 0,
    ensures
        text::texts(r@) == cycle_warning(text::text_lists(cycles@)),
{
    let ghost all = text::text_lists(cycles@);
    let ghost f = |c: Seq<Seq<char>>| cycle_line(c);
    let mut r: Vec<String> = Vec::new();
    if cycles.len() == 0 {
        assert(text::texts(r@) =~= cycle_warning(all));
        return r;
    }
    add_text(&mut r, "\nWarning: dependency cycles detected:".to_string());
    let ghost head = seq!["\nWarning: dependency cycles detected:"@];
    let mut i: usize = 0;
    assert(text::texts(r@) =~= head + all.map_values(f).take(0));
    while i < cycles.len()
        invariant
            i <= cycles@.len(),
            all == text::text_lists(cycles@),
            f == (|c: Seq<Seq<char>>| cycle_line(c)),
            forall|j: int| 0 <= j < cycles@.len() ==> (#[trigger] cycles@[j])@.len() > 0,
            text::texts(r@) == head + all.map_values(f).take(i as int),
        decreases cycles@.len() - i,
    {
        let cycle = &cycles[i];
        assert(cycle@.len() > 0);
        let ghost names = all[i as int];
        proof {
            assert(names == text::texts(cycle@));
            assert(names[0] == cycle@[0]@);
        }
        let line = "  ".to_string().concat(joined(cycle.as_slice(), " → ").as_str()).concat(
            " → ",
        ).concat(cycle[0].as_str());
        add_text(&mut r, line);
        assert(all.map_values(f)[i as int] == cycle_line(names));
        assert(text::texts(r@) =~= head + all.map_values(f).take(i + 1));
        i += 1;
    }
    assert(all.map_values(f).take(i as int) =~= all.map_values(f));
    add_text(&mut r, "Targets in cycles will never be built.\n".to_string());
    assert(text::texts(r@) =~= cycle_warning(all));
    r
}

/// What is left to say of the targets that were not built.
#[verifier::ext_equal]
pub struct Settled {
    pub board: BoardView,
    /// The targets that failures block, each with those failures.
    pub blocked: Seq<Seq<char>>,
    /// The targets that were never started.
    pub cancelled: Seq<Seq<char>>,
}

/// What is said of a target that failures block.
pub open spec fn blocked_entry(t: Seq<char>, deps: Seq<Seq<char>>) -> Seq<char> {
    t + " (needs "@ + text::join(deps, ", "@) + ")"@
}

/// The failed dependencies that a target waits for, by name.
pub open spec fn needs(q: DagState, t: Seq<char>) -> Seq<Seq<char>> {
    order::in_order(q.blockers(t))
}

/// What becomes of the targets of a list that were not built: blocked, where failures block
/// them, and cancelled otherwise. One that is shown as ended stays as it is.
pub open spec fn settled(q: DagState, board: BoardView, list: Seq<Seq<char>>) -> Settled
    decreases list.len(),
{
    if list.len() == 0 {
        Settled { board, blocked: Seq::empty(), cancelled: Seq::empty() }
    } else {
        let before = settled(q, board, list.drop_last());
        let t = list.last();
        let deps = needs(q, t);
        if before.board.targets.contains_key(t) && state::terminal(
            before.board.targets[t].status,
        ) {
            before
        } else if deps.len() == 0 {
            Settled {
                board: before.board.with_status(t, Seq::empty(), StatusView::Cancelled),
                blocked: before.blocked,
                cancelled: before.cancelled.push(t),
            }
        } else {
            Settled {
                board: before.board.with_status(t, Seq::empty(), StatusView::Blocked(deps)),
                blocked: before.blocked.push(blocked_entry(t, deps)),
                cancelled: before.cancelled,
            }
        }
    }
}

/// What is printed of the targets that were not built.
pub open spec fn settled_text(s: Settled) -> Seq<Seq<char>> {
    (if s.blocked.len() == 0 {
        Seq::empty()
    } else {
        seq![
            "\nSkipped "@ + text::decimal(s.blocked.len())
                + " targets blocked by failed dependencies: "@ + text::join(s.blocked, ", "@),
        ]
    }) + (if s.cancelled.len() == 0 {
        Seq::empty()
    } else {
        seq![
            "\nSkipped "@ + text::decimal(s.cancelled.len()) + " targets that never started: "@
                + text::join(s.cancelled, ", "@),
        ]
    })
}

/// Settling changes the state no more often than there are targets.
proof fn lemma_settled_version(q: DagState, board: BoardView, list: Seq<Seq<char>>)
    ensures
        settled(q, board, list).board.version <= board.version + list.len(),
    decreases list.len(),
{
    if list.len() > 0 {
        lemma_settled_version(q, board, list.drop_last());
    }
}

/// Gives every target that was not built its end, once no node builds any more: blocked, where
/// failures block it, and cancelled otherwise. Nothing is left waiting, so that no one waits for
/// it. The lines say what was skipped.
pub fn settle_unfinished(queue: &DagQueue, state: &mut DashboardState) -> (r: Vec<String>)
    requires
        queue.wf(),
        old(state).wf(),
        old(state)@.version + queue@.all.len() <= u64::MAX,
    ensures
        final(state).wf(),
        ({
            let s = settled(queue@, old(state)@, order::in_order(queue@.unfinished()));
            &&& final(state)@ == s.board
            &&& text::texts(r@) == settled_text(s)
        }),
{
    let ghost q = queue@;
    let ghost board = state@;
    let unfinished = queue.unfinished_targets();
    let ghost list = text::texts(unfinished@);
    proof {
        queue.lemma_valid();
        order::lemma_in_order(list);
        order::lemma_ascending_distinct(list);
        list.unique_seq_to_set();
        assert(q.unfinished().subset_of(q.all));
        vstd::set_lib::lemma_len_subset(q.unfinished(), q.all);
    }
    let mut blocked: Vec<String> = Vec::new();
    let mut cancelled: Vec<String> = Vec::new();
    let mut i: usize = 0;
    assert(text::texts(blocked@) =~= Seq::empty());
    assert(text::texts(cancelled@) =~= Seq::empty());
    while i < unfinished.len()
        invariant
            queue.wf(),
            state.wf(),
            q == queue@,
            i <= unfinished@.len(),
            list == text::texts(unfinished@),
            list.len() <= q.all.len(),
            board.version + q.all.len() <= u64::MAX,
            ({
                let s = settled(q, board, list.take(i as int));
                &&& state@ == s.board
                &&& text::texts(blocked@) == s.blocked
                &&& text::texts(cancelled@) == s.cancelled
            }),
        decreases unfinished@.len() - i,
    {
        let ghost t = list[i as int];
        proof {
            assert(list.take(i + 1).drop_last() =~= list.take(i as int));
            assert(list.take(i + 1).last() == t);
            assert(t == unfinished@[i as int]@);
            lemma_settled_version(q, board, list.take(i as int));
        }
        let target = unfinished[i].as_str();
        let ended = match state.info(target) {
            Some(info) => info.status.is_terminal(),
            None => false,
        };
        if !ended {
            let deps = queue.failed_dependencies(target);
            assert(text::texts(deps@) == needs(q, t));
            assert(text::texts(deps@).len() == deps@.len());
            if deps.len() == 0 {
                add_text(&mut cancelled, unfinished[i].clone());
                proof {
                    reveal_strlit("");
                    assert(""@ =~= Seq::<char>::empty());
                }
                state.set_target_status(target, "", TargetStatus::Cancelled);
            } else {
                let entry = unfinished[i].clone().concat(" (needs ").concat(
                    joined(deps.as_slice(), ", ").as_str(),
                ).concat(")");
                add_text(&mut blocked, entry);
                proof {
                    reveal_strlit("");
                    assert(""@ =~= Seq::<char>::empty());
                }
                state.set_target_status(target, "", TargetStatus::Blocked(deps));
            }
        }
        i += 1;
    }
    assert(list.take(i as int) =~= list);
    let ghost s = settled(q, board, list);
    let mut r: Vec<String> = Vec::new();
    assert(text::texts(blocked@).len() == blocked@.len());
    assert(text::texts(cancelled@).len() == cancelled@.len());
    if blocked.len() > 0 {
        let line = "\nSkipped ".to_string().concat(
            decimal_of(blocked.len() as u64).as_str(),
        ).concat(" targets blocked by failed dependencies: ").concat(
            joined(blocked.as_slice(), ", ").as_str(),
        );
        add_text(&mut r, line);
    }
    if cancelled.len() > 0 {
        let line = "\nSkipped ".to_string().concat(
            decimal_of(cancelled.len() as u64).as_str(),
        ).concat(" targets that never started: ").concat(
            joined(cancelled.as_slice(), ", ").as_str(),
        );
        add_text(&mut r, line);
    }
    assert(text::texts(r@) =~= settled_text(s));
    r
}

}

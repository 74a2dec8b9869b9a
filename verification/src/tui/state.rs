//! What is known of each target while a run goes on.
use crate::names;
use crate::names::NameMap;
use crate::order;
use crate::text;
use crate::text::{lists, same_text};
use std::time::{Duration, Instant};
use vstd::prelude::*;

verus! {

/// The type `std::time::Instant`: a point in time, of which nothing is claimed.
#[verifier::external_type_specification]
#[verifier::external_body]
pub struct ExInstant(std::time::Instant);

/// `Instant::now` gives the present point in time. Nothing is claimed of it.
pub assume_specification[ std::time::Instant::now ]() -> (r: std::time::Instant)
;

/// `Instant::elapsed` gives the time since a point in time. Nothing is claimed of it.
pub assume_specification[ std::time::Instant::elapsed ](i: &std::time::Instant) -> (r:
    std::time::Duration)
;

/// How far a target has come.
#[derive(Debug, Clone)]
pub enum TargetStatus {
    /// It waits.
    Pending,
    /// It is being built.
    Building,
    /// It was built, in so many seconds.
    Done(u64),
    /// Its build failed, for this reason.
    Failed(String),
    /// The run was cancelled before it was built.
    Cancelled,
    /// It was not built because these dependencies failed.
    Blocked(Vec<String>),
}

/// What a status says.
pub enum StatusView {
    Pending,
    Building,
    Done(u64),
    Failed(Seq<char>),
    Cancelled,
    Blocked(Seq<Seq<char>>),
}

impl View for TargetStatus {
    type V = StatusView;

    open spec fn view(&self) -> StatusView {
        match self {
            TargetStatus::Pending => StatusView::Pending,
            TargetStatus::Building => StatusView::Building,
            TargetStatus::Done(s) => StatusView::Done(*s),
            TargetStatus::Failed(e) => StatusView::Failed(e@),
            TargetStatus::Cancelled => StatusView::Cancelled,
            TargetStatus::Blocked(d) => StatusView::Blocked(text::texts(d@)),
        }
    }
}

/// Whether a status is one that a target does not leave.
pub open spec fn terminal(s: StatusView) -> bool {
    s is Done || s is Failed || s is Cancelled || s is Blocked
}

impl TargetStatus {
    /// Whether the target has come to a status that it does not leave. A run is over when all
    /// targets have, so those that were cancelled or blocked count.
    pub fn is_terminal(&self) -> (r: bool)
        ensures
            r == terminal(self@),
    {
        match self {
            TargetStatus::Done(_) => true,
            TargetStatus::Failed(_) => true,
            TargetStatus::Cancelled => true,
            TargetStatus::Blocked(_) => true,
            TargetStatus::Pending => false,
            TargetStatus::Building => false,
        }
    }
}

/// How far a build has come.
#[derive(Debug, Clone)]
pub struct BuildProgress {
    /// The step, such as 3 in `[3/5]`.
    pub current_step: u32,
    /// The number of steps, such as 5 in `[3/5]`.
    pub total_steps: u32,
    /// What the step does.
    pub step_description: String,
    /// The stage of the build, where it has a name.
    pub stage: Option<String>,
}

/// What is known of how far a build has come.
#[verifier::ext_equal]
pub struct ProgressView {
    pub current_step: u32,
    pub total_steps: u32,
    pub step_description: Seq<char>,
    pub stage: Option<Seq<char>>,
}

impl View for BuildProgress {
    type V = ProgressView;

    open spec fn view(&self) -> ProgressView {
        ProgressView {
            current_step: self.current_step,
            total_steps: self.total_steps,
            step_description: self.step_description@,
            stage: match self.stage {
                Some(s) => Some(s@),
                None => None,
            },
        }
    }
}

impl Default for BuildProgress {
    fn default() -> (r: BuildProgress)
        ensures
            r@ == (ProgressView {
                current_step: 0,
                total_steps: 0,
                step_description: Seq::empty(),
                stage: None,
            }),
    {
        BuildProgress {
            current_step: 0,
            total_steps: 0,
            step_description: String::new(),
            stage: None,
        }
    }
}

/// What is known of a target.
#[derive(Debug, Clone)]
pub struct TargetInfo {
    pub name: String,
    /// The node that builds it; empty before one does.
    pub node: String,
    pub status: TargetStatus,
    /// When its build was last started.
    pub started_at: Option<Instant>,
    /// Where its log is written.
    pub log_path: Option<String>,
    pub progress: Option<BuildProgress>,
}

/// What is known of a target.
#[verifier::ext_equal]
pub struct InfoView {
    pub name: Seq<char>,
    pub node: Seq<char>,
    pub status: StatusView,
    pub started: Option<Instant>,
    pub log_path: Option<Seq<char>>,
    pub progress: Option<ProgressView>,
}

impl View for TargetInfo {
    type V = InfoView;

    open spec fn view(&self) -> InfoView {
        InfoView {
            name: self.name@,
            node: self.node@,
            status: self.status@,
            started: self.started_at,
            log_path: match self.log_path {
                Some(p) => Some(p@),
                None => None,
            },
            progress: match self.progress {
                Some(p) => Some(p@),
                None => None,
            },
        }
    }
}

/// What is known of the targets of a run.
#[derive(Debug)]
pub struct DashboardState {
    pub targets: NameMap<TargetInfo>,
    /// The targets in the order in which they were given.
    pub target_order: Vec<String>,
    pub node_names: Vec<String>,
    /// The number of targets.
    pub total: usize,
    pub start_time: Instant,
    /// Grows with every change, so that nothing is drawn twice for nothing.
    version: u64,
}

/// What is known of the targets of a run.
#[verifier::ext_equal]
pub struct BoardView {
    pub targets: Map<Seq<char>, InfoView>,
    pub order: Seq<Seq<char>>,
    pub nodes: Seq<Seq<char>>,
    pub total: nat,
    pub start: Instant,
    pub version: nat,
}

/// What is known of some targets.
pub open spec fn infos_of(m: Map<Seq<char>, TargetInfo>) -> Map<Seq<char>, InfoView> {
    m.map_values(|i: TargetInfo| i@)
}

impl View for DashboardState {
    type V = BoardView;

    closed spec fn view(&self) -> BoardView {
        BoardView {
            targets: infos_of(self.targets@),
            order: text::texts(self.target_order@),
            nodes: text::texts(self.node_names@),
            total: self.total as nat,
            start: self.start_time,
            version: self.version as nat,
        }
    }
}

/// What is known of a target that waits.
pub open spec fn fresh(name: Seq<char>) -> InfoView {
    InfoView {
        name,
        node: Seq::empty(),
        status: StatusView::Pending,
        started: None,
        log_path: None,
        progress: None,
    }
}

/// The state at the start of a run.
pub open spec fn new_board(
    targets: Seq<Seq<char>>,
    nodes: Seq<Seq<char>>,
    start: Instant,
) -> BoardView {
    BoardView {
        targets: Map::new(|t: Seq<char>| targets.contains(t), |t: Seq<char>| fresh(t)),
        order: targets,
        nodes,
        total: targets.len(),
        start,
        version: 0,
    }
}

impl BoardView {
    /// The state with what is known of `t` replaced, if it is a target. Either way it counts as
    /// a change.
    pub open spec fn with_info(self, t: Seq<char>, info: InfoView) -> BoardView {
        BoardView {
            targets: if self.targets.contains_key(t) {
                self.targets.insert(t, info)
            } else {
                self.targets
            },
            version: self.version + 1,
            ..self
        }
    }

    /// The state after `t` has come to a status on a node, with no build started.
    pub open spec fn with_status(self, t: Seq<char>, node: Seq<char>, status: StatusView) -> BoardView {
        self.with_info(t, InfoView { node, status, ..self.targets[t] })
    }

    /// The state after a node has started to build `t`. It has no progress yet.
    pub open spec fn with_start(self, t: Seq<char>, node: Seq<char>, now: Instant) -> BoardView {
        self.with_info(
            t,
            InfoView {
                node,
                status: StatusView::Building,
                started: Some(now),
                progress: None,
                ..self.targets[t]
            },
        )
    }

    /// Whether `next` is the state after `t` has come to a status on a node. To be built is to
    /// be started, at the point in time that `Instant::now` gives.
    pub open spec fn comes_to(
        self,
        t: Seq<char>,
        node: Seq<char>,
        status: StatusView,
        next: BoardView,
    ) -> bool {
        if self.targets.contains_key(t) && status is Building {
            exists|now: Instant| #[trigger]
                call_ensures(Instant::now, (), now) && next == self.with_start(t, node, now)
        } else {
            next == self.with_status(t, node, status)
        }
    }

    /// The state after the log of `t` has got a place.
    pub open spec fn with_log_path(self, t: Seq<char>, path: Seq<char>) -> BoardView {
        self.with_info(t, InfoView { log_path: Some(path), ..self.targets[t] })
    }

    /// The state after the build of `t` has got further.
    pub open spec fn with_progress(self, t: Seq<char>, progress: ProgressView) -> BoardView {
        self.with_info(t, InfoView { progress: Some(progress), ..self.targets[t] })
    }

    /// The targets whose status is of a kind.
    pub open spec fn of_kind(self, kind: StatusKind) -> Set<Seq<char>> {
        self.targets.dom().filter(|t: Seq<char>| kind_holds(kind, self.targets[t].status))
    }

    /// The targets by name.
    pub open spec fn by_name(self) -> Seq<Seq<char>> {
        order::in_order(self.targets.dom())
    }

    /// The targets of a group, by name.
    pub open spec fn group(self, g: GroupView) -> Seq<Seq<char>> {
        self.by_name().filter(|t: Seq<char>| in_group(g, self.nodes, self.targets[t]))
    }

    /// The targets that wait, in the order in which they were given.
    pub open spec fn pending(self) -> Seq<Seq<char>> {
        self.order.filter(
            |t: Seq<char>| self.targets.contains_key(t) && self.targets[t].status is Pending,
        )
    }

    /// The targets that do not wait, in the order in which they are shown: those of some nodes,
    /// node by node and by name.
    pub open spec fn shown_on(self, nodes: Seq<Seq<char>>) -> Seq<Seq<char>>
        decreases nodes.len(),
    {
        if nodes.len() == 0 {
            Seq::empty()
        } else {
            self.shown_on(nodes.drop_last()) + self.group(GroupView::ActiveOn(nodes.last()))
        }
    }

    /// The targets that do not wait, in the order in which they are shown: node by node and by
    /// name, then those of no known node.
    pub open spec fn active(self) -> Seq<Seq<char>> {
        self.shown_on(self.nodes) + self.group(GroupView::Unassigned)
    }

    /// Whether the run is over: as many targets have come to an end as were given.
    pub open spec fn complete(self) -> bool {
        self.of_kind(StatusKind::Terminal).len() == self.total
    }
}

/// A kind of status, for counting.
#[derive(Debug, Clone, Copy, PartialEq, Eq, Structural)]
pub enum StatusKind {
    Done,
    Building,
    Pending,
    Failed,
    /// Cancelled or blocked.
    Skipped,
    Terminal,
}

/// Whether a status is of a kind.
pub open spec fn kind_holds(kind: StatusKind, s: StatusView) -> bool {
    match kind {
        StatusKind::Done => s is Done,
        StatusKind::Building => s is Building,
        StatusKind::Pending => s is Pending,
        StatusKind::Failed => s is Failed,
        StatusKind::Skipped => s is Cancelled || s is Blocked,
        StatusKind::Terminal => terminal(s),
    }
}

fn has_kind(kind: StatusKind, s: &TargetStatus) -> (r: bool)
    ensures
        r == kind_holds(kind, s@),
{
    match s {
        TargetStatus::Pending => kind == StatusKind::Pending,
        TargetStatus::Building => kind == StatusKind::Building,
        TargetStatus::Done(_) => kind == StatusKind::Done || kind == StatusKind::Terminal,
        TargetStatus::Failed(_) => kind == StatusKind::Failed || kind == StatusKind::Terminal,
        TargetStatus::Cancelled => kind == StatusKind::Skipped || kind == StatusKind::Terminal,
        TargetStatus::Blocked(_) => kind == StatusKind::Skipped || kind == StatusKind::Terminal,
    }
}

/// A group of targets.
enum Group<'a> {
    Unassigned,
    On(&'a str),
    ActiveOn(&'a str),
    Failed,
}

/// A group of targets.
pub enum GroupView {
    /// Those that do not wait and whose node is not known.
    Unassigned,
    /// Those of a node.
    On(Seq<char>),
    /// Those of a node that do not wait.
    ActiveOn(Seq<char>),
    /// Those whose build failed.
    Failed,
}

impl<'a> View for Group<'a> {
    type V = GroupView;

    closed spec fn view(&self) -> GroupView {
        match self {
            Group::Unassigned => GroupView::Unassigned,
            Group::On(n) => GroupView::On(n@),
            Group::ActiveOn(n) => GroupView::ActiveOn(n@),
            Group::Failed => GroupView::Failed,
        }
    }
}

/// Whether a target is in a group.
pub open spec fn in_group(g: GroupView, nodes: Seq<Seq<char>>, info: InfoView) -> bool {
    match g {
        GroupView::Unassigned => !(info.status is Pending) && !nodes.contains(info.node),
        GroupView::On(n) => info.node == n,
        GroupView::ActiveOn(n) => info.node == n && !(info.status is Pending),
        GroupView::Failed => info.status is Failed,
    }
}

/// The names of some targets.
pub open spec fn info_names(v: Seq<&TargetInfo>) -> Seq<Seq<char>> {
    v.map_values(|i: &TargetInfo| i.name@)
}

impl DashboardState {
    /// Each target is known under its name.
    pub closed spec fn wf(&self) -> bool {
        &&& self.targets.wf()
        &&& forall|t: Seq<char>|
            self.targets@.contains_key(t) ==> (#[trigger] self.targets@[t]).name@ == t
    }

    /// What is known of the targets of a well-formed state: each under its name.
    pub proof fn lemma_names(&self)
        requires
            self.wf(),
        ensures
            self@.targets.dom().finite(),
            forall|t: Seq<char>|
                self@.targets.contains_key(t) ==> (#[trigger] self@.targets[t]).name == t,
    {
        self.lemma_named();
    }

    /// What is known of a target.
    pub fn info(&self, target: &str) -> (r: Option<&TargetInfo>)
        requires
            self.wf(),
        ensures
            match r {
                Some(i) => self@.targets.contains_key(target@) && i@ == self@.targets[target@],
                None => !self@.targets.contains_key(target@),
            },
    {
        self.targets.get(target)
    }

    /// The targets in the order in which they were given.
    pub fn order(&self) -> (r: &[String])
        ensures
            text::texts(r@) == self@.order,
    {
        self.target_order.as_slice()
    }

    /// The nodes.
    pub fn nodes(&self) -> (r: &[String])
        ensures
            text::texts(r@) == self@.nodes,
    {
        self.node_names.as_slice()
    }

    /// The number of targets that were given.
    pub fn total(&self) -> (r: usize)
        ensures
            r == self@.total,
    {
        self.total
    }

    proof fn lemma_named(&self)
        requires
            self.wf(),
        ensures
            self.targets.wf(),
            self@.targets == infos_of(self.targets@),
            self@.targets.dom().finite(),
            self@.order == text::texts(self.target_order@),
            self@.nodes == text::texts(self.node_names@),
            self@.total == self.total,
            forall|t: Seq<char>|
                self@.targets.contains_key(t) ==> (#[trigger] self@.targets[t]).name == t,
    {
        self.targets.lemma_keys();
        assert(self@.targets.dom() =~= self.targets@.dom());
        assert forall|t: Seq<char>| self@.targets.contains_key(t) implies (
        #[trigger] self@.targets[t]).name == t by {
            assert(self.targets@[t].name@ == t);
        }
    }

    /// The state at the start of a run: all targets wait.
    pub fn new(targets: Vec<String>, node_names: Vec<String>) -> (r: DashboardState)
        ensures
            r.wf(),
            r@ == new_board(text::texts(targets@), text::texts(node_names@), r@.start),
            call_ensures(Instant::now, (), r@.start),
    {
        let ghost names = text::texts(targets@);
        let total: usize = targets.len();
        let mut map: NameMap<TargetInfo> = NameMap::new();
        let mut i: usize = 0;
        while i < targets.len()
            invariant
                i <= targets@.len(),
                names == text::texts(targets@),
                map.wf(),
                forall|t: Seq<char>| #[trigger]
                    map@.contains_key(t) <==> names.take(i as int).contains(t),
                forall|t: Seq<char>|
                    map@.contains_key(t) ==> (#[trigger] map@[t])@ == fresh(t),
            decreases targets@.len() - i,
        {
            let info = TargetInfo {
                name: targets[i].clone(),
                node: String::new(),
                status: TargetStatus::Pending,
                started_at: None,
                log_path: None,
                progress: None,
            };
            let ghost before = map@;
            proof {
                names::lemma_take_contains(names, i as int);
                assert(names[i as int] == targets@[i as int]@);
                assert(info@ =~= fresh(names[i as int]));
            }
            map.insert(targets[i].clone(), info);
            i += 1;
        }
        let r = DashboardState {
            targets: map,
            target_order: targets,
            node_names,
            total,
            start_time: Instant::now(),
            version: 0,
        };
        proof {
            assert(names.take(i as int) =~= names);
            assert forall|t: Seq<char>| map@.contains_key(t) implies (#[trigger] map@[t]).name@
                == t by {
                assert(map@[t]@ == fresh(t));
            }
            assert(r@.targets =~= new_board(names, r@.nodes, r@.start).targets);
            assert(r@ =~= new_board(names, text::texts(node_names@), r@.start));
        }
        r
    }

    /// The number of changes so far.
    pub fn version(&self) -> (r: u64)
        ensures
            r == self@.version,
    {
        self.version
    }

    /// Notes where the log of a target is written.
    pub fn set_log_path(&mut self, target: &str, path: String)
        requires
            old(self).wf(),
            old(self)@.version < u64::MAX,
        ensures
            final(self).wf(),
            final(self)@ == old(self)@.with_log_path(target@, path@),
    {
        let ghost before = *self;
        self.version = self.version + 1;
        if let Some(info) = self.targets.get_mut(target) {
            info.log_path = Some(path);
        }
        proof {
            let next = before@.with_log_path(target@, path@);
            assert(self@.targets =~= next.targets);
            assert(self@ =~= next);
        }
    }

    /// Notes that a target has come to a status on a node.
    pub fn set_target_status(&mut self, target: &str, node: &str, status: TargetStatus)
        requires
            old(self).wf(),
            old(self)@.version < u64::MAX,
        ensures
            final(self).wf(),
            old(self)@.comes_to(target@, node@, status@, final(self)@),
    {
        let ghost before = *self;
        self.version = self.version + 1;
        let ghost mut started: Option<Instant> = None;
        if let Some(info) = self.targets.get_mut(target) {
            info.node = node.to_string();
            if matches!(status, TargetStatus::Building) {
                let now = Instant::now();
                proof {
                    started = Some(now);
                }
                info.started_at = Some(now);
                info.progress = None;
            }
            info.status = status;
        }
        proof {
            let next = match started {
                Some(now) => before@.with_start(target@, node@, now),
                None => before@.with_status(target@, node@, status@),
            };
            assert(self@.targets =~= next.targets);
            assert(self@ =~= next);
        }
    }

    /// Notes how far the build of a target has come.
    pub fn update_progress(&mut self, target: &str, progress: BuildProgress)
        requires
            old(self).wf(),
            old(self)@.version < u64::MAX,
        ensures
            final(self).wf(),
            final(self)@ == old(self)@.with_progress(target@, progress@),
    {
        let ghost before = *self;
        self.version = self.version + 1;
        if let Some(info) = self.targets.get_mut(target) {
            info.progress = Some(progress);
        }
        proof {
            let next = before@.with_progress(target@, progress@);
            assert(self@.targets =~= next.targets);
            assert(self@ =~= next);
        }
    }

    fn count(&self, kind: StatusKind) -> (r: usize)
        requires
            self.wf(),
        ensures
            r == self@.of_kind(kind).len(),
    {
        let ghost keys = self.targets.key_list();
        let ghost mut found: Set<Seq<char>> = Set::empty();
        let mut n: usize = 0;
        let mut i: usize = 0;
        proof {
            self.targets.lemma_keys();
        }
        while i < self.targets.len()
            invariant
                self.wf(),
                keys == self.targets.key_list(),
                keys.no_duplicates(),
                i <= keys.len(),
                n <= i,
                found.finite(),
                n == found.len(),
                forall|t: Seq<char>| #[trigger]
                    found.contains(t) <==> keys.take(i as int).contains(t) && kind_holds(
                        kind,
                        self@.targets[t].status,
                    ),
            decreases keys.len() - i,
        {
            let info = self.targets.value_at(i);
            let ghost t = keys[i as int];
            proof {
                names::lemma_take_contains(keys, i as int);
                assert(self@.targets[t] == info@);
                assert(!keys.take(i as int).contains(t));
            }
            if has_kind(kind, &info.status) {
                n += 1;
                proof {
                    found = found.insert(t);
                }
            }
            i += 1;
        }
        proof {
            self.targets.lemma_keys();
            assert(keys.take(i as int) =~= keys);
            assert(self@.targets.dom() =~= self.targets@.dom());
            assert(found =~= self@.of_kind(kind));
        }
        n
    }

    /// The number of targets that were built.
    pub fn count_done(&self) -> (r: usize)
        requires
            self.wf(),
        ensures
            r == self@.of_kind(StatusKind::Done).len(),
    {
        self.count(StatusKind::Done)
    }

    /// The number of targets that are being built.
    pub fn count_building(&self) -> (r: usize)
        requires
            self.wf(),
        ensures
            r == self@.of_kind(StatusKind::Building).len(),
    {
        self.count(StatusKind::Building)
    }

    /// The number of targets that wait.
    pub fn count_pending(&self) -> (r: usize)
        requires
            self.wf(),
        ensures
            r == self@.of_kind(StatusKind::Pending).len(),
    {
        self.count(StatusKind::Pending)
    }

    /// The number of targets whose build failed.
    pub fn count_failed(&self) -> (r: usize)
        requires
            self.wf(),
        ensures
            r == self@.of_kind(StatusKind::Failed).len(),
    {
        self.count(StatusKind::Failed)
    }

    /// The number of targets that were cancelled or blocked.
    pub fn count_skipped(&self) -> (r: usize)
        requires
            self.wf(),
        ensures
            r == self@.of_kind(StatusKind::Skipped).len(),
    {
        self.count(StatusKind::Skipped)
    }

    /// The number of targets that have come to an end.
    pub fn count_terminal(&self) -> (r: usize)
        requires
            self.wf(),
        ensures
            r == self@.of_kind(StatusKind::Terminal).len(),
    {
        self.count(StatusKind::Terminal)
    }

    fn belongs(&self, g: &Group, info: &TargetInfo) -> (r: bool)
        requires
            self.wf(),
        ensures
            r == in_group(g@, self@.nodes, info@),
    {
        let waits = matches!(info.status, TargetStatus::Pending);
        match g {
            Group::Unassigned => !waits && !lists(self.node_names.as_slice(), info.node.as_str()),
            Group::On(n) => same_text(info.node.as_str(), n),
            Group::ActiveOn(n) => same_text(info.node.as_str(), n) && !waits,
            Group::Failed => matches!(info.status, TargetStatus::Failed(_)),
        }
    }

    fn members(&self, g: Group) -> (r: Vec<&TargetInfo>)
        requires
            self.wf(),
        ensures
            info_names(r@) == self@.group(g@),
            forall|i: int| 0 <= i < r@.len() ==> (#[trigger] r@[i])@ == self@.targets[r@[i].name@],
    {
        let ghost keys = self.targets.key_list();
        let ghost keep = |t: Seq<char>| in_group(g@, self@.nodes, self@.targets[t]);
        let mut r: Vec<&TargetInfo> = Vec::new();
        let mut i: usize = 0;
        proof {
            self.targets.lemma_keys();
            self.lemma_named();
            assert(self@.targets.dom() =~= self.targets@.dom());
            reveal(Seq::filter);
            assert(info_names(r@) =~= keys.take(0).filter(keep));
        }
        while i < self.targets.len()
            invariant
                self.wf(),
                keys == self.targets.key_list(),
                i <= keys.len(),
                keep == (|t: Seq<char>| in_group(g@, self@.nodes, self@.targets[t])),
                info_names(r@) == keys.take(i as int).filter(keep),
                forall|j: int|
                    0 <= j < r@.len() ==> (#[trigger] r@[j])@ == self@.targets[r@[j].name@],
            decreases keys.len() - i,
        {
            let info = self.targets.value_at(i);
            let ghost t = keys[i as int];
            proof {
                reveal(Seq::filter);
                assert(keys.take(i + 1).drop_last() =~= keys.take(i as int));
                assert(keys.take(i + 1).last() == t);
                assert(self@.targets[t] == info@);
                assert(info.name@ == t);
            }
            if self.belongs(&g, info) {
                let ghost before = r@;
                r.push(info);
                assert(info_names(r@) =~= info_names(before).push(t));
            }
            i += 1;
        }
        assert(keys.take(i as int) =~= keys);
        r
    }

    /// The targets that do not wait and whose node is not known, by name: they were never given
    /// to a node, or to one that is not listed. They are shown apart, so that nothing is counted
    /// that is not shown.
    pub fn unassigned_targets(&self) -> (r: Vec<&TargetInfo>)
        requires
            self.wf(),
        ensures
            info_names(r@) == self@.group(GroupView::Unassigned),
            forall|i: int| 0 <= i < r@.len() ==> (#[trigger] r@[i])@ == self@.targets[r@[i].name@],
    {
        self.members(Group::Unassigned)
    }

    /// The targets of a node, by name.
    pub fn targets_for_node(&self, node: &str) -> (r: Vec<&TargetInfo>)
        requires
            self.wf(),
        ensures
            info_names(r@) == self@.group(GroupView::On(node@)),
            forall|i: int| 0 <= i < r@.len() ==> (#[trigger] r@[i])@ == self@.targets[r@[i].name@],
    {
        self.members(Group::On(node))
    }

    /// The targets whose build failed, by name.
    pub fn failed_targets(&self) -> (r: Vec<&TargetInfo>)
        requires
            self.wf(),
        ensures
            info_names(r@) == self@.group(GroupView::Failed),
            forall|i: int| 0 <= i < r@.len() ==> (#[trigger] r@[i])@ == self@.targets[r@[i].name@],
    {
        self.members(Group::Failed)
    }

    /// The targets that wait, in the order in which they were given.
    pub fn pending_targets(&self) -> (r: Vec<&str>)
        requires
            self.wf(),
        ensures
            text::strs(r@) == self@.pending(),
    {
        let ghost v = self@;
        let ghost keep = |t: Seq<char>|
            v.targets.contains_key(t) && v.targets[t].status is Pending;
        let mut r: Vec<&str> = Vec::new();
        let mut i: usize = 0;
        proof {
            self.lemma_named();
            reveal(Seq::filter);
            assert(text::strs(r@) =~= v.order.take(0).filter(keep));
        }
        while i < self.target_order.len()
            invariant
                self.wf(),
                v == self@,
                v.targets == infos_of(self.targets@),
                v.order == text::texts(self.target_order@),
                i <= v.order.len(),
                keep == (|t: Seq<char>|
                    v.targets.contains_key(t) && v.targets[t].status is Pending),
                text::strs(r@) == v.order.take(i as int).filter(keep),
            decreases v.order.len() - i,
        {
            let ghost t = v.order[i as int];
            proof {
                reveal(Seq::filter);
                assert(v.order.take(i + 1).drop_last() =~= v.order.take(i as int));
                assert(v.order.take(i + 1).last() == t);
                assert(t == self.target_order@[i as int]@);
            }
            let waits = match self.targets.get(self.target_order[i].as_str()) {
                Some(info) => matches!(info.status, TargetStatus::Pending),
                None => false,
            };
            if waits {
                let ghost before = r@;
                r.push(self.target_order[i].as_str());
                assert(text::strs(r@) =~= text::strs(before).push(t));
            }
            i += 1;
        }
        assert(v.order.take(i as int) =~= v.order);
        r
    }

    /// The time since the start of the run, as `Instant::elapsed` gives it for that point in
    /// time. How long it is comes from the clock.
    pub fn elapsed(&self) -> (r: Duration)
        ensures
            call_ensures(Instant::elapsed, (&self@.start,), r),
    {
        self.start_time.elapsed()
    }

    /// Whether all targets have come to an end.
    pub fn is_complete(&self) -> (r: bool)
        requires
            self.wf(),
        ensures
            r == self@.complete(),
    {
        self.count_terminal() == self.total
    }

    /// The targets that do not wait, in the order in which they are shown: node by node and by
    /// name, then those of no known node. The cursor moves through them in this order.
    pub fn active_targets(&self) -> (r: Vec<&str>)
        requires
            self.wf(),
        ensures
            text::strs(r@) == self@.active(),
    {
        let ghost v = self@;
        let mut r: Vec<&str> = Vec::new();
        let mut i: usize = 0;
        proof {
            self.lemma_named();
            assert(text::strs(r@) =~= v.shown_on(v.nodes.take(0)));
        }
        while i < self.node_names.len()
            invariant
                self.wf(),
                v == self@,
                v.nodes == text::texts(self.node_names@),
                i <= v.nodes.len(),
                text::strs(r@) == v.shown_on(v.nodes.take(i as int)),
            decreases v.nodes.len() - i,
        {
            let group = self.members(Group::ActiveOn(self.node_names[i].as_str()));
            proof {
                assert(v.nodes.take(i + 1).drop_last() =~= v.nodes.take(i as int));
                assert(v.nodes.take(i + 1).last() == self.node_names@[i as int]@);
            }
            add_names(&mut r, &group);
            i += 1;
        }
        assert(v.nodes.take(i as int) =~= v.nodes);
        let rest = self.members(Group::Unassigned);
        add_names(&mut r, &rest);
        r
    }
}

fn add_names<'a>(out: &mut Vec<&'a str>, group: &Vec<&'a TargetInfo>)
    ensures
        text::strs(final(out)@) == text::strs(old(out)@) + info_names(group@),
{
    let ghost before = text::strs(out@);
    let ghost names = info_names(group@);
    let mut i: usize = 0;
    assert(before + names.take(0) =~= before);
    while i < group.len()
        invariant
            i <= group@.len(),
            names == info_names(group@),
            text::strs(out@) == before + names.take(i as int),
        decreases group@.len() - i,
    {
        let ghost was = out@;
        out.push(group[i].name.as_str());
        proof {
            assert(text::strs(out@) =~= text::strs(was).push(names[i as int]));
            assert(text::strs(out@) =~= before + names.take(i + 1));
        }
        i += 1;
    }
    assert(names.take(i as int) =~= names);
}

}

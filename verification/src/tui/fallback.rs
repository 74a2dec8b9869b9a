//! What is printed line by line where no screen is drawn.
use super::state;
use super::state::{DashboardState, InfoView, StatusKind, StatusView, TargetInfo, TargetStatus};
use crate::names::NameSet;
use crate::text;
use crate::text::{add_text, decimal_of, joined};
use vstd::prelude::*;
use vstd::string::*;

pub mod laws;

verus! {

/// Remembers what has been printed, so that each change is printed once.
pub struct Reporter {
    announced: NameSet,
    finished: NameSet,
}

/// What has been printed.
#[verifier::ext_equal]
pub struct ReporterView {
    /// The targets whose start has been printed.
    pub announced: Set<Seq<char>>,
    /// The targets whose end has been printed.
    pub finished: Set<Seq<char>>,
}

impl View for Reporter {
    type V = ReporterView;

    closed spec fn view(&self) -> ReporterView {
        ReporterView { announced: self.announced@, finished: self.finished@ }
    }
}

/// The line for a target.
pub open spec fn report_line(name: Seq<char>, info: InfoView) -> Seq<char> {
    match info.status {
        StatusView::Pending => Seq::empty(),
        StatusView::Building => "["@ + info.node + "] building "@ + name,
        StatusView::Done(secs) => "✓ ["@ + info.node + "] "@ + name + " ("@ + text::decimal(
            secs as nat,
        ) + "s)"@,
        StatusView::Failed(error) => "✗ ["@ + info.node + "] "@ + name + " FAILED ("@ + error
            + ")"@,
        StatusView::Cancelled => "- "@ + name + " cancelled"@,
        StatusView::Blocked(deps) => "- "@ + name + " blocked by ["@ + text::join(deps, ", "@)
            + "]"@,
    }
}

/// Whether the state of a target has been printed.
pub open spec fn reported(r: ReporterView, name: Seq<char>, s: StatusView) -> bool {
    match s {
        StatusView::Pending => true,
        StatusView::Building => r.announced.contains(name),
        _ => r.finished.contains(name),
    }
}

/// What has been printed once the state of a target has been.
pub open spec fn noted(r: ReporterView, name: Seq<char>, s: StatusView) -> ReporterView {
    match s {
        StatusView::Pending => r,
        StatusView::Building => ReporterView { announced: r.announced.insert(name), ..r },
        _ => ReporterView { finished: r.finished.insert(name), ..r },
    }
}

/// The lines for the targets of a list whose state has not been printed, and what has been
/// printed then.
pub open spec fn drained(
    list: Seq<Seq<char>>,
    targets: Map<Seq<char>, InfoView>,
    r: ReporterView,
) -> (Seq<Seq<char>>, ReporterView)
    decreases list.len(),
{
    if list.len() == 0 {
        (Seq::empty(), r)
    } else {
        let before = drained(list.drop_last(), targets, r);
        let name = list.last();
        if !targets.contains_key(name) || reported(before.1, name, targets[name].status) {
            before
        } else {
            (
                before.0.push(report_line(name, targets[name])),
                noted(before.1, name, targets[name].status),
            )
        }
    }
}

fn line_for(name: &str, info: &TargetInfo) -> (r: String)
    ensures
        r@ == report_line(name@, info@),
{
    match &info.status {
        TargetStatus::Pending => String::new(),
        TargetStatus::Building => "[".to_string().concat(info.node.as_str()).concat(
            "] building ",
        ).concat(name),
        TargetStatus::Done(secs) => "✓ [".to_string().concat(info.node.as_str()).concat(
            "] ",
        ).concat(name).concat(" (").concat(decimal_of(*secs).as_str()).concat("s)"),
        TargetStatus::Failed(error) => "✗ [".to_string().concat(info.node.as_str()).concat(
            "] ",
        ).concat(name).concat(" FAILED (").concat(error.as_str()).concat(")"),
        TargetStatus::Cancelled => "- ".to_string().concat(name).concat(" cancelled"),
        TargetStatus::Blocked(deps) => "- ".to_string().concat(name).concat(
            " blocked by [",
        ).concat(joined(deps.as_slice(), ", ").as_str()).concat("]"),
    }
}

impl Reporter {
    /// The sets are well formed.
    pub closed spec fn wf(&self) -> bool {
        self.announced.wf() && self.finished.wf()
    }

    /// Nothing has been printed yet.
    pub fn new() -> (r: Reporter)
        ensures
            r.wf(),
            r@ == (ReporterView { announced: Set::empty(), finished: Set::empty() }),
    {
        Reporter { announced: NameSet::new(), finished: NameSet::new() }
    }

    /// Notes that the state of a target is printed; says whether that is new.
    fn note(&mut self, name: &String, status: &TargetStatus) -> (r: bool)
        requires
            old(self).wf(),
        ensures
            final(self).wf(),
            r == !reported(old(self)@, name@, status@),
            r ==> final(self)@ == noted(old(self)@, name@, status@),
            !r ==> final(self)@ == old(self)@,
    {
        let ghost before = self@;
        match status {
            TargetStatus::Pending => false,
            TargetStatus::Building => {
                let new = self.announced.insert(name.clone());
                proof {
                    if new {
                        assert(self@ =~= noted(before, name@, status@));
                    } else {
                        assert(before.announced.insert(name@) =~= before.announced);
                        assert(self@ =~= before);
                    }
                }
                new
            },
            _ => {
                let new = self.finished.insert(name.clone());
                proof {
                    if new {
                        assert(self@ =~= noted(before, name@, status@));
                    } else {
                        assert(before.finished.insert(name@) =~= before.finished);
                        assert(self@ =~= before);
                    }
                }
                new
            },
        }
    }

    /// The lines to print for what has changed since the last call, in the order in which the
    /// targets were given.
    pub fn drain(&mut self, state: &DashboardState) -> (r: Vec<String>)
        requires
            old(self).wf(),
            state.wf(),
        ensures
            final(self).wf(),
            (text::texts(r@), final(self)@) == drained(state@.order, state@.targets, old(self)@),
    {
        let ghost first = self@;
        let ghost v = state@;
        let order = state.order();
        let mut lines: Vec<String> = Vec::new();
        let mut i: usize = 0;
        assert(text::texts(lines@) =~= drained(v.order.take(0), v.targets, first).0);
        while i < order.len()
            invariant
                self.wf(),
                state.wf(),
                v == state@,
                v.order == text::texts(order@),
                i <= v.order.len(),
                text::texts(lines@) == drained(v.order.take(i as int), v.targets, first).0,
                self@ == drained(v.order.take(i as int), v.targets, first).1,
            decreases v.order.len() - i,
        {
            proof {
                assert(v.order.take(i + 1).drop_last() =~= v.order.take(i as int));
                assert(v.order.take(i + 1).last() == order@[i as int]@);
            }
            let name = &order[i];
            if let Some(info) = state.info(name.as_str()) {
                if self.note(name, &info.status) {
                    add_text(&mut lines, line_for(name.as_str(), info));
                }
            }
            i += 1;
        }
        assert(v.order.take(i as int) =~= v.order);
        lines
    }
}

impl Default for Reporter {
    fn default() -> (r: Reporter)
        ensures
            r.wf(),
            r@ == (ReporterView { announced: Set::empty(), finished: Set::empty() }),
    {
        Reporter::new()
    }
}

/// Nothing that has been printed is forgotten, and the state of every target of the list has
/// been printed.
proof fn lemma_all_reported(
    list: Seq<Seq<char>>,
    targets: Map<Seq<char>, InfoView>,
    r: ReporterView,
)
    ensures
        r.announced.subset_of(drained(list, targets, r).1.announced),
        r.finished.subset_of(drained(list, targets, r).1.finished),
        forall|i: int|
            0 <= i < list.len() && targets.contains_key(#[trigger] list[i]) ==> reported(
                drained(list, targets, r).1,
                list[i],
                targets[list[i]].status,
            ),
    decreases list.len(),
{
    if list.len() > 0 {
        let head = list.drop_last();
        lemma_all_reported(head, targets, r);
        let before = drained(head, targets, r).1;
        let after = drained(list, targets, r).1;
        assert forall|i: int|
            0 <= i < list.len() && targets.contains_key(#[trigger] list[i]) implies reported(
            after,
            list[i],
            targets[list[i]].status,
        ) by {
            if i < head.len() {
                assert(head[i] == list[i]);
                assert(reported(before, list[i], targets[list[i]].status));
            }
        }
    }
}

proof fn lemma_nothing_new(
    list: Seq<Seq<char>>,
    targets: Map<Seq<char>, InfoView>,
    r: ReporterView,
)
    requires
        forall|i: int|
            0 <= i < list.len() && targets.contains_key(#[trigger] list[i]) ==> reported(
                r,
                list[i],
                targets[list[i]].status,
            ),
    ensures
        drained(list, targets, r) == (Seq::<Seq<char>>::empty(), r),
    decreases list.len(),
{
    if list.len() > 0 {
        let head = list.drop_last();
        assert forall|i: int|
            0 <= i < head.len() && targets.contains_key(#[trigger] head[i]) implies reported(
            r,
            head[i],
            targets[head[i]].status,
        ) by {
            assert(head[i] == list[i]);
        }
        lemma_nothing_new(head, targets, r);
        assert(list.last() == list[list.len() - 1]);
    }
}

/// Where nothing has changed since the last call there is nothing to print: each change is
/// printed once.
pub proof fn law_printed_once(
    list: Seq<Seq<char>>,
    targets: Map<Seq<char>, InfoView>,
    r: ReporterView,
)
    ensures
        drained(list, targets, drained(list, targets, r).1) == (
            Seq::<Seq<char>>::empty(),
            drained(list, targets, r).1,
        ),
{
    lemma_all_reported(list, targets, r);
    lemma_nothing_new(list, targets, drained(list, targets, r).1);
}

/// A number with at least two digits.
pub open spec fn two_digits(n: nat) -> Seq<char> {
    if n < 10 {
        "0"@ + text::decimal(n)
    } else {
        text::decimal(n)
    }
}

/// A number with at least two digits.
pub fn padded(n: u64) -> (r: String)
    ensures
        r@ == two_digits(n as nat),
{
    if n < 10 {
        "0".to_string().concat(decimal_of(n).as_str())
    } else {
        decimal_of(n)
    }
}

/// Minutes and seconds.
pub open spec fn clock_text(secs: nat) -> Seq<char> {
    text::decimal(secs / 60) + "m "@ + two_digits(secs % 60) + "s"@
}

/// Minutes and seconds.
pub fn clock(secs: u64) -> (r: String)
    ensures
        r@ == clock_text(secs as nat),
{
    decimal_of(secs / 60).concat("m ").concat(padded(secs % 60).as_str()).concat("s")
}

/// The last line of a run.
pub open spec fn summary_text(v: state::BoardView, secs: nat) -> Seq<char> {
    "---\n"@ + text::decimal(v.of_kind(StatusKind::Done).len()) + " done, "@ + text::decimal(
        v.of_kind(StatusKind::Failed).len(),
    ) + " failed, "@ + text::decimal(v.of_kind(StatusKind::Skipped).len())
        + " skipped. Elapsed: "@ + clock_text(secs)
}

/// What to print now, and whether that was the last.
pub struct Report {
    pub lines: Vec<String>,
    /// The last line, where the run is over.
    pub summary: Option<String>,
}

/// What to print now: the changes since the last call and, where the run is over, the counts
/// and the time that it took.
pub fn report(reporter: &mut Reporter, state: &DashboardState, elapsed_secs: u64) -> (r: Report)
    requires
        old(reporter).wf(),
        state.wf(),
    ensures
        final(reporter).wf(),
        (text::texts(r.lines@), final(reporter)@) == drained(
            state@.order,
            state@.targets,
            old(reporter)@,
        ),
        r.summary is Some == state@.complete(),
        r.summary matches Some(s) ==> s@ == summary_text(state@, elapsed_secs as nat),
{
    let lines = reporter.drain(state);
    let summary = if state.is_complete() {
        let done = decimal_of(state.count_done() as u64);
        let failed = decimal_of(state.count_failed() as u64);
        let skipped = decimal_of(state.count_skipped() as u64);
        Some(
            "---\n".to_string().concat(done.as_str()).concat(" done, ").concat(
                failed.as_str(),
            ).concat(" failed, ").concat(skipped.as_str()).concat(" skipped. Elapsed: ").concat(
                clock(elapsed_secs).as_str(),
            ),
        )
    } else {
        None
    };
    Report { lines, summary }
}

}

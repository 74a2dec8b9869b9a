//! What is drawn on the screen, and what the keys do.
use super::fallback;
use super::fallback::clock;
use super::state;
use super::state::{
    BoardView, DashboardState, GroupView, InfoView, ProgressView, StatusKind, StatusView,
    TargetInfo, TargetStatus,
};
use crate::names;
use crate::text;
use crate::text::{
    add_text, chars_of, decimal_of, joined, last_piece, lines_of, same_text, string_of,
};
use vstd::prelude::*;
use vstd::slice::*;
use vstd::string::*;

pub mod laws;

verus! {

/// What is on the screen.
#[derive(Debug)]
pub enum Screen {
    /// All nodes and targets, with a cursor.
    Overview { cursor: usize },
    /// The log of a target, so many lines away from its end.
    Log { target: String, scroll: usize },
}

/// What is on the screen.
pub enum ScreenView {
    Overview { cursor: usize },
    Log { target: Seq<char>, scroll: usize },
}

impl View for Screen {
    type V = ScreenView;

    open spec fn view(&self) -> ScreenView {
        match self {
            Screen::Overview { cursor } => ScreenView::Overview { cursor: *cursor },
            Screen::Log { target, scroll } => ScreenView::Log { target: target@, scroll: *scroll },
        }
    }
}

/// A key.
#[derive(Debug, Clone, Copy, PartialEq, Eq, Structural)]
pub enum Key {
    /// `c` with the control key.
    Interrupt,
    Char(char),
    Up,
    Down,
    Enter,
    Esc,
    Home,
    End,
    Other,
}

/// Whether the cursor can be moved on.
pub open spec fn in_bounds(s: ScreenView) -> bool {
    s matches ScreenView::Overview { cursor } ==> cursor < usize::MAX
}

/// The screen after a key, and whether the run is to be cancelled.
pub open spec fn after_key(s: ScreenView, key: Key, active: Seq<Seq<char>>) -> (ScreenView, bool) {
    if key is Interrupt {
        (s, true)
    } else {
        match s {
            ScreenView::Overview { cursor } => match key {
                Key::Esc | Key::Char('q') => (s, true),
                Key::Down | Key::Char('j') => (
                    if active.len() > 0 {
                        ScreenView::Overview {
                            cursor: ((cursor as int + 1) % (active.len() as int)) as usize,
                        }
                    } else {
                        s
                    },
                    false,
                ),
                Key::Up | Key::Char('k') => (
                    if active.len() > 0 {
                        ScreenView::Overview {
                            cursor: if cursor > 0 {
                                (cursor - 1) as usize
                            } else {
                                (active.len() - 1) as usize
                            },
                        }
                    } else {
                        s
                    },
                    false,
                ),
                Key::Enter => (
                    if cursor < active.len() {
                        ScreenView::Log { target: active[cursor as int], scroll: 0 }
                    } else {
                        s
                    },
                    false,
                ),
                _ => (s, false),
            },
            ScreenView::Log { target, scroll } => match key {
                Key::Esc | Key::Char('q') => (ScreenView::Overview { cursor: 0 }, false),
                Key::Up | Key::Char('k') => (
                    ScreenView::Log {
                        target,
                        scroll: if scroll < usize::MAX {
                            (scroll + 1) as usize
                        } else {
                            scroll
                        },
                    },
                    false,
                ),
                Key::Down | Key::Char('j') => (
                    ScreenView::Log {
                        target,
                        scroll: if scroll > 0 {
                            (scroll - 1) as usize
                        } else {
                            scroll
                        },
                    },
                    false,
                ),
                Key::Home | Key::Char('g') => (
                    ScreenView::Log { target, scroll: usize::MAX },
                    false,
                ),
                Key::End | Key::Char('G') => (ScreenView::Log { target, scroll: 0 }, false),
                _ => (s, false),
            },
        }
    }
}

/// Does what a key asks for, where `active` are the targets that the cursor can be on. Says
/// whether the run is to be cancelled.
pub fn press(screen: &mut Screen, key: Key, active: &Vec<&str>) -> (r: bool)
    requires
        in_bounds(old(screen)@),
    ensures
        in_bounds(final(screen)@),
        (final(screen)@, r) == after_key(old(screen)@, key, text::strs(active@)),
{
    if key == Key::Interrupt {
        return true;
    }
    let ghost names = text::strs(active@);
    let count: usize = active.len();
    assert(names.len() == count);
    let mut opened: Option<usize> = None;
    let mut closed = false;
    match screen {
        Screen::Overview { cursor } => match key {
            Key::Esc | Key::Char('q') => {
                return true;
            },
            Key::Down | Key::Char('j') => {
                if count > 0 {
                    *cursor = (*cursor + 1) % count;
                }
            },
            Key::Up | Key::Char('k') => {
                if count > 0 {
                    *cursor = if *cursor > 0 {
                        *cursor - 1
                    } else {
                        count - 1
                    };
                }
            },
            Key::Enter => {
                if *cursor < count {
                    opened = Some(*cursor);
                }
            },
            _ => {},
        },
        Screen::Log { target: _, scroll } => match key {
            Key::Esc | Key::Char('q') => {
                closed = true;
            },
            Key::Up | Key::Char('k') => {
                if *scroll < usize::MAX {
                    *scroll = *scroll + 1;
                }
            },
            Key::Down | Key::Char('j') => {
                if *scroll > 0 {
                    *scroll = *scroll - 1;
                }
            },
            Key::Home | Key::Char('g') => {
                *scroll = usize::MAX;
            },
            Key::End | Key::Char('G') => {
                *scroll = 0;
            },
            _ => {},
        },
    }
    if let Some(at) = opened {
        *screen = Screen::Log { target: active[at].to_string(), scroll: 0 };
    }
    if closed {
        *screen = Screen::Overview { cursor: 0 };
    }
    false
}

/// What a loop that draws does after a key.
#[derive(Debug, Clone, Copy, PartialEq, Eq, Structural)]
pub enum DrawStep {
    GoOn,
    Stop,
    /// Draw once more, and stop.
    Finish,
}

/// What the loop that draws does next.
pub fn draw_step(cancelled: bool, complete: bool) -> (r: DrawStep)
    ensures
        r == if cancelled {
            DrawStep::Stop
        } else if complete {
            DrawStep::Finish
        } else {
            DrawStep::GoOn
        },
{
    if cancelled {
        DrawStep::Stop
    } else if complete {
        DrawStep::Finish
    } else {
        DrawStep::GoOn
    }
}

/// Whether the screen has to be drawn again: the state has changed, or the clock on it is old.
pub fn needs_redraw(version: u64, drawn_version: u64, since_drawn_millis: u64) -> (r: bool)
    ensures
        r == (version != drawn_version || since_drawn_millis >= 1000),
{
    version != drawn_version || since_drawn_millis >= 1000
}

/// How many bytes of the end of a log are kept.
pub const TAIL_BYTES: u64 = 262144;

/// Where the reading of a log of a length starts: one byte before the part that is kept, or at
/// the start of the log.
pub open spec fn tail_offset(len: u64) -> Option<u64> {
    if len <= TAIL_BYTES + 1 {
        None
    } else {
        Some((len - TAIL_BYTES - 1) as u64)
    }
}

/// Where the reading of a log of a length starts: one byte before the part that is kept, so that
/// the first line read is always one to drop; none where it starts at the start of the log.
pub fn tail_start(len: u64) -> (r: Option<u64>)
    ensures
        r == tail_offset(len),
{
    if len <= TAIL_BYTES + 1 {
        None
    } else {
        Some(len - TAIL_BYTES - 1)
    }
}

/// The lines of the end of a log: without the first one where it was not read from its start,
/// unless that is the only one.
pub open spec fn kept_lines(text: Seq<char>, from_start: bool) -> Seq<Seq<char>> {
    let all = text::lines(text);
    if !from_start && all.len() > 1 {
        all.skip(1)
    } else {
        all
    }
}

/// The lines of the end of a log. The first one is cut off where the log was not read from its
/// start; but a log without line ends is not to look empty.
pub fn tail_lines(text: &str, from_start: bool) -> (r: Vec<String>)
    ensures
        text::texts(r@) == kept_lines(text@, from_start),
{
    let chars = chars_of(text);
    let lines = lines_of(chars.as_slice());
    let ghost all = text::lines(text@);
    assert(all.len() == lines@.len());
    let first: usize = if !from_start && lines.len() > 1 {
        1
    } else {
        0
    };
    let mut r: Vec<String> = Vec::new();
    let mut i: usize = first;
    assert(text::texts(r@) =~= all.subrange(first as int, i as int));
    while i < lines.len()
        invariant
            first <= i <= lines@.len(),
            all == text::slices(lines@),
            text::texts(r@) == all.subrange(first as int, i as int),
        decreases lines@.len() - i,
    {
        assert(all[i as int] == lines@[i as int]@);
        add_text(&mut r, string_of(lines[i]));
        assert(text::texts(r@) =~= all.subrange(first as int, i + 1));
        i += 1;
    }
    proof {
        if first == 1 {
            assert(all.subrange(1, all.len() as int) =~= all.skip(1));
        } else {
            assert(all.subrange(0, all.len() as int) =~= all);
        }
    }
    r
}

/// When a log was last changed, and how long it was.
#[derive(Debug, Clone, Copy, PartialEq, Eq, Structural)]
pub struct LogStamp {
    pub len: u64,
    /// In nanoseconds.
    pub modified: Option<u128>,
}

/// The end of a log, kept so that a long log is not read again for each drawing.
#[derive(Debug)]
pub struct LogTailCache {
    pub path: Option<String>,
    pub stamp: Option<LogStamp>,
    pub lines: Vec<String>,
}

/// The part of some lines that is shown, so many lines away from the end.
pub open spec fn window(lines: Seq<Seq<char>>, height: nat, scroll: nat) -> Seq<Seq<char>> {
    let back = if scroll < lines.len() {
        scroll as int
    } else {
        lines.len() - 1
    };
    let end = lines.len() - back;
    let start = if end >= height {
        end - height
    } else {
        0
    };
    lines.subrange(start, end)
}

impl LogTailCache {
    /// Nothing kept yet.
    pub fn new() -> (r: LogTailCache)
        ensures
            r.path is None,
            r.stamp is None,
            text::texts(r.lines@) == Seq::<Seq<char>>::empty(),
    {
        let r = LogTailCache { path: None, stamp: None, lines: Vec::new() };
        assert(text::texts(r.lines@) =~= Seq::<Seq<char>>::empty());
        r
    }

    /// Whether what is kept is that of a log as it now is.
    pub open spec fn current(self, path: Seq<char>, stamp: LogStamp) -> bool {
        (self.path matches Some(p) && p@ == path) && self.stamp == Some(stamp)
    }

    /// Whether what is kept is that of a log as it now is. The length alone would not tell of a
    /// log that was written anew.
    pub fn is_current(&self, path: &str, stamp: LogStamp) -> (r: bool)
        ensures
            r == self.current(path@, stamp),
    {
        match (&self.path, &self.stamp) {
            (Some(p), Some(s)) => same_text(p.as_str(), path) && *s == stamp,
            _ => false,
        }
    }

    /// Keeps the end of a log.
    pub fn store(&mut self, path: &str, stamp: LogStamp, lines: Vec<String>)
        ensures
            final(self).current(path@, stamp),
            final(self).lines == lines,
    {
        self.path = Some(path.to_string());
        self.stamp = Some(stamp);
        self.lines = lines;
    }

    /// The lines to show: a window of a height, so many lines away from the end. Going back
    /// beyond what is kept shows the oldest line, not nothing.
    pub fn view(&self, height: usize, scroll: usize) -> (r: Vec<String>)
        ensures
            text::texts(r@) == if self.lines@.len() == 0 {
                seq!["(log empty — build starting...)"@]
            } else {
                window(text::texts(self.lines@), height as nat, scroll as nat)
            },
    {
        let ghost all = text::texts(self.lines@);
        let mut r: Vec<String> = Vec::new();
        let total: usize = self.lines.len();
        if total == 0 {
            add_text(&mut r, "(log empty — build starting...)".to_string());
            assert(text::texts(r@) =~= seq!["(log empty — build starting...)"@]);
            return r;
        }
        let back: usize = if scroll < total {
            scroll
        } else {
            total - 1
        };
        let end: usize = total - back;
        let start: usize = if end >= height {
            end - height
        } else {
            0
        };
        let mut i: usize = start;
        assert(text::texts(r@) =~= all.subrange(start as int, i as int));
        while i < end
            invariant
                start <= i <= end,
                end <= self.lines@.len(),
                all == text::texts(self.lines@),
                text::texts(r@) == all.subrange(start as int, i as int),
            decreases end - i,
        {
            assert(all[i as int] == self.lines@[i as int]@);
            add_text(&mut r, self.lines[i].clone());
            assert(text::texts(r@) =~= all.subrange(start as int, i + 1));
            i += 1;
        }
        r
    }
}

/// However far back one goes, something is shown.
pub proof fn law_window_never_blank(lines: Seq<Seq<char>>, height: nat, scroll: nat)
    requires
        lines.len() > 0,
        height > 0,
    ensures
        window(lines, height, scroll).len() > 0,
        window(lines, height, scroll).len() <= height,
{
}

/// What is shown where there is no log yet.
pub fn missing_log() -> (r: Vec<String>)
    ensures
        text::texts(r@) == seq!["(log file not yet available)"@],
{
    let mut r: Vec<String> = Vec::new();
    add_text(&mut r, "(log file not yet available)".to_string());
    assert(text::texts(r@) =~= seq!["(log file not yet available)"@]);
    r
}

/// What is shown where a target has no log.
pub fn no_log() -> (r: Vec<String>)
    ensures
        text::texts(r@) == seq!["(no log file)"@],
{
    let mut r: Vec<String> = Vec::new();
    add_text(&mut r, "(no log file)".to_string());
    assert(text::texts(r@) =~= seq!["(no log file)"@]);
    r
}

/// How many lines of a log fit on a screen, beside the headings and borders.
pub fn log_height(screen_height: u16) -> (r: usize)
    ensures
        r == if screen_height >= 6 {
            screen_height - 6
        } else {
            0
        },
{
    if screen_height >= 6 {
        (screen_height - 6) as usize
    } else {
        0
    }
}

/// A node's name without what buildx puts before it.
pub open spec fn short_name(name: Seq<char>) -> Seq<char> {
    let at = text::last_occurrence(name, "buildkit_"@);
    if at >= 0 {
        name.skip(at + 9)
    } else {
        name
    }
}

/// A node's name without what buildx puts before it: `zot-m3-pro0` for
/// `buildx_buildkit_zot-m3-pro0`.
pub fn short_node(name: &str) -> (r: String)
    ensures
        r@ == short_name(name@),
{
    proof {
        reveal_strlit("buildkit_");
    }
    let chars = chars_of(name);
    let end: usize = chars.len();
    match last_piece(chars.as_slice(), "buildkit_") {
        Some(at) => {
            let rest = slice_subrange(chars.as_slice(), at + 9, end);
            assert(rest@ =~= name@.skip(at + 9));
            string_of(rest)
        },
        None => name.to_string(),
    }
}

/// A text of at most so many characters, with dots where it was cut.
pub open spec fn cut(s: Seq<char>, max_len: nat) -> Seq<char> {
    if s.len() <= max_len {
        s
    } else if max_len <= 3 {
        s.take(max_len as int)
    } else {
        s.take(max_len - 3) + "..."@
    }
}

/// A text of at most so many characters, with dots where it was cut. Characters count, not
/// bytes: a cut inside a character would not do.
pub fn truncate(s: &str, max_len: usize) -> (r: String)
    ensures
        r@ == cut(s@, max_len as nat),
{
    let chars = chars_of(s);
    if chars.len() <= max_len {
        return s.to_string();
    }
    if max_len <= 3 {
        let head = slice_subrange(chars.as_slice(), 0, max_len);
        assert(head@ =~= s@.take(max_len as int));
        return string_of(head);
    }
    let head = slice_subrange(chars.as_slice(), 0, max_len - 3);
    assert(head@ =~= s@.take(max_len - 3));
    string_of(head).concat("...")
}

/// A text that was cut is no longer than it may be.
pub proof fn law_cut_fits(s: Seq<char>, max_len: nat)
    ensures
        cut(s, max_len).len() <= max_len,
{
    reveal_strlit("...");
}

/// A character so many times.
pub open spec fn repeat(c: char, n: nat) -> Seq<char> {
    Seq::new(n, |i: int| c)
}

fn repeated(c: char, n: usize) -> (r: String)
    ensures
        r@ == repeat(c, n as nat),
{
    let mut r: String = String::new();
    let mut i: usize = 0;
    assert(r@ =~= repeat(c, 0));
    while i < n
        invariant
            i <= n,
            r@ == repeat(c, i as nat),
        decreases n - i,
    {
        r.push(c);
        assert(r@ =~= repeat(c, (i + 1) as nat));
        i += 1;
    }
    r
}

/// A text with spaces behind it, up to a width.
pub open spec fn padded_right(s: Seq<char>, width: nat) -> Seq<char> {
    if s.len() >= width {
        s
    } else {
        s + repeat(' ', (width - s.len()) as nat)
    }
}

fn pad_right(s: &str, width: usize) -> (r: String)
    ensures
        r@ == padded_right(s@, width as nat),
{
    let n: usize = s.unicode_len();
    if n >= width {
        s.to_string()
    } else {
        s.to_string().concat(repeated(' ', width - n).as_str())
    }
}

/// A text with spaces before it, up to a width.
pub open spec fn padded_left(s: Seq<char>, width: nat) -> Seq<char> {
    if s.len() >= width {
        s
    } else {
        repeat(' ', (width - s.len()) as nat) + s
    }
}

fn pad_left(s: &str, width: usize) -> (r: String)
    ensures
        r@ == padded_left(s@, width as nat),
{
    let n: usize = s.unicode_len();
    if n >= width {
        s.to_string()
    } else {
        repeated(' ', width - n).concat(s)
    }
}

/// The width of the bar that shows how far a build has come.
pub const BAR_WIDTH: usize = 10;

/// A bar that is filled by a percentage.
pub open spec fn bar(percent: nat) -> Seq<char> {
    let filled = percent * 10 / 100;
    repeat('█', filled) + repeat('░', (10 - filled) as nat)
}

fn draw_bar(percent: u32) -> (r: String)
    requires
        percent <= 100,
    ensures
        r@ == bar(percent as nat),
{
    let filled: usize = percent as usize * BAR_WIDTH / 100;
    repeated('█', filled).concat(repeated('░', BAR_WIDTH - filled).as_str())
}

/// The look of a row.
#[derive(Debug, Clone, Copy, PartialEq, Eq, Structural)]
pub enum Tone {
    Building,
    Done,
    Failed,
    Skipped,
}

/// A row of the overview: a target that does not wait.
#[derive(Debug)]
pub struct Row {
    pub tone: Tone,
    /// Marks the row under the cursor.
    pub prefix: String,
    pub node: String,
    pub name: String,
    pub bar: String,
    pub mark: String,
    pub detail: String,
}

/// What a row shows.
#[verifier::ext_equal]
pub struct RowView {
    pub tone: Tone,
    pub prefix: Seq<char>,
    pub node: Seq<char>,
    pub name: Seq<char>,
    pub bar: Seq<char>,
    pub mark: Seq<char>,
    pub detail: Seq<char>,
}

impl View for Row {
    type V = RowView;

    open spec fn view(&self) -> RowView {
        RowView {
            tone: self.tone,
            prefix: self.prefix@,
            node: self.node@,
            name: self.name@,
            bar: self.bar@,
            mark: self.mark@,
            detail: self.detail@,
        }
    }
}

/// A percentage, at most 100.
pub open spec fn at_most_full(percent: u32) -> u32 {
    if percent > 100 {
        100
    } else {
        percent
    }
}

/// What a build is doing, with its stage where that has a name.
pub open spec fn progress_text(p: ProgressView) -> Seq<char> {
    match p.stage {
        Some(stage) => "["@ + stage + "] "@ + p.step_description,
        None => p.step_description,
    }
}

/// The bar, the mark and the detail of a build that goes on.
pub open spec fn building_cells(
    progress: Option<ProgressView>,
    percent: u32,
    secs: nat,
) -> (Seq<char>, Seq<char>, Seq<char>) {
    let p = at_most_full(percent);
    match progress {
        Some(known) if known.total_steps > 0 => (
            bar(p as nat),
            " "@ + (padded_left(text::decimal(p as nat), 3) + "%"@) + " "@,
            cut(progress_text(known), 40),
        ),
        _ => (repeat('░', 10), "   ?% "@, "starting... "@ + text::decimal(secs) + "s"@),
    }
}

/// Why a target was skipped.
pub open spec fn skip_reason(s: StatusView) -> Seq<char> {
    match s {
        StatusView::Blocked(deps) => "blocked by ["@ + text::join(deps, ", "@) + "]"@,
        _ => "cancelled"@,
    }
}

/// The row of a target; none while it waits.
pub open spec fn row_of(
    info: InfoView,
    label: Seq<char>,
    selected: bool,
    percent: u32,
    secs: nat,
) -> Option<RowView> {
    let prefix = if selected {
        "▶ "@
    } else {
        "  "@
    };
    let node = "["@ + label + "]"@;
    let name = " "@ + padded_right(info.name, 20) + " "@;
    match info.status {
        StatusView::Pending => None,
        StatusView::Building => {
            let cells = building_cells(info.progress, percent, secs);
            Some(
                RowView {
                    tone: Tone::Building,
                    prefix,
                    node,
                    name,
                    bar: cells.0,
                    mark: cells.1,
                    detail: cells.2,
                },
            )
        },
        StatusView::Done(took) => Some(
            RowView {
                tone: Tone::Done,
                prefix,
                node,
                name,
                bar: repeat('█', 10),
                mark: " 100% "@,
                detail: "done ("@ + text::decimal(took as nat) + "s)"@,
            },
        ),
        StatusView::Failed(error) => Some(
            RowView {
                tone: Tone::Failed,
                prefix,
                node,
                name,
                bar: repeat('░', 10),
                mark: " FAIL "@,
                detail: cut(error, 40),
            },
        ),
        _ => Some(
            RowView {
                tone: Tone::Skipped,
                prefix,
                node,
                name,
                bar: repeat('░', 10),
                mark: " SKIP "@,
                detail: cut(skip_reason(info.status), 40),
            },
        ),
    }
}

fn building_texts(info: &TargetInfo, percent: u32, secs: u64) -> (r: (String, String, String))
    ensures
        (r.0@, r.1@, r.2@) == building_cells(info@.progress, percent, secs as nat),
{
    if let Some(p) = &info.progress {
        if p.total_steps > 0 {
            let full: u32 = if percent > 100 {
                100
            } else {
                percent
            };
            let share = pad_left(decimal_of(full as u64).as_str(), 3).concat("%");
            let doing = match &p.stage {
                Some(stage) => "[".to_string().concat(stage.as_str()).concat("] ").concat(
                    p.step_description.as_str(),
                ),
                None => p.step_description.clone(),
            };
            return (
                draw_bar(full),
                " ".to_string().concat(share.as_str()).concat(" "),
                truncate(doing.as_str(), 40),
            );
        }
    }
    (
        repeated('░', BAR_WIDTH),
        "   ?% ".to_string(),
        "starting... ".to_string().concat(decimal_of(secs).as_str()).concat("s"),
    )
}

/// The row of a target under the label of its node; none while it waits. `percent` and `secs`
/// tell how far its build has come and how long it has taken.
pub fn overview_row(info: &TargetInfo, label: &str, selected: bool, percent: u32, secs: u64) -> (r:
    Option<Row>)
    ensures
        match r {
            Some(row) => row_of(info@, label@, selected, percent, secs as nat) == Some(row@),
            None => row_of(info@, label@, selected, percent, secs as nat) is None,
        },
{
    let prefix: String = if selected {
        "▶ ".to_string()
    } else {
        "  ".to_string()
    };
    let node = "[".to_string().concat(label).concat("]");
    let name = " ".to_string().concat(pad_right(info.name.as_str(), 20).as_str()).concat(" ");
    match &info.status {
        TargetStatus::Pending => None,
        TargetStatus::Building => {
            let (bar, mark, detail) = building_texts(info, percent, secs);
            Some(Row { tone: Tone::Building, prefix, node, name, bar, mark, detail })
        },
        TargetStatus::Done(took) => Some(
            Row {
                tone: Tone::Done,
                prefix,
                node,
                name,
                bar: repeated('█', BAR_WIDTH),
                mark: " 100% ".to_string(),
                detail: "done (".to_string().concat(decimal_of(*took).as_str()).concat("s)"),
            },
        ),
        TargetStatus::Failed(error) => Some(
            Row {
                tone: Tone::Failed,
                prefix,
                node,
                name,
                bar: repeated('░', BAR_WIDTH),
                mark: " FAIL ".to_string(),
                detail: truncate(error.as_str(), 40),
            },
        ),
        TargetStatus::Cancelled => Some(
            Row {
                tone: Tone::Skipped,
                prefix,
                node,
                name,
                bar: repeated('░', BAR_WIDTH),
                mark: " SKIP ".to_string(),
                detail: truncate("cancelled", 40),
            },
        ),
        TargetStatus::Blocked(deps) => {
            let reason = "blocked by [".to_string().concat(
                joined(deps.as_slice(), ", ").as_str(),
            ).concat("]");
            Some(
                Row {
                    tone: Tone::Skipped,
                    prefix,
                    node,
                    name,
                    bar: repeated('░', BAR_WIDTH),
                    mark: " SKIP ".to_string(),
                    detail: truncate(reason.as_str(), 40),
                },
            )
        },
    }
}

/// A row to draw: a target, and the label that it stands under.
#[derive(Debug)]
pub struct RowKey {
    pub label: String,
    pub target: String,
}

/// What some rows are for.
pub open spec fn row_keys(rows: Seq<RowKey>) -> Seq<(Seq<char>, Seq<char>)> {
    rows.map_values(|k: RowKey| (k.label@, k.target@))
}

/// The rows for the targets of a list under one label.
pub open spec fn labelled(label: Seq<char>, list: Seq<Seq<char>>) -> Seq<(Seq<char>, Seq<char>)> {
    list.map_values(|t: Seq<char>| (label, t))
}

/// The rows of some nodes.
pub open spec fn node_rows(v: BoardView, nodes: Seq<Seq<char>>) -> Seq<(Seq<char>, Seq<char>)>
    decreases nodes.len(),
{
    if nodes.len() == 0 {
        Seq::empty()
    } else {
        node_rows(v, nodes.drop_last()) + labelled(
            short_name(nodes.last()),
            v.group(GroupView::ActiveOn(nodes.last())),
        )
    }
}

/// The rows of the overview: node by node, then what has no known node.
pub open spec fn overview_rows(v: BoardView) -> Seq<(Seq<char>, Seq<char>)> {
    node_rows(v, v.nodes) + labelled("skipped"@, v.group(GroupView::Unassigned))
}

/// Adds the rows for the targets of a group that do not wait.
fn add_rows(
    out: &mut Vec<RowKey>,
    label: &str,
    group: &Vec<&TargetInfo>,
    Ghost(v): Ghost<BoardView>,
)
    requires
        forall|i: int| 0 <= i < group@.len() ==> (#[trigger] group@[i])@ == v.targets[group@[i].name@],
    ensures
        row_keys(final(out)@) == row_keys(old(out)@) + labelled(
            label@,
            state::info_names(group@).filter(
                |t: Seq<char>| !(v.targets[t].status is Pending),
            ),
        ),
{
    let ghost names = state::info_names(group@);
    let ghost keep = |t: Seq<char>| !(v.targets[t].status is Pending);
    let ghost before = row_keys(out@);
    let mut i: usize = 0;
    proof {
        reveal(Seq::filter);
        assert(before + labelled(label@, names.take(0).filter(keep)) =~= before);
    }
    while i < group.len()
        invariant
            i <= group@.len(),
            names == state::info_names(group@),
            keep == (|t: Seq<char>| !(v.targets[t].status is Pending)),
            forall|j: int|
                0 <= j < group@.len() ==> (#[trigger] group@[j])@ == v.targets[group@[j].name@],
            row_keys(out@) == before + labelled(label@, names.take(i as int).filter(keep)),
        decreases group@.len() - i,
    {
        let info = group[i];
        let ghost done = names.take(i as int).filter(keep);
        proof {
            reveal(Seq::filter);
            assert(names.take(i + 1).drop_last() =~= names.take(i as int));
            assert(names.take(i + 1).last() == info.name@);
            assert(info@ == v.targets[info.name@]);
        }
        let waits = matches!(info.status, TargetStatus::Pending);
        if !waits {
            let ghost was = out@;
            let k = RowKey { label: label.to_string(), target: info.name.clone() };
            out.push(k);
            proof {
                assert(row_keys(out@) =~= row_keys(was).push((label@, info.name@)));
                assert(labelled(label@, done.push(info.name@)) =~= labelled(label@, done).push(
                    (label@, info.name@),
                ));
                assert(row_keys(out@) =~= before + labelled(label@, done.push(info.name@)));
            }
        }
        i += 1;
    }
    assert(names.take(i as int) =~= names);
}

/// Of the targets of a node, those that do not wait.
proof fn lemma_active_of_node(v: BoardView, list: Seq<Seq<char>>, n: Seq<char>)
    ensures
        list.filter(|t: Seq<char>| state::in_group(GroupView::On(n), v.nodes, v.targets[t])).filter(
            |t: Seq<char>| !(v.targets[t].status is Pending),
        ) == list.filter(
            |t: Seq<char>| state::in_group(GroupView::ActiveOn(n), v.nodes, v.targets[t]),
        ),
    decreases list.len(),
{
    reveal(Seq::filter);
    let on = |t: Seq<char>| state::in_group(GroupView::On(n), v.nodes, v.targets[t]);
    let active = |t: Seq<char>| state::in_group(GroupView::ActiveOn(n), v.nodes, v.targets[t]);
    let keep = |t: Seq<char>| !(v.targets[t].status is Pending);
    if list.len() > 0 {
        lemma_active_of_node(v, list.drop_last(), n);
        let head = list.drop_last().filter(on);
        if on(list.last()) {
            assert(head.push(list.last()).drop_last() =~= head);
        }
    } else {
        assert(list.filter(on).filter(keep) =~= list.filter(active));
    }
}

/// Of the targets of no known node none waits.
proof fn lemma_unassigned_active(v: BoardView, list: Seq<Seq<char>>)
    ensures
        list.filter(
            |t: Seq<char>| state::in_group(GroupView::Unassigned, v.nodes, v.targets[t]),
        ).filter(|t: Seq<char>| !(v.targets[t].status is Pending)) == list.filter(
            |t: Seq<char>| state::in_group(GroupView::Unassigned, v.nodes, v.targets[t]),
        ),
    decreases list.len(),
{
    reveal(Seq::filter);
    let un = |t: Seq<char>| state::in_group(GroupView::Unassigned, v.nodes, v.targets[t]);
    let keep = |t: Seq<char>| !(v.targets[t].status is Pending);
    if list.len() > 0 {
        lemma_unassigned_active(v, list.drop_last());
        let head = list.drop_last().filter(un);
        if un(list.last()) {
            assert(head.push(list.last()).drop_last() =~= head);
        }
    } else {
        assert(list.filter(un).filter(keep) =~= list.filter(un));
    }
}

/// The rows of the overview: node by node, then what has no known node. Nothing is counted that
/// has no row.
pub fn rows(state: &DashboardState) -> (r: Vec<RowKey>)
    requires
        state.wf(),
    ensures
        row_keys(r@) == overview_rows(state@),
{
    let ghost v = state@;
    let nodes = state.nodes();
    let mut r: Vec<RowKey> = Vec::new();
    let mut i: usize = 0;
    assert(row_keys(r@) =~= node_rows(v, v.nodes.take(0)));
    while i < nodes.len()
        invariant
            state.wf(),
            v == state@,
            v.nodes == text::texts(nodes@),
            i <= v.nodes.len(),
            row_keys(r@) == node_rows(v, v.nodes.take(i as int)),
        decreases v.nodes.len() - i,
    {
        let group = state.targets_for_node(nodes[i].as_str());
        proof {
            assert(v.nodes.take(i + 1).drop_last() =~= v.nodes.take(i as int));
            assert(v.nodes.take(i + 1).last() == nodes@[i as int]@);
            lemma_active_of_node(v, v.by_name(), nodes@[i as int]@);
        }
        let label = short_node(nodes[i].as_str());
        add_rows(&mut r, label.as_str(), &group, Ghost(v));
        i += 1;
    }
    assert(v.nodes.take(i as int) =~= v.nodes);
    let rest = state.unassigned_targets();
    proof {
        lemma_unassigned_active(v, v.by_name());
    }
    add_rows(&mut r, "skipped", &rest, Ghost(v));
    r
}

/// The targets of some rows.
pub open spec fn row_targets(rows: Seq<(Seq<char>, Seq<char>)>) -> Seq<Seq<char>> {
    rows.map_values(|k: (Seq<char>, Seq<char>)| k.1)
}

proof fn lemma_node_rows(v: BoardView, nodes: Seq<Seq<char>>)
    ensures
        row_targets(node_rows(v, nodes)) == v.shown_on(nodes),
    decreases nodes.len(),
{
    if nodes.len() > 0 {
        let head = nodes.drop_last();
        let group = v.group(GroupView::ActiveOn(nodes.last()));
        lemma_node_rows(v, head);
        assert(row_targets(node_rows(v, nodes)) =~= row_targets(node_rows(v, head)) + group);
    } else {
        assert(row_targets(node_rows(v, nodes)) =~= v.shown_on(nodes));
    }
}

/// The rows stand in the order in which the cursor moves.
pub proof fn law_rows_follow_the_cursor(v: BoardView)
    ensures
        row_targets(overview_rows(v)) == v.active(),
{
    lemma_node_rows(v, v.nodes);
    assert(row_targets(overview_rows(v)) =~= row_targets(node_rows(v, v.nodes)) + v.group(
        GroupView::Unassigned,
    ));
}

/// Whether the cursor is on a target.
pub fn is_selected(active: &Vec<&str>, cursor: usize, target: &str) -> (r: bool)
    ensures
        r == (cursor < active@.len() && text::strs(active@)[cursor as int] == target@),
{
    cursor < active.len() && same_text(active[cursor], target)
}

/// The heading of the overview.
pub open spec fn heading_text(nodes: nat, targets: nat, secs: nat) -> Seq<char> {
    "docker dbake — "@ + text::decimal(nodes) + " nodes, "@ + text::decimal(targets)
        + " targets | "@ + fallback::clock_text(secs)
}

/// The heading of the overview.
pub fn heading(state: &DashboardState, elapsed_secs: u64) -> (r: String)
    ensures
        r@ == heading_text(state@.nodes.len(), state@.total, elapsed_secs as nat),
{
    let nodes = state.nodes();
    assert(text::texts(nodes@).len() == nodes@.len());
    "docker dbake — ".to_string().concat(decimal_of(nodes.len() as u64).as_str()).concat(
        " nodes, ",
    ).concat(decimal_of(state.total() as u64).as_str()).concat(" targets | ").concat(
        clock(elapsed_secs).as_str(),
    )
}

/// Whether a node builds nothing now.
pub open spec fn idle(v: BoardView, n: Seq<char>) -> bool {
    forall|t: Seq<char>| #[trigger]
        v.targets.contains_key(t) && v.targets[t].node == n ==> !(v.targets[t].status is Building)
}

/// The nodes that build nothing now.
pub open spec fn idle_nodes_of(v: BoardView) -> Seq<Seq<char>> {
    v.nodes.filter(|n: Seq<char>| idle(v, n))
}

fn is_idle(state: &DashboardState, node: &str) -> (r: bool)
    requires
        state.wf(),
    ensures
        r == idle(state@, node@),
{
    let ghost v = state@;
    let group = state.targets_for_node(node);
    let ghost names = v.group(GroupView::On(node@));
    let ghost on = |t: Seq<char>| state::in_group(GroupView::On(node@), v.nodes, v.targets[t]);
    proof {
        state.lemma_names();
        crate::order::lemma_in_order_exists(v.targets.dom());
    }
    let mut i: usize = 0;
    while i < group.len()
        invariant
            v == state@,
            i <= group@.len(),
            names == state::info_names(group@),
            names == v.group(GroupView::On(node@)),
            v.by_name().to_set() == v.targets.dom(),
            on == (|t: Seq<char>|
                state::in_group(GroupView::On(node@), v.nodes, v.targets[t])),
            forall|j: int|
                0 <= j < group@.len() ==> (#[trigger] group@[j])@ == v.targets[group@[j].name@],
            forall|j: int| 0 <= j < i ==> !(v.targets[#[trigger] names[j]].status is Building),
        decreases group@.len() - i,
    {
        let info = group[i];
        assert(names[i as int] == info.name@);
        assert(info@ == v.targets[info.name@]);
        if matches!(info.status, TargetStatus::Building) {
            proof {
                let t = names[i as int];
                assert(names.contains(t));
                names::lemma_filter_holds(v.by_name(), on, t);
                assert(v.by_name().to_set().contains(t));
                assert(v.targets.contains_key(t) && v.targets[t].node == node@);
            }
            return false;
        }
        i += 1;
    }
    proof {
        assert forall|t: Seq<char>| #[trigger]
            v.targets.contains_key(t) && v.targets[t].node == node@ implies !(
        v.targets[t].status is Building) by {
            names::lemma_filter_holds(v.by_name(), on, t);
            assert(v.by_name().to_set().contains(t));
            assert(names.contains(t));
            let j: int = choose|j: int| 0 <= j < names.len() && names[j] == t;
            assert(!(v.targets[names[j]].status is Building));
        }
    }
    true
}

/// The nodes that build nothing now, by their short names.
pub fn idle_nodes(state: &DashboardState) -> (r: Vec<String>)
    requires
        state.wf(),
    ensures
        text::texts(r@) == idle_nodes_of(state@).map_values(|n: Seq<char>| short_name(n)),
{
    let ghost v = state@;
    let ghost keep = |n: Seq<char>| idle(v, n);
    let ghost short = |n: Seq<char>| short_name(n);
    let nodes = state.nodes();
    let mut r: Vec<String> = Vec::new();
    let mut i: usize = 0;
    proof {
        reveal(Seq::filter);
        assert(text::texts(r@) =~= v.nodes.take(0).filter(keep).map_values(short));
    }
    while i < nodes.len()
        invariant
            state.wf(),
            v == state@,
            v.nodes == text::texts(nodes@),
            i <= v.nodes.len(),
            keep == (|n: Seq<char>| idle(v, n)),
            short == (|n: Seq<char>| short_name(n)),
            text::texts(r@) == v.nodes.take(i as int).filter(keep).map_values(short),
        decreases v.nodes.len() - i,
    {
        let ghost done = v.nodes.take(i as int).filter(keep);
        let ghost n = nodes@[i as int]@;
        proof {
            reveal(Seq::filter);
            assert(v.nodes.take(i + 1).drop_last() =~= v.nodes.take(i as int));
            assert(v.nodes.take(i + 1).last() == n);
        }
        if is_idle(state, nodes[i].as_str()) {
            add_text(&mut r, short_node(nodes[i].as_str()));
            assert(done.push(n).map_values(short) =~= done.map_values(short).push(short_name(n)));
        }
        i += 1;
    }
    assert(v.nodes.take(i as int) =~= v.nodes);
    r
}

/// How many waiting targets are named.
pub const QUEUE_SHOWN: usize = 5;

/// What is said of the targets that wait: how many, and which come first.
pub open spec fn queue_texts(pending: Seq<Seq<char>>) -> (Seq<char>, Seq<char>) {
    let shown = if pending.len() > 5 {
        pending.take(5)
    } else {
        pending
    };
    let extra = if pending.len() > 5 {
        ", +"@ + text::decimal((pending.len() - 5) as nat) + " more"@
    } else {
        ""@
    };
    (
        " ○ "@ + text::decimal(pending.len()) + " pending"@,
        " ["@ + text::join(shown, ", "@) + extra + "]"@,
    )
}

/// What is said of the targets that wait: how many, and which come first; nothing where none
/// waits.
pub fn queue_line(state: &DashboardState) -> (r: Option<(String, String)>)
    requires
        state.wf(),
    ensures
        match r {
            Some(t) => state@.pending().len() > 0 && (t.0@, t.1@) == queue_texts(state@.pending()),
            None => state@.pending().len() == 0,
        },
{
    let pending = state.pending_targets();
    let ghost names = text::strs(pending@);
    assert(names.len() == pending@.len());
    let count: usize = pending.len();
    if count == 0 {
        return None;
    }
    let limit: usize = if count > QUEUE_SHOWN {
        QUEUE_SHOWN
    } else {
        count
    };
    let mut shown: Vec<String> = Vec::new();
    let mut i: usize = 0;
    assert(text::texts(shown@) =~= names.take(0));
    while i < limit
        invariant
            i <= limit <= pending@.len(),
            names == text::strs(pending@),
            text::texts(shown@) == names.take(i as int),
        decreases limit - i,
    {
        assert(names[i as int] == pending@[i as int]@);
        add_text(&mut shown, pending[i].to_string());
        assert(text::texts(shown@) =~= names.take(i + 1));
        i += 1;
    }
    let extra: String = if count > QUEUE_SHOWN {
        ", +".to_string().concat(decimal_of((count - QUEUE_SHOWN) as u64).as_str()).concat(" more")
    } else {
        "".to_string()
    };
    assert(count <= 5 ==> names.take(limit as int) =~= names);
    Some(
        (
            " ○ ".to_string().concat(decimal_of(count as u64).as_str()).concat(" pending"),
            " [".to_string().concat(joined(shown.as_slice(), ", ").as_str()).concat(
                extra.as_str(),
            ).concat("]"),
        ),
    )
}

/// The foot of the overview.
pub open spec fn footer_text(v: BoardView) -> Seq<char> {
    " ✓ "@ + text::decimal(v.of_kind(StatusKind::Done).len()) + " done | ⚙ "@ + text::decimal(
        v.of_kind(StatusKind::Building).len(),
    ) + " building | ○ "@ + text::decimal(v.of_kind(StatusKind::Pending).len())
        + " pending | ✗ "@ + text::decimal(v.of_kind(StatusKind::Failed).len())
        + " failed | - "@ + text::decimal(v.of_kind(StatusKind::Skipped).len())
        + " skipped | j/k:select Enter:logs q:quit"@
}

/// The foot of the overview.
pub fn footer(state: &DashboardState) -> (r: String)
    requires
        state.wf(),
    ensures
        r@ == footer_text(state@),
{
    " ✓ ".to_string().concat(decimal_of(state.count_done() as u64).as_str()).concat(
        " done | ⚙ ",
    ).concat(decimal_of(state.count_building() as u64).as_str()).concat(" building | ○ ").concat(
        decimal_of(state.count_pending() as u64).as_str(),
    ).concat(" pending | ✗ ").concat(decimal_of(state.count_failed() as u64).as_str()).concat(
        " failed | - ",
    ).concat(decimal_of(state.count_skipped() as u64).as_str()).concat(
        " skipped | j/k:select Enter:logs q:quit",
    )
}

/// What is said of a target above its log.
pub open spec fn status_text(info: Option<InfoView>, secs: nat) -> Seq<char> {
    match info {
        None => "unknown"@,
        Some(i) => match i.status {
            StatusView::Pending => "pending"@,
            StatusView::Building => "building ("@ + text::decimal(secs) + "s)"@,
            StatusView::Done(took) => "done ("@ + text::decimal(took as nat) + "s)"@,
            StatusView::Failed(error) => "FAILED: "@ + error,
            StatusView::Cancelled => "cancelled"@,
            StatusView::Blocked(deps) => "blocked by ["@ + text::join(deps, ", "@) + "]"@,
        },
    }
}

/// What is known of a target, if anything is.
pub open spec fn known(info: Option<&TargetInfo>) -> Option<InfoView> {
    match info {
        Some(i) => Some(i@),
        None => None,
    }
}

/// What is said of a target above its log; `secs` is the time that its build has taken.
pub fn log_status(info: Option<&TargetInfo>, secs: u64) -> (r: String)
    ensures
        r@ == status_text(known(info), secs as nat),
{
    match info {
        None => "unknown".to_string(),
        Some(i) => match &i.status {
            TargetStatus::Pending => "pending".to_string(),
            TargetStatus::Building => "building (".to_string().concat(
                decimal_of(secs).as_str(),
            ).concat("s)"),
            TargetStatus::Done(took) => "done (".to_string().concat(
                decimal_of(*took).as_str(),
            ).concat("s)"),
            TargetStatus::Failed(error) => "FAILED: ".to_string().concat(error.as_str()),
            TargetStatus::Cancelled => "cancelled".to_string(),
            TargetStatus::Blocked(deps) => "blocked by [".to_string().concat(
                joined(deps.as_slice(), ", ").as_str(),
            ).concat("]"),
        },
    }
}

/// The foot below a log.
pub open spec fn log_footer_text(scroll: nat) -> Seq<char> {
    " Esc:back | j/k:scroll | g:top G:bottom |"@ + if scroll > 0 {
        " +"@ + text::decimal(scroll) + " from bottom |"@
    } else {
        " tail |"@
    }
}

/// The foot below a log.
pub fn log_footer(scroll: usize) -> (r: String)
    ensures
        r@ == log_footer_text(scroll as nat),
{
    let hint: String = if scroll > 0 {
        " +".to_string().concat(decimal_of(scroll as u64).as_str()).concat(" from bottom |")
    } else {
        " tail |".to_string()
    };
    " Esc:back | j/k:scroll | g:top G:bottom |".to_string().concat(hint.as_str())
}

}

//! What the keys do, and what is drawn.
use super::{DrawStep, Key, ScreenView, Tone};
use crate::names;
use crate::text;
use crate::tui;
use crate::tui::fallback;
use crate::tui::state::{BoardView, GroupView, InfoView, ProgressView, StatusKind, StatusView};
use vstd::prelude::*;

verus! {

/// Only the interrupt, and on the overview `q` or escape, cancels the run; neither changes the
/// screen. In a log they lead back to the overview.
pub proof fn law_only_quitting_cancels(
    cursor: usize,
    target: Seq<char>,
    scroll: usize,
    key: Key,
    active: Seq<Seq<char>>,
)
    ensures
        ({
            let overview = ScreenView::Overview { cursor };
            let log = ScreenView::Log { target, scroll };
            &&& super::after_key(overview, key, active).1 <==> key is Interrupt || key is Esc || key
                == Key::Char('q')
            &&& super::after_key(log, key, active).1 <==> key is Interrupt
            &&& super::after_key(overview, key, active).1 ==> super::after_key(
                overview,
                key,
                active,
            ).0 == overview
            &&& super::after_key(log, Key::Interrupt, active).0 == log
            &&& key is Esc || key == Key::Char('q') ==> super::after_key(log, key, active).0
                is Overview
        }),
{
}

/// The cursor goes down one target, and from the last to the first; up undoes down, and down up.
pub proof fn law_cursor_goes_round(cursor: usize, active: Seq<Seq<char>>, down: Key, up: Key)
    requires
        cursor < active.len(),
        active.len() <= usize::MAX,
        down == Key::Down || down == Key::Char('j'),
        up == Key::Up || up == Key::Char('k'),
    ensures
        ({
            let here = ScreenView::Overview { cursor };
            let below = super::after_key(here, down, active).0;
            let above = super::after_key(here, up, active).0;
            &&& below == (ScreenView::Overview {
                cursor: if cursor + 1 < active.len() {
                    (cursor + 1) as usize
                } else {
                    0
                },
            })
            &&& super::after_key(below, up, active).0 == here
            &&& super::after_key(above, down, active).0 == here
        }),
{
    let n = active.len() as int;
    if cursor + 1 < n {
        vstd::arithmetic::div_mod::lemma_small_mod((cursor + 1) as nat, n as nat);
    } else {
        vstd::arithmetic::div_mod::lemma_mod_self_0(n);
    }
    if cursor > 0 {
        vstd::arithmetic::div_mod::lemma_small_mod(cursor as nat, n as nat);
    } else {
        vstd::arithmetic::div_mod::lemma_mod_self_0(n);
    }
}

/// Where nothing can be selected the cursor stays.
pub proof fn law_cursor_stays_without_targets(cursor: usize, key: Key)
    requires
        !(key is Interrupt),
    ensures
        super::after_key(ScreenView::Overview { cursor }, key, Seq::empty()).0 == (
        ScreenView::Overview { cursor }),
{
}

/// Enter shows the log of the target under the cursor, from its end; and nothing where the cursor
/// is on none.
pub proof fn law_enter_shows_the_log(cursor: usize, active: Seq<Seq<char>>)
    ensures
        super::after_key(ScreenView::Overview { cursor }, Key::Enter, active).0 == if cursor
            < active.len() {
            ScreenView::Log { target: active[cursor as int], scroll: 0 }
        } else {
            ScreenView::Overview { cursor }
        },
{
}

/// In a log, up goes one line back and down undoes it; `g` goes to the start and `G` to the end.
/// The log stays that of its target.
pub proof fn law_log_is_scrolled(
    target: Seq<char>,
    scroll: usize,
    active: Seq<Seq<char>>,
    up: Key,
    down: Key,
    top: Key,
    bottom: Key,
)
    requires
        up == Key::Up || up == Key::Char('k'),
        down == Key::Down || down == Key::Char('j'),
        top == Key::Home || top == Key::Char('g'),
        bottom == Key::End || bottom == Key::Char('G'),
        scroll < usize::MAX,
    ensures
        ({
            let here = ScreenView::Log { target, scroll };
            let back = super::after_key(here, up, active).0;
            &&& back == (ScreenView::Log { target, scroll: (scroll + 1) as usize })
            &&& super::after_key(back, down, active).0 == here
            &&& scroll == 0 ==> super::after_key(here, down, active).0 == here
            &&& super::after_key(here, top, active).0 == (ScreenView::Log {
                target,
                scroll: usize::MAX,
            })
            &&& super::after_key(here, bottom, active).0 == (ScreenView::Log { target, scroll: 0 })
        }),
{
}

/// At the end of a log its last lines are shown, as many as fit. Going back takes lines off the end,
/// one by one; however far back one goes, the oldest line stays.
pub proof fn law_window_moves_line_by_line(lines: Seq<Seq<char>>, height: nat, scroll: nat)
    requires
        lines.len() > 0,
    ensures
        super::window(lines, height, 0) == lines.skip(
            if lines.len() >= height {
                lines.len() - height
            } else {
                0
            },
        ),
        scroll < lines.len() ==> super::window(lines, height, scroll) == super::window(
            lines.take(lines.len() - scroll),
            height,
            0,
        ),
        scroll >= lines.len() ==> super::window(lines, height, scroll) == super::window(
            lines,
            height,
            (lines.len() - 1) as nat,
        ),
{
    if scroll < lines.len() {
        let short = lines.take(lines.len() - scroll);
        assert(super::window(lines, height, scroll) =~= super::window(short, height, 0));
    }
    assert(super::window(lines, height, 0) =~= lines.skip(
        if lines.len() >= height {
            lines.len() - height
        } else {
            0
        },
    ));
}

/// Of a long log the last bytes are read, as many as are kept and one more; a shorter log is read
/// whole.
pub proof fn law_tail_keeps_the_end(len: u64)
    ensures
        match super::tail_offset(len) {
            None => len <= super::TAIL_BYTES + 1,
            Some(start) => len - start == super::TAIL_BYTES + 1 && start > 0,
        },
{
}

/// The first line is dropped where a log was not read from its start and has others, and only
/// there.
pub proof fn law_only_a_cut_line_is_dropped(content: Seq<char>)
    ensures
        super::kept_lines(content, true) == text::lines(content),
        text::lines(content).len() > 1 ==> super::kept_lines(content, false) == text::lines(
            content,
        ).skip(1),
        text::lines(content).len() <= 1 ==> super::kept_lines(content, false) == text::lines(content),
{
}

/// A node's name is shown without what buildx puts before it, and whole where there is nothing of
/// that.
pub proof fn law_short_names_drop_the_prefix(lead: Seq<char>, rest: Seq<char>)
    requires
        !text::occurs(rest, "buildkit_"@),
    ensures
        super::short_name(lead + "buildkit_"@ + rest) == rest,
        super::short_name(rest) == rest,
{
    reveal_strlit("buildkit_");
    let p = "buildkit_"@;
    let s = lead + p + rest;
    let n = lead.len() as int;
    assert(s.subrange(n, n + 9) =~= p);
    assert(text::occurs_at(s, p, n));
    assert forall|j: int| n < j <= s.len() implies !text::occurs_at(s, p, j) by {
        lemma_no_later_prefix(lead, rest, j);
    }
    text::lemma_last_occurrence(s, p, s.len() as int, n);
    assert(s.skip(n + 9) =~= rest);
    lemma_whole_name(rest);
}

proof fn lemma_whole_name(name: Seq<char>)
    requires
        !text::occurs(name, "buildkit_"@),
    ensures
        super::short_name(name) == name,
{
    assert forall|j: int| -1 < j <= name.len() implies !text::occurs_at(name, "buildkit_"@, j) by {}
    text::lemma_last_occurrence(name, "buildkit_"@, name.len() as int, -1);
}

proof fn lemma_no_later_prefix(lead: Seq<char>, rest: Seq<char>, j: int)
    requires
        !text::occurs(rest, "buildkit_"@),
        lead.len() < j,
    ensures
        !text::occurs_at(lead + "buildkit_"@ + rest, "buildkit_"@, j),
{
    reveal_strlit("buildkit_");
    let p = "buildkit_"@;
    let s = lead + p + rest;
    let n = lead.len() as int;
    if text::occurs_at(s, p, j) {
        let piece = s.subrange(j, j + 9);
        assert(piece[0] == p[0]);
        assert(s[j] == 'b');
        if j < n + 9 {
            assert(s[j] == p[j - n]);
        } else {
            assert(rest.subrange(j - n - 9, j - n) =~= piece);
            assert(text::occurs_at(rest, p, j - n - 9));
        }
    }
}

/// A text that fits is shown as it is; of a longer one its beginning is shown, with dots where there
/// is room for them, and all the room is used.
pub proof fn law_cut_keeps_the_beginning(s: Seq<char>, max_len: nat, i: int)
    ensures
        s.len() <= max_len ==> super::cut(s, max_len) == s,
        s.len() > max_len ==> super::cut(s, max_len).len() == max_len,
        s.len() > max_len && max_len > 3 && 0 <= i < max_len - 3 ==> super::cut(s, max_len)[i]
            == s[i],
        s.len() > max_len && max_len > 3 && max_len - 3 <= i < max_len ==> super::cut(
            s,
            max_len,
        )[i] == '.',
        s.len() > max_len && max_len <= 3 && 0 <= i < max_len ==> super::cut(s, max_len)[i] == s[i],
{
    reveal_strlit("...");
    assert("..."@[0] == '.' && "..."@[1] == '.' && "..."@[2] == '.');
}

/// A bar has ten cells, of which as many are filled as there are full tens in the percentage, from
/// the left.
pub proof fn law_bar_is_filled_from_the_left(percent: nat, i: int)
    requires
        percent <= 100,
        0 <= i < 10,
    ensures
        super::bar(percent).len() == 10,
        super::bar(percent)[i] == if 10 * (i + 1) <= percent {
            '█'
        } else {
            '░'
        },
{
    let filled = percent * 10 / 100;
    assert(filled <= 10);
    assert((10 * (i + 1) <= percent) == (i < filled));
}

/// A target that waits has no row; every other has one that names it and shows its status: with
/// the bar full where it was built, and with the reason where it failed.
pub proof fn law_rows_show_the_status(
    info: InfoView,
    label: Seq<char>,
    selected: bool,
    percent: u32,
    secs: nat,
)
    ensures
        ({
            let row = super::row_of(info, label, selected, percent, secs);
            &&& row is None <==> info.status is Pending
            &&& row matches Some(r) ==> {
                &&& r.tone == match info.status {
                    StatusView::Building => Tone::Building,
                    StatusView::Done(_) => Tone::Done,
                    StatusView::Failed(_) => Tone::Failed,
                    _ => Tone::Skipped,
                }
                &&& text::occurs(r.name, info.name)
                &&& text::occurs(r.node, label)
                &&& r.prefix == if selected {
                    "▶ "@
                } else {
                    "  "@
                }
                &&& info.status is Done ==> r.bar == super::bar(100)
                &&& info.status matches StatusView::Failed(e) ==> r.detail == super::cut(e, 40)
                &&& info.status matches StatusView::Blocked(deps) ==> r.detail == super::cut(
                    "blocked by ["@ + text::join(deps, ", "@) + "]"@,
                    40,
                )
                &&& info.status is Building && (info.progress matches Some(p) && p.total_steps > 0)
                    ==> r.bar == super::bar(
                    if percent > 100 {
                        100
                    } else {
                        percent as nat
                    },
                )
            }
        }),
{
    let padded = super::padded_right(info.name, 20);
    let rest = padded.skip(info.name.len() as int);
    assert(" "@ + padded + " "@ =~= " "@ + info.name + (rest + " "@));
    text::lemma_occurs_between(" "@, info.name, rest + " "@);
    text::lemma_occurs_between("["@, label, "]"@);
    assert(super::repeat('█', 10) =~= super::bar(100));
}

/// What a build does is shown with its stage, where that has a name.
pub proof fn law_progress_names_the_stage(p: ProgressView)
    ensures
        text::occurs(super::progress_text(p), p.step_description),
        p.stage matches Some(s) ==> text::occurs(super::progress_text(p), s),
{
    let d = p.step_description;
    match p.stage {
        Some(s) => {
            text::lemma_occurs_between("["@, s, "] "@ + d);
            assert("["@ + s + ("] "@ + d) =~= "["@ + s + "] "@ + d);
            text::lemma_occurs_between("["@ + s + "] "@, d, Seq::empty());
            assert("["@ + s + "] "@ + d + Seq::<char>::empty() =~= "["@ + s + "] "@ + d);
        },
        None => {
            text::lemma_occurs_between(Seq::empty(), d, Seq::empty());
            assert(Seq::<char>::empty() + d + Seq::<char>::empty() =~= d);
        },
    }
}

/// Of the targets that wait the first five are named, and it is said how many there are and how
/// many are not named.
pub proof fn law_queue_names_the_first(pending: Seq<Seq<char>>, i: int)
    ensures
        text::occurs(super::queue_texts(pending).0, text::decimal(pending.len())),
        0 <= i < pending.len() && i < 5 ==> text::occurs(super::queue_texts(pending).1, pending[i]),
        pending.len() > 5 ==> text::occurs(
            super::queue_texts(pending).1,
            ", +"@ + text::decimal((pending.len() - 5) as nat) + " more"@,
        ),
        pending.len() <= 5 ==> super::queue_texts(pending).1 == " ["@ + text::join(pending, ", "@)
            + "]"@,
{
    let texts = super::queue_texts(pending);
    text::lemma_occurs_between(" ○ "@, text::decimal(pending.len()), " pending"@);
    let shown = if pending.len() > 5 {
        pending.take(5)
    } else {
        pending
    };
    let extra = if pending.len() > 5 {
        ", +"@ + text::decimal((pending.len() - 5) as nat) + " more"@
    } else {
        ""@
    };
    let names = text::join(shown, ", "@);
    assert(texts.1 == " ["@ + names + extra + "]"@);
    if 0 <= i < pending.len() && i < 5 {
        assert(shown[i] == pending[i]);
        text::lemma_join_holds(shown, ", "@, i);
        text::lemma_occurs_later(" ["@, names, pending[i]);
        text::lemma_occurs_earlier(" ["@ + names, extra + "]"@, pending[i]);
        assert(" ["@ + names + (extra + "]"@) =~= texts.1);
    }
    if pending.len() > 5 {
        text::lemma_occurs_between(" ["@ + names, extra, "]"@);
    } else {
        reveal_strlit("");
        assert(" ["@ + names + ""@ =~= " ["@ + names);
    }
}

/// The nodes that build nothing are named, and no others.
pub proof fn law_idle_nodes_build_nothing(v: BoardView, n: Seq<char>, t: Seq<char>)
    ensures
        super::idle_nodes_of(v).contains(n) ==> v.nodes.contains(n),
        super::idle_nodes_of(v).contains(n) && v.targets.contains_key(t) && v.targets[t].node == n
            ==> !(v.targets[t].status is Building),
        v.nodes.contains(n) && (forall|x: Seq<char>| #[trigger]
            v.targets.contains_key(x) && v.targets[x].node == n ==> !(
            v.targets[x].status is Building)) ==> super::idle_nodes_of(v).contains(n),
{
    names::lemma_filter_holds(v.nodes, |x: Seq<char>| super::idle(v, x), n);
}

/// The foot of the overview counts the targets of each kind.
pub proof fn law_footer_counts_all_kinds(v: BoardView)
    ensures
        ({
            let foot = super::footer_text(v);
            &&& text::occurs(foot, text::decimal(v.of_kind(StatusKind::Done).len()) + " done"@)
            &&& text::occurs(
                foot,
                text::decimal(v.of_kind(StatusKind::Building).len()) + " building"@,
            )
            &&& text::occurs(
                foot,
                text::decimal(v.of_kind(StatusKind::Pending).len()) + " pending"@,
            )
            &&& text::occurs(foot, text::decimal(v.of_kind(StatusKind::Failed).len()) + " failed"@)
            &&& text::occurs(
                foot,
                text::decimal(v.of_kind(StatusKind::Skipped).len()) + " skipped"@,
            )
        }),
{
    let a = text::decimal(v.of_kind(StatusKind::Done).len());
    let b = text::decimal(v.of_kind(StatusKind::Building).len());
    let c = text::decimal(v.of_kind(StatusKind::Pending).len());
    let d = text::decimal(v.of_kind(StatusKind::Failed).len());
    let e = text::decimal(v.of_kind(StatusKind::Skipped).len());
    let foot = super::footer_text(v);
    let l0 = " ✓ "@;
    let l1 = " done | ⚙ "@;
    let l2 = " building | ○ "@;
    let l3 = " pending | ✗ "@;
    let l4 = " failed | - "@;
    let l5 = " skipped | j/k:select Enter:logs q:quit"@;
    reveal_strlit(" done | ⚙ ");
    reveal_strlit(" building | ○ ");
    reveal_strlit(" pending | ✗ ");
    reveal_strlit(" failed | - ");
    reveal_strlit(" skipped | j/k:select Enter:logs q:quit");
    reveal_strlit(" done");
    reveal_strlit(" building");
    reveal_strlit(" pending");
    reveal_strlit(" failed");
    reveal_strlit(" skipped");
    let h0 = l0;
    let h1 = h0 + a + l1;
    let h2 = h1 + b + l2;
    let h3 = h2 + c + l3;
    let h4 = h3 + d + l4;
    assert(foot == h4 + e + l5);
    lemma_counted(h0, a, l1, " done"@, b + l2 + c + l3 + d + l4 + e + l5);
    assert(h0 + a + l1 + (b + l2 + c + l3 + d + l4 + e + l5) =~= foot);
    lemma_counted(h1, b, l2, " building"@, c + l3 + d + l4 + e + l5);
    assert(h1 + b + l2 + (c + l3 + d + l4 + e + l5) =~= foot);
    lemma_counted(h2, c, l3, " pending"@, d + l4 + e + l5);
    assert(h2 + c + l3 + (d + l4 + e + l5) =~= foot);
    lemma_counted(h3, d, l4, " failed"@, e + l5);
    assert(h3 + d + l4 + (e + l5) =~= foot);
    lemma_counted(h4, e, l5, " skipped"@, Seq::empty());
    assert(h4 + e + l5 + Seq::<char>::empty() =~= foot);
}

/// A number stands before the word that follows it.
proof fn lemma_counted(
    before: Seq<char>,
    n: Seq<char>,
    label: Seq<char>,
    word: Seq<char>,
    behind: Seq<char>,
)
    requires
        word.len() <= label.len(),
        label.take(word.len() as int) =~= word,
    ensures
        text::occurs(before + n + label + behind, n + word),
{
    let rest = label.skip(word.len() as int) + behind;
    text::lemma_occurs_between(before, n + word, rest);
    assert(before + (n + word) + rest =~= before + n + label + behind);
}

/// The heading counts the nodes and targets, and shows the time.
pub proof fn law_heading_counts(nodes: nat, targets: nat, secs: nat)
    ensures
        text::occurs(super::heading_text(nodes, targets, secs), text::decimal(nodes) + " nodes"@),
        text::occurs(
            super::heading_text(nodes, targets, secs),
            text::decimal(targets) + " targets"@,
        ),
        text::occurs(super::heading_text(nodes, targets, secs), fallback::clock_text(secs)),
{
    reveal_strlit(" nodes, ");
    reveal_strlit(" nodes");
    reveal_strlit(" targets | ");
    reveal_strlit(" targets");
    let a = "docker dbake — "@;
    let n = text::decimal(nodes);
    let t = text::decimal(targets);
    let c = fallback::clock_text(secs);
    let all = super::heading_text(nodes, targets, secs);
    let behind = seq![',', ' '] + t + " targets | "@ + c;
    text::lemma_occurs_between(a, n + " nodes"@, behind);
    assert(a + (n + " nodes"@) + behind =~= all);
    let before = a + n + " nodes, "@;
    let last = seq![' ', '|', ' '] + c;
    text::lemma_occurs_between(before, t + " targets"@, last);
    assert(before + (t + " targets"@) + last =~= all);
    text::lemma_occurs_between(before + t + " targets | "@, c, Seq::empty());
    assert(before + t + " targets | "@ + c + Seq::<char>::empty() =~= all);
}

/// What is said of a target above its log tells its status, and what there is to say of it.
pub proof fn law_log_status_tells_the_reason(info: InfoView, secs: nat, i: int)
    ensures
        info.status matches StatusView::Failed(e) ==> super::status_text(Some(info), secs)
            == "FAILED: "@ + e,
        info.status matches StatusView::Blocked(deps) ==> (0 <= i < deps.len() ==> text::occurs(
            super::status_text(Some(info), secs),
            deps[i],
        )),
        info.status matches StatusView::Done(took) ==> text::occurs(
            super::status_text(Some(info), secs),
            text::decimal(took as nat),
        ),
        info.status is Building ==> text::occurs(
            super::status_text(Some(info), secs),
            text::decimal(secs),
        ),
{
    match info.status {
        StatusView::Blocked(deps) => {
            if 0 <= i < deps.len() {
                let names = text::join(deps, ", "@);
                text::lemma_join_holds(deps, ", "@, i);
                text::lemma_occurs_later("blocked by ["@, names, deps[i]);
                text::lemma_occurs_earlier("blocked by ["@ + names, "]"@, deps[i]);
            }
        },
        StatusView::Done(took) => {
            text::lemma_occurs_between("done ("@, text::decimal(took as nat), "s)"@);
        },
        StatusView::Building => {
            text::lemma_occurs_between("building ("@, text::decimal(secs), "s)"@);
        },
        _ => {},
    }
}

/// A key without a meaning does nothing.
pub proof fn law_other_keys_do_nothing(screen: ScreenView, key: Key, active: Seq<Seq<char>>)
    requires
        key is Other || (key matches Key::Char(c) && c != 'q' && c != 'j' && c != 'k' && c != 'g' && c
            != 'G'),
    ensures
        super::after_key(screen, key, active) == (screen, false),
{
}

/// Every row stands under its node's short name, or under `skipped` where its node is not known.
pub proof fn law_rows_stand_under_their_node(v: BoardView, i: int)
    requires
        v.targets.dom().finite(),
        0 <= i < super::overview_rows(v).len(),
    ensures
        ({
            let row = super::overview_rows(v)[i];
            &&& v.targets.contains_key(row.1)
            &&& row.0 == super::short_name(v.targets[row.1].node) || (row.0 == "skipped"@
                && !v.nodes.contains(v.targets[row.1].node))
        }),
{
    let first = super::node_rows(v, v.nodes);
    let rest = v.group(GroupView::Unassigned);
    if i < first.len() {
        lemma_node_rows(v, v.nodes, i);
    } else {
        let t = rest[i - first.len()];
        assert(super::overview_rows(v)[i] == ("skipped"@, t));
        assert(rest.contains(t));
        tui::laws::law_groups_are_told_by_node(v, Seq::empty(), t);
    }
}

proof fn lemma_node_rows(v: BoardView, nodes: Seq<Seq<char>>, i: int)
    requires
        v.targets.dom().finite(),
        0 <= i < super::node_rows(v, nodes).len(),
    ensures
        ({
            let row = super::node_rows(v, nodes)[i];
            v.targets.contains_key(row.1) && row.0 == super::short_name(v.targets[row.1].node)
        }),
    decreases nodes.len(),
{
    let short = super::node_rows(v, nodes.drop_last());
    if i < short.len() {
        lemma_node_rows(v, nodes.drop_last(), i);
    } else {
        let n = nodes.last();
        let group = v.group(GroupView::ActiveOn(n));
        let t = group[i - short.len()];
        assert(super::node_rows(v, nodes)[i] == (super::short_name(n), t));
        assert(group.contains(t));
        tui::laws::law_groups_are_told_by_node(v, n, t);
    }
}

/// A build that is counted shows its percentage, at most a hundred; one that is not shows how long
/// it has taken.
pub proof fn law_builds_show_how_far_they_are(
    progress: Option<ProgressView>,
    percent: u32,
    secs: nat,
)
    ensures
        ({
            let cells = super::building_cells(progress, percent, secs);
            let shown = if percent > 100 {
                100nat
            } else {
                percent as nat
            };
            if progress matches Some(p) && p.total_steps > 0 {
                &&& cells.0 == super::bar(shown)
                &&& text::occurs(cells.1, text::decimal(shown) + "%"@)
                &&& cells.2 == super::cut(super::progress_text(progress->0), 40)
            } else {
                &&& cells.0 == super::bar(0)
                &&& text::occurs(cells.2, text::decimal(secs))
            }
        }),
{
    let shown = if percent > 100 {
        100nat
    } else {
        percent as nat
    };
    if progress matches Some(p) && p.total_steps > 0 {
        let d = text::decimal(shown);
        let padded = super::padded_left(d, 3);
        let gap = padded.take(padded.len() - d.len());
        assert(padded =~= gap + d);
        text::lemma_occurs_between(" "@ + gap, d + "%"@, " "@);
        assert(" "@ + gap + (d + "%"@) + " "@ =~= " "@ + (padded + "%"@) + " "@);
    } else {
        assert(super::bar(0) =~= super::repeat('░', 10));
        text::lemma_occurs_between("starting... "@, text::decimal(secs), "s"@);
    }
}

/// Below a log it is said how far from its end one is, or that it is its end.
pub proof fn law_log_footer_tells_the_place(scroll: nat)
    ensures
        scroll > 0 ==> text::occurs(
            super::log_footer_text(scroll),
            " +"@ + text::decimal(scroll) + " from bottom"@,
        ),
        scroll == 0 ==> text::occurs(super::log_footer_text(scroll), " tail"@),
{
    let a = " Esc:back | j/k:scroll | g:top G:bottom |"@;
    reveal_strlit(" from bottom |");
    reveal_strlit(" from bottom");
    reveal_strlit(" tail |");
    reveal_strlit(" tail");
    let end = seq![' ', '|'];
    if scroll > 0 {
        let piece = " +"@ + text::decimal(scroll) + " from bottom"@;
        text::lemma_occurs_between(a, piece, end);
        assert(a + piece + end =~= super::log_footer_text(scroll));
    } else {
        text::lemma_occurs_between(a, " tail"@, end);
        assert(a + " tail"@ + end =~= super::log_footer_text(scroll));
    }
}

/// A text is padded with blanks up to a width, on one side, and never cut.
pub proof fn law_padding_only_adds_blanks(s: Seq<char>, width: nat, i: int)
    ensures
        ({
            let right = super::padded_right(s, width);
            let left = super::padded_left(s, width);
            let len = if s.len() >= width {
                s.len()
            } else {
                width
            };
            &&& right.len() == len && left.len() == len
            &&& 0 <= i < s.len() ==> right[i] == s[i] && left[len - s.len() + i] == s[i]
            &&& s.len() <= i < len ==> right[i] == ' '
            &&& 0 <= i < len - s.len() ==> left[i] == ' '
        }),
{
}

/// The screen is left when the run is cancelled, complete or not, and when it is complete; until
/// then it goes on.
pub proof fn law_screen_ends_with_the_run(cancelled: bool, complete: bool, r: DrawStep)
    requires
        call_ensures(super::draw_step, (cancelled, complete), r),
    ensures
        r is Stop <==> cancelled,
        r is Finish <==> complete && !cancelled,
        r is GoOn <==> !complete && !cancelled,
{
}

/// The screen is drawn anew after each change, and at least once a second.
pub proof fn law_changes_are_drawn(version: u64, drawn: u64, millis: u64, r: bool)
    requires
        call_ensures(super::needs_redraw, (version, drawn, millis), r),
    ensures
        version != drawn ==> r,
        millis >= 1000 ==> r,
        version == drawn && millis < 1000 ==> !r,
{
}

/// A log has the height of the screen but for the lines round it.
pub proof fn law_log_fits_the_screen(height: u16, r: usize)
    requires
        call_ensures(super::log_height, (height,), r),
    ensures
        r <= height,
        height >= 6 ==> r + 6 == height,
        height < 6 ==> r == 0,
{
}

/// The target under the cursor is the one that is selected; where there is none, none is.
pub proof fn law_cursor_selects(active: &Vec<&str>, cursor: usize, target: &str, r: bool)
    requires
        call_ensures(super::is_selected, (active, cursor, target), r),
    ensures
        cursor >= active@.len() ==> !r,
        cursor < active@.len() ==> (r <==> active@[cursor as int]@ == target@),
{
}

}

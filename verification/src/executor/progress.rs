//! How far a build has come, by the lines that it prints.
use crate::text;
use crate::text::{
    begins_with, chars_of, cut_at, cut_at_last, find_char, read_u32, spells, string_of, strip_lead,
    trimmed,
};
use crate::tui::state::{BuildProgress, ProgressView};
use vstd::prelude::*;
use vstd::slice::*;

pub mod laws;

verus! {

/// Follows the lines of `docker buildx bake --progress plain`, such as
///
/// ```text
/// #2 [internal] load metadata for docker.io/library/node:18
/// #2 DONE 0.5s
/// #3 [1/5] FROM docker.io/library/node:18@sha256:abc
/// #5 [builder 3/5] COPY package*.json ./
/// #5 CACHED
/// #6 ...
/// ```
///
/// The counters `[M/N]` tell how far the build has come.
pub struct ProgressParser {
    /// The step last seen.
    current_user_step: u32,
    /// The greatest number of steps seen.
    total_user_steps: u32,
    /// What the step last seen does.
    current_description: String,
    /// The stage last seen, where it had a name.
    current_stage: Option<String>,
}

impl View for ProgressParser {
    type V = ProgressView;

    closed spec fn view(&self) -> ProgressView {
        ProgressView {
            current_step: self.current_user_step,
            total_steps: self.total_user_steps,
            step_description: self.current_description@,
            stage: match self.current_stage {
                Some(s) => Some(s@),
                None => None,
            },
        }
    }
}

/// Nothing seen yet.
pub open spec fn no_progress() -> ProgressView {
    ProgressView { current_step: 0, total_steps: 0, step_description: Seq::empty(), stage: None }
}

/// What a line says, if it is about a numbered step: what stands behind the number.
pub open spec fn step_text(line: Seq<char>) -> Option<Seq<char>> {
    match text::after_prefix(text::trim(line), "#"@) {
        Some(rest) => match text::split_once(rest, ' ') {
            Some((number, description)) => if text::parse_u32(number) is Some {
                Some(description)
            } else {
                None
            },
            None => None,
        },
        None => None,
    }
}

/// Whether a step has ended.
pub open spec fn step_ended(description: Seq<char>) -> bool {
    description == "DONE"@ || "DONE "@.is_prefix_of(description) || description == "CACHED"@
}

/// What stands in the first brackets of a text, and behind them.
pub open spec fn bracketed(s: Seq<char>) -> Option<(Seq<char>, Seq<char>)> {
    let open: int = text::first_index(s, '[') as int;
    if open >= s.len() {
        None
    } else {
        let rest = s.skip(open);
        let close: int = text::first_index(rest, ']') as int;
        if close >= rest.len() {
            None
        } else {
            Some((rest.subrange(1, close), rest.skip(close + 1)))
        }
    }
}

/// The stage and the counter in brackets: the counter is what stands behind the last space.
pub open spec fn stage_and_counter(inner: Seq<char>) -> (Option<Seq<char>>, Seq<char>) {
    match text::rsplit_once(inner, ' ') {
        Some((stage, counter)) => (
            if text::trim(stage).len() > 0 {
                Some(text::trim(stage))
            } else {
                None
            },
            counter,
        ),
        None => (None, inner),
    }
}

/// The step and the number of steps of a counter such as `3/5`.
pub open spec fn counter_value(counter: Seq<char>) -> Option<(u32, u32)> {
    match text::split_once(counter, '/') {
        Some((m, n)) => match (text::parse_u32(text::trim(m)), text::parse_u32(text::trim(n))) {
            (Some(step), Some(total)) => Some((step, total)),
            _ => None,
        },
        None => None,
    }
}

/// What is known after a line that counts a step, if it counts one.
pub open spec fn counted(p: ProgressView, description: Seq<char>) -> Option<ProgressView> {
    match bracketed(description) {
        Some((inner, behind)) => {
            let sc = stage_and_counter(inner);
            match counter_value(sc.1) {
                Some((step, total)) => Some(
                    ProgressView {
                        current_step: step,
                        total_steps: if total > p.total_steps {
                            total
                        } else {
                            p.total_steps
                        },
                        step_description: if text::trim(behind).len() == 0 {
                            description
                        } else {
                            text::trim(behind)
                        },
                        stage: sc.0,
                    },
                ),
                None => None,
            }
        },
        None => None,
    }
}

/// What is known after a line, and whether that is to be shown.
pub open spec fn after_line(p: ProgressView, line: Seq<char>) -> (ProgressView, bool) {
    match step_text(line) {
        None => (p, false),
        Some(d) => if step_ended(d) {
            (p, true)
        } else if d == "..."@ {
            (p, false)
        } else {
            match counted(p, d) {
                Some(next) => (next, true),
                None => (ProgressView { step_description: d, ..p }, false),
            }
        },
    }
}

fn brackets(s: &[char]) -> (r: Option<(&[char], &[char])>)
    ensures
        match r {
            Some((inner, behind)) => bracketed(s@) == Some((inner@, behind@)),
            None => bracketed(s@) is None,
        },
{
    let open: usize = find_char(s, '[');
    if open >= s.len() {
        return None;
    }
    let rest = slice_subrange(s, open, s.len());
    assert(rest@ =~= s@.skip(open as int));
    let close: usize = find_char(rest, ']');
    if close >= rest.len() {
        return None;
    }
    assert(rest@[0] == '[');
    let inner = slice_subrange(rest, 1, close);
    let behind = slice_subrange(rest, close + 1, rest.len());
    assert(behind@ =~= rest@.skip(close + 1));
    Some((inner, behind))
}

fn split_counter(inner: &[char]) -> (r: (Option<String>, &[char]))
    ensures
        match r.0 {
            Some(s) => stage_and_counter(inner@).0 == Some(s@),
            None => stage_and_counter(inner@).0 is None,
        },
        r.1@ == stage_and_counter(inner@).1,
{
    match cut_at_last(inner, ' ') {
        Some((stage, counter)) => {
            let name = trimmed(stage);
            if name.len() > 0 {
                (Some(string_of(name)), counter)
            } else {
                (None, counter)
            }
        },
        None => (None, inner),
    }
}

fn read_counter(counter: &[char]) -> (r: Option<(u32, u32)>)
    ensures
        r == counter_value(counter@),
{
    match cut_at(counter, '/') {
        Some((m, n)) => match (read_u32(trimmed(m)), read_u32(trimmed(n))) {
            (Some(step), Some(total)) => Some((step, total)),
            _ => None,
        },
        None => None,
    }
}

fn read_step(line: &[char]) -> (r: Option<&[char]>)
    ensures
        match r {
            Some(d) => step_text(line@) == Some(d@),
            None => step_text(line@) is None,
        },
{
    match strip_lead(trimmed(line), "#") {
        Some(rest) => match cut_at(rest, ' ') {
            Some((number, description)) => match read_u32(number) {
                Some(_) => Some(description),
                None => None,
            },
            None => None,
        },
        None => None,
    }
}

impl ProgressParser {
    /// Nothing seen yet.
    pub fn new() -> (r: ProgressParser)
        ensures
            r@ == no_progress(),
    {
        ProgressParser {
            current_user_step: 0,
            total_user_steps: 0,
            current_description: String::new(),
            current_stage: None,
        }
    }

    fn snapshot(&self) -> (r: BuildProgress)
        ensures
            r@ == self@,
    {
        let stage = match &self.current_stage {
            Some(s) => Some(s.clone()),
            None => None,
        };
        BuildProgress {
            current_step: self.current_user_step,
            total_steps: self.total_user_steps,
            step_description: self.current_description.clone(),
            stage,
        }
    }

    /// Takes a line, and says how far the build has come where the line tells.
    pub fn parse_line(&mut self, line: &str) -> (r: Option<BuildProgress>)
        ensures
            final(self)@ == after_line(old(self)@, line@).0,
            r is Some == after_line(old(self)@, line@).1,
            r matches Some(p) ==> p@ == final(self)@,
    {
        let ghost before = self@;
        let chars = chars_of(line);
        let description: &[char] = match read_step(chars.as_slice()) {
            Some(d) => d,
            None => {
                return None;
            },
        };
        if spells(description, "DONE") || begins_with(description, "DONE ") || spells(
            description,
            "CACHED",
        ) {
            return Some(self.snapshot());
        }
        if spells(description, "...") {
            return None;
        }
        if let Some((inner, behind)) = brackets(description) {
            let (stage, counter) = split_counter(inner);
            if let Some((step, total)) = read_counter(counter) {
                self.current_stage = stage;
                if total > self.total_user_steps {
                    self.total_user_steps = total;
                }
                self.current_user_step = step;
                let command = trimmed(behind);
                self.current_description = if command.len() == 0 {
                    string_of(description)
                } else {
                    string_of(command)
                };
                assert(counted(before, description@) == Some(self@));
                return Some(self.snapshot());
            }
        }
        self.current_description = string_of(description);
        None
    }
}

/// The number of steps never goes down.
pub proof fn law_total_never_falls(p: ProgressView, line: Seq<char>)
    ensures
        after_line(p, line).0.total_steps >= p.total_steps,
{
}

/// A line that is not about a numbered step changes nothing and shows nothing.
pub proof fn law_other_lines_are_ignored(p: ProgressView, line: Seq<char>)
    requires
        step_text(line) is None,
    ensures
        after_line(p, line) == (p, false),
{
}

}

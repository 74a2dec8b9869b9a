//! Which targets to build.
use crate::closure;
use crate::closure::follow;
use crate::json;
use crate::json::is_json_bake_file;
use crate::names;
use crate::names::{NameMap, NameSet};
use crate::order;
use crate::path;
use crate::path::extension_of;
use crate::text;
use crate::text::{
    add_text, begins_with, chars_of, copy_texts, holds_char, joined, lines_of, same_text,
    trimmed_start,
};
use crate::typo;
use crate::typo::suggestion;
use vstd::prelude::*;
use vstd::string::*;

pub mod laws;

verus! {

/// What decides which targets to build: the profiles, the targets asked for, whether to add
/// what they depend on, and what to leave out.
pub struct SelectionInput<'a> {
    /// Every target of the bake file, sorted.
    pub all_targets: &'a [String],
    /// What each target depends on; this may name targets that are not in the bake file.
    pub deps: &'a NameMap<Vec<String>>,
    /// The profiles that each service declares. `None` for bake files without profiles.
    pub profiles: Option<&'a NameMap<Vec<String>>>,
    /// The profiles asked for. A service is active when it declares one of them, or none at
    /// all.
    pub profiles_wanted: &'a [String],
    /// The targets asked for; all of them where none is named.
    pub requested: &'a [String],
    /// The targets to leave out.
    pub exclude: &'a [String],
    /// Whether to add what the targets depend on.
    pub with_deps: bool,
    /// Whether `deps` gives the order of builds, not of starts at run time. Only then does it
    /// matter that a target's dependency is left out.
    pub deps_are_build_deps: bool,
}

/// What a selection goes by.
pub struct SelectionView {
    pub all: Seq<Seq<char>>,
    pub deps: Map<Seq<char>, Seq<Seq<char>>>,
    pub profiles: Map<Seq<char>, Seq<Seq<char>>>,
    pub wanted: Seq<Seq<char>>,
    pub requested: Seq<Seq<char>>,
    pub exclude: Seq<Seq<char>>,
    pub with_deps: bool,
    pub build_deps: bool,
}

impl<'a> View for SelectionInput<'a> {
    type V = SelectionView;

    open spec fn view(&self) -> SelectionView {
        SelectionView {
            all: text::texts(self.all_targets@),
            deps: names::lists_of(self.deps@),
            profiles: match self.profiles {
                Some(p) => names::lists_of(p@),
                None => Map::empty(),
            },
            wanted: text::texts(self.profiles_wanted@),
            requested: text::texts(self.requested@),
            exclude: text::texts(self.exclude@),
            with_deps: self.with_deps,
            build_deps: self.deps_are_build_deps,
        }
    }
}

impl<'a> SelectionInput<'a> {
    /// The maps are well formed.
    pub open spec fn wf(&self) -> bool {
        self.deps.wf() && (self.profiles matches Some(p) ==> p.wf())
    }
}

/// The targets to build, and the warnings to print.
#[derive(Debug, Clone, PartialEq, Eq)]
pub struct SelectionOutcome {
    pub targets: Vec<String>,
    pub warnings: Vec<String>,
}

impl Default for SelectionOutcome {
    fn default() -> (r: SelectionOutcome)
        ensures
            r.targets@ == Seq::<String>::empty(),
            r.warnings@ == Seq::<String>::empty(),
    {
        SelectionOutcome { targets: Vec::new(), warnings: Vec::new() }
    }
}

/// Why no targets were selected.
#[derive(Debug, Clone, PartialEq, Eq)]
pub enum SelectionError {
    /// No service declares a profile that was asked for.
    UnknownProfile { profile: String, available: Vec<String> },
    /// A target that was asked for is not in the bake file.
    UnknownTarget { target: String, available: Vec<String>, meant: Option<String> },
    /// Targets that were asked for belong to none of the profiles that were asked for.
    GatedOut { targets: Vec<String>, profiles: Vec<String> },
    /// Nothing is left to build.
    Empty,
}

/// What an error says.
pub enum SelectionErrorView {
    UnknownProfile { profile: Seq<char>, available: Seq<Seq<char>> },
    UnknownTarget { target: Seq<char>, available: Seq<Seq<char>>, meant: Option<Seq<char>> },
    GatedOut { targets: Seq<Seq<char>>, profiles: Seq<Seq<char>> },
    Empty,
}

impl View for SelectionError {
    type V = SelectionErrorView;

    open spec fn view(&self) -> SelectionErrorView {
        match self {
            SelectionError::UnknownProfile { profile, available } => {
                SelectionErrorView::UnknownProfile {
                    profile: profile@,
                    available: text::texts(available@),
                }
            },
            SelectionError::UnknownTarget { target, available, meant } => {
                SelectionErrorView::UnknownTarget {
                    target: target@,
                    available: text::texts(available@),
                    meant: match meant {
                        Some(m) => Some(m@),
                        None => None,
                    },
                }
            },
            SelectionError::GatedOut { targets, profiles } => SelectionErrorView::GatedOut {
                targets: text::texts(targets@),
                profiles: text::texts(profiles@),
            },
            SelectionError::Empty => SelectionErrorView::Empty,
        }
    }
}

/// The text of an error.
pub open spec fn error_text(e: SelectionErrorView) -> Seq<char> {
    match e {
        SelectionErrorView::UnknownProfile { profile, available } => {
            "no service declares profile '"@ + profile + "'"@ + if available.len() == 0 {
                ""@
            } else {
                "\n  available profiles: "@ + text::join(available, ", "@)
            }
        },
        SelectionErrorView::UnknownTarget { target, available, meant } => {
            "unknown target '"@ + target + "'\n  available: "@ + text::join(available, ", "@)
                + match meant {
                Some(m) => "\n  did you mean '"@ + m + "'?"@,
                None => ""@,
            }
        },
        SelectionErrorView::GatedOut { targets, profiles } => {
            "target(s) "@ + text::join(targets, ", "@) + " are not in profile(s) "@ + text::join(
                profiles,
                ", "@,
            )
        },
        SelectionErrorView::Empty => "no targets to build after filtering"@,
    }
}

impl SelectionError {
    /// The text of the error.
    pub fn message(&self) -> (r: String)
        ensures
            r@ == error_text(self@),
    {
        match self {
            SelectionError::UnknownProfile { profile, available } => {
                let mut r: String = "no service declares profile '".to_string();
                r.append(profile.as_str());
                r.append("'");
                if available.len() == 0 {
                    r.append("");
                } else {
                    let list = joined(available.as_slice(), ", ");
                    r.append("\n  available profiles: ".to_string().concat(list.as_str()).as_str());
                }
                r
            },
            SelectionError::UnknownTarget { target, available, meant } => {
                let list = joined(available.as_slice(), ", ");
                let mut r: String = "unknown target '".to_string();
                r.append(target.as_str());
                r.append("'\n  available: ");
                r.append(list.as_str());
                match meant {
                    Some(m) => {
                        let hint = "\n  did you mean '".to_string().concat(m.as_str()).concat("'?");
                        r.append(hint.as_str());
                    },
                    None => {
                        r.append("");
                    },
                }
                r
            },
            SelectionError::GatedOut { targets, profiles } => {
                let mut r: String = "target(s) ".to_string();
                r.append(joined(targets.as_slice(), ", ").as_str());
                r.append(" are not in profile(s) ");
                r.append(joined(profiles.as_slice(), ", ").as_str());
                r
            },
            SelectionError::Empty => "no targets to build after filtering".to_string(),
        }
    }
}

/// The profiles that services declare.
pub open spec fn declared(profiles: Map<Seq<char>, Seq<Seq<char>>>) -> Set<Seq<char>> {
    Set::new(
        |p: Seq<char>|
            exists|k: Seq<char>| profiles.contains_key(k) && #[trigger] profiles[k].contains(p),
    )
}

/// Whether `t` is active under the profiles asked for: it declares one of them, or none at all.
pub open spec fn active(v: SelectionView, t: Seq<char>) -> bool {
    let own = names::list_for(v.profiles, t);
    own.len() == 0 || exists|i: int| 0 <= i < own.len() && v.wanted.contains(#[trigger] own[i])
}

/// Those names of a list that are in a set.
pub open spec fn those_in(list: Seq<Seq<char>>, set: Set<Seq<char>>) -> Seq<Seq<char>> {
    list.filter(|t: Seq<char>| set.contains(t))
}

/// Those names of a list that are not in a set.
pub open spec fn those_not_in(list: Seq<Seq<char>>, set: Set<Seq<char>>) -> Seq<Seq<char>> {
    list.filter(|t: Seq<char>| !set.contains(t))
}

/// The targets that the profiles leave.
pub open spec fn after_profiles(v: SelectionView) -> Seq<Seq<char>> {
    if v.wanted.len() == 0 {
        v.all
    } else {
        v.all.filter(|t: Seq<char>| active(v, t))
    }
}

/// The targets that were asked for, of those that the profiles leave.
pub open spec fn after_request(v: SelectionView) -> Seq<Seq<char>> {
    if v.requested.len() == 0 {
        after_profiles(v)
    } else {
        those_in(after_profiles(v), v.requested.to_set())
    }
}

/// The targets with what they depend on, where that was asked for.
pub open spec fn after_deps(v: SelectionView) -> Seq<Seq<char>> {
    if v.with_deps {
        order::in_order(closure::reach(v.deps, v.all.to_set(), after_request(v)))
    } else {
        after_request(v)
    }
}

/// The targets that are left in the end.
pub open spec fn after_exclude(v: SelectionView) -> Seq<Seq<char>> {
    those_not_in(after_deps(v), v.exclude.to_set())
}

/// The warnings for what is to be left out but is no target.
pub open spec fn unmatched_warnings(
    exclude: Seq<Seq<char>>,
    known: Set<Seq<char>>,
) -> Seq<Seq<char>>
    decreases exclude.len(),
{
    if exclude.len() == 0 {
        Seq::empty()
    } else {
        let before = unmatched_warnings(exclude.drop_last(), known);
        if known.contains(exclude.last()) {
            before
        } else {
            before.push("--exclude '"@ + exclude.last() + "' matches no target"@)
        }
    }
}

/// The warnings for what `t` depends on and is left out.
pub open spec fn stale_warnings(
    t: Seq<char>,
    deps: Seq<Seq<char>>,
    excluded: Set<Seq<char>>,
) -> Seq<Seq<char>>
    decreases deps.len(),
{
    if deps.len() == 0 {
        Seq::empty()
    } else {
        let before = stale_warnings(t, deps.drop_last(), excluded);
        let d = deps.last();
        if excluded.contains(d) {
            before.push(
                "'"@ + t + "' depends on excluded target '"@ + d
                    + "' — it will build against whatever '"@ + d
                    + "' image already exists on the node"@,
            )
        } else {
            before
        }
    }
}

/// The warnings for what kept targets depend on and is left out.
pub open spec fn all_stale_warnings(
    targets: Seq<Seq<char>>,
    deps: Map<Seq<char>, Seq<Seq<char>>>,
    excluded: Set<Seq<char>>,
) -> Seq<Seq<char>>
    decreases targets.len(),
{
    if targets.len() == 0 {
        Seq::empty()
    } else {
        all_stale_warnings(targets.drop_last(), deps, excluded) + stale_warnings(
            targets.last(),
            names::list_for(deps, targets.last()),
            excluded,
        )
    }
}

/// The warnings of a selection.
pub open spec fn warnings(v: SelectionView) -> Seq<Seq<char>> {
    unmatched_warnings(v.exclude, v.all.to_set()) + if v.build_deps {
        all_stale_warnings(after_exclude(v), v.deps, v.exclude.to_set())
    } else {
        Seq::empty()
    }
}

/// The place of the first profile asked for that no service declares; the number of profiles
/// asked for where there is none.
pub open spec fn first_not_in(list: Seq<Seq<char>>, set: Set<Seq<char>>) -> nat
    decreases list.len(),
{
    if list.len() == 0 || !set.contains(list[0]) {
        0
    } else {
        1 + first_not_in(list.skip(1), set)
    }
}

/// What a selection comes to: the targets and the warnings, or an error.
pub open spec fn selection(v: SelectionView) -> Result<
    (Seq<Seq<char>>, Seq<Seq<char>>),
    SelectionErrorView,
> {
    let undeclared = first_not_in(v.wanted, declared(v.profiles)) as int;
    let unknown = first_not_in(v.requested, v.all.to_set()) as int;
    let gated = those_not_in(v.requested, after_profiles(v).to_set());
    if undeclared < v.wanted.len() {
        Err(
            SelectionErrorView::UnknownProfile {
                profile: v.wanted[undeclared],
                available: order::in_order(declared(v.profiles)),
            },
        )
    } else if unknown < v.requested.len() {
        Err(
            SelectionErrorView::UnknownTarget {
                target: v.requested[unknown],
                available: v.all,
                meant: typo::suggested(v.requested[unknown], v.all),
            },
        )
    } else if gated.len() > 0 {
        Err(SelectionErrorView::GatedOut { targets: gated, profiles: v.wanted })
    } else if after_exclude(v).len() == 0 {
        Err(SelectionErrorView::Empty)
    } else {
        Ok((after_exclude(v), warnings(v)))
    }
}

proof fn lemma_first_not_in(list: Seq<Seq<char>>, set: Set<Seq<char>>, at: int)
    requires
        0 <= at <= list.len(),
        forall|j: int| 0 <= j < at ==> set.contains(#[trigger] list[j]),
        at < list.len() ==> !set.contains(list[at]),
    ensures
        first_not_in(list, set) == at,
    decreases list.len(),
{
    if at > 0 {
        assert(set.contains(list[0]));
        assert forall|j: int| 0 <= j < at - 1 implies set.contains(#[trigger] list.skip(1)[j]) by {
            assert(list.skip(1)[j] == list[j + 1]);
        }
        lemma_first_not_in(list.skip(1), set, at - 1);
    }
}

/// The place of the first name of a list that is not in a set; the length where there is none.
fn find_not_in(list: &[String], set: &NameSet) -> (r: usize)
    requires
        set.wf(),
    ensures
        r == first_not_in(text::texts(list@), set@),
        r <= list@.len(),
{
    let ghost all = text::texts(list@);
    let mut i: usize = 0;
    while i < list.len()
        invariant
            set.wf(),
            i <= list@.len(),
            all == text::texts(list@),
            forall|j: int| 0 <= j < i ==> set@.contains(#[trigger] all[j]),
        decreases list@.len() - i,
    {
        assert(all[i as int] == list@[i as int]@);
        if !set.contains(list[i].as_str()) {
            proof {
                lemma_first_not_in(all, set@, i as int);
            }
            return i;
        }
        i += 1;
    }
    proof {
        lemma_first_not_in(all, set@, i as int);
    }
    i
}

/// Those names of a list that are in a set, or those that are not.
fn sift(list: &[String], set: &NameSet, inside: bool) -> (r: Vec<String>)
    requires
        set.wf(),
    ensures
        inside ==> text::texts(r@) == those_in(text::texts(list@), set@),
        !inside ==> text::texts(r@) == those_not_in(text::texts(list@), set@),
{
    let ghost all = text::texts(list@);
    let mut r: Vec<String> = Vec::new();
    let mut i: usize = 0;
    proof {
        reveal(Seq::filter);
        assert(text::texts(r@) =~= those_in(all.take(0), set@));
        assert(text::texts(r@) =~= those_not_in(all.take(0), set@));
    }
    while i < list.len()
        invariant
            set.wf(),
            i <= list@.len(),
            all == text::texts(list@),
            inside ==> text::texts(r@) == those_in(all.take(i as int), set@),
            !inside ==> text::texts(r@) == those_not_in(all.take(i as int), set@),
        decreases list@.len() - i,
    {
        proof {
            reveal(Seq::filter);
            assert(all.take(i + 1).drop_last() =~= all.take(i as int));
            assert(all.take(i + 1).last() == list@[i as int]@);
        }
        if set.contains(list[i].as_str()) == inside {
            add_text(&mut r, list[i].clone());
        }
        i += 1;
    }
    assert(all.take(i as int) =~= all);
    r
}

/// The profiles that services declare.
fn declared_profiles(profiles: &NameMap<Vec<String>>) -> (r: NameSet)
    requires
        profiles.wf(),
    ensures
        r.wf(),
        r@ == declared(names::lists_of(profiles@)),
{
    let ghost lists = names::lists_of(profiles@);
    let ghost keys = profiles.key_list();
    let mut r = NameSet::new();
    let mut i: usize = 0;
    while i < profiles.len()
        invariant
            profiles.wf(),
            r.wf(),
            i <= keys.len(),
            keys == profiles.key_list(),
            lists == names::lists_of(profiles@),
            forall|p: Seq<char>| #[trigger]
                r@.contains(p) <==> exists|k: int| 0 <= k < i && (#[trigger] lists[keys[k]]).contains(p),
        decreases keys.len() - i,
    {
        let list = profiles.value_at(i);
        let ghost own = text::texts(list@);
        let ghost before = r@;
        assert(lists[keys[i as int]] == own);
        let mut j: usize = 0;
        while j < list.len()
            invariant
                r.wf(),
                j <= list@.len(),
                own == text::texts(list@),
                forall|p: Seq<char>| #[trigger]
                    r@.contains(p) <==> before.contains(p) || own.take(j as int).contains(p),
            decreases list@.len() - j,
        {
            proof {
                names::lemma_take_contains(own, j as int);
                assert(own[j as int] == list@[j as int]@);
            }
            let _ = r.insert(list[j].clone());
            j += 1;
        }
        proof {
            assert(own.take(j as int) =~= own);
            assert forall|p: Seq<char>| #[trigger]
                r@.contains(p) <==> exists|k: int|
                    0 <= k < i + 1 && (#[trigger] lists[keys[k]]).contains(p) by {
                if before.contains(p) {
                    let k: int = choose|k: int| 0 <= k < i && (#[trigger] lists[keys[k]]).contains(p);
                    assert(lists[keys[k]].contains(p));
                }
                if own.contains(p) {
                    assert(lists[keys[i as int]].contains(p));
                }
            }
        }
        i += 1;
    }
    proof {
        profiles.lemma_keys();
        assert forall|p: Seq<char>| r@.contains(p) <==> declared(lists).contains(p) by {
            if r@.contains(p) {
                let k: int = choose|k: int| 0 <= k < i && (#[trigger] lists[keys[k]]).contains(p);
                assert(keys.contains(keys[k]));
                assert(lists.contains_key(keys[k]));
            }
            if declared(lists).contains(p) {
                let key = choose|key: Seq<char>|
                    lists.contains_key(key) && #[trigger] lists[key].contains(p);
                assert(profiles@.contains_key(key));
                assert(keys.contains(key));
                let k: int = choose|k: int| 0 <= k < keys.len() && keys[k] == key;
                assert(lists[keys[k]].contains(p));
            }
        }
        assert(r@ =~= declared(lists));
    }
    r
}

/// Whether a target is active under the profiles asked for.
fn is_active(profiles: &NameMap<Vec<String>>, wanted: &NameSet, t: &str, Ghost(v): Ghost<SelectionView>) -> (r:
    bool)
    requires
        profiles.wf(),
        wanted.wf(),
        v.profiles == names::lists_of(profiles@),
        wanted@ == v.wanted.to_set(),
    ensures
        r == active(v, t@),
{
    let ghost own = names::list_for(v.profiles, t@);
    match profiles.get(t) {
        Some(list) => {
            assert(own == text::texts(list@));
            if list.len() == 0 {
                return true;
            }
            let at = find_in(list.as_slice(), wanted);
            proof {
                if at < list@.len() {
                    assert(wanted@.contains(own[at as int]));
                    assert(v.wanted.contains(own[at as int]));
                } else {
                    assert forall|i: int| 0 <= i < own.len() implies !v.wanted.contains(
                        #[trigger] own[i],
                    ) by {
                        assert(!wanted@.contains(own[i]));
                    }
                }
            }
            at < list.len()
        },
        None => true,
    }
}

/// The place of the first name of a list that is in a set; the length where there is none.
fn find_in(list: &[String], set: &NameSet) -> (r: usize)
    requires
        set.wf(),
    ensures
        r <= list@.len(),
        r < list@.len() ==> set@.contains(text::texts(list@)[r as int]),
        forall|j: int| 0 <= j < r ==> !set@.contains(#[trigger] text::texts(list@)[j]),
{
    let ghost all = text::texts(list@);
    let mut i: usize = 0;
    while i < list.len()
        invariant
            set.wf(),
            i <= list@.len(),
            all == text::texts(list@),
            forall|j: int| 0 <= j < i ==> !set@.contains(#[trigger] all[j]),
        decreases list@.len() - i,
    {
        assert(all[i as int] == list@[i as int]@);
        if set.contains(list[i].as_str()) {
            return i;
        }
        i += 1;
    }
    i
}

/// The targets that the profiles leave.
fn gate(input: &SelectionInput, profiles: &NameMap<Vec<String>>) -> (r: Vec<String>)
    requires
        input.wf(),
        profiles.wf(),
        input@.profiles == names::lists_of(profiles@),
    ensures
        text::texts(r@) == after_profiles(input@),
{
    let ghost v = input@;
    if input.profiles_wanted.len() == 0 {
        return copy_texts(input.all_targets);
    }
    let ghost keep = |t: Seq<char>| active(v, t);
    let wanted = NameSet::from_list(input.profiles_wanted);
    let mut r: Vec<String> = Vec::new();
    let mut i: usize = 0;
    assert(text::texts(r@) =~= v.all.take(0).filter(keep)) by {
        reveal(Seq::filter);
    }
    while i < input.all_targets.len()
        invariant
            input.wf(),
            profiles.wf(),
            wanted.wf(),
            v == input@,
            v.profiles == names::lists_of(profiles@),
            wanted@ == v.wanted.to_set(),
            i <= v.all.len(),
            keep == (|t: Seq<char>| active(v, t)),
            text::texts(r@) == v.all.take(i as int).filter(keep),
        decreases v.all.len() - i,
    {
        proof {
            reveal(Seq::filter);
            assert(v.all.take(i + 1).drop_last() =~= v.all.take(i as int));
            assert(v.all.take(i + 1).last() == input.all_targets@[i as int]@);
        }
        if is_active(profiles, &wanted, input.all_targets[i].as_str(), Ghost(v)) {
            add_text(&mut r, input.all_targets[i].clone());
        }
        i += 1;
    }
    assert(v.all.take(i as int) =~= v.all);
    r
}

/// The warnings for what is to be left out but is no target.
fn warn_unmatched(exclude: &[String], known: &NameSet) -> (r: Vec<String>)
    requires
        known.wf(),
    ensures
        text::texts(r@) == unmatched_warnings(text::texts(exclude@), known@),
{
    let ghost all = text::texts(exclude@);
    let mut r: Vec<String> = Vec::new();
    let mut i: usize = 0;
    assert(text::texts(r@) =~= unmatched_warnings(all.take(0), known@));
    while i < exclude.len()
        invariant
            known.wf(),
            i <= exclude@.len(),
            all == text::texts(exclude@),
            text::texts(r@) == unmatched_warnings(all.take(i as int), known@),
        decreases exclude@.len() - i,
    {
        proof {
            assert(all.take(i + 1).drop_last() =~= all.take(i as int));
            assert(all.take(i + 1).last() == exclude@[i as int]@);
        }
        if !known.contains(exclude[i].as_str()) {
            let line = "--exclude '".to_string().concat(exclude[i].as_str()).concat(
                "' matches no target",
            );
            add_text(&mut r, line);
        }
        i += 1;
    }
    assert(all.take(i as int) =~= all);
    r
}

/// Adds the warnings for what `target` depends on and is left out.
fn warn_stale(out: &mut Vec<String>, target: &str, deps: &[String], excluded: &NameSet)
    requires
        excluded.wf(),
    ensures
        text::texts(final(out)@) == text::texts(old(out)@) + stale_warnings(
            target@,
            text::texts(deps@),
            excluded@,
        ),
{
    let ghost all = text::texts(deps@);
    let ghost before = text::texts(out@);
    let mut i: usize = 0;
    assert(before + stale_warnings(target@, all.take(0), excluded@) =~= before);
    while i < deps.len()
        invariant
            excluded.wf(),
            i <= deps@.len(),
            all == text::texts(deps@),
            text::texts(out@) == before + stale_warnings(target@, all.take(i as int), excluded@),
        decreases deps@.len() - i,
    {
        proof {
            assert(all.take(i + 1).drop_last() =~= all.take(i as int));
            assert(all.take(i + 1).last() == deps@[i as int]@);
        }
        let dep = deps[i].as_str();
        if excluded.contains(dep) {
            let line = "'".to_string().concat(target).concat("' depends on excluded target '").concat(
                dep,
            ).concat("' — it will build against whatever '").concat(dep).concat(
                "' image already exists on the node",
            );
            add_text(out, line);
            assert(text::texts(out@) =~= before + stale_warnings(
                target@,
                all.take(i + 1),
                excluded@,
            ));
        }
        i += 1;
    }
    assert(all.take(i as int) =~= all);
}

/// Adds the warnings for what kept targets depend on and is left out.
fn warn_all_stale(
    out: &mut Vec<String>,
    targets: &[String],
    deps: &NameMap<Vec<String>>,
    excluded: &NameSet,
)
    requires
        deps.wf(),
        excluded.wf(),
    ensures
        text::texts(final(out)@) == text::texts(old(out)@) + all_stale_warnings(
            text::texts(targets@),
            names::lists_of(deps@),
            excluded@,
        ),
{
    let ghost all = text::texts(targets@);
    let ghost lists = names::lists_of(deps@);
    let ghost before = text::texts(out@);
    let mut i: usize = 0;
    assert(before + all_stale_warnings(all.take(0), lists, excluded@) =~= before);
    while i < targets.len()
        invariant
            deps.wf(),
            excluded.wf(),
            i <= targets@.len(),
            all == text::texts(targets@),
            lists == names::lists_of(deps@),
            text::texts(out@) == before + all_stale_warnings(all.take(i as int), lists, excluded@),
        decreases targets@.len() - i,
    {
        let ghost t = all[i as int];
        proof {
            assert(all.take(i + 1).drop_last() =~= all.take(i as int));
            assert(all.take(i + 1).last() == t);
            assert(t == targets@[i as int]@);
        }
        match deps.get(targets[i].as_str()) {
            Some(list) => {
                assert(names::list_for(lists, t) == text::texts(list@));
                warn_stale(out, targets[i].as_str(), list.as_slice(), excluded);
            },
            None => {
                assert(stale_warnings(t, names::list_for(lists, t), excluded@) =~= Seq::empty());
            },
        }
        assert(text::texts(out@) =~= before + all_stale_warnings(all.take(i + 1), lists, excluded@));
        i += 1;
    }
    assert(all.take(i as int) =~= all);
}

/// The targets to build, and the warnings to print.
///
/// A service that declares no profiles is always active, and each profile asked for adds the
/// services that declare it. A name that is not known is an error: it is not passed over.
pub fn select_targets(input: SelectionInput) -> (r: Result<SelectionOutcome, SelectionError>)
    requires
        input.wf(),
    ensures
        match r {
            Ok(o) => selection(input@) == Ok::<_, SelectionErrorView>(
                (text::texts(o.targets@), text::texts(o.warnings@)),
            ),
            Err(e) => selection(input@) == Err::<(Seq<Seq<char>>, Seq<Seq<char>>), _>(e@),
        },
{
    let ghost v = input@;
    let known = NameSet::from_list(input.all_targets);
    let none: NameMap<Vec<String>> = NameMap::new();
    let profiles: &NameMap<Vec<String>> = match input.profiles {
        Some(p) => p,
        None => &none,
    };
    assert(names::lists_of(profiles@) =~= v.profiles);
    let declared_set = declared_profiles(profiles);
    let undeclared: usize = find_not_in(input.profiles_wanted, &declared_set);
    if undeclared < input.profiles_wanted.len() {
        return Err(
            SelectionError::UnknownProfile {
                profile: input.profiles_wanted[undeclared].clone(),
                available: declared_set.into_list(),
            },
        );
    }
    let gated_targets = gate(&input, profiles);
    let unknown: usize = find_not_in(input.requested, &known);
    if unknown < input.requested.len() {
        let target = input.requested[unknown].as_str();
        let meant = match suggestion(target, input.all_targets) {
            Some(s) => Some(s.clone()),
            None => None,
        };
        return Err(
            SelectionError::UnknownTarget {
                target: input.requested[unknown].clone(),
                available: copy_texts(input.all_targets),
                meant,
            },
        );
    }
    let selected = NameSet::from_list(gated_targets.as_slice());
    let gated = sift(input.requested, &selected, false);
    if gated.len() > 0 {
        assert(text::texts(gated@).len() > 0);
        return Err(
            SelectionError::GatedOut {
                targets: gated,
                profiles: copy_texts(input.profiles_wanted),
            },
        );
    }
    assert(text::texts(gated@).len() == 0);
    let requested_targets: Vec<String> = if input.requested.len() == 0 {
        gated_targets
    } else {
        sift(gated_targets.as_slice(), &NameSet::from_list(input.requested), true)
    };
    let with_deps: Vec<String> = if input.with_deps {
        follow(requested_targets.as_slice(), input.deps, Some(&known)).into_list()
    } else {
        requested_targets
    };
    assert(text::texts(with_deps@) == after_deps(v));
    let excluded = NameSet::from_list(input.exclude);
    let kept = sift(with_deps.as_slice(), &excluded, false);
    let mut lines = warn_unmatched(input.exclude, &known);
    let ghost unmatched = text::texts(lines@);
    if input.deps_are_build_deps {
        warn_all_stale(&mut lines, kept.as_slice(), input.deps, &excluded);
    } else {
        assert(unmatched + Seq::empty() =~= unmatched);
    }
    assert(text::texts(kept@).len() == kept@.len());
    if kept.len() == 0 {
        return Err(SelectionError::Empty);
    }
    Ok(SelectionOutcome { targets: kept, warnings: lines })
}

/// The targets and everything that they depend on, directly or through others, by name. This
/// comes before the bake file is asked for its targets: what is not known yet must not be left
/// out.
pub fn expand_deps(targets: &[String], deps: &NameMap<Vec<String>>) -> (r: Vec<String>)
    requires
        deps.wf(),
    ensures
        text::texts(r@) == order::in_order(
            closure::reach(names::lists_of(deps@), Set::full(), text::texts(targets@)),
        ),
        order::ascending(text::texts(r@)),
        forall|x: Seq<char>|
            #[trigger] text::texts(r@).contains(x) <==> closure::reachable(
                names::lists_of(deps@),
                Set::full(),
                text::texts(targets@),
                x,
            ),
{
    let set = follow(targets, deps, None);
    let r = set.into_list();
    proof {
        assert forall|x: Seq<char>| #[trigger] text::texts(r@).contains(x) <==> closure::reachable(
            names::lists_of(deps@),
            Set::full(),
            text::texts(targets@),
            x,
        ) by {
            assert(text::texts(r@).to_set().contains(x) == set@.contains(x));
        }
    }
    r
}

/// Whether the lines hold the header of a target block: a line that starts with `target "`,
/// with a `{` on it or at the start of the next one.
pub open spec fn has_target_block(lines: Seq<Seq<char>>) -> bool {
    exists|i: int| #[trigger] opens_target(lines, i)
}

/// Whether a target block opens on the line `i`.
pub open spec fn opens_target(lines: Seq<Seq<char>>, i: int) -> bool {
    &&& 0 <= i < lines.len()
    &&& "target \""@.is_prefix_of(lines[i])
    &&& lines[i].contains('{') || (i + 1 < lines.len() && "{"@.is_prefix_of(
        text::trim_start(lines[i + 1]),
    ))
}

/// Whether a file holds a bake file, in HCL or JSON, whose dependencies are those of builds.
/// The extension decides where it can; otherwise a target block does.
pub open spec fn hcl_bake_file(path: Seq<char>, contents: Option<Seq<char>>) -> bool {
    let ext = path::extension(path);
    if ext == Some("hcl"@) {
        true
    } else if ext == Some("yml"@) || ext == Some("yaml"@) {
        false
    } else if ext == Some("json"@) {
        contents matches Some(c) && json::json_bake_text(c)
    } else {
        contents matches Some(c) && has_target_block(text::lines(c))
    }
}

fn finds_target_block(contents: &str) -> (r: bool)
    ensures
        r == has_target_block(text::lines(contents@)),
{
    let chars = chars_of(contents);
    let all = lines_of(chars.as_slice());
    let ghost lines = text::lines(contents@);
    let mut i: usize = 0;
    while i < all.len()
        invariant
            i <= all@.len(),
            lines == text::lines(contents@),
            lines == text::slices(all@),
            forall|j: int| 0 <= j < i ==> !#[trigger] opens_target(lines, j),
        decreases all@.len() - i,
    {
        assert(lines[i as int] == all@[i as int]@);
        let opens = begins_with(all[i], "target \"") && (holds_char(all[i], '{') || (i + 1
            < all.len() && begins_with(trimmed_start(all[i + 1]), "{")));
        assert(i + 1 < all@.len() ==> lines[i + 1] == all@[i + 1]@);
        if opens {
            assert(opens_target(lines, i as int));
            return true;
        }
        i += 1;
    }
    false
}

/// The contents of a possible text.
pub open spec fn text_of(c: Option<&str>) -> Option<Seq<char>> {
    match c {
        Some(s) => Some(s@),
        None => None,
    }
}

/// Whether a file holds a bake file, in HCL or JSON, whose dependencies are those of builds.
///
/// The extension decides where it can. Otherwise a line has to open a target block: a compose
/// file may well mention `target "`, in a comment, an image tag or a build argument, and a
/// block quoted in it is indented.
pub fn is_hcl_bake_file(path: &str, contents: Option<&str>) -> (r: bool)
    ensures
        r == hcl_bake_file(path@, text_of(contents)),
{
    if let Some(ext) = extension_of(path) {
        if same_text(ext.as_str(), "hcl") {
            return true;
        }
        if same_text(ext.as_str(), "yml") || same_text(ext.as_str(), "yaml") {
            proof {
                reveal_strlit("hcl");
                reveal_strlit("yml");
                reveal_strlit("yaml");
            }
            return false;
        }
        if same_text(ext.as_str(), "json") {
            return match contents {
                Some(c) => is_json_bake_file(c),
                None => false,
            };
        }
    }
    match contents {
        Some(c) => finds_target_block(c),
        None => false,
    }
}

}

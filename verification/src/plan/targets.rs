//! What is known of the targets before they are built: their caches, dependencies and platforms.
use crate::bakeprint;
use crate::bakeprint::{copy_entries, BakePrint, BakeTarget, CacheEntryView};
use crate::executor::bake::{cache_entry_args, TargetCacheConfig};
use crate::json;
use crate::json::{JsonDoc, JsonScalar};
use crate::names;
use crate::names::{NameMap, NameSet};
use crate::order;
use crate::selection::expand_deps;
use crate::closure;
use crate::text;
use crate::text::{add_text, copy_texts, decimal_of, joined};
use vstd::prelude::*;
use vstd::string::*;

pub mod laws;

verus! {

/// Why there is no active builder.
#[derive(Debug, Clone, Copy, PartialEq, Eq, Structural)]
pub enum BuilderFault {
    /// What should name it is not JSON.
    NotJson,
    /// None is named.
    NoneActive,
}

/// The text of a fault.
pub open spec fn builder_fault_text(f: BuilderFault) -> Seq<char> {
    match f {
        BuilderFault::NotJson => "invalid JSON in ~/.docker/buildx/current"@,
        BuilderFault::NoneActive => "no active builder set — specify --builder explicitly"@,
    }
}

impl BuilderFault {
    /// The text of the fault.
    pub fn message(&self) -> (r: String)
        ensures
            r@ == builder_fault_text(*self),
    {
        match self {
            BuilderFault::NotJson => "invalid JSON in ~/.docker/buildx/current".to_string(),
            BuilderFault::NoneActive => {
                "no active builder set — specify --builder explicitly".to_string()
            },
        }
    }
}

/// The builder that a document names: a string that is not empty.
pub open spec fn builder_named(doc: json::JsonDocView) -> Option<Seq<char>> {
    match json::member(doc, "Name"@) {
        Some(json::JsonScalarView::Text(s)) => if s.len() > 0 {
            Some(s)
        } else {
            None
        },
        _ => None,
    }
}

/// The builder that a document names.
pub fn builder_in(doc: &JsonDoc) -> (r: Option<String>)
    ensures
        match r {
            Some(s) => builder_named(doc@) == Some(s@),
            None => builder_named(doc@) is None,
        },
{
    match doc.get("Name") {
        Some(JsonScalar::Text(s)) => if s.as_str().unicode_len() > 0 {
            Some(s.clone())
        } else {
            None
        },
        _ => None,
    }
}

/// The active builder, by the text of the file that names it.
pub fn active_builder(data: &str) -> (r: Result<String, BuilderFault>)
    ensures
        match json::json_doc_of(data@) {
            None => r == Err::<String, BuilderFault>(BuilderFault::NotJson),
            Some(doc) => match builder_named(doc) {
                Some(name) => r matches Ok(s) && s@ == name,
                None => r == Err::<String, BuilderFault>(BuilderFault::NoneActive),
            },
        },
{
    match JsonDoc::parse(data) {
        None => Err(BuilderFault::NotJson),
        Some(doc) => match builder_in(&doc) {
            Some(name) => Ok(name),
            None => Err(BuilderFault::NoneActive),
        },
    }
}

/// The targets that the bake file is asked for. What they depend on is added where those are
/// dependencies of builds: services of a compose file are often not built at all.
pub open spec fn wanted_targets(
    targets: Seq<Seq<char>>,
    deps: Map<Seq<char>, Seq<Seq<char>>>,
    with_deps: bool,
    is_hcl: bool,
) -> Seq<Seq<char>> {
    if with_deps && is_hcl {
        order::in_order(closure::reach(deps, Set::full(), targets))
    } else {
        targets
    }
}

/// The targets that the bake file is asked for.
pub fn wanted(
    targets: &[String],
    deps: &NameMap<Vec<String>>,
    with_deps: bool,
    is_hcl: bool,
) -> (r: Vec<String>)
    requires
        deps.wf(),
    ensures
        text::texts(r@) == wanted_targets(
            text::texts(targets@),
            names::lists_of(deps@),
            with_deps,
            is_hcl,
        ),
{
    if with_deps && is_hcl {
        expand_deps(targets, deps)
    } else {
        copy_texts(targets)
    }
}

/// The names of all targets of the bake file, in order.
pub fn all_target_names(print: &BakePrint) -> (r: Vec<String>)
    requires
        print.wf(),
    ensures
        text::texts(r@) == order::in_order(print.target@.dom()),
{
    let ghost keys = print.target.key_list();
    let mut r: Vec<String> = Vec::new();
    let mut i: usize = 0;
    assert(text::texts(r@) =~= keys.take(0));
    while i < print.target.len()
        invariant
            print.wf(),
            keys == print.target.key_list(),
            i <= keys.len(),
            text::texts(r@) == keys.take(i as int),
        decreases keys.len() - i,
    {
        add_text(&mut r, print.target.key_at(i).clone());
        assert(text::texts(r@) =~= keys.take(i + 1));
        i += 1;
    }
    proof {
        print.target.lemma_keys();
        assert(keys.take(i as int) =~= keys);
    }
    r
}

/// The caches of a target: to read from and to write to.
pub type CacheViews = (Seq<CacheEntryView>, Seq<CacheEntryView>);

/// What some cache configurations hold.
pub open spec fn caches_of(m: Map<Seq<char>, TargetCacheConfig>) -> Map<Seq<char>, CacheViews> {
    m.map_values(
        |c: TargetCacheConfig|
            (bakeprint::entry_views(c.cache_from@), bakeprint::entry_views(c.cache_to@)),
    )
}

/// The caches that the bake file gives the targets that it gives any.
pub open spec fn stated_caches(
    targets: Seq<Seq<char>>,
    print: Map<Seq<char>, BakeTarget>,
) -> Map<Seq<char>, CacheViews> {
    Map::new(
        |t: Seq<char>|
            targets.contains(t) && print.contains_key(t) && (print[t].cache_from@.len() > 0
                || print[t].cache_to@.len() > 0),
        |t: Seq<char>|
            (
                bakeprint::entry_views(print[t].cache_from@),
                bakeprint::entry_views(print[t].cache_to@),
            ),
    )
}

/// The caches that the bake file gives the targets. They are named again beside that of the
/// registry, which would otherwise replace them.
pub fn cache_configs(targets: &[String], print: &BakePrint) -> (r: NameMap<TargetCacheConfig>)
    requires
        print.wf(),
    ensures
        r.wf(),
        caches_of(r@) == stated_caches(text::texts(targets@), print.target@),
{
    let ghost all = text::texts(targets@);
    let ghost stated = stated_caches(all, print.target@);
    let mut r: NameMap<TargetCacheConfig> = NameMap::new();
    let mut i: usize = 0;
    while i < targets.len()
        invariant
            print.wf(),
            r.wf(),
            i <= targets@.len(),
            all == text::texts(targets@),
            stated == stated_caches(all, print.target@),
            forall|t: Seq<char>| #[trigger]
                r@.contains_key(t) <==> all.take(i as int).contains(t) && stated.contains_key(t),
            forall|t: Seq<char>|
                r@.contains_key(t) ==> #[trigger] caches_of(r@)[t] == stated[t],
        decreases targets@.len() - i,
    {
        let ghost t = all[i as int];
        let ghost before = r@;
        proof {
            names::lemma_take_contains(all, i as int);
            assert(t == targets@[i as int]@);
            assert(all.contains(t));
        }
        if let Some(bt) = print.target.get(targets[i].as_str()) {
            if bt.cache_from.len() > 0 || bt.cache_to.len() > 0 {
                let config = TargetCacheConfig {
                    cache_from: copy_entries(bt.cache_from.as_slice()),
                    cache_to: copy_entries(bt.cache_to.as_slice()),
                };
                let ghost held = (
                    bakeprint::entry_views(config.cache_from@),
                    bakeprint::entry_views(config.cache_to@),
                );
                r.insert(targets[i].clone(), config);
                proof {
                    assert(caches_of(r@) =~= caches_of(before).insert(t, held));
                    assert forall|u: Seq<char>| r@.contains_key(u) implies #[trigger] caches_of(
                        r@,
                    )[u] == stated[u] by {
                        if u != t {
                            assert(caches_of(before)[u] == stated[u]);
                        }
                    }
                }
            }
        }
        i += 1;
    }
    proof {
        assert(all.take(i as int) =~= all);
        assert(caches_of(r@) =~= stated);
    }
    r
}

/// The dependencies that decide the order of builds: those of the targets, where they are
/// dependencies of builds.
pub open spec fn build_deps(
    targets: Seq<Seq<char>>,
    deps: Map<Seq<char>, Seq<Seq<char>>>,
    is_hcl: bool,
) -> Map<Seq<char>, Seq<Seq<char>>> {
    if is_hcl {
        deps.restrict(targets.to_set())
    } else {
        Map::empty()
    }
}

/// The dependencies that decide the order of builds: those of the targets, where they are
/// dependencies of builds. In a compose file they are the order of starts at run time.
pub fn scoped_deps(targets: &[String], deps: &NameMap<Vec<String>>, is_hcl: bool) -> (r: NameMap<
    Vec<String>,
>)
    requires
        deps.wf(),
    ensures
        r.wf(),
        names::lists_of(r@) == build_deps(text::texts(targets@), names::lists_of(deps@), is_hcl),
{
    let mut r: NameMap<Vec<String>> = NameMap::new();
    if !is_hcl {
        assert(names::lists_of(r@) =~= Map::empty());
        return r;
    }
    let among = NameSet::from_list(targets);
    let ghost lists = names::lists_of(deps@);
    let ghost keys = deps.key_list();
    let mut i: usize = 0;
    while i < deps.len()
        invariant
            deps.wf(),
            among.wf(),
            r.wf(),
            keys == deps.key_list(),
            lists == names::lists_of(deps@),
            i <= keys.len(),
            forall|t: Seq<char>| #[trigger]
                r@.contains_key(t) <==> keys.take(i as int).contains(t) && among@.contains(t),
            forall|t: Seq<char>|
                r@.contains_key(t) ==> #[trigger] names::lists_of(r@)[t] == lists[t],
        decreases keys.len() - i,
    {
        let name = deps.key_at(i);
        let ghost before = r@;
        proof {
            names::lemma_take_contains(keys, i as int);
        }
        if among.contains(name.as_str()) {
            let list = copy_texts(deps.value_at(i).as_slice());
            let ghost stated = text::texts(list@);
            r.insert(name.clone(), list);
            proof {
                assert(names::lists_of(r@) =~= names::lists_of(before).insert(name@, stated));
                assert forall|t: Seq<char>| r@.contains_key(t) implies #[trigger] names::lists_of(
                    r@,
                )[t] == lists[t] by {
                    if t != name@ {
                        assert(names::lists_of(before)[t] == lists[t]);
                    }
                }
            }
        }
        i += 1;
    }
    proof {
        deps.lemma_keys();
        assert(keys.take(i as int) =~= keys);
        assert(names::lists_of(r@) =~= build_deps(text::texts(targets@), lists, true));
    }
    r
}

/// The platforms that the bake file gives the targets that it gives any.
pub open spec fn stated_platforms(
    targets: Seq<Seq<char>>,
    print: Map<Seq<char>, BakeTarget>,
) -> Map<Seq<char>, Seq<Seq<char>>> {
    Map::new(
        |t: Seq<char>|
            targets.contains(t) && print.contains_key(t) && print[t].platforms@.len() > 0,
        |t: Seq<char>| text::texts(print[t].platforms@),
    )
}

/// The platforms that the bake file gives the targets.
pub fn target_platforms(targets: &[String], print: &BakePrint) -> (r: NameMap<Vec<String>>)
    requires
        print.wf(),
    ensures
        r.wf(),
        names::lists_of(r@) == stated_platforms(text::texts(targets@), print.target@),
{
    let ghost all = text::texts(targets@);
    let ghost stated = stated_platforms(all, print.target@);
    let mut r: NameMap<Vec<String>> = NameMap::new();
    let mut i: usize = 0;
    while i < targets.len()
        invariant
            print.wf(),
            r.wf(),
            i <= targets@.len(),
            all == text::texts(targets@),
            stated == stated_platforms(all, print.target@),
            forall|t: Seq<char>| #[trigger]
                r@.contains_key(t) <==> all.take(i as int).contains(t) && stated.contains_key(t),
            forall|t: Seq<char>|
                r@.contains_key(t) ==> #[trigger] names::lists_of(r@)[t] == stated[t],
        decreases targets@.len() - i,
    {
        let ghost t = all[i as int];
        let ghost before = r@;
        proof {
            names::lemma_take_contains(all, i as int);
            assert(t == targets@[i as int]@);
            assert(all.contains(t));
        }
        if let Some(bt) = print.target.get(targets[i].as_str()) {
            if bt.platforms.len() > 0 {
                let list = copy_texts(bt.platforms.as_slice());
                let ghost held = text::texts(list@);
                r.insert(targets[i].clone(), list);
                proof {
                    assert(names::lists_of(r@) =~= names::lists_of(before).insert(t, held));
                    assert forall|u: Seq<char>|
                        r@.contains_key(u) implies #[trigger] names::lists_of(r@)[u]
                        == stated[u] by {
                        if u != t {
                            assert(names::lists_of(before)[u] == stated[u]);
                        }
                    }
                }
            }
        }
        i += 1;
    }
    proof {
        assert(all.take(i as int) =~= all);
        assert(names::lists_of(r@) =~= stated);
    }
    r
}

/// How many targets depend on nothing.
pub open spec fn independent(
    targets: Seq<Seq<char>>,
    deps: Map<Seq<char>, Seq<Seq<char>>>,
) -> nat
    decreases targets.len(),
{
    if targets.len() == 0 {
        0
    } else {
        independent(targets.drop_last(), deps) + if names::list_for(
            deps,
            targets.last(),
        ).len() == 0 {
            1nat
        } else {
            0nat
        }
    }
}

fn count_independent(targets: &[String], deps: &NameMap<Vec<String>>) -> (r: usize)
    requires
        deps.wf(),
    ensures
        r == independent(text::texts(targets@), names::lists_of(deps@)),
        r <= targets@.len(),
{
    let ghost all = text::texts(targets@);
    let ghost lists = names::lists_of(deps@);
    let mut n: usize = 0;
    let mut i: usize = 0;
    assert(all.take(0).len() == 0);
    while i < targets.len()
        invariant
            deps.wf(),
            i <= targets@.len(),
            all == text::texts(targets@),
            lists == names::lists_of(deps@),
            n <= i,
            n == independent(all.take(i as int), lists),
        decreases targets@.len() - i,
    {
        proof {
            assert(all.take(i + 1).drop_last() =~= all.take(i as int));
            assert(all.take(i + 1).last() == targets@[i as int]@);
        }
        let free = match deps.get(targets[i].as_str()) {
            Some(list) => {
                assert(names::list_for(lists, targets@[i as int]@) == text::texts(list@));
                list.len() == 0
            },
            None => true,
        };
        if free {
            n += 1;
        }
        i += 1;
    }
    assert(all.take(i as int) =~= all);
    n
}

/// A line for each name of a list whose own list is not empty: the name, a word, and what its
/// list holds.
pub open spec fn list_lines(
    keys: Seq<Seq<char>>,
    m: Map<Seq<char>, Seq<Seq<char>>>,
    word: Seq<char>,
) -> Seq<Seq<char>>
    decreases keys.len(),
{
    if keys.len() == 0 {
        Seq::empty()
    } else {
        let before = list_lines(keys.drop_last(), m, word);
        let list = m[keys.last()];
        if list.len() == 0 {
            before
        } else {
            before.push("  "@ + keys.last() + word + text::join(list, ", "@) + "]"@)
        }
    }
}

fn add_list_lines(out: &mut Vec<String>, m: &NameMap<Vec<String>>, word: &str)
    requires
        m.wf(),
    ensures
        text::texts(final(out)@) == text::texts(old(out)@) + list_lines(
            order::in_order(m@.dom()),
            names::lists_of(m@),
            word@,
        ),
{
    let ghost keys = m.key_list();
    let ghost lists = names::lists_of(m@);
    let ghost before = text::texts(out@);
    let mut i: usize = 0;
    assert(before + list_lines(keys.take(0), lists, word@) =~= before);
    while i < m.len()
        invariant
            m.wf(),
            keys == m.key_list(),
            lists == names::lists_of(m@),
            i <= keys.len(),
            text::texts(out@) == before + list_lines(keys.take(i as int), lists, word@),
        decreases keys.len() - i,
    {
        let name = m.key_at(i);
        let list = m.value_at(i);
        proof {
            assert(keys.take(i + 1).drop_last() =~= keys.take(i as int));
            assert(keys.take(i + 1).last() == name@);
            assert(lists[name@] == text::texts(list@));
        }
        if list.len() > 0 {
            let line = "  ".to_string().concat(name.as_str()).concat(word).concat(
                joined(list.as_slice(), ", ").as_str(),
            ).concat("]");
            add_text(out, line);
            assert(text::texts(out@) =~= before + list_lines(keys.take(i + 1), lists, word@));
        }
        i += 1;
    }
    proof {
        m.lemma_keys();
        assert(keys.take(i as int) =~= keys);
    }
}

/// The caches of a target the way `--set` takes them.
pub open spec fn cache_texts(c: CacheViews) -> Seq<Seq<char>> {
    (c.0 + c.1).map_values(|e: CacheEntryView| bakeprint::cache_arg(e))
}

/// A line for each target with caches.
pub open spec fn cache_lines(
    keys: Seq<Seq<char>>,
    caches: Map<Seq<char>, CacheViews>,
) -> Seq<Seq<char>>
    decreases keys.len(),
{
    if keys.len() == 0 {
        Seq::empty()
    } else {
        cache_lines(keys.drop_last(), caches).push(
            "    "@ + keys.last() + " → ["@ + text::join(cache_texts(caches[keys.last()]), "; "@)
                + "]"@,
        )
    }
}

fn add_cache_lines(out: &mut Vec<String>, caches: &NameMap<TargetCacheConfig>)
    requires
        caches.wf(),
    ensures
        text::texts(final(out)@) == text::texts(old(out)@) + cache_lines(
            order::in_order(caches@.dom()),
            caches_of(caches@),
        ),
{
    let ghost keys = caches.key_list();
    let ghost views = caches_of(caches@);
    let ghost before = text::texts(out@);
    let mut i: usize = 0;
    assert(before + cache_lines(keys.take(0), views) =~= before);
    while i < caches.len()
        invariant
            caches.wf(),
            keys == caches.key_list(),
            views == caches_of(caches@),
            i <= keys.len(),
            text::texts(out@) == before + cache_lines(keys.take(i as int), views),
        decreases keys.len() - i,
    {
        let name = caches.key_at(i);
        let config = caches.value_at(i);
        let mut entries = cache_entry_args(config.cache_from.as_slice());
        let more = cache_entry_args(config.cache_to.as_slice());
        text::add_texts(&mut entries, more.as_slice());
        proof {
            assert(keys.take(i + 1).drop_last() =~= keys.take(i as int));
            assert(keys.take(i + 1).last() == name@);
            assert(text::texts(entries@) =~= cache_texts(views[name@]));
        }
        let line = "    ".to_string().concat(name.as_str()).concat(" → [").concat(
            joined(entries.as_slice(), "; ").as_str(),
        ).concat("]");
        add_text(out, line);
        assert(text::texts(out@) =~= before + cache_lines(keys.take(i + 1), views));
        i += 1;
    }
    proof {
        caches.lemma_keys();
        assert(keys.take(i as int) =~= keys);
    }
}

/// The line with the number of targets.
pub open spec fn targets_line(
    targets: Seq<Seq<char>>,
    deps: Map<Seq<char>, Seq<Seq<char>>>,
) -> Seq<char> {
    let n = independent(targets, deps);
    "Targets: "@ + text::decimal(targets.len()) + " ("@ + text::decimal(n) + " independent, "@
        + text::decimal((targets.len() - n) as nat) + " with dependencies)"@
}

/// What is said of the targets before they are built.
pub open spec fn target_report(
    targets: Seq<Seq<char>>,
    deps: Map<Seq<char>, Seq<Seq<char>>>,
    platforms: Map<Seq<char>, Seq<Seq<char>>>,
    caches: Map<Seq<char>, CacheViews>,
    with_registry: bool,
) -> Seq<Seq<char>> {
    seq![targets_line(targets, deps)] + (if independent(targets, deps) < targets.len() {
        list_lines(order::in_order(deps.dom()), deps, " → depends on ["@)
    } else {
        Seq::empty()
    }) + list_lines(order::in_order(platforms.dom()), platforms, " → platform ["@) + (
    if with_registry && caches.dom() != Set::<Seq<char>>::empty() {
        seq!["  registry cache added alongside the bake file's own entries for:"@] + cache_lines(
            order::in_order(caches.dom()),
            caches,
        )
    } else {
        Seq::empty()
    })
}

/// What is said of the targets before they are built, line by line: how many there are, what
/// they depend on, their platforms and, with a registry, their own caches.
pub fn report_targets(
    targets: &[String],
    deps: &NameMap<Vec<String>>,
    platforms: &NameMap<Vec<String>>,
    caches: &NameMap<TargetCacheConfig>,
    with_registry: bool,
) -> (r: Vec<String>)
    requires
        deps.wf(),
        platforms.wf(),
        caches.wf(),
    ensures
        text::texts(r@) == target_report(
            text::texts(targets@),
            names::lists_of(deps@),
            names::lists_of(platforms@),
            caches_of(caches@),
            with_registry,
        ),
{
    let ghost all = text::texts(targets@);
    let ghost dep_lists = names::lists_of(deps@);
    let ghost plat_lists = names::lists_of(platforms@);
    let ghost cache_views = caches_of(caches@);
    let free: usize = count_independent(targets, deps);
    let total: usize = targets.len();
    let mut r: Vec<String> = Vec::new();
    let line = "Targets: ".to_string().concat(decimal_of(total as u64).as_str()).concat(" (").concat(
        decimal_of(free as u64).as_str(),
    ).concat(" independent, ").concat(decimal_of((total - free) as u64).as_str()).concat(
        " with dependencies)",
    );
    add_text(&mut r, line);
    let ghost first = seq![targets_line(all, dep_lists)];
    assert(text::texts(r@) =~= first);
    assert(dep_lists.dom() =~= deps@.dom());
    assert(plat_lists.dom() =~= platforms@.dom());
    assert(cache_views.dom() =~= caches@.dom());
    let ghost second = if free < total {
        list_lines(order::in_order(dep_lists.dom()), dep_lists, " → depends on ["@)
    } else {
        Seq::empty()
    };
    if free < total {
        add_list_lines(&mut r, deps, " → depends on [");
    } else {
        assert(first + second =~= first);
    }
    assert(text::texts(r@) == first + second);
    add_list_lines(&mut r, platforms, " → platform [");
    let ghost third = text::texts(r@);
    let some = !caches.is_empty();
    proof {
        assert(some == (cache_views.dom() != Set::<Seq<char>>::empty())) by {
            if caches@ == Map::<Seq<char>, TargetCacheConfig>::empty() {
                assert(caches@.dom() =~= Set::<Seq<char>>::empty());
            }
            if caches@.dom() == Set::<Seq<char>>::empty() {
                assert(caches@ =~= Map::<Seq<char>, TargetCacheConfig>::empty());
            }
        }
    }
    if with_registry && some {
        add_text(
            &mut r,
            "  registry cache added alongside the bake file's own entries for:".to_string(),
        );
        let ghost fourth = text::texts(r@);
        add_cache_lines(&mut r, caches);
        proof {
            let head = seq![
                "  registry cache added alongside the bake file's own entries for:"@,
            ];
            let tail = cache_lines(order::in_order(cache_views.dom()), cache_views);
            assert(fourth =~= third + head);
            assert(fourth + tail =~= third + (head + tail));
        }
    } else {
        assert(third + Seq::empty() =~= third);
    }
    r
}

}

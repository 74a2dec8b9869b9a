//! What `docker buildx bake --print` says of a bake file.
use crate::json;
use crate::json::JsonDoc;
use crate::names;
use crate::names::NameMap;
use crate::text;
use crate::text::{add_text, chars_of, copy_texts, joined, same_text, string_of, trimmed};
use vstd::prelude::*;
use vstd::string::*;

pub mod laws;

verus! {

/// A target as the bake file resolves it.
#[derive(Debug)]
pub struct BakeTarget {
    pub context: Option<String>,
    pub dockerfile: Option<String>,
    pub cache_from: Vec<CacheEntry>,
    pub cache_to: Vec<CacheEntry>,
    pub no_cache: Option<bool>,
    pub push: Option<bool>,
    pub load: Option<bool>,
    pub tags: Vec<String>,
    pub platforms: Vec<String>,
}

/// A cache to read from or write to: as text such as `type=registry,ref=foo/bar`, or as a JSON
/// value.
#[derive(Debug)]
pub enum CacheEntry {
    String(String),
    Object(JsonDoc),
}

/// What a cache entry holds.
pub enum CacheEntryView {
    String(Seq<char>),
    Object(json::JsonDocView),
}

impl View for CacheEntry {
    type V = CacheEntryView;

    open spec fn view(&self) -> CacheEntryView {
        match self {
            CacheEntry::String(s) => CacheEntryView::String(s@),
            CacheEntry::Object(d) => CacheEntryView::Object(d@),
        }
    }
}

/// A group of targets.
pub struct BakeGroup {
    pub targets: Vec<String>,
}

/// The groups and targets of a bake file.
pub struct BakePrint {
    pub group: NameMap<BakeGroup>,
    pub target: NameMap<BakeTarget>,
}

impl BakePrint {
    /// The maps are well formed.
    pub open spec fn wf(&self) -> bool {
        self.group.wf() && self.target.wf()
    }
}

/// A member as `name=value`.
pub open spec fn pair_text(name: Seq<char>, value: json::JsonScalarView) -> Seq<char> {
    name + "="@ + json::bare(value)
}

/// The members but for `type`, each as `name=value`.
pub open spec fn other_pairs(members: Seq<(Seq<char>, json::JsonScalarView)>) -> Seq<Seq<char>>
    decreases members.len(),
{
    if members.len() == 0 {
        Seq::empty()
    } else {
        let before = other_pairs(members.drop_last());
        if members.last().0 == "type"@ {
            before
        } else {
            before.push(pair_text(members.last().0, members.last().1))
        }
    }
}

/// The pairs of an object: its `type` first, then the others in their order.
pub open spec fn cache_pairs(doc: json::JsonDocView) -> Seq<Seq<char>> {
    match doc {
        json::JsonDocView::Members(m) => match json::member(doc, "type"@) {
            Some(v) => seq!["type="@ + json::bare(v)] + other_pairs(m),
            None => other_pairs(m),
        },
        _ => Seq::empty(),
    }
}

/// A cache entry the way `--set` takes it.
pub open spec fn cache_arg(e: CacheEntryView) -> Seq<char> {
    match e {
        CacheEntryView::String(s) => s,
        CacheEntryView::Object(doc) => match doc {
            json::JsonDocView::Members(_) => text::join(cache_pairs(doc), ","@),
            json::JsonDocView::Text(s) => s,
            json::JsonDocView::Other(s) => s,
        },
    }
}

fn flatten_cache_object(doc: &JsonDoc) -> (r: String)
    ensures
        r@ == cache_arg(CacheEntryView::Object(doc@)),
{
    match doc {
        JsonDoc::Members(members) => {
            let ghost all = json::members_view(members@);
            let mut parts: Vec<String> = Vec::new();
            if let Some(ty) = doc.get("type") {
                add_text(&mut parts, "type=".to_string().concat(ty.to_bare().as_str()));
            }
            let ghost first = text::texts(parts@);
            let mut i: usize = 0;
            assert(first + other_pairs(all.take(0)) =~= first);
            while i < members.len()
                invariant
                    i <= members@.len(),
                    all == json::members_view(members@),
                    text::texts(parts@) == first + other_pairs(all.take(i as int)),
                decreases members@.len() - i,
            {
                proof {
                    assert(all.take(i + 1).drop_last() =~= all.take(i as int));
                    assert(all.take(i + 1).last() == (
                        members@[i as int].0@,
                        members@[i as int].1@,
                    ));
                }
                if !same_text(members[i].0.as_str(), "type") {
                    let pair = members[i].0.clone().concat("=").concat(
                        members[i].1.to_bare().as_str(),
                    );
                    add_text(&mut parts, pair);
                    assert(text::texts(parts@) =~= first + other_pairs(all.take(i + 1)));
                }
                i += 1;
            }
            assert(all.take(i as int) =~= all);
            assert(text::texts(parts@) =~= cache_pairs(doc@));
            joined(parts.as_slice(), ",")
        },
        JsonDoc::Text(s) => s.clone(),
        JsonDoc::Other(s) => s.clone(),
    }
}

/// The cache entry of a JSON document: a string is one as it stands.
pub open spec fn entry_of(doc: Option<json::JsonDocView>) -> Option<CacheEntryView> {
    match doc {
        Some(json::JsonDocView::Text(s)) => Some(CacheEntryView::String(s)),
        Some(d) => Some(CacheEntryView::Object(d)),
        None => None,
    }
}

/// What some cache entries hold.
pub open spec fn entry_views(entries: Seq<CacheEntry>) -> Seq<CacheEntryView> {
    entries.map_values(|e: CacheEntry| e@)
}

/// A copy of some cache entries.
pub fn copy_entries(entries: &[CacheEntry]) -> (r: Vec<CacheEntry>)
    ensures
        entry_views(r@) == entry_views(entries@),
{
    let ghost all = entry_views(entries@);
    let mut r: Vec<CacheEntry> = Vec::new();
    let mut i: usize = 0;
    assert(entry_views(r@) =~= all.take(0));
    while i < entries.len()
        invariant
            i <= entries@.len(),
            all == entry_views(entries@),
            entry_views(r@) == all.take(i as int),
        decreases entries@.len() - i,
    {
        let e = entries[i].copy();
        let ghost before = r@;
        r.push(e);
        assert(entry_views(r@) =~= entry_views(before).push(e@));
        assert(all.take(i + 1) =~= all.take(i as int).push(e@));
        i += 1;
    }
    assert(all.take(i as int) =~= all);
    r
}

impl CacheEntry {
    /// A copy of the entry.
    pub fn copy(&self) -> (r: CacheEntry)
        ensures
            r@ == self@,
    {
        match self {
            CacheEntry::String(s) => CacheEntry::String(s.clone()),
            CacheEntry::Object(doc) => CacheEntry::Object(doc.copy()),
        }
    }

    /// The cache entry of a JSON document: a string is one as it stands.
    pub fn from_doc(doc: JsonDoc) -> (r: CacheEntry)
        ensures
            entry_of(Some(doc@)) == Some(r@),
    {
        match doc {
            JsonDoc::Text(s) => CacheEntry::String(s),
            other => CacheEntry::Object(other),
        }
    }

    /// The cache entry that a JSON text holds, if the text is JSON.
    pub fn from_json(text: &str) -> (r: Option<CacheEntry>)
        ensures
            match r {
                Some(e) => entry_of(json::json_doc_of(text@)) == Some(e@),
                None => json::json_doc_of(text@) is None,
            },
    {
        match JsonDoc::parse(text) {
            Some(doc) => Some(CacheEntry::from_doc(doc)),
            None => None,
        }
    }

    /// The entry the way `--set target.cache-from=` takes it: pairs `name=value` with commas
    /// between them, `type` first. JSON text in that place would not be understood.
    pub fn to_arg(&self) -> (r: String)
        ensures
            r@ == cache_arg(self@),
    {
        match self {
            CacheEntry::String(s) => s.clone(),
            CacheEntry::Object(doc) => flatten_cache_object(doc),
        }
    }
}

/// The arguments of `docker` that print a bake file.
pub open spec fn print_command(
    file: Seq<char>,
    builder: Seq<char>,
    targets: Seq<Seq<char>>,
) -> Seq<Seq<char>> {
    seq!["buildx"@, "bake"@, "--builder"@, builder, "-f"@, file, "--print"@] + targets
}

/// The arguments of `docker` that print a bake file, for some targets or for the default group.
pub fn print_args(file: &str, builder: &str, targets: &[String]) -> (r: Vec<String>)
    ensures
        text::texts(r@) == print_command(file@, builder@, text::texts(targets@)),
{
    let mut r: Vec<String> = Vec::new();
    add_text(&mut r, "buildx".to_string());
    add_text(&mut r, "bake".to_string());
    add_text(&mut r, "--builder".to_string());
    add_text(&mut r, builder.to_string());
    add_text(&mut r, "-f".to_string());
    add_text(&mut r, file.to_string());
    add_text(&mut r, "--print".to_string());
    text::add_texts(&mut r, targets);
    assert(text::texts(r@) =~= print_command(file@, builder@, text::texts(targets@)));
    r
}

/// The error of a print that failed, with what it wrote.
pub fn print_failure(stderr: &str) -> (r: String)
    ensures
        r@ == "docker buildx bake --print failed: "@ + text::trim(stderr@),
{
    let chars = chars_of(stderr);
    "docker buildx bake --print failed: ".to_string().concat(
        string_of(trimmed(chars.as_slice())).as_str(),
    )
}

/// Whether a print holds every target asked for.
pub open spec fn covers_all(print: BakePrint, targets: Seq<Seq<char>>) -> bool {
    forall|i: int| 0 <= i < targets.len() ==> print.target@.contains_key(#[trigger] targets[i])
}

/// Whether a print holds every target asked for.
pub fn covers(print: &BakePrint, targets: &[String]) -> (r: bool)
    requires
        print.wf(),
    ensures
        r == covers_all(*print, text::texts(targets@)),
{
    let ghost all = text::texts(targets@);
    let mut i: usize = 0;
    while i < targets.len()
        invariant
            print.wf(),
            i <= targets@.len(),
            all == text::texts(targets@),
            forall|j: int| 0 <= j < i ==> print.target@.contains_key(#[trigger] all[j]),
        decreases targets@.len() - i,
    {
        assert(all[i as int] == targets@[i as int]@);
        if !print.target.contains_key(targets[i].as_str()) {
            return false;
        }
        i += 1;
    }
    true
}

/// The advice where a bake file has no default group and no targets were named.
pub open spec fn default_group_hint(file: Seq<char>) -> Seq<char> {
    file
        + " defines no `default` group and no targets were given.\nEither add `group \"default\" { targets = [...] }` to the file, or name the targets to build: docker dbake -f "@
        + file + " <target>..."@
}

/// The advice where a bake file has no default group and no targets were named.
pub fn no_default_group_hint(file: &str) -> (r: String)
    ensures
        r@ == default_group_hint(file@),
{
    file.to_string().concat(
        " defines no `default` group and no targets were given.\nEither add `group \"default\" { targets = [...] }` to the file, or name the targets to build: docker dbake -f ",
    ).concat(file).concat(" <target>...")
}

/// A print that can be used, with a warning to print where it is not what was asked for.
pub struct Resolved {
    pub print: BakePrint,
    pub warning: Option<String>,
}

/// Why a bake file could not be resolved.
#[derive(Debug, Clone, PartialEq, Eq)]
pub enum ResolveError {
    /// Neither the default group nor the targets asked for could be printed.
    Both { first: String, retry: String },
    /// There is no default group, and no targets were asked for.
    NoDefaultGroup { hint: String, cause: String },
}

/// What an error says.
pub enum ResolveErrorView {
    Both { first: Seq<char>, retry: Seq<char> },
    NoDefaultGroup { hint: Seq<char>, cause: Seq<char> },
}

impl View for ResolveError {
    type V = ResolveErrorView;

    open spec fn view(&self) -> ResolveErrorView {
        match self {
            ResolveError::Both { first, retry } => ResolveErrorView::Both {
                first: first@,
                retry: retry@,
            },
            ResolveError::NoDefaultGroup { hint, cause } => ResolveErrorView::NoDefaultGroup {
                hint: hint@,
                cause: cause@,
            },
        }
    }
}

/// The text of an error, with its causes.
pub open spec fn resolve_error_text(e: ResolveErrorView) -> Seq<char> {
    match e {
        ResolveErrorView::Both { first, retry } => "target-less print also failed: "@ + first + ": "@
            + retry,
        ResolveErrorView::NoDefaultGroup { hint, cause } => hint + ": "@ + cause,
    }
}

impl ResolveError {
    /// The text of the error, with its causes.
    pub fn message(&self) -> (r: String)
        ensures
            r@ == resolve_error_text(self@),
    {
        match self {
            ResolveError::Both { first, retry } => {
                "target-less print also failed: ".to_string().concat(first.as_str()).concat(
                    ": ",
                ).concat(retry.as_str())
            },
            ResolveError::NoDefaultGroup { hint, cause } => {
                hint.clone().concat(": ").concat(cause.as_str())
            },
        }
    }
}

/// Whether the print of the default group is not enough, and the targets asked for have to be
/// printed by name.
pub open spec fn retries(first: Result<BakePrint, String>, targets: Seq<Seq<char>>) -> bool {
    targets.len() > 0 && !(first matches Ok(p) && covers_all(p, targets))
}

/// The warning that the targets asked for could not be printed by name.
pub open spec fn retry_warning(targets: Seq<Seq<char>>, error: Seq<char>) -> Seq<char> {
    "warning: buildx could not resolve ["@ + text::join(targets, ", "@) + "] directly ("@ + error
        + "); continuing with the targets it did resolve"@
}

/// What comes of the prints: of the default group, and of the targets where that is not enough.
pub open spec fn resolution(
    file: Seq<char>,
    targets: Seq<Seq<char>>,
    first: Result<BakePrint, String>,
    retry: Option<Result<BakePrint, String>>,
    r: Result<Resolved, ResolveError>,
) -> bool {
    match (retry, first) {
        (Some(Ok(p)), _) => r matches Ok(o) && o.print == p && o.warning is None,
        (Some(Err(e)), Err(f)) => r matches Err(x) && x@ == (ResolveErrorView::Both {
            first: f@,
            retry: e@,
        }),
        (Some(Err(e)), Ok(p)) => r matches Ok(o) && o.print == p && (o.warning matches Some(w)
            && w@ == retry_warning(targets, e@)),
        (None, Ok(p)) => r matches Ok(o) && o.print == p && o.warning is None,
        (None, Err(f)) => r matches Err(x) && x@ == (ResolveErrorView::NoDefaultGroup {
            hint: default_group_hint(file),
            cause: f@,
        }),
    }
}

/// Whether the print of the default group is not enough: it failed, or some target asked for is
/// not in it.
pub fn needs_retry(first: &Result<BakePrint, String>, targets: &[String]) -> (r: bool)
    requires
        first matches Ok(p) ==> p.wf(),
    ensures
        r == retries(*first, text::texts(targets@)),
{
    if targets.len() == 0 {
        return false;
    }
    match first {
        Ok(print) => !covers(print, targets),
        Err(_) => true,
    }
}

/// What to go on with after the prints. Where the targets cannot be printed by name but the
/// default group can, that one is used: the choice of targets then says what is wrong with a
/// name. The error is not lost: it may be about something else.
pub fn settle_print(
    file: &str,
    targets: &[String],
    first: Result<BakePrint, String>,
    retry: Option<Result<BakePrint, String>>,
) -> (r: Result<Resolved, ResolveError>)
    ensures
        resolution(file@, text::texts(targets@), first, retry, r),
{
    match (retry, first) {
        (Some(Ok(print)), _) => Ok(Resolved { print, warning: None }),
        (Some(Err(retry)), Err(first)) => Err(ResolveError::Both { first, retry }),
        (Some(Err(error)), Ok(print)) => {
            let list = joined(targets, ", ");
            let warning = "warning: buildx could not resolve [".to_string().concat(
                list.as_str(),
            ).concat("] directly (").concat(error.as_str()).concat(
                "); continuing with the targets it did resolve",
            );
            Ok(Resolved { print, warning: Some(warning) })
        },
        (None, Ok(print)) => Ok(Resolved { print, warning: None }),
        (None, Err(cause)) => Err(
            ResolveError::NoDefaultGroup { hint: no_default_group_hint(file), cause },
        ),
    }
}

/// Whether the prints went the way that leads to `r`: the default group first, and the targets
/// by name only where that is not enough.
pub open spec fn printed_with<F: Fn(&[String]) -> Result<BakePrint, String>>(
    targets: &[String],
    run: F,
    file: Seq<char>,
    r: Result<Resolved, ResolveError>,
    first: Result<BakePrint, String>,
    retry: Option<Result<BakePrint, String>>,
) -> bool {
    &&& exists|none: &[String]| none@.len() == 0 && #[trigger] call_ensures(run, (none,), first)
    &&& retry is Some <==> retries(first, text::texts(targets@))
    &&& retry matches Some(second) ==> call_ensures(run, (targets,), second)
    &&& resolution(file, text::texts(targets@), first, retry, r)
}

/// Resolves a bake file: prints the default group and, where that is not enough, the targets
/// asked for. The default group may be missing, or may not hold every target.
pub fn bake_print_with<F: Fn(&[String]) -> Result<BakePrint, String>>(
    targets: &[String],
    run: F,
    file: &str,
) -> (r: Result<Resolved, ResolveError>)
    requires
        forall|t: &[String]| #[trigger] call_requires(run, (t,)),
        forall|t: &[String], p: Result<BakePrint, String>| #[trigger]
            call_ensures(run, (t,), p) ==> (p matches Ok(print) ==> print.wf()),
    ensures
        exists|first: Result<BakePrint, String>, retry: Option<Result<BakePrint, String>>|
            #[trigger] printed_with(targets, run, file@, r, first, retry),
{
    let none: &[String] = &[];
    let first = run(none);
    let retry = if needs_retry(&first, targets) {
        Some(run(targets))
    } else {
        None
    };
    let ghost first_was = first;
    let ghost retry_was = retry;
    let r = settle_print(file, targets, first, retry);
    assert(printed_with(targets, run, file@, r, first_was, retry_was));
    r
}

/// What a compose service depends on: a list of services, or services with conditions.
pub enum DependsOn {
    List(Vec<String>),
    Conditions(Vec<String>),
}

/// The services that are named.
pub open spec fn named(d: Option<DependsOn>) -> Seq<Seq<char>> {
    match d {
        None => Seq::empty(),
        Some(DependsOn::List(v)) => text::texts(v@),
        Some(DependsOn::Conditions(v)) => text::texts(v@),
    }
}

/// The dependencies of the services that state any.
pub open spec fn compose_dependencies(
    services: Map<Seq<char>, Option<DependsOn>>,
) -> Map<Seq<char>, Seq<Seq<char>>> {
    Map::new(
        |s: Seq<char>| services.contains_key(s) && named(services[s]).len() > 0,
        |s: Seq<char>| named(services[s]),
    )
}

fn named_services(d: &Option<DependsOn>) -> (r: Vec<String>)
    ensures
        text::texts(r@) == named(*d),
{
    match d {
        None => {
            let r: Vec<String> = Vec::new();
            assert(text::texts(r@) =~= Seq::empty());
            r
        },
        Some(DependsOn::List(v)) => copy_texts(v.as_slice()),
        Some(DependsOn::Conditions(v)) => copy_texts(v.as_slice()),
    }
}

/// The dependencies of the services of a compose file; a service that states none is left out.
pub fn compose_depends_on(services: &NameMap<Option<DependsOn>>) -> (r: NameMap<Vec<String>>)
    requires
        services.wf(),
    ensures
        r.wf(),
        names::lists_of(r@) == compose_dependencies(services@),
{
    let ghost keys = services.key_list();
    let mut r: NameMap<Vec<String>> = NameMap::new();
    let mut i: usize = 0;
    assert(names::lists_of(r@) =~= Map::empty());
    while i < services.len()
        invariant
            services.wf(),
            r.wf(),
            keys == services.key_list(),
            i <= keys.len(),
            forall|s: Seq<char>| #[trigger]
                r@.contains_key(s) <==> keys.take(i as int).contains(s) && named(services@[s]).len()
                    > 0,
            forall|s: Seq<char>|
                r@.contains_key(s) ==> #[trigger] names::lists_of(r@)[s] == named(services@[s]),
        decreases keys.len() - i,
    {
        let name = services.key_at(i);
        let list = named_services(services.value_at(i));
        let ghost before = r@;
        proof {
            names::lemma_take_contains(keys, i as int);
            services.lemma_keys();
        }
        if list.len() > 0 {
            let ghost stated = text::texts(list@);
            r.insert(name.clone(), list);
            proof {
                assert(names::lists_of(r@) =~= names::lists_of(before).insert(name@, stated));
                assert forall|s: Seq<char>| r@.contains_key(s) implies #[trigger] names::lists_of(
                    r@,
                )[s] == named(services@[s]) by {
                    if s != name@ {
                        assert(names::lists_of(before)[s] == named(services@[s]));
                    }
                }
            }
        } else {
            assert(text::texts(list@).len() == 0);
        }
        i += 1;
    }
    proof {
        services.lemma_keys();
        assert(keys.take(i as int) =~= keys);
        assert(names::lists_of(r@) =~= compose_dependencies(services@));
    }
    r
}

}

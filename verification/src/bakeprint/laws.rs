//! What is made of caches, prints and services.
use super::{
    BakePrint, CacheEntryView, DependsOn, ResolveError, ResolveErrorView, Resolved,
};
use crate::json;
use crate::json::{JsonDocView, JsonScalarView};
use crate::text;
use vstd::prelude::*;

verus! {

/// What joining adds for one more piece.
proof fn lemma_join_push(parts: Seq<Seq<char>>, sep: Seq<char>, x: Seq<char>)
    requires
        parts.len() > 0,
    ensures
        text::join(parts.push(x), sep) == text::join(parts, sep) + sep + x,
{
    assert(parts.push(x).drop_last() =~= parts);
}

/// What joining adds for one more piece in front.
proof fn lemma_join_front(x: Seq<char>, parts: Seq<Seq<char>>, sep: Seq<char>)
    ensures
        text::join(seq![x] + parts, sep) == if parts.len() == 0 {
            x
        } else {
            x + sep + text::join(parts, sep)
        },
    decreases parts.len(),
{
    if parts.len() == 0 {
        assert(seq![x] + parts =~= seq![x]);
    } else {
        let short = parts.drop_last();
        lemma_join_front(x, short, sep);
        assert((seq![x] + parts).drop_last() =~= seq![x] + short);
        if parts.len() == 1 {
            assert(short.len() == 0);
            assert(parts[0] == parts.last());
        } else {
            assert(x + sep + text::join(short, sep) + sep + parts.last() =~= x + sep + (text::join(
                short,
                sep,
            ) + sep + parts.last()));
        }
    }
}

proof fn lemma_no_member(m: Seq<(Seq<char>, JsonScalarView)>, name: Seq<char>)
    requires
        forall|j: int| 0 <= j < m.len() ==> (#[trigger] m[j]).0 != name,
    ensures
        json::member(JsonDocView::Members(m), name) is None,
{
    json::law_first_member_counts(m, name, m.len() as int);
}

/// A cache that the bake file gives as text is passed on as it stands.
pub proof fn law_cache_texts_stand(s: Seq<char>)
    ensures
        super::cache_arg(CacheEntryView::String(s)) == s,
        super::cache_arg(CacheEntryView::Object(JsonDocView::Text(s))) == s,
{
}

/// Each member of a cache that the bake file gives as an object adds its name and value, behind a
/// comma where something stands before it.
pub proof fn law_cache_members_are_added(
    m: Seq<(Seq<char>, JsonScalarView)>,
    name: Seq<char>,
    value: JsonScalarView,
)
    requires
        name != "type"@,
        m.len() > 0,
    ensures
        super::cache_arg(CacheEntryView::Object(JsonDocView::Members(m.push((name, value)))))
            == super::cache_arg(CacheEntryView::Object(JsonDocView::Members(m))) + ","@ + name + "="@
            + json::bare(value),
{
    let more = m.push((name, value));
    let doc = JsonDocView::Members(m);
    let doc_more = JsonDocView::Members(more);
    assert(more.drop_last() =~= m);
    assert(super::other_pairs(more) == super::other_pairs(m).push(super::pair_text(name, value)));
    lemma_same_type(m, name, value);
    let pairs = super::cache_pairs(doc);
    assert(super::cache_pairs(doc_more) =~= pairs.push(super::pair_text(name, value)));
    lemma_pairs_not_empty(m);
    lemma_join_push(pairs, ","@, super::pair_text(name, value));
    let arg = text::join(pairs, ","@);
    assert(arg + ","@ + super::pair_text(name, value) =~= arg + ","@ + name + "="@ + json::bare(
        value,
    ));
}

proof fn lemma_same_type(
    m: Seq<(Seq<char>, JsonScalarView)>,
    name: Seq<char>,
    value: JsonScalarView,
)
    requires
        name != "type"@,
    ensures
        json::member(JsonDocView::Members(m.push((name, value))), "type"@) == json::member(
            JsonDocView::Members(m),
            "type"@,
        ),
{
    let more = m.push((name, value));
    if exists|i: int| 0 <= i < m.len() && (#[trigger] m[i]).0 == "type"@ {
        let i = lemma_first_type(m);
        assert(more[i] == m[i]);
        assert forall|j: int| 0 <= j < i implies (#[trigger] more[j]).0 != "type"@ by {
            assert(more[j] == m[j]);
        }
        json::law_first_member_counts(m, "type"@, i);
        json::law_first_member_counts(more, "type"@, i);
    } else {
        assert forall|j: int| 0 <= j < more.len() implies (#[trigger] more[j]).0 != "type"@ by {
            if j < m.len() {
                assert(more[j] == m[j]);
            }
        }
        lemma_no_member(m, "type"@);
        lemma_no_member(more, "type"@);
    }
}

proof fn lemma_first_type(m: Seq<(Seq<char>, JsonScalarView)>) -> (i: int)
    requires
        exists|i: int| 0 <= i < m.len() && (#[trigger] m[i]).0 == "type"@,
    ensures
        0 <= i < m.len(),
        m[i].0 == "type"@,
        forall|j: int| 0 <= j < i ==> (#[trigger] m[j]).0 != "type"@,
    decreases m.len(),
{
    let short = m.drop_last();
    if exists|i: int| 0 <= i < short.len() && (#[trigger] short[i]).0 == "type"@ {
        let i = lemma_first_type(short);
        assert(m[i] == short[i]);
        assert forall|j: int| 0 <= j < i implies (#[trigger] m[j]).0 != "type"@ by {
            assert(m[j] == short[j]);
        }
        i
    } else {
        let i: int = choose|i: int| 0 <= i < m.len() && (#[trigger] m[i]).0 == "type"@;
        if i < short.len() {
            assert(short[i].0 == "type"@);
        }
        assert forall|j: int| 0 <= j < i implies (#[trigger] m[j]).0 != "type"@ by {
            assert(short[j] == m[j]);
        }
        i
    }
}

proof fn lemma_pairs_not_empty(m: Seq<(Seq<char>, JsonScalarView)>)
    requires
        m.len() > 0,
    ensures
        super::cache_pairs(JsonDocView::Members(m)).len() > 0,
{
    if m.last().0 == "type"@ {
        assert(m[m.len() - 1].0 == "type"@);
        let i = lemma_first_type(m);
        json::law_first_member_counts(m, "type"@, i);
    }
}

/// The type of a cache comes first, wherever the object has it, and the others follow in their
/// order.
pub proof fn law_cache_type_comes_first(
    m: Seq<(Seq<char>, JsonScalarView)>,
    value: JsonScalarView,
)
    requires
        forall|j: int| 0 <= j < m.len() ==> (#[trigger] m[j]).0 != "type"@,
    ensures
        ({
            let own = "type="@ + json::bare(value);
            let rest = super::cache_arg(CacheEntryView::Object(JsonDocView::Members(m)));
            super::cache_arg(
                CacheEntryView::Object(JsonDocView::Members(m.push(("type"@, value)))),
            ) == if m.len() == 0 {
                own
            } else {
                own + ","@ + rest
            }
        }),
{
    let more = m.push(("type"@, value));
    let own = "type="@ + json::bare(value);
    assert(more.drop_last() =~= m);
    assert forall|j: int| 0 <= j < m.len() implies (#[trigger] more[j]).0 != "type"@ by {
        assert(more[j] == m[j]);
    }
    json::law_first_member_counts(more, "type"@, m.len() as int);
    lemma_no_member(m, "type"@);
    lemma_other_pairs_len(m);
    lemma_join_front(own, super::other_pairs(m), ","@);
    assert(super::other_pairs(more) == super::other_pairs(m));
}

proof fn lemma_other_pairs_len(m: Seq<(Seq<char>, JsonScalarView)>)
    requires
        forall|j: int| 0 <= j < m.len() ==> (#[trigger] m[j]).0 != "type"@,
    ensures
        super::other_pairs(m).len() == m.len(),
    decreases m.len(),
{
    if m.len() > 0 {
        let short = m.drop_last();
        assert(m[m.len() - 1].0 != "type"@);
        assert forall|j: int| 0 <= j < short.len() implies (#[trigger] short[j]).0 != "type"@ by {
            assert(short[j] == m[j]);
        }
        lemma_other_pairs_len(short);
    }
}

/// A cache object of one member is that member.
pub proof fn law_single_cache_member(name: Seq<char>, value: JsonScalarView)
    ensures
        super::cache_arg(
            CacheEntryView::Object(JsonDocView::Members(seq![(name, value)])),
        ) == name + "="@ + json::bare(value),
{
    let m = seq![(name, value)];
    if name == "type"@ {
        reveal_strlit("type");
        reveal_strlit("type=");
        reveal_strlit("=");
        assert("type"@ + "="@ =~= "type="@);
        law_cache_type_comes_first(Seq::empty(), value);
        assert(Seq::<(Seq<char>, JsonScalarView)>::empty().push(("type"@, value)) =~= m);
    } else {
        assert forall|j: int| 0 <= j < m.len() implies (#[trigger] m[j]).0 != "type"@ by {}
        lemma_no_member(m, "type"@);
        assert(m.drop_last() =~= Seq::<(Seq<char>, JsonScalarView)>::empty());
        assert(super::other_pairs(m.drop_last()) =~= Seq::<Seq<char>>::empty());
        assert(super::other_pairs(m) =~= seq![super::pair_text(name, value)]);
    }
}

/// The targets asked for are printed by name where the default group cannot be printed or lacks
/// one of them, and only there.
pub proof fn law_missing_targets_are_printed_by_name(
    first: Result<BakePrint, String>,
    targets: Seq<Seq<char>>,
    t: Seq<char>,
)
    ensures
        targets.len() == 0 ==> !super::retries(first, targets),
        targets.len() > 0 && first is Err ==> super::retries(first, targets),
        targets.contains(t) && (first matches Ok(p) && !p.target@.contains_key(t))
            ==> super::retries(first, targets),
        (first matches Ok(p) && forall|x: Seq<char>| #[trigger]
            targets.contains(x) ==> p.target@.contains_key(x)) ==> !super::retries(first, targets),
{
    if targets.contains(t) {
        let i: int = choose|i: int| 0 <= i < targets.len() && targets[i] == t;
        assert(targets[i] == t);
    }
    if first is Ok && forall|x: Seq<char>| #[trigger]
        targets.contains(x) ==> (first->Ok_0).target@.contains_key(x) {
        assert forall|i: int| 0 <= i < targets.len() implies (
        first->Ok_0).target@.contains_key(#[trigger] targets[i]) by {
            assert(targets.contains(targets[i]));
        }
    }
}

/// What is gone on with is the print of the targets by name, where that was made and succeeded, and
/// the default group otherwise: with a warning where the names could not be printed, so that the
/// error is not lost. Where nothing was printed all errors are given.
pub proof fn law_prints_are_gone_on_with(
    file: Seq<char>,
    targets: Seq<Seq<char>>,
    first: Result<BakePrint, String>,
    retry: Option<Result<BakePrint, String>>,
    r: Result<Resolved, ResolveError>,
    i: int,
)
    requires
        super::resolution(file, targets, first, retry, r),
    ensures
        r is Ok <==> (first is Ok || (retry matches Some(x) && x is Ok)),
        r matches Ok(o) ==> {
            &&& retry matches Some(Ok(p)) ==> o.print == p && o.warning is None
            &&& !(retry matches Some(Ok(_))) ==> Ok::<BakePrint, String>(o.print) == first
            &&& o.warning is Some <==> (retry matches Some(x) && x is Err)
            &&& o.warning matches Some(w) ==> {
                &&& retry matches Some(Err(e)) ==> text::occurs(w@, e@)
                &&& 0 <= i < targets.len() ==> text::occurs(w@, targets[i])
            }
        },
        r matches Err(x) ==> {
            &&& first matches Err(f) ==> text::occurs(super::resolve_error_text(x@), f@)
            &&& retry matches Some(Err(e)) ==> text::occurs(super::resolve_error_text(x@), e@)
            &&& retry is None ==> text::occurs(super::resolve_error_text(x@), file)
        },
{
    match (retry, first) {
        (Some(Err(e)), Ok(p)) => {
            let a = "warning: buildx could not resolve ["@;
            let names = text::join(targets, ", "@);
            let b = "] directly ("@;
            let c = "); continuing with the targets it did resolve"@;
            let w = super::retry_warning(targets, e@);
            text::lemma_occurs_between(a + names + b, e@, c);
            if 0 <= i < targets.len() {
                text::lemma_join_holds(targets, ", "@, i);
                text::lemma_occurs_later(a, names, targets[i]);
                text::lemma_occurs_earlier(a + names, b + e@ + c, targets[i]);
                assert(a + names + (b + e@ + c) =~= w);
            }
        },
        (Some(Err(e)), Err(f)) => {
            let a = "target-less print also failed: "@;
            text::lemma_occurs_between(a, f@, ": "@ + e@);
            assert(a + f@ + (": "@ + e@) =~= a + f@ + ": "@ + e@);
            text::lemma_occurs_between(a + f@ + ": "@, e@, Seq::empty());
            assert(a + f@ + ": "@ + e@ + Seq::<char>::empty() =~= a + f@ + ": "@ + e@);
        },
        (None, Err(f)) => {
            let hint = super::default_group_hint(file);
            text::lemma_occurs_between(hint + ": "@, f@, Seq::empty());
            assert(hint + ": "@ + f@ + Seq::<char>::empty() =~= hint + ": "@ + f@);
            let rest = hint.skip(file.len() as int);
            assert(hint =~= Seq::<char>::empty() + file + rest);
            text::lemma_occurs_between(Seq::empty(), file, rest);
            text::lemma_occurs_earlier(hint, ": "@ + f@, file);
            assert(hint + (": "@ + f@) =~= hint + ": "@ + f@);
        },
        _ => {},
    }
}

/// A service depends on what it names, in either form; one that names nothing is left out.
pub proof fn law_services_depend_on_what_they_name(
    services: Map<Seq<char>, Option<DependsOn>>,
    s: Seq<char>,
    list: Vec<String>,
)
    requires
        services.contains_key(s),
    ensures
        services[s] == Some(DependsOn::List(list)) || services[s] == Some(
            DependsOn::Conditions(list),
        ) ==> crate::names::list_for(super::compose_dependencies(services), s) == text::texts(
            list@,
        ),
        services[s] is None ==> !super::compose_dependencies(services).contains_key(s),
        super::compose_dependencies(services).contains_key(s)
            ==> super::compose_dependencies(services)[s].len() > 0,
{
    if services[s] == Some(DependsOn::List(list)) || services[s] == Some(
        DependsOn::Conditions(list),
    ) {
        if text::texts(list@).len() == 0 {
            assert(text::texts(list@) =~= Seq::<Seq<char>>::empty());
        }
    }
}

/// A bake file is printed with the builder and the file that were given, for the targets that are
/// named, in their order, and for nothing else.
pub proof fn law_print_names_the_targets(
    file: Seq<char>,
    builder: Seq<char>,
    targets: Seq<Seq<char>>,
    i: int,
)
    ensures
        ({
            let c = super::print_command(file, builder, targets);
            &&& c.len() == 7 + targets.len()
            &&& c[0] == "buildx"@ && c[1] == "bake"@ && c[6] == "--print"@
            &&& c[2] == "--builder"@ && c[3] == builder
            &&& c[4] == "-f"@ && c[5] == file
            &&& 0 <= i < targets.len() ==> c[7 + i] == targets[i]
        }),
{
}

/// A cache entry of a JSON string is that text, and of any other document that document.
pub proof fn law_entries_keep_their_document(s: Seq<char>, doc: JsonDocView)
    ensures
        super::entry_of(Some(JsonDocView::Text(s))) == Some(CacheEntryView::String(s)),
        !(doc is Text) ==> super::entry_of(Some(doc)) == Some(CacheEntryView::Object(doc)),
        super::entry_of(None) is None,
        super::entry_of(Some(doc)) matches Some(e) && super::cache_arg(e) == super::cache_arg(
            CacheEntryView::Object(doc),
        ),
{
}

/// A value in a cache entry stands without quotes, whatever it is.
pub proof fn law_values_stand_bare(s: Seq<char>)
    ensures
        json::bare(JsonScalarView::Text(s)) == s,
        json::bare(JsonScalarView::Object(s)) == s,
        json::bare(JsonScalarView::Other(s)) == s,
{
}

}

//! JSON documents, as far as their top level matters.
use crate::text::same_text;
use vstd::prelude::*;

verus! {

/// A member's value: a string, or what it is and its JSON text.
#[derive(Debug)]
pub enum JsonScalar {
    /// A string.
    Text(String),
    /// An object, as JSON text.
    Object(String),
    /// Anything else, as JSON text.
    Other(String),
}

/// A JSON document: a string, an object's members, or anything else.
#[derive(Debug)]
pub enum JsonDoc {
    /// A string.
    Text(String),
    /// The members of an object.
    Members(Vec<(String, JsonScalar)>),
    /// Anything else, as JSON text.
    Other(String),
}

/// What a member's value holds.
pub enum JsonScalarView {
    Text(Seq<char>),
    Object(Seq<char>),
    Other(Seq<char>),
}

/// What a document holds.
pub enum JsonDocView {
    Text(Seq<char>),
    Members(Seq<(Seq<char>, JsonScalarView)>),
    Other(Seq<char>),
}

impl View for JsonScalar {
    type V = JsonScalarView;

    open spec fn view(&self) -> JsonScalarView {
        match self {
            JsonScalar::Text(s) => JsonScalarView::Text(s@),
            JsonScalar::Object(s) => JsonScalarView::Object(s@),
            JsonScalar::Other(s) => JsonScalarView::Other(s@),
        }
    }
}

/// What a list of members holds.
pub open spec fn members_view(
    members: Seq<(String, JsonScalar)>,
) -> Seq<(Seq<char>, JsonScalarView)> {
    members.map_values(|m: (String, JsonScalar)| (m.0@, m.1@))
}

impl View for JsonDoc {
    type V = JsonDocView;

    open spec fn view(&self) -> JsonDocView {
        match self {
            JsonDoc::Text(s) => JsonDocView::Text(s@),
            JsonDoc::Members(m) => JsonDocView::Members(members_view(m@)),
            JsonDoc::Other(s) => JsonDocView::Other(s@),
        }
    }
}

/// What a possible document holds.
pub open spec fn doc_view(d: Option<JsonDoc>) -> Option<JsonDocView> {
    match d {
        Some(doc) => Some(doc@),
        None => None,
    }
}

/// The document that `serde_json` reads from a text, if the text is JSON.
pub uninterp spec fn json_doc_of(text: Seq<char>) -> Option<JsonDocView>;

/// Calls `serde_json::from_str` for a `serde_json::Value` and takes its top level apart. The
/// contract names the outcome, and claims only that it depends on the text alone; values other
/// than strings are carried as the JSON text that `Value` displays.
#[verifier::external_body]
fn read_json(text: &str) -> (r: Option<JsonDoc>)
    ensures
        doc_view(r) == json_doc_of(text@),
{
    let scalar = |value: serde_json::Value| match value {
        serde_json::Value::String(s) => JsonScalar::Text(s),
        serde_json::Value::Object(m) => JsonScalar::Object(serde_json::Value::Object(m).to_string()),
        other => JsonScalar::Other(other.to_string()),
    };
    match serde_json::from_str::<serde_json::Value>(text) {
        Ok(serde_json::Value::String(s)) => Some(JsonDoc::Text(s)),
        Ok(serde_json::Value::Object(map)) => Some(
            JsonDoc::Members(map.into_iter().map(|(name, value)| (name, scalar(value))).collect()),
        ),
        Ok(other) => Some(JsonDoc::Other(other.to_string())),
        Err(_) => None,
    }
}

/// The place of the first member of a name; the number of members where there is none.
pub open spec fn member_index(
    members: Seq<(Seq<char>, JsonScalarView)>,
    name: Seq<char>,
) -> nat
    decreases members.len(),
{
    if members.len() == 0 || members[0].0 == name {
        0
    } else {
        1 + member_index(members.skip(1), name)
    }
}

/// The value of a member.
pub open spec fn member(doc: JsonDocView, name: Seq<char>) -> Option<JsonScalarView> {
    match doc {
        JsonDocView::Members(m) => {
            let i = member_index(m, name) as int;
            if i < m.len() {
                Some(m[i].1)
            } else {
                None
            }
        },
        _ => None,
    }
}

proof fn lemma_member_index(members: Seq<(Seq<char>, JsonScalarView)>, name: Seq<char>, at: int)
    requires
        0 <= at <= members.len(),
        forall|j: int| 0 <= j < at ==> (#[trigger] members[j]).0 != name,
        at < members.len() ==> members[at].0 == name,
    ensures
        member_index(members, name) == at,
    decreases members.len(),
{
    if at > 0 {
        assert(members[0].0 != name);
        assert forall|j: int| 0 <= j < at - 1 implies (#[trigger] members.skip(1)[j]).0 != name by {
            assert(members.skip(1)[j] == members[j + 1]);
        }
        lemma_member_index(members.skip(1), name, at - 1);
    }
}

impl JsonDoc {
    /// The document that a text holds, if it is JSON.
    pub fn parse(text: &str) -> (r: Option<JsonDoc>)
        ensures
            doc_view(r) == json_doc_of(text@),
    {
        read_json(text)
    }

    /// A copy of the document.
    pub fn copy(&self) -> (r: JsonDoc)
        ensures
            r@ == self@,
    {
        match self {
            JsonDoc::Text(s) => JsonDoc::Text(s.clone()),
            JsonDoc::Other(s) => JsonDoc::Other(s.clone()),
            JsonDoc::Members(members) => {
                let ghost all = members_view(members@);
                let mut r: Vec<(String, JsonScalar)> = Vec::new();
                let mut i: usize = 0;
                while i < members.len()
                    invariant
                        i <= members@.len(),
                        all == members_view(members@),
                        members_view(r@) == all.take(i as int),
                    decreases members@.len() - i,
                {
                    let m = (members[i].0.clone(), members[i].1.copy());
                    let ghost before = r@;
                    r.push(m);
                    assert(members_view(r@) =~= members_view(before).push((m.0@, m.1@)));
                    assert(all.take(i + 1) =~= all.take(i as int).push((m.0@, m.1@)));
                    i += 1;
                }
                assert(all.take(i as int) =~= all);
                JsonDoc::Members(r)
            },
        }
    }

    /// The value of a member, if the document is an object that has it.
    pub fn get(&self, name: &str) -> (r: Option<&JsonScalar>)
        ensures
            match r {
                Some(v) => member(self@, name@) == Some(v@),
                None => member(self@, name@) is None,
            },
    {
        match self {
            JsonDoc::Members(members) => {
                let ghost all = members_view(members@);
                let mut i: usize = 0;
                while i < members.len()
                    invariant
                        i <= members@.len(),
                        all == members_view(members@),
                        self@ == JsonDocView::Members(all),
                        forall|j: int| 0 <= j < i ==> (#[trigger] all[j]).0 != name@,
                    decreases members@.len() - i,
                {
                    assert(all[i as int] == (members@[i as int].0@, members@[i as int].1@));
                    if same_text(members[i].0.as_str(), name) {
                        proof {
                            lemma_member_index(all, name@, i as int);
                        }
                        return Some(&members[i].1);
                    }
                    i += 1;
                }
                proof {
                    lemma_member_index(all, name@, i as int);
                }
                None
            },
            _ => None,
        }
    }
}

/// A value without JSON quoting: a string as it is, anything else as JSON text.
pub open spec fn bare(v: JsonScalarView) -> Seq<char> {
    match v {
        JsonScalarView::Text(s) => s,
        JsonScalarView::Object(s) => s,
        JsonScalarView::Other(s) => s,
    }
}

impl JsonScalar {
    /// A copy of the value.
    pub fn copy(&self) -> (r: JsonScalar)
        ensures
            r@ == self@,
    {
        match self {
            JsonScalar::Text(s) => JsonScalar::Text(s.clone()),
            JsonScalar::Object(s) => JsonScalar::Object(s.clone()),
            JsonScalar::Other(s) => JsonScalar::Other(s.clone()),
        }
    }

    /// The value without JSON quoting: a string as it is, anything else as JSON text.
    pub fn to_bare(&self) -> (r: String)
        ensures
            r@ == bare(self@),
    {
        match self {
            JsonScalar::Text(s) => s.clone(),
            JsonScalar::Object(s) => s.clone(),
            JsonScalar::Other(s) => s.clone(),
        }
    }
}

/// Whether a document has a top-level `target` object, as a bake file has.
pub open spec fn declares_targets(doc: JsonDocView) -> bool {
    member(doc, "target"@) matches Some(v) && v is Object
}

/// Whether a document has a top-level `target` object, as a bake file has.
pub fn is_bake_document(doc: &JsonDoc) -> (r: bool)
    ensures
        r == declares_targets(doc@),
{
    match doc.get("target") {
        Some(JsonScalar::Object(_)) => true,
        _ => false,
    }
}

/// Whether a text is JSON with a top-level `target` object.
pub open spec fn json_bake_text(text: Seq<char>) -> bool {
    json_doc_of(text) matches Some(doc) && declares_targets(doc)
}

/// Whether a text is a JSON bake file: JSON with a top-level `target` object.
pub fn is_json_bake_file(contents: &str) -> (r: bool)
    ensures
        r == json_bake_text(contents@),
{
    match JsonDoc::parse(contents) {
        Some(doc) => is_bake_document(&doc),
        None => false,
    }
}

/// Of the members of a name the first counts; a document without one, or that is no object, has
/// none.
pub proof fn law_first_member_counts(
    members: Seq<(Seq<char>, JsonScalarView)>,
    name: Seq<char>,
    i: int,
)
    requires
        0 <= i <= members.len(),
        forall|j: int| 0 <= j < i ==> (#[trigger] members[j]).0 != name,
        i < members.len() ==> members[i].0 == name,
    ensures
        i < members.len() ==> member(JsonDocView::Members(members), name) == Some(members[i].1),
        i == members.len() ==> member(JsonDocView::Members(members), name) is None,
{
    lemma_member_index(members, name, i);
}

/// A document is a bake file where its first `target` is an object; a text or a number under that
/// name is not enough, and neither is a document that is no object.
pub proof fn law_bake_files_declare_targets(doc: JsonDocView, i: int)
    ensures
        !(doc is Members) ==> !declares_targets(doc),
        doc is Members && 0 <= i < doc->Members_0.len() && doc->Members_0[i].0 == "target"@ && (
        forall|j: int| 0 <= j < i ==> (#[trigger] doc->Members_0[j]).0 != "target"@) ==> (
        declares_targets(doc) <==> doc->Members_0[i].1 is Object),
        doc is Members && (forall|j: int|
            0 <= j < doc->Members_0.len() ==> (#[trigger] doc->Members_0[j]).0 != "target"@)
            ==> !declares_targets(doc),
{
    if doc is Members {
        let m = doc->Members_0;
        if 0 <= i < m.len() && m[i].0 == "target"@ && (forall|j: int|
            0 <= j < i ==> (#[trigger] m[j]).0 != "target"@) {
            law_first_member_counts(m, "target"@, i);
        }
        if forall|j: int| 0 <= j < m.len() ==> (#[trigger] m[j]).0 != "target"@ {
            law_first_member_counts(m, "target"@, m.len() as int);
        }
    }
}

}

//! How the program is called.
use crate::text;
use crate::text::same_text;
use vstd::prelude::*;

verus! {

/// What was asked for on the command line.
#[derive(Debug, Clone)]
pub struct Cli {
    /// The compose or bake file.
    pub file: String,
    /// The builder; the active one where none is named.
    pub builder: Option<String>,
    /// Profiles whose services are built too.
    pub profile: Vec<String>,
    /// Whether to build what the targets depend on.
    pub with_deps: bool,
    /// Targets to leave out.
    pub exclude: Vec<String>,
    /// Platforms to build for, with commas between them.
    pub platform: Option<String>,
    /// A registry for caches.
    pub cache_registry: Option<String>,
    pub no_cache: bool,
    pub load: bool,
    pub push: bool,
    /// `auto` or `plain`.
    pub progress: String,
    /// Whether the first failure ends the run.
    pub fail_fast: bool,
    /// The targets to build; all of them where none is named.
    pub targets: Vec<String>,
}

/// What the program was called for.
#[derive(Debug, PartialEq, Eq)]
pub enum Invocation {
    /// To print its metadata.
    Metadata,
    /// To run, with these arguments.
    Run(Vec<String>),
}

/// What the program was called for.
pub enum InvocationView {
    Metadata,
    Run(Seq<Seq<char>>),
}

impl View for Invocation {
    type V = InvocationView;

    open spec fn view(&self) -> InvocationView {
        match self {
            Invocation::Metadata => InvocationView::Metadata,
            Invocation::Run(args) => InvocationView::Run(text::texts(args@)),
        }
    }
}

/// The name that docker puts first when it calls this plugin.
pub const PLUGIN_NAME: &'static str = "dbake";

/// The name that docker puts first to ask for the metadata.
pub const METADATA_NAME: &'static str = "docker-cli-plugin-metadata";

/// What arguments ask for.
pub open spec fn invocation(args: Seq<Seq<char>>) -> InvocationView {
    if args.len() > 1 && args[1] == METADATA_NAME@ {
        InvocationView::Metadata
    } else if args.len() > 1 && args[1] == PLUGIN_NAME@ {
        InvocationView::Run(args.remove(1))
    } else {
        InvocationView::Run(args)
    }
}

/// What the arguments ask for. Docker calls a plugin as `docker-dbake <plugin-name> [args...]`:
/// the name behind the program's is dropped, but only there, so that a target may be called
/// `dbake`.
pub fn normalize_args(args: Vec<String>) -> (r: Invocation)
    ensures
        r@ == invocation(text::texts(args@)),
{
    let ghost all = text::texts(args@);
    let mut args = args;
    if args.len() > 1 {
        assert(all[1] == args@[1]@);
        if same_text(args[1].as_str(), METADATA_NAME) {
            return Invocation::Metadata;
        }
        if same_text(args[1].as_str(), PLUGIN_NAME) {
            let ghost before = args@;
            let _ = args.remove(1);
            assert(text::texts(args@) =~= all.remove(1));
        }
    }
    Invocation::Run(args)
}

/// Only what stands behind the program's name is taken as the plugin's name: every later
/// argument stays.
pub proof fn law_later_arguments_stay(args: Seq<Seq<char>>, i: int)
    requires
        2 <= i < args.len(),
        args[1] != METADATA_NAME@,
    ensures
        invocation(args) matches InvocationView::Run(kept) && kept.contains(args[i]),
{
    if args[1] == PLUGIN_NAME@ {
        assert(args.remove(1)[i - 1] == args[i]);
    } else {
        assert(args[i] == args[i]);
    }
}

/// The plugin's name behind the program's is dropped and nothing else, whatever follows; without it
/// the arguments stay as they are. Docker's question for the metadata is told by its name alone.
pub proof fn law_only_the_plugin_name_is_dropped(program: Seq<char>, rest: Seq<Seq<char>>)
    ensures
        invocation(seq![program, "dbake"@] + rest) == InvocationView::Run(seq![program] + rest),
        invocation(seq![program, "docker-cli-plugin-metadata"@] + rest) is Metadata,
        rest.len() == 0 || (rest[0] != "dbake"@ && rest[0] != "docker-cli-plugin-metadata"@)
            ==> invocation(seq![program] + rest) == InvocationView::Run(seq![program] + rest),
        invocation(Seq::empty()) == InvocationView::Run(Seq::empty()),
{
    reveal_strlit("dbake");
    reveal_strlit("docker-cli-plugin-metadata");
    assert("dbake"@.len() == 5);
    assert("docker-cli-plugin-metadata"@.len() == 26);
    let named = seq![program, "dbake"@] + rest;
    let asked = seq![program, "docker-cli-plugin-metadata"@] + rest;
    assert(named[1] == "dbake"@);
    assert(asked[1] == "docker-cli-plugin-metadata"@);
    assert(named.remove(1) =~= seq![program] + rest);
    if rest.len() > 0 {
        assert((seq![program] + rest)[1] == rest[0]);
    }
}

}

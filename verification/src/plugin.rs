//! What docker wants to know of a plugin.
use vstd::prelude::*;

verus! {

/// The metadata of the plugin.
#[derive(Debug, Clone, Copy)]
pub struct PluginMetadata {
    /// The version of docker's protocol for plugins.
    pub schema_version: &'static str,
    pub vendor: &'static str,
    /// The version of the plugin.
    pub version: &'static str,
    pub short_description: &'static str,
}

/// The metadata of the plugin of a version. The version of the protocol has nothing to do with
/// it.
pub fn metadata(version: &'static str, short_description: &'static str) -> (r: PluginMetadata)
    ensures
        r.schema_version@ == "0.1.0"@,
        r.vendor@ == "todor"@,
        r.version@ == version@,
        r.short_description@ == short_description@,
{
    PluginMetadata { schema_version: "0.1.0", vendor: "todor", version, short_description }
}

}

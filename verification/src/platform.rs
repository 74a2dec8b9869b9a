//! Platforms such as `linux/amd64` or `linux/arm/v7`, and which node can build for them.
use crate::text;
use crate::text::{chars_of, count_char, find_char, same_text};
use vstd::prelude::*;
use vstd::slice::*;
use vstd::string::*;

pub mod laws;

verus! {

/// The operating system and architecture of a platform: what stands before its second `/`.
pub open spec fn base_of(p: Seq<char>) -> Seq<char> {
    let first: int = text::first_index(p, '/') as int;
    if first >= p.len() {
        p
    } else {
        p.take(first + 1 + text::first_index(p.skip(first + 1), '/'))
    }
}

/// Whether a platform names a variant: whether it has a second `/`.
pub open spec fn names_variant(p: Seq<char>) -> bool {
    text::occurrences(p, '/') >= 2
}

/// Whether `available` satisfies `wanted`.
pub open spec fn satisfies(available: Seq<char>, wanted: Seq<char>) -> bool {
    if names_variant(wanted) && names_variant(available) {
        wanted == available
    } else {
        base_of(wanted) == base_of(available)
    }
}

/// Whether a node with the platforms `node` can build what asks for the platforms `target`:
/// nothing is asked for, or one of the platforms asked for is among the node's.
pub open spec fn compatible(node: Seq<Seq<char>>, target: Seq<Seq<char>>) -> bool {
    target.len() == 0 || exists|i: int, j: int|
        0 <= i < target.len() && 0 <= j < node.len() && satisfies(
            #[trigger] node[j],
            #[trigger] target[i],
        )
}

/// The operating system and architecture of a platform, without its variant:
/// `linux/amd64` for `linux/amd64/v2`.
pub fn platform_base(p: &str) -> (r: &str)
    ensures
        r@ == base_of(p@),
{
    let chars: Vec<char> = chars_of(p);
    let first: usize = find_char(chars.as_slice(), '/');
    if first >= chars.len() {
        return p;
    }
    let rest: &[char] = slice_subrange(chars.as_slice(), first + 1, chars.len());
    let second: usize = find_char(rest, '/');
    assert(rest@ == p@.skip(first + 1));
    p.substring_char(0, first + 1 + second)
}

fn has_variant(p: &str) -> (r: bool)
    ensures
        r == names_variant(p@),
{
    count_char(chars_of(p).as_slice(), '/') >= 2
}

/// Whether a requested platform is satisfied by one that a node reports.
///
/// Where both name a variant they must be equal: `linux/arm/v7` is not `linux/arm/v6`.
/// Where either leaves the variant out, only what stands before it counts:
/// `linux/arm64` is satisfied by `linux/arm64/v8`.
pub fn platform_matches(wanted: &str, available: &str) -> (r: bool)
    ensures
        r == satisfies(available@, wanted@),
{
    if has_variant(wanted) && has_variant(available) {
        same_text(wanted, available)
    } else {
        same_text(platform_base(wanted), platform_base(available))
    }
}

fn reported(node_platforms: &[String], wanted: &str) -> (r: bool)
    ensures
        r == exists|j: int|
            0 <= j < node_platforms@.len() && satisfies(
                #[trigger] text::texts(node_platforms@)[j],
                wanted@,
            ),
{
    let mut j: usize = 0;
    while j < node_platforms.len()
        invariant
            j <= node_platforms@.len(),
            forall|k: int|
                0 <= k < j ==> !satisfies(#[trigger] text::texts(node_platforms@)[k], wanted@),
        decreases node_platforms@.len() - j,
    {
        assert(text::texts(node_platforms@)[j as int] == node_platforms@[j as int]@);
        if platform_matches(wanted, node_platforms[j].as_str()) {
            return true;
        }
        j += 1;
    }
    false
}

/// Whether a node can build a target: whether it has at least one of the platforms that the
/// target asks for, or the target asks for none.
pub fn platforms_compatible(node_platforms: &[String], target_platforms: &[String]) -> (r: bool)
    ensures
        r == compatible(text::texts(node_platforms@), text::texts(target_platforms@)),
{
    if target_platforms.len() == 0 {
        return true;
    }
    let ghost node = text::texts(node_platforms@);
    let ghost target = text::texts(target_platforms@);
    let mut i: usize = 0;
    while i < target_platforms.len()
        invariant
            i <= target_platforms@.len(),
            node == text::texts(node_platforms@),
            target == text::texts(target_platforms@),
            forall|k: int, j: int|
                0 <= k < i && 0 <= j < node.len() ==> !satisfies(
                    #[trigger] node[j],
                    #[trigger] target[k],
                ),
        decreases target_platforms@.len() - i,
    {
        assert(target[i as int] == target_platforms@[i as int]@);
        if reported(node_platforms, target_platforms[i].as_str()) {
            return true;
        }
        i += 1;
    }
    false
}

/// A node that reports a platform builds what asks for that platform.
pub proof fn law_exact_platform_compatible(node: Seq<Seq<char>>, target: Seq<Seq<char>>, p: Seq<char>)
    requires
        node.contains(p),
        target.contains(p),
    ensures
        compatible(node, target),
{
    let i: int = choose|i: int| 0 <= i < target.len() && target[i] == p;
    let j: int = choose|j: int| 0 <= j < node.len() && node[j] == p;
    assert(satisfies(node[j], target[i]));
}

/// Matching does not depend on which side asks.
pub proof fn law_matching_symmetric(a: Seq<char>, b: Seq<char>)
    ensures
        satisfies(a, b) == satisfies(b, a),
{
}

/// A platform without a variant is satisfied by every variant of it.
pub proof fn law_unspecific_matches(a: Seq<char>, b: Seq<char>)
    requires
        base_of(a) == base_of(b),
        !names_variant(a) || !names_variant(b),
    ensures
        satisfies(a, b),
{
}

}

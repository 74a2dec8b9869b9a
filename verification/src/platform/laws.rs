//! Which platforms fit which.
use crate::text;
use vstd::prelude::*;

verus! {

/// A platform, by its operating system, its architecture and its variant.
pub open spec fn written(os: Seq<char>, arch: Seq<char>, variant: Option<Seq<char>>) -> Seq<char> {
    os + seq!['/'] + arch + match variant {
        Some(v) => seq!['/'] + v,
        None => Seq::empty(),
    }
}

/// The first `/` of a text tells what stands before it.
proof fn lemma_same_parts(a: Seq<char>, b: Seq<char>, more_a: Seq<char>, more_b: Seq<char>)
    requires
        !a.contains('/'),
        !b.contains('/'),
        a + seq!['/'] + more_a == b + seq!['/'] + more_b,
    ensures
        a == b,
        more_a == more_b,
{
    let x = a + seq!['/'] + more_a;
    let y = b + seq!['/'] + more_b;
    assert(x[a.len() as int] == '/');
    assert(y[b.len() as int] == '/');
    if a.len() < b.len() {
        assert(y[a.len() as int] == b[a.len() as int]);
        assert(b.contains('/'));
    }
    if b.len() < a.len() {
        assert(x[b.len() as int] == a[b.len() as int]);
        assert(a.contains('/'));
    }
    assert(x.take(a.len() as int) =~= a);
    assert(y.take(b.len() as int) =~= b);
    assert(x.skip(a.len() as int + 1) =~= more_a);
    assert(y.skip(b.len() as int + 1) =~= more_b);
}

proof fn lemma_written(os: Seq<char>, arch: Seq<char>, variant: Option<Seq<char>>)
    requires
        !os.contains('/'),
        !arch.contains('/'),
    ensures
        super::base_of(written(os, arch, variant)) == os + seq!['/'] + arch,
        super::names_variant(written(os, arch, variant)) == (variant is Some),
{
    let p = written(os, arch, variant);
    let tail = match variant {
        Some(v) => seq!['/'] + v,
        None => Seq::empty(),
    };
    let slash = seq!['/'];
    assert forall|j: int| 0 <= j < os.len() implies p[j] != '/' by {
        assert(p[j] == os[j]);
    }
    assert(p[os.len() as int] == '/');
    text::lemma_first_index(p, '/', os.len() as int);
    let rest = p.skip(os.len() as int + 1);
    assert(rest =~= arch + tail);
    assert forall|j: int| 0 <= j < arch.len() implies rest[j] != '/' by {
        assert(rest[j] == arch[j]);
    }
    text::lemma_first_index(rest, '/', arch.len() as int);
    assert(p.take(os.len() as int + 1 + arch.len()) =~= os + slash + arch);
    text::lemma_occurrences_add(os + slash + arch, tail, '/');
    text::lemma_occurrences_add(os + slash, arch, '/');
    text::lemma_occurrences_add(os, slash, '/');
    text::lemma_occurrences_none(os, '/');
    text::lemma_occurrences_none(arch, '/');
    assert(slash.drop_last() =~= Seq::empty());
    assert(text::occurrences(slash, '/') == 1) by {
        assert(text::occurrences(slash.drop_last(), '/') == 0);
    }
    if variant is Some {
        text::lemma_occurrences_add(slash, variant->0, '/');
    }
}

/// One platform satisfies another where both are of the same operating system and architecture
/// and their variants, if both name one, are the same; and only there.
pub proof fn law_parts_decide(
    os: Seq<char>,
    arch: Seq<char>,
    variant: Option<Seq<char>>,
    os_b: Seq<char>,
    arch_b: Seq<char>,
    variant_b: Option<Seq<char>>,
)
    requires
        !os.contains('/'),
        !arch.contains('/'),
        !os_b.contains('/'),
        !arch_b.contains('/'),
    ensures
        super::satisfies(written(os, arch, variant), written(os_b, arch_b, variant_b)) <==> os
            == os_b && arch == arch_b && (variant is None || variant_b is None || variant
            == variant_b),
{
    lemma_written(os, arch, variant);
    lemma_written(os_b, arch_b, variant_b);
    let a = written(os, arch, variant);
    let b = written(os_b, arch_b, variant_b);
    if os + seq!['/'] + arch == os_b + seq!['/'] + arch_b {
        lemma_same_parts(os, os_b, arch, arch_b);
    }
    if a == b && variant is Some && variant_b is Some {
        let more = arch + seq!['/'] + variant->0;
        let more_b = arch_b + seq!['/'] + variant_b->0;
        assert(a =~= os + seq!['/'] + more);
        assert(b =~= os_b + seq!['/'] + more_b);
        lemma_same_parts(os, os_b, more, more_b);
        lemma_same_parts(arch, arch_b, variant->0, variant_b->0);
    }
}

/// A name without a `/` is satisfied by itself and by nothing else.
pub proof fn law_single_name_stands_for_itself(p: Seq<char>, q: Seq<char>)
    requires
        !p.contains('/'),
    ensures
        super::satisfies(p, q) <==> p == q,
        super::satisfies(q, p) <==> p == q,
{
    text::lemma_occurrences_none(p, '/');
    text::lemma_first_index_meaning(p, '/');
    text::lemma_first_index_meaning(q, '/');
    let at = text::first_index(q, '/') as int;
    if text::first_index(p, '/') < p.len() {
        assert(p.contains(p[text::first_index(p, '/') as int]));
    }
    if at < q.len() {
        text::lemma_first_index_meaning(q.skip(at + 1), '/');
        assert(super::base_of(q)[at] == '/');
        assert(super::base_of(q).contains('/'));
    }
}

/// A node none of whose platforms satisfies a platform that a target asks for cannot build the
/// target, if it asks for any.
pub proof fn law_no_common_platform(node: Seq<Seq<char>>, target: Seq<Seq<char>>)
    requires
        target.len() > 0,
        forall|p: Seq<char>, w: Seq<char>|
            node.contains(p) && target.contains(w) ==> !#[trigger] super::satisfies(p, w),
    ensures
        !super::compatible(node, target),
{
    if super::compatible(node, target) {
        let (i, j): (int, int) = choose|i: int, j: int|
            0 <= i < target.len() && 0 <= j < node.len() && super::satisfies(
                #[trigger] node[j],
                #[trigger] target[i],
            );
        assert(node.contains(node[j]));
        assert(target.contains(target[i]));
    }
}

/// A node can build a target as soon as one of its platforms satisfies one that the target asks
/// for, whatever else either of them names.
pub proof fn law_one_common_platform_is_enough(
    node: Seq<Seq<char>>,
    target: Seq<Seq<char>>,
    p: Seq<char>,
    w: Seq<char>,
)
    requires
        node.contains(p),
        target.contains(w),
        super::satisfies(p, w),
    ensures
        super::compatible(node, target),
{
    let i: int = choose|i: int| 0 <= i < target.len() && target[i] == w;
    let j: int = choose|j: int| 0 <= j < node.len() && node[j] == p;
    assert(super::satisfies(node[j], target[i]));
}

/// What asks for no platform can be built by any node, whatever the node reports; a node that
/// reports nothing can build nothing else.
pub proof fn law_nothing_asked_fits_all(node: Seq<Seq<char>>, target: Seq<Seq<char>>)
    ensures
        super::compatible(node, Seq::empty()),
        super::compatible(Seq::empty(), target) <==> target.len() == 0,
{
}

}

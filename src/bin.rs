//! The string leaves of a BIN property tree, as the path rewriter sees them.
//!
//! The wire codec lives with an outside library; the rewriter only reads and
//! replaces string leaves. A tree hands them over in a fixed walk order (every
//! string inside containers, structs, embeddeds, optionals, map keys and map
//! values) and takes the rewritten values back in the same order.
use vstd::prelude::*;
use crate::text::{
    contains_string, string_views,
};
use crate::repath::{
    apply_prefix_to_path, classify, is_asset, is_asset_path, normalize_path, normalized, rewrite,
    AssetPathView, RepathConfig,
};

verus! {

/// One string leaf of a property tree.
pub struct StringLeaf {
    pub value: String,
    /// Map keys are read but never rewritten.
    pub in_map_key: bool,
}

/// The normalized forms of the asset paths among `leaves`, in walk order.
pub open spec fn asset_refs(leaves: Seq<StringLeaf>) -> Seq<Seq<char>>
    decreases leaves.len(),
{
    if leaves.len() == 0 {
        Seq::empty()
    } else if is_asset(leaves.last().value@) {
        asset_refs(leaves.drop_last()).push(normalized(leaves.last().value@))
    } else {
        asset_refs(leaves.drop_last())
    }
}

/// Collects the normalized asset paths referenced by a tree's string leaves, map
/// keys included.
pub fn collect_asset_paths(leaves: &Vec<StringLeaf>) -> (r: Vec<String>)
    ensures
        string_views(r@) == asset_refs(leaves@),
{
    let mut r: Vec<String> = Vec::new();
    let mut i: usize = 0;
    while i < leaves.len()
        invariant
            i <= leaves@.len(),
            string_views(r@) == asset_refs(leaves@.take(i as int)),
        decreases leaves@.len() - i,
    {
        assert(leaves@.take(i + 1).drop_last() =~= leaves@.take(i as int));
        let v = &leaves[i].value;
        if is_asset_path(v.as_str()) {
            r.push(normalize_path(v.as_str()));
        }
        assert(string_views(r@) =~= asset_refs(leaves@.take(i + 1)));
        i = i + 1;
    }
    assert(leaves@.take(leaves@.len() as int) =~= leaves@);
    r
}

/// Whether a leaf is rewritten: it is no map key, names an asset, and its
/// normalized form is among the references found on disk.
pub open spec fn leaf_rewritten(l: StringLeaf, existing: Seq<Seq<char>>) -> bool {
    !l.in_map_key && is_asset(l.value@) && existing.contains(normalized(l.value@))
}

/// The value a leaf holds after rewriting.
pub open spec fn leaf_after(l: StringLeaf, existing: Seq<Seq<char>>, c: crate::repath::RepathConfigView) -> Seq<char> {
    if leaf_rewritten(l, existing) {
        rewrite(l.value@, c)
    } else {
        l.value@
    }
}

/// How many leaves a rewriting pass rewrites.
pub open spec fn rewritten_count(leaves: Seq<StringLeaf>, existing: Seq<Seq<char>>) -> nat
    decreases leaves.len(),
{
    if leaves.len() == 0 {
        0
    } else {
        rewritten_count(leaves.drop_last(), existing) + if leaf_rewritten(leaves.last(), existing) {
            1nat
        } else {
            0nat
        }
    }
}

/// Rewrites the string leaves of a tree in place: each leaf that
/// [`leaf_rewritten`] selects becomes its rewrite under `config`, every other leaf
/// stays. Returns how many leaves were rewritten.
pub fn repath_leaves(leaves: &mut Vec<StringLeaf>, existing: &Vec<String>, config: &RepathConfig) -> (r: usize)
    ensures
        final(leaves)@.len() == old(leaves)@.len(),
        forall|i: int|
            0 <= i < old(leaves)@.len() ==> (#[trigger] final(leaves)@[i]).value@ == leaf_after(
                old(leaves)@[i],
                string_views(existing@),
                config@,
            ) && final(leaves)@[i].in_map_key == old(leaves)@[i].in_map_key,
        r == rewritten_count(old(leaves)@, string_views(existing@)),
{
    let ghost ex = string_views(existing@);
    let ghost orig = leaves@;
    let mut count: usize = 0;
    let mut i: usize = 0;
    while i < leaves.len()
        invariant
            ex == string_views(existing@),
            leaves@.len() == orig.len(),
            i <= orig.len(),
            forall|j: int|
                0 <= j < i ==> (#[trigger] leaves@[j]).value@ == leaf_after(orig[j], ex, config@)
                    && leaves@[j].in_map_key == orig[j].in_map_key,
            forall|j: int| i <= j < orig.len() ==> #[trigger] leaves@[j] == orig[j],
            count == rewritten_count(orig.take(i as int), ex),
            count <= i,
        decreases orig.len() - i,
    {
        assert(orig.take(i + 1).drop_last() =~= orig.take(i as int));
        let key = leaves[i].in_map_key;
        let hit = !key && is_asset_path(leaves[i].value.as_str()) && contains_string(
            existing,
            &normalize_path(leaves[i].value.as_str()),
        );
        if hit {
            let nv = apply_prefix_to_path(leaves[i].value.as_str(), "", config);
            leaves.set(i, StringLeaf { value: nv, in_map_key: key });
            count = count + 1;
        }
        i = i + 1;
    }
    assert(orig.take(orig.len() as int) =~= orig);
    count
}

/// Voice-over paths survive rewriting byte for byte: whatever the existing set and
/// configuration, a leaf whose path classifies as voice-over keeps its value.
pub proof fn law_voice_over_preserved(
    l: StringLeaf,
    existing: Seq<Seq<char>>,
    c: crate::repath::RepathConfigView,
)
    requires
        classify(l.value@, c.champion) matches Some(AssetPathView::SoundVo { .. }),
    ensures
        leaf_after(l, existing, c) == l.value@,
{
}

/// A rewriting pass reports zero modified paths exactly when no leaf is selected for
/// rewriting, and then every leaf keeps its value.
pub proof fn law_zero_count_leaves_unchanged(
    leaves: Seq<StringLeaf>,
    existing: Seq<Seq<char>>,
    c: crate::repath::RepathConfigView,
)
    ensures
        rewritten_count(leaves, existing) == 0 <==> forall|i: int|
            0 <= i < leaves.len() ==> !leaf_rewritten(#[trigger] leaves[i], existing),
        rewritten_count(leaves, existing) == 0 ==> forall|i: int|
            0 <= i < leaves.len() ==> leaf_after(#[trigger] leaves[i], existing, c) == leaves[i].value@,
    decreases leaves.len(),
{
    if leaves.len() > 0 {
        let d = leaves.drop_last();
        law_zero_count_leaves_unchanged(d, existing, c);
        assert forall|i: int| 0 <= i < d.len() implies #[trigger] d[i] == leaves[i] by {}
        if rewritten_count(leaves, existing) == 0 {
            assert forall|i: int| 0 <= i < leaves.len() implies !leaf_rewritten(#[trigger] leaves[i], existing) by {
                if i < d.len() {
                    assert(d[i] == leaves[i]);
                }
            }
        }
        if forall|i: int| 0 <= i < leaves.len() ==> !leaf_rewritten(#[trigger] leaves[i], existing) {
            assert forall|i: int| 0 <= i < d.len() implies !leaf_rewritten(#[trigger] d[i], existing) by {
                assert(d[i] == leaves[i]);
            }
            assert(!leaf_rewritten(leaves[leaves.len() - 1], existing));
        }
    }
}

} // verus!

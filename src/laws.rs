use vstd::prelude::*;

use crate::atlas::{lemma_lookup_found, lookup, resident, AtlasEntry, Upload};
use crate::renderer::{
    drawn, lemma_quads_len, mask_height, mask_width, outline, outlined_count, pinned_key, quads_of, FontRen, LaidGlyph,
};

verus! {

/// Atlas entries lie inside the texture and never overlap, and the frame's
/// geometry is always whole quads: these hold in every reachable state.
pub proof fn lemma_state_invariants(r: FontRen)
    requires
        r.wf(),
    ensures
        forall|i: int| 0 <= i < r.entries().len() ==> (#[trigger] r.entries()[i]).rect.in_bounds(),
        forall|i: int, j: int|
            0 <= i < r.entries().len() && 0 <= j < r.entries().len() && i != j ==> (
            #[trigger] r.entries()[i]).rect.disjoint(#[trigger] r.entries()[j].rect),
        r.geometry().len() % 6 == 0,
{
    r.lemma_wf();
}

/// Two atlases that agree on the rectangle of every outlined glyph of `gs`
/// give the same quads for `gs`.
pub proof fn lemma_quads_agree(gs: Seq<LaidGlyph>, s1: Seq<AtlasEntry>, s2: Seq<AtlasEntry>)
    requires
        forall|i: int|
            0 <= i < gs.len() && outline(#[trigger] gs[i]) is Some ==> lookup(s1, gs[i].key)
                == lookup(s2, gs[i].key),
    ensures
        quads_of(gs, s1) == quads_of(gs, s2),
    decreases gs.len(),
{
    if gs.len() > 0 {
        assert(gs.last() == gs[gs.len() - 1]);
        assert forall|i: int|
            0 <= i < gs.drop_last().len() && outline(#[trigger] gs.drop_last()[i]) is Some
                implies lookup(s1, gs.drop_last()[i].key) == lookup(s2, gs.drop_last()[i].key) by {
            assert(gs.drop_last()[i] == gs[i]);
        }
        lemma_quads_agree(gs.drop_last(), s1, s2);
    }
}

/// A string whose outlined glyphs are all resident already is drawn without
/// any rasterization.
pub proof fn lemma_resident_no_upload(
    pre: FontRen,
    gs: Seq<LaidGlyph>,
    post: FontRen,
    ups: Seq<Upload>,
)
    requires
        drawn(pre, gs, post, ups),
        forall|i: int| 0 <= i < gs.len() && outline(#[trigger] gs[i]) is Some ==> resident(pre.entries(), gs[i].key),
    ensures
        ups.len() == 0,
{
    if ups.len() > 0 {
        let u = ups[0];
        let j = choose|j: int|
            0 <= j < gs.len() && outline(#[trigger] gs[j]) is Some && gs[j].key == u.key && u.rect.x1
                - u.rect.x0 == mask_width(outline(gs[j])->0) && u.rect.y1 - u.rect.y0 == mask_height(
                outline(gs[j])->0);
        assert(resident(pre.entries(), gs[j].key));
    }
}

/// After `clear`, drawing a string with N outlined glyphs that all fit leaves
/// exactly 6 N vertices.
pub proof fn lemma_draw_after_clear(pre: FontRen, gs: Seq<LaidGlyph>, post: FontRen, ups: Seq<Upload>)
    requires
        pre.geometry().len() == 0,
        post.wf(),
        drawn(pre, gs, post, ups),
    ensures
        post.geometry().len() == 6 * outlined_count(gs),
{
    post.lemma_wf();
    lemma_quads_len(gs, post.entries(), post.frame());
}

/// Drawing the same string twice in one frame appends the same quads twice,
/// and the second call rasterizes nothing.
pub proof fn lemma_draw_twice(
    r0: FontRen,
    r1: FontRen,
    r2: FontRen,
    gs: Seq<LaidGlyph>,
    u1: Seq<Upload>,
    u2: Seq<Upload>,
)
    requires
        r1.wf(),
        r2.wf(),
        drawn(r0, gs, r1, u1),
        drawn(r1, gs, r2, u2),
    ensures
        r2.geometry() == r0.geometry() + quads_of(gs, r1.entries()) + quads_of(gs, r1.entries()),
        u2.len() == 0,
{
    r1.lemma_wf();
    r2.lemma_wf();
    let s1 = r1.entries();
    let s2 = r2.entries();
    assert forall|i: int| 0 <= i < gs.len() && outline(#[trigger] gs[i]) is Some implies lookup(
        s1,
        gs[i].key,
    ) == lookup(s2, gs[i].key) && resident(s1, gs[i].key) by {
        assert(pinned_key(s1, gs[i].key, r1.frame()));
        let j = choose|j: int|
            0 <= j < s1.len() && (#[trigger] s1[j]).key == gs[i].key && s1[j].last_use == r1.frame();
        lemma_lookup_found(s1, j);
        assert(r1.entries()[j].last_use == r1.frame());
        let m = choose|m: int| 0 <= m < s2.len() && s2[m] == s1[j];
        lemma_lookup_found(s2, m);
    }
    lemma_quads_agree(gs, s1, s2);
    lemma_resident_no_upload(r1, gs, r2, u2);
}

} // verus!

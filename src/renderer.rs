use vstd::prelude::*;

use crate::atlas::{
    placed_from, stuck, all_pinned, can_place, contains_entry, entries_ok, keys_unique, lemma_lookup_found, lookup,
    pending_has, resident, Atlas, AtlasEntry, AtlasRect, GlyphKey, Pending, Upload,
};
use crate::geometry::{push_quad, quad, PixelRect, Vertex, MAX_VERTICES};

verus! {

/// One glyph of a laid-out string: its cache key and, where it has an
/// outline, its pixel bounding box.
#[derive(Clone, Copy, PartialEq, Eq, Structural, Debug)]
pub struct LaidGlyph {
    pub key: GlyphKey,
    pub bbox: Option<PixelRect>,
}

#[derive(Clone, Copy, PartialEq, Eq, Structural, Debug)]
pub enum RenderError {
    /// A glyph could not be placed in the atlas even after eviction.
    AtlasFull,
    /// The frame's quads would exceed `MAX_VERTICES` vertices.
    GeometryOverflow,
}

/// The glyph's non-empty bounding box; `None` for whitespace and other
/// glyphs without coverage.
pub open spec fn outline(g: LaidGlyph) -> Option<PixelRect> {
    match g.bbox {
        Some(b) => if b.x0 < b.x1 && b.y0 < b.y1 {
            Some(b)
        } else {
            None
        },
        None => None,
    }
}

pub open spec fn outlined_count(gs: Seq<LaidGlyph>) -> nat
    decreases gs.len(),
{
    if gs.len() == 0 {
        0
    } else {
        outlined_count(gs.drop_last()) + if outline(gs.last()) is Some {
            1nat
        } else {
            0nat
        }
    }
}

/// The quad a glyph contributes when drawn against the atlas entries `s`.
pub open spec fn glyph_quad(g: LaidGlyph, s: Seq<AtlasEntry>) -> Seq<Vertex> {
    match outline(g) {
        Some(b) => match lookup(s, g.key) {
            Some(uv) => quad(b, uv),
            None => Seq::empty(),
        },
        None => Seq::empty(),
    }
}

pub open spec fn quads_of(gs: Seq<LaidGlyph>, s: Seq<AtlasEntry>) -> Seq<Vertex>
    decreases gs.len(),
{
    if gs.len() == 0 {
        Seq::empty()
    } else {
        quads_of(gs.drop_last(), s) + glyph_quad(gs.last(), s)
    }
}

/// `k` is resident and was used in `frame`, so it cannot be evicted in it.
pub open spec fn pinned_key(s: Seq<AtlasEntry>, k: GlyphKey, frame: u64) -> bool {
    exists|j: int| 0 <= j < s.len() && (#[trigger] s[j]).key == k && s[j].last_use == frame
}

/// Every glyph of `gs` that has an outline is pinned in `s`.
pub open spec fn all_pinned_keys(gs: Seq<LaidGlyph>, s: Seq<AtlasEntry>, frame: u64) -> bool {
    forall|i: int|
        0 <= i < gs.len() && outline(#[trigger] gs[i]) is Some ==> pinned_key(s, gs[i].key, frame)
}

pub open spec fn mask_width(b: PixelRect) -> int {
    b.x1 - b.x0
}

pub open spec fn mask_height(b: PixelRect) -> int {
    b.y1 - b.y0
}

/// A waiting atlas request made for some outlined glyph of `gs`, with its mask size.
pub open spec fn from_glyph(p: Pending, gs: Seq<LaidGlyph>) -> bool {
    exists|k: int|
        0 <= k < gs.len() && outline(#[trigger] gs[k]) is Some && gs[k].key == p.key && p.width
            == mask_width(outline(gs[k])->0) && p.height == mask_height(outline(gs[k])->0)
}

fn glyph_outline(g: &LaidGlyph) -> (r: Option<PixelRect>)
    ensures
        r == outline(*g),
{
    match g.bbox {
        Some(b) => if b.x0 < b.x1 && b.y0 < b.y1 {
            Some(b)
        } else {
            None
        },
        None => None,
    }
}

/// The number of glyphs of `gs` that have an outline.
pub fn count_outlined(gs: &Vec<LaidGlyph>) -> (n: usize)
    ensures
        n == outlined_count(gs@),
        n <= gs@.len(),
{
    let mut n: usize = 0;
    let mut i: usize = 0;
    while i < gs.len()
        invariant
            0 <= i <= gs@.len(),
            n == outlined_count(gs@.take(i as int)),
            n <= i,
        decreases gs@.len() - i,
    {
        proof {
            assert(gs@.take(i + 1).drop_last() =~= gs@.take(i as int));
        }
        if glyph_outline(&gs[i]).is_some() {
            n = n + 1;
        }
        i = i + 1;
    }
    assert(gs@.take(gs@.len() as int) =~= gs@);
    n
}

/// The text renderer's verified state: the glyph atlas and this frame's
/// vertex list.
pub struct FontRen {
    atlas: Atlas,
    geometry: Vec<Vertex>,
}

/// Some outlined glyph of `gs` has key `k`.
pub open spec fn glyph_key(gs: Seq<LaidGlyph>, k: GlyphKey) -> bool {
    exists|j: int| 0 <= j < gs.len() && outline(#[trigger] gs[j]) is Some && gs[j].key == k
}

/// Some outlined glyph of `gs` has key `k` and a mask of the size of `r`.
pub open spec fn glyph_sized(gs: Seq<LaidGlyph>, k: GlyphKey, r: AtlasRect) -> bool {
    exists|j: int|
        0 <= j < gs.len() && outline(#[trigger] gs[j]) is Some && gs[j].key == k && r.x1 - r.x0
            == mask_width(outline(gs[j])->0) && r.y1 - r.y0 == mask_height(outline(gs[j])->0)
}

/// `e` has the key and rectangle of some entry of `s`.
pub open spec fn kept_from(s: Seq<AtlasEntry>, e: AtlasEntry) -> bool {
    exists|m: int| 0 <= m < s.len() && (#[trigger] s[m]).key == e.key && s[m].rect == e.rect
}

/// Glyph `i` of `gs` found no room: on the entries `s` plus `extra`, the
/// distinct glyphs of `gs` placed before it and then withdrawn, no candidate spot fits
/// its mask, and nothing in `s` is evictable.
pub open spec fn glyph_stuck(
    s: Seq<AtlasEntry>,
    extra: Seq<AtlasEntry>,
    gs: Seq<LaidGlyph>,
    i: int,
    frame: u64,
) -> bool {
    &&& 0 <= i < gs.len()
    &&& outline(gs[i]) is Some
    &&& forall|k: int|
        0 <= k < extra.len() ==> (#[trigger] extra[k]).last_use == frame && glyph_sized(
            gs,
            extra[k].key,
            extra[k].rect,
        )
    &&& forall|a: int, b: int|
        0 <= a < extra.len() && 0 <= b < extra.len() && a != b ==> (#[trigger] extra[a]).key != (
        #[trigger] extra[b]).key
    &&& forall|k: int| 0 <= k < extra.len() ==> (#[trigger] extra[k]).key != gs[i].key
    &&& !resident(s, gs[i].key)
    &&& all_pinned(s, frame)
    &&& !can_place(s + extra, mask_width(outline(gs[i])->0), mask_height(outline(gs[i])->0))
}

/// What a successful `draw_text(gs)` leads to from `pre`: the quads of `gs`
/// appended against the new atlas, every outlined glyph pinned, the frame's
/// pinned entries kept, and exactly one upload for each distinct key of an
/// outlined glyph that was not resident, sized as its mask. Every entry after
/// the call has the key and rectangle of an entry before it, or is an upload.
pub open spec fn drawn(pre: FontRen, gs: Seq<LaidGlyph>, post: FontRen, ups: Seq<Upload>) -> bool {
    &&& post.geometry() == pre.geometry() + quads_of(gs, post.entries())
    &&& post.frame() == pre.frame()
    &&& all_pinned_keys(gs, post.entries(), post.frame())
    &&& forall|i: int|
        0 <= i < pre.entries().len() && (#[trigger] pre.entries()[i]).last_use == pre.frame()
            ==> contains_entry(post.entries(), pre.entries()[i])
    &&& forall|i: int|
        0 <= i < ups.len() ==> {
            let u = #[trigger] ups[i];
            &&& !resident(pre.entries(), u.key)
            &&& lookup(post.entries(), u.key) == Some(u.rect)
            &&& glyph_sized(gs, u.key, u.rect)
        }
    &&& forall|j: int|
        0 <= j < post.entries().len() ==> kept_from(pre.entries(), #[trigger] post.entries()[j]) || exists|q: int|
            0 <= q < ups.len() && (#[trigger] ups[q]).key == post.entries()[j].key && ups[q].rect
                == post.entries()[j].rect
    &&& forall|j: int|
        0 <= j < gs.len() && outline(#[trigger] gs[j]) is Some && !resident(pre.entries(), gs[j].key)
            ==> exists|q: int| 0 <= q < ups.len() && (#[trigger] ups[q]).key == gs[j].key
    &&& forall|a: int, b: int|
        0 <= a < ups.len() && 0 <= b < ups.len() && a != b ==> (#[trigger] ups[a]).key != (
        #[trigger] ups[b]).key
}

/// With every outlined glyph resident, each contributes exactly one quad.
pub proof fn lemma_quads_len(gs: Seq<LaidGlyph>, s: Seq<AtlasEntry>, frame: u64)
    requires
        all_pinned_keys(gs, s, frame),
        keys_unique(s),
    ensures
        quads_of(gs, s).len() == 6 * outlined_count(gs),
    decreases gs.len(),
{
    if gs.len() > 0 {
        let g = gs.last();
        assert(gs[gs.len() - 1] == g);
        assert forall|i: int|
            0 <= i < gs.drop_last().len() && outline(#[trigger] gs.drop_last()[i]) is Some
                implies pinned_key(s, gs.drop_last()[i].key, frame) by {
            assert(gs.drop_last()[i] == gs[i]);
        }
        lemma_quads_len(gs.drop_last(), s, frame);
        if outline(g) is Some {
            assert(pinned_key(s, g.key, frame));
            let j = choose|j: int| 0 <= j < s.len() && (#[trigger] s[j]).key == g.key && s[j].last_use == frame;
            lemma_lookup_found(s, j);
        }
    }
}

impl FontRen {
    pub closed spec fn entries(self) -> Seq<AtlasEntry> {
        self.atlas.entries()
    }

    pub closed spec fn frame(self) -> u64 {
        self.atlas.frame()
    }

    pub closed spec fn geometry(self) -> Seq<Vertex> {
        self.geometry@
    }

    /// Atlas invariants hold (entries inside the texture, pairwise disjoint,
    /// keys unique), nothing waits for a commit, and the geometry is whole
    /// quads within capacity.
    pub closed spec fn wf(self) -> bool {
        &&& self.atlas.wf()
        &&& self.atlas.pending().len() == 0
        &&& self.geometry@.len() % 6 == 0
        &&& self.geometry@.len() <= MAX_VERTICES
    }

    /// What well-formedness gives a caller.
    pub proof fn lemma_wf(self)
        requires
            self.wf(),
        ensures
            entries_ok(self.entries(), self.frame()),
            self.geometry().len() % 6 == 0,
            self.geometry().len() <= MAX_VERTICES,
    {
    }

    pub fn new() -> (r: FontRen)
        ensures
            r.wf(),
            r.entries().len() == 0,
            r.geometry().len() == 0,
    {
        FontRen { atlas: Atlas::new(), geometry: Vec::new() }
    }

    /// Starts a frame: the geometry is emptied and the atlas entries used so
    /// far become evictable.
    pub fn clear(&mut self)
        requires
            old(self).wf(),
        ensures
            final(self).wf(),
            final(self).geometry().len() == 0,
            final(self).entries() == old(self).entries(),
            final(self).frame() == if old(self).frame() < u64::MAX {
                (old(self).frame() + 1) as u64
            } else {
                old(self).frame()
            },
    {
        self.geometry.clear();
        self.atlas.begin_frame();
    }

    /// The vertices accumulated in this frame, ready for upload.
    pub fn vertices(&self) -> (r: &Vec<Vertex>)
        ensures
            r@ == self.geometry(),
    {
        &self.geometry
    }

    pub fn vertex_count(&self) -> (r: usize)
        ensures
            r == self.geometry().len(),
    {
        self.geometry.len()
    }

    /// Draws one laid-out string: queues every glyph with an outline, commits
    /// the atlas, then appends one quad per such glyph. Overflow is decided
    /// before anything changes; on a full atlas no geometry is added. The
    /// returned uploads are the glyphs to rasterize into the atlas texture.
    pub fn draw_text(&mut self, glyphs: &Vec<LaidGlyph>) -> (r: Result<Vec<Upload>, RenderError>)
        requires
            old(self).wf(),
        ensures
            final(self).wf(),
            final(self).frame() == old(self).frame(),
            (r == Err::<Vec<Upload>, RenderError>(RenderError::GeometryOverflow)) <==> old(
                self,
            ).geometry().len() + 6 * outlined_count(glyphs@) > MAX_VERTICES,
            r == Err::<Vec<Upload>, RenderError>(RenderError::GeometryOverflow) ==> *final(self)
                == *old(self),
            forall|i: int|
                0 <= i < old(self).entries().len() && (#[trigger] old(self).entries()[i]).last_use
                    == old(self).frame() ==> contains_entry(final(self).entries(), old(self).entries()[i]),
            forall|m: int|
                0 <= m < old(self).entries().len() && r != Err::<Vec<Upload>, RenderError>(
                    RenderError::GeometryOverflow,
                ) && ((#[trigger] old(self).entries()[m]).last_use == old(self).frame() || glyph_key(
                    glyphs@,
                    old(self).entries()[m].key,
                )) ==> lookup(final(self).entries(), old(self).entries()[m].key) == Some(
                    old(self).entries()[m].rect,
                ),
            old(self).geometry().len() + 6 * outlined_count(glyphs@) <= MAX_VERTICES && (forall|j: int|
                0 <= j < glyphs@.len() && outline(#[trigger] glyphs@[j]) is Some ==> resident(
                    old(self).entries(),
                    glyphs@[j].key,
                )) ==> r is Ok && final(self).entries().len() == old(self).entries().len() && (forall|m: int|
                0 <= m < old(self).entries().len() ==> (#[trigger] final(self).entries()[m]).key == old(
                    self,
                ).entries()[m].key && final(self).entries()[m].rect == old(self).entries()[m].rect),
            match r {
                Ok(ups) => drawn(*old(self), glyphs@, *final(self), ups@),
                Err(RenderError::AtlasFull) => {
                    &&& final(self).geometry() == old(self).geometry()
                    &&& forall|j: int|
                        0 <= j < final(self).entries().len() ==> kept_from(
                            old(self).entries(),
                            #[trigger] final(self).entries()[j],
                        )
                    &&& exists|i: int, extra: Seq<AtlasEntry>|
                        #[trigger] glyph_stuck(
                            final(self).entries(),
                            extra,
                            glyphs@,
                            i,
                            final(self).frame(),
                        )
                },
                Err(RenderError::GeometryOverflow) => true,
            },
    {
        let ghost pre = *self;
        let n = count_outlined(glyphs);
        let len = self.geometry.len();
        if n > (MAX_VERTICES - len) / 6 {
            return Err(RenderError::GeometryOverflow);
        }
        let ghost frame = self.atlas.frame();
        let ghost e0 = self.atlas.entries();
        let mut i: usize = 0;
        while i < glyphs.len()
            invariant
                0 <= i <= glyphs@.len(),
                self.geometry@ == pre.geometry@,
                self.atlas.wf(),
                self.atlas.frame() == frame,
                frame == pre.atlas.frame(),
                e0 == pre.atlas.entries(),
                pre.atlas.pending().len() == 0,
                self.atlas.entries().len() == e0.len(),
                forall|m: int|
                    0 <= m < e0.len() ==> {
                        let e = #[trigger] self.atlas.entries()[m];
                        &&& e.key == e0[m].key
                        &&& e.rect == e0[m].rect
                        &&& (e0[m].last_use == frame ==> e == e0[m])
                    },
                forall|k: int|
                    0 <= k < i && outline(#[trigger] glyphs@[k]) is Some ==> pinned_key(
                        self.atlas.entries(),
                        glyphs@[k].key,
                        frame,
                    ) || pending_has(self.atlas.pending(), glyphs@[k].key),
                forall|q: int|
                    0 <= q < self.atlas.pending().len() ==> from_glyph(
                        #[trigger] self.atlas.pending()[q],
                        glyphs@,
                    ),
            decreases glyphs@.len() - i,
        {
            let g = glyphs[i];
            if let Some(b) = glyph_outline(&g) {
                let w = (b.x1 as i64 - b.x0 as i64) as u64;
                let h = (b.y1 as i64 - b.y0 as i64) as u64;
                let ghost s1 = self.atlas.entries();
                let ghost p1 = self.atlas.pending();
                self.atlas.queue(g.key, w, h);
                proof {
                    let s2 = self.atlas.entries();
                    let p2 = self.atlas.pending();
                    assert forall|m: int| 0 <= m < s1.len() implies (#[trigger] s2[m]).key == s1[m].key
                        && s2[m].rect == s1[m].rect && (s1[m].last_use == frame ==> s2[m] == s1[m]) by {}
                    assert forall|q: int| 0 <= q < p2.len() implies from_glyph(#[trigger] p2[q], glyphs@) by {
                        if q < p1.len() {
                            assert(p2[q] == p1[q]);
                        } else {
                            assert(outline(glyphs@[i as int]) is Some);
                        }
                    }
                    assert forall|k: int|
                        0 <= k <= i && outline(#[trigger] glyphs@[k]) is Some implies pinned_key(
                        s2,
                        glyphs@[k].key,
                        frame,
                    ) || pending_has(p2, glyphs@[k].key) by {
                        let kk = glyphs@[k].key;
                        if k < i && pinned_key(s1, kk, frame) {
                            let j = choose|j: int| 0 <= j < s1.len() && (#[trigger] s1[j]).key == kk && s1[j].last_use == frame;
                            assert(s2[j].key == kk);
                        } else if pending_has(p1, kk) {
                            let j = choose|j: int| 0 <= j < p1.len() && (#[trigger] p1[j]).key == kk;
                            assert(p2[j] == p1[j]);
                        } else if k == i {
                            if resident(s1, kk) {
                                let j = choose|j: int| 0 <= j < s1.len() && (#[trigger] s1[j]).key == kk;
                                assert(s2[j].key == kk);
                            } else {
                                assert(p2[p1.len() as int].key == kk);
                            }
                        }
                    }
                }
            }
            i = i + 1;
        }
        let ghost eq = self.atlas.entries();
        let ghost pq = self.atlas.pending();
        let ghost all_res = forall|j: int|
            0 <= j < glyphs@.len() && outline(#[trigger] glyphs@[j]) is Some ==> resident(e0, glyphs@[j].key);
        proof {
            if all_res && pq.len() > 0 {
                assert(from_glyph(pq[0], glyphs@));
                let k = choose|k: int|
                    0 <= k < glyphs@.len() && outline(#[trigger] glyphs@[k]) is Some && glyphs@[k].key
                        == pq[0].key && pq[0].width == mask_width(outline(glyphs@[k])->0) && pq[0].height
                        == mask_height(outline(glyphs@[k])->0);
                assert(resident(e0, glyphs@[k].key));
                let m = choose|m: int| 0 <= m < e0.len() && (#[trigger] e0[m]).key == glyphs@[k].key;
                assert(eq[m].key == pq[0].key);
            }
        }
        let res = self.atlas.commit();
        proof {
            let s4 = self.atlas.entries();
            assert forall|m: int|
                0 <= m < e0.len() && ((#[trigger] e0[m]).last_use == frame || glyph_key(glyphs@, e0[m].key))
                    implies lookup(s4, e0[m].key) == Some(e0[m].rect) by {
                if e0[m].last_use != frame {
                    let k = choose|k: int| 0 <= k < glyphs@.len() && outline(#[trigger] glyphs@[k]) is Some && glyphs@[k].key == e0[m].key;
                    let kk = glyphs@[k].key;
                    if pending_has(pq, kk) {
                        let q = choose|q: int| 0 <= q < pq.len() && (#[trigger] pq[q]).key == kk;
                        assert(eq[m].key == kk);
                        assert(!resident(eq, pq[q].key));
                    }
                    assert(pinned_key(eq, kk, frame));
                    let j = choose|j: int| 0 <= j < eq.len() && (#[trigger] eq[j]).key == kk && eq[j].last_use == frame;
                    assert(eq[m].key == kk);
                }
                assert(eq[m].last_use == frame);
                assert(contains_entry(s4, eq[m]));
                let idx = choose|idx: int| 0 <= idx < s4.len() && s4[idx] == eq[m];
                lemma_lookup_found(s4, idx);
            }
            assert forall|m: int|
                0 <= m < e0.len() && (#[trigger] e0[m]).last_use == frame implies contains_entry(
                self.atlas.entries(),
                e0[m],
            ) by {
                assert(eq[m] == e0[m]);
            }
        }
        let ups = match res {
            Ok(ups) => ups,
            Err(_) => {
                proof {
                    let s4 = self.atlas.entries();
                    let (q, extra) = choose|q: int, extra: Seq<AtlasEntry>| #[trigger] stuck(s4, extra, pq, q, frame);
                    assert(from_glyph(pq[q], glyphs@));
                    let k = choose|k: int|
                        0 <= k < glyphs@.len() && outline(#[trigger] glyphs@[k]) is Some
                            && glyphs@[k].key == pq[q].key && pq[q].width == mask_width(
                            outline(glyphs@[k])->0,
                        ) && pq[q].height == mask_height(outline(glyphs@[k])->0);
                    assert forall|c: int| 0 <= c < extra.len() implies (#[trigger] extra[c]).last_use == frame
                        && glyph_sized(glyphs@, extra[c].key, extra[c].rect) by {
                        assert(from_glyph(pq[c], glyphs@));
                    }
                    assert forall|a: int, b: int|
                        0 <= a < extra.len() && 0 <= b < extra.len() && a != b implies (#[trigger] extra[a]).key
                            != (#[trigger] extra[b]).key by {
                        assert(extra[a].key == pq[a].key && extra[b].key == pq[b].key);
                    }
                    assert forall|c: int| 0 <= c < extra.len() implies (#[trigger] extra[c]).key != glyphs@[k].key by {
                        assert(extra[c].key == pq[c].key);
                    }
                    assert(glyph_stuck(s4, extra, glyphs@, k, frame));
                    assert(s4 == self.entries() && frame == self.frame());
                    assert(glyph_stuck(self.entries(), extra, glyphs@, k, self.frame()));
                    assert(pq.len() > 0);
                    assert(!all_res);
                    assert forall|j: int| 0 <= j < s4.len() implies kept_from(e0, #[trigger] s4[j]) by {
                        assert(contains_entry(eq, s4[j]));
                        let m = choose|m: int| 0 <= m < eq.len() && eq[m] == s4[j];
                        assert(e0[m].key == s4[j].key);
                    }
                }
                return Err(RenderError::AtlasFull);
            },
        };
        let ghost s3 = self.atlas.entries();
        proof {
            assert forall|k: int|
                0 <= k < glyphs@.len() && outline(#[trigger] glyphs@[k]) is Some implies pinned_key(
                s3,
                glyphs@[k].key,
                frame,
            ) by {
                let kk = glyphs@[k].key;
                if pinned_key(eq, kk, frame) {
                    let j = choose|j: int| 0 <= j < eq.len() && (#[trigger] eq[j]).key == kk && eq[j].last_use == frame;
                    assert(contains_entry(s3, eq[j]));
                    let m = choose|m: int| 0 <= m < s3.len() && s3[m] == eq[j];
                    assert(s3[m].key == kk);
                } else {
                    let j = choose|j: int| 0 <= j < pq.len() && (#[trigger] pq[j]).key == kk;
                    let u = ups@[j];
                    let e = AtlasEntry { key: u.key, rect: u.rect, last_use: frame };
                    assert(contains_entry(s3, e));
                    let m = choose|m: int| 0 <= m < s3.len() && s3[m] == e;
                    assert(s3[m].key == kk);
                }
            }
            assert forall|q: int| 0 <= q < ups@.len() implies {
                let u = #[trigger] ups@[q];
                &&& !resident(e0, u.key)
                &&& lookup(s3, u.key) == Some(u.rect)
                &&& glyph_sized(glyphs@, u.key, u.rect)
            } by {
                let u = ups@[q];
                assert(u.key == pq[q].key);
                assert(!resident(eq, pq[q].key));
                if resident(e0, u.key) {
                    let m = choose|m: int| 0 <= m < e0.len() && (#[trigger] e0[m]).key == u.key;
                    assert(eq[m].key == u.key);
                }
                let e = AtlasEntry { key: u.key, rect: u.rect, last_use: frame };
                assert(contains_entry(s3, e));
                let m = choose|m: int| 0 <= m < s3.len() && s3[m] == e;
                lemma_lookup_found(s3, m);
                assert(from_glyph(pq[q], glyphs@));
            }
            assert forall|j: int| 0 <= j < s3.len() implies kept_from(e0, #[trigger] s3[j]) || exists|q: int|
                0 <= q < ups@.len() && (#[trigger] ups@[q]).key == s3[j].key && ups@[q].rect == s3[j].rect by {
                if contains_entry(eq, s3[j]) {
                    let m = choose|m: int| 0 <= m < eq.len() && eq[m] == s3[j];
                    assert(e0[m].key == s3[j].key);
                } else {
                    assert(placed_from(eq, pq, frame, s3[j]));
                    let q = choose|q: int| 0 <= q < pq.len() && (#[trigger] pq[q]).key == s3[j].key;
                    let u = ups@[q];
                    let e = AtlasEntry { key: u.key, rect: u.rect, last_use: frame };
                    assert(contains_entry(s3, e));
                    let m = choose|m: int| 0 <= m < s3.len() && s3[m] == e;
                    assert(s3[m].key == s3[j].key);
                }
            }
            assert forall|k: int|
                0 <= k < glyphs@.len() && outline(#[trigger] glyphs@[k]) is Some && !resident(
                    e0,
                    glyphs@[k].key,
                ) implies exists|q: int| 0 <= q < ups@.len() && (#[trigger] ups@[q]).key == glyphs@[k].key by {
                let kk = glyphs@[k].key;
                if pinned_key(eq, kk, frame) {
                    let j = choose|j: int| 0 <= j < eq.len() && (#[trigger] eq[j]).key == kk && eq[j].last_use == frame;
                    assert(e0[j].key == kk);
                }
                let q = choose|q: int| 0 <= q < pq.len() && (#[trigger] pq[q]).key == kk;
                assert(ups@[q].key == kk);
            }
            assert forall|a: int, b: int|
                0 <= a < ups@.len() && 0 <= b < ups@.len() && a != b implies (#[trigger] ups@[a]).key != (
                #[trigger] ups@[b]).key by {
                assert(ups@[a].key == pq[a].key);
                assert(ups@[b].key == pq[b].key);
            }
        }
        let mut j: usize = 0;
        while j < glyphs.len()
            invariant
                0 <= j <= glyphs@.len(),
                self.atlas.wf(),
                self.atlas.entries() == s3,
                self.atlas.frame() == frame,
                self.atlas.pending().len() == 0,
                self.geometry@ == pre.geometry@ + quads_of(glyphs@.take(j as int), s3),
            decreases glyphs@.len() - j,
        {
            let g = glyphs[j];
            proof {
                assert(glyphs@.take(j + 1).drop_last() =~= glyphs@.take(j as int));
                assert(glyphs@.take(j + 1).last() == g);
            }
            if let Some(b) = glyph_outline(&g) {
                match self.atlas.rect_for(g.key) {
                    Some(uv) => push_quad(&mut self.geometry, b, uv),
                    None => {},
                }
            }
            j = j + 1;
        }
        proof {
            assert(glyphs@.take(glyphs@.len() as int) =~= glyphs@);
            lemma_quads_len(glyphs@, s3, frame);
        }
        Ok(ups)
    }

    /// The atlas rectangle of `key`, if it is resident.
    pub fn rect_for(&self, key: GlyphKey) -> (r: Option<AtlasRect>)
        requires
            self.wf(),
        ensures
            r == lookup(self.entries(), key),
    {
        self.atlas.rect_for(key)
    }
}

} // verus!

use vstd::prelude::*;

verus! {

/// Side of the square atlas texture, in pixels.
pub const CACHE_SIZE: u32 = 512;

/// Identifies one rasterization: font slot, glyph id, quantized scale and
/// subpixel offset bins.
#[derive(Clone, Copy, PartialEq, Eq, Structural, Debug)]
pub struct GlyphKey {
    pub font_id: u8,
    pub glyph_id: u32,
    pub scale_bin: u32,
    pub sub_x: u8,
    pub sub_y: u8,
}

/// Half-open rectangle `[x0, x1) x [y0, y1)` of atlas pixels.
#[derive(Clone, Copy, PartialEq, Eq, Structural, Debug)]
pub struct AtlasRect {
    pub x0: u32,
    pub y0: u32,
    pub x1: u32,
    pub y1: u32,
}

/// A live cached glyph.
#[derive(Clone, Copy, PartialEq, Eq, Structural, Debug)]
pub struct AtlasEntry {
    pub key: GlyphKey,
    pub rect: AtlasRect,
    pub last_use: u64,
}

/// A glyph that must become resident at the next commit, with the size of
/// its coverage mask.
#[derive(Clone, Copy, PartialEq, Eq, Structural, Debug)]
pub struct Pending {
    pub key: GlyphKey,
    pub width: u64,
    pub height: u64,
}

/// A newly placed glyph: the caller rasterizes `key` into `rect`.
#[derive(Clone, Copy, PartialEq, Eq, Structural, Debug)]
pub struct Upload {
    pub key: GlyphKey,
    pub rect: AtlasRect,
}

/// A queued glyph found no room even with every evictable entry gone.
#[derive(Clone, Copy, PartialEq, Eq, Structural, Debug)]
pub struct AtlasFull;

impl AtlasRect {
    pub open spec fn in_bounds(self) -> bool {
        self.x0 < self.x1 <= CACHE_SIZE && self.y0 < self.y1 <= CACHE_SIZE
    }

    pub open spec fn disjoint(self, o: AtlasRect) -> bool {
        self.x1 <= o.x0 || o.x1 <= self.x0 || self.y1 <= o.y0 || o.y1 <= self.y0
    }

    pub open spec fn area(self) -> int {
        (self.x1 - self.x0) * (self.y1 - self.y0)
    }
}

pub open spec fn entries_in_bounds(s: Seq<AtlasEntry>) -> bool {
    forall|i: int| 0 <= i < s.len() ==> (#[trigger] s[i]).rect.in_bounds()
}

pub open spec fn entries_disjoint(s: Seq<AtlasEntry>) -> bool {
    forall|i: int, j: int|
        0 <= i < s.len() && 0 <= j < s.len() && i != j ==> (#[trigger] s[i]).rect.disjoint(
            #[trigger] s[j].rect,
        )
}

pub open spec fn keys_unique(s: Seq<AtlasEntry>) -> bool {
    forall|i: int, j: int|
        0 <= i < s.len() && 0 <= j < s.len() && i != j ==> (#[trigger] s[i]).key != (
        #[trigger] s[j]).key
}

pub open spec fn entries_ok(s: Seq<AtlasEntry>, frame: u64) -> bool {
    &&& entries_in_bounds(s)
    &&& entries_disjoint(s)
    &&& keys_unique(s)
    &&& forall|i: int| 0 <= i < s.len() ==> (#[trigger] s[i]).last_use <= frame
}

pub open spec fn resident(s: Seq<AtlasEntry>, k: GlyphKey) -> bool {
    exists|i: int| 0 <= i < s.len() && (#[trigger] s[i]).key == k
}

pub open spec fn contains_entry(s: Seq<AtlasEntry>, e: AtlasEntry) -> bool {
    exists|i: int| 0 <= i < s.len() && s[i] == e
}

/// Every entry was used in `frame`: nothing is left to evict.
pub open spec fn all_pinned(s: Seq<AtlasEntry>, frame: u64) -> bool {
    forall|i: int| 0 <= i < s.len() ==> (#[trigger] s[i]).last_use == frame
}

/// The rectangle cached for `k`, if any.
pub open spec fn lookup(s: Seq<AtlasEntry>, k: GlyphKey) -> Option<AtlasRect>
    decreases s.len(),
{
    if s.len() == 0 {
        None
    } else if s.last().key == k {
        Some(s.last().rect)
    } else {
        lookup(s.drop_last(), k)
    }
}

/// The entries after `queue(k)`: the entry for `k`, if any, is used in `frame`.
pub open spec fn touch(s: Seq<AtlasEntry>, k: GlyphKey, frame: u64) -> Seq<AtlasEntry> {
    Seq::new(
        s.len(),
        |i: int|
            if s[i].key == k {
                AtlasEntry { last_use: frame, ..s[i] }
            } else {
                s[i]
            },
    )
}

pub open spec fn pending_has(p: Seq<Pending>, k: GlyphKey) -> bool {
    exists|i: int| 0 <= i < p.len() && (#[trigger] p[i]).key == k
}

pub open spec fn pending_ok(p: Seq<Pending>, s: Seq<AtlasEntry>) -> bool {
    &&& forall|i: int, j: int|
        0 <= i < p.len() && 0 <= j < p.len() && i != j ==> (#[trigger] p[i]).key != (
        #[trigger] p[j]).key
    &&& forall|i: int| 0 <= i < p.len() ==> !resident(s, (#[trigger] p[i]).key)
}

/// The box of size `w` x `h` at `(x, y)` lies in the texture and meets no entry.
pub open spec fn fits_at(s: Seq<AtlasEntry>, x: int, y: int, w: int, h: int) -> bool {
    &&& 0 < w && 0 < h
    &&& 0 <= x && x + w <= CACHE_SIZE
    &&& 0 <= y && y + h <= CACHE_SIZE
    &&& forall|j: int|
        0 <= j < s.len() ==> {
            let r = (#[trigger] s[j]).rect;
            x + w <= r.x0 || r.x1 <= x || y + h <= r.y0 || r.y1 <= y
        }
}

/// Candidate corners tried by the packer, in order: the origin, then for each
/// entry the point right of it on its shelf and the start of the shelf below it.
pub open spec fn cand_x(s: Seq<AtlasEntry>, c: int) -> int {
    if c == 0 {
        0
    } else if c % 2 == 1 {
        s[(c - 1) / 2].rect.x1 as int
    } else {
        0
    }
}

pub open spec fn cand_y(s: Seq<AtlasEntry>, c: int) -> int {
    if c == 0 {
        0
    } else if c % 2 == 1 {
        s[(c - 1) / 2].rect.y0 as int
    } else {
        s[(c - 2) / 2].rect.y1 as int
    }
}

/// Some candidate corner can take a `w` x `h` box.
pub open spec fn can_place(s: Seq<AtlasEntry>, w: int, h: int) -> bool {
    exists|c: int|
        0 <= c < 2 * s.len() + 1 && #[trigger] fits_at(s, cand_x(s, c), cand_y(s, c), w, h)
}

/// With unique keys, the lookup of a present key finds its entry.
pub proof fn lemma_lookup_found(s: Seq<AtlasEntry>, i: int)
    requires
        keys_unique(s),
        0 <= i < s.len(),
    ensures
        lookup(s, s[i].key) == Some(s[i].rect),
    decreases s.len(),
{
    if i != s.len() - 1 {
        assert(s.last() == s[s.len() - 1]);
        assert(s.drop_last()[i] == s[i]);
        lemma_lookup_found(s.drop_last(), i);
    }
}

/// The lookup of a key that is not resident finds nothing.
pub proof fn lemma_lookup_absent(s: Seq<AtlasEntry>, k: GlyphKey)
    requires
        !resident(s, k),
    ensures
        lookup(s, k) is None,
    decreases s.len(),
{
    if s.len() > 0 {
        assert(s.last() == s[s.len() - 1]);
        assert forall|i: int| 0 <= i < s.drop_last().len() implies (#[trigger] s.drop_last()[i]).key
            != k by {
            assert(s.drop_last()[i] == s[i]);
        }
        lemma_lookup_absent(s.drop_last(), k);
    }
}

/// Every entry of `s0` that is gone from `s` went before every entry of `s0`
/// that stayed and is evictable in `frame`.
pub open spec fn evicted_in_order(s0: Seq<AtlasEntry>, s: Seq<AtlasEntry>, frame: u64) -> bool {
    forall|i: int, j: int|
        0 <= i < s0.len() && 0 <= j < s0.len() && !contains_entry(s, #[trigger] s0[i])
            && contains_entry(s, #[trigger] s0[j]) && s0[j].last_use < frame ==> evicts_before(
            s0[i],
            s0[j],
        )
}

/// `e` was already there in `s0`, or was placed now for a waiting glyph of `p0`.
pub open spec fn placed_from(s0: Seq<AtlasEntry>, p0: Seq<Pending>, frame: u64, e: AtlasEntry) -> bool {
    contains_entry(s0, e) || (e.last_use == frame && pending_has(p0, e.key))
}

/// The commit could not place waiting glyph `i` of `p0`: on the entries `s`
/// plus `extra`, the glyphs placed before it in this commit (their size fixed
/// by their masks), no candidate spot fits it, and nothing is left to evict.
pub open spec fn stuck(s: Seq<AtlasEntry>, extra: Seq<AtlasEntry>, p0: Seq<Pending>, i: int, frame: u64) -> bool {
    &&& 0 <= i < p0.len()
    &&& extra.len() == i
    &&& forall|k: int|
        0 <= k < i ==> {
            let e = #[trigger] extra[k];
            &&& e.key == p0[k].key
            &&& e.last_use == frame
            &&& e.rect.x1 - e.rect.x0 == p0[k].width
            &&& e.rect.y1 - e.rect.y0 == p0[k].height
        }
    &&& !resident(s, p0[i].key)
    &&& all_pinned(s, frame)
    &&& !can_place(s + extra, p0[i].width as int, p0[i].height as int)
}

/// Waiting glyph `q` of `p0` found no spot among the entries `s`, which held
/// `e` and otherwise only old entries of `s0` or glyphs placed in this commit.
pub open spec fn no_room_with(
    s: Seq<AtlasEntry>,
    e: AtlasEntry,
    s0: Seq<AtlasEntry>,
    p0: Seq<Pending>,
    q: int,
    frame: u64,
) -> bool {
    &&& 0 <= q < p0.len()
    &&& contains_entry(s, e)
    &&& forall|j: int| 0 <= j < s.len() ==> placed_from(s0, p0, frame, #[trigger] s[j])
    &&& !can_place(s, p0[q].width as int, p0[q].height as int)
}

/// Every entry of `s0` gone from `s` was evicted while a waiting glyph had no spot.
pub open spec fn evicted_for_room(s0: Seq<AtlasEntry>, s: Seq<AtlasEntry>, p0: Seq<Pending>, frame: u64) -> bool {
    forall|a: int|
        0 <= a < s0.len() && !contains_entry(s, #[trigger] s0[a]) ==> exists|q: int, w: Seq<AtlasEntry>|
            #[trigger] no_room_with(w, s0[a], s0, p0, q, frame)
}

/// `a` goes before `b` in eviction order: older first, then the smaller.
pub open spec fn evicts_before(a: AtlasEntry, b: AtlasEntry) -> bool {
    a.last_use < b.last_use || (a.last_use == b.last_use && a.rect.area() <= b.rect.area())
}

proof fn lemma_remove(s: Seq<AtlasEntry>, v: int, frame: u64)
    requires
        entries_ok(s, frame),
        0 <= v < s.len(),
    ensures
        entries_ok(s.remove(v), frame),
        forall|e: AtlasEntry|
            contains_entry(s, e) && e != s[v] ==> #[trigger] contains_entry(s.remove(v), e),
        forall|k: GlyphKey| #[trigger] resident(s.remove(v), k) ==> resident(s, k),
        forall|e: AtlasEntry| #[trigger] contains_entry(s.remove(v), e) ==> contains_entry(s, e),
{
    let t = s.remove(v);
    s.remove_ensures(v);
    assert forall|i: int| 0 <= i < t.len() implies #[trigger] t[i] == s[if i < v { i } else { i + 1 }] by {}
    assert forall|e: AtlasEntry| contains_entry(s, e) && e != s[v] implies #[trigger] contains_entry(t, e) by {
        let m = choose|m: int| 0 <= m < s.len() && s[m] == e;
        if m < v {
            assert(t[m] == e);
        } else {
            assert(t[m - 1] == e);
        }
    }
    assert forall|e: AtlasEntry| #[trigger] contains_entry(t, e) implies contains_entry(s, e) by {
        let m = choose|m: int| 0 <= m < t.len() && t[m] == e;
        if m < v {
            assert(s[m] == e);
        } else {
            assert(s[m + 1] == e);
        }
    }
    assert forall|k: GlyphKey| #[trigger] resident(t, k) implies resident(s, k) by {
        let m = choose|m: int| 0 <= m < t.len() && (#[trigger] t[m]).key == k;
        if m < v {
            assert(s[m].key == k);
        } else {
            assert(s[m + 1].key == k);
        }
    }
}

proof fn lemma_push(s: Seq<AtlasEntry>, e: AtlasEntry, frame: u64)
    requires
        entries_ok(s, frame),
        e.rect.in_bounds(),
        e.last_use <= frame,
        !resident(s, e.key),
        forall|j: int| 0 <= j < s.len() ==> e.rect.disjoint(#[trigger] s[j].rect),
    ensures
        entries_ok(s.push(e), frame),
        contains_entry(s.push(e), e),
        forall|f: AtlasEntry| contains_entry(s, f) ==> #[trigger] contains_entry(s.push(e), f),
        forall|k: GlyphKey| #[trigger] resident(s.push(e), k) ==> resident(s, k) || k == e.key,
        forall|f: AtlasEntry| #[trigger] contains_entry(s.push(e), f) ==> contains_entry(s, f) || f == e,
{
    let t = s.push(e);
    assert(t[s.len() as int] == e);
    assert forall|i: int| 0 <= i < s.len() implies #[trigger] t[i] == s[i] by {}
    assert forall|f: AtlasEntry| contains_entry(s, f) implies #[trigger] contains_entry(t, f) by {
        let m = choose|m: int| 0 <= m < s.len() && s[m] == f;
        assert(t[m] == f);
    }
    assert forall|f: AtlasEntry| #[trigger] contains_entry(t, f) implies contains_entry(s, f) || f == e by {
        let m = choose|m: int| 0 <= m < t.len() && t[m] == f;
        if m < s.len() {
            assert(s[m] == f);
        }
    }
    assert forall|k: GlyphKey| #[trigger] resident(t, k) implies resident(s, k) || k == e.key by {
        let m = choose|m: int| 0 <= m < t.len() && (#[trigger] t[m]).key == k;
        if m < s.len() {
            assert(s[m].key == k);
        }
    }
    assert forall|i: int, j: int|
        0 <= i < t.len() && 0 <= j < t.len() && i != j implies (#[trigger] t[i]).key != (
        #[trigger] t[j]).key by {
        if i == s.len() {
            assert(s[j].key == t[j].key);
        } else if j == s.len() {
            assert(s[i].key == t[i].key);
        }
    }
}

fn rect_area(r: &AtlasRect) -> (a: u64)
    requires
        r.in_bounds(),
    ensures
        a == r.area(),
{
    let w = (r.x1 - r.x0) as u64;
    let h = (r.y1 - r.y0) as u64;
    assert(w * h <= 512 * 512) by (nonlinear_arith)
        requires
            w <= 512,
            h <= 512,
    ;
    w * h
}

/// The packer of the glyph texture: live entries, glyphs waiting for the
/// next commit, and the frame counter that orders eviction.
pub struct Atlas {
    entries: Vec<AtlasEntry>,
    pending: Vec<Pending>,
    frame: u64,
}

impl Atlas {
    pub closed spec fn entries(self) -> Seq<AtlasEntry> {
        self.entries@
    }

    pub closed spec fn pending(self) -> Seq<Pending> {
        self.pending@
    }

    /// The current frame's sequence number; entries used in it are pinned.
    pub closed spec fn frame(self) -> u64 {
        self.frame
    }

    pub open spec fn wf(self) -> bool {
        &&& entries_ok(self.entries(), self.frame())
        &&& pending_ok(self.pending(), self.entries())
    }

    pub fn new() -> (r: Atlas)
        ensures
            r.wf(),
            r.entries().len() == 0,
            r.pending().len() == 0,
            r.frame() == 0,
    {
        Atlas { entries: Vec::new(), pending: Vec::new(), frame: 0 }
    }

    /// Whether a `w` x `h` box fits at `(x, y)`.
    fn fits(&self, x: u64, y: u64, w: u64, h: u64) -> (r: bool)
        requires
            entries_ok(self.entries(), self.frame()),
            x <= CACHE_SIZE,
            y <= CACHE_SIZE,
        ensures
            r == fits_at(self.entries(), x as int, y as int, w as int, h as int),
    {
        if w == 0 || h == 0 || w > CACHE_SIZE as u64 - x || h > CACHE_SIZE as u64 - y {
            return false;
        }
        let mut j: usize = 0;
        while j < self.entries.len()
            invariant
                0 <= j <= self.entries@.len(),
                0 < w && 0 < h && x + w <= CACHE_SIZE && y + h <= CACHE_SIZE,
                forall|m: int|
                    0 <= m < j ==> {
                        let r = (#[trigger] self.entries@[m]).rect;
                        x + w <= r.x0 || r.x1 <= x || y + h <= r.y0 || r.y1 <= y
                    },
            decreases self.entries@.len() - j,
        {
            let r = self.entries[j].rect;
            if !(x + w <= r.x0 as u64 || r.x1 as u64 <= x || y + h <= r.y0 as u64 || r.y1 as u64
                <= y) {
                return false;
            }
            j = j + 1;
        }
        true
    }

    /// The first candidate corner, in the order of `cand_x` / `cand_y`, where a
    /// `w` x `h` box fits.
    fn find_spot(&self, w: u64, h: u64) -> (r: Option<AtlasRect>)
        requires
            entries_ok(self.entries(), self.frame()),
        ensures
            match r {
                Some(rect) => {
                    &&& rect.in_bounds()
                    &&& rect.x1 - rect.x0 == w
                    &&& rect.y1 - rect.y0 == h
                    &&& forall|j: int|
                        0 <= j < self.entries().len() ==> rect.disjoint(
                            #[trigger] self.entries()[j].rect,
                        )
                },
                None => !can_place(self.entries(), w as int, h as int),
            },
    {
        let ghost s = self.entries@;
        if self.fits(0, 0, w, h) {
            return Some(AtlasRect { x0: 0, y0: 0, x1: w as u32, y1: h as u32 });
        }
        assert(cand_x(s, 0) == 0 && cand_y(s, 0) == 0);
        let mut j: usize = 0;
        while j < self.entries.len()
            invariant
                s == self.entries@,
                entries_ok(self.entries@, self.frame),
                0 <= j <= s.len(),
                forall|d: int|
                    0 <= d < 2 * j + 1 ==> !#[trigger] fits_at(
                        s,
                        cand_x(s, d),
                        cand_y(s, d),
                        w as int,
                        h as int,
                    ),
            decreases s.len() - j,
        {
            let e = self.entries[j];
            assert(s[j as int].rect.in_bounds());
            assert(cand_x(s, 2 * j + 1) == e.rect.x1 && cand_y(s, 2 * j + 1) == e.rect.y0);
            if self.fits(e.rect.x1 as u64, e.rect.y0 as u64, w, h) {
                return Some(
                    AtlasRect {
                        x0: e.rect.x1,
                        y0: e.rect.y0,
                        x1: (e.rect.x1 as u64 + w) as u32,
                        y1: (e.rect.y0 as u64 + h) as u32,
                    },
                );
            }
            assert(cand_x(s, 2 * j + 2) == 0 && cand_y(s, 2 * j + 2) == e.rect.y1);
            if self.fits(0, e.rect.y1 as u64, w, h) {
                return Some(
                    AtlasRect { x0: 0, y0: e.rect.y1, x1: w as u32, y1: (e.rect.y1 as u64 + h) as u32 },
                );
            }
            j = j + 1;
        }
        None
    }

    /// The evictable entry (not used in this frame) that goes first in
    /// eviction order, if any.
    fn pick_victim(&self) -> (r: Option<usize>)
        requires
            entries_ok(self.entries(), self.frame()),
        ensures
            match r {
                Some(v) => {
                    &&& v < self.entries().len()
                    &&& self.entries()[v as int].last_use < self.frame()
                    &&& forall|j: int|
                        0 <= j < self.entries().len() && (#[trigger] self.entries()[j]).last_use
                            < self.frame() ==> evicts_before(self.entries()[v as int], self.entries()[j])
                },
                None => all_pinned(self.entries(), self.frame()),
            },
    {
        let mut best: Option<usize> = None;
        let mut i: usize = 0;
        while i < self.entries.len()
            invariant
                entries_ok(self.entries@, self.frame),
                0 <= i <= self.entries@.len(),
                match best {
                    Some(v) => {
                        &&& v < i
                        &&& self.entries@[v as int].last_use < self.frame
                        &&& forall|j: int|
                            0 <= j < i && (#[trigger] self.entries@[j]).last_use < self.frame
                                ==> evicts_before(self.entries@[v as int], self.entries@[j])
                    },
                    None => forall|j: int| 0 <= j < i ==> (#[trigger] self.entries@[j]).last_use == self.frame,
                },
            decreases self.entries@.len() - i,
        {
            let e = self.entries[i];
            if e.last_use < self.frame {
                match best {
                    None => {
                        best = Some(i);
                    },
                    Some(b) => {
                        let cur = self.entries[b];
                        let ea = rect_area(&e.rect);
                        let ca = rect_area(&cur.rect);
                        if e.last_use < cur.last_use || (e.last_use == cur.last_use && ea < ca) {
                            best = Some(i);
                        }
                    },
                }
            }
            i = i + 1;
        }
        best
    }

    /// Gives every waiting glyph a rectangle, evicting entries not used in this
    /// frame (in `evicts_before` order) while the packer finds no room. On
    /// success the new placements are returned, in queue order, for the caller
    /// to rasterize. Entries used in this frame are never evicted. On failure
    /// the glyphs placed by this commit are taken out again, so that nothing
    /// stays resident that was never rasterized.
    pub fn commit(&mut self) -> (r: Result<Vec<Upload>, AtlasFull>)
        requires
            old(self).wf(),
        ensures
            final(self).wf(),
            final(self).pending().len() == 0,
            final(self).frame() == old(self).frame(),
            forall|i: int|
                0 <= i < old(self).entries().len() && (#[trigger] old(self).entries()[i]).last_use
                    == old(self).frame() ==> contains_entry(final(self).entries(), old(self).entries()[i]),
            evicted_in_order(old(self).entries(), final(self).entries(), old(self).frame()),
            evicted_for_room(old(self).entries(), final(self).entries(), old(self).pending(), old(self).frame()),
            forall|j: int|
                0 <= j < final(self).entries().len() ==> placed_from(
                    old(self).entries(),
                    old(self).pending(),
                    old(self).frame(),
                    #[trigger] final(self).entries()[j],
                ),
            match r {
                Ok(ups) => {
                    &&& ups@.len() == old(self).pending().len()
                    &&& forall|i: int|
                        0 <= i < ups@.len() ==> {
                            let u = #[trigger] ups@[i];
                            let p = old(self).pending()[i];
                            &&& u.key == p.key
                            &&& u.rect.x1 - u.rect.x0 == p.width
                            &&& u.rect.y1 - u.rect.y0 == p.height
                            &&& contains_entry(
                                final(self).entries(),
                                AtlasEntry { key: u.key, rect: u.rect, last_use: old(self).frame() },
                            )
                        }
                },
                Err(_) => {
                    &&& forall|j: int|
                        0 <= j < final(self).entries().len() ==> contains_entry(
                            old(self).entries(),
                            #[trigger] final(self).entries()[j],
                        )
                    &&& exists|i: int, extra: Seq<AtlasEntry>|
                        #[trigger] stuck(
                            final(self).entries(),
                            extra,
                            old(self).pending(),
                            i,
                            old(self).frame(),
                        )
                },
            },
            old(self).pending().len() == 0 ==> r is Ok && final(self).entries() == old(self).entries(),
    {
        let ghost s0 = self.entries@;
        let ghost p0 = self.pending@;
        let mut ups: Vec<Upload> = Vec::new();
        let mut i: usize = 0;
        while i < self.pending.len()
            invariant
                self.pending@ == p0,
                p0 == old(self).pending@,
                s0 == old(self).entries@,
                self.frame == old(self).frame,
                pending_ok(p0, s0),
                0 <= i <= p0.len(),
                entries_ok(self.entries@, self.frame),
                forall|k: int| i <= k < p0.len() ==> !resident(self.entries@, (#[trigger] p0[k]).key),
                forall|m: int|
                    0 <= m < s0.len() && (#[trigger] s0[m]).last_use == self.frame
                        ==> contains_entry(self.entries@, s0[m]),
                evicted_in_order(s0, self.entries@, self.frame),
                evicted_for_room(s0, self.entries@, p0, self.frame),
                forall|j: int| 0 <= j < self.entries@.len() ==> placed_from(s0, p0, self.frame, #[trigger] self.entries@[j]),
                self.entries@.len() >= i,
                p0.len() == 0 ==> self.entries@ == s0,
                forall|j: int| 0 <= j < self.entries@.len() - i ==> contains_entry(s0, #[trigger] self.entries@[j]),
                forall|k: int| 0 <= k < i ==> self.entries@[self.entries@.len() - i + k] == (AtlasEntry { key: (#[trigger] ups@[k]).key, rect: ups@[k].rect, last_use: self.frame }),
                ups@.len() == i,
                forall|k: int|
                    0 <= k < i ==> {
                        let u = #[trigger] ups@[k];
                        &&& u.key == p0[k].key
                        &&& u.rect.x1 - u.rect.x0 == p0[k].width
                        &&& u.rect.y1 - u.rect.y0 == p0[k].height
                        &&& contains_entry(
                            self.entries@,
                            AtlasEntry { key: u.key, rect: u.rect, last_use: self.frame },
                        )
                    },
            decreases p0.len() - i,
        {
            let p = self.pending[i];
            let mut spot = self.find_spot(p.width, p.height);
            while spot.is_none()
                invariant
                    self.pending@ == p0,
                    p0 == old(self).pending@,
                    s0 == old(self).entries@,
                    self.frame == old(self).frame,
                    pending_ok(p0, s0),
                    0 <= i < p0.len(),
                    p == p0[i as int],
                    entries_ok(self.entries@, self.frame),
                    forall|k: int| i <= k < p0.len() ==> !resident(self.entries@, (#[trigger] p0[k]).key),
                    forall|m: int|
                        0 <= m < s0.len() && (#[trigger] s0[m]).last_use == self.frame
                            ==> contains_entry(self.entries@, s0[m]),
                    evicted_in_order(s0, self.entries@, self.frame),
                    evicted_for_room(s0, self.entries@, p0, self.frame),
                    forall|j: int| 0 <= j < self.entries@.len() ==> placed_from(s0, p0, self.frame, #[trigger] self.entries@[j]),
                    self.entries@.len() >= i,
                    p0.len() == 0 ==> self.entries@ == s0,
                    forall|j: int| 0 <= j < self.entries@.len() - i ==> contains_entry(s0, #[trigger] self.entries@[j]),
                    forall|k: int| 0 <= k < i ==> self.entries@[self.entries@.len() - i + k] == (AtlasEntry { key: (#[trigger] ups@[k]).key, rect: ups@[k].rect, last_use: self.frame }),
                    ups@.len() == i,
                    forall|k: int|
                        0 <= k < i ==> {
                            let u = #[trigger] ups@[k];
                            &&& u.key == p0[k].key
                            &&& u.rect.x1 - u.rect.x0 == p0[k].width
                            &&& u.rect.y1 - u.rect.y0 == p0[k].height
                            &&& contains_entry(
                                self.entries@,
                                AtlasEntry { key: u.key, rect: u.rect, last_use: self.frame },
                            )
                        },
                    match spot {
                        Some(rect) => {
                            &&& rect.in_bounds()
                            &&& rect.x1 - rect.x0 == p.width
                            &&& rect.y1 - rect.y0 == p.height
                            &&& forall|j: int|
                                0 <= j < self.entries().len() ==> rect.disjoint(
                                    #[trigger] self.entries()[j].rect,
                                )
                        },
                        None => !can_place(self.entries@, p.width as int, p.height as int),
                    },
                decreases self.entries@.len(),
            {
                match self.pick_victim() {
                    Some(v) => {
                        proof {
                            lemma_remove(self.entries@, v as int, self.frame);
                            let t = self.entries@.remove(v as int);
                            let victim = self.entries@[v as int];
                            assert forall|k: int| i <= k < p0.len() implies !resident(
                                t,
                                (#[trigger] p0[k]).key,
                            ) by {
                                assert(!resident(self.entries@, p0[k].key));
                            }
                            assert forall|m: int|
                                0 <= m < s0.len() && (#[trigger] s0[m]).last_use == self.frame
                                    implies contains_entry(t, s0[m]) by {
                                assert(contains_entry(self.entries@, s0[m]));
                                assert(s0[m] != victim);
                            }
                            assert forall|k: int| 0 <= k < i implies contains_entry(
                                t,
                                AtlasEntry {
                                    key: (#[trigger] ups@[k]).key,
                                    rect: ups@[k].rect,
                                    last_use: self.frame,
                                },
                            ) by {
                                let e = AtlasEntry {
                                    key: ups@[k].key,
                                    rect: ups@[k].rect,
                                    last_use: self.frame,
                                };
                                assert(contains_entry(self.entries@, e));
                                assert(e != victim);
                            }
                            let cur = self.entries@;
                            let base = cur.len() - i;
                            if v >= base {
                                let k = v - base;
                                assert(cur[base + k] == (AtlasEntry { key: ups@[k].key, rect: ups@[k].rect, last_use: self.frame }));
                            }
                            assert forall|j: int| 0 <= j < t.len() - i implies contains_entry(s0, #[trigger] t[j]) by {
                                if j < v {
                                    assert(t[j] == cur[j]);
                                } else {
                                    assert(t[j] == cur[j + 1]);
                                }
                            }
                            assert forall|k: int| 0 <= k < i implies t[t.len() - i + k] == (AtlasEntry { key: (#[trigger] ups@[k]).key, rect: ups@[k].rect, last_use: self.frame }) by {
                                assert(t[t.len() - i + k] == cur[base + k]);
                            }
                            assert(no_room_with(cur, victim, s0, p0, i as int, self.frame));
                            assert forall|a: int| 0 <= a < s0.len() && !contains_entry(t, #[trigger] s0[a]) implies exists|q: int, w: Seq<AtlasEntry>|
                                #[trigger] no_room_with(w, s0[a], s0, p0, q, self.frame) by {
                                if contains_entry(cur, s0[a]) {
                                    assert(s0[a] == victim);
                                }
                            }
                            assert forall|j: int| 0 <= j < t.len() implies placed_from(s0, p0, self.frame, #[trigger] t[j]) by {
                                if j < v {
                                    assert(t[j] == cur[j]);
                                } else {
                                    assert(t[j] == cur[j + 1]);
                                }
                            }
                            assert forall|a: int, b: int|
                                0 <= a < s0.len() && 0 <= b < s0.len() && !contains_entry(t, #[trigger] s0[a])
                                    && contains_entry(t, #[trigger] s0[b]) && s0[b].last_use < self.frame
                                    implies evicts_before(s0[a], s0[b]) by {
                                assert(contains_entry(cur, s0[b]));
                                if contains_entry(cur, s0[a]) {
                                    assert(s0[a] == victim);
                                    let m = choose|m: int| 0 <= m < cur.len() && cur[m] == s0[b];
                                    assert(cur[m].last_use < self.frame);
                                }
                            }
                        }
                        self.entries.remove(v);
                        spot = self.find_spot(p.width, p.height);
                    },
                    None => {
                        let keep = self.entries.len() - i;
                        let ghost cur = self.entries@;
                        let ghost extra = cur.subrange(keep as int, cur.len() as int);
                        self.entries.truncate(keep);
                        self.pending = Vec::new();
                        proof {
                            let fin = self.entries@;
                            assert(fin + extra =~= cur);
                            assert forall|k: int| 0 <= k < i implies {
                                let e = #[trigger] extra[k];
                                &&& e.key == p0[k].key
                                &&& e.last_use == self.frame
                                &&& e.rect.x1 - e.rect.x0 == p0[k].width
                                &&& e.rect.y1 - e.rect.y0 == p0[k].height
                            } by {
                                assert(extra[k] == cur[keep + k]);
                                assert(cur[cur.len() - i + k] == (AtlasEntry { key: ups@[k].key, rect: ups@[k].rect, last_use: self.frame }));
                            }
                            assert forall|j: int| 0 <= j < fin.len() implies contains_entry(s0, #[trigger] fin[j]) by {
                                assert(fin[j] == cur[j]);
                            }
                            assert(!resident(cur, p0[i as int].key));
                            assert forall|j: int| 0 <= j < fin.len() implies (#[trigger] fin[j]).key != p0[i as int].key by {
                                assert(fin[j] == cur[j]);
                            }
                            assert forall|j: int| 0 <= j < fin.len() implies (#[trigger] fin[j]).last_use == self.frame by {
                                assert(fin[j] == cur[j]);
                            }
                            assert forall|j: int| 0 <= j < fin.len() implies (#[trigger] fin[j]).rect.in_bounds() by {
                                assert(fin[j] == cur[j]);
                            }
                            assert forall|a: int, b: int| 0 <= a < fin.len() && 0 <= b < fin.len() && a != b implies (#[trigger] fin[a]).rect.disjoint(#[trigger] fin[b].rect) && fin[a].key != fin[b].key by {
                                assert(fin[a] == cur[a]);
                                assert(fin[b] == cur[b]);
                            }
                            assert(stuck(fin, extra, old(self).pending(), i as int, self.frame));
                            assert forall|a: int| 0 <= a < s0.len() && !contains_entry(fin, #[trigger] s0[a]) implies exists|q: int, w: Seq<AtlasEntry>|
                                #[trigger] no_room_with(w, s0[a], s0, p0, q, self.frame) by {
                                if contains_entry(cur, s0[a]) {
                                    let m = choose|m: int| 0 <= m < cur.len() && cur[m] == s0[a];
                                    if m < keep {
                                        assert(fin[m] == cur[m]);
                                    } else {
                                        let k = m - keep;
                                        assert(cur[cur.len() - i + k] == (AtlasEntry { key: ups@[k].key, rect: ups@[k].rect, last_use: self.frame }));
                                        assert(!resident(s0, p0[k].key));
                                    }
                                }
                            }
                        }
                        return Err(AtlasFull);
                    },
                }
            }
            let rect = spot.unwrap();
            let e = AtlasEntry { key: p.key, rect, last_use: self.frame };
            proof {
                let s = self.entries@;
                assert(!resident(s, p0[i as int].key));
                assert forall|j: int| 0 <= j < s.len() implies e.rect.disjoint(#[trigger] s[j].rect) by {
                    assert(self.entries()[j] == s[j]);
                }
                lemma_push(s, e, self.frame);
                let t = s.push(e);
                assert forall|k: int| i + 1 <= k < p0.len() implies !resident(
                    t,
                    (#[trigger] p0[k]).key,
                ) by {
                    assert(!resident(s, p0[k].key));
                    assert(p0[k].key != p0[i as int].key);
                }
                assert forall|m: int|
                    0 <= m < s0.len() && (#[trigger] s0[m]).last_use == self.frame implies contains_entry(
                    t,
                    s0[m],
                ) by {
                    assert(contains_entry(s, s0[m]));
                }
                assert forall|k: int| 0 <= k < i implies contains_entry(
                    t,
                    AtlasEntry { key: (#[trigger] ups@[k]).key, rect: ups@[k].rect, last_use: self.frame },
                ) by {
                    let f = AtlasEntry { key: ups@[k].key, rect: ups@[k].rect, last_use: self.frame };
                    assert(contains_entry(s, f));
                }
                assert forall|a: int, b: int|
                    0 <= a < s0.len() && 0 <= b < s0.len() && !contains_entry(t, #[trigger] s0[a])
                        && contains_entry(t, #[trigger] s0[b]) && s0[b].last_use < self.frame
                        implies evicts_before(s0[a], s0[b]) by {
                    assert(contains_entry(s, s0[b]));
                }
                assert(p0[i as int].key == e.key);
                assert forall|a: int| 0 <= a < s0.len() && !contains_entry(t, #[trigger] s0[a]) implies exists|q: int, w: Seq<AtlasEntry>|
                    #[trigger] no_room_with(w, s0[a], s0, p0, q, self.frame) by {
                    if s0[a] == e {
                        assert(!resident(s0, p0[i as int].key));
                    }
                }
                assert forall|j: int| 0 <= j < t.len() implies placed_from(s0, p0, self.frame, #[trigger] t[j]) by {
                    if j < s.len() {
                        assert(t[j] == s[j]);
                    }
                }
            }
            self.entries.push(e);
            ups.push(Upload { key: p.key, rect });
            i = i + 1;
        }
        self.pending = Vec::new();
        Ok(ups)
    }

    /// Starts a new frame: entries used so far become evictable. The counter
    /// stops at its largest value.
    pub fn begin_frame(&mut self)
        requires
            old(self).wf(),
        ensures
            final(self).wf(),
            final(self).entries() == old(self).entries(),
            final(self).pending() == old(self).pending(),
            final(self).frame() == if old(self).frame() < u64::MAX {
                (old(self).frame() + 1) as u64
            } else {
                old(self).frame()
            },
    {
        if self.frame < u64::MAX {
            self.frame = self.frame + 1;
        }
    }

    /// The atlas rectangle of `key`, if it is resident.
    pub fn rect_for(&self, key: GlyphKey) -> (r: Option<AtlasRect>)
        requires
            self.wf(),
        ensures
            r == lookup(self.entries(), key),
    {
        let mut i: usize = 0;
        while i < self.entries.len()
            invariant
                self.wf(),
                0 <= i <= self.entries@.len(),
                forall|j: int| 0 <= j < i ==> (#[trigger] self.entries@[j]).key != key,
            decreases self.entries@.len() - i,
        {
            if self.entries[i].key == key {
                proof {
                    lemma_lookup_found(self.entries@, i as int);
                }
                return Some(self.entries[i].rect);
            }
            i = i + 1;
        }
        proof {
            lemma_lookup_absent(self.entries@, key);
        }
        None
    }

    /// Records that `key`, of a `width` x `height` mask, must be resident after
    /// the next commit. A resident entry is marked as used in this frame; a key
    /// already waiting is not queued twice.
    pub fn queue(&mut self, key: GlyphKey, width: u64, height: u64)
        requires
            old(self).wf(),
        ensures
            final(self).wf(),
            final(self).frame() == old(self).frame(),
            final(self).entries() == touch(old(self).entries(), key, old(self).frame()),
            final(self).pending() == if resident(old(self).entries(), key) || pending_has(
                old(self).pending(),
                key,
            ) {
                old(self).pending()
            } else {
                old(self).pending().push(Pending { key, width, height })
            },
    {
        let ghost s0 = self.entries@;
        let mut found = false;
        let mut i: usize = 0;
        while i < self.entries.len()
            invariant
                0 <= i <= s0.len(),
                self.entries@.len() == s0.len(),
                self.pending@ == old(self).pending@,
                self.frame == old(self).frame,
                s0 == old(self).entries@,
                forall|j: int|
                    0 <= j < i ==> #[trigger] self.entries@[j] == touch(s0, key, self.frame)[j],
                forall|j: int| i <= j < s0.len() ==> #[trigger] self.entries@[j] == s0[j],
                found == exists|j: int| 0 <= j < i && (#[trigger] s0[j]).key == key,
            decreases s0.len() - i,
        {
            if self.entries[i].key == key {
                let e = self.entries[i];
                self.entries.set(i, AtlasEntry { last_use: self.frame, ..e });
                found = true;
            }
            i = i + 1;
        }
        assert(self.entries@ =~= touch(s0, key, self.frame));
        assert(found == resident(s0, key));
        if !found {
            let mut j: usize = 0;
            let mut waiting = false;
            while j < self.pending.len()
                invariant
                    0 <= j <= self.pending@.len(),
                    self.pending@ == old(self).pending@,
                    waiting == exists|k: int| 0 <= k < j && (#[trigger] self.pending@[k]).key == key,
                decreases self.pending@.len() - j,
            {
                if self.pending[j].key == key {
                    waiting = true;
                }
                j = j + 1;
            }
            if !waiting {
                self.pending.push(Pending { key, width, height });
            }
        }
        proof {
            let s1 = self.entries@;
            assert forall|k: int| 0 <= k < s1.len() implies (#[trigger] s1[k]).key == s0[k].key
                && s1[k].rect == s0[k].rect by {}
            assert forall|k: int| 0 <= k < self.pending@.len() implies !resident(
                s1,
                (#[trigger] self.pending@[k]).key,
            ) by {
                let pk = self.pending@[k].key;
                if resident(s1, pk) {
                    let m = choose|m: int| 0 <= m < s1.len() && (#[trigger] s1[m]).key == pk;
                    assert(s0[m].key == pk);
                }
            }
        }
    }
}

} // verus!

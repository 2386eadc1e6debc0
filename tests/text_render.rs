use font_ren::atlas::{AtlasRect, GlyphKey, Upload, CACHE_SIZE};
use font_ren::geometry::{PixelRect, Vertex, MAX_VERTICES};
use font_ren::renderer::{count_outlined, FontRen, LaidGlyph, RenderError};

fn key(id: u32) -> GlyphKey {
    GlyphKey { font_id: 0, glyph_id: id, scale_bin: 20, sub_x: 0, sub_y: 0 }
}

fn glyph(id: u32, x0: i32, y0: i32, x1: i32, y1: i32) -> LaidGlyph {
    LaidGlyph { key: key(id), bbox: Some(PixelRect { x0, y0, x1, y1 }) }
}

fn space(id: u32) -> LaidGlyph {
    LaidGlyph { key: key(id), bbox: None }
}

// "Hi" at scale 20 from pen (0, 0).
fn hi() -> Vec<LaidGlyph> {
    vec![glyph('H' as u32, 1, -14, 12, 0), glyph('i' as u32, 14, -15, 16, 0)]
}

fn ab() -> Vec<LaidGlyph> {
    vec![glyph('a' as u32, 1, -11, 10, 0), glyph('b' as u32, 11, -15, 20, 0)]
}

fn ba() -> Vec<LaidGlyph> {
    vec![glyph('b' as u32, 1, -15, 10, 0), glyph('a' as u32, 11, -11, 20, 0)]
}

fn overlap(a: &AtlasRect, b: &AtlasRect) -> bool {
    a.x0 < b.x1 && b.x0 < a.x1 && a.y0 < b.y1 && b.y0 < a.y1
}

#[test]
fn empty_frame() {
    let mut r = FontRen::new();
    r.clear();
    assert_eq!(r.vertex_count(), 0);
    assert!(r.vertices().is_empty());
}

#[test]
fn single_ascii_word() {
    let mut r = FontRen::new();
    r.clear();
    let ups = r.draw_text(&hi()).unwrap();
    assert_eq!(r.vertex_count(), 12);
    assert_eq!(ups.len(), 2);
    assert!(r.rect_for(key('H' as u32)).is_some());
    assert!(r.rect_for(key('i' as u32)).is_some());
    assert!(!overlap(&ups[0].rect, &ups[1].rect));
}

#[test]
fn cache_reuse_across_frames() {
    let mut r = FontRen::new();
    r.clear();
    let first = r.draw_text(&ab()).unwrap();
    assert_eq!(first.len(), 2);
    r.clear();
    let second = r.draw_text(&ba()).unwrap();
    assert_eq!(second.len(), 0);
    assert_eq!(r.vertex_count(), 12);
}

#[test]
fn geometry_overflow() {
    let m = vec![glyph('m' as u32, 1, -11, 16, 0)];
    let mut r = FontRen::new();
    r.clear();
    for _ in 0..1333 {
        r.draw_text(&m).unwrap();
    }
    assert_eq!(r.vertex_count(), 1333 * 6);
    assert_eq!(r.draw_text(&m), Err(RenderError::GeometryOverflow));
    assert_eq!(r.vertex_count(), 1333 * 6);
    assert!(r.vertex_count() <= MAX_VERTICES);
}

#[test]
fn overflow_on_last_glyph_of_frame() {
    let n = MAX_VERTICES / 6 + 1;
    let glyphs: Vec<LaidGlyph> = (0..n as u32).map(|i| glyph(i % 50, 0, -4, 4, 0)).collect();
    let mut r = FontRen::new();
    r.clear();
    for g in &glyphs[..n - 1] {
        r.draw_text(&vec![*g]).unwrap();
    }
    assert_eq!(r.draw_text(&vec![glyphs[n - 1]]), Err(RenderError::GeometryOverflow));
}

#[test]
fn empty_string_draws_nothing() {
    let mut r = FontRen::new();
    r.clear();
    let ups = r.draw_text(&Vec::new()).unwrap();
    assert!(ups.is_empty());
    assert_eq!(r.vertex_count(), 0);
}

#[test]
fn whitespace_has_no_geometry() {
    let mut r = FontRen::new();
    r.clear();
    let text = vec![glyph(1, 0, -10, 8, 0), space(2), glyph(3, 12, -10, 20, 0)];
    assert_eq!(count_outlined(&text), 2);
    let ups = r.draw_text(&text).unwrap();
    assert_eq!(ups.len(), 2);
    assert_eq!(r.vertex_count(), 12);
    assert_eq!(r.rect_for(key(2)), None);
}

#[test]
fn draw_twice_in_one_frame() {
    let mut r = FontRen::new();
    r.clear();
    let first = r.draw_text(&hi()).unwrap();
    let second = r.draw_text(&hi()).unwrap();
    assert_eq!(first.len(), 2);
    assert_eq!(second.len(), 0);
    let v = r.vertices();
    assert_eq!(v.len(), 24);
    assert_eq!(v[..12], v[12..]);
}

#[test]
fn quad_matches_entry_and_bbox() {
    let mut r = FontRen::new();
    r.clear();
    let ups = r.draw_text(&vec![glyph(7, 3, -12, 11, 2)]).unwrap();
    let uv = ups[0].rect;
    assert_eq!(r.rect_for(key(7)), Some(uv));
    assert_eq!(uv.x1 - uv.x0, 8);
    assert_eq!(uv.y1 - uv.y0, 14);
    let expected = vec![
        Vertex::new(3, 12, uv.x0, uv.y0),
        Vertex::new(11, 12, uv.x1, uv.y0),
        Vertex::new(11, -2, uv.x1, uv.y1),
        Vertex::new(11, -2, uv.x1, uv.y1),
        Vertex::new(3, -2, uv.x0, uv.y1),
        Vertex::new(3, 12, uv.x0, uv.y0),
    ];
    assert_eq!(r.vertices(), &expected);
}

#[test]
fn glyph_larger_than_atlas_is_full() {
    let mut r = FontRen::new();
    r.clear();
    let big = vec![glyph(1, 0, -10, CACHE_SIZE as i32 + 1, 0)];
    assert_eq!(r.draw_text(&big), Err(RenderError::AtlasFull));
    assert_eq!(r.vertex_count(), 0);
}

#[test]
fn too_much_area_in_one_frame_is_full() {
    let mut r = FontRen::new();
    r.clear();
    let text: Vec<LaidGlyph> = (0..5).map(|i| glyph(i, 0, -256, 256, 0)).collect();
    assert_eq!(r.draw_text(&text), Err(RenderError::AtlasFull));
    assert_eq!(r.vertex_count(), 0);
    // the same frame's glyphs stay pinned: a fifth quarter still has no room
    for i in 0..5 {
        assert_eq!(r.rect_for(key(i)), None);
    }
    let four: Vec<LaidGlyph> = (0..4).map(|i| glyph(i, 0, -256, 256, 0)).collect();
    let ups = r.draw_text(&four).unwrap();
    assert_eq!(ups.len(), 4);
    assert_eq!(r.draw_text(&vec![glyph(9, 0, -256, 256, 0)]), Err(RenderError::AtlasFull));
    for i in 0..4 {
        assert!(r.rect_for(key(i)).is_some());
    }
}

#[test]
fn older_entries_are_evicted_in_a_new_frame() {
    let mut r = FontRen::new();
    r.clear();
    let four: Vec<LaidGlyph> = (0..4).map(|i| glyph(i, 0, -256, 256, 0)).collect();
    r.draw_text(&four).unwrap();
    r.clear();
    let ups = r.draw_text(&vec![glyph(9, 0, -256, 256, 0)]).unwrap();
    assert_eq!(ups.len(), 1);
    assert_eq!(r.vertex_count(), 6);
    let live = (0..4).filter(|i| r.rect_for(key(*i)).is_some()).count();
    assert_eq!(live, 3);
    let placed = r.rect_for(key(9)).unwrap();
    for i in 0..4 {
        if let Some(rect) = r.rect_for(key(i)) {
            assert!(!overlap(&rect, &placed));
        }
    }
}

#[test]
fn eviction_prefers_oldest() {
    let mut r = FontRen::new();
    r.clear();
    r.draw_text(&vec![glyph(0, 0, -256, 256, 0), glyph(1, 0, -256, 256, 0)]).unwrap();
    r.clear();
    r.draw_text(&vec![glyph(2, 0, -256, 256, 0), glyph(3, 0, -256, 256, 0)]).unwrap();
    r.clear();
    r.draw_text(&vec![glyph(4, 0, -256, 256, 0)]).unwrap();
    // one of the two oldest goes, both of the newer frame stay
    assert!(r.rect_for(key(2)).is_some());
    assert!(r.rect_for(key(3)).is_some());
    let old_left = (0..2).filter(|i| r.rect_for(key(*i)).is_some()).count();
    assert_eq!(old_left, 1);
}

#[test]
fn uploads_are_disjoint_and_inside() {
    let mut r = FontRen::new();
    r.clear();
    let text: Vec<LaidGlyph> = (0..60).map(|i| glyph(i, 0, -(10 + (i as i32 % 7) * 5), 9 + i as i32 % 11, 0)).collect();
    let ups: Vec<Upload> = r.draw_text(&text).unwrap();
    assert_eq!(ups.len(), 60);
    assert_eq!(r.vertex_count(), 360);
    for (i, a) in ups.iter().enumerate() {
        assert!(a.rect.x1 <= CACHE_SIZE && a.rect.y1 <= CACHE_SIZE);
        for b in &ups[i + 1..] {
            assert!(!overlap(&a.rect, &b.rect));
        }
    }
}

#[test]
fn clear_restores_after_error() {
    let mut r = FontRen::new();
    r.clear();
    r.draw_text(&hi()).unwrap();
    let big = vec![glyph(1, 0, -10, 600, 0)];
    assert_eq!(r.draw_text(&big), Err(RenderError::AtlasFull));
    assert_eq!(r.vertex_count(), 12);
    r.clear();
    assert_eq!(r.vertex_count(), 0);
    assert!(r.draw_text(&hi()).unwrap().is_empty());
    assert_eq!(r.vertex_count(), 12);
}

#[test]
fn glyph_placed_in_failed_call_is_uploaded_later() {
    let mut r = FontRen::new();
    r.clear();
    let text = vec![glyph(1, 0, -20, 10, 0), glyph(2, 0, -10, 600, 0)];
    assert_eq!(r.draw_text(&text), Err(RenderError::AtlasFull));
    assert_eq!(r.rect_for(key(1)), None);
    let ups = r.draw_text(&vec![glyph(1, 0, -20, 10, 0)]).unwrap();
    assert_eq!(ups.len(), 1);
    assert_eq!(ups[0].key, key(1));
    assert_eq!(r.rect_for(key(1)), Some(ups[0].rect));
    r.clear();
    assert!(r.draw_text(&vec![glyph(1, 0, -20, 10, 0)]).unwrap().is_empty());
}

#[test]
fn resident_glyphs_keep_their_rects() {
    let mut r = FontRen::new();
    r.clear();
    r.draw_text(&ab()).unwrap();
    let a = r.rect_for(key('a' as u32));
    let b = r.rect_for(key('b' as u32));
    r.clear();
    assert!(r.draw_text(&ba()).unwrap().is_empty());
    assert_eq!(r.rect_for(key('a' as u32)), a);
    assert_eq!(r.rect_for(key('b' as u32)), b);
}

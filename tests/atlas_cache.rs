use font_ren::atlas::{Atlas, AtlasFull, GlyphKey, CACHE_SIZE};

fn key(id: u32) -> GlyphKey {
    GlyphKey { font_id: 0, glyph_id: id, scale_bin: 10, sub_x: 0, sub_y: 0 }
}

#[test]
fn queue_is_idempotent() {
    let mut a = Atlas::new();
    a.queue(key(1), 10, 12);
    a.queue(key(1), 10, 12);
    let ups = a.commit().unwrap();
    assert_eq!(ups.len(), 1);
    assert_eq!(ups[0].key, key(1));
    assert_eq!(ups[0].rect.x1 - ups[0].rect.x0, 10);
    assert_eq!(ups[0].rect.y1 - ups[0].rect.y0, 12);
    assert_eq!(a.rect_for(key(1)), Some(ups[0].rect));
}

#[test]
fn resident_glyph_is_not_uploaded_again() {
    let mut a = Atlas::new();
    a.queue(key(1), 10, 12);
    let first = a.commit().unwrap();
    a.begin_frame();
    a.queue(key(1), 10, 12);
    let second = a.commit().unwrap();
    assert!(second.is_empty());
    assert_eq!(a.rect_for(key(1)), Some(first[0].rect));
}

#[test]
fn first_glyph_goes_to_origin() {
    let mut a = Atlas::new();
    a.queue(key(3), 5, 7);
    let ups = a.commit().unwrap();
    assert_eq!((ups[0].rect.x0, ups[0].rect.y0, ups[0].rect.x1, ups[0].rect.y1), (0, 0, 5, 7));
}

#[test]
fn zero_sized_mask_is_full() {
    let mut a = Atlas::new();
    a.queue(key(3), 0, 7);
    assert_eq!(a.commit(), Err(AtlasFull));
    assert_eq!(a.rect_for(key(3)), None);
}

#[test]
fn smaller_of_equally_old_is_evicted_first() {
    let mut a = Atlas::new();
    a.queue(key(1), CACHE_SIZE as u64, 256);
    a.queue(key(2), 256, 256);
    a.queue(key(3), 200, 200);
    a.commit().unwrap();
    a.begin_frame();
    a.queue(key(4), 100, 256);
    let ups = a.commit().unwrap();
    assert_eq!(ups.len(), 1);
    assert_eq!(a.rect_for(key(3)), None);
    assert!(a.rect_for(key(1)).is_some());
    assert!(a.rect_for(key(2)).is_some());
}

#[test]
fn failed_commit_withdraws_its_placements() {
    let mut a = Atlas::new();
    a.queue(key(1), 10, 10);
    a.queue(key(2), CACHE_SIZE as u64 + 1, 10);
    assert_eq!(a.commit(), Err(AtlasFull));
    assert_eq!(a.rect_for(key(1)), None);
    assert_eq!(a.rect_for(key(2)), None);
}

#[test]
fn commit_with_nothing_waiting_keeps_entries() {
    let mut a = Atlas::new();
    a.queue(key(1), 10, 10);
    let ups = a.commit().unwrap();
    a.begin_frame();
    assert!(a.commit().unwrap().is_empty());
    assert_eq!(a.rect_for(key(1)), Some(ups[0].rect));
}

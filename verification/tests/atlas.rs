use scene_compiler::atlas::{
    align_up, Advance, AtlasError, DynamicAtlas, Key, OutlineBounds, Pen, Raster, Rect, Value,
};
use scene_compiler::vertex_buf::ByteRange;

fn raster(width: u32, height: u32, fill: u8) -> Raster {
    Raster {
        width,
        height,
        advance: Advance { x: 640, y: 0 },
        bounds: OutlineBounds { xmin: 64, ymin: -128, width: 512, height: 704 },
        data: vec![fill; (width * height) as usize],
    }
}

fn key(c: char) -> Key {
    Key { char: c, scale: 0x4140_0000 }
}

fn overlap(a: &Rect, b: &Rect) -> bool {
    let (ax, ay, bx, by) = (a.x as i64, a.y as i64, b.x as i64, b.y as i64);
    ax < bx + b.width as i64
        && bx < ax + a.width as i64
        && ay < by + b.height as i64
        && by < ay + a.height as i64
}

#[test]
fn a_glyph_is_placed_on_a_new_page() {
    let mut atlas = DynamicAtlas::new(8, 4);
    assert_eq!(atlas.pages(), 0);
    assert!(!atlas.has_pending_glyphs());
    assert_eq!(atlas.glyph(&key('a')), None);

    let value = atlas.place(&key('a'), raster(10, 12, 7), 100, 64).unwrap();
    assert_eq!(value.page_idx, 0);
    assert_eq!(value.page_rect, Rect { x: 0, y: 0, width: 10, height: 12 });
    assert_eq!(value.advance, Advance { x: 640, y: 0 });
    assert_eq!(value.bounds, OutlineBounds { xmin: 64, ymin: -128, width: 512, height: 704 });
    assert_eq!(atlas.pages(), 1);
    assert_eq!(atlas.glyph(&key('a')), Some(value));
    assert!(atlas.has_pending_glyphs());

    let pending = atlas.pop_pending_glyph().unwrap();
    assert_eq!(pending.buf_range, ByteRange { start: 0, end: 120 });
    assert_eq!(pending.page_idx, 0);
    assert_eq!(pending.page_rect, value.page_rect);
    // the staging buffer has the length asked for, or that of the glyph if that is more
    assert_eq!(pending.buf.len(), 120);
    assert_eq!(&pending.buf[0..120], &vec![7u8; 120][..]);
    assert!(atlas.pop_pending_glyph().is_none());
    assert!(!atlas.has_pending_glyphs());
}

#[test]
fn a_cached_glyph_is_not_placed_again() {
    let mut atlas = DynamicAtlas::new(8, 4);
    let first = atlas.place(&key('a'), raster(10, 12, 7), 100, 64).unwrap();
    let again = atlas.place(&key('a'), raster(3, 3, 9), 100, 64).unwrap();
    assert_eq!(first, again);
    assert_eq!(atlas.pages(), 1);
    assert!(atlas.pop_pending_glyph().is_some());
    assert!(atlas.pop_pending_glyph().is_none());
    // the same character at another size is another glyph
    let other = Key { char: 'a', scale: 0x4180_0000 };
    assert_eq!(atlas.glyph(&other), None);
}

#[test]
fn glyphs_of_a_page_lie_apart() {
    let mut atlas = DynamicAtlas::new(8, 4);
    let mut placed: Vec<Value> = Vec::new();
    for (i, c) in "abcdefghijklmnopqrstuvwxyz".chars().enumerate() {
        let side = 5 + (i as u32 % 7);
        let value = atlas.place(&key(c), raster(side, side + 2, i as u8), 64, 64).unwrap();
        assert_eq!(value.page_rect.width, side);
        assert_eq!(value.page_rect.height, side + 2);
        assert!(value.page_rect.x >= 0 && value.page_rect.y >= 0);
        assert!(value.page_rect.x as u32 + side <= 64);
        assert!(value.page_rect.y as u32 + side + 2 <= 64);
        assert!(value.page_idx < atlas.pages());
        for other in &placed {
            if other.page_idx == value.page_idx {
                assert!(!overlap(&other.page_rect, &value.page_rect));
            }
        }
        placed.push(value);
    }
    assert_eq!(placed[0].page_rect, Rect { x: 0, y: 0, width: 5, height: 7 });
    assert_ne!(placed[1].page_rect, placed[0].page_rect);
}

#[test]
fn many_glyphs_fill_many_pages() {
    let mut atlas = DynamicAtlas::new(4, 4);
    let mut placed: Vec<Value> = Vec::new();
    let mut seed: u32 = 12345;
    for i in 0..1500u32 {
        seed = seed.wrapping_mul(1103515245).wrapping_add(12345);
        let width = 1 + (seed >> 16) % 40;
        seed = seed.wrapping_mul(1103515245).wrapping_add(12345);
        let height = 1 + (seed >> 16) % 40;
        let key = Key { char: 'x', scale: i };
        let mut glyph = raster(width, height, 0);
        glyph.data = vec![(i % 251) as u8; 3];
        let pages = atlas.pages();
        let value = atlas.place(&key, glyph, 8, 128).unwrap();
        assert_eq!((value.page_rect.width, value.page_rect.height), (width, height));
        assert!(value.page_rect.x >= 0 && value.page_rect.y >= 0);
        assert!(value.page_rect.x as u32 + width <= 128);
        assert!(value.page_rect.y as u32 + height <= 128);
        assert!(value.page_idx <= pages);
        assert_eq!(atlas.pages(), if value.page_idx == pages { pages + 1 } else { pages });
        placed.push(value);
    }
    for (i, a) in placed.iter().enumerate() {
        for b in &placed[..i] {
            assert!(a.page_idx != b.page_idx || !overlap(&a.page_rect, &b.page_rect));
        }
    }
    assert!(atlas.pages() > 10);
    let mut pending = 0;
    while let Some(glyph) = atlas.pop_pending_glyph() {
        pending += 1;
        let bytes = &glyph.buf[glyph.buf_range.start..glyph.buf_range.end];
        assert_eq!(bytes, &vec![((1500 - pending) % 251) as u8; 3][..]);
    }
    assert_eq!(pending, 1500);
}

#[test]
fn a_page_which_is_full_is_followed_by_another() {
    let mut atlas = DynamicAtlas::new(1, 1);
    let first = atlas.place(&key('a'), raster(40, 60, 1), 16, 64).unwrap();
    let second = atlas.place(&key('b'), raster(40, 60, 2), 16, 64).unwrap();
    assert_eq!(first.page_idx, 0);
    assert_eq!(second.page_idx, 1);
    assert_eq!(atlas.pages(), 2);
    // a small glyph still finds room on the first page
    let third = atlas.place(&key('c'), raster(20, 60, 3), 16, 64).unwrap();
    assert_eq!(third.page_idx, 0);
    assert!(!overlap(&first.page_rect, &third.page_rect));
}

#[test]
fn a_glyph_without_coverage_takes_one_blank_texel() {
    let mut atlas = DynamicAtlas::new(8, 4);
    let value = atlas.place(&key(' '), raster(0, 0, 0), 32, 64).unwrap();
    assert_eq!(value.page_rect.width, 1);
    assert_eq!(value.page_rect.height, 1);
    let pending = atlas.pop_pending_glyph().unwrap();
    assert_eq!(pending.buf_range, ByteRange { start: 0, end: 1 });
    assert_eq!(pending.buf.len(), 32);
    assert_eq!(pending.buf[0], 0);
}

#[test]
fn a_glyph_larger_than_a_page_is_refused() {
    let mut atlas = DynamicAtlas::new(8, 4);
    assert_eq!(atlas.place(&key('W'), raster(100, 10, 1), 32, 64), Err(AtlasError::GlyphTooLarge));
    assert_eq!(atlas.pages(), 0);
    assert_eq!(atlas.glyph(&key('W')), None);
    assert!(!atlas.has_pending_glyphs());
    // a raster with bytes but no width cannot be placed either
    let mut odd = raster(4, 4, 1);
    odd.width = 0;
    assert_eq!(atlas.place(&key('o'), odd, 32, 64), Err(AtlasError::GlyphTooLarge));
    let mut wide = raster(1, 1, 1);
    wide.width = 0x1_0000;
    assert_eq!(atlas.place(&key('w'), wide, 32, 64), Err(AtlasError::GlyphTooLarge));
}

#[test]
fn glyphs_are_staged_behind_each_other() {
    let mut atlas = DynamicAtlas::new(8, 4);
    // 120 bytes fill a buffer of their own
    atlas.place(&key('a'), raster(10, 12, 1), 100, 64).unwrap();
    // 10 bytes do not fit behind them: a new buffer of 100 bytes
    atlas.place(&key('b'), raster(2, 5, 2), 100, 64).unwrap();
    // 20 bytes fit behind the 10, at the offset 16 which the atom of 8 bytes gives
    atlas.place(&key('c'), raster(4, 5, 3), 100, 64).unwrap();

    let c = atlas.pop_pending_glyph().unwrap();
    assert_eq!(c.buf_range, ByteRange { start: 16, end: 36 });
    assert_eq!(c.buf.len(), 100);
    assert_eq!(&c.buf[16..36], &vec![3u8; 20][..]);
    assert_eq!(&c.buf[0..10], &vec![2u8; 10][..]);
    assert_eq!(&c.buf[10..16], &vec![0u8; 6][..]);
    let b = atlas.pop_pending_glyph().unwrap();
    assert_eq!(b.buf_range, ByteRange { start: 0, end: 10 });
    assert_eq!(b.buf.len(), 100);
    let a = atlas.pop_pending_glyph().unwrap();
    assert_eq!(a.buf_range, ByteRange { start: 0, end: 120 });
    assert_eq!(a.buf.len(), 120);
}

#[test]
fn the_pen_moves_by_the_advance() {
    let value = Value {
        advance: Advance { x: 640, y: -64 },
        bounds: OutlineBounds { xmin: 64, ymin: -128, width: 512, height: 704 },
        page_idx: 3,
        page_rect: Rect { x: 8, y: 16, width: 9, height: 11 },
    };
    let mut pen = Pen { x: 100, y: 0 };
    let glyph = DynamicAtlas::layout(&mut pen, &value);
    assert_eq!(glyph.page_idx, 3);
    assert_eq!(glyph.page_rect, value.page_rect);
    assert_eq!(glyph.screen_x, 100);
    assert_eq!(glyph.screen_y, 576);
    assert_eq!(glyph.screen_width, 512);
    assert_eq!(glyph.screen_height, 704);
    assert_eq!(pen, Pen { x: 740, y: -64 });

    let mut pen = Pen { x: i64::MAX - 1, y: i64::MIN + 1 };
    DynamicAtlas::layout(&mut pen, &value);
    assert_eq!(pen, Pen { x: i64::MAX, y: i64::MIN });
}

#[test]
fn offsets_are_rounded_up() {
    assert_eq!(align_up(0, 8), Some(0));
    assert_eq!(align_up(1, 8), Some(8));
    assert_eq!(align_up(8, 8), Some(8));
    assert_eq!(align_up(120, 8), Some(120));
    assert_eq!(align_up(121, 4), Some(124));
    assert_eq!(align_up(usize::MAX, 1), Some(usize::MAX));
    assert_eq!(align_up(usize::MAX, 2), None);
}

#[test]
fn keys_have_codes_of_their_own() {
    assert_eq!(key('a').encode(), (97u64 << 32) | 0x4140_0000);
    assert_ne!(key('a').encode(), key('b').encode());
    assert_ne!(key('a').encode(), Key { char: 'a', scale: 1 }.encode());
}

use asset_pipeline::atlas::AtlasMeta;
use asset_pipeline::naming::{ase_read_sprites, AseTag};
use asset_pipeline::atlas::{add_frame_sprites, assemble_atlas, fits_in_atlas, pack_atlas, sort_by_height_desc, try_pack_shelf, AtlasFrame, Sprite};

fn sprite(name: &str, width: u32, height: u32) -> Sprite<u32> {
    Sprite { pixmap: 0, name: name.to_string(), width, height, duration: 100 }
}

fn tagged(tag: u32, name: &str, width: u32, height: u32) -> Sprite<u32> {
    Sprite { pixmap: tag, name: name.to_string(), width, height, duration: tag }
}

fn frame(x: u32, y: u32, w: u32, h: u32, duration: u32) -> AtlasFrame {
    AtlasFrame { x, y, w, h, duration }
}

fn no_overlap(frames: &[(String, AtlasFrame)], size: u32) -> bool {
    for (i, (_, a)) in frames.iter().enumerate() {
        if a.x + a.w > size || a.y + a.h > size {
            return false;
        }
        for (_, b) in &frames[i + 1..] {
            let apart = a.x + a.w <= b.x || b.x + b.w <= a.x || a.y + a.h <= b.y || b.y + b.h <= a.y;
            if !apart {
                return false;
            }
        }
    }
    true
}

#[test]
fn shelf_places_side_by_side_then_wraps() {
    let sprites = vec![sprite("a", 8, 8), sprite("b", 6, 5), sprite("c", 4, 4)];
    let frames = try_pack_shelf(&sprites, 16).unwrap();
    assert_eq!(frames.len(), 3);
    assert_eq!(frames[0], ("a".to_string(), frame(0, 0, 8, 8, 100)));
    assert_eq!(frames[1], ("b".to_string(), frame(8, 0, 6, 5, 100)));
    // 14 + 4 > 16: a new shelf below the tallest sprite of the first one
    assert_eq!(frames[2], ("c".to_string(), frame(0, 8, 4, 4, 100)));
}

#[test]
fn shelf_fills_exactly() {
    let sprites = vec![sprite("a", 8, 8), sprite("b", 8, 8), sprite("c", 8, 8), sprite("d", 8, 8)];
    let frames = try_pack_shelf(&sprites, 16).unwrap();
    assert_eq!(frames[3].1, frame(8, 8, 8, 8, 100));
    assert!(no_overlap(&frames, 16));
}

#[test]
fn shelf_refuses_too_wide() {
    assert!(try_pack_shelf(&[sprite("a", 17, 1)], 16).is_none());
}

#[test]
fn shelf_refuses_too_tall() {
    assert!(try_pack_shelf(&[sprite("a", 1, 17)], 16).is_none());
    let sprites = vec![sprite("a", 16, 10), sprite("b", 16, 10)];
    assert!(try_pack_shelf(&sprites, 16).is_none());
}

#[test]
fn shelf_handles_huge_heights_without_overflow() {
    assert!(try_pack_shelf(&[sprite("a", 1, u32::MAX)], 2048).is_none());
}

#[test]
fn shelf_empty_is_empty() {
    let none: Vec<Sprite<u32>> = Vec::new();
    assert_eq!(try_pack_shelf(&none, 16), Some(Vec::new()));
}

#[test]
fn sort_is_tallest_first_and_stable() {
    let sprites = vec![
        tagged(1, "a", 1, 3),
        tagged(2, "b", 1, 7),
        tagged(3, "c", 1, 3),
        tagged(4, "d", 1, 9),
        tagged(5, "e", 1, 7),
    ];
    let sorted = sort_by_height_desc(sprites);
    let names: Vec<&str> = sorted.iter().map(|s| s.name.as_str()).collect();
    assert_eq!(names, vec!["d", "b", "e", "a", "c"]);
    let payloads: Vec<u32> = sorted.iter().map(|s| s.pixmap).collect();
    assert_eq!(payloads, vec![4, 2, 5, 1, 3]);
}

#[test]
fn sort_matches_std_stable_sort() {
    let heights = [5u32, 1, 5, 3, 3, 9, 0, 1, 5, 2, 9, 3];
    let sprites: Vec<Sprite<u32>> =
        heights.iter().enumerate().map(|(i, h)| tagged(i as u32, "s", 1, *h)).collect();
    let mut expected: Vec<u32> = (0..heights.len() as u32).collect();
    expected.sort_by_key(|i| std::cmp::Reverse(heights[*i as usize]));
    let sorted = sort_by_height_desc(sprites);
    let got: Vec<u32> = sorted.iter().map(|s| s.pixmap).collect();
    assert_eq!(got, expected);
}

#[test]
fn pack_picks_smallest_side() {
    let (size, sorted, frames) = pack_atlas(vec![sprite("a", 10, 10)]);
    assert_eq!(size, 16);
    assert_eq!(sorted.len(), 1);
    assert_eq!(frames[0].1, frame(0, 0, 10, 10, 100));

    let (size, _, _) = pack_atlas(vec![sprite("a", 10, 10), sprite("b", 10, 10)]);
    assert_eq!(size, 32);

    let (size, _, frames) = pack_atlas(vec![sprite("a", 2048, 2048)]);
    assert_eq!(size, 2048);
    assert_eq!(frames[0].1, frame(0, 0, 2048, 2048, 100));
}

#[test]
fn pack_sorts_before_placing() {
    let (size, sorted, frames) = pack_atlas(vec![sprite("low", 10, 4), sprite("high", 10, 12)]);
    assert_eq!(size, 16);
    assert_eq!(sorted[0].name, "high");
    assert_eq!(frames[0], ("high".to_string(), frame(0, 0, 10, 12, 100)));
    // 10 + 10 > 16: the second sprite opens a shelf under the first
    assert_eq!(frames[1], ("low".to_string(), frame(0, 12, 10, 4, 100)));
}

#[test]
fn pack_layout_has_no_overlap() {
    let mut sprites = Vec::new();
    for i in 0..40u32 {
        sprites.push(sprite("s", 3 + (i * 7) % 23, 2 + (i * 11) % 19));
    }
    assert!(fits_in_atlas(&sprites));
    let (size, _, frames) = pack_atlas(sprites);
    assert_eq!(frames.len(), 40);
    assert!(no_overlap(&frames, size));
}

#[test]
fn fits_in_atlas_limits() {
    assert!(fits_in_atlas(&[sprite("a", 2048, 2048)]));
    assert!(!fits_in_atlas(&[sprite("a", 2049, 1)]));
    assert!(!fits_in_atlas(&[sprite("a", 2048, 2048), sprite("b", 1, 1)]));
    let none: Vec<Sprite<u32>> = Vec::new();
    assert!(fits_in_atlas(&none));
    let (size, _, frames) = pack_atlas(none);
    assert_eq!(size, 16);
    assert!(frames.is_empty());
}

#[test]
fn meta_frame_is_last_entry_of_name() {
    let meta = AtlasMeta {
        animations: vec![],
        frames: vec![
            ("a".to_string(), frame(0, 0, 1, 1, 1)),
            ("b".to_string(), frame(1, 0, 1, 1, 2)),
            ("a".to_string(), frame(2, 0, 1, 1, 3)),
        ],
    };
    assert_eq!(meta.frame(&"a".to_string()), Some(frame(2, 0, 1, 1, 3)));
    assert_eq!(meta.frame(&"b".to_string()), Some(frame(1, 0, 1, 1, 2)));
    assert_eq!(meta.frame(&"c".to_string()), None);
}

#[test]
fn animation_frames_have_atlas_frames() {
    let mut planned = Vec::new();
    let mut animations = Vec::new();
    let tags = vec![AseTag { name: "run".to_string(), from_frame: 0, to_frame: 1 }];
    ase_read_sprites("hero", &[10, 20], &tags, &mut planned, &mut animations);
    let sprites: Vec<Sprite<u32>> = planned
        .iter()
        .map(|f| Sprite { pixmap: 0, name: f.name.clone(), width: 4, height: 4 + f.frame_index as u32, duration: f.duration })
        .collect();
    let (_, _, frames) = pack_atlas(sprites);
    let meta = AtlasMeta { animations, frames };
    for (_, names) in &meta.animations {
        for n in names {
            assert!(meta.frame(n).is_some());
        }
    }
}

#[test]
fn frame_sprites_take_names_and_images_in_order() {
    let mut planned = Vec::new();
    let mut animations = Vec::new();
    ase_read_sprites("coin", &[30, 40], &[], &mut planned, &mut animations);
    let mut sprites = vec![sprite("old", 2, 2)];
    add_frame_sprites(planned, vec![(7u32, 3, 5), (8u32, 6, 2)], &mut sprites);
    assert_eq!(sprites.len(), 3);
    assert_eq!(sprites[0].name, "old");
    assert_eq!((sprites[1].name.as_str(), sprites[1].pixmap, sprites[1].width, sprites[1].height, sprites[1].duration), ("coin-0", 7, 3, 5, 30));
    assert_eq!((sprites[2].name.as_str(), sprites[2].pixmap, sprites[2].width, sprites[2].height, sprites[2].duration), ("coin-1", 8, 6, 2, 40));
}

#[test]
fn assembled_atlas_frames_every_animation_frame() {
    let mut planned = Vec::new();
    let mut animations = Vec::new();
    let tags = vec![AseTag { name: "walk".to_string(), from_frame: 0, to_frame: 2 }];
    ase_read_sprites("cat", &[10, 20, 30], &tags, &mut planned, &mut animations);
    let mut sprites = Vec::new();
    add_frame_sprites(planned, vec![(1u32, 10, 10), (2u32, 10, 12), (3u32, 10, 11)], &mut sprites);
    assert!(fits_in_atlas(&sprites));
    let (side, sorted, meta) = assemble_atlas(sprites, animations);
    assert_eq!(side, 32);
    assert_eq!(sorted.iter().map(|s| s.pixmap).collect::<Vec<_>>(), vec![2, 3, 1]);
    assert_eq!(meta.animations, vec![("cat-walk".to_string(), vec!["cat-walk-0".to_string(), "cat-walk-1".to_string(), "cat-walk-2".to_string()])]);
    assert_eq!(meta.frame(&"cat-walk-1".to_string()), Some(frame(0, 0, 10, 12, 20)));
    assert_eq!(meta.frame(&"cat-walk-2".to_string()), Some(frame(10, 0, 10, 11, 30)));
    assert_eq!(meta.frame(&"cat-walk-0".to_string()), Some(frame(20, 0, 10, 10, 10)));
    assert!(no_overlap(&meta.frames, side));
}

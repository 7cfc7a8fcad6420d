use asset_pipeline::naming::{ase_read_sprites, decimal, is_aseprite_file, sprite_name, AseTag, FrameSprite};

fn tag(name: &str, from_frame: usize, to_frame: usize) -> AseTag {
    AseTag { name: name.to_string(), from_frame, to_frame }
}

fn views(sprites: &[FrameSprite]) -> Vec<(usize, String, u32)> {
    sprites.iter().map(|f| (f.frame_index, f.name.clone(), f.duration)).collect()
}

fn s(x: &str) -> String {
    x.to_string()
}

#[test]
fn decimal_writes_like_format() {
    for n in [0usize, 7, 10, 99, 100, 1234, 1000000, usize::MAX] {
        assert_eq!(decimal(n), format!("{n}"));
    }
}

#[test]
fn untagged_file_makes_one_animation() {
    let mut sprites = Vec::new();
    let mut animations = Vec::new();
    ase_read_sprites("ship", &[100, 120, 90], &[], &mut sprites, &mut animations);
    assert_eq!(
        views(&sprites),
        vec![(0, s("ship-0"), 100), (1, s("ship-1"), 120), (2, s("ship-2"), 90)]
    );
    assert_eq!(animations, vec![(s("ship"), vec![s("ship-0"), s("ship-1"), s("ship-2")])]);
}

#[test]
fn tagged_file_makes_one_animation_per_tag() {
    let mut sprites = Vec::new();
    let mut animations = Vec::new();
    let tags = vec![tag("idle", 0, 1), tag("run", 2, 4)];
    ase_read_sprites("hero", &[10, 11, 12, 13, 14], &tags, &mut sprites, &mut animations);
    assert_eq!(
        views(&sprites),
        vec![
            (0, s("hero-idle-0"), 10),
            (1, s("hero-idle-1"), 11),
            (2, s("hero-run-0"), 12),
            (3, s("hero-run-1"), 13),
            (4, s("hero-run-2"), 14),
        ]
    );
    assert_eq!(
        animations,
        vec![
            (s("hero-idle"), vec![s("hero-idle-0"), s("hero-idle-1")]),
            (s("hero-run"), vec![s("hero-run-0"), s("hero-run-1"), s("hero-run-2")]),
        ]
    );
}

#[test]
fn tags_may_overlap_and_repeat_frames() {
    let mut sprites = Vec::new();
    let mut animations = Vec::new();
    let tags = vec![tag("a", 1, 1), tag("b", 0, 1)];
    ase_read_sprites("x", &[5, 6], &tags, &mut sprites, &mut animations);
    assert_eq!(views(&sprites), vec![(1, s("x-a-0"), 6), (0, s("x-b-0"), 5), (1, s("x-b-1"), 6)]);
    assert_eq!(animations.len(), 2);
}

#[test]
fn reversed_tag_is_empty() {
    let mut sprites = Vec::new();
    let mut animations = Vec::new();
    ase_read_sprites("x", &[5, 6], &[tag("back", 1, 0)], &mut sprites, &mut animations);
    assert!(sprites.is_empty());
    assert_eq!(animations, vec![(s("x-back"), vec![])]);
}

#[test]
fn appends_to_what_is_there() {
    let mut sprites = Vec::new();
    let mut animations = Vec::new();
    ase_read_sprites("a", &[1], &[], &mut sprites, &mut animations);
    ase_read_sprites("b", &[2], &[], &mut sprites, &mut animations);
    assert_eq!(views(&sprites), vec![(0, s("a-0"), 1), (0, s("b-0"), 2)]);
    assert_eq!(animations, vec![(s("a"), vec![s("a-0")]), (s("b"), vec![s("b-0")])]);
}

#[test]
fn aseprite_files_by_extension() {
    assert!(is_aseprite_file("sprites/ship.ase"));
    assert!(is_aseprite_file("sprites/ship.aseprite"));
    assert!(!is_aseprite_file("sprites/ship.png"));
    assert!(!is_aseprite_file("sprites/ase"));
    assert!(!is_aseprite_file("sprites/.ase"));
    assert!(!is_aseprite_file("sprites/ship.ASE"));
}

#[test]
fn sprite_name_is_the_stem() {
    assert_eq!(sprite_name("sprites/ship.ase"), "ship");
    assert_eq!(sprite_name("sprites/ship.v2.ase"), "ship.v2");
    assert_eq!(sprite_name("/"), "");
}

use crunch_gd::{decimal_string, AtlasResourceWriter, Rect, ResourceFormat, SpritePackingError};

fn get_path_relative_to_gd_proj(path: &str, project_dir: Option<&str>) -> Option<String> {
    AtlasResourceWriter::get_path_relative_to_gd_proj(path, project_dir)
}

#[test]
fn decimal_text() {
    assert_eq!(decimal_string(0), "0");
    assert_eq!(decimal_string(7), "7");
    assert_eq!(decimal_string(10), "10");
    assert_eq!(decimal_string(4096), "4096");
    assert_eq!(decimal_string(usize::MAX), usize::MAX.to_string());
}

#[test]
fn relative_path_without_project() {
    assert_eq!(get_path_relative_to_gd_proj("out/atlas.png", None).unwrap(), "out/atlas.png");
}

#[test]
fn relative_path_strips_project_dir() {
    assert_eq!(
        get_path_relative_to_gd_proj("/home/me/game/art/atlas.png", Some("/home/me/game")).unwrap(),
        "art/atlas.png"
    );
    assert_eq!(
        get_path_relative_to_gd_proj("/home/me/game/art/atlas.png", Some("/home/me/game/")).unwrap(),
        "art/atlas.png"
    );
    assert_eq!(get_path_relative_to_gd_proj("game/atlas.png", Some("")).unwrap(), "game/atlas.png");
    assert_eq!(get_path_relative_to_gd_proj("game", Some("game")).unwrap(), "");
}

#[test]
fn relative_path_rejects_non_ancestor() {
    assert!(get_path_relative_to_gd_proj("/home/me/gamer/atlas.png", Some("/home/me/game")).is_none());
    assert!(get_path_relative_to_gd_proj("/a/b", Some("/c")).is_none());
    assert!(get_path_relative_to_gd_proj("/a", Some("/a/b")).is_none());
}

#[test]
fn writer_new_outcomes() {
    let w = AtlasResourceWriter::new("p/x/atlas.png".to_string(), ResourceFormat::Gd4, Some("p".to_string()))
        .unwrap();
    assert_eq!(w.godot_relative_path, "x/atlas.png");
    assert_eq!(w.output_path, "p/x/atlas.png");
    let w = AtlasResourceWriter::new("atlas.png".to_string(), ResourceFormat::Gd3, None).unwrap();
    assert_eq!(w.godot_relative_path, "atlas.png");
    let e = AtlasResourceWriter::new("q/atlas.png".to_string(), ResourceFormat::Gd3, Some("p".to_string()));
    assert!(matches!(e, Err(SpritePackingError::IoError(_))));
}

#[test]
fn gd4_resource_text() {
    let w = AtlasResourceWriter::new("proj/sprites/atlas.png".to_string(), ResourceFormat::Gd4, Some("proj".to_string()))
        .unwrap();
    let text = w.write(&Rect { x: 12, y: 0, w: 34, h: 5 });
    assert_eq!(
        text,
        "[gd_resource type=\"AtlasTexture\" load_steps=2 format=3]\n\n[ext_resource type=\"Texture2D\" path=\"res://sprites/atlas.png\" id=\"1\"]\n\n[resource]\natlas = ExtResource(\"1\")\nregion = Rect2(12, 0, 34, 5)\n\n"
    );
}

#[test]
fn gd3_resource_text() {
    let w = AtlasResourceWriter::new("atlas.png".to_string(), ResourceFormat::Gd3, None).unwrap();
    let text = w.write(&Rect { x: 1, y: 2, w: 3, h: 40 });
    assert_eq!(
        text,
        "[gd_resource type=\"AtlasTexture\" load_steps=2 format=2]\n\n[ext_resource path=\"res://atlas.png\" type=\"Texture\" id=1]\n\n[resource]\nflags = 4\natlas = ExtResource( 1 )\nregion = Rect2( 1, 2, 3, 40 )\n\n"
    );
}

#[test]
fn relative_path_collapses_separators() {
    assert_eq!(get_path_relative_to_gd_proj("/a//b", Some("/a")).unwrap(), "b");
    assert_eq!(get_path_relative_to_gd_proj("/a///b//c/", Some("//a/")).unwrap(), "b/c");
}

#[test]
fn relative_path_skips_current_dir_components() {
    assert_eq!(get_path_relative_to_gd_proj("proj/./x/atlas.png", Some("proj")).unwrap(), "x/atlas.png");
    assert_eq!(get_path_relative_to_gd_proj("./atlas.png", Some(".")).unwrap(), "atlas.png");
}

#[test]
fn relative_path_needs_same_root() {
    assert!(get_path_relative_to_gd_proj("/a/b", Some("a")).is_none());
    assert!(get_path_relative_to_gd_proj("a/b", Some("/a")).is_none());
}

#[test]
fn writer_path_through_doubled_separator() {
    let w = AtlasResourceWriter::new("/g//art/atlas.png".to_string(), ResourceFormat::Gd4, Some("/g".to_string()))
        .unwrap();
    assert_eq!(w.godot_relative_path, "art/atlas.png");
}

use grid_wall_builder::grid::Segment;
use grid_wall_builder::scene_export::{generate_scene_text, SceneNumbers, SegmentText};

struct ExportSettings {
    unit_size: f32,
    z_size: f32,
    include_backplanes: bool,
}

/// The scene that the application writes: its numbers formatted as `f32`s.
fn generate_scene(
    root_name: &str,
    grid_w: usize,
    grid_h: usize,
    settings: &ExportSettings,
    segments: &[Segment],
) -> String {
    let total_height = grid_h as f32 * settings.unit_size;
    let texts: Vec<SegmentText> = segments
        .iter()
        .map(|segment| {
            let width = segment.width as f32 * settings.unit_size;
            let height = segment.height as f32 * settings.unit_size;
            let world_x = segment.start_x as f32 * settings.unit_size;
            let world_y = segment.start_y as f32 * settings.unit_size;
            SegmentText {
                width: width.to_string(),
                height: height.to_string(),
                offset_x: (world_x + width / 2.0).to_string(),
                offset_y: (total_height - (world_y + height / 2.0)).to_string(),
            }
        })
        .collect();
    let backplane_margin = settings.z_size * 0.0005;
    let numbers = SceneNumbers {
        unit_size: settings.unit_size.to_string(),
        z_size: settings.z_size.to_string(),
        backplane_offset_z: (-(settings.z_size / 2.0 + backplane_margin)).to_string(),
    };
    generate_scene_text(
        root_name,
        grid_w,
        grid_h,
        &numbers,
        settings.include_backplanes,
        &texts,
    )
}

#[test]
fn scene_contains_root_node() {
    let settings = ExportSettings {
        unit_size: 1.0,
        z_size: 0.1,
        include_backplanes: true,
    };

    let scene = generate_scene(
        "Root",
        1,
        1,
        &settings,
        &[Segment {
            start_x: 0,
            start_y: 0,
            width: 1,
            height: 1,
        }],
    );

    assert!(scene.contains("[node name=\"Root\" type=\"Node3D\"]"));
    assert!(scene.contains("[node name=\"BoxMeshes\" type=\"Node3D\" parent=\".\"]"));
    assert!(scene.contains("[node name=\"BackPlanes\" type=\"Node3D\" parent=\".\"]"));
}

#[test]
fn scene_contains_backplane_node() {
    let settings = ExportSettings {
        unit_size: 1.0,
        z_size: 0.1,
        include_backplanes: true,
    };

    let scene = generate_scene(
        "Root",
        1,
        1,
        &settings,
        &[Segment {
            start_x: 0,
            start_y: 0,
            width: 1,
            height: 1,
        }],
    );

    assert!(scene.contains("[node name=\"Segment_0\" type=\"StaticBody3D\" parent=\"BoxMeshes\"]"));
    assert!(scene.contains(
        "[node name=\"MeshInstance3D\" type=\"MeshInstance3D\" parent=\"BoxMeshes/Segment_0\"]"
    ));
    assert!(scene.contains("[sub_resource type=\"PlaneMesh\" id=\"PlaneMesh_0\"]"));
    assert!(scene.contains("[node name=\"BackPlane_0\" type=\"MeshInstance3D\" parent=\"BackPlanes\"]"));
    assert!(scene.contains("mesh = SubResource(\"PlaneMesh_0\")"));
}

#[test]
fn scene_omits_backplanes_when_disabled() {
    let settings = ExportSettings {
        unit_size: 1.0,
        z_size: 0.1,
        include_backplanes: false,
    };

    let scene = generate_scene(
        "Root",
        1,
        1,
        &settings,
        &[Segment {
            start_x: 0,
            start_y: 0,
            width: 1,
            height: 1,
        }],
    );

    assert!(!scene.contains("[node name=\"BackPlanes\" type=\"Node3D\" parent=\".\"]"));
    assert!(!scene.contains("[sub_resource type=\"PlaneMesh\" id=\"PlaneMesh_0\"]"));
}

#[test]
fn scene_text_is_exact_for_one_segment() {
    let numbers = SceneNumbers {
        unit_size: "1".to_string(),
        z_size: "0.1".to_string(),
        backplane_offset_z: "-0.05005".to_string(),
    };
    let segments = vec![SegmentText {
        width: "2".to_string(),
        height: "1".to_string(),
        offset_x: "1".to_string(),
        offset_y: "2.5".to_string(),
    }];
    let scene = generate_scene_text("Wall", 12, 3, &numbers, true, &segments);
    let expected = "; generated-by=grid-wall-builder-for-godot\n\
; grid_w=12 grid_h=3 unit_size=1 z_size=0.1 include_backplanes=true\n\
[gd_scene format=3]\n\n\
[sub_resource type=\"BoxMesh\" id=\"BoxMesh_0\"]\nsize = Vector3(2, 1, 0.1)\n\n\
[sub_resource type=\"BoxShape3D\" id=\"BoxShape3D_0\"]\nsize = Vector3(2, 1, 0.1)\n\n\
[sub_resource type=\"PlaneMesh\" id=\"PlaneMesh_0\"]\nsize = Vector2(2, 1)\n\n\
[node name=\"Wall\" type=\"Node3D\"]\n\n\
[node name=\"BoxMeshes\" type=\"Node3D\" parent=\".\"]\n\n\
[node name=\"Segment_0\" type=\"StaticBody3D\" parent=\"BoxMeshes\"]\ntransform = Transform3D(1, 0, 0, 0, 1, 0, 0, 0, 1, 1, 2.5, 0)\n\n\
[node name=\"MeshInstance3D\" type=\"MeshInstance3D\" parent=\"BoxMeshes/Segment_0\"]\nmesh = SubResource(\"BoxMesh_0\")\n\n\
[node name=\"CollisionShape3D\" type=\"CollisionShape3D\" parent=\"BoxMeshes/Segment_0\"]\nshape = SubResource(\"BoxShape3D_0\")\n\n\
[node name=\"BackPlanes\" type=\"Node3D\" parent=\".\"]\n\n\
[node name=\"BackPlane_0\" type=\"MeshInstance3D\" parent=\"BackPlanes\"]\ntransform = Transform3D(1, 0, 0, 0, 0, -1, 0, 1, 0, 1, 2.5, -0.05005)\nmesh = SubResource(\"PlaneMesh_0\")\n\n";
    assert_eq!(scene, expected);
}

#[test]
fn scene_numbers_segments_from_zero_in_order() {
    let numbers = SceneNumbers {
        unit_size: "1".to_string(),
        z_size: "1".to_string(),
        backplane_offset_z: "0".to_string(),
    };
    let segment = || SegmentText {
        width: "1".to_string(),
        height: "1".to_string(),
        offset_x: "0.5".to_string(),
        offset_y: "0.5".to_string(),
    };
    let segments: Vec<SegmentText> = (0..11).map(|_| segment()).collect();
    let scene = generate_scene_text("R", 11, 1, &numbers, false, &segments);
    let first = scene.find("id=\"BoxMesh_0\"").unwrap();
    let tenth = scene.find("id=\"BoxMesh_10\"").unwrap();
    assert!(first < tenth);
    assert!(scene.contains("[node name=\"Segment_10\" type=\"StaticBody3D\" parent=\"BoxMeshes\"]"));
    assert!(scene.contains("include_backplanes=false"));
    assert!(!scene.contains("PlaneMesh"));
}

#[test]
fn empty_scene_has_only_header_and_containers() {
    let numbers = SceneNumbers {
        unit_size: "0.5".to_string(),
        z_size: "0.1".to_string(),
        backplane_offset_z: "-0.05005".to_string(),
    };
    let scene = generate_scene_text("GridWall", 0, 0, &numbers, false, &Vec::new());
    assert_eq!(
        scene,
        "; generated-by=grid-wall-builder-for-godot\n\
; grid_w=0 grid_h=0 unit_size=0.5 z_size=0.1 include_backplanes=false\n\
[gd_scene format=3]\n\n\
[node name=\"GridWall\" type=\"Node3D\"]\n\n\
[node name=\"BoxMeshes\" type=\"Node3D\" parent=\".\"]\n\n"
    );
}

use grid_wall_builder::grid::{Grid, Segment};
use grid_wall_builder::scene_export::{generate_scene_text, SceneNumbers, SegmentText};
use grid_wall_builder::scene_import::{build_grid, common_unit, gcd_i64, import_grid, imported_backplanes};
use grid_wall_builder::scene_lines::{FloatCheck, ImportError};
use grid_wall_builder::scene_parser::{parse_scene, SceneParser};

const FLOAT_TOLERANCE: f32 = 0.0001;
const INFER_SCALE: f32 = 10_000.0;

struct ExportSettings {
    unit_size: f32,
    z_size: f32,
    include_backplanes: bool,
}

struct ImportedScene {
    name: String,
    export: ExportSettings,
    grid: Grid,
}

fn generate_scene(
    root_name: &str,
    grid_w: usize,
    grid_h: usize,
    settings: &ExportSettings,
    segments: &[Segment],
) -> String {
    let total_height = grid_h as f32 * settings.unit_size;
    let texts: Vec<SegmentText> = segments
        .iter()
        .map(|segment| {
            let width = segment.width as f32 * settings.unit_size;
            let height = segment.height as f32 * settings.unit_size;
            let world_x = segment.start_x as f32 * settings.unit_size;
            let world_y = segment.start_y as f32 * settings.unit_size;
            SegmentText {
                width: width.to_string(),
                height: height.to_string(),
                offset_x: (world_x + width / 2.0).to_string(),
                offset_y: (total_height - (world_y + height / 2.0)).to_string(),
            }
        })
        .collect();
    let backplane_margin = settings.z_size * 0.0005;
    let numbers = SceneNumbers {
        unit_size: settings.unit_size.to_string(),
        z_size: settings.z_size.to_string(),
        backplane_offset_z: (-(settings.z_size / 2.0 + backplane_margin)).to_string(),
    };
    generate_scene_text(root_name, grid_w, grid_h, &numbers, settings.include_backplanes, &texts)
}

fn parse_f32(value: &str, label: &str) -> Result<f32, ImportError> {
    value
        .parse::<f32>()
        .map_err(|_| ImportError::Invalid(format!("Failed to parse {label} from `{value}`")))
}

fn float_to_index(value: f32, label: &str) -> Result<usize, ImportError> {
    if !value.is_finite() || value < 0.0 {
        return Err(ImportError::Invalid(format!("Invalid {label} value: {value}")));
    }
    let rounded = value.round();
    if (rounded - value).abs() > FLOAT_TOLERANCE {
        return Err(ImportError::Invalid(format!("{label} is not aligned to the grid: {value}")));
    }
    Ok(rounded as usize)
}

fn run_check(check: &FloatCheck) -> Result<(), ImportError> {
    match check {
        FloatCheck::Parse { token, label } => parse_f32(token, label).map(|_| ()),
        FloatCheck::SameSize { mesh, shape } => {
            for (m, s) in mesh.iter().zip(shape.iter()) {
                if (parse_f32(m, "")? - parse_f32(s, "")?).abs() > FLOAT_TOLERANCE {
                    return Err(ImportError::Unsupported(
                        "Mesh and collision shape sizes do not match".to_string(),
                    ));
                }
            }
            Ok(())
        }
        FloatCheck::IdentityBasis { components } => {
            let identity = [1.0, 0.0, 0.0, 0.0, 1.0, 0.0, 0.0, 0.0, 1.0];
            for (c, e) in components.iter().zip(identity.iter()) {
                if (parse_f32(c, "")? - e).abs() > FLOAT_TOLERANCE {
                    return Err(ImportError::Unsupported(
                        "Only identity basis transforms are supported".to_string(),
                    ));
                }
            }
            Ok(())
        }
        FloatCheck::FlatZ { token } => {
            if parse_f32(token, "")?.abs() > FLOAT_TOLERANCE {
                return Err(ImportError::Unsupported(
                    "Only flat Z transforms are supported".to_string(),
                ));
            }
            Ok(())
        }
    }
}

/// The application's import, on top of the library's parser and grid.
fn import_scene(text: &str) -> Result<ImportedScene, ImportError> {
    let parsed = parse_scene(text);
    for check in &parsed.checks {
        run_check(check)?;
    }
    let outline = parsed.outline?;
    let metadata = outline.metadata.as_ref().map(|m| {
        (
            m.grid_w,
            m.grid_h,
            m.unit_size.parse::<f32>().unwrap(),
            m.z_size.parse::<f32>().unwrap(),
            m.include_backplanes,
        )
    });
    let dimensions = metadata.map(|m| (m.0, m.1));
    let include_backplanes =
        imported_backplanes(metadata.and_then(|m| m.4), outline.has_backplanes);
    if outline.segments.is_empty() {
        let grid = import_grid(dimensions, &Vec::new())?;
        let export = match metadata {
            Some(m) => ExportSettings {
                unit_size: m.2,
                z_size: m.3,
                include_backplanes,
            },
            None => ExportSettings {
                unit_size: 1.0,
                z_size: 0.1,
                include_backplanes,
            },
        };
        return Ok(ImportedScene { name: outline.root_name, export, grid });
    }
    let resources: Vec<(f32, f32, f32)> = outline
        .resources
        .iter()
        .map(|r| {
            (
                r.width.parse().unwrap(),
                r.height.parse().unwrap(),
                r.depth.parse().unwrap(),
            )
        })
        .collect();
    let raw: Vec<(f32, f32, f32, f32)> = outline
        .segments
        .iter()
        .map(|s| {
            (
                s.width.parse().unwrap(),
                s.height.parse().unwrap(),
                s.offset_x.parse().unwrap(),
                s.offset_y.parse().unwrap(),
            )
        })
        .collect();
    let unit_size = match metadata {
        Some(m) => m.2,
        None => {
            let scaled: Vec<i64> = resources
                .iter()
                .flat_map(|r| [r.0.abs(), r.1.abs()])
                .filter(|v| *v > 0.0)
                .map(|v| (v * INFER_SCALE).round() as i64)
                .collect();
            match common_unit(&scaled) {
                Some(g) => g as f32 / INFER_SCALE,
                None => {
                    return Err(ImportError::Invalid(
                        "Could not infer the grid unit size from the imported scene".to_string(),
                    ))
                }
            }
        }
    };
    let top_edge = raw.iter().map(|s| s.3 + s.1 / 2.0).fold(f32::NEG_INFINITY, f32::max);
    let mut segments = Vec::new();
    for s in &raw {
        let width = float_to_index(s.0 / unit_size, "segment width")?;
        let height = float_to_index(s.1 / unit_size, "segment height")?;
        let start_x = float_to_index(s.2 / unit_size - width as f32 / 2.0, "segment start_x")?;
        let start_y = match metadata {
            Some(m) => float_to_index(
                m.1 as f32 - (s.3 / unit_size) - height as f32 / 2.0,
                "segment start_y",
            )?,
            None => float_to_index((top_edge - (s.3 + s.1 / 2.0)) / unit_size, "segment start_y")?,
        };
        segments.push(Segment { start_x, start_y, width, height });
    }
    let grid = import_grid(dimensions, &segments)?;
    let export = match metadata {
        Some(m) => ExportSettings {
            unit_size: m.2,
            z_size: m.3,
            include_backplanes,
        },
        None => {
            let mut z_size: Option<f32> = None;
            for r in &resources {
                match z_size {
                    Some(existing) if (existing - r.2).abs() > FLOAT_TOLERANCE => {
                        return Err(ImportError::Unsupported(
                            "Imported scene uses inconsistent wall thickness values".to_string(),
                        ))
                    }
                    None => z_size = Some(r.2),
                    _ => {}
                }
            }
            ExportSettings {
                unit_size,
                z_size: z_size.unwrap(),
                include_backplanes,
            }
        }
    };
    Ok(ImportedScene { name: outline.root_name, export, grid })
}

#[test]
fn new_export_round_trips_with_metadata() {
    let settings = ExportSettings {
        unit_size: 0.5,
        z_size: 0.1,
        include_backplanes: true,
    };

    let scene = generate_scene(
        "GridWall",
        4,
        3,
        &settings,
        &[
            Segment {
                start_x: 0,
                start_y: 0,
                width: 2,
                height: 1,
            },
            Segment {
                start_x: 2,
                start_y: 1,
                width: 1,
                height: 2,
            },
        ],
    );

    let imported = import_scene(&scene).expect("scene should import");

    assert_eq!(imported.name, "GridWall");
    assert_eq!(imported.export.unit_size, 0.5);
    assert_eq!(imported.export.z_size, 0.1);
    assert!(imported.export.include_backplanes);
    assert_eq!(imported.grid.width(), 4);
    assert_eq!(imported.grid.height(), 3);
    assert!(imported.grid.cells()[0][0]);
    assert!(imported.grid.cells()[1][0]);
    assert!(imported.grid.cells()[2][1]);
    assert!(imported.grid.cells()[2][2]);
}

#[test]
fn legacy_export_without_metadata_is_still_supported() {
    let scene = generate_scene(
        "Root",
        2,
        2,
        &ExportSettings {
            unit_size: 0.5,
            z_size: 0.1,
            include_backplanes: true,
        },
        &[Segment {
            start_x: 0,
            start_y: 0,
            width: 1,
            height: 1,
        }],
    );
    let scene = scene.lines().skip(2).collect::<Vec<_>>().join("\n") + "\n";

    let imported = import_scene(&scene).expect("legacy scene should import");

    assert_eq!(imported.name, "Root");
    assert_eq!(imported.export.unit_size, 0.5);
    assert_eq!(imported.export.z_size, 0.1);
    assert!(imported.export.include_backplanes);
    assert_eq!(imported.grid.width(), 1);
    assert_eq!(imported.grid.height(), 1);
    assert!(imported.grid.cells()[0][0]);
}

#[test]
fn export_without_backplanes_round_trips_setting() {
    let scene = generate_scene(
        "Root",
        2,
        2,
        &ExportSettings {
            unit_size: 0.5,
            z_size: 0.1,
            include_backplanes: false,
        },
        &[Segment {
            start_x: 0,
            start_y: 0,
            width: 1,
            height: 1,
        }],
    );

    let imported = import_scene(&scene).expect("scene should import");

    assert!(!imported.export.include_backplanes);
}

#[test]
fn importer_rejects_unexpected_scene_structure() {
    let scene = "[gd_scene format=3]\n\n[node name=\"Root\" type=\"Node2D\"]\n";

    assert!(matches!(
        import_scene(scene),
        Err(ImportError::Unsupported(_))
    ));
}

#[test]
fn painted_grid_round_trips_through_export_and_import() {
    let mut grid = Grid::new(5, 4);
    for (x, y) in [(0, 0), (1, 0), (1, 1), (3, 2), (3, 3), (4, 3), (2, 0)] {
        grid.cells_mut()[x][y] = true;
    }
    let settings = ExportSettings {
        unit_size: 0.25,
        z_size: 0.2,
        include_backplanes: false,
    };
    let scene = generate_scene("Walls", 5, 4, &settings, &grid.collect_segments());
    let imported = import_scene(&scene).expect("scene should import");
    assert_eq!(imported.name, "Walls");
    assert_eq!(imported.grid.cells(), grid.cells());
}

#[test]
fn parsed_scene_lists_the_float_checks_in_order() {
    let scene = "[gd_scene format=3]\n\
[sub_resource type=\"BoxMesh\" id=\"BoxMesh_0\"]\nsize = Vector3(1, 2, 0.1)\n\
[sub_resource type=\"BoxShape3D\" id=\"BoxShape3D_0\"]\nsize = Vector3(1, 2, 0.1)\n\
[node name=\"Root\" type=\"Node3D\"]\n\
[node name=\"Segment_0\" type=\"StaticBody3D\" parent=\".\"]\n\
transform = Transform3D(1, 0, 0, 0, 1, 0, 0, 0, 1, 0.5, 1, 0)\n\
[node name=\"MeshInstance3D\" type=\"MeshInstance3D\" parent=\"Segment_0\"]\n\
mesh = SubResource(\"BoxMesh_0\")\n\
[node name=\"CollisionShape3D\" type=\"CollisionShape3D\" parent=\"Segment_0\"]\n\
shape = SubResource(\"BoxShape3D_0\")\n";
    let parsed = parse_scene(scene);
    let outline = parsed.outline.expect("structure should parse");
    assert_eq!(outline.root_name, "Root");
    assert!(outline.metadata.is_none());
    assert_eq!(outline.resources.len(), 1);
    assert_eq!(outline.resources[0].width, "1");
    assert_eq!(outline.resources[0].height, "2");
    assert_eq!(outline.resources[0].depth, "0.1");
    assert_eq!(outline.segments.len(), 1);
    assert_eq!(outline.segments[0].offset_x, "0.5");
    assert_eq!(outline.segments[0].offset_y, "1");
    assert!(!outline.has_backplanes);
    // 3 + 3 sizes, the size comparison, 9 basis numbers, the basis, 3 offsets, flat Z
    assert_eq!(parsed.checks.len(), 3 + 3 + 1 + 9 + 1 + 3 + 1);
    assert!(matches!(&parsed.checks[6], FloatCheck::SameSize { .. }));
    assert!(matches!(&parsed.checks[16], FloatCheck::IdentityBasis { .. }));
    assert!(matches!(&parsed.checks[20], FloatCheck::FlatZ { token } if token == "0"));
}

#[test]
fn parse_errors_carry_their_kind_and_message() {
    let cases: Vec<(&str, bool, &str)> = vec![
        ("", false, "Expected `[gd_scene format=3]` but found end of file"),
        ("[gd_scene format=2]\n", false, "Expected `[gd_scene format=3]` but found `[gd_scene format=2]`"),
        ("[gd_scene format=3]\n", false, "Missing root Node3D in imported scene"),
        ("[gd_scene format=3]\n; note\n", true, "Unsupported scene comment: ; note"),
        ("[gd_scene format=3]\n[node name=\"Root\" type=\"Node2D\"]\n", true, "Unsupported scene content: [node name=\"Root\" type=\"Node2D\"]"),
        (
            "; generated-by=grid-wall-builder-for-godot\n; grid_w=2 grid_h=x unit_size=1 z_size=1\n[gd_scene format=3]\n",
            false,
            "Failed to parse grid_h from `x`",
        ),
        (
            "; generated-by=grid-wall-builder-for-godot\n; grid_w=2 depth=3\n",
            true,
            "Unexpected metadata key `depth`",
        ),
        (
            "; generated-by=grid-wall-builder-for-godot\n; grid_w=2 grid_h=2 unit_size=1\n",
            false,
            "Missing z_size metadata",
        ),
        (
            "; generated-by=grid-wall-builder-for-godot\n; size=2\n",
            true,
            "Unsupported scene metadata: ; size=2",
        ),
        (
            "[gd_scene format=3]\n[sub_resource type=\"BoxMesh\" id=\"BoxMesh_1\"]\n",
            true,
            "Unexpected BoxMesh resource id 1; expected 0",
        ),
        (
            "[gd_scene format=3]\n[sub_resource type=\"BoxMesh\" id=\"BoxMesh_0\"]\nsize = Vector3(1, 2)\n",
            false,
            "Expected three Vector3 components in `size = Vector3(1, 2)`",
        ),
        (
            "[gd_scene format=3]\n[sub_resource type=\"BoxMesh\" id=\"BoxMesh_x\"]\n",
            false,
            "Failed to parse resource id from `x`",
        ),
        (
            "[gd_scene format=3]\n[node name=\"Root\" type=\"Node3D\"]\n[node name=\"Segment_0\" type=\"StaticBody3D\" parent=\".\"]\n",
            false,
            "Expected segment transform",
        ),
    ];
    for (text, unsupported, message) in cases {
        let parsed = parse_scene(text);
        match parsed.outline {
            Err(ImportError::Unsupported(m)) => {
                assert!(unsupported, "{text:?} gave Unsupported({m})");
                assert_eq!(m, message);
            }
            Err(ImportError::Invalid(m)) => {
                assert!(!unsupported, "{text:?} gave Invalid({m})");
                assert_eq!(m, message);
            }
            Ok(_) => panic!("{text:?} should not parse"),
        }
    }
}

#[test]
fn import_error_message_is_its_text() {
    let e = ImportError::Invalid("Missing grid_w metadata".to_string());
    assert_eq!(e.message(), "Missing grid_w metadata");
    let e = ImportError::Unsupported("Unsupported scene comment: ;".to_string());
    assert_eq!(e.message(), "Unsupported scene comment: ;");
}

#[test]
fn segment_children_must_match_the_segment_id() {
    let scene = "[gd_scene format=3]\n\
[sub_resource type=\"BoxMesh\" id=\"BoxMesh_0\"]\nsize = Vector3(1, 1, 1)\n\
[sub_resource type=\"BoxShape3D\" id=\"BoxShape3D_0\"]\nsize = Vector3(1, 1, 1)\n\
[node name=\"Root\" type=\"Node3D\"]\n\
[node name=\"Segment_0\" type=\"StaticBody3D\" parent=\".\"]\n\
transform = Transform3D(1, 0, 0, 0, 1, 0, 0, 0, 1, 0.5, 0.5, 0)\n\
[node name=\"MeshInstance3D\" type=\"MeshInstance3D\" parent=\"Segment_0\"]\n\
mesh = SubResource(\"BoxMesh_3\")\n\
[node name=\"CollisionShape3D\" type=\"CollisionShape3D\" parent=\"Segment_0\"]\n\
shape = SubResource(\"BoxShape3D_0\")\n";
    assert!(matches!(
        parse_scene(scene).outline,
        Err(ImportError::Unsupported(m)) if m == "Segment node ids do not match their resources"
    ));
}

#[test]
fn blank_lines_and_crlf_endings_are_accepted() {
    let scene = "\r\n[gd_scene format=3]\r\n\r\n   \r\n[node name=\"Root\" type=\"Node3D\"]\r\n\r\n";
    let parsed = parse_scene(scene);
    let outline = parsed.outline.expect("should parse");
    assert_eq!(outline.root_name, "Root");
    assert!(outline.segments.is_empty());
    assert!(parsed.checks.is_empty());
}

#[test]
fn back_plane_nodes_are_skipped() {
    let scene = "[gd_scene format=3]\n\
[sub_resource type=\"PlaneMesh\" id=\"PlaneMesh_0\"]\nsize = Vector2(1, 1)\n\
[node name=\"Root\" type=\"Node3D\"]\n\
[node name=\"BackPlanes\" type=\"Node3D\" parent=\".\"]\n\
[node name=\"BackPlane_0\" type=\"MeshInstance3D\" parent=\"BackPlanes\"]\n\
transform = Transform3D(anything)\nmesh = SubResource(\"PlaneMesh_0\")\n";
    let parsed = parse_scene(scene);
    let outline = parsed.outline.expect("should parse");
    assert!(outline.has_backplanes);
    assert_eq!(parsed.checks.len(), 2);
}

#[test]
fn gcd_of_two_values() {
    assert_eq!(gcd_i64(12, 18), 6);
    assert_eq!(gcd_i64(-12, 18), 6);
    assert_eq!(gcd_i64(7, 0), 7);
    assert_eq!(gcd_i64(0, 0), 0);
    assert_eq!(gcd_i64(5000, 2500), 2500);
}

#[test]
fn common_unit_ignores_non_positive_values() {
    assert_eq!(common_unit(&vec![5000, 0, -3, 10000, 2500]), Some(2500));
    assert_eq!(common_unit(&vec![0, -1]), None);
    assert_eq!(common_unit(&vec![]), None);
    assert_eq!(common_unit(&vec![3]), Some(3));
}

#[test]
fn build_grid_refuses_cells_outside_and_overlaps() {
    let s = |x, y, w, h| Segment { start_x: x, start_y: y, width: w, height: h };
    match build_grid(2, 2, &vec![s(1, 1, 2, 1)]) {
        Err(ImportError::Invalid(m)) => {
            assert_eq!(m, "Imported scene contains cells outside the declared grid bounds")
        }
        _ => panic!("expected a bounds error"),
    }
    match build_grid(3, 3, &vec![s(0, 0, 2, 2), s(1, 1, 1, 1)]) {
        Err(ImportError::Invalid(m)) => {
            assert_eq!(m, "Imported scene contains overlapping wall segments")
        }
        _ => panic!("expected an overlap error"),
    }
    let grid = build_grid(3, 2, &vec![s(0, 0, 2, 1), s(2, 0, 1, 2)]).unwrap();
    assert_eq!(grid.cells(), &vec![vec![true, false], vec![true, false], vec![true, true]]);
}

#[test]
fn import_grid_uses_recorded_size_or_extent() {
    let segments = vec![Segment { start_x: 1, start_y: 2, width: 2, height: 1 }];
    let grid = import_grid(None, &segments).unwrap();
    assert_eq!((grid.width(), grid.height()), (3, 3));
    let grid = import_grid(Some((5, 4)), &segments).unwrap();
    assert_eq!((grid.width(), grid.height()), (5, 4));
    assert!(grid.cells()[1][2] && grid.cells()[2][2]);
    let grid = import_grid(Some((6, 1)), &Vec::new()).unwrap();
    assert_eq!((grid.width(), grid.height()), (6, 1));
}

fn texts(width: &str, height: &str, offset_x: &str, offset_y: &str) -> SegmentText {
    SegmentText {
        width: width.to_string(),
        height: height.to_string(),
        offset_x: offset_x.to_string(),
        offset_y: offset_y.to_string(),
    }
}

#[test]
fn exported_texts_read_back_as_written() {
    let numbers = SceneNumbers {
        unit_size: "0.5".to_string(),
        z_size: "1e-1".to_string(),
        backplane_offset_z: "-0.05, odd".to_string(),
    };
    let segments = vec![texts("1", "0.5", "0.5", "1.25"), texts("", "x y", "-3", "7")];
    let scene = generate_scene_text("My Root", 12, 3, &numbers, true, &segments);
    let parsed = parse_scene(&scene);
    // the metadata's two numbers, then per segment 3 + 3 sizes, their
    // comparison and 2 plane sizes, then per segment 9 basis numbers, the
    // basis, 3 offsets and the flat Z
    assert_eq!(parsed.checks.len(), 2 + 2 * (3 + 3 + 1 + 2) + 2 * (9 + 1 + 3 + 1));
    assert!(matches!(&parsed.checks[0], FloatCheck::Parse { token, label } if token == "0.5" && label == "unit_size"));
    assert!(matches!(&parsed.checks[1], FloatCheck::Parse { token, label } if token == "1e-1" && label == "z_size"));
    assert!(matches!(&parsed.checks[2 + 9], FloatCheck::Parse { token, .. } if token == ""));
    assert!(matches!(&parsed.checks[2 + 18 + 9], FloatCheck::IdentityBasis { .. }));
    assert!(matches!(&parsed.checks[2 + 18 + 10], FloatCheck::Parse { token, label } if token == "0.5" && label == "transform offset_x"));
    assert!(matches!(&parsed.checks[2 + 18 + 13], FloatCheck::FlatZ { token } if token == "0"));
    let outline = parsed.outline.expect("an exported scene reads back");
    let metadata = outline.metadata.expect("metadata is written");
    assert_eq!(metadata.grid_w, 12);
    assert_eq!(metadata.grid_h, 3);
    assert_eq!(metadata.unit_size, "0.5");
    assert_eq!(metadata.z_size, "1e-1");
    assert_eq!(metadata.include_backplanes, Some(true));
    assert_eq!(outline.root_name, "My Root");
    assert!(outline.has_backplanes);
    assert_eq!(outline.resources.len(), 2);
    assert_eq!(outline.resources[1].width, "");
    assert_eq!(outline.resources[1].height, "x y");
    assert_eq!(outline.resources[1].depth, "1e-1");
    assert_eq!(outline.segments.len(), 2);
    assert_eq!(outline.segments[0].width, "1");
    assert_eq!(outline.segments[0].height, "0.5");
    assert_eq!(outline.segments[0].offset_x, "0.5");
    assert_eq!(outline.segments[0].offset_y, "1.25");
    assert_eq!(outline.segments[1].offset_x, "-3");
    assert_eq!(outline.segments[1].offset_y, "7");
}

#[test]
fn legacy_texts_read_back_without_metadata() {
    let numbers = SceneNumbers {
        unit_size: "2".to_string(),
        z_size: "0.3".to_string(),
        backplane_offset_z: "-0.2".to_string(),
    };
    let segments = vec![texts("2", "4", "1", "6")];
    let scene = generate_scene_text("Old", 1, 2, &numbers, false, &segments);
    let legacy = scene.lines().skip(2).collect::<Vec<_>>().join("\n") + "\n";
    let outline = parse_scene(&legacy).outline.expect("a legacy scene reads back");
    assert!(outline.metadata.is_none());
    assert_eq!(outline.root_name, "Old");
    assert!(!outline.has_backplanes);
    assert_eq!(outline.resources.len(), 1);
    assert_eq!(outline.resources[0].depth, "0.3");
    assert_eq!(outline.segments.len(), 1);
    assert_eq!(outline.segments[0].width, "2");
    assert_eq!(outline.segments[0].height, "4");
    assert_eq!(outline.segments[0].offset_x, "1");
    assert_eq!(outline.segments[0].offset_y, "6");
}

#[test]
fn common_unit_divides_every_positive_size() {
    let values = vec![7500, 0, 12500, -5000, 2500, 10000];
    let unit = common_unit(&values).expect("there are positive sizes");
    assert_eq!(unit, 2500);
    for value in values.iter().filter(|value| **value > 0) {
        assert_eq!(value % unit, 0);
    }
}

#[test]
fn backplane_setting_prefers_the_metadata() {
    assert!(imported_backplanes(Some(true), false));
    assert!(!imported_backplanes(Some(false), true));
    assert!(imported_backplanes(None, true));
    assert!(!imported_backplanes(None, false));
}

#[test]
fn failed_exact_line_is_consumed() {
    let mut parser = SceneParser::new("\n[gd_scene format=2]\n\nnext\n");
    assert!(parser.expect_exact("[gd_scene format=3]").is_err());
    assert_eq!(parser.next_line(), Some("next".chars().collect::<Vec<char>>()));
}

#[test]
fn unknown_plane_header_consumes_only_itself() {
    let mut parser = SceneParser::new("[sub_resource type=\"PlaneMesh\" id=\"Other_0\"]\nsize = Vector2(1, 1)\n");
    assert!(matches!(parser.skip_plane_mesh_resource(), Err(ImportError::Unsupported(_))));
    assert_eq!(parser.next_line(), Some("size = Vector2(1, 1)".chars().collect::<Vec<char>>()));
}

#[test]
fn far_segment_is_out_of_the_recorded_bounds() {
    let far = vec![Segment { start_x: usize::MAX, start_y: 0, width: 1, height: 1 }];
    match import_grid(Some((1, 1)), &far) {
        Err(ImportError::Invalid(message)) => {
            assert_eq!(message, "Imported scene contains cells outside the declared grid bounds")
        }
        _ => panic!("a segment past the grid is refused"),
    }
    let tall = vec![Segment { start_x: 0, start_y: usize::MAX - 1, width: 1, height: 5 }];
    assert!(matches!(build_grid(2, 2, &tall), Err(ImportError::Invalid(_))));
}

#[test]
fn transform_lines_have_their_own_refusal() {
    let scene = "[gd_scene format=3]\n\
[sub_resource type=\"BoxMesh\" id=\"BoxMesh_0\"]\nsize = Vector3(1, 1, 0.1)\n\
[sub_resource type=\"BoxShape3D\" id=\"BoxShape3D_0\"]\nsize = Vector3(1, 1, 0.1)\n\
[node name=\"Root\" type=\"Node3D\"]\n\
[node name=\"Segment_0\" type=\"StaticBody3D\" parent=\".\"]\n\
position = Vector3(0, 0, 0)\n";
    match parse_scene(scene).outline {
        Err(ImportError::Unsupported(message)) => {
            assert_eq!(message, "Unsupported transform line: position = Vector3(0, 0, 0)")
        }
        _ => panic!("a segment without a transform is refused"),
    }
}

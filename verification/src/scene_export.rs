//! Godot 4 `.tscn` text for merged wall segments.
//!
//! The scene holds a root `Node3D`, a `BoxMeshes` container with one
//! `StaticBody3D` per segment (a `MeshInstance3D` with a `BoxMesh` and a
//! `CollisionShape3D` with a `BoxShape3D`), and optionally a `BackPlanes`
//! container with one `PlaneMesh` per segment. The numbers that Godot reads
//! as floats come in already written out.
use vstd::prelude::*;

use crate::text::{decimal, decimal_chars};

verus! {

/// The written-out numbers of one segment, in world units.
pub struct SegmentText {
    pub width: String,
    pub height: String,
    pub offset_x: String,
    pub offset_y: String,
}

/// The model of a [`SegmentText`].
pub struct SegmentTextModel {
    pub width: Seq<char>,
    pub height: Seq<char>,
    pub offset_x: Seq<char>,
    pub offset_y: Seq<char>,
}

impl View for SegmentText {
    type V = SegmentTextModel;

    open spec fn view(&self) -> SegmentTextModel {
        SegmentTextModel {
            width: self.width@,
            height: self.height@,
            offset_x: self.offset_x@,
            offset_y: self.offset_y@,
        }
    }
}

/// The views of a sequence of segment texts.
pub open spec fn segment_text_views(v: Seq<SegmentText>) -> Seq<SegmentTextModel> {
    v.map_values(|s: SegmentText| s@)
}

/// The written-out numbers that the whole scene shares.
pub struct SceneNumbers {
    /// The size of one grid cell.
    pub unit_size: String,
    /// The wall thickness along Z.
    pub z_size: String,
    /// The Z offset of every back plane.
    pub backplane_offset_z: String,
}

/// How `bool` is displayed.
pub open spec fn bool_text(b: bool) -> Seq<char> {
    if b {
        "true"@
    } else {
        "false"@
    }
}

/// The two comment lines and the scene header.
pub open spec fn header_text(
    grid_w: usize,
    grid_h: usize,
    unit_size: Seq<char>,
    z_size: Seq<char>,
    include_backplanes: bool,
) -> Seq<char> {
    "; generated-by=grid-wall-builder-for-godot\n"@ + "; grid_w="@ + decimal(grid_w as nat)
        + " grid_h="@ + decimal(grid_h as nat) + " unit_size="@ + unit_size + " z_size="@ + z_size
        + " include_backplanes="@ + bool_text(include_backplanes) + "\n"@
        + "[gd_scene format=3]\n\n"@
}

/// The end of a `Vector3` size line: the segment's width and height, the
/// thickness, and the closing bracket.
pub open spec fn size3_tail(s: SegmentTextModel, z_size: Seq<char>) -> Seq<char> {
    s.width + ", "@ + s.height + ", "@ + z_size + ")\n\n"@
}

/// The `BoxMesh` resource of segment `id`.
pub open spec fn box_mesh_block(id: nat, s: SegmentTextModel, z_size: Seq<char>) -> Seq<char> {
    "[sub_resource type=\"BoxMesh\" id=\"BoxMesh_"@ + decimal(id) + "\"]\nsize = Vector3("@
        + size3_tail(s, z_size)
}

/// The `BoxShape3D` resource of segment `id`.
pub open spec fn box_shape_block(id: nat, s: SegmentTextModel, z_size: Seq<char>) -> Seq<char> {
    "[sub_resource type=\"BoxShape3D\" id=\"BoxShape3D_"@ + decimal(id) + "\"]\nsize = Vector3("@
        + size3_tail(s, z_size)
}

/// The `PlaneMesh` resource of segment `id`.
pub open spec fn plane_mesh_block(id: nat, s: SegmentTextModel) -> Seq<char> {
    "[sub_resource type=\"PlaneMesh\" id=\"PlaneMesh_"@ + decimal(id) + "\"]\nsize = Vector2("@
        + s.width + ", "@ + s.height + ")\n\n"@
}

/// The resources of segment `id`: its `BoxMesh`, its `BoxShape3D` and (with
/// back planes) its `PlaneMesh`.
pub open spec fn resource_block(id: nat, s: SegmentTextModel, z_size: Seq<char>, include_backplanes: bool) -> Seq<char> {
    box_mesh_block(id, s, z_size) + box_shape_block(id, s, z_size) + if include_backplanes {
        plane_mesh_block(id, s)
    } else {
        Seq::<char>::empty()
    }
}

/// The resource blocks of all `segments`, numbered from 0.
pub open spec fn resources_text(segments: Seq<SegmentTextModel>, z_size: Seq<char>, include_backplanes: bool) -> Seq<char>
    decreases segments.len(),
{
    if segments.len() == 0 {
        Seq::<char>::empty()
    } else {
        resources_text(segments.drop_last(), z_size, include_backplanes) + resource_block(
            (segments.len() - 1) as nat,
            segments.last(),
            z_size,
            include_backplanes,
        )
    }
}

/// The nodes of segment `id` under `BoxMeshes`.
pub open spec fn segment_block(id: nat, s: SegmentTextModel) -> Seq<char> {
    let n = decimal(id);
    "[node name=\"Segment_"@ + n + "\" type=\"StaticBody3D\" parent=\"BoxMeshes\"]\ntransform = Transform3D(1, 0, 0, 0, 1, 0, 0, 0, 1, "@
        + s.offset_x + ", "@ + s.offset_y + ", 0)\n\n"@
        + "[node name=\"MeshInstance3D\" type=\"MeshInstance3D\" parent=\"BoxMeshes/Segment_"@ + n
        + "\"]\nmesh = SubResource(\"BoxMesh_"@ + n + "\")\n\n"@
        + "[node name=\"CollisionShape3D\" type=\"CollisionShape3D\" parent=\"BoxMeshes/Segment_"@
        + n + "\"]\nshape = SubResource(\"BoxShape3D_"@ + n + "\")\n\n"@
}

/// The segment nodes of all `segments`, numbered from 0.
pub open spec fn segments_text(segments: Seq<SegmentTextModel>) -> Seq<char>
    decreases segments.len(),
{
    if segments.len() == 0 {
        Seq::<char>::empty()
    } else {
        segments_text(segments.drop_last()) + segment_block(
            (segments.len() - 1) as nat,
            segments.last(),
        )
    }
}

/// The back plane node of segment `id`.
pub open spec fn backplane_block(id: nat, s: SegmentTextModel, offset_z: Seq<char>) -> Seq<char> {
    let n = decimal(id);
    "[node name=\"BackPlane_"@ + n + "\" type=\"MeshInstance3D\" parent=\"BackPlanes\"]\ntransform = Transform3D(1, 0, 0, 0, 0, -1, 0, 1, 0, "@
        + s.offset_x + ", "@ + s.offset_y + ", "@ + offset_z + ")\nmesh = SubResource(\"PlaneMesh_"@
        + n + "\")\n\n"@
}

/// The back plane nodes of all `segments`, numbered from 0.
pub open spec fn backplanes_text(segments: Seq<SegmentTextModel>, offset_z: Seq<char>) -> Seq<char>
    decreases segments.len(),
{
    if segments.len() == 0 {
        Seq::<char>::empty()
    } else {
        backplanes_text(segments.drop_last(), offset_z) + backplane_block(
            (segments.len() - 1) as nat,
            segments.last(),
            offset_z,
        )
    }
}

/// The whole scene.
pub open spec fn scene_text(
    root_name: Seq<char>,
    grid_w: usize,
    grid_h: usize,
    unit_size: Seq<char>,
    z_size: Seq<char>,
    backplane_offset_z: Seq<char>,
    include_backplanes: bool,
    segments: Seq<SegmentTextModel>,
) -> Seq<char> {
    header_text(grid_w, grid_h, unit_size, z_size, include_backplanes) + resources_text(
        segments,
        z_size,
        include_backplanes,
    ) + "[node name=\""@ + root_name + "\" type=\"Node3D\"]\n\n"@
        + "[node name=\"BoxMeshes\" type=\"Node3D\" parent=\".\"]\n\n"@ + segments_text(segments)
        + if include_backplanes {
        "[node name=\"BackPlanes\" type=\"Node3D\" parent=\".\"]\n\n"@ + backplanes_text(
            segments,
            backplane_offset_z,
        )
    } else {
        Seq::<char>::empty()
    }
}

/// Append the characters of `n` in decimal.
fn append_decimal(out: &mut String, n: usize)
    ensures
        final(out)@ == old(out)@ + decimal(n as nat),
{
    crate::text::push_chars(out, &decimal_chars(n));
}

/// Append the end of a `Vector3` size line.
fn append_size3_tail(scene: &mut String, s: &SegmentText, z_size: &String)
    ensures
        final(scene)@ == old(scene)@ + size3_tail(s@, z_size@),
{
    let ghost before = scene@;
    scene.append(s.width.as_str());
    scene.append(", ");
    scene.append(s.height.as_str());
    scene.append(", ");
    scene.append(z_size.as_str());
    scene.append(")\n\n");
    assert(scene@ =~= before + size3_tail(s@, z_size@));
}

/// Append the resources of segment `id`.
fn append_resource_block(scene: &mut String, id: usize, s: &SegmentText, z_size: &String, include_backplanes: bool)
    ensures
        final(scene)@ == old(scene)@ + resource_block(id as nat, s@, z_size@, include_backplanes),
{
    let ghost before = scene@;
    scene.append("[sub_resource type=\"BoxMesh\" id=\"BoxMesh_");
    append_decimal(scene, id);
    scene.append("\"]\nsize = Vector3(");
    append_size3_tail(scene, s, z_size);
    let ghost a = scene@;
    assert(a =~= before + box_mesh_block(id as nat, s@, z_size@));
    scene.append("[sub_resource type=\"BoxShape3D\" id=\"BoxShape3D_");
    append_decimal(scene, id);
    scene.append("\"]\nsize = Vector3(");
    append_size3_tail(scene, s, z_size);
    let ghost b = scene@;
    assert(b =~= a + box_shape_block(id as nat, s@, z_size@));
    if include_backplanes {
        scene.append("[sub_resource type=\"PlaneMesh\" id=\"PlaneMesh_");
        append_decimal(scene, id);
        scene.append("\"]\nsize = Vector2(");
        scene.append(s.width.as_str());
        scene.append(", ");
        scene.append(s.height.as_str());
        scene.append(")\n\n");
        assert(scene@ =~= b + plane_mesh_block(id as nat, s@));
    }
    assert(scene@ =~= before + resource_block(id as nat, s@, z_size@, include_backplanes));
}

/// Append the nodes of segment `id`.
fn append_segment_block(scene: &mut String, id: usize, s: &SegmentText)
    ensures
        final(scene)@ == old(scene)@ + segment_block(id as nat, s@),
{
    let ghost before = scene@;
    scene.append("[node name=\"Segment_");
    append_decimal(scene, id);
    scene.append("\" type=\"StaticBody3D\" parent=\"BoxMeshes\"]\ntransform = Transform3D(1, 0, 0, 0, 1, 0, 0, 0, 1, ");
    scene.append(s.offset_x.as_str());
    scene.append(", ");
    scene.append(s.offset_y.as_str());
    scene.append(", 0)\n\n");
    let ghost a = scene@;
    scene.append("[node name=\"MeshInstance3D\" type=\"MeshInstance3D\" parent=\"BoxMeshes/Segment_");
    append_decimal(scene, id);
    scene.append("\"]\nmesh = SubResource(\"BoxMesh_");
    append_decimal(scene, id);
    scene.append("\")\n\n");
    let ghost b = scene@;
    scene.append("[node name=\"CollisionShape3D\" type=\"CollisionShape3D\" parent=\"BoxMeshes/Segment_");
    append_decimal(scene, id);
    scene.append("\"]\nshape = SubResource(\"BoxShape3D_");
    append_decimal(scene, id);
    scene.append("\")\n\n");
    proof {
        let n = decimal(id as nat);
        let p1 = "[node name=\"Segment_"@ + n + "\" type=\"StaticBody3D\" parent=\"BoxMeshes\"]\ntransform = Transform3D(1, 0, 0, 0, 1, 0, 0, 0, 1, "@
            + s.offset_x@ + ", "@ + s.offset_y@ + ", 0)\n\n"@;
        let p2 = "[node name=\"MeshInstance3D\" type=\"MeshInstance3D\" parent=\"BoxMeshes/Segment_"@ + n
            + "\"]\nmesh = SubResource(\"BoxMesh_"@ + n + "\")\n\n"@;
        let p3 = "[node name=\"CollisionShape3D\" type=\"CollisionShape3D\" parent=\"BoxMeshes/Segment_"@
            + n + "\"]\nshape = SubResource(\"BoxShape3D_"@ + n + "\")\n\n"@;
        assert(a =~= before + p1);
        assert(b =~= a + p2);
        assert(scene@ =~= b + p3);
        assert(segment_block(id as nat, s@) =~= p1 + p2 + p3);
    }
}

/// Append the back plane node of segment `id`.
fn append_backplane_block(scene: &mut String, id: usize, s: &SegmentText, offset_z: &String)
    ensures
        final(scene)@ == old(scene)@ + backplane_block(id as nat, s@, offset_z@),
{
    let ghost before = scene@;
    scene.append("[node name=\"BackPlane_");
    append_decimal(scene, id);
    scene.append("\" type=\"MeshInstance3D\" parent=\"BackPlanes\"]\ntransform = Transform3D(1, 0, 0, 0, 0, -1, 0, 1, 0, ");
    scene.append(s.offset_x.as_str());
    scene.append(", ");
    scene.append(s.offset_y.as_str());
    scene.append(", ");
    scene.append(offset_z.as_str());
    scene.append(")\nmesh = SubResource(\"PlaneMesh_");
    append_decimal(scene, id);
    scene.append("\")\n\n");
    assert(scene@ =~= before + backplane_block(id as nat, s@, offset_z@));
}

/// Generate a Godot 4 scene for the segments whose numbers are given.
///
/// The segments are numbered in order from 0; `grid_w` and `grid_h` are
/// recorded so that the scene can be imported again.
pub fn generate_scene_text(
    root_name: &str,
    grid_w: usize,
    grid_h: usize,
    numbers: &SceneNumbers,
    include_backplanes: bool,
    segments: &Vec<SegmentText>,
) -> (scene: String)
    ensures
        scene@ == scene_text(
            root_name@,
            grid_w,
            grid_h,
            numbers.unit_size@,
            numbers.z_size@,
            numbers.backplane_offset_z@,
            include_backplanes,
            segment_text_views(segments@),
        ),
{
    let ghost segs = segment_text_views(segments@);
    let mut scene = String::new();
    scene.append("; generated-by=grid-wall-builder-for-godot\n");
    scene.append("; grid_w=");
    append_decimal(&mut scene, grid_w);
    scene.append(" grid_h=");
    append_decimal(&mut scene, grid_h);
    scene.append(" unit_size=");
    scene.append(numbers.unit_size.as_str());
    scene.append(" z_size=");
    scene.append(numbers.z_size.as_str());
    scene.append(" include_backplanes=");
    if include_backplanes {
        scene.append("true");
    } else {
        scene.append("false");
    }
    scene.append("\n");
    scene.append("[gd_scene format=3]\n\n");
    let ghost header = scene@;
    assert(header =~= header_text(grid_w, grid_h, numbers.unit_size@, numbers.z_size@, include_backplanes));

    let mut id: usize = 0;
    while id < segments.len()
        invariant
            id <= segments@.len(),
            segs == segment_text_views(segments@),
            scene@ == header + resources_text(segs.take(id as int), numbers.z_size@, include_backplanes),
        decreases segments@.len() - id,
    {
        let s = &segments[id];
        append_resource_block(&mut scene, id, s, &numbers.z_size, include_backplanes);
        proof {
            assert(segs.take(id + 1).drop_last() =~= segs.take(id as int));
            assert(segs.take(id + 1).last() == s@);
        }
        id = id + 1;
    }
    assert(segs.take(id as int) =~= segs);

    scene.append("[node name=\"");
    scene.append(root_name);
    scene.append("\" type=\"Node3D\"]\n\n");
    scene.append("[node name=\"BoxMeshes\" type=\"Node3D\" parent=\".\"]\n\n");
    let ghost before_segments = scene@;

    let mut id: usize = 0;
    while id < segments.len()
        invariant
            id <= segments@.len(),
            segs == segment_text_views(segments@),
            scene@ == before_segments + segments_text(segs.take(id as int)),
        decreases segments@.len() - id,
    {
        let s = &segments[id];
        append_segment_block(&mut scene, id, s);
        proof {
            assert(segs.take(id + 1).drop_last() =~= segs.take(id as int));
            assert(segs.take(id + 1).last() == s@);
        }
        id = id + 1;
    }
    assert(segs.take(id as int) =~= segs);

    if include_backplanes {
        scene.append("[node name=\"BackPlanes\" type=\"Node3D\" parent=\".\"]\n\n");
        let ghost before_planes = scene@;
        let mut id: usize = 0;
        while id < segments.len()
            invariant
                id <= segments@.len(),
                segs == segment_text_views(segments@),
                scene@ == before_planes + backplanes_text(
                    segs.take(id as int),
                    numbers.backplane_offset_z@,
                ),
            decreases segments@.len() - id,
        {
            let s = &segments[id];
            append_backplane_block(&mut scene, id, s, &numbers.backplane_offset_z);
            proof {
                assert(segs.take(id + 1).drop_last() =~= segs.take(id as int));
                assert(segs.take(id + 1).last() == s@);
            }
            id = id + 1;
        }
        assert(segs.take(id as int) =~= segs);
    }
    scene
}

} // verus!

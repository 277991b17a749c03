//! Reading back an exported scene.
//!
//! A scene that `generate_scene_text` writes is read by `parse_scene` into
//! an outline that holds exactly what was written: the grid size, the texts
//! of the unit size and the thickness, the back plane setting, the root
//! name, and for every segment, in order, the texts of its size and offset;
//! the float tests that it lists are those of exactly these texts.
use vstd::prelude::*;

use crate::scene_export::{
    backplane_block, backplanes_text, bool_text, box_mesh_block, box_shape_block, header_text,
    plane_mesh_block, resource_block, resources_text, scene_text, segment_block, segments_text,
    SegmentTextModel,
};
use crate::scene_lines::{
    node_line, node_open, parse_checks, resource_id, resource_reference, suffix_id, transform_line,
    vector_parts, CheckModel, Failure,
};
use crate::scene_parser::{
    after_next, body_step, exact_step, export_marker, header_step, is_back_plane_node,
    is_back_planes_header, is_box_meshes_header, is_segment_header, metadata_step, metadata_words,
    no_fields, peek_at, plane_step, resource_pair_step, root_step, scene_outline, segment_children,
    segment_step, skip_blank, skip_to_node, word_key, word_value, BodyMode, ChildMode,
    MetadataFields, MetadataModel, OutlineModel, RawSegmentModel, ResourceModel,
};
use crate::text::{
    blank, decimal, digit_char, digit_value, digits_value, find_from, has_infix, has_prefix,
    is_digit, is_ws, lines, lines_from, occurs_at, parse_unsigned, split_from, strip_cr,
    strip_leading, trimmed, trimmed_pieces, unsigned_digits, words, words_from, ws_end, ws_start,
};

verus! {

/// The text of `ls`, each line followed by a newline.
pub open spec fn joined(ls: Seq<Seq<char>>) -> Seq<char>
    decreases ls.len(),
{
    if ls.len() == 0 {
        seq![]
    } else {
        ls[0] + seq!['\n'] + joined(ls.drop_first())
    }
}

/// A line that `str::lines` gives back unchanged: no newline in it, and no
/// carriage return at its end.
pub open spec fn line_ok(l: Seq<char>) -> bool {
    &&& forall|i: int| 0 <= i < l.len() ==> l[i] != '\n'
    &&& !(l.len() > 0 && l.last() == '\r')
}

proof fn lemma_joined_add(a: Seq<Seq<char>>, b: Seq<Seq<char>>)
    ensures
        joined(a + b) == joined(a) + joined(b),
    decreases a.len(),
{
    if a.len() == 0 {
        assert(a + b =~= b);
        assert(joined(a) + joined(b) =~= joined(b));
    } else {
        lemma_joined_add(a.drop_first(), b);
        assert((a + b).drop_first() =~= a.drop_first() + b);
        assert((a + b)[0] == a[0]);
        assert(joined(a + b) =~= joined(a) + joined(b));
    }
}

/// Scanning a line up to its newline.
proof fn lemma_scan_line(s: Seq<char>, start: int, i: int, j: int)
    requires
        0 <= start <= i <= j < s.len(),
        s[j] == '\n',
        forall|k: int| i <= k < j ==> s[k] != '\n',
    ensures
        lines_from(s, start, i) == seq![strip_cr(s.subrange(start, j))] + lines_from(
            s,
            j + 1,
            j + 1,
        ),
    decreases j - i,
{
    if i < j {
        lemma_scan_line(s, start, i + 1, j);
    }
}

/// Lines are read the same way after any text that ends a line.
proof fn lemma_lines_shift(a: Seq<char>, b: Seq<char>, x: int, y: int)
    requires
        0 <= x <= y <= b.len(),
    ensures
        lines_from(a + b, a.len() + x, a.len() + y) == lines_from(b, x, y),
    decreases b.len() - y,
{
    let s = a + b;
    if y < b.len() {
        assert(s[a.len() + y] == b[y]);
        if b[y] == '\n' {
            lemma_lines_shift(a, b, y + 1, y + 1);
            assert(s.subrange(a.len() + x, a.len() + y) =~= b.subrange(x, y));
        } else {
            lemma_lines_shift(a, b, x, y + 1);
        }
    } else {
        if x < b.len() {
            assert(s.subrange(a.len() + x, s.len() as int) =~= b.subrange(x, b.len() as int));
        }
    }
}

/// `str::lines` gives back the lines of a joined text.
#[verifier::spinoff_prover]
pub proof fn lemma_lines_joined(ls: Seq<Seq<char>>)
    requires
        forall|i: int| 0 <= i < ls.len() ==> line_ok(#[trigger] ls[i]),
    ensures
        lines(joined(ls)) == ls,
    decreases ls.len(),
{
    if ls.len() > 0 {
        let l = ls[0];
        let a = l + seq!['\n'];
        let rest = joined(ls.drop_first());
        let s = joined(ls);
        assert(s =~= a + rest);
        assert forall|k: int| 0 <= k < l.len() implies s[k] != '\n' by {
            assert(s[k] == l[k]);
        }
        assert(s[l.len() as int] == '\n');
        lemma_scan_line(s, 0, 0, l.len() as int);
        assert(s.subrange(0, l.len() as int) =~= l);
        assert forall|i: int| 0 <= i < ls.drop_first().len() implies line_ok(
            #[trigger] ls.drop_first()[i],
        ) by {
            assert(ls.drop_first()[i] == ls[i + 1]);
        }
        lemma_lines_joined(ls.drop_first());
        lemma_lines_shift(a, rest, 0, 0);
        assert(ls =~= seq![l] + ls.drop_first());
    }
}

/// The pieces `ps` with `c` between each two.
pub open spec fn sep_joined(ps: Seq<Seq<char>>, c: char) -> Seq<char>
    decreases ps.len(),
{
    if ps.len() == 0 {
        seq![]
    } else if ps.len() == 1 {
        ps[0]
    } else {
        ps[0] + seq![c] + sep_joined(ps.drop_first(), c)
    }
}

/// `c` does not occur in `t`.
pub open spec fn free_of(t: Seq<char>, c: char) -> bool {
    forall|i: int| 0 <= i < t.len() ==> t[i] != c
}

proof fn lemma_scan_piece(s: Seq<char>, c: char, start: int, i: int, j: int)
    requires
        0 <= start <= i <= j < s.len(),
        s[j] == c,
        forall|k: int| i <= k < j ==> s[k] != c,
    ensures
        split_from(s, c, start, i) == seq![s.subrange(start, j)] + split_from(s, c, j + 1, j + 1),
    decreases j - i,
{
    if i < j {
        lemma_scan_piece(s, c, start, i + 1, j);
    }
}

proof fn lemma_scan_last_piece(s: Seq<char>, c: char, start: int, i: int)
    requires
        0 <= start <= i <= s.len(),
        forall|k: int| i <= k < s.len() ==> s[k] != c,
    ensures
        split_from(s, c, start, i) == seq![s.subrange(start, s.len() as int)],
    decreases s.len() - i,
{
    if i < s.len() {
        lemma_scan_last_piece(s, c, start, i + 1);
    }
}

proof fn lemma_split_shift(a: Seq<char>, b: Seq<char>, c: char, x: int, y: int)
    requires
        0 <= x <= y <= b.len(),
    ensures
        split_from(a + b, c, a.len() + x, a.len() + y) == split_from(b, c, x, y),
    decreases b.len() - y,
{
    let s = a + b;
    if y < b.len() {
        assert(s[a.len() + y] == b[y]);
        if b[y] == c {
            lemma_split_shift(a, b, c, y + 1, y + 1);
            assert(s.subrange(a.len() + x, a.len() + y) =~= b.subrange(x, y));
        } else {
            lemma_split_shift(a, b, c, x, y + 1);
        }
    } else {
        assert(s.subrange(a.len() + x, s.len() as int) =~= b.subrange(x, b.len() as int));
    }
}

/// Splitting pieces joined by `c` gives back the pieces.
#[verifier::spinoff_prover]
pub proof fn lemma_split_joined(ps: Seq<Seq<char>>, c: char)
    requires
        ps.len() >= 1,
        forall|i: int| 0 <= i < ps.len() ==> free_of(#[trigger] ps[i], c),
    ensures
        split_from(sep_joined(ps, c), c, 0, 0) == ps,
    decreases ps.len(),
{
    let s = sep_joined(ps, c);
    let p = ps[0];
    if ps.len() == 1 {
        lemma_scan_last_piece(s, c, 0, 0);
        assert(s.subrange(0, s.len() as int) =~= s);
        assert(ps =~= seq![p]);
    } else {
        let a = p + seq![c];
        let rest = sep_joined(ps.drop_first(), c);
        assert(s =~= a + rest);
        assert forall|k: int| 0 <= k < p.len() implies s[k] != c by {
            assert(s[k] == p[k]);
        }
        assert(s[p.len() as int] == c);
        lemma_scan_piece(s, c, 0, 0, p.len() as int);
        assert(s.subrange(0, p.len() as int) =~= p);
        assert forall|i: int| 0 <= i < ps.drop_first().len() implies free_of(
            #[trigger] ps.drop_first()[i],
            c,
        ) by {
            assert(ps.drop_first()[i] == ps[i + 1]);
        }
        lemma_split_joined(ps.drop_first(), c);
        lemma_split_shift(a, rest, c, 0, 0);
        assert(ps =~= seq![p] + ps.drop_first());
    }
}

/// No whitespace in `t`.
pub open spec fn no_ws(t: Seq<char>) -> bool {
    forall|i: int| 0 <= i < t.len() ==> !is_ws(t[i])
}

/// Each of `ws` after a space.
pub open spec fn spaced(ws: Seq<Seq<char>>) -> Seq<char>
    decreases ws.len(),
{
    if ws.len() == 0 {
        seq![]
    } else {
        seq![' '] + ws[0] + spaced(ws.drop_first())
    }
}

proof fn lemma_scan_word(s: Seq<char>, start: int, i: int, j: int)
    requires
        0 <= start <= i <= j <= s.len(),
        forall|k: int| i <= k < j ==> !is_ws(s[k]),
    ensures
        words_from(s, start, i) == words_from(s, start, j),
    decreases j - i,
{
    if i < j {
        lemma_scan_word(s, start, i + 1, j);
    }
}

proof fn lemma_words_shift(a: Seq<char>, b: Seq<char>, x: int, y: int)
    requires
        0 <= x <= y <= b.len(),
    ensures
        words_from(a + b, a.len() + x, a.len() + y) == words_from(b, x, y),
    decreases b.len() - y,
{
    let s = a + b;
    if y < b.len() {
        assert(s[a.len() + y] == b[y]);
        if is_ws(b[y]) {
            lemma_words_shift(a, b, y + 1, y + 1);
            assert(s.subrange(a.len() + x, a.len() + y) =~= b.subrange(x, y));
        } else {
            lemma_words_shift(a, b, x, y + 1);
        }
    } else {
        if x < b.len() {
            assert(s.subrange(a.len() + x, s.len() as int) =~= b.subrange(x, b.len() as int));
        }
    }
}

/// Splitting spaced words at whitespace gives back the words.
#[verifier::spinoff_prover]
pub proof fn lemma_words_spaced(ws: Seq<Seq<char>>)
    requires
        forall|i: int| 0 <= i < ws.len() ==> #[trigger] ws[i].len() > 0 && no_ws(ws[i]),
    ensures
        words(spaced(ws)) == ws,
    decreases ws.len(),
{
    if ws.len() > 0 {
        let w = ws[0];
        let rest = spaced(ws.drop_first());
        let a = seq![' '] + w;
        let s = spaced(ws);
        assert(s =~= a + rest);
        assert(s[0] == ' ');
        assert(is_ws(' '));
        assert(w.len() > 0 && no_ws(w));
        assert forall|k: int| 1 <= k < 1 + w.len() implies !is_ws(s[k]) by {
            assert(s[k] == w[k - 1]);
        }
        lemma_scan_word(s, 1, 1, 1 + w.len() as int);
        assert forall|i: int| 0 <= i < ws.drop_first().len() implies #[trigger] ws.drop_first()[i].len()
            > 0 && no_ws(ws.drop_first()[i]) by {
            assert(ws.drop_first()[i] == ws[i + 1]);
        }
        lemma_words_spaced(ws.drop_first());
        if ws.len() == 1 {
            assert(rest.len() == 0);
            assert(s.subrange(1, s.len() as int) =~= w);
            assert(ws =~= seq![w]);
        } else {
            assert(rest[0] == ' ');
            assert(s[1 + w.len() as int] == ' ');
            assert(s.subrange(1, 1 + w.len() as int) =~= w);
            lemma_words_shift(a, rest, 1, 1);
            assert(words_from(rest, 0, 0) == words_from(rest, 1, 1));
            assert(ws =~= seq![w] + ws.drop_first());
        }
    }
}

/// No whitespace at either end of `t`.
pub open spec fn edge_trimmed(t: Seq<char>) -> bool {
    t.len() == 0 || (!is_ws(t[0]) && !is_ws(t.last()))
}

pub proof fn lemma_trimmed_plain(t: Seq<char>)
    requires
        edge_trimmed(t),
    ensures
        trimmed(t) == t,
{
    assert(ws_end(t, 0) == 0);
    assert(ws_start(t, 0, t.len() as int) == t.len());
    assert(t.subrange(0, t.len() as int) =~= t);
}

pub proof fn lemma_trimmed_space(t: Seq<char>)
    requires
        edge_trimmed(t),
    ensures
        trimmed(seq![' '] + t) == t,
{
    let s = seq![' '] + t;
    assert(is_ws(' '));
    assert(ws_end(s, 1) == 1);
    assert(ws_end(s, 0) == 1);
    if t.len() > 0 {
        assert(s.last() == t.last());
    }
    assert(ws_start(s, 1, s.len() as int) == s.len());
    assert(s.subrange(1, s.len() as int) =~= t);
}

/// The digits of `n` read back as `n`.
pub proof fn lemma_decimal_digits(n: nat)
    ensures
        decimal(n).len() > 0,
        forall|i: int| 0 <= i < decimal(n).len() ==> is_digit(#[trigger] decimal(n)[i]),
        digits_value(decimal(n)) == n,
    decreases n,
{
    let d = decimal(n);
    if n < 10 {
        assert(digit_value(digit_char(n)) == n);
        assert(d.drop_last() =~= Seq::<char>::empty());
        assert(digits_value(d.drop_last()) == 0);
    } else {
        lemma_decimal_digits(n / 10);
        assert(d.drop_last() =~= decimal(n / 10));
        assert(digit_value(digit_char(n % 10)) == n % 10);
        assert((n / 10) * 10 + n % 10 == n) by (nonlinear_arith);
    }
}

/// `usize::from_str` reads the decimal text of `n` as `n`.
pub proof fn lemma_parse_decimal(n: usize)
    ensures
        parse_unsigned(decimal(n as nat)) == Some(n),
        no_ws(decimal(n as nat)),
        forall|i: int| 0 <= i < decimal(n as nat).len() ==> is_digit(#[trigger] decimal(n as nat)[i]),
{
    lemma_decimal_digits(n as nat);
    let d = decimal(n as nat);
    assert(is_digit(d[0]));
    assert(unsigned_digits(d) == d);
    assert forall|i: int| 0 <= i < d.len() implies !is_ws(d[i]) by {
        assert(is_digit(d[i]));
    }
}

/// The header line of segment `id`'s `BoxMesh` resource.
pub open spec fn mesh_resource_line(id: nat) -> Seq<char> {
    "[sub_resource type=\"BoxMesh\" id=\"BoxMesh_"@ + decimal(id) + "\"]"@
}

/// The header line of segment `id`'s `BoxShape3D` resource.
pub open spec fn shape_resource_line(id: nat) -> Seq<char> {
    "[sub_resource type=\"BoxShape3D\" id=\"BoxShape3D_"@ + decimal(id) + "\"]"@
}

/// The header line of segment `id`'s `PlaneMesh` resource.
pub open spec fn plane_resource_line(id: nat) -> Seq<char> {
    "[sub_resource type=\"PlaneMesh\" id=\"PlaneMesh_"@ + decimal(id) + "\"]"@
}

/// The `Vector3` size line of a segment's box.
pub open spec fn size3_line(s: SegmentTextModel, z_size: Seq<char>) -> Seq<char> {
    "size = Vector3("@ + s.width + ", "@ + s.height + ", "@ + z_size + ")"@
}

/// The `Vector2` size line of a segment's plane.
pub open spec fn size2_line(s: SegmentTextModel) -> Seq<char> {
    "size = Vector2("@ + s.width + ", "@ + s.height + ")"@
}

/// A newline.
pub open spec fn nl() -> Seq<char> {
    seq!['\n']
}

proof fn lemma_joined2(a: Seq<char>, b: Seq<char>)
    ensures
        joined(seq![a, b]) == a + nl() + (b + nl()),
{
    let ls = seq![a, b];
    assert(joined(ls.drop_first().drop_first()) =~= seq![]);
    assert(joined(ls.drop_first()) =~= b + nl());
    assert(joined(ls) =~= a + nl() + (b + nl()));
}

proof fn lemma_joined3(a: Seq<char>, b: Seq<char>, c: Seq<char>)
    ensures
        joined(seq![a, b, c]) == a + nl() + (b + nl() + (c + nl())),
{
    let ls = seq![a, b, c];
    lemma_joined2(b, c);
    assert(ls.drop_first() =~= seq![b, c]);
    assert(joined(ls) =~= a + nl() + (b + nl() + (c + nl())));
}

proof fn lemma_joined4(a: Seq<char>, b: Seq<char>, c: Seq<char>, d: Seq<char>)
    ensures
        joined(seq![a, b, c, d]) == a + nl() + (b + nl() + (c + nl() + (d + nl()))),
{
    let ls = seq![a, b, c, d];
    lemma_joined3(b, c, d);
    assert(ls.drop_first() =~= seq![b, c, d]);
    assert(joined(ls) =~= a + nl() + (b + nl() + (c + nl() + (d + nl()))));
}

/// The lines of a `BoxMesh` resource.
pub open spec fn box_mesh_lines(id: nat, s: SegmentTextModel, z_size: Seq<char>) -> Seq<Seq<char>> {
    seq![mesh_resource_line(id), size3_line(s, z_size), seq![]]
}

/// The lines of a `BoxShape3D` resource.
pub open spec fn box_shape_lines(id: nat, s: SegmentTextModel, z_size: Seq<char>) -> Seq<Seq<char>> {
    seq![shape_resource_line(id), size3_line(s, z_size), seq![]]
}

/// The lines of a `PlaneMesh` resource.
pub open spec fn plane_lines(id: nat, s: SegmentTextModel) -> Seq<Seq<char>> {
    seq![plane_resource_line(id), size2_line(s), seq![]]
}

#[verifier::spinoff_prover]
proof fn lemma_resource_text(id: nat, s: SegmentTextModel, z_size: Seq<char>, include_backplanes: bool)
    ensures
        joined(box_mesh_lines(id, s, z_size)) == box_mesh_block(id, s, z_size),
        joined(box_shape_lines(id, s, z_size)) == box_shape_block(id, s, z_size),
        joined(plane_lines(id, s)) == plane_mesh_block(id, s),
        joined(resource_lines(id, s, z_size, include_backplanes)) == resource_block(
            id,
            s,
            z_size,
            include_backplanes,
        ),
{
    reveal_strlit("\"]\nsize = Vector3(");
    reveal_strlit("\"]\nsize = Vector2(");
    reveal_strlit("\"]");
    reveal_strlit("size = Vector3(");
    reveal_strlit("size = Vector2(");
    reveal_strlit(")\n\n");
    reveal_strlit(")");
    let e: Seq<char> = seq![];
    assert("\"]\nsize = Vector3("@ =~= "\"]"@ + nl() + "size = Vector3("@);
    assert("\"]\nsize = Vector2("@ =~= "\"]"@ + nl() + "size = Vector2("@);
    assert(")\n\n"@ =~= ")"@ + nl() + nl());
    lemma_joined3(mesh_resource_line(id), size3_line(s, z_size), e);
    assert(joined(box_mesh_lines(id, s, z_size)) =~= box_mesh_block(id, s, z_size));
    lemma_joined3(shape_resource_line(id), size3_line(s, z_size), e);
    assert(joined(box_shape_lines(id, s, z_size)) =~= box_shape_block(id, s, z_size));
    lemma_joined3(plane_resource_line(id), size2_line(s), e);
    assert(joined(plane_lines(id, s)) =~= plane_mesh_block(id, s));
    lemma_joined_add(box_mesh_lines(id, s, z_size), box_shape_lines(id, s, z_size));
    if include_backplanes {
        lemma_joined_add(
            box_mesh_lines(id, s, z_size) + box_shape_lines(id, s, z_size),
            plane_lines(id, s),
        );
    } else {
        assert(resource_lines(id, s, z_size, include_backplanes) =~= box_mesh_lines(id, s, z_size)
            + box_shape_lines(id, s, z_size));
        assert(joined(Seq::<Seq<char>>::empty()) == e);
    }
    assert(joined(resource_lines(id, s, z_size, include_backplanes)) =~= resource_block(
        id,
        s,
        z_size,
        include_backplanes,
    ));
}

/// The lines of the resources of segment `id`.
pub open spec fn resource_lines(id: nat, s: SegmentTextModel, z_size: Seq<char>, include_backplanes: bool) -> Seq<
    Seq<char>,
> {
    box_mesh_lines(id, s, z_size) + box_shape_lines(id, s, z_size) + if include_backplanes {
        plane_lines(id, s)
    } else {
        Seq::<Seq<char>>::empty()
    }
}

/// The lines of the resources of all `segments`, numbered from 0.
pub open spec fn resources_lines(segments: Seq<SegmentTextModel>, z_size: Seq<char>, include_backplanes: bool) -> Seq<
    Seq<char>,
>
    decreases segments.len(),
{
    if segments.len() == 0 {
        seq![]
    } else {
        resources_lines(segments.drop_last(), z_size, include_backplanes) + resource_lines(
            (segments.len() - 1) as nat,
            segments.last(),
            z_size,
            include_backplanes,
        )
    }
}

proof fn lemma_resources_text(segments: Seq<SegmentTextModel>, z_size: Seq<char>, include_backplanes: bool)
    ensures
        joined(resources_lines(segments, z_size, include_backplanes)) == resources_text(
            segments,
            z_size,
            include_backplanes,
        ),
    decreases segments.len(),
{
    if segments.len() > 0 {
        let id = (segments.len() - 1) as nat;
        lemma_resources_text(segments.drop_last(), z_size, include_backplanes);
        lemma_resource_text(id, segments.last(), z_size, include_backplanes);
        lemma_joined_add(
            resources_lines(segments.drop_last(), z_size, include_backplanes),
            resource_lines(id, segments.last(), z_size, include_backplanes),
        );
    }
}

/// The metadata line.
pub open spec fn metadata_line(
    grid_w: usize,
    grid_h: usize,
    unit_size: Seq<char>,
    z_size: Seq<char>,
    include_backplanes: bool,
) -> Seq<char> {
    "; grid_w="@ + decimal(grid_w as nat) + " grid_h="@ + decimal(grid_h as nat) + " unit_size="@
        + unit_size + " z_size="@ + z_size + " include_backplanes="@ + bool_text(include_backplanes)
}

/// The first lines: the marker, the metadata, the scene header and a blank
/// line.
pub open spec fn header_lines(
    grid_w: usize,
    grid_h: usize,
    unit_size: Seq<char>,
    z_size: Seq<char>,
    include_backplanes: bool,
) -> Seq<Seq<char>> {
    seq![
        export_marker(),
        metadata_line(grid_w, grid_h, unit_size, z_size, include_backplanes),
        "[gd_scene format=3]"@,
        seq![],
    ]
}

#[verifier::spinoff_prover]
proof fn lemma_header_text(
    grid_w: usize,
    grid_h: usize,
    unit_size: Seq<char>,
    z_size: Seq<char>,
    include_backplanes: bool,
)
    ensures
        joined(header_lines(grid_w, grid_h, unit_size, z_size, include_backplanes)) == header_text(
            grid_w,
            grid_h,
            unit_size,
            z_size,
            include_backplanes,
        ),
{
    reveal_strlit("; generated-by=grid-wall-builder-for-godot\n");
    reveal_strlit("; generated-by=grid-wall-builder-for-godot");
    reveal_strlit("\n");
    reveal_strlit("[gd_scene format=3]\n\n");
    reveal_strlit("[gd_scene format=3]");
    assert("; generated-by=grid-wall-builder-for-godot\n"@ =~= export_marker() + nl());
    assert("\n"@ =~= nl());
    assert("[gd_scene format=3]\n\n"@ =~= "[gd_scene format=3]"@ + nl() + nl());
    let m = metadata_line(grid_w, grid_h, unit_size, z_size, include_backplanes);
    lemma_joined4(export_marker(), m, "[gd_scene format=3]"@, seq![]);
    assert(joined(header_lines(grid_w, grid_h, unit_size, z_size, include_backplanes)) =~= header_text(
        grid_w,
        grid_h,
        unit_size,
        z_size,
        include_backplanes,
    ));
}

/// The root node's line.
pub open spec fn root_line(root_name: Seq<char>) -> Seq<char> {
    "[node name=\""@ + root_name + "\" type=\"Node3D\"]"@
}

/// The line of the `BoxMeshes` container.
pub open spec fn box_meshes_line() -> Seq<char> {
    "[node name=\"BoxMeshes\" type=\"Node3D\" parent=\".\"]"@
}

/// The root node and the `BoxMeshes` container.
pub open spec fn root_lines(root_name: Seq<char>) -> Seq<Seq<char>> {
    seq![root_line(root_name), seq![], box_meshes_line(), seq![]]
}

#[verifier::spinoff_prover]
proof fn lemma_root_text(root_name: Seq<char>)
    ensures
        joined(root_lines(root_name)) == "[node name=\""@ + root_name + "\" type=\"Node3D\"]\n\n"@
            + "[node name=\"BoxMeshes\" type=\"Node3D\" parent=\".\"]\n\n"@,
{
    reveal_strlit("\" type=\"Node3D\"]\n\n");
    reveal_strlit("\" type=\"Node3D\"]");
    reveal_strlit("[node name=\"BoxMeshes\" type=\"Node3D\" parent=\".\"]\n\n");
    reveal_strlit("[node name=\"BoxMeshes\" type=\"Node3D\" parent=\".\"]");
    assert("\" type=\"Node3D\"]\n\n"@ =~= "\" type=\"Node3D\"]"@ + nl() + nl());
    assert("[node name=\"BoxMeshes\" type=\"Node3D\" parent=\".\"]\n\n"@ =~= box_meshes_line() + nl()
        + nl());
    lemma_joined4(root_line(root_name), seq![], box_meshes_line(), seq![]);
    assert(joined(root_lines(root_name)) =~= "[node name=\""@ + root_name + "\" type=\"Node3D\"]\n\n"@
        + "[node name=\"BoxMeshes\" type=\"Node3D\" parent=\".\"]\n\n"@);
}

/// The header line of segment `n`'s `StaticBody3D`.
pub open spec fn segment_line(n: Seq<char>) -> Seq<char> {
    "[node name=\"Segment_"@ + n + "\" type=\"StaticBody3D\" parent=\"BoxMeshes\"]"@
}

/// The transform line of a segment.
pub open spec fn segment_transform_line(s: SegmentTextModel) -> Seq<char> {
    "transform = Transform3D(1, 0, 0, 0, 1, 0, 0, 0, 1, "@ + s.offset_x + ", "@ + s.offset_y
        + ", 0)"@
}

/// The header line of segment `n`'s `MeshInstance3D`.
pub open spec fn mesh_node_line(n: Seq<char>) -> Seq<char> {
    "[node name=\"MeshInstance3D\" type=\"MeshInstance3D\" parent=\"BoxMeshes/Segment_"@ + n
        + "\"]"@
}

/// The mesh reference of segment `n`.
pub open spec fn mesh_reference_line(n: Seq<char>) -> Seq<char> {
    "mesh = SubResource(\"BoxMesh_"@ + n + "\")"@
}

/// The header line of segment `n`'s `CollisionShape3D`.
pub open spec fn shape_node_line(n: Seq<char>) -> Seq<char> {
    "[node name=\"CollisionShape3D\" type=\"CollisionShape3D\" parent=\"BoxMeshes/Segment_"@ + n
        + "\"]"@
}

/// The shape reference of segment `n`.
pub open spec fn shape_reference_line(n: Seq<char>) -> Seq<char> {
    "shape = SubResource(\"BoxShape3D_"@ + n + "\")"@
}

/// The lines of segment `id`'s nodes.
pub open spec fn segment_lines(id: nat, s: SegmentTextModel) -> Seq<Seq<char>> {
    let n = decimal(id);
    seq![segment_line(n), segment_transform_line(s), seq![]] + seq![
        mesh_node_line(n),
        mesh_reference_line(n),
        seq![],
    ] + seq![shape_node_line(n), shape_reference_line(n), seq![]]
}

#[verifier::spinoff_prover]
proof fn lemma_segment_text(id: nat, s: SegmentTextModel)
    ensures
        joined(segment_lines(id, s)) == segment_block(id, s),
{
    let n = decimal(id);
    let e: Seq<char> = seq![];
    reveal_strlit(
        "\" type=\"StaticBody3D\" parent=\"BoxMeshes\"]\ntransform = Transform3D(1, 0, 0, 0, 1, 0, 0, 0, 1, ",
    );
    reveal_strlit("\" type=\"StaticBody3D\" parent=\"BoxMeshes\"]");
    reveal_strlit("transform = Transform3D(1, 0, 0, 0, 1, 0, 0, 0, 1, ");
    reveal_strlit(", 0)\n\n");
    reveal_strlit(", 0)");
    reveal_strlit("\"]\nmesh = SubResource(\"BoxMesh_");
    reveal_strlit("\"]");
    reveal_strlit("mesh = SubResource(\"BoxMesh_");
    reveal_strlit("\")\n\n");
    reveal_strlit("\")");
    reveal_strlit("\"]\nshape = SubResource(\"BoxShape3D_");
    reveal_strlit("shape = SubResource(\"BoxShape3D_");
    assert("\" type=\"StaticBody3D\" parent=\"BoxMeshes\"]\ntransform = Transform3D(1, 0, 0, 0, 1, 0, 0, 0, 1, "@
        =~= "\" type=\"StaticBody3D\" parent=\"BoxMeshes\"]"@ + nl()
        + "transform = Transform3D(1, 0, 0, 0, 1, 0, 0, 0, 1, "@);
    assert(", 0)\n\n"@ =~= ", 0)"@ + nl() + nl());
    assert("\"]\nmesh = SubResource(\"BoxMesh_"@ =~= "\"]"@ + nl() + "mesh = SubResource(\"BoxMesh_"@);
    assert("\")\n\n"@ =~= "\")"@ + nl() + nl());
    assert("\"]\nshape = SubResource(\"BoxShape3D_"@ =~= "\"]"@ + nl()
        + "shape = SubResource(\"BoxShape3D_"@);
    let g1 = seq![segment_line(n), segment_transform_line(s), e];
    let g2 = seq![mesh_node_line(n), mesh_reference_line(n), e];
    let g3 = seq![shape_node_line(n), shape_reference_line(n), e];
    lemma_joined3(segment_line(n), segment_transform_line(s), e);
    lemma_joined3(mesh_node_line(n), mesh_reference_line(n), e);
    lemma_joined3(shape_node_line(n), shape_reference_line(n), e);
    lemma_joined_add(g1, g2);
    lemma_joined_add(g1 + g2, g3);
    let p1 = "[node name=\"Segment_"@ + n
        + "\" type=\"StaticBody3D\" parent=\"BoxMeshes\"]\ntransform = Transform3D(1, 0, 0, 0, 1, 0, 0, 0, 1, "@
        + s.offset_x + ", "@ + s.offset_y + ", 0)\n\n"@;
    let p2 = "[node name=\"MeshInstance3D\" type=\"MeshInstance3D\" parent=\"BoxMeshes/Segment_"@ + n
        + "\"]\nmesh = SubResource(\"BoxMesh_"@ + n + "\")\n\n"@;
    let p3 = "[node name=\"CollisionShape3D\" type=\"CollisionShape3D\" parent=\"BoxMeshes/Segment_"@
        + n + "\"]\nshape = SubResource(\"BoxShape3D_"@ + n + "\")\n\n"@;
    assert(joined(g1) =~= p1);
    assert(joined(g2) =~= p2);
    assert(joined(g3) =~= p3);
    assert(segment_block(id, s) =~= p1 + p2 + p3);
}

/// The segment nodes of all `segments`, numbered from 0.
pub open spec fn segments_lines(segments: Seq<SegmentTextModel>) -> Seq<Seq<char>>
    decreases segments.len(),
{
    if segments.len() == 0 {
        seq![]
    } else {
        segments_lines(segments.drop_last()) + segment_lines(
            (segments.len() - 1) as nat,
            segments.last(),
        )
    }
}

proof fn lemma_segments_text(segments: Seq<SegmentTextModel>)
    ensures
        joined(segments_lines(segments)) == segments_text(segments),
    decreases segments.len(),
{
    if segments.len() > 0 {
        let id = (segments.len() - 1) as nat;
        lemma_segments_text(segments.drop_last());
        lemma_segment_text(id, segments.last());
        lemma_joined_add(segments_lines(segments.drop_last()), segment_lines(id, segments.last()));
    }
}

/// The line of the `BackPlanes` container.
pub open spec fn back_planes_line() -> Seq<char> {
    "[node name=\"BackPlanes\" type=\"Node3D\" parent=\".\"]"@
}

/// The header line of back plane `n`.
pub open spec fn back_plane_line(n: Seq<char>) -> Seq<char> {
    "[node name=\"BackPlane_"@ + n + "\" type=\"MeshInstance3D\" parent=\"BackPlanes\"]"@
}

/// The transform line of a back plane.
pub open spec fn back_plane_transform_line(s: SegmentTextModel, offset_z: Seq<char>) -> Seq<char> {
    "transform = Transform3D(1, 0, 0, 0, 0, -1, 0, 1, 0, "@ + s.offset_x + ", "@ + s.offset_y
        + ", "@ + offset_z + ")"@
}

/// The mesh reference of back plane `n`.
pub open spec fn plane_reference_line(n: Seq<char>) -> Seq<char> {
    "mesh = SubResource(\"PlaneMesh_"@ + n + "\")"@
}

/// The lines of back plane `id`.
pub open spec fn back_plane_lines(id: nat, s: SegmentTextModel, offset_z: Seq<char>) -> Seq<Seq<char>> {
    let n = decimal(id);
    seq![
        back_plane_line(n),
        back_plane_transform_line(s, offset_z),
        plane_reference_line(n),
        seq![],
    ]
}

#[verifier::spinoff_prover]
proof fn lemma_back_plane_text(id: nat, s: SegmentTextModel, offset_z: Seq<char>)
    ensures
        joined(back_plane_lines(id, s, offset_z)) == backplane_block(id, s, offset_z),
{
    let n = decimal(id);
    reveal_strlit(
        "\" type=\"MeshInstance3D\" parent=\"BackPlanes\"]\ntransform = Transform3D(1, 0, 0, 0, 0, -1, 0, 1, 0, ",
    );
    reveal_strlit("\" type=\"MeshInstance3D\" parent=\"BackPlanes\"]");
    reveal_strlit("transform = Transform3D(1, 0, 0, 0, 0, -1, 0, 1, 0, ");
    reveal_strlit(")\nmesh = SubResource(\"PlaneMesh_");
    reveal_strlit(")");
    reveal_strlit("mesh = SubResource(\"PlaneMesh_");
    reveal_strlit("\")\n\n");
    reveal_strlit("\")");
    assert("\" type=\"MeshInstance3D\" parent=\"BackPlanes\"]\ntransform = Transform3D(1, 0, 0, 0, 0, -1, 0, 1, 0, "@
        =~= "\" type=\"MeshInstance3D\" parent=\"BackPlanes\"]"@ + nl()
        + "transform = Transform3D(1, 0, 0, 0, 0, -1, 0, 1, 0, "@);
    assert(")\nmesh = SubResource(\"PlaneMesh_"@ =~= ")"@ + nl() + "mesh = SubResource(\"PlaneMesh_"@);
    assert("\")\n\n"@ =~= "\")"@ + nl() + nl());
    lemma_joined4(back_plane_line(n), back_plane_transform_line(s, offset_z), plane_reference_line(n), seq![]);
    assert(joined(back_plane_lines(id, s, offset_z)) =~= backplane_block(id, s, offset_z));
}

/// The back plane nodes of all `segments`, numbered from 0.
pub open spec fn back_planes_lines(segments: Seq<SegmentTextModel>, offset_z: Seq<char>) -> Seq<
    Seq<char>,
>
    decreases segments.len(),
{
    if segments.len() == 0 {
        seq![]
    } else {
        back_planes_lines(segments.drop_last(), offset_z) + back_plane_lines(
            (segments.len() - 1) as nat,
            segments.last(),
            offset_z,
        )
    }
}

proof fn lemma_back_planes_text(segments: Seq<SegmentTextModel>, offset_z: Seq<char>)
    ensures
        joined(back_planes_lines(segments, offset_z)) == backplanes_text(segments, offset_z),
    decreases segments.len(),
{
    if segments.len() > 0 {
        let id = (segments.len() - 1) as nat;
        lemma_back_planes_text(segments.drop_last(), offset_z);
        lemma_back_plane_text(id, segments.last(), offset_z);
        lemma_joined_add(
            back_planes_lines(segments.drop_last(), offset_z),
            back_plane_lines(id, segments.last(), offset_z),
        );
    }
}

/// The `BackPlanes` container and its nodes, when back planes are written.
pub open spec fn back_planes_part(
    segments: Seq<SegmentTextModel>,
    offset_z: Seq<char>,
    include_backplanes: bool,
) -> Seq<Seq<char>> {
    if include_backplanes {
        seq![back_planes_line(), seq![]] + back_planes_lines(segments, offset_z)
    } else {
        seq![]
    }
}

/// The lines of a whole exported scene.
pub open spec fn scene_lines(
    root_name: Seq<char>,
    grid_w: usize,
    grid_h: usize,
    unit_size: Seq<char>,
    z_size: Seq<char>,
    backplane_offset_z: Seq<char>,
    include_backplanes: bool,
    segments: Seq<SegmentTextModel>,
) -> Seq<Seq<char>> {
    header_lines(grid_w, grid_h, unit_size, z_size, include_backplanes) + resources_lines(
        segments,
        z_size,
        include_backplanes,
    ) + root_lines(root_name) + segments_lines(segments) + back_planes_part(
        segments,
        backplane_offset_z,
        include_backplanes,
    )
}

/// An exported scene is the text of its lines.
#[verifier::spinoff_prover]
pub proof fn lemma_scene_text(
    root_name: Seq<char>,
    grid_w: usize,
    grid_h: usize,
    unit_size: Seq<char>,
    z_size: Seq<char>,
    backplane_offset_z: Seq<char>,
    include_backplanes: bool,
    segments: Seq<SegmentTextModel>,
)
    ensures
        joined(
            scene_lines(
                root_name,
                grid_w,
                grid_h,
                unit_size,
                z_size,
                backplane_offset_z,
                include_backplanes,
                segments,
            ),
        ) == scene_text(
            root_name,
            grid_w,
            grid_h,
            unit_size,
            z_size,
            backplane_offset_z,
            include_backplanes,
            segments,
        ),
{
    let h = header_lines(grid_w, grid_h, unit_size, z_size, include_backplanes);
    let r = resources_lines(segments, z_size, include_backplanes);
    let o = root_lines(root_name);
    let g = segments_lines(segments);
    let b = back_planes_part(segments, backplane_offset_z, include_backplanes);
    lemma_header_text(grid_w, grid_h, unit_size, z_size, include_backplanes);
    lemma_resources_text(segments, z_size, include_backplanes);
    lemma_root_text(root_name);
    lemma_segments_text(segments);
    lemma_joined_add(h, r);
    lemma_joined_add(h + r, o);
    lemma_joined_add(h + r + o, g);
    lemma_joined_add(h + r + o + g, b);
    if include_backplanes {
        reveal_strlit("[node name=\"BackPlanes\" type=\"Node3D\" parent=\".\"]\n\n");
        reveal_strlit("[node name=\"BackPlanes\" type=\"Node3D\" parent=\".\"]");
        assert("[node name=\"BackPlanes\" type=\"Node3D\" parent=\".\"]\n\n"@ =~= back_planes_line()
            + nl() + nl());
        lemma_joined2(back_planes_line(), seq![]);
        lemma_back_planes_text(segments, backplane_offset_z);
        lemma_joined_add(seq![back_planes_line(), seq![]], back_planes_lines(segments, backplane_offset_z));
    } else {
        assert(joined(b) =~= Seq::<char>::empty());
    }
    assert(joined(h + r + o + g + b) =~= scene_text(
        root_name,
        grid_w,
        grid_h,
        unit_size,
        z_size,
        backplane_offset_z,
        include_backplanes,
        segments,
    ));
}

/// Every line of `ls` is given back by `str::lines` unchanged.
pub open spec fn all_ok(ls: Seq<Seq<char>>) -> bool {
    forall|i: int| 0 <= i < ls.len() ==> line_ok(#[trigger] ls[i])
}

proof fn lemma_all_ok_cat(a: Seq<Seq<char>>, b: Seq<Seq<char>>)
    requires
        all_ok(a),
        all_ok(b),
    ensures
        all_ok(a + b),
{
    assert forall|i: int| 0 <= i < (a + b).len() implies line_ok(#[trigger] (a + b)[i]) by {
        if i < a.len() {
            assert((a + b)[i] == a[i]);
        } else {
            assert((a + b)[i] == b[i - a.len()]);
        }
    }
}

proof fn lemma_free_cat(a: Seq<char>, b: Seq<char>, c: char)
    requires
        free_of(a, c),
        free_of(b, c),
    ensures
        free_of(a + b, c),
{
    assert forall|i: int| 0 <= i < (a + b).len() implies (a + b)[i] != c by {
        if i < a.len() {
            assert((a + b)[i] == a[i]);
        } else {
            assert((a + b)[i] == b[i - a.len()]);
        }
    }
}

/// A line that is not blank and has no whitespace at either end.
pub open spec fn solid(l: Seq<char>) -> bool {
    l.len() > 0 && !is_ws(l[0]) && !is_ws(l.last()) && line_ok(l)
}

proof fn lemma_solid(l: Seq<char>)
    requires
        solid(l),
    ensures
        trimmed(l) == l,
        !blank(l),
{
    lemma_trimmed_plain(l);
}

proof fn lemma_blank_empty()
    ensures
        blank(seq![]),
        line_ok(seq![]),
{
    let e: Seq<char> = seq![];
    assert(ws_end(e, 0) == 0);
    assert(ws_start(e, 0, 0) == 0);
    assert(trimmed(e) =~= e);
}

/// Facts about a line `a + m + b` whose ends are the texts `a` and `b`.
proof fn lemma_framed(a: Seq<char>, m: Seq<char>, b: Seq<char>)
    requires
        a.len() > 0,
        b.len() > 0,
        !is_ws(a[0]),
        !is_ws(b.last()),
        b.last() != '\r',
        free_of(a, '\n'),
        free_of(m, '\n'),
        free_of(b, '\n'),
    ensures
        solid(a + m + b),
        (a + m + b)[0] == a[0],
        (a + m + b).last() == b.last(),
{
    lemma_free_cat(a, m, '\n');
    lemma_free_cat(a + m, b, '\n');
    assert((a + m + b)[0] == a[0]);
    assert((a + m + b).last() == b.last());
}

/// The digits of a number hold no newline, comma, quote or whitespace.
proof fn lemma_decimal_plain(n: usize)
    ensures
        free_of(decimal(n as nat), '\n'),
        free_of(decimal(n as nat), ','),
        free_of(decimal(n as nat), '"'),
        no_ws(decimal(n as nat)),
        parse_unsigned(decimal(n as nat)) == Some(n),
{
    lemma_parse_decimal(n);
    let d = decimal(n as nat);
    assert forall|i: int| 0 <= i < d.len() implies d[i] != '\n' && d[i] != ',' && d[i] != '"' by {
        assert(is_digit(d[i]));
    }
}

/// A number's text that a vector or transform line can hold: no comma, no
/// newline, and no whitespace at either end.
pub open spec fn component_text(t: Seq<char>) -> bool {
    free_of(t, ',') && free_of(t, '\n') && edge_trimmed(t)
}

/// The texts of a segment fit in its lines.
pub open spec fn segment_texts_fit(s: SegmentTextModel) -> bool {
    &&& component_text(s.width)
    &&& component_text(s.height)
    &&& component_text(s.offset_x)
    &&& component_text(s.offset_y)
}

/// A node name that its header line can hold: no quote, no newline.
pub open spec fn name_text(t: Seq<char>) -> bool {
    free_of(t, '"') && free_of(t, '\n')
}

proof fn lemma_no_ws_free(t: Seq<char>)
    requires
        no_ws(t),
    ensures
        free_of(t, '\n'),
        edge_trimmed(t),
{
    assert(is_ws('\n'));
}

#[verifier::spinoff_prover]
proof fn lemma_header_lines_solid(
    grid_w: usize,
    grid_h: usize,
    unit_size: Seq<char>,
    z_size: Seq<char>,
    include_backplanes: bool,
)
    requires
        no_ws(unit_size),
        no_ws(z_size),
    ensures
        solid(export_marker()),
        solid(metadata_line(grid_w, grid_h, unit_size, z_size, include_backplanes)),
        solid("[gd_scene format=3]"@),
        all_ok(header_lines(grid_w, grid_h, unit_size, z_size, include_backplanes)),
{
    reveal_strlit("; generated-by=grid-wall-builder-for-godot");
    reveal_strlit("[gd_scene format=3]");
    reveal_strlit("; grid_w=");
    reveal_strlit(" grid_h=");
    reveal_strlit(" unit_size=");
    reveal_strlit(" z_size=");
    reveal_strlit(" include_backplanes=");
    reveal_strlit("true");
    reveal_strlit("false");
    lemma_no_ws_free(unit_size);
    lemma_no_ws_free(z_size);
    lemma_decimal_plain(grid_w);
    lemma_decimal_plain(grid_h);
    assert(solid(export_marker()));
    assert(solid("[gd_scene format=3]"@));
    let b = bool_text(include_backplanes);
    let m = decimal(grid_w as nat) + " grid_h="@ + decimal(grid_h as nat) + " unit_size="@ + unit_size
        + " z_size="@ + z_size + " include_backplanes="@;
    lemma_free_cat(decimal(grid_w as nat), " grid_h="@, '\n');
    lemma_free_cat(decimal(grid_w as nat) + " grid_h="@, decimal(grid_h as nat), '\n');
    lemma_free_cat(decimal(grid_w as nat) + " grid_h="@ + decimal(grid_h as nat), " unit_size="@, '\n');
    lemma_free_cat(
        decimal(grid_w as nat) + " grid_h="@ + decimal(grid_h as nat) + " unit_size="@,
        unit_size,
        '\n',
    );
    lemma_free_cat(
        decimal(grid_w as nat) + " grid_h="@ + decimal(grid_h as nat) + " unit_size="@ + unit_size,
        " z_size="@,
        '\n',
    );
    lemma_free_cat(
        decimal(grid_w as nat) + " grid_h="@ + decimal(grid_h as nat) + " unit_size="@ + unit_size
            + " z_size="@,
        z_size,
        '\n',
    );
    lemma_free_cat(
        decimal(grid_w as nat) + " grid_h="@ + decimal(grid_h as nat) + " unit_size="@ + unit_size
            + " z_size="@ + z_size,
        " include_backplanes="@,
        '\n',
    );
    lemma_framed("; grid_w="@, m, b);
    assert("; grid_w="@ + m + b =~= metadata_line(grid_w, grid_h, unit_size, z_size, include_backplanes));
    lemma_blank_empty();
}

#[verifier::spinoff_prover]
proof fn lemma_resource_lines_solid(id: nat, s: SegmentTextModel, z_size: Seq<char>, include_backplanes: bool)
    requires
        id <= usize::MAX,
        segment_texts_fit(s),
        no_ws(z_size),
        free_of(z_size, ','),
    ensures
        solid(mesh_resource_line(id)),
        solid(shape_resource_line(id)),
        solid(plane_resource_line(id)),
        solid(size3_line(s, z_size)),
        solid(size2_line(s)),
        all_ok(resource_lines(id, s, z_size, include_backplanes)),
{
    reveal_strlit("[sub_resource type=\"BoxMesh\" id=\"BoxMesh_");
    reveal_strlit("[sub_resource type=\"BoxShape3D\" id=\"BoxShape3D_");
    reveal_strlit("[sub_resource type=\"PlaneMesh\" id=\"PlaneMesh_");
    reveal_strlit("\"]");
    reveal_strlit("size = Vector3(");
    reveal_strlit("size = Vector2(");
    reveal_strlit(", ");
    reveal_strlit(")");
    lemma_decimal_plain(id as usize);
    lemma_no_ws_free(z_size);
    let n = decimal(id);
    lemma_framed("[sub_resource type=\"BoxMesh\" id=\"BoxMesh_"@, n, "\"]"@);
    lemma_framed("[sub_resource type=\"BoxShape3D\" id=\"BoxShape3D_"@, n, "\"]"@);
    lemma_framed("[sub_resource type=\"PlaneMesh\" id=\"PlaneMesh_"@, n, "\"]"@);
    let w = s.width;
    let h = s.height;
    lemma_free_cat(w, ", "@, '\n');
    lemma_free_cat(w + ", "@, h, '\n');
    lemma_free_cat(w + ", "@ + h, ", "@, '\n');
    lemma_free_cat(w + ", "@ + h + ", "@, z_size, '\n');
    lemma_framed("size = Vector3("@, w + ", "@ + h + ", "@ + z_size, ")"@);
    assert("size = Vector3("@ + (w + ", "@ + h + ", "@ + z_size) + ")"@ =~= size3_line(s, z_size));
    lemma_framed("size = Vector2("@, w + ", "@ + h, ")"@);
    assert("size = Vector2("@ + (w + ", "@ + h) + ")"@ =~= size2_line(s));
    lemma_blank_empty();
    lemma_all_ok_cat(box_mesh_lines(id, s, z_size), box_shape_lines(id, s, z_size));
    lemma_all_ok_cat(box_mesh_lines(id, s, z_size) + box_shape_lines(id, s, z_size), plane_lines(id, s));
    lemma_all_ok_cat(
        box_mesh_lines(id, s, z_size) + box_shape_lines(id, s, z_size),
        Seq::<Seq<char>>::empty(),
    );
}

proof fn lemma_resources_lines_ok(segments: Seq<SegmentTextModel>, z_size: Seq<char>, include_backplanes: bool)
    requires
        segments.len() <= usize::MAX + 1,
        forall|i: int| 0 <= i < segments.len() ==> segment_texts_fit(#[trigger] segments[i]),
        no_ws(z_size),
        free_of(z_size, ','),
    ensures
        all_ok(resources_lines(segments, z_size, include_backplanes)),
    decreases segments.len(),
{
    if segments.len() > 0 {
        let id = (segments.len() - 1) as nat;
        assert forall|i: int| 0 <= i < segments.drop_last().len() implies segment_texts_fit(
            #[trigger] segments.drop_last()[i],
        ) by {
            assert(segments.drop_last()[i] == segments[i]);
        }
        lemma_resources_lines_ok(segments.drop_last(), z_size, include_backplanes);
        lemma_resource_lines_solid(id, segments.last(), z_size, include_backplanes);
        lemma_all_ok_cat(
            resources_lines(segments.drop_last(), z_size, include_backplanes),
            resource_lines(id, segments.last(), z_size, include_backplanes),
        );
    }
}

#[verifier::spinoff_prover]
proof fn lemma_root_lines_solid(root_name: Seq<char>)
    requires
        name_text(root_name),
    ensures
        solid(root_line(root_name)),
        solid(box_meshes_line()),
        solid(back_planes_line()),
        all_ok(root_lines(root_name)),
{
    reveal_strlit("[node name=\"");
    reveal_strlit("\" type=\"Node3D\"]");
    reveal_strlit("[node name=\"BoxMeshes\" type=\"Node3D\" parent=\".\"]");
    reveal_strlit("[node name=\"BackPlanes\" type=\"Node3D\" parent=\".\"]");
    lemma_framed("[node name=\""@, root_name, "\" type=\"Node3D\"]"@);
    assert(solid(box_meshes_line()));
    assert(solid(back_planes_line()));
    lemma_blank_empty();
}

#[verifier::spinoff_prover]
proof fn lemma_segment_lines_solid(id: nat, s: SegmentTextModel)
    requires
        id <= usize::MAX,
        segment_texts_fit(s),
    ensures
        solid(segment_line(decimal(id))),
        solid(segment_transform_line(s)),
        solid(mesh_node_line(decimal(id))),
        solid(mesh_reference_line(decimal(id))),
        solid(shape_node_line(decimal(id))),
        solid(shape_reference_line(decimal(id))),
        all_ok(segment_lines(id, s)),
{
    reveal_strlit("[node name=\"Segment_");
    reveal_strlit("\" type=\"StaticBody3D\" parent=\"BoxMeshes\"]");
    reveal_strlit("transform = Transform3D(1, 0, 0, 0, 1, 0, 0, 0, 1, ");
    reveal_strlit(", ");
    reveal_strlit(", 0)");
    reveal_strlit("[node name=\"MeshInstance3D\" type=\"MeshInstance3D\" parent=\"BoxMeshes/Segment_");
    reveal_strlit("\"]");
    reveal_strlit("mesh = SubResource(\"BoxMesh_");
    reveal_strlit("\")");
    reveal_strlit(
        "[node name=\"CollisionShape3D\" type=\"CollisionShape3D\" parent=\"BoxMeshes/Segment_",
    );
    reveal_strlit("shape = SubResource(\"BoxShape3D_");
    lemma_decimal_plain(id as usize);
    let n = decimal(id);
    lemma_framed("[node name=\"Segment_"@, n, "\" type=\"StaticBody3D\" parent=\"BoxMeshes\"]"@);
    lemma_free_cat(s.offset_x, ", "@, '\n');
    lemma_free_cat(s.offset_x + ", "@, s.offset_y, '\n');
    lemma_framed(
        "transform = Transform3D(1, 0, 0, 0, 1, 0, 0, 0, 1, "@,
        s.offset_x + ", "@ + s.offset_y,
        ", 0)"@,
    );
    assert("transform = Transform3D(1, 0, 0, 0, 1, 0, 0, 0, 1, "@ + (s.offset_x + ", "@ + s.offset_y)
        + ", 0)"@ =~= segment_transform_line(s));
    lemma_framed(
        "[node name=\"MeshInstance3D\" type=\"MeshInstance3D\" parent=\"BoxMeshes/Segment_"@,
        n,
        "\"]"@,
    );
    lemma_framed("mesh = SubResource(\"BoxMesh_"@, n, "\")"@);
    lemma_framed(
        "[node name=\"CollisionShape3D\" type=\"CollisionShape3D\" parent=\"BoxMeshes/Segment_"@,
        n,
        "\"]"@,
    );
    lemma_framed("shape = SubResource(\"BoxShape3D_"@, n, "\")"@);
    lemma_blank_empty();
    let e: Seq<char> = seq![];
    let g1 = seq![segment_line(n), segment_transform_line(s), e];
    let g2 = seq![mesh_node_line(n), mesh_reference_line(n), e];
    let g3 = seq![shape_node_line(n), shape_reference_line(n), e];
    lemma_all_ok_cat(g1, g2);
    lemma_all_ok_cat(g1 + g2, g3);
}

proof fn lemma_segments_lines_ok(segments: Seq<SegmentTextModel>)
    requires
        segments.len() <= usize::MAX + 1,
        forall|i: int| 0 <= i < segments.len() ==> segment_texts_fit(#[trigger] segments[i]),
    ensures
        all_ok(segments_lines(segments)),
    decreases segments.len(),
{
    if segments.len() > 0 {
        let id = (segments.len() - 1) as nat;
        assert forall|i: int| 0 <= i < segments.drop_last().len() implies segment_texts_fit(
            #[trigger] segments.drop_last()[i],
        ) by {
            assert(segments.drop_last()[i] == segments[i]);
        }
        lemma_segments_lines_ok(segments.drop_last());
        lemma_segment_lines_solid(id, segments.last());
        lemma_all_ok_cat(segments_lines(segments.drop_last()), segment_lines(id, segments.last()));
    }
}

#[verifier::spinoff_prover]
proof fn lemma_back_plane_lines_solid(id: nat, s: SegmentTextModel, offset_z: Seq<char>)
    requires
        id <= usize::MAX,
        segment_texts_fit(s),
        free_of(offset_z, '\n'),
    ensures
        solid(back_plane_line(decimal(id))),
        solid(back_plane_transform_line(s, offset_z)),
        solid(plane_reference_line(decimal(id))),
        all_ok(back_plane_lines(id, s, offset_z)),
{
    reveal_strlit("[node name=\"BackPlane_");
    reveal_strlit("\" type=\"MeshInstance3D\" parent=\"BackPlanes\"]");
    reveal_strlit("transform = Transform3D(1, 0, 0, 0, 0, -1, 0, 1, 0, ");
    reveal_strlit(", ");
    reveal_strlit(")");
    reveal_strlit("mesh = SubResource(\"PlaneMesh_");
    reveal_strlit("\")");
    lemma_decimal_plain(id as usize);
    let n = decimal(id);
    lemma_framed("[node name=\"BackPlane_"@, n, "\" type=\"MeshInstance3D\" parent=\"BackPlanes\"]"@);
    lemma_free_cat(s.offset_x, ", "@, '\n');
    lemma_free_cat(s.offset_x + ", "@, s.offset_y, '\n');
    lemma_free_cat(s.offset_x + ", "@ + s.offset_y, ", "@, '\n');
    lemma_free_cat(s.offset_x + ", "@ + s.offset_y + ", "@, offset_z, '\n');
    lemma_framed(
        "transform = Transform3D(1, 0, 0, 0, 0, -1, 0, 1, 0, "@,
        s.offset_x + ", "@ + s.offset_y + ", "@ + offset_z,
        ")"@,
    );
    assert("transform = Transform3D(1, 0, 0, 0, 0, -1, 0, 1, 0, "@ + (s.offset_x + ", "@ + s.offset_y
        + ", "@ + offset_z) + ")"@ =~= back_plane_transform_line(s, offset_z));
    lemma_framed("mesh = SubResource(\"PlaneMesh_"@, n, "\")"@);
    lemma_blank_empty();
}

proof fn lemma_back_planes_lines_ok(segments: Seq<SegmentTextModel>, offset_z: Seq<char>)
    requires
        segments.len() <= usize::MAX + 1,
        forall|i: int| 0 <= i < segments.len() ==> segment_texts_fit(#[trigger] segments[i]),
        free_of(offset_z, '\n'),
    ensures
        all_ok(back_planes_lines(segments, offset_z)),
    decreases segments.len(),
{
    if segments.len() > 0 {
        let id = (segments.len() - 1) as nat;
        assert forall|i: int| 0 <= i < segments.drop_last().len() implies segment_texts_fit(
            #[trigger] segments.drop_last()[i],
        ) by {
            assert(segments.drop_last()[i] == segments[i]);
        }
        lemma_back_planes_lines_ok(segments.drop_last(), offset_z);
        lemma_back_plane_lines_solid(id, segments.last(), offset_z);
        lemma_all_ok_cat(
            back_planes_lines(segments.drop_last(), offset_z),
            back_plane_lines(id, segments.last(), offset_z),
        );
    }
}

/// The texts that an exported scene can hold and read back unchanged.
pub open spec fn scene_texts_fit(
    root_name: Seq<char>,
    unit_size: Seq<char>,
    z_size: Seq<char>,
    backplane_offset_z: Seq<char>,
    segments: Seq<SegmentTextModel>,
) -> bool {
    &&& name_text(root_name)
    &&& no_ws(unit_size)
    &&& no_ws(z_size)
    &&& free_of(z_size, ',')
    &&& free_of(backplane_offset_z, '\n')
    &&& segments.len() <= usize::MAX + 1
    &&& forall|i: int| 0 <= i < segments.len() ==> segment_texts_fit(#[trigger] segments[i])
}

/// `str::lines` splits an exported scene into its lines.
#[verifier::spinoff_prover]
pub proof fn lemma_scene_lines(
    root_name: Seq<char>,
    grid_w: usize,
    grid_h: usize,
    unit_size: Seq<char>,
    z_size: Seq<char>,
    backplane_offset_z: Seq<char>,
    include_backplanes: bool,
    segments: Seq<SegmentTextModel>,
)
    requires
        scene_texts_fit(root_name, unit_size, z_size, backplane_offset_z, segments),
    ensures
        lines(
            scene_text(
                root_name,
                grid_w,
                grid_h,
                unit_size,
                z_size,
                backplane_offset_z,
                include_backplanes,
                segments,
            ),
        ) == scene_lines(
            root_name,
            grid_w,
            grid_h,
            unit_size,
            z_size,
            backplane_offset_z,
            include_backplanes,
            segments,
        ),
        all_ok(
            scene_lines(
                root_name,
                grid_w,
                grid_h,
                unit_size,
                z_size,
                backplane_offset_z,
                include_backplanes,
                segments,
            ),
        ),
{
    let h = header_lines(grid_w, grid_h, unit_size, z_size, include_backplanes);
    let r = resources_lines(segments, z_size, include_backplanes);
    let o = root_lines(root_name);
    let g = segments_lines(segments);
    let b = back_planes_part(segments, backplane_offset_z, include_backplanes);
    lemma_header_lines_solid(grid_w, grid_h, unit_size, z_size, include_backplanes);
    lemma_resources_lines_ok(segments, z_size, include_backplanes);
    lemma_root_lines_solid(root_name);
    lemma_segments_lines_ok(segments);
    lemma_back_planes_lines_ok(segments, backplane_offset_z);
    lemma_blank_empty();
    lemma_all_ok_cat(seq![back_planes_line(), seq![]], back_planes_lines(segments, backplane_offset_z));
    assert(all_ok(b));
    lemma_all_ok_cat(h, r);
    lemma_all_ok_cat(h + r, o);
    lemma_all_ok_cat(h + r + o, g);
    lemma_all_ok_cat(h + r + o + g, b);
    lemma_scene_text(
        root_name,
        grid_w,
        grid_h,
        unit_size,
        z_size,
        backplane_offset_z,
        include_backplanes,
        segments,
    );
    lemma_lines_joined(h + r + o + g + b);
}

proof fn lemma_at_solid(ls: Seq<Seq<char>>, i: int)
    requires
        0 <= i < ls.len(),
        solid(ls[i]),
    ensures
        skip_blank(ls, i) == i,
        peek_at(ls, i) == Some(ls[i]),
        after_next(ls, i) == i + 1,
{
    lemma_solid(ls[i]);
}

proof fn lemma_at_blank(ls: Seq<Seq<char>>, i: int)
    requires
        0 <= i < ls.len(),
        ls[i] == Seq::<char>::empty(),
    ensures
        skip_blank(ls, i) == skip_blank(ls, i + 1),
        peek_at(ls, i) == peek_at(ls, i + 1),
        after_next(ls, i) == after_next(ls, i + 1),
{
    lemma_blank_empty();
}

proof fn lemma_at_end(ls: Seq<Seq<char>>, i: int)
    requires
        i == ls.len(),
    ensures
        skip_blank(ls, i) == i,
        peek_at(ls, i) == None::<Seq<char>>,
        after_next(ls, i) == i,
{
}

proof fn lemma_prefix_cat(a: Seq<char>, b: Seq<char>)
    ensures
        has_prefix(a + b, a),
{
    assert((a + b).subrange(0, a.len() as int) =~= a);
}

/// A resource header line gives back its id.
#[verifier::spinoff_prover]
proof fn lemma_resource_id_of(prefix: Seq<char>, id: usize)
    requires
        solid(prefix + decimal(id as nat) + "\"]"@),
    ensures
        resource_id(prefix + decimal(id as nat) + "\"]"@, prefix) == Ok::<usize, crate::scene_lines::Failure>(id),
{
    reveal_strlit("\"]");
    let n = decimal(id as nat);
    let line = prefix + n + "\"]"@;
    lemma_decimal_plain(id);
    lemma_solid(line);
    lemma_prefix_cat(prefix, n + "\"]"@);
    assert(prefix + (n + "\"]"@) =~= line);
    assert(line.last() == ']');
    assert(line[line.len() - 2] == '"');
    assert(line.subrange(prefix.len() as int, line.len() - 2) =~= n);
}

/// The pieces of `a, b` for `a + ", " + b`.
proof fn lemma_comma_space(a: Seq<char>, b: Seq<char>)
    ensures
        a + ", "@ + b == a + seq![','] + (seq![' '] + b),
{
    reveal_strlit(", ");
    assert(a + ", "@ + b =~= a + seq![','] + (seq![' '] + b));
}

proof fn lemma_sep_push(ps: Seq<Seq<char>>, p: Seq<char>, c: char)
    requires
        ps.len() >= 1,
    ensures
        sep_joined(ps.push(p), c) == sep_joined(ps, c) + seq![c] + p,
    decreases ps.len(),
{
    if ps.len() == 1 {
        assert(ps.push(p).drop_first() =~= seq![p]);
        assert(ps.push(p)[0] == ps[0]);
        assert(sep_joined(seq![p], c) == p);
        assert(sep_joined(ps.push(p), c) == ps[0] + seq![c] + p);
        assert(sep_joined(ps.push(p), c) =~= sep_joined(ps, c) + seq![c] + p);
    } else {
        lemma_sep_push(ps.drop_first(), p, c);
        assert(ps.push(p).drop_first() =~= ps.drop_first().push(p));
        assert(ps.push(p)[0] == ps[0]);
        assert(sep_joined(ps.push(p), c) == ps[0] + seq![c] + sep_joined(ps.drop_first().push(p), c));
        assert(sep_joined(ps, c) == ps[0] + seq![c] + sep_joined(ps.drop_first(), c));
        assert(sep_joined(ps.push(p), c) =~= sep_joined(ps, c) + seq![c] + p);
    }
}

/// The parts of a `Vector3` size line.
#[verifier::spinoff_prover]
proof fn lemma_size3_parts(s: SegmentTextModel, z_size: Seq<char>)
    requires
        segment_texts_fit(s),
        no_ws(z_size),
        free_of(z_size, ','),
        solid(size3_line(s, z_size)),
    ensures
        vector_parts(size3_line(s, z_size), "size = Vector3("@, 3, "three Vector3"@) == Ok::<
            Seq<Seq<char>>,
            crate::scene_lines::Failure,
        >(seq![s.width, s.height, z_size]),
{
    reveal_strlit("size = Vector3(");
    reveal_strlit(")");
    reveal_strlit(", ");
    let line = size3_line(s, z_size);
    let p = "size = Vector3("@;
    let w = s.width;
    let h = s.height;
    lemma_solid(line);
    lemma_no_ws_free(z_size);
    let inner = w + ", "@ + h + ", "@ + z_size;
    assert(line =~= p + inner + ")"@);
    lemma_prefix_cat(p, inner + ")"@);
    assert(p + (inner + ")"@) =~= line);
    assert(line.subrange(p.len() as int, line.len() - 1) =~= inner);
    let sh = seq![' '] + h;
    let sz = seq![' '] + z_size;
    lemma_comma_space(w, h);
    lemma_comma_space(w + ", "@ + h, z_size);
    assert(sep_joined(seq![w], ',') == w);
    lemma_sep_push(seq![w], sh, ',');
    assert(seq![w].push(sh) =~= seq![w, sh]);
    lemma_sep_push(seq![w, sh], sz, ',');
    assert(seq![w, sh].push(sz) =~= seq![w, sh, sz]);
    assert(inner =~= sep_joined(seq![w, sh, sz], ','));
    assert(free_of(sh, ',') && free_of(sz, ',')) by {
        assert forall|i: int| 0 <= i < sh.len() implies sh[i] != ',' by {
            if i > 0 {
                assert(sh[i] == h[i - 1]);
            }
        }
        assert forall|i: int| 0 <= i < sz.len() implies sz[i] != ',' by {
            if i > 0 {
                assert(sz[i] == z_size[i - 1]);
            }
        }
    }
    lemma_split_joined(seq![w, sh, sz], ',');
    lemma_trimmed_plain(w);
    lemma_trimmed_space(h);
    lemma_trimmed_space(z_size);
    assert(trimmed_pieces(inner, ',') =~= seq![w, h, z_size]);
}

proof fn lemma_free_space(t: Seq<char>, c: char)
    requires
        free_of(t, c),
        c != ' ',
    ensures
        free_of(seq![' '] + t, c),
{
    assert forall|i: int| 0 <= i < (seq![' '] + t).len() implies (seq![' '] + t)[i] != c by {
        if i > 0 {
            assert((seq![' '] + t)[i] == t[i - 1]);
        }
    }
}

/// The parts of a `Vector2` size line.
#[verifier::spinoff_prover]
proof fn lemma_size2_parts(s: SegmentTextModel)
    requires
        segment_texts_fit(s),
        solid(size2_line(s)),
    ensures
        vector_parts(size2_line(s), "size = Vector2("@, 2, "two Vector2"@) == Ok::<
            Seq<Seq<char>>,
            crate::scene_lines::Failure,
        >(seq![s.width, s.height]),
{
    reveal_strlit("size = Vector2(");
    reveal_strlit(")");
    reveal_strlit(", ");
    let line = size2_line(s);
    let p = "size = Vector2("@;
    let w = s.width;
    let h = s.height;
    lemma_solid(line);
    let inner = w + ", "@ + h;
    assert(line =~= p + inner + ")"@);
    lemma_prefix_cat(p, inner + ")"@);
    assert(p + (inner + ")"@) =~= line);
    assert(line.subrange(p.len() as int, line.len() - 1) =~= inner);
    let sh = seq![' '] + h;
    lemma_comma_space(w, h);
    assert(sep_joined(seq![w], ',') == w);
    lemma_sep_push(seq![w], sh, ',');
    assert(seq![w].push(sh) =~= seq![w, sh]);
    assert(inner =~= sep_joined(seq![w, sh], ','));
    lemma_free_space(h, ',');
    lemma_split_joined(seq![w, sh], ',');
    lemma_trimmed_plain(w);
    lemma_trimmed_space(h);
    assert(trimmed_pieces(inner, ',') =~= seq![w, h]);
}

/// The float tests of the metadata line: its unit size and thickness.
pub open spec fn metadata_checks(unit_size: Seq<char>, z_size: Seq<char>) -> Seq<CheckModel> {
    seq![CheckModel::Parse(unit_size, "unit_size"@), CheckModel::Parse(z_size, "z_size"@)]
}

/// The three size texts of a segment's box.
pub open spec fn size3_parts(s: SegmentTextModel, z_size: Seq<char>) -> Seq<Seq<char>> {
    seq![s.width, s.height, z_size]
}

/// The float tests of a `BoxMesh` and `BoxShape3D` pair: each component of
/// both sizes, then that the two sizes agree.
pub open spec fn pair_checks(s: SegmentTextModel, z_size: Seq<char>) -> Seq<CheckModel> {
    parse_checks(size3_parts(s, z_size), "vector component"@) + parse_checks(
        size3_parts(s, z_size),
        "vector component"@,
    ) + seq![CheckModel::SameSize(size3_parts(s, z_size), size3_parts(s, z_size))]
}

/// The float tests of a `PlaneMesh` resource: each component of its size.
pub open spec fn plane_checks(s: SegmentTextModel) -> Seq<CheckModel> {
    parse_checks(seq![s.width, s.height], "vector component"@)
}

/// The float tests of the resources of one segment.
pub open spec fn resource_checks(s: SegmentTextModel, z_size: Seq<char>, include_backplanes: bool) -> Seq<
    CheckModel,
> {
    pair_checks(s, z_size) + if include_backplanes {
        plane_checks(s)
    } else {
        Seq::<CheckModel>::empty()
    }
}

/// The float tests of the resources of all `segments`, in order.
pub open spec fn resources_checks(segments: Seq<SegmentTextModel>, z_size: Seq<char>, include_backplanes: bool) -> Seq<
    CheckModel,
>
    decreases segments.len(),
{
    if segments.len() == 0 {
        seq![]
    } else {
        resources_checks(segments.drop_last(), z_size, include_backplanes) + resource_checks(
            segments.last(),
            z_size,
            include_backplanes,
        )
    }
}

/// The texts of an identity basis as a segment's transform writes them.
pub open spec fn basis_texts() -> Seq<Seq<char>> {
    seq![
        seq!['1'],
        seq!['0'],
        seq!['0'],
        seq!['0'],
        seq!['1'],
        seq!['0'],
        seq!['0'],
        seq!['0'],
        seq!['1'],
    ]
}

/// The float tests of a segment's transform: each basis component, that the
/// basis is the identity, the three offsets, and that the Z offset is flat.
pub open spec fn segment_checks(s: SegmentTextModel) -> Seq<CheckModel> {
    parse_checks(basis_texts(), "transform component"@) + seq![
        CheckModel::IdentityBasis(basis_texts()),
        CheckModel::Parse(s.offset_x, "transform offset_x"@),
        CheckModel::Parse(s.offset_y, "transform offset_y"@),
        CheckModel::Parse(seq!['0'], "transform offset_z"@),
        CheckModel::FlatZ(seq!['0']),
    ]
}

/// The float tests of all `segments`' transforms, in order.
pub open spec fn segments_checks(segments: Seq<SegmentTextModel>) -> Seq<CheckModel>
    decreases segments.len(),
{
    if segments.len() == 0 {
        seq![]
    } else {
        segments_checks(segments.drop_last()) + segment_checks(segments.last())
    }
}

/// A `BoxMesh` and a `BoxShape3D` resource read back as the segment's size
/// and the thickness.
#[verifier::spinoff_prover]
proof fn lemma_read_resource_pair(
    ls: Seq<Seq<char>>,
    i: int,
    id: usize,
    s: SegmentTextModel,
    z_size: Seq<char>,
)
    requires
        0 <= i,
        i + 5 <= ls.len(),
        ls[i] == mesh_resource_line(id as nat),
        ls[i + 1] == size3_line(s, z_size),
        ls[i + 2] == Seq::<char>::empty(),
        ls[i + 3] == shape_resource_line(id as nat),
        ls[i + 4] == size3_line(s, z_size),
        segment_texts_fit(s),
        no_ws(z_size),
        free_of(z_size, ','),
    ensures
        resource_pair_step(ls, i, id).result == Ok::<ResourceModel, crate::scene_lines::Failure>(
            ResourceModel { width: s.width, height: s.height, depth: z_size },
        ),
        resource_pair_step(ls, i, id).pos == i + 5,
        resource_pair_step(ls, i, id).checks == pair_checks(s, z_size),
{
    reveal(resource_pair_step);
    lemma_resource_lines_solid(id as nat, s, z_size, false);
    lemma_at_solid(ls, i);
    lemma_at_solid(ls, i + 1);
    lemma_at_blank(ls, i + 2);
    lemma_at_solid(ls, i + 3);
    lemma_at_solid(ls, i + 4);
    lemma_resource_id_of("[sub_resource type=\"BoxMesh\" id=\"BoxMesh_"@, id);
    lemma_resource_id_of("[sub_resource type=\"BoxShape3D\" id=\"BoxShape3D_"@, id);
    lemma_size3_parts(s, z_size);
    let c1 = parse_checks(size3_parts(s, z_size), "vector component"@);
    assert(c1 + c1 + seq![CheckModel::SameSize(size3_parts(s, z_size), size3_parts(s, z_size))]
        =~= pair_checks(s, z_size));
}

/// A `PlaneMesh` resource is read and passed over.
#[verifier::spinoff_prover]
proof fn lemma_read_plane(ls: Seq<Seq<char>>, i: int, id: usize, s: SegmentTextModel)
    requires
        0 <= i,
        i + 2 <= ls.len(),
        ls[i] == plane_resource_line(id as nat),
        ls[i + 1] == size2_line(s),
        segment_texts_fit(s),
    ensures
        plane_step(ls, i).result is Ok,
        plane_step(ls, i).pos == i + 2,
        plane_step(ls, i).checks == plane_checks(s),
{
    reveal(plane_step);
    lemma_resource_lines_solid(id as nat, s, seq![], false);
    lemma_at_solid(ls, i);
    lemma_at_solid(ls, i + 1);
    lemma_prefix_cat("[sub_resource type=\"PlaneMesh\" id=\"PlaneMesh_"@ + decimal(id as nat), "\"]"@);
    lemma_prefix_cat("[sub_resource type=\"PlaneMesh\" id=\"PlaneMesh_"@, decimal(id as nat) + "\"]"@);
    assert("[sub_resource type=\"PlaneMesh\" id=\"PlaneMesh_"@ + (decimal(id as nat) + "\"]"@)
        =~= plane_resource_line(id as nat));
    lemma_size2_parts(s);
}

proof fn lemma_not_prefix(s: Seq<char>, p: Seq<char>, k: int)
    requires
        0 <= k < p.len(),
        k < s.len(),
        s[k] != p[k],
    ensures
        !has_prefix(s, p),
{
    if has_prefix(s, p) {
        assert(s.subrange(0, p.len() as int)[k] == s[k]);
    }
}

proof fn lemma_infix_at(s: Seq<char>, p: Seq<char>, i: int)
    requires
        0 <= i,
        i + p.len() <= s.len(),
        s.subrange(i, i + p.len()) == p,
    ensures
        has_infix(s, p),
{
    assert(occurs_at(s, p, i));
}

proof fn lemma_find_at(s: Seq<char>, c: char, i: int, j: int)
    requires
        0 <= i <= j < s.len(),
        s[j] == c,
        forall|k: int| i <= k < j ==> s[k] != c,
    ensures
        find_from(s, c, i) == j,
    decreases j - i,
{
    if i < j {
        lemma_find_at(s, c, i + 1, j);
    }
}

/// The root node's line gives back its name.
#[verifier::spinoff_prover]
proof fn lemma_root_node(root_name: Seq<char>)
    requires
        name_text(root_name),
    ensures
        node_line(root_line(root_name), "Node3D"@, None) == Ok::<Seq<char>, Failure>(root_name),
        has_prefix(root_line(root_name), node_open()),
        has_infix(root_line(root_name), " type=\"Node3D\"]"@),
        !has_prefix(root_line(root_name), "[sub_resource type=\"BoxMesh\" id=\"BoxMesh_"@),
        !has_prefix(root_line(root_name), "[sub_resource type=\"PlaneMesh\" id=\"PlaneMesh_"@),
{
    reveal_strlit("[node name=\"");
    reveal_strlit("\" type=\"Node3D\"]");
    reveal_strlit(" type=\"Node3D\"]");
    reveal_strlit(" type=\"");
    reveal_strlit("Node3D");
    reveal_strlit("\"");
    reveal_strlit("[sub_resource type=\"BoxMesh\" id=\"BoxMesh_");
    reveal_strlit("[sub_resource type=\"PlaneMesh\" id=\"PlaneMesh_");
    let line = root_line(root_name);
    let o = node_open();
    let tail = "\" type=\"Node3D\"]"@;
    lemma_root_lines_solid(root_name);
    lemma_solid(line);
    lemma_prefix_cat(o, root_name + tail);
    assert(o + (root_name + tail) =~= line);
    let at = o.len() + root_name.len() as int;
    assert(line.subrange(at + 1, at + 1 + 15) =~= " type=\"Node3D\"]"@);
    lemma_infix_at(line, " type=\"Node3D\"]"@, at + 1);
    let frag = " type=\""@ + "Node3D"@ + "\""@;
    assert(line.subrange(at + 1, at + 1 + frag.len()) =~= frag);
    lemma_infix_at(line, frag, at + 1);
    assert forall|k: int| o.len() <= k < at implies line[k] != '"' by {
        assert(line[k] == root_name[k - o.len()]);
    }
    lemma_find_at(line, '"', o.len() as int, at);
    assert(line.subrange(o.len() as int, at) =~= root_name);
    lemma_not_prefix(line, "[sub_resource type=\"BoxMesh\" id=\"BoxMesh_"@, 1);
    lemma_not_prefix(line, "[sub_resource type=\"PlaneMesh\" id=\"PlaneMesh_"@, 1);
}

/// The models of the resources of `segments`.
pub open spec fn resource_models(segments: Seq<SegmentTextModel>, z_size: Seq<char>) -> Seq<ResourceModel> {
    segments.map_values(
        |s: SegmentTextModel| ResourceModel { width: s.width, height: s.height, depth: z_size },
    )
}

/// The lines of the resources of the first `k` segments lead those of all.
proof fn lemma_resources_prefix(segments: Seq<SegmentTextModel>, z_size: Seq<char>, include_backplanes: bool, k: int)
    requires
        0 <= k <= segments.len(),
    ensures
        resources_lines(segments.take(k), z_size, include_backplanes).len() <= resources_lines(
            segments,
            z_size,
            include_backplanes,
        ).len(),
        resources_lines(segments, z_size, include_backplanes).subrange(
            0,
            resources_lines(segments.take(k), z_size, include_backplanes).len() as int,
        ) == resources_lines(segments.take(k), z_size, include_backplanes),
    decreases segments.len(),
{
    if k == segments.len() {
        assert(segments.take(k) =~= segments);
        assert(resources_lines(segments, z_size, include_backplanes).subrange(
            0,
            resources_lines(segments, z_size, include_backplanes).len() as int,
        ) =~= resources_lines(segments, z_size, include_backplanes));
    } else {
        let d = segments.drop_last();
        lemma_resources_prefix(d, z_size, include_backplanes, k);
        assert(d.take(k) =~= segments.take(k));
        let a = resources_lines(d, z_size, include_backplanes);
        let b = resource_lines(
            (segments.len() - 1) as nat,
            segments.last(),
            z_size,
            include_backplanes,
        );
        let m = resources_lines(segments.take(k), z_size, include_backplanes).len() as int;
        assert((a + b).subrange(0, m) =~= a.subrange(0, m));
    }
}

/// The lines of resource block `k`, where it stands among all, when the
/// resource lines start at `base`.
proof fn lemma_resource_block_at(
    ls: Seq<Seq<char>>,
    base: int,
    segments: Seq<SegmentTextModel>,
    z_size: Seq<char>,
    include_backplanes: bool,
    k: int,
)
    requires
        0 <= k < segments.len(),
        0 <= base,
        base + resources_lines(segments, z_size, include_backplanes).len() <= ls.len(),
        ls.subrange(base, base + resources_lines(segments, z_size, include_backplanes).len() as int)
            == resources_lines(segments, z_size, include_backplanes),
    ensures
        ({
            let start = base + resources_lines(segments.take(k), z_size, include_backplanes).len();
            let next = base + resources_lines(segments.take(k + 1), z_size, include_backplanes).len();
            let s = segments[k];
            &&& next == start + if include_backplanes {
                9int
            } else {
                6int
            }
            &&& next <= base + resources_lines(segments, z_size, include_backplanes).len()
            &&& ls[start] == mesh_resource_line(k as nat)
            &&& ls[start + 1] == size3_line(s, z_size)
            &&& ls[start + 2] == Seq::<char>::empty()
            &&& ls[start + 3] == shape_resource_line(k as nat)
            &&& ls[start + 4] == size3_line(s, z_size)
            &&& ls[start + 5] == Seq::<char>::empty()
            &&& include_backplanes ==> {
                &&& ls[start + 6] == plane_resource_line(k as nat)
                &&& ls[start + 7] == size2_line(s)
                &&& ls[start + 8] == Seq::<char>::empty()
            }
        }),
{
    let all = resources_lines(segments, z_size, include_backplanes);
    let before = resources_lines(segments.take(k), z_size, include_backplanes);
    let upto = resources_lines(segments.take(k + 1), z_size, include_backplanes);
    let block = resource_lines(k as nat, segments[k], z_size, include_backplanes);
    assert(segments.take(k + 1).drop_last() =~= segments.take(k));
    assert(segments.take(k + 1).last() == segments[k]);
    assert(upto == before + block);
    lemma_resources_prefix(segments, z_size, include_backplanes, k + 1);
    let start = base + before.len();
    assert forall|j: int| 0 <= j < block.len() implies ls[start + j] == #[trigger] block[j] by {
        assert(ls.subrange(base, base + all.len() as int)[before.len() + j] == all[before.len() + j]);
        assert(all.subrange(0, upto.len() as int)[before.len() + j] == upto[before.len() + j]);
    }
    assert(block[0] == mesh_resource_line(k as nat));
    assert(block[1] == size3_line(segments[k], z_size));
    assert(block[2] == Seq::<char>::empty());
    assert(block[3] == shape_resource_line(k as nat));
    assert(block[4] == size3_line(segments[k], z_size));
    assert(block[5] == Seq::<char>::empty());
    if include_backplanes {
        assert(block[6] == plane_resource_line(k as nat));
        assert(block[7] == size2_line(segments[k]));
        assert(block[8] == Seq::<char>::empty());
    }
}

/// One step of reading the resources, at a `BoxMesh` header.
proof fn lemma_header_at_box(ls: Seq<Seq<char>>, i: int, checks: Seq<CheckModel>, res: Seq<ResourceModel>)
    requires
        0 <= i <= ls.len(),
        peek_at(ls, i) matches Some(line) && has_prefix(
            line,
            "[sub_resource type=\"BoxMesh\" id=\"BoxMesh_"@,
        ),
        resource_pair_step(ls, i, res.len() as usize).result is Ok,
    ensures
        ({
            let st = resource_pair_step(ls, i, res.len() as usize);
            header_step(ls, i, checks, res) == header_step(
                ls,
                st.pos,
                checks + st.checks,
                res.push(st.result->Ok_0),
            )
        }),
{
}

/// One step of reading the resources, at a `PlaneMesh` header.
proof fn lemma_header_at_plane(ls: Seq<Seq<char>>, i: int, checks: Seq<CheckModel>, res: Seq<ResourceModel>)
    requires
        0 <= i <= ls.len(),
        peek_at(ls, i) matches Some(line) && !has_prefix(
            line,
            "[sub_resource type=\"BoxMesh\" id=\"BoxMesh_"@,
        ) && has_prefix(line, "[sub_resource type=\"PlaneMesh\" id=\"PlaneMesh_"@),
        plane_step(ls, i).result is Ok,
    ensures
        header_step(ls, i, checks, res) == header_step(
            ls,
            plane_step(ls, i).pos,
            checks + plane_step(ls, i).checks,
            res,
        ),
{
}

/// The last step of reading the resources, at the root node.
proof fn lemma_header_at_root(ls: Seq<Seq<char>>, i: int, checks: Seq<CheckModel>, res: Seq<ResourceModel>)
    requires
        0 <= i <= ls.len(),
        peek_at(ls, i) matches Some(line) && !has_prefix(
            line,
            "[sub_resource type=\"BoxMesh\" id=\"BoxMesh_"@,
        ) && !has_prefix(line, "[sub_resource type=\"PlaneMesh\" id=\"PlaneMesh_"@) && has_prefix(
            line,
            node_open(),
        ) && has_infix(line, " type=\"Node3D\"]"@),
        root_step(ls, i).result is Ok,
    ensures
        header_step(ls, i, checks, res).result == Ok::<(Seq<ResourceModel>, Seq<char>), Failure>(
            (res, root_step(ls, i).result->Ok_0),
        ),
        header_step(ls, i, checks, res).pos == root_step(ls, i).pos,
{
}

/// The line before resource block `k` (or before the root node) is blank.
proof fn lemma_blank_before_block(
    ls: Seq<Seq<char>>,
    base: int,
    segments: Seq<SegmentTextModel>,
    z_size: Seq<char>,
    include_backplanes: bool,
    k: int,
)
    requires
        0 <= k <= segments.len(),
        1 <= base,
        base + resources_lines(segments, z_size, include_backplanes).len() <= ls.len(),
        ls.subrange(base, base + resources_lines(segments, z_size, include_backplanes).len() as int)
            == resources_lines(segments, z_size, include_backplanes),
        ls[base - 1] == Seq::<char>::empty(),
    ensures
        ls[base + resources_lines(segments.take(k), z_size, include_backplanes).len() - 1]
            == Seq::<char>::empty(),
{
    if k == 0 {
        assert(segments.take(0) =~= Seq::<SegmentTextModel>::empty());
    } else {
        lemma_resource_block_at(ls, base, segments, z_size, include_backplanes, k - 1);
        assert(segments.take(k - 1 + 1) =~= segments.take(k));
    }
}

/// Reading one resource block `k` (at its blank line before) moves to the
/// next block with its resource model and its checks added.
#[verifier::spinoff_prover]
proof fn lemma_header_block(
    ls: Seq<Seq<char>>,
    base: int,
    segments: Seq<SegmentTextModel>,
    z_size: Seq<char>,
    include_backplanes: bool,
    k: int,
    checks: Seq<CheckModel>,
)
    requires
        0 <= k < segments.len(),
        1 <= base,
        segments.len() <= usize::MAX + 1,
        segment_texts_fit(segments[k]),
        no_ws(z_size),
        free_of(z_size, ','),
        base + 2 + resources_lines(segments, z_size, include_backplanes).len() <= ls.len(),
        ls.subrange(base, base + resources_lines(segments, z_size, include_backplanes).len() as int)
            == resources_lines(segments, z_size, include_backplanes),
        ls[base + resources_lines(segments.take(k), z_size, include_backplanes).len() - 1]
            == Seq::<char>::empty(),
    ensures
        ({
            let start = base + resources_lines(segments.take(k), z_size, include_backplanes).len();
            let next = base + resources_lines(segments.take(k + 1), z_size, include_backplanes).len();
            let res = resource_models(segments.take(k), z_size);
            &&& ls[next - 1] == Seq::<char>::empty()
            &&& header_step(ls, start - 1, checks, res) == header_step(
                ls,
                next - 1,
                checks + resource_checks(segments[k], z_size, include_backplanes),
                resource_models(segments.take(k + 1), z_size),
            )
        }),
{
    let start = base + resources_lines(segments.take(k), z_size, include_backplanes).len();
    let res = resource_models(segments.take(k), z_size);
    lemma_resources_prefix(segments, z_size, include_backplanes, k);
    lemma_resource_block_at(ls, base, segments, z_size, include_backplanes, k);
    let s = segments[k];
    lemma_at_blank(ls, start - 1);
    lemma_resource_lines_solid(k as nat, s, z_size, include_backplanes);
    lemma_at_solid(ls, start);
    crate::scene_parser::lemma_steps_skip_blank(ls, start - 1, k as usize, res, seq![]);
    lemma_read_resource_pair(ls, start, k as usize, s, z_size);
    lemma_prefix_cat("[sub_resource type=\"BoxMesh\" id=\"BoxMesh_"@, decimal(k as nat) + "\"]"@);
    assert("[sub_resource type=\"BoxMesh\" id=\"BoxMesh_"@ + (decimal(k as nat) + "\"]"@)
        =~= mesh_resource_line(k as nat));
    assert(res.len() == k);
    let r = ResourceModel { width: s.width, height: s.height, depth: z_size };
    lemma_header_at_box(ls, start - 1, checks, res);
    assert(resource_models(segments.take(k + 1), z_size) =~= res.push(r));
    let c1 = checks + pair_checks(s, z_size);
    if include_backplanes {
        let p = start + 5;
        lemma_at_blank(ls, p);
        lemma_at_solid(ls, p + 1);
        reveal_strlit("[sub_resource type=\"PlaneMesh\" id=\"PlaneMesh_");
        reveal_strlit("[sub_resource type=\"BoxMesh\" id=\"BoxMesh_");
        assert(ls[p + 1][20] == 'P');
        lemma_not_prefix(ls[p + 1], "[sub_resource type=\"BoxMesh\" id=\"BoxMesh_"@, 20);
        lemma_prefix_cat(
            "[sub_resource type=\"PlaneMesh\" id=\"PlaneMesh_"@,
            decimal(k as nat) + "\"]"@,
        );
        assert("[sub_resource type=\"PlaneMesh\" id=\"PlaneMesh_"@ + (decimal(k as nat) + "\"]"@)
            =~= plane_resource_line(k as nat));
        crate::scene_parser::lemma_steps_skip_blank(ls, p, 0, res, seq![]);
        lemma_read_plane(ls, p + 1, k as usize, s);
        lemma_header_at_plane(ls, p, c1, res.push(r));
        assert(c1 + plane_checks(s) =~= checks + resource_checks(s, z_size, include_backplanes));
    } else {
        assert(c1 =~= checks + resource_checks(s, z_size, include_backplanes));
    }
}

/// Reading the resources from block `k` on gives all of them, the root
/// name, and the checks of all resources.
#[verifier::spinoff_prover]
proof fn lemma_read_header(
    ls: Seq<Seq<char>>,
    base: int,
    segments: Seq<SegmentTextModel>,
    z_size: Seq<char>,
    include_backplanes: bool,
    root_name: Seq<char>,
    k: int,
    checks: Seq<CheckModel>,
)
    requires
        0 <= k <= segments.len(),
        1 <= base,
        segments.len() <= usize::MAX + 1,
        forall|i: int| 0 <= i < segments.len() ==> segment_texts_fit(#[trigger] segments[i]),
        no_ws(z_size),
        free_of(z_size, ','),
        name_text(root_name),
        base + 2 + resources_lines(segments, z_size, include_backplanes).len() <= ls.len(),
        ls.subrange(base, base + resources_lines(segments, z_size, include_backplanes).len() as int)
            == resources_lines(segments, z_size, include_backplanes),
        ls[base - 1] == Seq::<char>::empty(),
        ls[base + resources_lines(segments, z_size, include_backplanes).len() as int] == root_line(root_name),
    ensures
        ({
            let start = base + resources_lines(segments.take(k), z_size, include_backplanes).len();
            let st = header_step(
                ls,
                start - 1,
                checks + resources_checks(segments.take(k), z_size, include_backplanes),
                resource_models(segments.take(k), z_size),
            );
            &&& st.result == Ok::<(Seq<ResourceModel>, Seq<char>), Failure>(
                (resource_models(segments, z_size), root_name),
            )
            &&& st.pos == base + 1 + resources_lines(segments, z_size, include_backplanes).len()
            &&& st.checks == checks + resources_checks(segments, z_size, include_backplanes)
        }),
    decreases segments.len() - k,
{
    let start = base + resources_lines(segments.take(k), z_size, include_backplanes).len();
    let res = resource_models(segments.take(k), z_size);
    let acc = checks + resources_checks(segments.take(k), z_size, include_backplanes);
    lemma_blank_before_block(ls, base, segments, z_size, include_backplanes, k);
    if k == segments.len() {
        assert(segments.take(k) =~= segments);
        lemma_at_blank(ls, start - 1);
        lemma_root_lines_solid(root_name);
        lemma_at_solid(ls, start);
        lemma_root_node(root_name);
        crate::scene_parser::lemma_steps_skip_blank(ls, start - 1, 0, res, seq![]);
        reveal(root_step);
        lemma_header_at_root(ls, start - 1, acc, res);
    } else {
        lemma_header_block(ls, base, segments, z_size, include_backplanes, k, acc);
        assert(segments.take(k + 1).drop_last() =~= segments.take(k));
        assert(segments.take(k + 1).last() == segments[k]);
        assert(acc + resource_checks(segments[k], z_size, include_backplanes) =~= checks
            + resources_checks(segments.take(k + 1), z_size, include_backplanes));
        lemma_read_header(
            ls,
            base,
            segments,
            z_size,
            include_backplanes,
            root_name,
            k + 1,
            checks,
        );
    }
}

/// A node header line `[node name="{name}" type="{ty}" parent="{parent}"]`.
pub open spec fn node_header(name: Seq<char>, ty: Seq<char>, parent: Seq<char>) -> Seq<char> {
    node_open() + name + "\" type=\""@ + ty + "\" parent=\""@ + parent + "\"]"@
}

/// A node header line gives back the node's name.
#[verifier::spinoff_prover]
proof fn lemma_node_header(name: Seq<char>, ty: Seq<char>, parent: Seq<char>)
    requires
        free_of(name, '"'),
    ensures
        node_line(node_header(name, ty, parent), ty, Some(parent)) == Ok::<Seq<char>, Failure>(name),
        has_prefix(node_header(name, ty, parent), node_open()),
        has_infix(node_header(name, ty, parent), " type=\""@ + ty + "\""@),
{
    reveal_strlit("[node name=\"");
    reveal_strlit("\" type=\"");
    reveal_strlit("\" parent=\"");
    reveal_strlit("\"]");
    reveal_strlit(" type=\"");
    reveal_strlit(" parent=\"");
    reveal_strlit("\"");
    let o = node_open();
    let line = node_header(name, ty, parent);
    assert(line[0] == '[');
    assert(line.last() == ']');
    lemma_trimmed_plain(line);
    lemma_prefix_cat(o, name + "\" type=\""@ + ty + "\" parent=\""@ + parent + "\"]"@);
    assert(o + (name + "\" type=\""@ + ty + "\" parent=\""@ + parent + "\"]"@) =~= line);
    let a = o.len() + name.len() as int;
    let tf = " type=\""@ + ty + "\""@;
    assert(line.subrange(a + 1, a + 1 + tf.len()) =~= tf);
    lemma_infix_at(line, tf, a + 1);
    let pf = " parent=\""@ + parent + "\""@;
    let b = a + 8 + ty.len() as int;
    assert(line.subrange(b + 1, b + 1 + pf.len()) =~= pf);
    lemma_infix_at(line, pf, b + 1);
    assert forall|k: int| o.len() <= k < a implies line[k] != '"' by {
        assert(line[k] == name[k - o.len()]);
    }
    assert(line[a] == '"');
    lemma_find_at(line, '"', o.len() as int, a);
    assert(line.subrange(o.len() as int, a) =~= name);
}

/// `p` cannot occur in a text that lacks one of its characters.
proof fn lemma_no_infix(s: Seq<char>, p: Seq<char>, j: int)
    requires
        0 <= j < p.len(),
        free_of(s, p[j]),
    ensures
        !has_infix(s, p),
{
    if has_infix(s, p) {
        let i = choose|i: int| occurs_at(s, p, i);
        assert(s.subrange(i, i + p.len())[j] == s[i + j]);
    }
}

/// The name of segment `n`'s node.
pub open spec fn segment_name(n: Seq<char>) -> Seq<char> {
    "Segment_"@ + n
}

/// The node path of segment `n`.
pub open spec fn segment_node_path(n: Seq<char>) -> Seq<char> {
    "BoxMeshes"@ + "/"@ + segment_name(n)
}

#[verifier::spinoff_prover]
proof fn lemma_segment_headers(id: usize)
    ensures
        segment_line(decimal(id as nat)) == node_header(
            segment_name(decimal(id as nat)),
            "StaticBody3D"@,
            "BoxMeshes"@,
        ),
        mesh_node_line(decimal(id as nat)) == node_header(
            "MeshInstance3D"@,
            "MeshInstance3D"@,
            segment_node_path(decimal(id as nat)),
        ),
        shape_node_line(decimal(id as nat)) == node_header(
            "CollisionShape3D"@,
            "CollisionShape3D"@,
            segment_node_path(decimal(id as nat)),
        ),
        free_of(segment_name(decimal(id as nat)), '"'),
        free_of("MeshInstance3D"@, '"'),
        free_of("CollisionShape3D"@, '"'),
        free_of(shape_node_line(decimal(id as nat)), 'I'),
        suffix_id(segment_name(decimal(id as nat)), "Segment_"@) == Ok::<usize, Failure>(id),
        crate::scene_parser::segment_path("BoxMeshes"@, segment_name(decimal(id as nat)))
            == segment_node_path(decimal(id as nat)),
{
    let n = decimal(id as nat);
    reveal_strlit("[node name=\"");
    reveal_strlit("\" type=\"");
    reveal_strlit("\" parent=\"");
    reveal_strlit("\"]");
    reveal_strlit("Segment_");
    reveal_strlit("StaticBody3D");
    reveal_strlit("BoxMeshes");
    reveal_strlit("/");
    reveal_strlit(".");
    reveal_strlit("MeshInstance3D");
    reveal_strlit("CollisionShape3D");
    reveal_strlit("[node name=\"Segment_");
    reveal_strlit("\" type=\"StaticBody3D\" parent=\"BoxMeshes\"]");
    reveal_strlit("[node name=\"MeshInstance3D\" type=\"MeshInstance3D\" parent=\"BoxMeshes/Segment_");
    reveal_strlit(
        "[node name=\"CollisionShape3D\" type=\"CollisionShape3D\" parent=\"BoxMeshes/Segment_",
    );
    assert(segment_line(n) =~= node_header(segment_name(n), "StaticBody3D"@, "BoxMeshes"@));
    assert(mesh_node_line(n) =~= node_header(
        "MeshInstance3D"@,
        "MeshInstance3D"@,
        segment_node_path(n),
    ));
    assert(shape_node_line(n) =~= node_header(
        "CollisionShape3D"@,
        "CollisionShape3D"@,
        segment_node_path(n),
    ));
    lemma_decimal_plain(id);
    lemma_parse_decimal(id);
    lemma_free_cat("Segment_"@, n, '"');
    assert forall|k: int| 0 <= k < n.len() implies n[k] != 'I' by {
        assert(is_digit(n[k]));
    }
    lemma_free_cat(
        "[node name=\"CollisionShape3D\" type=\"CollisionShape3D\" parent=\"BoxMeshes/Segment_"@,
        n,
        'I',
    );
    lemma_free_cat(
        "[node name=\"CollisionShape3D\" type=\"CollisionShape3D\" parent=\"BoxMeshes/Segment_"@
            + n,
        "\"]"@,
        'I',
    );
    let sn = segment_name(n);
    lemma_prefix_cat("Segment_"@, n);
    assert(sn.subrange(8, sn.len() as int) =~= n);
    assert("BoxMeshes"@ != "."@) by {
        assert("BoxMeshes"@.len() != "."@.len());
    }
}

/// The basis part of a segment's transform: `1, 0, 0, 0, 1, 0, 0, 0, 1`.
pub open spec fn basis_pieces() -> Seq<Seq<char>> {
    seq![
        seq!['1'],
        seq![' ', '0'],
        seq![' ', '0'],
        seq![' ', '0'],
        seq![' ', '1'],
        seq![' ', '0'],
        seq![' ', '0'],
        seq![' ', '0'],
        seq![' ', '1'],
    ]
}

/// The basis pieces joined by commas.
#[verifier::spinoff_prover]
proof fn lemma_basis_text()
    ensures
        "transform = Transform3D(1, 0, 0, 0, 1, 0, 0, 0, 1, "@ == "transform = Transform3D("@
            + sep_joined(basis_pieces(), ',') + seq![','] + seq![' '],
{
    reveal_strlit("transform = Transform3D(1, 0, 0, 0, 1, 0, 0, 0, 1, ");
    reveal_strlit("transform = Transform3D(");
    let bp = basis_pieces();
    assert(sep_joined(bp.take(1), ',') == bp[0]) by {
        assert(bp.take(1) =~= seq![bp[0]]);
    }
    assert(bp.take(9) =~= bp);
    lemma_sep_push(bp.take(1), bp[1], ',');
    assert(bp.take(1).push(bp[1]) =~= bp.take(2));
    lemma_sep_push(bp.take(2), bp[2], ',');
    assert(bp.take(2).push(bp[2]) =~= bp.take(3));
    lemma_sep_push(bp.take(3), bp[3], ',');
    assert(bp.take(3).push(bp[3]) =~= bp.take(4));
    lemma_sep_push(bp.take(4), bp[4], ',');
    assert(bp.take(4).push(bp[4]) =~= bp.take(5));
    lemma_sep_push(bp.take(5), bp[5], ',');
    assert(bp.take(5).push(bp[5]) =~= bp.take(6));
    lemma_sep_push(bp.take(6), bp[6], ',');
    assert(bp.take(6).push(bp[6]) =~= bp.take(7));
    lemma_sep_push(bp.take(7), bp[7], ',');
    assert(bp.take(7).push(bp[7]) =~= bp.take(8));
    lemma_sep_push(bp.take(8), bp[8], ',');
    assert(bp.take(8).push(bp[8]) =~= bp.take(9));
    assert("transform = Transform3D(1, 0, 0, 0, 1, 0, 0, 0, 1, "@ =~= "transform = Transform3D("@
        + sep_joined(bp, ',') + seq![','] + seq![' ']);
}

/// The pieces of a segment's transform.
pub open spec fn transform_pieces(s: SegmentTextModel) -> Seq<Seq<char>> {
    basis_pieces().push(seq![' '] + s.offset_x).push(seq![' '] + s.offset_y).push(seq![' ', '0'])
}

#[verifier::spinoff_prover]
proof fn lemma_transform_inner(s: SegmentTextModel)
    ensures
        segment_transform_line(s) == "transform = Transform3D("@ + sep_joined(transform_pieces(s), ',')
            + ")"@,
{
    reveal_strlit(", ");
    reveal_strlit(", 0)");
    reveal_strlit(")");
    let bp = basis_pieces();
    let sx = seq![' '] + s.offset_x;
    let sy = seq![' '] + s.offset_y;
    let s0 = seq![' ', '0'];
    lemma_basis_text();
    lemma_sep_push(bp, sx, ',');
    lemma_sep_push(bp.push(sx), sy, ',');
    lemma_sep_push(bp.push(sx).push(sy), s0, ',');
    let b = sep_joined(bp, ',');
    assert(", "@ =~= seq![','] + seq![' ']);
    assert(", 0)"@ =~= seq![','] + s0 + ")"@);
    assert(segment_transform_line(s) =~= "transform = Transform3D("@ + b + seq![','] + sx + seq![',']
        + sy + seq![','] + s0 + ")"@);
    assert(sep_joined(transform_pieces(s), ',') =~= b + seq![','] + sx + seq![','] + sy + seq![',']
        + s0);
}

/// The trimmed pieces of a segment's transform end with its two offsets
/// and a zero.
#[verifier::spinoff_prover]
proof fn lemma_transform_parts(s: SegmentTextModel)
    requires
        segment_texts_fit(s),
    ensures
        trimmed_pieces(sep_joined(transform_pieces(s), ','), ',').len() == 12,
        trimmed_pieces(sep_joined(transform_pieces(s), ','), ',').subrange(9, 12) == seq![
            s.offset_x,
            s.offset_y,
            seq!['0'],
        ],
        trimmed_pieces(sep_joined(transform_pieces(s), ','), ',').subrange(0, 9) == basis_texts(),
{
    let ps = transform_pieces(s);
    let x = s.offset_x;
    let y = s.offset_y;
    lemma_free_space(x, ',');
    lemma_free_space(y, ',');
    assert forall|i: int| 0 <= i < ps.len() implies free_of(#[trigger] ps[i], ',') by {
        if i < 9 {
            assert(ps[i] == basis_pieces()[i]);
        }
    }
    lemma_split_joined(ps, ',');
    lemma_trimmed_space(seq!['0']);
    lemma_trimmed_space(x);
    lemma_trimmed_space(y);
    assert(seq![' '] + seq!['0'] =~= seq![' ', '0']);
    let parts = trimmed_pieces(sep_joined(ps, ','), ',');
    assert(parts[9] == x);
    assert(parts[10] == y);
    assert(parts[11] == seq!['0']);
    assert(parts.subrange(9, 12) =~= seq![x, y, seq!['0']]);
    lemma_trimmed_plain(seq!['1']);
    lemma_trimmed_space(seq!['1']);
    assert(seq![' '] + seq!['1'] =~= seq![' ', '1']);
    assert(parts.subrange(0, 9) =~= basis_texts());
}

/// The transform line of a segment gives back its two offsets and a zero.
#[verifier::spinoff_prover]
proof fn lemma_segment_transform(s: SegmentTextModel)
    requires
        segment_texts_fit(s),
    ensures
        transform_line(segment_transform_line(s)).1 == Ok::<Seq<Seq<char>>, Failure>(
            seq![s.offset_x, s.offset_y, seq!['0']],
        ),
        transform_line(segment_transform_line(s)).0.push(CheckModel::FlatZ(seq!['0']))
            == segment_checks(s),
{
    reveal_strlit("transform = Transform3D(");
    reveal_strlit(")");
    let line = segment_transform_line(s);
    let p = "transform = Transform3D("@;
    lemma_segment_lines_solid(0, s);
    lemma_solid(line);
    let inner = sep_joined(transform_pieces(s), ',');
    lemma_transform_inner(s);
    lemma_prefix_cat(p, inner + ")"@);
    assert(p + (inner + ")"@) =~= line);
    assert(line.subrange(p.len() as int, line.len() - 1) =~= inner);
    lemma_transform_parts(s);
    let parts = trimmed_pieces(inner, ',');
    assert(parts[9] == s.offset_x);
    assert(parts[10] == s.offset_y);
    assert(parts[11] == seq!['0']);
    assert(transform_line(line).0.push(CheckModel::FlatZ(seq!['0'])) =~= segment_checks(s));
}

/// A resource reference line gives back its id.
#[verifier::spinoff_prover]
proof fn lemma_reference_of(prefix: Seq<char>, id: usize)
    requires
        solid(prefix + decimal(id as nat) + "\")"@),
    ensures
        resource_reference(prefix + decimal(id as nat) + "\")"@, prefix) == Ok::<usize, Failure>(id),
        has_prefix(prefix + decimal(id as nat) + "\")"@, prefix),
{
    reveal_strlit("\")");
    let n = decimal(id as nat);
    let line = prefix + n + "\")"@;
    lemma_decimal_plain(id);
    lemma_solid(line);
    lemma_prefix_cat(prefix, n + "\")"@);
    assert(prefix + (n + "\")"@) =~= line);
    assert(line.last() == ')');
    assert(line[line.len() - 2] == '"');
    assert(line.subrange(prefix.len() as int, line.len() - 2) =~= n);
}

/// The children of a segment: its `MeshInstance3D` and `CollisionShape3D`
/// nodes, both referring to resource `id`.
#[verifier::spinoff_prover]
proof fn lemma_read_children(ls: Seq<Seq<char>>, i: int, id: usize)
    requires
        0 <= i,
        i + 7 <= ls.len(),
        ls[i] == Seq::<char>::empty(),
        ls[i + 1] == mesh_node_line(decimal(id as nat)),
        ls[i + 2] == mesh_reference_line(decimal(id as nat)),
        ls[i + 3] == Seq::<char>::empty(),
        ls[i + 4] == shape_node_line(decimal(id as nat)),
        ls[i + 5] == shape_reference_line(decimal(id as nat)),
        ls[i + 6] == Seq::<char>::empty(),
        i + 7 == ls.len() || (solid(ls[i + 7]) && has_prefix(ls[i + 7], node_open())),
    ensures
        segment_children(
            ls,
            i,
            segment_node_path(decimal(id as nat)),
            ChildMode::Nodes,
            None,
            None,
        ) == Ok::<(int, usize, usize), (int, Failure)>((i + 7, id, id)),
{
    reveal(segment_children);
    reveal_strlit("[node name=\"");
    reveal_strlit("mesh = SubResource(\"BoxMesh_");
    reveal_strlit("shape = SubResource(\"BoxShape3D_");
    reveal_strlit(" type=\"");
    reveal_strlit("MeshInstance3D");
    reveal_strlit("CollisionShape3D");
    reveal_strlit("\"");
    let n = decimal(id as nat);
    let path = segment_node_path(n);
    lemma_segment_lines_solid(id as nat, SegmentTextModel { width: seq![], height: seq![], offset_x: seq![], offset_y: seq![] });
    lemma_segment_headers(id);
    lemma_node_header("MeshInstance3D"@, "MeshInstance3D"@, path);
    lemma_node_header("CollisionShape3D"@, "CollisionShape3D"@, path);
    lemma_at_blank(ls, i);
    lemma_at_solid(ls, i + 1);
    lemma_at_solid(ls, i + 2);
    lemma_at_blank(ls, i + 3);
    lemma_at_solid(ls, i + 4);
    lemma_at_solid(ls, i + 5);
    lemma_at_blank(ls, i + 6);
    if i + 7 < ls.len() {
        lemma_at_solid(ls, i + 7);
    } else {
        lemma_at_end(ls, i + 7);
    }
    lemma_reference_of("mesh = SubResource(\"BoxMesh_"@, id);
    lemma_reference_of("shape = SubResource(\"BoxShape3D_"@, id);
    lemma_not_prefix(ls[i + 2], node_open(), 0);
    lemma_not_prefix(ls[i + 5], node_open(), 0);
    let mt = " type=\""@ + "MeshInstance3D"@ + "\""@;
    assert(mt =~= " type=\"MeshInstance3D\""@) by {
        reveal_strlit(" type=\"MeshInstance3D\"");
    }
    assert(" type=\"MeshInstance3D\""@[11] == 'I') by {
        reveal_strlit(" type=\"MeshInstance3D\"");
    }
    lemma_no_infix(ls[i + 4], " type=\"MeshInstance3D\""@, 11);
    let ct = " type=\""@ + "CollisionShape3D"@ + "\""@;
    assert(ct =~= " type=\"CollisionShape3D\""@) by {
        reveal_strlit(" type=\"CollisionShape3D\"");
    }
    let none: Option<usize> = None;
    assert(segment_children(ls, i, path, ChildMode::Nodes, none, none) == segment_children(
        ls,
        i + 2,
        path,
        ChildMode::MeshProperties,
        none,
        none,
    ));
    assert(segment_children(ls, i + 2, path, ChildMode::MeshProperties, none, none)
        == segment_children(ls, i + 3, path, ChildMode::MeshProperties, Some(id), none));
    assert(segment_children(ls, i + 3, path, ChildMode::MeshProperties, Some(id), none)
        == segment_children(ls, i + 4, path, ChildMode::Nodes, Some(id), none));
    assert(segment_children(ls, i + 4, path, ChildMode::Nodes, Some(id), none) == segment_children(
        ls,
        i + 5,
        path,
        ChildMode::ShapeProperties,
        Some(id),
        none,
    ));
    assert(segment_children(ls, i + 5, path, ChildMode::ShapeProperties, Some(id), none)
        == segment_children(ls, i + 6, path, ChildMode::ShapeProperties, Some(id), Some(id)));
    assert(segment_children(ls, i + 6, path, ChildMode::ShapeProperties, Some(id), Some(id))
        == segment_children(ls, i + 7, path, ChildMode::Nodes, Some(id), Some(id)));
}

/// A segment's nodes read back as its offsets and the size of its resource.
#[verifier::spinoff_prover]
proof fn lemma_read_segment(ls: Seq<Seq<char>>, i: int, id: usize, s: SegmentTextModel, res: Seq<ResourceModel>)
    requires
        0 <= i,
        i + 9 <= ls.len(),
        ls[i] == segment_line(decimal(id as nat)),
        ls[i + 1] == segment_transform_line(s),
        ls[i + 2] == Seq::<char>::empty(),
        ls[i + 3] == mesh_node_line(decimal(id as nat)),
        ls[i + 4] == mesh_reference_line(decimal(id as nat)),
        ls[i + 5] == Seq::<char>::empty(),
        ls[i + 6] == shape_node_line(decimal(id as nat)),
        ls[i + 7] == shape_reference_line(decimal(id as nat)),
        ls[i + 8] == Seq::<char>::empty(),
        i + 9 == ls.len() || (solid(ls[i + 9]) && has_prefix(ls[i + 9], node_open())),
        segment_texts_fit(s),
        id < res.len(),
    ensures
        segment_step(ls, i, res, "BoxMeshes"@).result == Ok::<RawSegmentModel, Failure>(
            RawSegmentModel {
                width: res[id as int].width,
                height: res[id as int].height,
                offset_x: s.offset_x,
                offset_y: s.offset_y,
            },
        ),
        segment_step(ls, i, res, "BoxMeshes"@).pos == i + 9,
        segment_step(ls, i, res, "BoxMeshes"@).checks == segment_checks(s),
{
    reveal(segment_step);
    let n = decimal(id as nat);
    lemma_segment_lines_solid(id as nat, s);
    lemma_segment_headers(id);
    lemma_node_header(segment_name(n), "StaticBody3D"@, "BoxMeshes"@);
    lemma_at_solid(ls, i);
    lemma_at_solid(ls, i + 1);
    lemma_segment_transform(s);
    lemma_read_children(ls, i + 2, id);
}

/// The models of the segments read back from `segments`.
pub open spec fn raw_models(segments: Seq<SegmentTextModel>) -> Seq<RawSegmentModel> {
    segments.map_values(
        |s: SegmentTextModel| RawSegmentModel {
            width: s.width,
            height: s.height,
            offset_x: s.offset_x,
            offset_y: s.offset_y,
        },
    )
}

proof fn lemma_segments_prefix(segments: Seq<SegmentTextModel>, k: int)
    requires
        0 <= k <= segments.len(),
    ensures
        segments_lines(segments.take(k)).len() <= segments_lines(segments).len(),
        segments_lines(segments).subrange(0, segments_lines(segments.take(k)).len() as int)
            == segments_lines(segments.take(k)),
    decreases segments.len(),
{
    if k == segments.len() {
        assert(segments.take(k) =~= segments);
        assert(segments_lines(segments).subrange(0, segments_lines(segments).len() as int)
            =~= segments_lines(segments));
    } else {
        let d = segments.drop_last();
        lemma_segments_prefix(d, k);
        assert(d.take(k) =~= segments.take(k));
        let a = segments_lines(d);
        let b = segment_lines((segments.len() - 1) as nat, segments.last());
        let m = segments_lines(segments.take(k)).len() as int;
        assert((a + b).subrange(0, m) =~= a.subrange(0, m));
    }
}

/// The lines of segment block `k`, where it stands among all, when the
/// segment lines start at `base`.
proof fn lemma_segment_block_at(ls: Seq<Seq<char>>, base: int, segments: Seq<SegmentTextModel>, k: int)
    requires
        0 <= k < segments.len(),
        0 <= base,
        base + segments_lines(segments).len() <= ls.len(),
        ls.subrange(base, base + segments_lines(segments).len() as int) == segments_lines(segments),
    ensures
        ({
            let start = base + segments_lines(segments.take(k)).len();
            let next = base + segments_lines(segments.take(k + 1)).len();
            let n = decimal(k as nat);
            &&& next == start + 9
            &&& next <= base + segments_lines(segments).len()
            &&& ls[start] == segment_line(n)
            &&& ls[start + 1] == segment_transform_line(segments[k])
            &&& ls[start + 2] == Seq::<char>::empty()
            &&& ls[start + 3] == mesh_node_line(n)
            &&& ls[start + 4] == mesh_reference_line(n)
            &&& ls[start + 5] == Seq::<char>::empty()
            &&& ls[start + 6] == shape_node_line(n)
            &&& ls[start + 7] == shape_reference_line(n)
            &&& ls[start + 8] == Seq::<char>::empty()
        }),
{
    let all = segments_lines(segments);
    let before = segments_lines(segments.take(k));
    let upto = segments_lines(segments.take(k + 1));
    let block = segment_lines(k as nat, segments[k]);
    assert(segments.take(k + 1).drop_last() =~= segments.take(k));
    assert(segments.take(k + 1).last() == segments[k]);
    assert(upto == before + block);
    lemma_segments_prefix(segments, k + 1);
    let start = base + before.len();
    assert forall|j: int| 0 <= j < block.len() implies ls[start + j] == #[trigger] block[j] by {
        assert(ls.subrange(base, base + all.len() as int)[before.len() + j] == all[before.len() + j]);
        assert(all.subrange(0, upto.len() as int)[before.len() + j] == upto[before.len() + j]);
    }
    let n = decimal(k as nat);
    assert(block[0] == segment_line(n));
    assert(block[1] == segment_transform_line(segments[k]));
    assert(block[2] == Seq::<char>::empty());
    assert(block[3] == mesh_node_line(n));
    assert(block[4] == mesh_reference_line(n));
    assert(block[5] == Seq::<char>::empty());
    assert(block[6] == shape_node_line(n));
    assert(block[7] == shape_reference_line(n));
    assert(block[8] == Seq::<char>::empty());
}

/// A blank line before the next segment changes nothing.
proof fn lemma_body_blank(
    ls: Seq<Seq<char>>,
    i: int,
    mode: BodyMode,
    checks: Seq<CheckModel>,
    res: Seq<ResourceModel>,
    segs: Seq<RawSegmentModel>,
    has_backplanes: bool,
)
    requires
        0 <= i < ls.len(),
        ls[i] == Seq::<char>::empty(),
        mode != BodyMode::Nodes,
    ensures
        body_step(ls, i, mode, checks, res, segs, has_backplanes) == body_step(
            ls,
            i + 1,
            mode,
            checks,
            res,
            segs,
            has_backplanes,
        ),
{
    lemma_at_blank(ls, i);
    crate::scene_parser::lemma_skip_blank_bounds(ls, i + 1);
    crate::scene_parser::lemma_skip_blank_idem(ls, i + 1);
    crate::scene_parser::lemma_steps_skip_blank(ls, i, 0, res, "BoxMeshes"@);
    crate::scene_parser::lemma_steps_skip_blank(ls, i + 1, 0, res, "BoxMeshes"@);
    crate::scene_parser::lemma_steps_skip_blank(ls, i, 0, res, "."@);
    crate::scene_parser::lemma_steps_skip_blank(ls, i + 1, 0, res, "."@);
}

/// One segment under `BoxMeshes`.
proof fn lemma_body_at_segment(
    ls: Seq<Seq<char>>,
    i: int,
    checks: Seq<CheckModel>,
    res: Seq<ResourceModel>,
    segs: Seq<RawSegmentModel>,
)
    requires
        0 <= i <= ls.len(),
        peek_at(ls, i) matches Some(line) && is_segment_header(line, " parent=\"BoxMeshes\"]"@),
        segment_step(ls, i, res, "BoxMeshes"@).result is Ok,
    ensures
        ({
            let st = segment_step(ls, i, res, "BoxMeshes"@);
            body_step(ls, i, BodyMode::BoxMeshes, checks, res, segs, false) == body_step(
                ls,
                st.pos,
                BodyMode::BoxMeshes,
                checks + st.checks,
                res,
                segs.push(st.result->Ok_0),
                false,
            )
        }),
{
}

/// A segment header line is seen as one.
#[verifier::spinoff_prover]
proof fn lemma_segment_header_seen(id: usize)
    ensures
        is_segment_header(segment_line(decimal(id as nat)), " parent=\"BoxMeshes\"]"@),
        has_prefix(segment_line(decimal(id as nat)), node_open()),
{
    reveal_strlit("[node name=\"Segment_");
    reveal_strlit("\" type=\"StaticBody3D\" parent=\"BoxMeshes\"]");
    reveal_strlit(" type=\"StaticBody3D\"");
    reveal_strlit(" parent=\"BoxMeshes\"]");
    reveal_strlit("[node name=\"");
    let n = decimal(id as nat);
    let line = segment_line(n);
    lemma_prefix_cat("[node name=\"Segment_"@, n + "\" type=\"StaticBody3D\" parent=\"BoxMeshes\"]"@);
    assert("[node name=\"Segment_"@ + (n + "\" type=\"StaticBody3D\" parent=\"BoxMeshes\"]"@) =~= line);
    assert(line.subrange(0, 12) =~= node_open());
    let a = 20 + n.len() as int;
    assert(line.subrange(a + 1, a + 1 + 20) =~= " type=\"StaticBody3D\""@);
    lemma_infix_at(line, " type=\"StaticBody3D\""@, a + 1);
    assert(line.subrange(a + 21, a + 21 + 20) =~= " parent=\"BoxMeshes\"]"@);
    lemma_infix_at(line, " parent=\"BoxMeshes\"]"@, a + 21);
}

proof fn lemma_back_planes_prefix(segments: Seq<SegmentTextModel>, offset_z: Seq<char>, k: int)
    requires
        0 <= k <= segments.len(),
    ensures
        back_planes_lines(segments.take(k), offset_z).len() <= back_planes_lines(segments, offset_z).len(),
        back_planes_lines(segments, offset_z).subrange(
            0,
            back_planes_lines(segments.take(k), offset_z).len() as int,
        ) == back_planes_lines(segments.take(k), offset_z),
    decreases segments.len(),
{
    if k == segments.len() {
        assert(segments.take(k) =~= segments);
        assert(back_planes_lines(segments, offset_z).subrange(
            0,
            back_planes_lines(segments, offset_z).len() as int,
        ) =~= back_planes_lines(segments, offset_z));
    } else {
        let d = segments.drop_last();
        lemma_back_planes_prefix(d, offset_z, k);
        assert(d.take(k) =~= segments.take(k));
        let a = back_planes_lines(d, offset_z);
        let b = back_plane_lines((segments.len() - 1) as nat, segments.last(), offset_z);
        let m = back_planes_lines(segments.take(k), offset_z).len() as int;
        assert((a + b).subrange(0, m) =~= a.subrange(0, m));
    }
}

proof fn lemma_back_plane_block_at(
    ls: Seq<Seq<char>>,
    base: int,
    segments: Seq<SegmentTextModel>,
    offset_z: Seq<char>,
    k: int,
)
    requires
        0 <= k < segments.len(),
        0 <= base,
        base + back_planes_lines(segments, offset_z).len() <= ls.len(),
        ls.subrange(base, base + back_planes_lines(segments, offset_z).len() as int)
            == back_planes_lines(segments, offset_z),
    ensures
        ({
            let start = base + back_planes_lines(segments.take(k), offset_z).len();
            let next = base + back_planes_lines(segments.take(k + 1), offset_z).len();
            let n = decimal(k as nat);
            &&& next == start + 4
            &&& next <= base + back_planes_lines(segments, offset_z).len()
            &&& ls[start] == back_plane_line(n)
            &&& ls[start + 1] == back_plane_transform_line(segments[k], offset_z)
            &&& ls[start + 2] == plane_reference_line(n)
            &&& ls[start + 3] == Seq::<char>::empty()
        }),
{
    let all = back_planes_lines(segments, offset_z);
    let before = back_planes_lines(segments.take(k), offset_z);
    let upto = back_planes_lines(segments.take(k + 1), offset_z);
    let block = back_plane_lines(k as nat, segments[k], offset_z);
    assert(segments.take(k + 1).drop_last() =~= segments.take(k));
    assert(segments.take(k + 1).last() == segments[k]);
    assert(upto == before + block);
    lemma_back_planes_prefix(segments, offset_z, k + 1);
    let start = base + before.len();
    assert forall|j: int| 0 <= j < block.len() implies ls[start + j] == #[trigger] block[j] by {
        assert(ls.subrange(base, base + all.len() as int)[before.len() + j] == all[before.len() + j]);
        assert(all.subrange(0, upto.len() as int)[before.len() + j] == upto[before.len() + j]);
    }
}

/// A back plane node line is seen as one.
#[verifier::spinoff_prover]
proof fn lemma_back_plane_seen(id: usize)
    ensures
        is_back_plane_node(back_plane_line(decimal(id as nat))),
{
    reveal_strlit("[node name=\"BackPlane_");
    reveal_strlit("\" type=\"MeshInstance3D\" parent=\"BackPlanes\"]");
    reveal_strlit(" parent=\"BackPlanes\"]");
    reveal_strlit("[node name=\"");
    let n = decimal(id as nat);
    let line = back_plane_line(n);
    assert(line.subrange(0, 12) =~= node_open());
    let a = 22 + n.len() as int;
    assert(line.subrange(a + 23, a + 23 + 21) =~= " parent=\"BackPlanes\"]"@);
    lemma_infix_at(line, " parent=\"BackPlanes\"]"@, a + 23);
}

/// Passing over a back plane's lines.
#[verifier::spinoff_prover]
proof fn lemma_skip_back_plane(ls: Seq<Seq<char>>, q: int, id: usize, s: SegmentTextModel, offset_z: Seq<char>)
    requires
        0 <= q,
        q + 4 <= ls.len(),
        ls[q + 1] == back_plane_transform_line(s, offset_z),
        ls[q + 2] == plane_reference_line(decimal(id as nat)),
        ls[q + 3] == Seq::<char>::empty(),
        q + 4 == ls.len() || (solid(ls[q + 4]) && has_prefix(ls[q + 4], node_open())),
        segment_texts_fit(s),
        free_of(offset_z, '\n'),
    ensures
        skip_to_node(ls, q + 1) == q + 4,
{
    lemma_back_plane_lines_solid(id as nat, s, offset_z);
    lemma_at_solid(ls, q + 1);
    lemma_at_solid(ls, q + 2);
    lemma_at_blank(ls, q + 3);
    if q + 4 < ls.len() {
        lemma_at_solid(ls, q + 4);
    } else {
        lemma_at_end(ls, q + 4);
    }
    reveal_strlit("[node name=\"");
    reveal_strlit("transform = Transform3D(1, 0, 0, 0, 0, -1, 0, 1, 0, ");
    reveal_strlit("mesh = SubResource(\"PlaneMesh_");
    lemma_not_prefix(ls[q + 1], node_open(), 0);
    lemma_not_prefix(ls[q + 2], node_open(), 0);
    assert(skip_to_node(ls, q + 3) == q + 4);
    assert(skip_to_node(ls, q + 2) == skip_to_node(ls, q + 3));
    assert(skip_to_node(ls, q + 1) == skip_to_node(ls, q + 2));
}

proof fn lemma_body_at_back_plane(
    ls: Seq<Seq<char>>,
    q: int,
    checks: Seq<CheckModel>,
    res: Seq<ResourceModel>,
    segs: Seq<RawSegmentModel>,
)
    requires
        0 <= q < ls.len(),
        solid(ls[q]),
        is_back_plane_node(ls[q]),
    ensures
        body_step(ls, q, BodyMode::BackPlanes, checks, res, segs, true) == body_step(
            ls,
            skip_to_node(ls, q + 1),
            BodyMode::BackPlanes,
            checks,
            res,
            segs,
            true,
        ),
{
    lemma_at_solid(ls, q);
}

proof fn lemma_body_at_end(
    ls: Seq<Seq<char>>,
    mode: BodyMode,
    checks: Seq<CheckModel>,
    res: Seq<ResourceModel>,
    segs: Seq<RawSegmentModel>,
    has_backplanes: bool,
)
    ensures
        body_step(ls, ls.len() as int, mode, checks, res, segs, has_backplanes).result == Ok::<
            (Seq<RawSegmentModel>, bool),
            Failure,
        >((segs, has_backplanes)),
        body_step(ls, ls.len() as int, mode, checks, res, segs, has_backplanes).pos == ls.len(),
        body_step(ls, ls.len() as int, mode, checks, res, segs, has_backplanes).checks == checks,
{
    lemma_at_end(ls, ls.len() as int);
    assert(body_step(ls, ls.len() as int, BodyMode::Nodes, checks, res, segs, has_backplanes).pos
        == ls.len());
}

/// Reading the back planes from plane `k` on.
#[verifier::spinoff_prover]
proof fn lemma_read_back_planes(
    ls: Seq<Seq<char>>,
    base: int,
    segments: Seq<SegmentTextModel>,
    offset_z: Seq<char>,
    k: int,
    checks: Seq<CheckModel>,
    res: Seq<ResourceModel>,
    segs: Seq<RawSegmentModel>,
)
    requires
        0 <= k <= segments.len(),
        segments.len() <= usize::MAX + 1,
        forall|i: int| 0 <= i < segments.len() ==> segment_texts_fit(#[trigger] segments[i]),
        free_of(offset_z, '\n'),
        0 <= base,
        base + back_planes_lines(segments, offset_z).len() == ls.len(),
        ls.subrange(base, ls.len() as int) == back_planes_lines(segments, offset_z),
    ensures
        ({
            let q = base + back_planes_lines(segments.take(k), offset_z).len();
            &&& body_step(ls, q, BodyMode::BackPlanes, checks, res, segs, true).result == Ok::<
                (Seq<RawSegmentModel>, bool),
                Failure,
            >((segs, true))
            &&& body_step(ls, q, BodyMode::BackPlanes, checks, res, segs, true).pos == ls.len()
            &&& body_step(ls, q, BodyMode::BackPlanes, checks, res, segs, true).checks == checks
        }),
    decreases segments.len() - k,
{
    let q = base + back_planes_lines(segments.take(k), offset_z).len();
    if k == segments.len() {
        assert(segments.take(k) =~= segments);
        lemma_body_at_end(ls, BodyMode::BackPlanes, checks, res, segs, true);
    } else {
        lemma_back_plane_block_at(ls, base, segments, offset_z, k);
        let s = segments[k];
        lemma_back_plane_lines_solid(k as nat, s, offset_z);
        lemma_back_plane_seen(k as usize);
        if k + 1 < segments.len() {
            lemma_back_plane_block_at(ls, base, segments, offset_z, k + 1);
            lemma_back_plane_lines_solid((k + 1) as nat, segments[k + 1], offset_z);
            reveal_strlit("[node name=\"BackPlane_");
            reveal_strlit("[node name=\"");
            assert(ls[q + 4].subrange(0, 12) =~= node_open());
        } else {
            assert(segments.take(k + 1) =~= segments);
        }
        lemma_skip_back_plane(ls, q, k as usize, s, offset_z);
        lemma_body_at_back_plane(ls, q, checks, res, segs);
        lemma_read_back_planes(ls, base, segments, offset_z, k + 1, checks, res, segs);
    }
}

/// Leaving `BoxMeshes` at a line that is not a segment.
proof fn lemma_body_leave_boxes(
    ls: Seq<Seq<char>>,
    i: int,
    checks: Seq<CheckModel>,
    res: Seq<ResourceModel>,
    segs: Seq<RawSegmentModel>,
)
    requires
        0 <= i <= ls.len(),
        peek_at(ls, i) matches Some(line) && !is_segment_header(line, " parent=\"BoxMeshes\"]"@),
    ensures
        body_step(ls, i, BodyMode::BoxMeshes, checks, res, segs, false) == body_step(
            ls,
            skip_blank(ls, i),
            BodyMode::Nodes,
            checks,
            res,
            segs,
            false,
        ),
{
}

/// Entering `BackPlanes` at its header.
proof fn lemma_body_enter_back_planes(
    ls: Seq<Seq<char>>,
    i: int,
    checks: Seq<CheckModel>,
    res: Seq<ResourceModel>,
    segs: Seq<RawSegmentModel>,
)
    requires
        0 <= i <= ls.len(),
        peek_at(ls, i) matches Some(line) && !is_box_meshes_header(line) && is_back_planes_header(
            line,
        ),
    ensures
        body_step(ls, i, BodyMode::Nodes, checks, res, segs, false) == body_step(
            ls,
            after_next(ls, i),
            BodyMode::BackPlanes,
            checks,
            res,
            segs,
            true,
        ),
{
}

/// Entering `BoxMeshes` at its header.
proof fn lemma_body_enter_boxes(
    ls: Seq<Seq<char>>,
    i: int,
    checks: Seq<CheckModel>,
    res: Seq<ResourceModel>,
    segs: Seq<RawSegmentModel>,
)
    requires
        0 <= i <= ls.len(),
        peek_at(ls, i) matches Some(line) && is_box_meshes_header(line),
    ensures
        body_step(ls, i, BodyMode::Nodes, checks, res, segs, false) == body_step(
            ls,
            after_next(ls, i),
            BodyMode::BoxMeshes,
            checks,
            res,
            segs,
            false,
        ),
{
}

/// The container headers are told apart.
#[verifier::spinoff_prover]
proof fn lemma_container_headers()
    ensures
        is_box_meshes_header(box_meshes_line()),
        !is_box_meshes_header(back_planes_line()),
        is_back_planes_header(back_planes_line()),
        !is_segment_header(back_planes_line(), " parent=\"BoxMeshes\"]"@),
        has_prefix(back_planes_line(), node_open()),
{
    reveal_strlit("[node name=\"BoxMeshes\" type=\"Node3D\" parent=\".\"]");
    reveal_strlit("[node name=\"BackPlanes\" type=\"Node3D\" parent=\".\"]");
    reveal_strlit("[node name=\"BoxMeshes\" type=\"Node3D\"");
    reveal_strlit("[node name=\"BackPlanes\" type=\"Node3D\"");
    reveal_strlit(" parent=\".\"]");
    reveal_strlit("[node name=\"Segment_");
    reveal_strlit("[node name=\"");
    let b = box_meshes_line();
    let p = back_planes_line();
    assert(b.subrange(0, 36) =~= "[node name=\"BoxMeshes\" type=\"Node3D\""@);
    assert(b.subrange(36, 48) =~= " parent=\".\"]"@);
    lemma_infix_at(b, " parent=\".\"]"@, 36);
    lemma_not_prefix(p, "[node name=\"BoxMeshes\" type=\"Node3D\""@, 13);
    assert(p.subrange(0, 37) =~= "[node name=\"BackPlanes\" type=\"Node3D\""@);
    assert(p.subrange(37, 49) =~= " parent=\".\"]"@);
    lemma_infix_at(p, " parent=\".\"]"@, 37);
    lemma_not_prefix(p, "[node name=\"Segment_"@, 12);
    assert(p.subrange(0, 12) =~= node_open());
}

/// What follows the segments: nothing, or the back planes.
pub open spec fn tail_at(
    ls: Seq<Seq<char>>,
    after: int,
    segments: Seq<SegmentTextModel>,
    offset_z: Seq<char>,
    include_backplanes: bool,
) -> bool {
    &&& 0 <= after <= ls.len()
    &&& !include_backplanes ==> after == ls.len()
    &&& include_backplanes ==> {
        &&& after + 2 + back_planes_lines(segments, offset_z).len() == ls.len()
        &&& ls[after] == back_planes_line()
        &&& ls[after + 1] == Seq::<char>::empty()
        &&& ls.subrange(after + 2, ls.len() as int) == back_planes_lines(segments, offset_z)
    }
}

/// After the last segment, the reader ends, or reads the back planes and
/// ends.
#[verifier::spinoff_prover]
proof fn lemma_read_tail(
    ls: Seq<Seq<char>>,
    after: int,
    segments: Seq<SegmentTextModel>,
    offset_z: Seq<char>,
    include_backplanes: bool,
    checks: Seq<CheckModel>,
    res: Seq<ResourceModel>,
    segs: Seq<RawSegmentModel>,
)
    requires
        segments.len() <= usize::MAX + 1,
        forall|i: int| 0 <= i < segments.len() ==> segment_texts_fit(#[trigger] segments[i]),
        free_of(offset_z, '\n'),
        tail_at(ls, after, segments, offset_z, include_backplanes),
    ensures
        body_step(ls, after, BodyMode::BoxMeshes, checks, res, segs, false).result == Ok::<
            (Seq<RawSegmentModel>, bool),
            Failure,
        >((segs, include_backplanes)),
        body_step(ls, after, BodyMode::BoxMeshes, checks, res, segs, false).pos == ls.len(),
        body_step(ls, after, BodyMode::BoxMeshes, checks, res, segs, false).checks == checks,
{
    if include_backplanes {
        lemma_root_lines_solid(seq![]);
        lemma_container_headers();
        lemma_at_solid(ls, after);
        lemma_body_leave_boxes(ls, after, checks, res, segs);
        lemma_body_enter_back_planes(ls, after, checks, res, segs);
        lemma_body_blank(ls, after + 1, BodyMode::BackPlanes, checks, res, segs, true);
        assert(segments.take(0) =~= Seq::<SegmentTextModel>::empty());
        lemma_read_back_planes(ls, after + 2, segments, offset_z, 0, checks, res, segs);
    } else {
        lemma_body_at_end(ls, BodyMode::BoxMeshes, checks, res, segs, false);
    }
}

/// Reading the segments from segment `k` on.
#[verifier::spinoff_prover]
proof fn lemma_read_segments(
    ls: Seq<Seq<char>>,
    base: int,
    segments: Seq<SegmentTextModel>,
    z_size: Seq<char>,
    offset_z: Seq<char>,
    include_backplanes: bool,
    k: int,
    checks: Seq<CheckModel>,
)
    requires
        0 <= k <= segments.len(),
        segments.len() <= usize::MAX + 1,
        forall|i: int| 0 <= i < segments.len() ==> segment_texts_fit(#[trigger] segments[i]),
        free_of(offset_z, '\n'),
        0 <= base,
        base + segments_lines(segments).len() <= ls.len(),
        ls.subrange(base, base + segments_lines(segments).len() as int) == segments_lines(segments),
        tail_at(ls, base + segments_lines(segments).len(), segments, offset_z, include_backplanes),
    ensures
        ({
            let start = base + segments_lines(segments.take(k)).len();
            let st = body_step(
                ls,
                start,
                BodyMode::BoxMeshes,
                checks + segments_checks(segments.take(k)),
                resource_models(segments, z_size),
                raw_models(segments.take(k)),
                false,
            );
            &&& st.result == Ok::<(Seq<RawSegmentModel>, bool), Failure>(
                (raw_models(segments), include_backplanes),
            )
            &&& st.pos == ls.len()
            &&& st.checks == checks + segments_checks(segments)
        }),
    decreases segments.len() - k,
{
    let start = base + segments_lines(segments.take(k)).len();
    let res = resource_models(segments, z_size);
    let after = base + segments_lines(segments).len();
    let acc = checks + segments_checks(segments.take(k));
    if k == segments.len() {
        assert(segments.take(k) =~= segments);
        lemma_read_tail(ls, after, segments, offset_z, include_backplanes, acc, res, raw_models(segments));
    } else {
        lemma_segment_block_at(ls, base, segments, k);
        let s = segments[k];
        lemma_segment_lines_solid(k as nat, s);
        lemma_segment_header_seen(k as usize);
        lemma_at_solid(ls, start);
        if k + 1 < segments.len() {
            lemma_segment_block_at(ls, base, segments, k + 1);
            lemma_segment_lines_solid((k + 1) as nat, segments[k + 1]);
            lemma_segment_header_seen((k + 1) as usize);
        } else {
            assert(segments.take(k + 1) =~= segments);
            if include_backplanes {
                lemma_root_lines_solid(seq![]);
                lemma_container_headers();
            }
        }
        lemma_read_segment(ls, start, k as usize, s, res);
        let raw = RawSegmentModel {
            width: s.width,
            height: s.height,
            offset_x: s.offset_x,
            offset_y: s.offset_y,
        };
        assert(raw_models(segments.take(k + 1)) =~= raw_models(segments.take(k)).push(raw));
        lemma_body_at_segment(ls, start, acc, res, raw_models(segments.take(k)));
        assert(segments.take(k + 1).drop_last() =~= segments.take(k));
        assert(segments.take(k + 1).last() == s);
        assert(acc + segment_checks(s) =~= checks + segments_checks(segments.take(k + 1)));
        lemma_read_segments(
            ls,
            base,
            segments,
            z_size,
            offset_z,
            include_backplanes,
            k + 1,
            checks,
        );
    }
}

/// A metadata word `key=value` gives back its key and value.
proof fn lemma_word(key: Seq<char>, value: Seq<char>)
    requires
        free_of(key, '='),
    ensures
        word_key(key + seq!['='] + value) == key,
        word_value(key + seq!['='] + value) == value,
{
    let w = key + seq!['='] + value;
    assert forall|k: int| 0 <= k < key.len() implies w[k] != '=' by {
        assert(w[k] == key[k]);
    }
    lemma_find_at(w, '=', 0, key.len() as int);
    assert(w.subrange(0, key.len() as int) =~= key);
    assert(w.subrange(key.len() + 1int, w.len() as int) =~= value);
}

/// The words of the metadata line.
pub open spec fn metadata_words_of(
    grid_w: usize,
    grid_h: usize,
    unit_size: Seq<char>,
    z_size: Seq<char>,
    include_backplanes: bool,
) -> Seq<Seq<char>> {
    seq![
        "grid_w"@ + seq!['='] + decimal(grid_w as nat),
        "grid_h"@ + seq!['='] + decimal(grid_h as nat),
        "unit_size"@ + seq!['='] + unit_size,
        "z_size"@ + seq!['='] + z_size,
        "include_backplanes"@ + seq!['='] + bool_text(include_backplanes),
    ]
}

#[verifier::spinoff_prover]
proof fn lemma_metadata_words_plain(
    grid_w: usize,
    grid_h: usize,
    unit_size: Seq<char>,
    z_size: Seq<char>,
    include_backplanes: bool,
)
    requires
        no_ws(unit_size),
        no_ws(z_size),
    ensures
        ({
            let ws = metadata_words_of(grid_w, grid_h, unit_size, z_size, include_backplanes);
            forall|i: int| 0 <= i < ws.len() ==> #[trigger] ws[i].len() > 0 && no_ws(ws[i])
        }),
{
    reveal_strlit("grid_w");
    reveal_strlit("grid_h");
    reveal_strlit("unit_size");
    reveal_strlit("z_size");
    reveal_strlit("include_backplanes");
    reveal_strlit("true");
    reveal_strlit("false");
    let ws = metadata_words_of(grid_w, grid_h, unit_size, z_size, include_backplanes);
    lemma_decimal_plain(grid_w);
    lemma_decimal_plain(grid_h);
    assert forall|i: int| 0 <= i < ws.len() implies #[trigger] ws[i].len() > 0 && no_ws(ws[i]) by {
        let w = ws[i];
        assert forall|k: int| 0 <= k < w.len() implies !is_ws(w[k]) by {
            if i == 0 {
                if k > 6 {
                    assert(w[k] == decimal(grid_w as nat)[k - 7]);
                }
            } else if i == 1 {
                if k > 6 {
                    assert(w[k] == decimal(grid_h as nat)[k - 7]);
                }
            } else if i == 2 {
                if k > 9 {
                    assert(w[k] == unit_size[k - 10]);
                }
            } else if i == 3 {
                if k > 6 {
                    assert(w[k] == z_size[k - 7]);
                }
            }
        }
    }
}

#[verifier::spinoff_prover]
proof fn lemma_metadata_line_words(
    grid_w: usize,
    grid_h: usize,
    unit_size: Seq<char>,
    z_size: Seq<char>,
    include_backplanes: bool,
)
    requires
        no_ws(unit_size),
        no_ws(z_size),
    ensures
        words(strip_leading(metadata_line(grid_w, grid_h, unit_size, z_size, include_backplanes), ';', 0))
            == metadata_words_of(grid_w, grid_h, unit_size, z_size, include_backplanes),
{
    reveal_strlit("; grid_w=");
    reveal_strlit(" grid_h=");
    reveal_strlit(" unit_size=");
    reveal_strlit(" z_size=");
    reveal_strlit(" include_backplanes=");
    reveal_strlit("grid_w");
    reveal_strlit("grid_h");
    reveal_strlit("unit_size");
    reveal_strlit("z_size");
    reveal_strlit("include_backplanes");
    reveal_strlit("true");
    reveal_strlit("false");
    let line = metadata_line(grid_w, grid_h, unit_size, z_size, include_backplanes);
    let ws = metadata_words_of(grid_w, grid_h, unit_size, z_size, include_backplanes);
    assert(line[0] == ';');
    assert(line[1] == ' ');
    assert(strip_leading(line, ';', 1) == line.subrange(1, line.len() as int));
    let d1 = ws.drop_first();
    let d2 = d1.drop_first();
    let d3 = d2.drop_first();
    let d4 = d3.drop_first();
    let d5 = d4.drop_first();
    assert(d5.len() == 0);
    assert(spaced(d5) =~= Seq::<char>::empty());
    assert(spaced(d4) == seq![' '] + ws[4] + spaced(d5));
    assert(spaced(d3) == seq![' '] + ws[3] + spaced(d4));
    assert(spaced(d2) == seq![' '] + ws[2] + spaced(d3));
    assert(spaced(d1) == seq![' '] + ws[1] + spaced(d2));
    assert(spaced(ws) == seq![' '] + ws[0] + spaced(d1));
    assert(line.subrange(1, line.len() as int) =~= spaced(ws));
    lemma_metadata_words_plain(grid_w, grid_h, unit_size, z_size, include_backplanes);
    lemma_words_spaced(ws);
}

/// The metadata line reads back as the values written.
#[verifier::spinoff_prover]
proof fn lemma_read_metadata(
    ls: Seq<Seq<char>>,
    grid_w: usize,
    grid_h: usize,
    unit_size: Seq<char>,
    z_size: Seq<char>,
    include_backplanes: bool,
)
    requires
        ls.len() > 1,
        ls[1] == metadata_line(grid_w, grid_h, unit_size, z_size, include_backplanes),
        no_ws(unit_size),
        no_ws(z_size),
    ensures
        metadata_step(ls, 1).result == Ok::<MetadataModel, Failure>(
            MetadataModel {
                grid_w,
                grid_h,
                unit_size,
                z_size,
                include_backplanes: Some(include_backplanes),
            },
        ),
        metadata_step(ls, 1).pos == 2,
        metadata_step(ls, 1).checks == metadata_checks(unit_size, z_size),
{
    reveal(metadata_step);
    reveal_strlit("; grid_w=");
    reveal_strlit("grid_w");
    reveal_strlit("grid_h");
    reveal_strlit("unit_size");
    reveal_strlit("z_size");
    reveal_strlit("include_backplanes");
    reveal_strlit("true");
    reveal_strlit("false");
    lemma_header_lines_solid(grid_w, grid_h, unit_size, z_size, include_backplanes);
    lemma_at_solid(ls, 1);
    let line = ls[1];
    lemma_prefix_cat("; grid_w="@, decimal(grid_w as nat) + " grid_h="@);
    assert(has_prefix(line, "; grid_w="@)) by {
        assert(line.subrange(0, 9) =~= "; grid_w="@);
    }
    lemma_metadata_line_words(grid_w, grid_h, unit_size, z_size, include_backplanes);
    let ws = metadata_words_of(grid_w, grid_h, unit_size, z_size, include_backplanes);
    lemma_word("grid_w"@, decimal(grid_w as nat));
    lemma_word("grid_h"@, decimal(grid_h as nat));
    lemma_word("unit_size"@, unit_size);
    lemma_word("z_size"@, z_size);
    lemma_word("include_backplanes"@, bool_text(include_backplanes));
    lemma_decimal_plain(grid_w);
    lemma_decimal_plain(grid_h);
    assert("grid_h"@ != "grid_w"@) by {
        assert("grid_h"@[5] != "grid_w"@[5]);
    }
    assert("z_size"@ != "grid_w"@) by {
        assert("z_size"@[0] != "grid_w"@[0]);
    }
    assert("z_size"@ != "grid_h"@) by {
        assert("z_size"@[0] != "grid_h"@[0]);
    }
    let f0 = no_fields();
    let f1 = MetadataFields { grid_w: Some(grid_w), ..f0 };
    let f2 = MetadataFields { grid_h: Some(grid_h), ..f1 };
    let f3 = MetadataFields { unit_size: Some(unit_size), ..f2 };
    let f4 = MetadataFields { z_size: Some(z_size), ..f3 };
    let f5 = MetadataFields { include_backplanes: Some(include_backplanes), ..f4 };
    let c2 = seq![CheckModel::Parse(unit_size, "unit_size"@)];
    let c3 = c2.push(CheckModel::Parse(z_size, "z_size"@));
    let e: Seq<CheckModel> = seq![];
    assert(e.push(CheckModel::Parse(unit_size, "unit_size"@)) =~= c2);
    assert(metadata_words(ws, 5, f5, c3) == (c3, Ok::<MetadataFields, Failure>(f5)));
    assert(metadata_words(ws, 4, f4, c3) == metadata_words(ws, 5, f5, c3));
    assert(metadata_words(ws, 3, f3, c2) == metadata_words(ws, 4, f4, c3));
    assert(metadata_words(ws, 2, f2, e) == metadata_words(ws, 3, f3, c2));
    assert(metadata_words(ws, 1, f1, e) == metadata_words(ws, 2, f2, e));
    assert(metadata_words(ws, 0, f0, e) == metadata_words(ws, 1, f1, e));
    assert(c3 =~= metadata_checks(unit_size, z_size));
}

/// The body of a scene stands in `ls` from line `base` on: a blank line
/// before it, the resources, the root node, the `BoxMeshes` container, the
/// segments, and what follows them.
pub open spec fn laid_out(
    ls: Seq<Seq<char>>,
    base: int,
    root_name: Seq<char>,
    segments: Seq<SegmentTextModel>,
    z_size: Seq<char>,
    backplane_offset_z: Seq<char>,
    include_backplanes: bool,
) -> bool {
    let r = resources_lines(segments, z_size, include_backplanes);
    let g = segments_lines(segments);
    let root_at = base + r.len();
    let seg_at = root_at + 4;
    &&& 1 <= base
    &&& ls[base - 1] == Seq::<char>::empty()
    &&& seg_at + g.len() <= ls.len()
    &&& ls.subrange(base, root_at) == r
    &&& ls[root_at] == root_line(root_name)
    &&& ls[root_at + 1] == Seq::<char>::empty()
    &&& ls[root_at + 2] == box_meshes_line()
    &&& ls[root_at + 3] == Seq::<char>::empty()
    &&& ls.subrange(seg_at, seg_at + g.len()) == g
    &&& tail_at(ls, seg_at + g.len(), segments, backplane_offset_z, include_backplanes)
}

/// Where the parts of an exported scene stand among its lines.
#[verifier::spinoff_prover]
proof fn lemma_scene_layout(
    root_name: Seq<char>,
    grid_w: usize,
    grid_h: usize,
    unit_size: Seq<char>,
    z_size: Seq<char>,
    backplane_offset_z: Seq<char>,
    include_backplanes: bool,
    segments: Seq<SegmentTextModel>,
)
    ensures
        ({
            let ls = scene_lines(
                root_name,
                grid_w,
                grid_h,
                unit_size,
                z_size,
                backplane_offset_z,
                include_backplanes,
                segments,
            );
            &&& ls[0] == export_marker()
            &&& ls[1] == metadata_line(grid_w, grid_h, unit_size, z_size, include_backplanes)
            &&& ls[2] == "[gd_scene format=3]"@
            &&& laid_out(
                ls,
                4,
                root_name,
                segments,
                z_size,
                backplane_offset_z,
                include_backplanes,
            )
        }),
{
    let h = header_lines(grid_w, grid_h, unit_size, z_size, include_backplanes);
    let r = resources_lines(segments, z_size, include_backplanes);
    let o = root_lines(root_name);
    let g = segments_lines(segments);
    let b = back_planes_part(segments, backplane_offset_z, include_backplanes);
    let ls = h + r + o + g + b;
    let root_at = 4int + r.len();
    let seg_at = root_at + 4;
    assert(ls.subrange(4, root_at as int) =~= r);
    assert(ls.subrange(seg_at as int, seg_at + g.len()) =~= g);
    assert(ls[root_at as int] == o[0]);
    assert(ls[root_at + 1] == o[1]);
    assert(ls[root_at + 2] == o[2]);
    assert(ls[root_at + 3] == o[3]);
    let after = seg_at + g.len();
    if include_backplanes {
        let bl = back_planes_lines(segments, backplane_offset_z);
        assert(ls[after] == b[0]);
        assert(ls[after + 1] == b[1]);
        assert(ls.subrange(after + 2, ls.len() as int) =~= bl);
    } else {
        assert(b.len() == 0);
    }
}

/// A scene that this tool exports reads back as what was written: the
/// grid size, the unit size and thickness texts, the back plane setting
/// (as metadata and as the `BackPlanes` subtree), the root name, and for
/// each segment in order its resource (its size and the thickness) and its
/// width, height and offsets. The float tests listed on the way are those
/// of the metadata, then of each segment's resources, then of each
/// segment's transform. This holds whenever the written texts fit in their
/// lines: a root name without quote or newline, unit size and thickness
/// texts without whitespace (and a thickness without comma), a back plane
/// offset without newline, and segment numbers without comma, newline, or
/// whitespace at either end.
#[verifier::spinoff_prover]
pub proof fn lemma_export_reads_back(
    root_name: Seq<char>,
    grid_w: usize,
    grid_h: usize,
    unit_size: Seq<char>,
    z_size: Seq<char>,
    backplane_offset_z: Seq<char>,
    include_backplanes: bool,
    segments: Seq<SegmentTextModel>,
)
    requires
        scene_texts_fit(root_name, unit_size, z_size, backplane_offset_z, segments),
    ensures
        scene_outline(
            scene_text(
                root_name,
                grid_w,
                grid_h,
                unit_size,
                z_size,
                backplane_offset_z,
                include_backplanes,
                segments,
            ),
        ).1 == Ok::<OutlineModel, Failure>(
            OutlineModel {
                metadata: Some(
                    MetadataModel {
                        grid_w,
                        grid_h,
                        unit_size,
                        z_size,
                        include_backplanes: Some(include_backplanes),
                    },
                ),
                resources: resource_models(segments, z_size),
                root_name,
                segments: raw_models(segments),
                has_backplanes: include_backplanes,
            },
        ),
        scene_outline(
            scene_text(
                root_name,
                grid_w,
                grid_h,
                unit_size,
                z_size,
                backplane_offset_z,
                include_backplanes,
                segments,
            ),
        ).0 == metadata_checks(unit_size, z_size) + resources_checks(
            segments,
            z_size,
            include_backplanes,
        ) + segments_checks(segments),
{
    let text = scene_text(
        root_name,
        grid_w,
        grid_h,
        unit_size,
        z_size,
        backplane_offset_z,
        include_backplanes,
        segments,
    );
    let ls = scene_lines(
        root_name,
        grid_w,
        grid_h,
        unit_size,
        z_size,
        backplane_offset_z,
        include_backplanes,
        segments,
    );
    lemma_scene_lines(
        root_name,
        grid_w,
        grid_h,
        unit_size,
        z_size,
        backplane_offset_z,
        include_backplanes,
        segments,
    );
    assert(lines(text) == ls);
    lemma_scene_layout(
        root_name,
        grid_w,
        grid_h,
        unit_size,
        z_size,
        backplane_offset_z,
        include_backplanes,
        segments,
    );
    let r = resources_lines(segments, z_size, include_backplanes);
    let g = segments_lines(segments);
    let root_at = 4int + r.len();
    let seg_at = root_at + 4;
    lemma_header_lines_solid(grid_w, grid_h, unit_size, z_size, include_backplanes);
    lemma_root_lines_solid(root_name);
    lemma_at_solid(ls, 0);
    // the metadata
    lemma_read_metadata(ls, grid_w, grid_h, unit_size, z_size, include_backplanes);
    let m = metadata_step(ls, 1);
    let meta = MetadataModel {
        grid_w,
        grid_h,
        unit_size,
        z_size,
        include_backplanes: Some(include_backplanes),
    };
    // the scene header
    lemma_at_solid(ls, 2);
    lemma_solid(ls[2]);
    assert(exact_step(ls, 2, "[gd_scene format=3]"@).result is Ok);
    assert(exact_step(ls, 2, "[gd_scene format=3]"@).pos == 3);
    // the resources and the root
    assert(segments.take(0) =~= Seq::<SegmentTextModel>::empty());
    assert(resource_models(segments.take(0), z_size) =~= Seq::<ResourceModel>::empty());
    assert(resources_checks(segments.take(0), z_size, include_backplanes) =~= Seq::<CheckModel>::empty());
    assert(m.checks + resources_checks(segments.take(0), z_size, include_backplanes) =~= m.checks);
    lemma_read_header(ls, 4, segments, z_size, include_backplanes, root_name, 0, m.checks);
    let hs = header_step(ls, 3, m.checks, seq![]);
    let res = resource_models(segments, z_size);
    // the node tree
    lemma_at_blank(ls, root_at + 1);
    lemma_at_solid(ls, root_at + 2);
    lemma_container_headers();
    let none: Seq<RawSegmentModel> = seq![];
    lemma_body_enter_boxes(ls, root_at + 1, hs.checks, res, none);
    lemma_body_blank(ls, root_at + 3, BodyMode::BoxMeshes, hs.checks, res, none, false);
    assert(raw_models(segments.take(0)) =~= none);
    assert(segments_checks(segments.take(0)) =~= Seq::<CheckModel>::empty());
    assert(hs.checks + segments_checks(segments.take(0)) =~= hs.checks);
    lemma_read_segments(
        ls,
        seg_at as int,
        segments,
        z_size,
        backplane_offset_z,
        include_backplanes,
        0,
        hs.checks,
    );
}

/// The body of a scene stands two lines earlier once two lines before it
/// are taken out.
#[verifier::spinoff_prover]
proof fn lemma_laid_out_skip(
    ls: Seq<Seq<char>>,
    base: int,
    root_name: Seq<char>,
    segments: Seq<SegmentTextModel>,
    z_size: Seq<char>,
    backplane_offset_z: Seq<char>,
    include_backplanes: bool,
)
    requires
        base >= 3,
        laid_out(ls, base, root_name, segments, z_size, backplane_offset_z, include_backplanes),
        all_ok(ls),
    ensures
        laid_out(
            ls.skip(2),
            base - 2,
            root_name,
            segments,
            z_size,
            backplane_offset_z,
            include_backplanes,
        ),
        all_ok(ls.skip(2)),
        ls.skip(2)[0] == ls[2],
{
    let ls2 = ls.skip(2);
    assert forall|i: int| 0 <= i < ls2.len() implies line_ok(#[trigger] ls2[i]) by {
        assert(ls2[i] == ls[i + 2]);
    }
    let r = resources_lines(segments, z_size, include_backplanes);
    let g = segments_lines(segments);
    let root_at = base + r.len();
    let seg_at = root_at + 4;
    let b2 = base - 2;
    assert(ls2[b2 - 1] == ls[base - 1]);
    assert(ls2.subrange(b2, root_at - 2) =~= ls.subrange(base, root_at));
    assert(ls2[root_at - 2] == ls[root_at]);
    assert(ls2[root_at - 1] == ls[root_at + 1]);
    assert(ls2[root_at] == ls[root_at + 2]);
    assert(ls2[root_at + 1] == ls[root_at + 3]);
    assert(ls2.subrange(seg_at - 2, seg_at - 2 + g.len()) =~= ls.subrange(seg_at, seg_at + g.len()));
    let after = seg_at + g.len();
    if include_backplanes {
        assert(ls2[after - 2] == ls[after]);
        assert(ls2[after - 1] == ls[after + 1]);
        assert(ls2.subrange(after, ls2.len() as int) =~= ls.subrange(after + 2, ls.len() as int));
    }
}

/// A scene exported by this tool, with its two comment lines taken out (as
/// earlier versions wrote it), reads back as what was written, but without
/// metadata: the root name, the back plane setting (from the `BackPlanes`
/// subtree), and each segment's resource and texts, in order; the float
/// tests listed are those of the resources, then of the transforms. The
/// same texts fit as for [`lemma_export_reads_back`].
#[verifier::spinoff_prover]
pub proof fn lemma_legacy_export_reads_back(
    root_name: Seq<char>,
    grid_w: usize,
    grid_h: usize,
    unit_size: Seq<char>,
    z_size: Seq<char>,
    backplane_offset_z: Seq<char>,
    include_backplanes: bool,
    segments: Seq<SegmentTextModel>,
)
    requires
        scene_texts_fit(root_name, unit_size, z_size, backplane_offset_z, segments),
    ensures
        scene_outline(
            joined(
                lines(
                    scene_text(
                        root_name,
                        grid_w,
                        grid_h,
                        unit_size,
                        z_size,
                        backplane_offset_z,
                        include_backplanes,
                        segments,
                    ),
                ).skip(2),
            ),
        ).1 == Ok::<OutlineModel, Failure>(
            OutlineModel {
                metadata: None,
                resources: resource_models(segments, z_size),
                root_name,
                segments: raw_models(segments),
                has_backplanes: include_backplanes,
            },
        ),
        scene_outline(
            joined(
                lines(
                    scene_text(
                        root_name,
                        grid_w,
                        grid_h,
                        unit_size,
                        z_size,
                        backplane_offset_z,
                        include_backplanes,
                        segments,
                    ),
                ).skip(2),
            ),
        ).0 == resources_checks(segments, z_size, include_backplanes) + segments_checks(segments),
{
    let ls = scene_lines(
        root_name,
        grid_w,
        grid_h,
        unit_size,
        z_size,
        backplane_offset_z,
        include_backplanes,
        segments,
    );
    lemma_scene_lines(
        root_name,
        grid_w,
        grid_h,
        unit_size,
        z_size,
        backplane_offset_z,
        include_backplanes,
        segments,
    );
    lemma_scene_layout(
        root_name,
        grid_w,
        grid_h,
        unit_size,
        z_size,
        backplane_offset_z,
        include_backplanes,
        segments,
    );
    lemma_laid_out_skip(ls, 4, root_name, segments, z_size, backplane_offset_z, include_backplanes);
    let ls2 = ls.skip(2);
    lemma_lines_joined(ls2);
    let r = resources_lines(segments, z_size, include_backplanes);
    let g = segments_lines(segments);
    let root_at = 2int + r.len();
    let seg_at = root_at + 4;
    lemma_header_lines_solid(grid_w, grid_h, unit_size, z_size, include_backplanes);
    lemma_root_lines_solid(root_name);
    // not the marker: the scene header comes first
    lemma_at_solid(ls2, 0);
    lemma_solid(ls2[0]);
    assert(ls2[0] != export_marker()) by {
        reveal_strlit("[gd_scene format=3]");
        reveal_strlit("; generated-by=grid-wall-builder-for-godot");
        assert(ls2[0].len() != export_marker().len());
    }
    assert(exact_step(ls2, 0, "[gd_scene format=3]"@).result is Ok);
    assert(exact_step(ls2, 0, "[gd_scene format=3]"@).pos == 1);
    let e: Seq<CheckModel> = seq![];
    assert(segments.take(0) =~= Seq::<SegmentTextModel>::empty());
    assert(resource_models(segments.take(0), z_size) =~= Seq::<ResourceModel>::empty());
    assert(resources_checks(segments.take(0), z_size, include_backplanes) =~= e);
    assert(e + e =~= e);
    lemma_read_header(ls2, 2, segments, z_size, include_backplanes, root_name, 0, e);
    let hs = header_step(ls2, 1, e, seq![]);
    let res = resource_models(segments, z_size);
    lemma_at_blank(ls2, root_at + 1);
    lemma_at_solid(ls2, root_at + 2);
    lemma_container_headers();
    let none: Seq<RawSegmentModel> = seq![];
    lemma_body_enter_boxes(ls2, root_at + 1, hs.checks, res, none);
    lemma_body_blank(ls2, root_at + 3, BodyMode::BoxMeshes, hs.checks, res, none, false);
    assert(raw_models(segments.take(0)) =~= none);
    assert(segments_checks(segments.take(0)) =~= e);
    assert(hs.checks + e =~= hs.checks);
    assert(e + resources_checks(segments, z_size, include_backplanes) =~= resources_checks(
        segments,
        z_size,
        include_backplanes,
    ));
    lemma_read_segments(
        ls2,
        seg_at,
        segments,
        z_size,
        backplane_offset_z,
        include_backplanes,
        0,
        hs.checks,
    );
}

/// In a scene exported with back planes, segment `i` has its own
/// `PlaneMesh_i` resource, of the segment's width and height (at line `k`
/// of the text), and the back plane node `BackPlane_i` refers to that
/// resource (at line `j`): its lines are the node header, the transform at
/// the segment's offsets, and `mesh = SubResource("PlaneMesh_i")`.
#[verifier::spinoff_prover]
#[verifier::rlimit(40)]
pub proof fn lemma_back_plane_uses_own_mesh(
    root_name: Seq<char>,
    grid_w: usize,
    grid_h: usize,
    unit_size: Seq<char>,
    z_size: Seq<char>,
    backplane_offset_z: Seq<char>,
    segments: Seq<SegmentTextModel>,
    i: int,
) -> (lines_at: (int, int))
    requires
        scene_texts_fit(root_name, unit_size, z_size, backplane_offset_z, segments),
        0 <= i < segments.len(),
    ensures
        ({
            let ls = lines(
                scene_text(
                    root_name,
                    grid_w,
                    grid_h,
                    unit_size,
                    z_size,
                    backplane_offset_z,
                    true,
                    segments,
                ),
            );
            let (j, k) = lines_at;
            &&& 0 <= j && j + 2 < ls.len()
            &&& ls[j] == "[node name=\"BackPlane_"@ + decimal(i as nat)
                + "\" type=\"MeshInstance3D\" parent=\"BackPlanes\"]"@
            &&& ls[j + 1] == "transform = Transform3D(1, 0, 0, 0, 0, -1, 0, 1, 0, "@
                + segments[i].offset_x + ", "@ + segments[i].offset_y + ", "@ + backplane_offset_z
                + ")"@
            &&& ls[j + 2] == "mesh = SubResource(\"PlaneMesh_"@ + decimal(i as nat) + "\")"@
            &&& 0 <= k && k + 1 < ls.len()
            &&& ls[k] == "[sub_resource type=\"PlaneMesh\" id=\"PlaneMesh_"@ + decimal(i as nat)
                + "\"]"@
            &&& ls[k + 1] == "size = Vector2("@ + segments[i].width + ", "@ + segments[i].height
                + ")"@
        }),
{
    lemma_scene_lines(
        root_name,
        grid_w,
        grid_h,
        unit_size,
        z_size,
        backplane_offset_z,
        true,
        segments,
    );
    lemma_scene_layout(
        root_name,
        grid_w,
        grid_h,
        unit_size,
        z_size,
        backplane_offset_z,
        true,
        segments,
    );
    let ls = scene_lines(
        root_name,
        grid_w,
        grid_h,
        unit_size,
        z_size,
        backplane_offset_z,
        true,
        segments,
    );
    let r = resources_lines(segments, z_size, true);
    let g = segments_lines(segments);
    let after = 8int + r.len() + g.len();
    assert(tail_at(ls, after, segments, backplane_offset_z, true));
    lemma_back_plane_block_at(ls, after + 2, segments, backplane_offset_z, i);
    lemma_resource_block_at(ls, 4, segments, z_size, true, i);
    let j = after + 2 + back_planes_lines(segments.take(i), backplane_offset_z).len() as int;
    let k = 4 + resources_lines(segments.take(i), z_size, true).len() as int + 6;
    assert(ls[j] == back_plane_line(decimal(i as nat)));
    assert(ls[j + 2] == plane_reference_line(decimal(i as nat)));
    assert(ls[k] == plane_resource_line(i as nat));
    (j, k)
}

/// A node header whose parts hold no newline is a solid line; it holds no
/// `I` when its name, type and parent hold none.
proof fn lemma_node_header_plain(name: Seq<char>, ty: Seq<char>, parent: Seq<char>)
    requires
        free_of(name, '\n'),
        free_of(ty, '\n'),
        free_of(parent, '\n'),
    ensures
        solid(node_header(name, ty, parent)),
        free_of(name, 'I') && free_of(ty, 'I') && free_of(parent, 'I') ==> free_of(
            node_header(name, ty, parent),
            'I',
        ),
{
    reveal_strlit("[node name=\"");
    reveal_strlit("\" type=\"");
    reveal_strlit("\" parent=\"");
    reveal_strlit("\"]");
    let o = node_open();
    let a = "\" type=\""@;
    let b = "\" parent=\""@;
    let c = "\"]"@;
    let m = name + a + ty + b + parent;
    lemma_free_cat(name, a, '\n');
    lemma_free_cat(name + a, ty, '\n');
    lemma_free_cat(name + a + ty, b, '\n');
    lemma_free_cat(name + a + ty + b, parent, '\n');
    lemma_framed(o, m, c);
    assert(o + m + c =~= node_header(name, ty, parent));
    if free_of(name, 'I') && free_of(ty, 'I') && free_of(parent, 'I') {
        lemma_free_cat(o, name, 'I');
        lemma_free_cat(o + name, a, 'I');
        lemma_free_cat(o + name + a, ty, 'I');
        lemma_free_cat(o + name + a + ty, b, 'I');
        lemma_free_cat(o + name + a + ty + b, parent, 'I');
        lemma_free_cat(o + name + a + ty + b + parent, c, 'I');
    }
}

/// What the reader of a segment's children sees in the two child headers
/// under `path`.
#[verifier::spinoff_prover]
proof fn lemma_child_headers(path: Seq<char>)
    requires
        free_of(path, '\n'),
        free_of(path, 'I'),
    ensures
        ({
            let m = node_header("MeshInstance3D"@, "MeshInstance3D"@, path);
            let c = node_header("CollisionShape3D"@, "CollisionShape3D"@, path);
            &&& solid(m)
            &&& solid(c)
            &&& has_prefix(m, node_open())
            &&& has_prefix(c, node_open())
            &&& has_infix(m, " type=\"MeshInstance3D\""@)
            &&& !has_infix(c, " type=\"MeshInstance3D\""@)
            &&& has_infix(c, " type=\"CollisionShape3D\""@)
            &&& node_line(m, "MeshInstance3D"@, Some(path)) == Ok::<Seq<char>, Failure>(
                "MeshInstance3D"@,
            )
            &&& node_line(c, "CollisionShape3D"@, Some(path)) == Ok::<Seq<char>, Failure>(
                "CollisionShape3D"@,
            )
        }),
{
    reveal_strlit(" type=\"");
    reveal_strlit("MeshInstance3D");
    reveal_strlit("CollisionShape3D");
    reveal_strlit("\"");
    reveal_strlit(" type=\"MeshInstance3D\"");
    reveal_strlit(" type=\"CollisionShape3D\"");
    assert(free_of("MeshInstance3D"@, '\n') && free_of("MeshInstance3D"@, '"'));
    assert(free_of("CollisionShape3D"@, '\n') && free_of("CollisionShape3D"@, 'I') && free_of(
        "CollisionShape3D"@,
        '"',
    ));
    lemma_node_header_plain("MeshInstance3D"@, "MeshInstance3D"@, path);
    lemma_node_header_plain("CollisionShape3D"@, "CollisionShape3D"@, path);
    lemma_node_header("MeshInstance3D"@, "MeshInstance3D"@, path);
    lemma_node_header("CollisionShape3D"@, "CollisionShape3D"@, path);
    assert(" type=\""@ + "MeshInstance3D"@ + "\""@ =~= " type=\"MeshInstance3D\""@);
    assert(" type=\""@ + "CollisionShape3D"@ + "\""@ =~= " type=\"CollisionShape3D\""@);
    assert(" type=\"MeshInstance3D\""@[11] == 'I');
    lemma_no_infix(
        node_header("CollisionShape3D"@, "CollisionShape3D"@, path),
        " type=\"MeshInstance3D\""@,
        11,
    );
}

/// The children of a segment whose node path is `path`: its
/// `MeshInstance3D` and `CollisionShape3D` nodes, both referring to
/// resource `id`.
#[verifier::spinoff_prover]
proof fn lemma_read_children_under(ls: Seq<Seq<char>>, i: int, id: usize, path: Seq<char>)
    requires
        0 <= i,
        i + 7 <= ls.len(),
        free_of(path, '\n'),
        free_of(path, 'I'),
        ls[i] == Seq::<char>::empty(),
        ls[i + 1] == node_header("MeshInstance3D"@, "MeshInstance3D"@, path),
        ls[i + 2] == mesh_reference_line(decimal(id as nat)),
        ls[i + 3] == Seq::<char>::empty(),
        ls[i + 4] == node_header("CollisionShape3D"@, "CollisionShape3D"@, path),
        ls[i + 5] == shape_reference_line(decimal(id as nat)),
        ls[i + 6] == Seq::<char>::empty(),
        i + 7 == ls.len() || (solid(ls[i + 7]) && has_prefix(ls[i + 7], node_open())),
    ensures
        segment_children(ls, i, path, ChildMode::Nodes, None, None) == Ok::<
            (int, usize, usize),
            (int, Failure),
        >((i + 7, id, id)),
{
    reveal(segment_children);
    reveal_strlit("[node name=\"");
    reveal_strlit("mesh = SubResource(\"BoxMesh_");
    reveal_strlit("shape = SubResource(\"BoxShape3D_");
    lemma_segment_lines_solid(
        id as nat,
        SegmentTextModel { width: seq![], height: seq![], offset_x: seq![], offset_y: seq![] },
    );
    lemma_child_headers(path);
    lemma_at_blank(ls, i);
    lemma_at_solid(ls, i + 1);
    lemma_at_solid(ls, i + 2);
    lemma_at_blank(ls, i + 3);
    lemma_at_solid(ls, i + 4);
    lemma_at_solid(ls, i + 5);
    lemma_at_blank(ls, i + 6);
    if i + 7 < ls.len() {
        lemma_at_solid(ls, i + 7);
    } else {
        lemma_at_end(ls, i + 7);
    }
    lemma_reference_of("mesh = SubResource(\"BoxMesh_"@, id);
    lemma_reference_of("shape = SubResource(\"BoxShape3D_"@, id);
    lemma_not_prefix(ls[i + 2], node_open(), 0);
    lemma_not_prefix(ls[i + 5], node_open(), 0);
    let none: Option<usize> = None;
    assert(segment_children(ls, i, path, ChildMode::Nodes, none, none) == segment_children(
        ls,
        i + 2,
        path,
        ChildMode::MeshProperties,
        none,
        none,
    ));
    assert(segment_children(ls, i + 2, path, ChildMode::MeshProperties, none, none)
        == segment_children(ls, i + 3, path, ChildMode::MeshProperties, Some(id), none));
    assert(segment_children(ls, i + 3, path, ChildMode::MeshProperties, Some(id), none)
        == segment_children(ls, i + 4, path, ChildMode::Nodes, Some(id), none));
    assert(segment_children(ls, i + 4, path, ChildMode::Nodes, Some(id), none) == segment_children(
        ls,
        i + 5,
        path,
        ChildMode::ShapeProperties,
        Some(id),
        none,
    ));
    assert(segment_children(ls, i + 5, path, ChildMode::ShapeProperties, Some(id), none)
        == segment_children(ls, i + 6, path, ChildMode::ShapeProperties, Some(id), Some(id)));
    assert(segment_children(ls, i + 6, path, ChildMode::ShapeProperties, Some(id), Some(id))
        == segment_children(ls, i + 7, path, ChildMode::Nodes, Some(id), Some(id)));
}

/// The header line of segment `n` placed directly under the root node, as
/// exports before the `BoxMeshes` container wrote it.
pub open spec fn top_segment_line(n: Seq<char>) -> Seq<char> {
    node_header(segment_name(n), "StaticBody3D"@, "."@)
}

/// The lines of segment `id` placed directly under the root node: its
/// header, its transform, and its mesh and collision children, whose parent
/// is the segment itself.
pub open spec fn top_segment_lines(id: nat, s: SegmentTextModel) -> Seq<Seq<char>> {
    let n = decimal(id);
    seq![
        top_segment_line(n),
        segment_transform_line(s),
        seq![],
        node_header("MeshInstance3D"@, "MeshInstance3D"@, segment_name(n)),
        mesh_reference_line(n),
        seq![],
        node_header("CollisionShape3D"@, "CollisionShape3D"@, segment_name(n)),
        shape_reference_line(n),
        seq![],
    ]
}

/// A segment's name holds no newline and no `I`.
proof fn lemma_segment_name_plain(id: usize)
    ensures
        free_of(segment_name(decimal(id as nat)), '\n'),
        free_of(segment_name(decimal(id as nat)), 'I'),
        free_of(segment_name(decimal(id as nat)), '"'),
{
    reveal_strlit("Segment_");
    let n = decimal(id as nat);
    lemma_parse_decimal(id);
    lemma_decimal_plain(id);
    assert forall|k: int| 0 <= k < n.len() implies n[k] != 'I' by {
        assert(is_digit(n[k]));
    }
    lemma_free_cat("Segment_"@, n, '\n');
    lemma_free_cat("Segment_"@, n, 'I');
    lemma_free_cat("Segment_"@, n, '"');
}

/// What the node-tree reader sees in a segment header under the root.
#[verifier::spinoff_prover]
proof fn lemma_top_segment_header(id: usize)
    ensures
        ({
            let line = top_segment_line(decimal(id as nat));
            &&& solid(line)
            &&& has_prefix(line, node_open())
            &&& !is_box_meshes_header(line)
            &&& !is_back_planes_header(line)
            &&& is_segment_header(line, " parent=\".\"]"@)
            &&& node_line(line, "StaticBody3D"@, Some("."@)) == Ok::<Seq<char>, Failure>(
                segment_name(decimal(id as nat)),
            )
        }),
{
    reveal_strlit("[node name=\"");
    reveal_strlit("[node name=\"Segment_");
    reveal_strlit("Segment_");
    reveal_strlit("StaticBody3D");
    reveal_strlit(".");
    reveal_strlit("\" type=\"");
    reveal_strlit("\" parent=\"");
    reveal_strlit("\"]");
    reveal_strlit(" type=\"");
    reveal_strlit("\"");
    reveal_strlit(" type=\"StaticBody3D\"");
    reveal_strlit(" parent=\".\"]");
    reveal_strlit("[node name=\"BoxMeshes\" type=\"Node3D\"");
    reveal_strlit("[node name=\"BackPlanes\" type=\"Node3D\"");
    let n = decimal(id as nat);
    let name = segment_name(n);
    let line = top_segment_line(n);
    lemma_segment_name_plain(id);
    assert(free_of("StaticBody3D"@, '\n') && free_of("."@, '\n'));
    lemma_node_header_plain(name, "StaticBody3D"@, "."@);
    lemma_node_header(name, "StaticBody3D"@, "."@);
    assert(" type=\""@ + "StaticBody3D"@ + "\""@ =~= " type=\"StaticBody3D\""@);
    assert(line.subrange(0, 20) =~= "[node name=\"Segment_"@);
    let e = line.len() - 12;
    assert(line.subrange(e, e + 12) =~= " parent=\".\"]"@);
    lemma_infix_at(line, " parent=\".\"]"@, e);
    lemma_not_prefix(line, "[node name=\"BoxMeshes\" type=\"Node3D\""@, 12);
    lemma_not_prefix(line, "[node name=\"BackPlanes\" type=\"Node3D\""@, 12);
}

/// A segment under the root reads back as its offsets and the size of its
/// resource.
#[verifier::spinoff_prover]
proof fn lemma_read_top_segment(
    ls: Seq<Seq<char>>,
    i: int,
    id: usize,
    s: SegmentTextModel,
    res: Seq<ResourceModel>,
)
    requires
        0 <= i,
        i + 9 <= ls.len(),
        ls.subrange(i, i + 9) == top_segment_lines(id as nat, s),
        i + 9 == ls.len() || (solid(ls[i + 9]) && has_prefix(ls[i + 9], node_open())),
        segment_texts_fit(s),
        id < res.len(),
    ensures
        segment_step(ls, i, res, "."@).result == Ok::<RawSegmentModel, Failure>(
            RawSegmentModel {
                width: res[id as int].width,
                height: res[id as int].height,
                offset_x: s.offset_x,
                offset_y: s.offset_y,
            },
        ),
        segment_step(ls, i, res, "."@).pos == i + 9,
        segment_step(ls, i, res, "."@).checks == segment_checks(s),
{
    reveal(segment_step);
    let n = decimal(id as nat);
    let b = top_segment_lines(id as nat, s);
    assert forall|k: int| 0 <= k < 9 implies ls[i + k] == #[trigger] b[k] by {
        assert(ls.subrange(i, i + 9)[k] == ls[i + k]);
    }
    assert(ls[i] == b[0]);
    assert(ls[i + 1] == b[1]);
    assert(ls[i + 2] == b[2]);
    assert(ls[i + 3] == b[3]);
    assert(ls[i + 4] == b[4]);
    assert(ls[i + 5] == b[5]);
    assert(ls[i + 6] == b[6]);
    assert(ls[i + 7] == b[7]);
    assert(ls[i + 8] == b[8]);
    lemma_segment_lines_solid(id as nat, s);
    lemma_segment_headers(id);
    lemma_segment_name_plain(id);
    lemma_top_segment_header(id);
    lemma_at_solid(ls, i);
    lemma_at_solid(ls, i + 1);
    lemma_segment_transform(s);
    assert(crate::scene_parser::segment_path("."@, segment_name(n)) == segment_name(n));
    lemma_read_children_under(ls, i + 2, id, segment_name(n));
}

/// The lines of all `segments` placed directly under the root node,
/// numbered from 0.
pub open spec fn top_segments_lines(segments: Seq<SegmentTextModel>) -> Seq<Seq<char>>
    decreases segments.len(),
{
    if segments.len() == 0 {
        seq![]
    } else {
        top_segments_lines(segments.drop_last()) + top_segment_lines(
            (segments.len() - 1) as nat,
            segments.last(),
        )
    }
}

proof fn lemma_top_segments_prefix(segments: Seq<SegmentTextModel>, k: int)
    requires
        0 <= k <= segments.len(),
    ensures
        top_segments_lines(segments.take(k)).len() <= top_segments_lines(segments).len(),
        top_segments_lines(segments).subrange(0, top_segments_lines(segments.take(k)).len() as int)
            == top_segments_lines(segments.take(k)),
    decreases segments.len(),
{
    if k == segments.len() {
        assert(segments.take(k) =~= segments);
        assert(top_segments_lines(segments).subrange(0, top_segments_lines(segments).len() as int)
            =~= top_segments_lines(segments));
    } else {
        let d = segments.drop_last();
        lemma_top_segments_prefix(d, k);
        assert(d.take(k) =~= segments.take(k));
        let a = top_segments_lines(d);
        let b = top_segment_lines((segments.len() - 1) as nat, segments.last());
        let m = top_segments_lines(segments.take(k)).len() as int;
        assert((a + b).subrange(0, m) =~= a.subrange(0, m));
    }
}

proof fn lemma_top_segment_block_at(ls: Seq<Seq<char>>, base: int, segments: Seq<SegmentTextModel>, k: int)
    requires
        0 <= k < segments.len(),
        0 <= base,
        base + top_segments_lines(segments).len() <= ls.len(),
        ls.subrange(base, base + top_segments_lines(segments).len() as int) == top_segments_lines(
            segments,
        ),
    ensures
        ({
            let start = base + top_segments_lines(segments.take(k)).len();
            let next = base + top_segments_lines(segments.take(k + 1)).len();
            &&& next == start + 9
            &&& next <= base + top_segments_lines(segments).len()
            &&& ls.subrange(start, start + 9) == top_segment_lines(k as nat, segments[k])
        }),
{
    let all = top_segments_lines(segments);
    let before = top_segments_lines(segments.take(k));
    let upto = top_segments_lines(segments.take(k + 1));
    let block = top_segment_lines(k as nat, segments[k]);
    assert(segments.take(k + 1).drop_last() =~= segments.take(k));
    assert(segments.take(k + 1).last() == segments[k]);
    assert(upto == before + block);
    lemma_top_segments_prefix(segments, k + 1);
    let start = base + before.len();
    assert forall|j: int| 0 <= j < 9 implies ls.subrange(start, start + 9)[j] == #[trigger] block[j] by {
        assert(ls.subrange(base, base + all.len() as int)[before.len() + j] == all[before.len() + j]);
        assert(all.subrange(0, upto.len() as int)[before.len() + j] == upto[before.len() + j]);
    }
    assert(ls.subrange(start, start + 9) =~= block);
}

/// One segment under the root node, read in the node tree.
proof fn lemma_body_at_top_segment(
    ls: Seq<Seq<char>>,
    i: int,
    checks: Seq<CheckModel>,
    res: Seq<ResourceModel>,
    segs: Seq<RawSegmentModel>,
)
    requires
        0 <= i <= ls.len(),
        peek_at(ls, i) matches Some(line) && !is_box_meshes_header(line) && !is_back_planes_header(
            line,
        ) && is_segment_header(line, " parent=\".\"]"@),
        segment_step(ls, i, res, "."@).result is Ok,
    ensures
        ({
            let st = segment_step(ls, i, res, "."@);
            body_step(ls, i, BodyMode::Nodes, checks, res, segs, false) == body_step(
                ls,
                st.pos,
                BodyMode::Nodes,
                checks + st.checks,
                res,
                segs.push(st.result->Ok_0),
                false,
            )
        }),
{
}

/// Reading segment `k` under the root node (at its header, or at the blank
/// line before the first) moves to the next segment's header with the
/// segment and its checks added.
#[verifier::spinoff_prover]
proof fn lemma_top_segment_step(
    ls: Seq<Seq<char>>,
    base: int,
    segments: Seq<SegmentTextModel>,
    z_size: Seq<char>,
    k: int,
    acc: Seq<CheckModel>,
    i: int,
)
    requires
        0 <= k < segments.len(),
        segments.len() <= usize::MAX + 1,
        segment_texts_fit(segments[k]),
        1 <= base,
        base + top_segments_lines(segments).len() == ls.len(),
        ls.subrange(base, ls.len() as int) == top_segments_lines(segments),
        ls[base - 1] == Seq::<char>::empty(),
        i == base + top_segments_lines(segments.take(k)).len() || (k == 0 && i == base - 1),
    ensures
        ({
            let res = resource_models(segments, z_size);
            let next = base + top_segments_lines(segments.take(k + 1)).len();
            body_step(ls, i, BodyMode::Nodes, acc, res, raw_models(segments.take(k)), false)
                == body_step(
                ls,
                next,
                BodyMode::Nodes,
                acc + segment_checks(segments[k]),
                res,
                raw_models(segments.take(k + 1)),
                false,
            )
        }),
{
    let start = base + top_segments_lines(segments.take(k)).len();
    let res = resource_models(segments, z_size);
    lemma_top_segments_prefix(segments, k);
    if k == 0 {
        assert(segments.take(0) =~= Seq::<SegmentTextModel>::empty());
        assert(start == base);
    }
    if i == base - 1 {
        lemma_at_blank(ls, base - 1);
    }
    lemma_top_segment_block_at(ls, base, segments, k);
    let s = segments[k];
    let next = start + 9;
    lemma_top_segment_header(k as usize);
    assert(ls[start] == ls.subrange(start, start + 9)[0]);
    lemma_at_solid(ls, start);
    if k + 1 < segments.len() {
        lemma_top_segment_block_at(ls, base, segments, k + 1);
        lemma_top_segment_header((k + 1) as usize);
        assert(ls[next] == ls.subrange(next, next + 9)[0]);
    } else {
        assert(segments.take(k + 1) =~= segments);
    }
    crate::scene_parser::lemma_steps_skip_blank(ls, i, 0, res, "."@);
    lemma_read_top_segment(ls, start, k as usize, s, res);
    let raw = RawSegmentModel {
        width: s.width,
        height: s.height,
        offset_x: s.offset_x,
        offset_y: s.offset_y,
    };
    assert(raw_models(segments.take(k + 1)) =~= raw_models(segments.take(k)).push(raw));
    lemma_body_at_top_segment(ls, i, acc, res, raw_models(segments.take(k)));
}

/// Reading the segments under the root node from segment `k` on (at its
/// header, or at the blank line before the first).
#[verifier::spinoff_prover]
proof fn lemma_read_top_segments(
    ls: Seq<Seq<char>>,
    base: int,
    segments: Seq<SegmentTextModel>,
    z_size: Seq<char>,
    k: int,
    checks: Seq<CheckModel>,
    i: int,
)
    requires
        0 <= k <= segments.len(),
        segments.len() <= usize::MAX + 1,
        forall|j: int| 0 <= j < segments.len() ==> segment_texts_fit(#[trigger] segments[j]),
        1 <= base,
        base + top_segments_lines(segments).len() == ls.len(),
        ls.subrange(base, ls.len() as int) == top_segments_lines(segments),
        ls[base - 1] == Seq::<char>::empty(),
        i == base + top_segments_lines(segments.take(k)).len() || (k == 0 && i == base - 1),
    ensures
        ({
            let st = body_step(
                ls,
                i,
                BodyMode::Nodes,
                checks + segments_checks(segments.take(k)),
                resource_models(segments, z_size),
                raw_models(segments.take(k)),
                false,
            );
            &&& st.result == Ok::<(Seq<RawSegmentModel>, bool), Failure>(
                (raw_models(segments), false),
            )
            &&& st.pos == ls.len()
            &&& st.checks == checks + segments_checks(segments)
        }),
    decreases segments.len() - k,
{
    let res = resource_models(segments, z_size);
    let acc = checks + segments_checks(segments.take(k));
    if k == segments.len() {
        assert(segments.take(k) =~= segments);
        lemma_top_segments_prefix(segments, k);
        if i == base - 1 {
            lemma_at_blank(ls, base - 1);
            lemma_at_end(ls, base);
            assert(body_step(ls, i, BodyMode::Nodes, acc, res, raw_models(segments), false).pos
                == ls.len());
        } else {
            lemma_body_at_end(ls, BodyMode::Nodes, acc, res, raw_models(segments), false);
        }
    } else {
        lemma_top_segment_step(ls, base, segments, z_size, k, acc, i);
        assert(segments.take(k + 1).drop_last() =~= segments.take(k));
        assert(segments.take(k + 1).last() == segments[k]);
        assert(acc + segment_checks(segments[k]) =~= checks + segments_checks(segments.take(k + 1)));
        lemma_read_top_segments(
            ls,
            base,
            segments,
            z_size,
            k + 1,
            checks,
            base + top_segments_lines(segments.take(k + 1)).len(),
        );
    }
}

proof fn lemma_top_segment_lines_ok(id: nat, s: SegmentTextModel)
    requires
        id <= usize::MAX,
        segment_texts_fit(s),
    ensures
        all_ok(top_segment_lines(id, s)),
{
    let n = decimal(id);
    reveal_strlit("MeshInstance3D");
    reveal_strlit("CollisionShape3D");
    lemma_segment_lines_solid(id, s);
    lemma_top_segment_header(id as usize);
    lemma_segment_name_plain(id as usize);
    assert(free_of("MeshInstance3D"@, '\n'));
    assert(free_of("CollisionShape3D"@, '\n'));
    lemma_node_header_plain("MeshInstance3D"@, "MeshInstance3D"@, segment_name(n));
    lemma_node_header_plain("CollisionShape3D"@, "CollisionShape3D"@, segment_name(n));
    lemma_blank_empty();
    let b = top_segment_lines(id, s);
    assert forall|i: int| 0 <= i < b.len() implies line_ok(#[trigger] b[i]) by {
        if i == 2 || i == 5 || i == 8 {
            assert(b[i] == Seq::<char>::empty());
        }
    }
}

proof fn lemma_top_segments_lines_ok(segments: Seq<SegmentTextModel>)
    requires
        segments.len() <= usize::MAX + 1,
        forall|i: int| 0 <= i < segments.len() ==> segment_texts_fit(#[trigger] segments[i]),
    ensures
        all_ok(top_segments_lines(segments)),
    decreases segments.len(),
{
    if segments.len() > 0 {
        let id = (segments.len() - 1) as nat;
        assert forall|i: int| 0 <= i < segments.drop_last().len() implies segment_texts_fit(
            #[trigger] segments.drop_last()[i],
        ) by {
            assert(segments.drop_last()[i] == segments[i]);
        }
        lemma_top_segments_lines_ok(segments.drop_last());
        lemma_top_segment_lines_ok(id, segments.last());
        lemma_all_ok_cat(top_segments_lines(segments.drop_last()), top_segment_lines(id, segments.last()));
    }
}

/// The lines of a scene as exports before the `BoxMeshes` container and
/// the metadata comments wrote it: the scene header, the `BoxMesh` and
/// `BoxShape3D` resources of each segment, the root node, and each segment
/// directly under the root.
pub open spec fn older_scene_lines(
    root_name: Seq<char>,
    z_size: Seq<char>,
    segments: Seq<SegmentTextModel>,
) -> Seq<Seq<char>> {
    seq!["[gd_scene format=3]"@, seq![]] + resources_lines(segments, z_size, false) + seq![
        root_line(root_name),
        seq![],
    ] + top_segments_lines(segments)
}

/// Where the parts of an older scene stand among its lines.
#[verifier::spinoff_prover]
proof fn lemma_older_layout(root_name: Seq<char>, z_size: Seq<char>, segments: Seq<SegmentTextModel>)
    requires
        name_text(root_name),
        no_ws(z_size),
        free_of(z_size, ','),
        segments.len() <= usize::MAX + 1,
        forall|i: int| 0 <= i < segments.len() ==> segment_texts_fit(#[trigger] segments[i]),
    ensures
        ({
            let ls = older_scene_lines(root_name, z_size, segments);
            let r = resources_lines(segments, z_size, false);
            let t = top_segments_lines(segments);
            let root_at = 2int + r.len();
            &&& all_ok(ls)
            &&& ls[0] == "[gd_scene format=3]"@
            &&& ls[1] == Seq::<char>::empty()
            &&& ls.subrange(2, root_at) == r
            &&& ls[root_at] == root_line(root_name)
            &&& ls[root_at + 1] == Seq::<char>::empty()
            &&& root_at + 2 + t.len() == ls.len()
            &&& ls.subrange(root_at + 2, ls.len() as int) == t
        }),
{
    let h: Seq<Seq<char>> = seq!["[gd_scene format=3]"@, seq![]];
    let r = resources_lines(segments, z_size, false);
    let o: Seq<Seq<char>> = seq![root_line(root_name), seq![]];
    let t = top_segments_lines(segments);
    let ls = h + r + o + t;
    let root_at = 2int + r.len();
    lemma_header_lines_solid(0, 0, seq![], seq![], false);
    lemma_root_lines_solid(root_name);
    lemma_blank_empty();
    assert(all_ok(h)) by {
        assert forall|i: int| 0 <= i < h.len() implies line_ok(#[trigger] h[i]) by {
            if i == 1 {
                assert(h[i] == Seq::<char>::empty());
            }
        }
    }
    assert(all_ok(o)) by {
        assert forall|i: int| 0 <= i < o.len() implies line_ok(#[trigger] o[i]) by {
            if i == 1 {
                assert(o[i] == Seq::<char>::empty());
            }
        }
    }
    lemma_resources_lines_ok(segments, z_size, false);
    lemma_top_segments_lines_ok(segments);
    lemma_all_ok_cat(h, r);
    lemma_all_ok_cat(h + r, o);
    lemma_all_ok_cat(h + r + o, t);
    assert(ls.subrange(2, root_at) =~= r);
    assert(ls[root_at] == o[0]);
    assert(ls[root_at + 1] == o[1]);
    assert(ls.subrange(root_at + 2, ls.len() as int) =~= t);
}

/// A scene as exports before the `BoxMeshes` container wrote it, with each
/// segment directly under the root node, reads back whole: every segment,
/// in order, with its own resource and offsets, the root name and the
/// resources, no metadata and no back planes; the float checks listed are
/// those of the resources, then of the transforms. The texts must fit in
/// their lines as for [`lemma_export_reads_back`].
#[verifier::spinoff_prover]
pub proof fn lemma_older_export_reads_back(
    root_name: Seq<char>,
    z_size: Seq<char>,
    segments: Seq<SegmentTextModel>,
)
    requires
        name_text(root_name),
        no_ws(z_size),
        free_of(z_size, ','),
        segments.len() <= usize::MAX + 1,
        forall|i: int| 0 <= i < segments.len() ==> segment_texts_fit(#[trigger] segments[i]),
    ensures
        scene_outline(joined(older_scene_lines(root_name, z_size, segments))).1 == Ok::<
            OutlineModel,
            Failure,
        >(
            OutlineModel {
                metadata: None,
                resources: resource_models(segments, z_size),
                root_name,
                segments: raw_models(segments),
                has_backplanes: false,
            },
        ),
        scene_outline(joined(older_scene_lines(root_name, z_size, segments))).0 == resources_checks(
            segments,
            z_size,
            false,
        ) + segments_checks(segments),
{
    let ls = older_scene_lines(root_name, z_size, segments);
    lemma_older_layout(root_name, z_size, segments);
    lemma_lines_joined(ls);
    let r = resources_lines(segments, z_size, false);
    let root_at = 2int + r.len();
    lemma_header_lines_solid(0, 0, seq![], seq![], false);
    lemma_root_lines_solid(root_name);
    lemma_at_solid(ls, 0);
    lemma_solid(ls[0]);
    assert(ls[0] != export_marker()) by {
        reveal_strlit("[gd_scene format=3]");
        reveal_strlit("; generated-by=grid-wall-builder-for-godot");
        assert(ls[0].len() != export_marker().len());
    }
    assert(exact_step(ls, 0, "[gd_scene format=3]"@).result is Ok);
    assert(exact_step(ls, 0, "[gd_scene format=3]"@).pos == 1);
    let e: Seq<CheckModel> = seq![];
    assert(segments.take(0) =~= Seq::<SegmentTextModel>::empty());
    assert(resource_models(segments.take(0), z_size) =~= Seq::<ResourceModel>::empty());
    assert(resources_checks(segments.take(0), z_size, false) =~= e);
    assert(e + e =~= e);
    lemma_read_header(ls, 2, segments, z_size, false, root_name, 0, e);
    let hs = header_step(ls, 1, e, seq![]);
    let res = resource_models(segments, z_size);
    assert(raw_models(segments.take(0)) =~= Seq::<RawSegmentModel>::empty());
    assert(segments_checks(segments.take(0)) =~= e);
    assert(hs.checks + e =~= hs.checks);
    assert(e + resources_checks(segments, z_size, false) =~= resources_checks(segments, z_size, false));
    lemma_read_top_segments(ls, root_at + 2, segments, z_size, 0, hs.checks, root_at + 1);
}

} // verus!

//! A cursor over the lines of a `.tscn` file and the readers of its blocks.
//!
//! Blank lines are skipped wherever the reader looks for the next line.
use vstd::prelude::*;

use crate::scene_lines::{
    agrees, check_views, invalid, invalid_error, join3, lemma_check_views_push, parse_bool,
    parse_resource_id, parse_usize, parse_vector_line, resource_id, unsupported,
    unsupported_error, usize_field, bool_field, vector_line, CheckModel, Failure, FloatCheck,
    ImportError,
};
use crate::text::{
    blank, chars_of, decimal, decimal_chars, find_char, find_from, has_prefix, is_blank,
    lemma_views_at, lemma_views_len, lines, slice_of, split_lines, split_words, starts_with_str,
    strip_leading, to_string, trim_leading, views, words,
};

verus! {

/// The first line at or after `i` that is not blank (or the end).
pub open spec fn skip_blank(ls: Seq<Seq<char>>, i: int) -> int
    decreases ls.len() - i,
{
    if 0 <= i < ls.len() && blank(ls[i]) {
        skip_blank(ls, i + 1)
    } else {
        i
    }
}

pub proof fn lemma_skip_blank_bounds(ls: Seq<Seq<char>>, i: int)
    requires
        0 <= i <= ls.len(),
    ensures
        i <= skip_blank(ls, i) <= ls.len(),
    decreases ls.len() - i,
{
    if i < ls.len() && blank(ls[i]) {
        lemma_skip_blank_bounds(ls, i + 1);
    }
}

pub proof fn lemma_skip_blank_idem(ls: Seq<Seq<char>>, i: int)
    requires
        0 <= i <= ls.len(),
    ensures
        skip_blank(ls, skip_blank(ls, i)) == skip_blank(ls, i),
        peek_at(ls, skip_blank(ls, i)) == peek_at(ls, i),
        after_next(ls, skip_blank(ls, i)) == after_next(ls, i),
    decreases ls.len() - i,
{
    if i < ls.len() && blank(ls[i]) {
        lemma_skip_blank_idem(ls, i + 1);
    }
}

/// The next non-blank line at or after `i`, if any.
pub open spec fn peek_at(ls: Seq<Seq<char>>, i: int) -> Option<Seq<char>> {
    let j = skip_blank(ls, i);
    if 0 <= j < ls.len() {
        Some(ls[j])
    } else {
        None
    }
}

/// The position after taking the next non-blank line at or after `i`.
pub open spec fn after_next(ls: Seq<Seq<char>>, i: int) -> int {
    let j = skip_blank(ls, i);
    if 0 <= j < ls.len() {
        j + 1
    } else {
        j
    }
}

pub proof fn lemma_after_next(ls: Seq<Seq<char>>, i: int)
    requires
        0 <= i <= ls.len(),
    ensures
        i <= after_next(ls, i) <= ls.len(),
        peek_at(ls, i) is Some ==> i < after_next(ls, i),
{
    lemma_skip_blank_bounds(ls, i);
}

/// The result of reading part of a scene: the float checks met on the way,
/// the position reached, and the value read or the failure.
pub struct Step<T> {
    pub checks: Seq<CheckModel>,
    pub pos: int,
    pub result: Result<T, Failure>,
}

/// A failed step.
pub open spec fn failed<T>(checks: Seq<CheckModel>, pos: int, f: Failure) -> Step<T> {
    Step { checks, pos, result: Err(f) }
}

/// A character vector's view, inside an option.
pub open spec fn opt_view(o: Option<Vec<char>>) -> Option<Seq<char>> {
    match o {
        Some(l) => Some(l@),
        None => None,
    }
}

/// A cursor over the lines of a scene file, with the float checks met so
/// far.
pub struct SceneParser {
    lines: Vec<Vec<char>>,
    index: usize,
    checks: Vec<FloatCheck>,
}

impl SceneParser {
    /// The lines of the file.
    pub closed spec fn lines_view(self) -> Seq<Seq<char>> {
        views(self.lines@)
    }

    /// The position of the cursor.
    pub closed spec fn pos(self) -> int {
        self.index as int
    }

    /// The float checks met so far.
    pub closed spec fn checks_view(self) -> Seq<CheckModel> {
        check_views(self.checks@)
    }

    /// The cursor lies within the file.
    pub open spec fn inv(self) -> bool {
        0 <= self.pos() <= self.lines_view().len()
    }

    /// `next` is `old` moved by `step`: the same lines, the step's checks
    /// added, and the step's position, whether it succeeded or failed.
    pub open spec fn follows<T>(old: SceneParser, next: SceneParser, step: Step<T>) -> bool {
        &&& next.lines_view() == old.lines_view()
        &&& next.checks_view() == old.checks_view() + step.checks
        &&& next.inv()
        &&& next.pos() == step.pos
    }

    /// Start reading `text` at its first line.
    pub fn new(text: &str) -> (parser: Self)
        ensures
            parser.lines_view() == lines(text@),
            parser.pos() == 0,
            parser.checks_view() == Seq::<CheckModel>::empty(),
            parser.inv(),
    {
        let lines = split_lines(&chars_of(text));
        let parser = SceneParser { lines, index: 0, checks: Vec::new() };
        assert(check_views(parser.checks@) =~= Seq::<CheckModel>::empty());
        parser
    }

    /// Hand over the float checks met so far.
    pub fn take_checks(self) -> (checks: Vec<FloatCheck>)
        ensures
            check_views(checks@) == self.checks_view(),
    {
        self.checks
    }

    /// Move past blank lines.
    pub fn skip_blank_lines(&mut self)
        requires
            old(self).inv(),
        ensures
            final(self).lines_view() == old(self).lines_view(),
            final(self).checks_view() == old(self).checks_view(),
            final(self).pos() == skip_blank(old(self).lines_view(), old(self).pos()),
            final(self).inv(),
    {
        let ghost ls = self.lines_view();
        let ghost start = self.pos();
        proof {
            lemma_views_len(self.lines@);
        }
        while self.index < self.lines.len() && is_blank(&self.lines[self.index])
            invariant
                ls == self.lines_view(),
                ls.len() == self.lines@.len(),
                self.checks_view() == old(self).checks_view(),
                ls == old(self).lines_view(),
                0 <= self.index <= ls.len(),
                skip_blank(ls, self.pos()) == skip_blank(ls, start),
            decreases ls.len() - self.index,
        {
            proof {
                lemma_views_at(self.lines@, self.index as int);
            }
            self.index = self.index + 1;
        }
        proof {
            if self.index < self.lines@.len() {
                lemma_views_at(self.lines@, self.index as int);
            }
        }
    }

    /// The next non-blank line, without moving past it.
    pub fn peek_line(&mut self) -> (line: Option<Vec<char>>)
        requires
            old(self).inv(),
        ensures
            final(self).lines_view() == old(self).lines_view(),
            final(self).checks_view() == old(self).checks_view(),
            final(self).pos() == skip_blank(old(self).lines_view(), old(self).pos()),
            final(self).inv(),
            opt_view(line) == peek_at(old(self).lines_view(), old(self).pos()),
    {
        self.skip_blank_lines();
        proof {
            lemma_views_len(self.lines@);
        }
        if self.index < self.lines.len() {
            proof {
                lemma_views_at(self.lines@, self.index as int);
            }
            Some(self.lines[self.index].clone())
        } else {
            None
        }
    }

    /// The next non-blank line, moving past it.
    pub fn next_line(&mut self) -> (line: Option<Vec<char>>)
        requires
            old(self).inv(),
        ensures
            final(self).lines_view() == old(self).lines_view(),
            final(self).checks_view() == old(self).checks_view(),
            final(self).pos() == after_next(old(self).lines_view(), old(self).pos()),
            final(self).inv(),
            opt_view(line) == peek_at(old(self).lines_view(), old(self).pos()),
    {
        self.skip_blank_lines();
        proof {
            lemma_views_len(self.lines@);
        }
        if self.index < self.lines.len() {
            proof {
                lemma_views_at(self.lines@, self.index as int);
            }
            let line = self.lines[self.index].clone();
            self.index = self.index + 1;
            Some(line)
        } else {
            None
        }
    }

    /// Add a float check.
    fn add_check(&mut self, check: FloatCheck)
        ensures
            final(self).lines_view() == old(self).lines_view(),
            final(self).pos() == old(self).pos(),
            final(self).checks_view() == old(self).checks_view().push(check@),
    {
        let ghost before = self.checks@;
        self.checks.push(check);
        proof {
            lemma_check_views_push(before, check);
        }
    }
}

/// What `expect_exact` does at `i`: the next line, trimmed, must be
/// `expected`.
pub open spec fn exact_step(ls: Seq<Seq<char>>, i: int, expected: Seq<char>) -> Step<()> {
    let pos = after_next(ls, i);
    match peek_at(ls, i) {
        None => failed(
            seq![],
            pos,
            Failure::Invalid("Expected `"@ + expected + "` but found end of file"@),
        ),
        Some(line) => if crate::text::trimmed(line) == expected {
            Step { checks: seq![], pos, result: Ok(()) }
        } else {
            failed(
                seq![],
                pos,
                Failure::Invalid("Expected `"@ + expected + "` but found `"@ + line + "`"@),
            )
        },
    }
}

impl SceneParser {
    /// Take the next line, which (trimmed) must be `expected`.
    pub fn expect_exact(&mut self, expected: &str) -> (r: Result<(), ImportError>)
        requires
            old(self).inv(),
        ensures
            SceneParser::follows(
                *old(self),
                *final(self),
                exact_step(old(self).lines_view(), old(self).pos(), expected@),
            ),
            agrees(r, exact_step(old(self).lines_view(), old(self).pos(), expected@).result),
    {
        let e = chars_of(expected);
        match self.next_line() {
            None => {
                let m = join3("Expected `", &e, "` but found end of file");
                Err(ImportError::Invalid(to_string(&m)))
            },
            Some(line) => {
                let t = crate::text::trim(&line);
                if crate::text::equals_str(&t, expected) {
                    Ok(())
                } else {
                    let head = join3("Expected `", &e, "` but found `");
                    let mut m = to_string(&head);
                    crate::text::push_chars(&mut m, &line);
                    crate::text::push_chars(&mut m, &chars_of("`"));
                    Err(ImportError::Invalid(m))
                }
            },
        }
    }
}

/// The scene metadata that this tool writes after its marker comment.
pub struct Metadata {
    pub grid_w: usize,
    pub grid_h: usize,
    /// The text of the unit size (a float).
    pub unit_size: String,
    /// The text of the wall thickness (a float).
    pub z_size: String,
    pub include_backplanes: Option<bool>,
}

/// The model of [`Metadata`].
pub struct MetadataModel {
    pub grid_w: usize,
    pub grid_h: usize,
    pub unit_size: Seq<char>,
    pub z_size: Seq<char>,
    pub include_backplanes: Option<bool>,
}

impl View for Metadata {
    type V = MetadataModel;

    open spec fn view(&self) -> MetadataModel {
        MetadataModel {
            grid_w: self.grid_w,
            grid_h: self.grid_h,
            unit_size: self.unit_size@,
            z_size: self.z_size@,
            include_backplanes: self.include_backplanes,
        }
    }
}

/// The metadata keys read so far (a later key overrides an earlier one).
pub struct MetadataFields {
    pub grid_w: Option<usize>,
    pub grid_h: Option<usize>,
    pub unit_size: Option<Seq<char>>,
    pub z_size: Option<Seq<char>>,
    pub include_backplanes: Option<bool>,
}

/// The key of a metadata word: the text before its first `=`.
pub open spec fn word_key(word: Seq<char>) -> Seq<char> {
    word.subrange(0, find_from(word, '=', 0))
}

/// The value of a metadata word: the text after its first `=`, or nothing.
pub open spec fn word_value(word: Seq<char>) -> Seq<char> {
    let e = find_from(word, '=', 0);
    if e < word.len() {
        word.subrange(e + 1, word.len() as int)
    } else {
        seq![]
    }
}

/// Reading the metadata words from `k` on, with `fields` read before and
/// `checks` met before.
pub open spec fn metadata_words(
    ws: Seq<Seq<char>>,
    k: int,
    fields: MetadataFields,
    checks: Seq<CheckModel>,
) -> (Seq<CheckModel>, Result<MetadataFields, Failure>)
    decreases ws.len() - k,
{
    if k < 0 || k >= ws.len() {
        (checks, Ok(fields))
    } else {
        let key = word_key(ws[k]);
        let value = word_value(ws[k]);
        if key == "grid_w"@ {
            match usize_field(value, "grid_w"@) {
                Ok(v) => metadata_words(ws, k + 1, MetadataFields { grid_w: Some(v), ..fields }, checks),
                Err(f) => (checks, Err(f)),
            }
        } else if key == "grid_h"@ {
            match usize_field(value, "grid_h"@) {
                Ok(v) => metadata_words(ws, k + 1, MetadataFields { grid_h: Some(v), ..fields }, checks),
                Err(f) => (checks, Err(f)),
            }
        } else if key == "unit_size"@ {
            metadata_words(
                ws,
                k + 1,
                MetadataFields { unit_size: Some(value), ..fields },
                checks.push(CheckModel::Parse(value, "unit_size"@)),
            )
        } else if key == "z_size"@ {
            metadata_words(
                ws,
                k + 1,
                MetadataFields { z_size: Some(value), ..fields },
                checks.push(CheckModel::Parse(value, "z_size"@)),
            )
        } else if key == "include_backplanes"@ {
            match bool_field(value, "include_backplanes"@) {
                Ok(v) => metadata_words(
                    ws,
                    k + 1,
                    MetadataFields { include_backplanes: Some(v), ..fields },
                    checks,
                ),
                Err(f) => (checks, Err(f)),
            }
        } else {
            (checks, Err(Failure::Unsupported("Unexpected metadata key `"@ + key + "`"@)))
        }
    }
}

/// No metadata key read yet.
pub open spec fn no_fields() -> MetadataFields {
    MetadataFields {
        grid_w: None,
        grid_h: None,
        unit_size: None,
        z_size: None,
        include_backplanes: None,
    }
}

/// The metadata, once all words are read: every key but
/// `include_backplanes` must be present.
pub open spec fn complete_metadata(fields: MetadataFields) -> Result<MetadataModel, Failure> {
    if fields.grid_w is None {
        Err(Failure::Invalid("Missing grid_w metadata"@))
    } else if fields.grid_h is None {
        Err(Failure::Invalid("Missing grid_h metadata"@))
    } else if fields.unit_size is None {
        Err(Failure::Invalid("Missing unit_size metadata"@))
    } else if fields.z_size is None {
        Err(Failure::Invalid("Missing z_size metadata"@))
    } else {
        Ok(
            MetadataModel {
                grid_w: fields.grid_w->0,
                grid_h: fields.grid_h->0,
                unit_size: fields.unit_size->0,
                z_size: fields.z_size->0,
                include_backplanes: fields.include_backplanes,
            },
        )
    }
}

/// What `expect_metadata` does at `i`: a line `; grid_w=.. grid_h=..
/// unit_size=.. z_size=.. [include_backplanes=..]`.
#[verifier::opaque]
pub open spec fn metadata_step(ls: Seq<Seq<char>>, i: int) -> Step<MetadataModel> {
    let pos = after_next(ls, i);
    match peek_at(ls, i) {
        None => failed(seq![], pos, Failure::Invalid("Expected metadata line after export marker"@)),
        Some(line) => if !has_prefix(line, "; grid_w="@) {
            failed(seq![], pos, unsupported("Unsupported scene metadata: "@, line))
        } else {
            let (checks, fields) = metadata_words(
                words(strip_leading(line, ';', 0)),
                0,
                no_fields(),
                seq![],
            );
            match fields {
                Err(f) => failed(checks, pos, f),
                Ok(fields) => Step { checks, pos, result: complete_metadata(fields) },
            }
        },
    }
}

impl SceneParser {
    /// Read the metadata line that follows the export marker.
    pub fn expect_metadata(&mut self) -> (r: Result<Metadata, ImportError>)
        requires
            old(self).inv(),
        ensures
            SceneParser::follows(
                *old(self),
                *final(self),
                metadata_step(old(self).lines_view(), old(self).pos()),
            ),
            match (r, metadata_step(old(self).lines_view(), old(self).pos()).result) {
                (Ok(a), Ok(b)) => a@ == b,
                (Err(e), Err(f)) => e@ == f,
                _ => false,
            },
    {
        proof {
            reveal(metadata_step);
        }
        let ghost ls = self.lines_view();
        let ghost start = self.checks_view();
        let line = match self.next_line() {
            None => {
                return Err(
                    ImportError::Invalid(to_string(&chars_of("Expected metadata line after export marker"))),
                );
            },
            Some(line) => line,
        };
        if !starts_with_str(&line, "; grid_w=") {
            return Err(unsupported_error("Unsupported scene metadata: ", &line));
        }
        let ws = split_words(&trim_leading(&line, ';'));
        let mut grid_w: Option<usize> = None;
        let mut grid_h: Option<usize> = None;
        let mut unit_size: Option<Vec<char>> = None;
        let mut z_size: Option<Vec<char>> = None;
        let mut include_backplanes: Option<bool> = None;
        let ghost total = metadata_words(views(ws@), 0, no_fields(), seq![]);
        let ghost mut added: Seq<CheckModel> = seq![];
        proof {
            lemma_views_len(ws@);
            assert(start + added =~= start);
        }
        let mut k: usize = 0;
        while k < ws.len()
            invariant
                self.inv(),
                self.lines_view() == ls,
                k <= ws@.len(),
                views(ws@).len() == ws@.len(),
                metadata_words(
                    views(ws@),
                    k as int,
                    MetadataFields {
                        grid_w,
                        grid_h,
                        unit_size: opt_view(unit_size),
                        z_size: opt_view(z_size),
                        include_backplanes,
                    },
                    added,
                ) == total,
                self.checks_view() == start + added,
                self.pos() == after_next(ls, old(self).pos()),
                ls == old(self).lines_view(),
                start == old(self).checks_view(),
                peek_at(ls, old(self).pos()) == Some(line@),
                has_prefix(line@, "; grid_w="@),
                views(ws@) == words(strip_leading(line@, ';', 0)),
                total == metadata_words(views(ws@), 0, no_fields(), seq![]),
            decreases ws@.len() - k,
        {
            proof {
                reveal(metadata_step);
            }
            let word = &ws[k];
            proof {
                lemma_views_at(ws@, k as int);
            }
            let e = match find_char(word, '=', 0) {
                Some(e) => e,
                None => word.len(),
            };
            let key = slice_of(word, 0, e);
            let value = if e < word.len() {
                slice_of(word, e + 1, word.len())
            } else {
                Vec::new()
            };
            assert(key@ == word_key(views(ws@)[k as int]));
            assert(value@ =~= word_value(views(ws@)[k as int]));
            if crate::text::equals_str(&key, "grid_w") {
                match parse_usize(&value, "grid_w") {
                    Ok(v) => grid_w = Some(v),
                    Err(e) => return Err(e),
                }
            } else if crate::text::equals_str(&key, "grid_h") {
                match parse_usize(&value, "grid_h") {
                    Ok(v) => grid_h = Some(v),
                    Err(e) => return Err(e),
                }
            } else if crate::text::equals_str(&key, "unit_size") {
                let check = FloatCheck::Parse {
                    token: to_string(&value),
                    label: to_string(&chars_of("unit_size")),
                };
                self.add_check(check);
                proof {
                    added = added.push(check@);
                    assert(start + added =~= (start + added.drop_last()).push(check@));
                }
                unit_size = Some(value);
            } else if crate::text::equals_str(&key, "z_size") {
                let check = FloatCheck::Parse {
                    token: to_string(&value),
                    label: to_string(&chars_of("z_size")),
                };
                self.add_check(check);
                proof {
                    added = added.push(check@);
                    assert(start + added =~= (start + added.drop_last()).push(check@));
                }
                z_size = Some(value);
            } else if crate::text::equals_str(&key, "include_backplanes") {
                match parse_bool(&value, "include_backplanes") {
                    Ok(v) => include_backplanes = Some(v),
                    Err(e) => return Err(e),
                }
            } else {
                let m = join3("Unexpected metadata key `", &key, "`");
                return Err(ImportError::Unsupported(to_string(&m)));
            }
            k = k + 1;
        }
        match (grid_w, grid_h, unit_size, z_size) {
            (Some(grid_w), Some(grid_h), Some(unit_size), Some(z_size)) => Ok(
                Metadata {
                    grid_w,
                    grid_h,
                    unit_size: to_string(&unit_size),
                    z_size: to_string(&z_size),
                    include_backplanes,
                },
            ),
            (None, _, _, _) => Err(ImportError::Invalid(to_string(&chars_of("Missing grid_w metadata")))),
            (_, None, _, _) => Err(ImportError::Invalid(to_string(&chars_of("Missing grid_h metadata")))),
            (_, _, None, _) => Err(ImportError::Invalid(to_string(&chars_of("Missing unit_size metadata")))),
            (_, _, _, None) => Err(ImportError::Invalid(to_string(&chars_of("Missing z_size metadata")))),
        }
    }
}

/// A `BoxMesh` resource with its matching `BoxShape3D`: the texts of its
/// three sizes.
pub struct ResourceRecord {
    pub width: String,
    pub height: String,
    pub depth: String,
}

/// The model of a [`ResourceRecord`].
pub struct ResourceModel {
    pub width: Seq<char>,
    pub height: Seq<char>,
    pub depth: Seq<char>,
}

impl View for ResourceRecord {
    type V = ResourceModel;

    open spec fn view(&self) -> ResourceModel {
        ResourceModel { width: self.width@, height: self.height@, depth: self.depth@ }
    }
}

/// What `parse_resource_pair` does at `i`: a `BoxMesh` resource and a
/// `BoxShape3D` resource, both with id `expected_id`, each with a
/// `Vector3` size; the two sizes must agree.
#[verifier::opaque]
pub open spec fn resource_pair_step(ls: Seq<Seq<char>>, i: int, expected_id: usize) -> Step<
    ResourceModel,
> {
    let p1 = after_next(ls, i);
    match peek_at(ls, i) {
        None => failed(seq![], p1, Failure::Invalid("Expected BoxMesh resource block"@)),
        Some(mesh_line) => match resource_id(mesh_line, "[sub_resource type=\"BoxMesh\" id=\"BoxMesh_"@) {
            Err(f) => failed(seq![], p1, f),
            Ok(mesh_id) => if mesh_id != expected_id {
                failed(
                    seq![],
                    p1,
                    Failure::Unsupported(
                        "Unexpected BoxMesh resource id "@ + decimal(mesh_id as nat) + "; expected "@
                            + decimal(expected_id as nat),
                    ),
                )
            } else {
                let p2 = after_next(ls, p1);
                match peek_at(ls, p1) {
                    None => failed(seq![], p2, Failure::Invalid("Expected BoxMesh size line"@)),
                    Some(mesh_size) => {
                        let (c1, mesh) = vector_line(mesh_size, "size = Vector3("@, 3, "three Vector3"@);
                        match mesh {
                            Err(f) => failed(c1, p2, f),
                            Ok(mesh) => {
                                let p3 = after_next(ls, p2);
                                match peek_at(ls, p2) {
                                    None => failed(
                                        c1,
                                        p3,
                                        Failure::Invalid("Expected BoxShape3D resource block"@),
                                    ),
                                    Some(shape_line) => match resource_id(
                                        shape_line,
                                        "[sub_resource type=\"BoxShape3D\" id=\"BoxShape3D_"@,
                                    ) {
                                        Err(f) => failed(c1, p3, f),
                                        Ok(shape_id) => if shape_id != expected_id {
                                            failed(
                                                c1,
                                                p3,
                                                Failure::Unsupported(
                                                    "Unexpected BoxShape3D resource id "@ + decimal(
                                                        shape_id as nat,
                                                    ) + "; expected "@ + decimal(
                                                        expected_id as nat,
                                                    ),
                                                ),
                                            )
                                        } else {
                                            let p4 = after_next(ls, p3);
                                            match peek_at(ls, p3) {
                                                None => failed(
                                                    c1,
                                                    p4,
                                                    Failure::Invalid(
                                                        "Expected BoxShape3D size line"@,
                                                    ),
                                                ),
                                                Some(shape_size) => {
                                                    let (c2, shape) = vector_line(
                                                        shape_size,
                                                        "size = Vector3("@,
                                                        3,
                                                        "three Vector3"@,
                                                    );
                                                    match shape {
                                                        Err(f) => failed(c1 + c2, p4, f),
                                                        Ok(shape) => Step {
                                                            checks: c1 + c2 + seq![
                                                                CheckModel::SameSize(mesh, shape),
                                                            ],
                                                            pos: p4,
                                                            result: Ok(
                                                                ResourceModel {
                                                                    width: mesh[0],
                                                                    height: mesh[1],
                                                                    depth: mesh[2],
                                                                },
                                                            ),
                                                        },
                                                    }
                                                },
                                            }
                                        },
                                    },
                                }
                            },
                        }
                    },
                }
            },
        },
    }
}

/// What `skip_plane_mesh_resource` does at `i`: a `PlaneMesh` resource
/// with a `Vector2` size.
#[verifier::opaque]
pub open spec fn plane_step(ls: Seq<Seq<char>>, i: int) -> Step<()> {
    let p1 = after_next(ls, i);
    match peek_at(ls, i) {
        None => failed(seq![], p1, Failure::Invalid("Expected PlaneMesh resource block"@)),
        Some(line) => if !has_prefix(line, "[sub_resource type=\"PlaneMesh\" id=\"PlaneMesh_"@) {
            failed(seq![], p1, unsupported("Unsupported PlaneMesh resource block: "@, line))
        } else {
            let p2 = after_next(ls, p1);
            match peek_at(ls, p1) {
                None => failed(seq![], p2, Failure::Invalid("Expected PlaneMesh size line"@)),
                Some(size) => {
                    let (c, r) = vector_line(size, "size = Vector2("@, 2, "two Vector2"@);
                    match r {
                        Err(f) => failed(c, p2, f),
                        Ok(_) => Step { checks: c, pos: p2, result: Ok(()) },
                    }
                },
            }
        },
    }
}

/// What `parse_root_node` does at `i`: a `Node3D` header; its name.
#[verifier::opaque]
pub open spec fn root_step(ls: Seq<Seq<char>>, i: int) -> Step<Seq<char>> {
    let p1 = after_next(ls, i);
    match peek_at(ls, i) {
        None => failed(seq![], p1, Failure::Invalid("Expected root Node3D block"@)),
        Some(line) => Step {
            checks: seq![],
            pos: p1,
            result: crate::scene_lines::node_line(line, "Node3D"@, None),
        },
    }
}

/// Moving from `i` past every line up to the next node header.
pub open spec fn skip_to_node(ls: Seq<Seq<char>>, i: int) -> int
    decreases ls.len() - i,
{
    if i < 0 || i > ls.len() {
        i
    } else {
        match peek_at(ls, i) {
            Some(line) => if has_prefix(line, crate::scene_lines::node_open()) {
                skip_blank(ls, i)
            } else {
                proof {
                    lemma_after_next(ls, i);
                }
                skip_to_node(ls, after_next(ls, i))
            },
            None => skip_blank(ls, i),
        }
    }
}

pub proof fn lemma_skip_to_node_bounds(ls: Seq<Seq<char>>, i: int)
    requires
        0 <= i <= ls.len(),
    ensures
        i <= skip_to_node(ls, i) <= ls.len(),
    decreases ls.len() - i,
{
    lemma_skip_blank_bounds(ls, i);
    lemma_after_next(ls, i);
    if let Some(line) = peek_at(ls, i) {
        if !has_prefix(line, crate::scene_lines::node_open()) {
            lemma_skip_to_node_bounds(ls, after_next(ls, i));
        }
    }
}

impl SceneParser {
    /// Read a `BoxMesh` resource and the `BoxShape3D` resource that must
    /// follow it, both with id `expected_id`.
    pub fn parse_resource_pair(&mut self, expected_id: usize) -> (r: Result<
        ResourceRecord,
        ImportError,
    >)
        requires
            old(self).inv(),
        ensures
            SceneParser::follows(
                *old(self),
                *final(self),
                resource_pair_step(old(self).lines_view(), old(self).pos(), expected_id),
            ),
            match (r, resource_pair_step(old(self).lines_view(), old(self).pos(), expected_id).result) {
                (Ok(a), Ok(b)) => a@ == b,
                (Err(e), Err(f)) => e@ == f,
                _ => false,
            },
    {
        proof {
            reveal(resource_pair_step);
        }
        let ghost start = self.checks_view();
        let mesh_line = match self.next_line() {
            Some(l) => l,
            None => return Err(ImportError::Invalid(to_string(&chars_of("Expected BoxMesh resource block")))),
        };
        let mesh_id = match parse_resource_id(&mesh_line, "[sub_resource type=\"BoxMesh\" id=\"BoxMesh_") {
            Ok(id) => id,
            Err(e) => return Err(e),
        };
        if mesh_id != expected_id {
            let head = join3("Unexpected BoxMesh resource id ", &decimal_chars(mesh_id), "; expected ");
            let mut m = to_string(&head);
            crate::text::push_chars(&mut m, &decimal_chars(expected_id));
            return Err(ImportError::Unsupported(m));
        }
        let mesh_size_line = match self.next_line() {
            Some(l) => l,
            None => return Err(ImportError::Invalid(to_string(&chars_of("Expected BoxMesh size line")))),
        };
        proof {
            reveal_strlit("size = Vector3(");
        }
        let mesh = match parse_vector_line(&mut self.checks, &mesh_size_line, "size = Vector3(", 3, "three Vector3") {
            Ok(parts) => parts,
            Err(e) => return Err(e),
        };
        let ghost after_mesh = self.checks_view();
        let shape_line = match self.next_line() {
            Some(l) => l,
            None => return Err(ImportError::Invalid(to_string(&chars_of("Expected BoxShape3D resource block")))),
        };
        let shape_id = match parse_resource_id(&shape_line, "[sub_resource type=\"BoxShape3D\" id=\"BoxShape3D_") {
            Ok(id) => id,
            Err(e) => return Err(e),
        };
        if shape_id != expected_id {
            let head = join3("Unexpected BoxShape3D resource id ", &decimal_chars(shape_id), "; expected ");
            let mut m = to_string(&head);
            crate::text::push_chars(&mut m, &decimal_chars(expected_id));
            return Err(ImportError::Unsupported(m));
        }
        let shape_size_line = match self.next_line() {
            Some(l) => l,
            None => return Err(ImportError::Invalid(to_string(&chars_of("Expected BoxShape3D size line")))),
        };
        let shape = match parse_vector_line(&mut self.checks, &shape_size_line, "size = Vector3(", 3, "three Vector3") {
            Ok(parts) => parts,
            Err(e) => {
                proof {
                    assert(start + (self.checks_view().subrange(start.len() as int, self.checks_view().len() as int)) =~= self.checks_view());
                }
                return Err(e);
            },
        };
        proof {
            lemma_views_len(mesh@);
            lemma_views_len(shape@);
            lemma_views_at(mesh@, 0);
            lemma_views_at(mesh@, 1);
            lemma_views_at(mesh@, 2);
        }
        let check = FloatCheck::SameSize {
            mesh: strings_of_all(&mesh),
            shape: strings_of_all(&shape),
        };
        let ghost before_check = self.checks_view();
        self.add_check(check);
        proof {
            let c1 = after_mesh.subrange(start.len() as int, after_mesh.len() as int);
            let c2 = before_check.subrange(after_mesh.len() as int, before_check.len() as int);
            assert(after_mesh =~= start + c1);
            assert(before_check =~= after_mesh + c2);
            assert(self.checks_view() =~= start + (c1 + c2 + seq![check@]));
            let ls = old(self).lines_view();
            let i = old(self).pos();
            let p1 = after_next(ls, i);
            let p2 = after_next(ls, p1);
            let p3 = after_next(ls, p2);
            let p4 = after_next(ls, p3);
            assert(self.pos() == p4);
            assert(c1 == vector_line(mesh_size_line@, "size = Vector3("@, 3, "three Vector3"@).0);
            assert(c2 == vector_line(shape_size_line@, "size = Vector3("@, 3, "three Vector3"@).0);
            assert(resource_pair_step(ls, i, expected_id).checks == c1 + c2 + seq![check@]);
        }
        Ok(ResourceRecord {
            width: to_string(&mesh[0]),
            height: to_string(&mesh[1]),
            depth: to_string(&mesh[2]),
        })
    }

    /// Read a `PlaneMesh` resource (the back plane of a segment) and its size.
    pub fn skip_plane_mesh_resource(&mut self) -> (r: Result<(), ImportError>)
        requires
            old(self).inv(),
        ensures
            SceneParser::follows(
                *old(self),
                *final(self),
                plane_step(old(self).lines_view(), old(self).pos()),
            ),
            agrees(r, plane_step(old(self).lines_view(), old(self).pos()).result),
    {
        proof {
            reveal(plane_step);
        }
        let mesh_line = match self.next_line() {
            Some(l) => l,
            None => return Err(ImportError::Invalid(to_string(&chars_of("Expected PlaneMesh resource block")))),
        };
        if !starts_with_str(&mesh_line, "[sub_resource type=\"PlaneMesh\" id=\"PlaneMesh_") {
            return Err(unsupported_error("Unsupported PlaneMesh resource block: ", &mesh_line));
        }
        let size_line = match self.next_line() {
            Some(l) => l,
            None => return Err(ImportError::Invalid(to_string(&chars_of("Expected PlaneMesh size line")))),
        };
        proof {
            reveal_strlit("size = Vector2(");
        }
        match parse_vector_line(&mut self.checks, &size_line, "size = Vector2(", 2, "two Vector2") {
            Ok(_) => Ok(()),
            Err(e) => Err(e),
        }
    }

    /// Read the root `Node3D` header and return the root's name.
    pub fn parse_root_node(&mut self) -> (r: Result<Vec<char>, ImportError>)
        requires
            old(self).inv(),
        ensures
            SceneParser::follows(
                *old(self),
                *final(self),
                root_step(old(self).lines_view(), old(self).pos()),
            ),
            match (r, root_step(old(self).lines_view(), old(self).pos()).result) {
                (Ok(a), Ok(b)) => a@ == b,
                (Err(e), Err(f)) => e@ == f,
                _ => false,
            },
    {
        proof {
            reveal(root_step);
        }
        let line = match self.next_line() {
            Some(l) => l,
            None => return Err(ImportError::Invalid(to_string(&chars_of("Expected root Node3D block")))),
        };
        crate::scene_lines::parse_node_line(&line, &chars_of("Node3D"), None)
    }

    /// Move past a node header and all its property lines.
    pub fn skip_node_block(&mut self)
        requires
            old(self).inv(),
        ensures
            final(self).lines_view() == old(self).lines_view(),
            final(self).checks_view() == old(self).checks_view(),
            final(self).inv(),
            final(self).pos() == skip_to_node(
                old(self).lines_view(),
                after_next(old(self).lines_view(), old(self).pos()),
            ),
    {
        let ghost ls = self.lines_view();
        self.next_line();
        let ghost first = self.pos();
        loop
            invariant
                self.inv(),
                self.lines_view() == ls,
                ls == old(self).lines_view(),
                self.checks_view() == old(self).checks_view(),
                first == after_next(ls, old(self).pos()),
                0 <= first <= ls.len(),
                skip_to_node(ls, self.pos()) == skip_to_node(ls, first),
            decreases ls.len() - self.pos(),
        {
            let ghost here = self.pos();
            proof {
                lemma_after_next(ls, here);
                lemma_skip_blank_bounds(ls, here);
                lemma_skip_blank_idem(ls, here);
            }
            match self.peek_line() {
                Some(line) => {
                    if starts_with_str(&line, "[node name=\"") {
                        return;
                    }
                    self.next_line();
                },
                None => {
                    return;
                },
            }
        }
    }
}

/// The strings holding all of `parts`.
fn strings_of_all(parts: &Vec<Vec<char>>) -> (r: Vec<String>)
    ensures
        crate::scene_lines::string_views(r@) == views(parts@),
{
    let mut r: Vec<String> = Vec::new();
    let mut i: usize = 0;
    proof {
        lemma_views_len(parts@);
    }
    while i < parts.len()
        invariant
            i <= parts@.len(),
            views(parts@).len() == parts@.len(),
            crate::scene_lines::string_views(r@) == views(parts@).take(i as int),
        decreases parts@.len() - i,
    {
        let s = to_string(&parts[i]);
        let ghost before = r@;
        r.push(s);
        proof {
            lemma_views_at(parts@, i as int);
            assert(crate::scene_lines::string_views(r@) =~= crate::scene_lines::string_views(before).push(s@));
            assert(views(parts@).take(i + 1) =~= views(parts@).take(i as int).push(parts@[i as int]@));
        }
        i = i + 1;
    }
    assert(views(parts@).take(i as int) =~= views(parts@));
    r
}

/// A wall segment as the scene stores it: the texts of its size (from its
/// resource) and of its offset.
pub struct RawSegment {
    pub width: String,
    pub height: String,
    pub offset_x: String,
    pub offset_y: String,
}

/// The model of a [`RawSegment`].
pub struct RawSegmentModel {
    pub width: Seq<char>,
    pub height: Seq<char>,
    pub offset_x: Seq<char>,
    pub offset_y: Seq<char>,
}

impl View for RawSegment {
    type V = RawSegmentModel;

    open spec fn view(&self) -> RawSegmentModel {
        RawSegmentModel {
            width: self.width@,
            height: self.height@,
            offset_x: self.offset_x@,
            offset_y: self.offset_y@,
        }
    }
}

/// What the reader of a segment's children is looking at.
pub enum ChildMode {
    /// The next child node header.
    Nodes,
    /// The property lines of a `MeshInstance3D`.
    MeshProperties,
    /// The property lines of a `CollisionShape3D`.
    ShapeProperties,
}

/// The rank of a mode in the termination order.
pub open spec fn mode_rank(mode: ChildMode) -> int {
    match mode {
        ChildMode::Nodes => 0,
        _ => 1,
    }
}

/// Reading the children of a segment (whose node path is `path`) from `i`
/// on, in `mode`, with the mesh and shape ids found so far; the children end
/// once both ids are known. Gives the position reached and both ids, or
/// the position where reading stopped and the failure.
#[verifier::opaque]
pub open spec fn segment_children(
    ls: Seq<Seq<char>>,
    i: int,
    path: Seq<char>,
    mode: ChildMode,
    mesh: Option<usize>,
    shape: Option<usize>,
) -> Result<(int, usize, usize), (int, Failure)>
    decreases ls.len() - i, mode_rank(mode),
{
    if i < 0 || i > ls.len() {
        Err((i, Failure::Invalid(seq![])))
    } else {
        proof {
            lemma_after_next(ls, i);
            lemma_skip_blank_bounds(ls, i);
        }
        match mode {
            ChildMode::Nodes => if mesh is Some && shape is Some {
                Ok((i, mesh->0, shape->0))
            } else {
                match peek_at(ls, i) {
                    None => Err((skip_blank(ls, i), Failure::Invalid("Unexpected end of segment"@))),
                    Some(line) => if has_prefix(line, crate::scene_lines::node_open())
                        && crate::text::has_infix(line, " type=\"MeshInstance3D\""@) {
                        match crate::scene_lines::node_line(line, "MeshInstance3D"@, Some(path)) {
                            Err(f) => Err((after_next(ls, i), f)),
                            Ok(_) => segment_children(
                                ls,
                                after_next(ls, i),
                                path,
                                ChildMode::MeshProperties,
                                mesh,
                                shape,
                            ),
                        }
                    } else if has_prefix(line, crate::scene_lines::node_open())
                        && crate::text::has_infix(line, " type=\"CollisionShape3D\""@) {
                        match crate::scene_lines::node_line(line, "CollisionShape3D"@, Some(path)) {
                            Err(f) => Err((after_next(ls, i), f)),
                            Ok(_) => segment_children(
                                ls,
                                after_next(ls, i),
                                path,
                                ChildMode::ShapeProperties,
                                mesh,
                                shape,
                            ),
                        }
                    } else {
                        Err((skip_blank(ls, i), invalid("Unexpected segment content: "@, line)))
                    },
                }
            },
            ChildMode::MeshProperties => match peek_at(ls, i) {
                Some(line) => if has_prefix(line, crate::scene_lines::node_open()) {
                    segment_children(ls, skip_blank(ls, i), path, ChildMode::Nodes, mesh, shape)
                } else if has_prefix(line, "mesh = SubResource(\"BoxMesh_"@) {
                    match crate::scene_lines::resource_reference(line, "mesh = SubResource(\"BoxMesh_"@) {
                        Err(f) => Err((after_next(ls, i), f)),
                        Ok(c) => match mesh {
                            Some(e) => if e != c {
                                Err(
                                    (
                                        after_next(ls, i),
                                        Failure::Unsupported(
                                            "Segment contains multiple MeshInstance3D nodes with different mesh ids"@,
                                        ),
                                    ),
                                )
                            } else {
                                segment_children(ls, after_next(ls, i), path, mode, mesh, shape)
                            },
                            None => segment_children(
                                ls,
                                after_next(ls, i),
                                path,
                                mode,
                                Some(c),
                                shape,
                            ),
                        },
                    }
                } else {
                    segment_children(ls, after_next(ls, i), path, mode, mesh, shape)
                },
                None => segment_children(ls, skip_blank(ls, i), path, ChildMode::Nodes, mesh, shape),
            },
            ChildMode::ShapeProperties => match peek_at(ls, i) {
                Some(line) => if has_prefix(line, crate::scene_lines::node_open()) {
                    segment_children(ls, skip_blank(ls, i), path, ChildMode::Nodes, mesh, shape)
                } else if has_prefix(line, "shape = SubResource(\"BoxShape3D_"@) {
                    match crate::scene_lines::resource_reference(
                        line,
                        "shape = SubResource(\"BoxShape3D_"@,
                    ) {
                        Err(f) => Err((after_next(ls, i), f)),
                        Ok(c) => match shape {
                            Some(e) => if e != c {
                                Err(
                                    (
                                        after_next(ls, i),
                                        Failure::Unsupported(
                                            "Segment contains multiple CollisionShape3D nodes with different shape ids"@,
                                        ),
                                    ),
                                )
                            } else {
                                segment_children(ls, after_next(ls, i), path, mode, mesh, shape)
                            },
                            None => segment_children(
                                ls,
                                after_next(ls, i),
                                path,
                                mode,
                                mesh,
                                Some(c),
                            ),
                        },
                    }
                } else {
                    segment_children(ls, after_next(ls, i), path, mode, mesh, shape)
                },
                None => segment_children(ls, skip_blank(ls, i), path, ChildMode::Nodes, mesh, shape),
            },
        }
    }
}

/// The node path of a segment named `name` under `parent`.
pub open spec fn segment_path(parent: Seq<char>, name: Seq<char>) -> Seq<char> {
    if parent == "."@ {
        name
    } else {
        parent + "/"@ + name
    }
}

/// What `parse_segment` does at `i`: a `StaticBody3D` node `Segment_{id}`
/// under `parent`, its transform (identity basis, flat Z), and a
/// `MeshInstance3D` and a `CollisionShape3D` child that refer to the
/// resources of the same id.
#[verifier::opaque]
pub open spec fn segment_step(
    ls: Seq<Seq<char>>,
    i: int,
    resources: Seq<ResourceModel>,
    parent: Seq<char>,
) -> Step<RawSegmentModel> {
    let p1 = after_next(ls, i);
    match peek_at(ls, i) {
        None => failed(seq![], p1, Failure::Invalid("Expected StaticBody3D segment block"@)),
        Some(line) => match crate::scene_lines::node_line(line, "StaticBody3D"@, Some(parent)) {
            Err(f) => failed(seq![], p1, f),
            Ok(name) => match crate::scene_lines::suffix_id(name, "Segment_"@) {
                Err(f) => failed(seq![], p1, f),
                Ok(id) => {
                    let p2 = after_next(ls, p1);
                    match peek_at(ls, p1) {
                        None => failed(seq![], p2, Failure::Invalid("Expected segment transform"@)),
                        Some(t) => {
                            let (c, offsets) = crate::scene_lines::transform_line(t);
                            match offsets {
                                Err(f) => failed(c, p2, f),
                                Ok(offsets) => {
                                    segment_end(
                                        segment_children(
                                            ls,
                                            p2,
                                            segment_path(parent, name),
                                            ChildMode::Nodes,
                                            None,
                                            None,
                                        ),
                                        c.push(CheckModel::FlatZ(offsets[2])),
                                        id,
                                        resources,
                                        offsets,
                                    )
                                },
                            }
                        },
                    }
                },
            },
        },
    }
}

/// The end of reading a segment once its children are read: both children
/// must refer to the segment's own id, and a resource of that id must exist.
pub open spec fn segment_end(
    children: Result<(int, usize, usize), (int, Failure)>,
    checks: Seq<CheckModel>,
    id: usize,
    resources: Seq<ResourceModel>,
    offsets: Seq<Seq<char>>,
) -> Step<RawSegmentModel> {
    match children {
        Err((pos, f)) => failed(checks, pos, f),
        Ok((pos, mesh_id, shape_id)) => if mesh_id != id || shape_id != id {
            failed(checks, pos, Failure::Unsupported("Segment node ids do not match their resources"@))
        } else if id >= resources.len() {
            failed(checks, pos, Failure::Invalid("Missing segment resource block"@))
        } else {
            Step {
                checks,
                pos,
                result: Ok(
                    RawSegmentModel {
                        width: resources[id as int].width,
                        height: resources[id as int].height,
                        offset_x: offsets[0],
                        offset_y: offsets[1],
                    },
                ),
            }
        },
    }
}

/// The views of a sequence of resources.
pub open spec fn resource_views(v: Seq<ResourceRecord>) -> Seq<ResourceModel> {
    v.map_values(|r: ResourceRecord| r@)
}

impl SceneParser {
    /// Read a segment: its `StaticBody3D` node under `expected_parent`, its
    /// transform and its mesh and collision children.
    pub fn parse_segment(&mut self, resources: &Vec<ResourceRecord>, expected_parent: &str) -> (r:
        Result<RawSegment, ImportError>)
        requires
            old(self).inv(),
        ensures
            SceneParser::follows(
                *old(self),
                *final(self),
                segment_step(
                    old(self).lines_view(),
                    old(self).pos(),
                    resource_views(resources@),
                    expected_parent@,
                ),
            ),
            match (
                r,
                segment_step(
                    old(self).lines_view(),
                    old(self).pos(),
                    resource_views(resources@),
                    expected_parent@,
                ).result,
            ) {
                (Ok(a), Ok(b)) => a@ == b,
                (Err(e), Err(f)) => e@ == f,
                _ => false,
            },
    {
        proof {
            reveal(segment_step);
            reveal(segment_children);
        }
        let ghost ls = self.lines_view();
        let ghost start = self.checks_view();
        let parent = chars_of(expected_parent);
        let segment_line = match self.next_line() {
            Some(l) => l,
            None => return Err(ImportError::Invalid(to_string(&chars_of("Expected StaticBody3D segment block")))),
        };
        let name = match crate::scene_lines::parse_node_line(&segment_line, &chars_of("StaticBody3D"), Some(&parent)) {
            Ok(n) => n,
            Err(e) => return Err(e),
        };
        let segment_id = match crate::scene_lines::parse_suffix_id(&name, "Segment_") {
            Ok(id) => id,
            Err(e) => return Err(e),
        };
        let path = if crate::text::equals_str(&parent, ".") {
            name.clone()
        } else {
            let mut p = join3("", &parent, "/");
            let mut k: usize = 0;
            let ghost head = p@;
            while k < name.len()
                invariant
                    k <= name@.len(),
                    p@ == head + name@.take(k as int),
                decreases name@.len() - k,
            {
                proof {
                    reveal(segment_step);
                    reveal(segment_children);
                }
                p.push(name[k]);
                assert(name@.take(k + 1) =~= name@.take(k as int).push(name@[k as int]));
                k = k + 1;
            }
            proof {
                reveal_strlit("");
                assert(name@.take(k as int) =~= name@);
                assert(p@ =~= parent@ + "/"@ + name@);
            }
            p
        };
        assert(path@ == segment_path(parent@, name@));
        let transform_line = match self.next_line() {
            Some(l) => l,
            None => return Err(ImportError::Invalid(to_string(&chars_of("Expected segment transform")))),
        };
        let p2 = self.index;
        let offsets = match crate::scene_lines::parse_transform(&mut self.checks, &transform_line) {
            Ok(o) => o,
            Err(e) => return Err(e),
        };
        proof {
            lemma_views_len(offsets@);
            lemma_views_at(offsets@, 0);
            lemma_views_at(offsets@, 1);
            lemma_views_at(offsets@, 2);
        }
        let ghost before_flat = self.checks_view();
        let flat = FloatCheck::FlatZ { token: to_string(&offsets[2]) };
        self.add_check(flat);
        let ghost checks_done = self.checks_view();
        let ghost total = segment_children(ls, p2 as int, path@, ChildMode::Nodes, None, None);
        let ghost cm = checks_done.subrange(start.len() as int, checks_done.len() as int);
        let ghost step = segment_step(ls, old(self).pos(), resource_views(resources@), expected_parent@);
        proof {
            let c = before_flat.subrange(start.len() as int, before_flat.len() as int);
            assert(before_flat =~= start + c);
            assert(cm =~= c.push(flat@));
            assert(checks_done =~= start + cm);
            let i0 = old(self).pos();
            let p1 = after_next(ls, i0);
            assert(peek_at(ls, i0) == Some(segment_line@));
            assert(crate::scene_lines::node_line(segment_line@, "StaticBody3D"@, Some(expected_parent@)) == Ok::<Seq<char>, Failure>(name@));
            assert(crate::scene_lines::suffix_id(name@, "Segment_"@) == Ok::<usize, Failure>(segment_id));
            assert(p2 == after_next(ls, p1));
            assert(peek_at(ls, p1) == Some(transform_line@));
            assert(crate::scene_lines::transform_line(transform_line@).1 == Ok::<Seq<Seq<char>>, Failure>(views(offsets@)));
            assert(crate::scene_lines::transform_line(transform_line@).0 == c);
            assert(step == segment_end(total, cm, segment_id, resource_views(resources@), views(offsets@)));
        }

        let mut mesh_id: Option<usize> = None;
        let mut shape_id: Option<usize> = None;
        while mesh_id.is_none() || shape_id.is_none()
            invariant
                self.inv(),
                self.lines_view() == ls,
                ls == old(self).lines_view(),
                self.checks_view() == checks_done,
                checks_done == start + cm,
                start == old(self).checks_view(),
                step == segment_step(ls, old(self).pos(), resource_views(resources@), expected_parent@),
                step == segment_end(total, cm, segment_id, resource_views(resources@), views(offsets@)),
                segment_children(ls, self.pos(), path@, ChildMode::Nodes, mesh_id, shape_id)
                    == total,
            decreases ls.len() - self.pos(),
        {
            proof {
                reveal(segment_step);
                reveal(segment_children);
            }
            let ghost here = self.pos();
            proof {
                lemma_after_next(ls, here);
                lemma_skip_blank_bounds(ls, here);
                lemma_skip_blank_idem(ls, here);
            }
            let line = match self.peek_line() {
                Some(l) => l,
                None => return Err(ImportError::Invalid(to_string(&chars_of("Unexpected end of segment")))),
            };
            let is_node = starts_with_str(&line, "[node name=\"");
            if is_node && crate::text::contains_str(&line, " type=\"MeshInstance3D\"") {
                self.next_line();
                match crate::scene_lines::parse_node_line(&line, &chars_of("MeshInstance3D"), Some(&path)) {
                    Ok(_) => {},
                    Err(e) => return Err(e),
                }
                let mut reading = true;
                while reading
                    invariant
                        self.inv(),
                        self.lines_view() == ls,
                        self.checks_view() == checks_done,
                        checks_done == start + cm,
                        start == old(self).checks_view(),
                        ls == old(self).lines_view(),
                        step == segment_step(ls, old(self).pos(), resource_views(resources@), expected_parent@),
                        step == segment_end(total, cm, segment_id, resource_views(resources@), views(offsets@)),
                        reading ==> segment_children(
                            ls,
                            self.pos(),
                            path@,
                            ChildMode::MeshProperties,
                            mesh_id,
                            shape_id,
                        ) == total,
                        !reading ==> segment_children(
                            ls,
                            self.pos(),
                            path@,
                            ChildMode::Nodes,
                            mesh_id,
                            shape_id,
                        ) == total,
                        !reading ==> self.pos() > here,
                        reading ==> self.pos() > here,
                    decreases ls.len() - self.pos(), (if reading { 1int } else { 0int }),
                {
                    proof {
                        reveal(segment_step);
                        reveal(segment_children);
                    }
                    let ghost at = self.pos();
                    proof {
                        lemma_after_next(ls, at);
                        lemma_skip_blank_bounds(ls, at);
                        lemma_skip_blank_idem(ls, at);
                    }
                    match self.peek_line() {
                        Some(next) => {
                            if starts_with_str(&next, "[node name=\"") {
                                reading = false;
                            } else {
                                self.next_line();
                                if starts_with_str(&next, "mesh = SubResource(\"BoxMesh_") {
                                    let candidate = match crate::scene_lines::parse_resource_reference(&next, "mesh = SubResource(\"BoxMesh_") {
                                        Ok(c) => c,
                                        Err(e) => return Err(e),
                                    };
                                    match mesh_id {
                                        Some(existing) => {
                                            if existing != candidate {
                                                return Err(ImportError::Unsupported(to_string(&chars_of("Segment contains multiple MeshInstance3D nodes with different mesh ids"))));
                                            }
                                        },
                                        None => {
                                            mesh_id = Some(candidate);
                                        },
                                    }
                                }
                            }
                        },
                        None => {
                            reading = false;
                        },
                    }
                }
            } else if is_node && crate::text::contains_str(&line, " type=\"CollisionShape3D\"") {
                self.next_line();
                match crate::scene_lines::parse_node_line(&line, &chars_of("CollisionShape3D"), Some(&path)) {
                    Ok(_) => {},
                    Err(e) => return Err(e),
                }
                let mut reading = true;
                while reading
                    invariant
                        self.inv(),
                        self.lines_view() == ls,
                        self.checks_view() == checks_done,
                        checks_done == start + cm,
                        start == old(self).checks_view(),
                        ls == old(self).lines_view(),
                        step == segment_step(ls, old(self).pos(), resource_views(resources@), expected_parent@),
                        step == segment_end(total, cm, segment_id, resource_views(resources@), views(offsets@)),
                        reading ==> segment_children(
                            ls,
                            self.pos(),
                            path@,
                            ChildMode::ShapeProperties,
                            mesh_id,
                            shape_id,
                        ) == total,
                        !reading ==> segment_children(
                            ls,
                            self.pos(),
                            path@,
                            ChildMode::Nodes,
                            mesh_id,
                            shape_id,
                        ) == total,
                        self.pos() > here,
                    decreases ls.len() - self.pos(), (if reading { 1int } else { 0int }),
                {
                    proof {
                        reveal(segment_step);
                        reveal(segment_children);
                    }
                    let ghost at = self.pos();
                    proof {
                        lemma_after_next(ls, at);
                        lemma_skip_blank_bounds(ls, at);
                        lemma_skip_blank_idem(ls, at);
                    }
                    match self.peek_line() {
                        Some(next) => {
                            if starts_with_str(&next, "[node name=\"") {
                                reading = false;
                            } else {
                                self.next_line();
                                if starts_with_str(&next, "shape = SubResource(\"BoxShape3D_") {
                                    let candidate = match crate::scene_lines::parse_resource_reference(&next, "shape = SubResource(\"BoxShape3D_") {
                                        Ok(c) => c,
                                        Err(e) => return Err(e),
                                    };
                                    match shape_id {
                                        Some(existing) => {
                                            if existing != candidate {
                                                return Err(ImportError::Unsupported(to_string(&chars_of("Segment contains multiple CollisionShape3D nodes with different shape ids"))));
                                            }
                                        },
                                        None => {
                                            shape_id = Some(candidate);
                                        },
                                    }
                                }
                            }
                        },
                        None => {
                            reading = false;
                        },
                    }
                }
            } else {
                return Err(invalid_error("Unexpected segment content: ", &line));
            }
        }
        let (mesh_id, shape_id) = match (mesh_id, shape_id) {
            (Some(m), Some(s)) => (m, s),
            _ => return Err(ImportError::Invalid(to_string(&chars_of("Missing mesh instance in segment")))),
        };
        if mesh_id != segment_id || shape_id != segment_id {
            return Err(ImportError::Unsupported(to_string(&chars_of("Segment node ids do not match their resources"))));
        }
        if segment_id >= resources.len() {
            return Err(ImportError::Invalid(to_string(&chars_of("Missing segment resource block"))));
        }
        let resource = &resources[segment_id];
        Ok(RawSegment {
            width: resource.width.clone(),
            height: resource.height.clone(),
            offset_x: to_string(&offsets[0]),
            offset_y: to_string(&offsets[1]),
        })
    }
}

pub proof fn lemma_children_pos(
    ls: Seq<Seq<char>>,
    i: int,
    path: Seq<char>,
    mode: ChildMode,
    mesh: Option<usize>,
    shape: Option<usize>,
)
    requires
        0 <= i <= ls.len(),
    ensures
        segment_children(ls, i, path, mode, mesh, shape) matches Ok((pos, _, _)) ==> i <= pos
            <= ls.len(),
    decreases ls.len() - i, mode_rank(mode),
{
    reveal(segment_children);
    lemma_after_next(ls, i);
    lemma_skip_blank_bounds(ls, i);
    let next = after_next(ls, i);
    let skipped = skip_blank(ls, i);
    match mode {
        ChildMode::Nodes => {
            if !(mesh is Some && shape is Some) {
                if peek_at(ls, i) is Some {
                    lemma_children_pos(ls, next, path, ChildMode::MeshProperties, mesh, shape);
                    lemma_children_pos(ls, next, path, ChildMode::ShapeProperties, mesh, shape);
                }
            }
        },
        ChildMode::MeshProperties => {
            lemma_children_pos(ls, skipped, path, ChildMode::Nodes, mesh, shape);
            if peek_at(ls, i) is Some {
                lemma_children_pos(ls, next, path, mode, mesh, shape);
                let line = peek_at(ls, i)->0;
                if let Ok(c) = crate::scene_lines::resource_reference(line, "mesh = SubResource(\"BoxMesh_"@) {
                    lemma_children_pos(ls, next, path, mode, Some(c), shape);
                }
            }
        },
        ChildMode::ShapeProperties => {
            lemma_children_pos(ls, skipped, path, ChildMode::Nodes, mesh, shape);
            if peek_at(ls, i) is Some {
                lemma_children_pos(ls, next, path, mode, mesh, shape);
                let line = peek_at(ls, i)->0;
                if let Ok(c) = crate::scene_lines::resource_reference(line, "shape = SubResource(\"BoxShape3D_"@) {
                    lemma_children_pos(ls, next, path, mode, mesh, Some(c));
                }
            }
        },
    }
}

/// A resource pair, a plane resource and a segment each take at least one
/// line when they are read.
pub proof fn lemma_steps_advance(ls: Seq<Seq<char>>, i: int, id: usize, resources: Seq<ResourceModel>, parent: Seq<char>)
    requires
        0 <= i <= ls.len(),
    ensures
        resource_pair_step(ls, i, id).result is Ok ==> i < resource_pair_step(ls, i, id).pos <= ls.len(),
        plane_step(ls, i).result is Ok ==> i < plane_step(ls, i).pos <= ls.len(),
        root_step(ls, i).result is Ok ==> i < root_step(ls, i).pos <= ls.len(),
        segment_step(ls, i, resources, parent).result is Ok ==> i < segment_step(ls, i, resources, parent).pos <= ls.len(),
{
    reveal(resource_pair_step);
    reveal(plane_step);
    reveal(root_step);
    reveal(segment_step);
    lemma_after_next(ls, i);
    let p1 = after_next(ls, i);
    lemma_after_next(ls, p1);
    let p2 = after_next(ls, p1);
    lemma_after_next(ls, p2);
    let p3 = after_next(ls, p2);
    lemma_after_next(ls, p3);
    if let Some(line) = peek_at(ls, i) {
        if let Ok(name) = crate::scene_lines::node_line(line, "StaticBody3D"@, Some(parent)) {
            lemma_children_pos(ls, p2, segment_path(parent, name), ChildMode::Nodes, None, None);
        }
    }
}

/// Blank lines before a block do not change how it is read.
pub proof fn lemma_steps_skip_blank(
    ls: Seq<Seq<char>>,
    i: int,
    id: usize,
    resources: Seq<ResourceModel>,
    parent: Seq<char>,
)
    requires
        0 <= i <= ls.len(),
    ensures
        resource_pair_step(ls, skip_blank(ls, i), id) == resource_pair_step(ls, i, id),
        plane_step(ls, skip_blank(ls, i)) == plane_step(ls, i),
        root_step(ls, skip_blank(ls, i)) == root_step(ls, i),
        segment_step(ls, skip_blank(ls, i), resources, parent) == segment_step(ls, i, resources, parent),
{
    reveal(resource_pair_step);
    reveal(plane_step);
    reveal(root_step);
    reveal(segment_step);
    lemma_skip_blank_idem(ls, i);
}

/// Reading the resources before the root node, from `i` on, with `checks`
/// met and `resources` read before; gives the resources and the root name.
pub open spec fn header_step(
    ls: Seq<Seq<char>>,
    i: int,
    checks: Seq<CheckModel>,
    resources: Seq<ResourceModel>,
) -> Step<(Seq<ResourceModel>, Seq<char>)>
    decreases ls.len() - i,
{
    if i < 0 || i > ls.len() {
        failed(checks, i, Failure::Invalid(seq![]))
    } else {
        match peek_at(ls, i) {
            None => failed(
                checks,
                after_next(ls, i),
                Failure::Invalid("Missing root Node3D in imported scene"@),
            ),
            Some(line) => if has_prefix(line, "[sub_resource type=\"BoxMesh\" id=\"BoxMesh_"@) {
                let st = resource_pair_step(ls, i, resources.len() as usize);
                match st.result {
                    Err(f) => failed(checks + st.checks, st.pos, f),
                    Ok(r) => {
                        proof {
                            lemma_steps_advance(ls, i, resources.len() as usize, resources, seq![]);
                        }
                        header_step(ls, st.pos, checks + st.checks, resources.push(r))
                    },
                }
            } else if has_prefix(line, "[sub_resource type=\"PlaneMesh\" id=\"PlaneMesh_"@) {
                let st = plane_step(ls, i);
                match st.result {
                    Err(f) => failed(checks + st.checks, st.pos, f),
                    Ok(_) => {
                        proof {
                            lemma_steps_advance(ls, i, 0, resources, seq![]);
                        }
                        header_step(ls, st.pos, checks + st.checks, resources)
                    },
                }
            } else if has_prefix(line, crate::scene_lines::node_open()) && crate::text::has_infix(
                line,
                " type=\"Node3D\"]"@,
            ) {
                let st = root_step(ls, i);
                match st.result {
                    Err(f) => failed(checks + st.checks, st.pos, f),
                    Ok(name) => Step {
                        checks: checks + st.checks,
                        pos: st.pos,
                        result: Ok((resources, name)),
                    },
                }
            } else if has_prefix(line, ";"@) {
                failed(checks, i, unsupported("Unsupported scene comment: "@, line))
            } else {
                failed(checks, i, unsupported("Unsupported scene content: "@, line))
            },
        }
    }
}

/// What the reader of the node tree is looking at.
pub enum BodyMode {
    /// The next top-level node.
    Nodes,
    /// The segments under `BoxMeshes`.
    BoxMeshes,
    /// The nodes under `BackPlanes`.
    BackPlanes,
}

/// The rank of a mode in the termination order.
pub open spec fn body_rank(mode: BodyMode) -> int {
    match mode {
        BodyMode::Nodes => 0,
        _ => 1,
    }
}

/// The header of the `BoxMeshes` container.
pub open spec fn is_box_meshes_header(line: Seq<char>) -> bool {
    has_prefix(line, "[node name=\"BoxMeshes\" type=\"Node3D\""@) && crate::text::has_infix(
        line,
        " parent=\".\"]"@,
    )
}

/// The header of the `BackPlanes` container.
pub open spec fn is_back_planes_header(line: Seq<char>) -> bool {
    has_prefix(line, "[node name=\"BackPlanes\" type=\"Node3D\""@) && crate::text::has_infix(
        line,
        " parent=\".\"]"@,
    )
}

/// The header of a segment under `parent_fragment` (`" parent=\".\"]"` or
/// `" parent=\"BoxMeshes\"]"`).
pub open spec fn is_segment_header(line: Seq<char>, parent_fragment: Seq<char>) -> bool {
    &&& has_prefix(line, "[node name=\"Segment_"@)
    &&& crate::text::has_infix(line, " type=\"StaticBody3D\""@)
    &&& crate::text::has_infix(line, parent_fragment)
}

/// A node under `BackPlanes`.
pub open spec fn is_back_plane_node(line: Seq<char>) -> bool {
    has_prefix(line, crate::scene_lines::node_open()) && crate::text::has_infix(
        line,
        " parent=\"BackPlanes\"]"@,
    )
}

/// Reading the node tree after the root node, from `i` on in `mode`, with
/// `checks` met and `segments` read before; gives the segments and whether
/// a `BackPlanes` container was seen.
pub open spec fn body_step(
    ls: Seq<Seq<char>>,
    i: int,
    mode: BodyMode,
    checks: Seq<CheckModel>,
    resources: Seq<ResourceModel>,
    segments: Seq<RawSegmentModel>,
    has_backplanes: bool,
) -> Step<(Seq<RawSegmentModel>, bool)>
    decreases ls.len() - i, body_rank(mode),
{
    if i < 0 || i > ls.len() {
        failed(checks, i, Failure::Invalid(seq![]))
    } else {
        proof {
            lemma_after_next(ls, i);
            lemma_skip_blank_bounds(ls, i);
            lemma_steps_advance(ls, i, 0, resources, "."@);
            lemma_steps_advance(ls, i, 0, resources, "BoxMeshes"@);
            if i < after_next(ls, i) {
                lemma_skip_to_node_bounds(ls, after_next(ls, i));
            }
        }
        match mode {
            BodyMode::Nodes => match peek_at(ls, i) {
                None => Step { checks, pos: skip_blank(ls, i), result: Ok((segments, has_backplanes)) },
                Some(line) => if is_box_meshes_header(line) {
                    body_step(
                        ls,
                        after_next(ls, i),
                        BodyMode::BoxMeshes,
                        checks,
                        resources,
                        segments,
                        has_backplanes,
                    )
                } else if is_back_planes_header(line) {
                    body_step(
                        ls,
                        after_next(ls, i),
                        BodyMode::BackPlanes,
                        checks,
                        resources,
                        segments,
                        true,
                    )
                } else if is_segment_header(line, " parent=\".\"]"@) {
                    let st = segment_step(ls, i, resources, "."@);
                    match st.result {
                        Err(f) => failed(checks + st.checks, st.pos, f),
                        Ok(seg) => body_step(
                            ls,
                            st.pos,
                            BodyMode::Nodes,
                            checks + st.checks,
                            resources,
                            segments.push(seg),
                            has_backplanes,
                        ),
                    }
                } else {
                    failed(checks, i, unsupported("Unsupported scene content: "@, line))
                },
            },
            BodyMode::BoxMeshes => match peek_at(ls, i) {
                Some(line) => if is_segment_header(line, " parent=\"BoxMeshes\"]"@) {
                    let st = segment_step(ls, i, resources, "BoxMeshes"@);
                    match st.result {
                        Err(f) => failed(checks + st.checks, st.pos, f),
                        Ok(seg) => body_step(
                            ls,
                            st.pos,
                            BodyMode::BoxMeshes,
                            checks + st.checks,
                            resources,
                            segments.push(seg),
                            has_backplanes,
                        ),
                    }
                } else {
                    body_step(ls, skip_blank(ls, i), BodyMode::Nodes, checks, resources, segments, has_backplanes)
                },
                None => body_step(ls, skip_blank(ls, i), BodyMode::Nodes, checks, resources, segments, has_backplanes),
            },
            BodyMode::BackPlanes => match peek_at(ls, i) {
                Some(line) => if is_back_plane_node(line) {
                    body_step(
                        ls,
                        skip_to_node(ls, after_next(ls, i)),
                        BodyMode::BackPlanes,
                        checks,
                        resources,
                        segments,
                        has_backplanes,
                    )
                } else {
                    body_step(ls, skip_blank(ls, i), BodyMode::Nodes, checks, resources, segments, has_backplanes)
                },
                None => body_step(ls, skip_blank(ls, i), BodyMode::Nodes, checks, resources, segments, has_backplanes),
            },
        }
    }
}

/// Reading the node tree never stops early: whenever it succeeds, from any
/// line and in any mode, it has consumed every line of the file.
pub proof fn lemma_body_reads_to_end(
    ls: Seq<Seq<char>>,
    i: int,
    mode: BodyMode,
    checks: Seq<CheckModel>,
    resources: Seq<ResourceModel>,
    segments: Seq<RawSegmentModel>,
    has_backplanes: bool,
)
    ensures
        body_step(ls, i, mode, checks, resources, segments, has_backplanes).result is Ok
            ==> body_step(ls, i, mode, checks, resources, segments, has_backplanes).pos
            == ls.len(),
    decreases ls.len() - i, body_rank(mode),
{
    if 0 <= i <= ls.len() {
        lemma_after_next(ls, i);
        lemma_skip_blank_bounds(ls, i);
        lemma_steps_advance(ls, i, 0, resources, "."@);
        lemma_steps_advance(ls, i, 0, resources, "BoxMeshes"@);
        if i < after_next(ls, i) {
            lemma_skip_to_node_bounds(ls, after_next(ls, i));
        }
        match mode {
            BodyMode::Nodes => match peek_at(ls, i) {
                None => {},
                Some(line) => if is_box_meshes_header(line) {
                    lemma_body_reads_to_end(
                        ls,
                        after_next(ls, i),
                        BodyMode::BoxMeshes,
                        checks,
                        resources,
                        segments,
                        has_backplanes,
                    );
                } else if is_back_planes_header(line) {
                    lemma_body_reads_to_end(
                        ls,
                        after_next(ls, i),
                        BodyMode::BackPlanes,
                        checks,
                        resources,
                        segments,
                        true,
                    );
                } else if is_segment_header(line, " parent=\".\"]"@) {
                    let st = segment_step(ls, i, resources, "."@);
                    if let Ok(seg) = st.result {
                        lemma_body_reads_to_end(
                            ls,
                            st.pos,
                            BodyMode::Nodes,
                            checks + st.checks,
                            resources,
                            segments.push(seg),
                            has_backplanes,
                        );
                    }
                },
            },
            BodyMode::BoxMeshes => match peek_at(ls, i) {
                Some(line) => if is_segment_header(line, " parent=\"BoxMeshes\"]"@) {
                    let st = segment_step(ls, i, resources, "BoxMeshes"@);
                    if let Ok(seg) = st.result {
                        lemma_body_reads_to_end(
                            ls,
                            st.pos,
                            BodyMode::BoxMeshes,
                            checks + st.checks,
                            resources,
                            segments.push(seg),
                            has_backplanes,
                        );
                    }
                } else {
                    lemma_body_reads_to_end(
                        ls,
                        skip_blank(ls, i),
                        BodyMode::Nodes,
                        checks,
                        resources,
                        segments,
                        has_backplanes,
                    );
                },
                None => {
                    lemma_body_reads_to_end(
                        ls,
                        skip_blank(ls, i),
                        BodyMode::Nodes,
                        checks,
                        resources,
                        segments,
                        has_backplanes,
                    );
                },
            },
            BodyMode::BackPlanes => match peek_at(ls, i) {
                Some(line) => if is_back_plane_node(line) {
                    lemma_body_reads_to_end(
                        ls,
                        skip_to_node(ls, after_next(ls, i)),
                        BodyMode::BackPlanes,
                        checks,
                        resources,
                        segments,
                        has_backplanes,
                    );
                } else {
                    lemma_body_reads_to_end(
                        ls,
                        skip_blank(ls, i),
                        BodyMode::Nodes,
                        checks,
                        resources,
                        segments,
                        has_backplanes,
                    );
                },
                None => {
                    lemma_body_reads_to_end(
                        ls,
                        skip_blank(ls, i),
                        BodyMode::Nodes,
                        checks,
                        resources,
                        segments,
                        has_backplanes,
                    );
                },
            },
        }
    }
}

/// Everything an imported scene holds, with the floats still as text.
pub struct SceneOutline {
    pub metadata: Option<Metadata>,
    pub resources: Vec<ResourceRecord>,
    pub root_name: String,
    pub segments: Vec<RawSegment>,
    pub has_backplanes: bool,
}

/// The model of a [`SceneOutline`].
pub struct OutlineModel {
    pub metadata: Option<MetadataModel>,
    pub resources: Seq<ResourceModel>,
    pub root_name: Seq<char>,
    pub segments: Seq<RawSegmentModel>,
    pub has_backplanes: bool,
}

/// The views of a sequence of raw segments.
pub open spec fn segment_views(v: Seq<RawSegment>) -> Seq<RawSegmentModel> {
    v.map_values(|r: RawSegment| r@)
}

impl View for SceneOutline {
    type V = OutlineModel;

    open spec fn view(&self) -> OutlineModel {
        OutlineModel {
            metadata: match self.metadata {
                Some(m) => Some(m@),
                None => None,
            },
            resources: resource_views(self.resources@),
            root_name: self.root_name@,
            segments: segment_views(self.segments@),
            has_backplanes: self.has_backplanes,
        }
    }
}

/// The first line of a scene that this tool exported.
pub open spec fn export_marker() -> Seq<char> {
    "; generated-by=grid-wall-builder-for-godot"@
}

/// Reading a scene from its `[gd_scene format=3]` line at `i` on, with
/// `checks` met and `metadata` read before.
pub open spec fn scene_from_header(
    ls: Seq<Seq<char>>,
    i: int,
    checks: Seq<CheckModel>,
    metadata: Option<MetadataModel>,
) -> (Seq<CheckModel>, Result<OutlineModel, Failure>) {
    let e = exact_step(ls, i, "[gd_scene format=3]"@);
    match e.result {
        Err(f) => (checks, Err(f)),
        Ok(_) => {
            let h = header_step(ls, e.pos, checks, seq![]);
            match h.result {
                Err(f) => (h.checks, Err(f)),
                Ok((resources, root_name)) => {
                    let b = body_step(ls, h.pos, BodyMode::Nodes, h.checks, resources, seq![], false);
                    match b.result {
                        Err(f) => (b.checks, Err(f)),
                        Ok((segments, has_backplanes)) => (
                            b.checks,
                            Ok(
                                OutlineModel {
                                    metadata,
                                    resources,
                                    root_name,
                                    segments,
                                    has_backplanes,
                                },
                            ),
                        ),
                    }
                },
            }
        },
    }
}

/// Reading the scene `text`: the float checks met, in order, and the
/// scene's outline or the first failure that does not depend on a float.
/// The scene imports when every check holds and the outline was read; the
/// first check that fails gives the error otherwise, before the failure.
pub open spec fn scene_outline(text: Seq<char>) -> (Seq<CheckModel>, Result<OutlineModel, Failure>) {
    let ls = lines(text);
    if peek_at(ls, 0) == Some(export_marker()) {
        let m = metadata_step(ls, after_next(ls, 0));
        match m.result {
            Err(f) => (m.checks, Err(f)),
            Ok(meta) => scene_from_header(ls, m.pos, m.checks, Some(meta)),
        }
    } else {
        scene_from_header(ls, 0, seq![], None)
    }
}

/// A scene read up to its floats.
pub struct ParsedScene {
    /// The float checks met while reading, in order.
    pub checks: Vec<FloatCheck>,
    /// The outline, or the first failure that no float decides.
    pub outline: Result<SceneOutline, ImportError>,
}

/// Read the scene `text` up to its floats: its structure, its integers and
/// names, the texts of its floats and the checks those must pass.
pub fn parse_scene(text: &str) -> (parsed: ParsedScene)
    ensures
        check_views(parsed.checks@) == scene_outline(text@).0,
        match (parsed.outline, scene_outline(text@).1) {
            (Ok(a), Ok(b)) => a@ == b,
            (Err(e), Err(f)) => e@ == f,
            _ => false,
        },
{
    let mut parser = SceneParser::new(text);
    let outline = read_outline(&mut parser);
    ParsedScene { checks: parser.take_checks(), outline }
}

/// Read a whole scene with a parser that starts at its first line.
fn read_outline(parser: &mut SceneParser) -> (r: Result<SceneOutline, ImportError>)
    requires
        old(parser).inv(),
        old(parser).pos() == 0,
        old(parser).checks_view() == Seq::<CheckModel>::empty(),
    ensures
        final(parser).checks_view() == scene_outline_of(old(parser).lines_view()).0,
        match (r, scene_outline_of(old(parser).lines_view()).1) {
            (Ok(a), Ok(b)) => a@ == b,
            (Err(e), Err(f)) => e@ == f,
            _ => false,
        },
{
    let ghost ls = parser.lines_view();
    let metadata = match parser.peek_line() {
        Some(line) if crate::text::equals_str(&line, "; generated-by=grid-wall-builder-for-godot") => {
            parser.next_line();
            proof {
                lemma_skip_blank_idem(ls, 0);
            }
            match parser.expect_metadata() {
                Ok(m) => Some(m),
                Err(e) => return Err(e),
            }
        },
        _ => {
            proof {
                lemma_skip_blank_bounds(ls, 0);
                lemma_skip_blank_idem(ls, 0);
                assert(exact_step(ls, skip_blank(ls, 0), "[gd_scene format=3]"@) == exact_step(
                    ls,
                    0,
                    "[gd_scene format=3]"@,
                ));
            }
            None
        },
    };
    proof {
        assert(Seq::<CheckModel>::empty() + parser.checks_view() =~= parser.checks_view());
    }
    let ghost after_meta = parser.checks_view();
    let ghost meta_model = match &metadata {
        Some(m) => Some(m@),
        None => None::<MetadataModel>,
    };
    let ghost header_pos = parser.pos();
    proof {
        lemma_skip_blank_bounds(ls, 0);
        assert(scene_outline_of(ls) == scene_from_header(ls, header_pos, after_meta, meta_model));
    }
    match parser.expect_exact("[gd_scene format=3]") {
        Ok(()) => {},
        Err(e) => {
            assert(after_meta + Seq::<CheckModel>::empty() =~= after_meta);
            return Err(e);
        },
    }
    assert(after_meta + Seq::<CheckModel>::empty() =~= after_meta);

    let ghost header_pos2 = parser.pos();
    let ghost checks2 = parser.checks_view();
    let (resources, root_name) = match read_resources(parser) {
        Ok(x) => x,
        Err(e) => return Err(e),
    };
    let (segments, has_backplanes) = match read_nodes(parser, &resources) {
        Ok(x) => x,
        Err(e) => return Err(e),
    };
    Ok(SceneOutline { metadata, resources, root_name, segments, has_backplanes })
}

/// Read the resources up to and including the root node header.
fn read_resources(parser: &mut SceneParser) -> (r: Result<(Vec<ResourceRecord>, String), ImportError>)
    requires
        old(parser).inv(),
    ensures
        final(parser).inv(),
        final(parser).lines_view() == old(parser).lines_view(),
        final(parser).checks_view() == header_step(old(parser).lines_view(), old(parser).pos(), old(parser).checks_view(), seq![]).checks,
        match (r, header_step(old(parser).lines_view(), old(parser).pos(), old(parser).checks_view(), seq![]).result) {
            (Ok((res, name)), Ok((res_model, name_model))) => resource_views(res@) == res_model && name@ == name_model
                && final(parser).pos() == header_step(old(parser).lines_view(), old(parser).pos(), old(parser).checks_view(), seq![]).pos,
            (Err(e), Err(f)) => e@ == f,
            _ => false,
        },
{
    let ghost ls = parser.lines_view();
    let ghost header_total = header_step(ls, parser.pos(), parser.checks_view(), seq![]);
    let mut resources: Vec<ResourceRecord> = Vec::new();
    let mut root_name = String::new();
    assert(resource_views(resources@) =~= Seq::<ResourceModel>::empty());
    loop
        invariant_except_break
            parser.inv(),
            parser.lines_view() == ls,
            ls == old(parser).lines_view(),
            header_total == header_step(old(parser).lines_view(), old(parser).pos(), old(parser).checks_view(), seq![]),
            header_step(ls, parser.pos(), parser.checks_view(), resource_views(resources@)) == header_total,
        ensures
            parser.inv(),
            parser.lines_view() == ls,
            header_total.result is Ok,
            header_total.result->Ok_0 == (resource_views(resources@), root_name@),
            parser.pos() == header_total.pos,
            parser.checks_view() == header_total.checks,
        decreases ls.len() - parser.pos(),
    {
        let ghost here = parser.pos();
        let ghost here_checks = parser.checks_view();
        let count = resources.len();
        proof {
            lemma_after_next(ls, here);
            lemma_skip_blank_bounds(ls, here);
            lemma_skip_blank_idem(ls, here);
            assert(resource_views(resources@).len() == count);
            lemma_steps_advance(ls, here, count, resource_views(resources@), seq![]);
            lemma_steps_skip_blank(ls, here, count, resource_views(resources@), seq![]);
            lemma_steps_advance(ls, here, 0, resource_views(resources@), seq![]);
        }
        match parser.peek_line() {
            Some(line) => {
                if starts_with_str(&line, "[sub_resource type=\"BoxMesh\" id=\"BoxMesh_") {
                    let record = match parser.parse_resource_pair(resources.len()) {
                        Ok(r) => r,
                        Err(e) => return Err(e),
                    };
                    let ghost before = resources@;
                    resources.push(record);
                    proof {
                        assert(resource_views(resources@) =~= resource_views(before).push(record@));
                    }
                } else if starts_with_str(&line, "[sub_resource type=\"PlaneMesh\" id=\"PlaneMesh_") {
                    match parser.skip_plane_mesh_resource() {
                        Ok(()) => {},
                        Err(e) => return Err(e),
                    }
                } else if starts_with_str(&line, "[node name=\"") && crate::text::contains_str(&line, " type=\"Node3D\"]") {
                    match parser.parse_root_node() {
                        Ok(name) => {
                            root_name = to_string(&name);
                            break;
                        },
                        Err(e) => return Err(e),
                    }
                } else if starts_with_str(&line, ";") {
                    return Err(unsupported_error("Unsupported scene comment: ", &line));
                } else {
                    return Err(unsupported_error("Unsupported scene content: ", &line));
                }
            },
            None => {
                return Err(ImportError::Invalid(to_string(&chars_of("Missing root Node3D in imported scene"))));
            },
        }
    }

    Ok((resources, root_name))
}

/// Read the node tree after the root node header.
fn read_nodes(parser: &mut SceneParser, resources: &Vec<ResourceRecord>) -> (r: Result<(Vec<RawSegment>, bool), ImportError>)
    requires
        old(parser).inv(),
    ensures
        final(parser).checks_view() == body_step(old(parser).lines_view(), old(parser).pos(), BodyMode::Nodes, old(parser).checks_view(), resource_views(resources@), seq![], false).checks,
        match (r, body_step(old(parser).lines_view(), old(parser).pos(), BodyMode::Nodes, old(parser).checks_view(), resource_views(resources@), seq![], false).result) {
            (Ok((segs, bp)), Ok((segs_model, bp_model))) => segment_views(segs@) == segs_model && bp == bp_model,
            (Err(e), Err(f)) => e@ == f,
            _ => false,
        },
{
    let ghost ls = parser.lines_view();
    let ghost body_total = body_step(
        ls,
        parser.pos(),
        BodyMode::Nodes,
        parser.checks_view(),
        resource_views(resources@),
        seq![],
        false,
    );
    let mut segments: Vec<RawSegment> = Vec::new();
    let mut has_backplanes = false;
    proof {
        assert(segment_views(segments@) =~= Seq::<RawSegmentModel>::empty());
    }
    loop
        invariant_except_break
            parser.inv(),
            parser.lines_view() == ls,
            ls == old(parser).lines_view(),
            body_total == body_step(old(parser).lines_view(), old(parser).pos(), BodyMode::Nodes, old(parser).checks_view(), resource_views(resources@), seq![], false),
            body_step(
                ls,
                parser.pos(),
                BodyMode::Nodes,
                parser.checks_view(),
                resource_views(resources@),
                segment_views(segments@),
                has_backplanes,
            ) == body_total,
        ensures
            body_total.result is Ok,
            body_total.result->Ok_0 == (segment_views(segments@), has_backplanes),
            parser.checks_view() == body_total.checks,
        decreases ls.len() - parser.pos(),
    {
        let ghost here = parser.pos();
        proof {
            lemma_after_next(ls, here);
            lemma_skip_blank_bounds(ls, here);
            lemma_skip_blank_idem(ls, here);
            lemma_steps_advance(ls, here, 0, resource_views(resources@), "."@);
            lemma_steps_skip_blank(ls, here, 0, resource_views(resources@), "."@);
        }
        let line = match parser.peek_line() {
            Some(l) => l,
            None => break,
        };
        if starts_with_str(&line, "[node name=\"BoxMeshes\" type=\"Node3D\"") && crate::text::contains_str(&line, " parent=\".\"]") {
            parser.next_line();
            let mut reading = true;
            while reading
                invariant
                    parser.inv(),
                    parser.lines_view() == ls,
                    ls == old(parser).lines_view(),
                    body_total == body_step(old(parser).lines_view(), old(parser).pos(), BodyMode::Nodes, old(parser).checks_view(), resource_views(resources@), seq![], false),
                    parser.pos() > here,
                    reading ==> body_step(
                        ls,
                        parser.pos(),
                        BodyMode::BoxMeshes,
                        parser.checks_view(),
                        resource_views(resources@),
                        segment_views(segments@),
                        has_backplanes,
                    ) == body_total,
                    !reading ==> body_step(
                        ls,
                        parser.pos(),
                        BodyMode::Nodes,
                        parser.checks_view(),
                        resource_views(resources@),
                        segment_views(segments@),
                        has_backplanes,
                    ) == body_total,
                decreases ls.len() - parser.pos(), (if reading { 1int } else { 0int }),
            {
                let ghost at = parser.pos();
                proof {
                    lemma_after_next(ls, at);
                    lemma_skip_blank_bounds(ls, at);
                    lemma_skip_blank_idem(ls, at);
                    lemma_steps_advance(ls, at, 0, resource_views(resources@), "BoxMeshes"@);
                    lemma_steps_skip_blank(ls, at, 0, resource_views(resources@), "BoxMeshes"@);
                }
                match parser.peek_line() {
                    Some(next) => {
                        if starts_with_str(&next, "[node name=\"Segment_")
                            && crate::text::contains_str(&next, " type=\"StaticBody3D\"")
                            && crate::text::contains_str(&next, " parent=\"BoxMeshes\"]") {
                            let segment = match parser.parse_segment(resources, "BoxMeshes") {
                                Ok(s) => s,
                                Err(e) => return Err(e),
                            };
                            let ghost before = segments@;
                            segments.push(segment);
                            proof {
                                assert(segment_views(segments@) =~= segment_views(before).push(segment@));
                            }
                        } else {
                            reading = false;
                        }
                    },
                    None => {
                        reading = false;
                    },
                }
            }
        } else if starts_with_str(&line, "[node name=\"BackPlanes\" type=\"Node3D\"") && crate::text::contains_str(&line, " parent=\".\"]") {
            has_backplanes = true;
            parser.next_line();
            let mut reading = true;
            while reading
                invariant
                    parser.inv(),
                    parser.lines_view() == ls,
                    ls == old(parser).lines_view(),
                    body_total == body_step(old(parser).lines_view(), old(parser).pos(), BodyMode::Nodes, old(parser).checks_view(), resource_views(resources@), seq![], false),
                    parser.pos() > here,
                    reading ==> body_step(
                        ls,
                        parser.pos(),
                        BodyMode::BackPlanes,
                        parser.checks_view(),
                        resource_views(resources@),
                        segment_views(segments@),
                        has_backplanes,
                    ) == body_total,
                    !reading ==> body_step(
                        ls,
                        parser.pos(),
                        BodyMode::Nodes,
                        parser.checks_view(),
                        resource_views(resources@),
                        segment_views(segments@),
                        has_backplanes,
                    ) == body_total,
                decreases ls.len() - parser.pos(), (if reading { 1int } else { 0int }),
            {
                let ghost at = parser.pos();
                proof {
                    lemma_after_next(ls, at);
                    lemma_skip_blank_bounds(ls, at);
                    lemma_skip_blank_idem(ls, at);
                    lemma_skip_to_node_bounds(ls, after_next(ls, at));
                }
                match parser.peek_line() {
                    Some(next) => {
                        if starts_with_str(&next, "[node name=\"") && crate::text::contains_str(&next, " parent=\"BackPlanes\"]") {
                            parser.skip_node_block();
                        } else {
                            reading = false;
                        }
                    },
                    None => {
                        reading = false;
                    },
                }
            }
        } else if starts_with_str(&line, "[node name=\"Segment_")
            && crate::text::contains_str(&line, " type=\"StaticBody3D\"")
            && crate::text::contains_str(&line, " parent=\".\"]") {
            let segment = match parser.parse_segment(resources, ".") {
                Ok(s) => s,
                Err(e) => return Err(e),
            };
            let ghost before = segments@;
            segments.push(segment);
            proof {
                assert(segment_views(segments@) =~= segment_views(before).push(segment@));
            }
        } else {
            return Err(unsupported_error("Unsupported scene content: ", &line));
        }
    }

    Ok((segments, has_backplanes))
}

/// [`scene_outline`] over the lines of the text.
pub open spec fn scene_outline_of(ls: Seq<Seq<char>>) -> (Seq<CheckModel>, Result<OutlineModel, Failure>) {
    if peek_at(ls, 0) == Some(export_marker()) {
        let m = metadata_step(ls, after_next(ls, 0));
        match m.result {
            Err(f) => (m.checks, Err(f)),
            Ok(meta) => scene_from_header(ls, m.pos, m.checks, Some(meta)),
        }
    } else {
        scene_from_header(ls, 0, seq![], None)
    }
}

} // verus!

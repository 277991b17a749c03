//! Errors of the scene importer and the parsers of single `.tscn` lines.
//!
//! Numbers that the scene stores as floats are not read here: the line
//! parsers hand back their text, and every test that a float decides is
//! listed as a [`FloatCheck`], in the order in which the reading meets it.
use vstd::prelude::*;

use crate::text::{
    chars_of, find_char, find_from, has_prefix, lemma_views_at, lemma_views_len, parse_unsigned,
    parse_usize_chars, slice_of, split_trimmed, starts_with_str, has_infix, to_string, trim,
    trimmed, trimmed_pieces, views,
};

verus! {

/// Why a scene could not be imported.
#[derive(Debug, Clone, PartialEq, Eq)]
pub enum ImportError {
    /// The file uses a structure that this tool does not write.
    Unsupported(String),
    /// The file is malformed.
    Invalid(String),
}

/// The mathematical model of an [`ImportError`].
pub enum Failure {
    Unsupported(Seq<char>),
    Invalid(Seq<char>),
}

impl View for ImportError {
    type V = Failure;

    open spec fn view(&self) -> Failure {
        match self {
            ImportError::Unsupported(m) => Failure::Unsupported(m@),
            ImportError::Invalid(m) => Failure::Invalid(m@),
        }
    }
}

/// The message that a failure carries.
pub open spec fn failure_message(f: Failure) -> Seq<char> {
    match f {
        Failure::Unsupported(m) => m,
        Failure::Invalid(m) => m,
    }
}

impl ImportError {
    /// The error message, as the error is displayed.
    pub fn message(&self) -> (m: String)
        ensures
            m@ == failure_message(self@),
    {
        match self {
            ImportError::Unsupported(m) => m.clone(),
            ImportError::Invalid(m) => m.clone(),
        }
    }
}

/// An exec result agrees with a model result.
pub open spec fn agrees<T>(r: Result<T, ImportError>, m: Result<T, Failure>) -> bool {
    match (r, m) {
        (Ok(a), Ok(b)) => a == b,
        (Err(e), Err(f)) => e@ == f,
        _ => false,
    }
}

/// A test on numbers that the scene writes as floats.
///
/// The importer lists these in the order in which it meets them; the scene
/// imports only if each of them holds, and the first that fails gives the
/// import's error.
#[derive(Debug, Clone)]
pub enum FloatCheck {
    /// `token` must read as an `f32`; otherwise the error is
    /// `Invalid("Failed to parse {label} from `{token}`")`.
    Parse { token: String, label: String },
    /// The three sizes of a mesh and of its collision shape must agree within
    /// the tolerance; otherwise the error is `Unsupported`.
    SameSize { mesh: Vec<String>, shape: Vec<String> },
    /// The nine basis numbers of a transform must be the identity within the
    /// tolerance; otherwise the error is `Unsupported`.
    IdentityBasis { components: Vec<String> },
    /// A segment's Z offset must be zero within the tolerance; otherwise the
    /// error is `Unsupported`.
    FlatZ { token: String },
}

/// The model of a [`FloatCheck`].
pub enum CheckModel {
    Parse(Seq<char>, Seq<char>),
    SameSize(Seq<Seq<char>>, Seq<Seq<char>>),
    IdentityBasis(Seq<Seq<char>>),
    FlatZ(Seq<char>),
}

/// The views of a sequence of strings.
pub open spec fn string_views(v: Seq<String>) -> Seq<Seq<char>> {
    v.map_values(|s: String| s@)
}

impl View for FloatCheck {
    type V = CheckModel;

    open spec fn view(&self) -> CheckModel {
        match self {
            FloatCheck::Parse { token, label } => CheckModel::Parse(token@, label@),
            FloatCheck::SameSize { mesh, shape } => CheckModel::SameSize(
                string_views(mesh@),
                string_views(shape@),
            ),
            FloatCheck::IdentityBasis { components } => CheckModel::IdentityBasis(
                string_views(components@),
            ),
            FloatCheck::FlatZ { token } => CheckModel::FlatZ(token@),
        }
    }
}

/// The views of a sequence of checks.
pub open spec fn check_views(v: Seq<FloatCheck>) -> Seq<CheckModel> {
    v.map_values(|c: FloatCheck| c@)
}

pub proof fn lemma_check_views_push(v: Seq<FloatCheck>, c: FloatCheck)
    ensures
        #[trigger] check_views(v.push(c)) == check_views(v).push(c@),
{
    assert(check_views(v.push(c)) =~= check_views(v).push(c@));
}

/// The three texts that open a node, a `BoxMesh` resource block and a `BoxShape3D`
/// resource block.
pub open spec fn node_open() -> Seq<char> {
    "[node name=\""@
}

/// `Unsupported(a + b)`.
pub open spec fn unsupported(a: Seq<char>, b: Seq<char>) -> Failure {
    Failure::Unsupported(a + b)
}

/// `Invalid(a + b)`.
pub open spec fn invalid(a: Seq<char>, b: Seq<char>) -> Failure {
    Failure::Invalid(a + b)
}

/// An `Unsupported` error whose message is `a` followed by `b`.
pub fn unsupported_error(a: &str, b: &Vec<char>) -> (e: ImportError)
    ensures
        e@ == unsupported(a@, b@),
{
    let mut m = to_string(&chars_of(a));
    crate::text::push_chars(&mut m, b);
    ImportError::Unsupported(m)
}

/// An `Invalid` error whose message is `a` followed by `b`.
pub fn invalid_error(a: &str, b: &Vec<char>) -> (e: ImportError)
    ensures
        e@ == invalid(a@, b@),
{
    let mut m = to_string(&chars_of(a));
    crate::text::push_chars(&mut m, b);
    ImportError::Invalid(m)
}

/// The characters of `a`, then `b`, then `c`.
pub fn join3(a: &str, b: &Vec<char>, c: &str) -> (r: Vec<char>)
    ensures
        r@ == a@ + b@ + c@,
{
    let mut r = chars_of(a);
    let mut i: usize = 0;
    while i < b.len()
        invariant
            i <= b@.len(),
            r@ == a@ + b@.take(i as int),
        decreases b@.len() - i,
    {
        r.push(b[i]);
        assert(b@.take(i + 1) =~= b@.take(i as int).push(b@[i as int]));
        i = i + 1;
    }
    assert(b@.take(i as int) =~= b@);
    let tail = chars_of(c);
    let mut k: usize = 0;
    let ghost head = r@;
    while k < tail.len()
        invariant
            k <= tail@.len(),
            r@ == head + tail@.take(k as int),
        decreases tail@.len() - k,
    {
        r.push(tail[k]);
        assert(tail@.take(k + 1) =~= tail@.take(k as int).push(tail@[k as int]));
        k = k + 1;
    }
    assert(tail@.take(k as int) =~= tail@);
    assert(head + tail@ =~= a@ + b@ + c@);
    r
}

/// The message `Failed to parse {label} from `{value}``.
pub open spec fn parse_failure(label: Seq<char>, value: Seq<char>) -> Failure {
    Failure::Invalid("Failed to parse "@ + label + " from `"@ + value + "`"@)
}

/// An `Invalid` error for a value that does not read as `label`.
fn parse_error(label: &str, value: &Vec<char>) -> (e: ImportError)
    ensures
        e@ == parse_failure(label@, value@),
{
    let head = join3("Failed to parse ", &chars_of(label), " from `");
    let mut m = to_string(&head);
    crate::text::push_chars(&mut m, value);
    crate::text::push_chars(&mut m, &chars_of("`"));
    ImportError::Invalid(m)
}

/// What `parse_usize` gives for `value`.
pub open spec fn usize_field(value: Seq<char>, label: Seq<char>) -> Result<usize, Failure> {
    match parse_unsigned(value) {
        Some(v) => Ok(v),
        None => Err(parse_failure(label, value)),
    }
}

/// Read `value` as a `usize`; `label` names the value in the error.
pub fn parse_usize(value: &Vec<char>, label: &str) -> (r: Result<usize, ImportError>)
    ensures
        agrees(r, usize_field(value@, label@)),
{
    match parse_usize_chars(value) {
        Some(v) => Ok(v),
        None => Err(parse_error(label, value)),
    }
}

/// What `parse_bool` gives for `value`.
pub open spec fn bool_field(value: Seq<char>, label: Seq<char>) -> Result<bool, Failure> {
    if value == "true"@ {
        Ok(true)
    } else if value == "false"@ {
        Ok(false)
    } else {
        Err(parse_failure(label, value))
    }
}

/// Read `value` as `true` or `false`; `label` names the value in the error.
pub fn parse_bool(value: &Vec<char>, label: &str) -> (r: Result<bool, ImportError>)
    ensures
        agrees(r, bool_field(value@, label@)),
{
    if crate::text::equals_str(value, "true") {
        Ok(true)
    } else if crate::text::equals_str(value, "false") {
        Ok(false)
    } else {
        Err(parse_error(label, value))
    }
}

/// What `parse_suffix_id` gives: the number after `prefix` in `value`.
pub open spec fn suffix_id(value: Seq<char>, prefix: Seq<char>) -> Result<usize, Failure> {
    if has_prefix(value, prefix) {
        usize_field(value.subrange(prefix.len() as int, value.len() as int), "node id"@)
    } else {
        Err(Failure::Invalid("Expected `"@ + prefix + "` prefix in `"@ + value + "`"@))
    }
}

/// Read the number that follows `prefix` in `value` (such as the `3` of
/// `Segment_3`).
pub fn parse_suffix_id(value: &Vec<char>, prefix: &str) -> (r: Result<usize, ImportError>)
    ensures
        agrees(r, suffix_id(value@, prefix@)),
{
    let p = chars_of(prefix);
    if crate::text::starts_with(value, &p) {
        let suffix = slice_of(value, p.len(), value.len());
        parse_usize(&suffix, "node id")
    } else {
        let head = join3("Expected `", &p, "` prefix in `");
        let mut m = to_string(&head);
        crate::text::push_chars(&mut m, value);
        crate::text::push_chars(&mut m, &chars_of("`"));
        Err(ImportError::Invalid(m))
    }
}

/// What `parse_node_line` gives for `line`: the node's name, when the line
/// is a node header of type `ty` (and of parent `parent`, if given).
pub open spec fn node_line(line: Seq<char>, ty: Seq<char>, parent: Option<Seq<char>>) -> Result<
    Seq<char>,
    Failure,
> {
    let t = trimmed(line);
    if !has_prefix(t, node_open()) || !(t.len() > 0 && t.last() == ']') {
        Err(unsupported("Unsupported node block: "@, line))
    } else if !has_infix(t, " type=\""@ + ty + "\""@) {
        Err(Failure::Unsupported("Unsupported node type in `"@ + line + "`"@))
    } else if parent is Some && !has_infix(t, " parent=\""@ + parent->0 + "\""@) {
        Err(Failure::Unsupported("Unsupported node parent in `"@ + line + "`"@))
    } else {
        let name_start = node_open().len() as int;
        let name_end = find_from(t, '"', name_start);
        if name_end >= t.len() {
            Err(invalid("Malformed node line: "@, line))
        } else {
            Ok(t.subrange(name_start, name_end))
        }
    }
}

/// Read a node header line and return the node's name.
pub fn parse_node_line(line: &Vec<char>, ty: &Vec<char>, parent: Option<&Vec<char>>) -> (r:
    Result<Vec<char>, ImportError>)
    ensures
        match (r, node_line(line@, ty@, match parent { Some(p) => Some(p@), None => None })) {
            (Ok(a), Ok(b)) => a@ == b,
            (Err(e), Err(f)) => e@ == f,
            _ => false,
        },
{
    let t = trim(line);
    if !starts_with_str(&t, "[node name=\"") || !(t.len() > 0 && t[t.len() - 1] == ']') {
        return Err(unsupported_error("Unsupported node block: ", line));
    }
    let type_fragment = join3(" type=\"", ty, "\"");
    if !crate::text::contains(&t, &type_fragment) {
        return Err(ImportError::Unsupported(to_string(&join3("Unsupported node type in `", line, "`"))));
    }
    match parent {
        Some(p) => {
            let parent_fragment = join3(" parent=\"", p, "\"");
            if !crate::text::contains(&t, &parent_fragment) {
                return Err(ImportError::Unsupported(to_string(&join3("Unsupported node parent in `", line, "`"))));
            }
        },
        None => {},
    }
    let name_start = chars_of("[node name=\"").len();
    match find_char(&t, '"', name_start) {
        Some(name_end) => {
            Ok(slice_of(&t, name_start, name_end))
        },
        None => Err(invalid_error("Malformed node line: ", line)),
    }
}

/// The id text of a line `{prefix}{id}"{close}` (the byte slice that ends
/// two bytes before the end, which exists when the character before the
/// closing one is ASCII and the slice does not start after it).
pub open spec fn id_text(t: Seq<char>, prefix: Seq<char>) -> Option<Seq<char>> {
    if t.len() >= prefix.len() + 2 && (t[t.len() - 2] as u32) < 128 {
        Some(t.subrange(prefix.len() as int, t.len() - 2))
    } else {
        None
    }
}

/// What `parse_resource_id` (for `close == ']'`) and
/// `parse_resource_reference` (for `close == ')'`) give for `line`.
pub open spec fn resource_number(
    line: Seq<char>,
    prefix: Seq<char>,
    close: char,
    unsupported_text: Seq<char>,
    malformed_text: Seq<char>,
    label: Seq<char>,
) -> Result<usize, Failure> {
    let t = trimmed(line);
    if !has_prefix(t, prefix) || !(t.len() > 0 && t.last() == close) {
        Err(unsupported(unsupported_text, line))
    } else {
        match id_text(t, prefix) {
            Some(raw) => usize_field(raw, label),
            None => Err(invalid(malformed_text, line)),
        }
    }
}

/// Shared reader of resource ids and resource references.
fn parse_resource_number(
    line: &Vec<char>,
    prefix: &str,
    close: char,
    unsupported_text: &str,
    malformed_text: &str,
    label: &str,
) -> (r: Result<usize, ImportError>)
    ensures
        agrees(
            r,
            resource_number(line@, prefix@, close, unsupported_text@, malformed_text@, label@),
        ),
{
    let t = trim(line);
    let p = chars_of(prefix);
    if !crate::text::starts_with(&t, &p) || !(t.len() > 0 && t[t.len() - 1] == close) {
        return Err(unsupported_error(unsupported_text, line));
    }
    if t.len() >= 2 && p.len() <= t.len() - 2 && (t[t.len() - 2] as u32) < 128 {
        let raw = slice_of(&t, p.len(), t.len() - 2);
        parse_usize(&raw, label)
    } else {
        Err(invalid_error(malformed_text, line))
    }
}

/// What `parse_resource_id` gives for `line`.
pub open spec fn resource_id(line: Seq<char>, prefix: Seq<char>) -> Result<usize, Failure> {
    resource_number(
        line,
        prefix,
        ']',
        "Unsupported resource block: "@,
        "Malformed resource id: "@,
        "resource id"@,
    )
}

/// Read the id of a resource header such as `[sub_resource type="BoxMesh" id="BoxMesh_0"]`.
pub fn parse_resource_id(line: &Vec<char>, prefix: &str) -> (r: Result<usize, ImportError>)
    ensures
        agrees(r, resource_id(line@, prefix@)),
{
    parse_resource_number(
        line,
        prefix,
        ']',
        "Unsupported resource block: ",
        "Malformed resource id: ",
        "resource id",
    )
}

/// What `parse_resource_reference` gives for `line`.
pub open spec fn resource_reference(line: Seq<char>, prefix: Seq<char>) -> Result<usize, Failure> {
    resource_number(
        line,
        prefix,
        ')',
        "Unsupported resource reference: "@,
        "Malformed resource reference: "@,
        "resource reference"@,
    )
}

/// Read the id of a resource reference such as `mesh = SubResource("BoxMesh_0")`.
pub fn parse_resource_reference(line: &Vec<char>, prefix: &str) -> (r: Result<usize, ImportError>)
    ensures
        agrees(r, resource_reference(line@, prefix@)),
{
    parse_resource_number(
        line,
        prefix,
        ')',
        "Unsupported resource reference: ",
        "Malformed resource reference: ",
        "resource reference",
    )
}

/// The checks that each of `parts` reads as an `f32`.
pub open spec fn parse_checks(parts: Seq<Seq<char>>, label: Seq<char>) -> Seq<CheckModel> {
    parts.map_values(|p: Seq<char>| CheckModel::Parse(p, label))
}

/// Append the checks that `parts[from..to]` read as `f32`s.
fn push_parse_checks(
    checks: &mut Vec<FloatCheck>,
    parts: &Vec<Vec<char>>,
    from: usize,
    to: usize,
    label: &str,
)
    requires
        from <= to <= parts@.len(),
    ensures
        check_views(final(checks)@) == check_views(old(checks)@) + parse_checks(
            views(parts@).subrange(from as int, to as int),
            label@,
        ),
{
    let ghost start = check_views(checks@);
    let mut i = from;
    proof {
        lemma_views_len(parts@);
    }
    while i < to
        invariant
            from <= i <= to,
            to <= parts@.len(),
            views(parts@).len() == parts@.len(),
            check_views(checks@) == start + parse_checks(
                views(parts@).subrange(from as int, i as int),
                label@,
            ),
        decreases to - i,
    {
        let check = FloatCheck::Parse { token: to_string(&parts[i]), label: to_string(&chars_of(label)) };
        let ghost before = checks@;
        checks.push(check);
        proof {
            lemma_check_views_push(before, check);
            lemma_views_at(parts@, i as int);
            assert(parse_checks(views(parts@).subrange(from as int, i + 1), label@) =~= parse_checks(
                views(parts@).subrange(from as int, i as int),
                label@,
            ).push(check@));
        }
        i = i + 1;
    }
}

/// The strings holding `parts[from..to]`.
fn strings_of(parts: &Vec<Vec<char>>, from: usize, to: usize) -> (r: Vec<String>)
    requires
        from <= to <= parts@.len(),
    ensures
        string_views(r@) == views(parts@).subrange(from as int, to as int),
{
    let mut r: Vec<String> = Vec::new();
    let mut i = from;
    proof {
        lemma_views_len(parts@);
    }
    while i < to
        invariant
            from <= i <= to,
            to <= parts@.len(),
            views(parts@).len() == parts@.len(),
            string_views(r@) == views(parts@).subrange(from as int, i as int),
        decreases to - i,
    {
        let s = to_string(&parts[i]);
        let ghost before = r@;
        r.push(s);
        proof {
            lemma_views_at(parts@, i as int);
            assert(string_views(r@) =~= string_views(before).push(s@));
            assert(views(parts@).subrange(from as int, i + 1) =~= views(parts@).subrange(
                from as int,
                i as int,
            ).push(parts@[i as int]@));
        }
        i = i + 1;
    }
    r
}

/// The comma-separated, trimmed parts between `prefix` and the closing `)`
/// of a line such as `transform = Transform3D(...)`, if their number is
/// `count`; a line of another shape is refused with `refusal`.
pub open spec fn framed_parts(
    line: Seq<char>,
    prefix: Seq<char>,
    count: nat,
    count_text: Seq<char>,
    refusal: Seq<char>,
) -> Result<Seq<Seq<char>>, Failure> {
    let t = trimmed(line);
    if !has_prefix(t, prefix) || !(t.len() > 0 && t.last() == ')') {
        Err(unsupported(refusal, line))
    } else {
        let parts = trimmed_pieces(t.subrange(prefix.len() as int, t.len() - 1), ',');
        if parts.len() != count {
            Err(Failure::Invalid("Expected "@ + count_text + " components in `"@ + line + "`"@))
        } else {
            Ok(parts)
        }
    }
}

/// The comma-separated, trimmed parts between `prefix` and the closing `)`
/// of a line such as `size = Vector3(1, 2, 3)`, if their number is `count`.
pub open spec fn vector_parts(line: Seq<char>, prefix: Seq<char>, count: nat, count_text: Seq<
    char,
>) -> Result<Seq<Seq<char>>, Failure> {
    framed_parts(line, prefix, count, count_text, "Unsupported vector line: "@)
}

/// The parts of a line framed by `prefix` and `)`, and its line-level
/// errors.
fn read_framed_parts(
    line: &Vec<char>,
    prefix: &str,
    count: usize,
    count_text: &str,
    refusal: &str,
) -> (r: Result<Vec<Vec<char>>, ImportError>)
    requires
        !(trimmed(line@) == prefix@ && prefix@.len() > 0 && prefix@.last() == ')'),
    ensures
        match (r, framed_parts(line@, prefix@, count as nat, count_text@, refusal@)) {
            (Ok(a), Ok(b)) => views(a@) == b,
            (Err(e), Err(f)) => e@ == f,
            _ => false,
        },
{
    let t = trim(line);
    if !starts_with_str(&t, prefix) || !(t.len() > 0 && t[t.len() - 1] == ')') {
        return Err(unsupported_error(refusal, line));
    }
    let p = chars_of(prefix);
    assert(p@.len() < t@.len()) by {
        if p@.len() == t@.len() {
            assert(t@.subrange(0, p@.len() as int) =~= t@);
            assert(t@ == p@);
        }
    }
    let values = slice_of(&t, p.len(), t.len() - 1);
    let parts = split_trimmed(&values, ',');
    proof {
        lemma_views_len(parts@);
    }
    if parts.len() != count {
        let head = join3("Expected ", &chars_of(count_text), " components in `");
        let mut m = to_string(&head);
        crate::text::push_chars(&mut m, line);
        crate::text::push_chars(&mut m, &chars_of("`"));
        return Err(ImportError::Invalid(m));
    }
    Ok(parts)
}

/// What `parse_vector3_line` and `parse_vector2_line` give: the checks that
/// they add, and the parts.
pub open spec fn vector_line(line: Seq<char>, prefix: Seq<char>, count: nat, count_text: Seq<char>) -> (
    Seq<CheckModel>,
    Result<Seq<Seq<char>>, Failure>,
) {
    match vector_parts(line, prefix, count, count_text) {
        Ok(parts) => (parse_checks(parts, "vector component"@), Ok(parts)),
        Err(f) => (seq![], Err(f)),
    }
}

/// Read a `Vector3`/`Vector2` line: its parts, each of which must read as
/// an `f32` (a check is added for each).
pub fn parse_vector_line(
    checks: &mut Vec<FloatCheck>,
    line: &Vec<char>,
    prefix: &str,
    count: usize,
    count_text: &str,
) -> (r: Result<Vec<Vec<char>>, ImportError>)
    requires
        !(trimmed(line@) == prefix@ && prefix@.len() > 0 && prefix@.last() == ')'),
    ensures
        check_views(final(checks)@) == check_views(old(checks)@) + vector_line(
            line@,
            prefix@,
            count as nat,
            count_text@,
        ).0,
        match (r, vector_line(line@, prefix@, count as nat, count_text@).1) {
            (Ok(a), Ok(b)) => views(a@) == b,
            (Err(e), Err(f)) => e@ == f,
            _ => false,
        },
{
    match read_framed_parts(line, prefix, count, count_text, "Unsupported vector line: ") {
        Ok(parts) => {
            proof {
                lemma_views_len(parts@);
                assert(views(parts@).subrange(0, parts@.len() as int) =~= views(parts@));
            }
            push_parse_checks(checks, &parts, 0, parts.len(), "vector component");
            Ok(parts)
        },
        Err(e) => {
            assert(check_views(checks@) =~= check_views(checks@) + Seq::<CheckModel>::empty());
            Err(e)
        },
    }
}

/// What `parse_transform` gives: the checks that it adds, and the three
/// offset texts.
pub open spec fn transform_line(line: Seq<char>) -> (Seq<CheckModel>, Result<Seq<Seq<char>>, Failure>) {
    match framed_parts(
        line,
        "transform = Transform3D("@,
        12,
        "12 Transform3D"@,
        "Unsupported transform line: "@,
    ) {
        Ok(parts) => (
            parse_checks(parts.subrange(0, 9), "transform component"@) + seq![
                CheckModel::IdentityBasis(parts.subrange(0, 9)),
                CheckModel::Parse(parts[9], "transform offset_x"@),
                CheckModel::Parse(parts[10], "transform offset_y"@),
                CheckModel::Parse(parts[11], "transform offset_z"@),
            ],
            Ok(parts.subrange(9, 12)),
        ),
        Err(f) => (seq![], Err(f)),
    }
}

/// Read a `transform = Transform3D(...)` line: twelve numbers whose basis
/// must be the identity; returns the texts of the three offsets.
pub fn parse_transform(checks: &mut Vec<FloatCheck>, line: &Vec<char>) -> (r: Result<
    Vec<Vec<char>>,
    ImportError,
>)
    ensures
        check_views(final(checks)@) == check_views(old(checks)@) + transform_line(line@).0,
        match (r, transform_line(line@).1) {
            (Ok(a), Ok(b)) => views(a@) == b,
            (Err(e), Err(f)) => e@ == f,
            _ => false,
        },
{
    proof {
        reveal_strlit("transform = Transform3D(");
    }
    match read_framed_parts(
        line,
        "transform = Transform3D(",
        12,
        "12 Transform3D",
        "Unsupported transform line: ",
    ) {
        Ok(parts) => {
            let ghost start = check_views(checks@);
            proof {
                lemma_views_len(parts@);
            }
            push_parse_checks(checks, &parts, 0, 9, "transform component");
            let basis = FloatCheck::IdentityBasis { components: strings_of(&parts, 0, 9) };
            let ghost before_basis = checks@;
            checks.push(basis);
            proof {
                lemma_check_views_push(before_basis, basis);
            }
            let ghost after_basis = check_views(checks@);
            push_parse_checks(checks, &parts, 9, 10, "transform offset_x");
            push_parse_checks(checks, &parts, 10, 11, "transform offset_y");
            push_parse_checks(checks, &parts, 11, 12, "transform offset_z");
            let offsets = slice_parts(&parts, 9, 12);
            proof {
                let ps = views(parts@);
                assert(parse_checks(ps.subrange(9, 10), "transform offset_x"@) =~= seq![
                    CheckModel::Parse(ps[9], "transform offset_x"@),
                ]);
                assert(parse_checks(ps.subrange(10, 11), "transform offset_y"@) =~= seq![
                    CheckModel::Parse(ps[10], "transform offset_y"@),
                ]);
                assert(parse_checks(ps.subrange(11, 12), "transform offset_z"@) =~= seq![
                    CheckModel::Parse(ps[11], "transform offset_z"@),
                ]);
                assert(basis@ == CheckModel::IdentityBasis(ps.subrange(0, 9)));
                assert(check_views(checks@) =~= start + transform_line(line@).0);
            }
            Ok(offsets)
        },
        Err(e) => {
            assert(check_views(checks@) =~= check_views(checks@) + Seq::<CheckModel>::empty());
            Err(e)
        },
    }
}

/// The character vectors `parts[from..to]`.
fn slice_parts(parts: &Vec<Vec<char>>, from: usize, to: usize) -> (r: Vec<Vec<char>>)
    requires
        from <= to <= parts@.len(),
    ensures
        views(r@) == views(parts@).subrange(from as int, to as int),
{
    let mut r: Vec<Vec<char>> = Vec::new();
    let mut i = from;
    proof {
        lemma_views_len(parts@);
    }
    while i < to
        invariant
            from <= i <= to,
            to <= parts@.len(),
            views(parts@).len() == parts@.len(),
            views(r@) == views(parts@).subrange(from as int, i as int),
        decreases to - i,
    {
        let ghost before = r@;
        r.push(parts[i].clone());
        proof {
            crate::text::lemma_views_push(before, r@.last());
            lemma_views_at(parts@, i as int);
            assert(views(parts@).subrange(from as int, i + 1) =~= views(parts@).subrange(
                from as int,
                i as int,
            ).push(parts@[i as int]@));
        }
        i = i + 1;
    }
    r
}

} // verus!

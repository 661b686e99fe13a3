//! The text format of mesh files.

use vstd::prelude::*;
use crate::math::{Vector2, Vector3};
use crate::mesh::{Face, Mesh};
use crate::number::{read_number, reading, Reading};
use crate::scalar::{Scalar, ONE_BITS};

verus! {

/// The byte that ends a line.
pub const NEWLINE: u8 = 10;

/// The byte between the fields of a line.
pub const SPACE: u8 = 32;

/// The sign that a number may start with.
pub const PLUS: u8 = 43;

/// The byte between the parts of a face's corner.
pub const SLASH: u8 = 47;

/// The digit 0. The digits follow each other up to 9.
pub const DIGIT_ZERO: u8 = 48;

/// The digit 9.
pub const DIGIT_NINE: u8 = 57;

/// The letter f, which starts a face.
pub const LETTER_F: u8 = 102;

/// The letter t, which after a v starts a texture coordinate.
pub const LETTER_T: u8 = 116;

/// The letter v, which starts a vertex position or a texture coordinate.
pub const LETTER_V: u8 = 118;

/// A piece of the text: the bytes from `start` up to, not including, `end`.
#[derive(Clone, Copy, Debug, PartialEq, Eq, Structural)]
pub struct Span {
    pub start: usize,
    pub end: usize,
}

impl Span {
    /// Whether the span lies within a text of the given length.
    pub open spec fn within(self, len: nat) -> bool {
        self.start <= self.end <= len
    }

    /// The bytes of the text that the span covers.
    pub open spec fn of(self, text: Seq<u8>) -> Seq<u8> {
        text.subrange(self.start as int, self.end as int)
    }
}

/// Where the first separator at or after `from` and before `end` stands;
/// `end` if there is none.
pub open spec fn first_sep(text: Seq<u8>, sep: u8, from: int, end: int) -> int
    decreases end - from,
{
    if from >= end {
        end
    } else if text[from] == sep {
        from
    } else {
        first_sep(text, sep, from + 1, end)
    }
}

/// The fields that the separator cuts the text between `start` and `end`
/// into, in order. There is always at least one; a field may be empty.
pub open spec fn fields(text: Seq<u8>, sep: u8, start: int, end: int) -> Seq<Span>
    decreases end - start,
{
    let stop = first_sep(text, sep, start, end);
    if start > end || stop < start {
        Seq::empty()
    } else if stop >= end {
        seq![Span { start: start as usize, end: end as usize }]
    } else {
        seq![Span { start: start as usize, end: stop as usize }] + fields(
            text,
            sep,
            stop + 1,
            end,
        )
    }
}

proof fn lemma_first_sep_bounds(text: Seq<u8>, sep: u8, from: int, end: int)
    requires
        from <= end,
    ensures
        from <= first_sep(text, sep, from, end) <= end,
        first_sep(text, sep, from, end) < end ==> text[first_sep(text, sep, from, end)] == sep,
        forall|j: int| from <= j < first_sep(text, sep, from, end) ==> text[j] != sep,
    decreases end - from,
{
    if from < end && text[from] != sep {
        lemma_first_sep_bounds(text, sep, from + 1, end);
    }
}

proof fn lemma_first_sep_skip(text: Seq<u8>, sep: u8, from: int, at: int, end: int)
    requires
        from <= at <= end,
        forall|j: int| from <= j < at ==> text[j] != sep,
    ensures
        first_sep(text, sep, from, end) == first_sep(text, sep, at, end),
    decreases at - from,
{
    if from < at {
        lemma_first_sep_skip(text, sep, from + 1, at, end);
    }
}

/// Every field lies within the text it was cut from, and there is at least one.
pub proof fn lemma_fields_within(text: Seq<u8>, sep: u8, start: int, end: int)
    requires
        0 <= start <= end <= text.len(),
        text.len() <= usize::MAX,
    ensures
        fields(text, sep, start, end).len() >= 1,
        forall|k: int|
            0 <= k < fields(text, sep, start, end).len() ==> start <= (#[trigger] fields(
                text,
                sep,
                start,
                end,
            )[k]).start <= fields(text, sep, start, end)[k].end <= end,
    decreases end - start,
{
    lemma_first_sep_bounds(text, sep, start, end);
    let stop = first_sep(text, sep, start, end);
    if stop < end {
        lemma_fields_within(text, sep, stop + 1, end);
    }
}

/// What cutting means. The fields lie in order from `start` to `end`; between
/// each field and the next stands exactly one byte, a separator; and no
/// field holds a separator.
pub proof fn lemma_fields_partition(text: Seq<u8>, sep: u8, start: int, end: int)
    requires
        0 <= start <= end <= text.len(),
        text.len() <= usize::MAX,
    ensures
        ({
            let found = fields(text, sep, start, end);
            &&& found.len() >= 1
            &&& found[0].start == start
            &&& found.last().end == end
            &&& forall|k: int|
                0 <= k < found.len() ==> (#[trigger] found[k]).start <= found[k].end
            &&& forall|k: int|
                0 <= k < found.len() - 1 ==> text[(#[trigger] found[k]).end as int] == sep
                    && found[k + 1].start == found[k].end + 1
            &&& forall|k: int, j: int|
                0 <= k < found.len() && (#[trigger] found[k]).start <= j < found[k].end
                    ==> #[trigger] text[j] != sep
        }),
    decreases end - start,
{
    lemma_first_sep_bounds(text, sep, start, end);
    let stop = first_sep(text, sep, start, end);
    let found = fields(text, sep, start, end);
    if stop < end {
        let rest = fields(text, sep, stop + 1, end);
        lemma_fields_partition(text, sep, stop + 1, end);
        assert(forall|k: int| 1 <= k < found.len() ==> found[k] == rest[k - 1]);
        assert forall|k: int| 0 <= k < found.len() - 1 implies text[(#[trigger] found[k]).end as int]
            == sep && found[k + 1].start == found[k].end + 1 by {
            if k >= 1 {
                assert(found[k] == rest[k - 1]);
                assert(found[k + 1] == rest[k]);
            }
        }
        assert forall|k: int, j: int|
            0 <= k < found.len() && (#[trigger] found[k]).start <= j < found[k].end
                implies #[trigger] text[j] != sep by {
            if k >= 1 {
                assert(found[k] == rest[k - 1]);
            }
        }
    }
}

/// Cuts the text between `start` and `end` at every separator.
pub fn split(text: &[u8], sep: u8, start: usize, end: usize) -> (out: Vec<Span>)
    requires
        start <= end <= text.len(),
    ensures
        out@ == fields(text@, sep, start as int, end as int),
        out.len() >= 1,
        forall|k: int| 0 <= k < out.len() ==> start <= (#[trigger] out[k]).start <= out[k].end <= end,
{
    proof {
        lemma_fields_within(text@, sep, start as int, end as int);
    }
    let mut out: Vec<Span> = Vec::new();
    let mut field_start: usize = start;
    let mut i: usize = start;
    while i < end
        invariant
            start <= field_start <= i <= end <= text.len(),
            forall|j: int| field_start <= j < i ==> text@[j] != sep,
            fields(text@, sep, start as int, end as int) == out@ + fields(
                text@,
                sep,
                field_start as int,
                end as int,
            ),
        decreases end - i,
    {
        if text[i] == sep {
            proof {
                lemma_first_sep_skip(text@, sep, field_start as int, i as int, end as int);
                assert(first_sep(text@, sep, field_start as int, end as int) == i);
                assert(out@.push(Span { start: field_start, end: i }) + fields(
                    text@,
                    sep,
                    i + 1,
                    end as int,
                ) =~= out@ + fields(text@, sep, field_start as int, end as int));
            }
            out.push(Span { start: field_start, end: i });
            field_start = i + 1;
        }
        i += 1;
    }
    proof {
        lemma_first_sep_skip(text@, sep, field_start as int, end as int, end as int);
        assert(first_sep(text@, sep, field_start as int, end as int) == end);
        assert(out@.push(Span { start: field_start, end }) =~= out@ + fields(
            text@,
            sep,
            field_start as int,
            end as int,
        ));
    }
    out.push(Span { start: field_start, end });
    out
}

/// Whether the byte is a decimal digit.
pub open spec fn is_digit(byte: u8) -> bool {
    DIGIT_ZERO <= byte <= DIGIT_NINE
}

/// Whether the text holds decimal digits only.
pub open spec fn all_digits(text: Seq<u8>) -> bool {
    forall|i: int| 0 <= i < text.len() ==> is_digit(#[trigger] text[i])
}

/// The value of a string of decimal digits, most significant first.
pub open spec fn decimal(digits: Seq<u8>) -> nat
    decreases digits.len(),
{
    if digits.len() == 0 {
        0
    } else {
        (decimal(digits.drop_last()) * 10 + (digits.last() - DIGIT_ZERO)) as nat
    }
}

/// The number that a token stands for: an optional plus sign, then one or
/// more decimal digits whose value fits the machine's index type. Any other
/// token stands for none.
pub open spec fn number(token: Seq<u8>) -> Option<nat> {
    if token.len() > 0 && token[0] == PLUS {
        unsigned(token.subrange(1, token.len() as int))
    } else {
        unsigned(token)
    }
}

/// The number that a token without a sign stands for.
pub open spec fn unsigned(digits: Seq<u8>) -> Option<nat> {
    if digits.len() > 0 && all_digits(digits) && decimal(digits) <= usize::MAX {
        Some(decimal(digits))
    } else {
        None
    }
}

/// The array index that a token refers to. The file counts from one, the
/// arrays from zero; zero refers to nothing.
pub open spec fn reference(token: Seq<u8>) -> Option<nat> {
    match number(token) {
        Some(n) => if n >= 1 {
            Some((n - 1) as nat)
        } else {
            None
        },
        None => None,
    }
}

proof fn lemma_decimal_grows(digits: Seq<u8>, k: int)
    requires
        all_digits(digits),
        0 <= k <= digits.len(),
    ensures
        decimal(digits.take(k)) <= decimal(digits),
    decreases digits.len() - k,
{
    if k < digits.len() {
        lemma_decimal_grows(digits, k + 1);
        assert(digits.take(k + 1).drop_last() =~= digits.take(k));
        assert(is_digit(digits[k]));
        assert(digits.take(k + 1).last() == digits[k]);
    } else {
        assert(digits.take(k) =~= digits);
    }
}

/// Reads the number that the text between `start` and `end` stands for.
pub fn parse_number(text: &[u8], start: usize, end: usize) -> (r: Option<usize>)
    requires
        start <= end <= text.len(),
    ensures
        r is Some <==> number(text@.subrange(start as int, end as int)) is Some,
        r matches Some(v) ==> number(text@.subrange(start as int, end as int)) == Some(v as nat),
{
    let ghost token = text@.subrange(start as int, end as int);
    let first: usize = if start < end && text[start] == PLUS {
        start + 1
    } else {
        start
    };
    let ghost digits = text@.subrange(first as int, end as int);
    proof {
        if start < end {
            assert(token[0] == text@[start as int]);
        }
        if first == start {
            assert(digits =~= token);
        } else {
            assert(digits =~= token.subrange(1, token.len() as int));
        }
        assert(number(token) == unsigned(digits));
    }
    if first == end {
        return None;
    }
    let mut value: usize = 0;
    let mut i: usize = first;
    while i < end
        invariant
            first <= i <= end <= text.len(),
            digits == text@.subrange(first as int, end as int),
            number(text@.subrange(start as int, end as int)) == unsigned(digits),
            all_digits(digits.take(i - first)),
            value == decimal(digits.take(i - first)),
        decreases end - i,
    {
        let byte: u8 = text[i];
        proof {
            assert(digits[i - first] == byte);
            assert(digits.take(i - first + 1).drop_last() =~= digits.take(i - first));
            assert(digits.take(i - first + 1).last() == byte);
        }
        if byte < DIGIT_ZERO || byte > DIGIT_NINE {
            assert(!all_digits(digits));
            return None;
        }
        let wide: u128 = (value as u128) * 10 + ((byte - DIGIT_ZERO) as u128);
        if wide > usize::MAX as u128 {
            proof {
                if all_digits(digits) {
                    lemma_decimal_grows(digits, i - first + 1);
                }
            }
            return None;
        }
        proof {
            assert forall|j: int| 0 <= j < digits.take(i - first + 1).len() implies is_digit(
                #[trigger] digits.take(i - first + 1)[j],
            ) by {
                if j < i - first {
                    assert(digits.take(i - first + 1)[j] == digits.take(i - first)[j]);
                }
            }
        }
        value = wide as usize;
        i += 1;
    }
    proof {
        assert(digits.take(end - first) =~= digits);
    }
    Some(value)
}

/// Reads the array index that the text between `start` and `end` refers to.
pub fn parse_reference(text: &[u8], span: Span) -> (r: Option<usize>)
    requires
        span.within(text@.len()),
    ensures
        r is Some <==> reference(span.of(text@)) is Some,
        r matches Some(v) ==> reference(span.of(text@)) == Some(v as nat),
{
    match parse_number(text, span.start, span.end) {
        Some(n) => if n >= 1 {
            Some(n - 1)
        } else {
            None
        },
        None => None,
    }
}

/// The text of a vertex position: its three coordinates.
#[derive(Clone, Copy, Debug, PartialEq, Eq, Structural)]
pub struct VertexText {
    pub x: Span,
    pub y: Span,
    pub z: Span,
}

/// The text of a texture coordinate: its two components.
#[derive(Clone, Copy, Debug, PartialEq, Eq, Structural)]
pub struct UvText {
    pub u: Span,
    pub v: Span,
}

/// What one line of the file says.
#[derive(Clone, Copy, Debug, PartialEq, Eq, Structural)]
pub enum Record {
    Vertex(VertexText),
    Uv(UvText),
    Face(Face),
    /// A line of another kind, or one too short to say anything.
    Nothing,
}

/// What can be wrong with a line.
#[derive(Clone, Copy, Debug, PartialEq, Eq, Structural)]
pub enum Flaw {
    /// The line holds fewer fields than its kind needs.
    MissingField,
    /// A field that should refer to an array entry is no number from 1 up.
    InvalidIndex,
    /// A face refers to a vertex that no line above it gives.
    VertexOutOfRange,
}

/// Why a file is no mesh.
#[derive(Clone, Copy, Debug, PartialEq, Eq, Structural)]
pub enum LoadError {
    /// The line with this number, counting from zero, has the flaw.
    Line { line: usize, flaw: Flaw },
    /// The face with this number, counting from zero, refers to a texture
    /// coordinate that the file does not give.
    UvOutOfRange { face: usize },
}

/// A mesh as its file gives it: the faces, and for each vertex position and
/// texture coordinate the pieces of the text that spell its numbers.
#[derive(Debug)]
pub struct MeshData {
    pub vertices: Vec<VertexText>,
    pub uvs: Vec<UvText>,
    pub faces: Vec<Face>,
}

/// What a mesh's file gives, as contracts see it.
pub struct MeshDataView {
    pub vertices: Seq<VertexText>,
    pub uvs: Seq<UvText>,
    pub faces: Seq<Face>,
}

impl View for MeshData {
    type V = MeshDataView;

    open spec fn view(&self) -> MeshDataView {
        MeshDataView { vertices: self.vertices@, uvs: self.uvs@, faces: self.faces@ }
    }
}

impl MeshDataView {
    /// Every face points into the arrays, and every piece of text lies
    /// within a text of the given length.
    pub open spec fn consistent(self, len: nat) -> bool {
        &&& forall|k: int|
            0 <= k < self.faces.len() ==> (#[trigger] self.faces[k]).within(
                self.vertices.len(),
                self.uvs.len(),
            )
        &&& forall|k: int|
            0 <= k < self.vertices.len() ==> (#[trigger] self.vertices[k]).x.within(len)
                && self.vertices[k].y.within(len) && self.vertices[k].z.within(len)
        &&& forall|k: int|
            0 <= k < self.uvs.len() ==> (#[trigger] self.uvs[k]).u.within(len)
                && self.uvs[k].v.within(len)
    }
}

/// The vertex and the texture coordinate that one corner of a face refers
/// to. The corner's token holds them in this order, between slashes;
/// whatever follows a second slash is not read.
pub open spec fn corner(text: Seq<u8>, token: Span) -> Result<(usize, usize), Flaw> {
    let parts = fields(text, SLASH, token.start as int, token.end as int);
    match reference(parts[0].of(text)) {
        None => Err(Flaw::InvalidIndex),
        Some(vertex) => if parts.len() < 2 {
            Err(Flaw::MissingField)
        } else {
            match reference(parts[1].of(text)) {
                None => Err(Flaw::InvalidIndex),
                Some(uv) => Ok((vertex as usize, uv as usize)),
            }
        },
    }
}

/// The corners that the tokens of a face line give, or the flaw of the
/// first token that has one.
pub open spec fn corners(text: Seq<u8>, tokens: Seq<Span>) -> Result<Seq<(usize, usize)>, Flaw>
    decreases tokens.len(),
{
    if tokens.len() == 0 {
        Ok(Seq::empty())
    } else {
        match corners(text, tokens.drop_last()) {
            Err(flaw) => Err(flaw),
            Ok(found) => match corner(text, tokens.last()) {
                Err(flaw) => Err(flaw),
                Ok(c) => Ok(found.push(c)),
            },
        }
    }
}

/// The face that the tokens of a face line give. Every token must be a
/// corner; the first three make the face, and their vertices must be among
/// the `vertex_count` vertices given so far. Its normal is yet to be
/// computed.
pub open spec fn face_record(text: Seq<u8>, tokens: Seq<Span>, vertex_count: nat) -> Result<
    Face,
    Flaw,
> {
    match corners(text, tokens) {
        Err(flaw) => Err(flaw),
        Ok(found) => if found.len() < 3 {
            Err(Flaw::MissingField)
        } else if found[0].0 >= vertex_count || found[1].0 >= vertex_count || found[2].0
            >= vertex_count {
            Err(Flaw::VertexOutOfRange)
        } else {
            Ok(
                Face {
                    a: found[0].0,
                    b: found[1].0,
                    c: found[2].0,
                    normal: Vector3::zero(),
                    uva: found[0].1,
                    uvb: found[1].1,
                    uvc: found[2].1,
                },
            )
        },
    }
}

/// What a line says, given how many vertices the lines above it gave.
///
/// A line of more than two bytes that starts with `v` and a space gives a
/// vertex position: its first three fields, cut at single spaces. One that
/// starts with `vt` gives a texture coordinate: after one more byte, its
/// first two fields. One that starts with `f` and a space gives a face.
/// Every other line says nothing.
pub open spec fn record(text: Seq<u8>, line: Span, vertex_count: nat) -> Result<Record, Flaw> {
    let start = line.start as int;
    let end = line.end as int;
    if end - start <= 2 {
        Ok(Record::Nothing)
    } else if text[start] == LETTER_V && text[start + 1] == SPACE {
        let found = fields(text, SPACE, start + 2, end);
        if found.len() < 3 {
            Err(Flaw::MissingField)
        } else {
            Ok(Record::Vertex(VertexText { x: found[0], y: found[1], z: found[2] }))
        }
    } else if text[start] == LETTER_V && text[start + 1] == LETTER_T {
        let found = fields(text, SPACE, start + 3, end);
        if found.len() < 2 {
            Err(Flaw::MissingField)
        } else {
            Ok(Record::Uv(UvText { u: found[0], v: found[1] }))
        }
    } else if text[start] == LETTER_F && text[start + 1] == SPACE {
        match face_record(text, fields(text, SPACE, start + 2, end), vertex_count) {
            Ok(face) => Ok(Record::Face(face)),
            Err(flaw) => Err(flaw),
        }
    } else {
        Ok(Record::Nothing)
    }
}

/// What the lines say together, read from the first to the last, or the
/// flaw of the first line that has one.
pub open spec fn scan(text: Seq<u8>, lines: Seq<Span>) -> Result<MeshDataView, LoadError>
    decreases lines.len(),
{
    if lines.len() == 0 {
        Ok(MeshDataView { vertices: Seq::empty(), uvs: Seq::empty(), faces: Seq::empty() })
    } else {
        match scan(text, lines.drop_last()) {
            Err(e) => Err(e),
            Ok(mesh) => match record(text, lines.last(), mesh.vertices.len()) {
                Err(flaw) => Err(LoadError::Line { line: (lines.len() - 1) as usize, flaw }),
                Ok(Record::Vertex(v)) => Ok(
                    MeshDataView { vertices: mesh.vertices.push(v), ..mesh },
                ),
                Ok(Record::Uv(t)) => Ok(MeshDataView { uvs: mesh.uvs.push(t), ..mesh }),
                Ok(Record::Face(f)) => Ok(MeshDataView { faces: mesh.faces.push(f), ..mesh }),
                Ok(Record::Nothing) => Ok(mesh),
            },
        }
    }
}

/// Whether the face's texture coordinates are among `uv_count` of them.
pub open spec fn uvs_within(face: Face, uv_count: nat) -> bool {
    face.uva < uv_count && face.uvb < uv_count && face.uvc < uv_count
}

/// The number of the first face at or after `from` that refers to a texture
/// coordinate beyond `uv_count`; the number of faces if there is none.
pub open spec fn first_stray_uv(faces: Seq<Face>, uv_count: nat, from: int) -> int
    decreases faces.len() - from,
{
    if from >= faces.len() {
        faces.len() as int
    } else if !uvs_within(faces[from], uv_count) {
        from
    } else {
        first_stray_uv(faces, uv_count, from + 1)
    }
}

/// The mesh that a file's text gives.
///
/// The text is read line by line, lines ending at each newline byte. A face
/// may refer only to vertices given above it, and to texture coordinates
/// given anywhere in the file.
pub open spec fn parsed(text: Seq<u8>) -> Result<MeshDataView, LoadError> {
    match scan(text, fields(text, NEWLINE, 0, text.len() as int)) {
        Err(e) => Err(e),
        Ok(mesh) => {
            let stray = first_stray_uv(mesh.faces, mesh.uvs.len(), 0);
            if stray < mesh.faces.len() {
                Err(LoadError::UvOutOfRange { face: stray as usize })
            } else {
                Ok(mesh)
            }
        },
    }
}

fn parse_corner(text: &[u8], token: Span) -> (r: Result<(usize, usize), Flaw>)
    requires
        token.within(text@.len()),
    ensures
        r == corner(text@, token),
{
    let parts = split(text, SLASH, token.start, token.end);
    match parse_reference(text, parts[0]) {
        None => Err(Flaw::InvalidIndex),
        Some(vertex) => {
            if parts.len() < 2 {
                Err(Flaw::MissingField)
            } else {
                match parse_reference(text, parts[1]) {
                    None => Err(Flaw::InvalidIndex),
                    Some(uv) => Ok((vertex, uv)),
                }
            }
        },
    }
}

fn parse_face(text: &[u8], tokens: &Vec<Span>, vertex_count: usize) -> (r: Result<Face, Flaw>)
    requires
        forall|k: int| 0 <= k < tokens.len() ==> (#[trigger] tokens[k]).within(text@.len()),
    ensures
        r == face_record(text@, tokens@, vertex_count as nat),
{
    let mut found: Vec<(usize, usize)> = Vec::new();
    let mut i: usize = 0;
    while i < tokens.len()
        invariant
            i <= tokens.len(),
            forall|k: int| 0 <= k < tokens.len() ==> (#[trigger] tokens[k]).within(text@.len()),
            corners(text@, tokens@.take(i as int)) == Ok::<Seq<(usize, usize)>, Flaw>(found@),
        decreases tokens.len() - i,
    {
        proof {
            assert(tokens@.take(i + 1).drop_last() =~= tokens@.take(i as int));
            assert(tokens@.take(i + 1).last() == tokens@[i as int]);
        }
        match parse_corner(text, tokens[i]) {
            Err(flaw) => {
                proof {
                    lemma_corners_flaw_stays(text@, tokens@, i + 1);
                }
                return Err(flaw);
            },
            Ok(c) => {
                found.push(c);
            },
        }
        i += 1;
    }
    proof {
        assert(tokens@.take(tokens.len() as int) =~= tokens@);
    }
    if found.len() < 3 {
        return Err(Flaw::MissingField);
    }
    let (a, uva) = found[0];
    let (b, uvb) = found[1];
    let (c, uvc) = found[2];
    if a >= vertex_count || b >= vertex_count || c >= vertex_count {
        return Err(Flaw::VertexOutOfRange);
    }
    Ok(Face::new(a, b, c, uva, uvb, uvc))
}

proof fn lemma_corners_flaw_stays(text: Seq<u8>, tokens: Seq<Span>, k: int)
    requires
        0 <= k <= tokens.len(),
        corners(text, tokens.take(k)) is Err,
    ensures
        corners(text, tokens) == corners(text, tokens.take(k)),
    decreases tokens.len() - k,
{
    if k < tokens.len() {
        assert(tokens.take(k + 1).drop_last() =~= tokens.take(k));
        lemma_corners_flaw_stays(text, tokens, k + 1);
    } else {
        assert(tokens.take(k) =~= tokens);
    }
}

/// Reads one line.
pub fn parse_line(text: &[u8], line: Span, vertex_count: usize) -> (r: Result<Record, Flaw>)
    requires
        line.within(text@.len()),
    ensures
        r == record(text@, line, vertex_count as nat),
        r matches Ok(Record::Vertex(v)) ==> v.x.within(text@.len()) && v.y.within(text@.len())
            && v.z.within(text@.len()),
        r matches Ok(Record::Uv(t)) ==> t.u.within(text@.len()) && t.v.within(text@.len()),
        r matches Ok(Record::Face(f)) ==> f.a < vertex_count && f.b < vertex_count && f.c
            < vertex_count,
{
    let start = line.start;
    let end = line.end;
    if end - start <= 2 {
        return Ok(Record::Nothing);
    }
    let first: u8 = text[start];
    let second: u8 = text[start + 1];
    if first == LETTER_V && second == SPACE {
        let found = split(text, SPACE, start + 2, end);
        if found.len() < 3 {
            Err(Flaw::MissingField)
        } else {
            Ok(Record::Vertex(VertexText { x: found[0], y: found[1], z: found[2] }))
        }
    } else if first == LETTER_V && second == LETTER_T {
        let found = split(text, SPACE, start + 3, end);
        if found.len() < 2 {
            Err(Flaw::MissingField)
        } else {
            Ok(Record::Uv(UvText { u: found[0], v: found[1] }))
        }
    } else if first == LETTER_F && second == SPACE {
        let tokens = split(text, SPACE, start + 2, end);
        match parse_face(text, &tokens, vertex_count) {
            Ok(face) => Ok(Record::Face(face)),
            Err(flaw) => Err(flaw),
        }
    } else {
        Ok(Record::Nothing)
    }
}

proof fn lemma_first_stray_skip(faces: Seq<Face>, uv_count: nat, from: int, at: int)
    requires
        0 <= from <= at <= faces.len(),
        forall|k: int| from <= k < at ==> uvs_within(#[trigger] faces[k], uv_count),
    ensures
        first_stray_uv(faces, uv_count, from) == first_stray_uv(faces, uv_count, at),
    decreases at - from,
{
    if from < at {
        lemma_first_stray_skip(faces, uv_count, from + 1, at);
    }
}

/// Reads a mesh from the text of its file.
///
/// The file holds one record per line: `v x y z` gives a vertex position,
/// `vt u v` a texture coordinate, and `f i/j i/j i/j` a face whose corners
/// refer, counting from one, to the i-th vertex position and the j-th
/// texture coordinate. The numbers of positions and coordinates are not
/// read here: the result says where in the text each of them stands.
pub fn load(text: &[u8]) -> (r: Result<MeshData, LoadError>)
    ensures
        match r {
            Ok(mesh) => parsed(text@) == Ok::<MeshDataView, LoadError>(mesh@),
            Err(e) => parsed(text@) == Err::<MeshDataView, LoadError>(e),
        },
        r matches Ok(mesh) ==> mesh@.consistent(text@.len()),
{
    let lines = split(text, NEWLINE, 0, text.len());
    let mut mesh = MeshData { vertices: Vec::new(), uvs: Vec::new(), faces: Vec::new() };
    let mut i: usize = 0;
    while i < lines.len()
        invariant
            i <= lines.len(),
            lines@ == fields(text@, NEWLINE, 0, text@.len() as int),
            forall|k: int| 0 <= k < lines.len() ==> (#[trigger] lines[k]).within(text@.len()),
            scan(text@, lines@.take(i as int)) == Ok::<MeshDataView, LoadError>(mesh@),
            forall|k: int|
                0 <= k < mesh.faces.len() ==> (#[trigger] mesh.faces[k]).a < mesh.vertices.len()
                    && mesh.faces[k].b < mesh.vertices.len() && mesh.faces[k].c
                    < mesh.vertices.len(),
            forall|k: int|
                0 <= k < mesh.vertices.len() ==> (#[trigger] mesh.vertices[k]).x.within(
                    text@.len(),
                ) && mesh.vertices[k].y.within(text@.len()) && mesh.vertices[k].z.within(
                    text@.len(),
                ),
            forall|k: int|
                0 <= k < mesh.uvs.len() ==> (#[trigger] mesh.uvs[k]).u.within(text@.len())
                    && mesh.uvs[k].v.within(text@.len()),
        decreases lines.len() - i,
    {
        proof {
            assert(lines@.take(i + 1).drop_last() =~= lines@.take(i as int));
            assert(lines@.take(i + 1).last() == lines@[i as int]);
        }
        match parse_line(text, lines[i], mesh.vertices.len()) {
            Err(flaw) => {
                proof {
                    lemma_scan_error_stays(text@, lines@, i + 1);
                }
                return Err(LoadError::Line { line: i, flaw });
            },
            Ok(Record::Vertex(v)) => {
                mesh.vertices.push(v);
            },
            Ok(Record::Uv(t)) => {
                mesh.uvs.push(t);
            },
            Ok(Record::Face(f)) => {
                mesh.faces.push(f);
            },
            Ok(Record::Nothing) => {},
        }
        i += 1;
    }
    proof {
        assert(lines@.take(lines.len() as int) =~= lines@);
    }
    let mut k: usize = 0;
    while k < mesh.faces.len()
        invariant
            k <= mesh.faces.len(),
            scan(text@, fields(text@, NEWLINE, 0, text@.len() as int)) == Ok::<
                MeshDataView,
                LoadError,
            >(mesh@),
            forall|j: int| 0 <= j < k ==> uvs_within(#[trigger] mesh.faces[j], mesh.uvs@.len()),
        decreases mesh.faces.len() - k,
    {
        let face = mesh.faces[k];
        let uv_count = mesh.uvs.len();
        if face.uva >= uv_count || face.uvb >= uv_count || face.uvc >= uv_count {
            proof {
                lemma_first_stray_skip(mesh.faces@, mesh.uvs@.len(), 0, k as int);
            }
            return Err(LoadError::UvOutOfRange { face: k });
        }
        k += 1;
    }
    proof {
        lemma_first_stray_skip(mesh.faces@, mesh.uvs@.len(), 0, mesh.faces@.len() as int);
    }
    Ok(mesh)
}

proof fn lemma_scan_error_stays(text: Seq<u8>, lines: Seq<Span>, k: int)
    requires
        0 <= k <= lines.len(),
        scan(text, lines.take(k)) is Err,
    ensures
        scan(text, lines) == scan(text, lines.take(k)),
    decreases lines.len() - k,
{
    if k < lines.len() {
        assert(lines.take(k + 1).drop_last() =~= lines.take(k));
        lemma_scan_error_stays(text, lines, k + 1);
    } else {
        assert(lines.take(k) =~= lines);
    }
}

/// The texture coordinate as the renderer takes it. The file counts v from
/// the bottom of the image, the renderer from the top: v becomes 1 - v.
pub open spec fn flipped(coordinate: Vector2) -> Vector2 {
    Vector2 { x: coordinate.x, y: (Scalar { bits: ONE_BITS }).difference(coordinate.y) }
}

/// A face with its normal computed from the given positions.
pub open spec fn with_normal(face: Face, positions: Seq<Vector3>) -> Face {
    Face {
        normal: Face::normal_of(
            positions[face.a as int],
            positions[face.b as int],
            positions[face.c as int],
        ),
        ..face
    }
}

impl MeshData {
    /// Whether the numbers are as many as the data has places for them, and
    /// every face refers to places that there are.
    pub open spec fn fits(&self, positions: Seq<Vector3>, coordinates: Seq<Vector2>) -> bool {
        &&& positions.len() == self.vertices@.len()
        &&& coordinates.len() == self.uvs@.len()
        &&& forall|k: int|
            0 <= k < self.faces@.len() ==> (#[trigger] self.faces@[k]).within(
                positions.len(),
                coordinates.len(),
            )
    }

    /// The mesh that the data describes, given the numbers that its pieces
    /// of text spell: for each vertex its position, for each texture
    /// coordinate its u and v. The mesh has the positions as they are, the
    /// texture coordinates with v flipped, and the faces with their
    /// normals computed. `None` where the numbers do not fit the data.
    pub fn assemble(&self, positions: Vec<Vector3>, coordinates: Vec<Vector2>) -> (mesh: Option<
        Mesh,
    >)
        ensures
            mesh is Some <==> self.fits(positions@, coordinates@),
            mesh matches Some(m) ==> {
                &&& m.valid()
                &&& m.vertices@ == positions@
                &&& m.uvs@ == coordinates@.map_values(|c: Vector2| flipped(c))
                &&& m.faces@ == self.faces@.map_values(|f: Face| with_normal(f, positions@))
                &&& m.transformation@ == Mesh::placed()
                &&& m.shader == Mesh::plain()
            },
    {
        if positions.len() != self.vertices.len() || coordinates.len() != self.uvs.len() {
            return None;
        }
        let mut faces: Vec<Face> = Vec::with_capacity(self.faces.len());
        let mut k: usize = 0;
        while k < self.faces.len()
            invariant
                k <= self.faces@.len(),
                faces@.len() == k,
                positions@.len() == self.vertices@.len(),
                coordinates@.len() == self.uvs@.len(),
                forall|j: int|
                    0 <= j < k ==> (#[trigger] self.faces@[j]).within(
                        positions@.len(),
                        coordinates@.len(),
                    ),
                forall|j: int| 0 <= j < k ==> faces@[j] == with_normal(self.faces@[j], positions@),
            decreases self.faces@.len() - k,
        {
            let mut face = self.faces[k];
            if !face.is_within(positions.len(), coordinates.len()) {
                return None;
            }
            face.compute_normal(positions.as_slice());
            faces.push(face);
            k += 1;
        }
        let mut uvs: Vec<Vector2> = Vec::with_capacity(coordinates.len());
        let mut i: usize = 0;
        while i < coordinates.len()
            invariant
                i <= coordinates@.len(),
                uvs@.len() == i,
                forall|j: int| 0 <= j < i ==> uvs@[j] == flipped(coordinates@[j]),
            decreases coordinates@.len() - i,
        {
            let c = coordinates[i];
            uvs.push(Vector2 { x: c.x, y: Scalar::one().minus(&c.y) });
            i += 1;
        }
        proof {
            assert(uvs@ =~= coordinates@.map_values(|c: Vector2| flipped(c)));
            assert(faces@ =~= self.faces@.map_values(|f: Face| with_normal(f, positions@)));
        }
        let mesh = Mesh::new(positions, faces, uvs);
        proof {
            assert forall|j: int| 0 <= j < mesh.faces@.len() implies (#[trigger] mesh.faces@[j]).within(
                mesh.vertices@.len(),
                mesh.uvs@.len(),
            ) by {
                assert(self.faces@[j].within(positions@.len(), coordinates@.len()));
            }
        }
        Some(mesh)
    }
}

/// The number that a piece of the text spells, if it is a decimal
/// numeral.
pub open spec fn number_at(text: Seq<u8>, span: Span) -> Option<Scalar> {
    match reading(span.of(text)) {
        Reading::Number(s) => Some(s),
        _ => None,
    }
}

/// The position that the text of a vertex spells, if all three of its
/// coordinates are read.
pub open spec fn position_at(text: Seq<u8>, v: VertexText) -> Option<Vector3> {
    match (number_at(text, v.x), number_at(text, v.y), number_at(text, v.z)) {
        (Some(x), Some(y), Some(z)) => Some(Vector3 { x, y, z }),
        _ => None,
    }
}

/// The texture coordinate that the text spells, if both of its components
/// are read.
pub open spec fn coordinate_at(text: Seq<u8>, t: UvText) -> Option<Vector2> {
    match (number_at(text, t.u), number_at(text, t.v)) {
        (Some(x), Some(y)) => Some(Vector2 { x, y }),
        _ => None,
    }
}

/// The number of the first vertex at or after `from` whose position is
/// not read; the number of vertices if there is none.
pub open spec fn first_unread_vertex(text: Seq<u8>, vertices: Seq<VertexText>, from: int) -> int
    decreases vertices.len() - from,
{
    if from >= vertices.len() {
        vertices.len() as int
    } else if position_at(text, vertices[from]) is None {
        from
    } else {
        first_unread_vertex(text, vertices, from + 1)
    }
}

/// The number of the first texture coordinate at or after `from` that is
/// not read; the number of texture coordinates if there is none.
pub open spec fn first_unread_uv(text: Seq<u8>, uvs: Seq<UvText>, from: int) -> int
    decreases uvs.len() - from,
{
    if from >= uvs.len() {
        uvs.len() as int
    } else if coordinate_at(text, uvs[from]) is None {
        from
    } else {
        first_unread_uv(text, uvs, from + 1)
    }
}

proof fn lemma_first_unread_vertex_skip(
    text: Seq<u8>,
    vertices: Seq<VertexText>,
    from: int,
    at: int,
)
    requires
        0 <= from <= at <= vertices.len(),
        forall|k: int| from <= k < at ==> position_at(text, #[trigger] vertices[k]) is Some,
    ensures
        first_unread_vertex(text, vertices, from) == first_unread_vertex(text, vertices, at),
    decreases at - from,
{
    if from < at {
        lemma_first_unread_vertex_skip(text, vertices, from + 1, at);
    }
}

proof fn lemma_first_unread_uv_skip(text: Seq<u8>, uvs: Seq<UvText>, from: int, at: int)
    requires
        0 <= from <= at <= uvs.len(),
        forall|k: int| from <= k < at ==> coordinate_at(text, #[trigger] uvs[k]) is Some,
    ensures
        first_unread_uv(text, uvs, from) == first_unread_uv(text, uvs, at),
    decreases at - from,
{
    if from < at {
        lemma_first_unread_uv_skip(text, uvs, from + 1, at);
    }
}

/// Why a file's text gives no mesh.
#[derive(Clone, Copy, Debug, PartialEq, Eq, Structural)]
pub enum MeshError {
    /// The text is no mesh file.
    Load(LoadError),
    /// The position of the vertex with this number, counting from zero,
    /// is not read: one of its coordinates is no decimal numeral.
    UnreadVertex { index: usize },
    /// The texture coordinate with this number, counting from zero, is
    /// not read: one of its two parts is no decimal numeral.
    UnreadUv { index: usize },
}

fn read_at(text: &[u8], span: Span) -> (r: Option<Scalar>)
    requires
        span.within(text@.len()),
    ensures
        r == number_at(text@, span),
{
    match read_number(vstd::slice::slice_subrange(text, span.start, span.end)) {
        Reading::Number(s) => Some(s),
        _ => None,
    }
}

fn read_position(text: &[u8], v: &VertexText) -> (r: Option<Vector3>)
    requires
        v.x.within(text@.len()),
        v.y.within(text@.len()),
        v.z.within(text@.len()),
    ensures
        r == position_at(text@, *v),
{
    match (read_at(text, v.x), read_at(text, v.y), read_at(text, v.z)) {
        (Some(x), Some(y), Some(z)) => Some(Vector3 { x, y, z }),
        _ => None,
    }
}

fn read_coordinate(text: &[u8], t: &UvText) -> (r: Option<Vector2>)
    requires
        t.u.within(text@.len()),
        t.v.within(text@.len()),
    ensures
        r == coordinate_at(text@, *t),
{
    match (read_at(text, t.u), read_at(text, t.v)) {
        (Some(x), Some(y)) => Some(Vector2 { x, y }),
        _ => None,
    }
}

/// Reads a mesh from the text of its file, numbers and all: the positions
/// as the file gives them, the texture coordinates with v flipped, the
/// faces with their normals computed; not moved, not turned, white all
/// over.
pub fn load_mesh(text: &[u8]) -> (r: Result<Mesh, MeshError>)
    ensures
        match parsed(text@) {
            Err(e) => r == Err::<Mesh, MeshError>(MeshError::Load(e)),
            Ok(data) => {
                let vertex = first_unread_vertex(text@, data.vertices, 0);
                let uv = first_unread_uv(text@, data.uvs, 0);
                if vertex < data.vertices.len() {
                    r == Err::<Mesh, MeshError>(MeshError::UnreadVertex { index: vertex as usize })
                } else if uv < data.uvs.len() {
                    r == Err::<Mesh, MeshError>(MeshError::UnreadUv { index: uv as usize })
                } else {
                    &&& r matches Ok(m)
                    &&& m.valid()
                    &&& m.vertices@ == data.vertices.map_values(
                        |v: VertexText| position_at(text@, v)->0,
                    )
                    &&& m.uvs@ == data.uvs.map_values(
                        |t: UvText| flipped(coordinate_at(text@, t)->0),
                    )
                    &&& m.faces@ == data.faces.map_values(|f: Face| with_normal(f, m.vertices@))
                    &&& m.transformation@ == Mesh::placed()
                    &&& m.shader == Mesh::plain()
                }
            },
        },
{
    let data = match load(text) {
        Ok(data) => data,
        Err(e) => {
            return Err(MeshError::Load(e));
        },
    };
    let mut positions: Vec<Vector3> = Vec::with_capacity(data.vertices.len());
    let mut i: usize = 0;
    while i < data.vertices.len()
        invariant
            i <= data.vertices@.len(),
            data@.consistent(text@.len()),
            parsed(text@) == Ok::<MeshDataView, LoadError>(data@),
            positions@.len() == i,
            forall|k: int|
                0 <= k < i ==> position_at(text@, #[trigger] data.vertices@[k]) == Some(
                    positions@[k],
                ),
        decreases data.vertices@.len() - i,
    {
        let v = data.vertices[i];
        assert(data@.vertices[i as int].x.within(text@.len()));
        match read_position(text, &v) {
            Some(p) => {
                positions.push(p);
            },
            None => {
                proof {
                    lemma_first_unread_vertex_skip(text@, data.vertices@, 0, i as int);
                }
                return Err(MeshError::UnreadVertex { index: i });
            },
        }
        i += 1;
    }
    let mut coordinates: Vec<Vector2> = Vec::with_capacity(data.uvs.len());
    let mut j: usize = 0;
    while j < data.uvs.len()
        invariant
            j <= data.uvs@.len(),
            data@.consistent(text@.len()),
            parsed(text@) == Ok::<MeshDataView, LoadError>(data@),
            positions@.len() == data.vertices@.len(),
            forall|k: int|
                0 <= k < data.vertices@.len() ==> position_at(
                    text@,
                    #[trigger] data.vertices@[k],
                ) == Some(positions@[k]),
            coordinates@.len() == j,
            forall|k: int|
                0 <= k < j ==> coordinate_at(text@, #[trigger] data.uvs@[k]) == Some(
                    coordinates@[k],
                ),
        decreases data.uvs@.len() - j,
    {
        let t = data.uvs[j];
        assert(data@.uvs[j as int].u.within(text@.len()));
        match read_coordinate(text, &t) {
            Some(c) => {
                coordinates.push(c);
            },
            None => {
                proof {
                    lemma_first_unread_vertex_skip(
                        text@,
                        data.vertices@,
                        0,
                        data.vertices@.len() as int,
                    );
                    lemma_first_unread_uv_skip(text@, data.uvs@, 0, j as int);
                }
                return Err(MeshError::UnreadUv { index: j });
            },
        }
        j += 1;
    }
    proof {
        lemma_first_unread_vertex_skip(text@, data.vertices@, 0, data.vertices@.len() as int);
        lemma_first_unread_uv_skip(text@, data.uvs@, 0, data.uvs@.len() as int);
        assert(positions@ =~= data.vertices@.map_values(
            |v: VertexText| position_at(text@, v)->0,
        ));
        assert(coordinates@.map_values(|c: Vector2| flipped(c)) =~= data.uvs@.map_values(
            |t: UvText| flipped(coordinate_at(text@, t)->0),
        ));
        assert(data.fits(positions@, coordinates@));
    }
    match data.assemble(positions, coordinates) {
        Some(mesh) => Ok(mesh),
        None => Err(MeshError::UnreadVertex { index: 0 }),
    }
}

} // verus!

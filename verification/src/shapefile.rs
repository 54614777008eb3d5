//! The geometry file: a fixed header and a stream of shape records of
//! varying length.
//!
//! A coordinate is kept as the 64 bits of its IEEE 754 double-precision
//! encoding, as they stand in the file.

use crate::bytes::{be_u32, be_u32_at, le_i32, le_i32_at, le_u32, le_u32_at, le_u64, le_u64_at};
use vstd::prelude::*;
use vstd::slice::slice_subrange;

verus! {

/// A point of the plane. `x` and `y` hold the bits of a double-precision
/// number.
#[derive(Debug, Copy, Clone, PartialEq, Eq, Structural)]
pub struct Point {
    pub x: u64,
    pub y: u64,
}

/// The rectangle between two corners.
#[derive(Debug, Copy, Clone, PartialEq, Eq, Structural)]
pub struct BoundingBox {
    pub min: Point,
    pub max: Point,
}

/// The kinds of shape that the format names.
#[derive(Debug, Copy, Clone, PartialEq, Eq, Structural)]
pub enum ShapeType {
    Null,
    Point,
    Polyline,
    Polygon,
    MultiPoint,
    PointZ,
    PolylineZ,
    PolygonZ,
    MultiPointZ,
    PointM,
    PolylineM,
    PolygonM,
    MultiPointM,
    MultiPatch,
}

/// Why a geometry file, or a record of one, does not decode.
#[derive(Debug, Copy, Clone, PartialEq, Eq, Structural)]
pub enum ShapeError {
    /// The bytes end before the header or a record does.
    UnexpectedEof,
    /// The file does not start with the magic number.
    InvalidMagic,
    /// The header states another length than the file has.
    LengthMismatch,
    /// A shape type code that the format does not name.
    InvalidShapeType,
    /// A shape with Z or M values, or a multi-patch.
    UnsupportedShapeType,
}

impl ShapeError {
    /// What the error says in words.
    pub open spec fn message_text(self) -> Seq<char> {
        match self {
            ShapeError::UnexpectedEof => "failed to fill whole buffer"@,
            ShapeError::InvalidMagic => "invalid .shp file, magic number is wrong"@,
            ShapeError::LengthMismatch => "file length field doesn't match header"@,
            ShapeError::InvalidShapeType => "invalid shape type"@,
            ShapeError::UnsupportedShapeType => "shape type not implemented yet"@,
        }
    }

    /// What the error says in words.
    pub fn message(&self) -> (text: String)
        ensures
            text@ == self.message_text(),
    {
        match self {
            ShapeError::UnexpectedEof => "failed to fill whole buffer".to_owned(),
            ShapeError::InvalidMagic => "invalid .shp file, magic number is wrong".to_owned(),
            ShapeError::LengthMismatch => "file length field doesn't match header".to_owned(),
            ShapeError::InvalidShapeType => "invalid shape type".to_owned(),
            ShapeError::UnsupportedShapeType => "shape type not implemented yet".to_owned(),
        }
    }
}

/// The bits of the quiet not-a-number that marks a missing coordinate.
pub const NAN_BITS: u64 = 0x7ff8_0000_0000_0000;

/// `bits` encode a not-a-number: every exponent bit is set, and some bit of
/// the fraction.
pub open spec fn is_nan(bits: u64) -> bool {
    bits & 0x7ff0_0000_0000_0000 == 0x7ff0_0000_0000_0000 && bits & 0x000f_ffff_ffff_ffff != 0
}

/// The shape type that a code stands for: 0 a null shape, 1 a point, 3 a
/// polyline, 5 a polygon, 6 a multi-point; 11, 13, 15 and 18 the same four
/// with Z values, 21, 23, 25 and 28 with M values; 31 a multi-patch.
pub open spec fn shape_type_of(code: int) -> Option<ShapeType> {
    if code == 0 {
        Some(ShapeType::Null)
    } else if code == 1 {
        Some(ShapeType::Point)
    } else if code == 3 {
        Some(ShapeType::Polyline)
    } else if code == 5 {
        Some(ShapeType::Polygon)
    } else if code == 6 {
        Some(ShapeType::MultiPoint)
    } else if code == 11 {
        Some(ShapeType::PointZ)
    } else if code == 13 {
        Some(ShapeType::PolylineZ)
    } else if code == 15 {
        Some(ShapeType::PolygonZ)
    } else if code == 18 {
        Some(ShapeType::MultiPointZ)
    } else if code == 21 {
        Some(ShapeType::PointM)
    } else if code == 23 {
        Some(ShapeType::PolylineM)
    } else if code == 25 {
        Some(ShapeType::PolygonM)
    } else if code == 28 {
        Some(ShapeType::MultiPointM)
    } else if code == 31 {
        Some(ShapeType::MultiPatch)
    } else {
        None
    }
}

/// The point whose sixteen bytes start at `at`: `x`, then `y`, each little
/// endian.
pub open spec fn point_at(s: Seq<u8>, at: int) -> Point {
    Point { x: le_u64_at(s, at) as u64, y: le_u64_at(s, at + 8) as u64 }
}

/// The bounding box whose thirty-two bytes start at `at`: the least corner,
/// then the greatest.
pub open spec fn bounding_box_at(s: Seq<u8>, at: int) -> BoundingBox {
    BoundingBox { min: point_at(s, at), max: point_at(s, at + 16) }
}

/// The `count` points that lie one behind the other from `at`.
pub open spec fn points_at(s: Seq<u8>, at: int, count: int) -> Seq<Point> {
    Seq::new(count as nat, |i: int| point_at(s, at + 16 * i))
}

/// The index at which part `i` starts, from the table of part starts at
/// `at`.
pub open spec fn part_start(s: Seq<u8>, at: int, i: int) -> usize {
    le_u32_at(s, at + 4 * i) as usize
}

/// The parts of a shape of `num_points` points whose table of `num_parts`
/// part starts lies at `at`. Each part runs from its start to the start of
/// the next, the last to the number of points. A table of one start, or of
/// none, gives one part that spans all the points.
pub open spec fn parts_at(s: Seq<u8>, at: int, num_parts: int, num_points: int) -> Seq<
    (usize, usize),
> {
    if num_parts <= 1 {
        seq![(0usize, num_points as usize)]
    } else {
        Seq::new(
            num_parts as nat,
            |i: int|
                (
                    part_start(s, at, i),
                    if i + 1 < num_parts {
                        part_start(s, at, i + 1)
                    } else {
                        num_points as usize
                    },
                ),
        )
    }
}

impl ShapeType {
    /// The shape type that `code` stands for, if it stands for one.
    pub fn from_i32(code: i32) -> (r: Option<ShapeType>)
        ensures
            r == shape_type_of(code as int),
    {
        match code {
            0 => Some(ShapeType::Null),
            1 => Some(ShapeType::Point),
            3 => Some(ShapeType::Polyline),
            5 => Some(ShapeType::Polygon),
            6 => Some(ShapeType::MultiPoint),
            11 => Some(ShapeType::PointZ),
            13 => Some(ShapeType::PolylineZ),
            15 => Some(ShapeType::PolygonZ),
            18 => Some(ShapeType::MultiPointZ),
            21 => Some(ShapeType::PointM),
            23 => Some(ShapeType::PolylineM),
            25 => Some(ShapeType::PolygonM),
            28 => Some(ShapeType::MultiPointM),
            31 => Some(ShapeType::MultiPatch),
            _ => None,
        }
    }
}

impl Point {
    /// The point of the given coordinates, each as the bits of a
    /// double-precision number.
    pub fn new(x: u64, y: u64) -> (p: Point)
        ensures
            p == (Point { x, y }),
    {
        Point { x, y }
    }

    /// Reads a point from the first sixteen bytes of `bytes`.
    pub fn from_bytes(bytes: &[u8]) -> (p: Point)
        requires
            bytes.len() >= 16,
        ensures
            p == point_at(bytes@, 0),
    {
        Point { x: le_u64(bytes, 0), y: le_u64(bytes, 8) }
    }
}

impl BoundingBox {
    /// Reads a bounding box from the first thirty-two bytes of `bytes`.
    pub fn from_bytes(bytes: &[u8]) -> (b: BoundingBox)
        requires
            bytes.len() >= 32,
        ensures
            b == bounding_box_at(bytes@, 0),
    {
        BoundingBox {
            min: Point::new(le_u64(bytes, 0), le_u64(bytes, 8)),
            max: Point::new(le_u64(bytes, 16), le_u64(bytes, 24)),
        }
    }

    /// The box that holds `p` alone.
    pub fn from_point(p: Point) -> (b: BoundingBox)
        ensures
            b == (BoundingBox { min: p, max: p }),
    {
        BoundingBox { min: p, max: p }
    }

    /// The box of a shape without extent: each coordinate is a
    /// not-a-number.
    pub fn nans() -> (b: BoundingBox)
        ensures
            b == (BoundingBox {
                min: Point { x: NAN_BITS, y: NAN_BITS },
                max: Point { x: NAN_BITS, y: NAN_BITS },
            }),
            is_nan(b.min.x) && is_nan(b.min.y) && is_nan(b.max.x) && is_nan(b.max.y),
    {
        assert(is_nan(NAN_BITS)) by (bit_vector);
        BoundingBox { min: Point::new(NAN_BITS, NAN_BITS), max: Point::new(NAN_BITS, NAN_BITS) }
    }
}

/// Reads `num_points` points that lie one behind the other from the start
/// of `bytes`.
pub fn read_points(bytes: &[u8], num_points: usize) -> (points: Vec<Point>)
    requires
        16 * num_points <= bytes.len(),
    ensures
        points@ == points_at(bytes@, 0, num_points as int),
{
    let mut points: Vec<Point> = Vec::with_capacity(num_points);
    let mut i: usize = 0;
    while i < num_points
        invariant
            i <= num_points,
            16 * num_points <= bytes.len(),
            points.len() == i,
            forall|j: int| 0 <= j < i ==> points[j] == point_at(bytes@, 16 * j),
        decreases num_points - i,
    {
        let start = 16 * i;
        points.push(Point::from_bytes(slice_subrange(bytes, start, start + 16)));
        i += 1;
    }
    assert(points@ =~= points_at(bytes@, 0, num_points as int));
    points
}

/// Reads the parts of a shape of `num_points` points from the table of
/// `num_parts` part starts at the start of `bytes`.
pub fn read_parts(bytes: &[u8], num_parts: usize, num_points: usize) -> (parts: Vec<(usize, usize)>)
    requires
        4 * num_parts <= bytes.len(),
    ensures
        parts@ == parts_at(bytes@, 0, num_parts as int, num_points as int),
{
    let mut parts: Vec<(usize, usize)> = Vec::with_capacity(num_parts);
    if num_parts <= 1 {
        parts.push((0, num_points));
        assert(parts@ =~= parts_at(bytes@, 0, num_parts as int, num_points as int));
        return parts;
    }
    let mut i: usize = 0;
    while i < num_parts - 1
        invariant
            2 <= num_parts,
            i <= num_parts - 1,
            4 * num_parts <= bytes.len(),
            parts.len() == i,
            forall|j: int|
                0 <= j < i ==> parts[j] == (part_start(bytes@, 0, j), part_start(bytes@, 0, j + 1)),
        decreases num_parts - i,
    {
        parts.push((le_u32(bytes, 4 * i) as usize, le_u32(bytes, 4 * (i + 1)) as usize));
        i += 1;
    }
    let last = parts[i - 1].1;
    parts.push((last, num_points));
    assert(parts@ =~= parts_at(bytes@, 0, num_parts as int, num_points as int));
    parts
}

/// One decoded shape record.
pub struct Shape {
    shape_type: ShapeType,
    bounding_box: BoundingBox,
    points: Vec<Point>,
    parts: Vec<(usize, usize)>,
}

/// What a `Shape` holds.
pub struct ShapeView {
    pub shape_type: ShapeType,
    pub bounding_box: BoundingBox,
    pub points: Seq<Point>,
    /// The parts, each as the index of its first point and the index behind
    /// its last.
    pub parts: Seq<(usize, usize)>,
}

impl View for Shape {
    type V = ShapeView;

    closed spec fn view(&self) -> ShapeView {
        ShapeView {
            shape_type: self.shape_type,
            bounding_box: self.bounding_box,
            points: self.points@,
            parts: self.parts@,
        }
    }
}

/// The shape types whose records are decoded: those without Z or M values.
pub open spec fn is_supported(kind: ShapeType) -> bool {
    kind == ShapeType::Null || kind == ShapeType::Point || kind == ShapeType::MultiPoint || kind
        == ShapeType::Polyline || kind == ShapeType::Polygon
}

/// The length in bytes of the record at the start of `s`: its prefix of
/// eight bytes, and the content, whose length the prefix gives in words of
/// two bytes.
pub open spec fn record_size(s: Seq<u8>) -> int {
    8 + 2 * be_u32_at(s, 4)
}

/// The number of bytes, from the start of the record, that are read for a
/// shape of type `kind`: up to the end of its last point.
pub open spec fn payload_end(s: Seq<u8>, kind: ShapeType) -> int {
    match kind {
        ShapeType::Point => 28,
        ShapeType::MultiPoint => if s.len() < 48 {
            48
        } else {
            48 + 16 * le_u32_at(s, 44)
        },
        ShapeType::Polyline | ShapeType::Polygon => if s.len() < 52 {
            52
        } else {
            52 + 4 * le_u32_at(s, 44) + 16 * le_u32_at(s, 48)
        },
        _ => 12,
    }
}

/// Why the record at the start of `s` does not decode, if it does not. The
/// shape type is looked at first; then the bytes must hold what the type
/// calls for, and all of the record as its prefix measures it.
pub open spec fn shape_error(s: Seq<u8>) -> Option<ShapeError> {
    if s.len() < 12 {
        Some(ShapeError::UnexpectedEof)
    } else {
        match shape_type_of(le_i32_at(s, 8)) {
            None => Some(ShapeError::InvalidShapeType),
            Some(kind) => if !is_supported(kind) {
                Some(ShapeError::UnsupportedShapeType)
            } else if s.len() < payload_end(s, kind) || s.len() < record_size(s) {
                Some(ShapeError::UnexpectedEof)
            } else {
                None
            },
        }
    }
}

/// The shape that the record at the start of `s` holds.
pub open spec fn shape_of(s: Seq<u8>) -> ShapeView {
    let nan = Point { x: NAN_BITS, y: NAN_BITS };
    match shape_type_of(le_i32_at(s, 8)) {
        Some(ShapeType::Point) => ShapeView {
            shape_type: ShapeType::Point,
            bounding_box: BoundingBox { min: point_at(s, 12), max: point_at(s, 12) },
            points: seq![point_at(s, 12)],
            parts: seq![(0usize, 1usize)],
        },
        Some(ShapeType::MultiPoint) => ShapeView {
            shape_type: ShapeType::MultiPoint,
            bounding_box: bounding_box_at(s, 12),
            points: points_at(s, 48, le_u32_at(s, 44)),
            parts: seq![(0usize, le_u32_at(s, 44) as usize)],
        },
        Some(ShapeType::Polyline) => ShapeView {
            shape_type: ShapeType::Polyline,
            bounding_box: bounding_box_at(s, 12),
            points: points_at(s, 52 + 4 * le_u32_at(s, 44), le_u32_at(s, 48)),
            parts: parts_at(s, 52, le_u32_at(s, 44), le_u32_at(s, 48)),
        },
        Some(ShapeType::Polygon) => ShapeView {
            shape_type: ShapeType::Polygon,
            bounding_box: bounding_box_at(s, 12),
            points: points_at(s, 52 + 4 * le_u32_at(s, 44), le_u32_at(s, 48)),
            parts: parts_at(s, 52, le_u32_at(s, 44), le_u32_at(s, 48)),
        },
        _ => ShapeView {
            shape_type: ShapeType::Null,
            bounding_box: BoundingBox { min: nan, max: nan },
            points: Seq::empty(),
            parts: Seq::empty(),
        },
    }
}

impl ShapeView {
    /// Each part ends where the next starts, and the last where the points
    /// end. A shape without parts is a null shape, and has no points.
    pub open spec fn wf(self) -> bool {
        &&& is_supported(self.shape_type)
        &&& forall|i: int, j: int|
            0 <= i && j == i + 1 && j < self.parts.len() ==> (#[trigger] self.parts[i]).1 == (
            #[trigger] self.parts[j]).0
        &&& self.parts.len() > 0 ==> self.parts.last().1 == self.points.len()
        &&& self.parts.len() == 0 <==> self.shape_type == ShapeType::Null
        &&& self.shape_type == ShapeType::Null ==> self.points.len() == 0
    }
}

/// Points read from a window of the bytes are the points at that place in
/// the bytes.
proof fn lemma_points_in_window(s: Seq<u8>, from: int, to: int, count: int)
    requires
        0 <= from <= to <= s.len(),
        0 <= count,
        from + 16 * count <= to,
    ensures
        points_at(s.subrange(from, to), 0, count) == points_at(s, from, count),
{
    let window = s.subrange(from, to);
    assert forall|i: int| 0 <= i < count implies #[trigger] points_at(window, 0, count)[i]
        == points_at(s, from, count)[i] by {
        lemma_point_in_window(s, from, to, 16 * i);
    }
    assert(points_at(window, 0, count) =~= points_at(s, from, count));
}

/// A point read from a window of the bytes is the point at that place in
/// the bytes.
proof fn lemma_point_in_window(s: Seq<u8>, from: int, to: int, at: int)
    requires
        0 <= from <= to <= s.len(),
        0 <= at,
        from + at + 16 <= to,
    ensures
        point_at(s.subrange(from, to), at) == point_at(s, from + at),
{
}

/// Parts read from a window of the bytes are the parts at that place in
/// the bytes.
proof fn lemma_parts_in_window(
    s: Seq<u8>,
    from: int,
    to: int,
    num_parts: int,
    num_points: int,
)
    requires
        0 <= from <= to <= s.len(),
        0 <= num_parts,
        from + 4 * num_parts <= to,
    ensures
        parts_at(s.subrange(from, to), 0, num_parts, num_points) == parts_at(
            s,
            from,
            num_parts,
            num_points,
        ),
{
    let window = s.subrange(from, to);
    assert forall|i: int| 0 <= i < num_parts implies #[trigger] part_start(window, 0, i)
        == part_start(s, from, i) by {}
    assert(parts_at(window, 0, num_parts, num_points) =~= parts_at(
        s,
        from,
        num_parts,
        num_points,
    ));
}

impl Shape {
    /// The parts chain up to the number of points.
    pub open spec fn wf(&self) -> bool {
        self@.wf()
    }

    #[verifier::type_invariant]
    spec fn inv(self) -> bool {
        self.wf()
    }

    /// Decodes the record at the start of `bytes` and moves `bytes` behind
    /// it. Where the record does not decode, `bytes` stay as they are.
    pub fn from_bytes(bytes: &mut &[u8]) -> (r: Result<Shape, ShapeError>)
        ensures
            match r {
                Ok(shape) => {
                    &&& shape_error(old(bytes)@) is None
                    &&& shape@ == shape_of(old(bytes)@)
                    &&& shape.wf()
                    &&& final(bytes)@ == old(bytes)@.skip(record_size(old(bytes)@))
                },
                Err(e) => shape_error(old(bytes)@) == Some(e) && final(bytes)@ == old(bytes)@,
            },
    {
        let all: &[u8] = *bytes;
        let len = all.len();
        if len < 12 {
            return Err(ShapeError::UnexpectedEof);
        }
        let record_length = 8 + 2 * (be_u32(all, 4) as u64);
        let shape_type = match ShapeType::from_i32(le_i32(all, 8)) {
            Some(shape_type) => shape_type,
            None => {
                return Err(ShapeError::InvalidShapeType);
            },
        };
        let bounding_box: BoundingBox;
        let points: Vec<Point>;
        let parts: Vec<(usize, usize)>;
        match shape_type {
            ShapeType::Null => {
                bounding_box = BoundingBox::nans();
                points = Vec::new();
                parts = Vec::new();
            },
            ShapeType::Point => {
                if len < 28 {
                    return Err(ShapeError::UnexpectedEof);
                }
                let p = Point::from_bytes(slice_subrange(all, 12, 28));
                bounding_box = BoundingBox::from_point(p);
                points = vec![p];
                parts = vec![(0, 1)];
            },
            ShapeType::MultiPoint => {
                if len < 48 {
                    return Err(ShapeError::UnexpectedEof);
                }
                bounding_box = BoundingBox::from_bytes(slice_subrange(all, 12, 44));
                let num_points = le_u32(all, 44);
                if (len - 48) as u64 / 16 < num_points as u64 {
                    return Err(ShapeError::UnexpectedEof);
                }
                proof {
                    lemma_points_in_window(all@, 48, len as int, num_points as int);
                }
                points = read_points(slice_subrange(all, 48, len), num_points as usize);
                parts = vec![(0, points.len())];
            },
            ShapeType::Polyline | ShapeType::Polygon => {
                if len < 52 {
                    return Err(ShapeError::UnexpectedEof);
                }
                bounding_box = BoundingBox::from_bytes(slice_subrange(all, 12, 44));
                let num_parts = le_u32(all, 44);
                let num_points = le_u32(all, 48);
                let needed = 52 + 4 * (num_parts as u64) + 16 * (num_points as u64);
                if (len as u64) < needed {
                    return Err(ShapeError::UnexpectedEof);
                }
                let points_start = 52 + 4 * (num_parts as usize);
                proof {
                    lemma_parts_in_window(
                        all@,
                        52,
                        len as int,
                        num_parts as int,
                        num_points as int,
                    );
                    lemma_points_in_window(all@, points_start as int, len as int, num_points as int);
                }
                parts =
                read_parts(slice_subrange(all, 52, len), num_parts as usize, num_points as usize);
                points = read_points(slice_subrange(all, points_start, len), num_points as usize);
            },
            _ => {
                return Err(ShapeError::UnsupportedShapeType);
            },
        }
        if (len as u64) < record_length {
            return Err(ShapeError::UnexpectedEof);
        }
        let shape = Shape { shape_type, bounding_box, points, parts };
        assert(shape@.points =~= shape_of(all@).points);
        assert(shape@.parts =~= shape_of(all@).parts);
        *bytes = slice_subrange(all, record_length as usize, len);
        Ok(shape)
    }

    /// The kind of the shape.
    pub fn shape_type(&self) -> (kind: ShapeType)
        ensures
            kind == self@.shape_type,
    {
        self.shape_type
    }

    /// The bounding box as the record states it; for a point the point
    /// itself, for a null shape not-a-numbers.
    pub fn bounding_box(&self) -> (b: &BoundingBox)
        ensures
            *b == self@.bounding_box,
    {
        &self.bounding_box
    }

    /// The points of all parts, one part behind the other.
    pub fn points(&self) -> (points: &[Point])
        ensures
            points@ == self@.points,
    {
        self.points.as_slice()
    }

    /// The parts, each as the index of its first point and the index
    /// behind its last.
    pub fn parts(&self) -> (parts: &[(usize, usize)])
        ensures
            parts@ == self@.parts,
            self.wf(),
    {
        proof {
            use_type_invariant(self);
        }
        self.parts.as_slice()
    }
}

/// The number that a geometry file starts with, big endian.
pub const MAGIC: u32 = 0x0000_270a;

/// The length in bytes of the header of a geometry file.
pub const HEADER_LEN: usize = 100;

/// Why the stream of records `s` does not decode, if it does not: the
/// error of the first record that has one.
pub open spec fn shapes_error(s: Seq<u8>) -> Option<ShapeError>
    decreases s.len(),
{
    if s.len() == 0 {
        None
    } else if shape_error(s) is Some {
        shape_error(s)
    } else {
        shapes_error(s.skip(record_size(s)))
    }
}

/// The shapes that the stream of records `s` holds, up to its end or to the
/// first record that does not decode.
pub open spec fn shapes_of(s: Seq<u8>) -> Seq<ShapeView>
    decreases s.len(),
{
    if s.len() == 0 || shape_error(s) is Some {
        Seq::empty()
    } else {
        seq![shape_of(s)] + shapes_of(s.skip(record_size(s)))
    }
}

/// Why `bytes` are no geometry file, if they are none: the first of the
/// errors in the order length of the header, magic number, stated length,
/// shape type of the file, records.
pub open spec fn file_error(bytes: Seq<u8>) -> Option<ShapeError> {
    if bytes.len() < HEADER_LEN {
        Some(ShapeError::UnexpectedEof)
    } else if be_u32_at(bytes, 0) != MAGIC {
        Some(ShapeError::InvalidMagic)
    } else if 2 * be_u32_at(bytes, 24) != bytes.len() {
        Some(ShapeError::LengthMismatch)
    } else if shape_type_of(le_i32_at(bytes, 32)) is None {
        Some(ShapeError::InvalidShapeType)
    } else {
        shapes_error(bytes.skip(HEADER_LEN as int))
    }
}

/// What a `ShapeFile` holds.
pub struct ShapeFileView {
    pub bounding_box: BoundingBox,
    pub shape_type: ShapeType,
    pub shapes: Seq<ShapeView>,
}

/// The geometry file that `bytes` hold.
pub open spec fn file_of(bytes: Seq<u8>) -> ShapeFileView {
    ShapeFileView {
        bounding_box: bounding_box_at(bytes, 36),
        shape_type: shape_type_of(le_i32_at(bytes, 32))->0,
        shapes: shapes_of(bytes.skip(HEADER_LEN as int)),
    }
}

/// A loaded geometry file.
pub struct ShapeFile {
    /// The extent of all shapes, as the header states it.
    pub bounding_box: BoundingBox,
    shape_type: ShapeType,
    shapes: Vec<Shape>,
}

impl View for ShapeFile {
    type V = ShapeFileView;

    closed spec fn view(&self) -> ShapeFileView {
        ShapeFileView {
            bounding_box: self.bounding_box,
            shape_type: self.shape_type,
            shapes: self.shapes@.map_values(|shape: Shape| shape@),
        }
    }
}

impl ShapeFile {
    /// Decodes a geometry file from the bytes of the whole file.
    ///
    /// The header is checked first: its length, the magic number, the
    /// length that it states for the file, the shape type. Then the records
    /// are decoded one behind the other until the bytes end. The first
    /// thing that is wrong decides the error.
    pub fn from_bytes(bytes: &[u8]) -> (r: Result<ShapeFile, ShapeError>)
        ensures
            match r {
                Ok(file) => file_error(bytes@) is None && file@ == file_of(bytes@),
                Err(e) => file_error(bytes@) == Some(e),
            },
            bytes.len() >= HEADER_LEN && be_u32_at(bytes@, 0) != MAGIC ==> r is Err && r->Err_0
                == ShapeError::InvalidMagic,
            bytes.len() >= HEADER_LEN && be_u32_at(bytes@, 0) == MAGIC && 2 * be_u32_at(bytes@, 24)
                != bytes.len() ==> r is Err && r->Err_0 == ShapeError::LengthMismatch,
    {
        if bytes.len() < HEADER_LEN {
            return Err(ShapeError::UnexpectedEof);
        }
        if be_u32(bytes, 0) != MAGIC {
            return Err(ShapeError::InvalidMagic);
        }
        let file_length = 2 * (be_u32(bytes, 24) as u64);
        if bytes.len() as u64 != file_length {
            return Err(ShapeError::LengthMismatch);
        }
        let shape_type = match ShapeType::from_i32(le_i32(bytes, 32)) {
            Some(shape_type) => shape_type,
            None => {
                return Err(ShapeError::InvalidShapeType);
            },
        };
        let bounding_box = BoundingBox::from_bytes(slice_subrange(bytes, 36, 68));
        let mut shapes: Vec<Shape> = Vec::new();
        let mut rest = slice_subrange(bytes, HEADER_LEN, bytes.len());
        let ghost stream = bytes@.skip(HEADER_LEN as int);
        assert(rest@ =~= stream);
        while !rest.is_empty()
            invariant
                bytes.len() >= HEADER_LEN,
                be_u32_at(bytes@, 0) == MAGIC,
                2 * be_u32_at(bytes@, 24) == bytes.len(),
                file_error(bytes@) == shapes_error(stream),
                shapes_error(stream) == shapes_error(rest@),
                shapes_of(stream) == shapes@.map_values(|shape: Shape| shape@) + shapes_of(rest@),
            decreases rest@.len(),
        {
            let ghost before = rest@;
            let ghost done = shapes@.map_values(|shape: Shape| shape@);
            match Shape::from_bytes(&mut rest) {
                Ok(shape) => {
                    shapes.push(shape);
                    assert(shapes@.map_values(|shape: Shape| shape@) =~= done + seq![
                        shape_of(before),
                    ]);
                    assert(done + (seq![shape_of(before)] + shapes_of(rest@)) =~= (done + seq![
                        shape_of(before),
                    ]) + shapes_of(rest@));
                },
                Err(e) => {
                    return Err(e);
                },
            }
        }
        let file = ShapeFile { bounding_box, shape_type, shapes };
        assert(file@.shapes =~= file_of(bytes@).shapes);
        Ok(file)
    }

    /// The shape type that the header states for the file.
    pub fn shape_type(&self) -> (kind: ShapeType)
        ensures
            kind == self@.shape_type,
    {
        self.shape_type
    }

    /// The shapes, in the order of their records.
    pub fn shapes(&self) -> (shapes: &[Shape])
        ensures
            shapes@.map_values(|shape: Shape| shape@) == self@.shapes,
    {
        self.shapes.as_slice()
    }
}

/// A file whose one record is a point holds one shape: the point, alone in
/// its one part, and at both corners of its bounding box.
pub proof fn lemma_single_point_file(bytes: Seq<u8>)
    requires
        bytes.len() >= HEADER_LEN + 28,
        be_u32_at(bytes, 0) == MAGIC,
        2 * be_u32_at(bytes, 24) == bytes.len(),
        shape_type_of(le_i32_at(bytes, 32)) is Some,
        shape_type_of(le_i32_at(bytes, HEADER_LEN + 8)) == Some(ShapeType::Point),
        record_size(bytes.skip(HEADER_LEN as int)) == bytes.len() - HEADER_LEN,
    ensures
        file_error(bytes) is None,
        file_of(bytes).shapes == seq![
            ShapeView {
                shape_type: ShapeType::Point,
                bounding_box: BoundingBox {
                    min: point_at(bytes, HEADER_LEN + 12),
                    max: point_at(bytes, HEADER_LEN + 12),
                },
                points: seq![point_at(bytes, HEADER_LEN + 12)],
                parts: seq![(0usize, 1usize)],
            },
        ],
{
    let stream = bytes.skip(HEADER_LEN as int);
    let rest = stream.skip(record_size(stream));
    assert(le_i32_at(stream, 8) == le_i32_at(bytes, HEADER_LEN + 8));
    assert(point_at(stream, 12) == point_at(bytes, HEADER_LEN + 12));
    assert(rest.len() == 0);
    assert(shape_error(stream) is None);
    assert(shapes_error(rest) is None);
    assert(shapes_error(stream) == shapes_error(rest));
    assert(shapes_of(rest) == Seq::<ShapeView>::empty());
    assert(shapes_of(stream) == seq![shape_of(stream)] + shapes_of(rest));
    assert(shapes_of(stream) =~= seq![shape_of(stream)]);
}

/// Where the table of part starts begins with 0, never falls and stays
/// within the points, the parts split the points among them: the first part
/// starts at 0, no part ends before it starts, each part ends where the
/// next starts, and the last part ends with the points.
pub proof fn lemma_parts_partition(s: Seq<u8>, at: int, num_parts: int, num_points: int)
    requires
        0 <= num_points <= usize::MAX,
        num_parts >= 2 ==> part_start(s, at, 0) == 0,
        forall|i: int, j: int|
            0 <= i <= j < num_parts ==> #[trigger] part_start(s, at, i) <= #[trigger] part_start(
                s,
                at,
                j,
            ),
        num_parts >= 2 ==> part_start(s, at, num_parts - 1) <= num_points,
    ensures
        ({
            let parts = parts_at(s, at, num_parts, num_points);
            &&& parts.len() >= 1
            &&& parts.len() == num_parts || num_parts <= 1
            &&& parts[0].0 == 0
            &&& parts.last().1 == num_points
            &&& forall|i: int| 0 <= i < parts.len() ==> (#[trigger] parts[i]).0 <= parts[i].1
            &&& forall|i: int, j: int|
                0 <= i && j == i + 1 && j < parts.len() ==> (#[trigger] parts[i]).1 == (
                #[trigger] parts[j]).0
        }),
{
    let parts = parts_at(s, at, num_parts, num_points);
    if num_parts >= 2 {
        assert forall|i: int| 0 <= i < parts.len() implies (#[trigger] parts[i]).0
            <= parts[i].1 by {
            if i + 1 < num_parts {
                assert(part_start(s, at, i) <= part_start(s, at, i + 1));
            } else {
                assert(part_start(s, at, i) <= part_start(s, at, num_parts - 1));
            }
        }
    }
}

} // verus!

//! Geometry types, coordinate dimensions and the EWKB flag bits.
use crate::error::{Error, Result};
use vstd::prelude::*;

verus! {

/// EWKB flag: the geometry carries a Z coordinate.
pub const EWKB_Z: u32 = 0x8000_0000u32;

/// EWKB flag: the geometry carries an M coordinate.
pub const EWKB_M: u32 = 0x4000_0000u32;

/// EWKB flag: an SRID field follows the type word.
pub const EWKB_SRID: u32 = 0x2000_0000u32;

/// The seven OGC geometry types.
#[derive(Debug, Clone, Copy, PartialEq, Eq, Structural)]
pub enum GeomType {
    Point,
    LineString,
    Polygon,
    MultiPoint,
    MultiLineString,
    MultiPolygon,
    GeometryCollection,
}

/// Coordinate dimensions.
#[derive(Debug, Clone, Copy, PartialEq, Eq, Structural)]
pub enum Dimension {
    XY,
    XYZ,
    XYM,
    XYZM,
}

/// How a conversion treats the SRID of its output.
#[derive(Debug, Clone, Copy, PartialEq, Eq, Structural)]
pub enum SridMode {
    /// Mirror the input: the SRID is kept if present, absent if not.
    Auto,
    /// Always strip any SRID from the output.
    Strip,
    /// Always embed this SRID, overriding the input's. Values that are not
    /// positive mean an unknown SRID and behave as `Strip`.
    Force(i32),
}

impl Default for SridMode {
    fn default() -> (r: Self)
        ensures
            r == SridMode::Auto,
    {
        SridMode::Auto
    }
}

/// The SRID an output carries under `mode` when the input carries `input`.
pub open spec fn out_srid(mode: SridMode, input: Option<i32>) -> Option<i32> {
    match mode {
        SridMode::Auto => input,
        SridMode::Strip => None,
        SridMode::Force(n) => if n > 0 {
            Some(n)
        } else {
            None
        },
    }
}

/// `Force` with an SRID that is not positive becomes `Strip`.
pub open spec fn normalised(mode: SridMode) -> SridMode {
    match mode {
        SridMode::Force(n) => if n <= 0 {
            SridMode::Strip
        } else {
            mode
        },
        _ => mode,
    }
}

/// Maps `Force(n)` with `n <= 0` to `Strip`: such SRIDs mean "unknown".
pub fn normalise_srid_mode(mode: SridMode) -> (r: SridMode)
    ensures
        r == normalised(mode),
        out_srid(r, None) == out_srid(mode, None),
        forall|s: Option<i32>| out_srid(r, s) == out_srid(mode, s),
        r matches SridMode::Force(n) ==> n > 0,
{
    match mode {
        SridMode::Force(n) => if n <= 0 {
            SridMode::Strip
        } else {
            mode
        },
        _ => mode,
    }
}

/// The WKB type code of a geometry type (1 to 7).
pub open spec fn type_code(t: GeomType) -> u32 {
    match t {
        GeomType::Point => 1,
        GeomType::LineString => 2,
        GeomType::Polygon => 3,
        GeomType::MultiPoint => 4,
        GeomType::MultiLineString => 5,
        GeomType::MultiPolygon => 6,
        GeomType::GeometryCollection => 7,
    }
}

/// The geometry type with a given WKB type code, if any.
pub open spec fn type_of_code(v: u32) -> Option<GeomType> {
    if v == 1 {
        Some(GeomType::Point)
    } else if v == 2 {
        Some(GeomType::LineString)
    } else if v == 3 {
        Some(GeomType::Polygon)
    } else if v == 4 {
        Some(GeomType::MultiPoint)
    } else if v == 5 {
        Some(GeomType::MultiLineString)
    } else if v == 6 {
        Some(GeomType::MultiPolygon)
    } else if v == 7 {
        Some(GeomType::GeometryCollection)
    } else {
        None
    }
}

/// The upper-case WKT keyword of a geometry type.
pub open spec fn keyword_of(t: GeomType) -> Seq<char> {
    match t {
        GeomType::Point => seq!['P', 'O', 'I', 'N', 'T'],
        GeomType::LineString => seq!['L', 'I', 'N', 'E', 'S', 'T', 'R', 'I', 'N', 'G'],
        GeomType::Polygon => seq!['P', 'O', 'L', 'Y', 'G', 'O', 'N'],
        GeomType::MultiPoint => seq!['M', 'U', 'L', 'T', 'I', 'P', 'O', 'I', 'N', 'T'],
        GeomType::MultiLineString => seq![
            'M', 'U', 'L', 'T', 'I', 'L', 'I', 'N', 'E', 'S', 'T', 'R', 'I', 'N', 'G'
        ],
        GeomType::MultiPolygon => seq!['M', 'U', 'L', 'T', 'I', 'P', 'O', 'L', 'Y', 'G', 'O', 'N'],
        GeomType::GeometryCollection => seq![
            'G', 'E', 'O', 'M', 'E', 'T', 'R', 'Y', 'C', 'O', 'L', 'L', 'E', 'C', 'T', 'I', 'O', 'N'
        ],
    }
}

/// Number of ordinates per coordinate tuple.
pub open spec fn dim_size(d: Dimension) -> nat {
    match d {
        Dimension::XY => 2,
        Dimension::XYZ => 3,
        Dimension::XYM => 3,
        Dimension::XYZM => 4,
    }
}

/// The WKT dimension tag written after the keyword (with its leading space).
pub open spec fn dim_tag(d: Dimension) -> Seq<char> {
    match d {
        Dimension::XY => seq![],
        Dimension::XYZ => seq![' ', 'Z'],
        Dimension::XYM => seq![' ', 'M'],
        Dimension::XYZM => seq![' ', 'Z', 'M'],
    }
}

/// The EWKB flag bits of a dimension.
pub open spec fn dim_flags(d: Dimension) -> u32 {
    match d {
        Dimension::XY => 0,
        Dimension::XYZ => 0x8000_0000u32,
        Dimension::XYM => 0x4000_0000u32,
        Dimension::XYZM => 0xC000_0000u32,
    }
}

impl GeomType {
    /// Maps a WKB type code to its geometry type.
    pub fn from_u32(v: u32) -> (r: Result<GeomType>)
        ensures
            match r {
                Ok(t) => type_of_code(v) == Some(t),
                Err(e) => type_of_code(v).is_none() && e.kind() == crate::error::ErrorKind::Unsupported(
                    v,
                ),
            },
    {
        if v == 1 {
            Ok(GeomType::Point)
        } else if v == 2 {
            Ok(GeomType::LineString)
        } else if v == 3 {
            Ok(GeomType::Polygon)
        } else if v == 4 {
            Ok(GeomType::MultiPoint)
        } else if v == 5 {
            Ok(GeomType::MultiLineString)
        } else if v == 6 {
            Ok(GeomType::MultiPolygon)
        } else if v == 7 {
            Ok(GeomType::GeometryCollection)
        } else {
            Err(Error::UnsupportedGeometryType(v))
        }
    }

    /// The WKB type code of this geometry type.
    pub fn code(self) -> (r: u32)
        ensures
            r == type_code(self),
    {
        match self {
            GeomType::Point => 1,
            GeomType::LineString => 2,
            GeomType::Polygon => 3,
            GeomType::MultiPoint => 4,
            GeomType::MultiLineString => 5,
            GeomType::MultiPolygon => 6,
            GeomType::GeometryCollection => 7,
        }
    }

    /// The upper-case WKT keyword of this geometry type.
    pub fn wkt_name(self) -> (r: &'static str)
        ensures
            r@ == keyword_of(self),
    {
        match self {
            GeomType::Point => {
                proof {
                    reveal_strlit("POINT");
                }
                "POINT"
            },
            GeomType::LineString => {
                proof {
                    reveal_strlit("LINESTRING");
                }
                "LINESTRING"
            },
            GeomType::Polygon => {
                proof {
                    reveal_strlit("POLYGON");
                }
                "POLYGON"
            },
            GeomType::MultiPoint => {
                proof {
                    reveal_strlit("MULTIPOINT");
                }
                "MULTIPOINT"
            },
            GeomType::MultiLineString => {
                proof {
                    reveal_strlit("MULTILINESTRING");
                }
                "MULTILINESTRING"
            },
            GeomType::MultiPolygon => {
                proof {
                    reveal_strlit("MULTIPOLYGON");
                }
                "MULTIPOLYGON"
            },
            GeomType::GeometryCollection => {
                proof {
                    reveal_strlit("GEOMETRYCOLLECTION");
                }
                "GEOMETRYCOLLECTION"
            },
        }
    }
}

impl Dimension {
    /// Number of f64 values per coordinate tuple.
    pub fn coord_size(self) -> (r: usize)
        ensures
            r as nat == dim_size(self),
    {
        match self {
            Dimension::XY => 2,
            Dimension::XYZ => 3,
            Dimension::XYM => 3,
            Dimension::XYZM => 4,
        }
    }

    /// WKT dimension tag inserted between geometry type and coordinate list.
    pub fn wkt_tag(self) -> (r: &'static str)
        ensures
            r@ == dim_tag(self),
    {
        match self {
            Dimension::XY => {
                proof {
                    reveal_strlit("");
                }
                ""
            },
            Dimension::XYZ => {
                proof {
                    reveal_strlit(" Z");
                }
                " Z"
            },
            Dimension::XYM => {
                proof {
                    reveal_strlit(" M");
                }
                " M"
            },
            Dimension::XYZM => {
                proof {
                    reveal_strlit(" ZM");
                }
                " ZM"
            },
        }
    }

    /// EWKB flag bits OR-ed into the type code.
    pub fn ewkb_flags(self) -> (r: u32)
        ensures
            r == dim_flags(self),
    {
        match self {
            Dimension::XY => 0,
            Dimension::XYZ => 0x8000_0000u32,
            Dimension::XYM => 0x4000_0000u32,
            Dimension::XYZM => 0xC000_0000u32,
        }
    }
}

/// The name of a geometry type, as its `Debug` form writes it.
pub open spec fn geom_label(t: GeomType) -> Seq<char> {
    match t {
        GeomType::Point => "Point"@,
        GeomType::LineString => "LineString"@,
        GeomType::Polygon => "Polygon"@,
        GeomType::MultiPoint => "MultiPoint"@,
        GeomType::MultiLineString => "MultiLineString"@,
        GeomType::MultiPolygon => "MultiPolygon"@,
        GeomType::GeometryCollection => "GeometryCollection"@,
    }
}

/// The name of a geometry type.
pub fn geom_label_str(t: GeomType) -> (r: &'static str)
    ensures
        r@ == geom_label(t),
{
    match t {
        GeomType::Point => "Point",
        GeomType::LineString => "LineString",
        GeomType::Polygon => "Polygon",
        GeomType::MultiPoint => "MultiPoint",
        GeomType::MultiLineString => "MultiLineString",
        GeomType::MultiPolygon => "MultiPolygon",
        GeomType::GeometryCollection => "GeometryCollection",
    }
}

/// The name of a dimension, as its `Debug` form writes it.
pub open spec fn dim_label(d: Dimension) -> Seq<char> {
    match d {
        Dimension::XY => "XY"@,
        Dimension::XYZ => "XYZ"@,
        Dimension::XYM => "XYM"@,
        Dimension::XYZM => "XYZM"@,
    }
}

/// The name of a dimension.
pub fn dim_label_str(d: Dimension) -> (r: &'static str)
    ensures
        r@ == dim_label(d),
{
    match d {
        Dimension::XY => "XY",
        Dimension::XYZ => "XYZ",
        Dimension::XYM => "XYM",
        Dimension::XYZM => "XYZM",
    }
}

} // verus!

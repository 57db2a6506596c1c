//! Rendering of a path of soundings as a degrees-minutes-seconds table or as
//! a GeoJSON LineString feature, and the choice between the two.

use vstd::prelude::*;
use vstd::string::StrSliceExecFns;
use vstd::string::StringExecFns;

use crate::bathymetry::{all_valid, Bathymetry, LON_E7_MAX};
use crate::numfmt::{dec_seq, digit_char, fixed_trim, fixed_trim_seq, padded_seq, u64_dec,
    u64_padded};

verus! {

/// The output renderings offered: a DMS text table or GeoJSON.
#[derive(Clone, Copy, Debug, PartialEq, Eq, Structural)]
pub enum OutputFormat {
    Dms,
    GeoJson,
}

/// ASCII lowering of one character; other characters are unchanged.
pub open spec fn lower_char(c: char) -> char {
    if 65 <= c as u32 && c as u32 <= 90 {
        (((c as u32) + 32) as u8) as char
    } else {
        c
    }
}

/// ASCII lowering of a character sequence.
pub open spec fn lowered(s: Seq<char>) -> Seq<char> {
    s.map_values(|c: char| lower_char(c))
}

/// Whether the ASCII lowering of `s` equals `t`.
fn eq_lowered(s: &str, t: &str) -> (r: bool)
    ensures
        r == (lowered(s@) == t@),
{
    let n = s.unicode_len();
    if n != t.unicode_len() {
        proof {
            assert(lowered(s@).len() == s@.len());
        }
        return false;
    }
    let mut i: usize = 0;
    while i < n
        invariant
            n == s@.len() == t@.len(),
            i <= n,
            forall|j: int| 0 <= j < i ==> lower_char(s@[j]) == t@[j],
        decreases n - i,
    {
        let c = s.get_char(i);
        let cu = c as u32;
        let lc: char = if 65 <= cu && cu <= 90 {
            ((cu + 32) as u8) as char
        } else {
            c
        };
        if lc != t.get_char(i) {
            proof {
                assert(lowered(s@)[i as int] != t@[i as int]);
            }
            return false;
        }
        i += 1;
    }
    proof {
        assert(lowered(s@) =~= t@);
    }
    true
}

impl OutputFormat {
    /// Parse a format name, ignoring ASCII case.
    pub fn from_str(s: &str) -> (r: Result<OutputFormat, &'static str>)
        ensures
            r == Ok::<OutputFormat, &'static str>(OutputFormat::Dms) <==> lowered(s@) == "dms"@,
            r == Ok::<OutputFormat, &'static str>(OutputFormat::GeoJson) <==> lowered(s@)
                == "geojson"@,
            r matches Err(e) ==> e@ == "unrecognized output format"@ && lowered(s@) != "dms"@
                && lowered(s@) != "geojson"@,
    {
        proof {
            reveal_strlit("dms");
            reveal_strlit("geojson");
            assert("dms"@.len() == 3 && "geojson"@.len() == 7);
        }
        if eq_lowered(s, "dms") {
            Ok(OutputFormat::Dms)
        } else if eq_lowered(s, "geojson") {
            Ok(OutputFormat::GeoJson)
        } else {
            Err("unrecognized output format")
        }
    }

    /// The lower-case name of the format.
    pub fn as_str(&self) -> (r: &'static str)
        ensures
            *self == OutputFormat::Dms ==> r@ == "dms"@,
            *self == OutputFormat::GeoJson ==> r@ == "geojson"@,
    {
        match self {
            OutputFormat::Dms => "dms",
            OutputFormat::GeoJson => "geojson",
        }
    }
}

impl Default for OutputFormat {
    /// The default rendering is the DMS table.
    fn default() -> (r: Self)
        ensures
            r == OutputFormat::Dms,
    {
        OutputFormat::Dms
    }
}

/// The file extension used for each format.
pub fn extension(format: OutputFormat) -> (r: &'static str)
    ensures
        format == OutputFormat::Dms ==> r@ == "txt"@,
        format == OutputFormat::GeoJson ==> r@ == "geojson"@,
{
    match format {
        OutputFormat::Dms => "txt",
        OutputFormat::GeoJson => "geojson",
    }
}

/// A coordinate count rendered with at least two digits.
pub open spec fn two_digits_seq(n: nat) -> Seq<char> {
    if n < 100 {
        padded_seq(n, 2)
    } else {
        dec_seq(n)
    }
}

/// One coordinate in degrees-minutes-seconds: `DD-MM-S.SSS` plus a
/// hemisphere letter. The coordinate is in 1e-7 degree units; the seconds
/// are rounded half-up to milliseconds of arc.
pub open spec fn dms_coord_seq(v: int, hemi: Seq<char>) -> Seq<char> {
    let a = (if v >= 0 {
        v
    } else {
        -v
    }) as nat;
    let mas = (a * 36 + 50) / 100;
    let deg = mas / 3_600_000;
    let rem = mas % 3_600_000;
    let minute = rem / 60_000;
    let rem2 = rem % 60_000;
    two_digits_seq(deg) + seq!['-'] + two_digits_seq(minute) + seq!['-'] + dec_seq(rem2 / 1000)
        + seq!['.'] + padded_seq(rem2 % 1000, 3) + hemi
}

/// One DMS table line: latitude, longitude, then the depth in metres to
/// three decimals.
pub open spec fn dms_line_seq(b: Bathymetry) -> Seq<char> {
    dms_coord_seq(
        b.lat_e7 as int,
        if b.lat_e7 >= 0 {
            seq!['N']
        } else {
            seq!['S']
        },
    ) + seq![' '] + dms_coord_seq(
        b.lon_e7 as int,
        if b.lon_e7 >= 0 {
            seq!['E']
        } else {
            seq!['W']
        },
    ) + seq![' '] + dec_seq((b.depth_mm / 1000) as nat) + seq!['.'] + padded_seq(
        (b.depth_mm % 1000) as nat,
        3,
    )
}

/// All DMS table lines, each ended by a newline.
pub open spec fn dms_body_seq(path: Seq<Bathymetry>) -> Seq<char>
    decreases path.len(),
{
    if path.len() == 0 {
        Seq::empty()
    } else {
        dms_body_seq(path.drop_last()) + dms_line_seq(path.last()) + seq!['\n']
    }
}

/// The full DMS table: a fixed header line, then one line per sounding.
pub open spec fn dms_seq(path: Seq<Bathymetry>) -> Seq<char> {
    "\"Lat (DMS)\" \"Long (DMS)\" \"Depth (m)\"\n"@ + dms_body_seq(path)
}

fn two_digits(n: u64) -> (r: String)
    ensures
        r@ == two_digits_seq(n as nat),
{
    if n < 100 {
        u64_padded(n, 2)
    } else {
        u64_dec(n)
    }
}

fn dms_coord(v: i64, hemi: &str) -> (r: String)
    requires
        -LON_E7_MAX <= v <= LON_E7_MAX,
    ensures
        r@ == dms_coord_seq(v as int, hemi@),
{
    proof {
        reveal_strlit("-");
        reveal_strlit(".");
    }
    let a: u64 = if v >= 0 {
        v as u64
    } else {
        (-v) as u64
    };
    let mas: u64 = (a * 36 + 50) / 100;
    let deg: u64 = mas / 3_600_000;
    let rem: u64 = mas % 3_600_000;
    let minute: u64 = rem / 60_000;
    let rem2: u64 = rem % 60_000;
    let mut out = two_digits(deg);
    out.append("-");
    out.append(two_digits(minute).as_str());
    out.append("-");
    out.append(u64_dec(rem2 / 1000).as_str());
    out.append(".");
    out.append(u64_padded(rem2 % 1000, 3).as_str());
    out.append(hemi);
    proof {
        assert(out@ =~= dms_coord_seq(v as int, hemi@));
    }
    out
}

fn dms_line(b: &Bathymetry) -> (r: String)
    requires
        b.valid(),
    ensures
        r@ == dms_line_seq(*b),
{
    proof {
        reveal_strlit(" ");
        reveal_strlit(".");
        reveal_strlit("N");
        reveal_strlit("S");
        reveal_strlit("E");
        reveal_strlit("W");
    }
    let lat_hemi: &str = if b.lat_e7 >= 0 {
        "N"
    } else {
        "S"
    };
    let lon_hemi: &str = if b.lon_e7 >= 0 {
        "E"
    } else {
        "W"
    };
    let depth: u64 = b.depth_mm as u64;
    let mut out = dms_coord(b.lat_e7, lat_hemi);
    out.append(" ");
    out.append(dms_coord(b.lon_e7, lon_hemi).as_str());
    out.append(" ");
    out.append(u64_dec(depth / 1000).as_str());
    out.append(".");
    out.append(u64_padded(depth % 1000, 3).as_str());
    proof {
        assert(out@ =~= dms_line_seq(*b));
    }
    out
}

/// Render a path as the DMS text table.
pub fn to_dms(input: &Vec<Bathymetry>) -> (r: String)
    requires
        all_valid(input@),
    ensures
        r@ == dms_seq(input@),
{
    proof {
        reveal_strlit("\n");
    }
    let mut out = String::from_str("\"Lat (DMS)\" \"Long (DMS)\" \"Depth (m)\"\n");
    let n = input.len();
    let mut i: usize = 0;
    while i < n
        invariant
            n == input@.len(),
            i <= n,
            all_valid(input@),
            out@ == dms_seq(input@.take(i as int)),
        decreases n - i,
    {
        let line = dms_line(&input[i]);
        out.append(line.as_str());
        out.append("\n");
        proof {
            reveal_strlit("\n");
            assert(input@.take(i + 1 as int).drop_last() =~= input@.take(i as int));
            assert(input@.take(i + 1 as int).last() == input@[i as int]);
            assert(dms_body_seq(input@.take(i + 1 as int)) == dms_body_seq(input@.take(i as int))
                + dms_line_seq(input@[i as int]) + seq!['\n']);
            assert("\n"@ =~= seq!['\n']);
            assert(dms_seq(input@.take(i as int)) + line@ + seq!['\n'] =~= dms_seq(
                input@.take(i + 1 as int),
            ));
            assert(out@ == dms_seq(input@.take(i as int)) + line@ + "\n"@);
            assert(out@ =~= dms_seq(input@.take(i + 1 as int)));
        }
        i += 1;
    }
    proof {
        assert(input@.take(n as int) =~= input@);
    }
    out
}

/// One GeoJSON coordinate triple: longitude, latitude, then the negated
/// depth (elevation convention), each as a trimmed fixed-point decimal.
pub open spec fn geojson_item_seq(b: Bathymetry) -> Seq<char> {
    seq!['['] + fixed_trim_seq(b.lon_e7 as int, 7) + seq![','] + fixed_trim_seq(
        b.lat_e7 as int,
        7,
    ) + seq![','] + fixed_trim_seq(-(b.depth_mm as int), 3) + seq![']']
}

/// The coordinate triples of a path, joined by commas.
pub open spec fn geojson_items_seq(path: Seq<Bathymetry>) -> Seq<char>
    decreases path.len(),
{
    if path.len() == 0 {
        Seq::empty()
    } else if path.len() == 1 {
        geojson_item_seq(path[0])
    } else {
        geojson_items_seq(path.drop_last()) + seq![','] + geojson_item_seq(path.last())
    }
}

/// The full GeoJSON rendering: a FeatureCollection holding one LineString
/// feature whose coordinates are the path's triples.
pub open spec fn geojson_seq(path: Seq<Bathymetry>) -> Seq<char> {
    "{\"type\":\"FeatureCollection\",\"features\":[{\"type\":\"Feature\",\"properties\":{},\"geometry\":{\"type\":\"LineString\",\"coordinates\":["@
        + geojson_items_seq(path) + "]}}]}"@
}

fn geojson_item(b: &Bathymetry) -> (r: String)
    requires
        b.valid(),
    ensures
        r@ == geojson_item_seq(*b),
{
    proof {
        reveal_strlit("[");
        reveal_strlit(",");
        reveal_strlit("]");
    }
    let mut out = String::from_str("[");
    out.append(fixed_trim(b.lon_e7, 7).as_str());
    out.append(",");
    out.append(fixed_trim(b.lat_e7, 7).as_str());
    out.append(",");
    out.append(fixed_trim(-b.depth_mm, 3).as_str());
    out.append("]");
    proof {
        assert(out@ =~= geojson_item_seq(*b));
    }
    out
}

/// Render a path as a GeoJSON LineString feature.
pub fn to_geojson(input: &Vec<Bathymetry>) -> (r: String)
    requires
        all_valid(input@),
    ensures
        r@ == geojson_seq(input@),
{
    proof {
        reveal_strlit(",");
    }
    let mut joined = String::new();
    let n = input.len();
    let mut i: usize = 0;
    while i < n
        invariant
            n == input@.len(),
            i <= n,
            all_valid(input@),
            joined@ == geojson_items_seq(input@.take(i as int)),
        decreases n - i,
    {
        if i > 0 {
            joined.append(",");
        }
        let item = geojson_item(&input[i]);
        joined.append(item.as_str());
        proof {
            reveal_strlit(",");
            assert(input@.take(i + 1 as int).drop_last() =~= input@.take(i as int));
            assert(input@.take(i + 1 as int).last() == input@[i as int]);
            if i == 0 {
                assert(input@.take(1int)[0] == input@[0]);
                assert(geojson_items_seq(input@.take(1int)) == geojson_item_seq(input@[0]));
            } else {
                assert(geojson_items_seq(input@.take(i + 1 as int)) == geojson_items_seq(
                    input@.take(i as int),
                ) + seq![','] + geojson_item_seq(input@[i as int]));
                assert(","@ =~= seq![',']);
                assert(joined@ == geojson_items_seq(input@.take(i as int)) + ","@ + item@);
            }
            assert(joined@ =~= geojson_items_seq(input@.take(i + 1 as int)));
        }
        i += 1;
    }
    let mut out = String::from_str(
        "{\"type\":\"FeatureCollection\",\"features\":[{\"type\":\"Feature\",\"properties\":{},\"geometry\":{\"type\":\"LineString\",\"coordinates\":[",
    );
    out.append(joined.as_str());
    out.append("]}}]}");
    proof {
        assert(input@.take(n as int) =~= input@);
        assert(out@ =~= geojson_seq(input@));
    }
    out
}

/// Render a path in the chosen format.
pub fn convert(format: OutputFormat, input: &Vec<Bathymetry>) -> (r: String)
    requires
        all_valid(input@),
    ensures
        format == OutputFormat::Dms ==> r@ == dms_seq(input@),
        format == OutputFormat::GeoJson ==> r@ == geojson_seq(input@),
{
    match format {
        OutputFormat::Dms => to_dms(input),
        OutputFormat::GeoJson => to_geojson(input),
    }
}

} // verus!

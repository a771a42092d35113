//! Finding the outlines of land in an archive of shape files.

use std::io::{Cursor, Read};

use shapefile::dbase;
use shapefile::Shape::Polygon as Area;
use shapefile::{Point, Reader, ShapeReader};
use vstd::prelude::*;

use crate::coords::{BBOX_MAX_LAT, BBOX_MAX_LON, BBOX_MIN_LAT, BBOX_MIN_LON};
use crate::float::F64;
use crate::text::{chars_of, lowercase_form, to_lowercase};

use super::polygon::{closed, Coord, Polygon};
use super::raster::outlines_of;

verus! {

/// A file of an archive.
#[derive(Debug)]
pub struct Entry {
    pub name: String,
    pub data: Vec<u8>,
}

/// A file of an archive.
pub struct EntryView {
    pub name: Seq<char>,
    pub data: Seq<u8>,
}

impl View for Entry {
    type V = EntryView;

    open spec fn view(&self) -> EntryView {
        EntryView { name: self.name@, data: self.data@ }
    }
}

/// How many files an archive holds; nothing if the bytes are no archive.
pub uninterp spec fn archive_count(bytes: Seq<u8>) -> Option<usize>;

/// `zip::ZipArchive::new` and `zip::ZipArchive::len`: how many files an archive holds, or nothing
/// if the bytes are no archive.
#[verifier::external_body]
fn count_entries(bytes: &Vec<u8>) -> (r: Option<usize>)
    ensures
        r == archive_count(bytes@),
{
    zip::ZipArchive::new(Cursor::new(bytes.as_slice())).ok().map(|archive| archive.len())
}

/// A file of an archive by its number; nothing if it cannot be read.
pub uninterp spec fn archive_entry(bytes: Seq<u8>, i: usize) -> Option<EntryView>;

/// `zip::ZipArchive::by_index`: name and content of a file of an archive, or nothing if there is no
/// such file or it cannot be read.
#[verifier::external_body]
fn read_entry(bytes: &Vec<u8>, i: usize) -> (r: Option<Entry>)
    ensures
        archive_entry(bytes@, i) is Some <==> r is Some,
        r matches Some(e) ==> archive_entry(bytes@, i) == Some(e@),
{
    let mut archive = zip::ZipArchive::new(Cursor::new(bytes.as_slice())).ok()?;
    let mut file = archive.by_index(i).ok()?;
    let name = file.name().to_string();
    let mut data = Vec::new();
    file.read_to_end(&mut data).ok()?;
    Some(Entry { name, data })
}

/// The three files that make up a set of shapes: the shapes, their records, their index.
#[derive(Debug)]
pub struct ShapeFiles {
    pub shp: Vec<u8>,
    pub dbf: Vec<u8>,
    pub shx: Vec<u8>,
}

/// What can be wrong with an archive of shape files.
#[derive(Debug, Clone, Copy, PartialEq, Eq, Structural)]
pub enum ArchiveError {
    /// The bytes are no archive.
    NotAnArchive,
    /// The file with this number cannot be read.
    Unreadable(usize),
    /// There is no `.shp` file.
    NoShp,
    /// There is no `.dbf` file.
    NoDbf,
    /// There is no `.shx` file.
    NoShx,
    /// The three files hold no shapes that can be read.
    BadShapes,
}

/// Whether a text ends with another.
pub open spec fn has_suffix(s: Seq<char>, suffix: Seq<char>) -> bool {
    suffix.is_suffix_of(s)
}

/// The content of the last of the files whose name ends with a suffix.
pub open spec fn last_with(entries: Seq<EntryView>, suffix: Seq<char>) -> Option<Seq<u8>>
    decreases entries.len(),
{
    if entries.len() == 0 {
        None
    } else if has_suffix(entries.last().name, suffix) {
        Some(entries.last().data)
    } else {
        last_with(entries.drop_last(), suffix)
    }
}

/// Some files of an archive.
pub open spec fn listing(entries: Seq<Entry>) -> Seq<EntryView> {
    entries.map_values(|e: Entry| e@)
}

/// Whether `r` are the shape files among some files, or the first of the three that is missing.
pub open spec fn picked(entries: Seq<EntryView>, r: Result<ShapeFiles, ArchiveError>) -> bool {
    let shp = last_with(entries, ".shp"@);
    let dbf = last_with(entries, ".dbf"@);
    let shx = last_with(entries, ".shx"@);
    match r {
        Ok(files) => {
            &&& shp == Some(files.shp@)
            &&& dbf == Some(files.dbf@)
            &&& shx == Some(files.shx@)
        },
        Err(ArchiveError::NoShp) => shp is None,
        Err(ArchiveError::NoDbf) => shp is Some && dbf is None,
        Err(ArchiveError::NoShx) => shp is Some && dbf is Some && shx is None,
        Err(_) => false,
    }
}

/// The first files of an archive, with their names in lower case.
pub open spec fn lower_entries(bytes: Seq<u8>, n: int) -> Seq<EntryView> {
    Seq::new(
        n as nat,
        |i: int|
            EntryView {
                name: lowercase_form(archive_entry(bytes, i as usize)->0.name),
                data: archive_entry(bytes, i as usize)->0.data,
            },
    )
}

/// Whether the first files of an archive can be read.
pub open spec fn readable(bytes: Seq<u8>, n: int) -> bool {
    forall|i: usize| i < n ==> #[trigger] archive_entry(bytes, i) is Some
}

/// Whether a text ends with another.
fn ends_with(s: &Vec<char>, suffix: &Vec<char>) -> (r: bool)
    ensures
        r == has_suffix(s@, suffix@),
{
    if s.len() < suffix.len() {
        return false;
    }
    let start: usize = s.len() - suffix.len();
    let mut i: usize = 0;
    while i < suffix.len()
        invariant
            i <= suffix.len(),
            start + suffix.len() == s.len(),
            forall|j: int| 0 <= j < i ==> #[trigger] suffix@[j] == s@[start + j],
        decreases suffix.len() - i,
    {
        if s[start + i] != suffix[i] {
            proof {
                if has_suffix(s@, suffix@) {
                    assert(s@.subrange(start as int, s@.len() as int)[i as int] == suffix@[i as int]);
                }
            }
            return false;
        }
        i = i + 1;
    }
    assert(s@.subrange(start as int, s@.len() as int) =~= suffix@);
    true
}

/// The content of the last of the files whose name ends with a suffix.
fn find_last(entries: &Vec<Entry>, suffix: &str) -> (r: Option<usize>)
    ensures
        match r {
            Some(i) => i < entries@.len() && last_with(listing(entries@), suffix@) == Some(
                entries@[i as int].data@,
            ),
            None => last_with(listing(entries@), suffix@) is None,
        },
{
    let wanted: Vec<char> = chars_of(suffix);
    let ghost all = listing(entries@);
    let mut i: usize = entries.len();
    assert(all.take(all.len() as int) =~= all);
    while i > 0
        invariant
            i <= entries.len(),
            all == listing(entries@),
            wanted@ == suffix@,
            last_with(all, suffix@) == last_with(all.take(i as int), suffix@),
        decreases i,
    {
        i = i - 1;
        let name: Vec<char> = chars_of(entries[i].name.as_str());
        proof {
            let part = all.take(i + 1);
            assert(part.drop_last() =~= all.take(i as int));
            assert(part.last() == entries@[i as int]@);
        }
        if ends_with(&name, &wanted) {
            return Some(i);
        }
    }
    None
}

/// A file, once more.
fn copy_bytes(data: &Vec<u8>) -> (r: Vec<u8>)
    ensures
        r@ == data@,
{
    let mut r: Vec<u8> = Vec::new();
    let mut i: usize = 0;
    while i < data.len()
        invariant
            i <= data.len(),
            r@ == data@.take(i as int),
        decreases data.len() - i,
    {
        r.push(data[i]);
        i = i + 1;
        assert(r@ =~= data@.take(i as int));
    }
    assert(data@.take(data@.len() as int) =~= data@);
    r
}

/// The shape files among some files, whose names are in lower case.
pub fn pick_files(entries: &Vec<Entry>) -> (r: Result<ShapeFiles, ArchiveError>)
    ensures
        picked(listing(entries@), r),
{
    match (find_last(entries, ".shp"), find_last(entries, ".dbf"), find_last(entries, ".shx")) {
        (Some(a), Some(b), Some(c)) => Ok(
            ShapeFiles {
                shp: copy_bytes(&entries[a].data),
                dbf: copy_bytes(&entries[b].data),
                shx: copy_bytes(&entries[c].data),
            },
        ),
        (None, _, _) => Err(ArchiveError::NoShp),
        (_, None, _) => Err(ArchiveError::NoDbf),
        (_, _, None) => Err(ArchiveError::NoShx),
    }
}

/// Finds the shape files in an archive.
pub fn find_files(zip_bytes: &Vec<u8>) -> (r: Result<ShapeFiles, ArchiveError>)
    ensures
        match archive_count(zip_bytes@) {
            None => r == Err::<ShapeFiles, ArchiveError>(ArchiveError::NotAnArchive),
            Some(n) => if readable(zip_bytes@, n as int) {
                picked(lower_entries(zip_bytes@, n as int), r)
            } else {
                r matches Err(ArchiveError::Unreadable(i)) && i < n && archive_entry(
                    zip_bytes@,
                    i,
                ) is None && readable(zip_bytes@, i as int)
            },
        },
{
    let n: usize = match count_entries(zip_bytes) {
        Some(n) => n,
        None => {
            return Err(ArchiveError::NotAnArchive);
        },
    };
    let mut entries: Vec<Entry> = Vec::new();
    let mut i: usize = 0;
    while i < n
        invariant
            i <= n,
            archive_count(zip_bytes@) == Some(n),
            readable(zip_bytes@, i as int),
            listing(entries@) =~= lower_entries(zip_bytes@, i as int),
        decreases n - i,
    {
        match read_entry(zip_bytes, i) {
            Some(e) => {
                let entry: Entry = Entry { name: to_lowercase(e.name.as_str()), data: e.data };
                let ghost before = entries@;
                entries.push(entry);
                assert(listing(entries@) =~= listing(before).push(entry@));
                assert(lower_entries(zip_bytes@, i + 1) =~= lower_entries(
                    zip_bytes@,
                    i as int,
                ).push(entry@));
            },
            None => {
                assert(!readable(zip_bytes@, n as int));
                return Err(ArchiveError::Unreadable(i));
            },
        }
        i = i + 1;
    }
    assert(listing(entries@) == lower_entries(zip_bytes@, n as int));
    pick_files(&entries)
}

/// An area as a shape file has it: the bounds that the file gives, and its outlines. Points are the
/// encodings of longitude and latitude.
#[derive(Debug)]
pub struct Shape {
    pub min: (u64, u64),
    pub max: (u64, u64),
    pub rings: Vec<Vec<(u64, u64)>>,
}

/// An area as a shape file has it.
pub struct ShapeView {
    pub min: (u64, u64),
    pub max: (u64, u64),
    pub rings: Seq<Seq<(u64, u64)>>,
}

impl View for Shape {
    type V = ShapeView;

    open spec fn view(&self) -> ShapeView {
        ShapeView {
            min: self.min,
            max: self.max,
            rings: self.rings@.map_values(|ring: Vec<(u64, u64)>| ring@),
        }
    }
}

/// Some shapes of a file.
pub open spec fn shape_views(shapes: Seq<Option<Shape>>) -> Seq<Option<ShapeView>> {
    shapes.map_values(
        |s: Option<Shape>|
            match s {
                Some(shape) => Some(shape@),
                None => None,
            },
    )
}

/// The shapes that have a record, in the order of the index: an area, or nothing for a shape of
/// another sort. Nothing at all if the three files cannot be read.
pub uninterp spec fn shapes_in(shp: Seq<u8>, dbf: Seq<u8>, shx: Seq<u8>) -> Option<
    Seq<Option<ShapeView>>,
>;

/// `shapefile::ShapeReader::with_shx`, `shapefile::dbase::Reader::new` and `shapefile::Reader::read`:
/// the shapes of a set of files, or nothing if one of the three fails.
#[verifier::external_body]
fn read_shapes(shp: &[u8], dbf: &[u8], shx: &[u8]) -> (r: Option<Vec<Option<Shape>>>)
    ensures
        shapes_in(shp@, dbf@, shx@) is Some <==> r is Some,
        r matches Some(v) ==> shapes_in(shp@, dbf@, shx@) == Some(shape_views(v@)),
{
    let at = |p: &Point| (p.x.to_bits(), p.y.to_bits());
    let shapes = ShapeReader::with_shx(Cursor::new(shp), shx).ok()?;
    let records = dbase::Reader::new(Cursor::new(dbf)).ok()?;
    Some(Reader::new(shapes, records).read().ok()?.into_iter().map(|(shape, _)| match shape {
        Area(p) => Some(Shape {
            min: at(&p.bbox().min),
            max: at(&p.bbox().max),
            rings: p.rings().iter().map(|r| r.points().iter().map(at).collect()).collect(),
        }),
        _ => None,
    }).collect())
}

/// A point by the encodings of its longitude and latitude.
pub open spec fn place(p: (u64, u64)) -> Coord {
    Coord { x: F64 { bits: p.0 }, y: F64 { bits: p.1 } }
}

/// The points of a ring.
pub open spec fn places(ring: Seq<(u64, u64)>) -> Seq<Coord> {
    ring.map_values(|p: (u64, u64)| place(p))
}

/// Whether the bounds of a shape lie outside of the map.
pub open spec fn outside(shape: ShapeView) -> bool {
    ||| place(shape.max).x.below(F64 { bits: BBOX_MIN_LON })
    ||| (F64 { bits: BBOX_MAX_LON }).below(place(shape.min).x)
    ||| place(shape.max).y.below(F64 { bits: BBOX_MIN_LAT })
    ||| (F64 { bits: BBOX_MAX_LAT }).below(place(shape.min).y)
}

/// The outlines among the first of some rings: those with at least three points, closed.
pub open spec fn ring_outlines(rings: Seq<Seq<(u64, u64)>>, n: int) -> Seq<Seq<Coord>>
    decreases n,
{
    if n <= 0 {
        Seq::empty()
    } else {
        let rest = ring_outlines(rings, n - 1);
        if rings[n - 1].len() < 3 {
            rest
        } else {
            rest.push(closed(places(rings[n - 1])))
        }
    }
}

/// The outlines of the areas among the first of some shapes that reach into the map.
pub open spec fn clipped(shapes: Seq<Option<ShapeView>>, n: int) -> Seq<Seq<Coord>>
    decreases n,
{
    if n <= 0 {
        Seq::empty()
    } else {
        let rest = clipped(shapes, n - 1);
        match shapes[n - 1] {
            Some(shape) => if outside(shape) {
                rest
            } else {
                rest + ring_outlines(shape.rings, shape.rings.len() as int)
            },
            None => rest,
        }
    }
}

/// A point by the encodings of its longitude and latitude.
fn coord(p: (u64, u64)) -> (r: Coord)
    ensures
        r == place(p),
{
    Coord { x: F64 { bits: p.0 }, y: F64 { bits: p.1 } }
}

/// Whether the bounds of a shape lie outside of the map.
fn is_outside(shape: &Shape) -> (r: bool)
    ensures
        r == outside(shape@),
{
    let (min, max): (Coord, Coord) = (coord(shape.min), coord(shape.max));
    max.x.lt(F64 { bits: BBOX_MIN_LON }) || (F64 { bits: BBOX_MAX_LON }).lt(min.x) || max.y.lt(
        F64 { bits: BBOX_MIN_LAT },
    ) || (F64 { bits: BBOX_MAX_LAT }).lt(min.y)
}

/// The points of a ring.
fn coords(ring: &Vec<(u64, u64)>) -> (r: Vec<Coord>)
    ensures
        r@ == places(ring@),
{
    let mut r: Vec<Coord> = Vec::new();
    let mut i: usize = 0;
    while i < ring.len()
        invariant
            i <= ring.len(),
            r@ =~= places(ring@).take(i as int),
        decreases ring.len() - i,
    {
        r.push(coord(ring[i]));
        i = i + 1;
        assert(r@ =~= places(ring@).take(i as int));
    }
    assert(r@ =~= places(ring@));
    r
}

/// The outlines of the areas that reach into the map. Holes count as outlines of their own.
pub fn clip_shapes(shapes: &Vec<Option<Shape>>) -> (polys: Vec<Polygon>)
    ensures
        outlines_of(polys@) == clipped(shape_views(shapes@), shapes@.len() as int),
{
    let ghost views = shape_views(shapes@);
    let mut polys: Vec<Polygon> = Vec::new();
    let mut i: usize = 0;
    assert(outlines_of(polys@) =~= clipped(views, 0));
    while i < shapes.len()
        invariant
            i <= shapes.len(),
            views == shape_views(shapes@),
            outlines_of(polys@) == clipped(views, i as int),
        decreases shapes.len() - i,
    {
        if let Some(shape) = &shapes[i] {
            let ghost rings = shape@.rings;
            let ghost start = outlines_of(polys@);
            assert(views[i as int] == Some(shape@));
            if !is_outside(shape) {
                let mut k: usize = 0;
                assert(start =~= start + ring_outlines(rings, 0));
                while k < shape.rings.len()
                    invariant
                        k <= shape.rings.len(),
                        rings == shape@.rings,
                        outlines_of(polys@) == start + ring_outlines(rings, k as int),
                    decreases shape.rings.len() - k,
                {
                    assert(rings[k as int] == shape.rings@[k as int]@);
                    if shape.rings[k].len() >= 3 {
                        let ghost before = polys@;
                        let poly: Polygon = Polygon::new(coords(&shape.rings[k]));
                        polys.push(poly);
                        assert(outlines_of(polys@) =~= outlines_of(before).push(
                            closed(places(rings[k as int])),
                        ));
                    }
                    k = k + 1;
                    assert(outlines_of(polys@) =~= start + ring_outlines(rings, k as int));
                }
            }
        }
        i = i + 1;
    }
    polys
}

/// Whether `r` are the outlines in the shape files among some files, or what is wrong with them.
pub open spec fn outlined(entries: Seq<EntryView>, r: Result<Vec<Polygon>, ArchiveError>) -> bool {
    let shp = last_with(entries, ".shp"@);
    let dbf = last_with(entries, ".dbf"@);
    let shx = last_with(entries, ".shx"@);
    if shp is None {
        r == Err::<Vec<Polygon>, ArchiveError>(ArchiveError::NoShp)
    } else if dbf is None {
        r == Err::<Vec<Polygon>, ArchiveError>(ArchiveError::NoDbf)
    } else if shx is None {
        r == Err::<Vec<Polygon>, ArchiveError>(ArchiveError::NoShx)
    } else {
        match shapes_in(shp->0, dbf->0, shx->0) {
            Some(shapes) => r matches Ok(polys) && outlines_of(polys@) == clipped(
                shapes,
                shapes.len() as int,
            ),
            None => r == Err::<Vec<Polygon>, ArchiveError>(ArchiveError::BadShapes),
        }
    }
}

/// The outlines of land that reach into the map, from an archive of shape files.
pub fn parse_shapefile_from_zip(zip_bytes: &Vec<u8>) -> (r: Result<Vec<Polygon>, ArchiveError>)
    ensures
        match archive_count(zip_bytes@) {
            None => r == Err::<Vec<Polygon>, ArchiveError>(ArchiveError::NotAnArchive),
            Some(n) => if readable(zip_bytes@, n as int) {
                outlined(lower_entries(zip_bytes@, n as int), r)
            } else {
                r matches Err(ArchiveError::Unreadable(i)) && i < n && archive_entry(
                    zip_bytes@,
                    i,
                ) is None && readable(zip_bytes@, i as int)
            },
        },
{
    let files: ShapeFiles = match find_files(zip_bytes) {
        Ok(files) => files,
        Err(e) => {
            return Err(e);
        },
    };
    match read_shapes(files.shp.as_slice(), files.dbf.as_slice(), files.shx.as_slice()) {
        Some(shapes) => Ok(clip_shapes(&shapes)),
        None => Err(ArchiveError::BadShapes),
    }
}

} // verus!

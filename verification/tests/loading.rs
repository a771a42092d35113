use std::io::{Cursor, Write};

use black_sea::map_loader::download::{choose_source, load_from_cache, save_to_cache, Source};
use black_sea::map_loader::parser::{
    clip_shapes, find_files, parse_shapefile_from_zip, pick_files, ArchiveError, Entry, Shape,
};
use black_sea::progress::{
    capitalize, count_line, count_template, make_count_bar, make_download_bar, replace_head,
};

fn coord(x: f64, y: f64) -> (u64, u64) {
    (x.to_bits(), y.to_bits())
}

/// A shape file, or its index, of one sort of shape: a header and the rest.
fn shape_file(sort: i32, rest: &[u8]) -> Vec<u8> {
    let mut r = Vec::new();
    r.extend(9994_i32.to_be_bytes());
    r.extend([0u8; 20]);
    r.extend(((100 + rest.len()) as i32 / 2).to_be_bytes());
    r.extend(1000_i32.to_le_bytes());
    r.extend(sort.to_le_bytes());
    r.extend([0u8; 64]);
    r.extend(rest);
    r
}

/// The content of an area: bounds, rings, points.
fn area(min: (f64, f64), max: (f64, f64), rings: &[Vec<(f64, f64)>]) -> Vec<u8> {
    let mut r = Vec::new();
    r.extend(5_i32.to_le_bytes());
    for v in [min.0, min.1, max.0, max.1] {
        r.extend(v.to_le_bytes());
    }
    let points: usize = rings.iter().map(|ring| ring.len()).sum();
    r.extend((rings.len() as i32).to_le_bytes());
    r.extend((points as i32).to_le_bytes());
    let mut start = 0;
    for ring in rings {
        r.extend((start as i32).to_le_bytes());
        start += ring.len();
    }
    for p in rings.iter().flatten() {
        r.extend(p.0.to_le_bytes());
        r.extend(p.1.to_le_bytes());
    }
    r
}

/// A shape file of some contents, and its index.
fn shape_files(sort: i32, contents: &[Vec<u8>]) -> (Vec<u8>, Vec<u8>) {
    let mut records = Vec::new();
    let mut index = Vec::new();
    for (i, content) in contents.iter().enumerate() {
        let words = (content.len() / 2) as i32;
        index.extend(((100 + records.len()) as i32 / 2).to_be_bytes());
        index.extend(words.to_be_bytes());
        records.extend((i as i32 + 1).to_be_bytes());
        records.extend(words.to_be_bytes());
        records.extend(content);
    }
    (shape_file(sort, &records), shape_file(sort, &index))
}

/// A table of so many records with one column.
fn table(n: u32) -> Vec<u8> {
    let mut r = vec![3u8, 124, 1, 2];
    r.extend(n.to_le_bytes());
    r.extend(65_u16.to_le_bytes());
    r.extend(2_u16.to_le_bytes());
    r.extend([0u8; 20]);
    r.extend(b"FID\0\0\0\0\0\0\0\0C\0\0\0\0\x01\0");
    r.extend([0u8; 14]);
    r.push(0x0d);
    for _ in 0..n {
        r.extend(b" x");
    }
    r
}

fn archive(files: &[(&str, &[u8])]) -> Vec<u8> {
    let mut writer = zip::ZipWriter::new(Cursor::new(Vec::new()));
    for (name, data) in files {
        writer.start_file(*name, zip::write::SimpleFileOptions::default()).unwrap();
        writer.write_all(data).unwrap();
    }
    writer.finish().unwrap().into_inner()
}

#[test]
fn shape_files_are_found_in_an_archive() {
    let bytes = archive(&[
        ("README", b"x"),
        ("land/LAND.SHP", b"shapes"),
        ("land/land.dbf", b"records"),
        ("land/Land.Shx", b"index"),
        ("other.dbf", b"later records"),
    ]);
    let files = find_files(&bytes).unwrap();
    assert_eq!(files.shp, b"shapes");
    assert_eq!(files.dbf, b"later records");
    assert_eq!(files.shx, b"index");
}

#[test]
fn outlines_come_out_of_an_archive() {
    let square = |x: f64, y: f64| {
        vec![(x, y), (x, y + 0.1), (x + 0.1, y + 0.1), (x + 0.1, y), (x, y)]
    };
    let contents = [
        area((18.0, 59.0), (18.3, 59.3), &[square(18.0, 59.0), square(18.2, 59.2)]),
        area((3.0, 59.0), (3.1, 59.1), &[square(3.0, 59.0)]),
        area((19.0, 59.5), (19.1, 59.6), &[square(19.0, 59.5)]),
    ];
    let (shp, shx) = shape_files(5, &contents);
    let dbf = table(3);
    let bytes = archive(&[("a.shp", &shp), ("a.dbf", &dbf), ("a.shx", &shx)]);
    let polys = parse_shapefile_from_zip(&bytes).unwrap();
    let first: Vec<(f64, f64)> = polys
        .iter()
        .map(|p| p.exterior[0])
        .map(|c| (f64::from_bits(c.x.to_bits()), f64::from_bits(c.y.to_bits())))
        .collect();
    assert_eq!(first, vec![(18.0, 59.0), (18.2, 59.2), (19.0, 59.5)]);
    let second = polys[2].exterior[1];
    assert_eq!(f64::from_bits(second.x.to_bits()), 19.0);
    assert_eq!(f64::from_bits(second.y.to_bits()), 59.5 + 0.1);
    assert!(polys.iter().all(|p| p.exterior.len() == 5));

    // Shapes without a record do not count.
    let bytes = archive(&[("a.shp", &shp), ("a.dbf", &table(1)), ("a.shx", &shx)]);
    assert_eq!(parse_shapefile_from_zip(&bytes).unwrap().len(), 2);

    // Points are no areas.
    let mut point = 1_i32.to_le_bytes().to_vec();
    point.extend(18.0_f64.to_le_bytes());
    point.extend(59.0_f64.to_le_bytes());
    let (shp, shx) = shape_files(1, &[point]);
    let bytes = archive(&[("a.shp", &shp), ("a.dbf", &table(1)), ("a.shx", &shx)]);
    assert!(parse_shapefile_from_zip(&bytes).unwrap().is_empty());

    // Files that hold something else.
    let bytes = archive(&[("a.shp", b"x"), ("a.dbf", &dbf), ("a.shx", &shx)]);
    assert_eq!(parse_shapefile_from_zip(&bytes).unwrap_err(), ArchiveError::BadShapes);
    let bytes = archive(&[("a.shp", &shp), ("a.dbf", b"x"), ("a.shx", &shx)]);
    assert_eq!(parse_shapefile_from_zip(&bytes).unwrap_err(), ArchiveError::BadShapes);
    let bytes = archive(&[("a.shp", &shp), ("a.dbf", &dbf), ("a.shx", b"x")]);
    assert_eq!(parse_shapefile_from_zip(&bytes).unwrap_err(), ArchiveError::BadShapes);
}

#[test]
fn archives_that_lack_something() {
    let error = |files: &[(&str, &[u8])]| parse_shapefile_from_zip(&archive(files)).unwrap_err();
    assert_eq!(error(&[]), ArchiveError::NoShp);
    assert_eq!(error(&[("a.dbf", b""), ("a.shx", b"")]), ArchiveError::NoShp);
    assert_eq!(error(&[("a.shp", b""), ("a.shx", b"")]), ArchiveError::NoDbf);
    assert_eq!(error(&[("a.shp", b""), ("a.dbf", b"")]), ArchiveError::NoShx);
    assert_eq!(
        parse_shapefile_from_zip(&b"no archive".to_vec()).unwrap_err(),
        ArchiveError::NotAnArchive
    );
}

#[test]
fn an_archive_with_a_file_that_cannot_be_read() {
    let mut bytes = archive(&[("a.shp", b"some text that is stored")]);
    // Spoil the content but not the directory: the checksum does not fit any more.
    let mut spoiled = false;
    for i in 0..bytes.len() {
        if bytes[i..].starts_with(b"a.shp") && !spoiled {
            bytes[i + 5] ^= 0xff;
            spoiled = true;
        }
    }
    assert!(spoiled);
    assert_eq!(parse_shapefile_from_zip(&bytes).unwrap_err(), ArchiveError::Unreadable(0));
}

#[test]
fn the_last_file_of_a_kind_counts() {
    let entry = |name: &str, data: &[u8]| Entry { name: name.to_string(), data: data.to_vec() };
    let entries = vec![
        entry("a.shp", b"1"),
        entry("a.dbf", b"2"),
        entry("a.shx", b"3"),
        entry("b.shp", b"4"),
        entry("shp", b"5"),
    ];
    let files = pick_files(&entries).unwrap();
    assert_eq!((files.shp, files.dbf, files.shx), (b"4".to_vec(), b"2".to_vec(), b"3".to_vec()));
    assert_eq!(pick_files(&vec![]).unwrap_err(), ArchiveError::NoShp);
}

#[test]
fn shapes_outside_of_the_map_are_left_out() {
    let ring = |x: f64, y: f64| {
        vec![coord(x, y), coord(x + 0.1, y), coord(x + 0.1, y + 0.1), coord(x, y)]
    };
    type Point = (u64, u64);
    let shape =
        |min: Point, max: Point, rings: Vec<Vec<Point>>| Some(Shape { min, max, rings });
    let shapes = vec![
        // No area.
        None,
        // Inside, with a hole, a ring that is open and one with too few points.
        shape(
            coord(18.0, 59.0),
            coord(18.5, 59.5),
            vec![
                ring(18.0, 59.0),
                ring(18.2, 59.2),
                vec![coord(18.0, 59.0), coord(18.1, 59.0), coord(18.1, 59.1)],
                vec![coord(18.0, 59.0), coord(18.0, 59.0)],
            ],
        ),
        // West, east, south, north of the map.
        shape(coord(10.0, 59.0), coord(17.49, 59.5), vec![ring(18.0, 59.0)]),
        shape(coord(20.01, 59.0), coord(21.0, 59.5), vec![ring(18.0, 59.0)]),
        shape(coord(18.0, 50.0), coord(18.5, 58.79), vec![ring(18.0, 59.0)]),
        shape(coord(18.0, 59.81), coord(18.5, 60.0), vec![ring(18.0, 59.0)]),
        // Touching the border.
        shape(coord(10.0, 50.0), coord(17.5, 58.8), vec![ring(17.4, 58.7)]),
    ];
    let polys = clip_shapes(&shapes);
    let sizes: Vec<usize> = polys.iter().map(|p| p.exterior.len()).collect();
    assert_eq!(sizes, vec![4, 4, 4, 4]);
    let last = polys[2].exterior[3];
    assert_eq!((f64::from_bits(last.x.to_bits()), f64::from_bits(last.y.to_bits())), (18.0, 59.0));
}

#[test]
fn where_the_archive_comes_from() {
    let tag = |s: &str| Some(s.to_string());
    assert_eq!(load_from_cache(true, &tag("\"abc\"\n"), &tag(" \"abc\"")), Source::Cache);
    assert_eq!(load_from_cache(true, &tag("abc"), &tag("abd")), Source::Network);
    assert_eq!(load_from_cache(true, &None, &tag("abc")), Source::Network);
    assert_eq!(load_from_cache(false, &tag("abc"), &tag("abc")), Source::Network);
    // Without a tag of the server there is nothing to match.
    assert_eq!(load_from_cache(true, &tag("abc"), &None), Source::Network);
    assert_eq!(load_from_cache(true, &None, &None), Source::Network);
    assert_eq!(load_from_cache(false, &None, &None), Source::Network);
    // Without trimming, whitespace counts.
    assert_eq!(choose_source(true, &tag("abc\n"), &tag("abc")), Source::Network);
    assert_eq!(choose_source(true, &tag("abc"), &tag("abc")), Source::Cache);
    assert_eq!(save_to_cache(true, &tag("abc")), tag("abc"));
    assert_eq!(save_to_cache(true, &None), None);
    assert_eq!(save_to_cache(false, &tag("abc")), None);
}

#[test]
fn capitals_stay() {
    for c in '\0'..=char::MAX {
        let text = format!("{c}b");
        let once = capitalize(&text);
        assert_eq!(capitalize(&once), once);
        assert!(once.ends_with('b'));
    }
}

#[test]
fn capitals() {
    assert_eq!(capitalize("polygons"), "Polygons");
    assert_eq!(capitalize(""), "");
    assert_eq!(capitalize("ßa"), "SSa");
    assert_eq!(capitalize("öl"), "Öl");
    assert_eq!(replace_head("XY", "abc"), "XYbc");
}

#[test]
fn counted_work_is_reported_now_and_then() {
    let mut bar = make_count_bar(5, "polygons simplified", 2);
    let mut lines = Vec::new();
    for _ in 0..5 {
        assert!(bar.is_countable());
        lines.push(bar.inc());
    }
    assert_eq!(
        lines,
        vec![
            None,
            Some("[map] Polygons simplified... 2/5 polygons simplified (40%)".to_string()),
            None,
            Some("[map] Polygons simplified... 4/5 polygons simplified (80%)".to_string()),
            Some("[map] Polygons simplified... 5/5 polygons simplified (100%)".to_string()),
        ]
    );
    assert_eq!(count_line("X", "y", 1, 3), "[map] X... 1/3 y (33%)");
    // Nothing can be reported of no work at all.
    assert!(!make_count_bar(0, "x", 1).is_countable());
    assert!(make_count_bar(0, "x", 2).is_countable());
    assert!(!make_count_bar(1, "x", 0).is_countable());
    assert_eq!(
        count_template("polygons"),
        "[map] [{bar:50.yellow/white}] {pos}/{len} polygons ({percent}%, eta {eta})"
    );
}

#[test]
fn downloads_are_reported_at_each_boundary() {
    const MIB: u64 = 1_048_576;
    let mut bar = make_download_bar(Some(400 * MIB), 100 * MIB);
    assert_eq!(bar.set_position(99 * MIB), None);
    assert!(bar.is_reportable(150 * MIB));
    assert_eq!(
        bar.set_position(150 * MIB),
        Some("[map] Downloading... 150 MiB / 400 MiB (37%)".to_string())
    );
    assert_eq!(bar.logged_threshold, 100 * MIB);
    assert_eq!(bar.set_position(199 * MIB), None);
    assert_eq!(
        bar.set_position(200 * MIB),
        Some("[map] Downloading... 200 MiB / 400 MiB (50%)".to_string())
    );
    let mut bar = make_download_bar(None, 100 * MIB);
    assert_eq!(bar.set_position(350 * MIB), Some("[map] Downloading... 350 MiB".to_string()));
    assert_eq!(bar.logged_threshold, 300 * MIB);
    assert!(!make_download_bar(Some(0), 10).is_reportable(10));
    assert!(!make_download_bar(None, 0).is_reportable(10));
}

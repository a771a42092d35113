use black_sea::float::F32;
use black_sea::server::anchorings::{
    load_anchor_points, load_anchorings, read_anchorings, AnchorRow, TableError, TableFile,
};

fn f(v: f32) -> F32 {
    F32::from_bits(v.to_bits())
}

fn num(v: F32) -> f32 {
    f32::from_bits(v.to_bits())
}

fn rows_of(text: &str) -> Vec<Option<AnchorRow>> {
    let mut rdr = csv::Reader::from_reader(text.as_bytes());
    let mut rows = Vec::new();
    for record in rdr.records() {
        let row = record.ok().and_then(|r| {
            let x: f32 = r.get(1)?.parse().ok()?;
            let y: f32 = r.get(2)?.parse().ok()?;
            Some(AnchorRow {
                name: r.get(0)?.to_string(),
                x: f(x),
                y: f(y),
                note: r.get(3).map(|s| s.to_string()),
            })
        });
        rows.push(row);
    }
    rows
}

#[test]
fn parses_rows_and_assigns_sequential_ids() {
    let csv = "\
name,x,y,note
Sandhamn,4794.0,2812.1,Classic starting point
Möja,4793.0,2371.1,
Finnhamn,4674.0,1899.1,Outer archipelago
";
    let points = read_anchorings(rows_of(csv)).expect("parses");
    assert_eq!(points.len(), 3);

    assert_eq!(points[0].id, 0);
    assert_eq!(points[0].name, "Sandhamn");
    assert_eq!(num(points[0].position.x), 4794.0);
    assert_eq!(num(points[0].position.y), 2812.1);
    assert_eq!(points[0].note.as_deref(), Some("Classic starting point"));

    // Empty `note` cell should become `None`, not `Some("")`.
    assert_eq!(points[1].id, 1);
    assert_eq!(points[1].name, "Möja");
    assert!(points[1].note.is_none());

    assert_eq!(points[2].id, 2);
    assert_eq!(points[2].note.as_deref(), Some("Outer archipelago"));
}

#[test]
fn empty_csv_yields_no_points() {
    let csv = "name,x,y,note\n";
    let points = read_anchorings(rows_of(csv)).expect("parses");
    assert!(points.is_empty());
}

#[test]
fn the_first_bad_row_is_named() {
    let csv = "name,x,y,note\nA,1.0,2.0,\nB,far,2.0,\nC,3.0,4.0,\n";
    match read_anchorings(rows_of(csv)) {
        Ok(_) => panic!("the second row has no number"),
        Err(row) => assert_eq!(row, 2),
    }
}

#[test]
fn a_missing_table_is_no_error() {
    assert!(load_anchorings(TableFile::Missing).expect("no table").is_empty());
    let csv = "name,x,y,note\nA,1.0,2.0,deep\n";
    let points = load_anchorings(TableFile::Rows(rows_of(csv))).expect("parses");
    assert_eq!(points.len(), 1);
}

#[test]
fn a_table_that_cannot_be_opened_or_read_is_an_error() {
    assert_eq!(load_anchorings(TableFile::Locked).unwrap_err(), TableError::Locked);
    let csv = "name,x,y,note\nA,1.0,2.0,\nB,far,2.0,\n";
    let file = TableFile::Rows(rows_of(csv));
    assert_eq!(load_anchorings(file).unwrap_err(), TableError::BadRow(2));
}

#[test]
fn bad_rows_are_left_out_and_ids_stay() {
    let csv = "name,x,y,note\nA,1.0,2.0,\nB,far,2.0,\nC,3.0,4.0,calm\n";
    let points = load_anchor_points(rows_of(csv));
    assert_eq!(points.len(), 2);
    assert_eq!(points[0].id, 0);
    assert_eq!(points[1].id, 2);
    assert_eq!(points[1].name, "C");
    assert_eq!(points[1].note.as_deref(), Some("calm"));
}

//! The pages of the admin tool.

use vstd::prelude::*;
use vstd::string::StringExecFns;

use crate::coords::{
    lat_lon_of, lat_lon_to_tile, tile_of, tile_to_lat_lon, MAP_TILES_H, MAP_TILES_W,
};
use crate::float::{F32, F64};
use crate::round_trip::tiles::{lemma_column_comes_back, lemma_row_comes_back};
use crate::text::{
    decimal, decimal_text, replace_all, replaced, signed_decimal, signed_decimal_text,
};

verus! {

/// How a character is written in a page.
pub open spec fn escaped_char(c: char) -> Seq<char> {
    if c == '&' {
        "&amp;"@
    } else if c == '<' {
        "&lt;"@
    } else if c == '>' {
        "&gt;"@
    } else if c == '"' {
        "&quot;"@
    } else {
        seq![c]
    }
}

/// How a text is written in a page.
pub open spec fn escaped(s: Seq<char>) -> Seq<char>
    decreases s.len(),
{
    if s.len() == 0 {
        s
    } else {
        escaped(s.drop_last()) + escaped_char(s.last())
    }
}

/// A text in the form in which it stands in a page.
pub fn html_escape(s: &str) -> (r: String)
    ensures
        r@ == escaped(s@),
{
    let mut r: String = String::new();
    assert(s@.take(0) =~= Seq::<char>::empty());
    assert(r@ =~= escaped(s@.take(0)));
    for c in it: s.chars()
        invariant
            it.seq() == s@,
            r@ == escaped(s@.take(it.index())),
    {
        proof {
            let part = s@.take(it.index() + 1);
            assert(part.drop_last() =~= s@.take(it.index()));
            assert(part.last() == c);
        }
        if c == '&' {
            r.append("&amp;");
        } else if c == '<' {
            r.append("&lt;");
        } else if c == '>' {
            r.append("&gt;");
        } else if c == '"' {
            r.append("&quot;");
        } else {
            let ghost before = r@;
            r.push(c);
            assert(r@ =~= before + seq![c]);
        }
    }
    assert(s@.take(s@.len() as int) =~= s@);
    r
}

/// Nothing in an escaped text opens or closes a tag or an attribute.
pub proof fn lemma_escaped_is_inert(s: Seq<char>)
    ensures
        forall|i: int|
            0 <= i < escaped(s).len() ==> {
                let c = #[trigger] escaped(s)[i];
                c != '<' && c != '>' && c != '"'
            },
    decreases s.len(),
{
    reveal_strlit("&amp;");
    reveal_strlit("&lt;");
    reveal_strlit("&gt;");
    reveal_strlit("&quot;");
    if s.len() > 0 {
        lemma_escaped_is_inert(s.drop_last());
        let head = escaped(s.drop_last());
        let tail = escaped_char(s.last());
        assert forall|i: int| 0 <= i < escaped(s).len() implies {
            let c = #[trigger] escaped(s)[i];
            c != '<' && c != '>' && c != '"'
        } by {
            if i < head.len() {
                assert(escaped(s)[i] == head[i]);
            } else {
                assert(escaped(s)[i] == tail[i - head.len()]);
            }
        }
    }
}

/// How busy the server is.
#[derive(Debug, Clone, Copy)]
pub struct Stats {
    pub active_connections: i64,
    pub total_connections: u64,
}

/// An anchor point as the admin tool stores it, on a tile.
#[derive(Debug)]
pub struct StoredAnchor {
    pub name: String,
    pub x: u32,
    pub y: u32,
    pub note: String,
}

/// An anchor point as the editor shows it, on the globe.
#[derive(Debug)]
pub struct AnchorLatLon {
    pub name: String,
    pub lat: F64,
    pub lon: F64,
    pub note: String,
}

/// The anchor points of the rows that could be read.
pub open spec fn readable_anchors(rows: Seq<Option<StoredAnchor>>, n: int) -> Seq<StoredAnchor>
    decreases n,
{
    if n <= 0 {
        Seq::empty()
    } else {
        let rest = readable_anchors(rows, n - 1);
        match rows[n - 1] {
            Some(a) => rest.push(a),
            None => rest,
        }
    }
}

/// The anchor points of the rows that could be read.
pub fn read_rows(rows: Vec<Option<StoredAnchor>>) -> (r: Vec<StoredAnchor>)
    ensures
        r@ == readable_anchors(rows@, rows@.len() as int),
{
    let ghost all = rows@;
    let mut r: Vec<StoredAnchor> = Vec::new();
    for row in it: rows
        invariant
            it.seq() == all,
            r@ == readable_anchors(all, it.index()),
    {
        if let Some(a) = row {
            r.push(a);
        }
    }
    r
}

/// A note as it is shown; a dash for none.
pub open spec fn shown_note(note: Seq<char>) -> Seq<char> {
    if note.len() == 0 {
        "—"@
    } else {
        note
    }
}

/// The row of an anchor point in the table of the dashboard.
pub open spec fn anchor_row(a: StoredAnchor) -> Seq<char> {
    "<tr><td>"@ + escaped(a.name@) + "</td><td>"@ + decimal(a.x as nat) + "</td><td>"@ + decimal(
        a.y as nat,
    ) + "</td><td>"@ + escaped(shown_note(a.note@)) + "</td></tr>"@
}

/// The table of the dashboard.
pub open spec fn anchor_rows(anchors: Seq<StoredAnchor>, n: int) -> Seq<char>
    decreases n,
{
    if n <= 0 {
        Seq::empty()
    } else {
        anchor_rows(anchors, n - 1) + anchor_row(anchors[n - 1])
    }
}

/// The dashboard, from a template with placeholders.
pub open spec fn dashboard(
    template: Seq<char>,
    stats: Stats,
    anchors: Seq<StoredAnchor>,
    prefix: Seq<char>,
) -> Seq<char> {
    let a = replaced(template, "{ACTIVE}"@, signed_decimal(stats.active_connections as int));
    let b = replaced(a, "{TOTAL}"@, decimal(stats.total_connections as nat));
    let c = replaced(b, "{ANCHOR_COUNT}"@, decimal(anchors.len()));
    let d = replaced(c, "{PREFIX}"@, prefix);
    replaced(d, "{ANCHOR_ROWS}"@, anchor_rows(anchors, anchors.len() as int))
}

/// The row of an anchor point in the table of the dashboard.
fn row_of(a: &StoredAnchor) -> (r: String)
    ensures
        r@ == anchor_row(*a),
{
    let note: String = if a.note.as_str().is_empty() {
        html_escape("—")
    } else {
        html_escape(a.note.as_str())
    };
    let mut r: String = "<tr><td>".to_string();
    r.append(html_escape(a.name.as_str()).as_str());
    r.append("</td><td>");
    r.append(decimal_text(a.x as u64).as_str());
    r.append("</td><td>");
    r.append(decimal_text(a.y as u64).as_str());
    r.append("</td><td>");
    r.append(note.as_str());
    r.append("</td></tr>");
    r
}

/// The table of the dashboard.
fn table_of(anchors: &Vec<StoredAnchor>) -> (r: String)
    ensures
        r@ == anchor_rows(anchors@, anchors@.len() as int),
{
    let mut r: String = String::new();
    let mut i: usize = 0;
    assert(r@ =~= anchor_rows(anchors@, 0));
    while i < anchors.len()
        invariant
            i <= anchors.len(),
            r@ == anchor_rows(anchors@, i as int),
        decreases anchors.len() - i,
    {
        r.append(row_of(&anchors[i]).as_str());
        i = i + 1;
    }
    r
}

/// The dashboard, from a template with placeholders.
pub fn serve_dashboard(
    template: &str,
    stats: Stats,
    anchors: &Vec<StoredAnchor>,
    prefix: &str,
) -> (r: String)
    ensures
        r@ == dashboard(template@, stats, anchors@, prefix@),
{
    proof {
        reveal_strlit("{ACTIVE}");
        reveal_strlit("{TOTAL}");
        reveal_strlit("{ANCHOR_COUNT}");
        reveal_strlit("{PREFIX}");
        reveal_strlit("{ANCHOR_ROWS}");
    }
    let active: String = signed_decimal_text(stats.active_connections);
    let total: String = decimal_text(stats.total_connections);
    let count: String = decimal_text(anchors.len() as u64);
    let rows: String = table_of(anchors);
    let a: String = replace_all(template, "{ACTIVE}", active.as_str());
    let b: String = replace_all(a.as_str(), "{TOTAL}", total.as_str());
    let c: String = replace_all(b.as_str(), "{ANCHOR_COUNT}", count.as_str());
    let d: String = replace_all(c.as_str(), "{PREFIX}", prefix);
    replace_all(d.as_str(), "{ANCHOR_ROWS}", rows.as_str())
}

/// The editor, from a template with a placeholder.
pub fn serve_editor(template: &str, prefix: &str) -> (r: String)
    ensures
        r@ == replaced(template@, "{PREFIX}"@, prefix@),
{
    proof {
        reveal_strlit("{PREFIX}");
    }
    replace_all(template, "{PREFIX}", prefix)
}

/// An anchor point on the globe.
pub open spec fn on_globe(a: StoredAnchor) -> AnchorLatLon {
    let (lat, lon) = lat_lon_of(F32::of_nat(a.x as nat), F32::of_nat(a.y as nat));
    AnchorLatLon { name: a.name, lat, lon, note: a.note }
}

/// An anchor point on its tile: the nearest one, counted from the north-west corner of the map.
pub open spec fn on_tile(a: AnchorLatLon) -> StoredAnchor {
    let (x, y) = tile_of(a.lat, a.lon);
    StoredAnchor {
        name: a.name,
        x: x.nearest_whole().trunc(u32::MAX as nat) as u32,
        y: y.nearest_whole().trunc(u32::MAX as nat) as u32,
        note: a.note,
    }
}

/// The anchor points for the editor.
pub fn get_anchors(anchors: Vec<StoredAnchor>) -> (r: Vec<AnchorLatLon>)
    ensures
        r@ == anchors@.map_values(|a: StoredAnchor| on_globe(a)),
{
    let ghost all = anchors@;
    let ghost want = all.map_values(|a: StoredAnchor| on_globe(a));
    let mut r: Vec<AnchorLatLon> = Vec::new();
    for a in it: anchors
        invariant
            it.seq() == all,
            want == all.map_values(|a: StoredAnchor| on_globe(a)),
            r@ == want.take(it.index()),
    {
        let (lat, lon) = tile_to_lat_lon(F32::from_u64(a.x as u64), F32::from_u64(a.y as u64));
        r.push(AnchorLatLon { name: a.name, lat, lon, note: a.note });
        assert(r@ =~= want.take(it.index() + 1));
    }
    assert(want.take(all.len() as int) =~= want);
    r
}

/// The anchor points to be stored, from those of the editor.
pub fn save_anchors(inputs: Vec<AnchorLatLon>) -> (r: Vec<StoredAnchor>)
    ensures
        r@ == inputs@.map_values(|a: AnchorLatLon| on_tile(a)),
{
    let ghost all = inputs@;
    let ghost want = all.map_values(|a: AnchorLatLon| on_tile(a));
    let mut r: Vec<StoredAnchor> = Vec::new();
    for a in it: inputs
        invariant
            it.seq() == all,
            want == all.map_values(|a: AnchorLatLon| on_tile(a)),
            r@ == want.take(it.index()),
    {
        let (x, y) = lat_lon_to_tile(a.lat, a.lon);
        r.push(
            StoredAnchor {
                name: a.name,
                x: x.round().to_u32(),
                y: y.round().to_u32(),
                note: a.note,
            },
        );
        assert(r@ =~= want.take(it.index() + 1));
    }
    assert(want.take(all.len() as int) =~= want);
    r
}

/// What the editor saves as it was loaded, is stored as it was: anchor points on the map come back
/// to their tiles, in their order, with their names and notes.
pub proof fn lemma_saved_as_loaded(anchors: Seq<StoredAnchor>)
    requires
        forall|i: int|
            0 <= i < anchors.len() ==> (#[trigger] anchors[i]).x <= MAP_TILES_W && anchors[i].y
                <= MAP_TILES_H,
    ensures
        anchors.map_values(|a: StoredAnchor| on_globe(a)).map_values(
            |a: AnchorLatLon| on_tile(a),
        ) == anchors,
{
    let back = anchors.map_values(|a: StoredAnchor| on_globe(a)).map_values(
        |a: AnchorLatLon| on_tile(a),
    );
    assert forall|i: int| 0 <= i < anchors.len() implies back[i] == anchors[i] by {
        let a = anchors[i];
        lemma_column_comes_back(a.x as nat, a.y as nat);
        lemma_row_comes_back(a.x as nat, a.y as nat);
        assert(back[i] == on_tile(on_globe(a)));
    }
    assert(back =~= anchors);
}

} // verus!

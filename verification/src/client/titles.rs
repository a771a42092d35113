//! What the titles say.

use vstd::prelude::*;

use crate::float::exact::{lemma_lies_on, lies_on};
use crate::readings::{is_number, lemma_numbers_read_back, number};
use crate::text::decimal;

use super::app::{App, UpdateStatus};
use super::overview::overview_title_text;
use super::scene::{page_title, update_note};

verus! {

/// Whether a text is a number in decimal digits, and which.
pub open spec fn reads(digits: Seq<char>, n: int) -> bool {
    is_number(digits) && number(digits) == n
}

/// Whether a text says where a boat on a tile is, by column and row and by the page that has this
/// tile, and goes on with `rest`.
pub open spec fn says_where(text: Seq<char>, col: int, row: int, rest: Seq<char>) -> bool {
    exists|a: Seq<char>, b: Seq<char>, c: Seq<char>, d: Seq<char>|
        {
            &&& #[trigger] reads(a, col)
            &&& #[trigger] reads(b, row)
            &&& #[trigger] reads(c, col / 200)
            &&& #[trigger] reads(d, row / 50)
            &&& text == "World  ["@ + a + ", "@ + b + "]  page ("@ + c + ", "@ + d + ")"@ + rest
        }
}

/// The title says on which tile and on which page the boat is, and then what there is to say of
/// versions: nothing where those of client and server go together and no newer one is known.
pub proof fn lemma_title_says_where(app: App, col: int, row: int)
    requires
        lies_on(app.cursor.x, col),
        lies_on(app.cursor.y, row),
        0 <= col <= u32::MAX,
        0 <= row <= u32::MAX,
    ensures
        says_where(
            page_title(app),
            col,
            row,
            match app.update_status {
                UpdateStatus::Compatible { patch_available } => match patch_available {
                    Some(v) => "  · v"@ + v@ + " available — brew upgrade black-sea"@,
                    None => Seq::empty(),
                },
                UpdateStatus::Incompatible { server_version } => Seq::empty(),
                UpdateStatus::Unknown => "  · server version unknown"@,
            },
        ),
{
    lemma_lies_on(app.cursor.x, col);
    lemma_lies_on(app.cursor.y, row);
    lemma_says_where(col, row, update_note(app.update_status));
}

/// A text that says where a boat is.
pub proof fn lemma_says_where(col: int, row: int, rest: Seq<char>)
    requires
        0 <= col,
        0 <= row,
    ensures
        says_where(
            "World  ["@ + decimal(col as nat) + ", "@ + decimal(row as nat) + "]  page ("@ + decimal(
                (col / 200) as nat,
            ) + ", "@ + decimal((row / 50) as nat) + ")"@ + rest,
            col,
            row,
            rest,
        ),
{
    lemma_numbers_read_back(col as nat);
    lemma_numbers_read_back(row as nat);
    lemma_numbers_read_back((col / 200) as nat);
    lemma_numbers_read_back((row / 50) as nat);
    let (a, b) = (decimal(col as nat), decimal(row as nat));
    let (c, d) = (decimal((col / 200) as nat), decimal((row / 50) as nat));
    assert(reads(a, col) && reads(b, row) && reads(c, col / 200) && reads(d, row / 50));
}

/// Whether the title of the overview says on which tile the boat is, how to go on, and then `rest`.
pub open spec fn says_tile(text: Seq<char>, col: int, row: int, rest: Seq<char>) -> bool {
    exists|a: Seq<char>, b: Seq<char>|
        {
            &&& #[trigger] reads(a, col)
            &&& #[trigger] reads(b, row)
            &&& text == "Map Overview  ["@ + a + ", "@ + b
                + "]  (Tab: cycle anchors · Enter: mark visited · Esc: close)"@ + rest
        }
}

/// The title of the overview says on which tile the boat is, and of the anchor point that is picked
/// out its name, whether it was visited, and its note where it has one.
pub proof fn lemma_overview_says_where(app: App, col: int, row: int)
    requires
        lies_on(app.cursor.x, col),
        lies_on(app.cursor.y, row),
        0 <= col <= u32::MAX,
        0 <= row <= u32::MAX,
    ensures
        app.selected_anchor is None ==> says_tile(
            overview_title_text(app),
            col,
            row,
            Seq::empty(),
        ),
        (app.selected_anchor matches Some(k) && k < app.anchor_points@.len()) ==> ({
            let a = app.anchor_points@[app.selected_anchor->0 as int];
            let visited = app.visited_anchors@.contains(a.id);
            let mark = if visited {
                " [visited]"@
            } else {
                Seq::empty()
            };
            &&& a.note is None ==> says_tile(
                overview_title_text(app),
                col,
                row,
                "  · "@ + a.name@ + mark,
            )
            &&& (a.note matches Some(note) && note@.len() > 0) ==> says_tile(
                overview_title_text(app),
                col,
                row,
                "  · "@ + a.name@ + mark + " — "@ + (a.note->0)@,
            )
        }),
{
    lemma_lies_on(app.cursor.x, col);
    lemma_lies_on(app.cursor.y, row);
    lemma_numbers_read_back(col as nat);
    lemma_numbers_read_back(row as nat);
    let (a, b) = (decimal(col as nat), decimal(row as nat));
    assert(reads(a, col) && reads(b, row));
}

} // verus!

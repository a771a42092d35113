//! The texts around the drawings.

use vstd::prelude::*;
use vstd::string::StringExecFns;

use super::app::App;
use super::render::{in_bold, in_color, Color, Style};

verus! {

/// A text in one style.
#[derive(Debug)]
pub struct Span {
    pub text: String,
    pub style: Style,
}

/// A text in one style.
pub struct SpanView {
    pub text: Seq<char>,
    pub style: Style,
}

impl View for Span {
    type V = SpanView;

    open spec fn view(&self) -> SpanView {
        SpanView { text: self.text@, style: self.style }
    }
}

/// Some lines of text in a frame with a title.
#[derive(Debug)]
pub struct Panel {
    pub title: String,
    pub lines: Vec<Vec<Span>>,
}

/// Some lines of text in a frame with a title.
pub struct PanelView {
    pub title: Seq<char>,
    pub lines: Seq<Seq<SpanView>>,
}

/// The texts of a line.
pub open spec fn line_view(line: Seq<Span>) -> Seq<SpanView> {
    line.map_values(|s: Span| s@)
}

impl View for Panel {
    type V = PanelView;

    open spec fn view(&self) -> PanelView {
        PanelView {
            title: self.title@,
            lines: self.lines@.map_values(|l: Vec<Span>| line_view(l@)),
        }
    }
}

/// A line of one text.
pub open spec fn one(text: Seq<char>, style: Style) -> Seq<SpanView> {
    seq![SpanView { text, style }]
}

/// The mark in front of what is typed.
pub open spec fn prompt_mark() -> SpanView {
    SpanView { text: "> "@, style: in_bold(Color::Yellow) }
}

/// The panel on which chat is typed.
pub open spec fn input_bar(title: Seq<char>, app: App) -> PanelView {
    PanelView {
        title,
        lines: seq![
            seq![prompt_mark(), SpanView { text: app.input@, style: in_color(Color::Default) }],
        ],
    }
}

/// The panel that warns that client and server do not fit.
pub open spec fn warning(server_version: Seq<char>) -> PanelView {
    PanelView {
        title: "Client update required"@,
        lines: seq![
            one(
                "  Server is v"@ + server_version
                    + " — your client is outdated.  Run: brew upgrade black-sea"@,
                in_bold(Color::Red),
            ),
        ],
    }
}

/// The boat as it will look, while the name is being typed.
pub open spec fn preview(name: Seq<char>) -> Seq<char> {
    if name.len() == 0 {
        "type your name…"@
    } else {
        "/"@ + name + "/"@
    }
}

/// The panel on which the name is typed.
pub open spec fn name_screen(name: Seq<char>) -> PanelView {
    PanelView {
        title: "Enter your boat name (Enter to sail)"@,
        lines: seq![
            one("Welcome to Black Sea"@, in_bold(Color::Cyan)),
            one(""@, in_color(Color::Default)),
            seq![
                prompt_mark(),
                SpanView { text: name, style: in_color(Color::Default) },
                SpanView { text: "_"@, style: in_color(Color::DarkGray) },
            ],
            one("  your boat: "@ + preview(name), in_color(Color::DarkGray)),
        ],
    }
}

/// The panel that says that client and server do not fit.
pub open spec fn incompatible_screen(server_version: Seq<char>, own_version: Seq<char>) -> PanelView {
    let empty = one(""@, in_color(Color::Default));
    PanelView {
        title: "Update required — cannot connect"@,
        lines: seq![
            one("  Client / server version mismatch"@, in_bold(Color::Red)),
            empty,
            one("  Server is running protocol v"@ + server_version, in_color(Color::Yellow)),
            one("  Your client is v"@ + own_version, in_color(Color::Yellow)),
            empty,
            one("  Run:  brew upgrade black-sea"@, in_bold(Color::Cyan)),
            empty,
            one("  Press Enter or q to exit."@, in_color(Color::DarkGray)),
        ],
    }
}

/// A text in one style.
fn span(text: &str, color: Color, bold: bool) -> (r: Span)
    ensures
        r@ == (SpanView { text: text@, style: Style { color, bold, reversed: false } }),
{
    Span { text: text.to_string(), style: Style { color, bold, reversed: false } }
}

/// A line of one text.
fn line(text: &str, color: Color, bold: bool) -> (r: Vec<Span>)
    ensures
        line_view(r@) == one(text@, Style { color, bold, reversed: false }),
{
    let mut r: Vec<Span> = Vec::new();
    r.push(span(text, color, bold));
    assert(line_view(r@) =~= one(text@, Style { color, bold, reversed: false }));
    r
}

/// The panel on which chat is typed.
pub fn render_input_bar(app: &App) -> (r: Panel)
    ensures
        r@ == input_bar("Say (Enter to send, Esc to quit, /map for map)"@, *app),
{
    titled_input_bar("Say (Enter to send, Esc to quit, /map for map)", app)
}

/// The panel on which chat is typed, under a title.
pub(crate) fn titled_input_bar(title: &str, app: &App) -> (r: Panel)
    ensures
        r@ == input_bar(title@, *app),
{
    let mut typed: Vec<Span> = Vec::new();
    typed.push(span("> ", Color::Yellow, true));
    typed.push(span(app.input.as_str(), Color::Default, false));
    let mut lines: Vec<Vec<Span>> = Vec::new();
    lines.push(typed);
    let r: Panel = Panel { title: title.to_string(), lines };
    assert(line_view(r.lines@[0]@) =~= input_bar(title@, *app).lines[0]);
    assert(r@.lines =~= input_bar(title@, *app).lines);
    r
}

/// The panel that warns that client and server do not fit.
pub fn render_update_warning(server_version: &str) -> (r: Panel)
    ensures
        r@ == warning(server_version@),
{
    let mut text: String = "  Server is v".to_string();
    text.append(server_version);
    text.append(" — your client is outdated.  Run: brew upgrade black-sea");
    let mut lines: Vec<Vec<Span>> = Vec::new();
    lines.push(line(text.as_str(), Color::Red, true));
    let r: Panel = Panel { title: "Client update required".to_string(), lines };
    assert(r@.lines =~= warning(server_version@).lines);
    r
}

/// The line that shows the boat while the name is being typed.
fn preview_line(name: &str) -> (r: String)
    ensures
        r@ == "  your boat: "@ + preview(name@),
{
    let mut r: String = "  your boat: ".to_string();
    let ghost head = r@;
    if name.is_empty() {
        r.append("type your name…");
    } else {
        r.append("/");
        r.append(name);
        r.append("/");
    }
    assert(r@ =~= head + preview(name@));
    r
}

/// The panel on which the name is typed.
pub fn render_name_screen(name: &str) -> (r: Panel)
    ensures
        r@ == name_screen(name@),
{
    let mut typed: Vec<Span> = Vec::new();
    typed.push(span("> ", Color::Yellow, true));
    typed.push(span(name, Color::Default, false));
    typed.push(span("_", Color::DarkGray, false));
    let mut lines: Vec<Vec<Span>> = Vec::new();
    lines.push(line("Welcome to Black Sea", Color::Cyan, true));
    lines.push(line("", Color::Default, false));
    lines.push(typed);
    lines.push(line(preview_line(name).as_str(), Color::DarkGray, false));
    let r: Panel = Panel { title: "Enter your boat name (Enter to sail)".to_string(), lines };
    assert(line_view(r.lines@[2]@) =~= name_screen(name@).lines[2]);
    assert(r@.lines =~= name_screen(name@).lines);
    r
}

/// The panel that says that client and server do not fit.
pub fn render_incompatible_screen(server_version: &str, own_version: &str) -> (r: Panel)
    ensures
        r@ == incompatible_screen(server_version@, own_version@),
{
    let mut server: String = "  Server is running protocol v".to_string();
    server.append(server_version);
    let mut own: String = "  Your client is v".to_string();
    own.append(own_version);
    let mut lines: Vec<Vec<Span>> = Vec::new();
    lines.push(line("  Client / server version mismatch", Color::Red, true));
    lines.push(line("", Color::Default, false));
    lines.push(line(server.as_str(), Color::Yellow, false));
    lines.push(line(own.as_str(), Color::Yellow, false));
    lines.push(line("", Color::Default, false));
    lines.push(line("  Run:  brew upgrade black-sea", Color::Cyan, true));
    lines.push(line("", Color::Default, false));
    lines.push(line("  Press Enter or q to exit.", Color::DarkGray, false));
    let r: Panel = Panel { title: "Update required — cannot connect".to_string(), lines };
    assert(r@.lines =~= incompatible_screen(server_version@, own_version@).lines);
    r
}

} // verus!

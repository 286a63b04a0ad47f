//! Markdown conversion for the chat backends.
use pulldown_cmark::{Event, Options, Parser, Tag, TagEnd};
use vstd::prelude::*;

use vstd::utf8::*;

use crate::text::{
    chars_of, decimal, digit_char, is_whitespace, lemma_trim_end_ends_clean, occurs_at, push_decimal,
    push_str, string_from_chars, trim_end_in_place, trim_end_spec,
};

verus! {

/// What one character becomes in HTML text: `&`, `<` and `>` are escaped.
pub open spec fn escape_html_char(c: char) -> Seq<char> {
    if c == '&' {
        "&amp;"@
    } else if c == '<' {
        "&lt;"@
    } else if c == '>' {
        "&gt;"@
    } else {
        seq![c]
    }
}

/// HTML escaping of a character sequence, character by character.
pub open spec fn escape_html_spec(s: Seq<char>) -> Seq<char>
    decreases s.len(),
{
    if s.len() == 0 {
        seq![]
    } else {
        escape_html_spec(s.drop_last()) + escape_html_char(s.last())
    }
}

/// Appends the HTML-escaped form of `s` to `out`.
pub fn push_escaped(out: &mut Vec<char>, s: &[char])
    ensures
        final(out)@ == old(out)@ + escape_html_spec(s@),
{
    let ghost start = out@;
    let mut i: usize = 0;
    while i < s.len()
        invariant
            i <= s.len(),
            out@ == start + escape_html_spec(s@.take(i as int)),
        decreases s.len() - i,
    {
        let c = s[i];
        assert(s@.take(i + 1).drop_last() == s@.take(i as int));
        if c == '&' {
            push_str(out, "&amp;");
        } else if c == '<' {
            push_str(out, "&lt;");
        } else if c == '>' {
            push_str(out, "&gt;");
        } else {
            out.push(c);
        }
        i = i + 1;
    }
    assert(s@.take(s.len() as int) == s@);
}

/// Escapes `&`, `<` and `>` for Telegram's HTML parse mode.
pub fn escape_html(s: &str) -> (r: String)
    ensures
        r@ == escape_html_spec(s@),
{
    let chars = crate::text::chars_of(s);
    let mut out: Vec<char> = Vec::new();
    push_escaped(&mut out, chars.as_slice());
    string_from_chars(out.as_slice())
}

/// Length in bytes of the UTF-8 encoding of `s`.
pub open spec fn byte_len(s: Seq<char>) -> nat {
    encode_utf8(s).len()
}

/// The largest number of cells in a row.
pub open spec fn max_row_len(rows: Seq<Seq<Seq<char>>>) -> nat
    decreases rows.len(),
{
    if rows.len() == 0 {
        0
    } else {
        let m = max_row_len(rows.drop_last());
        if rows.last().len() > m {
            rows.last().len()
        } else {
            m
        }
    }
}

/// Width of column `c`: the largest byte length of a cell in that column.
pub open spec fn column_width(rows: Seq<Seq<Seq<char>>>, c: int) -> nat
    decreases rows.len(),
{
    if rows.len() == 0 {
        0
    } else {
        let m = column_width(rows.drop_last(), c);
        let w = if 0 <= c < rows.last().len() {
            byte_len(rows.last()[c])
        } else {
            0
        };
        if w > m {
            w
        } else {
            m
        }
    }
}

/// The width of every column of the table.
pub open spec fn column_widths(rows: Seq<Seq<Seq<char>>>) -> Seq<nat> {
    Seq::new(max_row_len(rows), |c: int| column_width(rows, c))
}

/// `n` copies of `c`.
pub open spec fn repeat_char(c: char, n: nat) -> Seq<char> {
    Seq::new(n, |i: int| c)
}

/// `cell` left-aligned in a field of `width` characters.
pub open spec fn pad_right(cell: Seq<char>, width: nat) -> Seq<char> {
    if cell.len() < width {
        cell + repeat_char(' ', (width - cell.len()) as nat)
    } else {
        cell
    }
}

/// A padded cell, HTML-escaped when `esc` holds.
pub open spec fn render_cell(cell: Seq<char>, width: nat, esc: bool) -> Seq<char> {
    if esc {
        escape_html_spec(pad_right(cell, width))
    } else {
        pad_right(cell, width)
    }
}

/// The first `n` cells of a row, separated by `" | "`.
pub open spec fn render_cells(row: Seq<Seq<char>>, widths: Seq<nat>, esc: bool, n: int) -> Seq<
    char,
>
    decreases n,
{
    if n <= 0 {
        seq![]
    } else {
        render_cells(row, widths, esc, n - 1) + (if n - 1 > 0 {
            " | "@
        } else {
            seq![]
        }) + render_cell(row[n - 1], widths[n - 1], esc)
    }
}

/// One table line.
pub open spec fn render_row(row: Seq<Seq<char>>, widths: Seq<nat>, esc: bool) -> Seq<char> {
    render_cells(row, widths, esc, row.len() as int) + seq!['\n']
}

/// Dashes under the first `n` columns, joined by `"-+-"`.
pub open spec fn separator_parts(widths: Seq<nat>, n: int) -> Seq<char>
    decreases n,
{
    if n <= 0 {
        seq![]
    } else {
        separator_parts(widths, n - 1) + (if n - 1 > 0 {
            "-+-"@
        } else {
            seq![]
        }) + repeat_char('-', widths[n - 1])
    }
}

/// The line under the header row.
pub open spec fn separator_line(widths: Seq<nat>) -> Seq<char> {
    separator_parts(widths, widths.len() as int) + seq!['\n']
}

/// The first `n` rows, with the separator after the first one.
pub open spec fn table_lines(rows: Seq<Seq<Seq<char>>>, widths: Seq<nat>, esc: bool, n: int) -> Seq<
    char,
>
    decreases n,
{
    if n <= 0 {
        seq![]
    } else {
        table_lines(rows, widths, esc, n - 1) + render_row(rows[n - 1], widths, esc) + (if n - 1
            == 0 {
            separator_line(widths)
        } else {
            seq![]
        })
    }
}

/// A table as an aligned monospace block between `open` and `close`; no
/// rows give the empty text.
pub open spec fn render_table_spec(
    rows: Seq<Seq<Seq<char>>>,
    open: Seq<char>,
    close: Seq<char>,
    esc: bool,
) -> Seq<char> {
    if rows.len() == 0 {
        seq![]
    } else {
        open + table_lines(rows, column_widths(rows), esc, rows.len() as int) + close
    }
}

/// Widths held as machine integers, seen as naturals.
pub open spec fn nat_widths(w: Seq<usize>) -> Seq<nat> {
    w.map_values(|x: usize| x as nat)
}

fn push_repeated(out: &mut Vec<char>, c: char, n: usize)
    ensures
        final(out)@ == old(out)@ + repeat_char(c, n as nat),
{
    let ghost start = out@;
    let mut i: usize = 0;
    while i < n
        invariant
            i <= n,
            out@ == start + repeat_char(c, i as nat),
        decreases n - i,
    {
        out.push(c);
        i = i + 1;
        assert(out@ =~= start + repeat_char(c, i as nat));
    }
}

fn push_cell(out: &mut Vec<char>, cell: &String, width: usize, esc: bool)
    ensures
        final(out)@ == old(out)@ + render_cell(cell@, width as nat, esc),
{
    let mut padded = chars_of(cell.as_str());
    let n = padded.len();
    if n < width {
        push_repeated(&mut padded, ' ', width - n);
    }
    if esc {
        push_escaped(out, padded.as_slice());
    } else {
        let ghost start = out@;
        let mut i: usize = 0;
        while i < padded.len()
            invariant
                i <= padded.len(),
                out@ == start + padded@.take(i as int),
            decreases padded.len() - i,
        {
            out.push(padded[i]);
            i = i + 1;
            assert(out@ =~= start + padded@.take(i as int));
        }
        assert(padded@.take(padded.len() as int) =~= padded@);
    }
}

fn push_row(out: &mut Vec<char>, row: &Vec<String>, widths: &Vec<usize>, esc: bool)
    requires
        row.len() <= widths.len(),
    ensures
        final(out)@ == old(out)@ + render_row(row.deep_view(), nat_widths(widths@), esc),
{
    let ghost start = out@;
    let ghost r = row.deep_view();
    let ghost w = nat_widths(widths@);
    let mut i: usize = 0;
    while i < row.len()
        invariant
            i <= row.len() <= widths.len(),
            r == row.deep_view(),
            w == nat_widths(widths@),
            out@ == start + render_cells(r, w, esc, i as int),
        decreases row.len() - i,
    {
        if i > 0 {
            push_str(out, " | ");
        }
        push_cell(out, &row[i], widths[i], esc);
        i = i + 1;
        assert(out@ =~= start + render_cells(r, w, esc, i as int));
    }
    out.push('\n');
    assert(out@ =~= start + render_row(r, w, esc));
}

fn push_separator(out: &mut Vec<char>, widths: &Vec<usize>)
    ensures
        final(out)@ == old(out)@ + separator_line(nat_widths(widths@)),
{
    let ghost start = out@;
    let ghost w = nat_widths(widths@);
    let mut i: usize = 0;
    while i < widths.len()
        invariant
            i <= widths.len(),
            w == nat_widths(widths@),
            out@ == start + separator_parts(w, i as int),
        decreases widths.len() - i,
    {
        if i > 0 {
            push_str(out, "-+-");
        }
        push_repeated(out, '-', widths[i]);
        i = i + 1;
        assert(out@ =~= start + separator_parts(w, i as int));
    }
    out.push('\n');
    assert(out@ =~= start + separator_line(w));
}

proof fn lemma_max_row_len_bound(rows: Seq<Seq<Seq<char>>>)
    ensures
        forall|r: int| 0 <= r < rows.len() ==> #[trigger] rows[r].len() <= max_row_len(rows),
    decreases rows.len(),
{
    if rows.len() > 0 {
        lemma_max_row_len_bound(rows.drop_last());
        assert forall|r: int| 0 <= r < rows.len() implies #[trigger] rows[r].len() <= max_row_len(
            rows,
        ) by {
            if r < rows.len() - 1 {
                assert(rows[r] == rows.drop_last()[r]);
            }
        }
    }
}

/// The width of every column of `rows`.
fn column_widths_of(rows: &[Vec<String>]) -> (widths: Vec<usize>)
    ensures
        nat_widths(widths@) == column_widths(rows.deep_view()),
{
    let ghost dv = rows.deep_view();
    let mut num_cols: usize = 0;
    let mut r: usize = 0;
    while r < rows.len()
        invariant
            r <= rows.len(),
            dv == rows.deep_view(),
            num_cols as nat == max_row_len(dv.take(r as int)),
        decreases rows.len() - r,
    {
        assert(dv.take(r + 1).drop_last() =~= dv.take(r as int));
        if rows[r].len() > num_cols {
            num_cols = rows[r].len();
        }
        r = r + 1;
    }
    assert(dv.take(rows.len() as int) =~= dv);
    proof {
        lemma_max_row_len_bound(dv);
    }
    let mut widths: Vec<usize> = Vec::new();
    let mut c: usize = 0;
    while c < num_cols
        invariant
            c <= num_cols,
            widths@.len() == c,
            forall|k: int| 0 <= k < c ==> widths@[k] == 0,
        decreases num_cols - c,
    {
        widths.push(0);
        c = c + 1;
    }
    let mut r: usize = 0;
    while r < rows.len()
        invariant
            r <= rows.len(),
            dv == rows.deep_view(),
            num_cols as nat == max_row_len(dv),
            forall|k: int| 0 <= k < dv.len() ==> #[trigger] dv[k].len() <= max_row_len(dv),
            widths@.len() == num_cols,
            forall|k: int|
                0 <= k < num_cols ==> widths@[k] as nat == column_width(dv.take(r as int), k),
        decreases rows.len() - r,
    {
        let row = &rows[r];
        let ghost prev = dv.take(r as int);
        assert(dv.take(r + 1).drop_last() =~= prev);
        assert(dv.take(r + 1).last() == dv[r as int]);
        assert(dv[r as int] == row.deep_view());
        let mut i: usize = 0;
        while i < row.len()
            invariant
                i <= row.len() <= num_cols,
                widths@.len() == num_cols,
                row.deep_view() == dv[r as int],
                forall|k: int|
                    0 <= k < num_cols ==> widths@[k] as nat == (if k < i {
                        let w = byte_len(dv[r as int][k]);
                        let m = column_width(prev, k);
                        if w > m {
                            w
                        } else {
                            m
                        }
                    } else {
                        column_width(prev, k)
                    }),
            decreases row.len() - i,
        {
            let w = row[i].as_str().as_bytes().len();
            assert(row.deep_view()[i as int] == row@[i as int]@);
            if w > widths[i] {
                widths.set(i, w);
            }
            i = i + 1;
        }
        r = r + 1;
        assert forall|k: int| 0 <= k < num_cols implies widths@[k] as nat == column_width(
            dv.take(r as int),
            k,
        ) by {
            let t = dv.take(r as int);
            assert(t.drop_last() =~= prev);
            assert(t.last() == dv[r - 1]);
        }
    }
    assert(dv.take(rows.len() as int) =~= dv);
    assert(nat_widths(widths@) =~= column_widths(dv));
    widths
}

/// Renders buffered table rows as an aligned monospace block wrapped in
/// `open` and `close`; cells are HTML-escaped when `html_escape` holds.
/// No rows give the empty string.
pub fn render_table(rows: &[Vec<String>], open: &str, close: &str, html_escape: bool) -> (r: String)
    ensures
        r@ == render_table_spec(rows.deep_view(), open@, close@, html_escape),
{
    if rows.len() == 0 {
        return string_from_chars(&[]);
    }
    let ghost dv = rows.deep_view();
    let widths = column_widths_of(rows);
    let ghost w = nat_widths(widths@);
    proof {
        lemma_max_row_len_bound(dv);
    }
    let mut out: Vec<char> = Vec::new();
    push_str(&mut out, open);
    let mut r: usize = 0;
    while r < rows.len()
        invariant
            r <= rows.len(),
            dv == rows.deep_view(),
            w == nat_widths(widths@),
            w == column_widths(dv),
            forall|k: int| 0 <= k < dv.len() ==> #[trigger] dv[k].len() <= max_row_len(dv),
            out@ == open@ + table_lines(dv, w, html_escape, r as int),
        decreases rows.len() - r,
    {
        assert(dv[r as int] == rows@[r as int].deep_view());
        assert(nat_widths(widths@).len() == widths@.len());
        assert(dv[r as int].len() == rows@[r as int].len());
        assert(rows@[r as int].len() <= widths.len());
        push_row(&mut out, &rows[r], &widths, html_escape);
        if r == 0 {
            push_separator(&mut out, &widths);
        }
        r = r + 1;
        assert(out@ =~= open@ + table_lines(dv, w, html_escape, r as int));
    }
    push_str(&mut out, close);
    assert(out@ =~= render_table_spec(dv, open@, close@, html_escape));
    string_from_chars(out.as_slice())
}

/// The kind of element that a Markdown start or end event delimits. Table
/// head rows and body rows are both `Row`; a link's start carries its
/// destination.
pub enum MdTag<T> {
    Table,
    Row,
    Cell,
    Strong,
    Emphasis,
    Strikethrough,
    CodeBlock,
    Link(T),
    BlockQuote,
    Heading,
    List(Option<u64>),
    Item,
    Paragraph,
    Other,
}

/// One Markdown parse event, with text held as `T`.
pub enum MdEvent<T> {
    Start(MdTag<T>),
    End(MdTag<T>),
    Text(T),
    Code(T),
    SoftBreak,
    HardBreak,
    Rule,
    Other,
}

/// A parse event with the byte range of the source it stems from.
pub struct MdItem<T> {
    pub event: MdEvent<T>,
    pub start: usize,
    pub end: usize,
}

impl DeepView for MdTag<String> {
    type V = MdTag<Seq<char>>;

    open spec fn deep_view(&self) -> MdTag<Seq<char>> {
        match self {
            MdTag::Table => MdTag::Table,
            MdTag::Row => MdTag::Row,
            MdTag::Cell => MdTag::Cell,
            MdTag::Strong => MdTag::Strong,
            MdTag::Emphasis => MdTag::Emphasis,
            MdTag::Strikethrough => MdTag::Strikethrough,
            MdTag::CodeBlock => MdTag::CodeBlock,
            MdTag::Link(d) => MdTag::Link(d@),
            MdTag::BlockQuote => MdTag::BlockQuote,
            MdTag::Heading => MdTag::Heading,
            MdTag::List(n) => MdTag::List(*n),
            MdTag::Item => MdTag::Item,
            MdTag::Paragraph => MdTag::Paragraph,
            MdTag::Other => MdTag::Other,
        }
    }
}

impl DeepView for MdEvent<String> {
    type V = MdEvent<Seq<char>>;

    open spec fn deep_view(&self) -> MdEvent<Seq<char>> {
        match self {
            MdEvent::Start(t) => MdEvent::Start(t.deep_view()),
            MdEvent::End(t) => MdEvent::End(t.deep_view()),
            MdEvent::Text(s) => MdEvent::Text(s@),
            MdEvent::Code(s) => MdEvent::Code(s@),
            MdEvent::SoftBreak => MdEvent::SoftBreak,
            MdEvent::HardBreak => MdEvent::HardBreak,
            MdEvent::Rule => MdEvent::Rule,
            MdEvent::Other => MdEvent::Other,
        }
    }
}

impl DeepView for MdItem<String> {
    type V = MdItem<Seq<char>>;

    open spec fn deep_view(&self) -> MdItem<Seq<char>> {
        MdItem { event: self.event.deep_view(), start: self.start, end: self.end }
    }
}

/// The events, with source byte ranges, that pulldown-cmark reports for the
/// Markdown `text` with strikethrough and tables enabled.
pub uninterp spec fn markdown_events(text: Seq<char>) -> Seq<MdItem<Seq<char>>>;

/// pulldown-cmark's parse event.
#[verifier::external_type_specification]
#[verifier::external_body]
pub struct ExPulldownEvent<'a>(Event<'a>);

/// pulldown-cmark's end-of-element tag.
#[verifier::external_type_specification]
#[verifier::external_body]
pub struct ExPulldownTagEnd(TagEnd);

/// Runs pulldown-cmark's `Parser::new_ext` with strikethrough and tables
/// enabled over `markdown`, through `into_offset_iter`, converting each
/// event. Trusted: the result is the named `markdown_events` of the text.
#[verifier::external_body]
fn parse_markdown(markdown: &str) -> (items: Vec<MdItem<String>>)
    ensures
        items.deep_view() == markdown_events(markdown@),
{
    let options = Options::ENABLE_STRIKETHROUGH | Options::ENABLE_TABLES;
    let mut items = Vec::new();
    for (event, range) in Parser::new_ext(markdown, options).into_offset_iter() {
        items.push(MdItem { event: event_of(event), start: range.start, end: range.end });
    }
    items
}

/// Conversion of one pulldown-cmark event to the library's event kinds
/// (one arm per kind; start tags go through pulldown-cmark's `Tag::to_end`).
/// Used only inside `parse_markdown`; it states nothing.
#[verifier::external_body]
fn event_of(event: Event) -> MdEvent<String> {
    match event {
        Event::Start(Tag::Link { dest_url, .. }) => MdEvent::Start(MdTag::Link(dest_url.to_string())),
        Event::Start(Tag::List(first)) => MdEvent::Start(MdTag::List(first)),
        Event::Start(tag) => MdEvent::Start(tag_of(tag.to_end())),
        Event::End(TagEnd::List(_)) => MdEvent::End(MdTag::List(None)),
        Event::End(tag) => MdEvent::End(tag_of(tag)),
        Event::Text(text) => MdEvent::Text(text.to_string()),
        Event::Code(text) => MdEvent::Code(text.to_string()),
        Event::SoftBreak => MdEvent::SoftBreak,
        Event::HardBreak => MdEvent::HardBreak,
        Event::Rule => MdEvent::Rule,
        _ => MdEvent::Other,
    }
}

/// Conversion of a pulldown-cmark element kind to the library's tags (one
/// arm per kind). Used only inside `parse_markdown`; it states nothing.
#[verifier::external_body]
fn tag_of(tag: TagEnd) -> MdTag<String> {
    match tag {
        TagEnd::Table => MdTag::Table,
        TagEnd::TableHead | TagEnd::TableRow => MdTag::Row,
        TagEnd::TableCell => MdTag::Cell,
        TagEnd::Strong => MdTag::Strong,
        TagEnd::Emphasis => MdTag::Emphasis,
        TagEnd::Strikethrough => MdTag::Strikethrough,
        TagEnd::CodeBlock => MdTag::CodeBlock,
        TagEnd::Link => MdTag::Link(String::new()),
        TagEnd::BlockQuote(_) => MdTag::BlockQuote,
        TagEnd::Heading(_) => MdTag::Heading,
        TagEnd::Item => MdTag::Item,
        TagEnd::Paragraph => MdTag::Paragraph,
        _ => MdTag::Other,
    }
}

/// Table cells collected so far: finished rows, the row being filled and
/// the cell being filled.
pub struct TableBuf {
    pub rows: Seq<Seq<Seq<char>>>,
    pub row: Seq<Seq<char>>,
    pub cell: Seq<char>,
}

/// How an event inside a table (other than its end) changes the buffer.
pub open spec fn table_step(b: TableBuf, e: MdEvent<Seq<char>>) -> TableBuf {
    match e {
        MdEvent::Start(MdTag::Row) => TableBuf { row: seq![], ..b },
        MdEvent::End(MdTag::Row) => TableBuf { rows: b.rows.push(b.row), row: seq![], ..b },
        MdEvent::Start(MdTag::Cell) => TableBuf { cell: seq![], ..b },
        MdEvent::End(MdTag::Cell) => TableBuf { row: b.row.push(b.cell), cell: seq![], ..b },
        MdEvent::Text(t) => TableBuf { cell: b.cell + t, ..b },
        MdEvent::Code(t) => TableBuf { cell: b.cell + t, ..b },
        MdEvent::SoftBreak => TableBuf { cell: b.cell.push(' '), ..b },
        MdEvent::HardBreak => TableBuf { cell: b.cell.push(' '), ..b },
        _ => b,
    }
}

/// Exec side of a table buffer.
struct TableCollector {
    rows: Vec<Vec<String>>,
    row: Vec<String>,
    cell: Vec<char>,
}

impl TableCollector {
    spec fn buf(&self) -> TableBuf {
        TableBuf { rows: self.rows.deep_view(), row: self.row.deep_view(), cell: self.cell@ }
    }

    fn new() -> (t: TableCollector)
        ensures
            t.buf() == (TableBuf { rows: seq![], row: seq![], cell: seq![] }),
    {
        let t = TableCollector { rows: Vec::new(), row: Vec::new(), cell: Vec::new() };
        assert(t.buf().rows =~= seq![]);
        assert(t.buf().row =~= seq![]);
        t
    }

    fn clear_rows(&mut self)
        ensures
            final(self).buf() == (TableBuf { rows: seq![], ..old(self).buf() }),
    {
        self.rows = Vec::new();
        assert(self.buf().rows =~= seq![]);
    }

    fn step(&mut self, e: &MdEvent<String>)
        ensures
            final(self).buf() == table_step(old(self).buf(), e.deep_view()),
    {
        let ghost b = self.buf();
        match e {
            MdEvent::Start(MdTag::Row) => {
                self.row = Vec::new();
                assert(self.buf().row =~= seq![]);
            },
            MdEvent::End(MdTag::Row) => {
                let mut finished: Vec<String> = Vec::new();
                std::mem::swap(&mut finished, &mut self.row);
                self.rows.push(finished);
                assert(self.buf().rows =~= b.rows.push(b.row));
                assert(self.buf().row =~= seq![]);
            },
            MdEvent::Start(MdTag::Cell) => {
                self.cell = Vec::new();
            },
            MdEvent::End(MdTag::Cell) => {
                let text = string_from_chars(self.cell.as_slice());
                self.row.push(text);
                self.cell = Vec::new();
                assert(self.buf().row =~= b.row.push(b.cell));
                assert(self.buf().cell =~= seq![]);
            },
            MdEvent::Text(t) => {
                let mut more = chars_of(t.as_str());
                self.cell.append(&mut more);
            },
            MdEvent::Code(t) => {
                let mut more = chars_of(t.as_str());
                self.cell.append(&mut more);
            },
            MdEvent::SoftBreak => {
                self.cell.push(' ');
            },
            MdEvent::HardBreak => {
                self.cell.push(' ');
            },
            _ => {},
        }
    }
}

/// State of the Telegram renderer between events.
pub struct TgState {
    pub out: Seq<char>,
    pub depth: nat,
    pub indices: Seq<u64>,
    pub in_table: bool,
    pub table: TableBuf,
    pub overflow: bool,
}

/// State before the first event.
pub open spec fn tg_initial() -> TgState {
    TgState {
        out: seq![],
        depth: 0,
        indices: seq![],
        in_table: false,
        table: TableBuf { rows: seq![], row: seq![], cell: seq![] },
        overflow: false,
    }
}

/// Two spaces per nesting level below the outermost list.
pub open spec fn list_indent(depth: nat) -> Seq<char> {
    repeat_char(' ', 2 * (if depth > 0 {
        (depth - 1) as nat
    } else {
        0
    }))
}

/// A list item starts: numbered in an ordered list (the counter advances),
/// bulleted otherwise. A counter at `u64::MAX` cannot advance.
pub open spec fn tg_item(s: TgState) -> TgState {
    let indent = list_indent(s.depth);
    if s.indices.len() > 0 && s.indices.last() > 0 {
        let idx = s.indices.last();
        TgState {
            out: s.out + indent + decimal(idx as nat) + ". "@,
            indices: if idx < u64::MAX {
                s.indices.update(s.indices.len() - 1, (idx + 1) as u64)
            } else {
                s.indices
            },
            overflow: s.overflow || idx == u64::MAX,
            ..s
        }
    } else {
        TgState { out: s.out + indent + "• "@, ..s }
    }
}

/// Appends `text` to the output.
pub open spec fn tg_emit(s: TgState, text: Seq<char>) -> TgState {
    TgState { out: s.out + text, ..s }
}

/// How one event changes the Telegram renderer's state.
pub open spec fn tg_step(s: TgState, e: MdEvent<Seq<char>>) -> TgState {
    if s.in_table {
        match e {
            MdEvent::End(MdTag::Table) => TgState {
                out: s.out + render_table_spec(s.table.rows, "<pre>\n"@, "</pre>\n\n"@, true),
                in_table: false,
                table: TableBuf { rows: seq![], ..s.table },
                ..s
            },
            _ => TgState { table: table_step(s.table, e), ..s },
        }
    } else {
        match e {
            MdEvent::Start(MdTag::Table) => TgState {
                in_table: true,
                table: TableBuf { rows: seq![], ..s.table },
                ..s
            },
            MdEvent::Start(MdTag::Strong) => tg_emit(s, "<b>"@),
            MdEvent::End(MdTag::Strong) => tg_emit(s, "</b>"@),
            MdEvent::Start(MdTag::Emphasis) => tg_emit(s, "<i>"@),
            MdEvent::End(MdTag::Emphasis) => tg_emit(s, "</i>"@),
            MdEvent::Start(MdTag::Strikethrough) => tg_emit(s, "<s>"@),
            MdEvent::End(MdTag::Strikethrough) => tg_emit(s, "</s>"@),
            MdEvent::Code(t) => tg_emit(s, "<code>"@ + escape_html_spec(t) + "</code>"@),
            MdEvent::Start(MdTag::CodeBlock) => tg_emit(s, "<pre>"@),
            MdEvent::End(MdTag::CodeBlock) => tg_emit(s, "</pre>"@),
            MdEvent::Start(MdTag::Link(d)) => tg_emit(
                s,
                "<a href=\""@ + escape_html_spec(d) + "\">"@,
            ),
            MdEvent::End(MdTag::Link(_)) => tg_emit(s, "</a>"@),
            MdEvent::Start(MdTag::BlockQuote) => tg_emit(s, "<blockquote>"@),
            MdEvent::End(MdTag::BlockQuote) => tg_emit(s, "</blockquote>"@),
            MdEvent::Start(MdTag::Heading) => tg_emit(s, "<b>"@),
            MdEvent::End(MdTag::Heading) => tg_emit(s, "</b>\n"@),
            MdEvent::Start(MdTag::List(first)) => TgState {
                depth: s.depth + 1,
                indices: s.indices.push(
                    match first {
                        Some(n) => n,
                        None => 0u64,
                    },
                ),
                ..s
            },
            MdEvent::End(MdTag::List(_)) => TgState {
                depth: if s.depth > 0 {
                    (s.depth - 1) as nat
                } else {
                    0
                },
                indices: if s.indices.len() > 0 {
                    s.indices.drop_last()
                } else {
                    s.indices
                },
                ..s
            },
            MdEvent::Start(MdTag::Item) => tg_item(s),
            MdEvent::End(MdTag::Item) => if s.out.len() > 0 && s.out.last() == '\n' {
                s
            } else {
                tg_emit(s, seq!['\n'])
            },
            MdEvent::End(MdTag::Paragraph) => tg_emit(s, "\n\n"@),
            MdEvent::Text(t) => tg_emit(s, escape_html_spec(t)),
            MdEvent::SoftBreak => tg_emit(s, seq!['\n']),
            MdEvent::HardBreak => tg_emit(s, seq!['\n']),
            MdEvent::Rule => tg_emit(s, "---\n"@),
            _ => s,
        }
    }
}

/// The renderer's state after the given events.
pub open spec fn tg_run(events: Seq<MdItem<Seq<char>>>) -> TgState
    decreases events.len(),
{
    if events.len() == 0 {
        tg_initial()
    } else {
        tg_step(tg_run(events.drop_last()), events.last().event)
    }
}

/// Telegram HTML for a stream of Markdown events: the rendered output
/// without trailing whitespace.
pub open spec fn telegram_html_spec(events: Seq<MdItem<Seq<char>>>) -> Seq<char> {
    trim_end_spec(tg_run(events).out)
}

/// Whether some ordered-list counter would have to advance past `u64::MAX`.
pub open spec fn telegram_counter_overflows(events: Seq<MdItem<Seq<char>>>) -> bool {
    tg_run(events).overflow
}

proof fn lemma_tg_overflow_persists(events: Seq<MdItem<Seq<char>>>, i: int)
    requires
        0 <= i <= events.len(),
        tg_run(events.take(i)).overflow,
    ensures
        tg_run(events).overflow,
    decreases events.len() - i,
{
    if i < events.len() {
        assert(events.take(i + 1).drop_last() =~= events.take(i));
        lemma_tg_overflow_persists(events, i + 1);
    } else {
        assert(events.take(i) =~= events);
    }
}

fn push_double_spaces(out: &mut Vec<char>, levels: usize)
    ensures
        final(out)@ == old(out)@ + repeat_char(' ', 2 * levels as nat),
{
    let ghost start = out@;
    let mut j: usize = 0;
    while j < levels
        invariant
            j <= levels,
            out@ == start + repeat_char(' ', 2 * j as nat),
        decreases levels - j,
    {
        out.push(' ');
        out.push(' ');
        j = j + 1;
        assert(out@ =~= start + repeat_char(' ', 2 * j as nat));
    }
}

/// Exec side of the Telegram renderer.
struct TelegramRenderer {
    out: Vec<char>,
    list_depth: usize,
    ordered: Vec<u64>,
    in_table: bool,
    table: TableCollector,
}

impl TelegramRenderer {
    spec fn state(&self) -> TgState {
        TgState {
            out: self.out@,
            depth: self.list_depth as nat,
            indices: self.ordered@,
            in_table: self.in_table,
            table: self.table.buf(),
            overflow: false,
        }
    }

    fn new() -> (r: TelegramRenderer)
        ensures
            r.state() == tg_initial(),
            r.list_depth == 0,
    {
        let r = TelegramRenderer {
            out: Vec::new(),
            list_depth: 0,
            ordered: Vec::new(),
            in_table: false,
            table: TableCollector::new(),
        };
        assert(r.state().out =~= seq![]);
        assert(r.state().indices =~= seq![]);
        r
    }

    fn push_indent(&mut self)
        ensures
            final(self).out@ == old(self).out@ + list_indent(old(self).list_depth as nat),
            final(self).list_depth == old(self).list_depth,
            final(self).ordered == old(self).ordered,
            final(self).in_table == old(self).in_table,
            final(self).table == old(self).table,
    {
        let levels = if self.list_depth > 0 {
            self.list_depth - 1
        } else {
            0
        };
        push_double_spaces(&mut self.out, levels);
    }

    fn item(&mut self)
        requires
            !old(self).in_table,
            !tg_item(old(self).state()).overflow,
        ensures
            final(self).state() == tg_item(old(self).state()),
            final(self).list_depth == old(self).list_depth,
    {
        let ghost s = self.state();
        self.push_indent();
        let n = self.ordered.len();
        if n > 0 && self.ordered[n - 1] > 0 {
            let idx = self.ordered[n - 1];
            push_decimal(&mut self.out, idx);
            push_str(&mut self.out, ". ");
            self.ordered.set(n - 1, idx + 1);
            assert(self.state().out =~= tg_item(s).out);
        } else {
            push_str(&mut self.out, "• ");
            assert(self.state().out =~= tg_item(s).out);
        }
    }

    fn emit(&mut self, text: &str)
        ensures
            final(self).state() == tg_emit(old(self).state(), text@),
            final(self).list_depth == old(self).list_depth,
    {
        push_str(&mut self.out, text);
    }

    fn step(&mut self, e: &MdEvent<String>)
        requires
            !tg_step(old(self).state(), e.deep_view()).overflow,
            old(self).list_depth < usize::MAX,
        ensures
            final(self).state() == tg_step(old(self).state(), e.deep_view()),
            final(self).list_depth <= old(self).list_depth + 1,
    {
        let ghost s = self.state();
        if self.in_table {
            match e {
                MdEvent::End(MdTag::Table) => {
                    let rendered = render_table(
                        self.table.rows.as_slice(),
                        "<pre>\n",
                        "</pre>\n\n",
                        true,
                    );
                    push_str(&mut self.out, rendered.as_str());
                    self.in_table = false;
                    self.table.clear_rows();
                },
                _ => {
                    self.table.step(e);
                },
            }
            return ;
        }
        match e {
            MdEvent::Start(MdTag::Table) => {
                self.in_table = true;
                self.table.clear_rows();
            },
            MdEvent::Start(MdTag::Strong) => self.emit("<b>"),
            MdEvent::End(MdTag::Strong) => self.emit("</b>"),
            MdEvent::Start(MdTag::Emphasis) => self.emit("<i>"),
            MdEvent::End(MdTag::Emphasis) => self.emit("</i>"),
            MdEvent::Start(MdTag::Strikethrough) => self.emit("<s>"),
            MdEvent::End(MdTag::Strikethrough) => self.emit("</s>"),
            MdEvent::Code(t) => {
                push_str(&mut self.out, "<code>");
                let chars = chars_of(t.as_str());
                push_escaped(&mut self.out, chars.as_slice());
                push_str(&mut self.out, "</code>");
                assert(self.state().out =~= tg_step(s, e.deep_view()).out);
            },
            MdEvent::Start(MdTag::CodeBlock) => self.emit("<pre>"),
            MdEvent::End(MdTag::CodeBlock) => self.emit("</pre>"),
            MdEvent::Start(MdTag::Link(d)) => {
                push_str(&mut self.out, "<a href=\"");
                let chars = chars_of(d.as_str());
                push_escaped(&mut self.out, chars.as_slice());
                push_str(&mut self.out, "\">");
                assert(self.state().out =~= tg_step(s, e.deep_view()).out);
            },
            MdEvent::End(MdTag::Link(_)) => self.emit("</a>"),
            MdEvent::Start(MdTag::BlockQuote) => self.emit("<blockquote>"),
            MdEvent::End(MdTag::BlockQuote) => self.emit("</blockquote>"),
            MdEvent::Start(MdTag::Heading) => self.emit("<b>"),
            MdEvent::End(MdTag::Heading) => self.emit("</b>\n"),
            MdEvent::Start(MdTag::List(first)) => {
                self.list_depth = self.list_depth + 1;
                let n = match first {
                    Some(n) => *n,
                    None => 0u64,
                };
                self.ordered.push(n);
            },
            MdEvent::End(MdTag::List(_)) => {
                if self.list_depth > 0 {
                    self.list_depth = self.list_depth - 1;
                }
                if self.ordered.len() > 0 {
                    self.ordered.pop();
                    assert(self.state().indices =~= s.indices.drop_last());
                }
            },
            MdEvent::Start(MdTag::Item) => self.item(),
            MdEvent::End(MdTag::Item) => {
                let n = self.out.len();
                if !(n > 0 && self.out[n - 1] == '\n') {
                    self.out.push('\n');
                    assert(self.state().out =~= tg_step(s, e.deep_view()).out);
                }
            },
            MdEvent::End(MdTag::Paragraph) => self.emit("\n\n"),
            MdEvent::Text(t) => {
                let chars = chars_of(t.as_str());
                push_escaped(&mut self.out, chars.as_slice());
            },
            MdEvent::SoftBreak => {
                self.out.push('\n');
                assert(self.state().out =~= tg_step(s, e.deep_view()).out);
            },
            MdEvent::HardBreak => {
                self.out.push('\n');
                assert(self.state().out =~= tg_step(s, e.deep_view()).out);
            },
            MdEvent::Rule => self.emit("---\n"),
            _ => {},
        }
    }
}

/// Renders Markdown events as Telegram HTML: bold, italic, strikethrough,
/// code, links and block quotes map to the tags Telegram supports, headings
/// become bold lines, lists become bullets or numbers, tables become aligned
/// `<pre>` blocks, text is HTML-escaped, and trailing whitespace is dropped.
pub fn telegram_html_from_events(events: &Vec<MdItem<String>>) -> (html: String)
    requires
        !telegram_counter_overflows(events.deep_view()),
    ensures
        html@ == telegram_html_spec(events.deep_view()),
{
    let ghost ev = events.deep_view();
    let mut r = TelegramRenderer::new();
    let mut i: usize = 0;
    while i < events.len()
        invariant
            i <= events.len(),
            ev == events.deep_view(),
            !tg_run(ev).overflow,
            r.state() == tg_run(ev.take(i as int)),
            r.list_depth <= i,
        decreases events.len() - i,
    {
        proof {
            assert(ev.take(i + 1).drop_last() =~= ev.take(i as int));
            assert(ev.take(i + 1).last() == ev[i as int]);
            assert(ev[i as int] == events@[i as int].deep_view());
            if tg_run(ev.take(i + 1)).overflow {
                lemma_tg_overflow_persists(ev, i + 1);
            }
        }
        r.step(&events[i].event);
        i = i + 1;
    }
    assert(ev.take(events.len() as int) =~= ev);
    trim_end_in_place(&mut r.out);
    string_from_chars(r.out.as_slice())
}

/// Whether rendering the events would need an ordered-list counter beyond
/// `u64::MAX`.
pub fn counter_overflows(events: &Vec<MdItem<String>>) -> (b: bool)
    ensures
        b == telegram_counter_overflows(events.deep_view()),
{
    let ghost ev = events.deep_view();
    let mut indices: Vec<u64> = Vec::new();
    let mut in_table = false;
    let mut i: usize = 0;
    while i < events.len()
        invariant
            i <= events.len(),
            ev == events.deep_view(),
            indices@ == tg_run(ev.take(i as int)).indices,
            in_table == tg_run(ev.take(i as int)).in_table,
            !tg_run(ev.take(i as int)).overflow,
        decreases events.len() - i,
    {
        proof {
            assert(ev.take(i + 1).drop_last() =~= ev.take(i as int));
            assert(ev.take(i + 1).last() == ev[i as int]);
            assert(ev[i as int] == events@[i as int].deep_view());
        }
        let ghost s = tg_run(ev.take(i as int));
        let e = &events[i].event;
        if in_table {
            if let MdEvent::End(MdTag::Table) = e {
                in_table = false;
            }
        } else {
            match e {
                MdEvent::Start(MdTag::Table) => {
                    in_table = true;
                },
                MdEvent::Start(MdTag::List(first)) => {
                    let n = match first {
                        Some(n) => *n,
                        None => 0u64,
                    };
                    indices.push(n);
                },
                MdEvent::End(MdTag::List(_)) => {
                    if indices.len() > 0 {
                        indices.pop();
                        assert(indices@ =~= s.indices.drop_last());
                    }
                },
                MdEvent::Start(MdTag::Item) => {
                    let n = indices.len();
                    if n > 0 && indices[n - 1] > 0 {
                        if indices[n - 1] == u64::MAX {
                            proof {
                                lemma_tg_overflow_persists(ev, i + 1);
                            }
                            return true;
                        }
                        let idx = indices[n - 1];
                        indices.set(n - 1, idx + 1);
                    }
                },
                _ => {},
            }
        }
        i = i + 1;
    }
    assert(ev.take(events.len() as int) =~= ev);
    false
}

/// What `to_telegram_html` gives for Markdown `md`: the rendering of its
/// parse events, or `md` itself should list numbering overflow.
pub open spec fn telegram_html_of(md: Seq<char>) -> Seq<char> {
    if telegram_counter_overflows(markdown_events(md)) {
        md
    } else {
        telegram_html_spec(markdown_events(md))
    }
}

/// Converts Markdown to Telegram-compatible HTML (see
/// `telegram_html_from_events`). Should the parsed list numbering ever need
/// a counter beyond `u64::MAX`, the Markdown is returned unchanged.
pub fn to_telegram_html(markdown: &str) -> (html: String)
    ensures
        html@ == telegram_html_of(markdown@),
        !telegram_counter_overflows(markdown_events(markdown@)) ==> html@ == telegram_html_spec(
            markdown_events(markdown@),
        ),
        telegram_counter_overflows(markdown_events(markdown@)) ==> html@ == markdown@,
{
    let events = parse_markdown(markdown);
    if counter_overflows(&events) {
        return markdown.to_owned();
    }
    telegram_html_from_events(&events)
}

/// State of the Discord converter between events: output so far, the byte
/// offset up to which the source has been copied, the table being
/// collected, and whether every source slice so far was well-formed.
pub struct DcState {
    pub out: Seq<char>,
    pub last: int,
    pub in_table: bool,
    pub table: TableBuf,
    pub ok: bool,
}

/// State before the first event.
pub open spec fn dc_initial() -> DcState {
    DcState {
        out: seq![],
        last: 0,
        in_table: false,
        table: TableBuf { rows: seq![], row: seq![], cell: seq![] },
        ok: true,
    }
}

/// A slice `from..to` of the UTF-8 source `b` that Rust's string slicing
/// accepts: ordered, and both ends on character boundaries.
pub open spec fn slice_ok(b: Seq<u8>, from: int, to: int) -> bool {
    from <= to && is_char_boundary(b, from) && is_char_boundary(b, to)
}

/// How one event changes the Discord converter's state. Outside tables the
/// source is kept verbatim; a table's source is replaced by its rendering.
pub open spec fn dc_step(b: Seq<u8>, s: DcState, item: MdItem<Seq<char>>) -> DcState {
    if s.in_table {
        match item.event {
            MdEvent::End(MdTag::Table) => DcState {
                out: s.out + render_table_spec(s.table.rows, "```\n"@, "```\n\n"@, false),
                last: item.end as int,
                in_table: false,
                table: TableBuf { rows: seq![], ..s.table },
                ..s
            },
            _ => DcState { table: table_step(s.table, item.event), ..s },
        }
    } else {
        match item.event {
            MdEvent::Start(MdTag::Table) => DcState {
                out: s.out + decode_utf8(b.subrange(s.last, item.start as int)),
                in_table: true,
                table: TableBuf { rows: seq![], ..s.table },
                ok: s.ok && slice_ok(b, s.last, item.start as int),
                ..s
            },
            _ => s,
        }
    }
}

/// The converter's state after the given events over source bytes `b`.
pub open spec fn dc_run(b: Seq<u8>, events: Seq<MdItem<Seq<char>>>) -> DcState
    decreases events.len(),
{
    if events.len() == 0 {
        dc_initial()
    } else {
        dc_step(b, dc_run(b, events.drop_last()), events.last())
    }
}

/// Whether every slice of the source that the conversion copies is
/// well-formed (slicing the source string at those offsets would not panic).
pub open spec fn discord_slices_ok(b: Seq<u8>, events: Seq<MdItem<Seq<char>>>) -> bool {
    let s = dc_run(b, events);
    s.ok && slice_ok(b, s.last, b.len() as int)
}

/// Discord Markdown for source bytes `b` and its events: the source with
/// every table replaced by an aligned block in a code fence.
pub open spec fn discord_markdown_spec(b: Seq<u8>, events: Seq<MdItem<Seq<char>>>) -> Seq<char> {
    let s = dc_run(b, events);
    s.out + decode_utf8(b.subrange(s.last, b.len() as int))
}

proof fn lemma_dc_ok_persists(b: Seq<u8>, events: Seq<MdItem<Seq<char>>>, i: int)
    requires
        0 <= i <= events.len(),
        !dc_run(b, events.take(i)).ok,
    ensures
        !dc_run(b, events).ok,
    decreases events.len() - i,
{
    if i < events.len() {
        assert(events.take(i + 1).drop_last() =~= events.take(i));
        lemma_dc_ok_persists(b, events, i + 1);
    } else {
        assert(events.take(i) =~= events);
    }
}

/// A character boundary of `b` past a boundary `from` is a boundary of the
/// suffix starting at `from`.
proof fn lemma_boundary_in_suffix(b: Seq<u8>, from: int, to: int)
    requires
        valid_utf8(b),
        slice_ok(b, from, to),
    ensures
        valid_utf8(b.subrange(from, b.len() as int)),
        is_char_boundary(b.subrange(from, b.len() as int), to - from),
{
    valid_utf8_split(b, from);
    let t = b.subrange(from, b.len() as int);
    if to == b.len() {
        is_char_boundary_start_end_of_seq(t);
    } else {
        if to > b.len() {
            assert(!is_char_boundary(b, to));
        }
        is_char_boundary_iff_not_is_continuation_byte(b, to);
        is_char_boundary_iff_not_is_continuation_byte(t, to - from);
        assert(t[to - from] == b[to]);
    }
}

/// Appends the source text between byte offsets `from` and `to`.
fn push_source_slice(out: &mut Vec<char>, text: &str, from: usize, to: usize)
    requires
        slice_ok(encode_utf8(text@), from as int, to as int),
    ensures
        final(out)@ == old(out)@ + decode_utf8(encode_utf8(text@).subrange(from as int, to as int)),
{
    let ghost b = encode_utf8(text@);
    proof {
        encode_utf8_valid_utf8(text@);
        lemma_boundary_in_suffix(b, from as int, to as int);
        if to > b.len() {
            assert(!is_char_boundary(b, to as int));
        }
    }
    let (_, tail) = text.split_at(from);
    assert(encode_utf8(tail@) =~= b.subrange(from as int, b.len() as int));
    let (piece, _) = tail.split_at(to - from);
    assert(encode_utf8(piece@) =~= b.subrange(from as int, to as int));
    proof {
        encode_utf8_decode_utf8(piece@);
    }
    push_str(out, piece);
}

/// Exec side of the Discord converter.
struct DiscordRenderer {
    out: Vec<char>,
    last: usize,
    in_table: bool,
    table: TableCollector,
}

impl DiscordRenderer {
    spec fn state(&self) -> DcState {
        DcState {
            out: self.out@,
            last: self.last as int,
            in_table: self.in_table,
            table: self.table.buf(),
            ok: true,
        }
    }

    fn step(&mut self, markdown: &str, item: &MdItem<String>)
        requires
            dc_step(encode_utf8(markdown@), old(self).state(), item.deep_view()).ok,
        ensures
            final(self).state() == dc_step(
                encode_utf8(markdown@),
                old(self).state(),
                item.deep_view(),
            ),
    {
        let ghost s = self.state();
        if self.in_table {
            match &item.event {
                MdEvent::End(MdTag::Table) => {
                    let rendered = render_table(
                        self.table.rows.as_slice(),
                        "```\n",
                        "```\n\n",
                        false,
                    );
                    push_str(&mut self.out, rendered.as_str());
                    self.in_table = false;
                    self.table.clear_rows();
                    self.last = item.end;
                },
                _ => {
                    self.table.step(&item.event);
                },
            }
        } else {
            match &item.event {
                MdEvent::Start(MdTag::Table) => {
                    push_source_slice(&mut self.out, markdown, self.last, item.start);
                    self.in_table = true;
                    self.table.clear_rows();
                },
                _ => {},
            }
        }
    }
}

/// Converts Markdown to Discord Markdown given its parse events: text
/// outside tables is kept verbatim, and each table is replaced by an aligned
/// monospace block inside a ``` fence.
pub fn discord_markdown_from_events(markdown: &str, events: &Vec<MdItem<String>>) -> (r: String)
    requires
        discord_slices_ok(encode_utf8(markdown@), events.deep_view()),
    ensures
        r@ == discord_markdown_spec(encode_utf8(markdown@), events.deep_view()),
{
    let ghost b = encode_utf8(markdown@);
    let ghost ev = events.deep_view();
    let mut r = DiscordRenderer {
        out: Vec::new(),
        last: 0,
        in_table: false,
        table: TableCollector::new(),
    };
    assert(r.state().out =~= dc_initial().out);
    let mut i: usize = 0;
    while i < events.len()
        invariant
            i <= events.len(),
            ev == events.deep_view(),
            b == encode_utf8(markdown@),
            dc_run(b, ev).ok,
            r.state() == dc_run(b, ev.take(i as int)),
        decreases events.len() - i,
    {
        proof {
            assert(ev.take(i + 1).drop_last() =~= ev.take(i as int));
            assert(ev.take(i + 1).last() == ev[i as int]);
            assert(ev[i as int] == events@[i as int].deep_view());
            if !dc_run(b, ev.take(i + 1)).ok {
                lemma_dc_ok_persists(b, ev, i + 1);
            }
        }
        r.step(markdown, &events[i]);
        i = i + 1;
    }
    assert(ev.take(events.len() as int) =~= ev);
    let n = markdown.as_bytes().len();
    push_source_slice(&mut r.out, markdown, r.last, n);
    string_from_chars(r.out.as_slice())
}

/// Whether every source slice the Discord conversion takes is well-formed.
pub fn slices_ok(markdown: &str, events: &Vec<MdItem<String>>) -> (ok: bool)
    ensures
        ok == discord_slices_ok(encode_utf8(markdown@), events.deep_view()),
{
    let ghost b = encode_utf8(markdown@);
    let ghost ev = events.deep_view();
    let mut last: usize = 0;
    let mut in_table = false;
    let mut i: usize = 0;
    while i < events.len()
        invariant
            i <= events.len(),
            ev == events.deep_view(),
            b == encode_utf8(markdown@),
            last as int == dc_run(b, ev.take(i as int)).last,
            in_table == dc_run(b, ev.take(i as int)).in_table,
            dc_run(b, ev.take(i as int)).ok,
        decreases events.len() - i,
    {
        proof {
            assert(ev.take(i + 1).drop_last() =~= ev.take(i as int));
            assert(ev.take(i + 1).last() == ev[i as int]);
            assert(ev[i as int] == events@[i as int].deep_view());
        }
        let item = &events[i];
        if in_table {
            if let MdEvent::End(MdTag::Table) = &item.event {
                in_table = false;
                last = item.end;
            }
        } else {
            if let MdEvent::Start(MdTag::Table) = &item.event {
                if !(last <= item.start && markdown.is_char_boundary(last)
                    && markdown.is_char_boundary(item.start)) {
                    proof {
                        lemma_dc_ok_persists(b, ev, i + 1);
                    }
                    return false;
                }
                in_table = true;
            }
        }
        i = i + 1;
    }
    assert(ev.take(events.len() as int) =~= ev);
    let n = markdown.as_bytes().len();
    last <= n && markdown.is_char_boundary(last) && markdown.is_char_boundary(n)
}

/// What `to_discord_markdown` gives for Markdown `md`: the conversion
/// driven by its parse events, or `md` itself should a reported source range
/// not be a well-formed slice.
pub open spec fn discord_markdown_of(md: Seq<char>) -> Seq<char> {
    if discord_slices_ok(encode_utf8(md), markdown_events(md)) {
        discord_markdown_spec(encode_utf8(md), markdown_events(md))
    } else {
        md
    }
}

/// Converts Markdown to Discord-friendly Markdown (see
/// `discord_markdown_from_events`). Should a source range reported by the
/// parser not be a well-formed slice, the Markdown is returned unchanged.
pub fn to_discord_markdown(markdown: &str) -> (r: String)
    ensures
        r@ == discord_markdown_of(markdown@),
        discord_slices_ok(encode_utf8(markdown@), markdown_events(markdown@)) ==> r@
            == discord_markdown_spec(encode_utf8(markdown@), markdown_events(markdown@)),
        !discord_slices_ok(encode_utf8(markdown@), markdown_events(markdown@)) ==> r@
            == markdown@,
{
    let events = parse_markdown(markdown);
    if !slices_ok(markdown, &events) {
        return markdown.to_owned();
    }
    discord_markdown_from_events(markdown, &events)
}

/// Law: escaped text holds no `<` or `>`.
pub proof fn lemma_escape_has_no_angle_brackets(s: Seq<char>)
    ensures
        forall|i: int|
            0 <= i < escape_html_spec(s).len() ==> #[trigger] escape_html_spec(s)[i] != '<'
                && escape_html_spec(s)[i] != '>',
    decreases s.len(),
{
    reveal_strlit("&amp;");
    reveal_strlit("&lt;");
    reveal_strlit("&gt;");
    if s.len() > 0 {
        lemma_escape_has_no_angle_brackets(s.drop_last());
        let a = escape_html_spec(s.drop_last());
        let b = escape_html_char(s.last());
        assert forall|i: int| 0 <= i < escape_html_spec(s).len() implies #[trigger] escape_html_spec(
            s,
        )[i] != '<' && escape_html_spec(s)[i] != '>' by {
            if i >= a.len() {
                assert(escape_html_spec(s)[i] == b[i - a.len()]);
            } else {
                assert(escape_html_spec(s)[i] == a[i]);
            }
        }
    }
}

/// Law: text without `&`, `<` and `>` is left as it is by escaping.
pub proof fn lemma_escape_plain_text_unchanged(s: Seq<char>)
    requires
        forall|i: int| 0 <= i < s.len() ==> #[trigger] s[i] != '&' && s[i] != '<' && s[i] != '>',
    ensures
        escape_html_spec(s) == s,
    decreases s.len(),
{
    if s.len() > 0 {
        lemma_escape_plain_text_unchanged(s.drop_last());
        assert(s.drop_last().push(s.last()) =~= s);
    }
}

/// How many times `c` occurs in `s`.
pub open spec fn count_char(s: Seq<char>, c: char) -> nat
    decreases s.len(),
{
    if s.len() == 0 {
        0
    } else {
        if s.last() == c {
            count_char(s.drop_last(), c) + 1
        } else {
            count_char(s.drop_last(), c)
        }
    }
}

proof fn lemma_escape_concat(a: Seq<char>, b: Seq<char>)
    ensures
        escape_html_spec(a + b) == escape_html_spec(a) + escape_html_spec(b),
    decreases b.len(),
{
    if b.len() == 0 {
        assert(a + b =~= a);
        assert(escape_html_spec(a) + escape_html_spec(b) =~= escape_html_spec(a));
    } else {
        lemma_escape_concat(a, b.drop_last());
        assert((a + b).drop_last() =~= a + b.drop_last());
        assert((a + b).last() == b.last());
        assert(escape_html_spec(a) + escape_html_spec(b) =~= escape_html_spec(a)
            + escape_html_spec(b.drop_last()) + escape_html_char(b.last()));
    }
}

pub(crate) proof fn lemma_encode_utf8_concat(a: Seq<char>, b: Seq<char>)
    ensures
        encode_utf8(a + b) == encode_utf8(a) + encode_utf8(b),
    decreases a.len(),
{
    if a.len() == 0 {
        assert(a + b =~= b);
        assert(encode_utf8(a) + encode_utf8(b) =~= encode_utf8(b));
    } else {
        lemma_encode_utf8_concat(a.drop_first(), b);
        assert((a + b).drop_first() =~= a.drop_first() + b);
        assert((a + b)[0] == a[0]);
        assert(encode_utf8(a) + encode_utf8(b) =~= encode_scalar(a[0] as u32) + (encode_utf8(
            a.drop_first(),
        ) + encode_utf8(b)));
    }
}

/// `str::replace` with a non-empty pattern: the matches of `pat`, found
/// from left to right without overlapping, each replaced by `rep`.
pub open spec fn replace_spec(s: Seq<char>, pat: Seq<char>, rep: Seq<char>) -> Seq<char>
    decreases s.len(),
{
    if s.len() == 0 || pat.len() == 0 {
        s
    } else if pat.len() <= s.len() && s.take(pat.len() as int) == pat {
        rep + replace_spec(s.skip(pat.len() as int), pat, rep)
    } else {
        seq![s[0]] + replace_spec(s.skip(1), pat, rep)
    }
}

/// Text in which `c` does not occur passes through `replace_spec` untouched
/// when the pattern begins with `c`.
proof fn lemma_replace_skip_plain(x: Seq<char>, e: Seq<char>, pat: Seq<char>, rep: Seq<char>)
    requires
        pat.len() > 0,
        forall|i: int| 0 <= i < x.len() ==> x[i] != pat[0],
    ensures
        replace_spec(x + e, pat, rep) == x + replace_spec(e, pat, rep),
    decreases x.len(),
{
    if x.len() == 0 {
        assert(x + e =~= e);
    } else {
        let y = x + e;
        assert(y[0] == x[0]);
        assert(!(pat.len() <= y.len() && y.take(pat.len() as int) == pat)) by {
            if pat.len() <= y.len() {
                assert(y.take(pat.len() as int)[0] == y[0]);
            }
        }
        assert(y.skip(1) =~= x.skip(1) + e);
        lemma_replace_skip_plain(x.skip(1), e, pat, rep);
        assert(x + replace_spec(e, pat, rep) =~= seq![x[0]] + (x.skip(1) + replace_spec(
            e,
            pat,
            rep,
        )));
    }
}

/// A match at the front is replaced.
proof fn lemma_replace_match(e: Seq<char>, pat: Seq<char>, rep: Seq<char>)
    requires
        pat.len() > 0,
    ensures
        replace_spec(pat + e, pat, rep) == rep + replace_spec(e, pat, rep),
{
    assert((pat + e).take(pat.len() as int) =~= pat);
    assert((pat + e).skip(pat.len() as int) =~= e);
}

/// A front that starts like the pattern but differs from it within the
/// pattern's length, and holds the pattern's first character only at its
/// start, passes through untouched.
proof fn lemma_replace_near_miss(y: Seq<char>, e: Seq<char>, pat: Seq<char>, rep: Seq<char>)
    requires
        pat.len() > 0,
        y.len() >= pat.len(),
        y.take(pat.len() as int) != pat,
        forall|i: int| 0 < i < y.len() ==> y[i] != pat[0],
    ensures
        replace_spec(y + e, pat, rep) == y + replace_spec(e, pat, rep),
{
    let z = y + e;
    assert(z.take(pat.len() as int) =~= y.take(pat.len() as int));
    assert(z.skip(1) =~= y.skip(1) + e);
    lemma_replace_skip_plain(y.skip(1), e, pat, rep);
    assert(y + replace_spec(e, pat, rep) =~= seq![y[0]] + (y.skip(1) + replace_spec(e, pat, rep)));
}

/// Escaped text after `&lt;` became `<` again.
pub open spec fn unescape_stage1(s: Seq<char>) -> Seq<char>
    decreases s.len(),
{
    if s.len() == 0 {
        seq![]
    } else {
        (if s[0] == '<' {
            seq!['<']
        } else {
            escape_html_char(s[0])
        }) + unescape_stage1(s.drop_first())
    }
}

/// Escaped text after `&lt;` and `&gt;` became `<` and `>` again.
pub open spec fn unescape_stage2(s: Seq<char>) -> Seq<char>
    decreases s.len(),
{
    if s.len() == 0 {
        seq![]
    } else {
        (if s[0] == '<' || s[0] == '>' {
            seq![s[0]]
        } else {
            escape_html_char(s[0])
        }) + unescape_stage2(s.drop_first())
    }
}

proof fn lemma_escape_first(s: Seq<char>)
    requires
        s.len() > 0,
    ensures
        escape_html_spec(s) == escape_html_char(s[0]) + escape_html_spec(s.drop_first()),
{
    let c = s[0];
    assert(seq![c] + s.drop_first() =~= s);
    lemma_escape_concat(seq![c], s.drop_first());
    assert(seq![c].drop_last() =~= Seq::<char>::empty());
    assert(seq![c].last() == c);
    assert(escape_html_spec(Seq::<char>::empty()) =~= Seq::<char>::empty());
    assert(escape_html_spec(seq![c]) =~= escape_html_char(c));
}

proof fn lemma_unescape_stages(s: Seq<char>)
    ensures
        replace_spec(escape_html_spec(s), "&lt;"@, "<"@) == unescape_stage1(s),
        replace_spec(unescape_stage1(s), "&gt;"@, ">"@) == unescape_stage2(s),
        replace_spec(unescape_stage2(s), "&amp;"@, "&"@) == s,
    decreases s.len(),
{
    reveal_strlit("&amp;");
    reveal_strlit("&lt;");
    reveal_strlit("&gt;");
    reveal_strlit("<");
    reveal_strlit(">");
    reveal_strlit("&");
    if s.len() == 0 {
        assert(escape_html_spec(s) =~= Seq::<char>::empty());
    } else {
        let c = s[0];
        let r = s.drop_first();
        lemma_unescape_stages(r);
        lemma_escape_first(s);
        let lt = "&lt;"@;
        let gt = "&gt;"@;
        let amp = "&amp;"@;
        let e0 = escape_html_char(c);
        // Stage 1: `&lt;` back to `<`.
        if c == '<' {
            lemma_replace_match(escape_html_spec(r), lt, "<"@);
        } else if c == '&' || c == '>' {
            assert(e0.take(4) != lt) by {
                assert(e0.take(4)[1] != lt[1]);
            }
            lemma_replace_near_miss(e0, escape_html_spec(r), lt, "<"@);
        } else {
            lemma_replace_skip_plain(e0, escape_html_spec(r), lt, "<"@);
        }
        // Stage 2: `&gt;` back to `>`.
        let e1: Seq<char> = if c == '<' {
            seq!['<']
        } else {
            e0
        };
        assert(unescape_stage1(s) == e1 + unescape_stage1(r));
        if c == '>' {
            lemma_replace_match(unescape_stage1(r), gt, ">"@);
        } else if c == '&' {
            assert(e1.take(4) != gt) by {
                assert(e1.take(4)[1] != gt[1]);
            }
            lemma_replace_near_miss(e1, unescape_stage1(r), gt, ">"@);
        } else {
            lemma_replace_skip_plain(e1, unescape_stage1(r), gt, ">"@);
        }
        // Stage 3: `&amp;` back to `&`.
        let e2: Seq<char> = if c == '<' || c == '>' {
            seq![c]
        } else {
            e0
        };
        assert(unescape_stage2(s) == e2 + unescape_stage2(r));
        if c == '&' {
            lemma_replace_match(unescape_stage2(r), amp, "&"@);
        } else {
            assert(e2 =~= seq![c]);
            lemma_replace_skip_plain(e2, unescape_stage2(r), amp, "&"@);
        }
        assert(seq![c] + r =~= s);
    }
}

/// Law: undoing the escapes with three replacements, `&lt;` by `<`, then
/// `&gt;` by `>`, then `&amp;` by `&`, gives back the text.
pub proof fn lemma_escape_undone_by_replacements(s: Seq<char>)
    ensures
        replace_spec(
            replace_spec(replace_spec(escape_html_spec(s), "&lt;"@, "<"@), "&gt;"@, ">"@),
            "&amp;"@,
            "&"@,
        ) == s,
{
    lemma_unescape_stages(s);
}

/// Law: escaping adds four characters (and bytes) for each `&` and three
/// for each `<` or `>`.
pub proof fn lemma_escape_length(s: Seq<char>)
    ensures
        escape_html_spec(s).len() == s.len() + 4 * count_char(s, '&') + 3 * count_char(s, '<') + 3
            * count_char(s, '>'),
        byte_len(escape_html_spec(s)) == byte_len(s) + 4 * count_char(s, '&') + 3 * count_char(
            s,
            '<',
        ) + 3 * count_char(s, '>'),
    decreases s.len(),
{
    reveal_strlit("&amp;");
    reveal_strlit("&lt;");
    reveal_strlit("&gt;");
    if s.len() > 0 {
        let d = s.drop_last();
        let c = s.last();
        lemma_escape_length(d);
        assert(d + seq![c] =~= s);
        lemma_encode_utf8_concat(d, seq![c]);
        lemma_encode_utf8_concat(escape_html_spec(d), escape_html_char(c));
        let x = escape_html_char(c);
        if c == '&' || c == '<' || c == '>' {
            assert(is_ascii_chars(x));
            is_ascii_chars_encode_utf8(x);
            assert(is_ascii_chars(seq![c]));
            is_ascii_chars_encode_utf8(seq![c]);
        } else {
            assert(x =~= seq![c]);
        }
    }
}

/// Whether an event list holds no table.
pub open spec fn has_no_table(events: Seq<MdItem<Seq<char>>>) -> bool {
    forall|i: int| 0 <= i < events.len() ==> !(#[trigger] events[i].event matches MdEvent::Start(MdTag::Table))
}

proof fn lemma_dc_run_no_table(b: Seq<u8>, events: Seq<MdItem<Seq<char>>>)
    requires
        has_no_table(events),
    ensures
        dc_run(b, events).out == Seq::<char>::empty(),
        dc_run(b, events).last == 0,
        !dc_run(b, events).in_table,
        dc_run(b, events).ok,
    decreases events.len(),
{
    if events.len() > 0 {
        assert(has_no_table(events.drop_last())) by {
            assert forall|i: int| 0 <= i < events.drop_last().len() implies !(
            #[trigger] events.drop_last()[i].event matches MdEvent::Start(MdTag::Table)) by {
                assert(events.drop_last()[i] == events[i]);
            }
        }
        lemma_dc_run_no_table(b, events.drop_last());
        assert(!(events[events.len() - 1].event matches MdEvent::Start(MdTag::Table)));
    }
}

/// Law: Markdown without tables passes to Discord unchanged.
pub proof fn lemma_discord_passthrough_without_tables(md: Seq<char>)
    requires
        has_no_table(markdown_events(md)),
    ensures
        discord_markdown_of(md) == md,
{
    let b = encode_utf8(md);
    let ev = markdown_events(md);
    lemma_dc_run_no_table(b, ev);
    encode_utf8_valid_utf8(md);
    is_char_boundary_start_end_of_seq(b);
    encode_utf8_decode_utf8(md);
    assert(b.subrange(0, b.len() as int) =~= b);
    assert(Seq::<char>::empty() + md =~= md);
}

/// Law: Telegram HTML never ends in whitespace.
pub proof fn lemma_telegram_html_ends_clean(events: Seq<MdItem<Seq<char>>>)
    ensures
        telegram_html_spec(events).len() > 0 ==> !is_whitespace(telegram_html_spec(events).last()),
{
    lemma_trim_end_ends_clean(tg_run(events).out);
}

/// A table of the source: its byte range and its rows of cell texts.
pub struct TableSpan {
    pub start: int,
    pub end: int,
    pub rows: Seq<Seq<Seq<char>>>,
}

/// The tables found so far, whether one is being read, where it started,
/// and its cells so far.
pub struct SpanScan {
    pub spans: Seq<TableSpan>,
    pub in_table: bool,
    pub start: int,
    pub table: TableBuf,
}

/// How one event changes the table scan.
pub open spec fn span_step(s: SpanScan, item: MdItem<Seq<char>>) -> SpanScan {
    if s.in_table {
        match item.event {
            MdEvent::End(MdTag::Table) => SpanScan {
                spans: s.spans.push(
                    TableSpan { start: s.start, end: item.end as int, rows: s.table.rows },
                ),
                in_table: false,
                table: TableBuf { rows: seq![], ..s.table },
                ..s
            },
            _ => SpanScan { table: table_step(s.table, item.event), ..s },
        }
    } else {
        match item.event {
            MdEvent::Start(MdTag::Table) => SpanScan {
                in_table: true,
                start: item.start as int,
                table: TableBuf { rows: seq![], ..s.table },
                ..s
            },
            _ => s,
        }
    }
}

/// The table scan after the given events.
pub open spec fn span_run(events: Seq<MdItem<Seq<char>>>) -> SpanScan
    decreases events.len(),
{
    if events.len() == 0 {
        SpanScan {
            spans: seq![],
            in_table: false,
            start: 0,
            table: TableBuf { rows: seq![], row: seq![], cell: seq![] },
        }
    } else {
        span_step(span_run(events.drop_last()), events.last())
    }
}

/// The tables of an event stream, in source order, each with its byte range
/// and rows of cell texts (text and code, line breaks as spaces).
pub open spec fn tables_of(events: Seq<MdItem<Seq<char>>>) -> Seq<TableSpan> {
    span_run(events).spans
}

/// Every table that starts also ends.
pub open spec fn tables_closed(events: Seq<MdItem<Seq<char>>>) -> bool {
    !span_run(events).in_table
}

/// Where the last of `spans` ends, or 0.
pub open spec fn spans_end(spans: Seq<TableSpan>) -> int {
    if spans.len() == 0 {
        0
    } else {
        spans.last().end
    }
}

/// The source `b` up to the end of the last of `spans`, each table's range
/// replaced by its rendering in a code fence.
pub open spec fn splice_tables(b: Seq<u8>, spans: Seq<TableSpan>) -> Seq<char>
    decreases spans.len(),
{
    if spans.len() == 0 {
        seq![]
    } else {
        let p = spans.drop_last();
        splice_tables(b, p) + decode_utf8(b.subrange(spans_end(p), spans.last().start))
            + render_table_spec(spans.last().rows, "```\n"@, "```\n\n"@, false)
    }
}

proof fn lemma_dc_run_spans(b: Seq<u8>, events: Seq<MdItem<Seq<char>>>)
    ensures
        ({
            let d = dc_run(b, events);
            let t = span_run(events);
            &&& d.in_table == t.in_table
            &&& d.table == t.table
            &&& d.last == spans_end(t.spans)
            &&& !t.in_table ==> d.out == splice_tables(b, t.spans)
            &&& t.in_table ==> d.out == splice_tables(b, t.spans) + decode_utf8(
                b.subrange(spans_end(t.spans), t.start),
            )
        }),
    decreases events.len(),
{
    if events.len() > 0 {
        lemma_dc_run_spans(b, events.drop_last());
        let d = dc_run(b, events.drop_last());
        let t = span_run(events.drop_last());
        let item = events.last();
        if t.in_table {
            if item.event matches MdEvent::End(MdTag::Table) {
                let t2 = span_run(events);
                assert(t2.spans.drop_last() =~= t.spans);
            }
        }
    }
}

/// Law: when every table ends, the Discord text is the source with each
/// table's byte range replaced by its aligned rendering in a ``` fence;
/// everything outside the tables is kept verbatim and in order.
pub proof fn lemma_discord_replaces_tables(md: Seq<char>)
    requires
        discord_slices_ok(encode_utf8(md), markdown_events(md)),
        tables_closed(markdown_events(md)),
    ensures
        discord_markdown_of(md) == splice_tables(encode_utf8(md), tables_of(markdown_events(md)))
            + decode_utf8(
            encode_utf8(md).subrange(
                spans_end(tables_of(markdown_events(md))),
                encode_utf8(md).len() as int,
            ),
        ),
{
    lemma_dc_run_spans(encode_utf8(md), markdown_events(md));
}

proof fn lemma_prefix_trans(a: Seq<char>, b: Seq<char>, c: Seq<char>)
    requires
        a.is_prefix_of(b),
        b.is_prefix_of(c),
    ensures
        a.is_prefix_of(c),
{
    assert(a =~= c.subrange(0, a.len() as int));
}

/// The Discord converter only ever appends to its output.
proof fn lemma_dc_run_extends(b: Seq<u8>, events: Seq<MdItem<Seq<char>>>, j: int)
    requires
        0 <= j <= events.len(),
    ensures
        dc_run(b, events.take(j)).out.is_prefix_of(dc_run(b, events).out),
    decreases events.len() - j,
{
    if j < events.len() {
        lemma_dc_run_extends(b, events, j + 1);
        assert(events.take(j + 1).drop_last() =~= events.take(j));
        let s = dc_run(b, events.take(j));
        let t = dc_run(b, events.take(j + 1));
        assert(s.out.is_prefix_of(t.out)) by {
            assert(t == dc_step(b, s, events[j]));
            if s.in_table {
                if events[j].event matches MdEvent::End(MdTag::Table) {
                    let x = render_table_spec(s.table.rows, "```\n"@, "```\n\n"@, false);
                    assert((s.out + x).subrange(0, s.out.len() as int) =~= s.out);
                }
            } else {
                if events[j].event matches MdEvent::Start(MdTag::Table) {
                    let x = decode_utf8(b.subrange(s.last, events[j].start as int));
                    assert((s.out + x).subrange(0, s.out.len() as int) =~= s.out);
                }
            }
            assert(t.out.subrange(0, s.out.len() as int) =~= s.out);
        }
        lemma_prefix_trans(s.out, t.out, dc_run(b, events).out);
    } else {
        assert(events.take(j) =~= events);
    }
}

/// Law: the Markdown before the first table reaches Discord verbatim.
pub proof fn lemma_discord_keeps_text_before_first_table(md: Seq<char>, k: int)
    requires
        0 <= k < markdown_events(md).len(),
        markdown_events(md)[k].event matches MdEvent::Start(MdTag::Table),
        has_no_table(markdown_events(md).take(k)),
        discord_slices_ok(encode_utf8(md), markdown_events(md)),
    ensures
        decode_utf8(encode_utf8(md).subrange(0, markdown_events(md)[k].start as int)).is_prefix_of(
            discord_markdown_of(md),
        ),
{
    let b = encode_utf8(md);
    let ev = markdown_events(md);
    lemma_dc_run_no_table(b, ev.take(k));
    assert(ev.take(k + 1).drop_last() =~= ev.take(k));
    let t = dc_run(b, ev.take(k + 1));
    let head = decode_utf8(b.subrange(0, ev[k].start as int));
    assert(t.out =~= head);
    lemma_dc_run_extends(b, ev, k + 1);
    let fin = dc_run(b, ev);
    let tail = decode_utf8(b.subrange(fin.last, b.len() as int));
    assert((fin.out + tail).subrange(0, fin.out.len() as int) =~= fin.out);
    lemma_prefix_trans(head, fin.out, fin.out + tail);
}

/// The tags Telegram's HTML mode accepts, as the renderer writes them.
pub open spec fn telegram_tags() -> Seq<Seq<char>> {
    seq![
        "<b>"@,
        "</b>"@,
        "<i>"@,
        "</i>"@,
        "<s>"@,
        "</s>"@,
        "<code>"@,
        "</code>"@,
        "<pre>"@,
        "</pre>"@,
        "<a href=\""@,
        "</a>"@,
        "<blockquote>"@,
        "</blockquote>"@,
    ]
}

/// One of Telegram's tags begins at index `i` of `s`.
pub open spec fn telegram_tag_at(s: Seq<char>, i: int) -> bool {
    exists|k: int| 0 <= k < telegram_tags().len() && occurs_at(s, #[trigger] telegram_tags()[k], i)
}

/// Every `<` of `s` begins one of Telegram's tags.
pub open spec fn only_telegram_tags(s: Seq<char>) -> bool {
    forall|i: int| 0 <= i < s.len() && #[trigger] s[i] == '<' ==> telegram_tag_at(s, i)
}

/// `s` holds no `<`.
pub open spec fn no_lt(s: Seq<char>) -> bool {
    forall|i: int| 0 <= i < s.len() ==> #[trigger] s[i] != '<'
}

proof fn lemma_tags_facts()
    ensures
        forall|k: int|
            0 <= k < telegram_tags().len() ==> {
                let t = #[trigger] telegram_tags()[k];
                &&& t.len() > 1
                &&& t[0] == '<'
                &&& forall|i: int| 0 < i < t.len() ==> t[i] != '<'
                &&& !is_whitespace(t.last())
            },
{
    reveal_strlit("<b>");
    reveal_strlit("</b>");
    reveal_strlit("<i>");
    reveal_strlit("</i>");
    reveal_strlit("<s>");
    reveal_strlit("</s>");
    reveal_strlit("<code>");
    reveal_strlit("</code>");
    reveal_strlit("<pre>");
    reveal_strlit("</pre>");
    reveal_strlit("<a href=\"");
    reveal_strlit("</a>");
    reveal_strlit("<blockquote>");
    reveal_strlit("</blockquote>");
}

proof fn lemma_no_lt_only(s: Seq<char>)
    requires
        no_lt(s),
    ensures
        only_telegram_tags(s),
{
}

proof fn lemma_no_lt_concat(a: Seq<char>, b: Seq<char>)
    requires
        no_lt(a),
        no_lt(b),
    ensures
        no_lt(a + b),
{
    assert forall|i: int| 0 <= i < (a + b).len() implies #[trigger] (a + b)[i] != '<' by {
        if i < a.len() {
            assert((a + b)[i] == a[i]);
        } else {
            assert((a + b)[i] == b[i - a.len()]);
        }
    }
}

proof fn lemma_only_concat(a: Seq<char>, b: Seq<char>)
    requires
        only_telegram_tags(a),
        only_telegram_tags(b),
    ensures
        only_telegram_tags(a + b),
{
    let c = a + b;
    assert forall|i: int| 0 <= i < c.len() && #[trigger] c[i] == '<' implies telegram_tag_at(c, i) by {
        if i < a.len() {
            assert(c[i] == a[i]);
            assert(telegram_tag_at(a, i));
            let k = choose|k: int|
                0 <= k < telegram_tags().len() && occurs_at(a, #[trigger] telegram_tags()[k], i);
            let t = telegram_tags()[k];
            assert(c.subrange(i, i + t.len()) =~= a.subrange(i, i + t.len()));
            assert(occurs_at(c, telegram_tags()[k], i));
        } else {
            let j = i - a.len();
            assert(c[i] == b[j]);
            assert(telegram_tag_at(b, j));
            let k = choose|k: int|
                0 <= k < telegram_tags().len() && occurs_at(b, #[trigger] telegram_tags()[k], j);
            let t = telegram_tags()[k];
            assert(c.subrange(i, i + t.len()) =~= b.subrange(j, j + t.len()));
            assert(occurs_at(c, telegram_tags()[k], i));
        }
    }
}

/// A tag, followed by text without `<`, has only that tag.
proof fn lemma_tag_then_plain(k: int, rest: Seq<char>)
    requires
        0 <= k < telegram_tags().len(),
        no_lt(rest),
    ensures
        only_telegram_tags(telegram_tags()[k] + rest),
{
    lemma_tags_facts();
    let t = telegram_tags()[k];
    let c = t + rest;
    assert forall|i: int| 0 <= i < c.len() && #[trigger] c[i] == '<' implies telegram_tag_at(c, i) by {
        if i >= t.len() {
            assert(c[i] == rest[i - t.len()]);
        } else if i > 0 {
            assert(c[i] == t[i]);
        } else {
            assert(c.subrange(0, t.len() as int) =~= t);
            assert(occurs_at(c, telegram_tags()[k], 0));
        }
    }
}

proof fn lemma_tag_alone(k: int)
    requires
        0 <= k < telegram_tags().len(),
    ensures
        only_telegram_tags(telegram_tags()[k]),
{
    lemma_tag_then_plain(k, seq![]);
    assert(telegram_tags()[k] + Seq::<char>::empty() =~= telegram_tags()[k]);
}

proof fn lemma_repeat_no_lt(c: char, n: nat)
    requires
        c != '<',
    ensures
        no_lt(repeat_char(c, n)),
{
}

proof fn lemma_decimal_no_lt(n: nat)
    ensures
        no_lt(decimal(n)),
    decreases n,
{
    if n >= 10 {
        lemma_decimal_no_lt(n / 10);
        let d = (n % 10) as nat;
        assert(digit_char(d) != '<') by {
            assert((48 + d) as char as int == 48 + d);
        }
        assert forall|i: int| 0 <= i < decimal(n).len() implies #[trigger] decimal(n)[i] != '<' by {
            if i < decimal(n / 10).len() {
                assert(decimal(n)[i] == decimal(n / 10)[i]);
            }
        }
    } else {
        assert(digit_char(n) != '<') by {
            assert((48 + n) as char as int == 48 + n);
        }
    }
}

proof fn lemma_escape_no_lt(s: Seq<char>)
    ensures
        no_lt(escape_html_spec(s)),
{
    lemma_escape_has_no_angle_brackets(s);
}

proof fn lemma_escaped_cells_no_lt(row: Seq<Seq<char>>, widths: Seq<nat>, n: int)
    ensures
        no_lt(render_cells(row, widths, true, n)),
    decreases n,
{
    reveal_strlit(" | ");
    if n > 0 {
        lemma_escaped_cells_no_lt(row, widths, n - 1);
        let sep: Seq<char> = if n - 1 > 0 {
            " | "@
        } else {
            seq![]
        };
        lemma_escape_no_lt(pad_right(row[n - 1], widths[n - 1]));
        lemma_no_lt_concat(render_cells(row, widths, true, n - 1), sep);
        lemma_no_lt_concat(
            render_cells(row, widths, true, n - 1) + sep,
            render_cell(row[n - 1], widths[n - 1], true),
        );
    }
}

proof fn lemma_separator_no_lt(widths: Seq<nat>, n: int)
    ensures
        no_lt(separator_parts(widths, n)),
    decreases n,
{
    reveal_strlit("-+-");
    if n > 0 {
        lemma_separator_no_lt(widths, n - 1);
        let sep: Seq<char> = if n - 1 > 0 {
            "-+-"@
        } else {
            seq![]
        };
        lemma_no_lt_concat(separator_parts(widths, n - 1), sep);
        lemma_no_lt_concat(separator_parts(widths, n - 1) + sep, repeat_char('-', widths[n - 1]));
    }
}

proof fn lemma_escaped_lines_no_lt(rows: Seq<Seq<Seq<char>>>, widths: Seq<nat>, n: int)
    ensures
        no_lt(table_lines(rows, widths, true, n)),
    decreases n,
{
    if n > 0 {
        lemma_escaped_lines_no_lt(rows, widths, n - 1);
        let r = rows[n - 1];
        lemma_escaped_cells_no_lt(r, widths, r.len() as int);
        lemma_no_lt_concat(render_cells(r, widths, true, r.len() as int), seq!['\n']);
        lemma_separator_no_lt(widths, widths.len() as int);
        lemma_no_lt_concat(separator_parts(widths, widths.len() as int), seq!['\n']);
        let extra: Seq<char> = if n - 1 == 0 {
            separator_line(widths)
        } else {
            seq![]
        };
        lemma_no_lt_concat(table_lines(rows, widths, true, n - 1), render_row(r, widths, true));
        lemma_no_lt_concat(
            table_lines(rows, widths, true, n - 1) + render_row(r, widths, true),
            extra,
        );
    }
}

proof fn lemma_telegram_table_only(rows: Seq<Seq<Seq<char>>>)
    ensures
        only_telegram_tags(render_table_spec(rows, "<pre>\n"@, "</pre>\n\n"@, true)),
{
    reveal_strlit("<pre>\n");
    reveal_strlit("</pre>\n\n");
    reveal_strlit("<pre>");
    reveal_strlit("</pre>");
    if rows.len() > 0 {
        let body = table_lines(rows, column_widths(rows), true, rows.len() as int);
        lemma_escaped_lines_no_lt(rows, column_widths(rows), rows.len() as int);
        assert(telegram_tags()[8] == "<pre>"@);
        assert(telegram_tags()[9] == "</pre>"@);
        assert("<pre>\n"@ =~= "<pre>"@ + seq!['\n']);
        assert("</pre>\n\n"@ =~= "</pre>"@ + seq!['\n', '\n']);
        lemma_no_lt_concat(seq!['\n'], body);
        lemma_tag_then_plain(8, seq!['\n'] + body);
        lemma_tag_then_plain(9, seq!['\n', '\n']);
        assert("<pre>\n"@ + body =~= "<pre>"@ + (seq!['\n'] + body));
        lemma_only_concat("<pre>\n"@ + body, "</pre>\n\n"@);
    }
}

proof fn lemma_tg_step_only(s: TgState, e: MdEvent<Seq<char>>)
    requires
        only_telegram_tags(s.out),
    ensures
        only_telegram_tags(tg_step(s, e).out),
{
    lemma_tags_facts();
    let t = telegram_tags();
    reveal_strlit("<b>");
    reveal_strlit("</b>");
    reveal_strlit("<i>");
    reveal_strlit("</i>");
    reveal_strlit("<s>");
    reveal_strlit("</s>");
    reveal_strlit("<code>");
    reveal_strlit("</code>");
    reveal_strlit("<pre>");
    reveal_strlit("</pre>");
    reveal_strlit("<a href=\"");
    reveal_strlit("\">");
    reveal_strlit("</a>");
    reveal_strlit("<blockquote>");
    reveal_strlit("</blockquote>");
    reveal_strlit("</b>\n");
    reveal_strlit("\n\n");
    reveal_strlit("---\n");
    reveal_strlit(". ");
    reveal_strlit("• ");
    let out2 = tg_step(s, e).out;
    if out2 == s.out {
        return;
    }
    if s.in_table {
        match e {
            MdEvent::End(MdTag::Table) => {
                let x = render_table_spec(s.table.rows, "<pre>\n"@, "</pre>\n\n"@, true);
                lemma_telegram_table_only(s.table.rows);
                lemma_only_concat(s.out, x);
            },
            _ => {},
        }
    } else {
        match e {
            MdEvent::Start(MdTag::Strong) | MdEvent::Start(MdTag::Heading) => {
                lemma_tag_alone(0);
                lemma_only_concat(s.out, t[0]);
            },
            MdEvent::End(MdTag::Strong) => {
                lemma_tag_alone(1);
                lemma_only_concat(s.out, t[1]);
            },
            MdEvent::End(MdTag::Heading) => {
                assert("</b>\n"@ =~= t[1] + seq!['\n']);
                lemma_tag_then_plain(1, seq!['\n']);
                lemma_only_concat(s.out, "</b>\n"@);
            },
            MdEvent::Start(MdTag::Emphasis) => {
                lemma_tag_alone(2);
                lemma_only_concat(s.out, t[2]);
            },
            MdEvent::End(MdTag::Emphasis) => {
                lemma_tag_alone(3);
                lemma_only_concat(s.out, t[3]);
            },
            MdEvent::Start(MdTag::Strikethrough) => {
                lemma_tag_alone(4);
                lemma_only_concat(s.out, t[4]);
            },
            MdEvent::End(MdTag::Strikethrough) => {
                lemma_tag_alone(5);
                lemma_only_concat(s.out, t[5]);
            },
            MdEvent::Code(c) => {
                let x = escape_html_spec(c);
                lemma_escape_no_lt(c);
                lemma_tag_then_plain(6, x);
                lemma_tag_alone(7);
                lemma_only_concat(t[6] + x, t[7]);
                lemma_only_concat(s.out, t[6] + x + t[7]);
                assert(out2 =~= s.out + (t[6] + x + t[7]));
            },
            MdEvent::Start(MdTag::CodeBlock) => {
                lemma_tag_alone(8);
                lemma_only_concat(s.out, t[8]);
            },
            MdEvent::End(MdTag::CodeBlock) => {
                lemma_tag_alone(9);
                lemma_only_concat(s.out, t[9]);
            },
            MdEvent::Start(MdTag::Link(d)) => {
                let x = escape_html_spec(d);
                lemma_escape_no_lt(d);
                lemma_no_lt_concat(x, "\">"@);
                lemma_tag_then_plain(10, x + "\">"@);
                lemma_only_concat(s.out, t[10] + (x + "\">"@));
                assert(out2 =~= s.out + (t[10] + (x + "\">"@)));
            },
            MdEvent::End(MdTag::Link(_)) => {
                lemma_tag_alone(11);
                lemma_only_concat(s.out, t[11]);
            },
            MdEvent::Start(MdTag::BlockQuote) => {
                lemma_tag_alone(12);
                lemma_only_concat(s.out, t[12]);
            },
            MdEvent::End(MdTag::BlockQuote) => {
                lemma_tag_alone(13);
                lemma_only_concat(s.out, t[13]);
            },
            MdEvent::Start(MdTag::Item) => {
                let indent = list_indent(s.depth);
                lemma_repeat_no_lt(' ', 2 * (if s.depth > 0 {
                    (s.depth - 1) as nat
                } else {
                    0
                }));
                if s.indices.len() > 0 && s.indices.last() > 0 {
                    let dd = decimal(s.indices.last() as nat);
                    lemma_decimal_no_lt(s.indices.last() as nat);
                    lemma_no_lt_concat(indent, dd);
                    lemma_no_lt_concat(indent + dd, ". "@);
                    lemma_no_lt_only(indent + dd + ". "@);
                    lemma_only_concat(s.out, indent + dd + ". "@);
                    assert(out2 =~= s.out + (indent + dd + ". "@));
                } else {
                    lemma_no_lt_concat(indent, "• "@);
                    lemma_no_lt_only(indent + "• "@);
                    lemma_only_concat(s.out, indent + "• "@);
                    assert(out2 =~= s.out + (indent + "• "@));
                }
            },
            MdEvent::End(MdTag::Item) | MdEvent::SoftBreak | MdEvent::HardBreak => {
                lemma_only_concat(s.out, seq!['\n']);
            },
            MdEvent::End(MdTag::Paragraph) => {
                lemma_only_concat(s.out, "\n\n"@);
            },
            MdEvent::Text(x) => {
                lemma_escape_no_lt(x);
                lemma_only_concat(s.out, escape_html_spec(x));
            },
            MdEvent::Rule => {
                lemma_only_concat(s.out, "---\n"@);
            },
            _ => {},
        }
    }
}

proof fn lemma_tg_run_only(events: Seq<MdItem<Seq<char>>>)
    ensures
        only_telegram_tags(tg_run(events).out),
    decreases events.len(),
{
    if events.len() > 0 {
        lemma_tg_run_only(events.drop_last());
        lemma_tg_step_only(tg_run(events.drop_last()), events.last().event);
    }
}

/// Dropping trailing whitespace keeps every tag whole.
proof fn lemma_trim_end_only(s: Seq<char>)
    requires
        only_telegram_tags(s),
    ensures
        only_telegram_tags(trim_end_spec(s)),
    decreases s.len(),
{
    if s.len() > 0 && is_whitespace(s.last()) {
        lemma_tags_facts();
        let d = s.drop_last();
        assert forall|i: int| 0 <= i < d.len() && #[trigger] d[i] == '<' implies telegram_tag_at(d, i) by {
            assert(s[i] == '<');
            assert(telegram_tag_at(s, i));
            let k = choose|k: int|
                0 <= k < telegram_tags().len() && occurs_at(s, #[trigger] telegram_tags()[k], i);
            let t = telegram_tags()[k];
            if i + t.len() == s.len() {
                assert(s.subrange(i, i + t.len())[t.len() - 1] == s.last());
            }
            assert(d.subrange(i, i + t.len()) =~= s.subrange(i, i + t.len()));
            assert(occurs_at(d, telegram_tags()[k], i));
        }
        lemma_trim_end_only(d);
    }
}

/// Law: Telegram HTML holds no markup but the tags Telegram supports:
/// every `<` in it begins one of `<b>`, `</b>`, `<i>`, `</i>`, `<s>`,
/// `</s>`, `<code>`, `</code>`, `<pre>`, `</pre>`, `<a href="`, `</a>`,
/// `<blockquote>` or `</blockquote>` (all text, code and link targets are
/// escaped).
pub proof fn lemma_telegram_html_only_supported_tags(events: Seq<MdItem<Seq<char>>>)
    ensures
        only_telegram_tags(telegram_html_spec(events)),
{
    lemma_tg_run_only(events);
    lemma_trim_end_only(tg_run(events).out);
}

/// Law: what `to_telegram_html` gives for Markdown whose list numbering
/// stays within `u64` holds no markup but Telegram's tags.
pub proof fn lemma_to_telegram_html_only_supported_tags(md: Seq<char>)
    requires
        !telegram_counter_overflows(markdown_events(md)),
    ensures
        only_telegram_tags(telegram_html_of(md)),
{
    lemma_telegram_html_only_supported_tags(markdown_events(md));
}

proof fn lemma_byte_len_at_least_chars(s: Seq<char>)
    ensures
        byte_len(s) >= s.len(),
    decreases s.len(),
{
    if s.len() > 0 {
        lemma_byte_len_at_least_chars(s.drop_first());
        assert(encode_scalar(s[0] as u32).len() >= 1);
    }
}

proof fn lemma_column_width_bound(rows: Seq<Seq<Seq<char>>>, r: int, c: int)
    requires
        0 <= r < rows.len(),
        0 <= c < rows[r].len(),
    ensures
        byte_len(rows[r][c]) <= column_width(rows, c),
    decreases rows.len(),
{
    if r < rows.len() - 1 {
        assert(rows.drop_last()[r] == rows[r]);
        lemma_column_width_bound(rows.drop_last(), r, c);
    }
}

/// Width of a table line over the first `n` columns: the column widths plus
/// three characters per separator.
pub open spec fn line_width(widths: Seq<nat>, n: int) -> nat
    decreases n,
{
    if n <= 0 {
        0
    } else {
        line_width(widths, n - 1) + (if n - 1 > 0 {
            3nat
        } else {
            0nat
        }) + widths[n - 1]
    }
}

proof fn lemma_cells_width(row: Seq<Seq<char>>, widths: Seq<nat>, n: int)
    requires
        0 <= n <= row.len(),
        n <= widths.len(),
        forall|c: int| 0 <= c < n ==> row[c].len() <= #[trigger] widths[c],
    ensures
        render_cells(row, widths, false, n).len() == line_width(widths, n),
    decreases n,
{
    reveal_strlit(" | ");
    if n > 0 {
        lemma_cells_width(row, widths, n - 1);
    }
}

proof fn lemma_separator_width(widths: Seq<nat>, n: int)
    requires
        0 <= n <= widths.len(),
    ensures
        separator_parts(widths, n).len() == line_width(widths, n),
    decreases n,
{
    reveal_strlit("-+-");
    if n > 0 {
        lemma_separator_width(widths, n - 1);
    }
}

/// `parts` with `sep` between each two neighbours.
pub open spec fn join_with(parts: Seq<Seq<char>>, sep: Seq<char>) -> Seq<char>
    decreases parts.len(),
{
    if parts.len() == 0 {
        seq![]
    } else if parts.len() == 1 {
        parts[0]
    } else {
        join_with(parts.drop_last(), sep) + sep + parts.last()
    }
}

/// The rendered cells of a row: each padded to its column's width, and
/// escaped when `esc` holds.
pub open spec fn row_cells(row: Seq<Seq<char>>, widths: Seq<nat>, esc: bool) -> Seq<Seq<char>> {
    Seq::new(row.len(), |i: int| render_cell(row[i], widths[i], esc))
}

/// One run of dashes per column, as wide as the column.
pub open spec fn dash_runs(widths: Seq<nat>) -> Seq<Seq<char>> {
    Seq::new(widths.len(), |i: int| repeat_char('-', widths[i]))
}

/// A table line: the row's rendered cells joined by `" | "`, then a newline.
pub open spec fn table_line(row: Seq<Seq<char>>, widths: Seq<nat>, esc: bool) -> Seq<char> {
    join_with(row_cells(row, widths, esc), " | "@) + seq!['\n']
}

proof fn lemma_render_cells_join(row: Seq<Seq<char>>, widths: Seq<nat>, esc: bool, n: int)
    requires
        0 <= n <= row.len(),
    ensures
        render_cells(row, widths, esc, n) == join_with(row_cells(row, widths, esc).take(n), " | "@),
    decreases n,
{
    let cells = row_cells(row, widths, esc);
    if n == 0 {
        assert(cells.take(0) =~= Seq::<Seq<char>>::empty());
    } else {
        lemma_render_cells_join(row, widths, esc, n - 1);
        assert(cells.take(n).drop_last() =~= cells.take(n - 1));
        assert(cells.take(n).last() == render_cell(row[n - 1], widths[n - 1], esc));
        if n == 1 {
            assert(cells.take(0) =~= Seq::<Seq<char>>::empty());
            assert(render_cells(row, widths, esc, 1) =~= render_cell(row[0], widths[0], esc));
        }
    }
}

proof fn lemma_separator_join(widths: Seq<nat>, n: int)
    requires
        0 <= n <= widths.len(),
    ensures
        separator_parts(widths, n) == join_with(dash_runs(widths).take(n), "-+-"@),
    decreases n,
{
    let runs = dash_runs(widths);
    if n == 0 {
        assert(runs.take(0) =~= Seq::<Seq<char>>::empty());
    } else {
        lemma_separator_join(widths, n - 1);
        assert(runs.take(n).drop_last() =~= runs.take(n - 1));
        assert(runs.take(n).last() == repeat_char('-', widths[n - 1]));
        if n == 1 {
            assert(runs.take(0) =~= Seq::<Seq<char>>::empty());
            assert(separator_parts(widths, 1) =~= repeat_char('-', widths[0]));
        }
    }
}

proof fn lemma_table_lines_layout(rows: Seq<Seq<Seq<char>>>, widths: Seq<nat>, esc: bool, n: int)
    requires
        1 <= n <= rows.len(),
    ensures
        table_lines(rows, widths, esc, n) == table_line(rows[0], widths, esc) + join_with(
            dash_runs(widths),
            "-+-"@,
        ) + seq!['\n'] + rows.subrange(1, n).map_values(
            |r: Seq<Seq<char>>| table_line(r, widths, esc),
        ).flatten(),
    decreases n,
{
    let f = |r: Seq<Seq<char>>| table_line(r, widths, esc);
    if n == 1 {
        lemma_render_cells_join(rows[0], widths, esc, rows[0].len() as int);
        lemma_separator_join(widths, widths.len() as int);
        assert(row_cells(rows[0], widths, esc).take(rows[0].len() as int) =~= row_cells(
            rows[0],
            widths,
            esc,
        ));
        assert(dash_runs(widths).take(widths.len() as int) =~= dash_runs(widths));
        assert(rows.subrange(1, 1).map_values(f) =~= Seq::<Seq<char>>::empty());
        assert(table_lines(rows, widths, esc, 0) =~= Seq::<char>::empty());
    } else {
        lemma_table_lines_layout(rows, widths, esc, n - 1);
        let r = rows[n - 1];
        lemma_render_cells_join(r, widths, esc, r.len() as int);
        assert(row_cells(r, widths, esc).take(r.len() as int) =~= row_cells(r, widths, esc));
        assert(rows.subrange(1, n).map_values(f) =~= rows.subrange(1, n - 1).map_values(f).push(
            table_line(r, widths, esc),
        ));
        rows.subrange(1, n - 1).map_values(f).lemma_flatten_push(table_line(r, widths, esc));
        assert(render_row(r, widths, esc) == table_line(r, widths, esc));
    }
}

/// Law: a table with rows is laid out as `open`, the first row's cells
/// joined by `" | "`, a line of dash runs (one per column, as wide as the
/// column) joined by `"-+-"`, every further row in the same way, and
/// `close`; each line ends in a newline. Columns are as wide as their
/// widest cell in bytes, and cells are padded with spaces and escaped when
/// `esc` holds.
pub proof fn lemma_table_layout(rows: Seq<Seq<Seq<char>>>, open: Seq<char>, close: Seq<char>, esc: bool)
    requires
        rows.len() > 0,
    ensures
        render_table_spec(rows, open, close, esc) == open + table_line(
            rows[0],
            column_widths(rows),
            esc,
        ) + join_with(dash_runs(column_widths(rows)), "-+-"@) + seq!['\n'] + rows.skip(1).map_values(
            |r: Seq<Seq<char>>| table_line(r, column_widths(rows), esc),
        ).flatten() + close,
{
    let w = column_widths(rows);
    lemma_table_lines_layout(rows, w, esc, rows.len() as int);
    assert(rows.subrange(1, rows.len() as int) =~= rows.skip(1));
}

/// Law: the table is aligned. Without escaping, every row that has a cell
/// in each column renders to a line exactly as long, in characters, as the
/// separator line under the header.
pub proof fn lemma_table_rows_aligned(rows: Seq<Seq<Seq<char>>>, r: int)
    requires
        0 <= r < rows.len(),
        rows[r].len() == max_row_len(rows),
    ensures
        render_row(rows[r], column_widths(rows), false).len() == separator_line(
            column_widths(rows),
        ).len(),
{
    let w = column_widths(rows);
    assert forall|c: int| 0 <= c < rows[r].len() implies rows[r][c].len() <= #[trigger] w[c] by {
        lemma_byte_len_at_least_chars(rows[r][c]);
        lemma_column_width_bound(rows, r, c);
    }
    lemma_cells_width(rows[r], w, rows[r].len() as int);
    lemma_separator_width(w, w.len() as int);
}

/// The renderer's state after `events`, run from `s`, first event first.
pub open spec fn tg_steps(s: TgState, events: Seq<MdEvent<Seq<char>>>) -> TgState
    decreases events.len(),
{
    if events.len() == 0 {
        s
    } else {
        tg_steps(tg_step(s, events[0]), events.drop_first())
    }
}

proof fn lemma_tg_steps_concat(s: TgState, a: Seq<MdEvent<Seq<char>>>, b: Seq<MdEvent<Seq<char>>>)
    ensures
        tg_steps(s, a + b) == tg_steps(tg_steps(s, a), b),
    decreases a.len(),
{
    if a.len() == 0 {
        assert(a + b =~= b);
    } else {
        assert((a + b)[0] == a[0]);
        assert((a + b).drop_first() =~= a.drop_first() + b);
        lemma_tg_steps_concat(tg_step(s, a[0]), a.drop_first(), b);
    }
}

proof fn lemma_tg_steps_one(s: TgState, e: MdEvent<Seq<char>>)
    ensures
        tg_steps(s, seq![e]) == tg_step(s, e),
{
    reveal_with_fuel(tg_steps, 2);
    assert(seq![e][0] == e);
    assert(seq![e].drop_first() =~= Seq::<MdEvent<Seq<char>>>::empty());
}

/// Law: outside a table, a soft or hard line break adds exactly one newline
/// to the Telegram output, text adds its escaped form, and nothing else
/// of the renderer changes.
pub proof fn lemma_telegram_breaks_and_text(s: TgState, t: Seq<char>)
    requires
        !s.in_table,
    ensures
        tg_step(s, MdEvent::SoftBreak) == (TgState { out: s.out + seq!['\n'], ..s }),
        tg_step(s, MdEvent::HardBreak) == (TgState { out: s.out + seq!['\n'], ..s }),
        tg_step(s, MdEvent::Text(t)) == (TgState { out: s.out + escape_html_spec(t), ..s }),
{
}

/// Whether `e` is plain paragraph content: text or a line break.
pub open spec fn is_line_content(e: MdEvent<Seq<char>>) -> bool {
    e is Text || e is SoftBreak || e is HardBreak
}

/// What paragraph content shows as in Telegram HTML: escaped text, and a
/// newline for each line break.
pub open spec fn line_content_html(events: Seq<MdEvent<Seq<char>>>) -> Seq<char>
    decreases events.len(),
{
    if events.len() == 0 {
        seq![]
    } else {
        (match events[0] {
            MdEvent::Text(t) => escape_html_spec(t),
            _ => seq!['\n'],
        }) + line_content_html(events.drop_first())
    }
}

/// Law: the text and line breaks of a paragraph appear in the Telegram
/// output in order, text escaped and each line break as one newline.
pub proof fn lemma_telegram_lines_in_order(s: TgState, events: Seq<MdEvent<Seq<char>>>)
    requires
        !s.in_table,
        forall|i: int| 0 <= i < events.len() ==> is_line_content(#[trigger] events[i]),
    ensures
        tg_steps(s, events) == (TgState { out: s.out + line_content_html(events), ..s }),
    decreases events.len(),
{
    if events.len() == 0 {
        assert(s.out + Seq::<char>::empty() =~= s.out);
    } else {
        let e = events[0];
        assert(is_line_content(e));
        let s1 = tg_step(s, e);
        lemma_telegram_breaks_and_text(s, match e {
            MdEvent::Text(t) => t,
            _ => seq![],
        });
        let rest = events.drop_first();
        assert forall|i: int| 0 <= i < rest.len() implies is_line_content(#[trigger] rest[i]) by {
            assert(rest[i] == events[i + 1]);
        }
        lemma_telegram_lines_in_order(s1, rest);
        let x: Seq<char> = match e {
            MdEvent::Text(t) => escape_html_spec(t),
            _ => seq!['\n'],
        };
        assert(s1.out == s.out + x);
        assert(s.out + x + line_content_html(rest) =~= s.out + line_content_html(events));
    }
}

/// The opening and closing Telegram tags of the element `k` (bold, italic,
/// strikethrough, code block, block quote, heading), as the renderer writes
/// them.
pub open spec fn telegram_pair(k: int) -> (MdTag<Seq<char>>, Seq<char>, Seq<char>) {
    if k == 0 {
        (MdTag::Strong, "<b>"@, "</b>"@)
    } else if k == 1 {
        (MdTag::Emphasis, "<i>"@, "</i>"@)
    } else if k == 2 {
        (MdTag::Strikethrough, "<s>"@, "</s>"@)
    } else if k == 3 {
        (MdTag::CodeBlock, "<pre>"@, "</pre>"@)
    } else if k == 4 {
        (MdTag::BlockQuote, "<blockquote>"@, "</blockquote>"@)
    } else {
        (MdTag::Heading, "<b>"@, "</b>\n"@)
    }
}

/// Law: outside a table, each element's start writes its opening tag and
/// its end writes the matching closing tag; a link writes `<a href="`, its
/// escaped destination and `">`, and is closed by `</a>`.
pub proof fn lemma_telegram_tag_steps(s: TgState, k: int, dest: Seq<char>)
    requires
        !s.in_table,
        0 <= k < 6,
    ensures
        tg_step(s, MdEvent::Start(telegram_pair(k).0)) == (TgState {
            out: s.out + telegram_pair(k).1,
            ..s
        }),
        tg_step(s, MdEvent::End(telegram_pair(k).0)) == (TgState {
            out: s.out + telegram_pair(k).2,
            ..s
        }),
        tg_step(s, MdEvent::Start(MdTag::Link(dest))) == (TgState {
            out: s.out + ("<a href=\""@ + escape_html_spec(dest) + "\">"@),
            ..s
        }),
        tg_step(s, MdEvent::End(MdTag::Link(dest))) == (TgState { out: s.out + "</a>"@, ..s }),
{
}

proof fn lemma_tg_step_extends(s: TgState, e: MdEvent<Seq<char>>)
    ensures
        s.out.is_prefix_of(tg_step(s, e).out),
{
    let o = tg_step(s, e).out;
    if s.in_table {
        if e matches MdEvent::End(MdTag::Table) {
            let x = render_table_spec(s.table.rows, "<pre>\n"@, "</pre>\n\n"@, true);
            assert((s.out + x).subrange(0, s.out.len() as int) =~= s.out);
        }
    } else {
        if e is Start && e->Start_0 is Item {
            let t = tg_item(s);
            let indent = list_indent(s.depth);
            if s.indices.len() > 0 && s.indices.last() > 0 {
                let x = indent + decimal(s.indices.last() as nat) + ". "@;
                assert(t.out =~= s.out + x);
                assert((s.out + x).subrange(0, s.out.len() as int) =~= s.out);
            } else {
                let x = indent + "• "@;
                assert(t.out =~= s.out + x);
                assert((s.out + x).subrange(0, s.out.len() as int) =~= s.out);
            }
        } else if o != s.out {
            let x = o.skip(s.out.len() as int);
            assert(o =~= s.out + x) by {
                assert(o.len() >= s.out.len());
                assert(o.subrange(0, s.out.len() as int) =~= s.out);
            }
        }
    }
}

proof fn lemma_tg_steps_extends(s: TgState, events: Seq<MdEvent<Seq<char>>>)
    ensures
        s.out.is_prefix_of(tg_steps(s, events).out),
    decreases events.len(),
{
    if events.len() == 0 {
        assert(s.out.subrange(0, s.out.len() as int) =~= s.out);
    } else {
        let s1 = tg_step(s, events[0]);
        lemma_tg_step_extends(s, events[0]);
        lemma_tg_steps_extends(s1, events.drop_first());
        lemma_prefix_trans(s.out, s1.out, tg_steps(s, events).out);
    }
}

proof fn lemma_wrapped(
    s: TgState,
    open: MdEvent<Seq<char>>,
    close: MdEvent<Seq<char>>,
    ot: Seq<char>,
    ct: Seq<char>,
    inner: Seq<MdEvent<Seq<char>>>,
)
    requires
        tg_step(s, open).out == s.out + ot,
        tg_step(tg_steps(tg_step(s, open), inner), close).out == tg_steps(
            tg_step(s, open),
            inner,
        ).out + ct,
    ensures
        exists|m: Seq<char>|
            tg_steps(s, seq![open] + inner + seq![close]).out == s.out + ot + m + ct,
{
    let s1 = tg_step(s, open);
    let t = tg_steps(s1, inner);
    lemma_tg_steps_concat(s, seq![open] + inner, seq![close]);
    lemma_tg_steps_concat(s, seq![open], inner);
    lemma_tg_steps_one(s, open);
    lemma_tg_steps_one(t, close);
    lemma_tg_steps_extends(s1, inner);
    let m = t.out.skip(s1.out.len() as int);
    assert(t.out =~= s1.out + m);
    assert(tg_steps(s, seq![open] + inner + seq![close]).out =~= s.out + ot + m + ct);
}

/// Law: Telegram HTML is balanced. Outside a table, an element whose
/// content leaves the renderer outside a table comes out as its opening
/// tag, the rendering of the content, and its closing tag (bold, italic,
/// strikethrough, code block, block quote, heading).
pub proof fn lemma_telegram_tags_balanced(s: TgState, k: int, inner: Seq<MdEvent<Seq<char>>>)
    requires
        !s.in_table,
        0 <= k < 6,
        !tg_steps(tg_step(s, MdEvent::Start(telegram_pair(k).0)), inner).in_table,
    ensures
        exists|m: Seq<char>|
            tg_steps(
                s,
                seq![MdEvent::Start(telegram_pair(k).0)] + inner + seq![
                    MdEvent::End(telegram_pair(k).0),
                ],
            ).out == s.out + telegram_pair(k).1 + m + telegram_pair(k).2,
{
    let tag = telegram_pair(k).0;
    let t = tg_steps(tg_step(s, MdEvent::Start(tag)), inner);
    lemma_telegram_tag_steps(s, k, seq![]);
    lemma_telegram_tag_steps(t, k, seq![]);
    lemma_wrapped(
        s,
        MdEvent::Start(tag),
        MdEvent::End(tag),
        telegram_pair(k).1,
        telegram_pair(k).2,
        inner,
    );
}

/// Law: a link comes out as `<a href="`, its escaped destination, `">`,
/// the rendering of its text, and `</a>`.
pub proof fn lemma_telegram_link_balanced(
    s: TgState,
    dest: Seq<char>,
    end_dest: Seq<char>,
    inner: Seq<MdEvent<Seq<char>>>,
)
    requires
        !s.in_table,
        !tg_steps(tg_step(s, MdEvent::Start(MdTag::Link(dest))), inner).in_table,
    ensures
        exists|m: Seq<char>|
            tg_steps(
                s,
                seq![MdEvent::Start(MdTag::Link(dest))] + inner + seq![
                    MdEvent::End(MdTag::Link(end_dest)),
                ],
            ).out == s.out + ("<a href=\""@ + escape_html_spec(dest) + "\">"@) + m + "</a>"@,
{
    let t = tg_steps(tg_step(s, MdEvent::Start(MdTag::Link(dest))), inner);
    lemma_telegram_tag_steps(s, 0, dest);
    lemma_telegram_tag_steps(t, 0, end_dest);
    lemma_wrapped(
        s,
        MdEvent::Start(MdTag::Link(dest)),
        MdEvent::End(MdTag::Link(end_dest)),
        "<a href=\""@ + escape_html_spec(dest) + "\">"@,
        "</a>"@,
        inner,
    );
}

/// Lists opened minus lists closed among `events`.
pub open spec fn list_opens(events: Seq<MdEvent<Seq<char>>>) -> int
    decreases events.len(),
{
    if events.len() == 0 {
        0
    } else {
        list_opens(events.drop_last()) + match events.last() {
            MdEvent::Start(MdTag::List(_)) => 1int,
            MdEvent::End(MdTag::List(_)) => -1int,
            _ => 0int,
        }
    }
}

/// Every list the events open they also close, and none is closed before
/// it was opened.
pub open spec fn lists_balanced(events: Seq<MdEvent<Seq<char>>>) -> bool {
    &&& list_opens(events) == 0
    &&& forall|i: int| 0 <= i <= events.len() ==> list_opens(#[trigger] events.take(i)) >= 0
}

/// No table starts among the events.
pub open spec fn no_table_start(events: Seq<MdEvent<Seq<char>>>) -> bool {
    forall|i: int| 0 <= i < events.len() ==> !(#[trigger] events[i] matches MdEvent::Start(MdTag::Table))
}

/// Law: outside a table, a list item in an ordered list is numbered with
/// the innermost list's counter, which then goes up by one; in a bulleted
/// list (counter 0) or outside any list it gets a bullet. Either way it is
/// indented two spaces per enclosing list beyond the first.
pub proof fn lemma_telegram_item_numbering(s: TgState)
    requires
        !s.in_table,
    ensures
        s.indices.len() > 0 && 0 < s.indices.last() < u64::MAX ==> {
            let t = tg_step(s, MdEvent::Start(MdTag::Item));
            &&& t.out == s.out + repeat_char(' ', 2 * (if s.depth > 0 {
                (s.depth - 1) as nat
            } else {
                0
            })) + decimal(s.indices.last() as nat) + ". "@
            &&& t.indices == s.indices.update(
                s.indices.len() - 1,
                (s.indices.last() + 1) as u64,
            )
            &&& t.depth == s.depth && !t.in_table
        },
        s.indices.len() == 0 || s.indices.last() == 0 ==> {
            let t = tg_step(s, MdEvent::Start(MdTag::Item));
            &&& t.out == s.out + repeat_char(' ', 2 * (if s.depth > 0 {
                (s.depth - 1) as nat
            } else {
                0
            })) + "• "@
            &&& t.indices == s.indices
            &&& t.depth == s.depth && !t.in_table
        },
{
}

proof fn lemma_list_stack_invariant(
    b: TgState,
    base: Seq<u64>,
    events: Seq<MdEvent<Seq<char>>>,
    i: int,
)
    requires
        !b.in_table,
        b.indices.len() == base.len() + 1,
        b.indices.take(base.len() as int) == base,
        b.depth >= 1,
        0 <= i <= events.len(),
        forall|j: int| 0 <= j <= events.len() ==> list_opens(#[trigger] events.take(j)) >= 0,
        no_table_start(events),
    ensures
        ({
            let t = tg_steps(b, events.take(i));
            &&& !t.in_table
            &&& t.indices.len() == base.len() + 1 + list_opens(events.take(i))
            &&& t.indices.take(base.len() as int) == base
            &&& t.depth == b.depth + list_opens(events.take(i))
        }),
    decreases i,
{
    if i == 0 {
        assert(events.take(0) =~= Seq::<MdEvent<Seq<char>>>::empty());
    } else {
        lemma_list_stack_invariant(b, base, events, i - 1);
        let p = events.take(i - 1);
        let e = events[i - 1];
        assert(events.take(i) =~= p + seq![e]);
        assert(events.take(i).drop_last() =~= p);
        lemma_tg_steps_concat(b, p, seq![e]);
        let t = tg_steps(b, p);
        lemma_tg_steps_one(t, e);
        assert(!(e matches MdEvent::Start(MdTag::Table)));
        let t2 = tg_step(t, e);
        assert(list_opens(events.take(i)) >= 0);
        if e matches MdEvent::Start(MdTag::Item) {
            if t.indices.len() > 0 && t.indices.last() > 0 {
                assert(t2.indices.take(base.len() as int) =~= t.indices.take(base.len() as int));
            }
        } else if e matches MdEvent::Start(MdTag::List(_)) {
            assert(t2.indices.take(base.len() as int) =~= t.indices.take(base.len() as int));
        } else if e matches MdEvent::End(MdTag::List(_)) {
            assert(t2.indices.take(base.len() as int) =~= t.indices.take(base.len() as int));
        }
    }
}

/// Law: list counters form a stack. Outside a table, a list whose content
/// opens and closes its own lists in balance (and starts no table) leaves
/// the counters and the nesting depth as they were before it.
pub proof fn lemma_telegram_list_counters_restored(
    s: TgState,
    first: Option<u64>,
    inner: Seq<MdEvent<Seq<char>>>,
    last: Option<u64>,
)
    requires
        !s.in_table,
        lists_balanced(inner),
        no_table_start(inner),
    ensures
        ({
            let t = tg_steps(
                s,
                seq![MdEvent::Start(MdTag::List(first))] + inner + seq![
                    MdEvent::End(MdTag::List(last)),
                ],
            );
            &&& t.indices == s.indices
            &&& t.depth == s.depth
            &&& !t.in_table
        }),
{
    let open = MdEvent::Start(MdTag::List(first));
    let close = MdEvent::End(MdTag::List(last));
    let b = tg_step(s, open);
    let base = s.indices;
    lemma_tg_steps_concat(s, seq![open] + inner, seq![close]);
    lemma_tg_steps_concat(s, seq![open], inner);
    lemma_tg_steps_one(s, open);
    assert(b.indices.take(base.len() as int) =~= base);
    lemma_list_stack_invariant(b, base, inner, inner.len() as int);
    assert(inner.take(inner.len() as int) =~= inner);
    let t = tg_steps(b, inner);
    lemma_tg_steps_one(t, close);
    assert(tg_step(t, close).indices =~= base);
}

/// Whether `s` ends with `suffix`.
pub open spec fn ends_with(s: Seq<char>, suffix: Seq<char>) -> bool {
    suffix.len() <= s.len() && s.skip(s.len() - suffix.len()) == suffix
}

proof fn lemma_ends_with_concat(p: Seq<char>, x: Seq<char>)
    ensures
        ends_with(p + x, x),
{
    assert((p + x).skip((p + x).len() - x.len()) =~= x);
}

/// Law: a nested list does not disturb the numbering of the list around
/// it. Outside a table, in an ordered list whose next number is `k`, an
/// item holding some text and then a nested list (balanced, without
/// tables) is numbered `k`, and the item after it is numbered `k + 1`.
pub proof fn lemma_telegram_numbering_survives_sublist(
    s: TgState,
    text: Seq<MdEvent<Seq<char>>>,
    first: Option<u64>,
    inner: Seq<MdEvent<Seq<char>>>,
    last: Option<u64>,
)
    requires
        !s.in_table,
        s.indices.len() > 0,
        0 < s.indices.last(),
        s.indices.last() + 1 < u64::MAX,
        forall|i: int| 0 <= i < text.len() ==> is_line_content(#[trigger] text[i]),
        lists_balanced(inner),
        no_table_start(inner),
    ensures
        ({
            let k = s.indices.last();
            let sub = seq![MdEvent::Start(MdTag::List(first))] + inner + seq![
                MdEvent::End(MdTag::List(last)),
            ];
            let t1 = tg_steps(s, seq![MdEvent::Start(MdTag::Item)]);
            let t = tg_steps(
                s,
                seq![MdEvent::Start(MdTag::Item)] + text + sub + seq![
                    MdEvent::End(MdTag::Item),
                    MdEvent::Start(MdTag::Item),
                ],
            );
            &&& ends_with(t1.out, decimal(k as nat) + ". "@)
            &&& ends_with(t.out, decimal((k + 1) as nat) + ". "@)
            &&& t.indices == s.indices.update(s.indices.len() - 1, (k + 2) as u64)
        }),
{
    let k = s.indices.last();
    let item = MdEvent::Start(MdTag::Item);
    let end_item = MdEvent::End(MdTag::Item);
    let sub = seq![MdEvent::Start(MdTag::List(first))] + inner + seq![
        MdEvent::End(MdTag::List(last)),
    ];
    let tail = seq![end_item, item];
    let all = seq![item] + text + sub + tail;
    lemma_tg_steps_one(s, item);
    lemma_telegram_item_numbering(s);
    let s1 = tg_step(s, item);
    let indent = repeat_char(' ', 2 * (if s.depth > 0 {
        (s.depth - 1) as nat
    } else {
        0
    }));
    assert(s1.out == (s.out + indent) + decimal(k as nat) + ". "@);
    assert(s1.out =~= (s.out + indent) + (decimal(k as nat) + ". "@));
    lemma_ends_with_concat(s.out + indent, decimal(k as nat) + ". "@);
    lemma_telegram_lines_in_order(s1, text);
    let s2 = tg_steps(s1, text);
    lemma_telegram_list_counters_restored(s2, first, inner, last);
    let s3 = tg_steps(s2, sub);
    let s4 = tg_step(s3, end_item);
    assert(s4.indices == s3.indices && !s4.in_table && s4.depth == s3.depth);
    assert(s4.indices.last() == k + 1);
    lemma_telegram_item_numbering(s4);
    let s5 = tg_step(s4, item);
    let indent4 = repeat_char(' ', 2 * (if s4.depth > 0 {
        (s4.depth - 1) as nat
    } else {
        0
    }));
    assert(s5.out == (s4.out + indent4) + decimal((k + 1) as nat) + ". "@);
    assert(s5.out =~= (s4.out + indent4) + (decimal((k + 1) as nat) + ". "@));
    lemma_ends_with_concat(s4.out + indent4, decimal((k + 1) as nat) + ". "@);
    lemma_tg_steps_concat(s, seq![item] + text + sub, tail);
    lemma_tg_steps_concat(s, seq![item] + text, sub);
    lemma_tg_steps_concat(s, seq![item], text);
    reveal_with_fuel(tg_steps, 3);
    assert(tail[0] == end_item);
    assert(tail.drop_first()[0] == item);
    assert(tail.drop_first().drop_first() =~= Seq::<MdEvent<Seq<char>>>::empty());
    assert(tg_steps(s, all) == s5);
    assert(s5.indices =~= s.indices.update(s.indices.len() - 1, (k + 2) as u64));
}

/// Law: inside a table, text and inline code both add their text to the
/// cell being filled, and a line break adds a space; nothing else of the
/// buffer changes.
pub proof fn lemma_table_cell_text(b: TableBuf, t: Seq<char>)
    ensures
        table_step(b, MdEvent::Text(t)) == (TableBuf { cell: b.cell + t, ..b }),
        table_step(b, MdEvent::Code(t)) == (TableBuf { cell: b.cell + t, ..b }),
        table_step(b, MdEvent::SoftBreak) == (TableBuf { cell: b.cell.push(' '), ..b }),
        table_step(b, MdEvent::HardBreak) == (TableBuf { cell: b.cell.push(' '), ..b }),
{
}

/// Whether `e` is content of a table cell that carries text: text, inline
/// code or a line break.
pub open spec fn is_cell_content(e: MdEvent<Seq<char>>) -> bool {
    e is Text || e is Code || e is SoftBreak || e is HardBreak
}

/// The text that cell content carries: text and code as they are, each
/// line break as a space.
pub open spec fn cell_content_text(events: Seq<MdEvent<Seq<char>>>) -> Seq<char>
    decreases events.len(),
{
    if events.len() == 0 {
        seq![]
    } else {
        (match events[0] {
            MdEvent::Text(t) => t,
            MdEvent::Code(t) => t,
            _ => seq![' '],
        }) + cell_content_text(events.drop_first())
    }
}

/// The table buffer after `events`, first event first.
pub open spec fn table_steps(b: TableBuf, events: Seq<MdEvent<Seq<char>>>) -> TableBuf
    decreases events.len(),
{
    if events.len() == 0 {
        b
    } else {
        table_steps(table_step(b, events[0]), events.drop_first())
    }
}

proof fn lemma_table_steps_concat(b: TableBuf, x: Seq<MdEvent<Seq<char>>>, y: Seq<MdEvent<Seq<char>>>)
    ensures
        table_steps(b, x + y) == table_steps(table_steps(b, x), y),
    decreases x.len(),
{
    if x.len() == 0 {
        assert(x + y =~= y);
    } else {
        assert((x + y)[0] == x[0]);
        assert((x + y).drop_first() =~= x.drop_first() + y);
        lemma_table_steps_concat(table_step(b, x[0]), x.drop_first(), y);
    }
}

proof fn lemma_table_steps_content(b: TableBuf, events: Seq<MdEvent<Seq<char>>>)
    requires
        forall|i: int| 0 <= i < events.len() ==> is_cell_content(#[trigger] events[i]),
    ensures
        table_steps(b, events) == (TableBuf { cell: b.cell + cell_content_text(events), ..b }),
    decreases events.len(),
{
    if events.len() == 0 {
        assert(b.cell + Seq::<char>::empty() =~= b.cell);
    } else {
        let e = events[0];
        assert(is_cell_content(e));
        let rest = events.drop_first();
        assert forall|i: int| 0 <= i < rest.len() implies is_cell_content(#[trigger] rest[i]) by {
            assert(rest[i] == events[i + 1]);
        }
        let b1 = table_step(b, e);
        lemma_table_steps_content(b1, rest);
        let x: Seq<char> = match e {
            MdEvent::Text(t) => t,
            MdEvent::Code(t) => t,
            _ => seq![' '],
        };
        assert(b1.cell =~= b.cell + x);
        assert(b.cell + x + cell_content_text(rest) =~= b.cell + cell_content_text(events));
    }
}

/// Law: a table cell holds everything its text and inline-code events
/// carry, in order, with a space for each line break; the cell is added to
/// the end of the row.
pub proof fn lemma_table_cell_collects(b: TableBuf, events: Seq<MdEvent<Seq<char>>>)
    requires
        forall|i: int| 0 <= i < events.len() ==> is_cell_content(#[trigger] events[i]),
    ensures
        table_steps(
            b,
            seq![MdEvent::Start(MdTag::Cell)] + events + seq![MdEvent::End(MdTag::Cell)],
        ) == (TableBuf { row: b.row.push(cell_content_text(events)), cell: seq![], ..b }),
{
    let start = MdEvent::Start(MdTag::Cell);
    let end = MdEvent::End(MdTag::Cell);
    lemma_table_steps_concat(b, seq![start] + events, seq![end]);
    lemma_table_steps_concat(b, seq![start], events);
    reveal_with_fuel(table_steps, 2);
    assert(seq![start][0] == start);
    assert(seq![start].drop_first() =~= Seq::<MdEvent<Seq<char>>>::empty());
    assert(seq![end][0] == end);
    assert(seq![end].drop_first() =~= Seq::<MdEvent<Seq<char>>>::empty());
    let b1 = table_step(b, start);
    lemma_table_steps_content(b1, events);
    assert(b1.cell + cell_content_text(events) =~= cell_content_text(events));
}

/// Law: the remaining events outside a table: inline code becomes
/// `<code>`, its escaped text and `</code>`; a paragraph ends in a blank
/// line; a rule becomes `---` on its own line; an item ends with a newline
/// unless the output already does; a table starts collecting cells (with no
/// rows yet) and writes nothing; a paragraph start writes nothing.
pub proof fn lemma_telegram_other_steps(s: TgState, c: Seq<char>)
    requires
        !s.in_table,
    ensures
        tg_step(s, MdEvent::Code(c)) == (TgState {
            out: s.out + ("<code>"@ + escape_html_spec(c) + "</code>"@),
            ..s
        }),
        tg_step(s, MdEvent::End(MdTag::Paragraph)) == (TgState { out: s.out + "\n\n"@, ..s }),
        tg_step(s, MdEvent::Rule) == (TgState { out: s.out + "---\n"@, ..s }),
        tg_step(s, MdEvent::End(MdTag::Item)) == (if s.out.len() > 0 && s.out.last() == '\n' {
            s
        } else {
            TgState { out: s.out.push('\n'), ..s }
        }),
        tg_step(s, MdEvent::Start(MdTag::Table)) == (TgState {
            in_table: true,
            table: TableBuf { rows: seq![], ..s.table },
            ..s
        }),
        tg_step(s, MdEvent::Start(MdTag::Paragraph)) == s,
{
    assert(s.out + seq!['\n'] =~= s.out.push('\n'));
}

/// Law: inside a table, the table's end writes its collected rows as an
/// aligned, escaped `<pre>` block and leaves the table; every other event
/// only feeds the cell collector and writes nothing.
pub proof fn lemma_telegram_table_steps(s: TgState, e: MdEvent<Seq<char>>)
    requires
        s.in_table,
    ensures
        tg_step(s, MdEvent::End(MdTag::Table)) == (TgState {
            out: s.out + render_table_spec(s.table.rows, "<pre>\n"@, "</pre>\n\n"@, true),
            in_table: false,
            table: TableBuf { rows: seq![], ..s.table },
            ..s
        }),
        !(e matches MdEvent::End(MdTag::Table)) ==> tg_step(s, e) == (TgState {
            table: table_step(s.table, e),
            ..s
        }),
{
}

} // verus!

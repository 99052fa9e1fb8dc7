//! Between a terminal program and the window that shows it: the bytes that a
//! key stands for, and the text and the styles that a screen is drawn with.
use crate::ansi;
use crate::ansi::{Cell, Color, ScreenBuffer};
use crate::text;
use vstd::prelude::*;

verus! {

// ---------------------------------------------------------------------------
// Keys
// ---------------------------------------------------------------------------

/// The bytes to send for a character that was typed: its UTF-8 encoding.
pub fn key_event_bytes_from_char(c: char) -> (r: Option<Vec<u8>>)
    ensures
        r matches Some(bytes) && bytes@ == vstd::utf8::encode_utf8(seq![c]),
{
    let mut s = String::new();
    s.push(c);
    assert(s@ =~= seq![c]);
    Some(s.as_str().as_bytes_vec())
}

/// Page up, by its virtual key code, as are the keys that follow.
pub const KEY_PRIOR: u32 = 0x21;

/// Page down.
pub const KEY_NEXT: u32 = 0x22;

pub const KEY_END: u32 = 0x23;

pub const KEY_HOME: u32 = 0x24;

pub const KEY_LEFT: u32 = 0x25;

pub const KEY_UP: u32 = 0x26;

pub const KEY_RIGHT: u32 = 0x27;

pub const KEY_DOWN: u32 = 0x28;

pub const KEY_DELETE: u32 = 0x2E;

/// The escape sequence of a key that types no character; none for a key that
/// has no such sequence.
pub open spec fn key_sequence(vk: u32) -> Option<Seq<u8>> {
    if vk == KEY_UP {
        Some(seq![0x1b, 0x5b, 0x41])
    } else if vk == KEY_DOWN {
        Some(seq![0x1b, 0x5b, 0x42])
    } else if vk == KEY_RIGHT {
        Some(seq![0x1b, 0x5b, 0x43])
    } else if vk == KEY_LEFT {
        Some(seq![0x1b, 0x5b, 0x44])
    } else if vk == KEY_HOME {
        Some(seq![0x1b, 0x5b, 0x48])
    } else if vk == KEY_END {
        Some(seq![0x1b, 0x5b, 0x46])
    } else if vk == KEY_DELETE {
        Some(seq![0x1b, 0x5b, 0x33, 0x7e])
    } else if vk == KEY_PRIOR {
        Some(seq![0x1b, 0x5b, 0x35, 0x7e])
    } else if vk == KEY_NEXT {
        Some(seq![0x1b, 0x5b, 0x36, 0x7e])
    } else {
        None
    }
}

/// The bytes to send for a key that types no character.
pub fn key_event_bytes_from_vk(vk: u32) -> (r: Option<Vec<u8>>)
    ensures
        match r {
            Some(bytes) => key_sequence(vk) == Some(bytes@),
            None => key_sequence(vk) is None,
        },
{
    let bytes: Vec<u8> = if vk == KEY_UP {
        vec![0x1b, 0x5b, 0x41]
    } else if vk == KEY_DOWN {
        vec![0x1b, 0x5b, 0x42]
    } else if vk == KEY_RIGHT {
        vec![0x1b, 0x5b, 0x43]
    } else if vk == KEY_LEFT {
        vec![0x1b, 0x5b, 0x44]
    } else if vk == KEY_HOME {
        vec![0x1b, 0x5b, 0x48]
    } else if vk == KEY_END {
        vec![0x1b, 0x5b, 0x46]
    } else if vk == KEY_DELETE {
        vec![0x1b, 0x5b, 0x33, 0x7e]
    } else if vk == KEY_PRIOR {
        vec![0x1b, 0x5b, 0x35, 0x7e]
    } else if vk == KEY_NEXT {
        vec![0x1b, 0x5b, 0x36, 0x7e]
    } else {
        return None;
    };
    assert(bytes@ =~= key_sequence(vk)->0);
    Some(bytes)
}

// ---------------------------------------------------------------------------
// Drawing
// ---------------------------------------------------------------------------

/// The text of a row of styled runs.
pub open spec fn row_text(runs: Seq<(Seq<char>, Color, bool)>) -> Seq<char>
    decreases runs.len(),
{
    if runs.len() == 0 {
        seq![]
    } else {
        row_text(runs.drop_last()) + runs.last().0
    }
}

/// The runs without the white space at their end; a run that is left with
/// nothing is left out.
pub open spec fn trimmed(runs: Seq<(Seq<char>, Color, bool)>) -> Seq<(Seq<char>, Color, bool)>
    decreases runs.len(),
{
    if runs.len() == 0 {
        runs
    } else {
        let (t, color, bold) = runs.last();
        let short = text::trim_end_of(t);
        if short.len() == t.len() {
            runs
        } else if short.len() == 0 {
            trimmed(runs.drop_last())
        } else {
            runs.drop_last().push((short, color, bold))
        }
    }
}

/// Takes the white space off the end of a row of styled runs.
pub fn trim_trailing_whitespace(runs: &mut Vec<(String, Color, bool)>)
    ensures
        ansi::run_views(final(runs)@) == trimmed(ansi::run_views(old(runs)@)),
{
    let ghost whole = trimmed(ansi::run_views(runs@));
    while runs.len() > 0
        invariant
            whole == trimmed(ansi::run_views(old(runs)@)),
            trimmed(ansi::run_views(runs@)) == whole,
        decreases runs@.len(),
    {
        let n: usize = runs.len();
        let ghost before = ansi::run_views(runs@);
        let s = text::chars_of(runs[n - 1].0.as_str());
        let short = text::trim_end(s.as_slice());
        assert(before.last() == (s@, runs@[n - 1].1, runs@[n - 1].2));
        if short.len() == s.len() {
            return;
        }
        let color = runs[n - 1].1;
        let bold = runs[n - 1].2;
        runs.pop();
        assert(ansi::run_views(runs@) =~= before.drop_last());
        if short.len() > 0 {
            let run = (text::string_of(short), color, bold);
            runs.push(run);
            assert(ansi::run_views(runs@) =~= before.drop_last().push((short@, color, bold)));
            return;
        }
    }
    assert(ansi::run_views(runs@) =~= whole);
}

/// How many rows there are up to the last that is not empty; one at least,
/// where there are any.
pub open spec fn content_rows(rows: Seq<Seq<(Seq<char>, Color, bool)>>) -> nat
    decreases rows.len(),
{
    if rows.len() <= 1 || rows.last().len() > 0 {
        rows.len()
    } else {
        content_rows(rows.drop_last())
    }
}

/// The rows that are drawn: without the white space at their ends, up to the
/// last that is not empty.
pub open spec fn shown_rows(rows: Seq<Seq<(Seq<char>, Color, bool)>>) -> Seq<Seq<(Seq<char>, Color, bool)>> {
    let short = rows.map_values(|runs: Seq<(Seq<char>, Color, bool)>| trimmed(runs));
    short.take(content_rows(short) as int)
}

/// The text of each of the rows.
pub open spec fn row_texts(rows: Seq<Seq<(Seq<char>, Color, bool)>>) -> Seq<Seq<char>> {
    rows.map_values(|runs: Seq<(Seq<char>, Color, bool)>| row_text(runs))
}

/// The text that is drawn.
pub open spec fn shown_text(rows: Seq<Seq<(Seq<char>, Color, bool)>>) -> Seq<char> {
    text::join_with(row_texts(rows), "\r\n"@)
}

/// Where line number `k` begins in the text that the lines make up.
pub open spec fn line_start(lines: Seq<Seq<char>>, k: nat) -> nat
    decreases k,
{
    if k == 0 {
        0
    } else {
        line_start(lines, (k - 1) as nat) + lines[k - 1].len() + 2
    }
}

/// A stretch of the text, by its ends, and the style to draw it in.
#[derive(Debug, Clone, Copy, PartialEq)]
pub struct Format {
    pub from: u32,
    pub to: u32,
    pub color: Option<(u8, u8, u8)>,
    pub bold: bool,
}

/// The contents of a `Format`.
pub struct FormatView {
    pub from: nat,
    pub to: nat,
    pub color: Option<(u8, u8, u8)>,
    pub bold: bool,
}

impl View for Format {
    type V = FormatView;

    open spec fn view(&self) -> FormatView {
        FormatView { from: self.from as nat, to: self.to as nat, color: self.color, bold: self.bold }
    }
}

/// The contents of each of a list of formats.
pub open spec fn format_views(formats: Seq<Format>) -> Seq<FormatView> {
    formats.map_values(|f: Format| f@)
}

/// The run is drawn otherwise than plain text is.
pub open spec fn is_styled(run: (Seq<char>, Color, bool)) -> bool {
    (run.1 != Color::Default || run.2) && run.0.len() > 0
}

/// The style of a run that begins at `from`.
pub open spec fn run_format(run: (Seq<char>, Color, bool), from: nat) -> FormatView {
    FormatView { from: from, to: from + run.0.len(), color: ansi::rgb_of(run.1), bold: run.2 }
}

/// The styles of a row that begins at `start`.
pub open spec fn row_formats(runs: Seq<(Seq<char>, Color, bool)>, start: nat) -> Seq<FormatView>
    decreases runs.len(),
{
    if runs.len() == 0 {
        seq![]
    } else {
        let before = row_formats(runs.drop_last(), start);
        if is_styled(runs.last()) {
            before.push(run_format(runs.last(), start + row_text(runs.drop_last()).len()))
        } else {
            before
        }
    }
}

/// The styles of the first `n` rows.
pub open spec fn formats_of(rows: Seq<Seq<(Seq<char>, Color, bool)>>, n: nat) -> Seq<FormatView>
    decreases n,
{
    if n == 0 {
        seq![]
    } else {
        formats_of(rows, (n - 1) as nat) + row_formats(rows[n - 1], line_start(row_texts(rows), (n - 1) as nat))
    }
}

/// What a screen is drawn with: its text, the styles of its parts, and where
/// the text ends.
#[derive(Debug, Clone, PartialEq)]
pub struct Rendering {
    pub text: String,
    pub formats: Vec<Format>,
    pub end: u32,
}

/// The runs of each row of a screen.
pub open spec fn grid_runs(grid: Seq<Seq<Cell>>) -> Seq<Seq<(Seq<char>, Color, bool)>> {
    grid.map_values(|row: Seq<Cell>| ansi::runs_of(row))
}

/// The contents of each of a list of rows.
pub open spec fn row_views(rows: Seq<Vec<(String, Color, bool)>>) -> Seq<Seq<(Seq<char>, Color, bool)>> {
    rows.map_values(|runs: Vec<(String, Color, bool)>| ansi::run_views(runs@))
}

proof fn lemma_row_text_len(row: Seq<Cell>)
    ensures
        row_text(ansi::runs_of(row)).len() == row.len(),
    decreases row.len(),
{
    if row.len() > 0 {
        lemma_row_text_len(row.drop_last());
        let before = ansi::runs_of(row.drop_last());
        let runs = ansi::runs_of(row);
        if runs.len() == before.len() {
            assert(runs.drop_last() =~= before.drop_last());
        } else {
            assert(runs.drop_last() =~= before);
        }
    }
}

proof fn lemma_trim_end_len(s: Seq<char>)
    ensures
        text::trim_end_of(s).len() <= s.len(),
    decreases s.len(),
{
    if s.len() > 0 && text::is_space(s.last()) {
        lemma_trim_end_len(s.drop_last());
    }
}

proof fn lemma_trimmed_len(runs: Seq<(Seq<char>, Color, bool)>)
    ensures
        row_text(trimmed(runs)).len() <= row_text(runs).len(),
    decreases runs.len(),
{
    if runs.len() > 0 {
        let (t, color, bold) = runs.last();
        let short = text::trim_end_of(t);
        lemma_trim_end_len(t);
        lemma_trimmed_len(runs.drop_last());
        if 0 < short.len() < t.len() {
            let cut = runs.drop_last().push((short, color, bold));
            assert(cut.drop_last() =~= runs.drop_last());
        }
    }
}

proof fn lemma_content_rows(rows: Seq<Seq<(Seq<char>, Color, bool)>>)
    ensures
        content_rows(rows) <= rows.len(),
        rows.len() > 0 ==> content_rows(rows) > 0,
    decreases rows.len(),
{
    if rows.len() > 1 && rows.last().len() == 0 {
        lemma_content_rows(rows.drop_last());
    }
}

proof fn lemma_line_start_bound(lines: Seq<Seq<char>>, k: nat, cols: nat)
    requires
        k <= lines.len(),
        forall|i: int| 0 <= i < lines.len() ==> (#[trigger] lines[i]).len() <= cols,
    ensures
        line_start(lines, k) <= k * (cols + 2),
    decreases k,
{
    if k > 0 {
        lemma_line_start_bound(lines, (k - 1) as nat, cols);
        assert((k - 1) * (cols + 2) + cols + 2 == k * (cols + 2)) by (nonlinear_arith);
    }
}

proof fn lemma_line_start_prefix(lines: Seq<Seq<char>>, k: nat)
    requires
        k < lines.len(),
    ensures
        line_start(lines.drop_last(), k) == line_start(lines, k),
    decreases k,
{
    if k > 0 {
        lemma_line_start_prefix(lines, (k - 1) as nat);
    }
}

proof fn lemma_joined_len(lines: Seq<Seq<char>>)
    requires
        lines.len() > 0,
    ensures
        text::join_with(lines, "\r\n"@).len() == line_start(lines, (lines.len() - 1) as nat) + lines.last().len(),
    decreases lines.len(),
{
    reveal_strlit("\r\n");
    if lines.len() > 1 {
        lemma_joined_len(lines.drop_last());
        lemma_line_start_prefix(lines, (lines.len() - 2) as nat);
    }
}

/// Puts together the text and the styles that a screen is drawn with.
pub fn redraw_pty_output(screen: &ScreenBuffer) -> (r: Rendering)
    requires
        screen.wf(),
    ensures
        r.text@ == shown_text(shown_rows(grid_runs(screen@.grid))),
        format_views(r.formats@) == formats_of(
            shown_rows(grid_runs(screen@.grid)),
            shown_rows(grid_runs(screen@.grid)).len(),
        ),
        r.end == shown_text(shown_rows(grid_runs(screen@.grid))).len(),
{
    proof {
        screen.lemma_wf();
    }
    let ghost all = grid_runs(screen@.grid);
    let ghost short = all.map_values(|runs: Seq<(Seq<char>, Color, bool)>| trimmed(runs));
    let ghost cols = screen@.cols;
    let given = screen.rows_as_runs();
    let mut rows = shown(given);
    assert(row_views(given@) =~= all);
    let ghost v = row_views(rows@);
    assert(v == shown_rows(all));
    let ghost lines = row_texts(v);
    proof {
        lemma_content_rows(short);
        assert forall|i: int| 0 <= i < lines.len() implies (#[trigger] lines[i]).len() <= cols by {
            assert(short[i] == trimmed(ansi::runs_of(screen@.grid[i])));
            assert(v[i] == short[i]);
            lemma_row_text_len(screen@.grid[i]);
            lemma_trimmed_len(ansi::runs_of(screen@.grid[i]));
        }
        assert(lines.len() <= 0xffff);
    }
    let mut texts: Vec<String> = Vec::new();
    let mut formats: Vec<Format> = Vec::new();
    let mut offset: u32 = 0;
    let mut k: usize = 0;
    assert(text::string_views(texts@) =~= lines.take(0));
    assert(format_views(formats@) =~= formats_of(v, 0));
    while k < rows.len()
        invariant
            v == row_views(rows@),
            lines == row_texts(v),
            lines.len() == rows@.len(),
            rows@.len() <= 0xffff,
            cols <= 0xffff,
            forall|i: int| 0 <= i < lines.len() ==> (#[trigger] lines[i]).len() <= cols,
            k <= rows@.len(),
            text::string_views(texts@) == lines.take(k as int),
            format_views(formats@) == formats_of(v, k as nat),
            0 < rows@.len(),
            offset == if k < rows@.len() {
                line_start(lines, k as nat)
            } else {
                line_start(lines, (k - 1) as nat) + lines[k - 1].len()
            },
        decreases rows@.len() - k,
    {
        proof {
            lemma_line_start_bound(lines, k as nat, cols);
            assert(k * (cols + 2) <= 65534 * 65537) by (nonlinear_arith)
                requires
                    k <= 65534,
                    cols <= 0xffff,
            ;
            assert(v[k as int] == ansi::run_views(rows@[k as int]@));
            assert(lines[k as int] == row_text(v[k as int]));
        }
        let ghost before = formats@;
        let ghost so_far = texts@;
        let line = row_string(rows[k].as_slice(), offset, &mut formats);
        let ghost start = offset;
        assert(format_views(formats@) =~= formats_of(v, (k + 1) as nat));
        texts.push(line.0);
        assert(text::string_views(texts@) =~= text::string_views(so_far).push(lines[k as int]));
        assert(lines.take(k + 1) =~= lines.take(k as int).push(lines[k as int]));
        offset = line.1;
        k += 1;
        if k < rows.len() {
            offset = offset + 2;
        }
    }
    assert(lines.take(k as int) =~= lines);
    let whole = text::join_strings(texts.as_slice(), "\r\n");
    proof {
        lemma_joined_len(lines);
    }
    Rendering { text: whole, formats: formats, end: offset }
}

/// The text of a row that begins at `start`, and where it ends; its styles are
/// appended to `formats`.
fn row_string(runs: &[(String, Color, bool)], start: u32, formats: &mut Vec<Format>) -> (r: (String, u32))
    requires
        start + row_text(ansi::run_views(runs@)).len() <= u32::MAX,
    ensures
        r.0@ == row_text(ansi::run_views(runs@)),
        r.1 == start + row_text(ansi::run_views(runs@)).len(),
        format_views(final(formats)@) == format_views(old(formats)@) + row_formats(
            ansi::run_views(runs@),
            start as nat,
        ),
{
    let ghost v = ansi::run_views(runs@);
    let ghost before = format_views(formats@);
    let mut out = String::new();
    let mut offset: u32 = start;
    let mut i: usize = 0;
    assert(v.take(0) =~= seq![]);
    assert(format_views(formats@) =~= before + row_formats(v.take(0), start as nat));
    while i < runs.len()
        invariant
            v == ansi::run_views(runs@),
            start + row_text(v).len() <= u32::MAX,
            i <= runs@.len(),
            out@ == row_text(v.take(i as int)),
            offset == start + row_text(v.take(i as int)).len(),
            format_views(formats@) == before + row_formats(v.take(i as int), start as nat),
        decreases runs@.len() - i,
    {
        let ghost so_far = formats@;
        let run_text = runs[i].0.as_str();
        let color = runs[i].1;
        let bold = runs[i].2;
        let chars = text::chars_of(run_text);
        proof {
            assert(v[i as int] == (chars@, color, bold));
            assert(v.take(i + 1).drop_last() =~= v.take(i as int));
            lemma_row_text_prefix(v, i + 1);
        }
        let len: u32 = chars.len() as u32;
        if (color != Color::Default || bold) && len > 0 {
            let format = Format { from: offset, to: offset + len, color: color.rgb(), bold: bold };
            formats.push(format);
            assert(format@ == run_format(v[i as int], offset as nat));
            assert(format_views(formats@) =~= format_views(so_far).push(format@));
        }
        out.append(run_text);
        offset = offset + len;
        i += 1;
        assert(format_views(formats@) =~= before + row_formats(v.take(i as int), start as nat));
    }
    assert(v.take(i as int) =~= v);
    (out, offset)
}

proof fn lemma_row_text_prefix(runs: Seq<(Seq<char>, Color, bool)>, i: int)
    requires
        0 <= i <= runs.len(),
    ensures
        row_text(runs.take(i)).len() <= row_text(runs).len(),
        row_text(runs).subrange(0, row_text(runs.take(i)).len() as int) == row_text(runs.take(i)),
    decreases runs.len(),
{
    let part = row_text(runs.take(i));
    if i == runs.len() {
        assert(runs.take(i) =~= runs);
        assert(row_text(runs).subrange(0, part.len() as int) =~= part);
    } else {
        let init = runs.drop_last();
        lemma_row_text_prefix(init, i);
        assert(init.take(i) =~= runs.take(i));
        assert(row_text(runs).subrange(0, part.len() as int) =~= row_text(init).subrange(0, part.len() as int));
    }
}

/// The rows that are drawn.
fn shown(rows: Vec<Vec<(String, Color, bool)>>) -> (r: Vec<Vec<(String, Color, bool)>>)
    requires
        rows@.len() > 0,
    ensures
        row_views(r@) == shown_rows(row_views(rows@)),
        0 < r@.len() <= rows@.len(),
{
    let ghost v = row_views(rows@);
    let ghost short = v.map_values(|runs: Seq<(Seq<char>, Color, bool)>| trimmed(runs));
    let mut out: Vec<Vec<(String, Color, bool)>> = Vec::new();
    assert(row_views(out@) =~= short.take(0));
    for row in it: rows
        invariant
            v == row_views(it.seq()),
            short == v.map_values(|runs: Seq<(Seq<char>, Color, bool)>| trimmed(runs)),
            row_views(out@) == short.take(it.index() as int),
    {
        let ghost i = it.index() as int;
        let ghost before = out@;
        assert(v[i] == ansi::run_views(row@));
        let mut runs = row;
        trim_trailing_whitespace(&mut runs);
        out.push(runs);
        assert(row_views(out@) =~= row_views(before).push(short[i]));
        assert(short.take(i + 1) =~= short.take(i).push(short[i]));
    }
    assert(short.take(short.len() as int) =~= short);
    assert(row_views(out@) == short);
    while out.len() > 1 && out[out.len() - 1].len() == 0
        invariant
            0 < out@.len() <= short.len(),
            row_views(out@) == short.take(out@.len() as int),
            content_rows(short.take(out@.len() as int)) == content_rows(short),
        decreases out@.len(),
    {
        let ghost n = out@.len() as int;
        let ghost before = row_views(out@);
        assert(before.last() == ansi::run_views(out@[n - 1]@));
        out.pop();
        assert(row_views(out@) =~= before.drop_last());
        assert(short.take(n).drop_last() =~= short.take(n - 1));
    }
    assert(row_views(out@).last() == ansi::run_views(out@[out@.len() - 1]@));
    out
}

// ---------------------------------------------------------------------------
// Laws
// ---------------------------------------------------------------------------

proof fn lemma_trim_end_of_sum(a: Seq<char>, t: Seq<char>)
    ensures
        text::trim_end_of(a + t) == if text::trim_end_of(t).len() == 0 {
            text::trim_end_of(a)
        } else {
            a + text::trim_end_of(t)
        },
    decreases t.len(),
{
    if t.len() == 0 {
        assert(a + t =~= a);
    } else {
        assert((a + t).last() == t.last());
        if text::is_space(t.last()) {
            assert((a + t).drop_last() =~= a + t.drop_last());
            lemma_trim_end_of_sum(a, t.drop_last());
        }
    }
}

proof fn lemma_trim_end_whole(t: Seq<char>)
    requires
        text::trim_end_of(t).len() == t.len(),
    ensures
        text::trim_end_of(t) == t,
{
    if t.len() > 0 && text::is_space(t.last()) {
        lemma_trim_end_len(t.drop_last());
    }
}

/// The text of a row of runs that has been trimmed is the trimmed text of the
/// row, where no run is empty to begin with.
pub proof fn lemma_trimmed(runs: Seq<(Seq<char>, Color, bool)>)
    requires
        forall|i: int| 0 <= i < runs.len() ==> (#[trigger] runs[i]).0.len() > 0,
    ensures
        row_text(trimmed(runs)) == text::trim_end_of(row_text(runs)),
    decreases runs.len(),
{
    if runs.len() > 0 {
        let (t, color, bold) = runs.last();
        let init = runs.drop_last();
        let short = text::trim_end_of(t);
        lemma_trimmed(init);
        lemma_trim_end_of_sum(row_text(init), t);
        if short.len() == t.len() {
            lemma_trim_end_whole(t);
            assert(runs[runs.len() - 1].0.len() > 0);
        } else if short.len() > 0 {
            assert(init.push((short, color, bold)).drop_last() =~= init);
        }
    }
}

proof fn lemma_line_at(lines: Seq<Seq<char>>, k: nat)
    requires
        k < lines.len(),
    ensures
        line_start(lines, k) + lines[k as int].len() <= text::join_with(lines, "\r\n"@).len(),
        text::join_with(lines, "\r\n"@).subrange(
            line_start(lines, k) as int,
            line_start(lines, k) + lines[k as int].len() as int,
        ) == lines[k as int],
    decreases lines.len(),
{
    reveal_strlit("\r\n");
    let joined = text::join_with(lines, "\r\n"@);
    let from = line_start(lines, k) as int;
    let to = from + lines[k as int].len();
    lemma_joined_len(lines);
    if k == lines.len() - 1 {
        assert(joined.subrange(from, to) =~= lines[k as int]);
    } else {
        let init = lines.drop_last();
        lemma_line_at(init, k);
        lemma_line_start_prefix(lines, k);
        assert(joined.subrange(from, to) =~= text::join_with(init, "\r\n"@).subrange(from, to));
    }
}

proof fn lemma_run_at(runs: Seq<(Seq<char>, Color, bool)>, i: int)
    requires
        0 <= i < runs.len(),
    ensures
        row_text(runs.take(i)).len() + runs[i].0.len() <= row_text(runs).len(),
        row_text(runs).subrange(
            row_text(runs.take(i)).len() as int,
            row_text(runs.take(i)).len() + runs[i].0.len() as int,
        ) == runs[i].0,
{
    let whole = row_text(runs);
    let head = row_text(runs.take(i));
    let more = row_text(runs.take(i + 1));
    lemma_row_text_prefix(runs, i + 1);
    assert(runs.take(i + 1).drop_last() =~= runs.take(i));
    assert(more == head + runs[i].0);
    let to = head.len() + runs[i].0.len();
    assert forall|j: int| head.len() <= j < to implies whole[j] == runs[i].0[j - head.len()] by {
        assert(whole.subrange(0, more.len() as int)[j] == more[j]);
    }
    assert(whole.subrange(head.len() as int, to as int) =~= runs[i].0);
}

/// Where run number `i` of row number `k` begins in the text that is drawn.
pub open spec fn run_start(rows: Seq<Seq<(Seq<char>, Color, bool)>>, k: int, i: int) -> nat {
    line_start(row_texts(rows), k as nat) + row_text(rows[k].take(i)).len()
}

/// Every run stands in the text that is drawn at the place where it is said to
/// begin.
pub proof fn lemma_run_place(rows: Seq<Seq<(Seq<char>, Color, bool)>>, k: int, i: int)
    requires
        0 <= k < rows.len(),
        0 <= i < rows[k].len(),
    ensures
        run_start(rows, k, i) + rows[k][i].0.len() <= shown_text(rows).len(),
        shown_text(rows).subrange(
            run_start(rows, k, i) as int,
            run_start(rows, k, i) + rows[k][i].0.len() as int,
        ) == rows[k][i].0,
{
    let lines = row_texts(rows);
    let shown = shown_text(rows);
    let start = line_start(lines, k as nat) as int;
    let head = row_text(rows[k].take(i)).len() as int;
    let run = rows[k][i].0;
    lemma_line_at(lines, k as nat);
    lemma_run_at(rows[k], i);
    assert(lines[k] == row_text(rows[k]));
    let from = run_start(rows, k, i) as int;
    let line = shown.subrange(start, start + lines[k].len());
    assert forall|j: int| 0 <= j < run.len() implies shown[from + j] == run[j] by {
        assert(line[head + j] == shown[from + j]);
        assert(row_text(rows[k]).subrange(head, head + run.len())[j] == run[j]);
    }
    assert(shown.subrange(from, from + run.len()) =~= run);
}

proof fn lemma_row_formats(runs: Seq<(Seq<char>, Color, bool)>, start: nat, f: FormatView)
    ensures
        row_formats(runs, start).contains(f) <==> exists|i: int|
            0 <= i < runs.len() && is_styled(#[trigger] runs[i]) && f == run_format(
                runs[i],
                start + row_text(runs.take(i)).len(),
            ),
    decreases runs.len(),
{
    if runs.len() > 0 {
        let init = runs.drop_last();
        let last = runs.len() - 1;
        lemma_row_formats(init, start, f);
        let before = row_formats(init, start);
        let all = row_formats(runs, start);
        assert(runs.take(last) =~= init);
        if all.contains(f) {
            let j = choose|j: int| 0 <= j < all.len() && all[j] == f;
            if j < before.len() {
                assert(before[j] == f);
                let i = choose|i: int|
                    0 <= i < init.len() && is_styled(#[trigger] init[i]) && f == run_format(
                        init[i],
                        start + row_text(init.take(i)).len(),
                    );
                assert(init.take(i) =~= runs.take(i));
                assert(is_styled(runs[i]));
            } else {
                assert(is_styled(runs[last]));
            }
        }
        if exists|i: int|
            0 <= i < runs.len() && is_styled(#[trigger] runs[i]) && f == run_format(
                runs[i],
                start + row_text(runs.take(i)).len(),
            ) {
            let i = choose|i: int|
                0 <= i < runs.len() && is_styled(#[trigger] runs[i]) && f == run_format(
                    runs[i],
                    start + row_text(runs.take(i)).len(),
                );
            if i < last {
                assert(init.take(i) =~= runs.take(i));
                assert(is_styled(init[i]));
                let j = choose|j: int| 0 <= j < before.len() && before[j] == f;
                assert(all[j] == f);
            } else {
                assert(all[all.len() - 1] == f);
            }
        }
    }
}

/// The styles that a screen is drawn with are those of the runs that are not
/// plain, each at the place of its run, and no others.
pub proof fn lemma_formats(rows: Seq<Seq<(Seq<char>, Color, bool)>>, n: nat, f: FormatView)
    requires
        n <= rows.len(),
    ensures
        formats_of(rows, n).contains(f) <==> exists|k: int, i: int|
            0 <= k < n && 0 <= i < rows[k].len() && is_styled(#[trigger] rows[k][i]) && f == run_format(
                rows[k][i],
                run_start(rows, k, i),
            ),
    decreases n,
{
    if n > 0 {
        let m = (n - 1) as nat;
        let last = m as int;
        lemma_formats(rows, m, f);
        let start = line_start(row_texts(rows), m);
        lemma_row_formats(rows[last], start, f);
        let before = formats_of(rows, m);
        let row = row_formats(rows[last], start);
        let all = formats_of(rows, n);
        if all.contains(f) {
            let j = choose|j: int| 0 <= j < all.len() && all[j] == f;
            if j < before.len() {
                assert(before[j] == f);
                let (k, i) = choose|k: int, i: int|
                    0 <= k < m && 0 <= i < rows[k].len() && is_styled(#[trigger] rows[k][i]) && f == run_format(
                        rows[k][i],
                        run_start(rows, k, i),
                    );
                assert(is_styled(rows[k][i]));
            } else {
                assert(row[j - before.len()] == f);
                let i = choose|i: int|
                    0 <= i < rows[last].len() && is_styled(#[trigger] rows[last][i]) && f == run_format(
                        rows[last][i],
                        start + row_text(rows[last].take(i)).len(),
                    );
                assert(is_styled(rows[last][i]));
            }
        }
        if exists|k: int, i: int|
            0 <= k < n && 0 <= i < rows[k].len() && is_styled(#[trigger] rows[k][i]) && f == run_format(
                rows[k][i],
                run_start(rows, k, i),
            ) {
            let (k, i) = choose|k: int, i: int|
                0 <= k < n && 0 <= i < rows[k].len() && is_styled(#[trigger] rows[k][i]) && f == run_format(
                    rows[k][i],
                    run_start(rows, k, i),
                );
            if k < last {
                let j = choose|j: int| 0 <= j < before.len() && before[j] == f;
                assert(all[j] == f);
            } else {
                let j = choose|j: int| 0 <= j < row.len() && row[j] == f;
                assert(all[before.len() + j] == f);
            }
        }
    }
}

/// The keys that move the cursor, delete and page each have their sequence,
/// which begins with an escape and a bracket, and no other key has one.
pub proof fn lemma_keys(vk: u32)
    ensures
        key_sequence(0x26) == Some(seq![0x1bu8, 0x5b, 0x41]),
        key_sequence(0x28) == Some(seq![0x1bu8, 0x5b, 0x42]),
        key_sequence(0x27) == Some(seq![0x1bu8, 0x5b, 0x43]),
        key_sequence(0x25) == Some(seq![0x1bu8, 0x5b, 0x44]),
        key_sequence(0x24) == Some(seq![0x1bu8, 0x5b, 0x48]),
        key_sequence(0x23) == Some(seq![0x1bu8, 0x5b, 0x46]),
        key_sequence(0x2e) == Some(seq![0x1bu8, 0x5b, 0x33, 0x7e]),
        key_sequence(0x21) == Some(seq![0x1bu8, 0x5b, 0x35, 0x7e]),
        key_sequence(0x22) == Some(seq![0x1bu8, 0x5b, 0x36, 0x7e]),
        !(0x21 <= vk <= 0x28) && vk != 0x2e ==> key_sequence(vk) is None,
{
}

/// The runs that are left of a row are the first of them, each in its style and
/// all but the last with their whole text.
pub proof fn lemma_trimmed_styles(runs: Seq<(Seq<char>, Color, bool)>, i: int)
    requires
        0 <= i < trimmed(runs).len(),
    ensures
        trimmed(runs).len() <= runs.len(),
        trimmed(runs)[i].1 == runs[i].1,
        trimmed(runs)[i].2 == runs[i].2,
        i < trimmed(runs).len() - 1 ==> trimmed(runs)[i].0 == runs[i].0,
        i == trimmed(runs).len() - 1 ==> trimmed(runs)[i].0 == text::trim_end_of(runs[i].0),
    decreases runs.len(),
{
    if runs.len() > 0 {
        let t = runs.last().0;
        let short = text::trim_end_of(t);
        if short.len() == 0 && short.len() != t.len() {
            lemma_trimmed_styles(runs.drop_last(), i);
        } else if short.len() == t.len() {
            let cut = text::lemma_trim_end_part(t);
            assert(short =~= t);
        }
    }
}

/// The rows that are drawn are the first ones, each without the white space at
/// its end; those that are left out are empty, and the last that is drawn is
/// not, unless it is the only one.
pub proof fn lemma_shown_rows(rows: Seq<Seq<(Seq<char>, Color, bool)>>)
    ensures
        ({
            let shown = shown_rows(rows);
            &&& shown.len() <= rows.len()
            &&& forall|i: int| 0 <= i < shown.len() ==> #[trigger] shown[i] == trimmed(rows[i])
            &&& forall|i: int| shown.len() <= i < rows.len() ==> trimmed(#[trigger] rows[i]).len() == 0
            &&& rows.len() > 0 ==> shown.len() > 0
            &&& shown.len() > 1 ==> shown.last().len() > 0
        }),
{
    let short = rows.map_values(|runs: Seq<(Seq<char>, Color, bool)>| trimmed(runs));
    lemma_content(short);
    assert forall|i: int| shown_rows(rows).len() <= i < rows.len() implies trimmed(#[trigger] rows[i]).len() == 0 by {
        assert(short[i] == trimmed(rows[i]));
    }
}

proof fn lemma_content(rows: Seq<Seq<(Seq<char>, Color, bool)>>)
    ensures
        content_rows(rows) <= rows.len(),
        rows.len() > 0 ==> content_rows(rows) > 0,
        forall|i: int| content_rows(rows) <= i < rows.len() ==> (#[trigger] rows[i]).len() == 0,
        content_rows(rows) > 1 ==> rows[content_rows(rows) - 1].len() > 0,
    decreases rows.len(),
{
    if rows.len() > 1 && rows.last().len() == 0 {
        let init = rows.drop_last();
        lemma_content(init);
        assert forall|i: int| content_rows(rows) <= i < rows.len() implies (#[trigger] rows[i]).len() == 0 by {
            if i < init.len() {
                assert(init[i] == rows[i]);
            }
        }
    }
}

/// One run more adds its text to that of a row; one row more adds its text to
/// what is drawn, on a line of its own.
pub proof fn lemma_drawn_one_more(
    runs: Seq<(Seq<char>, Color, bool)>,
    run: (Seq<char>, Color, bool),
    rows: Seq<Seq<(Seq<char>, Color, bool)>>,
)
    ensures
        row_text(runs.push(run)) == row_text(runs) + run.0,
        row_text(seq![]).len() == 0,
        shown_text(rows.push(runs)) == if rows.len() == 0 {
            row_text(runs)
        } else {
            shown_text(rows) + "\r\n"@ + row_text(runs)
        },
{
    assert(runs.push(run).drop_last() =~= runs);
    assert(row_texts(rows.push(runs)) =~= row_texts(rows).push(row_text(runs)));
    text::lemma_join_one_more(row_texts(rows), row_text(runs), "\r\n"@);
}

} // verus!

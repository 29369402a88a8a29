use owo_colors::OwoColorize;
use vstd::prelude::*;

use crate::targets::{label_for, label_spec};
use crate::text::push_char;
use crate::verdict::{Status, Verdict, VerdictLabel};
use vstd::string::*;

verus! {

// --- table layout ---

/// `n` copies of `c`.
pub open spec fn repeat_char(c: char, n: nat) -> Seq<char> {
    Seq::new(n, |_i: int| c)
}

/// The parts, with `sep` between each two neighbours.
pub open spec fn join_with(parts: Seq<Seq<char>>, sep: char) -> Seq<char>
    decreases parts.len(),
{
    if parts.len() == 0 {
        Seq::<char>::empty()
    } else if parts.len() == 1 {
        parts[0]
    } else {
        join_with(parts.drop_last(), sep).push(sep) + parts.last()
    }
}

pub open spec fn max_nat(a: nat, b: nat) -> nat {
    if a >= b {
        a
    } else {
        b
    }
}

/// Widest cell of column `c` over the rows (0 without rows).
pub open spec fn rows_width(rows: Seq<Seq<Seq<char>>>, c: int) -> nat
    decreases rows.len(),
{
    if rows.len() == 0 {
        0
    } else {
        max_nat(rows_width(rows.drop_last(), c), rows.last()[c].len())
    }
}

/// Width of column `c`: its widest cell, header included, in characters.
pub open spec fn column_widths(headers: Seq<Seq<char>>, rows: Seq<Seq<Seq<char>>>) -> Seq<nat> {
    Seq::new(headers.len(), |c: int| max_nat(headers[c].len(), rows_width(rows, c)))
}

/// A cell padded to width `w`: one space, the text, spaces up to `w`, one space.
pub open spec fn pad_cell(cell: Seq<char>, w: nat) -> Seq<char> {
    seq![' '] + cell + repeat_char(' ', (w - cell.len()) as nat) + seq![' ']
}

/// A border line: `left`, then per column `w + 2` rules joined by `mid`, then `right`.
pub open spec fn rule_line(widths: Seq<nat>, left: char, mid: char, right: char) -> Seq<char> {
    seq![left] + join_with(
        Seq::new(widths.len(), |c: int| repeat_char('─', widths[c] + 2)),
        mid,
    ) + seq![right]
}

/// A row of cells, each padded to its column's width, between '│' bars.
pub open spec fn row_line(cells: Seq<Seq<char>>, widths: Seq<nat>) -> Seq<char> {
    seq!['│'] + join_with(
        Seq::new(widths.len(), |c: int| pad_cell(cells[c], widths[c])),
        '│',
    ) + seq!['│']
}

/// The data rows, each followed by a newline.
pub open spec fn rows_block(rows: Seq<Seq<Seq<char>>>, widths: Seq<nat>) -> Seq<char>
    decreases rows.len(),
{
    if rows.len() == 0 {
        Seq::<char>::empty()
    } else {
        rows_block(rows.drop_last(), widths) + row_line(rows.last(), widths) + seq!['\n']
    }
}

/// The whole table: top border, header row, separator, data rows, bottom border.
pub open spec fn table_spec(headers: Seq<Seq<char>>, rows: Seq<Seq<Seq<char>>>) -> Seq<char> {
    let w = column_widths(headers, rows);
    rule_line(w, '╭', '┬', '╮') + seq!['\n'] + row_line(headers, w) + seq!['\n'] + rule_line(
        w,
        '├',
        '┼',
        '┤',
    ) + seq!['\n'] + rows_block(rows, w) + rule_line(w, '╰', '┴', '╯')
}

pub open spec fn widths_nat(ws: Seq<usize>) -> Seq<nat> {
    ws.map_values(|w: usize| w as nat)
}

pub open spec fn strs_view(items: Seq<&str>) -> Seq<Seq<char>> {
    items.map_values(|s: &str| s@)
}

pub open spec fn strings_view(items: Seq<String>) -> Seq<Seq<char>> {
    items.map_values(|s: String| s@)
}

pub open spec fn rows_view(rows: Seq<Vec<String>>) -> Seq<Seq<Seq<char>>> {
    rows.map_values(|r: Vec<String>| strings_view(r@))
}

proof fn lemma_join_step(parts: Seq<Seq<char>>, sep: char, c: int)
    requires
        0 <= c < parts.len(),
    ensures
        join_with(parts.take(c + 1), sep) == join_with(parts.take(c), sep) + (if c > 0 {
            seq![sep]
        } else {
            Seq::<char>::empty()
        }) + parts[c],
{
    assert(parts.take(c + 1).drop_last() =~= parts.take(c));
    if c == 0 {
        assert(join_with(parts.take(0), sep) =~= Seq::<char>::empty());
        assert(Seq::<char>::empty() + Seq::<char>::empty() + parts[0] =~= parts[0]);
    } else {
        assert(join_with(parts.take(c), sep).push(sep) =~= join_with(parts.take(c), sep) + seq![
            sep,
        ]);
    }
}

/// Appends `n` copies of `c`.
fn append_repeat(out: &mut String, c: char, n: usize)
    ensures
        final(out)@ == old(out)@ + repeat_char(c, n as nat),
{
    let mut k: usize = 0;
    while k < n
        invariant
            k <= n,
            out@ == old(out)@ + repeat_char(c, k as nat),
        decreases n - k,
    {
        push_char(out, c);
        k = k + 1;
        assert(out@ =~= old(out)@ + repeat_char(c, k as nat));
    }
}

/// Appends a border line.
fn append_rule(out: &mut String, widths: &Vec<usize>, left: char, mid: char, right: char)
    ensures
        final(out)@ == old(out)@ + rule_line(widths_nat(widths@), left, mid, right),
{
    let ghost wn = widths_nat(widths@);
    let ghost parts = Seq::new(wn.len(), |c: int| repeat_char('─', wn[c] + 2));
    push_char(out, left);
    let ghost start = out@;
    let mut c: usize = 0;
    while c < widths.len()
        invariant
            c <= widths@.len() == wn.len() == parts.len(),
            wn == widths_nat(widths@),
            parts == Seq::new(wn.len(), |c: int| repeat_char('─', wn[c] + 2)),
            out@ == start + join_with(parts.take(c as int), mid),
        decreases widths@.len() - c,
    {
        proof {
            lemma_join_step(parts, mid, c as int);
        }
        let ghost before = out@;
        if c > 0 {
            push_char(out, mid);
        }
        append_repeat(out, '─', widths[c]);
        push_char(out, '─');
        push_char(out, '─');
        proof {
            assert(repeat_char('─', widths@[c as int] as nat).push('─').push('─') =~= parts[c as int]);
            assert(out@ =~= start + join_with(parts.take(c + 1), mid));
        }
        c = c + 1;
    }
    push_char(out, right);
    proof {
        assert(parts.take(widths@.len() as int) =~= parts);
        assert(out@ =~= old(out)@ + rule_line(wn, left, mid, right));
    }
}

/// Appends a row of cells padded to the widths.
fn append_row(out: &mut String, cells: &Vec<String>, widths: &Vec<usize>)
    requires
        cells@.len() >= widths@.len(),
        forall|c: int| 0 <= c < widths@.len() ==> cells@[c]@.len() <= #[trigger] widths@[c],
    ensures
        final(out)@ == old(out)@ + row_line(
            strings_view(cells@),
            widths_nat(widths@),
        ),
{
    let ghost wn = widths_nat(widths@);
    let ghost cv = strings_view(cells@);
    let ghost parts = Seq::new(wn.len(), |c: int| pad_cell(cv[c], wn[c]));
    push_char(out, '│');
    let ghost start = out@;
    let mut c: usize = 0;
    while c < widths.len()
        invariant
            c <= widths@.len() == wn.len() == parts.len(),
            cells@.len() >= widths@.len(),
            forall|c: int| 0 <= c < widths@.len() ==> cells@[c]@.len() <= #[trigger] widths@[c],
            wn == widths_nat(widths@),
            cv == strings_view(cells@),
            parts == Seq::new(wn.len(), |c: int| pad_cell(cv[c], wn[c])),
            out@ == start + join_with(parts.take(c as int), '│'),
        decreases widths@.len() - c,
    {
        proof {
            lemma_join_step(parts, '│', c as int);
        }
        if c > 0 {
            push_char(out, '│');
        }
        let cell = cells[c].as_str();
        let len = cell.unicode_len();
        push_char(out, ' ');
        out.append(cell);
        append_repeat(out, ' ', widths[c] - len);
        push_char(out, ' ');
        proof {
            assert(cv[c as int] == cells@[c as int]@);
            assert(out@ =~= start + join_with(parts.take(c + 1), '│'));
        }
        c = c + 1;
    }
    push_char(out, '│');
    proof {
        assert(parts.take(widths@.len() as int) =~= parts);
        assert(out@ =~= old(out)@ + row_line(cv, wn));
    }
}

/// Every row's cell is no wider than the rows' width of its column.
proof fn lemma_rows_width_bounds(rows: Seq<Seq<Seq<char>>>, c: int, r: int)
    requires
        0 <= r < rows.len(),
    ensures
        rows[r][c].len() <= rows_width(rows, c),
    decreases rows.len(),
{
    if r < rows.len() - 1 {
        lemma_rows_width_bounds(rows.drop_last(), c, r);
        assert(rows.drop_last()[r] == rows[r]);
    }
}

/// Render a fixed-schema table with rounded Unicode box borders.
///
/// Every row must hold at least as many cells as there are headers (cells
/// past that are not shown). Cells are left-aligned and single-space-padded,
/// each column as wide as its widest cell, counted in characters. No
/// inter-row separators.
pub fn render_table(headers: &[&str], rows: &[Vec<String>]) -> (r: String)
    requires
        forall|i: int| 0 <= i < rows@.len() ==> (#[trigger] rows@[i])@.len() >= headers@.len(),
    ensures
        r@ == table_spec(strs_view(headers@), rows_view(rows@)),
{
    let ghost hv = strs_view(headers@);
    let ghost rv = rows_view(rows@);
    let ghost wspec = column_widths(hv, rv);
    let cols = headers.len();
    // Header cells as owned strings.
    let mut header_cells: Vec<String> = Vec::new();
    let mut c: usize = 0;
    while c < cols
        invariant
            c <= cols == headers@.len(),
            hv == strs_view(headers@),
            header_cells@.len() == c,
            strings_view(header_cells@) == hv.take(c as int),
        decreases cols - c,
    {
        let h = String::from_str(headers[c]);
        assert(h@ == hv[c as int]);
        let ghost before = header_cells@;
        header_cells.push(h);
        assert(header_cells@ == before.push(h));
        c = c + 1;
        assert forall|k: int| 0 <= k < c implies #[trigger] strings_view(header_cells@)[k] == hv.take(
            c as int,
        )[k] by {
            if k < c - 1 {
                assert(strings_view(before)[k] == hv.take(c - 1)[k]);
            }
        }
        assert(strings_view(header_cells@) =~= hv.take(c as int));
    }
    assert(hv.take(cols as int) =~= hv);
    // Column widths.
    let mut widths: Vec<usize> = Vec::new();
    let mut c: usize = 0;
    while c < cols
        invariant
            c <= cols == headers@.len() == header_cells@.len(),
            hv == strs_view(headers@),
            rv == rows_view(rows@),
            wspec == column_widths(hv, rv),
            strings_view(header_cells@) == hv,
            forall|i: int| 0 <= i < rows@.len() ==> (#[trigger] rows@[i])@.len() >= headers@.len(),
            widths@.len() == c,
            widths_nat(widths@) == wspec.take(c as int),
        decreases cols - c,
    {
        let mut w = header_cells[c].as_str().unicode_len();
        assert(w == hv[c as int].len()) by {
            assert(strings_view(header_cells@)[c as int] == header_cells@[c as int]@);
        }
        let mut r: usize = 0;
        while r < rows.len()
            invariant
                c < cols == headers@.len(),
                r <= rows@.len(),
                rv == rows_view(rows@),
                forall|i: int| 0 <= i < rows@.len() ==> (#[trigger] rows@[i])@.len() >= headers@.len(),
                w == max_nat(hv[c as int].len(), rows_width(rv.take(r as int), c as int)),
            decreases rows@.len() - r,
        {
            let n = rows[r][c].as_str().unicode_len();
            proof {
                assert(rv.take(r + 1).drop_last() =~= rv.take(r as int));
                assert(rv[r as int] == strings_view(rows@[r as int]@));
                assert(rv.take(r + 1).last()[c as int] == rows@[r as int]@[c as int]@);
            }
            if n > w {
                w = n;
            }
            r = r + 1;
        }
        assert(rv.take(rows@.len() as int) =~= rv);
        assert(w as nat == wspec[c as int]);
        let ghost before = widths@;
        widths.push(w);
        assert(widths@ == before.push(w));
        c = c + 1;
        assert forall|k: int| 0 <= k < c implies widths_nat(widths@)[k] == #[trigger] wspec.take(
            c as int,
        )[k] by {
            if k < c - 1 {
                assert(widths_nat(before)[k] == wspec.take(c - 1)[k]);
            }
        }
        assert(widths_nat(widths@) =~= wspec.take(c as int));
    }
    assert(wspec.take(cols as int) =~= wspec);
    let ghost wn = widths_nat(widths@);
    assert(wn == wspec);
    assert forall|k: int| 0 <= k < widths@.len() implies header_cells@[k]@.len()
        <= #[trigger] widths@[k] by {
        assert(strings_view(header_cells@)[k] == header_cells@[k]@);
        assert(wn[k] == widths@[k]);
    }
    let mut out = String::new();
    append_rule(&mut out, &widths, '╭', '┬', '╮');
    push_char(&mut out, '\n');
    append_row(&mut out, &header_cells, &widths);
    push_char(&mut out, '\n');
    append_rule(&mut out, &widths, '├', '┼', '┤');
    push_char(&mut out, '\n');
    let ghost head = out@;
    let mut r: usize = 0;
    while r < rows.len()
        invariant
            r <= rows@.len(),
            rv == rows_view(rows@),
            wspec == column_widths(hv, rv),
            wn == widths_nat(widths@),
            wn == wspec,
            widths@.len() == headers@.len(),
            forall|i: int| 0 <= i < rows@.len() ==> (#[trigger] rows@[i])@.len() >= headers@.len(),
            out@ == head + rows_block(rv.take(r as int), wn),
        decreases rows@.len() - r,
    {
        proof {
            assert forall|k: int| 0 <= k < widths@.len() implies rows@[r as int]@[k]@.len()
                <= #[trigger] widths@[k] by {
                lemma_rows_width_bounds(rv, k, r as int);
                assert(rv[r as int] == strings_view(rows@[r as int]@));
                assert(rv[r as int][k] == rows@[r as int]@[k]@);
                assert(wn[k] == widths@[k]);
            }
        }
        append_row(&mut out, &rows[r], &widths);
        push_char(&mut out, '\n');
        proof {
            assert(rv.take(r + 1).drop_last() =~= rv.take(r as int));
            assert(rv[r as int] == strings_view(rows@[r as int]@));
            assert(out@ =~= head + rows_block(rv.take(r + 1), wn));
        }
        r = r + 1;
    }
    assert(rv.take(rows@.len() as int) =~= rv);
    append_rule(&mut out, &widths, '╰', '┴', '╯');
    out
}

/// Joining parts of pairwise equal lengths gives equal lengths.
proof fn lemma_join_same_lengths(a: Seq<Seq<char>>, b: Seq<Seq<char>>, sa: char, sb: char)
    requires
        a.len() == b.len(),
        forall|i: int| 0 <= i < a.len() ==> (#[trigger] a[i]).len() == b[i].len(),
    ensures
        join_with(a, sa).len() == join_with(b, sb).len(),
    decreases a.len(),
{
    if a.len() > 1 {
        lemma_join_same_lengths(a.drop_last(), b.drop_last(), sa, sb);
        assert(a.last().len() == b[b.len() - 1].len());
    } else if a.len() == 1 {
        assert(a[0].len() == b[0].len());
    }
}

/// Every line of a table has the same width: each row, the header row
/// included, is exactly as wide as the borders.
pub proof fn lemma_table_lines_align(headers: Seq<Seq<char>>, rows: Seq<Seq<Seq<char>>>)
    requires
        forall|r: int| 0 <= r < rows.len() ==> (#[trigger] rows[r]).len() >= headers.len(),
    ensures
        ({
            let w = column_widths(headers, rows);
            let width = rule_line(w, '╭', '┬', '╮').len();
            &&& rule_line(w, '├', '┼', '┤').len() == width
            &&& rule_line(w, '╰', '┴', '╯').len() == width
            &&& row_line(headers, w).len() == width
            &&& forall|r: int| 0 <= r < rows.len() ==> (#[trigger] row_line(rows[r], w)).len() == width
        }),
{
    let w = column_widths(headers, rows);
    let rules = Seq::new(w.len(), |c: int| repeat_char('─', w[c] + 2));
    let head = Seq::new(w.len(), |c: int| pad_cell(headers[c], w[c]));
    assert forall|c: int| 0 <= c < rules.len() implies (#[trigger] rules[c]).len() == head[c].len() by {
    }
    lemma_join_same_lengths(rules, rules, '┬', '┼');
    lemma_join_same_lengths(rules, rules, '┬', '┴');
    lemma_join_same_lengths(rules, head, '┬', '│');
    assert forall|r: int| 0 <= r < rows.len() implies (#[trigger] row_line(rows[r], w)).len()
        == rule_line(w, '╭', '┬', '╮').len() by {
        let cells = Seq::new(w.len(), |c: int| pad_cell(rows[r][c], w[c]));
        assert forall|c: int| 0 <= c < rules.len() implies (#[trigger] rules[c]).len()
            == cells[c].len() by {
            lemma_rows_width_bounds(rows, c, r);
        }
        lemma_join_same_lengths(rules, cells, '┬', '│');
    }
}

// --- the diagnostic table ---

/// The figures of one target's row, already formatted for display: the
/// average latency and the jitter (none when there is too little to compute
/// them) and the packet loss in percent.
#[derive(Debug, Clone, PartialEq)]
pub struct PingFigures {
    pub target: String,
    pub latency: Option<String>,
    pub jitter: Option<String>,
    pub loss: String,
}

/// The speed test's rates, already formatted for display (none for a
/// direction that failed).
#[derive(Debug, Clone, PartialEq)]
pub struct SpeedFigures {
    pub download: Option<String>,
    pub upload: Option<String>,
}

/// A figure, or "-" when there is none.
pub open spec fn figure_text(f: Option<String>) -> Seq<char> {
    match f {
        Some(t) => t@,
        None => seq!['-'],
    }
}

pub open spec fn diagnostic_headers() -> Seq<Seq<char>> {
    seq!["target"@, "latency"@, "jitter"@, "loss"@, "speed"@]
}

/// A target's row: its label, average latency, jitter, loss and no speed.
pub open spec fn ping_row(f: PingFigures) -> Seq<Seq<char>> {
    seq![
        label_spec(f.target@),
        figure_text(f.latency),
        figure_text(f.jitter),
        f.loss@ + seq!['%'],
        seq!['-'],
    ]
}

/// The speed test's row: download and upload rates.
pub open spec fn speed_row(s: SpeedFigures) -> Seq<Seq<char>> {
    seq![
        "Internet (CF)"@,
        seq!['-'],
        seq!['-'],
        seq!['-'],
        figure_text(s.download) + " ↓ / "@ + figure_text(s.upload) + " ↑"@,
    ]
}

pub open spec fn diagnostic_rows(pings: Seq<PingFigures>, speed: Option<&SpeedFigures>) -> Seq<
    Seq<Seq<char>>,
> {
    Seq::new(pings.len(), |i: int| ping_row(pings[i])) + match speed {
        Some(s) => seq![speed_row(*s)],
        None => Seq::<Seq<Seq<char>>>::empty(),
    }
}

/// A figure, or "-" when there is none.
fn figure_cell(f: &Option<String>) -> (r: String)
    ensures
        r@ == figure_text(*f),
{
    match f {
        Some(t) => t.clone(),
        None => {
            let mut dash = String::new();
            push_char(&mut dash, '-');
            dash
        },
    }
}

/// Cells of one target's row.
fn ping_cells(p: &PingFigures) -> (r: Vec<String>)
    ensures
        strings_view(r@) == ping_row(*p),
        r@.len() == 5,
{
    let label = String::from_str(label_for(p.target.as_str()));
    let avg = figure_cell(&p.latency);
    let jitter = figure_cell(&p.jitter);
    let mut loss = p.loss.clone();
    push_char(&mut loss, '%');
    let mut dash = String::new();
    push_char(&mut dash, '-');
    let ghost cells = seq![label@, avg@, jitter@, loss@, dash@];
    assert(label@ == label_spec(p.target@));
    assert(avg@ == figure_text(p.latency));
    assert(jitter@ == figure_text(p.jitter));
    assert(loss@ == p.loss@ + seq!['%']);
    assert(dash@ =~= seq!['-']);
    assert(cells =~= ping_row(*p));
    let r = vec![label, avg, jitter, loss, dash];
    assert(r@.len() == 5);
    assert(strings_view(r@) =~= cells) by {
        assert(strings_view(r@)[0] == r@[0]@);
        assert(strings_view(r@)[1] == r@[1]@);
        assert(strings_view(r@)[2] == r@[2]@);
        assert(strings_view(r@)[3] == r@[3]@);
        assert(strings_view(r@)[4] == r@[4]@);
    }
    r
}

/// Cells of the speed test's row.
fn speed_cells(s: &SpeedFigures) -> (r: Vec<String>)
    ensures
        strings_view(r@) == speed_row(*s),
        r@.len() == 5,
{
    let mut rate = figure_cell(&s.download);
    rate.append(" ↓ / ");
    let up = figure_cell(&s.upload);
    rate.append(up.as_str());
    rate.append(" ↑");
    let name = String::from_str("Internet (CF)");
    let mut d1 = String::new();
    push_char(&mut d1, '-');
    let mut d2 = String::new();
    push_char(&mut d2, '-');
    let mut d3 = String::new();
    push_char(&mut d3, '-');
    let ghost cells = seq![name@, d1@, d2@, d3@, rate@];
    assert(d1@ =~= seq!['-'] && d2@ =~= seq!['-'] && d3@ =~= seq!['-']);
    assert(cells =~= speed_row(*s));
    let r = vec![name, d1, d2, d3, rate];
    assert(r@.len() == 5);
    assert(strings_view(r@) =~= cells) by {
        assert(strings_view(r@)[0] == r@[0]@);
        assert(strings_view(r@)[1] == r@[1]@);
        assert(strings_view(r@)[2] == r@[2]@);
        assert(strings_view(r@)[3] == r@[3]@);
        assert(strings_view(r@)[4] == r@[4]@);
    }
    r
}

/// One compact diagnostic table: per-target latency (avg, jitter, loss)
/// with speed folded in as a final row.
pub fn diagnostic_table(pings: &[PingFigures], speed: Option<&SpeedFigures>) -> (r: String)
    ensures
        r@ == table_spec(diagnostic_headers(), diagnostic_rows(pings@, speed)),
{
    let headers: Vec<&str> = vec!["target", "latency", "jitter", "loss", "speed"];
    assert(strs_view(headers@) =~= diagnostic_headers());
    let ghost all = diagnostic_rows(pings@, speed);
    let mut rows: Vec<Vec<String>> = Vec::new();
    let mut i: usize = 0;
    while i < pings.len()
        invariant
            i <= pings@.len(),
            all == diagnostic_rows(pings@, speed),
            rows@.len() == i,
            rows_view(rows@) == all.take(i as int),
            forall|k: int| 0 <= k < rows@.len() ==> (#[trigger] rows@[k])@.len() == 5,
        decreases pings@.len() - i,
    {
        let cells = ping_cells(&pings[i]);
        let ghost before = rows@;
        rows.push(cells);
        proof {
            assert(rows@ == before.push(cells));
            assert(all[i as int] == ping_row(pings@[i as int]));
            assert forall|k: int| 0 <= k <= i implies #[trigger] rows_view(rows@)[k] == all.take(
                i + 1,
            )[k] by {
                if k < i {
                    assert(rows_view(before)[k] == all.take(i as int)[k]);
                }
            }
            assert(rows_view(rows@) =~= all.take(i + 1));
        }
        i = i + 1;
    }
    match speed {
        Some(s) => {
            let cells = speed_cells(s);
            let ghost before = rows@;
            rows.push(cells);
            proof {
                assert(rows@ == before.push(cells));
                assert forall|k: int| 0 <= k < rows@.len() implies #[trigger] rows_view(rows@)[k]
                    == all[k] by {
                    if k < i {
                        assert(rows_view(before)[k] == all.take(i as int)[k]);
                    }
                }
                assert(rows_view(rows@) =~= all);
                assert(forall|k: int| 0 <= k < rows@.len() ==> (#[trigger] rows@[k])@.len() == 5);
            }
        },
        None => {
            assert(all.take(i as int) =~= all);
        },
    }
    assert(forall|k: int| 0 <= k < rows@.len() ==> (#[trigger] rows@[k])@.len() >= headers@.len());
    render_table(headers.as_slice(), rows.as_slice())
}

// --- the verdict banner ---

/// Text in bold and in the foreground color whose ANSI escape is `fg`, the
/// way owo-colors writes `text.<color>().bold()`: bold on, color on, the
/// text, color reset, all attributes reset.
pub open spec fn bold_colored(fg: Seq<char>, text: Seq<char>) -> Seq<char> {
    "\u{1b}[1m"@ + fg + text + "\u{1b}[39m"@ + "\u{1b}[0m"@
}

pub open spec fn red_escape() -> Seq<char> {
    "\u{1b}[31m"@
}

pub open spec fn green_escape() -> Seq<char> {
    "\u{1b}[32m"@
}

pub open spec fn yellow_escape() -> Seq<char> {
    "\u{1b}[33m"@
}

/// Calls owo-colors' `OwoColorize::red` and `bold` and renders the result
/// with `to_string`. Claims the escapes that owo-colors' `Display` impls
/// write around the text (`FgColorDisplay<Red>` and `BoldDisplay`).
#[verifier::external_body]
fn bold_red(text: &str) -> (r: String)
    ensures
        r@ == bold_colored(red_escape(), text@),
{
    text.red().bold().to_string()
}

/// Calls owo-colors' `OwoColorize::yellow` and `bold` and renders the
/// result with `to_string`. Claims the escapes that owo-colors' `Display`
/// impls write around the text (`FgColorDisplay<Yellow>` and `BoldDisplay`).
#[verifier::external_body]
fn bold_yellow(text: &str) -> (r: String)
    ensures
        r@ == bold_colored(yellow_escape(), text@),
{
    text.yellow().bold().to_string()
}

/// Calls owo-colors' `OwoColorize::green` and `bold` and renders the result
/// with `to_string`. Claims the escapes that owo-colors' `Display` impls
/// write around the text (`FgColorDisplay<Green>` and `BoldDisplay`).
#[verifier::external_body]
fn bold_green(text: &str) -> (r: String)
    ensures
        r@ == bold_colored(green_escape(), text@),
{
    text.green().bold().to_string()
}

/// The colors the banner is painted in.
#[derive(Clone, Copy)]
pub enum Paint {
    Red,
    Yellow,
    Green,
}

pub open spec fn paint_escape(p: Paint) -> Seq<char> {
    match p {
        Paint::Red => red_escape(),
        Paint::Yellow => yellow_escape(),
        Paint::Green => green_escape(),
    }
}

fn paint_line(p: Paint, text: &str) -> (r: String)
    ensures
        r@ == bold_colored(paint_escape(p), text@),
{
    match p {
        Paint::Red => bold_red(text),
        Paint::Yellow => bold_yellow(text),
        Paint::Green => bold_green(text),
    }
}

// 5-row block font, glyph width 4 (space-separated). Compact enough for a
// 60-column terminal. Hand-authored to avoid a figlet dependency.
pub open spec fn art_it_is_you() -> Seq<Seq<char>> {
    seq![
        "██╗ ██████╗ ██╗  ██╗"@,
        "██║██╔═══██╗██║  ██║"@,
        "██║██║   ██║███████║"@,
        "██║██║   ██║╚██╔══██║"@,
        "╚═╝╚██████╔╝ ╚═╝ ╚═╝"@,
    ]
}

pub open spec fn art_it_is_not_you() -> Seq<Seq<char>> {
    seq![
        "██╗ ██████╗ ██╗  ██╗ ███╗   ██╗ ██████╗ ██╗  ██╗"@,
        "██║██╔═══██╗██║  ██║ ████╗  ██║██╔═══██╗██║  ██║"@,
        "██║██║   ██║███████║ ██╔██╗ ██║██║   ██║███████║"@,
        "██║██║   ██║╚██╔══██║ ██║╚██╗██║██║   ██║╚██╔══██║"@,
        "╚═╝╚██████╔╝ ╚═╝ ╚═╝ ██║ ╚████║╚██████╔╝ ╚═╝ ╚═╝"@,
    ]
}

pub open spec fn art_it_is_them() -> Seq<Seq<char>> {
    seq![
        "████████╗██╗  ██╗███████╗███╗   ███╗"@,
        "╚══██╔══╝██║  ██║██╔════╝████╗ ████║"@,
        "   ██║   ███████║█████╗  ██╔████╔██║"@,
        "   ██║   ██╔══██║██╔══╝  ██║╚██╔╝██║"@,
        "   ╚═╝   ╚═╝  ╚═╝███████╗╚═╝ ╚═╝╚═╝"@,
    ]
}

fn art_lines(label: VerdictLabel) -> (r: Vec<&'static str>)
    ensures
        strs_view(r@) == match label {
            VerdictLabel::You => art_it_is_you(),
            VerdictLabel::Vendor => art_it_is_them(),
            VerdictLabel::Clear => art_it_is_not_you(),
        },
{
    let r = match label {
        VerdictLabel::You => vec![
            "██╗ ██████╗ ██╗  ██╗",
            "██║██╔═══██╗██║  ██║",
            "██║██║   ██║███████║",
            "██║██║   ██║╚██╔══██║",
            "╚═╝╚██████╔╝ ╚═╝ ╚═╝",
        ],
        VerdictLabel::Vendor => vec![
            "████████╗██╗  ██╗███████╗███╗   ███╗",
            "╚══██╔══╝██║  ██║██╔════╝████╗ ████║",
            "   ██║   ███████║█████╗  ██╔████╔██║",
            "   ██║   ██╔══██║██╔══╝  ██║╚██╔╝██║",
            "   ╚═╝   ╚═╝  ╚═╝███████╗╚═╝ ╚═╝╚═╝",
        ],
        VerdictLabel::Clear => vec![
            "██╗ ██████╗ ██╗  ██╗ ███╗   ██╗ ██████╗ ██╗  ██╗",
            "██║██╔═══██╗██║  ██║ ████╗  ██║██╔═══██╗██║  ██║",
            "██║██║   ██║███████║ ██╔██╗ ██║██║   ██║███████║",
            "██║██║   ██║╚██╔══██║ ██║╚██╗██║██║   ██║╚██╔══██║",
            "╚═╝╚██████╔╝ ╚═╝ ╚═╝ ██║ ╚████║╚██████╔╝ ╚═╝ ╚═╝",
        ],
    };
    assert(strs_view(r@) =~= match label {
        VerdictLabel::You => art_it_is_you(),
        VerdictLabel::Vendor => art_it_is_them(),
        VerdictLabel::Clear => art_it_is_not_you(),
    });
    r
}

/// The art of the headline: "IT IS YOU", "THEM", or "NOT YOU".
pub open spec fn banner_art(label: VerdictLabel) -> Seq<Seq<char>> {
    match label {
        VerdictLabel::You => art_it_is_you(),
        VerdictLabel::Vendor => art_it_is_them(),
        VerdictLabel::Clear => art_it_is_not_you(),
    }
}

/// Red for you, yellow for them, and for all clear green when every metric
/// is OK, yellow when some are not.
pub open spec fn banner_paint(label: VerdictLabel, worst: Status) -> Paint {
    match label {
        VerdictLabel::You => Paint::Red,
        VerdictLabel::Vendor => Paint::Yellow,
        VerdictLabel::Clear => if worst == Status::Okay {
            Paint::Green
        } else {
            Paint::Yellow
        },
    }
}

/// Each line painted and followed by a newline.
pub open spec fn painted_lines(lines: Seq<Seq<char>>, p: Paint) -> Seq<char>
    decreases lines.len(),
{
    if lines.len() == 0 {
        Seq::<char>::empty()
    } else {
        painted_lines(lines.drop_last(), p) + bold_colored(paint_escape(p), lines.last()) + seq![
            '\n',
        ]
    }
}

/// The whole banner: the painted headline, a blank line, then the reason
/// indented by two spaces.
pub open spec fn banner_spec(label: VerdictLabel, worst: Status, reason: Seq<char>) -> Seq<char> {
    painted_lines(banner_art(label), banner_paint(label, worst)) + seq!['\n', ' ', ' '] + reason
        + seq!['\n']
}

/// Big prominent banner: giant ASCII-art verdict headline, the funny
/// one-liner reason below it. `worst` shades the Clear case green (all OK)
/// vs yellow (usable with warnings).
pub fn verdict_banner(verdict: &Verdict, worst: Status) -> (r: String)
    ensures
        r@ == banner_spec(verdict.label, worst, verdict.reason@),
{
    let art = art_lines(verdict.label);
    let paint = match verdict.label {
        VerdictLabel::You => Paint::Red,
        VerdictLabel::Vendor => Paint::Yellow,
        VerdictLabel::Clear => match worst {
            Status::Okay => Paint::Green,
            _ => Paint::Yellow,
        },
    };
    let ghost lines = banner_art(verdict.label);
    let mut out = String::new();
    let mut i: usize = 0;
    while i < art.len()
        invariant
            i <= art@.len(),
            strs_view(art@) == lines,
            out@ == painted_lines(lines.take(i as int), paint),
        decreases art@.len() - i,
    {
        let colored = paint_line(paint, art[i]);
        out.append(colored.as_str());
        push_char(&mut out, '\n');
        proof {
            assert(lines.take(i + 1).drop_last() =~= lines.take(i as int));
            assert(lines[i as int] == art@[i as int]@);
            assert(out@ =~= painted_lines(lines.take(i + 1), paint));
        }
        i = i + 1;
    }
    assert(lines.take(art@.len() as int) =~= lines);
    push_char(&mut out, '\n');
    push_char(&mut out, ' ');
    push_char(&mut out, ' ');
    out.append(verdict.reason.as_str());
    push_char(&mut out, '\n');
    assert(out@ =~= banner_spec(verdict.label, worst, verdict.reason@));
    out
}

/// The headline without colors: each line followed by a newline.
pub open spec fn plain_lines(lines: Seq<Seq<char>>) -> Seq<char>
    decreases lines.len(),
{
    if lines.len() == 0 {
        Seq::<char>::empty()
    } else {
        plain_lines(lines.drop_last()) + lines.last() + seq!['\n']
    }
}

/// The banner without colors: the headline, a blank line, then the reason
/// indented by two spaces.
pub open spec fn plain_banner_spec(label: VerdictLabel, reason: Seq<char>) -> Seq<char> {
    plain_lines(banner_art(label)) + seq!['\n', ' ', ' '] + reason + seq!['\n']
}

/// The verdict banner as plain text, for output that must not be colored:
/// the same art and reason as `verdict_banner`, with no escape sequences.
pub fn verdict_banner_plain(verdict: &Verdict) -> (r: String)
    ensures
        r@ == plain_banner_spec(verdict.label, verdict.reason@),
{
    let art = art_lines(verdict.label);
    let ghost lines = banner_art(verdict.label);
    let mut out = String::new();
    let mut i: usize = 0;
    while i < art.len()
        invariant
            i <= art@.len(),
            strs_view(art@) == lines,
            out@ == plain_lines(lines.take(i as int)),
        decreases art@.len() - i,
    {
        out.append(art[i]);
        push_char(&mut out, '\n');
        proof {
            assert(lines.take(i + 1).drop_last() =~= lines.take(i as int));
            assert(lines[i as int] == art@[i as int]@);
            assert(out@ =~= plain_lines(lines.take(i + 1)));
        }
        i = i + 1;
    }
    assert(lines.take(art@.len() as int) =~= lines);
    push_char(&mut out, '\n');
    push_char(&mut out, ' ');
    push_char(&mut out, ' ');
    out.append(verdict.reason.as_str());
    push_char(&mut out, '\n');
    assert(out@ =~= plain_banner_spec(verdict.label, verdict.reason@));
    out
}

// --- what a terminal shows ---

/// What a terminal shows of text holding ANSI escapes: an escape runs from
/// ESC up to and including the next 'm' and shows nothing.
/// `open_escape` tells whether an escape is already open where the text
/// starts.
pub open spec fn shown_from(s: Seq<char>, open_escape: bool) -> Seq<char>
    decreases s.len(),
{
    if s.len() == 0 {
        Seq::<char>::empty()
    } else if s[0] == '\u{1b}' {
        shown_from(s.skip(1), true)
    } else if open_escape {
        shown_from(s.skip(1), s[0] != 'm')
    } else {
        seq![s[0]] + shown_from(s.skip(1), false)
    }
}

/// Whether an escape is still open after the text.
pub open spec fn escape_open_after(s: Seq<char>, open_escape: bool) -> bool
    decreases s.len(),
{
    if s.len() == 0 {
        open_escape
    } else if s[0] == '\u{1b}' {
        escape_open_after(s.skip(1), true)
    } else if open_escape {
        escape_open_after(s.skip(1), s[0] != 'm')
    } else {
        escape_open_after(s.skip(1), false)
    }
}

/// The text a terminal shows, with every ANSI escape removed.
pub open spec fn strip_ansi(s: Seq<char>) -> Seq<char> {
    shown_from(s, false)
}

/// Text is read left to right: what two pieces show is what the first
/// shows, then what the second shows in the state the first leaves.
pub proof fn lemma_shown_concat(x: Seq<char>, y: Seq<char>, e: bool)
    ensures
        shown_from(x + y, e) == shown_from(x, e) + shown_from(y, escape_open_after(x, e)),
        escape_open_after(x + y, e) == escape_open_after(y, escape_open_after(x, e)),
    decreases x.len(),
{
    if x.len() == 0 {
        assert(x + y =~= y);
        assert(Seq::<char>::empty() + shown_from(y, e) =~= shown_from(y, e));
    } else {
        let e2 = if x[0] == '\u{1b}' {
            true
        } else if e {
            x[0] != 'm'
        } else {
            false
        };
        lemma_shown_concat(x.skip(1), y, e2);
        assert((x + y).skip(1) =~= x.skip(1) + y);
        assert((x + y)[0] == x[0]);
        if x[0] != '\u{1b}' && !e {
            assert(seq![x[0]] + (shown_from(x.skip(1), false) + shown_from(
                y,
                escape_open_after(x.skip(1), false),
            )) =~= (seq![x[0]] + shown_from(x.skip(1), false)) + shown_from(
                y,
                escape_open_after(x.skip(1), false),
            ));
        }
    }
}

/// Inside an open escape, a run that ends at its first 'm' shows nothing
/// and closes the escape.
proof fn lemma_open_run(d: Seq<char>)
    requires
        d.len() >= 1,
        d.last() == 'm',
        forall|i: int| 0 <= i < d.len() - 1 ==> d[i] != 'm',
    ensures
        shown_from(d, true) == Seq::<char>::empty(),
        escape_open_after(d, true) == false,
    decreases d.len(),
{
    if d.len() > 1 {
        assert(d[0] != 'm');
        let r = d.skip(1);
        assert(r.last() == d.last());
        assert forall|i: int| 0 <= i < r.len() - 1 implies r[i] != 'm' by {
            assert(r[i] == d[i + 1]);
        }
        lemma_open_run(r);
    } else {
        assert(d[0] == 'm');
        let rest = d.skip(1);
        assert(rest =~= Seq::<char>::empty());
        assert(shown_from(rest, false) == Seq::<char>::empty());
        assert(escape_open_after(rest, false) == false);
    }
}

/// An escape code, ESC up to its first 'm', shows nothing and leaves no
/// escape open, whatever the state before it.
proof fn lemma_escape_code(c: Seq<char>, e: bool)
    requires
        c.len() >= 2,
        c[0] == '\u{1b}',
        c.last() == 'm',
        forall|i: int| 1 <= i < c.len() - 1 ==> c[i] != 'm',
    ensures
        shown_from(c, e) == Seq::<char>::empty(),
        escape_open_after(c, e) == false,
{
    let d = c.skip(1);
    assert(d.last() == c.last());
    assert forall|i: int| 0 <= i < d.len() - 1 implies d[i] != 'm' by {
        assert(d[i] == c[i + 1]);
    }
    lemma_open_run(d);
}

/// The escape codes the banner uses show nothing and leave no escape open.
proof fn lemma_banner_codes(e: bool)
    ensures
        forall|c: Seq<char>|
            c == "\u{1b}[1m"@ || c == "\u{1b}[39m"@ || c == "\u{1b}[0m"@ || c == red_escape()
                || c == green_escape() || c == yellow_escape() ==> {
                &&& shown_from(c, e) == Seq::<char>::empty()
                &&& escape_open_after(c, e) == false
            },
{
    reveal_strlit("\u{1b}[1m");
    reveal_strlit("\u{1b}[0m");
    reveal_strlit("\u{1b}[39m");
    reveal_strlit("\u{1b}[31m");
    reveal_strlit("\u{1b}[32m");
    reveal_strlit("\u{1b}[33m");
    let short = seq!["\u{1b}[1m"@, "\u{1b}[0m"@];
    let long = seq!["\u{1b}[39m"@, red_escape(), green_escape(), yellow_escape()];
    assert forall|k: int| 0 <= k < 2 implies {
        &&& shown_from(#[trigger] short[k], e) == Seq::<char>::empty()
        &&& escape_open_after(short[k], e) == false
    } by {
        let c = short[k];
        assert(c.len() == 4 && c[0] == '\u{1b}' && c[3] == 'm' && c[1] != 'm' && c[2] != 'm');
        assert forall|i: int| 1 <= i < c.len() - 1 implies c[i] != 'm' by {
            if i == 1 {
            } else {
            }
        }
        lemma_escape_code(c, e);
    }
    assert forall|k: int| 0 <= k < 4 implies {
        &&& shown_from(#[trigger] long[k], e) == Seq::<char>::empty()
        &&& escape_open_after(long[k], e) == false
    } by {
        let c = long[k];
        assert(c.len() == 5 && c[0] == '\u{1b}' && c[4] == 'm' && c[1] != 'm' && c[2] != 'm'
            && c[3] != 'm');
        assert forall|i: int| 1 <= i < c.len() - 1 implies c[i] != 'm' by {
            if i == 1 {
            } else if i == 2 {
            } else {
            }
        }
        lemma_escape_code(c, e);
    }
    assert(short[0] == "\u{1b}[1m"@ && short[1] == "\u{1b}[0m"@);
    assert(long[0] == "\u{1b}[39m"@ && long[1] == red_escape() && long[2] == green_escape()
        && long[3] == yellow_escape());
}

/// A painted line shows its text, as read from a closed state, and leaves
/// no escape open.
proof fn lemma_bold_shown(p: Paint, t: Seq<char>, e: bool)
    ensures
        shown_from(bold_colored(paint_escape(p), t), e) == shown_from(t, false),
        escape_open_after(bold_colored(paint_escape(p), t), e) == false,
{
    let a = "\u{1b}[1m"@;
    let fg = paint_escape(p);
    let b = "\u{1b}[39m"@;
    let c = "\u{1b}[0m"@;
    lemma_banner_codes(e);
    lemma_banner_codes(false);
    lemma_banner_codes(true);
    let af = a + fg;
    lemma_shown_concat(a, fg, e);
    assert(shown_from(af, e) =~= Seq::<char>::empty());
    let aft = af + t;
    lemma_shown_concat(af, t, e);
    assert(shown_from(aft, e) =~= shown_from(t, false));
    let aftb = aft + b;
    lemma_shown_concat(aft, b, e);
    assert(shown_from(aftb, e) =~= shown_from(t, false));
    lemma_shown_concat(aftb, c, e);
    assert(shown_from(aftb + c, e) =~= shown_from(t, false));
}

/// Painted lines show the same text in every color, and leave no escape
/// open.
proof fn lemma_painted_shown(lines: Seq<Seq<char>>, p1: Paint, p2: Paint)
    ensures
        shown_from(painted_lines(lines, p1), false) == shown_from(painted_lines(lines, p2), false),
        escape_open_after(painted_lines(lines, p1), false) == false,
        escape_open_after(painted_lines(lines, p2), false) == false,
    decreases lines.len(),
{
    if lines.len() > 0 {
        let prev = lines.drop_last();
        let t = lines.last();
        lemma_painted_shown(prev, p1, p2);
        let nl = seq!['\n'];
        let none = nl.skip(1);
        assert(none =~= Seq::<char>::empty());
        assert(shown_from(none, false) == Seq::<char>::empty());
        assert(escape_open_after(none, false) == false);
        assert(shown_from(nl, false) =~= nl);
        assert(escape_open_after(nl, false) == false);
        let q1 = painted_lines(prev, p1);
        let b1 = bold_colored(paint_escape(p1), t);
        lemma_shown_concat(q1, b1, false);
        lemma_bold_shown(p1, t, false);
        lemma_shown_concat(q1 + b1, nl, false);
        let q2 = painted_lines(prev, p2);
        let b2 = bold_colored(paint_escape(p2), t);
        lemma_shown_concat(q2, b2, false);
        lemma_bold_shown(p2, t, false);
        lemma_shown_concat(q2 + b2, nl, false);
    }
}

/// The worst status only picks the banner's color: stripped of its ANSI
/// escapes, the banner reads the same whatever the worst status, and for
/// "you" and "them" the banner does not depend on it at all.
pub proof fn lemma_worst_only_colors(
    label: VerdictLabel,
    w1: Status,
    w2: Status,
    reason: Seq<char>,
)
    ensures
        strip_ansi(banner_spec(label, w1, reason)) == strip_ansi(banner_spec(label, w2, reason)),
        label != VerdictLabel::Clear ==> banner_spec(label, w1, reason) == banner_spec(
            label,
            w2,
            reason,
        ),
{
    let art = banner_art(label);
    let p1 = banner_paint(label, w1);
    let p2 = banner_paint(label, w2);
    let tail = seq!['\n', ' ', ' '] + reason + seq!['\n'];
    lemma_painted_shown(art, p1, p2);
    assert(banner_spec(label, w1, reason) =~= painted_lines(art, p1) + tail);
    assert(banner_spec(label, w2, reason) =~= painted_lines(art, p2) + tail);
    lemma_shown_concat(painted_lines(art, p1), tail, false);
    lemma_shown_concat(painted_lines(art, p2), tail, false);
}

/// No character of the text is ESC.
pub open spec fn no_escape(s: Seq<char>) -> bool {
    forall|i: int| 0 <= i < s.len() ==> s[i] != '\u{1b}'
}

/// Text without ESC shows as it is and leaves no escape open.
proof fn lemma_plain_text_shown(t: Seq<char>)
    requires
        no_escape(t),
    ensures
        shown_from(t, false) == t,
        escape_open_after(t, false) == false,
    decreases t.len(),
{
    if t.len() > 0 {
        let r = t.skip(1);
        assert forall|i: int| 0 <= i < r.len() implies r[i] != '\u{1b}' by {
            assert(r[i] == t[i + 1]);
        }
        lemma_plain_text_shown(r);
        assert(t[0] != '\u{1b}');
        assert(seq![t[0]] + r =~= t);
    } else {
        assert(t =~= Seq::<char>::empty());
    }
}

proof fn lemma_no_escape_concat(a: Seq<char>, b: Seq<char>)
    requires
        no_escape(a),
        no_escape(b),
    ensures
        no_escape(a + b),
{
    assert forall|i: int| 0 <= i < (a + b).len() implies (a + b)[i] != '\u{1b}' by {
        if i < a.len() {
            assert((a + b)[i] == a[i]);
        } else {
            assert((a + b)[i] == b[i - a.len()]);
        }
    }
}

/// The banner's art holds no ESC.
proof fn lemma_art_has_no_escape(label: VerdictLabel)
    ensures
        forall|i: int| 0 <= i < banner_art(label).len() ==> no_escape(#[trigger] banner_art(label)[i]),
{
    reveal_strlit("██╗ ██████╗ ██╗  ██╗");
    assert(no_escape("██╗ ██████╗ ██╗  ██╗"@));
    reveal_strlit("██║██╔═══██╗██║  ██║");
    assert(no_escape("██║██╔═══██╗██║  ██║"@));
    reveal_strlit("██║██║   ██║███████║");
    assert(no_escape("██║██║   ██║███████║"@));
    reveal_strlit("██║██║   ██║╚██╔══██║");
    assert(no_escape("██║██║   ██║╚██╔══██║"@));
    reveal_strlit("╚═╝╚██████╔╝ ╚═╝ ╚═╝");
    assert(no_escape("╚═╝╚██████╔╝ ╚═╝ ╚═╝"@));
    reveal_strlit("██╗ ██████╗ ██╗  ██╗ ███╗   ██╗ ██████╗ ██╗  ██╗");
    assert(no_escape("██╗ ██████╗ ██╗  ██╗ ███╗   ██╗ ██████╗ ██╗  ██╗"@));
    reveal_strlit("██║██╔═══██╗██║  ██║ ████╗  ██║██╔═══██╗██║  ██║");
    assert(no_escape("██║██╔═══██╗██║  ██║ ████╗  ██║██╔═══██╗██║  ██║"@));
    reveal_strlit("██║██║   ██║███████║ ██╔██╗ ██║██║   ██║███████║");
    assert(no_escape("██║██║   ██║███████║ ██╔██╗ ██║██║   ██║███████║"@));
    reveal_strlit("██║██║   ██║╚██╔══██║ ██║╚██╗██║██║   ██║╚██╔══██║");
    assert(no_escape("██║██║   ██║╚██╔══██║ ██║╚██╗██║██║   ██║╚██╔══██║"@));
    reveal_strlit("╚═╝╚██████╔╝ ╚═╝ ╚═╝ ██║ ╚████║╚██████╔╝ ╚═╝ ╚═╝");
    assert(no_escape("╚═╝╚██████╔╝ ╚═╝ ╚═╝ ██║ ╚████║╚██████╔╝ ╚═╝ ╚═╝"@));
    reveal_strlit("████████╗██╗  ██╗███████╗███╗   ███╗");
    assert(no_escape("████████╗██╗  ██╗███████╗███╗   ███╗"@));
    reveal_strlit("╚══██╔══╝██║  ██║██╔════╝████╗ ████║");
    assert(no_escape("╚══██╔══╝██║  ██║██╔════╝████╗ ████║"@));
    reveal_strlit("   ██║   ███████║█████╗  ██╔████╔██║");
    assert(no_escape("   ██║   ███████║█████╗  ██╔████╔██║"@));
    reveal_strlit("   ██║   ██╔══██║██╔══╝  ██║╚██╔╝██║");
    assert(no_escape("   ██║   ██╔══██║██╔══╝  ██║╚██╔╝██║"@));
    reveal_strlit("   ╚═╝   ╚═╝  ╚═╝███████╗╚═╝ ╚═╝╚═╝");
    assert(no_escape("   ╚═╝   ╚═╝  ╚═╝███████╗╚═╝ ╚═╝╚═╝"@));
}

/// Painted lines without ESC show as the plain lines.
proof fn lemma_painted_shows_plain(lines: Seq<Seq<char>>, p: Paint)
    requires
        forall|i: int| 0 <= i < lines.len() ==> no_escape(#[trigger] lines[i]),
    ensures
        shown_from(painted_lines(lines, p), false) == plain_lines(lines),
        no_escape(plain_lines(lines)),
    decreases lines.len(),
{
    if lines.len() > 0 {
        let prev = lines.drop_last();
        let t = lines.last();
        assert forall|i: int| 0 <= i < prev.len() implies no_escape(#[trigger] prev[i]) by {
            assert(prev[i] == lines[i]);
        }
        lemma_painted_shows_plain(prev, p);
        lemma_painted_shown(prev, p, p);
        assert(no_escape(t)) by {
            assert(t == lines[lines.len() - 1]);
        }
        lemma_plain_text_shown(t);
        let nl = seq!['\n'];
        assert(no_escape(nl));
        lemma_plain_text_shown(nl);
        let q = painted_lines(prev, p);
        let b = bold_colored(paint_escape(p), t);
        lemma_shown_concat(q, b, false);
        lemma_bold_shown(p, t, false);
        lemma_shown_concat(q + b, nl, false);
        lemma_no_escape_concat(plain_lines(prev), t);
        lemma_no_escape_concat(plain_lines(prev) + t, nl);
    }
}

/// The plain banner is what the colored banner shows: stripped of its ANSI
/// escapes, the colored banner is the plain banner, whatever the worst
/// status, for a reason that holds no ESC itself; and the plain banner holds
/// no escape.
pub proof fn lemma_plain_banner_is_stripped(label: VerdictLabel, worst: Status, reason: Seq<char>)
    requires
        no_escape(reason),
    ensures
        strip_ansi(banner_spec(label, worst, reason)) == plain_banner_spec(label, reason),
        no_escape(plain_banner_spec(label, reason)),
{
    let art = banner_art(label);
    let p = banner_paint(label, worst);
    lemma_art_has_no_escape(label);
    lemma_painted_shows_plain(art, p);
    lemma_painted_shown(art, p, p);
    let head = seq!['\n', ' ', ' '];
    let nl = seq!['\n'];
    assert(no_escape(head));
    assert(no_escape(nl));
    lemma_no_escape_concat(head, reason);
    lemma_no_escape_concat(head + reason, nl);
    let tail = head + reason + nl;
    lemma_plain_text_shown(tail);
    assert(banner_spec(label, worst, reason) =~= painted_lines(art, p) + tail);
    lemma_shown_concat(painted_lines(art, p), tail, false);
    assert(plain_banner_spec(label, reason) =~= plain_lines(art) + tail);
    lemma_no_escape_concat(plain_lines(art), tail);
}

/// The three headlines' rows: each "YOU" row is a proper prefix of the
/// matching "NOT YOU" row, which adds the NOT glyphs after it, and each
/// "THEM" row is longer than the "YOU" row and shorter than the "NOT YOU"
/// row. Every headline has five rows.
pub proof fn lemma_headline_rows()
    ensures
        ({
            let y = banner_art(VerdictLabel::You);
            let t = banner_art(VerdictLabel::Vendor);
            let n = banner_art(VerdictLabel::Clear);
            &&& y.len() == 5 && t.len() == 5 && n.len() == 5
            &&& forall|i: int|
                0 <= i < 5 ==> {
                    &&& (#[trigger] y[i]).len() < t[i].len() < n[i].len()
                    &&& n[i].subrange(0, y[i].len() as int) == y[i]
                }
        }),
{
    let y = banner_art(VerdictLabel::You);
    let t = banner_art(VerdictLabel::Vendor);
    let n = banner_art(VerdictLabel::Clear);
    reveal_strlit("██╗ ██████╗ ██╗  ██╗");
    reveal_strlit("██╗ ██████╗ ██╗  ██╗ ███╗   ██╗ ██████╗ ██╗  ██╗");
    reveal_strlit("████████╗██╗  ██╗███████╗███╗   ███╗");
    assert(y[0].len() < t[0].len() < n[0].len());
    assert(n[0].subrange(0, y[0].len() as int) =~= y[0]);
    reveal_strlit("██║██╔═══██╗██║  ██║");
    reveal_strlit("██║██╔═══██╗██║  ██║ ████╗  ██║██╔═══██╗██║  ██║");
    reveal_strlit("╚══██╔══╝██║  ██║██╔════╝████╗ ████║");
    assert(y[1].len() < t[1].len() < n[1].len());
    assert(n[1].subrange(0, y[1].len() as int) =~= y[1]);
    reveal_strlit("██║██║   ██║███████║");
    reveal_strlit("██║██║   ██║███████║ ██╔██╗ ██║██║   ██║███████║");
    reveal_strlit("   ██║   ███████║█████╗  ██╔████╔██║");
    assert(y[2].len() < t[2].len() < n[2].len());
    assert(n[2].subrange(0, y[2].len() as int) =~= y[2]);
    reveal_strlit("██║██║   ██║╚██╔══██║");
    reveal_strlit("██║██║   ██║╚██╔══██║ ██║╚██╗██║██║   ██║╚██╔══██║");
    reveal_strlit("   ██║   ██╔══██║██╔══╝  ██║╚██╔╝██║");
    assert(y[3].len() < t[3].len() < n[3].len());
    assert(n[3].subrange(0, y[3].len() as int) =~= y[3]);
    reveal_strlit("╚═╝╚██████╔╝ ╚═╝ ╚═╝");
    reveal_strlit("╚═╝╚██████╔╝ ╚═╝ ╚═╝ ██║ ╚████║╚██████╔╝ ╚═╝ ╚═╝");
    reveal_strlit("   ╚═╝   ╚═╝  ╚═╝███████╗╚═╝ ╚═╝╚═╝");
    assert(y[4].len() < t[4].len() < n[4].len());
    assert(n[4].subrange(0, y[4].len() as int) =~= y[4]);
}

/// Lines that are each shorter make a shorter headline.
proof fn lemma_plain_lines_shorter(a: Seq<Seq<char>>, b: Seq<Seq<char>>)
    requires
        a.len() == b.len(),
        a.len() > 0,
        forall|i: int| 0 <= i < a.len() ==> (#[trigger] a[i]).len() < b[i].len(),
    ensures
        plain_lines(a).len() < plain_lines(b).len(),
    decreases a.len(),
{
    let pa = a.drop_last();
    let pb = b.drop_last();
    assert(a.last().len() < b.last().len()) by {
        assert(a[a.len() - 1].len() < b[a.len() - 1].len());
    }
    if a.len() > 1 {
        assert forall|i: int| 0 <= i < pa.len() implies (#[trigger] pa[i]).len() < pb[i].len() by {
            assert(pa[i] == a[i] && pb[i] == b[i]);
        }
        lemma_plain_lines_shorter(pa, pb);
    } else {
        assert(plain_lines(pa).len() == 0);
        assert(plain_lines(pb).len() == 0);
    }
}

/// What the banner shows: its headline's plain lines, then what the tail
/// (blank line and reason) shows.
proof fn lemma_banner_shows(label: VerdictLabel, worst: Status, reason: Seq<char>)
    ensures
        strip_ansi(banner_spec(label, worst, reason)) == plain_lines(banner_art(label))
            + shown_from(seq!['\n', ' ', ' '] + reason + seq!['\n'], false),
{
    let art = banner_art(label);
    let p = banner_paint(label, worst);
    lemma_art_has_no_escape(label);
    lemma_painted_shows_plain(art, p);
    lemma_painted_shown(art, p, p);
    let tail = seq!['\n', ' ', ' '] + reason + seq!['\n'];
    assert(banner_spec(label, worst, reason) =~= painted_lines(art, p) + tail);
    lemma_shown_concat(painted_lines(art, p), tail, false);
}

/// Different verdicts show different banners: for any reason and any worst
/// statuses, the banners of two different labels read differently once
/// their escapes are stripped (the headlines differ in every row).
pub proof fn lemma_banners_differ_by_label(
    l1: VerdictLabel,
    l2: VerdictLabel,
    w1: Status,
    w2: Status,
    reason: Seq<char>,
)
    requires
        l1 != l2,
    ensures
        strip_ansi(banner_spec(l1, w1, reason)) != strip_ansi(banner_spec(l2, w2, reason)),
{
    lemma_headline_rows();
    lemma_banner_shows(l1, w1, reason);
    lemma_banner_shows(l2, w2, reason);
    let y = banner_art(VerdictLabel::You);
    let t = banner_art(VerdictLabel::Vendor);
    let n = banner_art(VerdictLabel::Clear);
    assert forall|i: int| 0 <= i < 5 implies (#[trigger] y[i]).len() < t[i].len() by {
        assert(y[i].len() < t[i].len() < n[i].len());
    }
    assert forall|i: int| 0 <= i < 5 implies (#[trigger] t[i]).len() < n[i].len() by {
        assert(y[i].len() < t[i].len() < n[i].len());
    }
    lemma_plain_lines_shorter(y, t);
    lemma_plain_lines_shorter(t, n);
    let a1 = plain_lines(banner_art(l1));
    let a2 = plain_lines(banner_art(l2));
    assert(a1.len() != a2.len());
    let tail = shown_from(seq!['\n', ' ', ' '] + reason + seq!['\n'], false);
    assert((a1 + tail).len() != (a2 + tail).len());
}

} // verus!

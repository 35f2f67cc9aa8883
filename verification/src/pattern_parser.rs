use vstd::prelude::*;

use crate::cell::Cell;
use crate::pattern::Pattern;

verus! {

/// a + 1, held at u32::MAX instead of wrapping.
pub open spec fn sat_inc_u32(a: u32) -> u32 {
    if a == u32::MAX {
        u32::MAX
    } else {
        (a + 1) as u32
    }
}

/// a + b, held at u32::MAX instead of wrapping.
pub open spec fn sat_add_u32(a: u32, b: u32) -> u32 {
    if a as int + b as int > u32::MAX as int {
        u32::MAX
    } else {
        (a + b) as u32
    }
}

/// count * 10 + d, held at u32::MAX instead of wrapping.
pub open spec fn sat_count10(count: u32, d: u32) -> u32 {
    if (count as int) * 10 + d as int > u32::MAX as int {
        u32::MAX
    } else {
        ((count as int) * 10 + d as int) as u32
    }
}

/// The text split into lines: lines end at a line feed or at a carriage
/// return followed by a line feed, a final line ending is optional.
pub open spec fn spec_split_lines(s: Seq<char>) -> Seq<Seq<char>>
    decreases s.len(),
{
    if s.len() == 0 {
        Seq::empty()
    } else if s[0] == '\n' {
        seq![Seq::<char>::empty()].add(spec_split_lines(s.skip(1)))
    } else if s[0] == '\r' && s.len() >= 2 && s[1] == '\n' {
        seq![Seq::<char>::empty()].add(spec_split_lines(s.skip(2)))
    } else {
        let rest = spec_split_lines(s.skip(1));
        if rest.len() == 0 {
            seq![seq![s[0]]]
        } else {
            seq![seq![s[0]].add(rest[0])].add(rest.skip(1))
        }
    }
}

/// Splitting off the first line: k is the position of the first line feed
/// of t, or its length when it has none.
proof fn lemma_split_lines_first(t: Seq<char>, k: int)
    requires
        t.len() > 0,
        0 <= k <= t.len(),
        forall|m: int| 0 <= m < k ==> t[m] != '\n',
        k < t.len() ==> t[k] == '\n',
    ensures
        k == t.len() ==> spec_split_lines(t) == seq![t],
        k < t.len() ==> spec_split_lines(t) == seq![
            if k > 0 && t[k - 1] == '\r' {
                t.take(k - 1)
            } else {
                t.take(k)
            },
        ].add(spec_split_lines(t.skip(k + 1))),
    decreases t.len(),
{
    if k == 0 {
        assert(k < t.len());
        assert(t[0] == '\n');
        assert(t.take(0) =~= Seq::<char>::empty());
        assert(spec_split_lines(t) =~~= seq![t.take(0)].add(spec_split_lines(t.skip(1))));
    } else if t[0] == '\r' && t.len() >= 2 && t[1] == '\n' {
        assert(k == 1);
        assert(t.take(0) =~= Seq::<char>::empty());
        assert(spec_split_lines(t) =~~= seq![t.take(0)].add(spec_split_lines(t.skip(2))));
    } else if t.len() == 1 {
        assert(k == 1 && k == t.len());
        assert(t.skip(1).len() == 0);
        assert(spec_split_lines(t.skip(1)) == Seq::<Seq<char>>::empty());
        assert(spec_split_lines(t) == seq![seq![t[0]]]);
        assert(seq![t[0]] =~= t);
        assert(spec_split_lines(t) =~~= seq![t]);
    } else {
        let u = t.skip(1);
        assert(u.len() == t.len() - 1);
        assert forall|m: int| 0 <= m < k - 1 implies u[m] != '\n' by {
            assert(u[m] == t[m + 1]);
        }
        lemma_split_lines_first(u, k - 1);
        let rest = spec_split_lines(u);
        if k == t.len() {
            assert(rest == seq![u]);
            assert(seq![t[0]].add(u) =~= t);
            assert(spec_split_lines(t) =~~= seq![t]);
        } else {
            let line_u = if k - 1 > 0 && u[k - 2] == '\r' {
                u.take(k - 2)
            } else {
                u.take(k - 1)
            };
            assert(rest == seq![line_u].add(spec_split_lines(u.skip(k))));
            assert(rest[0] == line_u);
            assert(rest.skip(1) =~= spec_split_lines(u.skip(k)));
            assert(u.skip(k) =~= t.skip(k + 1));
            let line_t = if k > 0 && t[k - 1] == '\r' {
                t.take(k - 1)
            } else {
                t.take(k)
            };
            if t[k - 1] == '\r' {
                assert(k >= 2);
                assert(u[k - 2] == t[k - 1]);
                assert(seq![t[0]].add(u.take(k - 2)) =~= t.take(k - 1));
            } else {
                if k - 1 > 0 {
                    assert(u[k - 2] == t[k - 1]);
                }
                assert(seq![t[0]].add(u.take(k - 1)) =~= t.take(k));
            }
            assert(seq![t[0]].add(rest[0]) == line_t);
            assert(spec_split_lines(t) =~~= seq![line_t].add(spec_split_lines(t.skip(k + 1))));
        }
    }
}

/// The text split into lines, as `spec_split_lines` says.
fn split_lines(data: &str) -> (r: Vec<String>)
    ensures
        r.deep_view() == spec_split_lines(data@),
{
    let len = data.unicode_len();
    let mut out: Vec<String> = Vec::new();
    let mut start: usize = 0;
    proof {
        assert(data@.skip(0) =~= data@);
        assert(out.deep_view() =~= Seq::<Seq<char>>::empty());
    }
    while start < len
        invariant
            start <= len,
            len == data@.len(),
            spec_split_lines(data@) == out.deep_view().add(
                spec_split_lines(data@.skip(start as int)),
            ),
        decreases len - start,
    {
        let mut j: usize = start;
        loop
            invariant
                start <= j <= len,
                len == data@.len(),
                forall|m: int| start as int <= m < j as int ==> data@[m] != '\n',
            ensures
                start <= j <= len,
                j < len ==> data@[j as int] == '\n',
                forall|m: int| start as int <= m < j as int ==> data@[m] != '\n',
            decreases len - j,
        {
            if j == len {
                break ;
            }
            if data.get_char(j) == '\n' {
                break ;
            }
            j = j + 1;
        }
        let line_end: usize = if j < len && j > start {
            if data.get_char(j - 1) == '\r' {
                j - 1
            } else {
                j
            }
        } else {
            j
        };
        let line = data.substring_char(start, line_end);
        let ghost prev = out.deep_view();
        out.push(line.to_owned());
        proof {
            assert(out.deep_view() =~~= prev.push(line@));
        }
        let next_start: usize = if j < len {
            j + 1
        } else {
            len
        };
        proof {
            let t = data@.skip(start as int);
            let k = j as int - start as int;
            assert(t.len() > 0);
            assert forall|m: int| 0 <= m < k implies t[m] != '\n' by {
                assert(t[m] == data@[start as int + m]);
            }
            if k < t.len() {
                assert(t[k] == data@[j as int]);
            }
            lemma_split_lines_first(t, k);
            if j < len {
                if j > start && data@[j as int - 1] == '\r' {
                    assert(t[k - 1] == data@[j as int - 1]);
                    assert(line@ =~= t.take(k - 1));
                } else {
                    if k > 0 {
                        assert(t[k - 1] == data@[j as int - 1]);
                    }
                    assert(line@ =~= t.take(k));
                }
                assert(t.skip(k + 1) =~= data@.skip(next_start as int));
                assert(spec_split_lines(t) == seq![line@].add(
                    spec_split_lines(data@.skip(next_start as int)),
                ));
            } else {
                assert(line@ =~= t);
                assert(spec_split_lines(t) == seq![line@]);
                assert(data@.skip(next_start as int).len() == 0);
                assert(spec_split_lines(t) =~~= seq![line@].add(
                    spec_split_lines(data@.skip(next_start as int)),
                ));
            }
            assert(out.deep_view().add(spec_split_lines(data@.skip(next_start as int)))
                =~~= prev.add(spec_split_lines(data@.skip(start as int))));
        }
        start = next_start;
    }
    proof {
        assert(data@.skip(start as int).len() == 0);
        assert(out.deep_view().add(spec_split_lines(data@.skip(start as int)))
            =~~= out.deep_view());
    }
    out
}

/// One row of the plain dot format: every character but `.` marks a live
/// cell, columns counted from the given cursor.
pub open spec fn spec_plain_line(line: Seq<char>, row: u32, col: u32, cells: Seq<Cell>) -> Seq<
    Cell,
>
    decreases line.len(),
{
    if line.len() == 0 {
        cells
    } else {
        let cells2 = if line[0] == '.' {
            cells
        } else {
            cells.push(Cell { row, col })
        };
        spec_plain_line(line.skip(1), row, sat_inc_u32(col), cells2)
    }
}

/// The whole plain dot format: a line opening with `!` is metadata; every
/// other line is a grid row and advances the row cursor.
pub open spec fn spec_plain_decode(
    lines: Seq<Seq<char>>,
    row: u32,
    meta: Seq<Seq<char>>,
    cells: Seq<Cell>,
) -> (Seq<Seq<char>>, Seq<Cell>)
    decreases lines.len(),
{
    if lines.len() == 0 {
        (meta, cells)
    } else if lines[0].len() > 0 && lines[0][0] == '!' {
        spec_plain_decode(lines.skip(1), row, meta.push(lines[0]), cells)
    } else {
        spec_plain_decode(
            lines.skip(1),
            sat_inc_u32(row),
            meta,
            spec_plain_line(lines[0], row, 0, cells),
        )
    }
}

/// A digit of the run-length format.
pub open spec fn spec_is_digit(ch: char) -> bool {
    48 <= ch as u32 <= 57
}

/// A tag that emits a run of live cells; matched over both ASCII cases, as
/// the tokens are read case-insensitively.
pub open spec fn spec_is_alive_tag(ch: char) -> bool {
    ch == 'o' || ch == 'x' || ch == 'y' || ch == 'z' || ch == 'O' || ch == 'X' || ch == 'Y' || ch
        == 'Z'
}

/// A tag that skips a run of dead cells.
pub open spec fn spec_is_dead_tag(ch: char) -> bool {
    ch == 'b' || ch == 'B'
}

/// Emitting a run of k live cells from the column cursor on.
pub open spec fn spec_emit_run(row: u32, col: u32, k: nat, cells: Seq<Cell>) -> (u32, Seq<Cell>)
    decreases k,
{
    if k == 0 {
        (col, cells)
    } else {
        spec_emit_run(row, sat_inc_u32(col), (k - 1) as nat, cells.push(Cell { row, col }))
    }
}

/// One body line of the run-length format, run over the cursor state; `!`
/// ends the line, an unknown character is passed over.
pub open spec fn spec_rle_line(
    line: Seq<char>,
    row: u32,
    col: u32,
    count: u32,
    cells: Seq<Cell>,
) -> (u32, u32, u32, Seq<Cell>)
    decreases line.len(),
{
    if line.len() == 0 {
        (row, col, count, cells)
    } else {
        let ch = line[0];
        if ch == '!' {
            (row, col, count, cells)
        } else if spec_is_digit(ch) {
            spec_rle_line(
                line.skip(1),
                row,
                col,
                sat_count10(count, (ch as u32 - 48) as u32),
                cells,
            )
        } else if spec_is_alive_tag(ch) {
            let k: nat = if count == 0 {
                1
            } else {
                count as nat
            };
            let step = spec_emit_run(row, col, k, cells);
            spec_rle_line(line.skip(1), row, step.0, 0, step.1)
        } else if spec_is_dead_tag(ch) {
            let step: u32 = if count == 0 {
                1
            } else {
                count
            };
            spec_rle_line(line.skip(1), row, sat_add_u32(col, step), 0, cells)
        } else if ch == '$' {
            let step: u32 = if count == 0 {
                1
            } else {
                count
            };
            spec_rle_line(line.skip(1), sat_add_u32(row, step), 0, 0, cells)
        } else {
            spec_rle_line(line.skip(1), row, col, count, cells)
        }
    }
}

/// The whole run-length format: `#` lines are metadata, the first other
/// line is the header and joins the metadata unparsed, the rest is body.
pub open spec fn spec_rle_decode(
    lines: Seq<Seq<char>>,
    header_found: bool,
    row: u32,
    col: u32,
    count: u32,
    meta: Seq<Seq<char>>,
    cells: Seq<Cell>,
) -> (Seq<Seq<char>>, Seq<Cell>)
    decreases lines.len(),
{
    if lines.len() == 0 {
        (meta, cells)
    } else if lines[0].len() > 0 && lines[0][0] == '#' {
        spec_rle_decode(lines.skip(1), header_found, row, col, count, meta.push(lines[0]), cells)
    } else if !header_found {
        spec_rle_decode(lines.skip(1), true, row, col, count, meta.push(lines[0]), cells)
    } else {
        let st = spec_rle_line(lines[0], row, col, count, cells);
        spec_rle_decode(lines.skip(1), true, st.0, st.1, st.2, meta, st.3)
    }
}

/// The two pattern text decoders. Both are total: malformed input is never
/// an error, unknown characters are passed over, and a count or cursor that
/// would leave u32 is held at u32::MAX.
pub struct PatternParser;

impl PatternParser {
    /// Decodes the plain dot format: `!` lines are metadata kept verbatim;
    /// in every other line each character but `.` marks a live cell.
    pub fn parse_cells_data(data: &str) -> (p: Pattern)
        ensures
            p.metadata.deep_view() == spec_plain_decode(
                spec_split_lines(data@),
                0,
                Seq::empty(),
                Seq::empty(),
            ).0,
            p.cells@ == spec_plain_decode(spec_split_lines(data@), 0, Seq::empty(), Seq::empty()).1,
    {
        let lines = split_lines(data);
        let ghost lv = spec_split_lines(data@);
        let mut metadata: Vec<String> = Vec::new();
        let mut cells: Vec<Cell> = Vec::new();
        let mut row: u32 = 0;
        let mut i: usize = 0;
        proof {
            assert(lv.skip(0) =~= lv);
            assert(metadata.deep_view() =~= Seq::<Seq<char>>::empty());
            assert(cells@ =~= Seq::<Cell>::empty());
        }
        while i < lines.len()
            invariant
                i <= lines@.len(),
                lv == spec_split_lines(data@),
                lv == lines.deep_view(),
                lv.len() == lines@.len(),
                spec_plain_decode(lv, 0, Seq::empty(), Seq::empty()) == spec_plain_decode(
                    lv.skip(i as int),
                    row,
                    metadata.deep_view(),
                    cells@,
                ),
            decreases lines@.len() - i,
        {
            let line: &str = lines[i].as_str();
            proof {
                assert(lv.skip(i as int)[0] == line@);
                assert(lv.skip(i as int).skip(1) =~= lv.skip(i as int + 1));
            }
            let llen = line.unicode_len();
            let meta_line = if llen > 0 {
                line.get_char(0) == '!'
            } else {
                false
            };
            if meta_line {
                let ghost prev_meta = metadata.deep_view();
                let owned = lines[i].clone();
                metadata.push(owned);
                proof {
                    assert(metadata.deep_view() =~~= prev_meta.push(line@));
                }
            } else {
                let ghost entry_cells = cells@;
                let mut col: u32 = 0;
                let mut ci: usize = 0;
                proof {
                    assert(line@.skip(0) =~= line@);
                }
                while ci < llen
                    invariant
                        ci <= llen,
                        llen == line@.len(),
                        spec_plain_line(line@, row, 0, entry_cells) == spec_plain_line(
                            line@.skip(ci as int),
                            row,
                            col,
                            cells@,
                        ),
                    decreases llen - ci,
                {
                    proof {
                        assert(line@.skip(ci as int)[0] == line@[ci as int]);
                        assert(line@.skip(ci as int).skip(1) =~= line@.skip(ci as int + 1));
                    }
                    let ch = line.get_char(ci);
                    if ch != '.' {
                        cells.push(Cell::new(row, col));
                    }
                    col = if col == u32::MAX {
                        u32::MAX
                    } else {
                        col + 1
                    };
                    ci = ci + 1;
                }
                proof {
                    assert(line@.skip(llen as int).len() == 0);
                }
                row = if row == u32::MAX {
                    u32::MAX
                } else {
                    row + 1
                };
            }
            i = i + 1;
        }
        proof {
            assert(lv.skip(lv.len() as int).len() == 0);
        }
        Pattern::new(metadata, cells)
    }

    /// Decodes the run-length format: `#` lines and the unparsed header go
    /// to the metadata; body lines drive the cursor state machine of counts,
    /// alive and dead runs, and row breaks.
    pub fn parse_rle_data(data: &str) -> (p: Pattern)
        ensures
            p.metadata.deep_view() == spec_rle_decode(
                spec_split_lines(data@),
                false,
                0,
                0,
                0,
                Seq::empty(),
                Seq::empty(),
            ).0,
            p.cells@ == spec_rle_decode(
                spec_split_lines(data@),
                false,
                0,
                0,
                0,
                Seq::empty(),
                Seq::empty(),
            ).1,
    {
        let lines = split_lines(data);
        let ghost lv = spec_split_lines(data@);
        let mut metadata: Vec<String> = Vec::new();
        let mut cells: Vec<Cell> = Vec::new();
        let mut header_found: bool = false;
        let mut row: u32 = 0;
        let mut col: u32 = 0;
        let mut count: u32 = 0;
        let mut i: usize = 0;
        proof {
            assert(lv.skip(0) =~= lv);
            assert(metadata.deep_view() =~= Seq::<Seq<char>>::empty());
            assert(cells@ =~= Seq::<Cell>::empty());
        }
        while i < lines.len()
            invariant
                i <= lines@.len(),
                lv == spec_split_lines(data@),
                lv == lines.deep_view(),
                lv.len() == lines@.len(),
                spec_rle_decode(lv, false, 0, 0, 0, Seq::empty(), Seq::empty())
                    == spec_rle_decode(
                    lv.skip(i as int),
                    header_found,
                    row,
                    col,
                    count,
                    metadata.deep_view(),
                    cells@,
                ),
            decreases lines@.len() - i,
        {
            let line: &str = lines[i].as_str();
            proof {
                assert(lv.skip(i as int)[0] == line@);
                assert(lv.skip(i as int).skip(1) =~= lv.skip(i as int + 1));
            }
            let llen = line.unicode_len();
            let meta_line = if llen > 0 {
                line.get_char(0) == '#'
            } else {
                false
            };
            if meta_line {
                let ghost prev_meta = metadata.deep_view();
                let owned = lines[i].clone();
                metadata.push(owned);
                proof {
                    assert(metadata.deep_view() =~~= prev_meta.push(line@));
                }
            } else if !header_found {
                let ghost prev_meta = metadata.deep_view();
                let owned = lines[i].clone();
                metadata.push(owned);
                header_found = true;
                proof {
                    assert(metadata.deep_view() =~~= prev_meta.push(line@));
                }
            } else {
                let ghost entry_row = row;
                let ghost entry_col = col;
                let ghost entry_count = count;
                let ghost entry_cells = cells@;
                let mut ci: usize = 0;
                proof {
                    assert(line@.skip(0) =~= line@);
                }
                loop
                    invariant_except_break
                        ci <= llen,
                        spec_rle_line(line@, entry_row, entry_col, entry_count, entry_cells)
                            == spec_rle_line(line@.skip(ci as int), row, col, count, cells@),
                    invariant
                        llen == line@.len(),
                    ensures
                        spec_rle_line(line@, entry_row, entry_col, entry_count, entry_cells) == (
                        row,
                        col,
                        count,
                        cells@,
                        ),
                    decreases llen - ci,
                {
                    if ci == llen {
                        proof {
                            assert(line@.skip(ci as int).len() == 0);
                        }
                        break ;
                    }
                    proof {
                        assert(line@.skip(ci as int)[0] == line@[ci as int]);
                        assert(line@.skip(ci as int).skip(1) =~= line@.skip(ci as int + 1));
                    }
                    let ch = line.get_char(ci);
                    if ch == '!' {
                        break ;
                    }
                    let code: u32 = ch as u32;
                    if 48 <= code && code <= 57 {
                        let d: u32 = code - 48;
                        let big: u64 = count as u64 * 10 + d as u64;
                        count = if big > u32::MAX as u64 {
                            u32::MAX
                        } else {
                            big as u32
                        };
                    } else if ch == 'o' || ch == 'x' || ch == 'y' || ch == 'z' || ch == 'O' || ch
                        == 'X' || ch == 'Y' || ch == 'Z' {
                        let ghost run_col = col;
                        let ghost run_cells = cells@;
                        let ghost k: nat = if count == 0 {
                            1nat
                        } else {
                            count as nat
                        };
                        if count == 0 {
                            cells.push(Cell::new(row, col));
                            col = if col == u32::MAX {
                                u32::MAX
                            } else {
                                col + 1
                            };
                            proof {
                                let one = run_cells.push(Cell { row, col: run_col });
                                assert(spec_emit_run(row, sat_inc_u32(run_col), 0, one) == (
                                sat_inc_u32(run_col),
                                one,
                                ));
                                assert(spec_emit_run(row, run_col, k, run_cells) == (
                                col,
                                cells@,
                                ));
                            }
                        } else {
                            let mut remaining: u32 = count;
                            while remaining > 0
                                invariant
                                    remaining <= count,
                                    spec_emit_run(row, run_col, k, run_cells) == spec_emit_run(
                                        row,
                                        col,
                                        remaining as nat,
                                        cells@,
                                    ),
                                decreases remaining,
                            {
                                cells.push(Cell::new(row, col));
                                col = if col == u32::MAX {
                                    u32::MAX
                                } else {
                                    col + 1
                                };
                                remaining = remaining - 1;
                            }
                            proof {
                                assert(spec_emit_run(row, run_col, k, run_cells) == (
                                col,
                                cells@,
                                ));
                            }
                        }
                        count = 0;
                    } else if ch == 'b' || ch == 'B' {
                        let step: u32 = if count == 0 {
                            1
                        } else {
                            count
                        };
                        col = if step > u32::MAX - col {
                            u32::MAX
                        } else {
                            col + step
                        };
                        count = 0;
                    } else if ch == '$' {
                        let step: u32 = if count == 0 {
                            1
                        } else {
                            count
                        };
                        row = if step > u32::MAX - row {
                            u32::MAX
                        } else {
                            row + step
                        };
                        col = 0;
                        count = 0;
                    }
                    ci = ci + 1;
                }
            }
            i = i + 1;
        }
        proof {
            assert(lv.skip(lv.len() as int).len() == 0);
        }
        Pattern::new(metadata, cells)
    }
}

} // verus!

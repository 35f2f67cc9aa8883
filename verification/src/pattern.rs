use vstd::prelude::*;

use crate::cell::Cell;

verus! {

/// Whitespace as the name query trims it: the ASCII blank characters.
pub open spec fn spec_is_space(ch: char) -> bool {
    ch == ' ' || ch == '\t' || ch == '\n' || ch == '\r' || ch == '\u{b}' || ch == '\u{c}'
}

pub open spec fn spec_trim_start(s: Seq<char>) -> Seq<char>
    decreases s.len(),
{
    if s.len() > 0 && spec_is_space(s[0]) {
        spec_trim_start(s.skip(1))
    } else {
        s
    }
}

pub open spec fn spec_trim_end(s: Seq<char>) -> Seq<char>
    decreases s.len(),
{
    if s.len() > 0 && spec_is_space(s[s.len() - 1]) {
        spec_trim_end(s.take(s.len() - 1))
    } else {
        s
    }
}

/// The characters of s with blank characters removed from both ends.
pub open spec fn spec_trim(s: Seq<char>) -> Seq<char> {
    spec_trim_end(spec_trim_start(s))
}

/// p stands at the front of s.
pub open spec fn spec_has_prefix(s: Seq<char>, p: Seq<char>) -> bool {
    p.len() <= s.len() && s.take(p.len() as int) == p
}

/// s with every leading repetition of p removed.
pub open spec fn spec_strip_prefix_repeated(s: Seq<char>, p: Seq<char>) -> Seq<char>
    decreases s.len(),
{
    if p.len() > 0 && spec_has_prefix(s, p) {
        spec_strip_prefix_repeated(s.skip(p.len() as int), p)
    } else {
        s
    }
}

/// The name one metadata line offers: the rest of the line behind a
/// `!Name:` or `#N` marker, trimmed, or nothing.
pub open spec fn spec_line_name(line: Seq<char>) -> Option<Seq<char>> {
    if spec_has_prefix(line, "!Name:"@) {
        Some(spec_trim(spec_strip_prefix_repeated(line, "!Name:"@)))
    } else if spec_has_prefix(line, "#N"@) {
        Some(spec_trim(spec_strip_prefix_repeated(line, "#N"@)))
    } else {
        None
    }
}

/// The first name any metadata line offers.
pub open spec fn spec_scan_name(lines: Seq<Seq<char>>) -> Option<Seq<char>>
    decreases lines.len(),
{
    if lines.len() == 0 {
        None
    } else if spec_line_name(lines[0]) is Some {
        spec_line_name(lines[0])
    } else {
        spec_scan_name(lines.skip(1))
    }
}

/// The greatest column any listed cell reaches, or zero.
pub open spec fn spec_max_col_extent(cells: Seq<Cell>) -> int
    decreases cells.len(),
{
    if cells.len() == 0 {
        0
    } else {
        let rest = spec_max_col_extent(cells.skip(1));
        if cells[0].col as int > rest {
            cells[0].col as int
        } else {
            rest
        }
    }
}

/// The greatest row any listed cell reaches, or zero.
pub open spec fn spec_max_row_extent(cells: Seq<Cell>) -> int
    decreases cells.len(),
{
    if cells.len() == 0 {
        0
    } else {
        let rest = spec_max_row_extent(cells.skip(1));
        if cells[0].row as int > rest {
            cells[0].row as int
        } else {
            rest
        }
    }
}

fn is_space(ch: char) -> (b: bool)
    ensures
        b == spec_is_space(ch),
{
    ch == ' ' || ch == '\t' || ch == '\n' || ch == '\r' || ch == '\u{b}' || ch == '\u{c}'
}

/// Whether p stands at the front of s.
pub fn has_prefix(s: &str, p: &str) -> (b: bool)
    ensures
        b == spec_has_prefix(s@, p@),
{
    let n = p.unicode_len();
    let m = s.unicode_len();
    if n > m {
        return false;
    }
    let mut i: usize = 0;
    while i < n
        invariant
            i <= n,
            n == p@.len(),
            n <= s@.len(),
            forall|k: int| 0 <= k < i as int ==> s@[k] == p@[k],
        decreases n - i,
    {
        if s.get_char(i) != p.get_char(i) {
            proof {
                assert(s@.take(n as int)[i as int] != p@[i as int]);
            }
            return false;
        }
        i = i + 1;
    }
    proof {
        assert(s@.take(n as int) =~= p@);
    }
    true
}

/// s with every leading repetition of p removed.
fn strip_prefix_repeated<'a>(s: &'a str, p: &str) -> (r: &'a str)
    requires
        p@.len() > 0,
    ensures
        r@ == spec_strip_prefix_repeated(s@, p@),
{
    let mut cur: &'a str = s;
    loop
        invariant
            p@.len() > 0,
            spec_strip_prefix_repeated(s@, p@) == spec_strip_prefix_repeated(cur@, p@),
        decreases cur@.len(),
    {
        if has_prefix(cur, p) {
            let n = p.unicode_len();
            let m = cur.unicode_len();
            let next = cur.substring_char(n, m);
            proof {
                assert(next@ =~= cur@.skip(n as int));
            }
            cur = next;
        } else {
            return cur;
        }
    }
}

/// The blank characters of s removed from both ends.
fn trim_str<'a>(s: &'a str) -> (r: &'a str)
    ensures
        r@ == spec_trim(s@),
{
    let len = s.unicode_len();
    let mut start: usize = 0;
    proof {
        assert(s@.skip(0) =~= s@);
    }
    loop
        invariant
            start <= len,
            len == s@.len(),
            spec_trim_start(s@) == spec_trim_start(s@.skip(start as int)),
        ensures
            start <= len,
            len == s@.len(),
            spec_trim_start(s@) == s@.skip(start as int),
        decreases len - start,
    {
        if start < len {
            let ch = s.get_char(start);
            if is_space(ch) {
                proof {
                    assert(s@.skip(start as int)[0] == s@[start as int]);
                    assert(s@.skip(start as int).skip(1) =~= s@.skip(start as int + 1));
                }
                start = start + 1;
            } else {
                proof {
                    assert(s@.skip(start as int)[0] == s@[start as int]);
                    assert(spec_trim_start(s@.skip(start as int)) == s@.skip(start as int));
                }
                break ;
            }
        } else {
            proof {
                assert(s@.skip(start as int).len() == 0);
            }
            break ;
        }
    }
    let ghost t = s@.skip(start as int);
    let mut end: usize = len;
    proof {
        assert(s@.subrange(start as int, len as int) =~= t);
    }
    loop
        invariant
            start <= end <= len,
            len == s@.len(),
            t == s@.skip(start as int),
            spec_trim_start(s@) == t,
            spec_trim_end(t) == spec_trim_end(s@.subrange(start as int, end as int)),
        ensures
            start <= end <= len,
            len == s@.len(),
            spec_trim_end(t) == s@.subrange(start as int, end as int),
        decreases end,
    {
        if end > start {
            let ch = s.get_char(end - 1);
            if is_space(ch) {
                proof {
                    let u = s@.subrange(start as int, end as int);
                    assert(u[u.len() - 1] == s@[end as int - 1]);
                    assert(u.take(u.len() - 1) =~= s@.subrange(start as int, end as int - 1));
                }
                end = end - 1;
            } else {
                proof {
                    let u = s@.subrange(start as int, end as int);
                    assert(u[u.len() - 1] == s@[end as int - 1]);
                    assert(spec_trim_end(u) == u);
                }
                break ;
            }
        } else {
            proof {
                assert(s@.subrange(start as int, end as int).len() == 0);
            }
            break ;
        }
    }
    let r = s.substring_char(start, end);
    proof {
        assert(r@ == spec_trim_end(t));
    }
    r
}

/// An immutable parse result: the raw metadata lines of a pattern text, and
/// the live cells it describes, in the order the decoder met them, possibly
/// with duplicates.
pub struct Pattern {
    pub metadata: Vec<String>,
    pub cells: Vec<Cell>,
}

impl Pattern {
    /// The name the metadata gives the pattern: the first line carrying a
    /// `!Name:` or `#N` marker, stripped and trimmed; else the first line
    /// behind its leading `!` or `#`; else nothing.
    pub open spec fn spec_name(self) -> Option<Seq<char>> {
        let lines = self.metadata.deep_view();
        if lines.len() == 0 {
            None
        } else {
            match spec_scan_name(lines) {
                Some(nm) => Some(nm),
                None => {
                    if lines[0].len() > 0 && (lines[0][0] == '!' || lines[0][0] == '#') {
                        Some(spec_trim(lines[0].skip(1)))
                    } else {
                        None
                    }
                },
            }
        }
    }

    pub fn new(metadata: Vec<String>, cells: Vec<Cell>) -> (p: Pattern)
        ensures
            p.metadata == metadata,
            p.cells == cells,
    {
        Pattern { metadata, cells }
    }

    /// A copy of the live-cell list.
    pub fn cells(&self) -> (r: Vec<Cell>)
        ensures
            r@ == self.cells@,
    {
        let mut out: Vec<Cell> = Vec::new();
        let mut i: usize = 0;
        while i < self.cells.len()
            invariant
                i <= self.cells@.len(),
                out@.len() == i as int,
                forall|k: int| 0 <= k < i as int ==> out@[k] == self.cells@[k],
            decreases self.cells@.len() - i,
        {
            out.push(self.cells[i]);
            i = i + 1;
        }
        proof {
            assert(out@ =~= self.cells@);
        }
        out
    }

    /// A copy of the metadata lines.
    pub fn metadata(&self) -> (r: Vec<String>)
        ensures
            r@ == self.metadata@,
    {
        let mut out: Vec<String> = Vec::new();
        let mut i: usize = 0;
        while i < self.metadata.len()
            invariant
                i <= self.metadata@.len(),
                out@.len() == i as int,
                forall|k: int| 0 <= k < i as int ==> out@[k] == self.metadata@[k],
            decreases self.metadata@.len() - i,
        {
            out.push(self.metadata[i].clone());
            i = i + 1;
        }
        proof {
            assert(out@ =~= self.metadata@);
        }
        out
    }

    /// The display name the metadata offers, if any.
    pub fn name(&self) -> (r: Option<String>)
        ensures
            match r {
                Some(nm) => self.spec_name() == Some(nm@),
                None => self.spec_name() is None,
            },
    {
        let n = self.metadata.len();
        if n == 0 {
            return None;
        }
        proof {
            reveal_strlit("!Name:");
            reveal_strlit("#N");
        }
        let ghost lines = self.metadata.deep_view();
        proof {
            assert(lines.len() == n as int);
        }
        let mut i: usize = 0;
        let mut found: Option<String> = None;
        proof {
            assert(lines.skip(0) =~= lines);
        }
        loop
            invariant_except_break
                found is None,
                i <= n,
                spec_scan_name(lines) == spec_scan_name(lines.skip(i as int)),
            invariant
                n == self.metadata@.len(),
                lines == self.metadata.deep_view(),
                "!Name:"@.len() > 0,
                "#N"@.len() > 0,
            ensures
                match found {
                    Some(f) => spec_scan_name(lines) == Some(f@),
                    None => spec_scan_name(lines) is None,
                },
            decreases n - i,
        {
            if i == n {
                proof {
                    assert(lines.skip(i as int).len() == 0);
                }
                break ;
            }
            let line: &str = self.metadata[i].as_str();
            proof {
                assert(lines.skip(i as int)[0] == line@);
                assert(lines.skip(i as int).skip(1) =~= lines.skip(i as int + 1));
            }
            if has_prefix(line, "!Name:") {
                let stripped = strip_prefix_repeated(line, "!Name:");
                let trimmed = trim_str(stripped);
                found = Some(trimmed.to_owned());
                proof {
                    assert(spec_line_name(line@) is Some);
                    assert(spec_scan_name(lines.skip(i as int)) == spec_line_name(line@));
                }
                break ;
            } else if has_prefix(line, "#N") {
                let stripped = strip_prefix_repeated(line, "#N");
                let trimmed = trim_str(stripped);
                found = Some(trimmed.to_owned());
                proof {
                    assert(spec_line_name(line@) is Some);
                    assert(spec_scan_name(lines.skip(i as int)) == spec_line_name(line@));
                }
                break ;
            }
            proof {
                assert(spec_line_name(line@) is None);
            }
            i = i + 1;
        }
        match found {
            Some(nm) => Some(nm),
            None => {
                let first: &str = self.metadata[0].as_str();
                proof {
                    assert(lines[0] == first@);
                }
                let flen = first.unicode_len();
                if flen > 0 {
                    let ch = first.get_char(0);
                    if ch == '!' || ch == '#' {
                        let rest = first.substring_char(1, flen);
                        proof {
                            assert(rest@ =~= first@.skip(1));
                        }
                        let trimmed = trim_str(rest);
                        Some(trimmed.to_owned())
                    } else {
                        None
                    }
                } else {
                    None
                }
            },
        }
    }

    /// The extent of the pattern: the greatest column any live cell reaches,
    /// carried in the `row` slot, and the greatest row, carried in the `col`
    /// slot. The coordinate type doubles as a width/height pair here.
    pub fn dimensions(&self) -> (r: Cell)
        ensures
            r.row as int == spec_max_col_extent(self.cells@),
            r.col as int == spec_max_row_extent(self.cells@),
    {
        let mut width: u32 = 0;
        let mut height: u32 = 0;
        let mut i: usize = self.cells.len();
        while i > 0
            invariant
                i <= self.cells@.len(),
                width as int == spec_max_col_extent(self.cells@.skip(i as int)),
                height as int == spec_max_row_extent(self.cells@.skip(i as int)),
            decreases i,
        {
            i = i - 1;
            let cl = self.cells[i];
            proof {
                assert(self.cells@.skip(i as int)[0] == cl);
                assert(self.cells@.skip(i as int).skip(1) =~= self.cells@.skip(i as int + 1));
            }
            if cl.row > height {
                height = cl.row;
            }
            if cl.col > width {
                width = cl.col;
            }
        }
        proof {
            assert(self.cells@.skip(0) =~= self.cells@);
        }
        Cell { row: width, col: height }
    }
}

} // verus!

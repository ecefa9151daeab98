//! The mathematical model of a configuration document: a sequence of lines
//! and a table mapping dotted section paths to `(start, end)` line indices,
//! together with the specification of every operation on it.

use vstd::prelude::*;
use crate::text::{
    trim_s, starts_with_s, split_s, join_s, indent_s, key_of_s, find_idx, lines_s,
    strip_char_end,
};

verus! {

/// The model of a document: the line buffer and the section table.
#[verifier::ext_equal]
pub ghost struct DocModel {
    pub lines: Seq<Seq<char>>,
    pub table: Map<Seq<char>, (int, int)>,
}

/// Every registered range lies inside the first `n` lines, with the opening
/// line strictly before the closing line.
pub open spec fn table_wf(t: Map<Seq<char>, (int, int)>, n: int) -> bool {
    forall|k: Seq<char>| #[trigger]
        t.dom().contains(k) ==> 0 <= t[k].0 < t[k].1 < n
}

pub open spec fn doc_wf(d: DocModel) -> bool {
    table_wf(d.table, d.lines.len() as int)
}

/// A line that opens a section: trimmed, it ends with `{`.
pub open spec fn is_header(line: Seq<char>) -> bool {
    trim_s(line).len() > 0 && trim_s(line)[trim_s(line).len() - 1] == '{'
}

/// The name a header line declares: the trimmed line with its trailing
/// braces removed and trimmed again.
pub open spec fn header_name(line: Seq<char>) -> Seq<char> {
    trim_s(strip_char_end(trim_s(line), '{'))
}

/// A line that closes a section: trimmed, it is exactly `}`.
pub open spec fn is_closer(line: Seq<char>) -> bool {
    trim_s(line) == seq!['}']
}

/// The state of the section indexer while it scans: the stack of open
/// sections (name and opening line index) and the table built so far.
#[verifier::ext_equal]
pub ghost struct ParseState {
    pub stack: Seq<(Seq<char>, int)>,
    pub table: Map<Seq<char>, (int, int)>,
}

/// The dotted path of the innermost open section: the names on the stack,
/// outer to inner, joined with dots.
pub open spec fn stack_path(stack: Seq<(Seq<char>, int)>) -> Seq<char> {
    join_s(stack.map_values(|p: (Seq<char>, int)| p.0), '.')
}

/// One step of the section indexer on line `i`: a header pushes, a closer
/// with a non-empty stack pops and registers the section, and any other
/// line (or a closer with an empty stack) changes nothing.
pub open spec fn parse_line(st: ParseState, line: Seq<char>, i: int) -> ParseState {
    if is_header(line) {
        ParseState { stack: st.stack.push((header_name(line), i)), table: st.table }
    } else if is_closer(line) && st.stack.len() > 0 {
        let start = st.stack[st.stack.len() - 1].1;
        ParseState {
            stack: st.stack.drop_last(),
            table: st.table.insert(stack_path(st.stack), (start, i)),
        }
    } else {
        st
    }
}

/// The indexer state after scanning the first `n` lines.
pub open spec fn parse_upto(st: ParseState, ls: Seq<Seq<char>>, n: int) -> ParseState
    decreases n,
{
    if n <= 0 {
        st
    } else {
        parse_line(parse_upto(st, ls, n - 1), ls[n - 1], n - 1)
    }
}

/// The section table after scanning all of `ls`, starting from table `t0`.
pub open spec fn parse_table(t0: Map<Seq<char>, (int, int)>, ls: Seq<Seq<char>>) -> Map<
    Seq<char>,
    (int, int),
> {
    parse_upto(ParseState { stack: seq![], table: t0 }, ls, ls.len() as int).table
}

/// A range after `off` lines were inserted before line `pos`: a range at or
/// after the insertion moves whole, one that straddles it grows at the end,
/// one entirely before it is untouched.
pub open spec fn shift_range(r: (int, int), pos: int, off: int) -> (int, int) {
    if r.0 >= pos {
        (r.0 + off, r.1 + off)
    } else if r.1 >= pos {
        (r.0, r.1 + off)
    } else {
        r
    }
}

/// Every range of the table rebased for an insertion of `off` lines at `pos`.
pub open spec fn shift_table(t: Map<Seq<char>, (int, int)>, pos: int, off: int) -> Map<
    Seq<char>,
    (int, int),
> {
    Map::new(|k: Seq<char>| t.dom().contains(k), |k: Seq<char>| shift_range(t[k], pos, off))
}

/// The last segment of a dotted path.
pub open spec fn last_seg(path: Seq<char>) -> Seq<char> {
    split_s(path, '.').last()
}

/// The header line of a freshly created section at nesting depth `depth`.
pub open spec fn header_line_for(name: Seq<char>, depth: int) -> Seq<char> {
    indent_s(depth) + name + seq![' ', '{']
}

/// The closing line of a freshly created section at nesting depth `depth`.
pub open spec fn closer_line_for(depth: int) -> Seq<char> {
    indent_s(depth) + seq!['}']
}

/// Whether section creation at `pos` first inserts a separating blank line:
/// it does when the preceding line exists and is not blank.
pub open spec fn needs_gap(lines: Seq<Seq<char>>, pos: int) -> bool {
    pos > 0 && trim_s(lines[pos - 1]).len() > 0
}

/// The block of lines a section creation inserts: an optional separating
/// blank, the header, the closer, and a trailing blank.
pub open spec fn creation_block(name: Seq<char>, depth: int, gap: bool) -> Seq<Seq<char>> {
    let block = seq![header_line_for(name, depth), closer_line_for(depth), seq![]];
    if gap {
        seq![Seq::<char>::empty()] + block
    } else {
        block
    }
}

/// A missing section created at `pos`: its block is inserted, every stored
/// range is rebased once for the whole insertion, and the new path is
/// registered with the header and closer line indices.
pub open spec fn create_cat(d: DocModel, path: Seq<char>, depth: int, pos: int) -> DocModel {
    let g: int = if needs_gap(d.lines, pos) {
        1
    } else {
        0
    };
    let block = creation_block(last_seg(path), depth, g == 1);
    DocModel {
        lines: d.lines.take(pos) + block + d.lines.skip(pos),
        table: shift_table(d.table, pos, 3 + g).insert(path, (pos + g, pos + g + 1)),
    }
}

/// The entry line as it is written into the buffer: indented one level
/// deeper than its section.
pub open spec fn fmt_entry(entry: Seq<char>, depth: int) -> Seq<char> {
    indent_s(depth + 1) + entry
}

/// The first line index in `[i, e]` whose trimmed text starts with `key`,
/// or `e + 1` if none does.
pub open spec fn first_match_from(lines: Seq<Seq<char>>, i: int, e: int, key: Seq<char>) -> int
    decreases e + 1 - i,
{
    if i > e {
        e + 1
    } else if starts_with_s(trim_s(lines[i]), key) {
        i
    } else {
        first_match_from(lines, i + 1, e, key)
    }
}

/// The final step of entry insertion into the section `(s, e)` at depth
/// `depth`: a line matching the entry's key is overwritten in place; with
/// no match the entry is inserted just before the closing line and every
/// range is rebased for the one inserted line.
pub open spec fn insert_entry_at(d: DocModel, s: int, e: int, depth: int, entry: Seq<char>) -> DocModel {
    let key = key_of_s(entry);
    let m = first_match_from(d.lines, s, e, key);
    if m <= e {
        DocModel { lines: d.lines.update(m, fmt_entry(entry, depth)), table: d.table }
    } else {
        DocModel {
            lines: d.lines.insert(e, fmt_entry(entry, depth)),
            table: shift_table(d.table, e, 1),
        }
    }
}

/// The entry inserter from path segment `i` on, with the insertion cursor
/// at `pos`: each missing prefix section is created anchored at the cursor,
/// the cursor moves to the section's closing line, and the deepest segment
/// receives the entry.
pub open spec fn add_entry_loop(
    d: DocModel,
    parts: Seq<Seq<char>>,
    entry: Seq<char>,
    i: int,
    pos: int,
) -> DocModel
    decreases parts.len() - i,
{
    if i < 0 || i >= parts.len() {
        d
    } else {
        let cur = join_s(parts.take(i + 1), '.');
        let d1 = if !d.table.dom().contains(cur) {
            create_cat(d, cur, i, pos)
        } else {
            d
        };
        let r = d1.table[cur];
        if i == parts.len() - 1 {
            insert_entry_at(d1, r.0, r.1, i, entry)
        } else {
            add_entry_loop(d1, parts, entry, i + 1, r.1)
        }
    }
}

/// What `add_entry` does: the path is split at dots (an empty path yields
/// one empty segment) and the entry inserter walks the segments with the
/// cursor starting at the end of the buffer.
pub open spec fn add_entry_s(d: DocModel, category: Seq<char>, entry: Seq<char>) -> DocModel {
    add_entry_loop(d, split_s(category, '.'), entry, 0, d.lines.len() as int)
}

/// The headless entry line: `key = value`.
pub open spec fn headless_line(key: Seq<char>, value: Seq<char>) -> Seq<char> {
    key + seq![' ', '=', ' '] + value
}

/// What `add_entry_headless` does: an empty key and value append one blank
/// line, always; anything else appends `key = value` unless some line
/// already equals it after trimming both.
pub open spec fn add_headless_s(d: DocModel, key: Seq<char>, value: Seq<char>) -> DocModel {
    if key.len() == 0 && value.len() == 0 {
        DocModel { lines: d.lines.push(seq![]), table: d.table }
    } else {
        let e = headless_line(key, value);
        if exists|i: int| 0 <= i < d.lines.len() && trim_s(#[trigger] d.lines[i]) == trim_s(e) {
            d
        } else {
            DocModel { lines: d.lines.push(e), table: d.table }
        }
    }
}

/// What rendering yields: the lines joined with newlines, with no trailing
/// newline after the last line.
pub open spec fn render_s(lines: Seq<Seq<char>>) -> Seq<char> {
    join_s(lines, '\n')
}

/// What parsing a text from an empty document yields.
pub open spec fn parse_doc_s(text: Seq<char>) -> DocModel {
    DocModel {
        lines: lines_s(text),
        table: parse_table(Map::empty(), lines_s(text)),
    }
}

} // verus!

//! The configuration document itself: an ordered line buffer and a section
//! table, kept consistent through every structural edit.

use vstd::prelude::*;
use crate::model::{
    DocModel, ParseState, add_entry_loop, add_entry_s, add_headless_s, closer_line_for,
    create_cat, creation_block, first_match_from, fmt_entry, header_line_for,
    header_name, headless_line, insert_entry_at, is_closer, is_header, last_seg,
    needs_gap, parse_doc_s, parse_line, parse_table, parse_upto, render_s, shift_range,
    shift_table, stack_path, table_wf,
};
use crate::text::{
    indent_str, join_s, key_of, key_of_s, lemma_join_push, lemma_split_nonempty,
    lemma_strip_char_end_at, lines_s, split_char, split_lines, split_s, starts_with_s,
    str_eq, str_starts_with, trim_of, trim_s,
};

verus! {

/// A configuration document: the text's lines, in order and verbatim, and
/// the table of sections, each path mapped to the line indices of its
/// opening and closing lines.
pub struct HyprlandConfig {
    pub content: Vec<String>,
    pub sections: Vec<(String, usize, usize)>,
}

/// The section table a list of entries denotes: later entries overwrite
/// earlier ones with the same path.
pub open spec fn table_of(entries: Seq<(String, usize, usize)>) -> Map<Seq<char>, (int, int)>
    decreases entries.len(),
{
    if entries.len() == 0 {
        Map::empty()
    } else {
        table_of(entries.drop_last()).insert(
            entries.last().0@,
            (entries.last().1 as int, entries.last().2 as int),
        )
    }
}

/// No two entries carry the same path.
pub open spec fn unique_paths(entries: Seq<(String, usize, usize)>) -> bool {
    forall|i: int, j: int|
        0 <= i < j < entries.len() ==> (#[trigger] entries[i]).0@ != (#[trigger] entries[j]).0@
}

impl View for HyprlandConfig {
    type V = DocModel;

    open spec fn view(&self) -> DocModel {
        DocModel { lines: self.content.deep_view(), table: table_of(self.sections@) }
    }
}

impl HyprlandConfig {
    /// The structural invariant: paths are unique and every stored range
    /// lies inside the buffer, opening line strictly before closing line.
    pub open spec fn wf(self) -> bool {
        &&& unique_paths(self.sections@)
        &&& forall|i: int|
            0 <= i < self.sections@.len() ==> (#[trigger] self.sections@[i]).1
                < self.sections@[i].2 < self.content@.len()
    }
}

/// A key is in the table exactly when some entry carries it.
pub proof fn lemma_table_of_dom(entries: Seq<(String, usize, usize)>)
    ensures
        forall|i: int|
            0 <= i < entries.len() ==> table_of(entries).dom().contains(
                (#[trigger] entries[i]).0@,
            ),
        forall|k: Seq<char>|
            #[trigger] table_of(entries).dom().contains(k) ==> exists|i: int|
                0 <= i < entries.len() && (#[trigger] entries[i]).0@ == k,
    decreases entries.len(),
{
    if entries.len() > 0 {
        lemma_table_of_dom(entries.drop_last());
        assert(forall|i: int|
            0 <= i < entries.len() - 1 ==> entries.drop_last()[i] == entries[i]);
        assert(forall|i: int|
            0 <= i < entries.len() - 1 ==> table_of(entries).dom().contains(
                (#[trigger] entries[i]).0@,
            ));
        assert(entries[entries.len() - 1] == entries.last());
        assert forall|k: Seq<char>| #[trigger] table_of(entries).dom().contains(k) implies exists|
            i: int,
        | 0 <= i < entries.len() && (#[trigger] entries[i]).0@ == k by {
            if k == entries.last().0@ {
                assert(entries[entries.len() - 1].0@ == k);
            } else {
                assert(table_of(entries.drop_last()).dom().contains(k));
                let i = choose|i: int|
                    0 <= i < entries.drop_last().len() && (#[trigger] entries.drop_last()[i]).0@
                        == k;
                assert(entries[i].0@ == k);
            }
        }
    }
}

/// With unique paths, the table maps each entry's path to its range.
pub proof fn lemma_table_of_at(entries: Seq<(String, usize, usize)>, i: int)
    requires
        unique_paths(entries),
        0 <= i < entries.len(),
    ensures
        table_of(entries).dom().contains(entries[i].0@),
        table_of(entries)[entries[i].0@] == (entries[i].1 as int, entries[i].2 as int),
    decreases entries.len(),
{
    if i == entries.len() - 1 {
        assert(entries[i] == entries.last());
    } else {
        assert(unique_paths(entries.drop_last())) by {
            assert(forall|a: int, b: int|
                0 <= a < b < entries.len() - 1 ==> (#[trigger] entries.drop_last()[a]).0@ != (
                #[trigger] entries.drop_last()[b]).0@);
        }
        lemma_table_of_at(entries.drop_last(), i);
        assert(entries.drop_last()[i] == entries[i]);
        assert(entries[i].0@ != entries.last().0@);
    }
}

/// A well-formed document's table keeps every range inside the buffer.
pub proof fn lemma_wf_table(c: HyprlandConfig)
    requires
        c.wf(),
    ensures
        table_wf(c@.table, c@.lines.len() as int),
{
    assert(c@.lines.len() == c.content@.len());
    lemma_table_of_dom(c.sections@);
    assert forall|k: Seq<char>| #[trigger] c@.table.dom().contains(k) implies 0 <= c@.table[k].0
        < c@.table[k].1 < c@.lines.len() by {
        let i = choose|i: int| 0 <= i < c.sections@.len() && (#[trigger] c.sections@[i]).0@ == k;
        lemma_table_of_at(c.sections@, i);
    }
}

/// Replacing the entry at `i` by one with the same path updates the table
/// at that path alone.
pub proof fn lemma_table_of_update(
    a: Seq<(String, usize, usize)>,
    b: Seq<(String, usize, usize)>,
    i: int,
)
    requires
        unique_paths(a),
        0 <= i < a.len(),
        b.len() == a.len(),
        b[i].0@ == a[i].0@,
        forall|j: int| 0 <= j < a.len() && j != i ==> a[j] == #[trigger] b[j],
    ensures
        table_of(b) == table_of(a).insert(a[i].0@, (b[i].1 as int, b[i].2 as int)),
    decreases a.len(),
{
    if i == a.len() - 1 {
        assert(b.drop_last() =~= a.drop_last());
        assert(table_of(b) =~= table_of(a).insert(a[i].0@, (b[i].1 as int, b[i].2 as int)));
    } else {
        assert(unique_paths(a.drop_last())) by {
            assert(forall|x: int, y: int|
                0 <= x < y < a.len() - 1 ==> (#[trigger] a.drop_last()[x]).0@ != (
                #[trigger] a.drop_last()[y]).0@);
        }
        assert(forall|j: int|
            0 <= j < a.len() - 1 && j != i ==> a.drop_last()[j] == #[trigger] b.drop_last()[j]);
        assert(b.drop_last()[i] == b[i]);
        assert(a.drop_last()[i] == a[i]);
        lemma_table_of_update(a.drop_last(), b.drop_last(), i);
        assert(b.last() == a.last());
        assert(a[i].0@ != a.last().0@);
        assert(table_of(b) =~= table_of(a).insert(a[i].0@, (b[i].1 as int, b[i].2 as int)));
    }
}

/// Shifting every entry's range pointwise rebases the whole table.
pub proof fn lemma_table_of_shift(
    a: Seq<(String, usize, usize)>,
    b: Seq<(String, usize, usize)>,
    pos: int,
    off: int,
)
    requires
        b.len() == a.len(),
        forall|i: int|
            0 <= i < a.len() ==> (#[trigger] b[i]).0@ == (#[trigger] a[i]).0@ && (
            b[i].1 as int, b[i].2 as int) == shift_range((a[i].1 as int, a[i].2 as int), pos, off),
    ensures
        table_of(b) == shift_table(table_of(a), pos, off),
    decreases a.len(),
{
    if a.len() == 0 {
        assert(table_of(b) =~= shift_table(table_of(a), pos, off));
    } else {
        assert(forall|i: int|
            0 <= i < a.len() - 1 ==> a.drop_last()[i] == a[i] && #[trigger] b.drop_last()[i]
                == b[i]);
        lemma_table_of_shift(a.drop_last(), b.drop_last(), pos, off);
        assert(b.last() == b[a.len() - 1]);
        assert(a.last() == a[a.len() - 1]);
        assert(table_of(b) =~= shift_table(table_of(a), pos, off));
    }
}

impl HyprlandConfig {
    /// The registered range of a section, or `None` when the path is not
    /// indexed.
    pub fn get_section(&self, path: &str) -> (r: Option<(usize, usize)>)
        requires
            self.wf(),
        ensures
            match r {
                Some(p) => self@.table.dom().contains(path@) && self@.table[path@] == (
                p.0 as int,
                p.1 as int,
                ),
                None => !self@.table.dom().contains(path@),
            },
    {
        proof {
            lemma_table_of_dom(self.sections@);
        }
        let n: usize = self.sections.len();
        let mut i: usize = 0;
        while i < n
            invariant
                0 <= i <= n,
                n == self.sections@.len(),
                self.wf(),
                forall|j: int| 0 <= j < i ==> (#[trigger] self.sections@[j]).0@ != path@,
            decreases n - i,
        {
            let t: &(String, usize, usize) = &self.sections[i];
            if str_eq(t.0.as_str(), path) {
                proof {
                    lemma_table_of_at(self.sections@, i as int);
                }
                return Some((t.1, t.2));
            }
            i = i + 1;
        }
        proof {
            if self@.table.dom().contains(path@) {
                let j = choose|j: int|
                    0 <= j < self.sections@.len() && (#[trigger] self.sections@[j]).0@ == path@;
                assert(false);
            }
        }
        None
    }

    /// Registers `path -> (s, e)`, replacing the range of an already
    /// registered path.
    fn set_section(&mut self, path: &str, s: usize, e: usize)
        requires
            unique_paths(old(self).sections@),
        ensures
            final(self).content == old(self).content,
            unique_paths(final(self).sections@),
            table_of(final(self).sections@) == table_of(old(self).sections@).insert(
                path@,
                (s as int, e as int),
            ),
            forall|i: int|
                0 <= i < final(self).sections@.len() ==> ((#[trigger] final(self).sections@[i]).1
                    == s && final(self).sections@[i].2 == e) || (exists|j: int|
                    0 <= j < old(self).sections@.len() && final(self).sections@[i].1 == (
                    #[trigger] old(self).sections@[j]).1 && final(self).sections@[i].2
                        == old(self).sections@[j].2),
    {
        let n: usize = self.sections.len();
        let mut i: usize = 0;
        while i < n
            invariant
                0 <= i <= n,
                n == self.sections@.len(),
                unique_paths(self.sections@),
                self.content == old(self).content,
                self.sections@ == old(self).sections@,
                forall|j: int| 0 <= j < i ==> (#[trigger] self.sections@[j]).0@ != path@,
            decreases n - i,
        {
            let found: bool = {
                let t: &(String, usize, usize) = &self.sections[i];
                str_eq(t.0.as_str(), path)
            };
            if found {
                let p: String = {
                    let t: &(String, usize, usize) = &self.sections[i];
                    t.0.clone()
                };
                let ghost prev = self.sections@;
                self.sections.set(i, (p, s, e));
                proof {
                    assert(forall|x: int, y: int|
                        0 <= x < y < self.sections@.len() ==> (#[trigger] self.sections@[x]).0@
                            != (#[trigger] self.sections@[y]).0@);
                    lemma_table_of_update(prev, self.sections@, i as int);
                }
                return ;
            }
            i = i + 1;
        }
        let ghost prev = self.sections@;
        self.sections.push((path.to_owned(), s, e));
        proof {
            assert(self.sections@.drop_last() =~= prev);
            assert(forall|x: int, y: int|
                0 <= x < y < self.sections@.len() ==> (#[trigger] self.sections@[x]).0@ != (
                #[trigger] self.sections@[y]).0@);
        }
    }

    /// The index rebaser: after `offset` lines were inserted before line
    /// `pos`, every stored range is moved so it denotes the same logical
    /// lines as before.
    fn update_sections(&mut self, pos: usize, offset: usize)
        requires
            forall|i: int|
                0 <= i < old(self).sections@.len() ==> (#[trigger] old(self).sections@[i]).1
                    <= old(self).sections@[i].2 && old(self).sections@[i].2 + offset
                    <= usize::MAX,
        ensures
            final(self).content == old(self).content,
            final(self).sections@.len() == old(self).sections@.len(),
            forall|i: int|
                0 <= i < final(self).sections@.len() ==> (#[trigger] final(self).sections@[i]).0@
                    == (#[trigger] old(self).sections@[i]).0@ && (
                final(self).sections@[i].1 as int,
                final(self).sections@[i].2 as int,
                ) == shift_range(
                    (old(self).sections@[i].1 as int, old(self).sections@[i].2 as int),
                    pos as int,
                    offset as int,
                ),
            table_of(final(self).sections@) == shift_table(
                table_of(old(self).sections@),
                pos as int,
                offset as int,
            ),
    {
        let n: usize = self.sections.len();
        let mut i: usize = 0;
        while i < n
            invariant
                0 <= i <= n,
                n == self.sections@.len(),
                self.content == old(self).content,
                self.sections@.len() == old(self).sections@.len(),
                forall|j: int|
                    0 <= j < old(self).sections@.len() ==> (#[trigger] old(self).sections@[j]).1
                        <= old(self).sections@[j].2 && old(self).sections@[j].2 + offset
                        <= usize::MAX,
                forall|j: int|
                    i <= j < n ==> #[trigger] self.sections@[j] == old(self).sections@[j],
                forall|j: int|
                    0 <= j < i ==> (#[trigger] self.sections@[j]).0@ == (
                    #[trigger] old(self).sections@[j]).0@ && (
                    self.sections@[j].1 as int,
                    self.sections@[j].2 as int,
                    ) == shift_range(
                        (old(self).sections@[j].1 as int, old(self).sections@[j].2 as int),
                        pos as int,
                        offset as int,
                    ),
            decreases n - i,
        {
            let start: usize = self.sections[i].1;
            let end: usize = self.sections[i].2;
            proof {
                assert(self.sections@[i as int] == old(self).sections@[i as int]);
                assert(old(self).sections@[i as int].1 <= old(self).sections@[i as int].2);
                assert(old(self).sections@[i as int].2 + offset <= usize::MAX);
            }
            if start >= pos {
                let p: String = self.sections[i].0.clone();
                self.sections.set(i, (p, start + offset, end + offset));
            } else if end >= pos {
                let p: String = self.sections[i].0.clone();
                self.sections.set(i, (p, start, end + offset));
            }
            i = i + 1;
        }
        proof {
            lemma_table_of_shift(old(self).sections@, self.sections@, pos as int, offset as int);
        }
    }
}

/// The view of an executable indexer stack.
pub open spec fn stack_view(st: Seq<(String, usize)>) -> Seq<(Seq<char>, int)> {
    st.map_values(|p: (String, usize)| (p.0@, p.1 as int))
}

/// The name a header line declares, extracted as the indexer does: trim,
/// drop the trailing braces, trim again.
fn header_name_of(line: &str) -> (r: String)
    ensures
        r@ == header_name(line@),
{
    let trimmed: &str = trim_of(line);
    let n: usize = trimmed.unicode_len();
    let mut b: usize = n;
    while b > 0 && trimmed.get_char(b - 1) == '{'
        invariant
            0 <= b <= n,
            n == trimmed@.len(),
            forall|i: int| b <= i < n ==> trimmed@[i] == '{',
        decreases b,
    {
        b = b - 1;
    }
    proof {
        lemma_strip_char_end_at(trimmed@, '{', b as int);
    }
    let head: &str = trimmed.substring_char(0, b);
    assert(head@ =~= trimmed@.take(b as int));
    trim_of(head).to_owned()
}

/// The names on the stack, outer to inner, and then `last`, joined with
/// dots.
fn dotted_path(stack: &Vec<(String, usize)>, last: &str) -> (r: String)
    ensures
        r@ == join_s(stack@.map_values(|p: (String, usize)| p.0@).push(last@), '.'),
{
    let ghost names = stack@.map_values(|p: (String, usize)| p.0@).push(last@);
    let mut out: String = String::new();
    let n: usize = stack.len();
    let mut j: usize = 0;
    proof {
        reveal_strlit(".");
        assert(names.len() == n + 1);
    }
    while j < n
        invariant
            0 <= j <= n,
            n == stack@.len(),
            names == stack@.map_values(|p: (String, usize)| p.0@).push(last@),
            names.len() == n + 1,
            out@ == join_s(names.take(j as int), '.'),
            "."@ == seq!['.'],
        decreases n - j,
    {
        if j > 0 {
            out.append(".");
        }
        out.append(stack[j].0.as_str());
        proof {
            assert(names[j as int] == stack@[j as int].0@);
            if j == 0 {
                assert(names.take(1) =~= seq![names[0]]);
                assert(join_s(seq![names[0]], '.') == names[0]);
            } else {
                lemma_join_push(names.take(j as int), names[j as int], '.');
                assert(names.take(j as int).push(names[j as int]) =~= names.take(j as int + 1));
            }
        }
        j = j + 1;
    }
    if n > 0 {
        out.append(".");
    }
    out.append(last);
    proof {
        assert(names[n as int] == last@);
        if n == 0 {
            assert(names =~= seq![last@]);
            assert(join_s(names, '.') == last@);
        } else {
            lemma_join_push(names.take(n as int), last@, '.');
            assert(names.take(n as int).push(last@) =~= names);
        }
    }
    out
}

impl Default for HyprlandConfig {
    /// An empty document: no lines, no sections.
    fn default() -> (r: Self)
        ensures
            r.wf(),
            r@.lines == Seq::<Seq<char>>::empty(),
            r@.table == Map::<Seq<char>, (int, int)>::empty(),
    {
        let r = HyprlandConfig { content: Vec::new(), sections: Vec::new() };
        proof {
            assert(r.content.deep_view() =~= Seq::<Seq<char>>::empty());
        }
        r
    }
}

impl HyprlandConfig {
    /// An empty document: no lines, no sections.
    pub fn new() -> (r: Self)
        ensures
            r.wf(),
            r@.lines == Seq::<Seq<char>>::empty(),
            r@.table == Map::<Seq<char>, (int, int)>::empty(),
    {
        Self::default()
    }

    /// The section indexer: scans the text line by line, pushes a header
    /// onto a stack, and on each closer registers the popped section under
    /// its full dotted path. Every line is appended to the buffer verbatim.
    /// Unmatched closers are ignored and unterminated sections are simply
    /// never registered.
    pub fn parse(&mut self, config_str: &str)
        requires
            old(self).wf(),
        ensures
            final(self).wf(),
            final(self)@.lines == old(self)@.lines + lines_s(config_str@),
            final(self)@.table == parse_table(old(self)@.table, lines_s(config_str@)),
    {
        let lines: Vec<String> = split_lines(config_str);
        let ghost ls = lines.deep_view();
        let ghost st0 = ParseState { stack: Seq::empty(), table: table_of(old(self).sections@) };
        let ghost len0 = old(self).content@.len();
        let mut stack: Vec<(String, usize)> = Vec::new();
        let n: usize = lines.len();
        let mut i: usize = 0;
        proof {
            reveal_strlit("}");
            assert(stack_view(stack@) =~= st0.stack);
            assert(self.content.deep_view() =~= old(self).content.deep_view() + ls.take(0));
        }
        while i < n
            invariant
                0 <= i <= n,
                n == lines@.len(),
                ls == lines.deep_view(),
                ls.len() == n,
                "}"@ == seq!['}'],
                self.content.deep_view() == old(self).content.deep_view() + ls.take(i as int),
                self.content@.len() == len0 + i,
                len0 == old(self).content@.len(),
                stack_view(stack@) == parse_upto(st0, ls, i as int).stack,
                table_of(self.sections@) == parse_upto(st0, ls, i as int).table,
                unique_paths(self.sections@),
                forall|j: int|
                    0 <= j < stack@.len() ==> (#[trigger] stack@[j]).1 < i,
                forall|j: int|
                    0 <= j < self.sections@.len() ==> (#[trigger] self.sections@[j]).1
                        < self.sections@[j].2 < len0 + i,
            decreases n - i,
        {
            let ghost st_pre = parse_upto(st0, ls, i as int);
            proof {
                assert(parse_upto(st0, ls, i as int + 1) == parse_line(st_pre, ls[i as int], i as int));
                assert(lines@[i as int]@ == ls[i as int]);
            }
            let line: &String = &lines[i];
            let trimmed: &str = trim_of(line.as_str());
            let tl: usize = trimmed.unicode_len();
            if tl > 0 && trimmed.get_char(tl - 1) == '{' {
                assert(is_header(ls[i as int]));
                let name: String = header_name_of(line.as_str());
                stack.push((name, i));
                proof {
                    assert(stack_view(stack@) =~= st_pre.stack.push(
                        (header_name(ls[i as int]), i as int),
                    ));
                }
            } else {
                assert(!is_header(ls[i as int]));
                if str_eq(trimmed, "}") && stack.len() > 0 {
                    assert(is_closer(ls[i as int]));
                    assert(st_pre.stack.len() > 0);
                    if let Some((name, start)) = stack.pop() {
                        proof {
                            assert(stack_view(stack@.push((name, start))) == st_pre.stack);
                            assert(st_pre.stack[st_pre.stack.len() - 1] == (name@, start as int));
                            assert(stack_view(stack@) =~= st_pre.stack.drop_last());
                        }
                        let full: String = dotted_path(&stack, name.as_str());
                        proof {
                            assert(stack@.map_values(|p: (String, usize)| p.0@).push(name@)
                                =~= st_pre.stack.map_values(|p: (Seq<char>, int)| p.0));
                            assert(full@ == stack_path(st_pre.stack));
                        }
                        self.set_section(full.as_str(), start, i);
                    }
                } else {
                    proof {
                        if is_closer(ls[i as int]) {
                            assert(st_pre.stack.len() == 0);
                        }
                        assert(parse_upto(st0, ls, i as int + 1) == st_pre);
                    }
                }
            }
            let cloned: String = {
                let l: &String = &lines[i];
                l.clone()
            };
            let ghost prev_deep = self.content.deep_view();
            self.content.push(cloned);
            proof {
                assert(cloned@ == ls[i as int]);
                assert(self.content.deep_view() =~= prev_deep.push(cloned@));
                assert(ls.take(i as int + 1) =~= ls.take(i as int).push(ls[i as int]));
                assert(old(self).content.deep_view() + ls.take(i as int + 1) =~= (old(
                    self,
                ).content.deep_view() + ls.take(i as int)).push(ls[i as int]));
            }
            i = i + 1;
        }
        proof {
            assert(ls.take(n as int) =~= ls);
            assert(self@.lines =~= old(self)@.lines + lines_s(config_str@));
        }
    }

    /// The renderer: the lines joined with newlines, with no newline after
    /// the last line.
    pub fn render(&self) -> (r: String)
        ensures
            r@ == render_s(self@.lines),
    {
        let mut out: String = String::new();
        let n: usize = self.content.len();
        let mut i: usize = 0;
        proof {
            reveal_strlit("\n");
            assert(self@.lines.len() == self.content@.len());
        }
        while i < n
            invariant
                0 <= i <= n,
                n == self.content@.len(),
                n == self@.lines.len(),
                out@ == join_s(self@.lines.take(i as int), '\n'),
                "\n"@ == seq!['\n'],
            decreases n - i,
        {
            if i > 0 {
                out.append("\n");
            }
            out.append(self.content[i].as_str());
            proof {
                assert(self@.lines[i as int] == self.content@[i as int]@);
                if i == 0 {
                    assert(self@.lines.take(1) =~= seq![self@.lines[0]]);
                    assert(join_s(seq![self@.lines[0]], '\n') == self@.lines[0]);
                } else {
                    lemma_join_push(self@.lines.take(i as int), self@.lines[i as int], '\n');
                    assert(self@.lines.take(i as int).push(self@.lines[i as int])
                        =~= self@.lines.take(i as int + 1));
                }
            }
            i = i + 1;
        }
        proof {
            assert(self@.lines.take(n as int) =~= self@.lines);
        }
        out
    }

    /// The headless appender: an empty key and value append one blank line,
    /// always; anything else appends `key = value` unless a line already
    /// equals it after trimming both.
    pub fn add_entry_headless(&mut self, key: &str, value: &str)
        requires
            old(self).wf(),
        ensures
            final(self).wf(),
            final(self)@ == add_headless_s(old(self)@, key@, value@),
    {
        if key.is_empty() && value.is_empty() {
            self.content.push(String::new());
            proof {
                assert(self.content.deep_view() =~= old(self)@.lines.push(Seq::<char>::empty()));
                assert(self@ =~= add_headless_s(old(self)@, key@, value@));
            }
        } else {
            let mut entry: String = key.to_owned();
            entry.append(" = ");
            entry.append(value);
            proof {
                reveal_strlit(" = ");
                assert(" = "@ =~= seq![' ', '=', ' ']);
                assert(entry@ == headless_line(key@, value@));
            }
            let trimmed_entry: String = trim_of(entry.as_str()).to_owned();
            let n: usize = self.content.len();
            let mut i: usize = 0;
            let mut found: bool = false;
            while i < n && !found
                invariant
                    0 <= i <= n,
                    n == self.content@.len(),
                    trimmed_entry@ == trim_s(entry@),
                    found ==> (i < n && trim_s(self@.lines[i as int]) == trim_s(entry@)),
                    !found ==> forall|j: int|
                        0 <= j < i ==> trim_s(#[trigger] self@.lines[j]) != trim_s(entry@),
                    self == old(self),
                decreases n - i + (if found { 0int } else { 1int }),
            {
                if str_eq(trim_of(self.content[i].as_str()), trimmed_entry.as_str()) {
                    found = true;
                } else {
                    i = i + 1;
                }
            }
            if !found {
                proof {
                    assert(forall|j: int|
                        0 <= j < self@.lines.len() ==> trim_s(#[trigger] self@.lines[j])
                            != trim_s(entry@));
                }
                let ghost prev = self@;
                self.content.push(entry);
                proof {
                    assert(self.content.deep_view() =~= prev.lines.push(
                        headless_line(key@, value@),
                    ));
                    assert(self@ =~= add_headless_s(old(self)@, key@, value@));
                }
            } else {
                proof {
                    assert(exists|j: int|
                        0 <= j < old(self)@.lines.len() && trim_s(#[trigger] old(self)@.lines[j])
                            == trim_s(headless_line(key@, value@)));
                    assert(self@ =~= add_headless_s(old(self)@, key@, value@));
                }
            }
        }
    }
}

/// The first match of a key in a line range, characterized: nothing before
/// it matches, and the match itself (when inside the range) matches.
pub proof fn lemma_first_match(lines: Seq<Seq<char>>, s: int, e: int, key: Seq<char>)
    requires
        s <= e + 1,
    ensures
        s <= first_match_from(lines, s, e, key) <= e + 1,
        forall|m: int|
            s <= m < first_match_from(lines, s, e, key) ==> !starts_with_s(
                trim_s(#[trigger] lines[m]),
                key,
            ),
        first_match_from(lines, s, e, key) <= e ==> starts_with_s(
            trim_s(lines[first_match_from(lines, s, e, key)]),
            key,
        ),
    decreases e + 1 - s,
{
    if s <= e && !starts_with_s(trim_s(lines[s]), key) {
        lemma_first_match(lines, s + 1, e, key);
    }
}

impl HyprlandConfig {
    /// Creates the missing section named by the last component of
    /// `category`, at nesting depth `depth`, anchored at the cursor: an
    /// optional separating blank line, the header, the closer and a
    /// trailing blank are inserted, every stored range is rebased once for
    /// the whole insertion, and the new path is registered with its header
    /// and closer line indices.
    #[verifier::rlimit(50)]
    fn create_category(&mut self, category: &str, depth: usize, insert_pos: &mut usize)
        requires
            old(self).wf(),
            *old(insert_pos) <= old(self).content@.len(),
        ensures
            final(self).wf(),
            final(self)@ == create_cat(
                old(self)@,
                category@,
                depth as int,
                *old(insert_pos) as int,
            ),
            final(self)@.table.dom().contains(category@),
            *final(insert_pos) as int == *old(insert_pos) + 3 + (if needs_gap(
                old(self)@.lines,
                *old(insert_pos) as int,
            ) {
                1int
            } else {
                0int
            }),
    {
        let ghost d0 = self@;
        let ghost pos0 = *old(insert_pos) as int;
        let parts: Vec<String> = split_char(category, '.');
        proof {
            lemma_split_nonempty(category@, '.');
            assert(parts@.len() == parts.deep_view().len());
            assert(parts.deep_view().len() >= 1);
        }
        let part: &String = &parts[parts.len() - 1];
        proof {
            assert(part@ == parts.deep_view().last());
            assert(part@ == last_seg(category@));
        }
        let mut header: String = indent_str(depth);
        header.append(part.as_str());
        header.append(" {");
        proof {
            reveal_strlit(" {");
            assert(" {"@ =~= seq![' ', '{']);
            assert(header@ == header_line_for(last_seg(category@), depth as int));
        }
        let mut closer: String = indent_str(depth);
        closer.append("}");
        proof {
            reveal_strlit("}");
            assert("}"@ =~= seq!['}']);
            assert(closer@ == closer_line_for(depth as int));
        }
        let mut lines_added: usize = 0;
        if *insert_pos > 0 && !trim_of(self.content[*insert_pos - 1].as_str()).is_empty() {
            assert(needs_gap(d0.lines, pos0));
            let ghost before = self.content.deep_view();
            self.content.insert(*insert_pos, String::new());
            proof {
                assert(self.content.deep_view() =~= before.insert(pos0, Seq::<char>::empty()));
            }
            let clen0: usize = self.content.len();
            assert(*insert_pos < clen0);
            *insert_pos = *insert_pos + 1;
            lines_added = 1;
        } else {
            assert(!needs_gap(d0.lines, pos0));
        }
        let ghost g = lines_added as int;
        let ghost with_gap = self.content.deep_view();
        proof {
            assert(with_gap.len() == d0.lines.len() + g);
            assert(*insert_pos as int == pos0 + g);
        }
        let ghost s1 = self.content.deep_view();
        self.content.insert(*insert_pos, header);
        proof {
            assert(self.content.deep_view() =~= s1.insert(
                pos0 + g,
                header_line_for(last_seg(category@), depth as int),
            ));
        }
        let clen1: usize = self.content.len();
        assert(*insert_pos < clen1);
        *insert_pos = *insert_pos + 1;
        let ghost s2 = self.content.deep_view();
        self.content.insert(*insert_pos, closer);
        proof {
            assert(self.content.deep_view() =~= s2.insert(
                pos0 + g + 1,
                closer_line_for(depth as int),
            ));
        }
        let clen2: usize = self.content.len();
        assert(*insert_pos < clen2);
        *insert_pos = *insert_pos + 1;
        let ghost s3 = self.content.deep_view();
        self.content.insert(*insert_pos, String::new());
        proof {
            assert(self.content.deep_view() =~= s3.insert(pos0 + g + 2, Seq::<char>::empty()));
        }
        let clen3: usize = self.content.len();
        assert(*insert_pos < clen3);
        *insert_pos = *insert_pos + 1;
        proof {
            assert(*insert_pos as int == pos0 + g + 3);
            assert(self.content.deep_view() =~= d0.lines.take(pos0) + creation_block(
                last_seg(category@),
                depth as int,
                g == 1,
            ) + d0.lines.skip(pos0));
            assert(self.content@.len() == d0.lines.len() + 3 + g);
        }
        let clen4: usize = self.content.len();
        proof {
            assert(forall|j: int|
                0 <= j < old(self).sections@.len() ==> (#[trigger] old(self).sections@[j]).1 <= old(
                    self,
                ).sections@[j].2 && old(self).sections@[j].2 + (3 + lines_added) < clen4 <= usize::MAX);
        }
        let ghost secs_before = self.sections@;
        self.update_sections(*insert_pos - 3 - lines_added, 3 + lines_added);
        let ghost secs_mid = self.sections@;
        proof {
            assert(forall|x: int|
                0 <= x < secs_mid.len() ==> (#[trigger] secs_mid[x]).0@ == secs_before[x].0@);
            assert(forall|x: int, y: int|
                0 <= x < y < secs_mid.len() ==> (#[trigger] secs_mid[x]).0@ != (
                #[trigger] secs_mid[y]).0@);
        }
        self.set_section(category, *insert_pos - 3, *insert_pos - 2);
        proof {
            assert(table_of(self.sections@) == shift_table(d0.table, pos0, 3 + g).insert(
                category@,
                (pos0 + g, pos0 + g + 1),
            ));
            assert(self@ =~= create_cat(d0, category@, depth as int, pos0));
            assert forall|j: int| 0 <= j < self.sections@.len() implies (
            #[trigger] self.sections@[j]).1 < self.sections@[j].2 < self.content@.len() by {
                if self.sections@[j].1 == *insert_pos - 3 && self.sections@[j].2 == *insert_pos
                    - 2 {
                } else {
                    let jj = choose|jj: int|
                        0 <= jj < secs_mid.len() && self.sections@[j].1 == (
                        #[trigger] secs_mid[jj]).1 && self.sections@[j].2 == secs_mid[jj].2;
                    assert((secs_mid[jj].1 as int, secs_mid[jj].2 as int) == shift_range(
                        (secs_before[jj].1 as int, secs_before[jj].2 as int),
                        pos0,
                        3 + g,
                    ));
                }
            }
            lemma_table_of_dom(self.sections@);
        }
    }

    /// The entry inserter: walks the dotted path by increasing depth,
    /// creating each missing section anchored at the cursor, and within the
    /// deepest section overwrites the first line whose trimmed text starts
    /// with the entry's key, or, with no such line, inserts the entry just
    /// before the closing line and rebases every range once.
    #[verifier::rlimit(50)]
    pub fn add_entry(&mut self, category: &str, entry: &str)
        requires
            old(self).wf(),
        ensures
            final(self).wf(),
            final(self)@ == add_entry_s(old(self)@, category@, entry@),
    {
        let ghost d0 = self@;
        let parts: Vec<String> = split_char(category, '.');
        let ghost pv = parts.deep_view();
        proof {
            lemma_split_nonempty(category@, '.');
            assert(parts@.len() == pv.len());
            assert(d0.lines.len() == self.content@.len());
        }
        let n: usize = parts.len();
        let mut current_section: String = String::new();
        let mut insert_pos: usize = self.content.len();
        let mut i: usize = 0;
        proof {
            reveal_strlit(".");
        }
        loop
            invariant
                0 <= i < n,
                n == parts@.len(),
                n == pv.len(),
                pv == parts.deep_view(),
                pv == split_s(category@, '.'),
                "."@ == seq!['.'],
                d0 == old(self)@,
                self.wf(),
                insert_pos <= self.content@.len(),
                i > 0 ==> current_section@ == join_s(pv.take(i as int), '.'),
                i == 0 ==> current_section@ == Seq::<char>::empty(),
                add_entry_loop(d0, pv, entry@, 0, d0.lines.len() as int) == add_entry_loop(
                    self@,
                    pv,
                    entry@,
                    i as int,
                    insert_pos as int,
                ),
            decreases n - i,
        {
            let p: &String = &parts[i];
            if i > 0 {
                current_section.append(".");
            }
            current_section.append(p.as_str());
            proof {
                assert(p@ == pv[i as int]);
                if i == 0 {
                    assert(pv.take(1) =~= seq![pv[0]]);
                    assert(join_s(seq![pv[0]], '.') == pv[0]);
                } else {
                    lemma_join_push(pv.take(i as int), pv[i as int], '.');
                    assert(pv.take(i as int).push(pv[i as int]) =~= pv.take(i as int + 1));
                }
                assert(current_section@ == join_s(pv.take(i as int + 1), '.'));
            }
            let ghost d_iter = self@;
            let ghost pos_iter = insert_pos as int;
            let ghost cur = join_s(pv.take(i as int + 1), '.');
            if self.get_section(current_section.as_str()).is_none() {
                self.create_category(current_section.as_str(), i, &mut insert_pos);
            }
            let ghost d1 = self@;
            proof {
                assert(d1 == if !d_iter.table.dom().contains(cur) {
                    create_cat(d_iter, cur, i as int, pos_iter)
                } else {
                    d_iter
                });
                lemma_wf_table(*self);
            }
            let (start, end): (usize, usize) = match self.get_section(current_section.as_str()) {
                Some(p) => p,
                None => {
                    proof {
                        if !d_iter.table.dom().contains(cur) {
                            assert(d1.table.dom().contains(cur));
                        }
                    }
                    vstd::pervasive::unreached()
                },
            };
            proof {
                assert(d1.table[cur] == (start as int, end as int));
                assert(start < end < self.content@.len());
            }
            insert_pos = end;
            if i == n - 1 {
                let key: &str = key_of(entry);
                let ghost fm = first_match_from(d1.lines, start as int, end as int, key@);
                proof {
                    lemma_first_match(d1.lines, start as int, end as int, key@);
                }
                let clen: usize = self.content.len();
                let mut j: usize = start;
                let mut found: bool = false;
                while j <= end && !found
                    invariant
                        start <= j <= end + 1,
                        end < clen,
                        clen == self.content@.len(),
                        self@ == d1,
                        key@ == key_of_s(entry@),
                        fm == first_match_from(d1.lines, start as int, end as int, key@),
                        start <= fm <= end + 1,
                        fm <= end ==> starts_with_s(trim_s(d1.lines[fm]), key@),
                        forall|m: int|
                            start <= m < fm ==> !starts_with_s(trim_s(#[trigger] d1.lines[m]), key@),
                        !found ==> j <= fm,
                        found ==> j == fm && fm <= end,
                    decreases end + 1 - j + (if found {
                        0int
                    } else {
                        1int
                    }),
                {
                    if str_starts_with(trim_of(self.content[j].as_str()), key) {
                        proof {
                            assert(d1.lines[j as int] == self.content@[j as int]@);
                            assert(j == fm) by {
                                if (j as int) < fm {
                                    assert(!starts_with_s(trim_s(d1.lines[j as int]), key@));
                                }
                            }
                        }
                        found = true;
                    } else {
                        proof {
                            assert(d1.lines[j as int] == self.content@[j as int]@);
                            assert(j != fm);
                        }
                        j = j + 1;
                    }
                }
                let mut formatted: String = indent_str(i + 1);
                formatted.append(entry);
                proof {
                    assert(formatted@ == fmt_entry(entry@, i as int));
                }
                if found {
                    let ghost before = self.content.deep_view();
                    self.content.set(j, formatted);
                    proof {
                        assert(self.content.deep_view() =~= before.update(
                            j as int,
                            fmt_entry(entry@, i as int),
                        ));
                        assert(self@ =~= insert_entry_at(
                            d1,
                            start as int,
                            end as int,
                            i as int,
                            entry@,
                        ));
                        assert(add_entry_loop(d_iter, pv, entry@, i as int, pos_iter)
                            == insert_entry_at(d1, start as int, end as int, i as int, entry@));
                        assert(self@ == add_entry_loop(d0, pv, entry@, 0, d0.lines.len() as int));
                        assert(self.wf());
                    }
                } else {
                    proof {
                        assert(j == end + 1);
                        assert(fm == end + 1);
                    }
                    let ghost before = self.content.deep_view();
                    let len_b: usize = self.content.len();
                    let ghost secs_b = self.sections@;
                    self.content.insert(end, formatted);
                    proof {
                        assert(self.content.deep_view() =~= before.insert(
                            end as int,
                            fmt_entry(entry@, i as int),
                        ));
                        assert(forall|m: int|
                            0 <= m < self.sections@.len() ==> (#[trigger] self.sections@[m]).1 <= (
                            self.sections@[m]).2 && (self.sections@[m]).2 + 1 <= len_b
                            <= usize::MAX);
                    }
                    self.update_sections(end, 1);
                    proof {
                        assert(table_of(self.sections@) =~= shift_table(d1.table, end as int, 1));
                        assert(self@ =~= insert_entry_at(
                            d1,
                            start as int,
                            end as int,
                            i as int,
                            entry@,
                        ));
                        assert(add_entry_loop(d_iter, pv, entry@, i as int, pos_iter)
                            == insert_entry_at(d1, start as int, end as int, i as int, entry@));
                        assert(self@ == add_entry_loop(d0, pv, entry@, 0, d0.lines.len() as int));
                        assert forall|m: int| 0 <= m < self.sections@.len() implies (
                        #[trigger] self.sections@[m]).1 < self.sections@[m].2
                            < self.content@.len() by {
                            assert(secs_b[m].1 < secs_b[m].2 < len_b);
                            assert((self.sections@[m].1 as int, self.sections@[m].2 as int)
                                == shift_range((secs_b[m].1 as int, secs_b[m].2 as int), end as int, 1));
                        }
                        assert(forall|x: int|
                            0 <= x < self.sections@.len() ==> (#[trigger] self.sections@[x]).0@
                                == secs_b[x].0@);
                        assert(forall|x: int, y: int|
                            0 <= x < y < self.sections@.len() ==> (
                            #[trigger] self.sections@[x]).0@ != (#[trigger] self.sections@[y]).0@);
                        assert(self.wf());
                    }
                }
                return ;
            } else {
                proof {
                    assert(add_entry_loop(d_iter, pv, entry@, i as int, pos_iter)
                        == add_entry_loop(d1, pv, entry@, i as int + 1, end as int));
                }
                i = i + 1;
            }
        }
    }
}

/// Parses a whole configuration text into a fresh document.
pub fn parse_config(config_str: &str) -> (r: HyprlandConfig)
    ensures
        r.wf(),
        r@ == parse_doc_s(config_str@),
{
    let mut config = HyprlandConfig::new();
    config.parse(config_str);
    proof {
        assert(config@.lines =~= lines_s(config_str@));
        assert(config@ =~= parse_doc_s(config_str@));
    }
    config
}

} // verus!

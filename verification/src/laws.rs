//! The library's laws: properties that relate several operations, stated
//! over the document model and proved once for all inputs.

use vstd::prelude::*;
use crate::color::{
    byte_hex, format_color_s, hex_char, hex_digits_of, hex_parse_ok, hex_seq_val, hex_val,
    is_hex_digit, parse_color_s, strip_prefix_all,
};
use crate::model::{
    is_closer, is_header, parse_table, parse_upto, render_s, ParseState,
};
use crate::text::{
    find_idx, join_s, lemma_find_idx, lines_s, starts_with_s, strip_char_end, strip_cr, trim_s,
};

verus! {

/// No line that the line splitter yields contains a newline.
proof fn lemma_lines_no_newline(x: Seq<char>)
    ensures
        forall|j: int|
            0 <= j < lines_s(x).len() ==> find_idx(#[trigger] lines_s(x)[j], '\n')
                == lines_s(x)[j].len(),
        forall|j: int, m: int|
            0 <= j < lines_s(x).len() && 0 <= m < lines_s(x)[j].len() ==> (#[trigger] lines_s(
                x,
            )[j][m]) != '\n',
    decreases x.len(),
{
    lemma_find_idx(x, '\n');
    if x.len() > 0 {
        let i = find_idx(x, '\n');
        if 0 <= i < x.len() {
            lemma_lines_no_newline(x.skip(i + 1));
            assert(forall|m: int|
                0 <= m < strip_cr(x.take(i)).len() ==> strip_cr(x.take(i))[m] == x[m]);
            assert(forall|j: int|
                1 <= j < lines_s(x).len() ==> lines_s(x)[j] == lines_s(x.skip(i + 1))[j - 1]);
            assert forall|j: int| 0 <= j < lines_s(x).len() implies find_idx(
                #[trigger] lines_s(x)[j],
                '\n',
            ) == lines_s(x)[j].len() by {
                lemma_find_idx(lines_s(x)[j], '\n');
                if find_idx(lines_s(x)[j], '\n') < lines_s(x)[j].len() {
                    assert(lines_s(x)[j][find_idx(lines_s(x)[j], '\n')] == '\n');
                }
            }
        } else {
            assert(forall|m: int| 0 <= m < x.len() ==> x[m] != '\n');
            assert forall|j: int| 0 <= j < lines_s(x).len() implies find_idx(
                #[trigger] lines_s(x)[j],
                '\n',
            ) == lines_s(x)[j].len() by {
                lemma_find_idx(lines_s(x)[j], '\n');
            }
        }
    }
}

/// Splitting a nonempty text yields at least one line.
proof fn lemma_lines_nonempty(x: Seq<char>)
    requires
        x.len() > 0,
    ensures
        lines_s(x).len() >= 1,
{
    lemma_find_idx(x, '\n');
}

/// Rendering inverts parsing: for any text that does not end in a newline
/// and contains no carriage-return-newline pair, splitting into lines and
/// joining them again gives the text back. (A trailing newline is consumed
/// by the splitter, and a `\r\n` pair is normalized to `\n`; for all other
/// texts the buffer holds the text verbatim.)
pub proof fn lemma_render_parse_round_trip(text: Seq<char>)
    requires
        text.len() > 0 ==> text[text.len() - 1] != '\n',
        forall|i: int| 0 < i < text.len() && #[trigger] text[i] == '\n' ==> text[i - 1] != '\r',
    ensures
        render_s(lines_s(text)) == text,
    decreases text.len(),
{
    lemma_find_idx(text, '\n');
    if text.len() == 0 {
        assert(render_s(lines_s(text)) =~= text);
    } else {
        let i = find_idx(text, '\n');
        if 0 <= i < text.len() {
            assert(text[i] == '\n');
            assert(i < text.len() - 1);
            let rest = text.skip(i + 1);
            assert(rest.len() > 0);
            assert(rest[rest.len() - 1] == text[text.len() - 1]);
            assert forall|j: int| 0 < j < rest.len() && #[trigger] rest[j] == '\n' implies rest[j
                - 1] != '\r' by {
                assert(rest[j] == text[i + 1 + j]);
                assert(rest[j - 1] == text[i + j]);
            }
            lemma_render_parse_round_trip(rest);
            lemma_lines_nonempty(rest);
            assert(strip_cr(text.take(i)) == text.take(i)) by {
                if i > 0 {
                    assert(text[i - 1] != '\r');
                    assert(text.take(i)[i - 1] == text[i - 1]);
                }
            }
            let parts = lines_s(text);
            assert(parts == seq![text.take(i)] + lines_s(rest));
            assert(parts.len() >= 2);
            assert(parts[0] == text.take(i));
            assert(parts.skip(1) =~= lines_s(rest));
            assert(render_s(parts) == text.take(i) + seq!['\n'] + render_s(lines_s(rest)));
            assert(text.take(i) + seq!['\n'] + rest =~= text);
        } else {
            assert(lines_s(text) == seq![text]);
            assert(render_s(seq![text]) == text);
        }
    }
}

/// `parse_upto` reads only the first `n` lines.
proof fn lemma_parse_upto_agrees(st: ParseState, a: Seq<Seq<char>>, b: Seq<Seq<char>>, n: int)
    requires
        forall|j: int| 0 <= j < n ==> a[j] == b[j],
    ensures
        parse_upto(st, a, n) == parse_upto(st, b, n),
    decreases n,
{
    if n > 0 {
        lemma_parse_upto_agrees(st, a, b, n - 1);
    }
}

/// Joining lines with newlines and splitting again gives the lines back,
/// except that one trailing empty line is consumed by the splitter.
proof fn lemma_split_join(ls: Seq<Seq<char>>)
    requires
        forall|j: int, m: int|
            0 <= j < ls.len() && 0 <= m < ls[j].len() ==> (#[trigger] ls[j][m]) != '\n',
        forall|j: int|
            0 <= j < ls.len() - 1 ==> ((#[trigger] ls[j]).len() == 0 || ls[j][ls[j].len() - 1]
                != '\r'),
    ensures
        lines_s(join_s(ls, '\n')) == (if ls.len() > 0 && ls.last().len() == 0 {
            ls.drop_last()
        } else {
            ls
        }),
    decreases ls.len(),
{
    let t = join_s(ls, '\n');
    lemma_find_idx(t, '\n');
    if ls.len() == 0 {
        assert(lines_s(t) =~= ls);
    } else if ls.len() == 1 {
        assert(t == ls[0]);
        if ls[0].len() == 0 {
            assert(lines_s(t) =~= ls.drop_last());
        } else {
            assert(find_idx(t, '\n') == t.len()) by {
                if find_idx(t, '\n') < t.len() {
                    assert(t[find_idx(t, '\n')] == '\n');
                }
            }
            assert(lines_s(t) =~= seq![ls[0]]);
            assert(seq![ls[0]] =~= ls);
        }
    } else {
        let rest = ls.skip(1);
        assert(t == ls[0] + seq!['\n'] + join_s(rest, '\n'));
        let k = ls[0].len() as int;
        assert(t[k] == '\n');
        assert(forall|m: int| 0 <= m < k ==> t[m] == ls[0][m]);
        assert(find_idx(t, '\n') == k) by {
            if find_idx(t, '\n') < k {
                assert(t[find_idx(t, '\n')] == '\n');
                assert(ls[0][find_idx(t, '\n')] == '\n');
            }
            if find_idx(t, '\n') > k {
                assert(t[k] != '\n');
            }
        }
        assert(t.take(k) =~= ls[0]);
        assert(strip_cr(ls[0]) == ls[0]);
        assert(t.skip(k + 1) =~= join_s(rest, '\n'));
        assert forall|j: int, m: int|
            0 <= j < rest.len() && 0 <= m < rest[j].len() implies (#[trigger] rest[j][m])
            != '\n' by {
            assert(rest[j] == ls[j + 1]);
        }
        assert forall|j: int|
            0 <= j < rest.len() - 1 implies ((#[trigger] rest[j]).len() == 0 || rest[j][rest[j].len()
            - 1] != '\r') by {
            assert(rest[j] == ls[j + 1]);
        }
        lemma_split_join(rest);
        assert(lines_s(t) == seq![ls[0]] + lines_s(join_s(rest, '\n')));
        if ls.last().len() == 0 {
            assert(rest.last() == ls.last());
            assert(lines_s(t) =~= ls.drop_last()) by {
                assert(lines_s(join_s(rest, '\n')) == rest.drop_last());
            }
        } else {
            assert(rest.last() == ls.last());
            assert(lines_s(t) =~= ls) by {
                assert(lines_s(join_s(rest, '\n')) == rest);
            }
        }
    }
}

/// Re-parsing a rendered document yields the same section table: rendering
/// and splitting again can only drop one trailing blank line, which no
/// section ever spans. Texts in which a line ends with a carriage return
/// that a first parse preserved (a `\r\r\n` sequence) are excluded: there
/// the re-parsed line contents differ by that carriage return.
pub proof fn lemma_reparse_same_table(x: Seq<char>)
    requires
        forall|j: int|
            0 <= j < lines_s(x).len() - 1 ==> ((#[trigger] lines_s(x)[j]).len() == 0 || lines_s(
                x,
            )[j][lines_s(x)[j].len() - 1] != '\r'),
    ensures
        parse_table(Map::empty(), lines_s(render_s(lines_s(x)))) == parse_table(
            Map::empty(),
            lines_s(x),
        ),
{
    let ls = lines_s(x);
    lemma_lines_no_newline(x);
    lemma_split_join(ls);
    if ls.len() > 0 && ls.last().len() == 0 {
        let st0 = ParseState { stack: Seq::empty(), table: Map::<Seq<char>, (int, int)>::empty() };
        let n = ls.len() as int;
        lemma_parse_upto_agrees(st0, ls.drop_last(), ls, n - 1);
        assert(parse_upto(st0, ls, n) == crate::model::parse_line(
            parse_upto(st0, ls, n - 1),
            ls[n - 1],
            n - 1,
        ));
        assert(trim_s(ls[n - 1]) =~= Seq::<char>::empty());
        assert(!is_header(ls[n - 1]));
        assert(!is_closer(ls[n - 1])) by {
            assert(trim_s(ls[n - 1]).len() == 0);
        }
        assert(parse_upto(st0, ls, n).table == parse_upto(st0, ls, n - 1).table);
    }
}

/// Appending two hex digits multiplies the value by 256 and adds the byte.
proof fn lemma_hex_seq_val_byte(t: Seq<char>, x: int)
    requires
        0 <= x < 256,
    ensures
        hex_seq_val(t + byte_hex(x)) == hex_seq_val(t) * 256 + x,
{
    let u = t + byte_hex(x);
    let u1 = u.drop_last();
    assert(u.len() == t.len() + 2);
    assert(u[u.len() - 1] == hex_char(x % 16));
    assert(u1 =~= t + seq![hex_char(x / 16)]);
    assert(u1.drop_last() =~= t);
    assert(u1[u1.len() - 1] == hex_char(x / 16));
    assert(hex_val(hex_char(x / 16)) == x / 16);
    assert(hex_val(hex_char(x % 16)) == x % 16);
    assert(hex_seq_val(u1) == hex_seq_val(t) * 16 + x / 16);
    assert(hex_seq_val(u) == hex_seq_val(u1) * 16 + x % 16);
    assert(hex_seq_val(u) == (hex_seq_val(t) * 16 + x / 16) * 16 + x % 16);
    assert((hex_seq_val(t) * 16 + x / 16) * 16 + x % 16 == hex_seq_val(t) * 256 + (x / 16) * 16 + x
        % 16) by (nonlinear_arith);
    assert((x / 16) * 16 + x % 16 == x) by (nonlinear_arith)
        requires 0 <= x < 256,
    ;
}

/// A formatted color always parses back to exactly its four channels.
pub proof fn lemma_color_round_trip(r: u8, g: u8, b: u8, a: u8)
    ensures
        parse_color_s(format_color_s(r, g, b, a)) == Some((r, g, b, a)),
{
    reveal_strlit("rgba(");
    reveal_strlit(")");
    let p = "rgba("@;
    assert(p =~= seq!['r', 'g', 'b', 'a', '(']);
    let ds = byte_hex(r as int) + byte_hex(g as int) + byte_hex(b as int) + byte_hex(a as int);
    let f = format_color_s(r, g, b, a);
    assert(f =~= p + (ds + ")"@));
    assert(ds.len() == 8);
    assert(forall|v: int| 0 <= v < 16 ==> is_hex_digit(#[trigger] hex_char(v)));
    assert(forall|v: int| 0 <= v < 16 ==> #[trigger] hex_char(v) != 'r' && hex_char(v) != '+'
        && hex_char(v) != ')');
    assert forall|m: int| 0 <= m < 8 implies is_hex_digit(#[trigger] ds[m]) && ds[m] != 'r'
        && ds[m] != '+' && ds[m] != ')' by {
        assert(ds[0] == hex_char(r as int / 16) && ds[1] == hex_char(r as int % 16) && ds[2]
            == hex_char(g as int / 16) && ds[3] == hex_char(g as int % 16) && ds[4] == hex_char(
            b as int / 16,
        ) && ds[5] == hex_char(b as int % 16) && ds[6] == hex_char(a as int / 16) && ds[7]
            == hex_char(a as int % 16));
    }
    // the literal is recognized and stripped exactly once
    assert(starts_with_s(f, p)) by {
        assert(f.take(5) =~= p);
    }
    let body0 = ds + ")"@;
    assert(f.skip(5) =~= body0);
    assert(!starts_with_s(body0, p)) by {
        assert(body0[0] == ds[0]);
        assert(body0.len() >= 5);
        if starts_with_s(body0, p) {
            assert(body0.take(5)[0] == 'r');
        }
    }
    assert(strip_prefix_all(body0, p) == body0);
    assert(strip_prefix_all(f, p) == strip_prefix_all(f.skip(5), p));
    assert(strip_prefix_all(f, p) == body0);
    // the closing parenthesis is stripped exactly once
    assert(")"@ =~= seq![')']);
    assert(body0[body0.len() - 1] == ')');
    assert(body0.drop_last() =~= ds);
    assert(ds[ds.len() - 1] != ')');
    assert(strip_char_end(f.skip(5), ')') == ds) by {
        assert(strip_char_end(body0, ')') == strip_char_end(ds, ')'));
    }
    // the digits parse back to the packed channel value
    assert(hex_digits_of(ds) == ds) by {
        assert(ds[0] != '+');
    }
    let v0 = hex_seq_val(ds);
    assert(v0 == ((r as int * 256 + g as int) * 256 + b as int) * 256 + a as int) by {
        assert(Seq::<char>::empty() + byte_hex(r as int) =~= byte_hex(r as int));
        lemma_hex_seq_val_byte(Seq::<char>::empty(), r as int);
        lemma_hex_seq_val_byte(byte_hex(r as int), g as int);
        lemma_hex_seq_val_byte(byte_hex(r as int) + byte_hex(g as int), b as int);
        lemma_hex_seq_val_byte(
            byte_hex(r as int) + byte_hex(g as int) + byte_hex(b as int),
            a as int,
        );
        assert(hex_seq_val(Seq::<char>::empty()) == 0);
    }
    assert(0 <= v0 <= u32::MAX);
    assert(hex_parse_ok(ds));
    let v = v0 as u32;
    assert(v == (r as u32) * 0x1000000 + (g as u32) * 0x10000 + (b as u32) * 0x100 + (a as u32));
    assert(((v >> 24) & 0xff) == r as u32 && ((v >> 16) & 0xff) == g as u32 && ((v >> 8) & 0xff)
        == b as u32 && (v & 0xff) == a as u32) by (bit_vector)
        requires
            v == (r as u32) * 0x1000000 + (g as u32) * 0x10000 + (b as u32) * 0x100 + (a as u32),
            (r as u32) < 256,
            (g as u32) < 256,
            (b as u32) < 256,
            (a as u32) < 256,
    ;
}

} // verus!

use crate::model::{
    add_entry_loop, add_entry_s, add_headless_s, create_cat, doc_wf, first_match_from,
    fmt_entry, headless_line, insert_entry_at, needs_gap, shift_range, shift_table, DocModel,
};
use crate::text::{
    indent_s, is_ws, key_of_s, lemma_indent_ws, lemma_split_nonempty, lemma_trim_start_at,
    split_s, trim_end_s, trim_start_s,
};

verus! {

/// An all-whitespace prefix does not change what trimming from the start
/// yields.
proof fn lemma_trim_start_ws_prefix(pref: Seq<char>, e: Seq<char>)
    requires
        forall|i: int| 0 <= i < pref.len() ==> is_ws(#[trigger] pref[i]),
    ensures
        trim_start_s(pref + e) == trim_start_s(e),
    decreases pref.len(),
{
    if pref.len() == 0 {
        assert(pref + e =~= e);
    } else {
        assert(is_ws((pref + e)[0]));
        assert((pref + e).skip(1) =~= pref.skip(1) + e);
        lemma_trim_start_ws_prefix(pref.skip(1), e);
    }
}

/// The shape of trimming from the start: it drops a whitespace prefix and,
/// when anything is left, the first kept character is not whitespace.
proof fn lemma_trim_start_shape(s: Seq<char>)
    ensures
        trim_start_s(s).len() <= s.len(),
        trim_start_s(s) == s.skip(s.len() - trim_start_s(s).len()),
        forall|i: int| 0 <= i < s.len() - trim_start_s(s).len() ==> is_ws(#[trigger] s[i]),
        trim_start_s(s).len() > 0 ==> !is_ws(trim_start_s(s)[0]),
    decreases s.len(),
{
    if s.len() > 0 && is_ws(s[0]) {
        lemma_trim_start_shape(s.skip(1));
        assert(s.skip(1).skip(s.skip(1).len() - trim_start_s(s.skip(1)).len()) =~= s.skip(
            s.len() - trim_start_s(s).len(),
        ));
        assert forall|i: int| 0 <= i < s.len() - trim_start_s(s).len() implies is_ws(
            #[trigger] s[i],
        ) by {
            if i > 0 {
                assert(s[i] == s.skip(1)[i - 1]);
            }
        }
    } else {
        assert(s.skip(0) =~= s);
    }
}

/// The shape of trimming from the end: it keeps a prefix whose last kept
/// character, when anything is left, is not whitespace, and drops only
/// whitespace.
proof fn lemma_trim_end_shape(s: Seq<char>)
    ensures
        trim_end_s(s).len() <= s.len(),
        trim_end_s(s) == s.take(trim_end_s(s).len() as int),
        forall|i: int| trim_end_s(s).len() <= i < s.len() ==> is_ws(#[trigger] s[i]),
        trim_end_s(s).len() > 0 ==> !is_ws(s[trim_end_s(s).len() - 1]),
    decreases s.len(),
{
    if s.len() > 0 && is_ws(s[s.len() - 1]) {
        lemma_trim_end_shape(s.drop_last());
        assert(s.drop_last().take(trim_end_s(s).len() as int) =~= s.take(
            trim_end_s(s).len() as int,
        ));
        assert forall|i: int| trim_end_s(s).len() <= i < s.len() implies is_ws(
            #[trigger] s[i],
        ) by {
            if i < s.len() - 1 {
                assert(s[i] == s.drop_last()[i]);
            }
        }
    } else {
        assert(s.take(s.len() as int) =~= s);
    }
}

/// The formatted entry line, trimmed, starts with the entry's key: the
/// indentation is whitespace and the key is the trimmed head of the entry.
proof fn lemma_fmt_entry_matches(entry: Seq<char>, depth: int)
    ensures
        starts_with_s(trim_s(fmt_entry(entry, depth)), key_of_s(entry)),
{
    lemma_indent_ws(depth + 1);
    lemma_trim_start_ws_prefix(indent_s(depth + 1), entry);
    assert(trim_s(fmt_entry(entry, depth)) == trim_s(entry));
    let f = find_idx(entry, '=');
    lemma_find_idx(entry, '=');
    let u = entry.take(f);
    let k = key_of_s(entry);
    if k.len() == 0 {
        assert(trim_s(entry).take(0) =~= k);
    } else {
        lemma_trim_start_shape(u);
        let a = u.len() - trim_start_s(u).len();
        assert(trim_start_s(u).len() > 0) by {
            lemma_trim_end_shape(trim_start_s(u));
        }
        assert(!is_ws(u[a]));
        assert(forall|i: int| 0 <= i < a ==> is_ws(#[trigger] entry[i])) by {
            assert(forall|i: int| 0 <= i < a ==> u[i] == entry[i]);
        }
        assert(a < entry.len() && !is_ws(entry[a])) by {
            assert(u[a] == entry[a]);
        }
        lemma_trim_start_at(entry, a);
        lemma_trim_start_at(u, a);
        lemma_trim_end_shape(u.skip(a));
        lemma_trim_end_shape(entry.skip(a));
        let bk = k.len() as int;
        let bt = trim_s(entry).len() as int;
        assert(k == u.skip(a).take(bk));
        assert(trim_s(entry) == entry.skip(a).take(bt));
        assert(!is_ws(u.skip(a)[bk - 1]));
        assert(u.skip(a)[bk - 1] == entry[a + bk - 1]);
        assert(bk <= bt) by {
            if bk > bt {
                assert(is_ws(entry.skip(a)[bk - 1]));
                assert(entry.skip(a)[bk - 1] == entry[a + bk - 1]);
            }
        }
        assert(trim_s(entry).take(bk) =~= k) by {
            assert(forall|i: int|
                0 <= i < bk ==> entry.skip(a).take(bt)[i] == #[trigger] u.skip(a).take(bk)[i]);
        }
    }
}

/// What creating a section does to the model: the buffer grows by the block,
/// the new path maps to its header and closer lines, every other range is
/// rebased, and well-formedness is preserved.
proof fn lemma_create_cat_props(d: DocModel, path: Seq<char>, depth: int, pos: int)
    requires
        doc_wf(d),
        0 <= pos <= d.lines.len(),
    ensures
        doc_wf(create_cat(d, path, depth, pos)),
        create_cat(d, path, depth, pos).lines.len() == d.lines.len() + 3 + (if needs_gap(
            d.lines,
            pos,
        ) {
            1int
        } else {
            0int
        }),
        create_cat(d, path, depth, pos).table.dom() =~= d.table.dom().insert(path),
        forall|k: Seq<char>|
            #[trigger] d.table.dom().contains(k) ==> create_cat(
                d,
                path,
                depth,
                pos,
            ).table.dom().contains(k),
{
    let g: int = if needs_gap(d.lines, pos) {
        1
    } else {
        0
    };
    let d2 = create_cat(d, path, depth, pos);
    assert(d2.lines.len() == pos + (3 + g) + (d.lines.len() - pos));
    assert(shift_table(d.table, pos, 3 + g).dom() =~= d.table.dom());
    assert forall|k: Seq<char>| #[trigger] d2.table.dom().contains(k) implies 0 <= d2.table[k].0
        < d2.table[k].1 < d2.lines.len() by {
        if k == path {
            assert(d2.table[k] == (pos + g, pos + g + 1));
        } else {
            assert(d.table.dom().contains(k));
            assert(d2.table[k] == shift_range(d.table[k], pos, 3 + g));
            assert(0 <= d.table[k].0 < d.table[k].1 < d.lines.len());
        }
    }
}

/// What the final insertion step does to the model: an overwrite keeps the
/// buffer length and the table; an insertion grows the buffer by one line
/// and rebases every range once. Either way well-formedness is preserved
/// and the table keys are unchanged.
proof fn lemma_insert_entry_props(d: DocModel, s: int, e: int, depth: int, entry: Seq<char>)
    requires
        doc_wf(d),
        0 <= s < e < d.lines.len(),
    ensures
        doc_wf(insert_entry_at(d, s, e, depth, entry)),
        forall|k: Seq<char>|
            #[trigger] d.table.dom().contains(k) ==> insert_entry_at(
                d,
                s,
                e,
                depth,
                entry,
            ).table.dom().contains(k),
{
    let d2 = insert_entry_at(d, s, e, depth, entry);
    let m = first_match_from(d.lines, s, e, key_of_s(entry));
    crate::config::lemma_first_match(d.lines, s, e, key_of_s(entry));
    if m <= e {
        assert(d2.lines.len() == d.lines.len());
    } else {
        assert(d2.lines.len() == d.lines.len() + 1);
        assert(shift_table(d.table, e, 1).dom() =~= d.table.dom());
        assert forall|k: Seq<char>| #[trigger] d2.table.dom().contains(k) implies 0
            <= d2.table[k].0 < d2.table[k].1 < d2.lines.len() by {
            assert(d.table.dom().contains(k));
            assert(d2.table[k] == shift_range(d.table[k], e, 1));
            assert(0 <= d.table[k].0 < d.table[k].1 < d.lines.len());
        }
    }
}

/// The first match pinned: a match at `m` with no match before it is the
/// first match.
proof fn lemma_first_match_is(lines: Seq<Seq<char>>, s: int, e: int, key: Seq<char>, m: int)
    requires
        s <= m <= e,
        starts_with_s(trim_s(lines[m]), key),
        forall|j: int| s <= j < m ==> !starts_with_s(trim_s(#[trigger] lines[j]), key),
    ensures
        first_match_from(lines, s, e, key) == m,
{
    crate::config::lemma_first_match(lines, s, e, key);
    let fm = first_match_from(lines, s, e, key);
    if fm < m {
        assert(!starts_with_s(trim_s(lines[fm]), key));
    }
    if fm > m {
        assert(!starts_with_s(trim_s(lines[m]), key));
    }
}

/// After the entry inserter has run, the document is well formed, every
/// earlier table key survives, every prefix section of the path from `i` on
/// is registered, and the deepest section contains a first matching line
/// that holds exactly the formatted entry.
proof fn lemma_first_call_match(
    d: DocModel,
    parts: Seq<Seq<char>>,
    entry: Seq<char>,
    i: int,
    pos: int,
)
    requires
        doc_wf(d),
        0 <= i < parts.len(),
        0 <= pos <= d.lines.len(),
    ensures
        ({
            let d1 = add_entry_loop(d, parts, entry, i, pos);
            let full = join_s(parts.take(parts.len() as int), '.');
            &&& doc_wf(d1)
            &&& forall|k: Seq<char>|
                #[trigger] d.table.dom().contains(k) ==> d1.table.dom().contains(k)
            &&& forall|j: int|
                i <= j < parts.len() ==> d1.table.dom().contains(
                    #[trigger] join_s(parts.take(j + 1), '.'),
                )
            &&& d1.table.dom().contains(full)
            &&& ({
                let r = d1.table[full];
                let m = first_match_from(d1.lines, r.0, r.1, key_of_s(entry));
                &&& 0 <= r.0 < r.1 < d1.lines.len()
                &&& r.0 <= m <= r.1
                &&& d1.lines[m] == fmt_entry(entry, parts.len() - 1)
            })
        }),
    decreases parts.len() - i,
{
    let n = parts.len() as int;
    let cur = join_s(parts.take(i + 1), '.');
    let dp = if !d.table.dom().contains(cur) {
        create_cat(d, cur, i, pos)
    } else {
        d
    };
    if !d.table.dom().contains(cur) {
        lemma_create_cat_props(d, cur, i, pos);
    }
    assert(doc_wf(dp));
    assert(dp.table.dom().contains(cur));
    let r0 = dp.table[cur];
    assert(0 <= r0.0 < r0.1 < dp.lines.len());
    let key = key_of_s(entry);
    if i == n - 1 {
        assert(parts.take(n) =~= parts.take(i + 1));
        let d1 = insert_entry_at(dp, r0.0, r0.1, i, entry);
        assert(add_entry_loop(d, parts, entry, i, pos) == d1);
        lemma_insert_entry_props(dp, r0.0, r0.1, i, entry);
        crate::config::lemma_first_match(dp.lines, r0.0, r0.1, key);
        lemma_fmt_entry_matches(entry, i);
        let m0 = first_match_from(dp.lines, r0.0, r0.1, key);
        if m0 <= r0.1 {
            assert(d1.lines == dp.lines.update(m0, fmt_entry(entry, i)));
            assert(d1.table == dp.table);
            assert(d1.lines[m0] == fmt_entry(entry, i));
            assert(starts_with_s(trim_s(d1.lines[m0]), key));
            assert forall|j: int| r0.0 <= j < m0 implies !starts_with_s(
                trim_s(#[trigger] d1.lines[j]),
                key,
            ) by {
                assert(d1.lines[j] == dp.lines[j]);
            }
            lemma_first_match_is(d1.lines, r0.0, r0.1, key, m0);
        } else {
            assert(d1.lines == dp.lines.insert(r0.1, fmt_entry(entry, i)));
            assert(d1.table == shift_table(dp.table, r0.1, 1));
            assert(d1.table.dom().contains(cur));
            assert(d1.table[cur] == shift_range(r0, r0.1, 1));
            assert(d1.table[cur] == (r0.0, r0.1 + 1));
            assert(d1.lines[r0.1] == fmt_entry(entry, i));
            assert(starts_with_s(trim_s(d1.lines[r0.1]), key));
            assert forall|j: int| r0.0 <= j < r0.1 implies !starts_with_s(
                trim_s(#[trigger] d1.lines[j]),
                key,
            ) by {
                assert(d1.lines[j] == dp.lines[j]);
            }
            lemma_first_match_is(d1.lines, r0.0, r0.1 + 1, key, r0.1);
        }
    } else {
        lemma_first_call_match(dp, parts, entry, i + 1, r0.1);
        let d1 = add_entry_loop(dp, parts, entry, i + 1, r0.1);
        assert(add_entry_loop(d, parts, entry, i, pos) == d1);
        assert(d1.table.dom().contains(cur)) by {
            assert(dp.table.dom().contains(cur));
        }
    }
}

/// With every prefix of the path already registered, the entry inserter
/// creates nothing: it goes straight to the deepest section, wherever the
/// cursor started.
proof fn lemma_walk_no_create(
    d: DocModel,
    parts: Seq<Seq<char>>,
    entry: Seq<char>,
    i: int,
    pos: int,
)
    requires
        0 <= i < parts.len(),
        forall|j: int|
            i <= j < parts.len() ==> d.table.dom().contains(
                #[trigger] join_s(parts.take(j + 1), '.'),
            ),
    ensures
        ({
            let full = join_s(parts.take(parts.len() as int), '.');
            add_entry_loop(d, parts, entry, i, pos) == insert_entry_at(
                d,
                d.table[full].0,
                d.table[full].1,
                parts.len() - 1,
                entry,
            )
        }),
    decreases parts.len() - i,
{
    let n = parts.len() as int;
    let cur = join_s(parts.take(i + 1), '.');
    assert(d.table.dom().contains(cur));
    if i == n - 1 {
        assert(parts.take(n) =~= parts.take(i + 1));
    } else {
        lemma_walk_no_create(d, parts, entry, i + 1, d.table[cur].1);
    }
}

/// Adding an entry twice at one path, the second entry sharing the first's
/// key, does not duplicate lines: the second call overwrites the line the
/// first call produced, so the buffer length and the whole section table
/// are unchanged by the second call; and adding the same entry twice is
/// idempotent.
pub proof fn lemma_add_entry_same_key_overwrites(
    d: DocModel,
    category: Seq<char>,
    e1: Seq<char>,
    e2: Seq<char>,
)
    requires
        doc_wf(d),
        key_of_s(e1) == key_of_s(e2),
    ensures
        add_entry_s(add_entry_s(d, category, e1), category, e2).table == add_entry_s(
            d,
            category,
            e1,
        ).table,
        add_entry_s(add_entry_s(d, category, e1), category, e2).lines.len() == add_entry_s(
            d,
            category,
            e1,
        ).lines.len(),
        e1 == e2 ==> add_entry_s(add_entry_s(d, category, e1), category, e2) == add_entry_s(
            d,
            category,
            e1,
        ),
{
    let parts = split_s(category, '.');
    lemma_split_nonempty(category, '.');
    let key = key_of_s(e1);
    let d1 = add_entry_s(d, category, e1);
    lemma_first_call_match(d, parts, e1, 0, d.lines.len() as int);
    assert(d1 == add_entry_loop(d, parts, e1, 0, d.lines.len() as int));
    let full = join_s(parts.take(parts.len() as int), '.');
    let r = d1.table[full];
    let m = first_match_from(d1.lines, r.0, r.1, key);
    assert(0 <= r.0 < r.1 < d1.lines.len());
    assert(r.0 <= m <= r.1);
    assert(d1.lines[m] == fmt_entry(e1, parts.len() - 1));
    lemma_walk_no_create(d1, parts, e2, 0, d1.lines.len() as int);
    let d2 = add_entry_s(d1, category, e2);
    assert(d2 == insert_entry_at(d1, r.0, r.1, parts.len() - 1, e2));
    assert(first_match_from(d1.lines, r.0, r.1, key_of_s(e2)) == m);
    assert(d2.lines == d1.lines.update(m, fmt_entry(e2, parts.len() - 1)));
    assert(d2.table == d1.table);
    if e1 == e2 {
        assert(d2.lines =~= d1.lines);
        assert(d2 =~= d1);
    }
}

/// A non-blank headless entry is appended at most once: appending the same
/// key and value again finds the line the first call appended (or an equal
/// line that was already there) and changes nothing. Blank appends (empty
/// key and value) are deliberately exempt from deduplication.
pub proof fn lemma_add_headless_idempotent(d: DocModel, key: Seq<char>, value: Seq<char>)
    requires
        key.len() > 0 || value.len() > 0,
    ensures
        add_headless_s(add_headless_s(d, key, value), key, value) == add_headless_s(
            d,
            key,
            value,
        ),
{
    let e = headless_line(key, value);
    let d1 = add_headless_s(d, key, value);
    if exists|i: int| 0 <= i < d.lines.len() && trim_s(#[trigger] d.lines[i]) == trim_s(e) {
        assert(d1 == d);
    } else {
        assert(d1.lines == d.lines.push(e));
        assert(trim_s(#[trigger] d1.lines[d.lines.len() as int]) == trim_s(e));
        assert(exists|i: int|
            0 <= i < d1.lines.len() && trim_s(#[trigger] d1.lines[i]) == trim_s(e));
    }
    assert(add_headless_s(d1, key, value) == d1);
}

} // verus!

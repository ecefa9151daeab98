//! Character and string utilities: whitespace trimming, prefix tests,
//! splitting and joining, all specified over `Seq<char>` views.

use vstd::prelude::*;

verus! {

/// The Unicode `White_Space` characters: the set of characters that
/// `str::trim` removes from both ends of a string.
pub open spec fn is_ws(c: char) -> bool {
    (9 <= c as u32 && c as u32 <= 13) || c as u32 == 0x20 || c as u32 == 0x85
        || c as u32 == 0xa0 || c as u32 == 0x1680 || (0x2000 <= c as u32 && c as u32 <= 0x200a)
        || c as u32 == 0x2028 || c as u32 == 0x2029 || c as u32 == 0x202f || c as u32 == 0x205f
        || c as u32 == 0x3000
}

pub fn is_ws_char(c: char) -> (r: bool)
    ensures
        r == is_ws(c),
{
    let n = c as u32;
    (9 <= n && n <= 13) || n == 0x20 || n == 0x85 || n == 0xa0 || n == 0x1680
        || (0x2000 <= n && n <= 0x200a) || n == 0x2028 || n == 0x2029 || n == 0x202f
        || n == 0x205f || n == 0x3000
}

pub open spec fn trim_start_s(s: Seq<char>) -> Seq<char>
    decreases s.len(),
{
    if s.len() > 0 && is_ws(s[0]) {
        trim_start_s(s.skip(1))
    } else {
        s
    }
}

pub open spec fn trim_end_s(s: Seq<char>) -> Seq<char>
    decreases s.len(),
{
    if s.len() > 0 && is_ws(s[s.len() - 1]) {
        trim_end_s(s.drop_last())
    } else {
        s
    }
}

/// What `str::trim` returns: the string with leading and trailing
/// whitespace removed.
pub open spec fn trim_s(s: Seq<char>) -> Seq<char> {
    trim_end_s(trim_start_s(s))
}

/// If the first `k` characters are whitespace and the `k`th is not,
/// trimming from the start drops exactly `k` characters.
pub proof fn lemma_trim_start_at(s: Seq<char>, k: int)
    requires
        0 <= k <= s.len(),
        forall|i: int| 0 <= i < k ==> is_ws(s[i]),
        k < s.len() ==> !is_ws(s[k]),
    ensures
        trim_start_s(s) == s.skip(k),
    decreases s.len(),
{
    if k == 0 {
        assert(s.skip(0) =~= s);
    } else {
        assert(is_ws(s[0]));
        lemma_trim_start_at(s.skip(1), k - 1);
        assert(s.skip(1).skip(k - 1) =~= s.skip(k));
    }
}

/// If the characters from `k` on are whitespace and the one before `k`
/// is not, trimming from the end keeps exactly the first `k`.
pub proof fn lemma_trim_end_at(s: Seq<char>, k: int)
    requires
        0 <= k <= s.len(),
        forall|i: int| k <= i < s.len() ==> is_ws(s[i]),
        k > 0 ==> !is_ws(s[k - 1]),
    ensures
        trim_end_s(s) == s.take(k),
    decreases s.len(),
{
    if k == s.len() {
        if s.len() > 0 {
            assert(!is_ws(s[s.len() - 1]));
        }
        assert(s.take(k) =~= s);
    } else {
        assert(is_ws(s[s.len() - 1]));
        lemma_trim_end_at(s.drop_last(), k);
        assert(s.drop_last().take(k) =~= s.take(k));
    }
}

/// `str::trim`, verified against `trim_s`.
pub fn trim_of(s: &str) -> (r: &str)
    ensures
        r@ == trim_s(s@),
{
    let len: usize = s.unicode_len();
    let mut a: usize = 0;
    while a < len && is_ws_char(s.get_char(a))
        invariant
            0 <= a <= len,
            len == s@.len(),
            forall|i: int| 0 <= i < a ==> is_ws(s@[i]),
        decreases len - a,
    {
        a = a + 1;
    }
    let mut b: usize = len;
    while b > a && is_ws_char(s.get_char(b - 1))
        invariant
            a <= b <= len,
            len == s@.len(),
            forall|i: int| b <= i < len ==> is_ws(s@[i]),
        decreases b,
    {
        b = b - 1;
    }
    proof {
        lemma_trim_start_at(s@, a as int);
        lemma_trim_end_at(s@.skip(a as int), b - a);
        assert(s@.skip(a as int).take(b - a) =~= s@.subrange(a as int, b as int));
    }
    s.substring_char(a, b)
}

/// Whether `p` is a prefix of `s`.
pub open spec fn starts_with_s(s: Seq<char>, p: Seq<char>) -> bool {
    p.len() <= s.len() && s.take(p.len() as int) == p
}

/// `str::starts_with`, verified against `starts_with_s`.
pub fn str_starts_with(s: &str, p: &str) -> (r: bool)
    ensures
        r == starts_with_s(s@, p@),
{
    let n: usize = p.unicode_len();
    if n > s.unicode_len() {
        return false;
    }
    let mut i: usize = 0;
    while i < n
        invariant
            0 <= i <= n,
            n == p@.len(),
            n <= s@.len(),
            forall|j: int| 0 <= j < i ==> s@[j] == p@[j],
        decreases n - i,
    {
        if s.get_char(i) != p.get_char(i) {
            assert(s@.take(n as int)[i as int] != p@[i as int]);
            return false;
        }
        i = i + 1;
    }
    proof {
        assert(s@.take(n as int) =~= p@);
    }
    true
}

/// Character-for-character string equality, verified against view equality.
pub fn str_eq(a: &str, b: &str) -> (r: bool)
    ensures
        r == (a@ == b@),
{
    let n: usize = a.unicode_len();
    if n != b.unicode_len() {
        return false;
    }
    let mut i: usize = 0;
    while i < n
        invariant
            0 <= i <= n,
            n == a@.len(),
            n == b@.len(),
            forall|j: int| 0 <= j < i ==> a@[j] == b@[j],
        decreases n - i,
    {
        if a.get_char(i) != b.get_char(i) {
            return false;
        }
        i = i + 1;
    }
    proof {
        assert(a@ =~= b@);
    }
    true
}

/// The index of the first occurrence of `c` in `s`, or `s.len()` if absent.
pub open spec fn find_idx(s: Seq<char>, c: char) -> int
    decreases s.len(),
{
    if s.len() == 0 {
        0
    } else if s[0] == c {
        0
    } else {
        1 + find_idx(s.skip(1), c)
    }
}

pub proof fn lemma_find_idx(s: Seq<char>, c: char)
    ensures
        0 <= find_idx(s, c) <= s.len(),
        forall|i: int| 0 <= i < find_idx(s, c) ==> s[i] != c,
        find_idx(s, c) < s.len() ==> s[find_idx(s, c)] == c,
    decreases s.len(),
{
    if s.len() > 0 && s[0] != c {
        lemma_find_idx(s.skip(1), c);
        assert(forall|i: int| 1 <= i < find_idx(s, c) ==> s[i] == s.skip(1)[i - 1]);
    }
}

/// The first occurrence of `c` in `s`, as an executable scan.
pub fn find_char(s: &str, c: char) -> (r: usize)
    ensures
        r == find_idx(s@, c),
{
    proof {
        lemma_find_idx(s@, c);
    }
    let n: usize = s.unicode_len();
    let mut i: usize = 0;
    while i < n
        invariant
            0 <= i <= n,
            n == s@.len(),
            forall|j: int| 0 <= j < i ==> s@[j] != c,
            0 <= find_idx(s@, c) <= n,
            forall|j: int| 0 <= j < find_idx(s@, c) ==> s@[j] != c,
            find_idx(s@, c) < n ==> s@[find_idx(s@, c)] == c,
        decreases n - i,
    {
        if s.get_char(i) == c {
            assert(i == find_idx(s@, c)) by {
                if find_idx(s@, c) < i {
                    assert(s@[find_idx(s@, c)] != c);
                }
            }
            return i;
        }
        i = i + 1;
    }
    assert(i == find_idx(s@, c)) by {
        if find_idx(s@, c) < n {
            assert(s@[find_idx(s@, c)] != c);
        }
    }
    i
}

/// What `str::split` on a single separator character yields: the text cut at
/// every occurrence of `sep`. The empty string yields one empty segment.
pub open spec fn split_s(s: Seq<char>, sep: char) -> Seq<Seq<char>>
    decreases s.len(),
{
    let i = find_idx(s, sep);
    if 0 <= i < s.len() {
        seq![s.take(i)] + split_s(s.skip(i + 1), sep)
    } else {
        seq![s]
    }
}

pub proof fn lemma_split_nonempty(s: Seq<char>, sep: char)
    ensures
        split_s(s, sep).len() >= 1,
{
}

/// `str::split` on a separator character, collected into a vector.
pub fn split_char(s: &str, sep: char) -> (r: Vec<String>)
    ensures
        r.deep_view() == split_s(s@, sep),
{
    let mut rest: &str = s;
    let mut out: Vec<String> = Vec::new();
    loop
        invariant
            out.deep_view() + split_s(rest@, sep) == split_s(s@, sep),
        decreases rest@.len(),
    {
        proof {
            lemma_find_idx(rest@, sep);
        }
        let i: usize = find_char(rest, sep);
        let n: usize = rest.unicode_len();
        if i < n {
            let piece: &str = rest.substring_char(0, i);
            assert(piece@ =~= rest@.take(i as int));
            let ghost prev = out.deep_view();
            out.push(piece.to_owned());
            let next: &str = rest.substring_char(i + 1, n);
            assert(next@ =~= rest@.skip(i + 1));
            proof {
                assert(out.deep_view() =~= prev.push(piece@));
                assert(prev.push(piece@) + split_s(next@, sep) =~= prev + split_s(
                    rest@,
                    sep,
                ));
            }
            rest = next;
        } else {
            let ghost prev = out.deep_view();
            out.push(rest.to_owned());
            proof {
                assert(out.deep_view() =~= prev.push(rest@));
                assert(split_s(rest@, sep) =~= seq![rest@]);
                assert(prev.push(rest@) =~= prev + seq![rest@]);
            }
            return out;
        }
    }
}

/// A trailing carriage return removed, as `str::lines` does for lines
/// terminated by `\r\n`.
pub open spec fn strip_cr(s: Seq<char>) -> Seq<char> {
    if s.len() > 0 && s[s.len() - 1] == '\r' {
        s.drop_last()
    } else {
        s
    }
}

/// What `str::lines` yields: the text cut at every newline, a carriage
/// return before a newline dropped, and no empty final line for text that
/// ends with a newline.
pub open spec fn lines_s(s: Seq<char>) -> Seq<Seq<char>>
    decreases s.len(),
{
    if s.len() == 0 {
        seq![]
    } else {
        let i = find_idx(s, '\n');
        if 0 <= i < s.len() {
            seq![strip_cr(s.take(i))] + lines_s(s.skip(i + 1))
        } else {
            seq![s]
        }
    }
}

/// The lines of a text, as `str::lines` yields them.
pub fn split_lines(s: &str) -> (r: Vec<String>)
    ensures
        r.deep_view() == lines_s(s@),
{
    let mut rest: &str = s;
    let mut out: Vec<String> = Vec::new();
    loop
        invariant
            out.deep_view() + lines_s(rest@) == lines_s(s@),
        decreases rest@.len(),
    {
        let n: usize = rest.unicode_len();
        if n == 0 {
            proof {
                assert(lines_s(rest@) =~= Seq::<Seq<char>>::empty());
                assert(out.deep_view() + lines_s(rest@) =~= out.deep_view());
            }
            return out;
        }
        proof {
            lemma_find_idx(rest@, '\n');
        }
        let i: usize = find_char(rest, '\n');
        if i < n {
            let raw: &str = if i > 0 && rest.get_char(i - 1) == '\r' {
                rest.substring_char(0, i - 1)
            } else {
                rest.substring_char(0, i)
            };
            assert(raw@ =~= strip_cr(rest@.take(i as int))) by {
                assert(rest@.take(i as int).len() == i);
                if i > 0 && rest@[i - 1] == '\r' {
                    assert(rest@.take(i as int)[i - 1] == '\r');
                    assert(rest@.subrange(0, i - 1) =~= rest@.take(i as int).drop_last());
                } else {
                    if rest@.take(i as int).len() > 0 && rest@.take(i as int)[i - 1] == '\r' {
                        assert(rest@[i - 1] == '\r');
                    }
                }
            }
            let ghost prev = out.deep_view();
            out.push(raw.to_owned());
            let next: &str = rest.substring_char(i + 1, n);
            assert(next@ =~= rest@.skip(i + 1));
            proof {
                assert(out.deep_view() =~= prev.push(raw@));
                assert(prev.push(raw@) + lines_s(next@) =~= prev + lines_s(rest@));
            }
            rest = next;
        } else {
            let ghost prev = out.deep_view();
            out.push(rest.to_owned());
            proof {
                assert(lines_s(rest@) =~= seq![rest@]);
                assert(out.deep_view() =~= prev.push(rest@));
                assert(prev.push(rest@) =~= prev + seq![rest@]);
            }
            return out;
        }
    }
}

/// The segments joined with `sep` between consecutive segments.
pub open spec fn join_s(parts: Seq<Seq<char>>, sep: char) -> Seq<char>
    decreases parts.len(),
{
    if parts.len() == 0 {
        seq![]
    } else if parts.len() == 1 {
        parts[0]
    } else {
        parts[0] + seq![sep] + join_s(parts.skip(1), sep)
    }
}

/// Joining one more segment appends a separator and the segment.
pub proof fn lemma_join_push(parts: Seq<Seq<char>>, x: Seq<char>, sep: char)
    requires
        parts.len() >= 1,
    ensures
        join_s(parts.push(x), sep) == join_s(parts, sep) + seq![sep] + x,
    decreases parts.len(),
{
    if parts.len() == 1 {
        assert(parts.push(x)[0] == parts[0]);
        assert(parts.push(x).skip(1) =~= seq![x]);
        assert(join_s(seq![x], sep) == x);
        assert(join_s(parts, sep) == parts[0]);
        assert(join_s(parts.push(x), sep) =~= parts[0] + seq![sep] + x);
    } else {
        lemma_join_push(parts.skip(1), x, sep);
        assert(parts.push(x).skip(1) =~= parts.skip(1).push(x));
        assert(join_s(parts.push(x), sep) =~= join_s(parts, sep) + seq![sep] + x);
    }
}

/// `4 * n` spaces: the indentation for nesting depth `n`.
pub open spec fn indent_s(n: int) -> Seq<char>
    decreases n,
{
    if n <= 0 {
        seq![]
    } else {
        seq![' ', ' ', ' ', ' '] + indent_s(n - 1)
    }
}

/// `"    ".repeat(n)`, verified against `indent_s`.
pub fn indent_str(n: usize) -> (r: String)
    ensures
        r@ == indent_s(n as int),
{
    let mut out: String = String::new();
    let mut i: usize = 0;
    proof {
        reveal_strlit("    ");
    }
    while i < n
        invariant
            0 <= i <= n,
            out@ == indent_s(i as int),
            "    "@ =~= seq![' ', ' ', ' ', ' '],
        decreases n - i,
    {
        out.append("    ");
        proof {
            lemma_indent_unfold_back(i as int + 1);
        }
        i = i + 1;
    }
    out
}

/// Indentation can also be peeled off at the back.
pub proof fn lemma_indent_unfold_back(n: int)
    requires
        n >= 1,
    ensures
        indent_s(n) == indent_s(n - 1) + seq![' ', ' ', ' ', ' '],
    decreases n,
{
    if n == 1 {
        assert(indent_s(1) =~= indent_s(0) + seq![' ', ' ', ' ', ' ']);
    } else {
        lemma_indent_unfold_back(n - 1);
        assert(indent_s(n) =~= indent_s(n - 1) + seq![' ', ' ', ' ', ' ']);
    }
}

/// Every character of an indentation is a space.
pub proof fn lemma_indent_ws(n: int)
    ensures
        forall|i: int| 0 <= i < indent_s(n).len() ==> indent_s(n)[i] == ' ',
        n >= 0 ==> indent_s(n).len() == 4 * n,
    decreases n,
{
    if n > 0 {
        lemma_indent_ws(n - 1);
    }
}

/// All trailing occurrences of `c` removed, as `str::trim_end_matches`
/// does for a single-character pattern.
pub open spec fn strip_char_end(s: Seq<char>, c: char) -> Seq<char>
    decreases s.len(),
{
    if s.len() > 0 && s[s.len() - 1] == c {
        strip_char_end(s.drop_last(), c)
    } else {
        s
    }
}

/// Stripping a trailing character keeps exactly the prefix before the run.
pub proof fn lemma_strip_char_end_at(s: Seq<char>, c: char, k: int)
    requires
        0 <= k <= s.len(),
        forall|i: int| k <= i < s.len() ==> s[i] == c,
        k > 0 ==> s[k - 1] != c,
    ensures
        strip_char_end(s, c) == s.take(k),
    decreases s.len(),
{
    if k == s.len() {
        if s.len() > 0 {
            assert(s[s.len() - 1] != c);
        }
        assert(s.take(k) =~= s);
    } else {
        assert(s[s.len() - 1] == c);
        lemma_strip_char_end_at(s.drop_last(), c, k);
        assert(s.drop_last().take(k) =~= s.take(k));
    }
}

/// `str::trim_end_matches` on a single-character pattern.
pub fn strip_char_end_of(s: &str, c: char) -> (r: &str)
    ensures
        r@ == strip_char_end(s@, c),
{
    let n: usize = s.unicode_len();
    let mut b: usize = n;
    while b > 0 && s.get_char(b - 1) == c
        invariant
            0 <= b <= n,
            n == s@.len(),
            forall|i: int| b <= i < n ==> s@[i] == c,
        decreases b,
    {
        b = b - 1;
    }
    proof {
        lemma_strip_char_end_at(s@, c, b as int);
    }
    let r: &str = s.substring_char(0, b);
    assert(r@ =~= s@.take(b as int));
    r
}

/// The key of an entry: the text before the first `=`, trimmed. An entry
/// with no `=` is its own key, trimmed.
pub open spec fn key_of_s(entry: Seq<char>) -> Seq<char> {
    trim_s(entry.take(find_idx(entry, '=')))
}

/// The key of an entry line, as the entry inserter extracts it.
pub fn key_of(entry: &str) -> (r: &str)
    ensures
        r@ == key_of_s(entry@),
{
    proof {
        lemma_find_idx(entry@, '=');
    }
    let i: usize = find_char(entry, '=');
    let head: &str = entry.substring_char(0, i);
    assert(head@ =~= entry@.take(i as int));
    trim_of(head)
}

} // verus!

//! The line-level stages: dropping structural lines, rewriting the opening
//! line, trimming common indentation, and marking lines as comments.
use vstd::prelude::*;
use crate::text::{
    lemma_join_round_trip, lemma_lines_round_trip, lemma_split_no_breaks, no_breaks, blank, ends_with, has_prefix, has_suffix, is_blank, join, join_lines, lines, lines_of,
    same_text, starts_with, trim, trimmed_of, views,
};

verus! {

/// A line that only gives the comment's structure: the opening or closing
/// delimiter alone, or an opening delimiter immediately followed by a
/// backslash tag (like `/**\class SkPath`).
pub open spec fn is_structural(line: Seq<char>) -> bool {
    let t = trimmed_of(line);
    t == "/**"@ || t == "*/"@ || has_prefix(t, "/**\\"@)
}

/// Whether `line` only gives the comment's structure.
pub fn remove_line(line: &str) -> (r: bool)
    ensures
        r == is_structural(line@),
{
    let trimmed = trim(line);
    same_text(trimmed, "/**") || same_text(trimmed, "*/") || starts_with(trimmed, "/**\\")
}

/// The lines of `s` that are not structural, in order.
pub open spec fn kept_lines(s: Seq<char>) -> Seq<Seq<char>> {
    lines_of(s).filter(|l: Seq<char>| !is_structural(l))
}

/// Drops the structural lines of `source` and keeps all others, in order.
pub fn remove_lines(source: &str) -> (r: String)
    ensures
        r@ == join_lines(kept_lines(source@)),
{
    let all = lines(source);
    let ghost ls = views(all@);
    let ghost pred = |l: Seq<char>| !is_structural(l);
    let mut kept: Vec<String> = Vec::new();
    let mut i: usize = 0;
    while i < all.len()
        invariant
            i <= all@.len(),
            ls == views(all@),
            pred == (|l: Seq<char>| !is_structural(l)),
            views(kept@) == ls.take(i as int).filter(pred),
        decreases all@.len() - i,
    {
        assert(ls.take(i + 1).drop_last() =~= ls.take(i as int));
        assert(ls.take(i + 1).last() == all@[i as int]@);
        assert(pred(all@[i as int]@) == !is_structural(all@[i as int]@));
        let ghost t = ls.take(i + 1);
        reveal(Seq::filter);
        assert(t.filter(pred) == (if pred(t.last()) {
            t.drop_last().filter(pred).push(t.last())
        } else {
            t.drop_last().filter(pred)
        }));
        if !remove_line(all[i].as_str()) {
            let ghost before = views(kept@);
            kept.push(all[i].clone());
            assert(views(kept@) =~= before.push(all@[i as int]@));
        }
        i += 1;
    }
    assert(ls.take(i as int) =~= ls);
    join(&kept)
}

/// The number of leading copies of `c` in `s`.
pub open spec fn lead(s: Seq<char>, c: char) -> nat
    decreases s.len(),
{
    if s.len() > 0 && s[0] == c {
        1 + lead(s.drop_first(), c)
    } else {
        0
    }
}

proof fn lemma_lead(s: Seq<char>, c: char, k: int)
    requires
        0 <= k <= s.len(),
        forall|j: int| 0 <= j < k ==> s[j] == c,
        k == s.len() || s[k] != c,
    ensures
        lead(s, c) == k,
    decreases k,
{
    if k > 0 {
        lemma_lead(s.drop_first(), c, k - 1);
    }
}

/// Counts the leading copies of `indent` in `source`: `None` where the
/// whole of it is indentation.
pub fn indent_size(source: &str, indent: char) -> (r: Option<usize>)
    ensures
        r is Some ==> r->0 == lead(source@, indent) && r->0 < source@.len(),
        r is None ==> lead(source@, indent) == source@.len(),
{
    let n = source.unicode_len();
    let mut i: usize = 0;
    while i < n && source.get_char(i) == indent
        invariant
            n == source@.len(),
            i <= n,
            forall|j: int| 0 <= j < i ==> source@[j] == indent,
        decreases n - i,
    {
        i += 1;
    }
    proof {
        lemma_lead(source@, indent, i as int);
    }
    if i < n {
        Some(i)
    } else {
        None
    }
}

/// The opening line with an opening delimiter and one space after its
/// indent turned into four spaces; any other line as it is.
pub open spec fn first_line_of(s: Seq<char>) -> Seq<char> {
    let k = lead(s, ' ');
    if has_prefix(s.skip(k as int), "/** "@) {
        s.take(k as int) + "    "@ + s.skip(k as int + 4)
    } else {
        s
    }
}

/// Replaces a `/** ` by spaces where it follows the first line's indent.
pub fn first_line_converter(first_line: &str) -> (r: String)
    ensures
        r@ == first_line_of(first_line@),
{
    proof {
        reveal_strlit("/** ");
    }
    let n = first_line.unicode_len();
    let size = match indent_size(first_line, ' ') {
        Some(k) => k,
        None => n,
    };
    let rest = first_line.substring_char(size, n);
    assert(rest@ =~= first_line@.skip(size as int));
    if starts_with(rest, "/** ") {
        let indent = first_line.substring_char(0, size);
        let tail = first_line.substring_char(size + 4, n);
        assert(tail@ =~= first_line@.skip(size + 4));
        return String::from_str(indent).concat("    ").concat(tail);
    }
    String::from_str(first_line)
}

/// The lines whose indentation counts: all lines but the empty one after a
/// trailing line break.
pub open spec fn counted_lines(s: Seq<char>) -> Seq<Seq<char>> {
    if has_suffix(s, seq!['\n']) {
        lines_of(s).drop_last()
    } else {
        lines_of(s)
    }
}

/// The least number of leading copies of `c` over the lines `ls`; zero
/// when there are none.
pub open spec fn min_lead(ls: Seq<Seq<char>>, c: char) -> nat
    decreases ls.len(),
{
    if ls.len() == 0 {
        0
    } else if ls.len() == 1 {
        lead(ls[0], c)
    } else {
        let m = min_lead(ls.drop_last(), c);
        let x = lead(ls.last(), c);
        if x < m {
            x
        } else {
            m
        }
    }
}

/// `l` without its first `m` characters.
pub open spec fn trim_line(l: Seq<char>, m: nat) -> Seq<char> {
    if m <= l.len() {
        l.skip(m as int)
    } else {
        Seq::empty()
    }
}

/// `s` with the indentation of copies of `c` that all its lines share
/// taken off each line.
pub open spec fn common_trimmed_of(s: Seq<char>, c: char) -> Seq<char> {
    let m = min_lead(counted_lines(s), c);
    join_lines(lines_of(s).map_values(|l: Seq<char>| trim_line(l, m)))
}

/// Trims the common indent of all lines: the least number of leading
/// copies of `indent` over the lines (a line made only of them counts in
/// full) is taken off every line.
pub fn trim_common_indent(source: &str, indent: char) -> (r: String)
    requires
        (indent as u32) < 128,
    ensures
        r@ == common_trimmed_of(source@, indent),
{
    let all = lines(source);
    let ghost ls = views(all@);
    proof {
        reveal_strlit("\n");
        if source@.len() > 0 {
            crate::text::lemma_split_breaks_nonempty(source@);
        }
    }
    let count = if ends_with(source, "\n") {
        all.len() - 1
    } else {
        all.len()
    };
    let ghost counted = counted_lines(source@);
    assert("\n"@ =~= seq!['\n']);
    assert(counted =~= ls.take(count as int));
    let mut m: usize = 0;
    let mut i: usize = 0;
    while i < count
        invariant
            count <= all@.len(),
            ls == views(all@),
            counted == ls.take(count as int),
            i <= count,
            i > 0 ==> m == min_lead(ls.take(i as int), indent),
            i == 0 ==> m == 0,
        decreases count - i,
    {
        let k = match indent_size(all[i].as_str(), indent) {
            Some(k) => k,
            None => all[i].as_str().unicode_len(),
        };
        assert(ls.take(i + 1).drop_last() =~= ls.take(i as int));
        if i == 0 || k < m {
            m = k;
        }
        i += 1;
    }
    let ghost mm = min_lead(counted, indent);
    let mut out: Vec<String> = Vec::new();
    let mut j: usize = 0;
    while j < all.len()
        invariant
            ls == views(all@),
            m == mm,
            j <= all@.len(),
            views(out@) == ls.take(j as int).map_values(|l: Seq<char>| trim_line(l, mm)),
        decreases all@.len() - j,
    {
        let line = all[j].as_str();
        let n = line.unicode_len();
        let t = if m <= n {
            String::from_str(line.substring_char(m, n))
        } else {
            String::new()
        };
        let ghost before = views(out@);
        out.push(t);
        assert(views(out@) =~= before.push(trim_line(ls[j as int], mm)));
        assert(ls.take(j + 1).map_values(|l: Seq<char>| trim_line(l, mm)) =~= ls.take(
            j as int,
        ).map_values(|l: Seq<char>| trim_line(l, mm)).push(trim_line(ls[j as int], mm)));
        j += 1;
    }
    assert(ls.take(j as int) =~= ls);
    join(&out)
}

/// The line `l` as a comment line: as it is where it already carries the
/// marker, or where it is the last line and blank; else behind the marker.
pub open spec fn marked_line(l: Seq<char>, last: bool) -> Seq<char> {
    if has_prefix(l, "/// "@) || (last && is_blank(l)) {
        l
    } else {
        "/// "@ + l
    }
}

/// Each of the lines `ls` as a comment line.
pub open spec fn commented_lines(ls: Seq<Seq<char>>) -> Seq<Seq<char>> {
    Seq::new(ls.len(), |i: int| marked_line(ls[i], i == ls.len() - 1))
}

/// The text `s` with each of its lines as a comment line.
pub open spec fn comment_of(s: Seq<char>) -> Seq<char> {
    join_lines(commented_lines(lines_of(s)))
}

/// Puts the marker `/// ` before each line of `str` that does not have it
/// yet, but for a blank last line.
pub fn comment(str: &str) -> (r: String)
    ensures
        r@ == comment_of(str@),
{
    let all = lines(str);
    let ghost ls = views(all@);
    let mut out: Vec<String> = Vec::new();
    let mut i: usize = 0;
    while i < all.len()
        invariant
            ls == views(all@),
            i <= all@.len(),
            views(out@) == commented_lines(ls).take(i as int),
        decreases all@.len() - i,
    {
        let is_last = i == all.len() - 1;
        let line = all[i].as_str();
        let keep = (is_last && blank(line)) || starts_with(line, "/// ");
        let t = if keep {
            String::from_str(line)
        } else {
            String::from_str("/// ").concat(line)
        };
        assert(line@ == ls[i as int]);
        assert(t@ == marked_line(ls[i as int], i == ls.len() - 1));
        let ghost before = views(out@);
        out.push(t);
        assert(views(out@) =~= before.push(t@));
        assert(commented_lines(ls).take(i + 1) =~= commented_lines(ls).take(i as int).push(t@));
        i += 1;
    }
    assert(commented_lines(ls).take(i as int) =~= commented_lines(ls));
    join(&out)
}

/// Marking the lines of an already marked text again changes nothing:
/// lines that carry the marker are left alone.
pub proof fn lemma_comment_idempotent(s: Seq<char>)
    ensures
        comment_of(comment_of(s)) == comment_of(s),
{
    reveal_strlit("/// ");
    let m = "/// "@;
    let ls = lines_of(s);
    let out = commented_lines(ls);
    if s.len() > 0 {
        lemma_split_no_breaks(s);
    }
    assert forall|i: int| 0 <= i < out.len() implies no_breaks(#[trigger] out[i]) by {
        assert(no_breaks(ls[i]));
        if out[i] != ls[i] {
            assert(out[i] == m + ls[i]);
            assert forall|j: int| 0 <= j < out[i].len() implies out[i][j] != '\n' by {
                if j >= 4 {
                    assert(out[i][j] == ls[i][j - 4]);
                }
            }
        }
    }
    if ls.len() == 1 {
        lemma_lines_round_trip(s);
        assert(ls[0] == s);
        if out[0] != ls[0] {
            assert(out[0].len() == 4 + ls[0].len());
        }
    }
    lemma_join_round_trip(out);
    assert forall|i: int| 0 <= i < out.len() implies marked_line(out[i], i == out.len() - 1)
        == out[i] by {
        if out[i] != ls[i] {
            assert(out[i] == m + ls[i]);
            assert(out[i].take(4) =~= m);
        }
    }
    assert(commented_lines(out) =~= out);
}

} // verus!

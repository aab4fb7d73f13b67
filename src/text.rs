//! Plain text helpers: symmetric line splitting and joining, prefixes,
//! and Unicode whitespace.
use vstd::prelude::*;

verus! {

/// The pieces of `s` between line breaks, built one character at a time:
/// a break opens a new (empty) piece, any other character extends the last one.
pub open spec fn split_breaks(s: Seq<char>) -> Seq<Seq<char>>
    decreases s.len(),
{
    if s.len() == 0 {
        seq![Seq::<char>::empty()]
    } else {
        let prev = split_breaks(s.drop_last());
        if s.last() == '\n' {
            prev.push(Seq::<char>::empty())
        } else {
            prev.update(prev.len() - 1, prev.last().push(s.last()))
        }
    }
}

/// Splitting gives at least one piece.
pub proof fn lemma_split_breaks_nonempty(s: Seq<char>)
    ensures
        split_breaks(s).len() >= 1,
    decreases s.len(),
{
    if s.len() > 0 {
        lemma_split_breaks_nonempty(s.drop_last());
    }
}

/// The lines of a document: none for the empty text, else the pieces
/// between line breaks (a trailing break gives a trailing empty line).
pub open spec fn lines_of(s: Seq<char>) -> Seq<Seq<char>> {
    if s.len() == 0 {
        Seq::empty()
    } else {
        split_breaks(s)
    }
}

/// The lines `ls` joined with a line break between each two of them.
pub open spec fn join_lines(ls: Seq<Seq<char>>) -> Seq<char>
    decreases ls.len(),
{
    if ls.len() == 0 {
        Seq::empty()
    } else if ls.len() == 1 {
        ls[0]
    } else {
        join_lines(ls.drop_last()) + seq!['\n'] + ls.last()
    }
}

/// The character views of a sequence of strings.
pub open spec fn views(v: Seq<String>) -> Seq<Seq<char>> {
    v.map_values(|l: String| l@)
}

/// `p` is a prefix of `s`.
pub open spec fn has_prefix(s: Seq<char>, p: Seq<char>) -> bool {
    p.len() <= s.len() && s.take(p.len() as int) == p
}

/// `p` is a suffix of `s`.
pub open spec fn has_suffix(s: Seq<char>, p: Seq<char>) -> bool {
    p.len() <= s.len() && s.skip(s.len() - p.len()) == p
}

/// Unicode's `White_Space` property.
#[verifier::opaque]
pub open spec fn is_ws(c: char) -> bool {
    let u = c as u32;
    (0x09 <= u && u <= 0x0d) || u == 0x20 || u == 0x85 || u == 0xa0 || u == 0x1680
        || (0x2000 <= u && u <= 0x200a) || u == 0x2028 || u == 0x2029 || u == 0x202f
        || u == 0x205f || u == 0x3000
}

/// Every character of `s` is whitespace.
pub open spec fn is_blank(s: Seq<char>) -> bool {
    forall|i: int| 0 <= i < s.len() ==> is_ws(#[trigger] s[i])
}

/// Whether `c` is whitespace in Unicode's sense.
pub fn is_whitespace(c: char) -> (r: bool)
    ensures
        r == is_ws(c),
{
    reveal(is_ws);
    let u = c as u32;
    (0x09 <= u && u <= 0x0d) || u == 0x20 || u == 0x85 || u == 0xa0 || u == 0x1680
        || (0x2000 <= u && u <= 0x200a) || u == 0x2028 || u == 0x2029 || u == 0x202f
        || u == 0x205f || u == 0x3000
}

/// Whether `s` holds whitespace only (the empty text included).
pub fn blank(s: &str) -> (r: bool)
    ensures
        r == is_blank(s@),
{
    let n = s.unicode_len();
    let mut i: usize = 0;
    while i < n
        invariant
            n == s@.len(),
            i <= n,
            forall|j: int| 0 <= j < i ==> is_ws(#[trigger] s@[j]),
        decreases n - i,
    {
        if !is_whitespace(s.get_char(i)) {
            return false;
        }
        i += 1;
    }
    true
}

/// `s` without its leading whitespace.
pub open spec fn trim_start_of(s: Seq<char>) -> Seq<char>
    decreases s.len(),
{
    if s.len() > 0 && is_ws(s[0]) {
        trim_start_of(s.drop_first())
    } else {
        s
    }
}

/// `s` without its trailing whitespace.
pub open spec fn trim_end_of(s: Seq<char>) -> Seq<char>
    decreases s.len(),
{
    if s.len() > 0 && is_ws(s.last()) {
        trim_end_of(s.drop_last())
    } else {
        s
    }
}

/// `s` without leading and trailing whitespace.
pub open spec fn trimmed_of(s: Seq<char>) -> Seq<char> {
    trim_end_of(trim_start_of(s))
}

/// `s` without leading and trailing whitespace.
pub fn trim(s: &str) -> (r: &str)
    ensures
        r@ == trimmed_of(s@),
{
    let n = s.unicode_len();
    let mut a: usize = 0;
    assert(s@.skip(0) =~= s@);
    while a < n && is_whitespace(s.get_char(a))
        invariant
            n == s@.len(),
            a <= n,
            trim_start_of(s@) == trim_start_of(s@.skip(a as int)),
        decreases n - a,
    {
        assert(s@.skip(a as int).drop_first() =~= s@.skip(a + 1));
        a += 1;
    }
    let mut b: usize = n;
    while b > a && is_whitespace(s.get_char(b - 1))
        invariant
            n == s@.len(),
            a <= b <= n,
            trim_end_of(s@.skip(a as int)) == trim_end_of(s@.subrange(a as int, b as int)),
        decreases b - a,
    {
        assert(s@.subrange(a as int, b as int).drop_last() =~= s@.subrange(a as int, b - 1));
        b -= 1;
    }
    assert(s@.skip(a as int) =~= s@.subrange(a as int, n as int));
    s.substring_char(a, b)
}

/// Whether `s` begins with `p`.
pub fn starts_with(s: &str, p: &str) -> (r: bool)
    ensures
        r == has_prefix(s@, p@),
{
    let n = s.unicode_len();
    let m = p.unicode_len();
    if m > n {
        return false;
    }
    let mut i: usize = 0;
    while i < m
        invariant
            n == s@.len(),
            m == p@.len(),
            m <= n,
            i <= m,
            forall|j: int| 0 <= j < i ==> s@[j] == p@[j],
        decreases m - i,
    {
        if s.get_char(i) != p.get_char(i) {
            assert(s@.take(m as int)[i as int] != p@[i as int]);
            return false;
        }
        i += 1;
    }
    assert(s@.take(m as int) =~= p@);
    true
}

/// Whether `s` ends with `p`.
pub fn ends_with(s: &str, p: &str) -> (r: bool)
    ensures
        r == has_suffix(s@, p@),
{
    let n = s.unicode_len();
    let m = p.unicode_len();
    if m > n {
        return false;
    }
    let d = n - m;
    let mut i: usize = 0;
    while i < m
        invariant
            n == s@.len(),
            m == p@.len(),
            d == n - m,
            i <= m,
            forall|j: int| 0 <= j < i ==> s@[d + j] == p@[j],
        decreases m - i,
    {
        if s.get_char(d + i) != p.get_char(i) {
            assert(s@.skip(d as int)[i as int] != p@[i as int]);
            return false;
        }
        i += 1;
    }
    assert(s@.skip(d as int) =~= p@);
    true
}

/// Whether `s` and `t` hold the same characters.
pub fn same_text(s: &str, t: &str) -> (r: bool)
    ensures
        r == (s@ == t@),
{
    let r = s.unicode_len() == t.unicode_len() && starts_with(s, t);
    proof {
        if s@ == t@ {
            assert(s@.take(t@.len() as int) =~= t@);
        }
        if s@.len() == t@.len() && has_prefix(s@, t@) {
            assert(s@ =~= s@.take(t@.len() as int));
        }
    }
    r
}

/// Splits `all` into lines at each line break, so that joining the lines
/// again gives back `all` exactly; the empty text has no lines.
pub fn lines(all: &str) -> (r: Vec<String>)
    ensures
        views(r@) == lines_of(all@),
{
    let n = all.unicode_len();
    let mut r: Vec<String> = Vec::new();
    if n == 0 {
        assert(views(r@) =~= lines_of(all@));
        return r;
    }
    let mut start: usize = 0;
    let mut i: usize = 0;
    assert(all@.take(0) =~= Seq::<char>::empty());
    assert(views(r@).push(all@.subrange(0, 0)) =~= seq![Seq::<char>::empty()]);
    while i < n
        invariant
            n == all@.len(),
            start <= i <= n,
            split_breaks(all@.take(i as int)) == views(r@).push(all@.subrange(start as int, i as int)),
        decreases n - i,
    {
        let c = all.get_char(i);
        let ghost before = views(r@);
        let ghost t = all@.take(i + 1);
        assert(t.drop_last() =~= all@.take(i as int));
        assert(t.last() == c);
        if c == '\n' {
            let line = String::from_str(all.substring_char(start, i));
            assert(line@ == all@.subrange(start as int, i as int));
            r.push(line);
            assert(views(r@) =~= before.push(all@.subrange(start as int, i as int)));
            start = i + 1;
            assert(all@.subrange(start as int, i + 1) =~= Seq::<char>::empty());
            assert(split_breaks(t) =~= views(r@).push(all@.subrange(start as int, i + 1)));
        } else {
            let ghost prev = split_breaks(all@.take(i as int));
            assert(prev.last().push(c) =~= all@.subrange(start as int, i + 1));
            assert(split_breaks(t) =~= views(r@).push(all@.subrange(start as int, i + 1)));
        }
        i += 1;
    }
    let ghost before = views(r@);
    let line = String::from_str(all.substring_char(start, n));
    r.push(line);
    assert(all@.take(n as int) =~= all@);
    assert(views(r@) =~= before.push(all@.subrange(start as int, n as int)));
    r
}

/// Joins `ls` with a line break between each two of them.
pub fn join(ls: &Vec<String>) -> (r: String)
    ensures
        r@ == join_lines(views(ls@)),
{
    if ls.len() == 0 {
        return String::new();
    }
    let mut r = ls[0].clone();
    let mut i: usize = 1;
    assert(views(ls@).take(1) =~= seq![ls@[0]@]);
    while i < ls.len()
        invariant
            1 <= i <= ls.len(),
            r@ == join_lines(views(ls@).take(i as int)),
        decreases ls.len() - i,
    {
        proof {
            reveal_strlit("\n");
        }
        r.append("\n");
        r.append(ls[i].as_str());
        let ghost t = views(ls@).take(i + 1);
        assert(t.drop_last() =~= views(ls@).take(i as int));
        i += 1;
    }
    assert(views(ls@).take(i as int) =~= views(ls@));
    r
}

} // verus!

verus! {

/// `l` holds no line break.
pub open spec fn no_breaks(l: Seq<char>) -> bool {
    forall|i: int| 0 <= i < l.len() ==> l[i] != '\n'
}

proof fn lemma_join_split(s: Seq<char>)
    ensures
        join_lines(split_breaks(s)) == s,
        split_breaks(s).len() >= 1,
    decreases s.len(),
{
    if s.len() > 0 {
        let t = s.drop_last();
        let c = s.last();
        let prev = split_breaks(t);
        lemma_join_split(t);
        if c == '\n' {
            let u = prev.push(Seq::<char>::empty());
            assert(u.drop_last() =~= prev);
            assert(t + seq!['\n'] + Seq::<char>::empty() =~= s);
        } else {
            let u = prev.update(prev.len() - 1, prev.last().push(c));
            if prev.len() == 1 {
                assert(t.push(c) =~= s);
            } else {
                assert(u.drop_last() =~= prev.drop_last());
                assert(join_lines(prev) == join_lines(prev.drop_last()) + seq!['\n'] + prev.last());
                assert(u.last() == prev.last().push(c));
                assert(join_lines(u) == join_lines(u.drop_last()) + seq!['\n'] + u.last());
                assert(s =~= t.push(c));
                assert(join_lines(prev.drop_last()) + seq!['\n'] + prev.last().push(c) =~= s);
            }
        }
    }
}

/// Splitting a text into lines and joining them again with line breaks
/// gives back the text exactly, trailing line breaks included.
pub proof fn lemma_lines_round_trip(s: Seq<char>)
    ensures
        join_lines(lines_of(s)) == s,
{
    if s.len() > 0 {
        lemma_join_split(s);
    }
}

/// No piece of a split holds a line break.
pub proof fn lemma_split_no_breaks(s: Seq<char>)
    ensures
        forall|i: int| 0 <= i < split_breaks(s).len() ==> no_breaks(#[trigger] split_breaks(s)[i]),
    decreases s.len(),
{
    if s.len() > 0 {
        lemma_split_no_breaks(s.drop_last());
        lemma_split_breaks_nonempty(s.drop_last());
        let prev = split_breaks(s.drop_last());
        let u = split_breaks(s);
        assert forall|i: int| 0 <= i < u.len() implies no_breaks(#[trigger] u[i]) by {
            if i < prev.len() - 1 {
                assert(u[i] == prev[i]);
            } else if i == prev.len() - 1 && s.last() != '\n' {
                assert(u[i] == prev[i].push(s.last()));
                assert(no_breaks(prev[i]));
            } else if i < prev.len() {
                assert(u[i] == prev[i]);
            }
        }
    }
}

proof fn lemma_split_append(x: Seq<char>, b: Seq<char>)
    requires
        no_breaks(b),
    ensures
        split_breaks(x + b) == split_breaks(x).update(
            split_breaks(x).len() - 1,
            split_breaks(x).last() + b,
        ),
    decreases b.len(),
{
    lemma_split_breaks_nonempty(x);
    let q = split_breaks(x);
    if b.len() == 0 {
        assert(x + b =~= x);
        assert(q.update(q.len() - 1, q.last() + b) =~= q);
    } else {
        let b2 = b.drop_last();
        let c = b.last();
        assert(no_breaks(b2));
        lemma_split_append(x, b2);
        assert((x + b).drop_last() =~= x + b2);
        assert((x + b).last() == c);
        assert(c != '\n');
        assert((q.last() + b2).push(c) =~= q.last() + b);
        let p = q.update(q.len() - 1, q.last() + b2);
        assert(p.update(p.len() - 1, p.last().push(c)) =~= q.update(q.len() - 1, q.last() + b));
    }
}

proof fn lemma_split_join(ls: Seq<Seq<char>>)
    requires
        ls.len() >= 1,
        forall|i: int| 0 <= i < ls.len() ==> no_breaks(#[trigger] ls[i]),
    ensures
        split_breaks(join_lines(ls)) == ls,
    decreases ls.len(),
{
    let e = Seq::<char>::empty();
    if ls.len() == 1 {
        lemma_split_append(e, ls[0]);
        assert(e + ls[0] =~= ls[0]);
        assert(split_breaks(e).update(0, split_breaks(e).last() + ls[0]) =~= ls);
    } else {
        let init = ls.drop_last();
        assert forall|i: int| 0 <= i < init.len() implies no_breaks(#[trigger] init[i]) by {
            assert(init[i] == ls[i]);
        }
        lemma_split_join(init);
        let x = join_lines(init) + seq!['\n'];
        assert(x.drop_last() =~= join_lines(init));
        assert(split_breaks(x) == init.push(e));
        lemma_split_append(x, ls.last());
        assert(init.push(e).update(init.len() as int, e + ls.last()) =~= ls);
    }
}

/// Joining lines without line breaks and splitting the result again gives
/// back the lines, unless they are a single empty line.
pub proof fn lemma_join_round_trip(ls: Seq<Seq<char>>)
    requires
        forall|i: int| 0 <= i < ls.len() ==> no_breaks(#[trigger] ls[i]),
        !(ls.len() == 1 && ls[0].len() == 0),
    ensures
        lines_of(join_lines(ls)) == ls,
{
    if ls.len() > 0 {
        lemma_split_join(ls);
        if ls.len() >= 2 {
            assert(join_lines(ls).len() > 0);
        }
    }
}

} // verus!

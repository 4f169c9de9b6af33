//! Character-level text helpers: Unicode whitespace, trimming, and reading
//! a text into lines and writing lines back into a text.

use vstd::prelude::*;
use vstd::string::*;

verus! {

/// Unicode `White_Space` characters, exactly the set accepted by
/// `char::is_whitespace`.
pub open spec fn is_space(c: char) -> bool {
    ||| ('\u{9}' <= c && c <= '\u{d}')
    ||| c == ' '
    ||| c == '\u{85}'
    ||| c == '\u{a0}'
    ||| c == '\u{1680}'
    ||| ('\u{2000}' <= c && c <= '\u{200a}')
    ||| c == '\u{2028}'
    ||| c == '\u{2029}'
    ||| c == '\u{202f}'
    ||| c == '\u{205f}'
    ||| c == '\u{3000}'
}

pub fn is_space_char(c: char) -> (b: bool)
    ensures
        b == is_space(c),
{
    ('\u{9}' <= c && c <= '\u{d}') || c == ' ' || c == '\u{85}' || c == '\u{a0}' || c == '\u{1680}'
        || ('\u{2000}' <= c && c <= '\u{200a}') || c == '\u{2028}' || c == '\u{2029}'
        || c == '\u{202f}' || c == '\u{205f}' || c == '\u{3000}'
}


pub fn chars_of(s: &str) -> (v: Vec<char>)
    ensures
        v@ == s@,
{
    broadcast use vstd::string::group_string_axioms;
    let mut v: Vec<char> = Vec::new();
    for c in it: s.chars()
        invariant
            v@ == it.seq().take(it.index() as int),
    {
        v.push(c);
    }
    v
}


/// `s` with leading whitespace removed.
pub open spec fn trim_start(s: Seq<char>) -> Seq<char>
    decreases s.len(),
{
    if s.len() > 0 && is_space(s[0]) {
        trim_start(s.drop_first())
    } else {
        s
    }
}

/// `s` with trailing whitespace removed.
pub open spec fn trim_end(s: Seq<char>) -> Seq<char>
    decreases s.len(),
{
    if s.len() > 0 && is_space(s.last()) {
        trim_end(s.drop_last())
    } else {
        s
    }
}

/// `s` with whitespace removed at both ends, as `str::trim` does.
pub open spec fn trim(s: Seq<char>) -> Seq<char> {
    trim_end(trim_start(s))
}

/// Start and end of the trimmed part of `v`.
pub fn trim_bounds(v: &Vec<char>) -> (r: (usize, usize))
    ensures
        r.0 <= r.1 <= v.len(),
        trim(v@) == v@.subrange(r.0 as int, r.1 as int),
{
    let n = v.len();
    let mut i: usize = 0;
    assert(v@.subrange(0, n as int) =~= v@);
    while i < n && is_space_char(v[i])
        invariant
            n == v.len(),
            i <= n,
            trim_start(v@) == trim_start(v@.subrange(i as int, n as int)),
        decreases n - i,
    {
        assert(v@.subrange(i as int, n as int).drop_first() =~= v@.subrange(i + 1, n as int));
        i = i + 1;
    }
    let mut j: usize = n;
    while j > i && is_space_char(v[j - 1])
        invariant
            n == v.len(),
            i <= j <= n,
            trim(v@) == trim_end(v@.subrange(i as int, j as int)),
        decreases j - i,
    {
        assert(v@.subrange(i as int, j as int).drop_last() =~= v@.subrange(i as int, j - 1));
        j = j - 1;
    }
    (i, j)
}

/// Whether `s.trim() == t`.
pub fn trimmed_eq(s: &str, t: &str) -> (b: bool)
    ensures
        b == (trim(s@) == t@),
{
    let v = chars_of(s);
    let w = chars_of(t);
    let (i, j) = trim_bounds(&v);
    if j - i != w.len() {
        return false;
    }
    let mut k: usize = 0;
    while k < w.len()
        invariant
            v@ == s@,
            w@ == t@,
            trim(v@) == v@.subrange(i as int, j as int),
            i <= j <= v.len(),
            j - i == w.len(),
            k <= w.len(),
            forall|m: int| 0 <= m < k ==> v@[i + m] == w@[m],
        decreases w.len() - k,
    {
        if v[i + k] != w[k] {
            assert(v@.subrange(i as int, j as int)[k as int] == v@[i + k]);
            assert(trim(s@)[k as int] != t@[k as int]);
            return false;
        }
        k = k + 1;
    }
    assert forall|m: int| 0 <= m < w.len() implies trim(s@)[m] == t@[m] by {
        assert(v@.subrange(i as int, j as int)[m] == v@[i + m]);
    }
    assert(trim(s@) =~= t@);
    true
}

/// Whether `s.trim().is_empty()`: every character of `s` is whitespace.
pub fn is_blank(s: &str) -> (b: bool)
    ensures
        b == (trim(s@).len() == 0),
{
    let v = chars_of(s);
    let (i, j) = trim_bounds(&v);
    i == j
}


/// `l` without one trailing carriage return.
pub open spec fn strip_cr(l: Seq<char>) -> Seq<char> {
    if l.len() > 0 && l.last() == '\r' {
        l.drop_last()
    } else {
        l
    }
}

/// Reading `s` from the left: the lines finished so far, and the line in progress.
pub open spec fn scan_lines(s: Seq<char>) -> (Seq<Seq<char>>, Seq<char>)
    decreases s.len(),
{
    if s.len() == 0 {
        (seq![], seq![])
    } else {
        let (done, cur) = scan_lines(s.drop_last());
        if s.last() == '\n' {
            (done.push(strip_cr(cur)), seq![])
        } else {
            (done, cur.push(s.last()))
        }
    }
}

/// The lines of `s` as `BufRead::lines` yields them: split at each `\n`, a
/// `\r` right before the `\n` dropped, and no empty line after a final `\n`.
pub open spec fn split_lines(s: Seq<char>) -> Seq<Seq<char>> {
    let (done, cur) = scan_lines(s);
    if cur.len() > 0 {
        done.push(cur)
    } else {
        done
    }
}

/// The lines joined by `\n`, with one more `\n` at the end.
pub open spec fn join_lines(lines: Seq<Seq<char>>) -> Seq<char>
    decreases lines.len(),
{
    if lines.len() == 0 {
        seq![]
    } else {
        join_lines(lines.drop_last()) + lines.last() + seq!['\n']
    }
}

/// A line that `split_lines` can give back unchanged after `join_lines`.
pub open spec fn is_plain_line(l: Seq<char>) -> bool {
    &&& !l.contains('\n')
    &&& !(l.len() > 0 && l.last() == '\r')
}

/// Splits `s` into its lines, as `BufRead::lines` does.
pub fn split_lines_of(s: &str) -> (lines: Vec<String>)
    ensures
        lines.deep_view() == split_lines(s@),
{
    let v = chars_of(s);
    let n = v.len();
    let mut lines: Vec<String> = Vec::new();
    let mut start: usize = 0;
    let mut i: usize = 0;
    while i < n
        invariant
            v@ == s@,
            n == v.len(),
            start <= i <= n,
            scan_lines(s@.subrange(0, i as int)) == (lines.deep_view(), s@.subrange(start as int, i as int)),
        decreases n - i,
    {
        assert(s@.subrange(0, i + 1).drop_last() =~= s@.subrange(0, i as int));
        assert(s@.subrange(0, i + 1).last() == v@[i as int]);
        if v[i] == '\n' {
            let end = if i > start && v[i - 1] == '\r' { i - 1 } else { i };
            let piece = s.substring_char(start, end);
            let line = String::from_str(piece);
            proof {
                let cur = s@.subrange(start as int, i as int);
                assert(strip_cr(cur) =~= s@.subrange(start as int, end as int));
            }
            let ghost before = lines.deep_view();
            lines.push(line);
            assert(lines.deep_view() =~= before.push(s@.subrange(start as int, end as int)));
            start = i + 1;
            assert(s@.subrange(start as int, i + 1) =~= Seq::<char>::empty());
        } else {
            assert(s@.subrange(start as int, i + 1) =~= s@.subrange(start as int, i as int).push(
                v@[i as int],
            ));
        }
        i = i + 1;
    }
    assert(s@.subrange(0, n as int) =~= s@);
    if start < n {
        let piece = s.substring_char(start, n);
        let line = String::from_str(piece);
        let ghost before = lines.deep_view();
        lines.push(line);
        assert(lines.deep_view() =~= before.push(s@.subrange(start as int, n as int)));
    }
    lines
}


/// Joins the lines with `\n` and ends the text with `\n`, as writing
/// `lines.join("\n")` with `writeln!` does.
pub fn join_lines_of(lines: &Vec<String>) -> (text: String)
    ensures
        text@ == join_lines(lines.deep_view()),
{
    let nl = "\n";
    proof {
        reveal_strlit("\n");
    }
    let mut text = String::new();
    let mut i: usize = 0;
    while i < lines.len()
        invariant
            i <= lines.len(),
            nl@ == seq!['\n'],
            text@ == join_lines(lines.deep_view().take(i as int)),
        decreases lines.len() - i,
    {
        assert(lines.deep_view().take(i + 1).drop_last() =~= lines.deep_view().take(i as int));
        text.append(lines[i].as_str());
        text.append(nl);
        i = i + 1;
    }
    assert(lines.deep_view().take(lines.len() as int) =~= lines.deep_view());
    text
}


proof fn lemma_scan_append_segment(s: Seq<char>, w: Seq<char>)
    requires
        !w.contains('\n'),
    ensures
        scan_lines(s + w) == (scan_lines(s).0, scan_lines(s).1 + w),
    decreases w.len(),
{
    if w.len() == 0 {
        assert(s + w =~= s);
        assert(scan_lines(s).1 + w =~= scan_lines(s).1);
    } else {
        let w0 = w.drop_last();
        assert(!w0.contains('\n')) by {
            if w0.contains('\n') {
                let k = choose|k: int| 0 <= k < w0.len() && w0[k] == '\n';
                assert(w[k] == '\n');
            }
        }
        lemma_scan_append_segment(s, w0);
        assert((s + w).drop_last() =~= s + w0);
        assert((s + w).last() == w.last());
        assert(w.last() != '\n') by {
            assert(w[w.len() - 1] == w.last());
        }
        assert(scan_lines(s).1 + w0 + seq![w.last()] =~= scan_lines(s).1 + w);
    }
}

/// Reading back a joined text gives the same lines, as long as no line
/// holds a `\n` or ends with a `\r`.
pub proof fn lemma_split_join(lines: Seq<Seq<char>>)
    requires
        forall|i: int| 0 <= i < lines.len() ==> is_plain_line(#[trigger] lines[i]),
    ensures
        scan_lines(join_lines(lines)) == (lines, Seq::<char>::empty()),
        split_lines(join_lines(lines)) == lines,
    decreases lines.len(),
{
    if lines.len() > 0 {
        let rest = lines.drop_last();
        let last = lines.last();
        assert(is_plain_line(lines[lines.len() - 1]));
        lemma_split_join(rest);
        lemma_scan_append_segment(join_lines(rest), last);
        let t = join_lines(lines);
        assert(t.drop_last() =~= join_lines(rest) + last);
        assert(seq![] + last =~= last);
        assert(strip_cr(last) == last);
        assert(rest.push(last) =~= lines);
    }
}

proof fn lemma_no_newline_drop_last(l: Seq<char>)
    requires
        !l.contains('\n'),
    ensures
        !strip_cr(l).contains('\n'),
{
    if strip_cr(l).contains('\n') {
        let k = choose|k: int| 0 <= k < strip_cr(l).len() && strip_cr(l)[k] == '\n';
        assert(l[k] == '\n');
    }
}

proof fn lemma_scan_no_newline(s: Seq<char>)
    ensures
        forall|i: int| 0 <= i < scan_lines(s).0.len() ==> !(#[trigger] scan_lines(s).0[i]).contains('\n'),
        !scan_lines(s).1.contains('\n'),
    decreases s.len(),
{
    if s.len() > 0 {
        lemma_scan_no_newline(s.drop_last());
        let (done, cur) = scan_lines(s.drop_last());
        if s.last() == '\n' {
            lemma_no_newline_drop_last(cur);
            assert(!Seq::<char>::empty().contains('\n'));
            assert forall|i: int| 0 <= i < scan_lines(s).0.len() implies !(#[trigger] scan_lines(s).0[i]).contains('\n') by {
                if i < done.len() {
                    assert(scan_lines(s).0[i] == done[i]);
                }
            }
        } else {
            let c = cur.push(s.last());
            if c.contains('\n') {
                let k = choose|k: int| 0 <= k < c.len() && c[k] == '\n';
                if k < cur.len() {
                    assert(cur[k] == '\n');
                }
            }
        }
    }
}

/// No line of a text holds a `\n`.
pub proof fn lemma_split_lines_no_newline(s: Seq<char>)
    ensures
        forall|i: int| 0 <= i < split_lines(s).len() ==> !(#[trigger] split_lines(s)[i]).contains('\n'),
{
    lemma_scan_no_newline(s);
    let (done, cur) = scan_lines(s);
    assert forall|i: int| 0 <= i < split_lines(s).len() implies !(#[trigger] split_lines(s)[i]).contains('\n') by {
        if i < done.len() {
            assert(split_lines(s)[i] == done[i]);
        }
    }
}

/// Reading back a joined text gives the same lines, each with one trailing
/// `\r` dropped, as long as no line holds a `\n`.
pub proof fn lemma_split_join_cr(lines: Seq<Seq<char>>)
    requires
        forall|i: int| 0 <= i < lines.len() ==> !(#[trigger] lines[i]).contains('\n'),
    ensures
        scan_lines(join_lines(lines)) == (lines.map_values(|l: Seq<char>| strip_cr(l)), Seq::<char>::empty()),
        split_lines(join_lines(lines)) == lines.map_values(|l: Seq<char>| strip_cr(l)),
    decreases lines.len(),
{
    if lines.len() > 0 {
        let rest = lines.drop_last();
        let last = lines.last();
        assert(!lines[lines.len() - 1].contains('\n'));
        assert forall|i: int| 0 <= i < rest.len() implies !(#[trigger] rest[i]).contains('\n') by {
            assert(rest[i] == lines[i]);
        }
        lemma_split_join_cr(rest);
        lemma_scan_append_segment(join_lines(rest), last);
        let t = join_lines(lines);
        assert(t.drop_last() =~= join_lines(rest) + last);
        assert(seq![] + last =~= last);
        assert(rest.map_values(|l: Seq<char>| strip_cr(l)).push(strip_cr(last)) =~= lines.map_values(
            |l: Seq<char>| strip_cr(l),
        ));
    }
}

proof fn lemma_trim_start_suffix(s: Seq<char>)
    ensures
        trim_start(s).len() <= s.len(),
        trim_start(s) == s.subrange(s.len() - trim_start(s).len(), s.len() as int),
    decreases s.len(),
{
    if s.len() > 0 && is_space(s[0]) {
        lemma_trim_start_suffix(s.drop_first());
        assert(s.drop_first().subrange(
            s.drop_first().len() - trim_start(s.drop_first()).len(),
            s.drop_first().len() as int,
        ) =~= s.subrange(s.len() - trim_start(s).len(), s.len() as int));
    } else {
        assert(s.subrange(0, s.len() as int) =~= s);
    }
}

proof fn lemma_trim_start_drop_last(s: Seq<char>)
    requires
        s.len() > 0,
        is_space(s.last()),
    ensures
        trim_start(s.drop_last()) == (if trim_start(s).len() > 0 {
            trim_start(s).drop_last()
        } else {
            Seq::<char>::empty()
        }),
    decreases s.len(),
{
    if is_space(s[0]) {
        if s.len() == 1 {
            assert(s.drop_last() =~= Seq::<char>::empty());
            assert(s.drop_first() =~= Seq::<char>::empty());
        } else {
            lemma_trim_start_drop_last(s.drop_first());
            assert(s.drop_last().drop_first() =~= s.drop_first().drop_last());
            assert(s.drop_first().last() == s.last());
        }
    } else {
        assert(s.len() > 1);
        assert(s.drop_last()[0] == s[0]);
    }
}

/// Trimming ignores a trailing `\r`, which is whitespace.
pub proof fn lemma_trim_strip_cr(l: Seq<char>)
    ensures
        trim(strip_cr(l)) == trim(l),
{
    if l.len() > 0 && l.last() == '\r' {
        lemma_trim_start_drop_last(l);
        let t = trim_start(l);
        if t.len() > 0 {
            lemma_trim_start_suffix(l);
            assert(t.last() == l.last());
            assert(trim_end(t) == trim_end(t.drop_last()));
        } else {
            assert(trim_end(Seq::<char>::empty()) == Seq::<char>::empty());
        }
    }
}

} // verus!

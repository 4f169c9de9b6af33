//! The hosts file: the section that this tool manages, between its two
//! marker lines, is replaced by one `ip domain` line per chosen address;
//! every other line stays as it was.

use vstd::prelude::*;
use vstd::string::*;
use crate::text::{trim, trim_start, trim_end, trimmed_eq, is_plain_line, lemma_split_join, lemma_split_join_cr, lemma_split_lines_no_newline, lemma_trim_strip_cr, strip_cr, split_lines, join_lines, split_lines_of, join_lines_of};
use crate::best::{BestIps, Listing};

verus! {

/// The line that opens the managed section.
pub const HOSTS_MARKER_START: &'static str = "# TCP Speed Test";

/// The line that closes the managed section.
pub const HOSTS_MARKER_END: &'static str = "# End TCP Speed Test";

pub open spec fn start_marker() -> Seq<char> {
    HOSTS_MARKER_START@
}

pub open spec fn end_marker() -> Seq<char> {
    HOSTS_MARKER_END@
}

/// A line that, trimmed, is one of the two markers.
pub open spec fn is_marker(line: Seq<char>) -> bool {
    trim(line) == start_marker() || trim(line) == end_marker()
}

/// The state of the scan over the old lines: the lines kept, whether the
/// scan is inside a managed section, and whether an end marker was seen.
pub type StripState = (Seq<Seq<char>>, bool, bool);

/// One step of the scan: a start marker opens a section, an end marker
/// closes it; other lines are kept when outside a section. Marker lines are
/// never kept.
pub open spec fn strip_step(st: StripState, line: Seq<char>) -> StripState {
    if trim(line) == start_marker() {
        (st.0, true, st.2)
    } else if trim(line) == end_marker() {
        (st.0, false, true)
    } else if !st.1 {
        (st.0.push(line), st.1, st.2)
    } else {
        st
    }
}

pub open spec fn strip_run(st: StripState, lines: Seq<Seq<char>>) -> StripState
    decreases lines.len(),
{
    if lines.len() == 0 {
        st
    } else {
        strip_step(strip_run(st, lines.drop_last()), lines.last())
    }
}

/// The scan over all old lines, from the start.
pub open spec fn strip_section(lines: Seq<Seq<char>>) -> StripState {
    strip_run((seq![], false, false), lines)
}

/// The hosts line of one pair: the address, a space, the domain.
pub open spec fn entry_line(e: (Seq<char>, Seq<char>)) -> Seq<char> {
    e.1 + seq![' '] + e.0
}

/// The managed section for the listing.
pub open spec fn section_lines(entries: Listing) -> Seq<Seq<char>> {
    seq![start_marker()] + entries.map_values(|e: (Seq<char>, Seq<char>)| entry_line(e)) + seq![
        end_marker(),
    ]
}

/// The new lines of the hosts file: the kept lines; an empty line and an
/// empty pair of markers where no end marker was found; then the section.
pub open spec fn rewritten_lines(lines: Seq<Seq<char>>, entries: Listing) -> Seq<Seq<char>> {
    let st = strip_section(lines);
    st.0 + (if st.2 {
        Seq::<Seq<char>>::empty()
    } else {
        seq![Seq::<char>::empty(), start_marker(), end_marker()]
    }) + section_lines(entries)
}

/// The new text of the hosts file.
pub open spec fn rewritten_text(text: Seq<char>, entries: Listing) -> Seq<char> {
    join_lines(rewritten_lines(split_lines(text), entries))
}

/// Drops the managed section and the marker lines from `lines`; also says
/// whether an end marker was seen.
pub fn strip_managed_section(lines: &Vec<String>) -> (r: (Vec<String>, bool))
    ensures
        r.0.deep_view() == strip_section(lines.deep_view()).0,
        r.1 == strip_section(lines.deep_view()).2,
{
    let mut kept: Vec<String> = Vec::new();
    let mut in_section = false;
    let mut removed = false;
    let mut i: usize = 0;
    proof {
        assert(kept.deep_view() =~= Seq::<Seq<char>>::empty());
        assert(lines.deep_view().take(0) =~= Seq::<Seq<char>>::empty());
    }
    while i < lines.len()
        invariant
            i <= lines.len(),
            (kept.deep_view(), in_section, removed) == strip_section(lines.deep_view().take(i as int)),
        decreases lines.len() - i,
    {
        assert(lines.deep_view().take(i + 1).drop_last() =~= lines.deep_view().take(i as int));
        let line = &lines[i];
        if trimmed_eq(line.as_str(), HOSTS_MARKER_START) {
            in_section = true;
        } else if trimmed_eq(line.as_str(), HOSTS_MARKER_END) {
            in_section = false;
            removed = true;
        } else if !in_section {
            let ghost before = kept.deep_view();
            kept.push(line.clone());
            assert(kept.deep_view() =~= before.push(lines.deep_view()[i as int]));
        }
        i = i + 1;
    }
    assert(lines.deep_view().take(lines.len() as int) =~= lines.deep_view());
    (kept, removed)
}


/// The lines of the managed section for `best`, in increasing order of domain.
pub fn managed_section(best: &BestIps) -> (r: Vec<String>)
    ensures
        r.deep_view() == section_lines(best@),
        r.len() == best@.len() + 2,
        r@[0]@ == start_marker(),
        r@[r.len() - 1]@ == end_marker(),
        forall|i: int|
            0 <= i < best@.len() ==> (#[trigger] r@[i + 1])@ == best@[i].1 + seq![' '] + best@[i].0,
{
    let entries = best.entries();
    let sp = " ";
    proof {
        reveal_strlit(" ");
    }
    let mut r: Vec<String> = Vec::new();
    r.push(String::from_str(HOSTS_MARKER_START));
    let mut i: usize = 0;
    while i < entries.len()
        invariant
            i <= entries.len(),
            entries.deep_view() == best@,
            sp@ == seq![' '],
            r.deep_view() == seq![start_marker()] + best@.take(i as int).map_values(
                |e: (Seq<char>, Seq<char>)| entry_line(e),
            ),
        decreases entries.len() - i,
    {
        let mut line = String::from_str(entries[i].1.as_str());
        line.append(sp);
        line.append(entries[i].0.as_str());
        let ghost before = r.deep_view();
        r.push(line);
        proof {
            let e = best@[i as int];
            assert(line@ == entry_line(e));
            assert(best@.take(i + 1).map_values(|e: (Seq<char>, Seq<char>)| entry_line(e))
                =~= best@.take(i as int).map_values(|e: (Seq<char>, Seq<char>)| entry_line(e)).push(
                entry_line(e),
            ));
            assert(r.deep_view() =~= before.push(line@));
        }
        i = i + 1;
    }
    let ghost before = r.deep_view();
    r.push(String::from_str(HOSTS_MARKER_END));
    assert(best@.take(entries.len() as int) =~= best@);
    assert(r.deep_view() =~= section_lines(best@));
    proof {
        lemma_section_lines_shape(best@);
        assert forall|i: int| 0 <= i < r.len() implies (#[trigger] r@[i])@ == r.deep_view()[i] by {}
    }
    r
}

/// The new lines of the hosts file for the old `lines` and the addresses in `best`.
pub fn rewrite_hosts_lines(lines: &Vec<String>, best: &BestIps) -> (r: Vec<String>)
    ensures
        r.deep_view() == rewritten_lines(lines.deep_view(), best@),
{
    let (mut kept, removed) = strip_managed_section(lines);
    let ghost k0 = kept.deep_view();
    if !removed {
        kept.push(String::new());
        kept.push(String::from_str(HOSTS_MARKER_START));
        kept.push(String::from_str(HOSTS_MARKER_END));
        assert(kept.deep_view() =~= k0 + seq![Seq::<char>::empty(), start_marker(), end_marker()]);
    } else {
        assert(kept.deep_view() =~= k0 + Seq::<Seq<char>>::empty());
    }
    let ghost k1 = kept.deep_view();
    let mut section = managed_section(best);
    kept.append(&mut section);
    assert(kept.deep_view() =~= k1 + section_lines(best@));
    kept
}

/// The new text of the hosts file whose text is `text`, or `None` when
/// `best` is empty and the file is to be left alone.
pub fn rewrite_hosts(text: &str, best: &BestIps) -> (r: Option<String>)
    ensures
        best@.len() == 0 ==> r is None,
        best@.len() > 0 ==> (r matches Some(t) && t@ == rewritten_text(text@, best@)),
{
    if best.is_empty() {
        return None;
    }
    let lines = split_lines_of(text);
    let new_lines = rewrite_hosts_lines(&lines, best);
    Some(join_lines_of(&new_lines))
}


proof fn lemma_strip_run_concat(st: StripState, p: Seq<Seq<char>>, q: Seq<Seq<char>>)
    ensures
        strip_run(st, p + q) == strip_run(strip_run(st, p), q),
    decreases q.len(),
{
    if q.len() == 0 {
        assert(p + q =~= p);
    } else {
        lemma_strip_run_concat(st, p, q.drop_last());
        assert((p + q).drop_last() =~= p + q.drop_last());
        assert((p + q).last() == q.last());
    }
}

/// Outside a section, lines that are not markers are all kept.
proof fn lemma_strip_run_plain(k: Seq<Seq<char>>, r: bool, lines: Seq<Seq<char>>)
    requires
        forall|i: int| 0 <= i < lines.len() ==> !is_marker(#[trigger] lines[i]),
    ensures
        strip_run((k, false, r), lines) == (k + lines, false, r),
    decreases lines.len(),
{
    if lines.len() == 0 {
        assert(k + lines =~= k);
    } else {
        lemma_strip_run_plain(k, r, lines.drop_last());
        assert(!is_marker(lines[lines.len() - 1]));
        assert((k + lines.drop_last()).push(lines.last()) =~= k + lines);
    }
}

/// Inside a section, lines that are not end markers are all dropped.
proof fn lemma_strip_run_inside(k: Seq<Seq<char>>, r: bool, lines: Seq<Seq<char>>)
    requires
        forall|i: int| 0 <= i < lines.len() ==> trim(#[trigger] lines[i]) != end_marker(),
    ensures
        strip_run((k, true, r), lines) == (k, true, r),
    decreases lines.len(),
{
    if lines.len() > 0 {
        lemma_strip_run_inside(k, r, lines.drop_last());
        assert(trim(lines[lines.len() - 1]) != end_marker());
    }
}

/// The kept lines are never markers, and keep whatever property every old line has.
proof fn lemma_strip_run_kept(st: StripState, lines: Seq<Seq<char>>, plain: spec_fn(Seq<char>) -> bool)
    requires
        forall|i: int| 0 <= i < st.0.len() ==> !is_marker(#[trigger] st.0[i]) && plain(st.0[i]),
        forall|i: int| 0 <= i < lines.len() ==> plain(#[trigger] lines[i]),
    ensures
        forall|i: int|
            0 <= i < strip_run(st, lines).0.len() ==> !is_marker(#[trigger] strip_run(st, lines).0[i])
                && plain(strip_run(st, lines).0[i]),
    decreases lines.len(),
{
    if lines.len() > 0 {
        let prev = strip_run(st, lines.drop_last());
        lemma_strip_run_kept(st, lines.drop_last(), plain);
        assert(plain(lines[lines.len() - 1]));
        let next = strip_run(st, lines);
        assert forall|i: int| 0 <= i < next.0.len() implies !is_marker(#[trigger] next.0[i]) && plain(
            next.0[i],
        ) by {
            if i < prev.0.len() {
                assert(next.0[i] == prev.0[i]);
            }
        }
    }
}

/// The markers, and the empty line, are not themselves taken for anything else.
proof fn lemma_marker_facts()
    ensures
        trim(start_marker()) == start_marker(),
        trim(end_marker()) == end_marker(),
        start_marker() != end_marker(),
        trim(Seq::<char>::empty()) != start_marker(),
        trim(Seq::<char>::empty()) != end_marker(),
        is_plain_line(start_marker()),
        is_plain_line(end_marker()),
        is_plain_line(Seq::<char>::empty()),
{
    reveal_strlit("# TCP Speed Test");
    reveal_strlit("# End TCP Speed Test");
    assert(start_marker().len() == 16);
    assert(end_marker().len() == 20);
    assert(trim(Seq::<char>::empty()) =~= Seq::<char>::empty());
    assert(start_marker()[0] == '#' && start_marker().last() == 't');
    assert(end_marker()[0] == '#' && end_marker().last() == 't');
    assert(trim_start(start_marker()) == start_marker());
    assert(trim_end(start_marker()) == start_marker());
    assert(trim_start(end_marker()) == end_marker());
    assert(trim_end(end_marker()) == end_marker());
    assert(!start_marker().contains('\n'));
    assert(!end_marker().contains('\n'));
}


/// Every line of the listing's section reads back unchanged and is not a marker.
pub open spec fn is_fit_listing(entries: Listing) -> bool {
    forall|i: int|
        0 <= i < entries.len() ==> !is_marker(#[trigger] entry_line(entries[i])) && is_plain_line(
            entry_line(entries[i]),
        )
}

/// What the scan makes of a section it wrote itself, arriving from outside any section.
proof fn lemma_strip_run_section(k: Seq<Seq<char>>, r: bool, entries: Listing)
    requires
        forall|i: int| 0 <= i < entries.len() ==> trim(#[trigger] entry_line(entries[i])) != end_marker(),
    ensures
        strip_run((k, false, r), section_lines(entries)) == (k, false, true),
{
    lemma_marker_facts();
    let mid = entries.map_values(|e: (Seq<char>, Seq<char>)| entry_line(e));
    assert forall|i: int| 0 <= i < mid.len() implies trim(#[trigger] mid[i]) != end_marker() by {
        assert(mid[i] == entry_line(entries[i]));
    }
    let s = seq![start_marker()];
    let e = seq![end_marker()];
    assert(section_lines(entries) == s + mid + e);
    lemma_strip_run_concat((k, false, r), s + mid, e);
    lemma_strip_run_concat((k, false, r), s, mid);
    assert(s.drop_last() =~= Seq::<Seq<char>>::empty());
    assert(strip_run((k, false, r), s.drop_last()) == (k, false, r));
    assert(s.last() == start_marker());
    assert(strip_run((k, false, r), s) == (k, true, r));
    lemma_strip_run_inside(k, r, mid);
    assert(e.drop_last() =~= Seq::<Seq<char>>::empty());
    assert(strip_run((k, true, r), e.drop_last()) == (k, true, r));
    assert(e.last() == end_marker());
    assert(strip_run((k, true, r), e) == (k, false, true));
}

/// Rewriting a second time, with any listing, replaces the section that the
/// first rewrite wrote and leaves all other lines as the first rewrite left
/// them. Those are the old lines outside any managed section, followed by an
/// empty line where the old lines had no end marker.
pub proof fn lemma_rewrite_twice(lines: Seq<Seq<char>>, a: Listing, b: Listing)
    requires
        is_fit_listing(a),
    ensures
        strip_section(rewritten_lines(lines, a)).2,
        rewritten_lines(rewritten_lines(lines, a), b) == strip_section(lines).0 + (if strip_section(
            lines,
        ).2 {
            Seq::<Seq<char>>::empty()
        } else {
            seq![Seq::<char>::empty()]
        }) + section_lines(b),
{
    lemma_marker_facts();
    let st = strip_section(lines);
    let k = st.0;
    let init: StripState = (seq![], false, false);
    lemma_strip_run_kept(init, lines, |l: Seq<char>| true);
    assert forall|i: int| 0 <= i < k.len() implies !is_marker(#[trigger] k[i]) by {}
    let x = if st.2 {
        Seq::<Seq<char>>::empty()
    } else {
        seq![Seq::<char>::empty(), start_marker(), end_marker()]
    };
    let r1 = rewritten_lines(lines, a);
    assert(r1 == k + x + section_lines(a));
    lemma_strip_run_concat(init, k + x, section_lines(a));
    lemma_strip_run_concat(init, k, x);
    lemma_strip_run_plain(seq![], false, k);
    assert(Seq::<Seq<char>>::empty() + k =~= k);
    let k1 = if st.2 {
        k
    } else {
        k.push(Seq::<char>::empty())
    };
    if st.2 {
        assert(strip_run((k, false, false), x) == (k, false, false));
    } else {
        assert(x.drop_last().drop_last().drop_last() =~= Seq::<Seq<char>>::empty());
        assert(x.drop_last().drop_last() =~= seq![Seq::<char>::empty()]);
        assert(x.drop_last() =~= seq![Seq::<char>::empty(), start_marker()]);
        assert(strip_run((k, false, false), x.drop_last().drop_last().drop_last()) == (k, false, false));
        assert(strip_run((k, false, false), x.drop_last().drop_last()) == (k1, false, false));
        assert(strip_run((k, false, false), x.drop_last()) == (k1, true, false));
        assert(strip_run((k, false, false), x) == (k1, false, true));
    }
    assert forall|i: int| 0 <= i < a.len() implies trim(#[trigger] entry_line(a[i])) != end_marker() by {
        assert(!is_marker(entry_line(a[i])));
    }
    lemma_strip_run_section(k1, !st.2, a);
    assert(strip_section(r1) == (k1, false, true));
    if st.2 {
        assert(k1 + Seq::<Seq<char>>::empty() =~= k + Seq::<Seq<char>>::empty());
    } else {
        assert(k1 + Seq::<Seq<char>>::empty() =~= k + seq![Seq::<char>::empty()]);
    }
}

/// When the old lines hold an end marker, rewriting twice is the same as
/// rewriting once with the second listing.
pub proof fn lemma_rewrite_replaces_section(lines: Seq<Seq<char>>, a: Listing, b: Listing)
    requires
        is_fit_listing(a),
        strip_section(lines).2,
    ensures
        rewritten_lines(rewritten_lines(lines, a), b) == rewritten_lines(lines, b),
{
    lemma_rewrite_twice(lines, a, b);
}

/// After one rewrite the lines are settled: every later rewrite only
/// replaces the section.
pub proof fn lemma_rewrite_settles(lines: Seq<Seq<char>>, a: Listing, b: Listing, c: Listing)
    requires
        is_fit_listing(a),
        is_fit_listing(b),
    ensures
        rewritten_lines(rewritten_lines(rewritten_lines(lines, a), b), c) == rewritten_lines(
            rewritten_lines(lines, a),
            c,
        ),
{
    let r1 = rewritten_lines(lines, a);
    lemma_rewrite_twice(lines, a, b);
    lemma_rewrite_replaces_section(r1, b, c);
}


/// Every line of the text reads back unchanged after a rewrite.
pub open spec fn has_plain_lines(text: Seq<char>) -> bool {
    forall|i: int| 0 <= i < split_lines(text).len() ==> is_plain_line(#[trigger] split_lines(text)[i])
}

proof fn lemma_rewritten_lines_plain(lines: Seq<Seq<char>>, a: Listing)
    requires
        forall|i: int| 0 <= i < lines.len() ==> is_plain_line(#[trigger] lines[i]),
        is_fit_listing(a),
    ensures
        forall|i: int|
            0 <= i < rewritten_lines(lines, a).len() ==> is_plain_line(
                #[trigger] rewritten_lines(lines, a)[i],
            ),
{
    lemma_marker_facts();
    let init: StripState = (seq![], false, false);
    lemma_strip_run_kept(init, lines, |l: Seq<char>| is_plain_line(l));
    let st = strip_section(lines);
    let x = if st.2 {
        Seq::<Seq<char>>::empty()
    } else {
        seq![Seq::<char>::empty(), start_marker(), end_marker()]
    };
    let mid = a.map_values(|e: (Seq<char>, Seq<char>)| entry_line(e));
    let r = rewritten_lines(lines, a);
    assert(r == st.0 + x + (seq![start_marker()] + mid + seq![end_marker()]));
    assert forall|i: int| 0 <= i < r.len() implies is_plain_line(#[trigger] r[i]) by {
        if i < st.0.len() {
            assert(r[i] == st.0[i]);
        } else if i < st.0.len() + x.len() {
            assert(r[i] == x[i - st.0.len()]);
        } else {
            let j = i - st.0.len() - x.len();
            if 1 <= j < 1 + mid.len() {
                assert(r[i] == mid[j - 1]);
                assert(mid[j - 1] == entry_line(a[j - 1]));
            }
        }
    }
}

/// Rewriting the text twice: the lines after the second rewrite are those
/// that `lemma_rewrite_twice` gives, written out as text.
pub proof fn lemma_rewrite_text_twice(text: Seq<char>, a: Listing, b: Listing)
    requires
        has_plain_lines(text),
        is_fit_listing(a),
    ensures
        has_plain_lines(rewritten_text(text, a)),
        split_lines(rewritten_text(text, a)) == rewritten_lines(split_lines(text), a),
        rewritten_text(rewritten_text(text, a), b) == join_lines(
            rewritten_lines(rewritten_lines(split_lines(text), a), b),
        ),
{
    let r1 = rewritten_lines(split_lines(text), a);
    lemma_rewritten_lines_plain(split_lines(text), a);
    lemma_split_join(r1);
}

/// When the hosts file already holds an end marker, rewriting it twice is the
/// same as rewriting it once with the second listing: the file keeps one
/// managed section, holding the latest addresses.
pub proof fn lemma_rewrite_text_replaces_section(text: Seq<char>, a: Listing, b: Listing)
    requires
        has_plain_lines(text),
        is_fit_listing(a),
        strip_section(split_lines(text)).2,
    ensures
        rewritten_text(rewritten_text(text, a), b) == rewritten_text(text, b),
{
    lemma_rewrite_text_twice(text, a, b);
    lemma_rewrite_replaces_section(split_lines(text), a, b);
}

/// After the first rewrite of any hosts file, each later rewrite only
/// replaces the managed section: the rest of the file stays as it is.
pub proof fn lemma_rewrite_text_settles(text: Seq<char>, a: Listing, b: Listing, c: Listing)
    requires
        has_plain_lines(text),
        is_fit_listing(a),
        is_fit_listing(b),
    ensures
        rewritten_text(rewritten_text(rewritten_text(text, a), b), c) == rewritten_text(
            rewritten_text(text, a),
            c,
        ),
{
    let t1 = rewritten_text(text, a);
    lemma_rewrite_text_twice(text, a, b);
    lemma_rewrite_twice(split_lines(text), a, b);
    lemma_rewrite_text_replaces_section(t1, b, c);
}


/// A hosts file without any marker line keeps all its lines, in order, and
/// gains an empty line, an empty pair of markers, and the section.
pub proof fn lemma_rewrite_unmanaged(lines: Seq<Seq<char>>, a: Listing)
    requires
        forall|i: int| 0 <= i < lines.len() ==> !is_marker(#[trigger] lines[i]),
    ensures
        rewritten_lines(lines, a) == lines + seq![Seq::<char>::empty(), start_marker(), end_marker()]
            + section_lines(a),
{
    lemma_strip_run_plain(seq![], false, lines);
    assert(Seq::<Seq<char>>::empty() + lines =~= lines);
}

/// No line of the listing's section holds a `\n`, and none but the last,
/// trimmed, is the end marker.
pub open spec fn closes_cleanly(entries: Listing) -> bool {
    forall|i: int|
        0 <= i < entries.len() ==> !(#[trigger] entry_line(entries[i])).contains('\n') && (i + 1
            < entries.len() ==> trim(entry_line(entries[i])) != end_marker())
}

/// No line that a rewrite of `text` keeps from it ends with a `\r`.
pub open spec fn kept_lines_read_back(text: Seq<char>) -> bool {
    let kept = strip_section(split_lines(text)).0;
    forall|i: int| 0 <= i < kept.len() ==> !((#[trigger] kept[i]).len() > 0 && kept[i].last() == '\r')
}

/// A section between markers, of which only the last line may close early,
/// is read as a section, arriving from outside any section.
proof fn lemma_strip_run_closing(k: Seq<Seq<char>>, r: bool, mid: Seq<Seq<char>>)
    requires
        forall|i: int| 0 <= i < mid.len() - 1 ==> trim(#[trigger] mid[i]) != end_marker(),
    ensures
        strip_run((k, false, r), seq![start_marker()] + mid + seq![end_marker()]) == (k, false, true),
{
    lemma_marker_facts();
    let s = seq![start_marker()];
    let e = seq![end_marker()];
    lemma_strip_run_concat((k, false, r), s + mid, e);
    assert(s.drop_last() =~= Seq::<Seq<char>>::empty());
    assert(strip_run((k, false, r), s.drop_last()) == (k, false, r));
    assert(strip_run((k, false, r), s) == (k, true, r));
    let st = strip_run((k, false, r), s + mid);
    if mid.len() == 0 {
        assert(s + mid =~= s);
    } else {
        let m0 = mid.drop_last();
        assert forall|i: int| 0 <= i < m0.len() implies trim(#[trigger] m0[i]) != end_marker() by {
            assert(m0[i] == mid[i]);
        }
        lemma_strip_run_concat((k, false, r), s, m0);
        lemma_strip_run_inside(k, r, m0);
        assert((s + mid).drop_last() =~= s + m0);
        assert((s + mid).last() == mid.last());
        assert(st.0 == k && st.2 == (r || trim(mid.last()) == end_marker()));
    }
    assert(e.drop_last() =~= Seq::<Seq<char>>::empty());
    assert(strip_run(st, e.drop_last()) == st);
    assert(e.last() == end_marker());
}

/// Once the hosts file holds an end marker, rewriting it a second time is
/// the same as rewriting it once with the second listing. This holds as long
/// as no line kept from the file ends with a `\r`, and the first section
/// reads back as one section: no line of it holds a `\n`, and none but its
/// last closes it early.
pub proof fn lemma_rewrite_again_replaces(text: Seq<char>, a: Listing, b: Listing)
    requires
        strip_section(split_lines(text)).2,
        kept_lines_read_back(text),
        closes_cleanly(a),
    ensures
        rewritten_text(rewritten_text(text, a), b) == rewritten_text(text, b),
{
    lemma_marker_facts();
    let lines = split_lines(text);
    let k = strip_section(lines).0;
    let init: StripState = (seq![], false, false);
    lemma_split_lines_no_newline(text);
    lemma_strip_run_kept(init, lines, |l: Seq<char>| !l.contains('\n'));
    let r1 = rewritten_lines(lines, a);
    let mid = a.map_values(|e: (Seq<char>, Seq<char>)| entry_line(e));
    assert(r1 =~= k + (seq![start_marker()] + mid + seq![end_marker()]));
    assert forall|i: int| 0 <= i < r1.len() implies !(#[trigger] r1[i]).contains('\n') by {
        if i < k.len() {
            assert(r1[i] == k[i]);
        } else {
            let j = i - k.len();
            if 1 <= j < 1 + mid.len() {
                assert(r1[i] == mid[j - 1]);
                assert(mid[j - 1] == entry_line(a[j - 1]));
            }
        }
    }
    lemma_split_join_cr(r1);
    let midc = mid.map_values(|l: Seq<char>| strip_cr(l));
    let r1c = r1.map_values(|l: Seq<char>| strip_cr(l));
    assert forall|i: int| 0 <= i < k.len() implies strip_cr(#[trigger] k[i]) == k[i] by {}
    assert(r1c =~= k + (seq![start_marker()] + midc + seq![end_marker()]));
    assert forall|i: int| 0 <= i < midc.len() - 1 implies trim(#[trigger] midc[i]) != end_marker() by {
        lemma_trim_strip_cr(mid[i]);
        assert(mid[i] == entry_line(a[i]));
    }
    lemma_strip_run_concat(init, k, seq![start_marker()] + midc + seq![end_marker()]);
    lemma_strip_run_plain(seq![], false, k);
    assert(Seq::<Seq<char>>::empty() + k =~= k);
    lemma_strip_run_closing(k, false, midc);
    assert(strip_section(r1c) == (k, false, true));
    assert(rewritten_lines(r1c, b) =~= rewritten_lines(lines, b));
}

/// Once the hosts file holds an end marker, rewriting it again with the same
/// addresses leaves the text as it is, under the conditions of
/// `lemma_rewrite_again_replaces`.
pub proof fn lemma_rewrite_repeat_is_noop(text: Seq<char>, a: Listing)
    requires
        strip_section(split_lines(text)).2,
        kept_lines_read_back(text),
        closes_cleanly(a),
    ensures
        rewritten_text(rewritten_text(text, a), a) == rewritten_text(text, a),
{
    lemma_rewrite_again_replaces(text, a, a);
}

/// The managed section holds the start marker, then one line per pair of the
/// listing, in the listing's order, each the address, a space and the domain,
/// then the end marker.
pub proof fn lemma_section_lines_shape(entries: Listing)
    ensures
        section_lines(entries).len() == entries.len() + 2,
        section_lines(entries)[0] == start_marker(),
        section_lines(entries)[entries.len() + 1 as int] == end_marker(),
        forall|i: int|
            0 <= i < entries.len() ==> #[trigger] section_lines(entries)[i + 1] == entries[i].1 + seq![' ']
                + entries[i].0,
{
    let mid = entries.map_values(|e: (Seq<char>, Seq<char>)| entry_line(e));
    assert(section_lines(entries) == seq![start_marker()] + mid + seq![end_marker()]);
    assert forall|i: int| 0 <= i < entries.len() implies #[trigger] section_lines(entries)[i + 1]
        == entries[i].1 + seq![' '] + entries[i].0 by {
        assert(section_lines(entries)[i + 1] == mid[i]);
    }
}

/// A rewritten hosts file ends with the managed section: the start marker,
/// one `address domain` line per pair of the listing in its order, and the
/// end marker, whatever the old lines were.
pub proof fn lemma_rewritten_ends_with_section(lines: Seq<Seq<char>>, entries: Listing)
    ensures
        ({
            let r = rewritten_lines(lines, entries);
            let n = entries.len();
            &&& r.len() >= n + 2
            &&& r[r.len() - n - 2] == start_marker()
            &&& r[r.len() - 1] == end_marker()
            &&& forall|i: int| 0 <= i < n ==> #[trigger] r[r.len() - n - 1 + i] == entries[i].1 + seq![' ']
                + entries[i].0
        }),
{
    lemma_section_lines_shape(entries);
    let st = strip_section(lines);
    let x = if st.2 {
        Seq::<Seq<char>>::empty()
    } else {
        seq![Seq::<char>::empty(), start_marker(), end_marker()]
    };
    let sec = section_lines(entries);
    let r = rewritten_lines(lines, entries);
    let n = entries.len();
    assert(r == st.0 + x + sec);
    let off = st.0.len() + x.len();
    assert(r.len() == off + n + 2);
    assert(r[off as int] == sec[0]);
    assert(r[r.len() - 1] == sec[n + 1 as int]);
    assert forall|i: int| 0 <= i < n implies #[trigger] r[r.len() - n - 1 + i] == entries[i].1 + seq![' ']
        + entries[i].0 by {
        assert(r[off + i + 1] == sec[i + 1]);
    }
}

} // verus!

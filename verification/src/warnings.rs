//! The warnings that `am` leaves in its error log: picking the warning
//! entries out of the log's text, cutting the repeat count off their lines,
//! and remembering each entry that was reported, so that each unique warning
//! is reported once however many model runs produce it.

use vstd::prelude::*;

use crate::text::{
    before_first, before_first_len, chars_of, join, join_strings, lemma_pieces_nonempty, lines,
    matches_at, pieces, split_lines, string_of, strip_cr, trim, trimmed, views,
};

verus! {

/// `"! Warning:"`, which begins the first line of a warning entry.
pub open spec fn warning_tag() -> Seq<char> {
    seq!['!', ' ', 'W', 'a', 'r', 'n', 'i', 'n', 'g', ':']
}

/// `"! Error:"`, which begins the first line of an error entry.
pub open spec fn error_tag() -> Seq<char> {
    seq!['!', ' ', 'E', 'r', 'r', 'o', 'r', ':']
}

/// `"  Count:"`, which begins the repeat count that ends an entry's line.
pub open spec fn count_tag() -> Seq<char> {
    seq![' ', ' ', 'C', 'o', 'u', 'n', 't', ':']
}

/// The separator of the cleaned lines: one newline.
pub open spec fn newline() -> Seq<char> {
    seq!['\n']
}

fn warning_tag_chars() -> (v: Vec<char>)
    ensures
        v@ == warning_tag(),
{
    let v = vec!['!', ' ', 'W', 'a', 'r', 'n', 'i', 'n', 'g', ':'];
    assert(v@ =~= warning_tag());
    v
}

fn error_tag_chars() -> (v: Vec<char>)
    ensures
        v@ == error_tag(),
{
    let v = vec!['!', ' ', 'E', 'r', 'r', 'o', 'r', ':'];
    assert(v@ =~= error_tag());
    v
}

fn count_tag_chars() -> (v: Vec<char>)
    ensures
        v@ == count_tag(),
{
    let v = vec![' ', ' ', 'C', 'o', 'u', 'n', 't', ':'];
    assert(v@ =~= count_tag());
    v
}

/// Whether `pat` occurs in `s`, starting at some position.
pub open spec fn occurs_in(s: Seq<char>, pat: Seq<char>) -> bool {
    exists|k: int| 0 <= k <= s.len() && #[trigger] pat.is_prefix_of(s.skip(k))
}

proof fn lemma_before_first_is_prefix(s: Seq<char>, pat: Seq<char>)
    ensures
        before_first(s, pat).is_prefix_of(s),
    decreases s.len(),
{
    if s.len() > 0 && !pat.is_prefix_of(s) {
        lemma_before_first_is_prefix(s.drop_first(), pat);
        let r = before_first(s.drop_first(), pat);
        assert((seq![s[0]] + r) =~= s.subrange(0, r.len() + 1 as int));
    }
}

proof fn lemma_before_first_free(s: Seq<char>, pat: Seq<char>)
    requires
        pat.len() > 0,
    ensures
        !occurs_in(before_first(s, pat), pat),
    decreases s.len(),
{
    let b = before_first(s, pat);
    if s.len() == 0 || pat.is_prefix_of(s) {
        assert forall|k: int| 0 <= k <= b.len() implies !#[trigger] pat.is_prefix_of(b.skip(k)) by {
            assert(b.skip(k).len() == 0);
        }
    } else {
        let t = s.drop_first();
        let r = before_first(t, pat);
        lemma_before_first_free(t, pat);
        lemma_before_first_is_prefix(t, pat);
        assert forall|k: int| 0 <= k <= b.len() implies !#[trigger] pat.is_prefix_of(b.skip(k)) by {
            if k == 0 {
                if pat.is_prefix_of(b.skip(0)) {
                    assert(b.skip(0) =~= b);
                    assert forall|j: int| 0 <= j < pat.len() implies pat[j] == s[j] by {
                        assert(b[j] == pat[j]);
                        if j > 0 {
                            assert(b[j] == r[j - 1]);
                            assert(r[j - 1] == t[j - 1]);
                        }
                    }
                    assert(pat =~= s.subrange(0, pat.len() as int));
                }
            } else {
                assert(b.skip(k) =~= r.skip(k - 1));
                assert(!pat.is_prefix_of(r.skip(k - 1)));
            }
        }
    }
}

/// A line of an entry with its repeat count cut off: the part before the
/// first `"  Count:"`.
pub open spec fn cut_count(l: Seq<char>) -> Seq<char> {
    before_first(l, count_tag())
}

/// The warning entries among the lines `ls`, each a list of lines cut
/// before their `"  Count:"`, and whether the scan ends inside a warning
/// entry. Empty lines are skipped; a line that begins with `"! Warning:"`
/// opens a warning entry, one that begins with `"! Error:"` opens an error
/// entry, and any other line continues the entry before it (and is dropped
/// when that is an error entry, or when there is none).
pub open spec fn scan(ls: Seq<Seq<char>>) -> (Seq<Seq<Seq<char>>>, bool)
    decreases ls.len(),
{
    if ls.len() == 0 {
        (Seq::<Seq<Seq<char>>>::empty(), false)
    } else {
        let (es, w) = scan(ls.drop_last());
        let l = ls.last();
        if l.len() == 0 {
            (es, w)
        } else if warning_tag().is_prefix_of(l) {
            (es.push(seq![cut_count(l)]), true)
        } else if error_tag().is_prefix_of(l) {
            (es, false)
        } else if w {
            (es.update(es.len() - 1, es.last().push(cut_count(l))), true)
        } else {
            (es, false)
        }
    }
}

/// The warning entries of the error log `errlog`, in log order (the scan of
/// the lines of the trimmed log).
pub open spec fn entries(errlog: Seq<char>) -> Seq<Seq<Seq<char>>> {
    scan(lines(trim(errlog))).0
}

/// The text by which an entry is remembered: its lines joined with
/// newlines.
pub open spec fn entry_key(e: Seq<Seq<char>>) -> Seq<char> {
    join(e, newline())
}

/// The texts of the entries `es`.
pub open spec fn entry_keys(es: Seq<Seq<Seq<char>>>) -> Set<Seq<char>> {
    es.map_values(|e: Seq<Seq<char>>| entry_key(e)).to_set()
}

/// Offering the entries `es`, in order, to a log that remembers the texts
/// `seen`: the texts remembered afterwards, and the lines reported, which
/// are the lines of each entry whose text is not remembered by the time the
/// entry comes up.
pub open spec fn offer(seen: Set<Seq<char>>, es: Seq<Seq<Seq<char>>>) -> (
    Set<Seq<char>>,
    Seq<Seq<char>>,
)
    decreases es.len(),
{
    if es.len() == 0 {
        (seen, Seq::<Seq<char>>::empty())
    } else {
        let (s, out) = offer(seen, es.drop_last());
        let e = es.last();
        if s.contains(entry_key(e)) {
            (s, out)
        } else {
            (s.insert(entry_key(e)), out + e)
        }
    }
}

/// The line lists of a list of entries.
pub open spec fn entry_views(es: Seq<Vec<String>>) -> Seq<Seq<Seq<char>>> {
    es.map_values(|e: Vec<String>| views(e@))
}

/// The properties of a scan that the log relies on: every entry has a
/// first line, which is not empty, no line holds `"  Count:"`, and a scan
/// that ends inside a warning entry has found one.
pub open spec fn scan_well_formed(r: (Seq<Seq<Seq<char>>>, bool)) -> bool {
    &&& r.1 ==> r.0.len() > 0
    &&& forall|j: int| 0 <= j < r.0.len() ==> (#[trigger] r.0[j]).len() > 0 && r.0[j][0].len() > 0
    &&& forall|j: int, k: int|
        0 <= j < r.0.len() && 0 <= k < r.0[j].len() ==> !occurs_in(#[trigger] r.0[j][k], count_tag())
}

proof fn lemma_before_first_at_least(s: Seq<char>, pat: Seq<char>, m: int)
    requires
        0 <= m <= s.len(),
        forall|k: int| 0 <= k < m ==> !#[trigger] pat.is_prefix_of(s.skip(k)),
    ensures
        before_first(s, pat).len() >= m,
    decreases m,
{
    if m > 0 {
        assert(s.skip(0) =~= s);
        let t = s.drop_first();
        assert forall|k: int| 0 <= k < m - 1 implies !#[trigger] pat.is_prefix_of(t.skip(k)) by {
            assert(t.skip(k) =~= s.skip(k + 1));
        }
        lemma_before_first_at_least(t, pat, m - 1);
    }
}

proof fn lemma_cut_of_warning_line(l: Seq<char>)
    requires
        warning_tag().is_prefix_of(l),
    ensures
        cut_count(l).len() > 0,
{
    assert forall|k: int| 0 <= k < 1 implies !#[trigger] count_tag().is_prefix_of(l.skip(k)) by {
        assert(l[0] == warning_tag()[0]);
        assert(l.skip(k)[0] == l[0]);
    }
    lemma_before_first_at_least(l, count_tag(), 1);
}

proof fn lemma_scan_well_formed(ls: Seq<Seq<char>>)
    ensures
        scan_well_formed(scan(ls)),
    decreases ls.len(),
{
    if ls.len() > 0 {
        lemma_scan_well_formed(ls.drop_last());
        let (es, w) = scan(ls.drop_last());
        let l = ls.last();
        let r = scan(ls);
        if l.len() == 0 {
        } else if warning_tag().is_prefix_of(l) {
            lemma_cut_of_warning_line(l);
            lemma_before_first_free(l, count_tag());
            assert forall|j: int, k: int|
                0 <= j < r.0.len() && 0 <= k < r.0[j].len() implies !occurs_in(
                #[trigger] r.0[j][k],
                count_tag(),
            ) by {
                if j < es.len() {
                    assert(r.0[j] == es[j]);
                }
            }
            assert forall|j: int| 0 <= j < r.0.len() implies (#[trigger] r.0[j]).len() > 0
                && r.0[j][0].len() > 0 by {
                if j < es.len() {
                    assert(r.0[j] == es[j]);
                }
            }
        } else if error_tag().is_prefix_of(l) {
        } else if w {
            lemma_before_first_free(l, count_tag());
            let last = es.last().push(cut_count(l));
            assert forall|j: int, k: int|
                0 <= j < r.0.len() && 0 <= k < r.0[j].len() implies !occurs_in(
                #[trigger] r.0[j][k],
                count_tag(),
            ) by {
                if j < es.len() - 1 {
                    assert(r.0[j] == es[j]);
                } else if k < es.last().len() {
                    assert(r.0[j][k] == es[es.len() - 1][k]);
                }
            }
            assert forall|j: int| 0 <= j < r.0.len() implies (#[trigger] r.0[j]).len() > 0
                && r.0[j][0].len() > 0 by {
                if j < es.len() - 1 {
                    assert(r.0[j] == es[j]);
                } else {
                    assert(r.0[j][0] == es[es.len() - 1][0]);
                }
            }
        }
    }
}

/// The warning entries of the error log `errlog` (see `entries`).
pub fn warning_entries(errlog: &str) -> (es: Vec<Vec<String>>)
    ensures
        entry_views(es@) == entries(errlog@),
{
    let t = trimmed(errlog);
    let tc = chars_of(t.as_str());
    let ls = split_lines(tc.as_slice());
    let warning = warning_tag_chars();
    let error = error_tag_chars();
    let count = count_tag_chars();
    let mut es: Vec<Vec<String>> = Vec::new();
    let mut in_warning = false;
    let n = ls.len();
    let mut i: usize = 0;
    let ghost all = views(ls@);
    proof {
        assert(all.take(0) =~= Seq::<Seq<char>>::empty());
        assert(entry_views(es@) =~= Seq::<Seq<Seq<char>>>::empty());
    }
    while i < n
        invariant
            n == ls@.len(),
            i <= n,
            all == views(ls@),
            all.len() == n,
            warning@ == warning_tag(),
            error@ == error_tag(),
            count@ == count_tag(),
            scan(all.take(i as int)) == (entry_views(es@), in_warning),
        decreases n - i,
    {
        let ghost before = es@;
        proof {
            assert(all.take(i + 1).drop_last() =~= all.take(i as int));
            lemma_scan_well_formed(all.take(i as int));
        }
        let lc = chars_of(ls[i].as_str());
        assert(lc@ == all.take(i + 1).last());
        assert(lc@.skip(0) =~= lc@);
        if lc.len() != 0 {
            if matches_at(lc.as_slice(), 0, warning.as_slice()) {
                let k = before_first_len(lc.as_slice(), count.as_slice());
                let cut = string_of(lc.as_slice(), 0, k);
                assert(lc@.subrange(0, k as int) =~= lc@.take(k as int));
                let mut entry: Vec<String> = Vec::new();
                entry.push(cut);
                es.push(entry);
                in_warning = true;
                assert(views(entry@) =~= seq![cut_count(lc@)]);
                assert(entry_views(es@) =~= entry_views(before).push(seq![cut_count(lc@)]));
            } else if matches_at(lc.as_slice(), 0, error.as_slice()) {
                in_warning = false;
            } else if in_warning {
                let k = before_first_len(lc.as_slice(), count.as_slice());
                let cut = string_of(lc.as_slice(), 0, k);
                assert(lc@.subrange(0, k as int) =~= lc@.take(k as int));
                match es.pop() {
                    Some(mut last) => {
                        let ghost last_lines = views(last@);
                        last.push(cut);
                        assert(views(last@) =~= last_lines.push(cut_count(lc@)));
                        es.push(last);
                        assert(entry_views(es@) =~= entry_views(before).update(
                            before.len() - 1,
                            entry_views(before).last().push(cut_count(lc@)),
                        ));
                    },
                    None => {},
                }
            }
        }
        i = i + 1;
    }
    assert(all.take(n as int) =~= all);
    es
}

proof fn lemma_join_not_empty(e: Seq<Seq<char>>)
    requires
        e.len() > 0,
        e[0].len() > 0,
    ensures
        entry_key(e).len() > 0,
    decreases e.len(),
{
    if e.len() > 1 {
        assert(e.drop_last()[0] == e[0]);
        lemma_join_not_empty(e.drop_last());
    }
}

/// Offering entries adds the text of every one of them to what the log
/// remembers, and nothing else.
pub proof fn offer_remembers_every_entry(seen: Set<Seq<char>>, es: Seq<Seq<Seq<char>>>)
    ensures
        offer(seen, es).0 == seen.union(entry_keys(es)),
    decreases es.len(),
{
    if es.len() == 0 {
        assert(entry_keys(es) =~= Set::<Seq<char>>::empty());
        assert(seen.union(entry_keys(es)) =~= seen);
    } else {
        let front = es.drop_last();
        offer_remembers_every_entry(seen, front);
        let f = |e: Seq<Seq<char>>| entry_key(e);
        assert(es =~= front.push(es.last()));
        front.lemma_push_map_commute(f, es.last());
        front.map_values(f).lemma_push_to_set_commute(entry_key(es.last()));
        assert(front.push(es.last()).map_values(f) =~= front.map_values(f).push(entry_key(es.last())));
        assert(entry_keys(es) =~= entry_keys(front).insert(entry_key(es.last())));
        assert(offer(seen, es).0 =~= seen.union(entry_keys(es)));
    }
}

/// Entries whose texts the log already remembers are not reported, and
/// leave what it remembers as it was.
pub proof fn known_entries_report_nothing(seen: Set<Seq<char>>, es: Seq<Seq<Seq<char>>>)
    requires
        entry_keys(es).subset_of(seen),
    ensures
        offer(seen, es) == (seen, Seq::<Seq<char>>::empty()),
    decreases es.len(),
{
    if es.len() > 0 {
        let front = es.drop_last();
        let f = |e: Seq<Seq<char>>| entry_key(e);
        assert(es.map_values(f)[es.len() - 1] == entry_key(es.last()));
        assert(entry_keys(es).contains(entry_key(es.last())));
        assert forall|x: Seq<char>| entry_keys(front).contains(x) implies seen.contains(x) by {
            let j = choose|j: int| 0 <= j < front.map_values(f).len() && front.map_values(f)[j] == x;
            assert(es.map_values(f)[j] == x);
            assert(entry_keys(es).contains(x));
        }
        known_entries_report_nothing(seen, front);
    }
}

/// Each warning is reported once: offering the same log again, to the log
/// that took it, reports nothing and changes nothing.
pub proof fn repeated_offer_reports_nothing(seen: Set<Seq<char>>, errlog: Seq<char>)
    ensures
        offer(offer(seen, entries(errlog)).0, entries(errlog)) == (
            offer(seen, entries(errlog)).0,
            Seq::<Seq<char>>::empty(),
        ),
        reported_lines(offer(seen, entries(errlog)).0, errlog).len() == 0,
{
    offer_remembers_every_entry(seen, entries(errlog));
    known_entries_report_nothing(offer(seen, entries(errlog)).0, entries(errlog));
    assert(pieces(Seq::<char>::empty()) =~= seq![Seq::<char>::empty()]);
    assert(reported_lines(offer(seen, entries(errlog)).0, errlog) =~= Seq::<Seq<char>>::empty());
}

proof fn lemma_no_warning_no_entries(ls: Seq<Seq<char>>)
    requires
        forall|i: int| 0 <= i < ls.len() ==> !#[trigger] warning_tag().is_prefix_of(ls[i]),
    ensures
        scan(ls).0.len() == 0,
        !scan(ls).1,
    decreases ls.len(),
{
    if ls.len() > 0 {
        assert forall|i: int| 0 <= i < ls.drop_last().len() implies !#[trigger] warning_tag().is_prefix_of(
            ls.drop_last()[i],
        ) by {
            assert(ls.drop_last()[i] == ls[i]);
        }
        assert(!warning_tag().is_prefix_of(ls[ls.len() - 1]));
        lemma_no_warning_no_entries(ls.drop_last());
    }
}

/// A log without a `"! Warning:"` line (one that holds only error entries,
/// or nothing) reports nothing and leaves what is remembered as it was.
pub proof fn errors_alone_report_nothing(seen: Set<Seq<char>>, errlog: Seq<char>)
    requires
        forall|i: int|
            0 <= i < lines(trim(errlog)).len() ==> !#[trigger] warning_tag().is_prefix_of(
                lines(trim(errlog))[i],
            ),
    ensures
        offer(seen, entries(errlog)) == (seen, Seq::<Seq<char>>::empty()),
        reported_lines(seen, errlog).len() == 0,
{
    lemma_no_warning_no_entries(lines(trim(errlog)));
    assert(pieces(Seq::<char>::empty()) =~= seq![Seq::<char>::empty()]);
    assert(reported_lines(seen, errlog) =~= Seq::<Seq<char>>::empty());
}

proof fn lemma_pieces_have_no_newline(s: Seq<char>, i: int)
    requires
        0 <= i < pieces(s).len(),
    ensures
        !pieces(s)[i].contains('\n'),
    decreases s.len(),
{
    if s.len() > 0 {
        let p = pieces(s.drop_last());
        lemma_pieces_nonempty(s.drop_last());
        if s.last() == '\n' {
            if i < p.len() {
                lemma_pieces_have_no_newline(s.drop_last(), i);
            } else {
                assert(pieces(s)[i] =~= Seq::<char>::empty());
            }
        } else {
            lemma_pieces_have_no_newline(s.drop_last(), i);
            if i == p.len() - 1 {
                lemma_pieces_have_no_newline(s.drop_last(), p.len() - 1);
                let q = p.last().push(s.last());
                assert forall|j: int| 0 <= j < q.len() implies q[j] != '\n' by {
                    if j < p.last().len() {
                        assert(q[j] == p.last()[j]);
                    }
                }
            }
        }
    }
}

proof fn lemma_prefix_keeps_free(q: Seq<char>, s: Seq<char>, pat: Seq<char>)
    requires
        q.is_prefix_of(s),
        !occurs_in(s, pat),
    ensures
        !occurs_in(q, pat),
{
    assert forall|k: int| 0 <= k <= q.len() implies !#[trigger] pat.is_prefix_of(q.skip(k)) by {
        if pat.is_prefix_of(q.skip(k)) {
            assert(pat =~= s.skip(k).subrange(0, pat.len() as int));
            assert(pat.is_prefix_of(s.skip(k)));
        }
    }
}

proof fn lemma_prefix_keeps_no_newline(q: Seq<char>, s: Seq<char>)
    requires
        q.is_prefix_of(s),
        !s.contains('\n'),
    ensures
        !q.contains('\n'),
{
    assert forall|j: int| 0 <= j < q.len() implies q[j] != '\n' by {
        assert(q[j] == s[j]);
    }
}

proof fn lemma_strip_cr_is_prefix(l: Seq<char>)
    ensures
        strip_cr(l).is_prefix_of(l),
{
    assert(strip_cr(l) =~= l.subrange(0, strip_cr(l).len() as int));
}

proof fn lemma_lines_have_no_newline(s: Seq<char>, i: int)
    requires
        0 <= i < lines(s).len(),
    ensures
        !lines(s)[i].contains('\n'),
{
    let p = pieces(s);
    lemma_pieces_nonempty(s);
    if i < p.len() - 1 {
        lemma_pieces_have_no_newline(s, i);
        lemma_strip_cr_is_prefix(p[i]);
        lemma_prefix_keeps_no_newline(strip_cr(p[i]), p[i]);
    } else {
        lemma_pieces_have_no_newline(s, p.len() - 1);
    }
}

proof fn lemma_pieces_append_plain(x: Seq<char>, b: Seq<char>)
    requires
        !b.contains('\n'),
    ensures
        pieces(x + b) == pieces(x).update(pieces(x).len() - 1, pieces(x).last() + b),
    decreases b.len(),
{
    lemma_pieces_nonempty(x);
    let p = pieces(x);
    if b.len() == 0 {
        assert(x + b =~= x);
        assert(p.last() + b =~= p.last());
        assert(p.update(p.len() - 1, p.last() + b) =~= p);
    } else {
        let b0 = b.drop_last();
        assert(!b0.contains('\n')) by {
            assert forall|j: int| 0 <= j < b0.len() implies b0[j] != '\n' by {
                assert(b0[j] == b[j]);
            }
        }
        lemma_pieces_append_plain(x, b0);
        assert((x + b).drop_last() =~= x + b0);
        assert((x + b).last() == b.last());
        assert(b.last() != '\n') by {
            assert(b[b.len() - 1] == b.last());
        }
        let q = p.update(p.len() - 1, p.last() + b0);
        assert(q.last() == p.last() + b0);
        assert((p.last() + b0).push(b.last()) =~= p.last() + b);
        assert(q.update(q.len() - 1, q.last().push(b.last())) =~= p.update(
            p.len() - 1,
            p.last() + b,
        ));
    }
}

proof fn lemma_pieces_of_join(ws: Seq<Seq<char>>)
    requires
        ws.len() > 0,
        forall|j: int| 0 <= j < ws.len() ==> !(#[trigger] ws[j]).contains('\n'),
    ensures
        pieces(join(ws, newline())) == ws,
    decreases ws.len(),
{
    let e = Seq::<char>::empty();
    if ws.len() == 1 {
        lemma_pieces_append_plain(e, ws[0]);
        assert(e + ws[0] =~= ws[0]);
        assert(pieces(e) =~= seq![e]);
        assert(e + ws[0] =~= ws[0]);
        assert(seq![e].update(0, e + ws[0]) =~= ws);
    } else {
        let front = ws.drop_last();
        assert forall|j: int| 0 <= j < front.len() implies !(#[trigger] front[j]).contains('\n') by {
            assert(front[j] == ws[j]);
        }
        lemma_pieces_of_join(front);
        let x = join(front, newline()) + newline();
        assert(x.drop_last() =~= join(front, newline()));
        assert(x.last() == '\n');
        lemma_pieces_nonempty(join(front, newline()));
        assert(pieces(x) == front.push(e));
        assert(!ws.last().contains('\n')) by {
            assert(ws[ws.len() - 1] == ws.last());
        }
        lemma_pieces_append_plain(x, ws.last());
        assert(e + ws.last() =~= ws.last());
        assert(front.push(e).update(front.len() as int, e + ws.last()) =~= ws);
    }
}

proof fn lemma_scan_no_newline(ls: Seq<Seq<char>>)
    requires
        forall|i: int| 0 <= i < ls.len() ==> !(#[trigger] ls[i]).contains('\n'),
    ensures
        forall|j: int, k: int|
            0 <= j < scan(ls).0.len() && 0 <= k < scan(ls).0[j].len() ==> !(#[trigger] scan(
                ls,
            ).0[j][k]).contains('\n'),
    decreases ls.len(),
{
    if ls.len() > 0 {
        let front = ls.drop_last();
        assert forall|i: int| 0 <= i < front.len() implies !(#[trigger] front[i]).contains('\n') by {
            assert(front[i] == ls[i]);
        }
        lemma_scan_no_newline(front);
        lemma_scan_well_formed(front);
        let (es, w) = scan(front);
        let l = ls.last();
        assert(!l.contains('\n')) by {
            assert(ls[ls.len() - 1] == l);
        }
        lemma_before_first_is_prefix(l, count_tag());
        lemma_prefix_keeps_no_newline(cut_count(l), l);
        let r = scan(ls);
        assert forall|j: int, k: int| 0 <= j < r.0.len() && 0 <= k < r.0[j].len() implies !(
        #[trigger] r.0[j][k]).contains('\n') by {
            if l.len() == 0 || error_tag().is_prefix_of(l) {
            } else if warning_tag().is_prefix_of(l) {
                if j < es.len() {
                    assert(r.0[j] == es[j]);
                }
            } else if w {
                if j < es.len() - 1 {
                    assert(r.0[j] == es[j]);
                } else if k < es.last().len() {
                    assert(r.0[j][k] == es[es.len() - 1][k]);
                }
            }
        }
    }
}

/// A line that a log may report: it holds no `"  Count:"` and no newline.
pub open spec fn clean_line(l: Seq<char>) -> bool {
    !occurs_in(l, count_tag()) && !l.contains('\n')
}

proof fn lemma_offer_lines_clean(seen: Set<Seq<char>>, es: Seq<Seq<Seq<char>>>, i: int)
    requires
        forall|j: int, k: int| 0 <= j < es.len() && 0 <= k < es[j].len() ==> clean_line(#[trigger] es[j][k]),
        0 <= i < offer(seen, es).1.len(),
    ensures
        clean_line(offer(seen, es).1[i]),
    decreases es.len(),
{
    if es.len() > 0 {
        let front = es.drop_last();
        let (s, out) = offer(seen, front);
        assert forall|j: int, k: int|
            0 <= j < front.len() && 0 <= k < front[j].len() implies clean_line(#[trigger] front[j][k]) by {
            assert(front[j] == es[j]);
        }
        if i < out.len() {
            lemma_offer_lines_clean(seen, front, i);
        } else {
            assert(offer(seen, es).1[i] == es[es.len() - 1][i - out.len()]);
        }
    }
}

proof fn lemma_entry_lines_clean(errlog: Seq<char>)
    ensures
        forall|j: int, k: int|
            0 <= j < entries(errlog).len() && 0 <= k < entries(errlog)[j].len() ==> clean_line(
                #[trigger] entries(errlog)[j][k],
            ),
{
    let ls = lines(trim(errlog));
    assert forall|i: int| 0 <= i < ls.len() implies !(#[trigger] ls[i]).contains('\n') by {
        lemma_lines_have_no_newline(trim(errlog), i);
    }
    lemma_scan_well_formed(ls);
    lemma_scan_no_newline(ls);
}

/// The lines that a log reports for the error log `errlog` when it
/// remembers `seen`: the lines of the new entries joined with newlines, as
/// `str::lines` splits that text.
pub open spec fn reported_lines(seen: Set<Seq<char>>, errlog: Seq<char>) -> Seq<Seq<char>> {
    lines(join(offer(seen, entries(errlog)).1, newline()))
}

/// No line that a log reports holds `"  Count:"`: every reported line is
/// cut before its repeat count.
pub proof fn reported_lines_hold_no_count(seen: Set<Seq<char>>, errlog: Seq<char>, i: int)
    requires
        0 <= i < reported_lines(seen, errlog).len(),
    ensures
        !occurs_in(reported_lines(seen, errlog)[i], count_tag()),
{
    let ws = offer(seen, entries(errlog)).1;
    lemma_entry_lines_clean(errlog);
    assert forall|j: int| 0 <= j < ws.len() implies !(#[trigger] ws[j]).contains('\n') by {
        lemma_offer_lines_clean(seen, entries(errlog), j);
    }
    if ws.len() == 0 {
        assert(pieces(Seq::<char>::empty()) =~= seq![Seq::<char>::empty()]);
        assert(reported_lines(seen, errlog) =~= Seq::<Seq<char>>::empty());
    } else {
        lemma_pieces_of_join(ws);
        let l = reported_lines(seen, errlog)[i];
        if i < ws.len() - 1 {
            assert(l == strip_cr(ws[i]));
            lemma_strip_cr_is_prefix(ws[i]);
            lemma_offer_lines_clean(seen, entries(errlog), i);
            lemma_prefix_keeps_free(l, ws[i], count_tag());
        } else {
            assert(l == ws.last());
            lemma_offer_lines_clean(seen, entries(errlog), ws.len() - 1);
        }
    }
}

proof fn lemma_scan_one_warning(ls: Seq<Seq<char>>)
    requires
        ls.len() > 0,
        warning_tag().is_prefix_of(ls[0]),
        forall|i: int|
            1 <= i < ls.len() ==> (#[trigger] ls[i]).len() > 0 && !warning_tag().is_prefix_of(ls[i])
                && !error_tag().is_prefix_of(ls[i]),
    ensures
        scan(ls) == (seq![ls.map_values(|l: Seq<char>| cut_count(l))], true),
    decreases ls.len(),
{
    let f = |l: Seq<char>| cut_count(l);
    if ls.len() == 1 {
        let front = ls.drop_last();
        assert(front.len() == 0);
        assert(ls.last() == ls[0]);
        assert(ls[0].len() >= warning_tag().len());
        assert(ls.map_values(f) =~= seq![cut_count(ls[0])]);
        assert(scan(front) == (Seq::<Seq<Seq<char>>>::empty(), false));
        assert(Seq::<Seq<Seq<char>>>::empty().push(seq![cut_count(ls[0])]) =~= seq![
            ls.map_values(f),
        ]);
    } else {
        let front = ls.drop_last();
        assert(front[0] == ls[0]);
        assert forall|i: int|
            1 <= i < front.len() implies (#[trigger] front[i]).len() > 0 && !warning_tag().is_prefix_of(
            front[i],
        ) && !error_tag().is_prefix_of(front[i]) by {
            assert(front[i] == ls[i]);
        }
        lemma_scan_one_warning(front);
        let l = ls.last();
        assert(l == ls[ls.len() - 1]);
        front.lemma_push_map_commute(f, l);
        assert(front.push(l) =~= ls);
        let es = seq![front.map_values(f)];
        assert(scan(front) == (es, true));
        assert(l.len() > 0 && !warning_tag().is_prefix_of(l) && !error_tag().is_prefix_of(l));
        assert(es.last() == front.map_values(f));
        assert(es.update(es.len() - 1, es.last().push(cut_count(l))) =~= seq![ls.map_values(f)]);
    }
}

/// A warning entry keeps every line that follows it: an error log whose
/// lines are one `"! Warning:"` line followed by any number of non-empty
/// lines that open no entry has exactly one warning entry, made of all of
/// these lines in order, each cut before its `"  Count:"`.
pub proof fn warning_keeps_all_its_lines(errlog: Seq<char>)
    requires
        lines(trim(errlog)).len() > 0,
        warning_tag().is_prefix_of(lines(trim(errlog))[0]),
        forall|i: int|
            1 <= i < lines(trim(errlog)).len() ==> (#[trigger] lines(trim(errlog))[i]).len() > 0
                && !warning_tag().is_prefix_of(lines(trim(errlog))[i]) && !error_tag().is_prefix_of(
                lines(trim(errlog))[i],
            ),
    ensures
        entries(errlog) == seq![lines(trim(errlog)).map_values(|l: Seq<char>| cut_count(l))],
{
    lemma_scan_one_warning(lines(trim(errlog)));
}

/// Whether the `j`-th of the entries `es` is new to a log that remembers
/// `seen`: its text is not remembered and is not the text of an earlier
/// entry.
pub open spec fn is_new(seen: Set<Seq<char>>, es: Seq<Seq<Seq<char>>>, j: int) -> bool {
    &&& 0 <= j < es.len()
    &&& !seen.contains(entry_key(es[j]))
    &&& forall|i: int| 0 <= i < j ==> entry_key(#[trigger] es[i]) != entry_key(es[j])
}

/// The new entries among `es`, in order.
pub open spec fn new_entries(seen: Set<Seq<char>>, es: Seq<Seq<Seq<char>>>) -> Seq<Seq<Seq<char>>> {
    Seq::new(es.len(), |j: int| j).filter(|j: int| is_new(seen, es, j)).map_values(|j: int| es[j])
}

proof fn lemma_filter_same(s: Seq<int>, p: spec_fn(int) -> bool, q: spec_fn(int) -> bool)
    requires
        forall|i: int| 0 <= i < s.len() ==> p(#[trigger] s[i]) == q(s[i]),
    ensures
        s.filter(p) == s.filter(q),
    decreases s.len(),
{
    reveal(Seq::filter);
    if s.len() > 0 {
        let t = s.drop_last();
        assert forall|i: int| 0 <= i < t.len() implies p(#[trigger] t[i]) == q(t[i]) by {
            assert(t[i] == s[i]);
        }
        lemma_filter_same(t, p, q);
        assert(s.last() == s[s.len() - 1]);
    }
}

/// The lines that offering entries reports are the lines of the new
/// entries, whole and in order: every entry whose text is neither
/// remembered nor the text of an earlier entry has all its lines reported,
/// wherever it stands, and no other entry has any.
pub proof fn new_entries_are_reported_whole(seen: Set<Seq<char>>, es: Seq<Seq<Seq<char>>>)
    ensures
        offer(seen, es).1 == new_entries(seen, es).flatten(),
    decreases es.len(),
{
    let n = es.len();
    if n == 0 {
        reveal(Seq::filter);
        assert(new_entries(seen, es) =~= Seq::<Seq<Seq<char>>>::empty());
        assert(new_entries(seen, es).flatten() =~= Seq::<Seq<char>>::empty());
    } else {
        let front = es.drop_last();
        new_entries_are_reported_whole(seen, front);
        offer_remembers_every_entry(seen, front);
        let e = es.last();
        assert(e == es[n - 1]);
        let pe = |j: int| is_new(seen, es, j);
        let pf = |j: int| is_new(seen, front, j);
        let ge = |j: int| es[j];
        let gf = |j: int| front[j];
        let idx = Seq::new(n as nat, |j: int| j);
        let idf = Seq::new((n - 1) as nat, |j: int| j);
        assert(idx =~= idf.push(n - 1));
        idf.lemma_filter_push(n - 1, pe);
        assert forall|i: int| 0 <= i < idf.len() implies pe(#[trigger] idf[i]) == pf(idf[i]) by {
            let j = idf[i];
            assert(j == i);
            assert(es[j] == front[j]);
            if pe(j) {
                assert forall|k: int| 0 <= k < j implies entry_key(#[trigger] front[k]) != entry_key(front[j]) by {
                    assert(front[k] == es[k]);
                    assert(entry_key(es[k]) != entry_key(es[j]));
                }
            }
            if pf(j) {
                assert forall|k: int| 0 <= k < j implies entry_key(#[trigger] es[k]) != entry_key(es[j]) by {
                    assert(front[k] == es[k]);
                    assert(entry_key(front[k]) != entry_key(front[j]));
                }
            }
        }
        lemma_filter_same(idf, pe, pf);
        let kept = idf.filter(pf);
        assert(kept.map_values(ge) =~= kept.map_values(gf)) by {
            assert forall|i: int| 0 <= i < kept.len() implies kept.map_values(ge)[i] == kept.map_values(gf)[i] by {
                idf.lemma_filter_pred(pf, i);
                assert(es[kept[i]] == front[kept[i]]);
            }
        }
        assert(new_entries(seen, front) == kept.map_values(gf));
        // whether the last entry is new: not remembered after the front
        let s = offer(seen, front).0;
        let kf = front.map_values(|x: Seq<Seq<char>>| entry_key(x));
        if pe(n - 1) {
            if s.contains(entry_key(e)) {
                assert(!seen.contains(entry_key(e)));
                assert(entry_keys(front).contains(entry_key(e)));
                assert(kf.contains(entry_key(e)));
                let i = choose|i: int| 0 <= i < kf.len() && kf[i] == entry_key(e);
                assert(front[i] == es[i]);
                assert(entry_key(es[i]) != entry_key(es[n - 1]));
            }
            kept.lemma_push_map_commute(ge, n - 1);
            assert(new_entries(seen, es) =~= kept.map_values(ge).push(e));
            kept.map_values(ge).lemma_flatten_push(e);
        } else {
            if !s.contains(entry_key(e)) {
                assert(!seen.contains(entry_key(e)));
                assert forall|i: int| 0 <= i < n - 1 implies entry_key(#[trigger] es[i]) != entry_key(es[n - 1]) by {
                    assert(front[i] == es[i]);
                    assert(kf[i] == entry_key(front[i]));
                    assert(kf.contains(kf[i]));
                    assert(entry_keys(front).contains(entry_key(front[i])));
                }
                assert(pe(n - 1));
            }
            assert(new_entries(seen, es) =~= kept.map_values(ge));
        }
    }
}

/// The lines a log reports are the lines of the text made of its new
/// entries' lines joined with newlines.
pub proof fn reported_lines_are_the_new_entries(seen: Set<Seq<char>>, errlog: Seq<char>)
    ensures
        reported_lines(seen, errlog) == lines(
            join(new_entries(seen, entries(errlog)).flatten(), newline()),
        ),
{
    new_entries_are_reported_whole(seen, entries(errlog));
}

/// A log with a single warning entry whose text is not remembered reports
/// every line of that entry: the lines of its text.
pub proof fn single_new_entry_is_reported_whole(
    seen: Set<Seq<char>>,
    errlog: Seq<char>,
    e: Seq<Seq<char>>,
)
    requires
        entries(errlog) == seq![e],
        !seen.contains(entry_key(e)),
    ensures
        reported_lines(seen, errlog) == lines(entry_key(e)),
{
    new_entries_are_reported_whole(seen, entries(errlog));
    let es = entries(errlog);
    assert(is_new(seen, es, 0));
    let idx = Seq::new(1, |j: int| j);
    let e0 = Seq::new(0, |j: int| j);
    assert(idx =~= e0.push(0));
    reveal(Seq::filter);
    e0.lemma_filter_push(0, |j: int| is_new(seen, es, j));
    assert(e0.filter(|j: int| is_new(seen, es, j)) =~= e0);
    assert(new_entries(seen, es) =~= seq![e]);
    seq![e].lemma_flatten_singleton();
}

/// Whether `text` is among the texts `seen`.
fn holds_text(seen: &Vec<String>, text: &String) -> (b: bool)
    ensures
        b == views(seen@).contains(text@),
{
    let n = seen.len();
    let mut i: usize = 0;
    while i < n
        invariant
            n == seen@.len(),
            i <= n,
            forall|j: int| 0 <= j < i ==> seen@[j]@ != text@,
        decreases n - i,
    {
        if seen[i] == *text {
            assert(views(seen@)[i as int] == text@);
            return true;
        }
        i = i + 1;
    }
    assert forall|x: Seq<char>| views(seen@).contains(x) implies x != text@ by {
        let j = choose|j: int| 0 <= j < views(seen@).len() && views(seen@)[j] == x;
        assert(seen@[j]@ == x);
    }
    false
}

/// The texts of the warning entries that were already reported, so that
/// each unique warning is reported once however many models produce it.
pub struct WarningLog {
    seen: Vec<String>,
}

impl View for WarningLog {
    type V = Set<Seq<char>>;

    closed spec fn view(&self) -> Set<Seq<char>> {
        views(self.seen@).to_set()
    }
}

impl WarningLog {
    /// No remembered text is empty.
    #[verifier::type_invariant]
    spec fn texts_not_empty(self) -> bool {
        forall|i: int| 0 <= i < self.seen@.len() ==> (#[trigger] self.seen@[i])@.len() > 0
    }

    /// A log that has reported nothing.
    pub fn new() -> (log: WarningLog)
        ensures
            log@ == Set::<Seq<char>>::empty(),
            log@.finite(),
            !log@.contains(Seq::<char>::empty()),
    {
        let log = WarningLog { seen: Vec::new() };
        assert(log@ =~= Set::<Seq<char>>::empty());
        log
    }

    /// Whether the entry text `text` was already reported.
    pub fn has_reported(&self, text: &String) -> (b: bool)
        ensures
            b == self@.contains(text@),
    {
        holds_text(&self.seen, text)
    }

    /// Takes the error log `errlog` of a model run and returns the lines to
    /// report: the lines of its warning entries whose text was not reported
    /// before, in log order and each entry once, joined with newlines and
    /// split again as `str::lines` splits text (so a final empty line is
    /// dropped, and so is a `'\r'` before a joining newline). Afterwards the log
    /// remembers the texts of all of the entries. What it remembers is a
    /// finite set that never holds the empty text.
    pub fn take_new_warnings(&mut self, errlog: &str) -> (to_report: Vec<String>)
        ensures
            final(self)@ == old(self)@.union(entry_keys(entries(errlog@))),
            final(self)@ == offer(old(self)@, entries(errlog@)).0,
            views(to_report@) == reported_lines(old(self)@, errlog@),
            views(to_report@) == lines(
                join(new_entries(old(self)@, entries(errlog@)).flatten(), newline()),
            ),
            final(self)@.finite(),
            !final(self)@.contains(Seq::<char>::empty()),
    {
        proof {
            use_type_invariant(&*self);
        }
        let es = warning_entries(errlog);
        let mut seen: Vec<String> = Vec::new();
        std::mem::swap(&mut seen, &mut self.seen);
        let ghost start = views(seen@).to_set();
        assert(start == old(self)@);
        let mut out: Vec<String> = Vec::new();
        let n = es.len();
        let mut i: usize = 0;
        let ghost all = entry_views(es@);
        proof {
            lemma_scan_well_formed(lines(trim(errlog@)));
            assert(all.take(0) =~= Seq::<Seq<Seq<char>>>::empty());
            assert(views(out@) =~= Seq::<Seq<char>>::empty());
        }
        while i < n
            invariant
                n == es@.len(),
                i <= n,
                all == entry_views(es@),
                all == entries(errlog@),
                scan_well_formed(scan(lines(trim(errlog@)))),
                offer(start, all.take(i as int)) == (views(seen@).to_set(), views(out@)),
                forall|j: int| 0 <= j < seen@.len() ==> (#[trigger] seen@[j])@.len() > 0,
            decreases n - i,
        {
            proof {
                assert(all.take(i + 1).drop_last() =~= all.take(i as int));
                assert(all.take(i + 1).last() == views(es@[i as int]@));
            }
            let key = join_strings(&es[i], "\n");
            proof {
                reveal_strlit("\n");
                assert("\n"@ =~= newline());
                assert(all[i as int] == views(es@[i as int]@));
                lemma_join_not_empty(all[i as int]);
            }
            if !holds_text(&seen, &key) {
                let ghost seen_before = seen@;
                let ghost out_before = out@;
                seen.push(key);
                proof {
                    assert(views(seen@) =~= views(seen_before).push(entry_key(all[i as int])));
                    views(seen_before).lemma_push_to_set_commute(entry_key(all[i as int]));
                }
                let m = es[i].len();
                let mut k: usize = 0;
                while k < m
                    invariant
                        m == es@[i as int]@.len(),
                        i < n == es@.len(),
                        k <= m,
                        views(out@) == views(out_before) + views(es@[i as int]@).take(k as int),
                    decreases m - k,
                {
                    let line = es[i][k].clone();
                    let ghost o = out@;
                    out.push(line);
                    assert(views(out@) =~= views(o).push(es@[i as int]@[k as int]@));
                    assert(views(es@[i as int]@).take(k + 1) =~= views(es@[i as int]@).take(
                        k as int,
                    ).push(es@[i as int]@[k as int]@));
                    k = k + 1;
                    assert(views(out@) =~= views(out_before) + views(es@[i as int]@).take(k as int));
                }
                assert(views(es@[i as int]@).take(m as int) =~= views(es@[i as int]@));
            }
            i = i + 1;
        }
        proof {
            assert(all.take(n as int) =~= all);
            offer_remembers_every_entry(start, all);
            reported_lines_are_the_new_entries(start, errlog@);
        }
        self.seen = seen;
        let text = join_strings(&out, "\n");
        let tc = chars_of(text.as_str());
        let to_report = split_lines(tc.as_slice());
        proof {
            reveal_strlit("\n");
            assert("\n"@ =~= newline());
        }
        to_report
    }
}

} // verus!

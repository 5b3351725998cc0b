//! The refs store: per-clone refs under `refs/gitalong/v1/` on the
//! repository's own remote.
//!
//! Each clone publishes its records as one commit under
//! `refs/gitalong/v1/<clone-id>`. The commit points at the empty tree and
//! carries the records as JSON in its message. The `v1` is the record
//! format, so that clones running different versions never misread each
//! other.
use vstd::prelude::*;

use crate::text::{pieces_of, push_str, split_pieces, trim, trimmed, views, Split};

verus! {

/// Ref namespace shared by every clone.
pub const NAMESPACE: &'static str = "refs/gitalong/v1";

/// The ref the clone `clone_id` publishes to: `refs/gitalong/v1/<clone-id>`.
pub fn own_ref(clone_id: &str) -> (r: String)
    ensures
        r@ == NAMESPACE@ + seq!['/'] + clone_id@,
{
    let mut r = NAMESPACE.to_owned();
    r.push('/');
    push_str(&mut r, clone_id);
    r
}

/// Whether publishing `body` to a clone's ref can be skipped: the ref
/// already holds exactly that message (`last`, the message of the commit
/// the ref points at, when there is one).
pub fn publication_unchanged(last: Option<&str>, body: &str) -> (r: bool)
    ensures
        r == (last is Some && last->0@ == body@),
{
    match last {
        Some(m) => crate::text::eq_str(m, body),
        None => false,
    }
}

/// The clone id stored in a clone's state file: its text without
/// surrounding whitespace, or none when that is empty (a new id is minted
/// then).
pub fn stored_clone_id(text: &str) -> (r: Option<String>)
    ensures
        r is Some <==> trimmed(text@).len() > 0,
        r matches Some(id) ==> id@ == trimmed(text@),
{
    let t = trim(text);
    let cs = crate::text::chars_of(t.as_str());
    if cs.len() > 0 {
        Some(t)
    } else {
        None
    }
}

/// A line without the carriage return of a `\r\n` ending.
pub open spec fn strip_cr(l: Seq<char>) -> Seq<char> {
    if l.len() > 0 && l.last() == '\r' {
        l.drop_last()
    } else {
        l
    }
}

/// The lines of `s` as `str::lines` gives them: cut at `\n`, a `\r` before
/// the `\n` dropped, and no empty line after a final `\n`.
pub open spec fn text_lines(s: Seq<char>) -> Seq<Seq<char>> {
    let ps = pieces_of(s, Split::Lines);
    let body = ps.drop_last().map_values(|l: Seq<char>| strip_cr(l));
    if ps.last().len() > 0 {
        body.push(ps.last())
    } else {
        body
    }
}

/// The whitespace-separated words of a line (`str::split_whitespace`).
pub open spec fn words(line: Seq<char>) -> Seq<Seq<char>> {
    pieces_of(line, Split::Words).filter(|p: Seq<char>| p.len() > 0)
}

/// The second word of every line that has one, in order: the ref names in
/// the output of `git ls-remote`.
pub open spec fn second_words(lines: Seq<Seq<char>>) -> Seq<Seq<char>>
    decreases lines.len(),
{
    if lines.len() == 0 {
        Seq::empty()
    } else {
        let prior = second_words(lines.drop_last());
        let w = words(lines.last());
        if w.len() > 1 {
            prior.push(w[1])
        } else {
            prior
        }
    }
}

pub(crate) fn nonempty(ps: &Vec<String>) -> (out: Vec<String>)
    ensures
        views(out@) == views(ps@).filter(|p: Seq<char>| p.len() > 0),
{
    let ghost pred = |p: Seq<char>| p.len() > 0;
    let mut out: Vec<String> = Vec::new();
    let mut i: usize = 0;
    while i < ps.len()
        invariant
            i <= ps@.len(),
            pred == (|p: Seq<char>| p.len() > 0),
            views(out@) == views(ps@.subrange(0, i as int)).filter(pred),
        decreases ps.len() - i,
    {
        let ghost before = views(out@);
        let here = crate::text::chars_of(ps[i].as_str());
        if here.len() > 0 {
            out.push(ps[i].clone());
            assert(views(out@) =~= before.push(ps@[i as int]@));
        }
        proof {
            reveal_with_fuel(Seq::filter, 1);
            let now = views(ps@.subrange(0, i + 1));
            assert(now.drop_last() =~= views(ps@.subrange(0, i as int)));
            assert(now.last() == ps@[i as int]@);
        }
        i = i + 1;
    }
    assert(ps@.subrange(0, ps@.len() as int) =~= ps@);
    out
}

fn without_cr(line: &str) -> (out: String)
    ensures
        out@ == strip_cr(line@),
{
    let cs = crate::text::chars_of(line);
    if cs.len() > 0 && cs[cs.len() - 1] == '\r' {
        crate::text::string_of_chars(&cs, 0, cs.len() - 1)
    } else {
        crate::text::string_of_chars(&cs, 0, cs.len())
    }
}

/// The lines of `s` (see [`text_lines`]).
pub fn lines(s: &str) -> (out: Vec<String>)
    ensures
        views(out@) == text_lines(s@),
{
    let ps = split_pieces(s, Split::Lines);
    let ghost pv = views(ps@);
    let n = ps.len();
    let mut out: Vec<String> = Vec::new();
    let mut i: usize = 0;
    assert(pv.len() > 0) by {
        crate::text::lemma_pieces_nonempty(s@, Split::Lines);
    }
    while i + 1 < n
        invariant
            pv == views(ps@),
            n == ps@.len(),
            n > 0,
            i + 1 <= n,
            views(out@) == pv.drop_last().subrange(0, i as int).map_values(|l: Seq<char>| strip_cr(l)),
        decreases n - i,
    {
        let l = without_cr(ps[i].as_str());
        let ghost before = views(out@);
        out.push(l);
        assert(pv[i as int] == ps@[i as int]@);
        assert(views(out@) =~= before.push(strip_cr(pv[i as int])));
        i = i + 1;
        assert(views(out@) =~= pv.drop_last().subrange(0, i as int).map_values(|l: Seq<char>| strip_cr(l)));
    }
    assert(pv.drop_last().subrange(0, i as int) =~= pv.drop_last());
    let last = crate::text::chars_of(ps[n - 1].as_str());
    if last.len() > 0 {
        let ghost before = views(out@);
        out.push(ps[n - 1].clone());
        assert(views(out@) =~= before.push(pv.last()));
    }
    out
}

/// The ref names in the output of `git ls-remote`: the second word of every
/// line that has one (see [`second_words`]).
pub fn ref_names(listing: &str) -> (names: Vec<String>)
    ensures
        views(names@) == second_words(text_lines(listing@)),
{
    let ls = lines(listing);
    let mut names: Vec<String> = Vec::new();
    let mut i: usize = 0;
    while i < ls.len()
        invariant
            i <= ls@.len(),
            views(ls@) == text_lines(listing@),
            views(names@) == second_words(views(ls@).subrange(0, i as int)),
        decreases ls.len() - i,
    {
        let ps = split_pieces(ls[i].as_str(), Split::Words);
        let w = nonempty(&ps);
        let ghost before = views(names@);
        if w.len() > 1 {
            names.push(w[1].clone());
            assert(views(names@) =~= before.push(views(w@)[1]));
        }
        proof {
            let now = views(ls@).subrange(0, i + 1);
            assert(now.drop_last() =~= views(ls@).subrange(0, i as int));
            assert(now.last() == ls@[i as int]@);
        }
        i = i + 1;
    }
    assert(views(ls@).subrange(0, ls@.len() as int) =~= views(ls@));
    names
}

/// Every listing line with at least two words names its second word, and
/// a line with fewer names nothing: a `git ls-remote` line
/// `<oid> <ref>` yields exactly `<ref>`.
pub proof fn law_listing_line_names_its_ref(line: Seq<char>)
    ensures
        words(line).len() >= 2 ==> second_words(seq![line]) == seq![words(line)[1]],
        words(line).len() < 2 ==> second_words(seq![line]) == Seq::<Seq<char>>::empty(),
{
    let ls = seq![line];
    assert(ls.drop_last() =~= Seq::<Seq<char>>::empty());
    assert(second_words(Seq::<Seq<char>>::empty()) == Seq::<Seq<char>>::empty());
    assert(Seq::<Seq<char>>::empty().push(words(line)[1]) =~= seq![words(line)[1]]);
}

/// The ref names of a listing are those of its lines in turn: the names of
/// `a + b` are the names of `a` followed by the names of `b`.
pub proof fn law_listing_names_concatenate(a: Seq<Seq<char>>, b: Seq<Seq<char>>)
    ensures
        second_words(a + b) == second_words(a) + second_words(b),
    decreases b.len(),
{
    if b.len() == 0 {
        assert(a + b =~= a);
        assert(second_words(a) + Seq::<Seq<char>>::empty() =~= second_words(a));
    } else {
        law_listing_names_concatenate(a, b.drop_last());
        assert((a + b).drop_last() =~= a + b.drop_last());
        assert((a + b).last() == b.last());
        let w = words(b.last());
        if w.len() > 1 {
            assert((second_words(a) + second_words(b.drop_last())).push(w[1]) =~= second_words(a) + second_words(
                b.drop_last(),
            ).push(w[1]));
        }
    }
}

} // verus!

//! The identity of a clone and the path rules of a managed working tree.
use vstd::prelude::*;

use crate::config::Config;
use crate::text::{chars_of, find_last_char, joined, last_index, push_str, string_of_chars, views};

verus! {

/// Identity context attached to records issued by this clone: the host name,
/// the OS user and the canonical working-tree path of the clone.
#[derive(Debug, Clone, PartialEq, Eq)]
pub struct Context {
    pub host: String,
    pub user: String,
    pub clone: String,
}

/// `true` for a path that starts at the root.
pub open spec fn is_absolute(p: Seq<char>) -> bool {
    p.len() > 0 && p[0] == '/'
}

/// `p` split at every `/`, empty pieces included.
pub open spec fn pieces(p: Seq<char>) -> Seq<Seq<char>>
    decreases p.len(),
{
    if p.len() == 0 {
        seq![Seq::empty()]
    } else {
        let prior = pieces(p.drop_last());
        if p.last() == '/' {
            prior.push(Seq::empty())
        } else {
            prior.update(prior.len() - 1, prior.last().push(p.last()))
        }
    }
}

/// `true` for a piece that names a component: not empty and not `.`.
pub open spec fn is_component(piece: Seq<char>) -> bool {
    piece.len() > 0 && piece != seq!['.']
}

/// The named components of `p`: empty pieces (repeated or trailing
/// separators) and `.` pieces are not components.
pub open spec fn components(p: Seq<char>) -> Seq<Seq<char>> {
    pieces(p).filter(|piece: Seq<char>| is_component(piece))
}

/// The pieces of `ps` after its first `n` components.
pub open spec fn skip_components(ps: Seq<Seq<char>>, n: nat) -> Seq<Seq<char>>
    decreases ps.len(),
{
    if n == 0 || ps.len() == 0 {
        ps
    } else if is_component(ps[0]) {
        skip_components(ps.drop_first(), (n - 1) as nat)
    } else {
        skip_components(ps.drop_first(), n)
    }
}

/// `ps` without the pieces before its first component.
pub open spec fn trim_front(ps: Seq<Seq<char>>) -> Seq<Seq<char>>
    decreases ps.len(),
{
    if ps.len() > 0 && !is_component(ps[0]) {
        trim_front(ps.drop_first())
    } else {
        ps
    }
}

/// `ps` without the pieces after its last component.
pub open spec fn trim_back(ps: Seq<Seq<char>>) -> Seq<Seq<char>>
    decreases ps.len(),
{
    if ps.len() > 0 && !is_component(ps.last()) {
        trim_back(ps.drop_last())
    } else {
        ps
    }
}

/// `path` without the leading components of `base`, when `base` starts at
/// the root exactly when `path` does and its components lead `path`'s: the
/// text of `path` after those components, without the separators and `.`
/// pieces that open or close it (`Path::strip_prefix`); a doubled
/// separator inside stays.
pub open spec fn strip_prefix(path: Seq<char>, base: Seq<char>) -> Option<Seq<char>> {
    let pc = components(path);
    let bc = components(base);
    if is_absolute(path) == is_absolute(base) && bc.len() <= pc.len() && pc.subrange(0, bc.len() as int) == bc {
        Some(joined(trim_back(trim_front(skip_components(pieces(path), bc.len()))), seq!['/']))
    } else {
        None
    }
}

/// `name` joined onto `base` with one separator; an absolute `name` stands
/// alone, and an empty `base` adds nothing.
pub open spec fn join_path(base: Seq<char>, name: Seq<char>) -> Seq<char> {
    if is_absolute(name) || base.len() == 0 {
        name
    } else if base.last() == '/' {
        base + name
    } else {
        base + seq!['/'] + name
    }
}

/// `name` joined onto `base` (see [`join_path`]).
pub fn join(base: &str, name: &str) -> (out: String)
    ensures
        out@ == join_path(base@, name@),
{
    let b = chars_of(base);
    let n = chars_of(name);
    let mut out = String::new();
    if (n.len() > 0 && n[0] == '/') || b.len() == 0 {
        push_str(&mut out, name);
        return out;
    }
    push_str(&mut out, base);
    if b[b.len() - 1] != '/' {
        out.push('/');
    }
    push_str(&mut out, name);
    out
}

/// The components of `p` (see [`components`]).
pub fn split_components(p: &str) -> (out: Vec<String>)
    ensures
        views(out@) == components(p@),
{
    let cs = chars_of(p);
    let mut out: Vec<String> = Vec::new();
    let mut start: usize = 0;
    let mut i: usize = 0;
    let ghost pred = |piece: Seq<char>| is_component(piece);
    assert(cs@.subrange(0, 0) =~= Seq::<char>::empty());
    assert(pieces(Seq::<char>::empty()).drop_last().push(Seq::<char>::empty()) =~= pieces(
        Seq::<char>::empty(),
    ));
    while i < cs.len()
        invariant
            cs@ == p@,
            start <= i <= cs@.len(),
            pred == (|piece: Seq<char>| is_component(piece)),
            pieces(cs@.subrange(0, i as int)) == pieces(cs@.subrange(0, start as int)).drop_last().push(
                cs@.subrange(start as int, i as int),
            ),
            start == 0 || cs@[start - 1] == '/',
            views(out@) == pieces(cs@.subrange(0, start as int)).drop_last().filter(pred),
            forall|j: int| start <= j < i ==> cs@[j] != '/',
        decreases cs.len() - i,
    {
        let ghost pre = cs@.subrange(0, i as int);
        let ghost next = cs@.subrange(0, i + 1);
        assert(next.drop_last() =~= pre);
        assert(next.last() == cs@[i as int]);
        if cs[i] == '/' {
            let piece = string_of_chars(&cs, start, i);
            let ghost before = views(out@);
            let keep = i > start && !(i - start == 1 && cs[start] == '.');
            proof {
                assert(piece@ == cs@.subrange(start as int, i as int));
                if piece@.len() == 1 {
                    assert(piece@ =~= seq![cs@[start as int]]);
                    assert(seq![cs@[start as int]][0] == cs@[start as int]);
                    assert(seq!['.'][0] == '.');
                }
                assert(keep == is_component(piece@));
            }
            if keep {
                out.push(piece);
            }
            proof {
                reveal_with_fuel(Seq::filter, 1);
                let now = pieces(next);
                assert(now == pieces(pre).push(Seq::empty()));
                assert(pieces(cs@.subrange(0, (i + 1) as int)).drop_last() =~= pieces(pre));
                assert(pieces(pre).drop_last() =~= pieces(cs@.subrange(0, start as int)).drop_last());
                assert(pieces(pre).last() == cs@.subrange(start as int, i as int));
                if keep {
                    assert(views(out@) =~= before.push(piece@));
                } else {
                    assert(views(out@) =~= before);
                }
                assert(cs@.subrange(i + 1, i + 1) =~= Seq::<char>::empty());
            }
            start = i + 1;
        } else {
            proof {
                let prior = pieces(pre);
                assert(pieces(next) == prior.update(prior.len() - 1, prior.last().push(cs@[i as int])));
                assert(cs@.subrange(start as int, i + 1) =~= cs@.subrange(start as int, i as int).push(cs@[i as int]));
                assert(pieces(next) =~= pieces(cs@.subrange(0, start as int)).drop_last().push(
                    cs@.subrange(start as int, i + 1),
                ));
            }
        }
        i = i + 1;
    }
    let piece = string_of_chars(&cs, start, cs.len());
    let ghost before = views(out@);
    let keep = cs.len() > start && !(cs.len() - start == 1 && cs[start] == '.');
    proof {
        if piece@.len() == 1 {
            assert(piece@ =~= seq![cs@[start as int]]);
            assert(seq![cs@[start as int]][0] == cs@[start as int]);
            assert(seq!['.'][0] == '.');
        }
        assert(keep == is_component(piece@));
    }
    if keep {
        out.push(piece);
    }
    proof {
        reveal_with_fuel(Seq::filter, 1);
        assert(cs@.subrange(0, cs@.len() as int) =~= cs@);
        let all = pieces(cs@);
        assert(all.drop_last() =~= pieces(cs@.subrange(0, start as int)).drop_last());
        assert(all.last() == piece@);
        if keep {
            assert(views(out@) =~= before.push(piece@));
        } else {
            assert(views(out@) =~= before);
        }
    }
    out
}

/// `true` when `p` starts at the root.
pub fn path_is_absolute(p: &str) -> (r: bool)
    ensures
        r == is_absolute(p@),
{
    let cs = chars_of(p);
    cs.len() > 0 && cs[0] == '/'
}

/// `path` without the leading components of `base` (see [`strip_prefix`]).
pub fn strip_base(path: &str, base: &str) -> (r: Option<String>)
    ensures
        opt_chars(r) == strip_prefix(path@, base@),
{
    if path_is_absolute(path) != path_is_absolute(base) {
        return None;
    }
    let pc = split_components(path);
    let bc = split_components(base);
    if bc.len() > pc.len() {
        return None;
    }
    let mut i: usize = 0;
    while i < bc.len()
        invariant
            views(pc@) == components(path@),
            views(bc@) == components(base@),
            is_absolute(path@) == is_absolute(base@),
            bc@.len() <= pc@.len(),
            i <= bc@.len(),
            forall|j: int| 0 <= j < i ==> pc@[j]@ == bc@[j]@,
        decreases bc.len() - i,
    {
        if pc[i] != bc[i] {
            assert(views(pc@).subrange(0, bc@.len() as int)[i as int] != views(bc@)[i as int]);
            assert(views(pc@).subrange(0, bc@.len() as int) != views(bc@));
            return None;
        }
        i = i + 1;
    }
    assert(views(pc@).subrange(0, bc@.len() as int) =~= views(bc@));
    let n = bc.len();
    let ps = split_slashes(path);
    let ghost all = views(ps@);
    let len = ps.len();
    let mut i: usize = 0;
    let mut count: usize = 0;
    assert(all.subrange(0, len as int) =~= all);
    while count < n && i < len
        invariant
            views(ps@) == all,
            len == all.len(),
            i <= len,
            count <= n,
            skip_components(all, n as nat) == skip_components(all.subrange(i as int, len as int), (n - count) as nat),
        decreases len - i,
    {
        let ghost here = all.subrange(i as int, len as int);
        assert(here[0] == all[i as int]);
        assert(here.drop_first() =~= all.subrange(i + 1, len as int));
        if is_component_exec(&ps[i]) {
            count = count + 1;
        }
        i = i + 1;
    }
    let ghost skipped = all.subrange(i as int, len as int);
    assert(skip_components(all, n as nat) == skipped) by {
        if i == len {
            assert(skipped =~= Seq::<Seq<char>>::empty());
        }
    }
    while i < len && !is_component_exec(&ps[i])
        invariant
            views(ps@) == all,
            len == all.len(),
            i <= len,
            trim_front(skipped) == trim_front(all.subrange(i as int, len as int)),
        decreases len - i,
    {
        let ghost here = all.subrange(i as int, len as int);
        assert(here[0] == all[i as int]);
        assert(here.drop_first() =~= all.subrange(i + 1, len as int));
        i = i + 1;
    }
    let ghost front = all.subrange(i as int, len as int);
    assert(trim_front(skipped) == front) by {
        if i < len {
            assert(front[0] == all[i as int]);
        }
    }
    let mut e: usize = len;
    assert(all.subrange(i as int, e as int) == front);
    while e > i && !is_component_exec(&ps[e - 1])
        invariant
            views(ps@) == all,
            len == all.len(),
            i <= e <= len,
            trim_back(front) == trim_back(all.subrange(i as int, e as int)),
        decreases e,
    {
        let ghost here = all.subrange(i as int, e as int);
        assert(here.last() == all[e - 1]);
        assert(here.drop_last() =~= all.subrange(i as int, e - 1));
        e = e - 1;
    }
    let ghost kept = all.subrange(i as int, e as int);
    assert(trim_back(front) == kept) by {
        if e > i {
            assert(kept.last() == all[e - 1]);
        }
    }
    let mut rest: Vec<String> = Vec::new();
    let mut k: usize = i;
    while k < e
        invariant
            views(ps@) == all,
            i <= k <= e <= len,
            len == all.len(),
            views(rest@) == all.subrange(i as int, k as int),
        decreases e - k,
    {
        let ghost before = views(rest@);
        rest.push(ps[k].clone());
        assert(views(rest@) =~= before.push(all[k as int]));
        k = k + 1;
        assert(views(rest@) =~= all.subrange(i as int, k as int));
    }
    let sep = crate::text::single('/');
    Some(crate::text::join(&rest, sep.as_str()))
}

fn is_component_exec(piece: &String) -> (r: bool)
    ensures
        r == is_component(piece@),
{
    let cs = chars_of(piece.as_str());
    let r = cs.len() > 0 && !(cs.len() == 1 && cs[0] == '.');
    proof {
        if cs.len() == 1 {
            assert(seq!['.'][0] == '.');
            if cs[0] != '.' {
                assert(piece@ != seq!['.']);
            } else {
                assert(piece@ =~= seq!['.']);
            }
        }
        if cs.len() != 1 {
            assert(piece@.len() != seq!['.'].len());
        }
    }
    r
}

/// The pieces of `p` (see [`pieces`]).
fn split_slashes(p: &str) -> (out: Vec<String>)
    ensures
        views(out@) == pieces(p@),
{
    let cs = chars_of(p);
    let mut out: Vec<String> = Vec::new();
    let mut start: usize = 0;
    let mut i: usize = 0;
    assert(cs@.subrange(0, 0) =~= Seq::<char>::empty());
    assert(pieces(Seq::<char>::empty()).drop_last().push(Seq::<char>::empty()) =~= pieces(
        Seq::<char>::empty(),
    ));
    while i < cs.len()
        invariant
            cs@ == p@,
            start <= i <= cs@.len(),
            pieces(cs@.subrange(0, i as int)) == pieces(cs@.subrange(0, start as int)).drop_last().push(
                cs@.subrange(start as int, i as int),
            ),
            views(out@) == pieces(cs@.subrange(0, start as int)).drop_last(),
        decreases cs.len() - i,
    {
        let ghost pre = cs@.subrange(0, i as int);
        let ghost next = cs@.subrange(0, i + 1);
        assert(next.drop_last() =~= pre);
        assert(next.last() == cs@[i as int]);
        if cs[i] == '/' {
            let piece = string_of_chars(&cs, start, i);
            let ghost before = views(out@);
            out.push(piece);
            proof {
                assert(pieces(next) == pieces(pre).push(Seq::empty()));
                assert(pieces(next).drop_last() =~= pieces(pre));
                assert(pieces(pre).drop_last() =~= pieces(cs@.subrange(0, start as int)).drop_last());
                assert(views(out@) =~= before.push(cs@.subrange(start as int, i as int)));
                assert(views(out@) =~= pieces(pre));
                assert(cs@.subrange(i + 1, i + 1) =~= Seq::<char>::empty());
            }
            start = i + 1;
        } else {
            proof {
                let prior = pieces(pre);
                assert(pieces(next) == prior.update(prior.len() - 1, prior.last().push(cs@[i as int])));
                assert(cs@.subrange(start as int, i + 1) =~= cs@.subrange(start as int, i as int).push(cs@[i as int]));
                assert(pieces(next) =~= pieces(cs@.subrange(0, start as int)).drop_last().push(
                    cs@.subrange(start as int, i + 1),
                ));
            }
        }
        i = i + 1;
    }
    let piece = string_of_chars(&cs, start, cs.len());
    let ghost before = views(out@);
    out.push(piece);
    proof {
        assert(cs@.subrange(0, cs@.len() as int) =~= cs@);
        assert(views(out@) =~= before.push(piece@));
        assert(views(out@) =~= pieces(cs@));
    }
    out
}

/// The view of an optional string.
pub open spec fn opt_chars(o: Option<String>) -> Option<Seq<char>> {
    match o {
        Some(s) => Some(s@),
        None => None,
    }
}

/// The repo-relative form of `filename`: relative paths stay as they are;
/// an absolute path inside the working tree loses the working tree's
/// components, judged by its text first and then by `canonical`, its form
/// with symbolic links resolved; any other path stays as it is.
pub open spec fn relative_form(working_dir: Seq<char>, filename: Seq<char>, canonical: Option<Seq<char>>) -> Seq<char> {
    if !is_absolute(filename) {
        filename
    } else if strip_prefix(filename, working_dir) is Some {
        strip_prefix(filename, working_dir)->0
    } else if canonical is Some && strip_prefix(canonical->0, working_dir) is Some {
        strip_prefix(canonical->0, working_dir)->0
    } else {
        filename
    }
}

/// The repo-relative form of `filename` (see [`relative_form`]).
pub fn relative_path(working_dir: &str, filename: &str, canonical: Option<&str>) -> (out: String)
    ensures
        out@ == relative_form(working_dir@, filename@, crate::text::opt_view(canonical)),
{
    if !path_is_absolute(filename) {
        return filename.to_owned();
    }
    match strip_base(filename, working_dir) {
        Some(r) => r,
        None => match canonical {
            Some(c) => match strip_base(c, working_dir) {
                Some(r) => r,
                None => filename.to_owned(),
            },
            None => filename.to_owned(),
        },
    }
}

/// The absolute form of `filename`: absolute paths stay as they are,
/// relative ones are joined onto the working tree.
pub fn absolute_path(working_dir: &str, filename: &str) -> (out: String)
    ensures
        out@ == if is_absolute(filename@) { filename@ } else { join_path(working_dir@, filename@) },
{
    if path_is_absolute(filename) {
        filename.to_owned()
    } else {
        join(working_dir, filename)
    }
}

/// The absolute form of `filename` in the working tree `working_dir`.
pub open spec fn absolute_form(working_dir: Seq<char>, filename: Seq<char>) -> Seq<char> {
    if is_absolute(filename) { filename } else { join_path(working_dir, filename) }
}

/// The repo-relative path of `filename`, named relative to the working tree
/// or absolutely, with forward slashes; `canonical` is the absolute form
/// with symbolic links resolved, when it could be resolved.
pub fn repo_relative(working_dir: &str, filename: &str, canonical: Option<&str>) -> (out: String)
    ensures
        out@ == crate::text::slashed(
            relative_form(working_dir@, absolute_form(working_dir@, filename@), crate::text::opt_view(canonical)),
        ),
{
    let abs = absolute_path(working_dir, filename);
    let rel = relative_path(working_dir, abs.as_str(), canonical);
    crate::text::to_forward_slashes(rel.as_str())
}

/// The last component of `path`: what follows its last `/`.
pub open spec fn base_name(path: Seq<char>) -> Seq<char> {
    match last_index(path, '/') {
        Some(i) => path.subrange(i + 1, path.len() as int),
        None => path,
    }
}

/// The extension of `path`: its base name from the last `.` on, dot
/// included, when something other than dots comes before that dot; empty
/// otherwise. `a.tar.gz` has `.gz`; `.bashrc`, `a` and `dir.d/a` have
/// none.
pub open spec fn extension(path: Seq<char>) -> Seq<char> {
    let base = base_name(path);
    match last_index(base, '.') {
        Some(k) => if exists|j: int| 0 <= j < k && base[j] != '.' {
            base.subrange(k, base.len() as int)
        } else {
            Seq::empty()
        },
        None => Seq::empty(),
    }
}

/// The extension of `path` (see [`extension`]).
pub fn extension_of(path: &str) -> (ext: String)
    ensures
        ext@ == extension(path@),
{
    let cs = chars_of(path);
    let start = match find_last_char(&cs, '/') {
        Some(i) => {
            assert(i < cs.len());
            i + 1
        },
        None => 0,
    };
    let base = string_of_chars(&cs, start, cs.len());
    assert(cs@.subrange(0, cs@.len() as int) =~= cs@);
    assert(base@ == base_name(path@));
    let bs = chars_of(base.as_str());
    match find_last_char(&bs, '.') {
        Some(k) => {
            let mut j: usize = 0;
            while j < k
                invariant
                    j <= k < bs@.len(),
                    bs@ == base_name(path@),
                    last_index(bs@, '.') == Some(k as int),
                    forall|t: int| 0 <= t < j ==> bs@[t] == '.',
                decreases k - j,
            {
                if bs[j] != '.' {
                    assert(bs@[j as int] != '.');
                    return string_of_chars(&bs, k, bs.len());
                }
                j = j + 1;
            }
            String::new()
        },
        None => String::new(),
    }
}

/// `true` when the status of the file at `path` is tracked: it is in HEAD,
/// its extension is among `extensions`, or binary files are tracked and it
/// is one.
pub open spec fn tracked_file(in_head: bool, path: Seq<char>, extensions: Seq<Seq<char>>, track_binaries: bool, binary: bool) -> bool {
    in_head || extensions.contains(extension(path)) || (track_binaries && binary)
}

/// Whether the status of the file at `path` is tracked under `config`
/// (see [`tracked_file`]); `binary` tells whether the file looks binary.
pub fn is_tracked(in_head: bool, path: &str, config: &Config, binary: bool) -> (r: bool)
    ensures
        r == tracked_file(in_head, path@, views(config.tracked_extensions@), config.track_binaries, binary),
{
    if in_head || (config.track_binaries && binary) {
        return true;
    }
    let ext = extension_of(path);
    let found = crate::text::contains_str(&config.tracked_extensions, ext.as_str());
    proof {
        let exts = views(config.tracked_extensions@);
        if found {
            let j = choose|j: int| 0 <= j < config.tracked_extensions@.len() && #[trigger] config.tracked_extensions@[j]@ == ext@;
            assert(exts[j] == ext@);
        }
        if exts.contains(ext@) {
            let j = choose|j: int| 0 <= j < exts.len() && exts[j] == ext@;
            assert(config.tracked_extensions@[j]@ == ext@);
        }
    }
    found
}

/// `true` when a file whose first bytes are `head` looks binary: they hold
/// a zero byte, as git judges it.
pub fn looks_binary(head: &Vec<u8>) -> (r: bool)
    ensures
        r == head@.contains(0u8),
{
    let mut i: usize = 0;
    while i < head.len()
        invariant
            i <= head@.len(),
            forall|j: int| 0 <= j < i ==> head@[j] != 0u8,
        decreases head.len() - i,
    {
        if head[i] == 0 {
            assert(head@[i as int] == 0u8);
            return true;
        }
        i = i + 1;
    }
    false
}

/// `p` cut at its `/`s, then joined back with `/`, is `p` again; and it has
/// at least one piece.
proof fn lemma_joined_pieces(p: Seq<char>)
    ensures
        pieces(p).len() >= 1,
        joined(pieces(p), seq!['/']) == p,
    decreases p.len(),
{
    if p.len() > 0 {
        let d = p.drop_last();
        lemma_joined_pieces(d);
        let prior = pieces(d);
        let c = p.last();
        assert(d.push(c) =~= p);
        if c == '/' {
            assert(pieces(p) == prior.push(Seq::empty()));
            assert(prior.push(Seq::<char>::empty()).drop_last() =~= prior);
            assert(joined(pieces(p), seq!['/']) =~= d + seq!['/'] + Seq::<char>::empty());
        } else {
            let now = prior.update(prior.len() - 1, prior.last().push(c));
            assert(pieces(p) == now);
            if prior.len() == 1 {
                assert(joined(prior, seq!['/']) == prior[0]);
                assert(joined(now, seq!['/']) == now[0]);
            } else {
                assert(now.drop_last() =~= prior.drop_last());
                assert(joined(now, seq!['/']) == joined(prior.drop_last(), seq!['/']) + seq!['/'] + now.last());
                assert(joined(prior, seq!['/']) == joined(prior.drop_last(), seq!['/']) + seq!['/'] + prior.last());
                assert(joined(now, seq!['/']) =~= joined(prior, seq!['/']).push(c));
            }
        }
    }
}

/// The pieces of `a/b` are those of `a` followed by those of `b`.
proof fn lemma_pieces_concat(a: Seq<char>, b: Seq<char>)
    ensures
        pieces(a + seq!['/'] + b) == pieces(a) + pieces(b),
    decreases b.len(),
{
    let t = a + seq!['/'] + b;
    if b.len() == 0 {
        assert(t.drop_last() =~= a);
        assert(pieces(a).push(Seq::<char>::empty()) =~= pieces(a) + seq![Seq::<char>::empty()]);
    } else {
        let bd = b.drop_last();
        lemma_pieces_concat(a, bd);
        lemma_joined_pieces(bd);
        assert(t.drop_last() =~= a + seq!['/'] + bd);
        assert(t.last() == b.last());
        let pa = pieces(a);
        let pb = pieces(bd);
        if b.last() == '/' {
            assert((pa + pb).push(Seq::<char>::empty()) =~= pa + pb.push(Seq::<char>::empty()));
        } else {
            let prior = pa + pb;
            assert(prior.last() == pb.last());
            assert(prior.update(prior.len() - 1, prior.last().push(b.last())) =~= pa + pb.update(
                pb.len() - 1,
                pb.last().push(b.last()),
            ));
        }
    }
}

proof fn lemma_filter_keeps_all(s: Seq<Seq<char>>)
    requires
        forall|k: int| 0 <= k < s.len() ==> is_component(#[trigger] s[k]),
    ensures
        s.filter(|piece: Seq<char>| is_component(piece)) == s,
    decreases s.len(),
{
    reveal_with_fuel(Seq::filter, 1);
    if s.len() > 0 {
        lemma_filter_keeps_all(s.drop_last());
        assert(s.drop_last().push(s.last()) =~= s);
    }
}

/// How many of the pieces `ps` are components.
pub open spec fn count_named(ps: Seq<Seq<char>>) -> nat {
    ps.filter(|piece: Seq<char>| is_component(piece)).len()
}

/// Skipping the components of `a` in `a + b` leaves what follows the last
/// of them in `a`, none of it a component, followed by `b`.
proof fn lemma_skip_concat(a: Seq<Seq<char>>, b: Seq<Seq<char>>)
    ensures
        skip_components(a + b, count_named(a))
            == skip_components(a, count_named(a)) + b,
        forall|k: int| 0 <= k < skip_components(a, count_named(a)).len()
            ==> !is_component(#[trigger] skip_components(a, count_named(a))[k]),
    decreases a.len(),
{
    let keep = |piece: Seq<char>| is_component(piece);
    let n = a.filter(keep).len();
    if a.len() == 0 {
        assert(a + b =~= b);
    } else {
        let t = a.drop_first();
        assert(a =~= seq![a[0]] + t);
        Seq::filter_distributes_over_add(seq![a[0]], t, keep);
        reveal_with_fuel(Seq::filter, 2);
        assert((a + b).drop_first() =~= t + b);
        assert((a + b)[0] == a[0]);
        if n == 0 {
            assert forall|k: int| 0 <= k < a.len() implies !is_component(#[trigger] a[k]) by {
                if is_component(a[k]) {
                    a.lemma_filter_contains(keep, k);
                }
            }
        } else {
            lemma_skip_concat(t, b);
            if is_component(a[0]) {
                assert(seq![a[0]].filter(keep) =~= seq![a[0]]);
                assert(t.filter(keep).len() == n - 1);
            } else {
                assert(seq![a[0]].filter(keep) =~= Seq::<Seq<char>>::empty());
                assert(t.filter(keep).len() == n);
            }
        }
    }
}

proof fn lemma_trim_front_junk(t: Seq<Seq<char>>, b: Seq<Seq<char>>)
    requires
        forall|k: int| 0 <= k < t.len() ==> !is_component(#[trigger] t[k]),
        b.len() > 0,
        is_component(b[0]),
    ensures
        trim_front(t + b) == b,
    decreases t.len(),
{
    if t.len() > 0 {
        assert((t + b).drop_first() =~= t.drop_first() + b);
        assert((t + b)[0] == t[0]);
        lemma_trim_front_junk(t.drop_first(), b);
    } else {
        assert(t + b =~= b);
    }
}

/// A relative path made of named components comes back from its absolute
/// form in the working tree unchanged: the repo-relative form of
/// `absolute_form(working_dir, p)` is `p`.
pub proof fn law_relative_of_absolute_is_identity(working_dir: Seq<char>, p: Seq<char>)
    requires
        is_absolute(working_dir),
        forall|k: int| 0 <= k < pieces(p).len() ==> is_component(#[trigger] pieces(p)[k]),
    ensures
        relative_form(working_dir, absolute_form(working_dir, p), None) == p,
{
    let keep = |piece: Seq<char>| is_component(piece);
    lemma_joined_pieces(p);
    assert(!is_absolute(p)) by {
        if is_absolute(p) {
            lemma_pieces_concat(Seq::empty(), p.drop_first());
            assert(seq!['/'] + p.drop_first() =~= Seq::<char>::empty() + seq!['/'] + p.drop_first());
            assert(p =~= seq!['/'] + p.drop_first());
            assert(pieces(Seq::<char>::empty()) == seq![Seq::<char>::empty()]);
            assert(pieces(p)[0] == Seq::<char>::empty());
            assert(!is_component(pieces(p)[0]));
        }
    }
    lemma_filter_keeps_all(pieces(p));
    let q = join_path(working_dir, p);
    assert(absolute_form(working_dir, p) == q);
    if working_dir.last() == '/' {
        let w = working_dir.drop_last();
        assert(working_dir =~= w + seq!['/'] + Seq::<char>::empty());
        assert(q =~= w + seq!['/'] + p);
        lemma_pieces_concat(w, Seq::empty());
        lemma_pieces_concat(w, p);
        assert(pieces(Seq::<char>::empty()) == seq![Seq::<char>::empty()]);
        Seq::filter_distributes_over_add(pieces(w), pieces(Seq::<char>::empty()), keep);
        Seq::filter_distributes_over_add(pieces(w), pieces(p), keep);
        reveal_with_fuel(Seq::filter, 2);
        assert(seq![Seq::<char>::empty()].filter(keep) =~= Seq::<Seq<char>>::empty());
        assert(components(working_dir) =~= pieces(w).filter(keep));
        assert(components(q) =~= components(working_dir) + pieces(p));
    } else {
        assert(q =~= working_dir + seq!['/'] + p);
        lemma_pieces_concat(working_dir, p);
        Seq::filter_distributes_over_add(pieces(working_dir), pieces(p), keep);
        assert(components(q) =~= components(working_dir) + pieces(p));
    }
    assert(q[0] == '/');
    let bc = components(working_dir);
    let pc = components(q);
    assert(pc.subrange(0, bc.len() as int) =~= bc);
    let a = if working_dir.last() == '/' { working_dir.drop_last() } else { working_dir };
    assert(pieces(q) == pieces(a) + pieces(p));
    assert(bc == pieces(a).filter(keep));
    lemma_skip_concat(pieces(a), pieces(p));
    let junk = skip_components(pieces(a), bc.len());
    assert(pieces(p)[0] == pieces(p)[0]);
    lemma_trim_front_junk(junk, pieces(p));
    let last = pieces(p).len() - 1;
    assert(is_component(pieces(p)[last]));
    assert(trim_back(pieces(p)) == pieces(p));
}

proof fn lemma_pieces_no_slash(s: Seq<char>)
    ensures
        forall|k: int| 0 <= k < pieces(s).len() ==> !(#[trigger] pieces(s)[k]).contains('/'),
    decreases s.len(),
{
    if s.len() > 0 {
        let d = s.drop_last();
        lemma_pieces_no_slash(d);
        lemma_joined_pieces(d);
        let prior = pieces(d);
        let c = s.last();
        assert(d.push(c) =~= s);
        if c == '/' {
            assert(pieces(s) == prior.push(Seq::empty()));
            assert forall|k: int| 0 <= k < pieces(s).len() implies !(#[trigger] pieces(s)[k]).contains('/') by {
                if k < prior.len() {
                    assert(pieces(s)[k] == prior[k]);
                }
            }
        } else {
            let last = prior[prior.len() - 1];
            let x = last.push(c);
            assert(pieces(s) == prior.update(prior.len() - 1, x));
            assert(!x.contains('/')) by {
                if x.contains('/') {
                    let i = choose|i: int| 0 <= i < x.len() && x[i] == '/';
                    if i < last.len() {
                        assert(last[i] == '/');
                        assert(last.contains('/'));
                    }
                }
            }
            assert forall|k: int| 0 <= k < pieces(s).len() implies !(#[trigger] pieces(s)[k]).contains('/') by {
                if k < prior.len() - 1 {
                    assert(pieces(s)[k] == prior[k]);
                }
            }
        }
    } else {
        assert(pieces(s) == seq![Seq::<char>::empty()]);
        assert forall|k: int| 0 <= k < pieces(s).len() implies !(#[trigger] pieces(s)[k]).contains('/') by {
            assert(pieces(s)[k] == Seq::<char>::empty());
        }
    }
}

proof fn lemma_single_piece(x: Seq<char>)
    requires
        !x.contains('/'),
    ensures
        pieces(x) == seq![x],
    decreases x.len(),
{
    if x.len() > 0 {
        let d = x.drop_last();
        assert(!d.contains('/')) by {
            if d.contains('/') {
                let i = choose|i: int| 0 <= i < d.len() && d[i] == '/';
                assert(x[i] == '/');
            }
        }
        lemma_single_piece(d);
        assert(x.last() != '/') by {
            assert(x[x.len() - 1] == x.last());
        }
        assert(d.push(x.last()) =~= x);
        assert(seq![d].update(0, d.push(x.last())) =~= seq![x]);
    } else {
        assert(x =~= Seq::<char>::empty());
    }
}

proof fn lemma_pieces_joined(xs: Seq<Seq<char>>)
    requires
        xs.len() > 0,
        forall|k: int| 0 <= k < xs.len() ==> !(#[trigger] xs[k]).contains('/'),
    ensures
        pieces(joined(xs, seq!['/'])) == xs,
    decreases xs.len(),
{
    if xs.len() == 1 {
        lemma_single_piece(xs[0]);
        assert(seq![xs[0]] =~= xs);
    } else {
        let d = xs.drop_last();
        lemma_pieces_joined(d);
        lemma_single_piece(xs.last());
        assert(xs[xs.len() - 1] == xs.last());
        lemma_pieces_concat(joined(d, seq!['/']), xs.last());
        assert(joined(d, seq!['/']) + seq!['/'] + xs.last() == joined(xs, seq!['/']));
        assert(d + seq![xs.last()] =~= xs);
    }
}

proof fn lemma_filter_junk(t: Seq<Seq<char>>)
    requires
        forall|k: int| 0 <= k < t.len() ==> !is_component(#[trigger] t[k]),
    ensures
        count_named(t) == 0,
        t.filter(|piece: Seq<char>| is_component(piece)) == Seq::<Seq<char>>::empty(),
    decreases t.len(),
{
    reveal_with_fuel(Seq::filter, 1);
    if t.len() > 0 {
        lemma_filter_junk(t.drop_last());
        assert(!is_component(t[t.len() - 1]));
    }
    assert(t.filter(|piece: Seq<char>| is_component(piece)) =~= Seq::<Seq<char>>::empty());
}

proof fn lemma_trim_front_keeps(y: Seq<Seq<char>>)
    ensures
        trim_front(y).len() <= y.len(),
        trim_front(y) == y.subrange(y.len() - trim_front(y).len(), y.len() as int),
        trim_front(y).filter(|piece: Seq<char>| is_component(piece)) == y.filter(|piece: Seq<char>| is_component(piece)),
    decreases y.len(),
{
    let keep = |piece: Seq<char>| is_component(piece);
    if y.len() > 0 && !is_component(y[0]) {
        let t = y.drop_first();
        lemma_trim_front_keeps(t);
        assert(y =~= seq![y[0]] + t);
        Seq::filter_distributes_over_add(seq![y[0]], t, keep);
        reveal_with_fuel(Seq::filter, 2);
        assert(seq![y[0]].filter(keep) =~= Seq::<Seq<char>>::empty());
        assert(seq![y[0]].filter(keep) + t.filter(keep) =~= t.filter(keep));
        assert(t.subrange(t.len() - trim_front(t).len(), t.len() as int) =~= y.subrange(
            y.len() - trim_front(t).len(),
            y.len() as int,
        ));
    } else {
        assert(y.subrange(0, y.len() as int) =~= y);
    }
}

proof fn lemma_trim_back_keeps(y: Seq<Seq<char>>)
    ensures
        trim_back(y).len() <= y.len(),
        trim_back(y) == y.subrange(0, trim_back(y).len() as int),
        trim_back(y).filter(|piece: Seq<char>| is_component(piece)) == y.filter(|piece: Seq<char>| is_component(piece)),
    decreases y.len(),
{
    reveal_with_fuel(Seq::filter, 1);
    if y.len() > 0 && !is_component(y.last()) {
        let t = y.drop_last();
        lemma_trim_back_keeps(t);
        assert(t.subrange(0, trim_back(t).len() as int) =~= y.subrange(0, trim_back(t).len() as int));
    } else {
        assert(y.subrange(0, y.len() as int) =~= y);
    }
}

/// Any relative path keeps its components through its absolute form in the
/// working tree and back: the repo-relative form of
/// `absolute_form(working_dir, p)` names the components of `p`.
pub proof fn law_relative_of_absolute_keeps_components(working_dir: Seq<char>, p: Seq<char>)
    requires
        is_absolute(working_dir),
        !is_absolute(p),
    ensures
        components(relative_form(working_dir, absolute_form(working_dir, p), None)) == components(p),
{
    let keep = |piece: Seq<char>| is_component(piece);
    let q = join_path(working_dir, p);
    assert(absolute_form(working_dir, p) == q);
    let a = if working_dir.last() == '/' { working_dir.drop_last() } else { working_dir };
    if working_dir.last() == '/' {
        assert(working_dir =~= a + seq!['/'] + Seq::<char>::empty());
        assert(q =~= a + seq!['/'] + p);
        lemma_pieces_concat(a, Seq::empty());
        assert(pieces(Seq::<char>::empty()) == seq![Seq::<char>::empty()]);
        Seq::filter_distributes_over_add(pieces(a), pieces(Seq::<char>::empty()), keep);
        reveal_with_fuel(Seq::filter, 2);
        assert(seq![Seq::<char>::empty()].filter(keep) =~= Seq::<Seq<char>>::empty());
        assert(components(working_dir) =~= pieces(a).filter(keep));
    } else {
        assert(q =~= a + seq!['/'] + p);
    }
    lemma_pieces_concat(a, p);
    Seq::filter_distributes_over_add(pieces(a), pieces(p), keep);
    assert(components(q) =~= components(working_dir) + components(p));
    assert(q[0] == '/');
    let bc = components(working_dir);
    let pc = components(q);
    assert(pc.subrange(0, bc.len() as int) =~= bc);
    lemma_skip_concat(pieces(a), pieces(p));
    let junk = skip_components(pieces(a), count_named(pieces(a)));
    let y = junk + pieces(p);
    assert(skip_components(pieces(q), bc.len()) == y);
    lemma_filter_junk(junk);
    Seq::filter_distributes_over_add(junk, pieces(p), keep);
    assert(y.filter(keep) =~= components(p));
    lemma_trim_front_keeps(y);
    let f = trim_front(y);
    lemma_trim_back_keeps(f);
    let r = trim_back(f);
    assert(r.filter(keep) == components(p));
    lemma_pieces_no_slash(q);
    assert forall|k: int| 0 <= k < r.len() implies !(#[trigger] r[k]).contains('/') by {
        assert(r[k] == f.subrange(0, r.len() as int)[k]);
        assert(r[k] == f[k]);
        assert(f[k] == y.subrange(y.len() - f.len(), y.len() as int)[k]);
        assert(f[k] == y[y.len() - f.len() + k]);
        let m = y.len() - f.len() + k;
        if m < junk.len() {
            assert(y[m] == junk[m]);
            assert(skip_components(pieces(a), count_named(pieces(a))) + pieces(p) == skip_components(pieces(q), bc.len()));
        }
        lemma_pieces_no_slash(a);
        lemma_pieces_no_slash(p);
        lemma_skip_is_suffix(pieces(a), count_named(pieces(a)));
        if m < junk.len() {
            let off = pieces(a).len() - junk.len();
            assert(junk[m] == pieces(a)[off + m]);
        } else {
            assert(y[m] == pieces(p)[m - junk.len()]);
        }
    }
    let text = joined(r, seq!['/']);
    assert(relative_form(working_dir, q, None) == text);
    if r.len() > 0 {
        lemma_pieces_joined(r);
    } else {
        assert(text == Seq::<char>::empty());
        assert(pieces(Seq::<char>::empty()) == seq![Seq::<char>::empty()]);
        reveal_with_fuel(Seq::filter, 2);
        assert(seq![Seq::<char>::empty()].filter(keep) =~= Seq::<Seq<char>>::empty());
        assert(r.filter(keep) =~= Seq::<Seq<char>>::empty());
    }
}

proof fn lemma_skip_is_suffix(ps: Seq<Seq<char>>, n: nat)
    ensures
        skip_components(ps, n).len() <= ps.len(),
        skip_components(ps, n) == ps.subrange(ps.len() - skip_components(ps, n).len(), ps.len() as int),
    decreases ps.len(),
{
    if n == 0 || ps.len() == 0 {
        assert(ps.subrange(0, ps.len() as int) =~= ps);
    } else {
        let t = ps.drop_first();
        let m: nat = if is_component(ps[0]) { (n - 1) as nat } else { n };
        lemma_skip_is_suffix(t, m);
        assert(t.subrange(t.len() - skip_components(t, m).len(), t.len() as int) =~= ps.subrange(
            ps.len() - skip_components(t, m).len(),
            ps.len() as int,
        ));
    }
}

} // verus!

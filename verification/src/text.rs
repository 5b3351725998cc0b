//! String building blocks shared by the rest of the crate.
use vstd::prelude::*;
use vstd::string::StringExecFns;

verus! {

/// `String::push` appends one character at the end of the string.
pub assume_specification[ String::push ](string: &mut String, ch: char)
    ensures
        final(string)@ == old(string)@.push(ch),
;

/// Append `tail` to `s`.
pub fn push_str(s: &mut String, tail: &str)
    ensures
        final(s)@ == old(s)@ + tail@,
{
    s.append(tail);
}

/// The characters of `s`, in order.
pub fn chars_of(s: &str) -> (out: Vec<char>)
    ensures
        out@ == s@,
{
    let mut out: Vec<char> = Vec::new();
    for c in it: s.chars()
        invariant
            out@ == it.seq().subrange(0, it.index() as int),
    {
        out.push(c);
    }
    out
}

/// A string holding exactly the characters `cs[from..to]`.
pub fn string_of_chars(cs: &Vec<char>, from: usize, to: usize) -> (out: String)
    requires
        from <= to <= cs@.len(),
    ensures
        out@ == cs@.subrange(from as int, to as int),
{
    let mut out = String::new();
    let mut i = from;
    while i < to
        invariant
            from <= i <= to <= cs@.len(),
            out@ == cs@.subrange(from as int, i as int),
        decreases to - i,
    {
        out.push(cs[i]);
        i = i + 1;
        assert(out@ =~= cs@.subrange(from as int, i as int));
    }
    out
}

/// `true` when some element of `v` reads `s`.
pub open spec fn seq_has(v: Seq<String>, s: Seq<char>) -> bool {
    exists|i: int| 0 <= i < v.len() && #[trigger] v[i]@ == s
}

/// The view of an optional string slice.
pub open spec fn opt_view(o: Option<&str>) -> Option<Seq<char>> {
    match o {
        Some(s) => Some(s@),
        None => None,
    }
}

/// The view of an optional string.
pub open spec fn opt_string_view(o: Option<String>) -> Option<Seq<char>> {
    match o {
        Some(s) => Some(s@),
        None => None,
    }
}

/// `true` when `o` holds a string reading `s`.
pub open spec fn opt_is(o: Option<String>, s: Seq<char>) -> bool {
    o is Some && o->0@ == s
}

/// Equality of two character vectors.
pub fn chars_eq(a: &Vec<char>, b: &Vec<char>) -> (r: bool)
    ensures
        r == (a@ == b@),
{
    if a.len() != b.len() {
        return false;
    }
    let mut i: usize = 0;
    while i < a.len()
        invariant
            a@.len() == b@.len(),
            i <= a@.len(),
            forall|j: int| 0 <= j < i ==> a@[j] == b@[j],
        decreases a.len() - i,
    {
        if a[i] != b[i] {
            return false;
        }
        i = i + 1;
    }
    assert(a@ =~= b@);
    true
}

/// Equality of two string slices.
pub fn eq_str(a: &str, b: &str) -> (r: bool)
    ensures
        r == (a@ == b@),
{
    let ca = chars_of(a);
    let cb = chars_of(b);
    chars_eq(&ca, &cb)
}

/// `true` when some element of `v` reads `s`.
pub fn contains_str(v: &Vec<String>, s: &str) -> (r: bool)
    ensures
        r == seq_has(v@, s@),
{
    let target = chars_of(s);
    let mut i: usize = 0;
    while i < v.len()
        invariant
            target@ == s@,
            i <= v@.len(),
            forall|j: int| 0 <= j < i ==> #[trigger] v@[j]@ != s@,
        decreases v.len() - i,
    {
        let here = chars_of(v[i].as_str());
        if chars_eq(&here, &target) {
            assert(v@[i as int]@ == s@);
            return true;
        }
        i = i + 1;
    }
    false
}

/// `true` when `o` holds a string equal to `s`.
pub fn opt_eq(o: &Option<String>, s: &String) -> (r: bool)
    ensures
        r == opt_is(*o, s@),
{
    match o {
        Some(x) => *x == *s,
        None => false,
    }
}

/// A copy of `o`.
pub fn copy_opt(o: &Option<String>) -> (r: Option<String>)
    ensures
        r == *o,
{
    match o {
        Some(x) => Some(x.clone()),
        None => None,
    }
}

/// A copy of `v`.
pub fn copy_strings(v: &Vec<String>) -> (r: Vec<String>)
    ensures
        r@ == v@,
{
    let mut r: Vec<String> = Vec::new();
    let mut i: usize = 0;
    while i < v.len()
        invariant
            i <= v@.len(),
            r@ == v@.subrange(0, i as int),
        decreases v.len() - i,
    {
        r.push(v[i].clone());
        i = i + 1;
        assert(r@ =~= v@.subrange(0, i as int));
    }
    assert(r@ =~= v@);
    r
}

/// The views of a sequence of strings.
pub open spec fn views(v: Seq<String>) -> Seq<Seq<char>> {
    v.map_values(|s: String| s@)
}

/// `items` joined by `sep`.
pub open spec fn joined(items: Seq<Seq<char>>, sep: Seq<char>) -> Seq<char>
    decreases items.len(),
{
    if items.len() == 0 {
        Seq::empty()
    } else if items.len() == 1 {
        items[0]
    } else {
        joined(items.drop_last(), sep) + sep + items.last()
    }
}

/// Lexicographic order of character sequences, by code point.
pub open spec fn chars_le(a: Seq<char>, b: Seq<char>) -> bool
    decreases a.len(),
{
    if a.len() == 0 {
        true
    } else if b.len() == 0 {
        false
    } else if a[0] < b[0] {
        true
    } else if a[0] > b[0] {
        false
    } else {
        chars_le(a.drop_first(), b.drop_first())
    }
}

/// Order of optional strings: absent first, then by [`chars_le`].
pub open spec fn opt_le(a: Option<Seq<char>>, b: Option<Seq<char>>) -> bool {
    match (a, b) {
        (None, _) => true,
        (Some(_), None) => false,
        (Some(x), Some(y)) => chars_le(x, y),
    }
}

/// `items` joined by `sep`.
pub fn join(items: &Vec<String>, sep: &str) -> (out: String)
    ensures
        out@ == joined(views(items@), sep@),
{
    let mut out = String::new();
    let mut i: usize = 0;
    while i < items.len()
        invariant
            i <= items@.len(),
            out@ == joined(views(items@.subrange(0, i as int)), sep@),
        decreases items.len() - i,
    {
        let ghost before = items@.subrange(0, i as int);
        if i != 0 {
            push_str(&mut out, sep);
        }
        push_str(&mut out, items[i].as_str());
        i = i + 1;
        proof {
            let now = items@.subrange(0, i as int);
            assert(views(now).drop_last() =~= views(before));
            assert(views(now).last() == items@[i - 1]@);
            if i == 1 {
                assert(views(now) =~= seq![items@[0]@]);
            }
        }
    }
    assert(items@.subrange(0, items@.len() as int) =~= items@);
    out
}

/// [`chars_le`] on character vectors.
pub fn chars_le_exec(a: &Vec<char>, b: &Vec<char>) -> (r: bool)
    ensures
        r == chars_le(a@, b@),
{
    let mut i: usize = 0;
    assert(a@.skip(0) =~= a@);
    assert(b@.skip(0) =~= b@);
    while i < a.len()
        invariant
            i <= a@.len(),
            i <= b@.len(),
            a@.subrange(0, i as int) == b@.subrange(0, i as int),
            chars_le(a@, b@) == chars_le(a@.skip(i as int), b@.skip(i as int)),
        decreases a.len() - i,
    {
        if i >= b.len() {
            return false;
        }
        let x = a[i];
        let y = b[i];
        assert(a@.skip(i as int)[0] == x && b@.skip(i as int)[0] == y);
        if x < y {
            return true;
        }
        if x > y {
            return false;
        }
        proof {
            assert(a@.skip(i as int).drop_first() =~= a@.skip(i + 1));
            assert(b@.skip(i as int).drop_first() =~= b@.skip(i + 1));
            assert(a@.subrange(0, i + 1) =~= a@.subrange(0, i as int).push(x));
            assert(b@.subrange(0, i + 1) =~= b@.subrange(0, i as int).push(y));
        }
        i = i + 1;
    }
    true
}

/// [`opt_le`] on optional strings.
pub fn opt_le_exec(a: &Option<String>, b: &Option<String>) -> (r: bool)
    ensures
        r == opt_le(opt_string_view(*a), opt_string_view(*b)),
{
    match (a, b) {
        (None, _) => true,
        (Some(_), None) => false,
        (Some(x), Some(y)) => {
            let cx = chars_of(x.as_str());
            let cy = chars_of(y.as_str());
            chars_le_exec(&cx, &cy)
        },
    }
}

/// A one-character string.
pub fn single(c: char) -> (out: String)
    ensures
        out@ == seq![c],
{
    let mut out = String::new();
    out.push(c);
    assert(out@ =~= seq![c]);
    out
}

/// [`chars_le`] is reflexive.
pub proof fn lemma_chars_le_refl(a: Seq<char>)
    ensures
        chars_le(a, a),
    decreases a.len(),
{
    if a.len() > 0 {
        lemma_chars_le_refl(a.drop_first());
    }
}

/// [`chars_le`] is total.
pub proof fn lemma_chars_le_total(a: Seq<char>, b: Seq<char>)
    ensures
        chars_le(a, b) || chars_le(b, a),
    decreases a.len(),
{
    if a.len() > 0 && b.len() > 0 && a[0] == b[0] {
        lemma_chars_le_total(a.drop_first(), b.drop_first());
    }
}

/// [`chars_le`] is transitive.
pub proof fn lemma_chars_le_trans(a: Seq<char>, b: Seq<char>, c: Seq<char>)
    requires
        chars_le(a, b),
        chars_le(b, c),
    ensures
        chars_le(a, c),
    decreases a.len(),
{
    if a.len() > 0 && b.len() > 0 && c.len() > 0 && a[0] == b[0] && b[0] == c[0] {
        lemma_chars_le_trans(a.drop_first(), b.drop_first(), c.drop_first());
    }
}

/// [`opt_le`] is a total preorder: reflexive, total and transitive.
pub proof fn lemma_opt_le_total_preorder(a: Option<Seq<char>>, b: Option<Seq<char>>, c: Option<Seq<char>>)
    ensures
        opt_le(a, a),
        opt_le(a, b) || opt_le(b, a),
        opt_le(a, b) && opt_le(b, c) ==> opt_le(a, c),
{
    if let Some(x) = a {
        lemma_chars_le_refl(x);
        if let Some(y) = b {
            lemma_chars_le_total(x, y);
            if let Some(z) = c {
                if chars_le(x, y) && chars_le(y, z) {
                    lemma_chars_le_trans(x, y, z);
                }
            }
        }
    }
}

/// `true` when the sequence is in [`chars_le`] order.
pub open spec fn chars_sorted(s: Seq<Seq<char>>) -> bool {
    forall|i: int, j: int| 0 <= i < j < s.len() ==> chars_le(#[trigger] s[i], #[trigger] s[j])
}

/// `true` when the sequence is in strictly increasing [`chars_le`] order.
pub open spec fn chars_strictly_sorted(s: Seq<Seq<char>>) -> bool {
    forall|i: int, j: int|
        0 <= i < j < s.len() ==> chars_le(#[trigger] s[i], #[trigger] s[j]) && s[i] != s[j]
}

proof fn lemma_insert_multiset(s: Seq<Seq<char>>, k: int, x: Seq<char>)
    requires
        0 <= k <= s.len(),
    ensures
        s.insert(k, x).to_multiset() =~= s.to_multiset().insert(x),
{
    let a = s.subrange(0, k);
    let b = s.subrange(k, s.len() as int);
    assert(s =~= a + b);
    assert(s.insert(k, x) =~= a + (seq![x] + b));
    vstd::seq_lib::lemma_multiset_commutative(a, seq![x] + b);
    vstd::seq_lib::lemma_multiset_commutative(seq![x], b);
    vstd::seq_lib::lemma_multiset_commutative(a, b);
    broadcast use vstd::seq_lib::group_to_multiset_ensures;
    assert(seq![x] =~= Seq::<Seq<char>>::empty().push(x));
}

/// The first index of the sorted `v` holding a string strictly after `x`,
/// or the end.
fn upper_bound(v: &Vec<String>, x: &Vec<char>) -> (k: usize)
    requires
        chars_sorted(views(v@)),
    ensures
        k <= v@.len(),
        forall|j: int| 0 <= j < k ==> chars_le(#[trigger] views(v@)[j], x@),
        k < v@.len() ==> !chars_le(views(v@)[k as int], x@),
{
    let mut k: usize = 0;
    while k < v.len()
        invariant
            k <= v@.len(),
            forall|j: int| 0 <= j < k ==> chars_le(#[trigger] views(v@)[j], x@),
        ensures
            k <= v@.len(),
            forall|j: int| 0 <= j < k ==> chars_le(#[trigger] views(v@)[j], x@),
            k < v@.len() ==> !chars_le(views(v@)[k as int], x@),
        decreases v.len() - k,
    {
        let here = chars_of(v[k].as_str());
        if !chars_le_exec(&here, x) {
            break;
        }
        k = k + 1;
    }
    k
}

proof fn lemma_sorted_after_insert(s: Seq<Seq<char>>, k: int, x: Seq<char>)
    requires
        chars_sorted(s),
        0 <= k <= s.len(),
        forall|j: int| 0 <= j < k ==> chars_le(#[trigger] s[j], x),
        k < s.len() ==> !chars_le(s[k], x),
    ensures
        chars_sorted(s.insert(k, x)),
{
    let t = s.insert(k, x);
    assert forall|i: int, j: int| 0 <= i < j < t.len() implies chars_le(#[trigger] t[i], #[trigger] t[j]) by {
        if i < k && j == k {
        } else if i == k {
            lemma_chars_le_total(s[k], x);
            if j > k + 1 {
                lemma_chars_le_trans(x, s[k], s[j - 1]);
            }
        } else if i < k && j > k {
            assert(chars_le(s[i], s[j - 1]));
        } else if i > k {
            assert(chars_le(s[i - 1], s[j - 1]));
        }
    }
}

/// `v` sorted in [`chars_le`] order.
pub fn sort_strings(v: Vec<String>) -> (out: Vec<String>)
    ensures
        chars_sorted(views(out@)),
        views(out@).to_multiset() == views(v@).to_multiset(),
{
    let mut out: Vec<String> = Vec::new();
    let mut i: usize = 0;
    broadcast use vstd::seq_lib::group_to_multiset_ensures;
    while i < v.len()
        invariant
            i <= v@.len(),
            chars_sorted(views(out@)),
            views(out@).to_multiset() == views(v@.subrange(0, i as int)).to_multiset(),
        decreases v.len() - i,
    {
        let x = chars_of(v[i].as_str());
        let k = upper_bound(&out, &x);
        let ghost before = views(out@);
        out.insert(k, v[i].clone());
        proof {
            assert(views(out@) =~= before.insert(k as int, x@));
            lemma_sorted_after_insert(before, k as int, x@);
            lemma_insert_multiset(before, k as int, x@);
            assert(views(v@.subrange(0, i + 1)) =~= views(v@.subrange(0, i as int)).push(x@));
            vstd::seq_lib::to_multiset_build(views(v@.subrange(0, i as int)), x@);
        }
        i = i + 1;
    }
    assert(v@.subrange(0, v@.len() as int) =~= v@);
    out
}

/// [`chars_le`] is antisymmetric.
pub proof fn lemma_chars_le_antisym(a: Seq<char>, b: Seq<char>)
    requires
        chars_le(a, b),
        chars_le(b, a),
    ensures
        a == b,
    decreases a.len(),
{
    if a.len() > 0 && b.len() > 0 {
        lemma_chars_le_antisym(a.drop_first(), b.drop_first());
        assert(a =~= seq![a[0]] + a.drop_first());
        assert(b =~= seq![b[0]] + b.drop_first());
    }
}

/// `s` with every backslash turned into a forward slash.
pub open spec fn slashed(s: Seq<char>) -> Seq<char> {
    s.map_values(|c: char| if c == '\\' { '/' } else { c })
}

/// `s` with every backslash turned into a forward slash.
pub fn to_forward_slashes(s: &str) -> (out: String)
    ensures
        out@ == slashed(s@),
{
    let cs = chars_of(s);
    let mut out = String::new();
    let mut i: usize = 0;
    while i < cs.len()
        invariant
            cs@ == s@,
            i <= cs@.len(),
            out@ == slashed(cs@.subrange(0, i as int)),
        decreases cs.len() - i,
    {
        let c = cs[i];
        if c == '\\' {
            out.push('/');
        } else {
            out.push(c);
        }
        i = i + 1;
        assert(out@ =~= slashed(cs@.subrange(0, i as int)));
    }
    assert(cs@.subrange(0, cs@.len() as int) =~= cs@);
    out
}

/// The strings of `raw`, each once, in [`chars_le`] order.
pub fn sorted_unique(raw: Vec<String>) -> (out: Vec<String>)
    ensures
        chars_strictly_sorted(views(out@)),
        forall|p: Seq<char>| #![trigger views(out@).contains(p)]
            views(out@).contains(p) <==> exists|i: int|
                0 <= i < raw@.len() && #[trigger] raw@[i]@ == p,
{
    let mut out: Vec<String> = Vec::new();
    let mut i: usize = 0;
    while i < raw.len()
        invariant
            i <= raw@.len(),
            chars_strictly_sorted(views(out@)),
            forall|p: Seq<char>| #![trigger views(out@).contains(p)]
                views(out@).contains(p) <==> exists|j: int|
                    0 <= j < i && #[trigger] raw@[j]@ == p,
        decreases raw.len() - i,
    {
        let path = raw[i].clone();
        let x = chars_of(path.as_str());
        let ghost before = views(out@);
        proof {
            assert forall|a: int, b: int| 0 <= a < b < before.len() implies chars_le(#[trigger] before[a], #[trigger] before[b]) by {}
        }
        let k = upper_bound(&out, &x);
        let present = if k > 0 {
            let prev = chars_of(out[k - 1].as_str());
            chars_eq(&prev, &x)
        } else {
            false
        };
        proof {
            if !present {
                assert forall|j: int| 0 <= j < before.len() implies before[j] != x@ by {
                    if before[j] == x@ {
                        if j < k {
                            assert(j < k - 1);
                            lemma_chars_le_antisym(before[k - 1], x@);
                            assert(chars_le(before[j], before[k - 1]));
                            lemma_chars_le_antisym(before[j], before[k - 1]);
                        } else if j == k {
                            lemma_chars_le_refl(x@);
                        } else {
                            assert(chars_le(before[k as int], before[j]));
                        }
                    }
                }
            }
        }
        if !present {
            out.insert(k, path);
            proof {
                let now = views(out@);
                assert(now =~= before.insert(k as int, x@));
                assert forall|a: int, b: int| 0 <= a < b < now.len() implies chars_le(#[trigger] now[a], #[trigger] now[b]) && now[a] != now[b] by {
                    lemma_sorted_after_insert(before, k as int, x@);
                    if a == k as int {
                        assert(now[a] == x@);
                        assert(now[b] == before[b - 1]);
                    } else if b == k as int {
                        assert(now[b] == x@);
                        assert(now[a] == before[a]);
                    } else {
                        assert(now[a] == before[if a < k { a } else { a - 1 }]);
                        assert(now[b] == before[if b < k { b } else { b - 1 }]);
                    }
                }
                assert forall|p: Seq<char>| #![trigger views(out@).contains(p)]
                    views(out@).contains(p) <==> exists|j: int|
                        0 <= j < i + 1 && #[trigger] raw@[j]@ == p by {
                    if views(out@).contains(p) {
                        let t = choose|t: int| 0 <= t < now.len() && now[t] == p;
                        if t != k {
                            assert(before.contains(p) ) by {
                                assert(before[if t < k { t } else { t - 1 }] == p);
                            }
                        }
                    }
                    if exists|j: int| 0 <= j < i + 1 && #[trigger] raw@[j]@ == p {
                        if p != x@ {
                            assert(before.contains(p));
                            let t = choose|t: int| 0 <= t < before.len() && before[t] == p;
                            assert(now[if t < k { t } else { t + 1 }] == p);
                        } else {
                            assert(now[k as int] == p);
                        }
                    }
                }
            }
        } else {
            proof {
                assert(before[k - 1] == x@);
                assert forall|p: Seq<char>| #![trigger views(out@).contains(p)]
                    views(out@).contains(p) <==> exists|j: int|
                        0 <= j < i + 1 && #[trigger] raw@[j]@ == p by {
                    if exists|j: int| 0 <= j < i + 1 && #[trigger] raw@[j]@ == p {
                        if p == x@ {
                            assert(before.contains(p));
                        }
                    }
                }
            }
        }
        i = i + 1;
    }
    out
}

/// The set of repo-relative paths a commit changed: every reported path
/// with forward slashes, each once, in [`chars_le`] order.
pub fn changed_paths(raw: Vec<String>) -> (out: Vec<String>)
    ensures
        chars_strictly_sorted(views(out@)),
        forall|p: Seq<char>| #![trigger views(out@).contains(p)]
            views(out@).contains(p) <==> exists|i: int|
                0 <= i < raw@.len() && slashed(#[trigger] raw@[i]@) == p,
{
    let mut conv: Vec<String> = Vec::new();
    let mut i: usize = 0;
    while i < raw.len()
        invariant
            i <= raw@.len(),
            conv@.len() == i,
            forall|j: int| 0 <= j < i ==> (#[trigger] conv@[j])@ == slashed(raw@[j]@),
        decreases raw.len() - i,
    {
        conv.push(to_forward_slashes(raw[i].as_str()));
        i = i + 1;
    }
    let out = sorted_unique(conv);
    proof {
        assert forall|p: Seq<char>| #![trigger views(out@).contains(p)]
            views(out@).contains(p) <==> exists|i: int|
                0 <= i < raw@.len() && slashed(#[trigger] raw@[i]@) == p by {
            if views(out@).contains(p) {
                let k = choose|k: int| 0 <= k < conv@.len() && #[trigger] conv@[k]@ == p;
                assert(slashed(raw@[k]@) == p);
            }
            if exists|i: int| 0 <= i < raw@.len() && slashed(#[trigger] raw@[i]@) == p {
                let k = choose|k: int| 0 <= k < raw@.len() && slashed(#[trigger] raw@[k]@) == p;
                assert(conv@[k]@ == p);
            }
        }
    }
    out
}

/// `true` for the characters `char::is_whitespace` accepts: those with the
/// Unicode `White_Space` property.
pub open spec fn is_white(c: char) -> bool {
    ('\u{9}' <= c <= '\u{d}') || c == ' ' || c == '\u{85}' || c == '\u{a0}' || c == '\u{1680}'
        || ('\u{2000}' <= c <= '\u{200a}') || c == '\u{2028}' || c == '\u{2029}' || c == '\u{202f}'
        || c == '\u{205f}' || c == '\u{3000}'
}

/// `char::is_whitespace`.
pub fn is_white_exec(c: char) -> (r: bool)
    ensures
        r == is_white(c),
{
    ('\u{9}' <= c && c <= '\u{d}') || c == ' ' || c == '\u{85}' || c == '\u{a0}' || c == '\u{1680}'
        || ('\u{2000}' <= c && c <= '\u{200a}') || c == '\u{2028}' || c == '\u{2029}' || c
        == '\u{202f}' || c == '\u{205f}' || c == '\u{3000}'
}

/// How text is split: at line feeds, or at whitespace.
#[derive(Clone, Copy, PartialEq, Eq, Structural)]
pub enum Split {
    Lines,
    Words,
}

/// `true` when `c` separates pieces under `how`.
pub open spec fn separates(how: Split, c: char) -> bool {
    match how {
        Split::Lines => c == '\n',
        Split::Words => is_white(c),
    }
}

/// `s` cut at every separator, empty pieces included.
pub open spec fn pieces_of(s: Seq<char>, how: Split) -> Seq<Seq<char>>
    decreases s.len(),
{
    if s.len() == 0 {
        seq![Seq::empty()]
    } else {
        let prior = pieces_of(s.drop_last(), how);
        if separates(how, s.last()) {
            prior.push(Seq::empty())
        } else {
            prior.update(prior.len() - 1, prior.last().push(s.last()))
        }
    }
}

/// `s` cut at every separator (see [`pieces_of`]).
pub fn split_pieces(s: &str, how: Split) -> (out: Vec<String>)
    ensures
        views(out@) == pieces_of(s@, how),
{
    let cs = chars_of(s);
    let mut out: Vec<String> = Vec::new();
    let mut start: usize = 0;
    let mut i: usize = 0;
    assert(cs@.subrange(0, 0) =~= Seq::<char>::empty());
    assert(pieces_of(Seq::<char>::empty(), how).drop_last().push(Seq::<char>::empty()) =~= pieces_of(
        Seq::<char>::empty(),
        how,
    ));
    while i < cs.len()
        invariant
            cs@ == s@,
            start <= i <= cs@.len(),
            pieces_of(cs@.subrange(0, i as int), how) == pieces_of(cs@.subrange(0, start as int), how).drop_last().push(
                cs@.subrange(start as int, i as int),
            ),
            views(out@) == pieces_of(cs@.subrange(0, start as int), how).drop_last(),
        decreases cs.len() - i,
    {
        let ghost pre = cs@.subrange(0, i as int);
        let ghost next = cs@.subrange(0, i + 1);
        assert(next.drop_last() =~= pre);
        assert(next.last() == cs@[i as int]);
        let c = cs[i];
        let sep = match how {
            Split::Lines => c == '\n',
            Split::Words => is_white_exec(c),
        };
        if sep {
            let piece = string_of_chars(&cs, start, i);
            let ghost before = views(out@);
            out.push(piece);
            proof {
                assert(pieces_of(next, how) == pieces_of(pre, how).push(Seq::empty()));
                assert(pieces_of(pre, how).drop_last() =~= pieces_of(cs@.subrange(0, start as int), how).drop_last());
                assert(views(out@) =~= before.push(cs@.subrange(start as int, i as int)));
                assert(views(out@) =~= pieces_of(pre, how));
                assert(pieces_of(next, how).drop_last() =~= pieces_of(pre, how));
                assert(cs@.subrange(i + 1, i + 1) =~= Seq::<char>::empty());
            }
            start = i + 1;
        } else {
            proof {
                let prior = pieces_of(pre, how);
                assert(pieces_of(next, how) == prior.update(prior.len() - 1, prior.last().push(cs@[i as int])));
                assert(cs@.subrange(start as int, i + 1) =~= cs@.subrange(start as int, i as int).push(cs@[i as int]));
                assert(pieces_of(next, how) =~= pieces_of(cs@.subrange(0, start as int), how).drop_last().push(
                    cs@.subrange(start as int, i + 1),
                ));
            }
        }
        i = i + 1;
    }
    let piece = string_of_chars(&cs, start, cs.len());
    let ghost before = views(out@);
    out.push(piece);
    proof {
        assert(cs@.subrange(0, cs@.len() as int) =~= cs@);
        assert(views(out@) =~= before.push(piece@));
        assert(views(out@) =~= pieces_of(cs@, how));
    }
    out
}

/// `s` without leading whitespace.
pub open spec fn trim_start(s: Seq<char>) -> Seq<char>
    decreases s.len(),
{
    if s.len() > 0 && is_white(s[0]) {
        trim_start(s.drop_first())
    } else {
        s
    }
}

/// `s` without trailing whitespace.
pub open spec fn trim_end(s: Seq<char>) -> Seq<char>
    decreases s.len(),
{
    if s.len() > 0 && is_white(s.last()) {
        trim_end(s.drop_last())
    } else {
        s
    }
}

/// `s` without leading and trailing whitespace (`str::trim`).
pub open spec fn trimmed(s: Seq<char>) -> Seq<char> {
    trim_end(trim_start(s))
}

/// `s` without leading and trailing whitespace.
pub fn trim(s: &str) -> (out: String)
    ensures
        out@ == trimmed(s@),
{
    let cs = chars_of(s);
    let n = cs.len();
    let mut start: usize = 0;
    assert(cs@.subrange(0, n as int) =~= cs@);
    while start < n && is_white_exec(cs[start])
        invariant
            cs@ == s@,
            n == cs@.len(),
            start <= n,
            trim_start(s@) == trim_start(cs@.subrange(start as int, n as int)),
        decreases n - start,
    {
        assert(cs@.subrange(start as int, n as int).drop_first() =~= cs@.subrange(start + 1, n as int));
        start = start + 1;
    }
    let mut end: usize = n;
    assert(cs@.subrange(start as int, n as int) == trim_start(s@)) by {
        if start < n {
            assert(cs@.subrange(start as int, n as int)[0] == cs@[start as int]);
        }
    }
    while end > start && is_white_exec(cs[end - 1])
        invariant
            cs@ == s@,
            n == cs@.len(),
            start <= end <= n,
            cs@.subrange(start as int, n as int) == trim_start(s@),
            trimmed(s@) == trim_end(cs@.subrange(start as int, end as int)),
        decreases end - start,
    {
        assert(cs@.subrange(start as int, end as int).drop_last() =~= cs@.subrange(start as int, end - 1));
        end = end - 1;
    }
    proof {
        if end > start {
            assert(cs@.subrange(start as int, end as int).last() == cs@[end - 1]);
        }
    }
    string_of_chars(&cs, start, end)
}

/// There is always at least one piece.
pub proof fn lemma_pieces_nonempty(s: Seq<char>, how: Split)
    ensures
        pieces_of(s, how).len() > 0,
    decreases s.len(),
{
    if s.len() > 0 {
        lemma_pieces_nonempty(s.drop_last(), how);
    }
}

/// The index of the first `c` in `s`, if any.
pub open spec fn first_index(s: Seq<char>, c: char) -> Option<int> {
    if exists|i: int| 0 <= i < s.len() && s[i] == c {
        Some(choose|i: int| 0 <= i < s.len() && s[i] == c && forall|j: int| 0 <= j < i ==> s[j] != c)
    } else {
        None
    }
}

/// Where `c` first occurs in `cs`.
pub fn find_char(cs: &Vec<char>, c: char) -> (r: Option<usize>)
    ensures
        match r {
            Some(i) => first_index(cs@, c) == Some(i as int),
            None => first_index(cs@, c) is None,
        },
        r matches Some(i) ==> i < cs@.len() && cs@[i as int] == c,
{
    let mut i: usize = 0;
    while i < cs.len()
        invariant
            i <= cs@.len(),
            forall|j: int| 0 <= j < i ==> cs@[j] != c,
        decreases cs.len() - i,
    {
        if cs[i] == c {
            proof {
                let w = choose|k: int| 0 <= k < cs@.len() && cs@[k] == c && forall|j: int| 0 <= j < k ==> cs@[j] != c;
                assert(0 <= i < cs@.len() && cs@[i as int] == c && forall|j: int| 0 <= j < i ==> cs@[j] != c);
                if w < i {
                } else if w > i {
                    assert(cs@[i as int] != c);
                }
            }
            return Some(i);
        }
        i = i + 1;
    }
    None
}

/// The index of the last `c` in `s`, if any.
pub open spec fn last_index(s: Seq<char>, c: char) -> Option<int> {
    if exists|i: int| 0 <= i < s.len() && s[i] == c {
        Some(choose|i: int| 0 <= i < s.len() && s[i] == c && forall|j: int| i < j < s.len() ==> s[j] != c)
    } else {
        None
    }
}

/// Where `c` last occurs in `cs`.
pub fn find_last_char(cs: &Vec<char>, c: char) -> (r: Option<usize>)
    ensures
        match r {
            Some(i) => last_index(cs@, c) == Some(i as int),
            None => last_index(cs@, c) is None,
        },
        r matches Some(i) ==> i < cs@.len() && cs@[i as int] == c,
{
    let mut i: usize = cs.len();
    while i > 0
        invariant
            i <= cs@.len(),
            forall|j: int| i <= j < cs@.len() ==> cs@[j] != c,
        decreases i,
    {
        if cs[i - 1] == c {
            let k = i - 1;
            proof {
                let w = choose|t: int| 0 <= t < cs@.len() && cs@[t] == c && forall|j: int| t < j < cs@.len() ==> cs@[j] != c;
                assert(0 <= k < cs@.len() && cs@[k as int] == c && forall|j: int| k < j < cs@.len() ==> cs@[j] != c);
                if w > k {
                } else if w < k {
                    assert(cs@[k as int] != c);
                }
            }
            return Some(k);
        }
        i = i - 1;
    }
    None
}

/// The code of `c` with ASCII upper-case letters mapped to lower case
/// (`char::to_ascii_lowercase`).
pub open spec fn ascii_lower(c: char) -> u32 {
    let n = c as u32;
    if 65 <= n <= 90 {
        (n + 32) as u32
    } else {
        n
    }
}

/// `true` when `a` and `b` are equal up to ASCII case
/// (`str::eq_ignore_ascii_case`).
pub open spec fn same_ignoring_ascii_case(a: Seq<char>, b: Seq<char>) -> bool {
    a.len() == b.len() && forall|i: int| 0 <= i < a.len() ==> ascii_lower(a[i]) == ascii_lower(b[i])
}

/// `true` when `a` and `b` are equal up to ASCII case.
pub fn eq_ignore_ascii_case(a: &str, b: &str) -> (r: bool)
    ensures
        r == same_ignoring_ascii_case(a@, b@),
{
    let ca = chars_of(a);
    let cb = chars_of(b);
    if ca.len() != cb.len() {
        return false;
    }
    let mut i: usize = 0;
    while i < ca.len()
        invariant
            ca@ == a@,
            cb@ == b@,
            ca@.len() == cb@.len(),
            i <= ca@.len(),
            forall|j: int| 0 <= j < i ==> ascii_lower(ca@[j]) == ascii_lower(cb@[j]),
        decreases ca.len() - i,
    {
        let x = ca[i] as u32;
        let y = cb[i] as u32;
        let lx = if 65 <= x && x <= 90 { x + 32 } else { x };
        let ly = if 65 <= y && y <= 90 { y + 32 } else { y };
        if lx != ly {
            return false;
        }
        i = i + 1;
    }
    true
}

/// The value of the digit `c` in base `radix` (ten or sixteen), if it is one.
pub open spec fn digit_value(c: char, radix: nat) -> Option<nat> {
    if '0' <= c <= '9' {
        Some((c as nat - '0' as nat) as nat)
    } else if radix == 16 && 'a' <= c <= 'f' {
        Some((c as nat - 'a' as nat + 10) as nat)
    } else if radix == 16 && 'A' <= c <= 'F' {
        Some((c as nat - 'A' as nat + 10) as nat)
    } else {
        None
    }
}

/// The number the digits `s` write in base `radix`; `None` when one of
/// them is no digit.
pub open spec fn digits_value(s: Seq<char>, radix: nat) -> Option<nat>
    decreases s.len(),
{
    if s.len() == 0 {
        Some(0)
    } else {
        match (digits_value(s.drop_last(), radix), digit_value(s.last(), radix)) {
            (Some(v), Some(d)) => Some(v * radix + d),
            _ => None,
        }
    }
}

/// What `usize::from_str_radix(s, radix)` accepts: an optional `+`, then
/// at least one digit, for a number no larger than `usize::MAX`.
pub open spec fn parsed_usize(s: Seq<char>, radix: nat) -> Option<nat> {
    let digits = if s.len() > 0 && s[0] == '+' {
        s.drop_first()
    } else {
        s
    };
    if digits.len() == 0 {
        None
    } else {
        match digits_value(digits, radix) {
            Some(v) => if v <= usize::MAX {
                Some(v)
            } else {
                None
            },
            None => None,
        }
    }
}

/// A prefix of digits is worth no more than the digits it starts.
proof fn lemma_digits_prefix(s: Seq<char>, radix: nat, k: int)
    requires
        radix >= 1,
        0 <= k <= s.len(),
        digits_value(s, radix) is Some,
    ensures
        digits_value(s.subrange(0, k), radix) is Some,
        digits_value(s.subrange(0, k), radix)->0 <= digits_value(s, radix)->0,
    decreases s.len(),
{
    if k == s.len() {
        assert(s.subrange(0, k) =~= s);
    } else {
        let v = digits_value(s.drop_last(), radix)->0;
        let d = digit_value(s.last(), radix)->0;
        assert(v <= v * radix + d) by (nonlinear_arith)
            requires
                radix >= 1,
        ;
        lemma_digits_prefix(s.drop_last(), radix, k);
        assert(s.drop_last().subrange(0, k) =~= s.subrange(0, k));
    }
}

/// `usize::from_str_radix(s, radix)`, `None` where it fails.
pub fn parse_usize(s: &str, radix: u32) -> (r: Option<usize>)
    requires
        radix == 10 || radix == 16,
    ensures
        match r {
            Some(v) => parsed_usize(s@, radix as nat) == Some(v as nat),
            None => parsed_usize(s@, radix as nat) is None,
        },
{
    let cs = chars_of(s);
    let start: usize = if cs.len() > 0 && cs[0] == '+' { 1 } else { 0 };
    let ghost digits = cs@.subrange(start as int, cs@.len() as int);
    assert(digits =~= (if s@.len() > 0 && s@[0] == '+' { s@.drop_first() } else { s@ }));
    if start == cs.len() {
        return None;
    }
    let mut acc: usize = 0;
    let mut overflow = false;
    let mut i: usize = start;
    assert(cs@.subrange(start as int, start as int) =~= Seq::<char>::empty());
    while i < cs.len()
        invariant
            cs@ == s@,
            start <= i <= cs@.len(),
            digits == cs@.subrange(start as int, cs@.len() as int),
            digits == (if s@.len() > 0 && s@[0] == '+' { s@.drop_first() } else { s@ }),
            digits.len() > 0,
            radix == 10 || radix == 16,
            digits_value(cs@.subrange(start as int, i as int), radix as nat) is Some,
            !overflow ==> digits_value(cs@.subrange(start as int, i as int), radix as nat) == Some(acc as nat),
            overflow ==> digits_value(cs@.subrange(start as int, i as int), radix as nat)->0 > usize::MAX,
        decreases cs.len() - i,
    {
        let c = cs[i];
        let d: u32 = if '0' <= c && c <= '9' {
            (c as u32) - 48
        } else if radix == 16 && 'a' <= c && c <= 'f' {
            (c as u32) - 87
        } else if radix == 16 && 'A' <= c && c <= 'F' {
            (c as u32) - 55
        } else {
            proof {
                let pre = cs@.subrange(start as int, i + 1);
                assert(pre.drop_last() =~= cs@.subrange(start as int, i as int));
                assert(digits_value(pre, radix as nat) is None);
                if digits_value(digits, radix as nat) is Some {
                    lemma_digits_prefix(digits, radix as nat, i + 1 - start);
                    assert(digits.subrange(0, i + 1 - start) =~= pre);
                }
            }
            return None;
        };
        let ghost pre = cs@.subrange(start as int, i as int);
        let ghost next = cs@.subrange(start as int, i + 1);
        assert(next.drop_last() =~= pre);
        assert(digit_value(c, radix as nat) == Some(d as nat));
        let ghost before = digits_value(pre, radix as nat)->0;
        assert(digits_value(next, radix as nat) == Some((before * radix + d) as nat));
        assert(before <= before * radix + d) by (nonlinear_arith)
            requires
                radix >= 1,
        ;
        if !overflow {
            match acc.checked_mul(radix as usize) {
                Some(m) => match m.checked_add(d as usize) {
                    Some(n) => {
                        acc = n;
                    },
                    None => {
                        overflow = true;
                    },
                },
                None => {
                    assert(acc * radix <= acc * radix + d) by (nonlinear_arith)
                        requires
                            d >= 0,
                    ;
                    overflow = true;
                },
            }
        }
        i = i + 1;
    }
    assert(cs@.subrange(start as int, i as int) =~= digits);
    if overflow {
        None
    } else {
        Some(acc)
    }
}

} // verus!

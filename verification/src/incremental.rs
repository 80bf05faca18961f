//! Query caching for editor requests: a key that fingerprints everything a query
//! reads (the document, the open-buffer overrides and the project manifest), caches
//! of computed results that remember which files each result depends on, and the
//! counters the cache statistics report.
use dashmap::DashMap;
use sha2::Digest;
use vstd::prelude::*;
use vstd::utf8::encode_utf8;
use crate::ast::views;
use crate::completion::text_lt;
use crate::navigation::split_nonempty;

verus! {

broadcast use vstd::seq_lib::group_seq_properties;

/// Version of the key layout; keys of another layout never match.
pub const SESSION_CACHE_SCHEMA: u32 = 1;

proof fn lemma_text_lt_order(a: Seq<char>, b: Seq<char>, c: Seq<char>)
    ensures
        text_lt(a, b) ==> !text_lt(b, a),
        text_lt(a, b) && text_lt(b, c) ==> text_lt(a, c),
        a != b ==> text_lt(a, b) || text_lt(b, a),
    decreases a.len(),
{
    if a.len() > 0 && b.len() > 0 {
        vstd::utf8::char_u32_cast(a[0], a[0] as u32);
        vstd::utf8::char_u32_cast(b[0], b[0] as u32);
        if c.len() > 0 {
            lemma_text_lt_order(a.drop_first(), b.drop_first(), c.drop_first());
        } else {
            lemma_text_lt_order(a.drop_first(), b.drop_first(), c);
        }
        if a[0] == b[0] && a.drop_first() == b.drop_first() {
            assert(a =~= seq![a[0]] + a.drop_first());
            assert(b =~= seq![b[0]] + b.drop_first());
        }
    } else if a.len() == 0 && b.len() == 0 {
        assert(a =~= b);
    }
}

/// The components after a path's start, from its non-empty segments: `.` is left
/// out, `..` is a parent component (rank 3), anything else a name (rank 4).
pub open spec fn later_components(segs: Seq<Seq<char>>) -> Seq<(int, Seq<char>)>
    decreases segs.len(),
{
    if segs.len() == 0 {
        Seq::empty()
    } else {
        let before = later_components(segs.drop_last());
        let s = segs.last();
        if s == "."@ {
            before
        } else if s == ".."@ {
            before.push((3int, s))
        } else {
            before.push((4int, s))
        }
    }
}

/// The components of a path as the standard library reads a Unix path, each as its
/// kind's rank and its text: the root `/` first (rank 1) when the path starts with
/// one, else a leading `.` (rank 2) when the first segment is `.`, then the later
/// components. Separators that repeat and `.` elsewhere make no component.
pub open spec fn path_key(p: Seq<char>) -> Seq<(int, Seq<char>)> {
    let segs = split_nonempty(p, '/');
    if p.len() > 0 && p[0] == '/' {
        seq![(1int, "/"@)] + later_components(segs)
    } else if segs.len() > 0 && segs[0] == "."@ {
        seq![(2int, "."@)] + later_components(segs.drop_first())
    } else {
        later_components(segs)
    }
}

/// The order of components: by kind, then names by their text.
pub open spec fn component_lt(a: (int, Seq<char>), b: (int, Seq<char>)) -> bool {
    a.0 < b.0 || (a.0 == b.0 && text_lt(a.1, b.1))
}

/// The order of component lists: lexicographic, a proper prefix first.
pub open spec fn components_lt(a: Seq<(int, Seq<char>)>, b: Seq<(int, Seq<char>)>) -> bool
    decreases a.len(),
{
    if a.len() == 0 {
        b.len() > 0
    } else if b.len() == 0 {
        false
    } else if a[0] != b[0] {
        component_lt(a[0], b[0])
    } else {
        components_lt(a.drop_first(), b.drop_first())
    }
}

/// Strict order of paths, component by component (see [`path_key`]); paths with
/// the same components are equal in this order.
pub open spec fn path_lt(a: Seq<char>, b: Seq<char>) -> bool {
    components_lt(path_key(a), path_key(b))
}

proof fn lemma_components_lt_order(
    a: Seq<(int, Seq<char>)>,
    b: Seq<(int, Seq<char>)>,
    c: Seq<(int, Seq<char>)>,
)
    ensures
        components_lt(a, b) ==> !components_lt(b, a),
        components_lt(a, b) && components_lt(b, c) ==> components_lt(a, c),
        a != b ==> components_lt(a, b) || components_lt(b, a),
    decreases a.len(),
{
    if a.len() > 0 && b.len() > 0 {
        if c.len() > 0 {
            lemma_text_lt_order(a[0].1, b[0].1, c[0].1);
            lemma_components_lt_order(a.drop_first(), b.drop_first(), c.drop_first());
        } else {
            lemma_text_lt_order(a[0].1, b[0].1, a[0].1);
            lemma_components_lt_order(a.drop_first(), b.drop_first(), c);
        }
        if a[0] == b[0] && a.drop_first() == b.drop_first() {
            assert(a =~= seq![a[0]] + a.drop_first());
            assert(b =~= seq![b[0]] + b.drop_first());
        }
    } else if a.len() == 0 && b.len() == 0 {
        assert(a =~= b);
    }
}

pub proof fn lemma_path_lt_asymmetric(a: Seq<char>, b: Seq<char>)
    ensures
        path_lt(a, b) ==> !path_lt(b, a),
{
    lemma_components_lt_order(path_key(a), path_key(b), path_key(a));
}

pub proof fn lemma_path_lt_transitive(a: Seq<char>, b: Seq<char>, c: Seq<char>)
    ensures
        path_lt(a, b) && path_lt(b, c) ==> path_lt(a, c),
{
    lemma_components_lt_order(path_key(a), path_key(b), path_key(c));
}

/// Two paths with different components are ordered one way or the other.
pub proof fn lemma_path_lt_total(a: Seq<char>, b: Seq<char>)
    ensures
        path_key(a) != path_key(b) ==> path_lt(a, b) || path_lt(b, a),
{
    lemma_components_lt_order(path_key(a), path_key(b), path_key(a));
}

/// Components as plain values.
pub open spec fn components_view(v: Seq<(u8, String)>) -> Seq<(int, Seq<char>)> {
    v.map_values(|c: (u8, String)| (c.0 as int, c.1@))
}

/// The components of the path `p` (see [`path_key`]).
pub fn path_components(p: &String) -> (r: Vec<(u8, String)>)
    ensures
        components_view(r@) == path_key(p@),
{
    let chars = crate::text::text_chars(p.as_str());
    let segs = crate::navigation::split_segments(&chars, 0, chars.len(), '/');
    assert(chars@.subrange(0, chars.len() as int) =~= p@);
    let ghost sv = views(segs@);
    let mut out: Vec<(u8, String)> = Vec::new();
    let mut start: usize = 0;
    if chars.len() > 0 && chars[0] == '/' {
        out.push((1, "/".to_owned()));
    } else if segs.len() > 0 && crate::navigation::same_text(segs[0].as_str(), ".") {
        out.push((2, ".".to_owned()));
        start = 1;
    }
    let ghost head = components_view(out@);
    assert(sv.skip(start as int).take(0) =~= Seq::<Seq<char>>::empty());
    let mut i: usize = start;
    while i < segs.len()
        invariant
            start <= i <= segs.len(),
            sv == views(segs@),
            components_view(out@) == head + later_components(sv.skip(start as int).take(i - start)),
        decreases segs.len() - i,
    {
        let seg = &segs[i];
        let ghost before = components_view(out@);
        let ghost t = sv.skip(start as int).take(i + 1 - start);
        assert(t.drop_last() =~= sv.skip(start as int).take(i - start));
        assert(t.last() == seg@);
        if crate::navigation::same_text(seg.as_str(), ".") {
        } else if crate::navigation::same_text(seg.as_str(), "..") {
            out.push((3, seg.clone()));
            assert(components_view(out@) =~= before.push((3int, seg@)));
        } else {
            out.push((4, seg.clone()));
            assert(components_view(out@) =~= before.push((4int, seg@)));
        }
        i = i + 1;
    }
    assert(sv.skip(start as int).take(segs.len() - start) =~= sv.skip(start as int));
    assert(sv.skip(0) =~= sv);
    assert(sv.skip(1) =~= sv.drop_first());
    out
}

/// Whether component list `a` sorts strictly before `b` (see [`components_lt`]).
fn components_precede(a: &Vec<(u8, String)>, b: &Vec<(u8, String)>) -> (r: bool)
    ensures
        r == components_lt(components_view(a@), components_view(b@)),
{
    let ghost x = components_view(a@);
    let ghost y = components_view(b@);
    let mut i: usize = 0;
    assert(x.skip(0) =~= x && y.skip(0) =~= y);
    while i < a.len() && i < b.len() && a[i].0 == b[i].0 && a[i].1 == b[i].1
        invariant
            x == components_view(a@),
            y == components_view(b@),
            i <= a.len(),
            i <= b.len(),
            components_lt(x.skip(i as int), y.skip(i as int)) == components_lt(x, y),
        decreases a.len() - i,
    {
        assert(x.skip(i as int)[0] == x[i as int] && y.skip(i as int)[0] == y[i as int]);
        assert(x.skip(i as int).drop_first() =~= x.skip(i + 1));
        assert(y.skip(i as int).drop_first() =~= y.skip(i + 1));
        i = i + 1;
    }
    if i == a.len() {
        assert(x.skip(i as int).len() == 0);
        return i < b.len();
    }
    if i == b.len() {
        assert(y.skip(i as int).len() == 0);
        return false;
    }
    assert(x.skip(i as int)[0] == x[i as int] && y.skip(i as int)[0] == y[i as int]);
    assert(x[i as int] == (a@[i as int].0 as int, a@[i as int].1@));
    assert(y[i as int] == (b@[i as int].0 as int, b@[i as int].1@));
    if a[i].0 != b[i].0 {
        return a[i].0 < b[i].0;
    }
    crate::completion::text_precedes(&a[i].1, &b[i].1)
}

/// Whether path `a` sorts strictly before path `b` (see [`path_lt`]).
pub fn path_precedes(a: &String, b: &String) -> (r: bool)
    ensures
        r == path_lt(a@, b@),
{
    let x = path_components(a);
    let y = path_components(b);
    components_precede(&x, &y)
}

/// Whether paths `a` and `b` have the same components (see [`path_key`]).
pub fn same_path(a: &String, b: &String) -> (r: bool)
    ensures
        r == (path_key(a@) == path_key(b@)),
{
    let x = path_components(a);
    let y = path_components(b);
    proof {
        lemma_components_lt_order(components_view(x@), components_view(y@), components_view(x@));
    }
    !components_precede(&x, &y) && !components_precede(&y, &x)
}

/// An open-buffer override: a file path and the text it holds in the editor.
pub open spec fn override_view(o: (String, String)) -> (Seq<char>, Seq<char>) {
    (o.0@, o.1@)
}

/// The views of a list of overrides.
pub open spec fn overrides_view(v: Seq<(String, String)>) -> Seq<(Seq<char>, Seq<char>)> {
    v.map_values(|o: (String, String)| override_view(o))
}

/// Where override `o` goes in the path-sorted `sorted`: after every override whose
/// path does not sort after its own.
pub open spec fn override_insertion_index(
    sorted: Seq<(Seq<char>, Seq<char>)>,
    o: (Seq<char>, Seq<char>),
    from: nat,
) -> nat
    decreases sorted.len() - from,
{
    if from < sorted.len() && !path_lt(o.0, sorted[from as int].0) {
        override_insertion_index(sorted, o, from + 1)
    } else {
        from
    }
}

/// Overrides stably sorted by path.
pub open spec fn sort_overrides(v: Seq<(Seq<char>, Seq<char>)>) -> Seq<(Seq<char>, Seq<char>)>
    decreases v.len(),
{
    if v.len() == 0 {
        v
    } else {
        let sorted = sort_overrides(v.drop_last());
        sorted.insert(override_insertion_index(sorted, v.last(), 0) as int, v.last())
    }
}

/// No two overrides name the same path (paths with the same components are the
/// same path).
pub open spec fn distinct_paths(v: Seq<(Seq<char>, Seq<char>)>) -> bool {
    forall|i: int, j: int| 0 <= i < j < v.len() ==> path_key(#[trigger] v[i].0) != path_key(#[trigger] v[j].0)
}

/// Overrides in non-decreasing path order.
pub open spec fn path_sorted(v: Seq<(Seq<char>, Seq<char>)>) -> bool {
    forall|i: int, j: int| 0 <= i < j < v.len() ==> !path_lt(#[trigger] v[j].0, #[trigger] v[i].0)
}

proof fn lemma_override_insertion_index(
    sorted: Seq<(Seq<char>, Seq<char>)>,
    o: (Seq<char>, Seq<char>),
    from: nat,
)
    requires
        from <= sorted.len(),
    ensures
        from <= override_insertion_index(sorted, o, from) <= sorted.len(),
        forall|i: int|
            from <= i < override_insertion_index(sorted, o, from) ==> !path_lt(
                o.0,
                #[trigger] sorted[i].0,
            ),
        override_insertion_index(sorted, o, from) < sorted.len() ==> path_lt(
            o.0,
            sorted[override_insertion_index(sorted, o, from) as int].0,
        ),
    decreases sorted.len() - from,
{
    if from < sorted.len() && !path_lt(o.0, sorted[from as int].0) {
        lemma_override_insertion_index(sorted, o, from + 1);
    }
}

proof fn lemma_insert_contains(s: Seq<(Seq<char>, Seq<char>)>, k: int, h: (Seq<char>, Seq<char>))
    requires
        0 <= k <= s.len(),
    ensures
        forall|x: (Seq<char>, Seq<char>)| #[trigger]
            s.insert(k, h).contains(x) == (s.contains(x) || x == h),
{
    let t = s.insert(k, h);
    assert forall|x: (Seq<char>, Seq<char>)| #[trigger] t.contains(x) == (s.contains(x) || x
        == h) by {
        if t.contains(x) {
            let i = choose|i: int| 0 <= i < t.len() && t[i] == x;
            if i < k {
                assert(s[i] == x);
            } else if i > k {
                assert(s[i - 1] == x);
            }
        }
        if s.contains(x) {
            let i = choose|i: int| 0 <= i < s.len() && s[i] == x;
            if i < k {
                assert(t[i] == x);
            } else {
                assert(t[i + 1] == x);
            }
        }
        if x == h {
            assert(t[k] == x);
        }
    }
}

proof fn lemma_insert_sorted(s: Seq<(Seq<char>, Seq<char>)>, h: (Seq<char>, Seq<char>))
    requires
        path_sorted(s),
    ensures
        path_sorted(s.insert(override_insertion_index(s, h, 0) as int, h)),
{
    lemma_override_insertion_index(s, h, 0);
    let k = override_insertion_index(s, h, 0) as int;
    let t = s.insert(k, h);
    assert forall|i: int, j: int| 0 <= i < j < t.len() implies !path_lt(
        #[trigger] t[j].0,
        #[trigger] t[i].0,
    ) by {
        if j < k {
            assert(t[i] == s[i] && t[j] == s[j]);
        } else if j == k {
            assert(t[i] == s[i]);
        } else if i < k {
            assert(t[i] == s[i] && t[j] == s[j - 1]);
        } else if i == k {
            assert(t[j] == s[j - 1]);
            if j - 1 > k {
                assert(!path_lt(s[j - 1].0, s[k].0));
                lemma_path_lt_total(s[j - 1].0, s[k].0);
                lemma_path_lt_transitive(h.0, s[k].0, s[j - 1].0);
            }
            lemma_path_lt_asymmetric(h.0, s[j - 1].0);
        } else {
            assert(t[i] == s[i - 1] && t[j] == s[j - 1]);
        }
    }
}

proof fn lemma_insert_distinct(s: Seq<(Seq<char>, Seq<char>)>, k: int, h: (Seq<char>, Seq<char>))
    requires
        0 <= k <= s.len(),
        distinct_paths(s),
        forall|i: int| 0 <= i < s.len() ==> path_key(#[trigger] s[i].0) != path_key(h.0),
    ensures
        distinct_paths(s.insert(k, h)),
{
    let t = s.insert(k, h);
    assert forall|i: int, j: int| 0 <= i < j < t.len() implies path_key(#[trigger] t[i].0)
        != path_key(#[trigger] t[j].0) by {
        if i == k {
            assert(t[j] == s[j - 1]);
        } else if j == k {
            assert(t[i] == s[i]);
        } else {
            let si = if i < k {
                i
            } else {
                i - 1
            };
            let sj = if j < k {
                j
            } else {
                j - 1
            };
            assert(t[i] == s[si] && t[j] == s[sj]);
        }
    }
}

/// Sorting keeps the overrides, orders them by path, and keeps paths distinct.
pub proof fn lemma_sort_overrides(v: Seq<(Seq<char>, Seq<char>)>)
    ensures
        sort_overrides(v).len() == v.len(),
        forall|x: (Seq<char>, Seq<char>)| #[trigger] sort_overrides(v).contains(x) == v.contains(x),
        path_sorted(sort_overrides(v)),
        distinct_paths(v) ==> distinct_paths(sort_overrides(v)),
    decreases v.len(),
{
    if v.len() > 0 {
        let rest = v.drop_last();
        let h = v.last();
        let s = sort_overrides(rest);
        lemma_sort_overrides(rest);
        lemma_override_insertion_index(s, h, 0);
        let k = override_insertion_index(s, h, 0) as int;
        lemma_insert_contains(s, k, h);
        lemma_insert_sorted(s, h);
        assert(v =~= rest.push(h));
        assert forall|x: (Seq<char>, Seq<char>)| #[trigger] v.contains(x) == (rest.contains(x) || x
            == h) by {
            if v.contains(x) {
                let w = choose|w: int| 0 <= w < v.len() && v[w] == x;
                if w < v.len() - 1 {
                    assert(rest[w] == x);
                }
            }
            if rest.contains(x) {
                let w = choose|w: int| 0 <= w < rest.len() && rest[w] == x;
                assert(v[w] == x);
            }
        }
        if distinct_paths(v) {
            assert(distinct_paths(rest));
            assert forall|i: int| 0 <= i < s.len() implies path_key(#[trigger] s[i].0) != path_key(h.0) by {
                assert(s.contains(s[i]));
                assert(rest.contains(s[i]));
                let w = choose|w: int| 0 <= w < rest.len() && rest[w] == s[i];
                assert(v[w] == rest[w]);
                assert(v[v.len() - 1] == h);
            }
            lemma_insert_distinct(s, k, h);
        }
    }
}

/// Two path-sorted lists with distinct paths that hold the same overrides are equal.
pub proof fn lemma_sorted_overrides_unique(a: Seq<(Seq<char>, Seq<char>)>, b: Seq<(Seq<char>, Seq<char>)>)
    requires
        path_sorted(a),
        path_sorted(b),
        distinct_paths(a),
        distinct_paths(b),
        forall|x: (Seq<char>, Seq<char>)|
            #![trigger a.contains(x)]
            #![trigger b.contains(x)]
            a.contains(x) == b.contains(x),
    ensures
        a == b,
    decreases a.len(),
{
    if a.len() == 0 {
        if b.len() > 0 {
            assert(b.contains(b[0]));
            assert(a.contains(b[0]));
        }
        assert(a =~= b);
    } else if b.len() == 0 {
        assert(a.contains(a[0]));
        assert(b.contains(a[0]));
    } else {
        assert(a.contains(a[0]));
        assert(b.contains(b[0]));
        let m = choose|m: int| 0 <= m < a.len() && a[m] == b[0];
        let k = choose|k: int| 0 <= k < b.len() && b[k] == a[0];
        if a[0] != b[0] {
            assert(m > 0 && k > 0);
            lemma_path_lt_total(a[0].0, a[m].0);
            lemma_path_lt_total(b[0].0, b[k].0);
            lemma_path_lt_asymmetric(a[0].0, b[0].0);
        }
        assert(a[0] == b[0]);
        let a1 = a.drop_first();
        let b1 = b.drop_first();
        assert forall|x: (Seq<char>, Seq<char>)|
            #![trigger a1.contains(x)]
            #![trigger b1.contains(x)]
            a1.contains(x) == b1.contains(x) by {
            if a1.contains(x) {
                let i = choose|i: int| 0 <= i < a1.len() && a1[i] == x;
                assert(a[i + 1] == x);
                assert(a.contains(x));
                assert(b.contains(x));
                let j = choose|j: int| 0 <= j < b.len() && b[j] == x;
                if j == 0 {
                    assert(path_key(a[0].0) != path_key(a[i + 1].0));
                }
                assert(b1[j - 1] == x);
            }
            if b1.contains(x) {
                let j = choose|j: int| 0 <= j < b1.len() && b1[j] == x;
                assert(b[j + 1] == x);
                assert(b.contains(x));
                assert(a.contains(x));
                let i = choose|i: int| 0 <= i < a.len() && a[i] == x;
                if i == 0 {
                    assert(path_key(b[0].0) != path_key(b[j + 1].0));
                }
                assert(a1[i - 1] == x);
            }
        }
        lemma_sorted_overrides_unique(a1, b1);
        assert(a =~= seq![a[0]] + a1);
        assert(b =~= seq![b[0]] + b1);
    }
}

/// The eight-byte little-endian encoding of `n` (when `count` is 8).
pub open spec fn le_bytes(n: nat, count: nat) -> Seq<u8>
    decreases count,
{
    if count == 0 {
        Seq::empty()
    } else {
        seq![(n % 256) as u8] + le_bytes(n / 256, (count - 1) as nat)
    }
}

/// A byte string preceded by its length as a little-endian `u64`, so that
/// consecutive framed strings cannot run into each other.
pub open spec fn framed(bytes: Seq<u8>) -> Seq<u8> {
    le_bytes(bytes.len(), 8) + bytes
}

/// The framed paths and sources of overrides, in the given order.
pub open spec fn overrides_bytes(v: Seq<(Seq<char>, Seq<char>)>) -> Seq<u8>
    decreases v.len(),
{
    if v.len() == 0 {
        Seq::empty()
    } else {
        overrides_bytes(v.drop_last()) + framed(encode_utf8(v.last().0)) + framed(
            encode_utf8(v.last().1),
        )
    }
}

/// The nearest project manifest's path with its contents, or with the message of
/// the error that reading it gave.
pub open spec fn manifest_view(m: Option<(String, Result<Vec<u8>, String>)>) -> Option<
    (Seq<char>, Result<Seq<u8>, Seq<char>>),
> {
    match m {
        Some((p, Ok(c))) => Some((p@, Ok(c@))),
        Some((p, Err(e))) => Some((p@, Err(e@))),
        None => None,
    }
}

/// The framed manifest path and contents (or error message), when there is a manifest.
pub open spec fn manifest_bytes(m: Option<(Seq<char>, Result<Seq<u8>, Seq<char>>)>) -> Seq<u8> {
    match m {
        Some((p, Ok(c))) => framed(encode_utf8(p)) + framed(c),
        Some((p, Err(e))) => framed(encode_utf8(p)) + framed(encode_utf8(e)),
        None => Seq::empty(),
    }
}

/// Everything a document query reads, as the bytes its fingerprint hashes: the
/// path, the text, the overrides sorted by path, and the manifest.
pub open spec fn document_bytes(
    path: Seq<char>,
    text: Seq<char>,
    overrides: Seq<(Seq<char>, Seq<char>)>,
    manifest: Option<(Seq<char>, Result<Seq<u8>, Seq<char>>)>,
) -> Seq<u8> {
    framed(encode_utf8(path)) + framed(encode_utf8(text)) + overrides_bytes(
        sort_overrides(overrides),
    ) + manifest_bytes(manifest)
}

/// The SHA-256 digest of `data`.
pub uninterp spec fn sha256(data: Seq<u8>) -> Seq<u8>;

/// `sha2::Sha256::digest`: the SHA-256 digest of the bytes, 32 bytes long. The
/// contract names the digest and states its length; it says nothing of its value.
#[verifier::external_body]
fn sha256_digest(data: &Vec<u8>) -> (digest: Vec<u8>)
    ensures
        digest@ == sha256(data@),
        digest@.len() == 32,
{
    sha2::Sha256::digest(data.as_slice()).to_vec()
}

/// Appends `bytes`, framed by their length.
fn add_bytes(buf: &mut Vec<u8>, bytes: &[u8])
    ensures
        final(buf)@ == old(buf)@ + framed(bytes@),
{
    let ghost start = buf@;
    let mut x: u64 = bytes.len() as u64;
    let mut i: usize = 0;
    assert(start + le_bytes(bytes@.len(), 8) =~= start + le_bytes(x as nat, 8));
    while i < 8
        invariant
            i <= 8,
            buf@ + le_bytes(x as nat, (8 - i) as nat) == start + le_bytes(bytes@.len(), 8),
        decreases 8 - i,
    {
        let ghost before = buf@;
        buf.push((x % 256) as u8);
        proof {
            assert(le_bytes(x as nat, (8 - i) as nat) == seq![(x % 256) as u8] + le_bytes(
                (x / 256) as nat,
                (8 - i - 1) as nat,
            ));
            assert(buf@ + le_bytes((x / 256) as nat, (8 - i - 1) as nat) =~= before + le_bytes(
                x as nat,
                (8 - i) as nat,
            ));
        }
        x = x / 256;
        i = i + 1;
    }
    assert(le_bytes(x as nat, 0) =~= Seq::<u8>::empty());
    let ghost header = buf@;
    let mut j: usize = 0;
    while j < bytes.len()
        invariant
            j <= bytes.len(),
            header == start + le_bytes(bytes@.len(), 8),
            buf@ == header + bytes@.take(j as int),
        decreases bytes.len() - j,
    {
        buf.push(bytes[j]);
        assert(buf@ =~= header + bytes@.take(j + 1));
        j = j + 1;
    }
    assert(bytes@.take(bytes.len() as int) =~= bytes@);
    assert(buf@ =~= start + framed(bytes@));
}

/// Appends the UTF-8 bytes of `s`, framed by their length.
fn add_str_bytes(buf: &mut Vec<u8>, s: &str)
    ensures
        final(buf)@ == old(buf)@ + framed(encode_utf8(s@)),
{
    add_bytes(buf, s.as_bytes());
}

/// The overrides sorted by path, keeping overrides of one path in their order.
fn sorted_overrides(overrides: &Vec<(String, String)>) -> (sorted: Vec<(String, String)>)
    ensures
        overrides_view(sorted@) == sort_overrides(overrides_view(overrides@)),
{
    let ghost all = overrides_view(overrides@);
    let mut sorted: Vec<(String, String)> = Vec::new();
    let mut i: usize = 0;
    assert(all.take(0) =~= Seq::<(Seq<char>, Seq<char>)>::empty());
    while i < overrides.len()
        invariant
            i <= overrides.len(),
            all == overrides_view(overrides@),
            overrides_view(sorted@) == sort_overrides(all.take(i as int)),
        decreases overrides.len() - i,
    {
        let o = &overrides[i];
        let ghost sv = overrides_view(sorted@);
        let ghost h = override_view(*o);
        assert(all[i as int] == h);
        proof {
            lemma_override_insertion_index(sv, h, 0);
        }
        let mut j: usize = 0;
        while j < sorted.len() && !path_precedes(&o.0, &sorted[j].0)
            invariant
                j <= sorted.len(),
                sv == overrides_view(sorted@),
                h == override_view(*o),
                override_insertion_index(sv, h, j as nat) == override_insertion_index(sv, h, 0),
            decreases sorted.len() - j,
        {
            assert(sv[j as int].0 == sorted@[j as int].0@);
            j = j + 1;
        }
        proof {
            if j < sorted.len() {
                assert(sv[j as int].0 == sorted@[j as int].0@);
            }
        }
        let copy = (o.0.clone(), o.1.clone());
        sorted.insert(j, copy);
        proof {
            assert(all.take(i + 1).drop_last() =~= all.take(i as int));
            assert(all.take(i + 1).last() == h);
            assert(overrides_view(sorted@) =~= sv.insert(j as int, h));
        }
        i = i + 1;
    }
    assert(all.take(overrides.len() as int) =~= all);
    sorted
}

/// Appends the framed path and source of each override, in order.
fn push_overrides(buf: &mut Vec<u8>, overrides: &Vec<(String, String)>)
    ensures
        final(buf)@ == old(buf)@ + overrides_bytes(overrides_view(overrides@)),
{
    let ghost sv = overrides_view(overrides@);
    let ghost head = buf@;
    let mut i: usize = 0;
    assert(overrides_bytes(sv.take(0)) =~= Seq::<u8>::empty());
    assert(head + overrides_bytes(sv.take(0)) =~= head);
    while i < overrides.len()
        invariant
            i <= overrides.len(),
            sv == overrides_view(overrides@),
            buf@ == head + overrides_bytes(sv.take(i as int)),
        decreases overrides.len() - i,
    {
        add_str_bytes(buf, overrides[i].0.as_str());
        add_str_bytes(buf, overrides[i].1.as_str());
        proof {
            assert(sv.take(i + 1).drop_last() =~= sv.take(i as int));
            assert(sv.take(i + 1).last() == (overrides@[i as int].0@, overrides@[i as int].1@));
            assert(buf@ =~= head + overrides_bytes(sv.take(i + 1)));
        }
        i = i + 1;
    }
    assert(sv.take(overrides.len() as int) =~= sv);
}

/// Identity of a cached query result: the cache layout, the server build and the
/// host it runs on, the kind of query, what it is about, and the fingerprint of
/// everything it reads.
#[derive(Clone, Debug, PartialEq, Eq, Hash)]
pub struct QueryKey {
    pub schema: u32,
    pub toolchain: String,
    pub host: String,
    pub namespace: String,
    pub identity: String,
    pub fingerprint: Vec<u8>,
}

impl QueryKey {
    /// The key of query `namespace` about `identity` on the document at `path` with
    /// `text`, under the open-buffer `overrides` and the project `manifest`.
    pub fn for_document(
        namespace: &str,
        identity: String,
        path: &String,
        text: &str,
        overrides: &Vec<(String, String)>,
        manifest: Option<(String, Result<Vec<u8>, String>)>,
        toolchain: &str,
        host: &str,
    ) -> (key: QueryKey)
        ensures
            key.schema == SESSION_CACHE_SCHEMA,
            key.toolchain@ == toolchain@,
            key.host@ == host@,
            key.namespace@ == namespace@,
            key.identity@ == identity@,
            key.fingerprint@ == sha256(
                document_bytes(path@, text@, overrides_view(overrides@), manifest_view(manifest)),
            ),
    {
        let mut buf: Vec<u8> = Vec::new();
        add_str_bytes(&mut buf, path.as_str());
        add_str_bytes(&mut buf, text);
        let sorted = sorted_overrides(overrides);
        push_overrides(&mut buf, &sorted);
        let ghost body = buf@;
        match &manifest {
            Some((manifest_path, contents)) => {
                add_str_bytes(&mut buf, manifest_path.as_str());
                match contents {
                    Ok(bytes) => add_bytes(&mut buf, bytes.as_slice()),
                    Err(message) => add_str_bytes(&mut buf, message.as_str()),
                }
                assert(buf@ =~= body + manifest_bytes(manifest_view(manifest)));
            },
            None => {
                assert(buf@ =~= body + manifest_bytes(manifest_view(manifest)));
            },
        }
        let fingerprint = sha256_digest(&buf);
        QueryKey {
            schema: SESSION_CACHE_SCHEMA,
            toolchain: toolchain.to_owned(),
            host: host.to_owned(),
            namespace: namespace.to_owned(),
            identity,
            fingerprint,
        }
    }
}

/// The order of the open-buffer overrides does not matter to a document's
/// fingerprint, as long as no path is overridden twice: two override lists that hold
/// the same entries give the same hashed bytes, hence the same fingerprint.
pub proof fn lemma_fingerprint_ignores_override_order(
    path: Seq<char>,
    text: Seq<char>,
    a: Seq<(Seq<char>, Seq<char>)>,
    b: Seq<(Seq<char>, Seq<char>)>,
    manifest: Option<(Seq<char>, Result<Seq<u8>, Seq<char>>)>,
)
    requires
        distinct_paths(a),
        distinct_paths(b),
        forall|x: (Seq<char>, Seq<char>)| #[trigger] a.contains(x) == b.contains(x),
    ensures
        document_bytes(path, text, a, manifest) == document_bytes(path, text, b, manifest),
        sha256(document_bytes(path, text, a, manifest)) == sha256(
            document_bytes(path, text, b, manifest),
        ),
{
    lemma_sort_overrides(a);
    lemma_sort_overrides(b);
    let sa = sort_overrides(a);
    let sb = sort_overrides(b);
    assert forall|x: (Seq<char>, Seq<char>)|
        #![trigger sa.contains(x)]
        #![trigger sb.contains(x)]
        sa.contains(x) == sb.contains(x) by {
        assert(sa.contains(x) == a.contains(x));
        assert(sb.contains(x) == b.contains(x));
    }
    lemma_sorted_overrides_unique(sa, sb);
}

impl QueryKey {
    /// The key's fields as the tuple the caches are keyed by.
    pub fn into_cache_key(self) -> (k: (u32, String, String, String, String, Vec<u8>))
        ensures
            cache_key_view(k) == key_view(self),
    {
        (self.schema, self.toolchain, self.host, self.namespace, self.identity, self.fingerprint)
    }
}

/// What a key identifies: its fields as plain values.
pub type KeyView = (u32, Seq<char>, Seq<char>, Seq<char>, Seq<char>, Seq<u8>);

/// A cached result: its encoded value and the files it was computed from.
pub type EntryView = (Seq<u8>, Seq<Seq<char>>);

/// The plain value of a query key.
pub open spec fn key_view(k: QueryKey) -> KeyView {
    (k.schema, k.toolchain@, k.host@, k.namespace@, k.identity@, k.fingerprint@)
}

/// The plain value of a key tuple.
pub open spec fn cache_key_view(k: (u32, String, String, String, String, Vec<u8>)) -> KeyView {
    (k.0, k.1@, k.2@, k.3@, k.4@, k.5@)
}

/// The plain value of a stored entry.
pub open spec fn entry_view(e: (Vec<u8>, Vec<String>)) -> EntryView {
    (e.0@, views(e.1@))
}

#[verifier::external_type_specification]
#[verifier::external_body]
#[verifier::reject_recursive_types(K)]
#[verifier::reject_recursive_types(V)]
#[verifier::reject_recursive_types(S)]
pub struct ExDashMap<K, V, S>(DashMap<K, V, S>);

/// The entries a cache map holds, by key.
pub uninterp spec fn cached_entries(
    m: DashMap<(u32, String, String, String, String, Vec<u8>), (Vec<u8>, Vec<String>)>,
) -> Map<KeyView, EntryView>;

/// `DashMap::new`: a map with no entries.
#[verifier::external_body]
fn new_entries() -> (m: DashMap<(u32, String, String, String, String, Vec<u8>), (Vec<u8>, Vec<String>)>)
    ensures
        cached_entries(m).is_empty(),
        cached_entries(m).dom().finite(),
{
    DashMap::new()
}

/// `DashMap::get`: the value stored under `key`, copied out, when there is one.
#[verifier::external_body]
fn entries_get(
    m: &DashMap<(u32, String, String, String, String, Vec<u8>), (Vec<u8>, Vec<String>)>,
    key: &(u32, String, String, String, String, Vec<u8>),
) -> (r: Option<Vec<u8>>)
    ensures
        r is Some == cached_entries(*m).contains_key(cache_key_view(*key)),
        r matches Some(v) ==> v@ == cached_entries(*m)[cache_key_view(*key)].0,
{
    match m.get(key) {
        Some(entry) => Some(entry.value().0.clone()),
        None => None,
    }
}

/// `DashMap::insert`: stores `entry` under `key`, replacing any entry there.
#[verifier::external_body]
fn entries_insert(
    m: &mut DashMap<(u32, String, String, String, String, Vec<u8>), (Vec<u8>, Vec<String>)>,
    key: (u32, String, String, String, String, Vec<u8>),
    entry: (Vec<u8>, Vec<String>),
)
    ensures
        cached_entries(*final(m)) == cached_entries(*old(m)).insert(
            cache_key_view(key),
            entry_view(entry),
        ),
        cached_entries(*final(m)).dom().finite(),
{
    m.insert(key, entry);
}

/// `DashMap::len`: the number of entries (finitely many).
#[verifier::external_body]
fn entries_len(
    m: &DashMap<(u32, String, String, String, String, Vec<u8>), (Vec<u8>, Vec<String>)>,
) -> (n: usize)
    ensures
        n == cached_entries(*m).len(),
{
    m.len()
}

/// `DashMap::clear`: removes every entry.
#[verifier::external_body]
fn entries_clear(
    m: &mut DashMap<(u32, String, String, String, String, Vec<u8>), (Vec<u8>, Vec<String>)>,
)
    ensures
        cached_entries(*final(m)).is_empty(),
        cached_entries(*final(m)).dom().finite(),
{
    m.clear();
}

/// `DashMap::retain` with [`keeps_entry`]: removes the entries that depend on `path`.
#[verifier::external_body]
fn entries_retain_independent(
    m: &mut DashMap<(u32, String, String, String, String, Vec<u8>), (Vec<u8>, Vec<String>)>,
    path: &String,
)
    ensures
        cached_entries(*final(m)) == independent_entries(cached_entries(*old(m)), path@),
        cached_entries(*final(m)).dom().finite(),
{
    m.retain(|_, entry| keeps_entry(entry, path));
}

/// The entries that do not depend on `path`.
pub open spec fn independent_entries(entries: Map<KeyView, EntryView>, path: Seq<char>) -> Map<
    KeyView,
    EntryView,
> {
    entries.restrict(Set::new(|k: KeyView| !has_path(entries[k].1, path)))
}

/// Whether a stored entry survives the invalidation of `path`.
fn keeps_entry(entry: &(Vec<u8>, Vec<String>), path: &String) -> (b: bool)
    ensures
        b == !has_path(views(entry.1@), path@),
{
    let ghost v = views(entry.1@);
    let mut i: usize = 0;
    while i < entry.1.len()
        invariant
            i <= entry.1.len(),
            v == views(entry.1@),
            forall|j: int| 0 <= j < i ==> path_key(#[trigger] v[j]) != path_key(path@),
        decreases entry.1.len() - i,
    {
        assert(v[i as int] == entry.1@[i as int]@);
        if same_path(&entry.1[i], path) {
            return false;
        }
        i = i + 1;
    }
    true
}

/// A copy of a byte string.
fn copy_bytes(v: &Vec<u8>) -> (r: Vec<u8>)
    ensures
        r@ == v@,
{
    let mut r: Vec<u8> = Vec::new();
    let mut i: usize = 0;
    while i < v.len()
        invariant
            i <= v.len(),
            r@ == v@.take(i as int),
        decreases v.len() - i,
    {
        r.push(v[i]);
        assert(r@ =~= v@.take(i + 1));
        i = i + 1;
    }
    assert(v@.take(v.len() as int) =~= v@);
    r
}

/// The abstract state of a query cache: its entries and its counters.
pub struct CacheState {
    pub entries: Map<KeyView, EntryView>,
    pub hits: u64,
    pub misses: u64,
    pub invalidations: u64,
}

/// A counter after counting `n` more events (counters wrap around).
pub open spec fn counted(counter: u64, n: u64) -> u64 {
    vstd::wrapping::u64_specs::wrapping_add(counter, n)
}

/// The state after a lookup that found its key.
pub open spec fn after_hit(c: CacheState) -> CacheState {
    CacheState { hits: counted(c.hits, 1), ..c }
}

/// The state after a lookup that missed and stored `value` computed from `deps`.
pub open spec fn after_miss(c: CacheState, key: KeyView, value: Seq<u8>, deps: Seq<Seq<char>>) -> CacheState {
    CacheState { entries: c.entries.insert(key, (value, deps)), misses: counted(c.misses, 1), ..c }
}

/// How a lookup of `key` moved the cache from `old` to `new` and what it returned:
/// a stored entry's value (a hit), or a fresh value `r` now stored with `deps` (a miss).
pub open spec fn lookup_outcome(
    old: CacheState,
    new: CacheState,
    key: KeyView,
    deps: Seq<Seq<char>>,
    r: Seq<u8>,
) -> bool {
    if old.entries.contains_key(key) {
        r == old.entries[key].0 && new == after_hit(old)
    } else {
        new == after_miss(old, key, r, deps)
    }
}

/// How invalidating `path` moved the cache from `old` to `new`, `removed` entries
/// having been dropped.
pub open spec fn invalidated(old: CacheState, new: CacheState, path: Seq<char>, removed: usize) -> bool {
    &&& new.entries == independent_entries(old.entries, path)
    &&& old.entries.dom().finite()
    &&& removed == old.entries.len() - new.entries.len()
    &&& new.invalidations == counted(old.invalidations, removed as u64)
    &&& new.hits == old.hits
    &&& new.misses == old.misses
}

/// How clearing moved the cache from `old` to `new`, `removed` entries having been dropped.
pub open spec fn cleared(old: CacheState, new: CacheState, removed: usize) -> bool {
    &&& new.entries.is_empty()
    &&& old.entries.dom().finite()
    &&& removed == old.entries.len()
    &&& new.invalidations == counted(old.invalidations, removed as u64)
    &&& new.hits == old.hits
    &&& new.misses == old.misses
}

/// A cache of computed query results, each stored with the files it depends on,
/// counting hits, misses and invalidated entries.
pub struct QueryCache {
    entries: DashMap<(u32, String, String, String, String, Vec<u8>), (Vec<u8>, Vec<String>)>,
    hits: u64,
    misses: u64,
    invalidations: u64,
}

impl QueryCache {
    /// A cache map never holds infinitely many entries.
    #[verifier::type_invariant]
    spec fn finite_entries(self) -> bool {
        cached_entries(self.entries).dom().finite()
    }
}

impl View for QueryCache {
    type V = CacheState;

    closed spec fn view(&self) -> CacheState {
        CacheState {
            entries: cached_entries(self.entries),
            hits: self.hits,
            misses: self.misses,
            invalidations: self.invalidations,
        }
    }
}

/// Counts of a cache's (or a session's) activity.
#[derive(Clone, Copy, Debug, Default, PartialEq, Eq, Structural)]
pub struct CacheStats {
    pub hits: u64,
    pub misses: u64,
    pub invalidations: u64,
    pub entries: u64,
}

impl CacheStats {
    /// Field-wise sum of two counts.
    pub fn add(self, other: Self) -> (r: Self)
        requires
            self.hits + other.hits <= u64::MAX,
            self.misses + other.misses <= u64::MAX,
            self.invalidations + other.invalidations <= u64::MAX,
            self.entries + other.entries <= u64::MAX,
        ensures
            r.hits == self.hits + other.hits,
            r.misses == self.misses + other.misses,
            r.invalidations == self.invalidations + other.invalidations,
            r.entries == self.entries + other.entries,
    {
        CacheStats {
            hits: self.hits + other.hits,
            misses: self.misses + other.misses,
            invalidations: self.invalidations + other.invalidations,
            entries: self.entries + other.entries,
        }
    }
}

impl QueryCache {
    /// An empty cache with zeroed counters.
    pub fn new() -> (c: Self)
        ensures
            c@.entries.is_empty(),
            c@.hits == 0,
            c@.misses == 0,
            c@.invalidations == 0,
    {
        QueryCache { entries: new_entries(), hits: 0, misses: 0, invalidations: 0 }
    }

    /// The cached value for `key`, or the value `compute` gives, which is then stored
    /// with its `dependencies`.
    pub fn get_or_compute<F: FnOnce() -> Vec<u8>>(
        &mut self,
        key: QueryKey,
        dependencies: Vec<String>,
        compute: F,
    ) -> (r: Vec<u8>)
        requires
            compute.requires(()),
        ensures
            lookup_outcome(old(self)@, final(self)@, key_view(key), views(dependencies@), r@),
            !old(self)@.entries.contains_key(key_view(key)) ==> compute.ensures((), r),
    {
        proof {
            use_type_invariant(&*self);
        }
        let k = key.into_cache_key();
        match entries_get(&self.entries, &k) {
            Some(value) => {
                self.hits = self.hits.wrapping_add(1);
                value
            },
            None => {
                self.misses = self.misses.wrapping_add(1);
                let value = compute();
                let stored = copy_bytes(&value);
                let mut entries = new_entries();
                std::mem::swap(&mut entries, &mut self.entries);
                entries_insert(&mut entries, k, (stored, dependencies));
                std::mem::swap(&mut entries, &mut self.entries);
                value
            },
        }
    }

    /// Drops every entry that depends on `path`; returns how many were dropped.
    pub fn invalidate_path(&mut self, path: &String) -> (removed: usize)
        ensures
            invalidated(old(self)@, final(self)@, path@, removed),
    {
        proof {
            use_type_invariant(&*self);
        }
        let before = entries_len(&self.entries);
        let mut entries = new_entries();
        std::mem::swap(&mut entries, &mut self.entries);
        entries_retain_independent(&mut entries, path);
        std::mem::swap(&mut entries, &mut self.entries);
        let after = entries_len(&self.entries);
        proof {
            lemma_independent_entries_len(cached_entries(old(self).entries), path@);
        }
        let removed = before.saturating_sub(after);
        self.invalidations = self.invalidations.wrapping_add(removed as u64);
        removed
    }

    /// Drops every entry; returns how many there were.
    pub fn clear(&mut self) -> (removed: usize)
        ensures
            cleared(old(self)@, final(self)@, removed),
    {
        proof {
            use_type_invariant(&*self);
        }
        let removed = entries_len(&self.entries);
        let mut entries = new_entries();
        std::mem::swap(&mut entries, &mut self.entries);
        entries_clear(&mut entries);
        std::mem::swap(&mut entries, &mut self.entries);
        self.invalidations = self.invalidations.wrapping_add(removed as u64);
        removed
    }

    /// The cache's counters and its number of entries.
    pub fn stats(&self) -> (s: CacheStats)
        ensures
            s.hits == self@.hits,
            s.misses == self@.misses,
            s.invalidations == self@.invalidations,
            s.entries == self@.entries.len(),
    {
        let n = entries_len(&self.entries);
        CacheStats {
            hits: self.hits,
            misses: self.misses,
            invalidations: self.invalidations,
            entries: n as u64,
        }
    }
}

proof fn lemma_independent_entries_len(entries: Map<KeyView, EntryView>, path: Seq<char>)
    requires
        entries.dom().finite(),
    ensures
        independent_entries(entries, path).dom().finite(),
        independent_entries(entries, path).len() <= entries.len(),
{
    let kept = independent_entries(entries, path);
    assert(kept.dom() =~= entries.dom().filter(|k: KeyView| !has_path(entries[k].1, path)));
    entries.dom().lemma_len_filter(|k: KeyView| !has_path(entries[k].1, path));
}

impl Default for QueryCache {
    /// An empty cache with zeroed counters.
    fn default() -> (c: Self)
        ensures
            c@.entries.is_empty(),
            c@.hits == 0,
            c@.misses == 0,
            c@.invalidations == 0,
    {
        QueryCache::new()
    }
}

/// The four query caches of an editor session.
pub struct IncrementalSession {
    pub diagnostics: QueryCache,
    pub completions: QueryCache,
    pub document_symbols: QueryCache,
    pub semantic_tokens: QueryCache,
}

/// Whether summing the four caches' statistics stays within `u64`.
pub open spec fn stats_fit(d: CacheState, c: CacheState, s: CacheState, t: CacheState) -> bool {
    &&& d.hits + c.hits + s.hits + t.hits <= u64::MAX
    &&& d.misses + c.misses + s.misses + t.misses <= u64::MAX
    &&& d.invalidations + c.invalidations + s.invalidations + t.invalidations <= u64::MAX
    &&& d.entries.len() + c.entries.len() + s.entries.len() + t.entries.len() <= u64::MAX
}

impl IncrementalSession {
    /// A session whose caches are all empty.
    pub fn new() -> (s: Self)
        ensures
            s.diagnostics@.entries.is_empty() && s.diagnostics@.hits == 0 && s.diagnostics@.misses
                == 0 && s.diagnostics@.invalidations == 0,
            s.completions@.entries.is_empty() && s.completions@.hits == 0 && s.completions@.misses
                == 0 && s.completions@.invalidations == 0,
            s.document_symbols@.entries.is_empty() && s.document_symbols@.hits == 0
                && s.document_symbols@.misses == 0 && s.document_symbols@.invalidations == 0,
            s.semantic_tokens@.entries.is_empty() && s.semantic_tokens@.hits == 0
                && s.semantic_tokens@.misses == 0 && s.semantic_tokens@.invalidations == 0,
    {
        IncrementalSession {
            diagnostics: QueryCache::new(),
            completions: QueryCache::new(),
            document_symbols: QueryCache::new(),
            semantic_tokens: QueryCache::new(),
        }
    }

    /// Cached diagnostics (encoded) for `key`.
    pub fn diagnostics<F: FnOnce() -> Vec<u8>>(
        &mut self,
        key: QueryKey,
        dependencies: Vec<String>,
        compute: F,
    ) -> (r: Vec<u8>)
        requires
            compute.requires(()),
        ensures
            lookup_outcome(
                old(self).diagnostics@,
                final(self).diagnostics@,
                key_view(key),
                views(dependencies@),
                r@,
            ),
            !old(self).diagnostics@.entries.contains_key(key_view(key)) ==> compute.ensures((), r),
            final(self).completions@ == old(self).completions@,
            final(self).document_symbols@ == old(self).document_symbols@,
            final(self).semantic_tokens@ == old(self).semantic_tokens@,
    {
        self.diagnostics.get_or_compute(key, dependencies, compute)
    }

    /// Cached completions (encoded) for `key`.
    pub fn completions<F: FnOnce() -> Vec<u8>>(
        &mut self,
        key: QueryKey,
        dependencies: Vec<String>,
        compute: F,
    ) -> (r: Vec<u8>)
        requires
            compute.requires(()),
        ensures
            lookup_outcome(
                old(self).completions@,
                final(self).completions@,
                key_view(key),
                views(dependencies@),
                r@,
            ),
            !old(self).completions@.entries.contains_key(key_view(key)) ==> compute.ensures((), r),
            final(self).diagnostics@ == old(self).diagnostics@,
            final(self).document_symbols@ == old(self).document_symbols@,
            final(self).semantic_tokens@ == old(self).semantic_tokens@,
    {
        self.completions.get_or_compute(key, dependencies, compute)
    }

    /// Cached document symbols (encoded) for `key`.
    pub fn document_symbols<F: FnOnce() -> Vec<u8>>(
        &mut self,
        key: QueryKey,
        dependencies: Vec<String>,
        compute: F,
    ) -> (r: Vec<u8>)
        requires
            compute.requires(()),
        ensures
            lookup_outcome(
                old(self).document_symbols@,
                final(self).document_symbols@,
                key_view(key),
                views(dependencies@),
                r@,
            ),
            !old(self).document_symbols@.entries.contains_key(key_view(key)) ==> compute.ensures(
                (),
                r,
            ),
            final(self).diagnostics@ == old(self).diagnostics@,
            final(self).completions@ == old(self).completions@,
            final(self).semantic_tokens@ == old(self).semantic_tokens@,
    {
        self.document_symbols.get_or_compute(key, dependencies, compute)
    }

    /// Cached semantic tokens (encoded) for `key`.
    pub fn semantic_tokens<F: FnOnce() -> Vec<u8>>(
        &mut self,
        key: QueryKey,
        dependencies: Vec<String>,
        compute: F,
    ) -> (r: Vec<u8>)
        requires
            compute.requires(()),
        ensures
            lookup_outcome(
                old(self).semantic_tokens@,
                final(self).semantic_tokens@,
                key_view(key),
                views(dependencies@),
                r@,
            ),
            !old(self).semantic_tokens@.entries.contains_key(key_view(key)) ==> compute.ensures(
                (),
                r,
            ),
            final(self).diagnostics@ == old(self).diagnostics@,
            final(self).completions@ == old(self).completions@,
            final(self).document_symbols@ == old(self).document_symbols@,
    {
        self.semantic_tokens.get_or_compute(key, dependencies, compute)
    }

    /// The number of entries in all four caches.
    pub fn total_entries(&self) -> (n: u128)
        ensures
            n == self.diagnostics@.entries.len() + self.completions@.entries.len()
                + self.document_symbols@.entries.len() + self.semantic_tokens@.entries.len(),
    {
        self.diagnostics.stats().entries as u128 + self.completions.stats().entries as u128
            + self.document_symbols.stats().entries as u128
            + self.semantic_tokens.stats().entries as u128
    }

    /// Drops, in every cache, the entries that depend on `path`; returns how many
    /// were dropped in all.
    pub fn invalidate_path(&mut self, path: &String) -> (removed: usize)
        requires
            old(self).diagnostics@.entries.len() + old(self).completions@.entries.len() + old(
                self,
            ).document_symbols@.entries.len() + old(self).semantic_tokens@.entries.len()
                <= usize::MAX,
        ensures
            exists|a: usize, b: usize, c: usize, d: usize|
                {
                    &&& invalidated(old(self).diagnostics@, final(self).diagnostics@, path@, a)
                    &&& invalidated(old(self).completions@, final(self).completions@, path@, b)
                    &&& invalidated(
                        old(self).document_symbols@,
                        final(self).document_symbols@,
                        path@,
                        c,
                    )
                    &&& invalidated(
                        old(self).semantic_tokens@,
                        final(self).semantic_tokens@,
                        path@,
                        d,
                    )
                    &&& removed == a + b + c + d
                },
    {
        let a = self.diagnostics.invalidate_path(path);
        let b = self.completions.invalidate_path(path);
        let c = self.document_symbols.invalidate_path(path);
        let d = self.semantic_tokens.invalidate_path(path);
        assert(invalidated(old(self).diagnostics@, self.diagnostics@, path@, a));
        assert(invalidated(old(self).completions@, self.completions@, path@, b));
        assert(invalidated(old(self).document_symbols@, self.document_symbols@, path@, c));
        assert(invalidated(old(self).semantic_tokens@, self.semantic_tokens@, path@, d));
        a + b + c + d
    }

    /// Empties every cache; returns how many entries there were in all.
    pub fn clear(&mut self) -> (removed: usize)
        requires
            old(self).diagnostics@.entries.len() + old(self).completions@.entries.len() + old(
                self,
            ).document_symbols@.entries.len() + old(self).semantic_tokens@.entries.len()
                <= usize::MAX,
        ensures
            exists|a: usize, b: usize, c: usize, d: usize|
                {
                    &&& cleared(old(self).diagnostics@, final(self).diagnostics@, a)
                    &&& cleared(old(self).completions@, final(self).completions@, b)
                    &&& cleared(old(self).document_symbols@, final(self).document_symbols@, c)
                    &&& cleared(old(self).semantic_tokens@, final(self).semantic_tokens@, d)
                    &&& removed == a + b + c + d
                },
    {
        let a = self.diagnostics.clear();
        let b = self.completions.clear();
        let c = self.document_symbols.clear();
        let d = self.semantic_tokens.clear();
        assert(cleared(old(self).diagnostics@, self.diagnostics@, a));
        assert(cleared(old(self).completions@, self.completions@, b));
        assert(cleared(old(self).document_symbols@, self.document_symbols@, c));
        assert(cleared(old(self).semantic_tokens@, self.semantic_tokens@, d));
        a + b + c + d
    }

    /// Whether the session's statistics can be summed (see [`stats_fit`]).
    pub fn stats_fit(&self) -> (b: bool)
        ensures
            b == stats_fit(
                self.diagnostics@,
                self.completions@,
                self.document_symbols@,
                self.semantic_tokens@,
            ),
    {
        let d = self.diagnostics.stats();
        let c = self.completions.stats();
        let s = self.document_symbols.stats();
        let t = self.semantic_tokens.stats();
        (d.hits as u128 + c.hits as u128 + s.hits as u128 + t.hits as u128 <= u64::MAX as u128)
            && (d.misses as u128 + c.misses as u128 + s.misses as u128 + t.misses as u128
            <= u64::MAX as u128) && (d.invalidations as u128 + c.invalidations as u128
            + s.invalidations as u128 + t.invalidations as u128 <= u64::MAX as u128) && (
        d.entries as u128 + c.entries as u128 + s.entries as u128 + t.entries as u128
            <= u64::MAX as u128)
    }

    /// The four caches' statistics, summed.
    pub fn stats(&self) -> (r: CacheStats)
        requires
            stats_fit(
                self.diagnostics@,
                self.completions@,
                self.document_symbols@,
                self.semantic_tokens@,
            ),
        ensures
            r.hits == self.diagnostics@.hits + self.completions@.hits + self.document_symbols@.hits
                + self.semantic_tokens@.hits,
            r.misses == self.diagnostics@.misses + self.completions@.misses
                + self.document_symbols@.misses + self.semantic_tokens@.misses,
            r.invalidations == self.diagnostics@.invalidations + self.completions@.invalidations
                + self.document_symbols@.invalidations + self.semantic_tokens@.invalidations,
            r.entries == self.diagnostics@.entries.len() + self.completions@.entries.len()
                + self.document_symbols@.entries.len() + self.semantic_tokens@.entries.len(),
    {
        self.diagnostics.stats().add(self.completions.stats()).add(
            self.document_symbols.stats(),
        ).add(self.semantic_tokens.stats())
    }
}

/// A lookup of a key right after a lookup of the same key (nothing dropped in
/// between) is a hit: it changes no entry and returns what the first lookup returned.
pub proof fn lemma_repeated_lookup_hits(
    c0: CacheState,
    c1: CacheState,
    c2: CacheState,
    key: KeyView,
    deps1: Seq<Seq<char>>,
    deps2: Seq<Seq<char>>,
    r1: Seq<u8>,
    r2: Seq<u8>,
)
    requires
        lookup_outcome(c0, c1, key, deps1, r1),
        lookup_outcome(c1, c2, key, deps2, r2),
    ensures
        c1.entries.contains_key(key),
        r2 == r1,
        c2 == after_hit(c1),
        c2.entries == c1.entries,
{
}

/// Invalidating a path drops exactly the entries that depend on it (that list a
/// path with its components), keeps every other entry as it was, and reports how
/// many it dropped.
pub proof fn lemma_invalidation_drops_dependents(
    c0: CacheState,
    c1: CacheState,
    path: Seq<char>,
    removed: usize,
)
    requires
        invalidated(c0, c1, path, removed),
    ensures
        forall|k: KeyView| #[trigger]
            c1.entries.contains_key(k) == (c0.entries.contains_key(k) && !has_path(c0.entries[k].1, path)),
        forall|k: KeyView| #[trigger] c1.entries.contains_key(k) ==> c1.entries[k] == c0.entries[k],
        removed == c0.entries.dom().filter(|k: KeyView| has_path(c0.entries[k].1, path)).len(),
{
    let dom = c0.entries.dom();
    let dropped = dom.filter(|k: KeyView| has_path(c0.entries[k].1, path));
    let kept = dom.filter(|k: KeyView| !has_path(c0.entries[k].1, path));
    assert(c1.entries.dom() =~= kept);
    dom.lemma_len_filter(|k: KeyView| has_path(c0.entries[k].1, path));
    dom.lemma_len_filter(|k: KeyView| !has_path(c0.entries[k].1, path));
    assert(dom =~= kept + dropped);
    vstd::set_lib::lemma_set_disjoint_lens(kept, dropped);
}

/// Paths in strictly increasing path order (so each occurs once).
pub open spec fn strictly_path_sorted(v: Seq<Seq<char>>) -> bool {
    forall|i: int, j: int| 0 <= i < j < v.len() ==> path_lt(#[trigger] v[i], #[trigger] v[j])
}

/// Whether `p` is one of the files a query on `path` depends on: an overridden
/// file, the document itself, or the nearest manifest.
pub open spec fn is_dependency(
    path: Seq<char>,
    overrides: Seq<(Seq<char>, Seq<char>)>,
    manifest: Option<Seq<char>>,
    p: Seq<char>,
) -> bool {
    (exists|i: int| 0 <= i < overrides.len() && #[trigger] overrides[i].0 == p) || p == path
        || manifest == Some(p)
}

/// The view of an optional string.
pub open spec fn optional_view(o: Option<String>) -> Option<Seq<char>> {
    match o {
        Some(s) => Some(s@),
        None => None,
    }
}

/// Whether `v` holds a path with the components of `p`.
pub open spec fn has_path(v: Seq<Seq<char>>, p: Seq<char>) -> bool {
    exists|i: int| 0 <= i < v.len() && path_key(#[trigger] v[i]) == path_key(p)
}

/// Adds `p` to the strictly sorted `paths` unless a path with its components is
/// already there (which is then kept as written).
fn insert_path(paths: &mut Vec<String>, p: String)
    requires
        strictly_path_sorted(views(old(paths)@)),
    ensures
        strictly_path_sorted(views(final(paths)@)),
        forall|x: Seq<char>| #[trigger]
            views(final(paths)@).contains(x) ==> (views(old(paths)@).contains(x) || x == p@),
        forall|x: Seq<char>| #[trigger]
            views(old(paths)@).contains(x) ==> views(final(paths)@).contains(x),
        has_path(views(final(paths)@), p@),
{
    let ghost v = views(paths@);
    let mut j: usize = 0;
    while j < paths.len() && path_precedes(&paths[j], &p)
        invariant
            j <= paths.len(),
            v == views(paths@),
            forall|i: int| 0 <= i < j ==> path_lt(#[trigger] v[i], p@),
        decreases paths.len() - j,
    {
        assert(v[j as int] == paths@[j as int]@);
        j = j + 1;
    }
    if j < paths.len() {
        assert(v[j as int] == paths@[j as int]@);
        if same_path(&paths[j], &p) {
            assert(path_key(v[j as int]) == path_key(p@));
            return ;
        }
        proof {
            lemma_path_lt_total(v[j as int], p@);
        }
    }
    let ghost pv = p@;
    paths.insert(j, p);
    proof {
        let w = views(paths@);
        assert(w =~= v.insert(j as int, pv));
        assert(w[j as int] == pv);
        assert forall|a: int, b: int| 0 <= a < b < w.len() implies path_lt(
            #[trigger] w[a],
            #[trigger] w[b],
        ) by {
            if b < j {
                assert(w[a] == v[a] && w[b] == v[b]);
            } else if b == j {
                assert(w[a] == v[a]);
            } else if a < j {
                assert(w[a] == v[a] && w[b] == v[b - 1]);
                lemma_path_lt_transitive(v[a], pv, v[b - 1]);
                if b - 1 > j {
                    lemma_path_lt_transitive(pv, v[j as int], v[b - 1]);
                }
            } else if a == j {
                assert(w[b] == v[b - 1]);
                if b - 1 > j {
                    lemma_path_lt_transitive(pv, v[j as int], v[b - 1]);
                }
            } else {
                assert(w[a] == v[a - 1] && w[b] == v[b - 1]);
            }
        }
        assert forall|x: Seq<char>| #[trigger] w.contains(x) ==> (v.contains(x) || x == pv) by {
            if w.contains(x) {
                let i = choose|i: int| 0 <= i < w.len() && w[i] == x;
                if i < j {
                    assert(v[i] == x);
                } else if i > j {
                    assert(v[i - 1] == x);
                }
            }
        }
        assert forall|x: Seq<char>| #[trigger] v.contains(x) ==> w.contains(x) by {
            if v.contains(x) {
                let i = choose|i: int| 0 <= i < v.len() && v[i] == x;
                if i < j {
                    assert(w[i] == x);
                } else {
                    assert(w[i + 1] == x);
                }
            }
        }
    }
}

/// The files a query on the document at `path` depends on: every overridden file,
/// the document, and the nearest manifest when there is one; each path once (paths
/// with the same components count once), in path order.
pub fn dependency_paths(
    path: &String,
    overrides: &Vec<(String, String)>,
    manifest: Option<String>,
) -> (paths: Vec<String>)
    ensures
        strictly_path_sorted(views(paths@)),
        forall|p: Seq<char>| #[trigger]
            views(paths@).contains(p) ==> is_dependency(
                path@,
                overrides_view(overrides@),
                optional_view(manifest),
                p,
            ),
        forall|p: Seq<char>|
            is_dependency(path@, overrides_view(overrides@), optional_view(manifest), p) ==> #[trigger] has_path(
                views(paths@),
                p,
            ),
{
    let ghost ov = overrides_view(overrides@);
    let ghost mv = optional_view(manifest);
    let mut paths: Vec<String> = Vec::new();
    let mut i: usize = 0;
    while i < overrides.len()
        invariant
            i <= overrides.len(),
            ov == overrides_view(overrides@),
            strictly_path_sorted(views(paths@)),
            forall|p: Seq<char>| #[trigger]
                views(paths@).contains(p) ==> (exists|k: int| 0 <= k < i && #[trigger] ov[k].0 == p),
            forall|k: int| 0 <= k < i ==> #[trigger] has_path(views(paths@), ov[k].0),
        decreases overrides.len() - i,
    {
        let ghost before = views(paths@);
        insert_path(&mut paths, overrides[i].0.clone());
        assert(ov[i as int].0 == overrides@[i as int].0@);
        proof {
            let after = views(paths@);
            assert forall|k: int| 0 <= k < i + 1 implies #[trigger] has_path(after, ov[k].0) by {
                if k < i {
                    assert(has_path(before, ov[k].0));
                    let w = choose|w: int| 0 <= w < before.len() && path_key(#[trigger] before[w]) == path_key(ov[k].0);
                    assert(before.contains(before[w]));
                    assert(after.contains(before[w]));
                    let w2 = choose|w2: int| 0 <= w2 < after.len() && after[w2] == before[w];
                    assert(path_key(after[w2]) == path_key(ov[k].0));
                }
            }
            assert forall|p: Seq<char>| #[trigger] after.contains(p) implies (exists|k: int|
                0 <= k < i + 1 && #[trigger] ov[k].0 == p) by {
                if before.contains(p) {
                    let k = choose|k: int| 0 <= k < i && #[trigger] ov[k].0 == p;
                    assert(0 <= k < i + 1 && ov[k].0 == p);
                } else {
                    assert(ov[i as int].0 == p);
                }
            }
        }
        i = i + 1;
    }
    let ghost from_overrides = views(paths@);
    insert_path(&mut paths, path.clone());
    let ghost with_path = views(paths@);
    proof {
        assert forall|k: int| 0 <= k < overrides.len() implies #[trigger] has_path(with_path, ov[k].0) by {
            assert(has_path(from_overrides, ov[k].0));
            let w = choose|w: int| 0 <= w < from_overrides.len() && path_key(#[trigger] from_overrides[w]) == path_key(ov[k].0);
            assert(from_overrides.contains(from_overrides[w]));
            let w2 = choose|w2: int| 0 <= w2 < with_path.len() && with_path[w2] == from_overrides[w];
            assert(path_key(with_path[w2]) == path_key(ov[k].0));
        }
    }
    match manifest {
        Some(m) => {
            insert_path(&mut paths, m);
        },
        None => {},
    }
    proof {
        let fin = views(paths@);
        assert forall|p: Seq<char>| #[trigger] has_path(with_path, p) implies has_path(fin, p) by {
            let w = choose|w: int| 0 <= w < with_path.len() && path_key(#[trigger] with_path[w]) == path_key(p);
            assert(with_path.contains(with_path[w]));
            let w2 = choose|w2: int| 0 <= w2 < fin.len() && fin[w2] == with_path[w];
            assert(path_key(fin[w2]) == path_key(p));
        }
        assert forall|p: Seq<char>|
            is_dependency(path@, ov, mv, p) implies #[trigger] has_path(fin, p) by {
            if exists|k: int| 0 <= k < ov.len() && #[trigger] ov[k].0 == p {
                let k = choose|k: int| 0 <= k < ov.len() && #[trigger] ov[k].0 == p;
                assert(has_path(with_path, ov[k].0));
            } else if p == path@ {
                assert(has_path(with_path, p));
            }
        }
        assert forall|p: Seq<char>| #[trigger] fin.contains(p) implies is_dependency(path@, ov, mv, p) by {
            if with_path.contains(p) {
                if from_overrides.contains(p) {
                    let k = choose|k: int| 0 <= k < overrides.len() && #[trigger] ov[k].0 == p;
                }
            }
        }
    }
    paths
}

/// The first candidate whose flag says it exists as a file.
pub open spec fn first_existing(candidates: Seq<Seq<char>>, exists: Seq<bool>) -> Option<Seq<char>>
    decreases candidates.len(),
{
    if candidates.len() == 0 || exists.len() == 0 {
        None
    } else if exists[0] {
        Some(candidates[0])
    } else {
        first_existing(candidates.drop_first(), exists.drop_first())
    }
}

/// The nearest project manifest: the first of the candidate manifest paths (nearest
/// directory first) that `is_file` marks as an existing file.
pub fn nearest_manifest(candidates: &Vec<String>, is_file: &Vec<bool>) -> (r: Option<String>)
    ensures
        r matches Some(m) ==> first_existing(views(candidates@), is_file@) == Some(m@),
        r is None ==> first_existing(views(candidates@), is_file@) is None,
{
    let ghost cv = views(candidates@);
    let mut i: usize = 0;
    while i < candidates.len() && i < is_file.len()
        invariant
            i <= candidates.len(),
            i <= is_file.len(),
            cv == views(candidates@),
            cv.len() == candidates.len(),
            first_existing(cv.skip(i as int), is_file@.skip(i as int)) == first_existing(
                cv,
                is_file@,
            ),
        decreases candidates.len() - i,
    {
        assert(cv.skip(i as int).drop_first() =~= cv.skip(i + 1));
        assert(is_file@.skip(i as int).drop_first() =~= is_file@.skip(i + 1));
        assert(cv.skip(i as int)[0] == candidates@[i as int]@);
        if is_file[i] {
            return Some(candidates[i].clone());
        }
        i = i + 1;
    }
    assert(cv.skip(i as int).len() == 0 || is_file@.skip(i as int).len() == 0);
    None
}

/// Where a directory's manifest would be: `dir` joined with `nomo.toml`.
pub open spec fn manifest_in(dir: Seq<char>) -> Seq<char> {
    if dir.len() == 0 {
        "nomo.toml"@
    } else if dir.last() == '/' {
        dir + "nomo.toml"@
    } else {
        dir + "/nomo.toml"@
    }
}

/// The manifest path of each directory, in the given (nearest first) order.
pub fn manifest_candidates(ancestors: &Vec<String>) -> (r: Vec<String>)
    ensures
        r.len() == ancestors.len(),
        forall|i: int| 0 <= i < r.len() ==> #[trigger] r@[i]@ == manifest_in(ancestors@[i]@),
{
    let mut r: Vec<String> = Vec::new();
    let mut i: usize = 0;
    while i < ancestors.len()
        invariant
            i <= ancestors.len(),
            r.len() == i,
            forall|k: int| 0 <= k < i ==> #[trigger] r@[k]@ == manifest_in(ancestors@[k]@),
        decreases ancestors.len() - i,
    {
        let dir = &ancestors[i];
        let chars = crate::text::text_chars(dir.as_str());
        let mut m = dir.clone();
        if chars.len() == 0 {
            m = "nomo.toml".to_owned();
        } else if chars[chars.len() - 1] == '/' {
            m.append("nomo.toml");
        } else {
            m.append("/nomo.toml");
        }
        r.push(m);
        i = i + 1;
    }
    r
}


/// How much of a path's start is not a component to drop, as the standard library
/// reads a Unix path: one character for a root `/` or for a leading `.` segment,
/// else none.
pub open spec fn path_floor(q: Seq<char>) -> nat {
    if q.len() > 0 && q[0] == '/' {
        1
    } else if q.len() > 0 && q[0] == '.' && (q.len() == 1 || q[1] == '/') {
        1
    } else {
        0
    }
}

/// `q` without its trailing separators and `.` segments, keeping the first `f`
/// characters.
pub open spec fn trim_junk(q: Seq<char>, f: nat) -> Seq<char>
    decreases q.len(),
{
    if q.len() <= f {
        q
    } else if q.last() == '/' {
        trim_junk(q.drop_last(), f)
    } else if q.last() == '.' && (q.len() - 1 == f || q[q.len() - 2] == '/') {
        trim_junk(q.drop_last(), f)
    } else {
        q
    }
}

/// `q` without its last segment and the separator before it, keeping the first
/// `f` characters.
pub open spec fn cut_segment(q: Seq<char>, f: nat) -> Seq<char>
    decreases q.len(),
{
    if q.len() <= f {
        q
    } else if q.last() == '/' {
        q.drop_last()
    } else {
        cut_segment(q.drop_last(), f)
    }
}

/// The parent of a Unix path as `Path::parent` gives it: the path without its last
/// component (and the separators and `.` segments around it); the empty path for
/// a relative path of one component; none for the root or the empty path.
pub open spec fn path_parent(q: Seq<char>) -> Option<Seq<char>> {
    let f = path_floor(q);
    let t = trim_junk(q, f);
    if t.len() > f {
        Some(trim_junk(cut_segment(t, f), f))
    } else if f == 1 && q[0] != '/' {
        Some(Seq::empty())
    } else {
        None
    }
}

proof fn lemma_trim_junk_prefix(q: Seq<char>, f: nat)
    ensures
        trim_junk(q, f).len() <= q.len(),
        trim_junk(q, f) == q.take(trim_junk(q, f).len() as int),
        q.len() >= f ==> trim_junk(q, f).len() >= f,
    decreases q.len(),
{
    if q.len() > f && (q.last() == '/' || (q.last() == '.' && (q.len() - 1 == f || q[q.len() - 2]
        == '/'))) {
        lemma_trim_junk_prefix(q.drop_last(), f);
        assert(q.drop_last().take(trim_junk(q, f).len() as int) =~= q.take(
            trim_junk(q, f).len() as int,
        ));
    } else {
        assert(q.take(q.len() as int) =~= q);
    }
}

proof fn lemma_cut_segment_prefix(q: Seq<char>, f: nat)
    ensures
        cut_segment(q, f).len() <= q.len(),
        q.len() > f ==> cut_segment(q, f).len() < q.len() && cut_segment(q, f).len() >= f,
        cut_segment(q, f) == q.take(cut_segment(q, f).len() as int),
    decreases q.len(),
{
    if q.len() > f && q.last() != '/' {
        lemma_cut_segment_prefix(q.drop_last(), f);
        assert(q.drop_last().take(cut_segment(q, f).len() as int) =~= q.take(
            cut_segment(q, f).len() as int,
        ));
    } else if q.len() > f {
        assert(q.drop_last() =~= q.take(q.len() - 1));
    } else {
        assert(q.take(q.len() as int) =~= q);
    }
}

/// A parent is a proper prefix of its path.
pub proof fn lemma_parent_shorter(q: Seq<char>)
    ensures
        path_parent(q) matches Some(r) ==> r.len() < q.len() && r == q.take(r.len() as int),
{
    let f = path_floor(q);
    let t = trim_junk(q, f);
    lemma_trim_junk_prefix(q, f);
    if t.len() > f {
        let c = cut_segment(t, f);
        lemma_cut_segment_prefix(t, f);
        lemma_trim_junk_prefix(c, f);
        let r = trim_junk(c, f);
        assert(r =~= q.take(r.len() as int));
    } else if f == 1 && q[0] != '/' {
        assert(Seq::<char>::empty() =~= q.take(0));
    }
}

/// The ancestors of a Unix path as `Path::ancestors` lists them: the path itself,
/// then each parent in turn, nearest first.
pub open spec fn path_ancestors(q: Seq<char>) -> Seq<Seq<char>>
    decreases q.len(),
{
    match path_parent(q) {
        Some(r) => {
            proof {
                lemma_parent_shorter(q);
            }
            seq![q] + path_ancestors(r)
        },
        None => seq![q],
    }
}

proof fn lemma_ancestors_shrink(q: Seq<char>)
    ensures
        path_ancestors(q).len() > 0,
        path_ancestors(q)[0] == q,
        forall|i: int|
            0 <= i < path_ancestors(q).len() ==> #[trigger] path_ancestors(q)[i] == q.take(
                path_ancestors(q)[i].len() as int,
            ),
        forall|i: int, j: int|
            0 <= i < j < path_ancestors(q).len() ==> (#[trigger] path_ancestors(q)[j]).len() < (
            #[trigger] path_ancestors(q)[i]).len(),
    decreases q.len(),
{
    lemma_parent_shorter(q);
    assert(q.take(q.len() as int) =~= q);
    match path_parent(q) {
        Some(r) => {
            lemma_ancestors_shrink(r);
            let a = path_ancestors(q);
            let rest = path_ancestors(r);
            assert(a =~= seq![q] + rest);
            assert forall|i: int| 0 <= i < a.len() implies #[trigger] a[i] == q.take(
                a[i].len() as int,
            ) by {
                if i > 0 {
                    assert(a[i] == rest[i - 1]);
                    assert(rest[i - 1] == r.take(rest[i - 1].len() as int));
                    assert(rest[i - 1].len() <= rest[0].len());
                    assert(r.take(rest[i - 1].len() as int) =~= q.take(rest[i - 1].len() as int));
                }
            }
            assert forall|i: int, j: int| 0 <= i < j < a.len() implies (#[trigger] a[j]).len() < (
            #[trigger] a[i]).len() by {
                assert(a[j] == rest[j - 1]);
                if i > 0 {
                    assert(a[i] == rest[i - 1]);
                } else {
                    assert(rest[j - 1].len() <= rest[0].len()) by {
                        if j - 1 > 0 {
                            assert(rest[j - 1].len() < rest[0].len());
                        }
                    }
                }
            }
        },
        None => {},
    }
}

/// The manifest search walks upward: every directory searched is the start of the
/// path, and each one after the first is shorter than the one before it, so the
/// nearest directory comes first.
pub proof fn lemma_manifest_search_walks_upward(path: Seq<char>, is_dir: bool)
    ensures
        forall|i: int|
            0 <= i < search_dirs(path, is_dir).len() ==> #[trigger] search_dirs(path, is_dir)[i]
                == path.take(search_dirs(path, is_dir)[i].len() as int),
        forall|i: int, j: int|
            0 <= i < j < search_dirs(path, is_dir).len() ==> (#[trigger] search_dirs(
                path,
                is_dir,
            )[j]).len() < (#[trigger] search_dirs(path, is_dir)[i]).len(),
{
    if is_dir {
        lemma_ancestors_shrink(path);
    } else {
        lemma_parent_shorter(path);
        match path_parent(path) {
            Some(q) => {
                lemma_ancestors_shrink(q);
                let a = path_ancestors(q);
                assert forall|i: int| 0 <= i < a.len() implies #[trigger] a[i] == path.take(
                    a[i].len() as int,
                ) by {
                    assert(a[i] == q.take(a[i].len() as int));
                    if i > 0 {
                        assert(a[i].len() < a[0].len());
                    }
                    assert(q.take(a[i].len() as int) =~= path.take(a[i].len() as int));
                }
            },
            None => {},
        }
    }
}

/// The directories searched for the project manifest, nearest first: the ancestors
/// of `path` when it is a directory, else those of its parent (none when it has
/// no parent).
pub open spec fn search_dirs(path: Seq<char>, is_dir: bool) -> Seq<Seq<char>> {
    if is_dir {
        path_ancestors(path)
    } else {
        match path_parent(path) {
            Some(q) => path_ancestors(q),
            None => Seq::empty(),
        }
    }
}

/// The floor (see [`path_floor`]) of the first `n` characters.
fn floor_of(chars: &Vec<char>, n: usize) -> (r: usize)
    requires
        n <= chars.len(),
    ensures
        r == path_floor(chars@.take(n as int)),
{
    if n > 0 && chars[0] == '/' {
        1
    } else if n > 0 && chars[0] == '.' && (n == 1 || chars[1] == '/') {
        1
    } else {
        0
    }
}

/// The length of the first `n` characters with their trailing junk trimmed (see
/// [`trim_junk`]).
fn trim_junk_len(chars: &Vec<char>, n: usize, f: usize) -> (r: usize)
    requires
        n <= chars.len(),
    ensures
        chars@.take(r as int) == trim_junk(chars@.take(n as int), f as nat),
        r <= n,
{
    let mut k = n;
    while k > f && (chars[k - 1] == '/' || (chars[k - 1] == '.' && (k - 1 == f || chars[k - 2]
        == '/')))
        invariant
            k <= n <= chars.len(),
            trim_junk(chars@.take(k as int), f as nat) == trim_junk(chars@.take(n as int), f as nat),
        decreases k,
    {
        let ghost q = chars@.take(k as int);
        assert(q.drop_last() =~= chars@.take(k - 1));
        assert(q.last() == chars@[k - 1]);
        assert(k >= 2 ==> q[k - 2] == chars@[k - 2]);
        k = k - 1;
    }
    let ghost q = chars@.take(k as int);
    assert(q.len() == k);
    assert(k > 0 ==> q.last() == chars@[k - 1]);
    assert(k >= 2 ==> q[k - 2] == chars@[k - 2]);
    k
}

/// The length of the first `n` characters without their last segment (see
/// [`cut_segment`]).
fn cut_segment_len(chars: &Vec<char>, n: usize, f: usize) -> (r: usize)
    requires
        n <= chars.len(),
    ensures
        chars@.take(r as int) == cut_segment(chars@.take(n as int), f as nat),
        r <= n,
        n > f ==> r < n,
{
    let mut k = n;
    while k > f && chars[k - 1] != '/'
        invariant
            k <= n <= chars.len(),
            cut_segment(chars@.take(k as int), f as nat) == cut_segment(
                chars@.take(n as int),
                f as nat,
            ),
        decreases k,
    {
        let ghost q = chars@.take(k as int);
        assert(q.drop_last() =~= chars@.take(k - 1));
        assert(q.last() == chars@[k - 1]);
        k = k - 1;
    }
    let ghost q = chars@.take(k as int);
    if k > f {
        assert(q.last() == chars@[k - 1]);
        assert(q.drop_last() =~= chars@.take(k - 1));
        k - 1
    } else {
        k
    }
}

/// The length of the parent of the first `n` characters (see [`path_parent`]).
fn parent_len(chars: &Vec<char>, n: usize) -> (r: Option<usize>)
    requires
        n <= chars.len(),
    ensures
        r matches Some(m) ==> m < n && path_parent(chars@.take(n as int)) == Some(
            chars@.take(m as int),
        ),
        r is None ==> path_parent(chars@.take(n as int)) is None,
{
    let ghost q = chars@.take(n as int);
    proof {
        lemma_parent_shorter(q);
    }
    let f = floor_of(chars, n);
    let t = trim_junk_len(chars, n, f);
    assert(chars@.take(t as int).len() == t);
    if t > f {
        let c = cut_segment_len(chars, t, f);
        let m = trim_junk_len(chars, c, f);
        assert(chars@.take(m as int).len() == m);
        Some(m)
    } else if f == 1 && chars[0] != '/' {
        assert(q[0] == chars@[0]);
        assert(chars@.take(0) =~= Seq::<char>::empty());
        Some(0)
    } else {
        assert(n > 0 ==> q[0] == chars@[0]);
        None
    }
}

/// The directories to search for the project manifest of `path`, nearest first
/// (see [`search_dirs`]); `is_dir` says whether `path` is a directory.
pub fn manifest_search_dirs(path: &String, is_dir: bool) -> (r: Vec<String>)
    ensures
        views(r@) == search_dirs(path@, is_dir),
{
    let chars = crate::text::text_chars(path.as_str());
    let n = chars.len();
    assert(chars@.take(n as int) =~= path@);
    let mut cur: Option<usize> = if is_dir {
        Some(n)
    } else {
        parent_len(&chars, n)
    };
    let mut out: Vec<String> = Vec::new();
    assert(views(out@) =~= Seq::<Seq<char>>::empty());
    while cur.is_some()
        invariant
            chars@ == path@,
            cur matches Some(k) ==> k <= chars.len(),
            views(out@) + match cur {
                Some(k) => path_ancestors(chars@.take(k as int)),
                None => Seq::empty(),
            } == search_dirs(path@, is_dir),
        decreases match cur {
            Some(k) => k + 1,
            None => 0,
        },
    {
        let k = cur.unwrap();
        let ghost before = views(out@);
        let dir = crate::text::string_from_chars(&chars, 0, k);
        assert(dir@ =~= chars@.take(k as int));
        out.push(dir);
        assert(views(out@) =~= before.push(chars@.take(k as int)));
        let next = parent_len(&chars, k);
        let ghost rest = match next {
            Some(m) => path_ancestors(chars@.take(m as int)),
            None => Seq::<Seq<char>>::empty(),
        };
        assert(path_ancestors(chars@.take(k as int)) =~= seq![chars@.take(k as int)] + rest);
        assert(views(out@) + rest =~= before + path_ancestors(chars@.take(k as int)));
        cur = next;
    }
    assert(views(out@) + Seq::<Seq<char>>::empty() =~= views(out@));
    out
}

} // verus!

//! File paths held as their components (the root as `/`), and their lexical
//! normalisation.
use vstd::prelude::*;

use crate::actions::{has_suffix, module_import, module_import_from_file, starts_with_components};
use crate::ast::views;
use crate::completion::{text_lt, text_precedes};
use crate::navigation::same_text;
use crate::symbol::SemanticSymbol;

verus! {

/// The components left after lexical normalisation, one component at a time as a
/// path buffer takes them: `.` is dropped, `..` removes the component before it
/// (never the root, and nothing when there is none), the root replaces what came
/// before, and any other component is appended.
pub open spec fn normalized_components(c: Seq<Seq<char>>) -> Seq<Seq<char>>
    decreases c.len(),
{
    if c.len() == 0 {
        Seq::empty()
    } else {
        let before = normalized_components(c.drop_last());
        let x = c.last();
        if x == "."@ {
            before
        } else if x == ".."@ {
            if before.len() > 0 && before.last() != "/"@ {
                before.drop_last()
            } else {
                before
            }
        } else if x == "/"@ {
            seq![x]
        } else {
            before.push(x)
        }
    }
}

/// The lexically normalised form of the path with `components` (see
/// [`normalized_components`]); used where the path cannot be resolved on disk.
pub fn normalize_components(components: &Vec<String>) -> (r: Vec<String>)
    ensures
        views(r@) == normalized_components(views(components@)),
{
    let ghost cv = views(components@);
    let mut out: Vec<String> = Vec::new();
    let mut i: usize = 0;
    assert(cv.take(0) =~= Seq::<Seq<char>>::empty());
    while i < components.len()
        invariant
            i <= components.len(),
            cv == views(components@),
            views(out@) == normalized_components(cv.take(i as int)),
        decreases components.len() - i,
    {
        let c = &components[i];
        let ghost before = views(out@);
        proof {
            assert(cv.take(i + 1).drop_last() =~= cv.take(i as int));
            assert(cv.take(i + 1).last() == c@);
        }
        if same_text(c.as_str(), ".") {
        } else if same_text(c.as_str(), "..") {
            if out.len() > 0 && !same_text(out[out.len() - 1].as_str(), "/") {
                out.pop();
                assert(views(out@) =~= before.drop_last());
            }
        } else if same_text(c.as_str(), "/") {
            out = Vec::new();
            out.push(c.clone());
            assert(views(out@) =~= seq![c@]);
        } else {
            out.push(c.clone());
            assert(views(out@) =~= before.push(c@));
        }
        i = i + 1;
    }
    assert(cv.take(components.len() as int) =~= cv);
    out
}

/// Paths held as components, viewed as characters.
pub open spec fn paths_view(v: Seq<Vec<String>>) -> Seq<Seq<Seq<char>>> {
    v.map_values(|p: Vec<String>| views(p@))
}

/// The order of paths: component by component, each compared as text; a path
/// that is a proper prefix of another comes first.
pub open spec fn path_lt(a: Seq<Seq<char>>, b: Seq<Seq<char>>) -> bool
    decreases a.len(),
{
    if a.len() == 0 {
        b.len() > 0
    } else if b.len() == 0 {
        false
    } else if a[0] != b[0] {
        text_lt(a[0], b[0])
    } else {
        path_lt(a.drop_first(), b.drop_first())
    }
}

/// Whether path `a` sorts strictly before path `b` (see [`path_lt`]).
fn path_precedes(a: &Vec<String>, b: &Vec<String>) -> (r: bool)
    ensures
        r == path_lt(views(a@), views(b@)),
{
    let ghost x = views(a@);
    let ghost y = views(b@);
    let mut i: usize = 0;
    assert(x.skip(0) =~= x);
    assert(y.skip(0) =~= y);
    while i < a.len() && i < b.len() && a[i] == b[i]
        invariant
            x == views(a@),
            y == views(b@),
            i <= a.len(),
            i <= b.len(),
            path_lt(x.skip(i as int), y.skip(i as int)) == path_lt(x, y),
        decreases a.len() - i,
    {
        assert(x.skip(i as int).drop_first() =~= x.skip(i + 1));
        assert(y.skip(i as int).drop_first() =~= y.skip(i + 1));
        i = i + 1;
    }
    if i == a.len() {
        return i < b.len();
    }
    if i == b.len() {
        return false;
    }
    assert(x.skip(i as int)[0] == a@[i as int]@);
    assert(y.skip(i as int)[0] == b@[i as int]@);
    text_precedes(&a[i], &b[i])
}

/// Where path `x` goes in the sorted `sorted`: after every path not after it.
pub open spec fn path_insertion_index(sorted: Seq<Seq<Seq<char>>>, x: Seq<Seq<char>>, from: nat) -> nat
    decreases sorted.len() - from,
{
    if from < sorted.len() && !path_lt(x, sorted[from as int]) {
        path_insertion_index(sorted, x, from + 1)
    } else {
        from
    }
}

/// Paths stably sorted by [`path_lt`].
pub open spec fn sort_paths(v: Seq<Seq<Seq<char>>>) -> Seq<Seq<Seq<char>>>
    decreases v.len(),
{
    if v.len() == 0 {
        v
    } else {
        let sorted = sort_paths(v.drop_last());
        sorted.insert(path_insertion_index(sorted, v.last(), 0) as int, v.last())
    }
}

/// Paths without repeats of the path just before.
pub open spec fn dedup_paths(v: Seq<Seq<Seq<char>>>) -> Seq<Seq<Seq<char>>>
    decreases v.len(),
{
    if v.len() == 0 {
        v
    } else if v.len() >= 2 && v[v.len() - 2] == v.last() {
        dedup_paths(v.drop_last())
    } else {
        dedup_paths(v.drop_last()).push(v.last())
    }
}

proof fn lemma_path_insertion_index_bound(sorted: Seq<Seq<Seq<char>>>, x: Seq<Seq<char>>, from: nat)
    requires
        from <= sorted.len(),
    ensures
        from <= path_insertion_index(sorted, x, from) <= sorted.len(),
    decreases sorted.len() - from,
{
    if from < sorted.len() && !path_lt(x, sorted[from as int]) {
        lemma_path_insertion_index_bound(sorted, x, from + 1);
    }
}

/// Paths sorted by [`path_lt`], equal ones keeping their order.
fn sorted_paths(paths: Vec<Vec<String>>) -> (sorted: Vec<Vec<String>>)
    ensures
        paths_view(sorted@) == sort_paths(paths_view(paths@)),
{
    let ghost all = paths_view(paths@);
    let mut rest = paths;
    let mut sorted: Vec<Vec<String>> = Vec::new();
    let mut k: usize = 0;
    assert(all.take(0) =~= Seq::<Seq<Seq<char>>>::empty());
    assert(all.skip(0) =~= all);
    assert(all.len() == rest.len());
    while rest.len() > 0
        invariant
            k <= all.len(),
            all.len() <= usize::MAX,
            paths_view(rest@) == all.skip(k as int),
            paths_view(sorted@) == sort_paths(all.take(k as int)),
        decreases rest.len(),
    {
        let ghost old_rest = rest@;
        let x = rest.remove(0);
        proof {
            assert(rest@ =~= old_rest.skip(1));
            assert(x == old_rest[0]);
            assert(paths_view(old_rest) == all.skip(k as int));
            assert(paths_view(old_rest).len() == old_rest.len());
            assert(paths_view(old_rest)[0] == views(x@));
            assert(all.skip(k as int)[0] == all[k as int]);
            assert forall|i: int| 0 <= i < rest@.len() implies #[trigger] paths_view(rest@)[i]
                == all.skip(k + 1)[i] by {
                assert(rest@[i] == old_rest[i + 1]);
                assert(paths_view(old_rest)[i + 1] == all.skip(k as int)[i + 1]);
            }
            assert(paths_view(rest@) =~= all.skip(k + 1));
        }
        let ghost sv = paths_view(sorted@);
        proof {
            lemma_path_insertion_index_bound(sv, views(x@), 0);
        }
        let mut j: usize = 0;
        while j < sorted.len() && !path_precedes(&x, &sorted[j])
            invariant
                j <= sorted.len(),
                sv == paths_view(sorted@),
                path_insertion_index(sv, views(x@), j as nat) == path_insertion_index(
                    sv,
                    views(x@),
                    0,
                ),
            decreases sorted.len() - j,
        {
            j = j + 1;
        }
        let ghost xv = views(x@);
        sorted.insert(j, x);
        proof {
            assert(all.take(k + 1).drop_last() =~= all.take(k as int));
            assert(all.take(k + 1).last() == all[k as int]);
            assert(paths_view(sorted@) =~= sv.insert(j as int, xv));
        }
        k = k + 1;
    }
    proof {
        assert(all.take(k as int) =~= all);
    }
    sorted
}

/// Whether the paths `a` and `b` have the same components.
fn same_path(a: &Vec<String>, b: &Vec<String>) -> (r: bool)
    ensures
        r == (views(a@) == views(b@)),
{
    assert(views(a@).len() == a.len() && views(b@).len() == b.len());
    if a.len() != b.len() {
        return false;
    }
    let r = starts_with_components(a, b);
    assert(views(a@).take(b.len() as int) =~= views(a@));
    r
}

/// The paths without repeats of the path just before (see [`dedup_paths`]).
fn deduplicated_paths(paths: &Vec<Vec<String>>) -> (d: Vec<Vec<String>>)
    ensures
        paths_view(d@) == dedup_paths(paths_view(paths@)),
{
    let ghost pv = paths_view(paths@);
    let mut d: Vec<Vec<String>> = Vec::new();
    let mut i: usize = 0;
    assert(pv.take(0) =~= Seq::<Seq<Seq<char>>>::empty());
    while i < paths.len()
        invariant
            i <= paths.len(),
            pv == paths_view(paths@),
            paths_view(d@) == dedup_paths(pv.take(i as int)),
        decreases paths.len() - i,
    {
        let ghost t = pv.take(i + 1);
        assert(t.drop_last() =~= pv.take(i as int));
        assert(t.last() == views(paths@[i as int]@));
        let repeated = i > 0 && same_path(&paths[i - 1], &paths[i]);
        if i > 0 {
            assert(t[i - 1] == views(paths@[i - 1]@));
        }
        if !repeated {
            let ghost before = paths_view(d@);
            d.push(paths[i].clone());
            assert(paths_view(d@) =~= before.push(t.last()));
        }
        i = i + 1;
    }
    assert(pv.take(paths.len() as int) =~= pv);
    d
}

/// Whether the file named by the last of `components` has the extension `nomo`:
/// a name ending in `.nomo` with something before that dot.
pub open spec fn has_nomo_extension(components: Seq<Seq<char>>) -> bool {
    components.len() > 0 && has_suffix(components.last(), ".nomo"@) && components.last().len() > 5
}

/// Whether `components` name a `.nomo` file (see [`has_nomo_extension`]).
fn is_nomo_file(components: &Vec<String>) -> (b: bool)
    ensures
        b == has_nomo_extension(views(components@)),
{
    if components.len() == 0 {
        return false;
    }
    let ghost cv = views(components@);
    assert(cv.last() == components@[components.len() - 1]@);
    proof {
        reveal_strlit(".nomo");
    }
    let name = crate::text::text_chars(components[components.len() - 1].as_str());
    if name.len() <= 5 {
        return false;
    }
    let k = name.len() - 5;
    let suffix = crate::text::string_from_chars(&name, k, name.len());
    let r = same_text(suffix.as_str(), ".nomo");
    assert(name@.skip(k as int) =~= name@.subrange(k as int, name.len() as int));
    r
}

/// The open documents' paths that count as source files under `root`: each
/// override given as its path's components as written and as normalised, kept (in
/// normalised form) when it lies under `root` and names a `.nomo` file.
pub open spec fn override_sources(
    root: Seq<Seq<char>>,
    overrides: Seq<(Seq<Seq<char>>, Seq<Seq<char>>)>,
) -> Seq<Seq<Seq<char>>>
    decreases overrides.len(),
{
    if overrides.len() == 0 {
        Seq::empty()
    } else {
        let before = override_sources(root, overrides.drop_last());
        let (raw, normalized) = overrides.last();
        if root.len() <= normalized.len() && normalized.take(root.len() as int) == root
            && has_nomo_extension(raw) {
            before.push(normalized)
        } else {
            before
        }
    }
}

/// Overrides as plain values.
pub open spec fn overrides_paths_view(v: Seq<(Vec<String>, Vec<String>)>) -> Seq<
    (Seq<Seq<char>>, Seq<Seq<char>>),
> {
    v.map_values(|o: (Vec<String>, Vec<String>)| (views(o.0@), views(o.1@)))
}

/// The source files of a source root: the files found on disk, then the open
/// documents under it (see [`override_sources`]), sorted, each once.
pub open spec fn source_file_list(
    root: Seq<Seq<char>>,
    files: Seq<Seq<Seq<char>>>,
    overrides: Seq<(Seq<Seq<char>>, Seq<Seq<char>>)>,
) -> Seq<Seq<Seq<char>>> {
    dedup_paths(sort_paths(files + override_sources(root, overrides)))
}

/// The source files under `root` (normalised): `files` found on disk below it and
/// the open documents in `overrides` (see [`source_file_list`]).
pub fn source_files(
    root: &Vec<String>,
    files: Vec<Vec<String>>,
    overrides: &Vec<(Vec<String>, Vec<String>)>,
) -> (r: Vec<Vec<String>>)
    ensures
        paths_view(r@) == source_file_list(views(root@), paths_view(files@), overrides_paths_view(overrides@)),
{
    let ghost ov = overrides_paths_view(overrides@);
    let ghost fv = paths_view(files@);
    let mut all = files;
    let mut i: usize = 0;
    assert(ov.take(0) =~= Seq::<(Seq<Seq<char>>, Seq<Seq<char>>)>::empty());
    assert(fv + override_sources(views(root@), ov.take(0)) =~= fv);
    while i < overrides.len()
        invariant
            i <= overrides.len(),
            ov == overrides_paths_view(overrides@),
            paths_view(all@) == fv + override_sources(views(root@), ov.take(i as int)),
        decreases overrides.len() - i,
    {
        let ghost t = ov.take(i + 1);
        assert(t.drop_last() =~= ov.take(i as int));
        assert(t.last() == (views(overrides@[i as int].0@), views(overrides@[i as int].1@)));
        let ghost before = paths_view(all@);
        if starts_with_components(&overrides[i].1, root) && is_nomo_file(&overrides[i].0) {
            all.push(overrides[i].1.clone());
            assert(paths_view(all@) =~= before.push(views(overrides@[i as int].1@)));
        }
        i = i + 1;
    }
    assert(ov.take(overrides.len() as int) =~= ov);
    let sorted = sorted_paths(all);
    deduplicated_paths(&sorted)
}

/// The import paths of the (normalised) source files `files` under `root`, in order,
/// for those that are modules (see [`module_import`]).
pub open spec fn module_imports(root: Seq<Seq<char>>, import_root: Seq<char>, files: Seq<Seq<Seq<char>>>) -> Seq<
    Seq<char>,
>
    decreases files.len(),
{
    if files.len() == 0 {
        Seq::empty()
    } else {
        let before = module_imports(root, import_root, files.drop_last());
        match module_import(root, import_root, files.last()) {
            Some(i) => before.push(i),
            None => before,
        }
    }
}

/// The import paths of the modules among the source files `files` of the source
/// root `root` whose modules are imported under `import_root` (see [`module_imports`]).
pub fn module_imports_from_files(root: &Vec<String>, import_root: &str, files: &Vec<Vec<String>>) -> (r: Vec<
    String,
>)
    ensures
        views(r@) == module_imports(views(root@), import_root@, paths_view(files@)),
{
    let ghost fv = paths_view(files@);
    let mut out: Vec<String> = Vec::new();
    let mut i: usize = 0;
    assert(fv.take(0) =~= Seq::<Seq<Seq<char>>>::empty());
    while i < files.len()
        invariant
            i <= files.len(),
            fv == paths_view(files@),
            views(out@) == module_imports(views(root@), import_root@, fv.take(i as int)),
        decreases files.len() - i,
    {
        let ghost t = fv.take(i + 1);
        assert(t.drop_last() =~= fv.take(i as int));
        assert(t.last() == views(files@[i as int]@));
        let ghost before = views(out@);
        match module_import_from_file(root, import_root, &files[i]) {
            Some(import) => {
                out.push(import);
                assert(views(out@) =~= before.push(out@[out.len() - 1]@));
            },
            None => {},
        }
        i = i + 1;
    }
    assert(fv.take(files.len() as int) =~= fv);
    out
}

/// Whether `symbols` hold an importable declaration named `name`.
pub open spec fn defines_importable(symbols: Seq<SemanticSymbol>, name: Seq<char>) -> bool {
    exists|i: int|
        0 <= i < symbols.len() && #[trigger] symbols[i].name@ == name && crate::actions::importable(
            symbols[i],
        )
}

/// Whether a file with the declarations `symbols` offers `name` for import.
pub fn offers_import(symbols: &Vec<SemanticSymbol>, name: &str) -> (b: bool)
    ensures
        b == defines_importable(symbols@, name@),
{
    let mut i: usize = 0;
    while i < symbols.len()
        invariant
            i <= symbols.len(),
            forall|j: int|
                0 <= j < i ==> !(#[trigger] symbols@[j].name@ == name@ && crate::actions::importable(
                    symbols@[j],
                )),
        decreases symbols.len() - i,
    {
        if same_text(symbols[i].name.as_str(), name) && crate::actions::is_importable_symbol(&symbols[i]) {
            return true;
        }
        i = i + 1;
    }
    false
}

} // verus!

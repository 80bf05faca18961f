//! Renaming: the edits a rename makes, grouped by document, and the source texts
//! the renamed project would have, so that a rename can be checked before it is
//! offered.
use vstd::prelude::*;
use crate::incremental::{overrides_view, path_key, same_path};
use crate::navigation::{is_nomo_identifier, nomo_identifier};
use crate::text::{Range, TextEdit, applied_edits, apply_text_edits};

verus! {

broadcast use vstd::seq_lib::group_seq_properties;

/// Index of the first source whose path names the same file as `path`, component
/// by component (see [`path_key`]).
pub open spec fn source_index(sources: Seq<(Seq<char>, Seq<char>)>, path: Seq<char>) -> Option<int>
    decreases sources.len(),
{
    if sources.len() == 0 {
        None
    } else if path_key(sources[0].0) == path_key(path) {
        Some(0)
    } else {
        match source_index(sources.drop_first(), path) {
            Some(i) => Some(i + 1),
            None => None,
        }
    }
}

proof fn lemma_source_index(sources: Seq<(Seq<char>, Seq<char>)>, path: Seq<char>)
    ensures
        source_index(sources, path) matches Some(i) ==> 0 <= i < sources.len() && path_key(
            sources[i].0,
        ) == path_key(path) && forall|j: int|
            0 <= j < i ==> path_key(#[trigger] sources[j].0) != path_key(path),
        source_index(sources, path) is None ==> forall|j: int|
            0 <= j < sources.len() ==> path_key(#[trigger] sources[j].0) != path_key(path),
    decreases sources.len(),
{
    if sources.len() > 0 && path_key(sources[0].0) != path_key(path) {
        lemma_source_index(sources.drop_first(), path);
        assert forall|j: int| 1 <= j < sources.len() implies sources[j] == sources.drop_first()[j
            - 1] by {}
    }
}

proof fn lemma_first_match(sources: Seq<(Seq<char>, Seq<char>)>, path: Seq<char>, i: int)
    requires
        0 <= i < sources.len(),
        path_key(sources[i].0) == path_key(path),
        forall|j: int| 0 <= j < i ==> path_key(#[trigger] sources[j].0) != path_key(path),
    ensures
        source_index(sources, path) == Some(i),
{
    lemma_source_index(sources, path);
    match source_index(sources, path) {
        Some(k) => {
            if k < i {
                assert(path_key(sources[k].0) != path_key(path));
            } else if k > i {
                assert(path_key(sources[i].0) != path_key(path));
            }
        },
        None => {
            assert(path_key(sources[i].0) != path_key(path));
        },
    }
}

/// `sources` with the text of `path` set to `source`: the first entry naming the
/// same file keeps its path and gets the new text, or a new entry is added at the end.
pub open spec fn replaced_source(
    sources: Seq<(Seq<char>, Seq<char>)>,
    path: Seq<char>,
    source: Seq<char>,
) -> Seq<(Seq<char>, Seq<char>)> {
    match source_index(sources, path) {
        Some(i) => sources.update(i, (sources[i].0, source)),
        None => sources.push((path, source)),
    }
}

/// Sets the text of `path` among the open-buffer `sources` (see [`replaced_source`]).
pub fn replace_source_override(sources: &mut Vec<(String, String)>, path: &String, source: String)
    ensures
        overrides_view(final(sources)@) == replaced_source(
            overrides_view(old(sources)@),
            path@,
            source@,
        ),
{
    let ghost sv = overrides_view(sources@);
    proof {
        lemma_source_index(sv, path@);
    }
    let mut i: usize = 0;
    while i < sources.len()
        invariant
            i <= sources.len(),
            sv == overrides_view(sources@),
            sources@ == old(sources)@,
            sv.len() == sources.len(),
            forall|j: int| 0 <= j < i ==> path_key(#[trigger] sv[j].0) != path_key(path@),
        decreases sources.len() - i,
    {
        assert(sv[i as int] == (sources@[i as int].0@, sources@[i as int].1@));
        if same_path(&sources[i].0, path) {
            proof {
                lemma_first_match(sv, path@, i as int);
            }
            let ghost text = source@;
            let existing = sources[i].0.clone();
            sources.set(i, (existing, source));
            assert(overrides_view(sources@) =~= sv.update(i as int, (sv[i as int].0, text)));
            assert(source_index(sv, path@) == Some(i as int));
            assert(replaced_source(sv, path@, text) == sv.update(i as int, (sv[i as int].0, text)));
            return ;
        }
        i = i + 1;
    }
    sources.push((path.clone(), source));
    assert(overrides_view(sources@) =~= sv.push((path@, source@)));
}

/// A copy of the open-buffer sources with the current document's text in it.
pub fn overrides_with_current(path: &String, source: &str, overrides: &Vec<(String, String)>) -> (r:
    Vec<(String, String)>)
    ensures
        overrides_view(r@) == replaced_source(overrides_view(overrides@), path@, source@),
{
    let mut r: Vec<(String, String)> = Vec::new();
    let mut i: usize = 0;
    while i < overrides.len()
        invariant
            i <= overrides.len(),
            r@ == overrides@.take(i as int),
        decreases overrides.len() - i,
    {
        r.push((overrides[i].0.clone(), overrides[i].1.clone()));
        assert(r@ =~= overrides@.take(i + 1));
        i = i + 1;
    }
    assert(overrides@.take(overrides.len() as int) =~= overrides@);
    replace_source_override(&mut r, path, source.to_owned());
    r
}

/// The text of the first file read from disk under a path naming the same file as
/// `path`, if it could be read.
pub open spec fn disk_source(disk: Seq<(Seq<char>, Option<Seq<char>>)>, path: Seq<char>) -> Option<
    Seq<char>,
>
    decreases disk.len(),
{
    if disk.len() == 0 {
        None
    } else if path_key(disk[0].0) == path_key(path) {
        disk[0].1
    } else {
        disk_source(disk.drop_first(), path)
    }
}

/// The sources after applying the first `n` change sets in order: each file's text
/// is taken from the sources so far or else from disk, and replaced by the text
/// its edits give; `None` when a file has no text or its edits do not apply.
pub open spec fn renamed_from(
    sources: Seq<(Seq<char>, Seq<char>)>,
    changes: Seq<(Seq<char>, Seq<TextEdit>)>,
    disk: Seq<(Seq<char>, Option<Seq<char>>)>,
    n: nat,
) -> Option<Seq<(Seq<char>, Seq<char>)>>
    decreases n,
{
    if n == 0 {
        Some(sources)
    } else {
        match renamed_from(sources, changes, disk, (n - 1) as nat) {
            None => None,
            Some(s) => {
                let (path, edits) = changes[n - 1];
                let text = match source_index(s, path) {
                    Some(i) => Some(s[i].1),
                    None => disk_source(disk, path),
                };
                match text {
                    None => None,
                    Some(t) => match applied_edits(t, edits) {
                        None => None,
                        Some(renamed) => Some(replaced_source(s, path, renamed)),
                    },
                }
            },
        }
    }
}

/// A change set: a file and the edits a rename makes in it.
pub open spec fn change_view(c: (String, Vec<TextEdit>)) -> (Seq<char>, Seq<TextEdit>) {
    (c.0@, c.1@)
}

/// The views of change sets.
pub open spec fn changes_view(v: Seq<(String, Vec<TextEdit>)>) -> Seq<(Seq<char>, Seq<TextEdit>)> {
    v.map_values(|c: (String, Vec<TextEdit>)| change_view(c))
}

/// Files read from disk: each path with its text, or nothing when it could not be read.
pub open spec fn disk_view(v: Seq<(String, Option<String>)>) -> Seq<(Seq<char>, Option<Seq<char>>)> {
    v.map_values(
        |d: (String, Option<String>)|
            (
                d.0@,
                match d.1 {
                    Some(t) => Some(t@),
                    None => None,
                },
            ),
    )
}

/// The text of `path` among the disk reads, if it was read.
fn read_from_disk(disk: &Vec<(String, Option<String>)>, path: &String) -> (r: Option<String>)
    ensures
        r matches Some(t) ==> disk_source(disk_view(disk@), path@) == Some(t@),
        r is None ==> disk_source(disk_view(disk@), path@) is None,
{
    let ghost dv = disk_view(disk@);
    let mut i: usize = 0;
    while i < disk.len()
        invariant
            i <= disk.len(),
            dv == disk_view(disk@),
            dv.len() == disk.len(),
            disk_source(dv.skip(i as int), path@) == disk_source(dv, path@),
        decreases disk.len() - i,
    {
        assert(dv.skip(i as int).drop_first() =~= dv.skip(i + 1));
        assert(dv.skip(i as int)[0] == dv[i as int]);
        if same_path(&disk[i].0, path) {
            return match &disk[i].1 {
                Some(t) => Some(t.clone()),
                None => None,
            };
        }
        i = i + 1;
    }
    None
}

/// The text of `path` in `sources`, if it is there.
fn source_of(sources: &Vec<(String, String)>, path: &String) -> (r: Option<String>)
    ensures
        r matches Some(t) ==> source_index(overrides_view(sources@), path@) matches Some(i)
            && overrides_view(sources@)[i].1 == t@,
        r is None ==> source_index(overrides_view(sources@), path@) is None,
{
    let ghost sv = overrides_view(sources@);
    proof {
        lemma_source_index(sv, path@);
    }
    let mut i: usize = 0;
    while i < sources.len()
        invariant
            i <= sources.len(),
            sv == overrides_view(sources@),
            sv.len() == sources.len(),
            forall|j: int| 0 <= j < i ==> path_key(#[trigger] sv[j].0) != path_key(path@),
        decreases sources.len() - i,
    {
        assert(sv[i as int] == (sources@[i as int].0@, sources@[i as int].1@));
        if same_path(&sources[i].0, path) {
            proof {
                lemma_first_match(sv, path@, i as int);
            }
            return Some(sources[i].1.clone());
        }
        i = i + 1;
    }
    None
}

/// The sources the project would have after a rename: the open buffers with the
/// current document's `text`, then each change set applied in order (see
/// [`renamed_from`]). `disk` holds what reading each changed file gave.
pub fn renamed_source_overrides(
    path: &String,
    text: &str,
    changes: &Vec<(String, Vec<TextEdit>)>,
    overrides: &Vec<(String, String)>,
    disk: &Vec<(String, Option<String>)>,
) -> (r: Option<Vec<(String, String)>>)
    ensures
        r matches Some(s) ==> renamed_from(
            replaced_source(overrides_view(overrides@), path@, text@),
            changes_view(changes@),
            disk_view(disk@),
            changes.len() as nat,
        ) == Some(overrides_view(s@)),
        r is None ==> renamed_from(
            replaced_source(overrides_view(overrides@), path@, text@),
            changes_view(changes@),
            disk_view(disk@),
            changes.len() as nat,
        ) is None,
{
    let mut sources = overrides_with_current(path, text, overrides);
    let ghost start = overrides_view(sources@);
    let ghost cv = changes_view(changes@);
    let mut i: usize = 0;
    while i < changes.len()
        invariant
            i <= changes.len(),
            cv == changes_view(changes@),
            start == replaced_source(overrides_view(overrides@), path@, text@),
            renamed_from(start, cv, disk_view(disk@), i as nat) == Some(overrides_view(sources@)),
        decreases changes.len() - i,
    {
        let change_path = &changes[i].0;
        let edits = &changes[i].1;
        assert(cv[i as int] == (change_path@, edits@));
        let source = match source_of(&sources, change_path) {
            Some(t) => t,
            None => match read_from_disk(disk, change_path) {
                Some(t) => t,
                None => {
                    assert(renamed_from(start, cv, disk_view(disk@), (i + 1) as nat) is None);
                    proof {
                        lemma_renamed_from_none(start, cv, disk_view(disk@), (i + 1) as nat, changes.len() as nat);
                    }
                    return None;
                },
            },
        };
        let renamed = match apply_text_edits(source.as_str(), edits.as_slice()) {
            Some(t) => t,
            None => {
                assert(renamed_from(start, cv, disk_view(disk@), (i + 1) as nat) is None);
                proof {
                    lemma_renamed_from_none(start, cv, disk_view(disk@), (i + 1) as nat, changes.len() as nat);
                }
                return None;
            },
        };
        replace_source_override(&mut sources, change_path, renamed);
        i = i + 1;
    }
    Some(sources)
}

proof fn lemma_renamed_from_none(
    sources: Seq<(Seq<char>, Seq<char>)>,
    changes: Seq<(Seq<char>, Seq<TextEdit>)>,
    disk: Seq<(Seq<char>, Option<Seq<char>>)>,
    k: nat,
    n: nat,
)
    requires
        k <= n,
        renamed_from(sources, changes, disk, k) is None,
    ensures
        renamed_from(sources, changes, disk, n) is None,
    decreases n - k,
{
    if k < n {
        lemma_renamed_from_none(sources, changes, disk, k + 1, n);
    }
}

/// Whether a rename may be offered: when the project compiled before it, it must
/// still compile after it.
pub fn rename_allowed(compiled_before: bool, compiles_after: bool) -> (b: bool)
    ensures
        b == (!compiled_before || compiles_after),
{
    !compiled_before || compiles_after
}

/// The edits of a rename, grouped by document in order of first appearance: one
/// per distinct range of each document among the first `n` locations.
pub open spec fn grouped_ranges(locations: Seq<(Seq<char>, Range)>, n: nat) -> Seq<
    (Seq<char>, Seq<Range>),
>
    decreases n,
{
    if n == 0 {
        Seq::empty()
    } else {
        let groups = grouped_ranges(locations, (n - 1) as nat);
        let (uri, range) = locations[n - 1];
        match group_index(groups, uri) {
            Some(g) => if groups[g].1.contains(range) {
                groups
            } else {
                groups.update(g, (uri, groups[g].1.push(range)))
            },
            None => groups.push((uri, seq![range])),
        }
    }
}

/// Index of the group of document `uri`.
pub open spec fn group_index(groups: Seq<(Seq<char>, Seq<Range>)>, uri: Seq<char>) -> Option<int>
    decreases groups.len(),
{
    if groups.len() == 0 {
        None
    } else if groups.last().0 == uri {
        Some(groups.len() - 1)
    } else {
        group_index(groups.drop_last(), uri)
    }
}

proof fn lemma_group_index(groups: Seq<(Seq<char>, Seq<Range>)>, uri: Seq<char>)
    ensures
        group_index(groups, uri) matches Some(g) ==> 0 <= g < groups.len() && groups[g].0 == uri,
        group_index(groups, uri) is None ==> forall|j: int|
            0 <= j < groups.len() ==> groups[j].0 != uri,
    decreases groups.len(),
{
    if groups.len() > 0 && groups.last().0 != uri {
        lemma_group_index(groups.drop_last(), uri);
        assert forall|j: int| 0 <= j < groups.len() - 1 implies groups[j] == groups.drop_last()[j] by {}
    }
}

/// Index of the group of document `uri` (see [`group_index`]).
fn find_group(groups: &Vec<(String, Vec<TextEdit>)>, uri: &String) -> (r: Option<usize>)
    ensures
        r matches Some(g) ==> group_index(groups_view(groups@), uri@) == Some(g as int),
        r is None ==> group_index(groups_view(groups@), uri@) is None,
{
    let ghost gv = groups_view(groups@);
    let mut g = groups.len();
    while g > 0
        invariant
            g <= groups.len(),
            gv == groups_view(groups@),
            gv.len() == groups.len(),
            group_index(gv.take(g as int), uri@) == group_index(gv, uri@),
        decreases g,
    {
        assert(gv.take(g as int).drop_last() =~= gv.take(g - 1));
        assert(gv.take(g as int).last() == gv[g - 1]);
        assert(gv[g - 1].0 == groups@[g - 1].0@);
        if groups[g - 1].0 == *uri {
            return Some(g - 1);
        }
        g = g - 1;
    }
    assert(gv.take(0) =~= Seq::<(Seq<char>, Seq<Range>)>::empty());
    None
}

/// Rename edits held as documents with their edits, viewed as documents with ranges
/// and replacement texts.
pub open spec fn groups_view(v: Seq<(String, Vec<TextEdit>)>) -> Seq<(Seq<char>, Seq<Range>)> {
    v.map_values(
        |g: (String, Vec<TextEdit>)| (g.0@, g.1@.map_values(|e: TextEdit| e.range)),
    )
}

/// The references of the symbol to rename, held as documents and ranges.
pub open spec fn locations_view(v: Seq<(String, Range)>) -> Seq<(Seq<char>, Range)> {
    v.map_values(|l: (String, Range)| (l.0@, l.1))
}

/// Whether `range` is among the edits.
fn has_range(edits: &Vec<TextEdit>, range: Range) -> (b: bool)
    ensures
        b == edits@.map_values(|e: TextEdit| e.range).contains(range),
{
    let ghost rs = edits@.map_values(|e: TextEdit| e.range);
    let mut i: usize = 0;
    while i < edits.len()
        invariant
            i <= edits.len(),
            rs == edits@.map_values(|e: TextEdit| e.range),
            forall|j: int| 0 <= j < i ==> rs[j] != range,
        decreases edits.len() - i,
    {
        if edits[i].range == range {
            assert(rs[i as int] == range);
            return true;
        }
        i = i + 1;
    }
    false
}

/// Whether a rename to `new_name` can go ahead with the references found: the name
/// is a valid identifier and there is at least one reference.
pub open spec fn rename_applicable(new_name: Seq<char>, locations: Option<Vec<(String, Range)>>) -> bool {
    nomo_identifier(new_name) && match locations {
        Some(l) => l.len() > 0,
        None => false,
    }
}

/// The edits renaming every reference to `new_name`, grouped by document (see
/// [`grouped_ranges`]); `None` when `new_name` is not a valid identifier, the
/// references could not be found, or there are none.
pub fn rename_edits(new_name: &str, locations: Option<Vec<(String, Range)>>) -> (r: Option<
    Vec<(String, Vec<TextEdit>)>,
>)
    ensures
        r is Some <==> rename_applicable(new_name@, locations),
        r matches Some(groups) ==> (locations matches Some(l) && groups_view(groups@)
            == grouped_ranges(locations_view(l@), l.len() as nat)),
        r matches Some(groups) ==> forall|g: int, e: int|
            0 <= g < groups.len() && 0 <= e < groups@[g].1.len() ==> (
            #[trigger] groups@[g].1@[e]).new_text@ == new_name@,
{
    if !is_nomo_identifier(new_name) {
        return None;
    }
    let locations = match locations {
        Some(l) => l,
        None => return None,
    };
    if locations.len() == 0 {
        return None;
    }
    let ghost lv = locations_view(locations@);
    let mut groups: Vec<(String, Vec<TextEdit>)> = Vec::new();
    let mut i: usize = 0;
    while i < locations.len()
        invariant
            i <= locations.len(),
            lv == locations_view(locations@),
            groups_view(groups@) == grouped_ranges(lv, i as nat),
            forall|g: int, e: int|
                0 <= g < groups.len() && 0 <= e < groups@[g].1.len() ==> (
                #[trigger] groups@[g].1@[e]).new_text@ == new_name@,
        decreases locations.len() - i,
    {
        let uri = &locations[i].0;
        let range = locations[i].1;
        assert(lv[i as int] == (uri@, range));
        let ghost gv = groups_view(groups@);
        proof {
            lemma_group_index(gv, uri@);
        }
        match find_group(&groups, uri) {
            Some(gi) => {
                assert(gv[gi as int].1 == groups@[gi as int].1@.map_values(|e: TextEdit| e.range));
                if !has_range(&groups[gi].1, range) {
                    let ghost old_groups = groups@;
                    let mut entry = groups.remove(gi);
                    let ghost old_edits = entry.1@;
                    entry.1.push(TextEdit { range, new_text: new_name.to_owned() });
                    groups.insert(gi, entry);
                    assert(groups@ =~= old_groups.update(gi as int, groups@[gi as int]));
                    assert(groups@[gi as int].1@.map_values(|e: TextEdit| e.range)
                        =~= old_edits.map_values(|e: TextEdit| e.range).push(range));
                    assert(groups_view(groups@) =~= gv.update(
                        gi as int,
                        (uri@, gv[gi as int].1.push(range)),
                    ));
                }
            },
            None => {
                let mut edits: Vec<TextEdit> = Vec::new();
                edits.push(TextEdit { range, new_text: new_name.to_owned() });
                groups.push((uri.clone(), edits));
                assert(groups@[groups.len() - 1].1@.map_values(|e: TextEdit| e.range) =~= seq![
                    range,
                ]);
                assert(groups_view(groups@) =~= gv.push((uri@, seq![range])));
            },
        }
        i = i + 1;
    }
    Some(groups)
}

} // verus!

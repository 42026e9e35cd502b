//! Which of the libraries that were built a test is linked to.

use vstd::prelude::*;

use crate::error::ErrorView;
use crate::fingerprint::{
    bare_name, fingerprint_of, law_scanned_name_is_libname, Fingerprint, FingerprintFile,
    FingerprintFileView, FingerprintView,
};
use crate::locked::{law_first_listing_decides, locked_version, LockedDeps};

verus! {

/// The fingerprints among some files, in their order.
pub open spec fn fingerprints_in(files: Seq<FingerprintFileView>) -> Seq<FingerprintView>
    decreases files.len(),
{
    if files.len() == 0 {
        seq![]
    } else {
        let before = fingerprints_in(files.drop_last());
        match fingerprint_of(files.last()) {
            Ok(fingerprint) => before.push(fingerprint),
            Err(_) => before,
        }
    }
}

/// What is kept of a library where one more build of it is found. A build of the locked version
/// is taken where there is none yet, and where it is fresher than the one there is; a build of
/// unknown version is taken where there is none yet; a build of another version never is.
pub open spec fn kept_after(
    kept: Option<FingerprintView>,
    found: FingerprintView,
    locked: Seq<char>,
) -> Option<FingerprintView> {
    match (kept, found.version) {
        (Some(old), Some(version)) => if version == locked && old.mtime < found.mtime {
            Some(found)
        } else {
            kept
        },
        (None, Some(version)) => if version == locked {
            Some(found)
        } else {
            None
        },
        (None, None) => Some(found),
        (Some(_), None) => kept,
    }
}

/// The build of a library that is kept of those found.
pub open spec fn kept_of(
    found: Seq<FingerprintView>,
    name: Seq<char>,
    locked: Seq<char>,
) -> Option<FingerprintView>
    decreases found.len(),
{
    if found.len() == 0 {
        None
    } else {
        let before = kept_of(found.drop_last(), name, locked);
        if bare_name(found.last().libname) == name {
            kept_after(before, found.last(), locked)
        } else {
            before
        }
    }
}

/// For each library that has a locked version and of which some build is kept, this holds that
/// build, and nothing else.
pub open spec fn is_selection(
    locked: Seq<(Seq<char>, Seq<char>)>,
    found: Seq<FingerprintView>,
    selected: Seq<FingerprintView>,
) -> bool {
    &&& forall|i: int, j: int|
        0 <= i < j < selected.len() ==> bare_name((#[trigger] selected[i]).libname) != bare_name(
            (#[trigger] selected[j]).libname,
        )
    &&& forall|i: int|
        0 <= i < selected.len() ==> is_kept(locked, found, #[trigger] selected[i])
    &&& forall|name: Seq<char>|
        (#[trigger] locked_version(locked, name)) is Some && kept_of(
            found,
            name,
            locked_version(locked, name)->0,
        ) is Some ==> selected.contains(kept_of(found, name, locked_version(locked, name)->0)->0)
}

/// This is the build that is kept of its library.
pub open spec fn is_kept(
    locked: Seq<(Seq<char>, Seq<char>)>,
    found: Seq<FingerprintView>,
    build: FingerprintView,
) -> bool {
    let version = locked_version(locked, bare_name(build.libname));
    version is Some && kept_of(found, bare_name(build.libname), version->0) == Some(build)
}

/// The build that is kept of a library is one of those found, and of that library.
proof fn lemma_kept_is_found(found: Seq<FingerprintView>, name: Seq<char>, locked: Seq<char>)
    requires
        kept_of(found, name, locked) is Some,
    ensures
        found.contains(kept_of(found, name, locked)->0),
        bare_name(kept_of(found, name, locked)->0.libname) == name,
    decreases found.len(),
{
    let before = kept_of(found.drop_last(), name, locked);
    if bare_name(found.last().libname) == name && kept_of(found, name, locked) == Some(
        found.last(),
    ) {
        assert(found[found.len() - 1] == found.last());
    } else {
        lemma_kept_is_found(found.drop_last(), name, locked);
        let i = found.drop_last().index_of(before->0);
        assert(found[i] == before->0);
    }
}

/// The place of the build of a library.
fn find_kept(kept: &Vec<Fingerprint>, name: &String) -> (place: Option<usize>)
    ensures
        place matches Some(k) ==> k < kept@.len() && bare_name(kept@[k as int].libname@) == name@,
        place is None ==> forall|i: int|
            0 <= i < kept@.len() ==> bare_name((#[trigger] kept@[i]).libname@) != name@,
{
    let mut i: usize = 0;
    while i < kept.len()
        invariant
            i <= kept@.len(),
            forall|j: int| 0 <= j < i ==> bare_name((#[trigger] kept@[j]).libname@) != name@,
        decreases kept@.len() - i,
    {
        if kept[i].name() == *name {
            return Some(i);
        }
        i += 1;
    }
    None
}

/// A build that does not change what is kept of its library leaves the selection as it is.
proof fn lemma_selection_stays(
    locked: Seq<(Seq<char>, Seq<char>)>,
    found: Seq<FingerprintView>,
    new: FingerprintView,
    selected: Seq<FingerprintView>,
)
    requires
        is_selection(locked, found, selected),
        locked_version(locked, bare_name(new.libname)) matches Some(version) ==> kept_of(
            found.push(new),
            bare_name(new.libname),
            version,
        ) == kept_of(found, bare_name(new.libname), version),
    ensures
        is_selection(locked, found.push(new), selected),
{
    assert(found.push(new).drop_last() == found);
    assert forall|name: Seq<char>|
        (#[trigger] locked_version(locked, name)) is Some implies kept_of(
        found.push(new),
        name,
        locked_version(locked, name)->0,
    ) == kept_of(found, name, locked_version(locked, name)->0) by {}
}

/// A build that is taken where its library had none joins the selection.
proof fn lemma_selection_grows(
    locked: Seq<(Seq<char>, Seq<char>)>,
    found: Seq<FingerprintView>,
    new: FingerprintView,
    selected: Seq<FingerprintView>,
)
    requires
        is_selection(locked, found, selected),
        locked_version(locked, bare_name(new.libname)) is Some,
        kept_of(
            found.push(new),
            bare_name(new.libname),
            locked_version(locked, bare_name(new.libname))->0,
        ) == Some(new),
        forall|i: int|
            0 <= i < selected.len() ==> bare_name((#[trigger] selected[i]).libname) != bare_name(
                new.libname,
            ),
    ensures
        is_selection(locked, found.push(new), selected.push(new)),
{
    let all = found.push(new);
    let now = selected.push(new);
    assert(all.drop_last() == found);
    assert forall|i: int| 0 <= i < now.len() implies is_kept(locked, all, #[trigger] now[i]) by {
        if i < selected.len() {
            assert(is_kept(locked, found, selected[i]));
        }
    }
    assert forall|name: Seq<char>|
        (#[trigger] locked_version(locked, name)) is Some && kept_of(
            all,
            name,
            locked_version(locked, name)->0,
        ) is Some implies now.contains(
        kept_of(all, name, locked_version(locked, name)->0)->0,
    ) by {
        let build = kept_of(all, name, locked_version(locked, name)->0)->0;
        if name == bare_name(new.libname) {
            assert(now[selected.len() as int] == build);
        } else {
            let i = selected.index_of(build);
            assert(now[i] == build);
        }
    }
}

/// A build that is taken for an older one of its library stands in its place.
proof fn lemma_selection_changes(
    locked: Seq<(Seq<char>, Seq<char>)>,
    found: Seq<FingerprintView>,
    new: FingerprintView,
    selected: Seq<FingerprintView>,
    k: int,
)
    requires
        is_selection(locked, found, selected),
        0 <= k < selected.len(),
        bare_name(selected[k].libname) == bare_name(new.libname),
        locked_version(locked, bare_name(new.libname)) is Some,
        kept_of(
            found.push(new),
            bare_name(new.libname),
            locked_version(locked, bare_name(new.libname))->0,
        ) == Some(new),
    ensures
        is_selection(locked, found.push(new), selected.update(k, new)),
{
    let all = found.push(new);
    let now = selected.update(k, new);
    assert(all.drop_last() == found);
    assert forall|i: int| 0 <= i < now.len() implies is_kept(locked, all, #[trigger] now[i]) by {
        if i != k {
            assert(is_kept(locked, found, selected[i]));
            assert(bare_name(selected[i].libname) != bare_name(selected[k].libname));
        }
    }
    assert forall|i: int, j: int| 0 <= i < j < now.len() implies bare_name(
        (#[trigger] now[i]).libname,
    ) != bare_name((#[trigger] now[j]).libname) by {
        assert(bare_name(selected[i].libname) != bare_name(selected[j].libname));
    }
    assert forall|name: Seq<char>|
        (#[trigger] locked_version(locked, name)) is Some && kept_of(
            all,
            name,
            locked_version(locked, name)->0,
        ) is Some implies now.contains(
        kept_of(all, name, locked_version(locked, name)->0)->0,
    ) by {
        let build = kept_of(all, name, locked_version(locked, name)->0)->0;
        if name == bare_name(new.libname) {
            assert(now[k] == build);
        } else {
            lemma_kept_is_found(found, name, locked_version(locked, name)->0);
            let i = selected.index_of(build);
            assert(now[i] == build);
        }
    }
}

/// Of each library that a project is locked to, the build to link to, as far as the files that
/// may be fingerprints tell of one.
pub fn get_rlib_dependencies(lock: &LockedDeps, files: &Vec<FingerprintFile>) -> (selected: Vec<
    Fingerprint,
>)
    ensures
        is_selection(
            lock.deep_view().dependencies,
            fingerprints_in(files.deep_view()),
            selected.deep_view(),
        ),
        is_choice(lock.deep_view().dependencies, files.deep_view(), selected.deep_view()),
{
    let ghost all = files.deep_view();
    let ghost locked = lock.deep_view().dependencies;
    let mut selected: Vec<Fingerprint> = Vec::new();
    let mut i: usize = 0;
    assert(all.take(0).len() == 0);
    while i < files.len()
        invariant
            i <= files@.len(),
            all == files.deep_view(),
            locked == lock.deep_view().dependencies,
            is_selection(locked, fingerprints_in(all.take(i as int)), selected.deep_view()),
        decreases files@.len() - i,
    {
        let ghost found = fingerprints_in(all.take(i as int));
        let ghost before = selected.deep_view();
        assert(all.take(i + 1).drop_last() == all.take(i as int));
        assert(all.take(i + 1).last() == files@[i as int].deep_view());
        if let Ok(finger) = Fingerprint::from_path(&files[i]) {
            let ghost new = finger.deep_view();
            let name = finger.name();
            assert(found.push(new).drop_last() == found);
            assert(fingerprints_in(all.take(i + 1)) == found.push(new));
            match lock.locked_version(&name) {
                None => {
                    proof {
                        lemma_selection_stays(locked, found, new, before);
                    }
                },
                Some(locked_ver) => {
                    let place = find_kept(&selected, &name);
                    let is_locked = match finger.version() {
                        Some(version) => version == locked_ver,
                        None => false,
                    };
                    match place {
                        Some(k) => {
                            proof {
                                assert(before[k as int] == selected@[k as int].deep_view());
                                assert(is_kept(locked, found, before[k as int]));
                            }
                            if is_locked && selected[k].mtime < finger.mtime {
                                selected[k] = finger;
                                proof {
                                    assert(selected.deep_view() == before.update(k as int, new));
                                    lemma_selection_changes(locked, found, new, before, k as int);
                                }
                            } else {
                                proof {
                                    lemma_selection_stays(locked, found, new, before);
                                }
                            }
                        },
                        None => {
                            proof {
                                assert forall|j: int| 0 <= j < before.len() implies bare_name(
                                    (#[trigger] before[j]).libname,
                                ) != name@ by {
                                    assert(selected@[j].deep_view() == before[j]);
                                }
                                if kept_of(found, name@, locked_ver@) is Some {
                                    lemma_kept_is_found(found, name@, locked_ver@);
                                    let build = kept_of(found, name@, locked_ver@)->0;
                                    let j = before.index_of(build);
                                    assert(bare_name(before[j].libname) != name@);
                                }
                            }
                            if is_locked || finger.version.is_none() {
                                selected.push(finger);
                                proof {
                                    assert(selected.deep_view() == before.push(new));
                                    lemma_selection_grows(locked, found, new, before);
                                }
                            } else {
                                proof {
                                    lemma_selection_stays(locked, found, new, before);
                                }
                            }
                        },
                    }
                },
            }
        }
        i += 1;
    }
    assert(all.take(i as int) == all);
    proof {
        law_best_build_of_each_library_is_linked(locked, all, selected.deep_view());
    }
    selected
}

/// A build that can be kept of a library.
pub open spec fn is_eligible(build: FingerprintView, name: Seq<char>, locked: Seq<char>) -> bool {
    bare_name(build.libname) == name && (build.version is None || build.version == Some(locked))
}

/// What is kept is eligible and no older than any build of the locked version; something is kept
/// as soon as something is eligible.
proof fn lemma_kept_is_best(
    found: Seq<FingerprintView>,
    name: Seq<char>,
    locked: Seq<char>,
    i: int,
)
    requires
        0 <= i < found.len(),
        is_eligible(found[i], name, locked),
    ensures
        kept_of(found, name, locked) matches Some(build) && is_eligible(build, name, locked) && (
        found[i].version is Some ==> found[i].mtime <= build.mtime),
    decreases found.len(),
{
    let shorter = found.drop_last();
    if i < shorter.len() {
        assert(shorter[i] == found[i]);
        lemma_kept_is_best(shorter, name, locked, i);
    } else if kept_of(shorter, name, locked) is Some {
        lemma_kept_is_eligible(shorter, name, locked);
    }
}

proof fn lemma_kept_is_eligible(found: Seq<FingerprintView>, name: Seq<char>, locked: Seq<char>)
    requires
        kept_of(found, name, locked) is Some,
    ensures
        is_eligible(kept_of(found, name, locked)->0, name, locked),
    decreases found.len(),
{
    if kept_of(found, name, locked) != Some(found.last()) || bare_name(found.last().libname)
        != name {
        lemma_kept_is_eligible(found.drop_last(), name, locked);
    } else if kept_of(found.drop_last(), name, locked) == kept_of(found, name, locked) {
        lemma_kept_is_eligible(found.drop_last(), name, locked);
    }
}

/// A library is linked to in the version that the project is locked to, or in one that is not
/// known; never in one that is known to be another.
pub proof fn law_other_versions_are_not_selected(
    locked: Seq<(Seq<char>, Seq<char>)>,
    found: Seq<FingerprintView>,
    selected: Seq<FingerprintView>,
    k: int,
)
    requires
        is_selection(locked, found, selected),
        0 <= k < selected.len(),
    ensures
        found.contains(selected[k]),
        locked_version(locked, bare_name(selected[k].libname)) is Some,
        selected[k].version is None || selected[k].version == locked_version(
            locked,
            bare_name(selected[k].libname),
        ),
{
    assert(is_kept(locked, found, selected[k]));
    let name = bare_name(selected[k].libname);
    lemma_kept_is_found(found, name, locked_version(locked, name)->0);
    lemma_kept_is_eligible(found, name, locked_version(locked, name)->0);
}

/// Where a build of the locked version was found, its library is linked to, and in a build that is
/// no older.
pub proof fn law_locked_version_is_selected(
    locked: Seq<(Seq<char>, Seq<char>)>,
    found: Seq<FingerprintView>,
    selected: Seq<FingerprintView>,
    i: int,
)
    requires
        is_selection(locked, found, selected),
        0 <= i < found.len(),
        found[i].version is Some,
        found[i].version == locked_version(locked, bare_name(found[i].libname)),
    ensures
        exists|k: int|
            0 <= k < selected.len() && bare_name((#[trigger] selected[k]).libname) == bare_name(
                found[i].libname,
            ) && found[i].mtime <= selected[k].mtime,
{
    let name = bare_name(found[i].libname);
    let version = locked_version(locked, name)->0;
    lemma_kept_is_best(found, name, version, i);
    lemma_kept_is_found(found, name, version);
    let k = selected.index_of(kept_of(found, name, version)->0);
    assert(bare_name(selected[k].libname) == name);
}

/// A build of unknown version is linked to only where no eligible build was found before it.
pub proof fn law_unknown_version_displaces_none(
    locked: Seq<(Seq<char>, Seq<char>)>,
    found: Seq<FingerprintView>,
    selected: Seq<FingerprintView>,
    k: int,
)
    requires
        is_selection(locked, found, selected),
        0 <= k < selected.len(),
        selected[k].version is None,
    ensures
        exists|i: int|
            0 <= i < found.len() && #[trigger] found[i] == selected[k] && forall|j: int|
                0 <= j < i ==> !is_eligible(
                    #[trigger] found[j],
                    bare_name(selected[k].libname),
                    locked_version(locked, bare_name(selected[k].libname))->0,
                ),
{
    assert(is_kept(locked, found, selected[k]));
    let name = bare_name(selected[k].libname);
    lemma_unknown_came_first(found, name, locked_version(locked, name)->0);
}

/// Nothing before this place is eligible.
spec fn is_first_eligible(
    found: Seq<FingerprintView>,
    name: Seq<char>,
    locked: Seq<char>,
    i: int,
) -> bool {
    forall|j: int| 0 <= j < i ==> !is_eligible(#[trigger] found[j], name, locked)
}

proof fn lemma_unknown_came_first(
    found: Seq<FingerprintView>,
    name: Seq<char>,
    locked: Seq<char>,
) -> (i: int)
    requires
        kept_of(found, name, locked) matches Some(build) && build.version is None,
    ensures
        0 <= i < found.len(),
        Some(found[i]) == kept_of(found, name, locked),
        is_first_eligible(found, name, locked, i),
    decreases found.len(),
{
    let shorter = found.drop_last();
    let last = found.len() - 1;
    if kept_of(shorter, name, locked) is None {
        assert forall|j: int| 0 <= j < last implies !is_eligible(
            #[trigger] found[j],
            name,
            locked,
        ) by {
            if is_eligible(found[j], name, locked) {
                assert(shorter[j] == found[j]);
                lemma_kept_is_best(shorter, name, locked, j);
            }
        }
        last
    } else {
        let i = lemma_unknown_came_first(shorter, name, locked);
        assert(shorter[i] == found[i]);
        assert forall|j: int| 0 <= j < i implies !is_eligible(
            #[trigger] found[j],
            name,
            locked,
        ) by {
            assert(shorter[j] == found[j]);
        }
        i
    }
}

/// Those of some builds that exist.
pub open spec fn present_of(
    builds: Seq<FingerprintView>,
    present: Seq<bool>,
) -> Seq<FingerprintView>
    decreases builds.len(),
{
    if builds.len() == 0 {
        seq![]
    } else {
        let k = builds.len() - 1;
        let before = present_of(builds.drop_last(), present);
        if k < present.len() && present[k] {
            before.push(builds[k])
        } else {
            before
        }
    }
}

/// Those that exist are some of all.
pub proof fn lemma_present_are_some(
    builds: Seq<FingerprintView>,
    present: Seq<bool>,
    build: FingerprintView,
)
    requires
        present_of(builds, present).contains(build),
    ensures
        builds.contains(build),
    decreases builds.len(),
{
    let shorter = builds.drop_last();
    let before = present_of(shorter, present);
    if before.contains(build) {
        lemma_present_are_some(shorter, present, build);
        let i = shorter.index_of(build);
        assert(builds[i] == build);
    } else {
        let k = present_of(builds, present).index_of(build);
        if k < before.len() {
            assert(before[k] == build);
        }
        assert(builds[builds.len() - 1] == build);
    }
}

/// Keeps those of some builds that exist; `present` says which do.
pub fn retain_present(builds: &Vec<Fingerprint>, present: &Vec<bool>) -> (kept: Vec<Fingerprint>)
    ensures
        kept.deep_view() == present_of(builds.deep_view(), present@),
{
    let ghost all = builds.deep_view();
    let mut kept: Vec<Fingerprint> = Vec::new();
    let mut i: usize = 0;
    assert(kept.deep_view() == Seq::<FingerprintView>::empty());
    while i < builds.len()
        invariant
            i <= builds@.len(),
            all == builds.deep_view(),
            kept.deep_view() == present_of(all.take(i as int), present@),
        decreases builds@.len() - i,
    {
        let ghost before = kept.deep_view();
        assert(all.take(i + 1).drop_last() == all.take(i as int));
        if i < present.len() && present[i] {
            kept.push(builds[i].clone());
            assert(kept.deep_view() == before.push(all[i as int]));
        }
        i += 1;
    }
    assert(all.take(i as int) == all);
    kept
}

/// The fingerprints among some files are those of the files, one for each file that is one, in
/// the order of the files: `at` says which file each comes from.
pub proof fn law_every_fingerprint_is_found(files: Seq<FingerprintFileView>) -> (at: Seq<int>)
    ensures
        at.len() == fingerprints_in(files).len(),
        forall|k: int|
            0 <= k < at.len() ==> 0 <= #[trigger] at[k] < files.len() && fingerprint_of(
                files[at[k]],
            ) == Ok::<FingerprintView, ErrorView>(fingerprints_in(files)[k]),
        forall|k: int, m: int| 0 <= k < m < at.len() ==> #[trigger] at[k] < #[trigger] at[m],
        forall|i: int|
            0 <= i < files.len() && fingerprint_of(#[trigger] files[i]) is Ok ==> at.contains(i),
    decreases files.len(),
{
    if files.len() == 0 {
        Seq::empty()
    } else {
        let shorter = files.drop_last();
        let last = files.len() - 1;
        let before = law_every_fingerprint_is_found(shorter);
        let at = match fingerprint_of(files.last()) {
            Ok(_) => before.push(last),
            Err(_) => before,
        };
        assert forall|k: int| 0 <= k < at.len() implies 0 <= #[trigger] at[k] < files.len()
            && fingerprint_of(files[at[k]]) == Ok::<FingerprintView, ErrorView>(
            fingerprints_in(files)[k],
        ) by {
            if k < before.len() {
                assert(at[k] == before[k]);
                assert(shorter[before[k]] == files[before[k]]);
            }
        }
        assert forall|i: int|
            0 <= i < files.len() && fingerprint_of(
                #[trigger] files[i],
            ) is Ok implies at.contains(i) by {
            if i < last {
                assert(shorter[i] == files[i]);
                let k = before.index_of(i);
                assert(at[k] == i);
            } else {
                assert(at[before.len() as int] == i);
            }
        }
        at
    }
}

/// The file tells of a build of this library that may be linked to: it is of the locked version,
/// or its version is not known.
pub open spec fn offers(file: FingerprintFileView, name: Seq<char>, version: Seq<char>) -> bool {
    fingerprint_of(file) matches Ok(build) && build.libname == name && (build.version is None
        || build.version == Some(version))
}

/// The file tells of a build that is chosen from: one of the locked version, or the first of all
/// that may be linked to.
pub open spec fn is_candidate(
    files: Seq<FingerprintFileView>,
    i: int,
    name: Seq<char>,
    version: Seq<char>,
) -> bool {
    &&& offers(files[i], name, version)
    &&& fingerprint_of(files[i])->Ok_0.version is Some || forall|j: int|
        0 <= j < i ==> !offers(#[trigger] files[j], name, version)
}

/// The build is that of a file that is chosen from; no other such file tells of a fresher one, and
/// none before it of one that is as fresh.
pub open spec fn is_best(
    files: Seq<FingerprintFileView>,
    i: int,
    name: Seq<char>,
    version: Seq<char>,
    build: FingerprintView,
) -> bool {
    &&& 0 <= i < files.len()
    &&& fingerprint_of(files[i]) == Ok::<FingerprintView, ErrorView>(build)
    &&& is_candidate(files, i, name, version)
    &&& forall|j: int|
        0 <= j < files.len() && #[trigger] is_candidate(files, j, name, version)
            ==> fingerprint_of(files[j])->Ok_0.mtime <= build.mtime && (j < i ==> fingerprint_of(
            files[j],
        )->Ok_0.mtime < build.mtime)
}

/// The listing is the first of its library.
pub open spec fn is_first_listing(locked: Seq<(Seq<char>, Seq<char>)>, n: int) -> bool {
    &&& 0 <= n < locked.len()
    &&& forall|m: int| 0 <= m < n ==> (#[trigger] locked[m]).0 != locked[n].0
}

/// Of each library that is locked and that some file tells of a build of that may be linked to,
/// this holds the best, and nothing else.
pub open spec fn is_choice(
    locked: Seq<(Seq<char>, Seq<char>)>,
    files: Seq<FingerprintFileView>,
    selected: Seq<FingerprintView>,
) -> bool {
    &&& forall|k: int, l: int|
        0 <= k < l < selected.len() ==> (#[trigger] selected[k]).libname != (
        #[trigger] selected[l]).libname
    &&& forall|k: int|
        0 <= k < selected.len() ==> is_best_of_locked(locked, files, #[trigger] selected[k])
    &&& forall|n: int, i: int|
        #![trigger offers(files[i], locked[n].0, locked[n].1)]
        is_first_listing(locked, n) && 0 <= i < files.len() && offers(
            files[i],
            locked[n].0,
            locked[n].1,
        ) ==> holds_library(selected, locked[n].0)
}

/// The build is the best of a library that is locked.
pub open spec fn is_best_of_locked(
    locked: Seq<(Seq<char>, Seq<char>)>,
    files: Seq<FingerprintFileView>,
    build: FingerprintView,
) -> bool {
    exists|n: int, i: int|
        #![trigger is_best(files, i, locked[n].0, locked[n].1, build)]
        is_first_listing(locked, n) && locked[n].0 == build.libname && is_best(
            files,
            i,
            locked[n].0,
            locked[n].1,
            build,
        )
}

/// Some build is one of this library.
pub open spec fn holds_library(selected: Seq<FingerprintView>, name: Seq<char>) -> bool {
    exists|k: int| 0 <= k < selected.len() && (#[trigger] selected[k]).libname == name
}

/// The build can be kept, and is one that those found before it do not rule out.
spec fn is_contender(
    found: Seq<FingerprintView>,
    i: int,
    name: Seq<char>,
    locked: Seq<char>,
) -> bool {
    is_eligible(found[i], name, locked) && (found[i].version is Some || is_first_eligible(
        found,
        name,
        locked,
        i,
    ))
}

/// What is kept is the first of the freshest contenders.
proof fn lemma_kept_is_freshest(
    found: Seq<FingerprintView>,
    name: Seq<char>,
    locked: Seq<char>,
) -> (i: int)
    requires
        kept_of(found, name, locked) is Some,
    ensures
        0 <= i < found.len(),
        kept_of(found, name, locked) == Some(found[i]),
        is_contender(found, i, name, locked),
        forall|j: int|
            0 <= j < found.len() && #[trigger] is_contender(found, j, name, locked)
                ==> found[j].mtime <= found[i].mtime && (j < i ==> found[j].mtime
                < found[i].mtime),
    decreases found.len(),
{
    let shorter = found.drop_last();
    let last = found.len() - 1;
    let before = kept_of(shorter, name, locked);
    assert forall|j: int| 0 <= j < last implies is_contender(found, j, name, locked)
        == #[trigger] is_contender(shorter, j, name, locked) by {
        assert(shorter[j] == found[j]);
        assert(forall|m: int| 0 <= m < j ==> #[trigger] shorter[m] == found[m]);
        if is_first_eligible(shorter, name, locked, j) {
            assert forall|m: int| 0 <= m < j implies !is_eligible(
                #[trigger] found[m],
                name,
                locked,
            ) by {
                assert(shorter[m] == found[m]);
            }
        }
    }
    if before is None {
        assert forall|j: int| 0 <= j < last implies !is_eligible(
            #[trigger] found[j],
            name,
            locked,
        ) by {
            if is_eligible(found[j], name, locked) {
                assert(shorter[j] == found[j]);
                lemma_kept_is_best(shorter, name, locked, j);
            }
        }
        assert(is_first_eligible(found, name, locked, last));
        last
    } else {
        let i = lemma_kept_is_freshest(shorter, name, locked);
        assert(shorter[i] == found[i]);
        assert forall|j: int|
            0 <= j < last && #[trigger] is_contender(
                found,
                j,
                name,
                locked,
            ) implies found[j].mtime <= found[i].mtime && (j < i ==> found[j].mtime
            < found[i].mtime) by {
            assert(is_contender(shorter, j, name, locked));
        }
        assert(is_contender(shorter, i, name, locked));
        if kept_of(found, name, locked) == before {
            if is_contender(found, last, name, locked) {
                if found[last].version is None {
                    assert(!is_eligible(found[i], name, locked));
                }
            }
            i
        } else {
            last
        }
    }
}

/// The contenders are the builds of the files that are chosen from.
proof fn lemma_contenders_are_candidates(
    files: Seq<FingerprintFileView>,
    at: Seq<int>,
    k: int,
    name: Seq<char>,
    version: Seq<char>,
)
    requires
        at.len() == fingerprints_in(files).len(),
        forall|k: int|
            0 <= k < at.len() ==> 0 <= #[trigger] at[k] < files.len() && fingerprint_of(
                files[at[k]],
            ) == Ok::<FingerprintView, ErrorView>(fingerprints_in(files)[k]),
        forall|k: int, m: int| 0 <= k < m < at.len() ==> #[trigger] at[k] < #[trigger] at[m],
        forall|i: int|
            0 <= i < files.len() && fingerprint_of(#[trigger] files[i]) is Ok ==> at.contains(i),
        0 <= k < at.len(),
    ensures
        is_eligible(fingerprints_in(files)[k], name, version) <==> offers(
            files[at[k]],
            name,
            version,
        ),
        is_contender(fingerprints_in(files), k, name, version) <==> is_candidate(
            files,
            at[k],
            name,
            version,
        ),
{
    let found = fingerprints_in(files);
    assert forall|m: int| 0 <= m < at.len() implies is_eligible(
        #[trigger] found[m],
        name,
        version,
    ) == offers(files[at[m]], name, version) by {
        law_scanned_name_is_libname(files[at[m]]);
    }
    if is_first_eligible(found, name, version, k) {
        assert forall|j: int| 0 <= j < at[k] implies !offers(
            #[trigger] files[j],
            name,
            version,
        ) by {
            if offers(files[j], name, version) {
                let m = at.index_of(j);
                assert(at[m] == j);
                if k < m {
                    assert(at[k] < at[m]);
                }
                assert(!is_eligible(found[m], name, version));
            }
        }
    }
    if forall|j: int| 0 <= j < at[k] ==> !offers(#[trigger] files[j], name, version) {
        assert forall|m: int| 0 <= m < k implies !is_eligible(
            #[trigger] found[m],
            name,
            version,
        ) by {
            assert(at[m] < at[k]);
            assert(!offers(files[at[m]], name, version));
        }
    }
}

/// Every file that tells of a build takes part, in whatever form its library is: of each locked
/// library the best of the builds that the files tell of is linked to, and nothing else is.
pub proof fn law_best_build_of_each_library_is_linked(
    locked: Seq<(Seq<char>, Seq<char>)>,
    files: Seq<FingerprintFileView>,
    selected: Seq<FingerprintView>,
)
    requires
        is_selection(locked, fingerprints_in(files), selected),
    ensures
        is_choice(locked, files, selected),
{
    let found = fingerprints_in(files);
    let at = law_every_fingerprint_is_found(files);
    assert forall|k: int| 0 <= k < found.len() implies bare_name((#[trigger] found[k]).libname)
        == found[k].libname by {
        law_scanned_name_is_libname(files[at[k]]);
    }
    assert forall|k: int| 0 <= k < selected.len() implies bare_name(
        (#[trigger] selected[k]).libname,
    ) == selected[k].libname by {
        law_other_versions_are_not_selected(locked, found, selected, k);
        let m = found.index_of(selected[k]);
        assert(bare_name(found[m].libname) == found[m].libname);
    }
    assert forall|k: int, l: int| 0 <= k < l < selected.len() implies (
    #[trigger] selected[k]).libname != (#[trigger] selected[l]).libname by {
        assert(bare_name(selected[k].libname) != bare_name(selected[l].libname));
    }
    assert forall|k: int| 0 <= k < selected.len() implies is_best_of_locked(
        locked,
        files,
        #[trigger] selected[k],
    ) by {
        let name = selected[k].libname;
        assert(is_kept(locked, found, selected[k]));
        let version = locked_version(locked, name)->0;
        law_first_listing_decides(locked, name);
        let n = choose|n: int|
            0 <= n < locked.len() && #[trigger] locked[n] == (name, version) && forall|m: int|
                0 <= m < n ==> (#[trigger] locked[m]).0 != name;
        assert(is_first_listing(locked, n));
        let f = lemma_kept_is_freshest(found, name, version);
        let i = at[f];
        lemma_contenders_are_candidates(files, at, f, name, version);
        assert forall|j: int|
            0 <= j < files.len() && #[trigger] is_candidate(
                files,
                j,
                name,
                version,
            ) implies fingerprint_of(files[j])->Ok_0.mtime <= selected[k].mtime && (j < i
            ==> fingerprint_of(files[j])->Ok_0.mtime < selected[k].mtime) by {
            let m = at.index_of(j);
            assert(at[m] == j);
            lemma_contenders_are_candidates(files, at, m, name, version);
            assert(is_contender(found, m, name, version));
            if f < m {
                assert(at[f] < at[m]);
            }
        }
        assert(is_best(files, i, locked[n].0, locked[n].1, selected[k]));
    }
    assert forall|n: int, i: int|
        #![trigger offers(files[i], locked[n].0, locked[n].1)]
        is_first_listing(locked, n) && 0 <= i < files.len() && offers(
            files[i],
            locked[n].0,
            locked[n].1,
        ) implies holds_library(selected, locked[n].0) by {
        let name = locked[n].0;
        law_first_listing_decides(locked, name);
        let version = locked_version(locked, name)->0;
        let m = choose|m: int|
            0 <= m < locked.len() && #[trigger] locked[m] == (name, version) && forall|l: int|
                0 <= l < m ==> (#[trigger] locked[l]).0 != name;
        assert(m == n) by {
            if m < n {
                assert(locked[m].0 != locked[n].0);
            }
            if n < m {
                assert(locked[n].0 != name);
            }
        }
        let f = at.index_of(i);
        assert(at[f] == i);
        lemma_contenders_are_candidates(files, at, f, name, version);
        lemma_kept_is_best(found, name, version, f);
        lemma_kept_is_found(found, name, version);
        let build = kept_of(found, name, version)->0;
        let k = selected.index_of(build);
        assert(selected[k].libname == name);
    }
}

/// Of some builds those are left that exist, in their order: `at` says which build each is.
pub proof fn law_builds_that_exist_are_left(
    builds: Seq<FingerprintView>,
    present: Seq<bool>,
) -> (at: Seq<int>)
    ensures
        at.len() == present_of(builds, present).len(),
        forall|k: int|
            0 <= k < at.len() ==> 0 <= #[trigger] at[k] < builds.len() && at[k] < present.len()
                && present[at[k]] && present_of(builds, present)[k] == builds[at[k]],
        forall|k: int, m: int| 0 <= k < m < at.len() ==> #[trigger] at[k] < #[trigger] at[m],
        forall|i: int|
            0 <= i < builds.len() && i < present.len() && #[trigger] present[i] ==> at.contains(i),
    decreases builds.len(),
{
    if builds.len() == 0 {
        Seq::empty()
    } else {
        let shorter = builds.drop_last();
        let last = builds.len() - 1;
        let before = law_builds_that_exist_are_left(shorter, present);
        let at = if last < present.len() && present[last] {
            before.push(last)
        } else {
            before
        };
        assert forall|k: int| 0 <= k < at.len() implies 0 <= #[trigger] at[k] < builds.len()
            && at[k] < present.len() && present[at[k]] && present_of(builds, present)[k]
            == builds[at[k]] by {
            if k < before.len() {
                assert(at[k] == before[k]);
            }
        }
        assert forall|i: int|
            0 <= i < builds.len() && i < present.len() && #[trigger] present[i] implies at.contains(
            i,
        ) by {
            if i < last {
                let k = before.index_of(i);
                assert(at[k] == i);
            } else {
                assert(at[before.len() as int] == i);
            }
        }
        at
    }
}

} // verus!

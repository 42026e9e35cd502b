//! The packages that a project is locked to.

use vstd::prelude::*;

use crate::error::{Error, ErrorView};
use crate::metadata::{Metadata, MetadataView, Node, NodeView, Package, PackageView};
use crate::text::{replace_char, replaced};

verus! {

/// The node that stands for a package: the last of that name, where there are several.
pub open spec fn node_of(nodes: Seq<NodeView>, id: Seq<char>) -> Option<NodeView>
    decreases nodes.len(),
{
    if nodes.len() == 0 {
        None
    } else if nodes.last().id == id {
        Some(nodes.last())
    } else {
        node_of(nodes.drop_last(), id)
    }
}

/// The package with this identifier: the first, where there are several.
pub open spec fn package_of(packages: Seq<PackageView>, id: Seq<char>) -> Option<PackageView>
    decreases packages.len(),
{
    if packages.len() == 0 {
        None
    } else if packages[0].id == id {
        Some(packages[0])
    } else {
        package_of(packages.drop_first(), id)
    }
}

/// The package whose manifest this is: the first, where there are several.
pub open spec fn root_package(packages: Seq<PackageView>, manifest: Seq<char>) -> Option<
    PackageView,
>
    decreases packages.len(),
{
    if packages.len() == 0 {
        None
    } else if packages[0].manifest_path == manifest {
        Some(packages[0])
    } else {
        root_package(packages.drop_first(), manifest)
    }
}

/// What a package depends on itself.
pub open spec fn direct_ids(nodes: Seq<NodeView>, id: Seq<char>) -> Seq<Seq<char>> {
    match node_of(nodes, id) {
        Some(node) => node.dependencies,
        None => seq![],
    }
}

/// A walk along the dependencies.
pub open spec fn is_walk(nodes: Seq<NodeView>, walk: Seq<Seq<char>>) -> bool {
    &&& walk.len() > 0
    &&& forall|i: int|
        0 <= i < walk.len() - 1 ==> direct_ids(nodes, #[trigger] walk[i]).contains(walk[i + 1])
}

/// A package depends on another, itself or by way of others; every package reaches itself.
pub open spec fn reaches(nodes: Seq<NodeView>, from: Seq<char>, to: Seq<char>) -> bool {
    exists|walk: Seq<Seq<char>>| #[trigger]
        is_walk(nodes, walk) && walk[0] == from && walk.last() == to
}

/// The identifiers of all that a package reaches, each once: the package itself, then what it
/// depends on itself, then the rest. Of a package without a node nothing is listed.
pub open spec fn lists_reached(nodes: Seq<NodeView>, root: Seq<char>, ids: Seq<Seq<char>>) -> bool {
    if node_of(nodes, root) is None {
        ids.len() == 0
    } else {
        &&& ids.no_duplicates()
        &&& forall|id: Seq<char>| #[trigger] ids.contains(id) <==> reaches(nodes, root, id)
        &&& ids.len() > 0 && ids[0] == root
        &&& forall|i: int, j: int|
            0 < i < j < ids.len() && direct_ids(nodes, root).contains(#[trigger] ids[j])
                ==> direct_ids(nodes, root).contains(#[trigger] ids[i])
    }
}

/// The place of the node that stands for a package.
fn find_node(nodes: &Vec<Node>, id: &String) -> (place: Option<usize>)
    ensures
        place is None <==> node_of(nodes.deep_view(), id@) is None,
        place matches Some(k) ==> k < nodes@.len() && node_of(nodes.deep_view(), id@) == Some(
            nodes@[k as int].deep_view(),
        ),
{
    let ghost all = nodes.deep_view();
    let mut k: usize = nodes.len();
    assert(all.take(k as int) == all);
    while k > 0
        invariant
            k <= nodes@.len(),
            all == nodes.deep_view(),
            node_of(all, id@) == node_of(all.take(k as int), id@),
        decreases k,
    {
        assert(all.take(k as int).drop_last() == all.take(k - 1));
        if nodes[k - 1].id == *id {
            return Some(k - 1);
        }
        k -= 1;
    }
    None
}

/// Whether a text is among others.
fn is_listed(list: &Vec<String>, item: &String) -> (listed: bool)
    ensures
        listed == list.deep_view().contains(item@),
{
    let mut i: usize = 0;
    while i < list.len()
        invariant
            i <= list@.len(),
            forall|j: int| 0 <= j < i ==> list.deep_view()[j] != item@,
        decreases list@.len() - i,
    {
        if list[i] == *item {
            assert(list.deep_view()[i as int] == item@);
            return true;
        }
        i += 1;
    }
    false
}

/// Every identifier that some node mentions as a dependency.
spec fn mentioned(nodes: Seq<NodeView>) -> Seq<Seq<char>>
    decreases nodes.len(),
{
    if nodes.len() == 0 {
        seq![]
    } else {
        mentioned(nodes.drop_last()) + nodes.last().dependencies
    }
}

proof fn lemma_direct_is_mentioned(nodes: Seq<NodeView>, id: Seq<char>, dep: Seq<char>)
    requires
        direct_ids(nodes, id).contains(dep),
    ensures
        mentioned(nodes).contains(dep),
    decreases nodes.len(),
{
    if nodes.len() > 0 {
        let before = mentioned(nodes.drop_last());
        let last = nodes.last().dependencies;
        if nodes.last().id == id {
            let k = last.index_of(dep);
            assert((before + last)[before.len() + k] == dep);
        } else {
            lemma_direct_is_mentioned(nodes.drop_last(), id, dep);
            let k = before.index_of(dep);
            assert((before + last)[k] == dep);
        }
    }
}

/// A list without repetitions is no longer than one that holds all its items.
proof fn lemma_no_longer<A>(short: Seq<A>, long: Seq<A>)
    requires
        short.no_duplicates(),
        forall|i: int| 0 <= i < short.len() ==> long.contains(#[trigger] short[i]),
    ensures
        short.len() <= long.len(),
{
    broadcast use vstd::seq_lib::seq_to_set_is_finite;

    short.unique_seq_to_set();
    long.lemma_cardinality_of_set();
    assert(short.to_set().subset_of(long.to_set()));
    vstd::set_lib::lemma_len_subset(short.to_set(), long.to_set());
}

/// One step more along the dependencies.
proof fn lemma_reaches_step(
    nodes: Seq<NodeView>,
    root: Seq<char>,
    mid: Seq<char>,
    to: Seq<char>,
)
    requires
        reaches(nodes, root, mid),
        direct_ids(nodes, mid).contains(to),
    ensures
        reaches(nodes, root, to),
{
    let walk = choose|walk: Seq<Seq<char>>| #[trigger]
        is_walk(nodes, walk) && walk[0] == root && walk.last() == mid;
    let longer = walk.push(to);
    assert forall|i: int| 0 <= i < longer.len() - 1 implies direct_ids(
        nodes,
        #[trigger] longer[i],
    ).contains(longer[i + 1]) by {
        if i < walk.len() - 1 {
            assert(direct_ids(nodes, walk[i]).contains(walk[i + 1]));
        }
    }
    assert(is_walk(nodes, longer));
}

/// What holds of a package and passes on to what each holder depends on holds of all it reaches.
proof fn lemma_closed_holds_reached(
    nodes: Seq<NodeView>,
    root: Seq<char>,
    ids: Seq<Seq<char>>,
    to: Seq<char>,
)
    requires
        ids.contains(root),
        forall|a: Seq<char>, b: Seq<char>| #[trigger]
            ids.contains(a) && #[trigger] direct_ids(nodes, a).contains(b) ==> ids.contains(b),
        reaches(nodes, root, to),
    ensures
        ids.contains(to),
{
    let walk = choose|walk: Seq<Seq<char>>| #[trigger]
        is_walk(nodes, walk) && walk[0] == root && walk.last() == to;
    lemma_closed_holds_walk(nodes, ids, walk, walk.len() - 1);
}

proof fn lemma_closed_holds_walk(
    nodes: Seq<NodeView>,
    ids: Seq<Seq<char>>,
    walk: Seq<Seq<char>>,
    k: int,
)
    requires
        is_walk(nodes, walk),
        ids.contains(walk[0]),
        forall|a: Seq<char>, b: Seq<char>| #[trigger]
            ids.contains(a) && #[trigger] direct_ids(nodes, a).contains(b) ==> ids.contains(b),
        0 <= k < walk.len(),
    ensures
        ids.contains(walk[k]),
    decreases k,
{
    if k > 0 {
        lemma_closed_holds_walk(nodes, ids, walk, k - 1);
        assert(direct_ids(nodes, walk[k - 1]).contains(walk[k - 1 + 1]));
    }
}

/// What is known while the dependencies are followed: `ids` holds reached packages, each once and
/// the root first; all that the first `done` of them depend on is in it.
spec fn follows(nodes: Seq<NodeView>, root: Seq<char>, ids: Seq<Seq<char>>, done: int) -> bool {
    &&& node_of(nodes, root) is Some
    &&& 0 <= done <= ids.len()
    &&& ids.len() > 0 && ids[0] == root
    &&& ids.no_duplicates()
    &&& forall|i: int| 0 <= i < ids.len() ==> reaches(nodes, root, #[trigger] ids[i])
    &&& forall|i: int|
        0 <= i < ids.len() ==> (seq![root] + mentioned(nodes)).contains(#[trigger] ids[i])
    &&& forall|i: int, b: Seq<char>|
        0 <= i < done && direct_ids(nodes, #[trigger] ids[i]).contains(b)
            ==> #[trigger] ids.contains(b)
}

/// The first `edge` of the identifiers are the root and what it depends on itself, the rest is
/// not.
spec fn direct_first(direct: Seq<Seq<char>>, ids: Seq<Seq<char>>, edge: int) -> bool {
    &&& 1 <= edge <= ids.len()
    &&& forall|i: int| 0 < i < edge ==> direct.contains(#[trigger] ids[i])
    &&& forall|i: int| edge <= i < ids.len() ==> !direct.contains(#[trigger] ids[i])
}

/// A reached package that is new joins the others.
proof fn lemma_follows_push(
    nodes: Seq<NodeView>,
    root: Seq<char>,
    ids: Seq<Seq<char>>,
    done: int,
    new: Seq<char>,
)
    requires
        follows(nodes, root, ids, done),
        done < ids.len(),
        direct_ids(nodes, ids[done]).contains(new),
        !ids.contains(new),
    ensures
        follows(nodes, root, ids.push(new), done),
{
    let longer = ids.push(new);
    lemma_reaches_step(nodes, root, ids[done], new);
    lemma_direct_is_mentioned(nodes, ids[done], new);
    let all = seq![root] + mentioned(nodes);
    let k = mentioned(nodes).index_of(new);
    assert(all[k + 1] == new);
    assert forall|i: int, b: Seq<char>|
        0 <= i < done && direct_ids(nodes, #[trigger] longer[i]).contains(b) implies
        #[trigger] longer.contains(b) by {
        assert(ids[i] == longer[i]);
        assert(ids.contains(b));
        let j = ids.index_of(b);
        assert(longer[j] == b);
    }
}

/// Follows the dependencies of a package to all that it reaches.
fn reached_ids(nodes: &Vec<Node>, root: &String) -> (ids: Vec<String>)
    ensures
        lists_reached(nodes.deep_view(), root@, ids.deep_view()),
{
    let ghost graph = nodes.deep_view();
    let ghost direct = direct_ids(graph, root@);
    let ghost all = seq![root@] + mentioned(graph);
    let mut ids: Vec<String> = Vec::new();
    if find_node(nodes, root).is_none() {
        return ids;
    }
    ids.push(root.clone());
    proof {
        assert(ids.deep_view() == seq![root@]);
        assert(is_walk(graph, seq![root@]));
        assert(all[0] == root@);
    }
    let ghost mut edge: int = 1;
    let mut done: usize = 0;
    while done < ids.len()
        invariant
            graph == nodes.deep_view(),
            direct == direct_ids(graph, root@),
            all == seq![root@] + mentioned(graph),
            follows(graph, root@, ids.deep_view(), done as int),
            done == 0 ==> ids@.len() == 1,
            done > 0 ==> direct_first(direct, ids.deep_view(), edge),
        decreases all.len() - done,
    {
        proof {
            lemma_no_longer(ids.deep_view(), all);
        }
        let ghost before = ids.deep_view();
        if let Some(k) = find_node(nodes, &ids[done]) {
            let mut j: usize = 0;
            while j < nodes[k].dependencies.len()
                invariant
                    graph == nodes.deep_view(),
                    direct == direct_ids(graph, root@),
                    k < nodes@.len(),
                    done < before.len() <= ids@.len(),
                    done == 0 ==> before.len() == 1,
                    before == ids.deep_view().take(before.len() as int),
                    node_of(graph, before[done as int]) == Some(graph[k as int]),
                    j <= graph[k as int].dependencies.len(),
                    follows(graph, root@, ids.deep_view(), done as int),
                    done == 0 ==> forall|i: int|
                        0 < i < ids@.len() ==> direct.contains(#[trigger] ids.deep_view()[i]),
                    done > 0 ==> direct_first(direct, ids.deep_view(), edge),
                    forall|i: int|
                        0 <= i < j ==> ids.deep_view().contains(
                            #[trigger] graph[k as int].dependencies[i],
                        ),
                decreases graph[k as int].dependencies.len() - j,
            {
                let ghost old_ids = ids.deep_view();
                let ghost dep = graph[k as int].dependencies[j as int];
                assert(direct_ids(graph, old_ids[done as int]).contains(dep));
                if !is_listed(&ids, &nodes[k].dependencies[j]) {
                    ids.push(nodes[k].dependencies[j].clone());
                    proof {
                        assert(ids.deep_view() == old_ids.push(dep));
                        lemma_follows_push(graph, root@, old_ids, done as int, dep);
                        assert(ids.deep_view()[old_ids.len() as int] == dep);
                        if done > 0 {
                            assert(old_ids[0] == root@);
                            assert(!direct.contains(dep));
                        }
                    }
                }
                assert forall|i: int| 0 <= i < j + 1 implies ids.deep_view().contains(
                    #[trigger] graph[k as int].dependencies[i],
                ) by {
                    if i < j {
                        let m = old_ids.index_of(graph[k as int].dependencies[i]);
                        assert(ids.deep_view()[m] == graph[k as int].dependencies[i]);
                    }
                }
                j += 1;
            }
        }
        proof {
            let now = ids.deep_view();
            if done == 0 {
                edge = now.len() as int;
            }
            assert(now[done as int] == before[done as int]);
            assert forall|b: Seq<char>|
                direct_ids(graph, now[done as int]).contains(b) implies #[trigger] now.contains(
                b,
            ) by {
            }
        }
        done += 1;
    }
    proof {
        let now = ids.deep_view();
        assert forall|id: Seq<char>| #[trigger] now.contains(id) <==> reaches(graph, root@, id) by {
            if reaches(graph, root@, id) {
                assert(now[0] == root@);
                assert forall|a: Seq<char>, b: Seq<char>| #[trigger]
                    now.contains(a) && #[trigger] direct_ids(graph, a).contains(
                        b,
                    ) implies now.contains(b) by {
                    let i = now.index_of(a);
                    assert(now[i] == a);
                }
                lemma_closed_holds_reached(graph, root@, now, id);
            }
        }
    }
    ids
}

/// The library name and version of each package that is listed; a name has `_` for `-`. An
/// identifier that no package has is passed over.
pub open spec fn names_and_versions(packages: Seq<PackageView>, ids: Seq<Seq<char>>) -> Seq<
    (Seq<char>, Seq<char>),
>
    decreases ids.len(),
{
    if ids.len() == 0 {
        seq![]
    } else {
        let before = names_and_versions(packages, ids.drop_last());
        match package_of(packages, ids.last()) {
            Some(package) => before.push((replaced(package.name, '-', '_'), package.version)),
            None => before,
        }
    }
}

/// The place of the package with an identifier.
fn find_package(packages: &Vec<Package>, id: &String) -> (place: Option<usize>)
    ensures
        place is None <==> package_of(packages.deep_view(), id@) is None,
        place matches Some(k) ==> k < packages@.len() && package_of(packages.deep_view(), id@)
            == Some(packages@[k as int].deep_view()),
{
    let ghost all = packages.deep_view();
    let mut k: usize = 0;
    assert(all.skip(0) == all);
    while k < packages.len()
        invariant
            k <= packages@.len(),
            all == packages.deep_view(),
            package_of(all, id@) == package_of(all.skip(k as int), id@),
        decreases packages@.len() - k,
    {
        assert(all.skip(k as int).drop_first() == all.skip(k + 1));
        if packages[k].id == *id {
            return Some(k);
        }
        k += 1;
    }
    None
}

/// The place of the package whose manifest this is.
fn find_root(packages: &Vec<Package>, manifest: &String) -> (place: Option<usize>)
    ensures
        place is None <==> root_package(packages.deep_view(), manifest@) is None,
        place matches Some(k) ==> k < packages@.len() && root_package(
            packages.deep_view(),
            manifest@,
        ) == Some(packages@[k as int].deep_view()),
{
    let ghost all = packages.deep_view();
    let mut k: usize = 0;
    assert(all.skip(0) == all);
    while k < packages.len()
        invariant
            k <= packages@.len(),
            all == packages.deep_view(),
            root_package(all, manifest@) == root_package(all.skip(k as int), manifest@),
        decreases packages@.len() - k,
    {
        assert(all.skip(k as int).drop_first() == all.skip(k + 1));
        if packages[k].manifest_path == *manifest {
            return Some(k);
        }
        k += 1;
    }
    None
}

/// The library name and version of each package that is listed.
fn collect_names_and_versions(packages: &Vec<Package>, ids: &Vec<String>) -> (pairs: Vec<
    (String, String),
>)
    ensures
        pairs.deep_view() == names_and_versions(packages.deep_view(), ids.deep_view()),
{
    let ghost all = ids.deep_view();
    let mut pairs: Vec<(String, String)> = Vec::new();
    let mut i: usize = 0;
    assert(pairs.deep_view() == Seq::<(Seq<char>, Seq<char>)>::empty());
    while i < ids.len()
        invariant
            i <= ids@.len(),
            all == ids.deep_view(),
            pairs.deep_view() == names_and_versions(packages.deep_view(), all.take(i as int)),
        decreases ids@.len() - i,
    {
        let ghost old_pairs = pairs.deep_view();
        assert(all.take(i + 1).drop_last() == all.take(i as int));
        if let Some(k) = find_package(packages, &ids[i]) {
            let name = replace_char(packages[k].name.as_str(), '-', '_');
            let version = packages[k].version.clone();
            let ghost pair = (name@, version@);
            pairs.push((name, version));
            assert(pairs.deep_view() == old_pairs.push(pair));
        }
        i += 1;
    }
    assert(all.take(i as int) == all);
    pairs
}

/// The packages that a project is locked to, by library name and version.
#[derive(Clone, Debug)]
pub struct LockedDeps {
    /// All that the project reaches, itself first.
    pub dependencies: Vec<(String, String)>,
    /// What the project depends on itself.
    pub direct: Vec<(String, String)>,
}

/// The locked packages as a mathematical value.
pub struct LockedDepsView {
    pub dependencies: Seq<(Seq<char>, Seq<char>)>,
    pub direct: Seq<(Seq<char>, Seq<char>)>,
}

impl DeepView for LockedDeps {
    type V = LockedDepsView;

    open spec fn deep_view(&self) -> LockedDepsView {
        LockedDepsView {
            dependencies: self.dependencies.deep_view(),
            direct: self.direct.deep_view(),
        }
    }
}

/// Why the locked packages of a project cannot be worked out from what is known of it.
pub open spec fn lock_error(metadata: MetadataView, manifest: Seq<char>) -> Option<ErrorView> {
    if metadata.resolve is None {
        Some(ErrorView::Msg("Missing dependency metadata"@))
    } else if root_package(metadata.packages, manifest) is None {
        Some(ErrorView::Msg("Root package not found"@))
    } else {
        None
    }
}

/// These are the locked packages of the project with this manifest.
pub open spec fn is_lock(
    metadata: MetadataView,
    manifest: Seq<char>,
    lock: LockedDepsView,
) -> bool {
    let packages = metadata.packages;
    let nodes = metadata.resolve->0;
    let root = root_package(packages, manifest)->0.id;
    &&& exists|ids: Seq<Seq<char>>| #[trigger]
        lists_reached(nodes, root, ids) && lock.dependencies == names_and_versions(packages, ids)
    &&& lock.direct == names_and_versions(packages, direct_ids(nodes, root))
}

/// The version that a library is locked to: that of the first package of its name.
pub open spec fn locked_version(
    dependencies: Seq<(Seq<char>, Seq<char>)>,
    name: Seq<char>,
) -> Option<Seq<char>>
    decreases dependencies.len(),
{
    if dependencies.len() == 0 {
        None
    } else if dependencies[0].0 == name {
        Some(dependencies[0].1)
    } else {
        locked_version(dependencies.drop_first(), name)
    }
}

impl LockedDeps {
    /// The packages that the project with the manifest at `path` is locked to. `read` is what
    /// came of asking for the description of that project.
    pub fn from_path(path: &String, read: Result<Metadata, String>) -> (res: Result<
        LockedDeps,
        Error,
    >)
        ensures
            read matches Err(m) ==> res matches Err(e) && e.deep_view() == ErrorView::Metadata(m@),
            read matches Ok(m) ==> (res is Err <==> lock_error(m.deep_view(), path@) is Some),
            read matches Ok(m) ==> res matches Err(e) ==> Some(e.deep_view()) == lock_error(
                m.deep_view(),
                path@,
            ),
            read matches Ok(m) ==> res matches Ok(lock) ==> is_lock(
                m.deep_view(),
                path@,
                lock.deep_view(),
            ),
    {
        let metadata = match read {
            Ok(metadata) => metadata,
            Err(message) => {
                return Err(Error::Metadata(message));
            },
        };
        let nodes = match &metadata.resolve {
            Some(nodes) => nodes,
            None => {
                return Err(Error::Msg("Missing dependency metadata".to_owned()));
            },
        };
        let root = match find_root(&metadata.packages, path) {
            Some(k) => &metadata.packages[k].id,
            None => {
                return Err(Error::Msg("Root package not found".to_owned()));
            },
        };
        let ids = reached_ids(nodes, root);
        let dependencies = collect_names_and_versions(&metadata.packages, &ids);
        let direct = match find_node(nodes, root) {
            Some(k) => collect_names_and_versions(
                &metadata.packages,
                &nodes[k].dependencies,
            ),
            None => Vec::new(),
        };
        proof {
            assert(lists_reached(nodes.deep_view(), root@, ids.deep_view()));
            if node_of(nodes.deep_view(), root@) is None {
                assert(direct.deep_view() == Seq::<(Seq<char>, Seq<char>)>::empty());
            }
        }
        Ok(LockedDeps { dependencies, direct })
    }

    /// Takes the last of the packages out of the list.
    pub fn next(&mut self) -> (pair: Option<(String, String)>)
        ensures
            final(self).direct == old(self).direct,
            old(self).dependencies@.len() == 0 ==> pair is None && final(self).dependencies@
                == old(self).dependencies@,
            old(self).dependencies@.len() > 0 ==> pair == Some(old(self).dependencies@.last())
                && final(self).dependencies@ == old(self).dependencies@.drop_last(),
    {
        self.dependencies.pop()
    }

    /// What the project depends on itself.
    pub fn get_direct_dependencies(&self) -> (direct: Vec<(String, String)>)
        ensures
            direct.deep_view() == self.deep_view().direct,
    {
        let mut direct: Vec<(String, String)> = Vec::new();
        let mut i: usize = 0;
        while i < self.direct.len()
            invariant
                i <= self.direct@.len(),
                direct@.len() == i,
                forall|j: int| 0 <= j < i ==> direct@[j] == #[trigger] self.direct@[j],
            decreases self.direct@.len() - i,
        {
            direct.push((self.direct[i].0.clone(), self.direct[i].1.clone()));
            i += 1;
        }
        assert(direct@ == self.direct@);
        direct
    }

    /// The version that a library is locked to.
    pub fn locked_version(&self, name: &String) -> (version: Option<String>)
        ensures
            version.deep_view() == locked_version(self.deep_view().dependencies, name@),
    {
        let ghost all = self.dependencies.deep_view();
        let mut i: usize = 0;
        assert(all.skip(0) == all);
        while i < self.dependencies.len()
            invariant
                i <= self.dependencies@.len(),
                all == self.dependencies.deep_view(),
                locked_version(all, name@) == locked_version(all.skip(i as int), name@),
            decreases self.dependencies@.len() - i,
        {
            assert(all.skip(i as int).drop_first() == all.skip(i + 1));
            assert(all.skip(i as int)[0] == self.dependencies@[i as int].deep_view());
            if self.dependencies[i].0 == *name {
                return Some(self.dependencies[i].1.clone());
            }
            i += 1;
        }
        None
    }
}

/// The library name and version under which a package is listed.
pub open spec fn listing(package: PackageView) -> (Seq<char>, Seq<char>) {
    (replaced(package.name, '-', '_'), package.version)
}

/// Some identifier in the list is that of a package with this listing.
spec fn lists_package(
    packages: Seq<PackageView>,
    ids: Seq<Seq<char>>,
    pair: (Seq<char>, Seq<char>),
) -> bool {
    exists|i: int|
        0 <= i < ids.len() && package_of(packages, #[trigger] ids[i]) is Some && listing(
            package_of(packages, ids[i])->0,
        ) == pair
}

/// What is listed are the listings of the packages in the list.
proof fn lemma_listing_of_ids(
    packages: Seq<PackageView>,
    ids: Seq<Seq<char>>,
    pair: (Seq<char>, Seq<char>),
)
    ensures
        names_and_versions(packages, ids).contains(pair) <==> lists_package(packages, ids, pair),
    decreases ids.len(),
{
    if ids.len() > 0 {
        let shorter = ids.drop_last();
        lemma_listing_of_ids(packages, shorter, pair);
        let before = names_and_versions(packages, shorter);
        let now = names_and_versions(packages, ids);
        if now.contains(pair) {
            let k = now.index_of(pair);
            if k < before.len() {
                assert(before[k] == pair);
                let i = choose|i: int|
                    0 <= i < shorter.len() && package_of(packages, #[trigger] shorter[i]) is Some
                        && listing(package_of(packages, shorter[i])->0) == pair;
                assert(ids[i] == shorter[i]);
            } else {
                assert(ids[ids.len() - 1] == ids.last());
            }
        }
        if lists_package(packages, ids, pair) {
            let i = choose|i: int|
                0 <= i < ids.len() && package_of(packages, #[trigger] ids[i]) is Some && listing(
                    package_of(packages, ids[i])->0,
                ) == pair;
            if i < shorter.len() {
                assert(ids[i] == shorter[i]);
                let k = before.index_of(pair);
                assert(now[k] == pair);
            } else {
                assert(now[now.len() - 1] == pair);
            }
        }
    }
}

/// A package that the project reaches is listed, and what is listed is a package that it reaches.
pub proof fn law_lock_is_what_is_reached(
    metadata: MetadataView,
    manifest: Seq<char>,
    lock: LockedDepsView,
    pair: (Seq<char>, Seq<char>),
)
    requires
        lock_error(metadata, manifest) is None,
        is_lock(metadata, manifest, lock),
        node_of(metadata.resolve->0, root_package(metadata.packages, manifest)->0.id) is Some,
    ensures
        lock.dependencies.contains(pair) <==> exists|id: Seq<char>| #[trigger]
            reaches(
                metadata.resolve->0,
                root_package(metadata.packages, manifest)->0.id,
                id,
            ) && package_of(metadata.packages, id) is Some && listing(
                package_of(metadata.packages, id)->0,
            ) == pair,
{
    let packages = metadata.packages;
    let nodes = metadata.resolve->0;
    let root = root_package(packages, manifest)->0.id;
    let ids = choose|ids: Seq<Seq<char>>| #[trigger]
        lists_reached(nodes, root, ids) && lock.dependencies == names_and_versions(packages, ids);
    lemma_listing_of_ids(packages, ids, pair);
    if lock.dependencies.contains(pair) {
        let i = choose|i: int|
            0 <= i < ids.len() && package_of(packages, #[trigger] ids[i]) is Some && listing(
                package_of(packages, ids[i])->0,
            ) == pair;
        assert(ids.contains(ids[i]));
        assert(reaches(nodes, root, ids[i]));
    }
    if exists|id: Seq<char>| #[trigger]
        reaches(nodes, root, id) && package_of(packages, id) is Some && listing(
            package_of(packages, id)->0,
        ) == pair {
        let id = choose|id: Seq<char>| #[trigger]
            reaches(nodes, root, id) && package_of(packages, id) is Some && listing(
                package_of(packages, id)->0,
            ) == pair;
        assert(ids.contains(id));
        let i = ids.index_of(id);
        assert(ids[i] == id);
    }
}

/// What the project depends on itself is among all that it is locked to.
pub proof fn law_direct_is_locked(
    metadata: MetadataView,
    manifest: Seq<char>,
    lock: LockedDepsView,
    pair: (Seq<char>, Seq<char>),
)
    requires
        lock_error(metadata, manifest) is None,
        is_lock(metadata, manifest, lock),
        lock.direct.contains(pair),
    ensures
        lock.dependencies.contains(pair),
{
    let packages = metadata.packages;
    let nodes = metadata.resolve->0;
    let root = root_package(packages, manifest)->0.id;
    let direct = direct_ids(nodes, root);
    lemma_listing_of_ids(packages, direct, pair);
    let i = choose|i: int|
        0 <= i < direct.len() && package_of(packages, #[trigger] direct[i]) is Some && listing(
            package_of(packages, direct[i])->0,
        ) == pair;
    assert(direct.contains(direct[i]));
    lemma_direct_is_reached(nodes, root, direct[i]);
    law_lock_is_what_is_reached(metadata, manifest, lock, pair);
}

/// A package reaches what it depends on itself.
proof fn lemma_direct_is_reached(nodes: Seq<NodeView>, root: Seq<char>, id: Seq<char>)
    requires
        direct_ids(nodes, root).contains(id),
    ensures
        reaches(nodes, root, id),
{
    let walk = seq![root, id];
    assert(is_walk(nodes, walk));
    assert(walk.last() == id);
}

/// What the list begins with decides the version of a library, if all its listings there agree.
proof fn lemma_prefix_decides(
    packages: Seq<PackageView>,
    ids: Seq<Seq<char>>,
    upto: int,
    name: Seq<char>,
    version: Seq<char>,
)
    requires
        0 <= upto <= ids.len(),
        names_and_versions(packages, ids.take(upto)).contains((name, version)),
        forall|i: int|
            0 <= i < upto && package_of(packages, #[trigger] ids[i]) is Some && listing(
                package_of(packages, ids[i])->0,
            ).0 == name ==> package_of(packages, ids[i])->0.version == version,
    ensures
        locked_version(names_and_versions(packages, ids), name) == Some(version),
{
    let shorter = ids.take(upto);
    let front = names_and_versions(packages, shorter);
    let k = front.index_of((name, version));
    assert forall|k: int| 0 <= k < front.len() && #[trigger] front[k].0 == name implies front[k].1
        == version by {
        assert(front.contains(front[k]));
        lemma_listing_of_ids(packages, shorter, front[k]);
        let i = choose|i: int|
            0 <= i < shorter.len() && package_of(packages, #[trigger] shorter[i]) is Some
                && listing(package_of(packages, shorter[i])->0) == front[k];
        assert(shorter[i] == ids[i]);
    }
    lemma_first_listing_decides(front, name, version, k);
    lemma_listing_grows(packages, ids, upto);
    lemma_lookup_in_prefix(front, names_and_versions(packages, ids), name);
}

/// A longer list of identifiers only adds behind what a shorter one gives.
proof fn lemma_listing_grows(packages: Seq<PackageView>, ids: Seq<Seq<char>>, upto: int)
    requires
        0 <= upto <= ids.len(),
    ensures
        names_and_versions(packages, ids.take(upto)).is_prefix_of(
            names_and_versions(packages, ids),
        ),
    decreases ids.len() - upto,
{
    if upto == ids.len() {
        assert(ids.take(upto) == ids);
    } else {
        lemma_listing_grows(packages, ids, upto + 1);
        assert(ids.take(upto + 1).drop_last() == ids.take(upto));
        let a = names_and_versions(packages, ids.take(upto));
        let b = names_and_versions(packages, ids.take(upto + 1));
        let c = names_and_versions(packages, ids);
        assert(a == b.take(a.len() as int));
        assert(a == c.take(a.len() as int));
    }
}

/// A listing of a library decides its version, if all listings agree.
proof fn lemma_first_listing_decides(
    pairs: Seq<(Seq<char>, Seq<char>)>,
    name: Seq<char>,
    version: Seq<char>,
    k: int,
)
    requires
        0 <= k < pairs.len(),
        pairs[k] == (name, version),
        forall|k: int|
            0 <= k < pairs.len() && #[trigger] pairs[k].0 == name ==> pairs[k].1 == version,
    ensures
        locked_version(pairs, name) == Some(version),
    decreases pairs.len(),
{
    if pairs[0].0 != name {
        let rest = pairs.drop_first();
        assert forall|j: int| 0 <= j < rest.len() && #[trigger] rest[j].0 == name implies rest[j].1
            == version by {
            assert(pairs[j + 1] == rest[j]);
        }
        lemma_first_listing_decides(rest, name, version, k - 1);
    }
}

/// What a list begins with decides, where it has the library at all.
proof fn lemma_lookup_in_prefix(
    front: Seq<(Seq<char>, Seq<char>)>,
    pairs: Seq<(Seq<char>, Seq<char>)>,
    name: Seq<char>,
)
    requires
        front.is_prefix_of(pairs),
        locked_version(front, name) is Some,
    ensures
        locked_version(pairs, name) == locked_version(front, name),
    decreases front.len(),
{
    assert(front[0] == pairs[0]);
    if front[0].0 != name {
        assert(front.drop_first() == pairs.drop_first().take(front.len() - 1)) by {
            assert(front == pairs.take(front.len() as int));
        }
        lemma_lookup_in_prefix(front.drop_first(), pairs.drop_first(), name);
    }
}

/// A package whose manifest is found has an identifier that is found.
proof fn lemma_root_is_package(packages: Seq<PackageView>, manifest: Seq<char>)
    requires
        root_package(packages, manifest) is Some,
    ensures
        package_of(packages, root_package(packages, manifest)->0.id) is Some,
    decreases packages.len(),
{
    if packages[0].manifest_path != manifest {
        lemma_root_is_package(packages.drop_first(), manifest);
    }
}

/// The project is itself the first of the packages that it is locked to.
pub proof fn law_project_is_listed_first(
    metadata: MetadataView,
    manifest: Seq<char>,
    lock: LockedDepsView,
)
    requires
        lock_error(metadata, manifest) is None,
        is_lock(metadata, manifest, lock),
        node_of(metadata.resolve->0, root_package(metadata.packages, manifest)->0.id) is Some,
    ensures
        lock.dependencies.len() > 0,
        package_of(metadata.packages, root_package(metadata.packages, manifest)->0.id) is Some,
        lock.dependencies[0] == listing(
            package_of(metadata.packages, root_package(metadata.packages, manifest)->0.id)->0,
        ),
{
    let packages = metadata.packages;
    let nodes = metadata.resolve->0;
    let root = root_package(packages, manifest)->0.id;
    let ids = choose|ids: Seq<Seq<char>>| #[trigger]
        lists_reached(nodes, root, ids) && lock.dependencies == names_and_versions(packages, ids);
    lemma_root_is_package(packages, manifest);
    lemma_listing_grows(packages, ids, 1);
    assert(ids.take(1) == seq![root]);
    assert(seq![root].drop_last() == Seq::<Seq<char>>::empty());
    let front = names_and_versions(packages, ids.take(1));
    reveal_with_fuel(names_and_versions, 2);
    assert(front[0] == listing(package_of(packages, root)->0));
    assert(front == lock.dependencies.take(1));
}

/// Of several versions of a library, the one that the project depends on itself is the one that
/// it is locked to.
pub proof fn law_direct_version_is_locked(
    metadata: MetadataView,
    manifest: Seq<char>,
    lock: LockedDepsView,
    id: Seq<char>,
)
    requires
        lock_error(metadata, manifest) is None,
        is_lock(metadata, manifest, lock),
        direct_ids(
            metadata.resolve->0,
            root_package(metadata.packages, manifest)->0.id,
        ).contains(id),
        package_of(metadata.packages, id) is Some,
        // The project has another name than the library,
        listing(
            package_of(metadata.packages, root_package(metadata.packages, manifest)->0.id)->0,
        ).0 != listing(package_of(metadata.packages, id)->0).0,
        // and depends on one version of it itself.
        forall|other: Seq<char>| #[trigger]
            direct_ids(
                metadata.resolve->0,
                root_package(metadata.packages, manifest)->0.id,
            ).contains(other) && package_of(metadata.packages, other) is Some && listing(
                package_of(metadata.packages, other)->0,
            ).0 == listing(package_of(metadata.packages, id)->0).0 ==> package_of(
                metadata.packages,
                other,
            )->0.version == package_of(metadata.packages, id)->0.version,
    ensures
        locked_version(lock.dependencies, listing(package_of(metadata.packages, id)->0).0) == Some(
            package_of(metadata.packages, id)->0.version,
        ),
{
    let packages = metadata.packages;
    let nodes = metadata.resolve->0;
    let root = root_package(packages, manifest)->0.id;
    let direct = direct_ids(nodes, root);
    let pair = listing(package_of(packages, id)->0);
    let ids = choose|ids: Seq<Seq<char>>| #[trigger]
        lists_reached(nodes, root, ids) && lock.dependencies == names_and_versions(packages, ids);
    lemma_direct_is_reached(nodes, root, id);
    assert(ids.contains(id));
    let j = ids.index_of(id);
    assert(ids[0] == root && j > 0);
    lemma_listing_of_ids(packages, ids.take(j + 1), pair);
    assert(ids.take(j + 1)[j] == id);
    assert forall|i: int|
        0 <= i < j + 1 && package_of(packages, #[trigger] ids[i]) is Some && listing(
            package_of(packages, ids[i])->0,
        ).0 == pair.0 implies package_of(packages, ids[i])->0.version == pair.1 by {
        if 0 < i {
            assert(direct.contains(ids[j]));
            assert(direct.contains(ids[i]));
        }
    }
    lemma_prefix_decides(packages, ids, j + 1, pair.0, pair.1);
}

/// The map that arises where the packages are taken out one by one from the end, each putting its
/// version under its name.
pub open spec fn drained(dependencies: Seq<(Seq<char>, Seq<char>)>) -> Map<Seq<char>, Seq<char>>
    decreases dependencies.len(),
{
    if dependencies.len() == 0 {
        Map::empty()
    } else {
        drained(dependencies.drop_first()).insert(dependencies[0].0, dependencies[0].1)
    }
}

/// Looking a library up is the same as draining the packages into a map and looking there.
pub proof fn law_lookup_is_drained_map(
    dependencies: Seq<(Seq<char>, Seq<char>)>,
    name: Seq<char>,
)
    ensures
        locked_version(dependencies, name) is Some <==> drained(dependencies).contains_key(name),
        locked_version(dependencies, name) matches Some(version) ==> version == drained(
            dependencies,
        )[name],
    decreases dependencies.len(),
{
    if dependencies.len() > 0 {
        law_lookup_is_drained_map(dependencies.drop_first(), name);
    }
}

/// The version that a library is locked to is that of the first listing of its name; a library
/// that is not listed is locked to none.
pub proof fn law_first_listing_decides(dependencies: Seq<(Seq<char>, Seq<char>)>, name: Seq<char>)
    ensures
        locked_version(dependencies, name) matches Some(version) ==> exists|n: int|
            0 <= n < dependencies.len() && #[trigger] dependencies[n] == (name, version)
                && forall|m: int| 0 <= m < n ==> (#[trigger] dependencies[m]).0 != name,
        locked_version(dependencies, name) is None ==> forall|m: int|
            0 <= m < dependencies.len() ==> (#[trigger] dependencies[m]).0 != name,
    decreases dependencies.len(),
{
    if dependencies.len() > 0 {
        if dependencies[0].0 == name {
            assert(dependencies[0] == (name, dependencies[0].1));
        } else {
            let rest = dependencies.drop_first();
            law_first_listing_decides(rest, name);
            if locked_version(dependencies, name) is Some {
                let version = locked_version(dependencies, name)->0;
                let n = choose|n: int|
                    0 <= n < rest.len() && #[trigger] rest[n] == (name, version) && forall|m: int|
                        0 <= m < n ==> (#[trigger] rest[m]).0 != name;
                assert(dependencies[n + 1] == (name, version));
                assert forall|m: int| 0 <= m < n + 1 implies (#[trigger] dependencies[m]).0
                    != name by {
                    if m > 0 {
                        assert(rest[m - 1] == dependencies[m]);
                    }
                }
            } else {
                assert forall|m: int| 0 <= m < dependencies.len() implies (
                #[trigger] dependencies[m]).0 != name by {
                    if m > 0 {
                        assert(rest[m - 1] == dependencies[m]);
                    }
                }
            }
        }
    }
}

/// The node is the last with this identifier.
pub open spec fn is_last_node(nodes: Seq<NodeView>, n: int, id: Seq<char>) -> bool {
    &&& 0 <= n < nodes.len()
    &&& nodes[n].id == id
    &&& forall|m: int| n < m < nodes.len() ==> (#[trigger] nodes[m]).id != id
}

/// The package is the first with this identifier.
pub open spec fn is_first_package(packages: Seq<PackageView>, p: int, id: Seq<char>) -> bool {
    &&& 0 <= p < packages.len()
    &&& packages[p].id == id
    &&& forall|q: int| 0 <= q < p ==> (#[trigger] packages[q]).id != id
}

/// The package is the first with this manifest.
pub open spec fn is_first_with_manifest(
    packages: Seq<PackageView>,
    r: int,
    manifest: Seq<char>,
) -> bool {
    &&& 0 <= r < packages.len()
    &&& packages[r].manifest_path == manifest
    &&& forall|q: int| 0 <= q < r ==> (#[trigger] packages[q]).manifest_path != manifest
}

/// The last node with an identifier stands for it, whatever it depends on; where no node has it,
/// none does, and nothing is depended on.
pub proof fn law_last_node_stands_for_its_package(nodes: Seq<NodeView>, id: Seq<char>)
    ensures
        forall|n: int| #[trigger]
            is_last_node(nodes, n, id) ==> node_of(nodes, id) == Some(nodes[n]) && direct_ids(
                nodes,
                id,
            ) == nodes[n].dependencies,
        (forall|n: int| 0 <= n < nodes.len() ==> (#[trigger] nodes[n]).id != id) ==> node_of(
            nodes,
            id,
        ) is None && direct_ids(nodes, id).len() == 0,
        node_of(nodes, id) is Some ==> exists|n: int| #[trigger] is_last_node(nodes, n, id),
    decreases nodes.len(),
{
    if nodes.len() > 0 {
        let last = nodes.len() - 1;
        let shorter = nodes.drop_last();
        law_last_node_stands_for_its_package(shorter, id);
        if nodes[last].id == id {
            assert(is_last_node(nodes, last, id));
            assert forall|n: int| #[trigger] is_last_node(nodes, n, id) implies n == last by {
                if n < last {
                    assert(nodes[last].id != id);
                }
            }
        } else {
            assert forall|n: int| #[trigger] is_last_node(nodes, n, id) implies is_last_node(
                shorter,
                n,
                id,
            ) by {
                assert(n != last);
                assert forall|m: int| n < m < shorter.len() implies (#[trigger] shorter[m]).id
                    != id by {
                    assert(nodes[m] == shorter[m]);
                }
            }
            assert forall|n: int| #[trigger] is_last_node(shorter, n, id) implies is_last_node(
                nodes,
                n,
                id,
            ) by {
                assert forall|m: int| n < m < nodes.len() implies (#[trigger] nodes[m]).id
                    != id by {
                    if m < last {
                        assert(nodes[m] == shorter[m]);
                    }
                }
            }
            if forall|n: int| 0 <= n < nodes.len() ==> (#[trigger] nodes[n]).id != id {
                assert forall|n: int| 0 <= n < shorter.len() implies (#[trigger] shorter[n]).id
                    != id by {
                    assert(nodes[n] == shorter[n]);
                }
            }
        }
    }
}

/// A package is found by its identifier alone, the first of several; one that no package has is
/// not found.
pub proof fn law_package_is_found_by_its_identifier(packages: Seq<PackageView>, id: Seq<char>)
    ensures
        forall|p: int| #[trigger]
            is_first_package(packages, p, id) ==> package_of(packages, id) == Some(packages[p]),
        package_of(packages, id) is Some ==> exists|p: int| #[trigger]
            is_first_package(packages, p, id),
        forall|p: int|
            0 <= p < packages.len() && (#[trigger] packages[p]).id == id ==> package_of(
                packages,
                id,
            ) is Some,
    decreases packages.len(),
{
    if packages.len() > 0 {
        let rest = packages.drop_first();
        law_package_is_found_by_its_identifier(rest, id);
        if packages[0].id == id {
            assert(is_first_package(packages, 0, id));
            assert forall|p: int| #[trigger] is_first_package(packages, p, id) implies p == 0 by {
                if p > 0 {
                    assert(packages[0].id != id);
                }
            }
        } else {
            assert forall|p: int| #[trigger] is_first_package(packages, p, id) implies package_of(
                packages,
                id,
            ) == Some(packages[p]) by {
                assert forall|q: int| 0 <= q < p - 1 implies (#[trigger] rest[q]).id != id by {
                    assert(packages[q + 1] == rest[q]);
                }
                assert(is_first_package(rest, p - 1, id));
            }
            if package_of(packages, id) is Some {
                let p = choose|p: int| #[trigger] is_first_package(rest, p, id);
                assert forall|q: int| 0 <= q < p + 1 implies (#[trigger] packages[q]).id
                    != id by {
                    if q > 0 {
                        assert(packages[q] == rest[q - 1]);
                    }
                }
                assert(is_first_package(packages, p + 1, id));
            }
            assert forall|p: int|
                0 <= p < packages.len() && (#[trigger] packages[p]).id == id implies package_of(
                packages,
                id,
            ) is Some by {
                assert(rest[p - 1] == packages[p]);
            }
        }
    }
}

/// The project is found by the path of its manifest alone, the first of several; one that no
/// package has is not found.
pub proof fn law_project_is_found_by_its_manifest(
    packages: Seq<PackageView>,
    manifest: Seq<char>,
)
    ensures
        forall|r: int| #[trigger]
            is_first_with_manifest(packages, r, manifest) ==> root_package(packages, manifest)
                == Some(packages[r]),
        root_package(packages, manifest) is Some ==> exists|r: int| #[trigger]
            is_first_with_manifest(packages, r, manifest),
        forall|r: int|
            0 <= r < packages.len() && (#[trigger] packages[r]).manifest_path == manifest
                ==> root_package(packages, manifest) is Some,
    decreases packages.len(),
{
    if packages.len() > 0 {
        let rest = packages.drop_first();
        law_project_is_found_by_its_manifest(rest, manifest);
        if packages[0].manifest_path == manifest {
            assert(is_first_with_manifest(packages, 0, manifest));
            assert forall|r: int| #[trigger]
                is_first_with_manifest(packages, r, manifest) implies r == 0 by {
                if r > 0 {
                    assert(packages[0].manifest_path != manifest);
                }
            }
        } else {
            assert forall|r: int| #[trigger]
                is_first_with_manifest(packages, r, manifest) implies root_package(
                packages,
                manifest,
            ) == Some(packages[r]) by {
                assert forall|q: int| 0 <= q < r - 1 implies (#[trigger] rest[q]).manifest_path
                    != manifest by {
                    assert(packages[q + 1] == rest[q]);
                }
                assert(is_first_with_manifest(rest, r - 1, manifest));
            }
            if root_package(packages, manifest) is Some {
                let r = choose|r: int| #[trigger] is_first_with_manifest(rest, r, manifest);
                assert forall|q: int| 0 <= q < r + 1 implies (
                #[trigger] packages[q]).manifest_path != manifest by {
                    if q > 0 {
                        assert(packages[q] == rest[q - 1]);
                    }
                }
                assert(is_first_with_manifest(packages, r + 1, manifest));
            }
            assert forall|r: int|
                0 <= r < packages.len() && (#[trigger] packages[r]).manifest_path
                    == manifest implies root_package(packages, manifest) is Some by {
                assert(rest[r - 1] == packages[r]);
            }
        }
    }
}

/// The locked packages can be worked out exactly if there is a dependency graph and some package
/// has the manifest; the error says which of the two is missing, the graph first.
pub proof fn law_lock_needs_graph_and_project(metadata: MetadataView, manifest: Seq<char>)
    ensures
        metadata.resolve is None ==> lock_error(metadata, manifest) == Some(
            ErrorView::Msg("Missing dependency metadata"@),
        ),
        metadata.resolve is Some && (forall|r: int|
            0 <= r < metadata.packages.len() ==> (#[trigger] metadata.packages[r]).manifest_path
                != manifest) ==> lock_error(metadata, manifest) == Some(
            ErrorView::Msg("Root package not found"@),
        ),
        forall|r: int|
            metadata.resolve is Some && 0 <= r < metadata.packages.len() && (
            #[trigger] metadata.packages[r]).manifest_path == manifest ==> lock_error(
                metadata,
                manifest,
            ) is None,
{
    law_project_is_found_by_its_manifest(metadata.packages, manifest);
    if root_package(metadata.packages, manifest) is Some {
        let r = choose|r: int| #[trigger] is_first_with_manifest(metadata.packages, r, manifest);
        assert(metadata.packages[r].manifest_path == manifest);
    }
}

/// A package reaches itself and what any package that it reaches depends on, through however many
/// others, and it reaches nothing that some closed set around it leaves out.
pub proof fn law_reached_is_the_least_closed_set(
    nodes: Seq<NodeView>,
    root: Seq<char>,
    closed: Set<Seq<char>>,
    to: Seq<char>,
)
    ensures
        reaches(nodes, root, root),
        forall|n: int, k: int|
            #![trigger nodes[n].dependencies[k]]
            0 <= n < nodes.len() && is_last_node(nodes, n, nodes[n].id) && reaches(
                nodes,
                root,
                nodes[n].id,
            ) && 0 <= k < nodes[n].dependencies.len() ==> reaches(
                nodes,
                root,
                nodes[n].dependencies[k],
            ),
        closed.contains(root) && (forall|n: int, k: int|
            #![trigger nodes[n].dependencies[k]]
            0 <= n < nodes.len() && is_last_node(nodes, n, nodes[n].id) && closed.contains(
                nodes[n].id,
            ) && 0 <= k < nodes[n].dependencies.len() ==> closed.contains(
                nodes[n].dependencies[k],
            )) && reaches(nodes, root, to) ==> closed.contains(to),
{
    assert(is_walk(nodes, seq![root]));
    assert(seq![root].last() == root);
    assert forall|n: int, k: int|
        #![trigger nodes[n].dependencies[k]]
        0 <= n < nodes.len() && is_last_node(nodes, n, nodes[n].id) && reaches(
            nodes,
            root,
            nodes[n].id,
        ) && 0 <= k < nodes[n].dependencies.len() implies reaches(
        nodes,
        root,
        nodes[n].dependencies[k],
    ) by {
        law_last_node_stands_for_its_package(nodes, nodes[n].id);
        lemma_reaches_step(nodes, root, nodes[n].id, nodes[n].dependencies[k]);
    }
    if closed.contains(root) && (forall|n: int, k: int|
        #![trigger nodes[n].dependencies[k]]
        0 <= n < nodes.len() && is_last_node(nodes, n, nodes[n].id) && closed.contains(
            nodes[n].id,
        ) && 0 <= k < nodes[n].dependencies.len() ==> closed.contains(nodes[n].dependencies[k]))
        && reaches(nodes, root, to) {
        let walk = choose|walk: Seq<Seq<char>>| #[trigger]
            is_walk(nodes, walk) && walk[0] == root && walk.last() == to;
        lemma_walk_stays_inside(nodes, closed, walk, walk.len() - 1);
    }
}

proof fn lemma_walk_stays_inside(
    nodes: Seq<NodeView>,
    closed: Set<Seq<char>>,
    walk: Seq<Seq<char>>,
    i: int,
)
    requires
        is_walk(nodes, walk),
        closed.contains(walk[0]),
        forall|n: int, k: int|
            #![trigger nodes[n].dependencies[k]]
            0 <= n < nodes.len() && is_last_node(nodes, n, nodes[n].id) && closed.contains(
                nodes[n].id,
            ) && 0 <= k < nodes[n].dependencies.len() ==> closed.contains(
                nodes[n].dependencies[k],
            ),
        0 <= i < walk.len(),
    ensures
        closed.contains(walk[i]),
    decreases i,
{
    if i > 0 {
        lemma_walk_stays_inside(nodes, closed, walk, i - 1);
        let id = walk[i - 1];
        assert(direct_ids(nodes, id).contains(walk[i - 1 + 1]));
        law_last_node_stands_for_its_package(nodes, id);
        let n = choose|n: int| #[trigger] is_last_node(nodes, n, id);
        let k = nodes[n].dependencies.index_of(walk[i]);
        assert(nodes[n].dependencies[k] == walk[i]);
    }
}

/// The name of the library of a package has `_` for each `-`.
pub open spec fn is_library_name(libname: Seq<char>, name: Seq<char>) -> bool {
    &&& libname.len() == name.len()
    &&& forall|i: int|
        0 <= i < name.len() ==> #[trigger] libname[i] == if name[i] == '-' {
            '_'
        } else {
            name[i]
        }
}

/// The pair is the library name of the package, and its version.
pub open spec fn lists(pair: (Seq<char>, Seq<char>), package: PackageView) -> bool {
    is_library_name(pair.0, package.name) && pair.1 == package.version
}

/// A package is listed by the library name and the version that it has.
proof fn lemma_listing_lists(package: PackageView, pair: (Seq<char>, Seq<char>))
    ensures
        lists(listing(package), package),
        lists(pair, package) ==> pair == listing(package),
{
    if lists(pair, package) {
        assert(pair.0 == listing(package).0);
    }
}

/// What is listed for some identifiers are the packages that have them, in the order of the
/// identifiers: `from` says which identifier each comes from.
pub proof fn law_listing_follows_the_identifiers(
    packages: Seq<PackageView>,
    ids: Seq<Seq<char>>,
) -> (from: Seq<int>)
    ensures
        from.len() == names_and_versions(packages, ids).len(),
        forall|k: int|
            0 <= k < from.len() ==> 0 <= #[trigger] from[k] < ids.len() && exists|p: int| #[trigger]
                is_first_package(packages, p, ids[from[k]]) && lists(
                    names_and_versions(packages, ids)[k],
                    packages[p],
                ),
        forall|k: int, m: int| 0 <= k < m < from.len() ==> #[trigger] from[k] < #[trigger] from[m],
        forall|i: int, p: int|
            0 <= i < ids.len() && #[trigger] is_first_package(packages, p, ids[i])
                ==> from.contains(i),
    decreases ids.len(),
{
    if ids.len() == 0 {
        Seq::empty()
    } else {
        let shorter = ids.drop_last();
        let last = ids.len() - 1;
        let before = law_listing_follows_the_identifiers(packages, shorter);
        law_package_is_found_by_its_identifier(packages, ids[last]);
        let pairs = names_and_versions(packages, ids);
        let from = if package_of(packages, ids[last]) is Some {
            before.push(last)
        } else {
            before
        };
        assert forall|k: int| 0 <= k < from.len() implies 0 <= #[trigger] from[k] < ids.len()
            && exists|p: int| #[trigger]
            is_first_package(packages, p, ids[from[k]]) && lists(pairs[k], packages[p]) by {
            if k < before.len() {
                assert(from[k] == before[k]);
                let p = choose|p: int| #[trigger]
                    is_first_package(packages, p, shorter[before[k]]) && lists(
                        names_and_versions(packages, shorter)[k],
                        packages[p],
                    );
                assert(is_first_package(packages, p, ids[from[k]]));
            } else {
                let p = choose|p: int| #[trigger] is_first_package(packages, p, ids[last]);
                lemma_listing_lists(packages[p], pairs[k]);
                assert(pairs[k] == listing(packages[p]));
                assert(is_first_package(packages, p, ids[from[k]]));
            }
        }
        assert forall|i: int, p: int|
            0 <= i < ids.len() && #[trigger] is_first_package(
                packages,
                p,
                ids[i],
            ) implies from.contains(i) by {
            if i < last {
                assert(is_first_package(packages, p, shorter[i]));
                let k = before.index_of(i);
                assert(from[k] == i);
            } else {
                assert(packages[p].id == ids[last]);
                assert(from[before.len() as int] == i);
            }
        }
        from
    }
}

/// A walk from the project along the nodes of the graph.
pub open spec fn is_node_walk(nodes: Seq<NodeView>, root: Seq<char>, walk: Seq<int>) -> bool {
    &&& walk.len() > 0
    &&& forall|k: int|
        0 <= k < walk.len() ==> is_last_node(nodes, #[trigger] walk[k], nodes[walk[k]].id)
    &&& nodes[walk[0]].id == root
    &&& forall|k: int|
        0 < k < walk.len() ==> nodes[walk[k - 1]].dependencies.contains(
            nodes[#[trigger] walk[k]].id,
        )
}

proof fn lemma_node_walk_reaches(
    nodes: Seq<NodeView>,
    root: Seq<char>,
    walk: Seq<int>,
    k: int,
)
    requires
        is_node_walk(nodes, root, walk),
        0 <= k < walk.len(),
    ensures
        reaches(nodes, root, nodes[walk[k]].id),
    decreases k,
{
    if k == 0 {
        law_reached_is_the_least_closed_set(nodes, root, Set::empty(), root);
    } else {
        lemma_node_walk_reaches(nodes, root, walk, k - 1);
        law_last_node_stands_for_its_package(nodes, nodes[walk[k - 1]].id);
        assert(is_last_node(nodes, walk[k - 1], nodes[walk[k - 1]].id));
        lemma_reaches_step(nodes, root, nodes[walk[k - 1]].id, nodes[walk[k]].id);
    }
}

/// Every package that the project comes to along the graph, whatever it is like, is locked to
/// under its library name and with its version; if the project depends on it itself, it is also
/// among what it does.
pub proof fn law_every_reached_package_is_locked(
    metadata: MetadataView,
    manifest: Seq<char>,
    lock: LockedDepsView,
    r: int,
    walk: Seq<int>,
    p: int,
    pair: (Seq<char>, Seq<char>),
)
    requires
        metadata.resolve is Some,
        is_first_with_manifest(metadata.packages, r, manifest),
        is_lock(metadata, manifest, lock),
        is_node_walk(metadata.resolve->0, metadata.packages[r].id, walk),
        is_first_package(metadata.packages, p, metadata.packages[p].id),
        lists(pair, metadata.packages[p]),
        metadata.packages[p].id == metadata.packages[r].id
            || metadata.resolve->0[walk.last()].dependencies.contains(metadata.packages[p].id),
    ensures
        lock.dependencies.contains(pair),
        walk.len() == 1 && metadata.resolve->0[walk[0]].dependencies.contains(
            metadata.packages[p].id,
        ) ==> lock.direct.contains(pair),
{
    let packages = metadata.packages;
    let nodes = metadata.resolve->0;
    let root = packages[r].id;
    let id = packages[p].id;
    let last = walk[walk.len() - 1];
    law_project_is_found_by_its_manifest(packages, manifest);
    law_package_is_found_by_its_identifier(packages, id);
    lemma_listing_lists(packages[p], pair);
    assert(is_last_node(nodes, walk[0], root));
    law_last_node_stands_for_its_package(nodes, root);
    law_lock_needs_graph_and_project(metadata, manifest);
    if id == root {
        law_reached_is_the_least_closed_set(nodes, root, Set::empty(), root);
    } else {
        lemma_node_walk_reaches(nodes, root, walk, walk.len() - 1);
        law_last_node_stands_for_its_package(nodes, nodes[last].id);
        assert(is_last_node(nodes, last, nodes[last].id));
        lemma_reaches_step(nodes, root, nodes[last].id, id);
    }
    law_lock_is_what_is_reached(metadata, manifest, lock, pair);
    if walk.len() == 1 && nodes[walk[0]].dependencies.contains(id) {
        let direct = direct_ids(nodes, root);
        lemma_listing_of_ids(packages, direct, pair);
        let i = direct.index_of(id);
        assert(direct[i] == id);
    }
}

/// Nothing else is locked to: what is listed is a package inside every set that holds the project
/// and, with a package, what that depends on. What the project is said to depend on itself is
/// what its node lists. Of a project without a node nothing is listed.
pub proof fn law_only_reached_packages_are_locked(
    metadata: MetadataView,
    manifest: Seq<char>,
    lock: LockedDepsView,
    r: int,
    closed: Set<Seq<char>>,
    pair: (Seq<char>, Seq<char>),
)
    requires
        metadata.resolve is Some,
        is_first_with_manifest(metadata.packages, r, manifest),
        is_lock(metadata, manifest, lock),
        closed.contains(metadata.packages[r].id),
        forall|n: int, k: int|
            #![trigger metadata.resolve->0[n].dependencies[k]]
            0 <= n < metadata.resolve->0.len() && is_last_node(
                metadata.resolve->0,
                n,
                metadata.resolve->0[n].id,
            ) && closed.contains(metadata.resolve->0[n].id) && 0 <= k
                < metadata.resolve->0[n].dependencies.len() ==> closed.contains(
                metadata.resolve->0[n].dependencies[k],
            ),
    ensures
        lock.dependencies.contains(pair) ==> exists|p: int| #[trigger]
            is_first_package(metadata.packages, p, metadata.packages[p].id) && closed.contains(
                metadata.packages[p].id,
            ) && lists(pair, metadata.packages[p]),
        lock.direct.contains(pair) ==> exists|n: int, p: int|
            #![trigger is_last_node(metadata.resolve->0, n, metadata.packages[r].id),
                is_first_package(metadata.packages, p, metadata.packages[p].id)]
            is_last_node(metadata.resolve->0, n, metadata.packages[r].id) && is_first_package(
                metadata.packages,
                p,
                metadata.packages[p].id,
            ) && metadata.resolve->0[n].dependencies.contains(metadata.packages[p].id) && lists(
                pair,
                metadata.packages[p],
            ),
        (forall|n: int|
            0 <= n < metadata.resolve->0.len() ==> (#[trigger] metadata.resolve->0[n]).id
                != metadata.packages[r].id) ==> lock.dependencies.len() == 0 && lock.direct.len()
            == 0,
{
    let packages = metadata.packages;
    let nodes = metadata.resolve->0;
    let root = packages[r].id;
    law_project_is_found_by_its_manifest(packages, manifest);
    law_lock_needs_graph_and_project(metadata, manifest);
    law_last_node_stands_for_its_package(nodes, root);
    let ids = choose|ids: Seq<Seq<char>>| #[trigger]
        lists_reached(nodes, root, ids) && lock.dependencies == names_and_versions(packages, ids);
    if lock.dependencies.contains(pair) {
        assert(ids.len() > 0);
        law_lock_is_what_is_reached(metadata, manifest, lock, pair);
        let id = choose|id: Seq<char>| #[trigger]
            reaches(nodes, root, id) && package_of(packages, id) is Some && listing(
                package_of(packages, id)->0,
            ) == pair;
        law_reached_is_the_least_closed_set(nodes, root, closed, id);
        law_package_is_found_by_its_identifier(packages, id);
        let p = choose|p: int| #[trigger] is_first_package(packages, p, id);
        lemma_listing_lists(packages[p], pair);
        assert(is_first_package(packages, p, packages[p].id));
    }
    if lock.direct.contains(pair) {
        let direct = direct_ids(nodes, root);
        lemma_listing_of_ids(packages, direct, pair);
        let i = choose|i: int|
            0 <= i < direct.len() && package_of(packages, #[trigger] direct[i]) is Some && listing(
                package_of(packages, direct[i])->0,
            ) == pair;
        law_package_is_found_by_its_identifier(packages, direct[i]);
        let p = choose|p: int| #[trigger] is_first_package(packages, p, direct[i]);
        lemma_listing_lists(packages[p], pair);
        assert(is_first_package(packages, p, packages[p].id));
        let n = choose|n: int| #[trigger] is_last_node(nodes, n, root);
        assert(nodes[n].dependencies.contains(packages[p].id));
    }
}

/// Each package is listed once: `at` says which package each listing is of.
pub proof fn law_each_package_is_locked_once(
    metadata: MetadataView,
    manifest: Seq<char>,
    lock: LockedDepsView,
) -> (at: Seq<int>)
    requires
        lock_error(metadata, manifest) is None,
        is_lock(metadata, manifest, lock),
    ensures
        at.len() == lock.dependencies.len(),
        forall|k: int|
            0 <= k < at.len() ==> 0 <= #[trigger] at[k] < metadata.packages.len() && lists(
                lock.dependencies[k],
                metadata.packages[at[k]],
            ),
        forall|k: int, m: int|
            0 <= k < m < at.len() ==> metadata.packages[#[trigger] at[k]].id
                != metadata.packages[#[trigger] at[m]].id,
{
    let packages = metadata.packages;
    let nodes = metadata.resolve->0;
    let root = root_package(packages, manifest)->0.id;
    let ids = choose|ids: Seq<Seq<char>>| #[trigger]
        lists_reached(nodes, root, ids) && lock.dependencies == names_and_versions(packages, ids);
    let from = law_listing_follows_the_identifiers(packages, ids);
    let at = Seq::new(
        from.len(),
        |k: int|
            choose|p: int| #[trigger]
                is_first_package(packages, p, ids[from[k]]) && lists(
                    lock.dependencies[k],
                    packages[p],
                ),
    );
    assert forall|k: int| 0 <= k < at.len() implies is_first_package(
        packages,
        #[trigger] at[k],
        ids[from[k]],
    ) && lists(lock.dependencies[k], packages[at[k]]) by {
        assert(0 <= from[k] < ids.len());
    }
    assert forall|k: int, m: int| 0 <= k < m < at.len() implies packages[#[trigger] at[k]].id
        != packages[#[trigger] at[m]].id by {
        assert(from[k] < from[m]);
    }
    at
}

/// The locked packages stand for all their listings, in their order.
pub proof fn law_lock_stands_for_its_listings(lock: LockedDeps)
    ensures
        lock.deep_view().dependencies == lock.dependencies@.map_values(
            |pair: (String, String)| (pair.0@, pair.1@),
        ),
        lock.deep_view().direct == lock.direct@.map_values(
            |pair: (String, String)| (pair.0@, pair.1@),
        ),
{
    assert(lock.deep_view().dependencies == lock.dependencies@.map_values(
        |pair: (String, String)| (pair.0@, pair.1@),
    ));
    assert(lock.deep_view().direct == lock.direct@.map_values(
        |pair: (String, String)| (pair.0@, pair.1@),
    ));
}

} // verus!

//! The packages of a project and how they depend on each other.

use vstd::prelude::*;

verus! {

/// An edition of the language. `Other` stands for every edition that has no name here.
#[derive(Clone, Copy, Debug, PartialEq, Eq, Structural)]
pub enum Edition {
    E2015,
    E2018,
    E2021,
    Other,
}

/// A package.
#[derive(Clone, Debug)]
pub struct Package {
    pub name: String,
    pub version: String,
    /// What the nodes of the dependency graph call the package.
    pub id: String,
    /// The text of the path of its manifest.
    pub manifest_path: String,
    pub edition: Edition,
}

/// A node of the dependency graph.
#[derive(Clone, Debug)]
pub struct Node {
    pub id: String,
    pub dependencies: Vec<String>,
}

/// The packages of a project and, where it was resolved, its dependency graph.
#[derive(Clone, Debug)]
pub struct Metadata {
    pub packages: Vec<Package>,
    pub resolve: Option<Vec<Node>>,
}

/// A package as a mathematical value.
pub struct PackageView {
    pub name: Seq<char>,
    pub version: Seq<char>,
    pub id: Seq<char>,
    pub manifest_path: Seq<char>,
    pub edition: Edition,
}

/// A node as a mathematical value.
pub struct NodeView {
    pub id: Seq<char>,
    pub dependencies: Seq<Seq<char>>,
}

/// What is known of a project, as a mathematical value.
pub struct MetadataView {
    pub packages: Seq<PackageView>,
    pub resolve: Option<Seq<NodeView>>,
}

impl DeepView for Package {
    type V = PackageView;

    open spec fn deep_view(&self) -> PackageView {
        PackageView {
            name: self.name@,
            version: self.version@,
            id: self.id@,
            manifest_path: self.manifest_path@,
            edition: self.edition,
        }
    }
}

impl DeepView for Node {
    type V = NodeView;

    open spec fn deep_view(&self) -> NodeView {
        NodeView { id: self.id@, dependencies: self.dependencies.deep_view() }
    }
}

impl DeepView for Metadata {
    type V = MetadataView;

    open spec fn deep_view(&self) -> MetadataView {
        MetadataView {
            packages: self.packages.deep_view(),
            resolve: self.resolve.deep_view(),
        }
    }
}

/// Some package is of this edition.
pub open spec fn has_edition(packages: Seq<PackageView>, edition: Edition) -> bool {
    exists|i: int| 0 <= i < packages.len() && (#[trigger] packages[i]).edition == edition
}

/// How the compiler calls an edition; `None` where the name is not known.
pub open spec fn edition_name(edition: Edition) -> Option<Seq<char>> {
    match edition {
        Edition::E2015 => Some("2015"@),
        Edition::E2018 => Some("2018"@),
        Edition::E2021 => Some("2021"@),
        Edition::Other => None,
    }
}

/// The newest edition with a known name among those of the packages.
pub open spec fn newest_edition_of(packages: Seq<PackageView>) -> Option<Edition> {
    if has_edition(packages, Edition::E2021) {
        Some(Edition::E2021)
    } else if has_edition(packages, Edition::E2018) {
        Some(Edition::E2018)
    } else if has_edition(packages, Edition::E2015) {
        Some(Edition::E2015)
    } else {
        None
    }
}

/// How the compiler calls an edition.
pub fn edition_str(edition: &Edition) -> (name: Option<&'static str>)
    ensures
        name is Some <==> edition_name(*edition) is Some,
        name matches Some(s) ==> edition_name(*edition) == Some(s@),
{
    match edition {
        Edition::E2015 => Some("2015"),
        Edition::E2018 => Some("2018"),
        Edition::E2021 => Some("2021"),
        Edition::Other => None,
    }
}

/// How the compiler calls the newest edition that some package is of, of those that have a name.
pub open spec fn newest_edition_name(packages: Seq<PackageView>) -> Option<Seq<char>> {
    match newest_edition_of(packages) {
        Some(edition) => edition_name(edition),
        None => None,
    }
}

/// How the compiler calls the newest edition that some package is of.
pub fn newest_edition(packages: &Vec<Package>) -> (name: Option<&'static str>)
    ensures
        name is Some <==> newest_edition_name(packages.deep_view()) is Some,
        name matches Some(s) ==> newest_edition_name(packages.deep_view()) == Some(s@),
{
    let ghost all = packages.deep_view();
    let mut newest: Option<Edition> = None;
    let mut i: usize = 0;
    while i < packages.len()
        invariant
            0 <= i <= packages@.len(),
            all == packages.deep_view(),
            newest == newest_edition_of(all.take(i as int)),
        decreases packages@.len() - i,
    {
        let edition = packages[i].edition;
        let newer = match edition {
            Edition::Other => false,
            Edition::E2015 => newest.is_none(),
            Edition::E2018 => !matches!(newest, Some(Edition::E2018) | Some(Edition::E2021)),
            Edition::E2021 => true,
        };
        proof {
            lemma_has_edition_step(all, i as int, Edition::E2015);
            lemma_has_edition_step(all, i as int, Edition::E2018);
            lemma_has_edition_step(all, i as int, Edition::E2021);
        }
        if newer {
            newest = Some(edition);
        }
        i += 1;
    }
    assert(all.take(i as int) == all);
    match newest {
        Some(edition) => edition_str(&edition),
        None => None,
    }
}

/// One more package adds its own edition and no other.
proof fn lemma_has_edition_step(packages: Seq<PackageView>, i: int, edition: Edition)
    requires
        0 <= i < packages.len(),
    ensures
        has_edition(packages.take(i + 1), edition) <==> has_edition(packages.take(i), edition)
            || packages[i].edition == edition,
{
    let shorter = packages.take(i);
    let longer = packages.take(i + 1);
    if has_edition(shorter, edition) {
        let j = choose|j: int| 0 <= j < shorter.len() && (#[trigger] shorter[j]).edition == edition;
        assert(longer[j].edition == edition);
    }
    if packages[i].edition == edition {
        assert(longer[i].edition == edition);
    }
    if has_edition(longer, edition) {
        let j = choose|j: int| 0 <= j < longer.len() && (#[trigger] longer[j]).edition == edition;
        if j < i {
            assert(shorter[j].edition == edition);
        }
    }
}

/// The editions with a name are called by their year, the others by none.
pub proof fn law_editions_are_called_by_their_year(edition: Edition)
    ensures
        edition == Edition::E2015 ==> edition_name(edition) == Some("2015"@),
        edition == Edition::E2018 ==> edition_name(edition) == Some("2018"@),
        edition == Edition::E2021 ==> edition_name(edition) == Some("2021"@),
        edition == Edition::Other ==> edition_name(edition) is None,
{
}

/// What is named is the newest edition that any package is of, wherever it stands among them; a
/// package of an edition without a name plays no part.
pub proof fn law_newest_edition_is_named(packages: Seq<PackageView>)
    ensures
        forall|i: int|
            0 <= i < packages.len() && (#[trigger] packages[i]).edition == Edition::E2021
                ==> newest_edition_name(packages) == Some("2021"@),
        forall|i: int|
            0 <= i < packages.len() && (#[trigger] packages[i]).edition == Edition::E2018
                ==> newest_edition_name(packages) == Some("2018"@) || newest_edition_name(packages)
                == Some("2021"@),
        forall|i: int|
            0 <= i < packages.len() && (#[trigger] packages[i]).edition == Edition::E2015
                ==> newest_edition_name(packages) is Some,
        newest_edition_name(packages) matches Some(name) ==> exists|i: int|
            0 <= i < packages.len() && match (#[trigger] packages[i]).edition {
                Edition::E2015 => name == "2015"@,
                Edition::E2018 => name == "2018"@,
                Edition::E2021 => name == "2021"@,
                Edition::Other => false,
            },
{
    assert forall|i: int| 0 <= i < packages.len() implies has_edition(
        packages,
        (#[trigger] packages[i]).edition,
    ) by {}
    if newest_edition_name(packages) is Some {
        let edition = newest_edition_of(packages)->0;
        let i = choose|i: int|
            0 <= i < packages.len() && (#[trigger] packages[i]).edition == edition;
        assert(packages[i].edition == edition);
    }
}

/// A project stands for all its packages and nodes, in their order, with all that each holds.
pub proof fn law_project_stands_for_all_it_holds(metadata: Metadata, package: Package, node: Node)
    ensures
        package.deep_view() == (PackageView {
            name: package.name@,
            version: package.version@,
            id: package.id@,
            manifest_path: package.manifest_path@,
            edition: package.edition,
        }),
        node.deep_view().id == node.id@,
        node.deep_view().dependencies == node.dependencies@.map_values(|id: String| id@),
        metadata.deep_view().packages == metadata.packages@.map_values(
            |package: Package| package.deep_view(),
        ),
        metadata.resolve is None <==> metadata.deep_view().resolve is None,
        metadata.resolve matches Some(nodes) ==> metadata.deep_view().resolve == Some(
            nodes@.map_values(|node: Node| node.deep_view()),
        ),
{
    assert(node.deep_view().dependencies == node.dependencies@.map_values(|id: String| id@));
    if let Some(nodes) = metadata.resolve {
        assert(nodes.deep_view() == nodes@.map_values(|node: Node| node.deep_view()));
    }
}

} // verus!

//! What the graph is built from: the solver's choices, the pins, the index
//! of package metadata, earlier hashes and the editable packages.
use vstd::prelude::*;
use crate::dist::{LocalEditable, ResolvedDist, str_eq};
use crate::marker::MarkerTree;
use crate::package::PubGrubPackage;
use crate::version::{Version, VersionRange};
use crate::text::{find_key, key_index};

verus! {

/// A requirement on another package, gated by a marker.
#[derive(Debug)]
pub struct Requirement {
    pub name: String,
    pub marker: Option<MarkerTree>,
}

/// What a distribution declares: the extras it provides and what it requires.
#[derive(Debug)]
pub struct Metadata {
    pub provides_extras: Vec<String>,
    pub requires_dist: Vec<Requirement>,
}

/// Whether the metadata provides the extra `e`.
pub open spec fn provides(m: Metadata, e: Seq<char>) -> bool {
    exists|i: int| 0 <= i < m.provides_extras.len() && (#[trigger] m.provides_extras@[i])@ == e
}

impl Metadata {
    pub fn provides_extra(&self, e: &str) -> (r: bool)
        ensures
            r == provides(*self, e@),
    {
        let mut i: usize = 0;
        while i < self.provides_extras.len()
            invariant
                i <= self.provides_extras.len(),
                forall|k: int| 0 <= k < i ==> (#[trigger] self.provides_extras@[k])@ != e@,
            decreases self.provides_extras.len() - i,
        {
            if str_eq(self.provides_extras[i].as_str(), e) {
                return true;
            }
            i = i + 1;
        }
        false
    }
}

/// The key under which the index holds a distribution's metadata: a release of
/// a package, or a URL.
#[derive(Debug)]
pub enum PackageId {
    Registry { name: String, version: Version },
    Url { url: String },
}

pub open spec fn id_matches(id: PackageId, name: Seq<char>, version: Seq<u64>, url: Option<Seq<char>>) -> bool {
    match url {
        None => id is Registry && id->Registry_name@ == name && id->Registry_version@ == version,
        Some(u) => id is Url && id->Url_url@ == u,
    }
}

/// The hashes an index lists for each version of a package.
#[derive(Debug)]
pub struct VersionMap {
    pub hashes: Vec<(Version, Vec<String>)>,
}

/// The first index at or after `i` whose release is `v`, or -1.
pub open spec fn release_index_from<T>(s: Seq<(Version, T)>, v: Seq<u64>, i: int) -> int
    decreases s.len() - i,
{
    if i < 0 || i >= s.len() {
        -1
    } else if s[i].0@ == v {
        i
    } else {
        release_index_from(s, v, i + 1)
    }
}

/// The hashes the map lists for release `v`: none when it lists no such release.
pub open spec fn map_hashes(m: VersionMap, v: Seq<u64>) -> Seq<String> {
    let k = release_index_from(m.hashes@, v, 0);
    if k >= 0 {
        m.hashes@[k].1@
    } else {
        seq![]
    }
}

proof fn lemma_release_index_from<T>(s: Seq<(Version, T)>, v: Seq<u64>, i: int)
    requires
        0 <= i,
    ensures
        release_index_from(s, v, i) == -1 || (i <= release_index_from(s, v, i) < s.len()),
    decreases s.len() - i,
{
    if i < s.len() && s[i].0@ != v {
        lemma_release_index_from(s, v, i + 1);
    }
}

/// A copy of the texts.
pub fn copy_texts(v: &Vec<String>) -> (r: Vec<String>)
    ensures
        r.len() == v.len(),
        forall|k: int| 0 <= k < v.len() ==> (#[trigger] r@[k])@ == v@[k]@,
{
    let mut out: Vec<String> = Vec::new();
    let mut i: usize = 0;
    while i < v.len()
        invariant
            i <= v.len(),
            out.len() == i,
            forall|k: int| 0 <= k < i ==> (#[trigger] out@[k])@ == v@[k]@,
        decreases v.len() - i,
    {
        out.push(v[i].clone());
        i = i + 1;
    }
    out
}

impl VersionMap {
    /// A copy of the hashes listed for release `v`.
    pub fn hashes_of(&self, v: &Version) -> (r: Vec<String>)
        ensures
            r.len() == map_hashes(*self, v@).len(),
            forall|k: int| 0 <= k < r.len() ==> (#[trigger] r@[k])@ == map_hashes(*self, v@)[k]@,
    {
        let mut i: usize = 0;
        while i < self.hashes.len()
            invariant
                i <= self.hashes.len(),
                release_index_from(self.hashes@, v@, 0) == release_index_from(self.hashes@, v@, i as int),
            decreases self.hashes.len() - i,
        {
            if same_release(&self.hashes[i].0, v) {
                return copy_texts(&self.hashes[i].1);
            }
            i = i + 1;
        }
        Vec::new()
    }
}

/// What the index knows of a package's versions.
#[derive(Debug)]
pub enum VersionsResponse {
    Found(VersionMap),
    NoIndex,
    Offline,
    NotFound,
}

/// The metadata the resolver fetched.
#[derive(Debug)]
pub struct InMemoryIndex {
    /// Versions, with their hashes, by package name.
    pub packages: Vec<(String, VersionsResponse)>,
    /// Metadata by distribution.
    pub distributions: Vec<(PackageId, Metadata)>,
    /// Redirects from a URL as written to the precise URL fetched.
    pub redirects: Vec<(String, String)>,
}

/// Hashes recorded earlier (e.g. in a lockfile) by package and version.
#[derive(Debug)]
pub struct Preferences {
    pub hashes: Vec<(String, (Version, Vec<String>))>,
}

/// The packages edited in place, by name.
#[derive(Debug)]
pub struct Editables {
    pub entries: Vec<(String, (LocalEditable, Metadata))>,
}

/// The distribution chosen for each package and version.
#[derive(Debug)]
pub struct FilePins {
    pub entries: Vec<(String, (Version, ResolvedDist))>,
}

/// What the user asked for: direct requirements and editable packages.
#[derive(Debug)]
pub struct Manifest {
    pub requirements: Vec<Requirement>,
    pub editables: Vec<(LocalEditable, Metadata)>,
}

/// The ranges one package asked of another.
#[derive(Debug)]
pub struct ResolutionDependency {
    pub from: String,
    pub to: String,
    pub ranges: Vec<VersionRange>,
}

/// The solver's fixed point: each package with its chosen version, the
/// dependency edges between packages, and the pins.
#[derive(Debug)]
pub struct Resolution {
    pub packages: Vec<(PubGrubPackage, Version)>,
    pub dependencies: Vec<ResolutionDependency>,
    pub pins: FilePins,
}

/// The first index at or after `i` whose entry has name `n` and release `v`,
/// or -1.
pub open spec fn versioned_index_from<T>(s: Seq<(String, (Version, T))>, n: Seq<char>, v: Seq<u64>, i: int) -> int
    decreases s.len() - i,
{
    if i < 0 || i >= s.len() {
        -1
    } else if s[i].0@ == n && s[i].1.0@ == v {
        i
    } else {
        versioned_index_from(s, n, v, i + 1)
    }
}

pub open spec fn versioned_index<T>(s: Seq<(String, (Version, T))>, n: Seq<char>, v: Seq<u64>) -> int {
    versioned_index_from(s, n, v, 0)
}

pub proof fn lemma_versioned_index_bounds<T>(s: Seq<(String, (Version, T))>, n: Seq<char>, v: Seq<u64>)
    ensures
        versioned_index(s, n, v) == -1 || (0 <= versioned_index(s, n, v) < s.len()),
{
    lemma_versioned_index_from(s, n, v, 0);
}

proof fn lemma_versioned_index_from<T>(s: Seq<(String, (Version, T))>, n: Seq<char>, v: Seq<u64>, i: int)
    requires
        0 <= i,
    ensures
        versioned_index_from(s, n, v, i) == -1 || (i <= versioned_index_from(s, n, v, i) < s.len()),
    decreases s.len() - i,
{
    if i < s.len() && !(s[i].0@ == n && s[i].1.0@ == v) {
        lemma_versioned_index_from(s, n, v, i + 1);
    }
}

/// Whether two versions have the same segments.
pub fn same_release(a: &Version, b: &Version) -> (r: bool)
    ensures
        r == (a@ == b@),
{
    if a.release.len() != b.release.len() {
        return false;
    }
    let mut i: usize = 0;
    while i < a.release.len()
        invariant
            a.release.len() == b.release.len(),
            i <= a.release.len(),
            forall|k: int| 0 <= k < i ==> a.release@[k] == b.release@[k],
        decreases a.release.len() - i,
    {
        if a.release[i] != b.release[i] {
            return false;
        }
        i = i + 1;
    }
    assert(a.release@ =~= b.release@);
    true
}

/// Where the entry for name `n` and release `v` first stands.
pub fn find_versioned<T>(s: &Vec<(String, (Version, T))>, n: &str, v: &Version) -> (r: Option<usize>)
    ensures
        match r {
            Some(i) => versioned_index(s@, n@, v@) == i && i < s.len(),
            None => versioned_index(s@, n@, v@) == -1,
        },
{
    let mut i: usize = 0;
    while i < s.len()
        invariant
            i <= s.len(),
            versioned_index(s@, n@, v@) == versioned_index_from(s@, n@, v@, i as int),
        decreases s.len() - i,
    {
        if str_eq(s[i].0.as_str(), n) && same_release(&s[i].1.0, v) {
            return Some(i);
        }
        i = i + 1;
    }
    None
}

/// The first index at or after `i` whose id matches, or -1.
pub open spec fn id_index_from(s: Seq<(PackageId, Metadata)>, name: Seq<char>, version: Seq<u64>, url: Option<Seq<char>>, i: int) -> int
    decreases s.len() - i,
{
    if i < 0 || i >= s.len() {
        -1
    } else if id_matches(s[i].0, name, version, url) {
        i
    } else {
        id_index_from(s, name, version, url, i + 1)
    }
}

pub open spec fn id_index(s: Seq<(PackageId, Metadata)>, name: Seq<char>, version: Seq<u64>, url: Option<Seq<char>>) -> int {
    id_index_from(s, name, version, url, 0)
}

/// Where the metadata of the release `version` of `name`, or of the
/// distribution at `url`, first stands.
pub fn find_metadata(s: &Vec<(PackageId, Metadata)>, name: &str, version: &Version, url: Option<&str>) -> (r: Option<usize>)
    ensures
        match r {
            Some(i) => id_index(s@, name@, version@, match url { Some(u) => Some(u@), None => None }) == i && i < s.len(),
            None => id_index(s@, name@, version@, match url { Some(u) => Some(u@), None => None }) == -1,
        },
{
    let ghost u = match url { Some(u) => Some(u@), None => None };
    let mut i: usize = 0;
    while i < s.len()
        invariant
            i <= s.len(),
            u == match url { Some(u) => Some(u@), None => None::<Seq<char>> },
            id_index(s@, name@, version@, u) == id_index_from(s@, name@, version@, u, i as int),
        decreases s.len() - i,
    {
        let hit = match (&s[i].0, url) {
            (PackageId::Registry { name: n, version: v }, None) => str_eq(n.as_str(), name) && same_release(v, version),
            (PackageId::Url { url: x }, Some(w)) => str_eq(x.as_str(), w),
            _ => false,
        };
        if hit {
            return Some(i);
        }
        i = i + 1;
    }
    None
}

impl Editables {
    /// The editable package named `name`, with its metadata.
    pub fn get(&self, name: &str) -> (r: Option<&(LocalEditable, Metadata)>)
        ensures
            match r {
                Some(e) => key_index(self.entries@, name@) >= 0 && *e == self.entries@[key_index(self.entries@, name@)].1,
                None => key_index(self.entries@, name@) == -1,
            },
    {
        match find_key(&self.entries, name) {
            Some(i) => Some(&self.entries[i].1),
            None => None,
        }
    }
}

} // verus!

//! The pinned resolution graph: one node per real package, edges that carry
//! the union of the ranges asked, and the side tables the lockfile needs.
use vstd::prelude::*;
use crate::dist::{Diagnostic, DistView, LocalEditable, ResolvedDist, UrlView, VerbatimUrl, apply_redirect, dist_name, redirected};
use crate::input::{lemma_versioned_index_bounds, Manifest, Requirement, ResolutionDependency, copy_texts, map_hashes, versioned_index_from, Editables, FilePins, InMemoryIndex, Metadata, PackageId, Preferences, Resolution, VersionsResponse, find_metadata, find_versioned, id_index, provides, versioned_index};
use crate::marker::{MarkerEnvironment, MarkerExpression, MarkerOperator, MarkerParam, MarkerTree, MarkerValue, add_tree_params, disjuncts, env_value, mentions, param_value};
use crate::package::{PubGrubPackage, package_name};
use crate::sort::{key_lt, key_views, lemma_key_lt_order, sort_indices, strictly_sorted};
use crate::text::{find_key, key_index, lemma_key_index_from, seq_lt, lemma_seq_lt_asymmetric, lemma_seq_lt_irreflexive};
use crate::version::{Version, VersionRange};

verus! {

/// A pinned package in the graph.
#[derive(Debug)]
pub struct ResolvedNode {
    pub dist: ResolvedDist,
    pub markers: Option<MarkerTree>,
}

impl ResolvedNode {
    /// The node's distribution as written.
    pub fn to_string(&self) -> (r: String)
        ensures
            r@ == crate::dist::dist_text(self.dist@),
    {
        self.dist.to_string()
    }
}

/// A dependency of node `from` on node `to`, with the versions asked.
#[derive(Debug)]
pub struct ResolvedEdge {
    pub from: usize,
    pub to: usize,
    pub range: VersionRange,
}

/// Why a graph could not be built: the collaborators broke their contract.
#[derive(Debug)]
pub enum ResolveError {
    /// A chosen release has no pinned distribution.
    MissingPin { name: String, version: Version },
    /// A chosen package has no metadata in the index.
    MissingMetadata { name: String, version: Version },
}

/// A complete resolution: every node a pinned package, every edge a
/// dependency between two of them.
#[derive(Debug)]
pub struct ResolutionGraph {
    pub nodes: Vec<ResolvedNode>,
    pub edges: Vec<ResolvedEdge>,
    /// Hashes by package name.
    pub hashes: Vec<(String, Vec<String>)>,
    /// The extras switched on, as (package, extra) pairs in the order met.
    pub extras: Vec<(String, String)>,
    /// The disjunction of the markers each release was chosen under.
    pub markers: Vec<(String, (Version, MarkerTree))>,
    pub editables: Editables,
    pub diagnostics: Vec<Diagnostic>,
}

/// A real package: neither an extra nor a marker variant.
pub open spec fn is_base(p: PubGrubPackage) -> bool {
    p is Package && p->Package_extra is None && p->Package_marker is None
}

/// A package chosen under a marker, in one fork of the resolution.
pub open spec fn is_fork(p: PubGrubPackage) -> bool {
    p is Package && p->Package_extra is None && p->Package_marker is Some && p->Package_url is None
}

/// A package with an extra switched on.
pub open spec fn is_extra(p: PubGrubPackage) -> bool {
    p is Package && p->Package_extra is Some && p->Package_marker is None
}

/// The URL after the index's redirect, if it has one for it.
pub open spec fn redirect_view(u: VerbatimUrl, reds: Seq<(String, String)>) -> UrlView {
    let k = key_index(reds, u@.raw);
    if k >= 0 {
        redirected(u@, reds[k].1@)
    } else {
        u@
    }
}

/// The distribution pinned for a package at release `v`: its editable source,
/// its (redirected) URL, or the pin; none when the pin is missing.
pub open spec fn base_dist(
    p: PubGrubPackage,
    v: Seq<u64>,
    eds: Seq<(String, (LocalEditable, Metadata))>,
    pins: Seq<(String, (Version, ResolvedDist))>,
    reds: Seq<(String, String)>,
) -> Option<DistView> {
    let n = package_name(p);
    let ke = key_index(eds, n);
    if ke >= 0 {
        Some(DistView::Editable { name: n, url: eds[ke].1.0.url@ })
    } else {
        match p {
            PubGrubPackage::Package { url: Some(u), .. } => Some(
                DistView::Url { name: n, url: redirect_view(u, reds) },
            ),
            _ => {
                let kp = versioned_index(pins, n, v);
                if kp >= 0 {
                    Some(pins[kp].1.1@)
                } else {
                    None
                }
            },
        }
    }
}

/// The metadata that says which extras a package at release `v` provides.
pub open spec fn extra_metadata(
    p: PubGrubPackage,
    v: Seq<u64>,
    eds: Seq<(String, (LocalEditable, Metadata))>,
    dists: Seq<(PackageId, Metadata)>,
) -> Option<Metadata> {
    let n = package_name(p);
    let ke = key_index(eds, n);
    if ke >= 0 {
        Some(eds[ke].1.1)
    } else {
        let url = match p {
            PubGrubPackage::Package { url: Some(u), .. } => Some(u@.raw),
            _ => None,
        };
        let kd = id_index(dists, n, v, url);
        if kd >= 0 {
            Some(dists[kd].1)
        } else {
            None
        }
    }
}

/// The collaborators needed for this entry are there.
pub open spec fn entry_ok(
    e: (PubGrubPackage, Version),
    eds: Seq<(String, (LocalEditable, Metadata))>,
    pins: Seq<(String, (Version, ResolvedDist))>,
    index: InMemoryIndex,
) -> bool {
    if is_base(e.0) {
        base_dist(e.0, e.1@, eds, pins, index.redirects@) is Some
    } else if is_extra(e.0) {
        match extra_metadata(e.0, e.1@, eds, index.distributions@) {
            Some(m) => provides(m, e.0->Package_extra->0@) || base_dist(
                e.0,
                e.1@,
                eds,
                pins,
                index.redirects@,
            ) is Some,
            None => false,
        }
    } else {
        true
    }
}

/// The distributions of the nodes, one per real package, in input order.
pub open spec fn nodes_spec(
    pk: Seq<(PubGrubPackage, Version)>,
    eds: Seq<(String, (LocalEditable, Metadata))>,
    pins: Seq<(String, (Version, ResolvedDist))>,
    reds: Seq<(String, String)>,
) -> Seq<DistView>
    decreases pk.len(),
{
    if pk.len() == 0 {
        seq![]
    } else {
        let prev = nodes_spec(pk.drop_last(), eds, pins, reds);
        let e = pk.last();
        if is_base(e.0) {
            prev.push(base_dist(e.0, e.1@, eds, pins, reds)->0)
        } else {
            prev
        }
    }
}

/// The package names of the nodes, in the same order.
pub open spec fn names_spec(pk: Seq<(PubGrubPackage, Version)>) -> Seq<Seq<char>>
    decreases pk.len(),
{
    if pk.len() == 0 {
        seq![]
    } else {
        let prev = names_spec(pk.drop_last());
        if is_base(pk.last().0) {
            prev.push(package_name(pk.last().0))
        } else {
            prev
        }
    }
}

/// The (package, extra) pairs whose extra is provided, in input order.
pub open spec fn extras_spec(
    pk: Seq<(PubGrubPackage, Version)>,
    eds: Seq<(String, (LocalEditable, Metadata))>,
    dists: Seq<(PackageId, Metadata)>,
) -> Seq<(Seq<char>, Seq<char>)>
    decreases pk.len(),
{
    if pk.len() == 0 {
        seq![]
    } else {
        let prev = extras_spec(pk.drop_last(), eds, dists);
        let e = pk.last();
        if is_extra(e.0) && provides(
            extra_metadata(e.0, e.1@, eds, dists)->0,
            e.0->Package_extra->0@,
        ) {
            prev.push((package_name(e.0), e.0->Package_extra->0@))
        } else {
            prev
        }
    }
}

/// The distributions asked for with an extra they do not provide, with that
/// extra, in input order.
pub open spec fn missing_spec(
    pk: Seq<(PubGrubPackage, Version)>,
    eds: Seq<(String, (LocalEditable, Metadata))>,
    pins: Seq<(String, (Version, ResolvedDist))>,
    index: InMemoryIndex,
) -> Seq<(DistView, Seq<char>)>
    decreases pk.len(),
{
    if pk.len() == 0 {
        seq![]
    } else {
        let prev = missing_spec(pk.drop_last(), eds, pins, index);
        let e = pk.last();
        if is_extra(e.0) && !provides(
            extra_metadata(e.0, e.1@, eds, index.distributions@)->0,
            e.0->Package_extra->0@,
        ) {
            prev.push(
                (base_dist(e.0, e.1@, eds, pins, index.redirects@)->0, e.0->Package_extra->0@),
            )
        } else {
            prev
        }
    }
}

/// Copies the distribution for a real package, or for the package an extra
/// is asked of.
fn dist_for(
    p: &PubGrubPackage,
    version: &Version,
    editables: &Editables,
    pins: &FilePins,
    index: &InMemoryIndex,
) -> (r: Option<ResolvedDist>)
    requires
        p is Package,
    ensures
        match r {
            Some(d) => base_dist(*p, version@, editables.entries@, pins.entries@, index.redirects@) == Some(d@),
            None => base_dist(*p, version@, editables.entries@, pins.entries@, index.redirects@) is None,
        },
{
    match p {
        PubGrubPackage::Package { name, url, .. } => {
            if let Some(e) = editables.get(name.as_str()) {
                return Some(ResolvedDist::Editable {
                    name: name.clone(),
                    editable: LocalEditable { url: e.0.url.duplicate() },
                });
            }
            match url {
                Some(u) => {
                    let target = match find_key(&index.redirects, u.raw().as_str()) {
                        Some(k) => apply_redirect(u, index.redirects[k].1.as_str()),
                        None => u.duplicate(),
                    };
                    Some(ResolvedDist::Url { name: name.clone(), url: target })
                },
                None => match find_versioned(&pins.entries, name.as_str(), version) {
                    Some(k) => Some(pins.entries[k].1.1.duplicate()),
                    None => None,
                },
            }
        },
        _ => None,
    }
}

/// The metadata that says which extras the package provides.
fn metadata_for<'a>(
    p: &PubGrubPackage,
    version: &Version,
    editables: &'a Editables,
    index: &'a InMemoryIndex,
) -> (r: Option<&'a Metadata>)
    requires
        p is Package,
    ensures
        match r {
            Some(m) => extra_metadata(*p, version@, editables.entries@, index.distributions@) == Some(*m),
            None => extra_metadata(*p, version@, editables.entries@, index.distributions@) is None,
        },
{
    match p {
        PubGrubPackage::Package { name, url, .. } => {
            if let Some(e) = editables.get(name.as_str()) {
                return Some(&e.1);
            }
            let raw = match url {
                Some(u) => Some(u.raw().as_str()),
                None => None,
            };
            match find_metadata(&index.distributions, name.as_str(), version, raw) {
                Some(k) => Some(&index.distributions[k].1),
                None => None,
            }
        },
        _ => None,
    }
}

/// The texts are in order.
pub open spec fn sorted_texts(s: Seq<String>) -> bool {
    forall|i: int, j: int| 0 <= i < j < s.len() ==> !seq_lt((#[trigger] s[j])@, (#[trigger] s[i])@)
}

/// `a` holds the texts of `b`, one for one.
pub open spec fn same_texts(a: Seq<String>, b: Seq<String>) -> bool {
    a.len() == b.len() && forall|k: int| 0 <= k < a.len() ==> (#[trigger] a[k])@ == b[k]@
}

/// `a` holds the texts of `b` in some order.
pub open spec fn permuted_texts(a: Seq<String>, b: Seq<String>) -> bool {
    a.len() == b.len() && exists|o: Seq<usize>|
        o.len() == a.len() && o.no_duplicates() && (forall|k: int| 0 <= k < o.len() ==> #[trigger] o[k] < b.len())
            && (forall|f: int| 0 <= f < b.len() ==> #[trigger] o.contains(f as usize))
            && (forall|k: int| 0 <= k < a.len() ==> (#[trigger] a[k])@ == b[o[k] as int]@)
}

/// A sorted copy of the texts.
pub fn sorted_copy(src: &Vec<String>) -> (r: Vec<String>)
    ensures
        sorted_texts(r@),
        permuted_texts(r@, src@),
{
    let mut keys: Vec<(u8, String)> = Vec::new();
    let mut items: Vec<usize> = Vec::new();
    let mut i: usize = 0;
    while i < src.len()
        invariant
            i <= src.len(),
            keys.len() == i,
            items.len() == i,
            forall|k: int| 0 <= k < i ==> (#[trigger] keys@[k]).0 == 0 && keys@[k].1@ == src@[k]@,
            forall|k: int| 0 <= k < i ==> #[trigger] items@[k] == k,
        decreases src.len() - i,
    {
        keys.push((0, src[i].clone()));
        items.push(i);
        i = i + 1;
    }
    proof {
        assert forall|a: int, b: int| 0 <= a < b < items.len() implies items@[a] != items@[b] by {}
    }
    let order = sort_indices(&keys, &items);
    proof {
        assert forall|k: int| 0 <= k < order.len() implies #[trigger] order@[k] < src.len() by {
            assert(order@.to_set().contains(order@[k]));
            assert(items@.contains(order@[k]));
        }
    }
    let mut out: Vec<String> = Vec::new();
    let mut j: usize = 0;
    while j < order.len()
        invariant
            j <= order.len(),
            order.len() == src.len(),
            keys.len() == src.len(),
            forall|k: int| 0 <= k < order.len() ==> #[trigger] order@[k] < src.len(),
            forall|k: int| 0 <= k < src.len() ==> (#[trigger] keys@[k]).0 == 0 && keys@[k].1@ == src@[k]@,
            out.len() == j,
            forall|k: int| 0 <= k < j ==> (#[trigger] out@[k])@ == src@[order@[k] as int]@,
        decreases order.len() - j,
    {
        out.push(keys[order[j]].1.clone());
        j = j + 1;
    }
    proof {
        assert forall|a: int, b: int| 0 <= a < b < out.len() implies !seq_lt((#[trigger] out@[b])@, (#[trigger] out@[a])@) by {
            assert(key_lt(key_views(keys@), order@[a] as int, order@[b] as int));
            lemma_seq_lt_asymmetric(out@[a]@, out@[b]@);
            lemma_seq_lt_irreflexive(out@[a]@);
        }
        assert(order@.no_duplicates()) by {
            assert forall|a: int, b: int| 0 <= a < b < order.len() implies order@[a] != order@[b] by {
                assert(key_lt(key_views(keys@), order@[a] as int, order@[b] as int));
                lemma_key_lt_order(key_views(keys@), order@[a] as int, order@[a] as int, 0);
            }
        }
        assert(permuted_texts(out@, src@)) by {
            assert(order@.len() == out@.len());
            assert forall|f: int| 0 <= f < src@.len() implies #[trigger] order@.contains(f as usize) by {
                assert(items@[f] == f);
                assert(items@.contains(f as usize));
                assert(items@.to_set().contains(f as usize));
                assert(order@.to_set().contains(f as usize));
            }
        }
    }
    out
}

/// Where a hash list comes from: recorded earlier (`true`), or the index.
pub open spec fn hash_source(
    name: Seq<char>,
    v: Seq<u64>,
    prefs: Preferences,
    index: InMemoryIndex,
) -> Option<(bool, Seq<String>)> {
    let kp = versioned_index(prefs.hashes@, name, v);
    if kp >= 0 {
        Some((true, prefs.hashes@[kp].1.1@))
    } else {
        let ki = key_index(index.packages@, name);
        if ki >= 0 {
            match index.packages@[ki].1 {
                VersionsResponse::Found(vm) => Some((false, map_hashes(vm, v))),
                _ => None,
            }
        } else {
            None
        }
    }
}

/// The stored hashes agree with their source: as recorded, or sorted.
pub open spec fn hashes_match(out: Seq<String>, src: (bool, Seq<String>)) -> bool {
    if src.0 {
        same_texts(out, src.1)
    } else {
        sorted_texts(out) && permuted_texts(out, src.1)
    }
}

/// The hashes for release `version` of `name`: those recorded earlier as they
/// were, else the index's, sorted.
fn hashes_for(name: &str, version: &Version, prefs: &Preferences, index: &InMemoryIndex) -> (r: Option<Vec<String>>)
    ensures
        match r {
            Some(h) => hash_source(name@, version@, *prefs, *index) is Some && hashes_match(
                h@,
                hash_source(name@, version@, *prefs, *index)->0,
            ),
            None => hash_source(name@, version@, *prefs, *index) is None,
        },
{
    if let Some(k) = find_versioned(&prefs.hashes, name, version) {
        return Some(copy_texts(&prefs.hashes[k].1.1));
    }
    match find_key(&index.packages, name) {
        Some(k) => match &index.packages[k].1 {
            VersionsResponse::Found(vm) => {
                let h = vm.hashes_of(version);
                let r = sorted_copy(&h);
                proof {
                    let src = map_hashes(*vm, version@);
                    let o = choose|o: Seq<usize>|
                        o.len() == r@.len() && o.no_duplicates() && (forall|k: int| 0 <= k < o.len() ==> #[trigger] o[k] < h@.len())
                            && (forall|f: int| 0 <= f < h@.len() ==> #[trigger] o.contains(f as usize))
                            && (forall|k: int| 0 <= k < r@.len() ==> (#[trigger] r@[k])@ == h@[o[k] as int]@);
                    assert forall|k: int| 0 <= k < r@.len() implies (#[trigger] r@[k])@ == src[o[k] as int]@ by {
                        assert(r@[k]@ == h@[o[k] as int]@);
                    }
                    assert(permuted_texts(r@, src));
                }
                Some(r)
            },
            _ => None,
        },
        None => None,
    }
}

/// The (name, hash source) of each real package that has hashes, in input order.
pub open spec fn hashes_spec(
    pk: Seq<(PubGrubPackage, Version)>,
    prefs: Preferences,
    index: InMemoryIndex,
) -> Seq<(Seq<char>, (bool, Seq<String>))>
    decreases pk.len(),
{
    if pk.len() == 0 {
        seq![]
    } else {
        let prev = hashes_spec(pk.drop_last(), prefs, index);
        let e = pk.last();
        let n = package_name(e.0);
        if is_base(e.0) && hash_source(n, e.1@, prefs, index) is Some {
            prev.push((n, hash_source(n, e.1@, prefs, index)->0))
        } else {
            prev
        }
    }
}

/// The first index at or after `i` whose key is (`n`, `v`), or -1.
pub open spec fn marker_index_from(s: Seq<(Seq<char>, Seq<u64>, Seq<MarkerTree>)>, n: Seq<char>, v: Seq<u64>, i: int) -> int
    decreases s.len() - i,
{
    if i < 0 || i >= s.len() {
        -1
    } else if s[i].0 == n && s[i].1 == v {
        i
    } else {
        marker_index_from(s, n, v, i + 1)
    }
}

/// For each release chosen under markers: its name, its release, and the
/// disjuncts of the markers it was chosen under, in input order.
pub open spec fn markers_spec(pk: Seq<(PubGrubPackage, Version)>) -> Seq<(Seq<char>, Seq<u64>, Seq<MarkerTree>)>
    decreases pk.len(),
{
    if pk.len() == 0 {
        seq![]
    } else {
        let prev = markers_spec(pk.drop_last());
        let e = pk.last();
        if is_fork(e.0) {
            let n = package_name(e.0);
            let m = e.0->Package_marker->0;
            let k = marker_index_from(prev, n, e.1@, 0);
            if k >= 0 {
                prev.update(k, (prev[k].0, prev[k].1, prev[k].2 + disjuncts(m)))
            } else {
                prev.push((n, e.1@, disjuncts(m)))
            }
        } else {
            prev
        }
    }
}

pub open spec fn nodes_match(ns: Seq<ResolvedNode>, spec: Seq<DistView>) -> bool {
    ns.len() == spec.len() && forall|k: int| 0 <= k < spec.len() ==> (#[trigger] ns[k]).dist@ == spec[k] && ns[k].markers is None
}

pub open spec fn names_match(ns: Seq<String>, spec: Seq<Seq<char>>) -> bool {
    ns.len() == spec.len() && forall|k: int| 0 <= k < spec.len() ==> (#[trigger] ns[k])@ == spec[k]
}

pub open spec fn extras_match(xs: Seq<(String, String)>, spec: Seq<(Seq<char>, Seq<char>)>) -> bool {
    xs.len() == spec.len() && forall|k: int| 0 <= k < spec.len() ==> (#[trigger] xs[k]).0@ == spec[k].0 && xs[k].1@ == spec[k].1
}

pub open spec fn diagnostics_match(ds: Seq<Diagnostic>, spec: Seq<(DistView, Seq<char>)>) -> bool {
    ds.len() == spec.len() && forall|k: int| 0 <= k < spec.len() ==> match #[trigger] ds[k] {
        Diagnostic::MissingExtra { dist, extra } => dist@ == spec[k].0 && extra@ == spec[k].1,
    }
}

pub open spec fn hashes_match_all(hs: Seq<(String, Vec<String>)>, spec: Seq<(Seq<char>, (bool, Seq<String>))>) -> bool {
    hs.len() == spec.len() && forall|k: int| 0 <= k < spec.len() ==> (#[trigger] hs[k]).0@ == spec[k].0 && hashes_match(hs[k].1@, spec[k].1)
}

pub open spec fn markers_match(ms: Seq<(String, (Version, MarkerTree))>, spec: Seq<(Seq<char>, Seq<u64>, Seq<MarkerTree>)>) -> bool {
    ms.len() == spec.len() && forall|k: int| 0 <= k < spec.len() ==> (#[trigger] ms[k]).0@ == spec[k].0 && ms[k].1.0@ == spec[k].1
        && ms[k].1.1 is Or && ms[k].1.1->Or_0@ == spec[k].2
}

proof fn lemma_marker_index(ms: Seq<(String, (Version, MarkerTree))>, spec: Seq<(Seq<char>, Seq<u64>, Seq<MarkerTree>)>, n: Seq<char>, v: Seq<u64>, i: int)
    requires
        markers_match(ms, spec),
        0 <= i,
    ensures
        versioned_index_from(ms, n, v, i) == marker_index_from(spec, n, v, i),
        marker_index_from(spec, n, v, i) == -1 || i <= marker_index_from(spec, n, v, i) < spec.len(),
    decreases ms.len() - i,
{
    if i < ms.len() {
        assert(ms[i].0@ == spec[i].0 && ms[i].1.0@ == spec[i].1);
        if !(spec[i].0 == n && spec[i].1 == v) {
            lemma_marker_index(ms, spec, n, v, i + 1);
        }
    }
}

/// Every entry finds the collaborators it needs.
pub open spec fn all_ok(
    pk: Seq<(PubGrubPackage, Version)>,
    eds: Seq<(String, (LocalEditable, Metadata))>,
    pins: Seq<(String, (Version, ResolvedDist))>,
    index: InMemoryIndex,
) -> bool {
    forall|j: int| 0 <= j < pk.len() ==> entry_ok(#[trigger] pk[j], eds, pins, index)
}

/// What the node pass produced so far.
struct Parts {
    nodes: Vec<ResolvedNode>,
    names: Vec<String>,
    hashes: Vec<(String, Vec<String>)>,
    extras: Vec<(String, String)>,
    markers: Vec<(String, (Version, MarkerTree))>,
    diagnostics: Vec<Diagnostic>,
}

spec fn parts_match(
    p: Parts,
    pk: Seq<(PubGrubPackage, Version)>,
    eds: Seq<(String, (LocalEditable, Metadata))>,
    pins: Seq<(String, (Version, ResolvedDist))>,
    prefs: Preferences,
    index: InMemoryIndex,
) -> bool {
    &&& nodes_match(p.nodes@, nodes_spec(pk, eds, pins, index.redirects@))
    &&& names_match(p.names@, names_spec(pk))
    &&& hashes_match_all(p.hashes@, hashes_spec(pk, prefs, index))
    &&& extras_match(p.extras@, extras_spec(pk, eds, index.distributions@))
    &&& markers_match(p.markers@, markers_spec(pk))
    &&& diagnostics_match(p.diagnostics@, missing_spec(pk, eds, pins, index))
}

/// Adds one marker to the disjunction kept for release `version` of `name`.
fn add_marker(markers: &mut Vec<(String, (Version, MarkerTree))>, name: String, version: Version, m: MarkerTree)
    ensures
        forall|spec: Seq<(Seq<char>, Seq<u64>, Seq<MarkerTree>)>| markers_match(old(markers)@, spec) ==> {
            let k = marker_index_from(spec, name@, version@, 0);
            markers_match(final(markers)@, if k >= 0 {
                spec.update(k, (spec[k].0, spec[k].1, spec[k].2 + disjuncts(m)))
            } else {
                spec.push((name@, version@, disjuncts(m)))
            })
        },
{
    let ghost ms0 = markers@;
    match find_versioned(markers, name.as_str(), &version) {
        Some(k) => {
            let (kn, (kv, mut tree)) = markers.remove(k);
            let ghost t0 = tree;
            tree.or(m);
            markers.insert(k, (kn, (kv, tree)));
            proof {
                assert forall|spec: Seq<(Seq<char>, Seq<u64>, Seq<MarkerTree>)>| markers_match(ms0, spec) implies {
                    let j = marker_index_from(spec, name@, version@, 0);
                    markers_match(markers@, if j >= 0 {
                        spec.update(j, (spec[j].0, spec[j].1, spec[j].2 + disjuncts(m)))
                    } else {
                        spec.push((name@, version@, disjuncts(m)))
                    })
                } by {
                    lemma_marker_index(ms0, spec, name@, version@, 0);
                    assert(ms0[k as int].1.1 == t0);
                    assert(disjuncts(t0) == spec[k as int].2);
                    let ns = spec.update(k as int, (spec[k as int].0, spec[k as int].1, spec[k as int].2 + disjuncts(m)));
                    assert forall|j: int| 0 <= j < ns.len() implies (#[trigger] markers@[j]).0@ == ns[j].0 && markers@[j].1.0@ == ns[j].1
                        && markers@[j].1.1 is Or && markers@[j].1.1->Or_0@ == ns[j].2 by {
                        if j != k {
                            assert(markers@[j] == ms0[j]);
                        }
                    }
                }
            }
        },
        None => {
            let mut tree = MarkerTree::Or(Vec::new());
            tree.or(m);
            markers.push((name, (version, tree)));
            proof {
                assert forall|spec: Seq<(Seq<char>, Seq<u64>, Seq<MarkerTree>)>| markers_match(ms0, spec) implies {
                    let j = marker_index_from(spec, name@, version@, 0);
                    markers_match(markers@, if j >= 0 {
                        spec.update(j, (spec[j].0, spec[j].1, spec[j].2 + disjuncts(m)))
                    } else {
                        spec.push((name@, version@, disjuncts(m)))
                    })
                } by {
                    lemma_marker_index(ms0, spec, name@, version@, 0);
                    let ns = spec.push((name@, version@, disjuncts(m)));
                    assert(Seq::<MarkerTree>::empty() + disjuncts(m) =~= disjuncts(m));
                    assert forall|j: int| 0 <= j < ns.len() implies (#[trigger] markers@[j]).0@ == ns[j].0 && markers@[j].1.0@ == ns[j].1
                        && markers@[j].1.1 is Or && markers@[j].1.1->Or_0@ == ns[j].2 by {
                        if j < ms0.len() {
                            assert(markers@[j] == ms0[j]);
                        }
                    }
                }
            }
        },
    }
}

proof fn lemma_take_step<T>(pk: Seq<T>, i: int)
    requires
        0 <= i < pk.len(),
    ensures
        pk.take(i + 1).drop_last() == pk.take(i),
        pk.take(i + 1).last() == pk[i],
        pk.take(i + 1).len() == i + 1,
{
    assert(pk.take(i + 1).drop_last() =~= pk.take(i));
}

/// The node pass: one node per real package, extras, markers, hashes and
/// diagnostics.
fn build_parts(
    packages: Vec<(PubGrubPackage, Version)>,
    index: &InMemoryIndex,
    preferences: &Preferences,
    editables: &Editables,
    pins: &FilePins,
) -> (r: Result<Parts, ResolveError>)
    ensures
        r is Ok <==> all_ok(packages@, editables.entries@, pins.entries@, *index),
        r is Ok ==> parts_match(r->Ok_0, packages@, editables.entries@, pins.entries@, *preferences, *index),
{
    let ghost pk = packages@;
    let ghost eds = editables.entries@;
    let ghost pn = pins.entries@;
    let mut rest = packages;
    let mut parts = Parts {
        nodes: Vec::new(),
        names: Vec::new(),
        hashes: Vec::new(),
        extras: Vec::new(),
        markers: Vec::new(),
        diagnostics: Vec::new(),
    };
    let n = rest.len();
    let mut i: usize = 0;
    proof {
        assert(pk.take(0) =~= Seq::<(PubGrubPackage, Version)>::empty());
        assert(rest@ =~= pk.skip(0));
    }
    while i < n
        invariant
            n == pk.len(),
            i <= n,
            eds == editables.entries@,
            pn == pins.entries@,
            rest@ == pk.skip(i as int),
            pk == packages@,
            forall|j: int| 0 <= j < i ==> entry_ok(#[trigger] pk[j], eds, pn, *index),
            parts_match(parts, pk.take(i as int), eds, pn, *preferences, *index),
        decreases n - i,
    {
        proof {
            lemma_take_step(pk, i as int);
        }
        let (pkg, version) = rest.remove(0);
        proof {
            assert(pk[i as int] == (pkg, version));
            assert(rest@ =~= pk.skip(i + 1));
        }
        let ghost e = (pkg, version);
        let ghost t1 = pk.take(i + 1);
        let kind: u8 = match &pkg {
            PubGrubPackage::Package { extra: None, marker: None, .. } => 1,
            PubGrubPackage::Package { extra: None, marker: Some(_), url: None, .. } => 2,
            PubGrubPackage::Package { extra: Some(_), marker: None, .. } => 3,
            _ => 0,
        };
        if kind == 1 {
            let name = match &pkg {
                PubGrubPackage::Package { name, .. } => name,
                _ => { return Err(ResolveError::MissingPin { name: String::new(), version }); },
            };
            match dist_for(&pkg, &version, editables, pins, index) {
                None => {
                    proof {
                        assert(!entry_ok(pk[i as int], eds, pn, *index));
                        assert(!all_ok(pk, eds, pn, *index));
                    }
                    return Err(ResolveError::MissingPin { name: name.clone(), version });
                },
                Some(d) => {
                    let h = hashes_for(name.as_str(), &version, preferences, index);
                    match h {
                        Some(h) => parts.hashes.push((name.clone(), h)),
                        None => {},
                    }
                    parts.nodes.push(ResolvedNode { dist: d, markers: None });
                    parts.names.push(name.clone());
                },
            }
        } else if kind == 3 {
            let (name, extra) = match &pkg {
                PubGrubPackage::Package { name, extra: Some(x), .. } => (name, x),
                _ => { return Err(ResolveError::MissingPin { name: String::new(), version }); },
            };
            match metadata_for(&pkg, &version, editables, index) {
                None => {
                    proof {
                        assert(!entry_ok(pk[i as int], eds, pn, *index));
                        assert(!all_ok(pk, eds, pn, *index));
                    }
                    return Err(ResolveError::MissingMetadata { name: name.clone(), version });
                },
                Some(m) => {
                    if m.provides_extra(extra.as_str()) {
                        parts.extras.push((name.clone(), extra.clone()));
                    } else {
                        match dist_for(&pkg, &version, editables, pins, index) {
                            None => {
                                proof {
                                    assert(!entry_ok(pk[i as int], eds, pn, *index));
                        assert(!all_ok(pk, eds, pn, *index));
                                }
                                return Err(ResolveError::MissingPin { name: name.clone(), version });
                            },
                            Some(d) => {
                                parts.diagnostics.push(Diagnostic::MissingExtra { dist: d, extra: extra.clone() });
                            },
                        }
                    }
                },
            }
        } else if kind == 2 {
            match pkg {
                PubGrubPackage::Package { name, marker: Some(m), .. } => {
                    add_marker(&mut parts.markers, name, version, m);
                },
                _ => {},
            }
        }
        proof {
            assert(entry_ok(pk[i as int], eds, pn, *index));
            assert forall|j: int| 0 <= j < i + 1 implies entry_ok(#[trigger] pk[j], eds, pn, *index) by {}
        }
        i = i + 1;
    }
    proof {
        assert(pk.take(n as int) =~= pk);
    }
    Ok(parts)
}

/// The last node whose package is named `n`, or -1.
pub open spec fn node_of(names: Seq<Seq<char>>, n: Seq<char>) -> int
    decreases names.len(),
{
    if names.len() == 0 {
        -1
    } else if names.last() == n {
        names.len() - 1
    } else {
        node_of(names.drop_last(), n)
    }
}

pub proof fn lemma_node_of(names: Seq<Seq<char>>, n: Seq<char>)
    ensures
        -1 <= node_of(names, n) < names.len(),
        node_of(names, n) >= 0 ==> names[node_of(names, n)] == n,
        names.contains(n) ==> node_of(names, n) >= 0,
    decreases names.len(),
{
    if names.len() > 0 && names.last() != n {
        lemma_node_of(names.drop_last(), n);
        if names.contains(n) {
            let k = choose|k: int| 0 <= k < names.len() && names[k] == n;
            assert(names.drop_last()[k] == n);
        }
    }
}

/// The pair of nodes a dependency joins.
pub open spec fn dep_pair(names: Seq<Seq<char>>, d: ResolutionDependency) -> (int, int) {
    (node_of(names, d.from@), node_of(names, d.to@))
}

/// One of the first `k` dependencies joins `a` to `b` and asks for `v`.
pub open spec fn asked(names: Seq<Seq<char>>, deps: Seq<ResolutionDependency>, k: int, a: int, b: int, v: Seq<u64>) -> bool {
    exists|d: int, r: int|
        0 <= d < k && dep_pair(names, #[trigger] deps[d]) == (a, b) && 0 <= r < deps[d].ranges.len()
            && (#[trigger] deps[d].ranges@[r]).has(v)
}

/// One of the first `k` dependencies joins `a` to `b`.
pub open spec fn joined(names: Seq<Seq<char>>, deps: Seq<ResolutionDependency>, k: int, a: int, b: int) -> bool {
    exists|d: int| 0 <= d < k && dep_pair(names, #[trigger] deps[d]) == (a, b)
}

/// One edge per pair of nodes that the first `k` dependencies join, holding
/// the union of the ranges asked.
pub open spec fn edges_match(es: Seq<ResolvedEdge>, names: Seq<Seq<char>>, deps: Seq<ResolutionDependency>, k: int) -> bool {
    &&& forall|x: int, y: int| 0 <= x < y < es.len() ==> ((#[trigger] es[x]).from, es[x].to) != ((#[trigger] es[y]).from, es[y].to)
    &&& forall|x: int| 0 <= x < es.len() ==> joined(names, deps, k, (#[trigger] es[x]).from as int, es[x].to as int)
    &&& forall|d: int| 0 <= d < k ==> exists|x: int| 0 <= x < es.len() && dep_pair(names, #[trigger] deps[d]) == ((#[trigger] es[x]).from as int, es[x].to as int)
    &&& forall|x: int, v: Seq<u64>| 0 <= x < es.len() ==> (#[trigger] es[x].range.has(v) <==> asked(names, deps, k, es[x].from as int, es[x].to as int, v))
}

/// The node of the last real package named `n`.
fn node_index(names: &Vec<String>, n: &str, spec: Ghost<Seq<Seq<char>>>) -> (r: usize)
    requires
        names_match(names@, spec@),
        node_of(spec@, n@) >= 0,
    ensures
        r == node_of(spec@, n@),
{
    let mut j: usize = names.len();
    proof {
        assert(spec@.take(j as int) =~= spec@);
    }
    while j > 0
        invariant
            j <= names.len(),
            names_match(names@, spec@),
            node_of(spec@, n@) == node_of(spec@.take(j as int), n@),
        decreases j,
    {
        proof {
            assert(spec@.take(j as int).last() == spec@[j - 1]);
            assert(spec@.take(j as int).drop_last() =~= spec@.take(j - 1));
        }
        if crate::dist::str_eq(names[j - 1].as_str(), n) {
            return j - 1;
        }
        j = j - 1;
    }
    j
}

fn find_edge(edges: &Vec<ResolvedEdge>, a: usize, b: usize) -> (r: Option<usize>)
    ensures
        match r {
            Some(x) => x < edges.len() && edges@[x as int].from == a && edges@[x as int].to == b,
            None => forall|x: int| 0 <= x < edges.len() ==> !((#[trigger] edges@[x]).from == a && edges@[x].to == b),
        },
{
    let mut x: usize = 0;
    while x < edges.len()
        invariant
            x <= edges.len(),
            forall|y: int| 0 <= y < x ==> !((#[trigger] edges@[y]).from == a && edges@[y].to == b),
        decreases edges.len() - x,
    {
        if edges[x].from == a && edges[x].to == b {
            return Some(x);
        }
        x = x + 1;
    }
    None
}

/// The edge pass: one edge per joined pair, holding the union of the ranges.
fn install_edges(names: &Vec<String>, deps: &Vec<ResolutionDependency>, spec: Ghost<Seq<Seq<char>>>) -> (r: Vec<ResolvedEdge>)
    requires
        names_match(names@, spec@),
        forall|d: int| 0 <= d < deps.len() ==> node_of(spec@, (#[trigger] deps@[d]).from@) >= 0 && node_of(spec@, deps@[d].to@) >= 0,
    ensures
        edges_match(r@, spec@, deps@, deps.len() as int),
{
    let mut edges: Vec<ResolvedEdge> = Vec::new();
    let mut i: usize = 0;
    while i < deps.len()
        invariant
            i <= deps.len(),
            names_match(names@, spec@),
            forall|d: int| 0 <= d < deps.len() ==> node_of(spec@, (#[trigger] deps@[d]).from@) >= 0 && node_of(spec@, deps@[d].to@) >= 0,
            edges_match(edges@, spec@, deps@, i as int),
        decreases deps.len() - i,
    {
        let dep = &deps[i];
        let a = node_index(names, dep.from.as_str(), spec);
        let b = node_index(names, dep.to.as_str(), spec);
        let ghost e0 = edges@;
        let x = match find_edge(&edges, a, b) {
            Some(x) => x,
            None => {
                edges.push(ResolvedEdge { from: a, to: b, range: VersionRange::empty() });
                edges.len() - 1
            },
        };
        let ghost e1 = edges@;
        let mut rng = edges[x].range.union(&VersionRange::empty());
        let mut r: usize = 0;
        while r < dep.ranges.len()
            invariant
                r <= dep.ranges.len(),
                x < e1.len(),
                forall|v: Seq<u64>| rng.has(v) <==> (e1[x as int].range.has(v) || exists|q: int|
                    0 <= q < r && (#[trigger] dep.ranges@[q]).has(v)),
            decreases dep.ranges.len() - r,
        {
            let next = rng.union(&dep.ranges[r]);
            proof {
                assert forall|v: Seq<u64>| next.has(v) <==> (e1[x as int].range.has(v) || exists|q: int|
                    0 <= q < r + 1 && (#[trigger] dep.ranges@[q]).has(v)) by {
                    if dep.ranges@[r as int].has(v) {
                        assert(0 <= r < r + 1);
                    }
                    if exists|q: int| 0 <= q < r + 1 && (#[trigger] dep.ranges@[q]).has(v) {
                        let q = choose|q: int| 0 <= q < r + 1 && (#[trigger] dep.ranges@[q]).has(v);
                        if q < r {
                            assert(exists|q: int| 0 <= q < r && (#[trigger] dep.ranges@[q]).has(v));
                        }
                    }
                }
            }
            rng = next;
            r = r + 1;
        }
        let _old = edges.remove(x);
        edges.insert(x, ResolvedEdge { from: a, to: b, range: rng });
        proof {
            let es = edges@;
            let ni = i + 1;
            assert(dep_pair(spec@, deps@[i as int]) == (a as int, b as int));
            assert(es =~= e1.update(x as int, ResolvedEdge { from: a, to: b, range: rng }));
            // joined pairs
            assert forall|y: int| 0 <= y < es.len() implies joined(spec@, deps@, ni as int, (#[trigger] es[y]).from as int, es[y].to as int) by {
                if y == x {
                    assert(dep_pair(spec@, deps@[i as int]) == (es[y].from as int, es[y].to as int));
                } else if y < e0.len() {
                    assert(es[y] == e0[y]);
                    assert(joined(spec@, deps@, i as int, e0[y].from as int, e0[y].to as int));
                    let d = choose|d: int| 0 <= d < i && dep_pair(spec@, #[trigger] deps@[d]) == (e0[y].from as int, e0[y].to as int);
                    assert(dep_pair(spec@, deps@[d]) == (es[y].from as int, es[y].to as int));
                }
            }
            // distinct pairs
            assert forall|p: int, q: int| 0 <= p < q < es.len() implies ((#[trigger] es[p]).from, es[p].to) != ((#[trigger] es[q]).from, es[q].to) by {
                if p != x && q != x {
                    assert(es[p] == e1[p] && es[q] == e1[q]);
                    if q >= e0.len() {
                    } else {
                        assert(e1[p] == e0[p] && e1[q] == e0[q]);
                    }
                } else if p == x {
                    assert(es[q] == e1[q]);
                    if e1.len() > e0.len() {
                        assert(q < e0.len() || q == x);
                    }
                } else {
                    assert(es[p] == e1[p]);
                }
            }
            // every dependency has its edge
            assert forall|d: int| 0 <= d < ni implies exists|y: int| 0 <= y < es.len() && dep_pair(spec@, #[trigger] deps@[d]) == ((#[trigger] es[y]).from as int, es[y].to as int) by {
                if d == i {
                    assert(dep_pair(spec@, deps@[d]) == (es[x as int].from as int, es[x as int].to as int));
                } else {
                    let y = choose|y: int| 0 <= y < e0.len() && dep_pair(spec@, #[trigger] deps@[d]) == ((#[trigger] e0[y]).from as int, e0[y].to as int);
                    assert(es[y].from == e0[y].from && es[y].to == e0[y].to);
                }
            }
            // ranges
            assert forall|y: int, v: Seq<u64>| 0 <= y < es.len() implies (#[trigger] es[y].range.has(v) <==> asked(spec@, deps@, ni as int, es[y].from as int, es[y].to as int, v)) by {
                if y == x {
                    if rng.has(v) {
                        if e1[x as int].range.has(v) {
                            if x < e0.len() {
                                assert(asked(spec@, deps@, i as int, a as int, b as int, v));
                                let (d, q) = choose|d: int, q: int|
                                    0 <= d < i && dep_pair(spec@, #[trigger] deps@[d]) == (a as int, b as int) && 0 <= q < deps@[d].ranges.len()
                                        && (#[trigger] deps@[d].ranges@[q]).has(v);
                                assert(deps@[d].ranges@[q].has(v));
                            }
                        } else {
                            let q = choose|q: int| 0 <= q < dep.ranges.len() && (#[trigger] dep.ranges@[q]).has(v);
                            assert(deps@[i as int].ranges@[q].has(v));
                        }
                    }
                    if asked(spec@, deps@, ni as int, a as int, b as int, v) {
                        let (d, q) = choose|d: int, q: int|
                            0 <= d < ni && dep_pair(spec@, #[trigger] deps@[d]) == (a as int, b as int) && 0 <= q < deps@[d].ranges.len()
                                && (#[trigger] deps@[d].ranges@[q]).has(v);
                        if d == i {
                            assert(dep.ranges@[q].has(v));
                        } else {
                            assert(asked(spec@, deps@, i as int, a as int, b as int, v));
                            if x >= e0.len() {
                                let z = choose|z: int| 0 <= z < e0.len() && dep_pair(spec@, #[trigger] deps@[d]) == ((#[trigger] e0[z]).from as int, e0[z].to as int);
                                assert(e0[z].from == a && e0[z].to == b);
                            }
                            assert(e0[x as int].range.has(v));
                        }
                    }
                } else {
                    assert(es[y] == e1[y]);
                    assert(y < e0.len());
                    assert(es[y] == e0[y]);
                    assert((es[y].from, es[y].to) != (a, b));
                    if asked(spec@, deps@, ni as int, es[y].from as int, es[y].to as int, v) {
                        let (d, q) = choose|d: int, q: int|
                            0 <= d < ni && dep_pair(spec@, #[trigger] deps@[d]) == (es[y].from as int, es[y].to as int) && 0 <= q < deps@[d].ranges.len()
                                && (#[trigger] deps@[d].ranges@[q]).has(v);
                        assert(d != i);
                        assert(asked(spec@, deps@, i as int, es[y].from as int, es[y].to as int, v));
                    }
                    if asked(spec@, deps@, i as int, es[y].from as int, es[y].to as int, v) {
                        let (d, q) = choose|d: int, q: int|
                            0 <= d < i && dep_pair(spec@, #[trigger] deps@[d]) == (es[y].from as int, es[y].to as int) && 0 <= q < deps@[d].ranges.len()
                                && (#[trigger] deps@[d].ranges@[q]).has(v);
                        assert(asked(spec@, deps@, ni as int, es[y].from as int, es[y].to as int, v));
                    }
                }
            }
        }
        i = i + 1;
    }
    edges
}

/// The graph is the one the node and edge passes build from this input.
pub open spec fn built_from(
    g: ResolutionGraph,
    pk: Seq<(PubGrubPackage, Version)>,
    deps: Seq<ResolutionDependency>,
    eds: Seq<(String, (LocalEditable, Metadata))>,
    pins: Seq<(String, (Version, ResolvedDist))>,
    prefs: Preferences,
    index: InMemoryIndex,
) -> bool {
    &&& nodes_match(g.nodes@, nodes_spec(pk, eds, pins, index.redirects@))
    &&& hashes_match_all(g.hashes@, hashes_spec(pk, prefs, index))
    &&& extras_match(g.extras@, extras_spec(pk, eds, index.distributions@))
    &&& markers_match(g.markers@, markers_spec(pk))
    &&& diagnostics_match(g.diagnostics@, missing_spec(pk, eds, pins, index))
    &&& edges_match(g.edges@, names_spec(pk), deps, deps.len() as int)
    &&& g.editables.entries@ == eds
}

impl ResolutionGraph {
    /// Builds the graph from the solver's fixed point.
    ///
    /// Fails exactly when a chosen release has no pin, or a package asked for
    /// with an extra has no metadata, or the distribution for an extra it
    /// lacks cannot be pinned.
    pub fn from_state(
        index: &InMemoryIndex,
        preferences: &Preferences,
        editables: Editables,
        resolution: Resolution,
    ) -> (r: Result<ResolutionGraph, ResolveError>)
        requires
            forall|d: int| 0 <= d < resolution.dependencies.len() ==> names_spec(resolution.packages@).contains(
                (#[trigger] resolution.dependencies@[d]).from@,
            ) && names_spec(resolution.packages@).contains(resolution.dependencies@[d].to@),
        ensures
            r is Ok <==> all_ok(resolution.packages@, editables.entries@, resolution.pins.entries@, *index),
            r is Ok ==> built_from(
                r->Ok_0,
                resolution.packages@,
                resolution.dependencies@,
                editables.entries@,
                resolution.pins.entries@,
                *preferences,
                *index,
            ),
    {
        let Resolution { packages, dependencies, pins } = resolution;
        let ghost pk = packages@;
        let parts = match build_parts(packages, index, preferences, &editables, &pins) {
            Ok(p) => p,
            Err(e) => {
                return Err(e);
            },
        };
        proof {
            assert forall|d: int| 0 <= d < dependencies.len() implies node_of(names_spec(pk), (#[trigger] dependencies@[d]).from@) >= 0
                && node_of(names_spec(pk), dependencies@[d].to@) >= 0 by {
                lemma_node_of(names_spec(pk), dependencies@[d].from@);
                lemma_node_of(names_spec(pk), dependencies@[d].to@);
            }
        }
        let edges = install_edges(&parts.names, &dependencies, Ghost(names_spec(pk)));
        Ok(ResolutionGraph {
            nodes: parts.nodes,
            edges,
            hashes: parts.hashes,
            extras: parts.extras,
            markers: parts.markers,
            editables,
            diagnostics: parts.diagnostics,
        })
    }

    /// The number of packages in the graph.
    pub fn len(&self) -> (r: usize)
        ensures
            r == self.nodes.len(),
    {
        self.nodes.len()
    }

    /// Whether the graph holds no package.
    pub fn is_empty(&self) -> (r: bool)
        ensures
            r == (self.nodes.len() == 0),
    {
        self.nodes.len() == 0
    }

    /// Whether some node's distribution is named `name`.
    pub fn contains(&self, name: &str) -> (r: bool)
        ensures
            r == exists|k: int| 0 <= k < self.nodes.len() && dist_name((#[trigger] self.nodes@[k]).dist@) == name@,
    {
        let mut k: usize = 0;
        while k < self.nodes.len()
            invariant
                k <= self.nodes.len(),
                forall|j: int| 0 <= j < k ==> dist_name((#[trigger] self.nodes@[j]).dist@) != name@,
            decreases self.nodes.len() - k,
        {
            if crate::dist::str_eq(self.nodes[k].dist.name().as_str(), name) {
                return true;
            }
            k = k + 1;
        }
        false
    }

    /// The distributions of the nodes, in node order.
    pub fn into_distributions(self) -> (r: Vec<ResolvedDist>)
        ensures
            r.len() == self.nodes.len(),
            forall|k: int| 0 <= k < r.len() ==> (#[trigger] r@[k])@ == self.nodes@[k].dist@,
    {
        let ghost ns = self.nodes@;
        let mut nodes = self.nodes;
        let mut out: Vec<ResolvedDist> = Vec::new();
        while nodes.len() > 0
            invariant
                out.len() + nodes.len() == ns.len(),
                nodes@ == ns.skip(out.len() as int),
                forall|k: int| 0 <= k < out.len() ==> (#[trigger] out@[k])@ == ns[k].dist@,
            decreases nodes.len(),
        {
            let node = nodes.remove(0);
            proof {
                assert(node == ns[out.len() as int]);
            }
            out.push(node.dist);
            proof {
                assert(nodes@ =~= ns.skip(out.len() as int));
            }
        }
        out
    }

    /// The underlying graph: its nodes and its edges.
    pub fn petgraph(&self) -> (r: (&Vec<ResolvedNode>, &Vec<ResolvedEdge>))
        ensures
            r.0 == &self.nodes,
            r.1 == &self.edges,
    {
        (&self.nodes, &self.edges)
    }

    /// Each pinned distribution under its package name, in node order.
    pub fn into_resolution(self) -> (r: Vec<(String, ResolvedDist)>)
        ensures
            r.len() == self.nodes.len(),
            forall|k: int| 0 <= k < r.len() ==> (#[trigger] r@[k]).1@ == self.nodes@[k].dist@ && r@[k].0@ == dist_name(
                self.nodes@[k].dist@,
            ),
    {
        let dists = self.into_distributions();
        let mut out: Vec<(String, ResolvedDist)> = Vec::new();
        let mut k: usize = 0;
        while k < dists.len()
            invariant
                k <= dists.len(),
                out.len() == k,
                forall|j: int| 0 <= j < k ==> (#[trigger] out@[j]).1@ == dists@[j]@ && out@[j].0@ == dist_name(dists@[j]@),
            decreases dists.len() - k,
        {
            out.push((dists[k].name().clone(), dists[k].duplicate()));
            k = k + 1;
        }
        out
    }

    /// The problems met while building the graph.
    pub fn diagnostics(&self) -> (r: &Vec<Diagnostic>)
        ensures
            r == &self.diagnostics,
    {
        &self.diagnostics
    }
}

/// Some requirement's marker reads `p`.
pub open spec fn reqs_mention(reqs: Seq<Requirement>, p: MarkerParam) -> bool {
    exists|r: int| 0 <= r < reqs.len() && (#[trigger] reqs[r]).marker is Some && mentions(reqs[r].marker->0, p)
}

/// The metadata the index holds for a node's distribution.
pub open spec fn node_metadata(d: DistView, dists: Seq<(PackageId, Metadata)>) -> Option<Metadata> {
    let k = match d {
        DistView::Registry { name, version } => id_index(dists, name, version, None),
        DistView::Url { name, url } => id_index(dists, name, seq![], Some(url.raw)),
        DistView::Editable { name, url } => id_index(dists, name, seq![], Some(url.raw)),
    };
    if k >= 0 {
        Some(dists[k].1)
    } else {
        None
    }
}

/// The marker of a requirement of some node, of a direct requirement, or of
/// a requirement of a direct editable reads `p`.
pub open spec fn resolution_mentions(g: ResolutionGraph, manifest: Manifest, index: InMemoryIndex, p: MarkerParam) -> bool {
    ||| exists|k: int| 0 <= k < g.nodes.len() && reqs_mention(
        node_metadata((#[trigger] g.nodes@[k]).dist@, index.distributions@)->0.requires_dist@,
        p,
    )
    ||| reqs_mention(manifest.requirements@, p)
    ||| exists|e: int| 0 <= e < manifest.editables.len() && reqs_mention((#[trigger] manifest.editables@[e]).1.requires_dist@, p)
}

/// Each conjunct pins an attribute that the resolution reads.
pub open spec fn each_pins_mentioned(cs: Seq<MarkerTree>, g: ResolutionGraph, manifest: Manifest, index: InMemoryIndex, env: MarkerEnvironment) -> bool {
    forall|j: int| 0 <= j < cs.len() ==> pins_mentioned(#[trigger] cs[j], g, manifest, index, env)
}

/// The marker pins some attribute that the resolution reads.
pub open spec fn pins_mentioned(t: MarkerTree, g: ResolutionGraph, manifest: Manifest, index: InMemoryIndex, env: MarkerEnvironment) -> bool {
    exists|p: MarkerParam| resolution_mentions(g, manifest, index, p) && #[trigger] pins_param(t, p, env)
}

/// `t` is `p == "<the environment's value of p>"`.
pub open spec fn pins_param(t: MarkerTree, p: MarkerParam, env: MarkerEnvironment) -> bool {
    &&& t is Expression
    &&& t->Expression_0.l_value == param_value(p)
    &&& t->Expression_0.operator == MarkerOperator::Equal
    &&& t->Expression_0.r_value is QuotedString
    &&& t->Expression_0.r_value->QuotedString_0@ == env_value(env, p)
}

fn add_reqs_params(reqs: &Vec<Requirement>, set: &mut Vec<MarkerParam>)
    requires
        old(set)@.no_duplicates(),
    ensures
        final(set)@.no_duplicates(),
        forall|q: MarkerParam| #[trigger] final(set)@.contains(q) <==> old(set)@.contains(q) || reqs_mention(reqs@, q),
{
    let mut i: usize = 0;
    while i < reqs.len()
        invariant
            i <= reqs.len(),
            set@.no_duplicates(),
            forall|q: MarkerParam| #[trigger] set@.contains(q) <==> old(set)@.contains(q) || reqs_mention(reqs@.take(i as int), q),
        decreases reqs.len() - i,
    {
        let ghost s0 = set@;
        match &reqs[i].marker {
            Some(m) => add_tree_params(m, set),
            None => {},
        }
        proof {
            let t0 = reqs@.take(i as int);
            let t1 = reqs@.take(i + 1);
            assert forall|q: MarkerParam| reqs_mention(t1, q) <==> reqs_mention(t0, q) || (reqs@[i as int].marker is Some && mentions(reqs@[i as int].marker->0, q)) by {
                if reqs_mention(t1, q) {
                    let r = choose|r: int| 0 <= r < t1.len() && (#[trigger] t1[r]).marker is Some && mentions(t1[r].marker->0, q);
                    if r < i {
                        assert(t0[r] == t1[r]);
                    }
                }
                if reqs_mention(t0, q) {
                    let r = choose|r: int| 0 <= r < t0.len() && (#[trigger] t0[r]).marker is Some && mentions(t0[r].marker->0, q);
                    assert(t1[r] == t0[r]);
                }
                if reqs@[i as int].marker is Some && mentions(reqs@[i as int].marker->0, q) {
                    assert(t1[i as int] == reqs@[i as int]);
                }
            }
        }
        i = i + 1;
    }
    proof {
        assert(reqs@.take(i as int) =~= reqs@);
    }
}

fn metadata_of_dist<'a>(d: &ResolvedDist, index: &'a InMemoryIndex) -> (r: Option<&'a Metadata>)
    ensures
        match r {
            Some(m) => node_metadata(d@, index.distributions@) == Some(*m),
            None => node_metadata(d@, index.distributions@) is None,
        },
{
    let empty = Version { release: Vec::new() };
    let k = match d {
        ResolvedDist::Registry { name, version } => find_metadata(&index.distributions, name.as_str(), version, None),
        ResolvedDist::Url { name, url } => find_metadata(&index.distributions, name.as_str(), &empty, Some(url.raw().as_str())),
        ResolvedDist::Editable { name, editable } => find_metadata(&index.distributions, name.as_str(), &empty, Some(editable.url.raw().as_str())),
    };
    match k {
        Some(k) => Some(&index.distributions[k].1),
        None => None,
    }
}

impl ResolutionGraph {
    /// A marker that, wherever it holds, keeps this resolution correct: the
    /// conjunction of `param == "<value>"` over every environment attribute
    /// that a requirement of a node, a direct requirement, or a requirement of
    /// a direct editable reads, with the value the environment gives it.
    pub fn marker_tree(&self, manifest: &Manifest, index: &InMemoryIndex, marker_env: &MarkerEnvironment) -> (r: MarkerTree)
        requires
            forall|k: int| 0 <= k < self.nodes.len() ==> node_metadata((#[trigger] self.nodes@[k]).dist@, index.distributions@) is Some,
        ensures
            r is And,
            each_pins_mentioned(r->And_0@, *self, *manifest, *index, *marker_env),
            forall|p: MarkerParam| resolution_mentions(*self, *manifest, *index, p) ==> exists|i: int|
                0 <= i < r->And_0.len() && #[trigger] pins_param(r->And_0@[i], p, *marker_env),
    {
        let mut seen: Vec<MarkerParam> = Vec::new();
        let mut k: usize = 0;
        while k < self.nodes.len()
            invariant
                k <= self.nodes.len(),
                forall|j: int| 0 <= j < self.nodes.len() ==> node_metadata((#[trigger] self.nodes@[j]).dist@, index.distributions@) is Some,
                seen@.no_duplicates(),
                forall|q: MarkerParam| #[trigger] seen@.contains(q) <==> exists|j: int| 0 <= j < k && reqs_mention(
                    node_metadata((#[trigger] self.nodes@[j]).dist@, index.distributions@)->0.requires_dist@,
                    q,
                ),
            decreases self.nodes.len() - k,
        {
            let found = metadata_of_dist(&self.nodes[k].dist, index);
            proof {
                assert(node_metadata(self.nodes@[k as int].dist@, index.distributions@) is Some);
            }
            let md = found.unwrap();
            let ghost s0 = seen@;
            add_reqs_params(&md.requires_dist, &mut seen);
            proof {
                assert forall|q: MarkerParam| #[trigger] seen@.contains(q) <==> exists|j: int| 0 <= j < k + 1 && reqs_mention(
                    node_metadata((#[trigger] self.nodes@[j]).dist@, index.distributions@)->0.requires_dist@,
                    q,
                ) by {
                    if seen@.contains(q) && !s0.contains(q) {
                        assert(reqs_mention(node_metadata(self.nodes@[k as int].dist@, index.distributions@)->0.requires_dist@, q));
                    }
                }
            }
            k = k + 1;
        }
        let ghost s_nodes = seen@;
        add_reqs_params(&manifest.requirements, &mut seen);
        let ghost s_direct = seen@;
        let mut e: usize = 0;
        while e < manifest.editables.len()
            invariant
                e <= manifest.editables.len(),
                seen@.no_duplicates(),
                forall|q: MarkerParam| #[trigger] seen@.contains(q) <==> s_direct.contains(q) || exists|j: int| 0 <= j < e && reqs_mention(
                    (#[trigger] manifest.editables@[j]).1.requires_dist@,
                    q,
                ),
            decreases manifest.editables.len() - e,
        {
            let ghost s0 = seen@;
            add_reqs_params(&manifest.editables[e].1.requires_dist, &mut seen);
            proof {
                assert forall|q: MarkerParam| #[trigger] seen@.contains(q) <==> s_direct.contains(q) || exists|j: int| 0 <= j < e + 1 && reqs_mention(
                    (#[trigger] manifest.editables@[j]).1.requires_dist@,
                    q,
                ) by {
                    if seen@.contains(q) && !s0.contains(q) {
                        assert(reqs_mention(manifest.editables@[e as int].1.requires_dist@, q));
                    }
                }
            }
            e = e + 1;
        }
        proof {
            assert forall|q: MarkerParam| #[trigger] seen@.contains(q) <==> resolution_mentions(*self, *manifest, *index, q) by {
                if seen@.contains(q) {
                    if s_direct.contains(q) && !s_nodes.contains(q) {
                        assert(reqs_mention(manifest.requirements@, q));
                    }
                }
            }
        }
        let mut conjuncts: Vec<MarkerTree> = Vec::new();
        let mut i: usize = 0;
        while i < seen.len()
            invariant
                forall|q: MarkerParam| #[trigger] seen@.contains(q) <==> resolution_mentions(*self, *manifest, *index, q),
                i <= seen.len(),
                conjuncts.len() == i,
                forall|j: int| 0 <= j < i ==> #[trigger] pins_param(conjuncts@[j], seen@[j], *marker_env),
            decreases seen.len() - i,
        {
            let p = seen[i];
            let value = match p {
                MarkerParam::Version(v) => marker_env.get_version(v).clone(),
                MarkerParam::String(s) => marker_env.get_string(s).clone(),
            };
            let l_value = match p {
                MarkerParam::Version(v) => MarkerValue::MarkerEnvVersion(v),
                MarkerParam::String(s) => MarkerValue::MarkerEnvString(s),
            };
            conjuncts.push(MarkerTree::Expression(MarkerExpression {
                l_value,
                operator: MarkerOperator::Equal,
                r_value: MarkerValue::QuotedString(value),
            }));
            i = i + 1;
        }
        let r = MarkerTree::And(conjuncts);
        proof {
            let cs = r->And_0@;
            assert forall|j: int| 0 <= j < cs.len() implies pins_mentioned(#[trigger] cs[j], *self, *manifest, *index, *marker_env) by {
                assert(j < seen.len());
                assert(seen@.contains(seen@[j]));
                assert(resolution_mentions(*self, *manifest, *index, seen@[j]));
                assert(pins_param(cs[j], seen@[j], *marker_env));
            }
            assert(each_pins_mentioned(cs, *self, *manifest, *index, *marker_env));
            assert forall|p: MarkerParam| resolution_mentions(*self, *manifest, *index, p) implies exists|j: int|
                0 <= j < r->And_0.len() && #[trigger] pins_param(r->And_0@[j], p, *marker_env) by {
                assert(seen@.contains(p));
                let j = choose|j: int| 0 <= j < seen.len() && seen@[j] == p;
                assert(pins_param(r->And_0@[j], p, *marker_env));
            }
        }
        r
    }
}

/// No two real packages of the input share a name.
pub open spec fn distinct_real_names(pk: Seq<(PubGrubPackage, Version)>) -> bool {
    forall|a: int, b: int| 0 <= a < b < pk.len() && is_base((#[trigger] pk[a]).0) && is_base((#[trigger] pk[b]).0) ==> package_name(pk[a].0) != package_name(pk[b].0)
}

/// There is one node per real package, in input order, and the names of
/// the nodes are exactly the names of the real packages.
pub proof fn lemma_nodes_per_real_package(
    pk: Seq<(PubGrubPackage, Version)>,
    eds: Seq<(String, (LocalEditable, Metadata))>,
    pins: Seq<(String, (Version, ResolvedDist))>,
    reds: Seq<(String, String)>,
)
    ensures
        nodes_spec(pk, eds, pins, reds).len() == names_spec(pk).len(),
        forall|m: Seq<char>| names_spec(pk).contains(m) <==> exists|j: int| 0 <= j < pk.len() && is_base((#[trigger] pk[j]).0) && package_name(pk[j].0) == m,
    decreases pk.len(),
{
    if pk.len() > 0 {
        let front = pk.drop_last();
        lemma_nodes_per_real_package(front, eds, pins, reds);
        assert forall|m: Seq<char>| names_spec(pk).contains(m) <==> exists|j: int| 0 <= j < pk.len() && is_base((#[trigger] pk[j]).0) && package_name(pk[j].0) == m by {
            if names_spec(pk).contains(m) {
                if names_spec(front).contains(m) {
                    let j = choose|j: int| 0 <= j < front.len() && is_base((#[trigger] front[j]).0) && package_name(front[j].0) == m;
                    assert(pk[j] == front[j]);
                } else {
                    let k = choose|k: int| 0 <= k < names_spec(pk).len() && names_spec(pk)[k] == m;
                    assert(k == names_spec(front).len());
                    assert(pk[pk.len() - 1] == pk.last());
                }
            }
            if exists|j: int| 0 <= j < pk.len() && is_base((#[trigger] pk[j]).0) && package_name(pk[j].0) == m {
                let j = choose|j: int| 0 <= j < pk.len() && is_base((#[trigger] pk[j]).0) && package_name(pk[j].0) == m;
                if j < front.len() {
                    assert(front[j] == pk[j]);
                    assert(names_spec(front).contains(m));
                    let k = choose|k: int| 0 <= k < names_spec(front).len() && names_spec(front)[k] == m;
                    assert(names_spec(pk)[k] == m);
                } else {
                    assert(names_spec(pk)[names_spec(front).len() as int] == m);
                }
            }
        }
    }
}

/// Node uniqueness: when no two real packages of the input share a name,
/// each real package name names exactly one node.
pub proof fn lemma_node_uniqueness(pk: Seq<(PubGrubPackage, Version)>)
    requires
        distinct_real_names(pk),
    ensures
        names_spec(pk).no_duplicates(),
        forall|j: int| 0 <= j < pk.len() && is_base((#[trigger] pk[j]).0) ==> names_spec(pk).contains(package_name(pk[j].0)),
    decreases pk.len(),
{
    lemma_nodes_per_real_package(pk, seq![], seq![], seq![]);
    if pk.len() > 0 {
        let front = pk.drop_last();
        assert(distinct_real_names(front)) by {
            assert forall|a: int, b: int| 0 <= a < b < front.len() && is_base((#[trigger] front[a]).0) && is_base((#[trigger] front[b]).0) implies package_name(front[a].0) != package_name(front[b].0) by {
                assert(front[a] == pk[a] && front[b] == pk[b]);
            }
        }
        lemma_node_uniqueness(front);
        lemma_nodes_per_real_package(front, seq![], seq![], seq![]);
        if is_base(pk.last().0) {
            let n = package_name(pk.last().0);
            assert(!names_spec(front).contains(n)) by {
                if names_spec(front).contains(n) {
                    let j = choose|j: int| 0 <= j < front.len() && is_base((#[trigger] front[j]).0) && package_name(front[j].0) == n;
                    assert(pk[j] == front[j]);
                    assert(pk[pk.len() - 1] == pk.last());
                }
            }
            assert(names_spec(pk) == names_spec(front).push(n));
            assert forall|a: int, b: int| 0 <= a < b < names_spec(pk).len() implies names_spec(pk)[a] != names_spec(pk)[b] by {
                if b == names_spec(front).len() {
                    assert(names_spec(front).contains(names_spec(pk)[a]) || a >= names_spec(front).len());
                    if names_spec(pk)[a] == n {
                        assert(names_spec(front)[a] == n);
                    }
                } else {
                    assert(names_spec(pk)[a] == names_spec(front)[a]);
                }
            }
        }
        assert forall|j: int| 0 <= j < pk.len() && is_base((#[trigger] pk[j]).0) implies names_spec(pk).contains(package_name(pk[j].0)) by {
            assert(exists|i: int| 0 <= i < pk.len() && is_base((#[trigger] pk[i]).0) && package_name(pk[i].0) == package_name(pk[j].0));
        }
    }
}

/// Extra folding: every recorded extra is provided by the metadata of the
/// package it was asked of; every extra asked of a package that does not
/// provide it has a diagnostic naming the pinned distribution and the extra.
pub proof fn lemma_extra_folding(
    pk: Seq<(PubGrubPackage, Version)>,
    eds: Seq<(String, (LocalEditable, Metadata))>,
    pins: Seq<(String, (Version, ResolvedDist))>,
    index: InMemoryIndex,
)
    ensures
        forall|k: int| #![trigger extras_spec(pk, eds, index.distributions@)[k]] 0 <= k < extras_spec(pk, eds, index.distributions@).len() ==> exists|j: int|
            0 <= j < pk.len() && is_extra((#[trigger] pk[j]).0)
                && extras_spec(pk, eds, index.distributions@)[k] == (package_name(pk[j].0), pk[j].0->Package_extra->0@)
                && provides(extra_metadata(pk[j].0, pk[j].1@, eds, index.distributions@)->0, pk[j].0->Package_extra->0@),
        forall|j: int| 0 <= j < pk.len() && is_extra((#[trigger] pk[j]).0) && !provides(
            extra_metadata(pk[j].0, pk[j].1@, eds, index.distributions@)->0,
            pk[j].0->Package_extra->0@,
        ) ==> missing_spec(pk, eds, pins, index).contains(
            (base_dist(pk[j].0, pk[j].1@, eds, pins, index.redirects@)->0, pk[j].0->Package_extra->0@),
        ),
    decreases pk.len(),
{
    if pk.len() > 0 {
        let front = pk.drop_last();
        lemma_extra_folding(front, eds, pins, index);
        let xs0 = extras_spec(front, eds, index.distributions@);
        let xs = extras_spec(pk, eds, index.distributions@);
        let ms0 = missing_spec(front, eds, pins, index);
        let ms = missing_spec(pk, eds, pins, index);
        let last = pk.len() - 1;
        assert(pk[last] == pk.last());
        assert forall|k: int| #![trigger xs[k]] 0 <= k < xs.len() implies exists|j: int|
            0 <= j < pk.len() && is_extra((#[trigger] pk[j]).0)
                && xs[k] == (package_name(pk[j].0), pk[j].0->Package_extra->0@)
                && provides(extra_metadata(pk[j].0, pk[j].1@, eds, index.distributions@)->0, pk[j].0->Package_extra->0@) by {
            if k < xs0.len() {
                assert(xs[k] == xs0[k]);
                let j = choose|j: int|
                    0 <= j < front.len() && is_extra((#[trigger] front[j]).0)
                        && xs0[k] == (package_name(front[j].0), front[j].0->Package_extra->0@)
                        && provides(extra_metadata(front[j].0, front[j].1@, eds, index.distributions@)->0, front[j].0->Package_extra->0@);
                assert(pk[j] == front[j]);
            } else {
                assert(is_extra(pk[last].0));
            }
        }
        assert forall|j: int| 0 <= j < pk.len() && is_extra((#[trigger] pk[j]).0) && !provides(
            extra_metadata(pk[j].0, pk[j].1@, eds, index.distributions@)->0,
            pk[j].0->Package_extra->0@,
        ) implies ms.contains(
            (base_dist(pk[j].0, pk[j].1@, eds, pins, index.redirects@)->0, pk[j].0->Package_extra->0@),
        ) by {
            if j < front.len() {
                assert(front[j] == pk[j]);
                let item = (base_dist(pk[j].0, pk[j].1@, eds, pins, index.redirects@)->0, pk[j].0->Package_extra->0@);
                assert(ms0.contains(item));
                let k = choose|k: int| 0 <= k < ms0.len() && ms0[k] == item;
                assert(ms[k] == ms0[k]);
            } else {
                assert(ms[ms0.len() as int] == (base_dist(pk[j].0, pk[j].1@, eds, pins, index.redirects@)->0, pk[j].0->Package_extra->0@));
            }
        }
    }
}

/// Hash sorting: when the hashes recorded earlier are each in order, every
/// hash list the graph keeps is in order.
pub proof fn lemma_hashes_sorted(
    hs: Seq<(String, Vec<String>)>,
    pk: Seq<(PubGrubPackage, Version)>,
    prefs: Preferences,
    index: InMemoryIndex,
)
    requires
        hashes_match_all(hs, hashes_spec(pk, prefs, index)),
        forall|k: int| 0 <= k < prefs.hashes.len() ==> sorted_texts((#[trigger] prefs.hashes@[k]).1.1@),
    ensures
        forall|k: int| 0 <= k < hs.len() ==> sorted_texts((#[trigger] hs[k]).1@),
{
    lemma_recorded_sources_sorted(pk, prefs, index);
    let sp = hashes_spec(pk, prefs, index);
    assert forall|k: int| 0 <= k < hs.len() implies sorted_texts((#[trigger] hs[k]).1@) by {
        assert(hashes_match(hs[k].1@, sp[k].1));
        if sp[k].1.0 {
            let out = hs[k].1@;
            let src = sp[k].1.1;
            assert forall|i: int, j: int| 0 <= i < j < out.len() implies !seq_lt((#[trigger] out[j])@, (#[trigger] out[i])@) by {
                assert(out[j]@ == src[j]@ && out[i]@ == src[i]@);
                assert(!seq_lt(src[j]@, src[i]@));
            }
        }
    }
}

proof fn lemma_recorded_sources_sorted(pk: Seq<(PubGrubPackage, Version)>, prefs: Preferences, index: InMemoryIndex)
    requires
        forall|k: int| 0 <= k < prefs.hashes.len() ==> sorted_texts((#[trigger] prefs.hashes@[k]).1.1@),
    ensures
        forall|k: int| 0 <= k < hashes_spec(pk, prefs, index).len() && (#[trigger] hashes_spec(pk, prefs, index)[k]).1.0 ==> sorted_texts(hashes_spec(pk, prefs, index)[k].1.1),
    decreases pk.len(),
{
    if pk.len() > 0 {
        let front = pk.drop_last();
        lemma_recorded_sources_sorted(front, prefs, index);
        let e = pk.last();
        let n = package_name(e.0);
        lemma_versioned_index_bounds(prefs.hashes@, n, e.1@);
        assert forall|k: int| 0 <= k < hashes_spec(pk, prefs, index).len() && (#[trigger] hashes_spec(pk, prefs, index)[k]).1.0 implies sorted_texts(hashes_spec(pk, prefs, index)[k].1.1) by {
            if k < hashes_spec(front, prefs, index).len() {
                assert(hashes_spec(pk, prefs, index)[k] == hashes_spec(front, prefs, index)[k]);
            } else {
                let kp = versioned_index(prefs.hashes@, n, e.1@);
                assert(kp >= 0);
                assert(sorted_texts(prefs.hashes@[kp].1.1@));
            }
        }
    }
}

} // verus!

//! The lockfile: one block per pinned package, editables first, then the
//! others by name, with optional hashes and "via" annotations.
use vstd::prelude::*;
use crate::dist::{dist_name, dist_text, version_or_url_text, ResolvedDist, str_eq};
use crate::graph::ResolutionGraph;
use crate::input::{find_versioned, versioned_index};
use crate::marker::tree_text;
use crate::sort::{key_lt, key_views, lemma_key_lt_order, lemma_sorted_unique, sort_indices, strictly_sorted};
use crate::text::{find_key, green, join, key_index, pad, push_green, push_padded, push_trimmed_lines, seq_lt, lemma_seq_lt_asymmetric, lemma_seq_lt_irreflexive, lemma_seq_lt_total, lemma_seq_lt_transitive, str_lt, trimmed_lines};

verus! {

/// How the packages that asked for a package are listed.
#[derive(Clone, Copy, Debug, PartialEq, Eq, Structural)]
pub enum AnnotationStyle {
    /// On one comma-separated line.
    Line,
    /// One per line.
    Split,
}

impl Default for AnnotationStyle {
    fn default() -> (r: AnnotationStyle)
        ensures
            r == AnnotationStyle::Split,
    {
        AnnotationStyle::Split
    }
}

/// A graph together with how to write it out.
pub struct DisplayResolutionGraph<'a> {
    pub resolution: &'a ResolutionGraph,
    /// Packages left out of the output.
    pub no_emit_packages: &'a [String],
    pub show_hashes: bool,
    /// Whether to write extras, as in `black[colorama]`.
    pub include_extras: bool,
    /// Whether to write which packages asked for each package.
    pub include_annotations: bool,
    pub annotation_style: AnnotationStyle,
}

pub open spec fn node_name(g: ResolutionGraph, x: int) -> Seq<char> {
    dist_name(g.nodes@[x].dist@)
}

/// Node `x` is written out.
pub open spec fn is_emitted(d: DisplayResolutionGraph, x: usize) -> bool {
    &&& x < d.resolution.nodes.len()
    &&& !exists|k: int| 0 <= k < d.no_emit_packages.len() && (#[trigger] d.no_emit_packages@[k])@ == node_name(*d.resolution, x as int)
}

pub open spec fn editable_index(g: ResolutionGraph, x: int) -> int {
    key_index(g.editables.entries@, node_name(g, x))
}

/// Editables sort first, by the text of their URL; the others by name.
pub open spec fn node_keys(g: ResolutionGraph) -> Seq<(u8, Seq<char>)> {
    Seq::new(g.nodes.len() as nat, |x: int| if editable_index(g, x) >= 0 {
        (0u8, g.editables.entries@[editable_index(g, x)].1.0.url@.shown)
    } else {
        (1u8, node_name(g, x))
    })
}

/// `o` lists the written nodes in order.
pub open spec fn is_node_order(d: DisplayResolutionGraph, o: Seq<usize>) -> bool {
    strictly_sorted(node_keys(*d.resolution), o) && forall|x: usize| o.contains(x) <==> is_emitted(d, x)
}

pub open spec fn node_order(d: DisplayResolutionGraph) -> Seq<usize> {
    choose|o: Seq<usize>| is_node_order(d, o)
}

/// Node `y` has an edge into node `x`.
pub open spec fn requests(g: ResolutionGraph, y: usize, x: usize) -> bool {
    y < g.nodes.len() && exists|e: int| 0 <= e < g.edges.len() && (#[trigger] g.edges@[e]).to == x && g.edges@[e].from == y
}

pub open spec fn name_keys(g: ResolutionGraph) -> Seq<(u8, Seq<char>)> {
    Seq::new(g.nodes.len() as nat, |y: int| (0u8, node_name(g, y)))
}

pub open spec fn is_requester_order(g: ResolutionGraph, x: usize, o: Seq<usize>) -> bool {
    strictly_sorted(name_keys(g), o) && forall|y: usize| o.contains(y) <==> requests(g, y, x)
}

/// The names of the packages that asked for node `x`, sorted.
pub open spec fn requester_names(g: ResolutionGraph, x: usize) -> Seq<Seq<char>> {
    let o = choose|o: Seq<usize>| is_requester_order(g, x, o);
    Seq::new(o.len(), |i: int| node_name(g, o[i] as int))
}

/// The extra `e` is switched on for the package `n`.
pub open spec fn extra_of(g: ResolutionGraph, n: Seq<char>, e: Seq<char>) -> bool {
    exists|k: int| 0 <= k < g.extras.len() && (#[trigger] g.extras@[k]).0@ == n && g.extras@[k].1@ == e
}

pub open spec fn strictly_increasing(s: Seq<Seq<char>>) -> bool {
    forall|i: int, j: int| 0 <= i < j < s.len() ==> seq_lt(#[trigger] s[i], #[trigger] s[j])
}

/// The extras of `n`, sorted, each once.
pub open spec fn extras_shown(g: ResolutionGraph, n: Seq<char>) -> Seq<Seq<char>> {
    choose|s: Seq<Seq<char>>| strictly_increasing(s) && forall|e: Seq<char>| s.contains(e) <==> extra_of(g, n, e)
}

/// The marker recorded for a node's release, as written.
pub open spec fn marker_of(g: ResolutionGraph, x: int) -> Option<Seq<char>> {
    match g.nodes@[x].dist {
        ResolvedDist::Registry { name, version } => {
            let k = versioned_index(g.markers@, name@, version@);
            if k >= 0 {
                Some(tree_text(g.markers@[k].1.1))
            } else {
                None
            }
        },
        _ => None,
    }
}

/// The hashes kept for the package `n`.
pub open spec fn hash_list(g: ResolutionGraph, n: Seq<char>) -> Seq<String> {
    let k = key_index(g.hashes@, n);
    if k >= 0 {
        g.hashes@[k].1@
    } else {
        seq![]
    }
}

pub open spec fn hashes_text(hs: Seq<String>) -> Seq<char>
    decreases hs.len(),
{
    if hs.len() == 0 {
        seq![]
    } else {
        hashes_text(hs.drop_last()) + " \\\n    --hash="@ + hs.last()@
    }
}

/// The requirement line of node `x`: `-e <url>` for an editable, else the
/// distribution with its extras and a trailing ` # <marker>`.
pub open spec fn verbatim_text(d: DisplayResolutionGraph, x: int) -> Seq<char> {
    let g = *d.resolution;
    let n = node_name(g, x);
    let ke = editable_index(g, x);
    if ke >= 0 {
        "-e "@ + g.editables.entries@[ke].1.0.url@.shown
    } else {
        let xs = if d.include_extras {
            extras_shown(g, n)
        } else {
            seq![]
        };
        let dist = g.nodes@[x].dist@;
        let base = if xs.len() == 0 {
            dist_text(dist)
        } else {
            n + "["@ + join(xs, ", "@) + "]"@ + version_or_url_text(dist)
        };
        match marker_of(g, x) {
            Some(m) => base + " # "@ + m,
            None => base,
        }
    }
}

pub open spec fn shows_hashes(d: DisplayResolutionGraph, x: int) -> bool {
    d.show_hashes && hash_list(*d.resolution, node_name(*d.resolution, x)).len() > 0
}

pub open spec fn line_text(d: DisplayResolutionGraph, x: int) -> Seq<char> {
    verbatim_text(d, x) + if shows_hashes(d, x) {
        hashes_text(hash_list(*d.resolution, node_name(*d.resolution, x)))
    } else {
        seq![]
    }
}

/// The separator and the green comment that list who asked for node `x`.
pub open spec fn annotation(d: DisplayResolutionGraph, x: usize) -> Option<(Seq<char>, Seq<char>)> {
    let rs = requester_names(*d.resolution, x);
    if !d.include_annotations || rs.len() == 0 {
        None
    } else {
        match d.annotation_style {
            AnnotationStyle::Line => Some(
                (
                    if shows_hashes(d, x as int) {
                        "\n    "@
                    } else {
                        "  "@
                    },
                    green("# via "@ + join(rs, ", "@)),
                ),
            ),
            AnnotationStyle::Split => if rs.len() == 1 {
                Some(("\n"@, green("    # via "@ + rs[0])))
            } else {
                Some(("\n"@, green("    # via\n"@ + join(Seq::new(rs.len(), |i: int| "    #   "@ + rs[i]), "\n"@))))
            },
        }
    }
}

/// The block written for node `x`.
pub open spec fn block_text(d: DisplayResolutionGraph, x: usize) -> Seq<char> {
    match annotation(d, x) {
        Some((sep, c)) => trimmed_lines(pad(line_text(d, x as int), 24) + sep + c),
        None => line_text(d, x as int) + "\n"@,
    }
}

pub open spec fn blocks_text(d: DisplayResolutionGraph, o: Seq<usize>) -> Seq<char>
    decreases o.len(),
{
    if o.len() == 0 {
        seq![]
    } else {
        blocks_text(d, o.drop_last()) + block_text(d, o.last())
    }
}

/// The whole lockfile.
pub open spec fn render_text(d: DisplayResolutionGraph) -> Seq<char> {
    blocks_text(d, node_order(d))
}

/// Two strictly increasing lists of the same texts are the same list.
pub proof fn lemma_increasing_unique(s1: Seq<Seq<char>>, s2: Seq<Seq<char>>)
    requires
        strictly_increasing(s1),
        strictly_increasing(s2),
        forall|e: Seq<char>| s1.contains(e) <==> s2.contains(e),
    ensures
        s1 == s2,
    decreases s1.len(),
{
    if s1.len() == 0 {
        if s2.len() > 0 {
            assert(s2.contains(s2[0]));
        }
        assert(s1 =~= s2);
    } else {
        assert(s1.contains(s1[0]));
        let p = choose|p: int| 0 <= p < s2.len() && s2[p] == s1[0];
        assert(s2.contains(s2[0]));
        let q = choose|q: int| 0 <= q < s1.len() && s1[q] == s2[0];
        if p > 0 {
            assert(seq_lt(s2[0], s2[p]));
            if q > 0 {
                assert(seq_lt(s1[0], s1[q]));
                lemma_seq_lt_asymmetric(s1[0], s2[0]);
            } else {
                lemma_seq_lt_irreflexive(s1[0]);
            }
        }
        let r1 = s1.drop_first();
        let r2 = s2.drop_first();
        assert forall|i: int, j: int| 0 <= i < j < r1.len() implies seq_lt(#[trigger] r1[i], #[trigger] r1[j]) by {
            assert(r1[i] == s1[i + 1] && r1[j] == s1[j + 1]);
        }
        assert forall|i: int, j: int| 0 <= i < j < r2.len() implies seq_lt(#[trigger] r2[i], #[trigger] r2[j]) by {
            assert(r2[i] == s2[i + 1] && r2[j] == s2[j + 1]);
        }
        assert forall|e: Seq<char>| r1.contains(e) <==> r2.contains(e) by {
            if r1.contains(e) {
                let i = choose|i: int| 0 <= i < r1.len() && r1[i] == e;
                assert(s1[i + 1] == e);
                assert(seq_lt(s1[0], s1[i + 1]));
                lemma_seq_lt_irreflexive(e);
                assert(s1.contains(e));
                let k = choose|k: int| 0 <= k < s2.len() && s2[k] == e;
                assert(k != 0);
                assert(r2[k - 1] == e);
            }
            if r2.contains(e) {
                let i = choose|i: int| 0 <= i < r2.len() && r2[i] == e;
                assert(s2[i + 1] == e);
                assert(seq_lt(s2[0], s2[i + 1]));
                lemma_seq_lt_irreflexive(e);
                assert(s2.contains(e));
                let k = choose|k: int| 0 <= k < s1.len() && s1[k] == e;
                assert(k != 0);
                assert(r1[k - 1] == e);
            }
        }
        lemma_increasing_unique(r1, r2);
        assert forall|i: int| 0 <= i < s1.len() implies s1[i] == s2[i] by {
            if i > 0 {
                assert(s1[i] == r1[i - 1] && s2[i] == r2[i - 1]);
            }
        }
        assert(s1 =~= s2);
    }
}

/// A sorted, strictly ordered list has no repeated item.
proof fn lemma_sorted_distinct(keys: Seq<(u8, Seq<char>)>, o: Seq<usize>)
    requires
        strictly_sorted(keys, o),
    ensures
        o.no_duplicates(),
{
    assert forall|a: int, b: int| 0 <= a < b < o.len() implies o[a] != o[b] by {
        assert(key_lt(keys, o[a] as int, o[b] as int));
        lemma_key_lt_order(keys, o[a] as int, o[a] as int, 0);
    }
}

/// Some item of `s` has the text `e`.
pub open spec fn holds_text(s: Seq<String>, e: Seq<char>) -> bool {
    exists|i: int| 0 <= i < s.len() && (#[trigger] s[i])@ == e
}

/// One of the first `k` extras recorded is `e` for the package `n`.
pub open spec fn extras_upto(g: ResolutionGraph, n: Seq<char>, k: int, e: Seq<char>) -> bool {
    exists|j: int| 0 <= j < k && (#[trigger] g.extras@[j]).0@ == n && g.extras@[j].1@ == e
}

/// The packages that asked for node `x`, sorted by name.
fn requesters(g: &ResolutionGraph, x: usize) -> (r: Vec<usize>)
    ensures
        r@ == choose|o: Seq<usize>| is_requester_order(*g, x, o),
        is_requester_order(*g, x, r@),
{
    let mut keys: Vec<(u8, String)> = Vec::new();
    let mut y: usize = 0;
    while y < g.nodes.len()
        invariant
            y <= g.nodes.len(),
            keys.len() == y,
            forall|k: int| 0 <= k < y ==> #[trigger] key_views(keys@)[k] == name_keys(*g)[k],
        decreases g.nodes.len() - y,
    {
        let ghost k0 = keys@;
        keys.push((0u8, g.nodes[y].dist.name().clone()));
        proof {
            assert forall|k: int| 0 <= k < y + 1 implies #[trigger] key_views(keys@)[k] == name_keys(*g)[k] by {
                if k < y {
                    assert(keys@[k] == k0[k]);
                    assert(key_views(k0)[k] == name_keys(*g)[k]);
                }
            }
        }
        y = y + 1;
    }
    let mut items: Vec<usize> = Vec::new();
    let mut e: usize = 0;
    while e < g.edges.len()
        invariant
            e <= g.edges.len(),
            items@.no_duplicates(),
            forall|k: int| 0 <= k < items.len() ==> #[trigger] items@[k] < g.nodes.len(),
            forall|z: usize| items@.contains(z) <==> (z < g.nodes.len() && exists|f: int| 0 <= f < e && (#[trigger] g.edges@[f]).to == x && g.edges@[f].from == z),
        decreases g.edges.len() - e,
    {
        let edge = &g.edges[e];
        let ghost it0 = items@;
        if edge.to == x && edge.from < g.nodes.len() {
            let mut k: usize = 0;
            let mut seen = false;
            while k < items.len() && !seen
                invariant
                    k <= items.len(),
                    seen ==> k < items.len() && items@[k as int] == edge.from,
                    forall|j: int| 0 <= j < k ==> items@[j] != edge.from,
                decreases items.len() - k, if seen { 0int } else { 1int },
            {
                if items[k] == edge.from {
                    seen = true;
                } else {
                    k = k + 1;
                }
            }
            if !seen {
                items.push(edge.from);
            } else {
                assert(it0[k as int] == edge.from);
            }
        }
        proof {
            assert(edge.to == x && edge.from < g.nodes.len() ==> items@.contains(edge.from)) by {
                if edge.to == x && edge.from < g.nodes.len() {
                    if it0.contains(edge.from) {
                        let j = choose|j: int| 0 <= j < it0.len() && it0[j] == edge.from;
                        assert(items@[j] == edge.from);
                    } else {
                        assert(items@[it0.len() as int] == edge.from);
                    }
                }
            }
            assert forall|z: usize| items@.contains(z) <==> (z < g.nodes.len() && exists|f: int| 0 <= f < e + 1 && (#[trigger] g.edges@[f]).to == x && g.edges@[f].from == z) by {
                if items@.contains(z) && !it0.contains(z) {
                    assert(z == edge.from);
                    assert(g.edges@[e as int].to == x);
                }
                if it0.contains(z) {
                    let j = choose|j: int| 0 <= j < it0.len() && it0[j] == z;
                    assert(items@[j] == z);
                }
                if z < g.nodes.len() && exists|f: int| 0 <= f < e + 1 && (#[trigger] g.edges@[f]).to == x && g.edges@[f].from == z {
                    let f = choose|f: int| 0 <= f < e + 1 && (#[trigger] g.edges@[f]).to == x && g.edges@[f].from == z;
                    if f < e {
                        assert(it0.contains(z));
                        let j = choose|j: int| 0 <= j < it0.len() && it0[j] == z;
                        assert(items@[j] == z);
                    }
                }
            }
            assert forall|k: int| 0 <= k < items.len() implies #[trigger] items@[k] < g.nodes.len() by {
                if k < it0.len() {
                    assert(items@[k] == it0[k]);
                }
            }
            assert(items@.no_duplicates()) by {
                assert forall|a: int, b: int| 0 <= a < b < items.len() implies items@[a] != items@[b] by {
                    if b >= it0.len() {
                        assert(items@[b] == edge.from);
                        assert(items@[a] == it0[a]);
                    } else {
                        assert(items@[a] == it0[a] && items@[b] == it0[b]);
                    }
                }
            }
        }
        e = e + 1;
    }
    proof {
        assert(key_views(keys@) =~= name_keys(*g));
    }
    let o = sort_indices(&keys, &items);
    proof {
        assert forall|z: usize| o@.contains(z) <==> requests(*g, z, x) by {
            assert(o@.to_set().contains(z) == items@.to_set().contains(z));
        }
        assert(is_requester_order(*g, x, o@));
        let c = choose|o: Seq<usize>| is_requester_order(*g, x, o);
        assert(is_requester_order(*g, x, c));
        assert(o@.to_set() =~= c.to_set()) by {
            assert forall|z: usize| o@.to_set().contains(z) <==> c.to_set().contains(z) by {
                assert(o@.contains(z) <==> requests(*g, z, x));
                assert(c.contains(z) <==> requests(*g, z, x));
            }
        }
        lemma_sorted_unique(name_keys(*g), o@, c);
    }
    o
}

/// The extras of the package `name`, sorted, each once.
fn shown_extras(g: &ResolutionGraph, name: &str) -> (r: Vec<String>)
    ensures
        r.len() == extras_shown(*g, name@).len(),
        forall|i: int| 0 <= i < r.len() ==> (#[trigger] r@[i])@ == extras_shown(*g, name@)[i],
{
    let mut found: Vec<String> = Vec::new();
    let mut k: usize = 0;
    while k < g.extras.len()
        invariant
            k <= g.extras.len(),
            forall|e: Seq<char>| #[trigger] holds_text(found@, e) <==> extras_upto(*g, name@, k as int, e),
        decreases g.extras.len() - k,
    {
        let ghost f0 = found@;
        let hit = str_eq(g.extras[k].0.as_str(), name);
        if hit {
            found.push(g.extras[k].1.clone());
        }
        proof {
            assert forall|e: Seq<char>| #[trigger] holds_text(found@, e) <==> extras_upto(*g, name@, k + 1, e) by {
                if holds_text(found@, e) {
                    let i = choose|i: int| 0 <= i < found.len() && (#[trigger] found@[i])@ == e;
                    if i < f0.len() {
                        assert(f0[i] == found@[i]);
                        assert(holds_text(f0, e));
                        let j = choose|j: int| 0 <= j < k && (#[trigger] g.extras@[j]).0@ == name@ && g.extras@[j].1@ == e;
                        assert(j < k + 1);
                    } else {
                        assert(g.extras@[k as int].0@ == name@ && g.extras@[k as int].1@ == e);
                    }
                }
                if extras_upto(*g, name@, k + 1, e) {
                    let j = choose|j: int| 0 <= j < k + 1 && (#[trigger] g.extras@[j]).0@ == name@ && g.extras@[j].1@ == e;
                    if j < k {
                        assert(extras_upto(*g, name@, k as int, e));
                        assert(holds_text(f0, e));
                        let i = choose|i: int| 0 <= i < f0.len() && (#[trigger] f0[i])@ == e;
                        assert(found@[i] == f0[i]);
                    } else {
                        assert(found@[f0.len() as int]@ == e);
                    }
                }
            }
        }
        k = k + 1;
    }
    let sorted = crate::graph::sorted_copy(&found);
    let mut out: Vec<String> = Vec::new();
    let mut i: usize = 0;
    while i < sorted.len()
        invariant
            i <= sorted.len(),
            crate::graph::sorted_texts(sorted@),
            out.len() <= i,
            out.len() > 0 ==> i > 0 && out@[out.len() - 1]@ == sorted@[i - 1]@,
            forall|a: int, b: int| 0 <= a < b < out.len() ==> seq_lt((#[trigger] out@[a])@, (#[trigger] out@[b])@),
            forall|a: int| 0 <= a < out.len() ==> !seq_lt(sorted@[i - 1]@, (#[trigger] out@[a])@),
            forall|e: Seq<char>| #[trigger] holds_text(out@, e) <==> holds_text(sorted@.take(i as int), e),
        decreases sorted.len() - i,
    {
        let ghost o0 = out@;
        let fresh = out.len() == 0 || !str_eq(out[out.len() - 1].as_str(), sorted[i].as_str());
        if fresh {
            out.push(sorted[i].clone());
        }
        proof {
            if i > 0 {
                assert(!seq_lt(sorted@[i as int]@, sorted@[i - 1]@));
            }
            assert forall|a: int, b: int| 0 <= a < b < out.len() implies seq_lt((#[trigger] out@[a])@, (#[trigger] out@[b])@) by {
                if b == o0.len() && fresh {
                    assert(out@[a] == o0[a]);
                    assert(!seq_lt(sorted@[i - 1]@, o0[a]@));
                    lemma_seq_lt_total(o0[a]@, sorted@[i - 1]@);
                    lemma_seq_lt_total(sorted@[i - 1]@, sorted@[i as int]@);
                    if seq_lt(o0[a]@, sorted@[i - 1]@) && seq_lt(sorted@[i - 1]@, sorted@[i as int]@) {
                        lemma_seq_lt_transitive(o0[a]@, sorted@[i - 1]@, sorted@[i as int]@);
                    }
                    if a == o0.len() - 1 {
                        assert(o0[a]@ == sorted@[i - 1]@);
                    }
                } else {
                    assert(out@[a] == o0[a] && out@[b] == o0[b]);
                }
            }
            assert forall|a: int| 0 <= a < out.len() implies !seq_lt(sorted@[i as int]@, (#[trigger] out@[a])@) by {
                if a < o0.len() {
                    assert(out@[a] == o0[a]);
                    assert(!seq_lt(sorted@[i - 1]@, o0[a]@));
                    lemma_seq_lt_total(sorted@[i - 1]@, sorted@[i as int]@);
                    if seq_lt(sorted@[i - 1]@, sorted@[i as int]@) && seq_lt(sorted@[i as int]@, o0[a]@) {
                        lemma_seq_lt_transitive(sorted@[i - 1]@, sorted@[i as int]@, o0[a]@);
                    }
                } else {
                    lemma_seq_lt_irreflexive(sorted@[i as int]@);
                }
            }
            let t0 = sorted@.take(i as int);
            let t1 = sorted@.take(i + 1);
            assert forall|e: Seq<char>| #[trigger] holds_text(out@, e) <==> holds_text(t1, e) by {
                if holds_text(out@, e) {
                    let a = choose|a: int| 0 <= a < out.len() && (#[trigger] out@[a])@ == e;
                    if a < o0.len() {
                        assert(o0[a] == out@[a]);
                        assert(holds_text(o0, e));
                        assert(holds_text(t0, e));
                        let b = choose|b: int| 0 <= b < t0.len() && (#[trigger] t0[b])@ == e;
                        assert(t1[b] == t0[b]);
                    } else {
                        assert(t1[i as int]@ == e);
                    }
                }
                if holds_text(t1, e) {
                    let b = choose|b: int| 0 <= b < t1.len() && (#[trigger] t1[b])@ == e;
                    if b < i {
                        assert(t0[b] == t1[b]);
                        assert(holds_text(t0, e));
                        assert(holds_text(o0, e));
                        let a = choose|a: int| 0 <= a < o0.len() && (#[trigger] o0[a])@ == e;
                        assert(out@[a] == o0[a]);
                    } else if fresh {
                        assert(out@[o0.len() as int]@ == e);
                    } else {
                        assert(out@[o0.len() - 1]@ == e);
                    }
                }
            }
        }
        i = i + 1;
    }
    proof {
        let s = Seq::new(out.len() as nat, |a: int| out@[a]@);
        assert(sorted@.take(i as int) =~= sorted@);
        let perm = choose|o: Seq<usize>|
            o.len() == sorted@.len() && o.no_duplicates() && (forall|k: int| 0 <= k < o.len() ==> #[trigger] o[k] < found@.len())
                && (forall|f: int| 0 <= f < found@.len() ==> #[trigger] o.contains(f as usize))
                && (forall|k: int| 0 <= k < sorted@.len() ==> (#[trigger] sorted@[k])@ == found@[o[k] as int]@);
        assert(strictly_increasing(s));
        assert forall|e: Seq<char>| s.contains(e) <==> extra_of(*g, name@, e) by {
            if s.contains(e) {
                let a = choose|a: int| 0 <= a < s.len() && s[a] == e;
                assert(out@[a]@ == e);
                assert(holds_text(out@, e));
                assert(holds_text(sorted@, e));
                let b = choose|b: int| 0 <= b < sorted.len() && (#[trigger] sorted@[b])@ == e;
                assert(found@[perm[b] as int]@ == e);
                assert(holds_text(found@, e));
                assert(extras_upto(*g, name@, g.extras.len() as int, e));
            }
            if extra_of(*g, name@, e) {
                assert(extras_upto(*g, name@, g.extras.len() as int, e));
                assert(holds_text(found@, e));
                let f = choose|f: int| 0 <= f < found.len() && (#[trigger] found@[f])@ == e;
                assert(perm.contains(f as usize));
                let b = choose|b: int| 0 <= b < perm.len() && perm[b] == f as usize;
                assert(sorted@[b]@ == e);
                assert(holds_text(sorted@, e));
                assert(holds_text(out@, e));
                let a = choose|a: int| 0 <= a < out.len() && (#[trigger] out@[a])@ == e;
                assert(s[a] == e);
            }
        }
        let c = extras_shown(*g, name@);
        assert(strictly_increasing(c) && forall|e: Seq<char>| c.contains(e) <==> extra_of(*g, name@, e));
        lemma_increasing_unique(s, c);
    }
    out
}

impl<'a> DisplayResolutionGraph<'a> {
    pub fn new(
        underlying: &'a ResolutionGraph,
        no_emit_packages: &'a [String],
        show_hashes: bool,
        include_extras: bool,
        include_annotations: bool,
        annotation_style: AnnotationStyle,
    ) -> (r: DisplayResolutionGraph<'a>)
        ensures
            r.resolution == underlying,
            r.no_emit_packages == no_emit_packages,
            r.show_hashes == show_hashes,
            r.include_extras == include_extras,
            r.include_annotations == include_annotations,
            r.annotation_style == annotation_style,
    {
        DisplayResolutionGraph {
            resolution: underlying,
            no_emit_packages,
            show_hashes,
            include_extras,
            include_annotations,
            annotation_style,
        }
    }

    /// Writes every package, with annotations in the split style, without
    /// hashes or extras.
    pub fn from(resolution: &'a ResolutionGraph) -> (r: DisplayResolutionGraph<'a>)
        ensures
            r.resolution == resolution,
            r.no_emit_packages@.len() == 0,
            !r.show_hashes,
            !r.include_extras,
            r.include_annotations,
            r.annotation_style == AnnotationStyle::Split,
    {
        let none: &'a [String] = &[];
        Self::new(resolution, none, false, false, true, AnnotationStyle::Split)
    }

    /// The nodes to write, in order.
    fn order(&self) -> (r: Vec<usize>)
        ensures
            r@ == node_order(*self),
            is_node_order(*self, r@),
    {
        let g = self.resolution;
        let mut keys: Vec<(u8, String)> = Vec::new();
        let mut items: Vec<usize> = Vec::new();
        let mut x: usize = 0;
        while x < g.nodes.len()
            invariant
                g == self.resolution,
                x <= g.nodes.len(),
                keys.len() == x,
                forall|k: int| 0 <= k < x ==> #[trigger] key_views(keys@)[k] == node_keys(*g)[k],
                forall|k: int| 0 <= k < items.len() ==> #[trigger] items@[k] < x,
                forall|a: int, b: int| 0 <= a < b < items.len() ==> #[trigger] items@[a] < #[trigger] items@[b],
                forall|y: usize| y < x ==> (items@.contains(y) <==> is_emitted(*self, y)),
            decreases g.nodes.len() - x,
        {
            let name = g.nodes[x].dist.name();
            let key = match g.editables.get(name.as_str()) {
                Some(e) => (0u8, e.0.url.verbatim().clone()),
                None => (1u8, name.clone()),
            };
            let ghost k0 = keys@;
            keys.push(key);
            proof {
                assert forall|k: int| 0 <= k < x + 1 implies #[trigger] key_views(keys@)[k] == node_keys(*g)[k] by {
                    if k < x {
                        assert(keys@[k] == k0[k]);
                        assert(key_views(k0)[k] == node_keys(*g)[k]);
                    }
                }
            }
            let mut k: usize = 0;
            let mut skip = false;
            while k < self.no_emit_packages.len() && !skip
                invariant
                    k <= self.no_emit_packages.len(),
                    skip ==> k < self.no_emit_packages.len() && self.no_emit_packages@[k as int]@ == name@,
                    forall|j: int| 0 <= j < k ==> (#[trigger] self.no_emit_packages@[j])@ != name@,
                decreases self.no_emit_packages.len() - k, if skip { 0int } else { 1int },
            {
                if str_eq(self.no_emit_packages[k].as_str(), name.as_str()) {
                    skip = true;
                } else {
                    k = k + 1;
                }
            }
            let ghost it0 = items@;
            if !skip {
                items.push(x);
            }
            proof {
                assert forall|y: usize| y < x + 1 implies (items@.contains(y) <==> is_emitted(*self, y)) by {
                    if y < x {
                        assert(it0.contains(y) <==> is_emitted(*self, y));
                        if it0.contains(y) {
                            let j = choose|j: int| 0 <= j < it0.len() && it0[j] == y;
                            assert(items@[j] == y);
                        }
                        if items@.contains(y) {
                            let j = choose|j: int| 0 <= j < items@.len() && items@[j] == y;
                            assert(j < it0.len());
                            assert(it0[j] == y);
                        }
                    } else {
                        if skip {
                            assert(self.no_emit_packages@[k as int]@ == node_name(*g, x as int));
                            assert(!it0.contains(y));
                        } else {
                            assert(k == self.no_emit_packages.len());
                            assert(name@ == node_name(*g, x as int));
                            assert(items@[it0.len() as int] == y);
                            assert(y == x);
                            assert(node_name(*self.resolution, y as int) == name@);
                            assert(!exists|j: int| 0 <= j < self.no_emit_packages.len() && (#[trigger] self.no_emit_packages@[j])@ == node_name(*self.resolution, y as int)) by {
                                if exists|j: int| 0 <= j < self.no_emit_packages.len() && (#[trigger] self.no_emit_packages@[j])@ == node_name(*self.resolution, y as int) {
                                    let j = choose|j: int| 0 <= j < self.no_emit_packages.len() && (#[trigger] self.no_emit_packages@[j])@ == node_name(*self.resolution, y as int);
                                    assert(self.no_emit_packages@[j]@ != name@);
                                }
                            }
                            assert(is_emitted(*self, y));
                        }
                    }
                }
            }
            x = x + 1;
        }
        proof {
            assert(key_views(keys@) =~= node_keys(*g));
            assert(items@.no_duplicates()) by {
                assert forall|a: int, b: int| 0 <= a < b < items.len() implies items@[a] != items@[b] by {
                    assert(items@[a] < items@[b]);
                }
            }
        }
        let o = sort_indices(&keys, &items);
        proof {
            assert forall|y: usize| o@.contains(y) <==> is_emitted(*self, y) by {
                assert(o@.to_set().contains(y) == items@.to_set().contains(y));
                if items@.contains(y) {
                    let j = choose|j: int| 0 <= j < items.len() && items@[j] == y;
                    assert(y < x);
                }
            }
            assert(is_node_order(*self, o@));
            let c = node_order(*self);
            assert(is_node_order(*self, c));
            assert(o@.to_set() =~= c.to_set()) by {
                assert forall|y: usize| o@.to_set().contains(y) <==> c.to_set().contains(y) by {
                    assert(o@.contains(y) <==> is_emitted(*self, y));
                    assert(c.contains(y) <==> is_emitted(*self, y));
                }
            }
            lemma_sorted_unique(node_keys(*g), o@, c);
        }
        o
    }
}

/// The texts `prefix + name of node o[i]`, joined by `sep`.
pub open spec fn prefixed_names(g: ResolutionGraph, o: Seq<usize>, prefix: Seq<char>) -> Seq<Seq<char>> {
    Seq::new(o.len(), |i: int| prefix + node_name(g, o[i] as int))
}

fn write_names(g: &ResolutionGraph, o: &Vec<usize>, prefix: &str, sep: &str, out: &mut String)
    requires
        forall|i: int| 0 <= i < o.len() ==> #[trigger] o@[i] < g.nodes.len(),
    ensures
        final(out)@ == old(out)@ + join(prefixed_names(*g, o@, prefix@), sep@),
{
    let mut i: usize = 0;
    assert(prefixed_names(*g, o@.take(0), prefix@) =~= Seq::<Seq<char>>::empty());
    while i < o.len()
        invariant
            i <= o.len(),
            forall|k: int| 0 <= k < o.len() ==> #[trigger] o@[k] < g.nodes.len(),
            out@ == old(out)@ + join(prefixed_names(*g, o@.take(i as int), prefix@), sep@),
        decreases o.len() - i,
    {
        let ghost before = out@;
        if i > 0 {
            out.append(sep);
        }
        out.append(prefix);
        out.append(g.nodes[o[i]].dist.name().as_str());
        proof {
            let grown = prefixed_names(*g, o@.take(i + 1), prefix@);
            assert(grown.drop_last() =~= prefixed_names(*g, o@.take(i as int), prefix@));
            assert(grown.last() == prefix@ + node_name(*g, o@[i as int] as int));
        }
        i = i + 1;
        assert(out@ =~= old(out)@ + join(prefixed_names(*g, o@.take(i as int), prefix@), sep@));
    }
    assert(o@.take(i as int) =~= o@);
}

fn write_texts(xs: &Vec<String>, sep: &str, out: &mut String)
    ensures
        final(out)@ == old(out)@ + join(Seq::new(xs.len() as nat, |i: int| xs@[i]@), sep@),
{
    let mut i: usize = 0;
    while i < xs.len()
        invariant
            i <= xs.len(),
            out@ == old(out)@ + join(Seq::new(i as nat, |k: int| xs@[k]@), sep@),
        decreases xs.len() - i,
    {
        if i > 0 {
            out.append(sep);
        }
        out.append(xs[i].as_str());
        proof {
            let grown = Seq::new((i + 1) as nat, |k: int| xs@[k]@);
            assert(grown.drop_last() =~= Seq::new(i as nat, |k: int| xs@[k]@));
        }
        i = i + 1;
        assert(out@ =~= old(out)@ + join(Seq::new(i as nat, |k: int| xs@[k]@), sep@));
    }
}

fn write_hashes(hs: &Vec<String>, out: &mut String)
    ensures
        final(out)@ == old(out)@ + hashes_text(hs@),
{
    let mut i: usize = 0;
    while i < hs.len()
        invariant
            i <= hs.len(),
            out@ == old(out)@ + hashes_text(hs@.take(i as int)),
        decreases hs.len() - i,
    {
        out.append(" \\\n    --hash=");
        out.append(hs[i].as_str());
        proof {
            assert(hs@.take(i + 1).drop_last() =~= hs@.take(i as int));
        }
        i = i + 1;
        assert(out@ =~= old(out)@ + hashes_text(hs@.take(i as int)));
    }
    assert(hs@.take(i as int) =~= hs@);
}

impl<'a> DisplayResolutionGraph<'a> {
    fn write_verbatim(&self, x: usize, out: &mut String)
        requires
            x < self.resolution.nodes.len(),
        ensures
            final(out)@ == old(out)@ + verbatim_text(*self, x as int),
    {
        let g = self.resolution;
        let dist = &g.nodes[x].dist;
        let name = dist.name();
        if let Some(e) = g.editables.get(name.as_str()) {
            out.append("-e ");
            out.append(e.0.url.verbatim().as_str());
            return;
        }
        let xs = if self.include_extras {
            shown_extras(g, name.as_str())
        } else {
            Vec::new()
        };
        let ghost xv = if self.include_extras { extras_shown(*g, name@) } else { seq![] };
        proof {
            assert(Seq::new(xs.len() as nat, |i: int| xs@[i]@) =~= xv);
        }
        if xs.len() == 0 {
            let t = dist.to_string();
            out.append(t.as_str());
        } else {
            out.append(name.as_str());
            out.append("[");
            write_texts(&xs, ", ", out);
            out.append("]");
            dist.write_version_or_url(out);
        }
        let ghost mid = out@;
        match dist {
            ResolvedDist::Registry { name: n, version } => {
                match find_versioned(&g.markers, n.as_str(), version) {
                    Some(k) => {
                        out.append(" # ");
                        g.markers[k].1.1.write_to(out);
                    },
                    None => {},
                }
            },
            _ => {},
        }
        assert(out@ =~= old(out)@ + verbatim_text(*self, x as int));
    }

    /// The block for node `x`.
    fn write_block(&self, x: usize, out: &mut String)
        requires
            x < self.resolution.nodes.len(),
        ensures
            final(out)@ == old(out)@ + block_text(*self, x),
    {
        let g = self.resolution;
        let name = g.nodes[x].dist.name();
        let mut line = String::new();
        self.write_verbatim(x, &mut line);
        let mut has_hashes = false;
        if self.show_hashes {
            if let Some(k) = find_key(&g.hashes, name.as_str()) {
                if g.hashes[k].1.len() > 0 {
                    has_hashes = true;
                    write_hashes(&g.hashes[k].1, &mut line);
                }
            }
        }
        assert(has_hashes == shows_hashes(*self, x as int));
        assert(line@ == line_text(*self, x as int));
        let ghost rs = requester_names(*g, x);
        let mut comment = String::new();
        let mut sep: &str = "";
        let mut annotated = false;
        if self.include_annotations {
            let o = requesters(g, x);
            proof {
                let c = choose|o: Seq<usize>| is_requester_order(*g, x, o);
                assert(rs =~= Seq::new(o@.len(), |i: int| node_name(*g, o@[i] as int)));
                assert forall|i: int| 0 <= i < o.len() implies #[trigger] o@[i] < g.nodes.len() by {
                    assert(o@.contains(o@[i]));
                    assert(requests(*g, o@[i], x));
                }
                reveal_strlit("");
                assert(prefixed_names(*g, o@, ""@) =~= rs);
            }
            if o.len() > 0 {
                annotated = true;
                let mut text = String::new();
                match self.annotation_style {
                    AnnotationStyle::Line => {
                        sep = if has_hashes { "\n    " } else { "  " };
                        text.append("# via ");
                        write_names(g, &o, "", ", ", &mut text);
                    },
                    AnnotationStyle::Split => {
                        sep = "\n";
                        if o.len() == 1 {
                            text.append("    # via ");
                            text.append(g.nodes[o[0]].dist.name().as_str());
                        } else {
                            text.append("    # via\n");
                            write_names(g, &o, "    #   ", "\n", &mut text);
                            proof {
                                assert(prefixed_names(*g, o@, "    #   "@) =~= Seq::new(rs.len(), |i: int| "    #   "@ + rs[i]));
                            }
                        }
                    },
                }
                push_green(&mut comment, text.as_str());
            }
        }
        if annotated {
            let ghost ann = annotation(*self, x)->0;
            assert(sep@ == ann.0);
            assert(comment@ =~= ann.1);
            let mut block = String::new();
            push_padded(&mut block, line.as_str(), 24);
            block.append(sep);
            block.append(comment.as_str());
            push_trimmed_lines(out, block.as_str());
        } else {
            assert(annotation(*self, x) is None);
            out.append(line.as_str());
            out.append("\n");
            proof {
                reveal_strlit("\n");
            }
            assert(out@ =~= old(out)@ + block_text(*self, x));
        }
    }

    /// The lockfile: the blocks of the written nodes, editables first (by
    /// URL), then the others by name.
    pub fn render(&self) -> (r: String)
        ensures
            r@ == render_text(*self),
    {
        let o = self.order();
        let mut out = String::new();
        let mut i: usize = 0;
        proof {
            assert(o@.take(0) =~= Seq::<usize>::empty());
        }
        while i < o.len()
            invariant
                i <= o.len(),
                o@ == node_order(*self),
                is_node_order(*self, o@),
                out@ == blocks_text(*self, o@.take(i as int)),
            decreases o.len() - i,
        {
            proof {
                assert(o@.contains(o@[i as int]));
                assert(o@.take(i + 1).drop_last() =~= o@.take(i as int));
            }
            self.write_block(o[i], &mut out);
            i = i + 1;
        }
        proof {
            assert(o@.take(i as int) =~= o@);
        }
        out
    }
}

/// Rendering is a function of the graph and the options alone: the same
/// display renders to the same text.
pub proof fn lemma_render_deterministic(d: DisplayResolutionGraph, e: DisplayResolutionGraph)
    requires
        d == e,
    ensures
        render_text(d) == render_text(e),
{
}

} // verus!

use uv_resolver::display::{AnnotationStyle, DisplayResolutionGraph};
use uv_resolver::dist::{apply_redirect, Diagnostic, LocalEditable, ResolvedDist, VerbatimUrl};
use uv_resolver::graph::{ResolutionGraph, ResolveError};
use uv_resolver::input::{
    Editables, FilePins, InMemoryIndex, Manifest, Metadata, PackageId, Preferences, Requirement,
    Resolution, ResolutionDependency, VersionMap, VersionsResponse,
};
use uv_resolver::marker::{
    MarkerEnvironment, MarkerExpression, MarkerOperator, MarkerTree, MarkerValue,
    MarkerValueString, MarkerValueVersion,
};
use uv_resolver::package::{PubGrubPackage, PubGrubPython, Urls};
use uv_resolver::version::{Version, VersionRange};

fn v(segments: &[u64]) -> Version {
    Version::new(segments.to_vec())
}

fn s(text: &str) -> String {
    text.to_string()
}

fn pkg(name: &str, extra: Option<&str>, url: Option<&str>) -> PubGrubPackage {
    PubGrubPackage::Package {
        name: s(name),
        extra: extra.map(s),
        marker: None,
        url: url.map(|u| VerbatimUrl::new(s(u))),
    }
}

fn registry(name: &str, version: &[u64]) -> ResolvedDist {
    ResolvedDist::Registry { name: s(name), version: v(version) }
}

fn pin(name: &str, version: &[u64]) -> (String, (Version, ResolvedDist)) {
    (s(name), (v(version), registry(name, version)))
}

fn metadata(extras: &[&str]) -> Metadata {
    Metadata { provides_extras: extras.iter().map(|e| s(e)).collect(), requires_dist: vec![] }
}

fn empty_index() -> InMemoryIndex {
    InMemoryIndex { packages: vec![], distributions: vec![], redirects: vec![] }
}

fn no_prefs() -> Preferences {
    Preferences { hashes: vec![] }
}

fn no_editables() -> Editables {
    Editables { entries: vec![] }
}

fn build(
    packages: Vec<(PubGrubPackage, Version)>,
    dependencies: Vec<ResolutionDependency>,
    pins: Vec<(String, (Version, ResolvedDist))>,
    index: &InMemoryIndex,
) -> Result<ResolutionGraph, ResolveError> {
    let resolution = Resolution { packages, dependencies, pins: FilePins { entries: pins } };
    ResolutionGraph::from_state(index, &no_prefs(), no_editables(), resolution)
}

fn render(g: &ResolutionGraph, hashes: bool, extras: bool, annotations: bool, style: AnnotationStyle) -> String {
    let none: Vec<String> = vec![];
    DisplayResolutionGraph::new(g, &none, hashes, extras, annotations, style).render()
}

fn env() -> MarkerEnvironment {
    MarkerEnvironment {
        implementation_name: s("cpython"),
        implementation_version: s("3.11.4"),
        os_name: s("posix"),
        platform_machine: s("x86_64"),
        platform_python_implementation: s("CPython"),
        platform_release: s("6.1"),
        platform_system: s("Linux"),
        platform_version: s("#1"),
        python_full_version: s("3.11.4"),
        python_version: s("3.11"),
        sys_platform: s("linux"),
    }
}

fn expr(l: MarkerValue, op: MarkerOperator, r: MarkerValue) -> MarkerTree {
    MarkerTree::Expression(MarkerExpression { l_value: l, operator: op, r_value: r })
}

#[test]
fn single_package_no_deps() {
    let index = empty_index();
    let g = build(vec![(pkg("a", None, None), v(&[1, 0]))], vec![], vec![pin("a", &[1, 0])], &index).unwrap();
    assert_eq!(g.len(), 1);
    assert!(!g.is_empty());
    assert!(g.contains("a"));
    assert!(!g.contains("b"));
    assert_eq!(render(&g, false, false, false, AnnotationStyle::Split), "a==1.0\n");
}

#[test]
fn extra_folding() {
    let mut index = empty_index();
    index.distributions.push((PackageId::Registry { name: s("a"), version: v(&[1, 0]) }, metadata(&["x"])));
    let g = build(
        vec![(pkg("a", None, None), v(&[1, 0])), (pkg("a", Some("x"), None), v(&[1, 0]))],
        vec![],
        vec![pin("a", &[1, 0])],
        &index,
    )
    .unwrap();
    assert_eq!(g.len(), 1);
    assert_eq!(g.extras, vec![(s("a"), s("x"))]);
    assert!(g.diagnostics().is_empty());
    assert_eq!(render(&g, false, true, false, AnnotationStyle::Split), "a[x]==1.0\n");
    assert_eq!(render(&g, false, false, false, AnnotationStyle::Split), "a==1.0\n");
}

#[test]
fn missing_extra_diagnostic() {
    let mut index = empty_index();
    index.distributions.push((PackageId::Registry { name: s("a"), version: v(&[1, 0]) }, metadata(&[])));
    let g = build(
        vec![(pkg("a", None, None), v(&[1, 0])), (pkg("a", Some("x"), None), v(&[1, 0]))],
        vec![],
        vec![pin("a", &[1, 0])],
        &index,
    )
    .unwrap();
    assert_eq!(g.len(), 1);
    assert!(g.extras.is_empty());
    assert_eq!(g.diagnostics().len(), 1);
    let d = &g.diagnostics()[0];
    assert_eq!(d.message(), "The package `a==1.0` does not have an extra named `x`.");
    assert!(d.includes("a"));
    assert!(!d.includes("b"));
    match d {
        Diagnostic::MissingExtra { dist, extra } => {
            assert_eq!(dist.to_string(), "a==1.0");
            assert_eq!(extra, "x");
        }
    }
}

#[test]
fn range_union() {
    let index = empty_index();
    let deps = vec![
        ResolutionDependency {
            from: s("b"),
            to: s("a"),
            ranges: vec![VersionRange::between(v(&[1]), v(&[2]))],
        },
        ResolutionDependency { from: s("b"), to: s("a"), ranges: vec![VersionRange::higher_than(v(&[1, 2]))] },
    ];
    let g = build(
        vec![(pkg("a", None, None), v(&[1, 5])), (pkg("b", None, None), v(&[1, 0]))],
        deps,
        vec![pin("a", &[1, 5]), pin("b", &[1, 0])],
        &index,
    )
    .unwrap();
    assert_eq!(g.edges.len(), 1);
    let edge = &g.edges[0];
    assert_eq!((edge.from, edge.to), (1, 0));
    for yes in [&[1u64][..], &[1, 0], &[1, 1], &[1, 2], &[1, 9], &[2], &[7, 3]] {
        assert!(edge.range.contains(&v(yes)), "{:?}", yes);
    }
    for no in [&[0u64][..], &[0, 9], &[0, 99, 1]] {
        assert!(!edge.range.contains(&v(no)), "{:?}", no);
    }
}

#[test]
fn url_precedence_and_redirect() {
    let mut index = empty_index();
    index.redirects.push((s("https://u/a.tgz"), s("https://u/a.tgz#sha=precise")));
    let urls = Urls { entries: vec![(s("a"), VerbatimUrl::new(s("https://u/a.tgz")))] };
    let package = PubGrubPackage::from_package(s("a"), None, None, &urls);
    let g = build(vec![(package, v(&[1, 0]))], vec![], vec![], &index).unwrap();
    assert_eq!(g.len(), 1);
    match &g.nodes[0].dist {
        ResolvedDist::Url { name, url } => {
            assert_eq!(name, "a");
            assert_eq!(url.raw(), "https://u/a.tgz#sha=precise");
            assert_eq!(url.verbatim(), "https://u/a.tgz");
        }
        _ => panic!("expected a URL distribution"),
    }
    assert_eq!(render(&g, false, false, false, AnnotationStyle::Split), "a @ https://u/a.tgz\n");
}

#[test]
fn marker_synthesis() {
    let mut index = empty_index();
    let marker = MarkerTree::And(vec![
        expr(
            MarkerValue::MarkerEnvVersion(MarkerValueVersion::PythonVersion),
            MarkerOperator::GreaterEqual,
            MarkerValue::QuotedString(s("3.8")),
        ),
        expr(
            MarkerValue::MarkerEnvString(MarkerValueString::SysPlatform),
            MarkerOperator::Equal,
            MarkerValue::QuotedString(s("linux")),
        ),
    ]);
    index.distributions.push((
        PackageId::Registry { name: s("a"), version: v(&[1, 0]) },
        Metadata {
            provides_extras: vec![],
            requires_dist: vec![Requirement { name: s("b"), marker: Some(marker) }],
        },
    ));
    let g = build(vec![(pkg("a", None, None), v(&[1, 0]))], vec![], vec![pin("a", &[1, 0])], &index).unwrap();
    let manifest = Manifest { requirements: vec![], editables: vec![] };
    let tree = g.marker_tree(&manifest, &index, &env());
    let mut text: Vec<String> = match &tree {
        MarkerTree::And(parts) => parts.iter().map(|p| p.to_string()).collect(),
        _ => panic!("expected a conjunction"),
    };
    text.sort();
    assert_eq!(text, vec![s("python_version == \"3.11\""), s("sys_platform == \"linux\"")]);
}

#[test]
fn marker_synthesis_reads_direct_requirements() {
    let mut index = empty_index();
    index.distributions.push((PackageId::Registry { name: s("a"), version: v(&[1, 0]) }, metadata(&[])));
    let g = build(vec![(pkg("a", None, None), v(&[1, 0]))], vec![], vec![pin("a", &[1, 0])], &index).unwrap();
    let direct = expr(
        MarkerValue::Extra,
        MarkerOperator::Equal,
        MarkerValue::QuotedString(s("dev")),
    );
    let gated = MarkerTree::Or(vec![
        direct,
        expr(
            MarkerValue::QuotedString(s("darwin")),
            MarkerOperator::NotEqual,
            MarkerValue::MarkerEnvString(MarkerValueString::OsName),
        ),
    ]);
    let manifest = Manifest { requirements: vec![Requirement { name: s("a"), marker: Some(gated) }], editables: vec![] };
    let tree = g.marker_tree(&manifest, &index, &env());
    assert_eq!(tree.to_string(), "os_name == \"posix\"");
    let empty = Manifest { requirements: vec![], editables: vec![] };
    assert_eq!(g.marker_tree(&empty, &index, &env()).to_string(), "");
}

#[test]
fn redirect_twice_is_redirect_once() {
    let url = VerbatimUrl::new(s("https://u/a.tgz"));
    let once = apply_redirect(&url, "https://u/a.tgz#sha=precise");
    let twice = apply_redirect(&once, "https://u/a.tgz#sha=precise");
    assert_eq!(once.raw(), twice.raw());
    assert_eq!(once.verbatim(), twice.verbatim());
    assert_eq!(once.raw(), "https://u/a.tgz#sha=precise");
    assert_eq!(once.verbatim(), "https://u/a.tgz");
}

#[test]
fn render_is_deterministic() {
    let index = empty_index();
    let make = || {
        build(
            vec![(pkg("b", None, None), v(&[2])), (pkg("a", None, None), v(&[1]))],
            vec![ResolutionDependency { from: s("b"), to: s("a"), ranges: vec![VersionRange::full()] }],
            vec![pin("a", &[1]), pin("b", &[2])],
            &index,
        )
        .unwrap()
    };
    let g1 = make();
    let g2 = make();
    let r1 = render(&g1, false, false, true, AnnotationStyle::Split);
    assert_eq!(r1, render(&g1, false, false, true, AnnotationStyle::Split));
    assert_eq!(r1, render(&g2, false, false, true, AnnotationStyle::Split));
    assert_eq!(r1, "a==1\n\u{1b}[32m    # via b\u{1b}[39m\nb==2\n");
}

#[test]
fn hashes_sorted_and_rendered() {
    let mut index = empty_index();
    index.packages.push((
        s("a"),
        VersionsResponse::Found(VersionMap { hashes: vec![(v(&[1, 0]), vec![s("sha256:bb"), s("sha256:aa")])] }),
    ));
    let g = build(vec![(pkg("a", None, None), v(&[1, 0]))], vec![], vec![pin("a", &[1, 0])], &index).unwrap();
    assert_eq!(g.hashes, vec![(s("a"), vec![s("sha256:aa"), s("sha256:bb")])]);
    assert_eq!(
        render(&g, true, false, false, AnnotationStyle::Split),
        "a==1.0 \\\n    --hash=sha256:aa \\\n    --hash=sha256:bb\n"
    );
}

#[test]
fn recorded_hashes_kept_as_they_were() {
    let mut index = empty_index();
    index.packages.push((
        s("a"),
        VersionsResponse::Found(VersionMap { hashes: vec![(v(&[1, 0]), vec![s("sha256:cc")])] }),
    ));
    let prefs = Preferences { hashes: vec![(s("a"), (v(&[1, 0]), vec![s("sha256:zz"), s("sha256:yy")]))] };
    let resolution = Resolution {
        packages: vec![(pkg("a", None, None), v(&[1, 0]))],
        dependencies: vec![],
        pins: FilePins { entries: vec![pin("a", &[1, 0])] },
    };
    let g = ResolutionGraph::from_state(&index, &prefs, no_editables(), resolution).unwrap();
    assert_eq!(g.hashes, vec![(s("a"), vec![s("sha256:zz"), s("sha256:yy")])]);
}

#[test]
fn annotations_line_and_split() {
    let index = empty_index();
    let g = build(
        vec![(pkg("a", None, None), v(&[1, 0])), (pkg("b", None, None), v(&[2, 0])), (pkg("c", None, None), v(&[3]))],
        vec![
            ResolutionDependency { from: s("c"), to: s("a"), ranges: vec![VersionRange::full()] },
            ResolutionDependency { from: s("b"), to: s("a"), ranges: vec![VersionRange::full()] },
        ],
        vec![pin("a", &[1, 0]), pin("b", &[2, 0]), pin("c", &[3])],
        &index,
    )
    .unwrap();
    let pad = " ".repeat(18);
    assert_eq!(
        render(&g, false, false, true, AnnotationStyle::Line),
        format!("a==1.0{pad}  \u{1b}[32m# via b, c\u{1b}[39m\nb==2.0\nc==3\n")
    );
    assert_eq!(
        render(&g, false, false, true, AnnotationStyle::Split),
        "a==1.0\n\u{1b}[32m    # via\n    #   b\n    #   c\u{1b}[39m\nb==2.0\nc==3\n"
    );
    assert_eq!(render(&g, false, false, false, AnnotationStyle::Line), "a==1.0\nb==2.0\nc==3\n");
}

#[test]
fn editables_first_and_filtered_names() {
    let index = empty_index();
    let editables = Editables {
        entries: vec![(
            s("z"),
            (LocalEditable { url: VerbatimUrl::new(s("file:///src/z")) }, metadata(&[])),
        )],
    };
    let resolution = Resolution {
        packages: vec![
            (pkg("b", None, None), v(&[1])),
            (pkg("z", None, None), v(&[0, 1])),
            (pkg("a", None, None), v(&[2])),
        ],
        dependencies: vec![],
        pins: FilePins { entries: vec![pin("a", &[2]), pin("b", &[1])] },
    };
    let g = ResolutionGraph::from_state(&index, &no_prefs(), editables, resolution).unwrap();
    let none: Vec<String> = vec![];
    let out = DisplayResolutionGraph::new(&g, &none, false, false, false, AnnotationStyle::Split).render();
    assert_eq!(out, "-e file:///src/z\na==2\nb==1\n");
    let skip = vec![s("a")];
    let out = DisplayResolutionGraph::new(&g, &skip, false, false, false, AnnotationStyle::Split).render();
    assert_eq!(out, "-e file:///src/z\nb==1\n");
    let dists = g.into_distributions();
    assert_eq!(dists.len(), 3);
    assert_eq!(dists[1].to_string(), "z @ file:///src/z");
}

#[test]
fn forked_markers_are_joined_and_rendered() {
    let index = empty_index();
    let m1 = expr(
        MarkerValue::MarkerEnvString(MarkerValueString::SysPlatform),
        MarkerOperator::Equal,
        MarkerValue::QuotedString(s("linux")),
    );
    let m2 = expr(
        MarkerValue::MarkerEnvString(MarkerValueString::SysPlatform),
        MarkerOperator::Equal,
        MarkerValue::QuotedString(s("darwin")),
    );
    let forked = |m: MarkerTree| PubGrubPackage::Package { name: s("a"), extra: None, marker: Some(m), url: None };
    let g = build(
        vec![(pkg("a", None, None), v(&[1, 0])), (forked(m1), v(&[1, 0])), (forked(m2), v(&[1, 0]))],
        vec![],
        vec![pin("a", &[1, 0])],
        &index,
    )
    .unwrap();
    assert_eq!(g.markers.len(), 1);
    assert_eq!(
        render(&g, false, false, false, AnnotationStyle::Split),
        "a==1.0 # sys_platform == \"linux\" or sys_platform == \"darwin\"\n"
    );
}

#[test]
fn missing_pin_is_an_error() {
    let index = empty_index();
    let r = build(vec![(pkg("a", None, None), v(&[1, 0]))], vec![], vec![], &index);
    match r {
        Err(ResolveError::MissingPin { name, version }) => {
            assert_eq!(name, "a");
            assert_eq!(version.to_string(), "1.0");
        }
        _ => panic!("expected a missing pin"),
    }
}

#[test]
fn missing_metadata_is_an_error() {
    let index = empty_index();
    let r = build(
        vec![(pkg("a", None, None), v(&[1, 0])), (pkg("a", Some("x"), None), v(&[1, 0]))],
        vec![],
        vec![pin("a", &[1, 0])],
        &index,
    );
    assert!(matches!(r, Err(ResolveError::MissingMetadata { .. })));
}

#[test]
fn package_names_and_display() {
    let urls = Urls { entries: vec![] };
    assert_eq!(PubGrubPackage::Root(None).name(), "<NONE>");
    assert_eq!(PubGrubPackage::Root(None).to_string(), "root");
    assert_eq!(PubGrubPackage::Root(Some(s("proj"))).to_string(), "proj");
    assert_eq!(PubGrubPackage::Python(PubGrubPython::Target).name(), "<PYTHON>");
    assert_eq!(PubGrubPackage::Python(PubGrubPython::Installed).to_string(), "Python");
    let plain = PubGrubPackage::from_package(s("black"), None, None, &urls);
    assert_eq!(plain.to_string(), "black");
    let extra = PubGrubPackage::from_package(s("black"), Some(s("colorama")), None, &urls);
    assert_eq!(extra.name(), "black");
    assert_eq!(extra.to_string(), "black[colorama]");
    let marker = expr(
        MarkerValue::MarkerEnvVersion(MarkerValueVersion::PythonVersion),
        MarkerOperator::LessThan,
        MarkerValue::QuotedString(s("3.8")),
    );
    let both = PubGrubPackage::from_package(s("black"), Some(s("d")), Some(marker), &urls);
    assert_eq!(both.to_string(), "black[d]{python_version < \"3.8\"}");
}

#[test]
fn marker_or_flattens_and_nests_in_parentheses() {
    let a = expr(MarkerValue::Extra, MarkerOperator::Equal, MarkerValue::QuotedString(s("x")));
    let b = expr(
        MarkerValue::MarkerEnvString(MarkerValueString::OsName),
        MarkerOperator::NotEqual,
        MarkerValue::QuotedString(s("nt")),
    );
    let mut t = MarkerTree::And(vec![a]);
    t.or(b);
    assert_eq!(t.to_string(), "(extra == \"x\") or os_name != \"nt\"");
    let c = expr(
        MarkerValue::MarkerEnvVersion(MarkerValueVersion::PythonFullVersion),
        MarkerOperator::In,
        MarkerValue::QuotedString(s("3.12")),
    );
    t.or(MarkerTree::Or(vec![c]));
    match &t {
        MarkerTree::Or(parts) => assert_eq!(parts.len(), 3),
        _ => panic!("expected a disjunction"),
    }
}

#[test]
fn versions_compare_by_padded_segments() {
    assert_eq!(v(&[1, 0]).compare(&v(&[1])), 0);
    assert!(v(&[1, 0]).equals(&v(&[1, 0, 0])));
    assert_eq!(v(&[1, 2]).compare(&v(&[1, 10])), -1);
    assert_eq!(v(&[2]).compare(&v(&[1, 99])), 1);
    assert_eq!(v(&[10, 0, 3]).to_string(), "10.0.3");
    assert_eq!(v(&[]).to_string(), "");
    let r = VersionRange::strictly_lower_than(v(&[2])).union(&VersionRange::singleton(v(&[3])));
    assert!(r.contains(&v(&[1, 9])));
    assert!(!r.contains(&v(&[2])));
    assert!(r.contains(&v(&[3, 0])));
    assert!(!VersionRange::empty().contains(&v(&[0])));
    assert!(VersionRange::full().contains(&v(&[0])));
}

#[test]
fn annotation_style_defaults_to_split() {
    assert_eq!(AnnotationStyle::default(), AnnotationStyle::Split);
}

#[test]
fn default_display_annotates_in_split_style() {
    let index = empty_index();
    let g = build(
        vec![(pkg("a", None, None), v(&[1])), (pkg("b", None, None), v(&[2]))],
        vec![ResolutionDependency { from: s("b"), to: s("a"), ranges: vec![VersionRange::full()] }],
        vec![pin("a", &[1]), pin("b", &[2])],
        &index,
    )
    .unwrap();
    let (nodes, edges) = g.petgraph();
    assert_eq!(nodes.len(), 2);
    assert_eq!(edges.len(), 1);
    assert_eq!(nodes[0].to_string(), "a==1");
    assert_eq!(DisplayResolutionGraph::from(&g).render(), "a==1\n\u{1b}[32m    # via b\u{1b}[39m\nb==2\n");
    let pairs = g.into_resolution();
    assert_eq!(pairs.len(), 2);
    assert_eq!(pairs[1].0, "b");
    assert_eq!(pairs[1].1.to_string(), "b==2");
}

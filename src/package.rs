//! Package identities as the solver sees them.
use vstd::prelude::*;
use crate::dist::VerbatimUrl;
use crate::marker::{MarkerTree, tree_text};
use crate::text::{find_key, key_index};

verus! {

/// Which interpreter version a constraint is about.
#[derive(Clone, Copy, Debug, PartialEq, Eq, Structural)]
pub enum PubGrubPython {
    /// The interpreter installed in the current environment.
    Installed,
    /// The interpreter for which dependencies are being resolved.
    Target,
}

/// A package as the solver sees it: the root of the resolution, an interpreter
/// version, or a package that may carry an extra, a marker and a URL.
///
/// A package with an extra, `a[x]`, stands for `a` with the extra switched on;
/// it depends on `a` at the same version, which keeps both at one version.
#[derive(Debug)]
pub enum PubGrubPackage {
    Root(Option<String>),
    Python(PubGrubPython),
    Package {
        name: String,
        extra: Option<String>,
        marker: Option<MarkerTree>,
        url: Option<VerbatimUrl>,
    },
}

/// The URL each package name was declared with, up front.
#[derive(Debug)]
pub struct Urls {
    pub entries: Vec<(String, VerbatimUrl)>,
}

impl Urls {
    /// The URL declared for `name`, if any.
    pub fn get(&self, name: &str) -> (r: Option<&VerbatimUrl>)
        ensures
            match r {
                Some(u) => key_index(self.entries@, name@) >= 0 && *u == self.entries@[key_index(
                    self.entries@,
                    name@,
                )].1,
                None => key_index(self.entries@, name@) == -1,
            },
    {
        match find_key(&self.entries, name) {
            Some(i) => Some(&self.entries[i].1),
            None => None,
        }
    }
}

/// The name of a package: `<NONE>` for an unnamed root, `<PYTHON>` for an
/// interpreter version.
pub open spec fn package_name(p: PubGrubPackage) -> Seq<char> {
    match p {
        PubGrubPackage::Root(None) => "<NONE>"@,
        PubGrubPackage::Root(Some(n)) => n@,
        PubGrubPackage::Python(_) => "<PYTHON>"@,
        PubGrubPackage::Package { name, .. } => name@,
    }
}

/// A package as shown: `root`, `Python`, or `name[extra]{marker}` with the
/// parts it has.
pub open spec fn package_text(p: PubGrubPackage) -> Seq<char> {
    match p {
        PubGrubPackage::Root(None) => "root"@,
        PubGrubPackage::Root(Some(n)) => n@,
        PubGrubPackage::Python(_) => "Python"@,
        PubGrubPackage::Package { name, extra, marker, .. } => name@ + match extra {
            Some(e) => seq!['['] + e@ + seq![']'],
            None => seq![],
        } + match marker {
            Some(m) => seq!['{'] + tree_text(m) + seq!['}'],
            None => seq![],
        },
    }
}

impl PubGrubPackage {
    /// The package `name` with the given extra and marker, at the URL declared
    /// for it if one was.
    pub fn from_package(
        name: String,
        extra: Option<String>,
        marker: Option<MarkerTree>,
        urls: &Urls,
    ) -> (r: PubGrubPackage)
        ensures
            match r {
                PubGrubPackage::Package { name: n, extra: e, marker: m, url: u } => {
                    &&& n@ == name@
                    &&& e == extra
                    &&& m == marker
                    &&& match u {
                        Some(u) => key_index(urls.entries@, name@) >= 0 && u@ == urls.entries@[key_index(
                            urls.entries@,
                            name@,
                        )].1@,
                        None => key_index(urls.entries@, name@) == -1,
                    }
                },
                _ => false,
            },
    {
        let url = match urls.get(name.as_str()) {
            Some(u) => Some(u.duplicate()),
            None => None,
        };
        PubGrubPackage::Package { name, extra, marker, url }
    }

    /// The package's name.
    pub fn name(&self) -> (r: &str)
        ensures
            r@ == package_name(*self),
    {
        match self {
            PubGrubPackage::Root(None) => "<NONE>",
            PubGrubPackage::Root(Some(n)) => n.as_str(),
            PubGrubPackage::Python(_) => "<PYTHON>",
            PubGrubPackage::Package { name, .. } => name.as_str(),
        }
    }

    /// The package as shown.
    pub fn to_string(&self) -> (r: String)
        ensures
            r@ == package_text(*self),
    {
        proof {
            reveal_strlit("[");
            reveal_strlit("]");
            reveal_strlit("{");
            reveal_strlit("}");
        }
        match self {
            PubGrubPackage::Root(None) => String::from_str("root"),
            PubGrubPackage::Root(Some(n)) => n.clone(),
            PubGrubPackage::Python(_) => String::from_str("Python"),
            PubGrubPackage::Package { name, extra, marker, .. } => {
                let mut out = name.clone();
                let ghost a = out@;
                match extra {
                    Some(e) => {
                        out.append("[");
                        out.append(e.as_str());
                        out.append("]");
                    },
                    None => {},
                }
                let ghost b = out@;
                match marker {
                    Some(m) => {
                        out.append("{");
                        m.write_to(&mut out);
                        out.append("}");
                    },
                    None => {},
                }
                assert(out@ =~= package_text(*self));
                out
            },
        }
    }
}

} // verus!

//! Pinned distributions and the URLs they may come from.
use vstd::prelude::*;
use crate::version::{Version, release_text};

verus! {

/// A URL as the user wrote it (`given`) together with the URL that is fetched.
#[derive(Debug)]
pub struct VerbatimUrl {
    pub url: String,
    pub given: Option<String>,
}

/// What a URL is made of for the contracts: the URL fetched and the text shown.
pub struct UrlView {
    pub raw: Seq<char>,
    pub shown: Seq<char>,
}

impl View for VerbatimUrl {
    type V = UrlView;

    open spec fn view(&self) -> UrlView {
        UrlView {
            raw: self.url@,
            shown: match self.given {
                Some(g) => g@,
                None => self.url@,
            },
        }
    }
}

/// The URL that fetches `precise` and still shows what `url` showed.
pub open spec fn redirected(url: UrlView, precise: Seq<char>) -> UrlView {
    UrlView { raw: precise, shown: url.shown }
}

impl VerbatimUrl {
    /// A URL shown as it is fetched.
    pub fn new(url: String) -> (r: VerbatimUrl)
        ensures
            r@.raw == url@,
            r@.shown == url@,
    {
        VerbatimUrl { url, given: None }
    }

    pub fn duplicate(&self) -> (r: VerbatimUrl)
        ensures
            r@ == self@,
    {
        let given = match &self.given {
            Some(g) => Some(g.clone()),
            None => None,
        };
        VerbatimUrl { url: self.url.clone(), given }
    }

    /// The text the user wrote.
    pub fn verbatim(&self) -> (r: &String)
        ensures
            r@ == self@.shown,
    {
        match &self.given {
            Some(g) => g,
            None => &self.url,
        }
    }

    /// The URL that is fetched.
    pub fn raw(&self) -> (r: &String)
        ensures
            r@ == self@.raw,
    {
        &self.url
    }
}

/// Rewrites `url` to fetch `precise` while keeping the text the user wrote.
pub fn apply_redirect(url: &VerbatimUrl, precise: &str) -> (r: VerbatimUrl)
    ensures
        r@ == redirected(url@, precise@),
{
    VerbatimUrl { url: precise.to_owned(), given: Some(url.verbatim().clone()) }
}

/// Redirecting a URL a second time to the same target changes nothing.
pub proof fn lemma_redirect_idempotent(url: UrlView, precise: Seq<char>)
    ensures
        redirected(redirected(url, precise), precise) == redirected(url, precise),
{
}

/// A package that is edited in place: where its source lives.
#[derive(Debug)]
pub struct LocalEditable {
    pub url: VerbatimUrl,
}

/// A distribution chosen for a package: a registry release, an archive or
/// repository at a URL, or a source tree edited in place.
#[derive(Debug)]
pub enum ResolvedDist {
    Registry { name: String, version: Version },
    Url { name: String, url: VerbatimUrl },
    Editable { name: String, editable: LocalEditable },
}

/// A distribution as the contracts see it.
pub enum DistView {
    Registry { name: Seq<char>, version: Seq<u64> },
    Url { name: Seq<char>, url: UrlView },
    Editable { name: Seq<char>, url: UrlView },
}

impl View for ResolvedDist {
    type V = DistView;

    open spec fn view(&self) -> DistView {
        match self {
            ResolvedDist::Registry { name, version } => DistView::Registry {
                name: name@,
                version: version@,
            },
            ResolvedDist::Url { name, url } => DistView::Url { name: name@, url: url@ },
            ResolvedDist::Editable { name, editable } => DistView::Editable {
                name: name@,
                url: editable.url@,
            },
        }
    }
}

pub open spec fn dist_name(d: DistView) -> Seq<char> {
    match d {
        DistView::Registry { name, .. } => name,
        DistView::Url { name, .. } => name,
        DistView::Editable { name, .. } => name,
    }
}

/// `==<version>` for a release, ` @ <url>` otherwise.
pub open spec fn version_or_url_text(d: DistView) -> Seq<char> {
    match d {
        DistView::Registry { version, .. } => "=="@ + release_text(version),
        DistView::Url { url, .. } => " @ "@ + url.shown,
        DistView::Editable { url, .. } => " @ "@ + url.shown,
    }
}

/// A distribution as written: `a==1.0` or `a @ https://...`.
pub open spec fn dist_text(d: DistView) -> Seq<char> {
    dist_name(d) + version_or_url_text(d)
}

impl ResolvedDist {
    pub fn duplicate(&self) -> (r: ResolvedDist)
        ensures
            r@ == self@,
    {
        match self {
            ResolvedDist::Registry { name, version } => ResolvedDist::Registry {
                name: name.clone(),
                version: version.duplicate(),
            },
            ResolvedDist::Url { name, url } => ResolvedDist::Url {
                name: name.clone(),
                url: url.duplicate(),
            },
            ResolvedDist::Editable { name, editable } => ResolvedDist::Editable {
                name: name.clone(),
                editable: LocalEditable { url: editable.url.duplicate() },
            },
        }
    }

    pub fn name(&self) -> (r: &String)
        ensures
            r@ == dist_name(self@),
    {
        match self {
            ResolvedDist::Registry { name, .. } => name,
            ResolvedDist::Url { name, .. } => name,
            ResolvedDist::Editable { name, .. } => name,
        }
    }

    /// Appends `==<version>` or ` @ <url>` to `out`.
    pub fn write_version_or_url(&self, out: &mut String)
        ensures
            final(out)@ == old(out)@ + version_or_url_text(self@),
    {
        match self {
            ResolvedDist::Registry { version, .. } => {
                out.append("==");
                let v = version.to_string();
                out.append(v.as_str());
            },
            ResolvedDist::Url { url, .. } => {
                out.append(" @ ");
                out.append(url.verbatim().as_str());
            },
            ResolvedDist::Editable { editable, .. } => {
                out.append(" @ ");
                out.append(editable.url.verbatim().as_str());
            },
        }
        assert(final(out)@ =~= old(out)@ + version_or_url_text(self@));
    }

    /// The distribution as written, e.g. `a==1.0`.
    pub fn to_string(&self) -> (r: String)
        ensures
            r@ == dist_text(self@),
    {
        let mut out = self.name().clone();
        self.write_version_or_url(&mut out);
        out
    }
}

/// A problem met while building the graph that does not stop it.
#[derive(Debug)]
pub enum Diagnostic {
    /// The distribution `dist` was asked for with an extra it does not provide.
    MissingExtra { dist: ResolvedDist, extra: String },
}

pub open spec fn missing_extra_message(dist: DistView, extra: Seq<char>) -> Seq<char> {
    "The package `"@ + dist_text(dist) + "` does not have an extra named `"@ + extra + "`."@
}

impl Diagnostic {
    /// The message shown to the user.
    pub fn message(&self) -> (r: String)
        ensures
            match self {
                Diagnostic::MissingExtra { dist, extra } => r@ == missing_extra_message(
                    dist@,
                    extra@,
                ),
            },
    {
        match self {
            Diagnostic::MissingExtra { dist, extra } => {
                let mut out = String::new();
                out.append("The package `");
                let d = dist.to_string();
                out.append(d.as_str());
                out.append("` does not have an extra named `");
                out.append(extra.as_str());
                out.append("`.");
                assert(out@ =~= missing_extra_message(dist@, extra@));
                out
            },
        }
    }

    /// Whether the package `name` is the subject of this diagnostic.
    pub fn includes(&self, name: &str) -> (r: bool)
        ensures
            match self {
                Diagnostic::MissingExtra { dist, .. } => r == (dist_name(dist@) == name@),
            },
    {
        match self {
            Diagnostic::MissingExtra { dist, .. } => str_eq(dist.name().as_str(), name),
        }
    }
}

/// Whether two strings hold the same characters.
pub fn str_eq(a: &str, b: &str) -> (r: bool)
    ensures
        r == (a@ == b@),
{
    let n = a.unicode_len();
    if n != b.unicode_len() {
        return false;
    }
    let mut i: usize = 0;
    while i < n
        invariant
            n == a@.len(),
            n == b@.len(),
            i <= n,
            forall|k: int| 0 <= k < i ==> a@[k] == b@[k],
        decreases n - i,
    {
        if a.get_char(i) != b.get_char(i) {
            return false;
        }
        i = i + 1;
    }
    assert(a@ =~= b@);
    true
}

} // verus!

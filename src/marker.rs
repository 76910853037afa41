//! Environment markers: the boolean expressions over interpreter and platform
//! attributes that gate a requirement.
use vstd::prelude::*;

verus! {

/// An environment attribute whose value is a version.
#[derive(Clone, Copy, Debug, PartialEq, Eq, Structural)]
pub enum MarkerValueVersion {
    ImplementationVersion,
    PythonFullVersion,
    PythonVersion,
}

/// An environment attribute whose value is a string.
#[derive(Clone, Copy, Debug, PartialEq, Eq, Structural)]
pub enum MarkerValueString {
    ImplementationName,
    OsName,
    PlatformMachine,
    PlatformPythonImplementation,
    PlatformRelease,
    PlatformSystem,
    PlatformVersion,
    SysPlatform,
}

/// A comparison operator of a marker expression.
#[derive(Clone, Copy, Debug, PartialEq, Eq, Structural)]
pub enum MarkerOperator {
    Equal,
    NotEqual,
    GreaterThan,
    GreaterEqual,
    LessThan,
    LessEqual,
    TildeEqual,
    In,
    NotIn,
}

/// One side of a marker expression.
#[derive(Debug)]
pub enum MarkerValue {
    MarkerEnvVersion(MarkerValueVersion),
    MarkerEnvString(MarkerValueString),
    Extra,
    QuotedString(String),
}

/// `l_value operator r_value`, e.g. `python_version >= "3.8"`.
#[derive(Debug)]
pub struct MarkerExpression {
    pub l_value: MarkerValue,
    pub operator: MarkerOperator,
    pub r_value: MarkerValue,
}

/// A marker: an expression, or a conjunction or disjunction of markers.
#[derive(Debug)]
pub enum MarkerTree {
    Expression(MarkerExpression),
    And(Vec<MarkerTree>),
    Or(Vec<MarkerTree>),
}

/// An environment attribute that a marker can read.
#[derive(Clone, Copy, Debug, PartialEq, Eq, Structural)]
pub enum MarkerParam {
    Version(MarkerValueVersion),
    String(MarkerValueString),
}

/// The environment attribute a marker value reads, if it reads one. Extras and
/// quoted literals are no part of the environment.
pub open spec fn value_param(v: MarkerValue) -> Option<MarkerParam> {
    match v {
        MarkerValue::MarkerEnvVersion(p) => Some(MarkerParam::Version(p)),
        MarkerValue::MarkerEnvString(p) => Some(MarkerParam::String(p)),
        _ => None,
    }
}

/// Whether the marker reads the attribute `p` anywhere.
pub open spec fn mentions(t: MarkerTree, p: MarkerParam) -> bool
    decreases t,
{
    match t {
        MarkerTree::Expression(e) => value_param(e.l_value) == Some(p) || value_param(e.r_value)
            == Some(p),
        MarkerTree::And(v) => any_mentions(v@, p),
        MarkerTree::Or(v) => any_mentions(v@, p),
    }
}

/// Whether some marker of `s` reads `p`.
pub open spec fn any_mentions(s: Seq<MarkerTree>, p: MarkerParam) -> bool
    decreases s,
{
    if s.len() == 0 {
        false
    } else {
        any_mentions(s.drop_last(), p) || mentions(s.last(), p)
    }
}

/// Some marker of `s` reads `p` exactly when one at an index does.
pub proof fn lemma_any_mentions(s: Seq<MarkerTree>, p: MarkerParam)
    ensures
        any_mentions(s, p) == (exists|i: int| 0 <= i < s.len() && #[trigger] mentions(s[i], p)),
    decreases s.len(),
{
    if s.len() > 0 {
        assert(decreases_to!(s => s.drop_last()));
        assert(decreases_to!(s => s.last()));
        lemma_any_mentions(s.drop_last(), p);
        assert(any_mentions(s, p) == (any_mentions(s.drop_last(), p) || mentions(s.last(), p)));
        if mentions(s.last(), p) {
            assert(mentions(s[s.len() - 1], p));
        }
        if exists|i: int| 0 <= i < s.len() && #[trigger] mentions(s[i], p) {
            let i = choose|i: int| 0 <= i < s.len() && #[trigger] mentions(s[i], p);
            if i < s.len() - 1 {
                assert(mentions(s.drop_last()[i], p));
            }
        }
        if any_mentions(s.drop_last(), p) {
            let i = choose|i: int| 0 <= i < s.len() - 1 && #[trigger] mentions(s.drop_last()[i], p);
            assert(mentions(s[i], p));
        }
    }
}

/// A conjunction or disjunction reads `p` exactly when one of its parts does.
pub proof fn lemma_mentions_parts(v: Vec<MarkerTree>, p: MarkerParam)
    ensures
        mentions(MarkerTree::And(v), p) == (exists|i: int| 0 <= i < v.len() && #[trigger] mentions(v@[i], p)),
        mentions(MarkerTree::Or(v), p) == (exists|i: int| 0 <= i < v.len() && #[trigger] mentions(v@[i], p)),
{
    let a = MarkerTree::And(v);
    let o = MarkerTree::Or(v);
    assert(decreases_to!(a => a->And_0));
    assert(decreases_to!(o => o->Or_0));
    assert(decreases_to!(v => v@));
    lemma_any_mentions(v@, p);
}

pub open spec fn version_param_text(p: MarkerValueVersion) -> Seq<char> {
    match p {
        MarkerValueVersion::ImplementationVersion => "implementation_version"@,
        MarkerValueVersion::PythonFullVersion => "python_full_version"@,
        MarkerValueVersion::PythonVersion => "python_version"@,
    }
}

pub open spec fn string_param_text(p: MarkerValueString) -> Seq<char> {
    match p {
        MarkerValueString::ImplementationName => "implementation_name"@,
        MarkerValueString::OsName => "os_name"@,
        MarkerValueString::PlatformMachine => "platform_machine"@,
        MarkerValueString::PlatformPythonImplementation => "platform_python_implementation"@,
        MarkerValueString::PlatformRelease => "platform_release"@,
        MarkerValueString::PlatformSystem => "platform_system"@,
        MarkerValueString::PlatformVersion => "platform_version"@,
        MarkerValueString::SysPlatform => "sys_platform"@,
    }
}

pub open spec fn operator_text(o: MarkerOperator) -> Seq<char> {
    match o {
        MarkerOperator::Equal => "=="@,
        MarkerOperator::NotEqual => "!="@,
        MarkerOperator::GreaterThan => ">"@,
        MarkerOperator::GreaterEqual => ">="@,
        MarkerOperator::LessThan => "<"@,
        MarkerOperator::LessEqual => "<="@,
        MarkerOperator::TildeEqual => "~="@,
        MarkerOperator::In => "in"@,
        MarkerOperator::NotIn => "not in"@,
    }
}

/// A marker value as written: an attribute name, `extra`, or a literal in
/// double quotes.
pub open spec fn value_text(v: MarkerValue) -> Seq<char> {
    match v {
        MarkerValue::MarkerEnvVersion(p) => version_param_text(p),
        MarkerValue::MarkerEnvString(p) => string_param_text(p),
        MarkerValue::Extra => "extra"@,
        MarkerValue::QuotedString(s) => seq!['"'] + s@ + seq!['"'],
    }
}

pub open spec fn expression_text(e: MarkerExpression) -> Seq<char> {
    value_text(e.l_value) + seq![' '] + operator_text(e.operator) + seq![' '] + value_text(
        e.r_value,
    )
}

/// A marker as written: the parts of a conjunction joined by ` and `, of a
/// disjunction by ` or `, each part that is not a single expression in
/// parentheses.
pub open spec fn tree_text(t: MarkerTree) -> Seq<char>
    decreases t,
{
    match t {
        MarkerTree::Expression(e) => expression_text(e),
        MarkerTree::And(v) => join_text(v@, " and "@),
        MarkerTree::Or(v) => join_text(v@, " or "@),
    }
}

pub open spec fn join_text(s: Seq<MarkerTree>, sep: Seq<char>) -> Seq<char>
    decreases s,
{
    if s.len() == 0 {
        seq![]
    } else {
        let last = if s.last() is Expression {
            tree_text(s.last())
        } else {
            seq!['('] + tree_text(s.last()) + seq![')']
        };
        if s.len() == 1 {
            last
        } else {
            join_text(s.drop_last(), sep) + sep + last
        }
    }
}

fn version_param_str(p: MarkerValueVersion) -> (r: &'static str)
    ensures
        r@ == version_param_text(p),
{
    match p {
        MarkerValueVersion::ImplementationVersion => "implementation_version",
        MarkerValueVersion::PythonFullVersion => "python_full_version",
        MarkerValueVersion::PythonVersion => "python_version",
    }
}

fn string_param_str(p: MarkerValueString) -> (r: &'static str)
    ensures
        r@ == string_param_text(p),
{
    match p {
        MarkerValueString::ImplementationName => "implementation_name",
        MarkerValueString::OsName => "os_name",
        MarkerValueString::PlatformMachine => "platform_machine",
        MarkerValueString::PlatformPythonImplementation => "platform_python_implementation",
        MarkerValueString::PlatformRelease => "platform_release",
        MarkerValueString::PlatformSystem => "platform_system",
        MarkerValueString::PlatformVersion => "platform_version",
        MarkerValueString::SysPlatform => "sys_platform",
    }
}

fn operator_str(o: MarkerOperator) -> (r: &'static str)
    ensures
        r@ == operator_text(o),
{
    match o {
        MarkerOperator::Equal => "==",
        MarkerOperator::NotEqual => "!=",
        MarkerOperator::GreaterThan => ">",
        MarkerOperator::GreaterEqual => ">=",
        MarkerOperator::LessThan => "<",
        MarkerOperator::LessEqual => "<=",
        MarkerOperator::TildeEqual => "~=",
        MarkerOperator::In => "in",
        MarkerOperator::NotIn => "not in",
    }
}

fn write_value(v: &MarkerValue, out: &mut String)
    ensures
        final(out)@ == old(out)@ + value_text(*v),
{
    proof {
        reveal_strlit("\"");
    }
    match v {
        MarkerValue::MarkerEnvVersion(p) => out.append(version_param_str(*p)),
        MarkerValue::MarkerEnvString(p) => out.append(string_param_str(*p)),
        MarkerValue::Extra => out.append("extra"),
        MarkerValue::QuotedString(s) => {
            out.append("\"");
            out.append(s.as_str());
            out.append("\"");
        },
    }
    assert(final(out)@ =~= old(out)@ + value_text(*v));
}

impl MarkerExpression {
    fn write_to(&self, out: &mut String)
        ensures
            final(out)@ == old(out)@ + expression_text(*self),
    {
        proof {
            reveal_strlit(" ");
        }
        write_value(&self.l_value, out);
        out.append(" ");
        out.append(operator_str(self.operator));
        out.append(" ");
        write_value(&self.r_value, out);
        assert(final(out)@ =~= old(out)@ + expression_text(*self));
    }
}

fn write_join(v: &Vec<MarkerTree>, sep: &str, out: &mut String)
    ensures
        final(out)@ == old(out)@ + join_text(v@, sep@),
    decreases v, 0int,
{
    let mut i: usize = 0;
    assert(v@.take(0) =~= Seq::<MarkerTree>::empty());
    while i < v.len()
        invariant
            i <= v.len(),
            out@ == old(out)@ + join_text(v@.take(i as int), sep@),
        decreases v.len() - i,
    {
        assert(v@.take(i + 1).drop_last() =~= v@.take(i as int));
        assert(v@.take(i + 1).last() == v@[i as int]);
        let ghost before = out@;
        if i > 0 {
            out.append(sep);
        }
        let ghost mid = out@;
        let item = &v[i];
        proof {
            assert(decreases_to!(v => v@[i as int]));
        }
        match item {
            MarkerTree::Expression(_) => {
                item.write_to(out);
                assert(out@ =~= mid + tree_text(*item));
            },
            _ => {
                proof {
                    reveal_strlit("(");
                    reveal_strlit(")");
                }
                out.append("(");
                item.write_to(out);
                out.append(")");
                assert(out@ =~= mid + seq!['('] + tree_text(*item) + seq![')']);
            },
        }
        let ghost last = if item is Expression {
            tree_text(*item)
        } else {
            seq!['('] + tree_text(*item) + seq![')']
        };
        assert(out@ =~= mid + last);
        let ghost s1 = v@.take(i + 1);
        assert(s1.len() == i + 1);
        assert(join_text(s1, sep@) == if i == 0 {
            last
        } else {
            join_text(s1.drop_last(), sep@) + sep@ + last
        });
        i = i + 1;
        assert(out@ =~= old(out)@ + join_text(v@.take(i as int), sep@));
    }
    assert(v@.take(i as int) =~= v@);
}

impl MarkerTree {
    /// Appends the marker as written to `out`.
    pub fn write_to(&self, out: &mut String)
        ensures
            final(out)@ == old(out)@ + tree_text(*self),
        decreases self, 1int,
    {
        match self {
            MarkerTree::Expression(e) => e.write_to(out),
            MarkerTree::And(v) => write_join(v, " and ", out),
            MarkerTree::Or(v) => write_join(v, " or ", out),
        }
    }

    /// The marker as written.
    pub fn to_string(&self) -> (r: String)
        ensures
            r@ == tree_text(*self),
    {
        let mut out = String::new();
        self.write_to(&mut out);
        assert(out@ =~= tree_text(*self));
        out
    }
}

/// The parts of a disjunction; any other marker is a disjunction of itself.
pub open spec fn disjuncts(t: MarkerTree) -> Seq<MarkerTree> {
    match t {
        MarkerTree::Or(v) => v@,
        _ => seq![t],
    }
}

impl MarkerTree {
    /// Turns this marker into the disjunction of itself and `tree`, flattening
    /// nested disjunctions one level.
    pub fn or(&mut self, tree: MarkerTree)
        ensures
            *final(self) is Or,
            (*final(self))->Or_0@ == disjuncts(*old(self)) + disjuncts(tree),
    {
        let mut this = MarkerTree::Or(Vec::new());
        std::mem::swap(self, &mut this);
        let mut items: Vec<MarkerTree> = match this {
            MarkerTree::Or(v) => v,
            other => vec![other],
        };
        let ghost first = items@;
        match tree {
            MarkerTree::Or(v) => {
                let mut v = v;
                items.append(&mut v);
            },
            other => items.push(other),
        }
        assert(items@ =~= first + disjuncts(tree));
        *self = MarkerTree::Or(items);
    }
}

/// The marker value that reads the attribute `p`.
pub open spec fn param_value(p: MarkerParam) -> MarkerValue {
    match p {
        MarkerParam::Version(v) => MarkerValue::MarkerEnvVersion(v),
        MarkerParam::String(s) => MarkerValue::MarkerEnvString(s),
    }
}

/// Adds `p` to `set` unless it is there already.
fn insert_param(set: &mut Vec<MarkerParam>, p: MarkerParam)
    requires
        old(set)@.no_duplicates(),
    ensures
        final(set)@.no_duplicates(),
        forall|q: MarkerParam| #[trigger] final(set)@.contains(q) <==> old(set)@.contains(q) || q == p,
{
    let mut i: usize = 0;
    while i < set.len()
        invariant
            set@ == old(set)@,
            set@.no_duplicates(),
            i <= set.len(),
            forall|k: int| 0 <= k < i ==> set@[k] != p,
        decreases set.len() - i,
    {
        if set[i] == p {
            assert(set@[i as int] == p);
            assert(set@ == old(set)@);
            return;
        }
        i = i + 1;
    }
    let ghost before = set@;
    set.push(p);
    assert(set@ =~= before.push(p));
    assert forall|q: MarkerParam| #[trigger] set@.contains(q) <==> before.contains(q) || q == p by {
        if set@.contains(q) {
            let k = choose|k: int| 0 <= k < set@.len() && set@[k] == q;
            if k < before.len() {
                assert(before[k] == q);
            }
        }
        if before.contains(q) {
            let k = choose|k: int| 0 <= k < before.len() && before[k] == q;
            assert(set@[k] == q);
        }
        if q == p {
            assert(set@[before.len() as int] == q);
        }
    }
}

fn add_value_param(v: &MarkerValue, set: &mut Vec<MarkerParam>)
    requires
        old(set)@.no_duplicates(),
    ensures
        final(set)@.no_duplicates(),
        forall|q: MarkerParam| #[trigger] final(set)@.contains(q) <==> old(set)@.contains(q) || value_param(*v) == Some(q),
{
    match v {
        MarkerValue::MarkerEnvVersion(p) => insert_param(set, MarkerParam::Version(*p)),
        MarkerValue::MarkerEnvString(p) => insert_param(set, MarkerParam::String(*p)),
        _ => {},
    }
}

fn add_list_params(v: &Vec<MarkerTree>, set: &mut Vec<MarkerParam>)
    requires
        old(set)@.no_duplicates(),
    ensures
        final(set)@.no_duplicates(),
        forall|q: MarkerParam| #[trigger] final(set)@.contains(q) <==> old(set)@.contains(q) || exists|i: int|
            0 <= i < v.len() && #[trigger] mentions(v@[i], q),
    decreases v, 0int,
{
    let mut i: usize = 0;
    while i < v.len()
        invariant
            i <= v.len(),
            set@.no_duplicates(),
            forall|q: MarkerParam| #[trigger] set@.contains(q) <==> old(set)@.contains(q) || exists|j: int|
                0 <= j < i && #[trigger] mentions(v@[j], q),
        decreases v.len() - i,
    {
        proof {
            assert(decreases_to!(v => v@[i as int]));
        }
        let ghost before = set@;
        add_tree_params(&v[i], set);
        assert forall|q: MarkerParam| #[trigger] set@.contains(q) <==> old(set)@.contains(q) || exists|j: int|
            0 <= j < i + 1 && #[trigger] mentions(v@[j], q) by {
            if mentions(v@[i as int], q) {
                assert(mentions(v@[i as int], q));
            }
            if exists|j: int| 0 <= j < i + 1 && #[trigger] mentions(v@[j], q) {
                let j = choose|j: int| 0 <= j < i + 1 && #[trigger] mentions(v@[j], q);
                if j < i {
                    assert(before.contains(q));
                }
            }
        }
        i = i + 1;
    }
}

/// Adds to `set` every environment attribute that the marker reads.
pub fn add_tree_params(t: &MarkerTree, set: &mut Vec<MarkerParam>)
    requires
        old(set)@.no_duplicates(),
    ensures
        final(set)@.no_duplicates(),
        forall|q: MarkerParam| #[trigger] final(set)@.contains(q) <==> old(set)@.contains(q) || mentions(*t, q),
    decreases t, 1int,
{
    match t {
        MarkerTree::Expression(e) => {
            let ghost s0 = set@;
            assert(s0 == old(set)@);
            add_value_param(&e.l_value, set);
            let ghost s1 = set@;
            add_value_param(&e.r_value, set);
            assert(forall|q: MarkerParam| #[trigger] s1.contains(q) <==> s0.contains(q) || value_param(e.l_value) == Some(q));
            assert forall|q: MarkerParam| #[trigger] set@.contains(q) <==> s0.contains(q) || mentions(*t, q) by {
                assert(mentions(*t, q) == (value_param(e.l_value) == Some(q)
                    || value_param(e.r_value) == Some(q)));
                assert(s1.contains(q) <==> s0.contains(q) || value_param(e.l_value) == Some(q));
            }
        },
        MarkerTree::And(v) => {
            add_list_params(v, set);
            assert forall|q: MarkerParam| mentions(*t, q) == (exists|i: int|
                0 <= i < v.len() && #[trigger] mentions(v@[i], q)) by {
                lemma_mentions_parts(*v, q);
            }
        },
        MarkerTree::Or(v) => {
            add_list_params(v, set);
            assert forall|q: MarkerParam| mentions(*t, q) == (exists|i: int|
                0 <= i < v.len() && #[trigger] mentions(v@[i], q)) by {
                lemma_mentions_parts(*v, q);
            }
        },
    }
}

/// The values of the environment attributes that markers read.
#[derive(Debug)]
pub struct MarkerEnvironment {
    pub implementation_name: String,
    pub implementation_version: String,
    pub os_name: String,
    pub platform_machine: String,
    pub platform_python_implementation: String,
    pub platform_release: String,
    pub platform_system: String,
    pub platform_version: String,
    pub python_full_version: String,
    pub python_version: String,
    pub sys_platform: String,
}

/// The value the environment gives the attribute `p`.
pub open spec fn env_value(env: MarkerEnvironment, p: MarkerParam) -> Seq<char> {
    match p {
        MarkerParam::Version(v) => match v {
            MarkerValueVersion::ImplementationVersion => env.implementation_version@,
            MarkerValueVersion::PythonFullVersion => env.python_full_version@,
            MarkerValueVersion::PythonVersion => env.python_version@,
        },
        MarkerParam::String(s) => match s {
            MarkerValueString::ImplementationName => env.implementation_name@,
            MarkerValueString::OsName => env.os_name@,
            MarkerValueString::PlatformMachine => env.platform_machine@,
            MarkerValueString::PlatformPythonImplementation => env.platform_python_implementation@,
            MarkerValueString::PlatformRelease => env.platform_release@,
            MarkerValueString::PlatformSystem => env.platform_system@,
            MarkerValueString::PlatformVersion => env.platform_version@,
            MarkerValueString::SysPlatform => env.sys_platform@,
        },
    }
}

impl MarkerEnvironment {
    /// The value of a version attribute.
    pub fn get_version(&self, p: MarkerValueVersion) -> (r: &String)
        ensures
            r@ == env_value(*self, MarkerParam::Version(p)),
    {
        match p {
            MarkerValueVersion::ImplementationVersion => &self.implementation_version,
            MarkerValueVersion::PythonFullVersion => &self.python_full_version,
            MarkerValueVersion::PythonVersion => &self.python_version,
        }
    }

    /// The value of a string attribute.
    pub fn get_string(&self, p: MarkerValueString) -> (r: &String)
        ensures
            r@ == env_value(*self, MarkerParam::String(p)),
    {
        match p {
            MarkerValueString::ImplementationName => &self.implementation_name,
            MarkerValueString::OsName => &self.os_name,
            MarkerValueString::PlatformMachine => &self.platform_machine,
            MarkerValueString::PlatformPythonImplementation => &self.platform_python_implementation,
            MarkerValueString::PlatformRelease => &self.platform_release,
            MarkerValueString::PlatformSystem => &self.platform_system,
            MarkerValueString::PlatformVersion => &self.platform_version,
            MarkerValueString::SysPlatform => &self.sys_platform,
        }
    }
}

} // verus!

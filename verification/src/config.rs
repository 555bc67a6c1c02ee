//! Declared dependencies: each named dependency resolves to a local path or
//! a remote repository, and the resolver decides, per dependency, whether a
//! fetch is needed or the build cache already holds its tree.

use vstd::prelude::*;

use crate::bytes::{
    bytes_eq, clone_bytes, lemma_drop_back_skip, lemma_drop_front_skip, push_all, trim_by,
};

verus! {

/// Where a dependency's module tree comes from: a local path, used as is, or
/// a remote repository location, fetched into the build cache.
#[derive(Debug, PartialEq, Eq)]
pub enum Source {
    Local(Vec<u8>),
    GitHub(Vec<u8>),
}

/// The declared dependencies: name mapped to source, unique names, in
/// declaration order.
#[derive(Debug, PartialEq, Eq)]
pub struct Config {
    pub deps: Vec<(Vec<u8>, Source)>,
}

/// Errors of reading one dependency declaration.
#[derive(Debug, PartialEq, Eq)]
pub enum ConfigError {
    /// The declared remote location is not a valid URL.
    InvalidUrl { name: Vec<u8>, detail: Vec<u8> },
    /// The declaration carries neither a path nor a remote location.
    MissingSourceField { name: Vec<u8> },
}

/// The normalized serialization of a byte string read as an absolute URL,
/// when it is a valid one.
pub uninterp spec fn url_normal(s: Seq<u8>) -> Option<Seq<u8>>;

/// Relies on url::Url::parse: whether the bytes spell a valid absolute URL,
/// and its normalized serialization. The result depends on the bytes alone.
#[verifier::external_body]
fn parse_url(b: &Vec<u8>) -> (r: Result<Vec<u8>, Vec<u8>>)
    ensures
        r matches Ok(u) ==> url_normal(b@) == Some(u@),
        r is Err ==> url_normal(b@) is None,
{
    match core::str::from_utf8(b.as_slice()) {
        Err(e) => Err(e.to_string().into_bytes()),
        Ok(s) => match url::Url::parse(s) {
            Ok(u) => Ok(u.as_str().as_bytes().to_vec()),
            Err(e) => Err(e.to_string().into_bytes()),
        },
    }
}

/// Trim a class of bytes from both ends; `quotes_only` trims double quotes,
/// otherwise double quotes and backslashes both.
fn trim_class(v: &Vec<u8>, quotes_only: bool) -> (r: Vec<u8>)
    ensures
        quotes_only ==> r@ == trim_by(v@, |b: u8| b == 34),
        !quotes_only ==> r@ == trim_by(v@, |b: u8| b == 34 || b == 92),
{
    let ghost p = if quotes_only {
        |b: u8| b == 34
    } else {
        |b: u8| b == 34 || b == 92
    };
    let n = v.len();
    let mut start: usize = 0;
    while start < n && (v[start] == 34 || (!quotes_only && v[start] == 92))
        invariant
            0 <= start <= n,
            n == v@.len(),
            p == (if quotes_only {
                |b: u8| b == 34
            } else {
                |b: u8| b == 34 || b == 92
            }),
            forall|k: int| 0 <= k < start ==> p(v@[k]),
        decreases n - start,
    {
        start = start + 1;
    }
    let mut end: usize = n;
    while end > start && (v[end - 1] == 34 || (!quotes_only && v[end - 1] == 92))
        invariant
            start <= end <= n,
            n == v@.len(),
            p == (if quotes_only {
                |b: u8| b == 34
            } else {
                |b: u8| b == 34 || b == 92
            }),
            forall|k: int| 0 <= k < start ==> p(v@[k]),
            start == n || !p(v@[start as int]),
            forall|k: int| end <= k < n ==> p(v@[k]),
        decreases end,
    {
        end = end - 1;
    }
    proof {
        lemma_drop_front_skip(v@, p, start as int);
        let f = v@.subrange(start as int, n as int);
        if end == start {
            lemma_drop_back_skip(f, p, 0);
        } else {
            lemma_drop_back_skip(f, p, end - start);
        }
        assert(f.subrange(0, end - start) =~= v@.subrange(start as int, end as int));
        assert(trim_by(v@, p) == v@.subrange(start as int, end as int));
    }
    let mut r: Vec<u8> = Vec::new();
    let mut k: usize = start;
    while k < end
        invariant
            start <= k <= end <= n,
            n == v@.len(),
            r@ == v@.subrange(start as int, k as int),
        decreases end - k,
    {
        r.push(v[k]);
        proof {
            assert(v@.subrange(start as int, k + 1) =~= v@.subrange(start as int, k as int).push(
                v@[k as int],
            ));
        }
        k = k + 1;
    }
    r
}

/// Classify one dependency declaration: the key (with its leading marker
/// byte stripped) names the dependency; a remote location, checked as a URL,
/// wins over a path; a declaration with neither is rejected.
pub fn classify_dep(key: &Vec<u8>, git: Option<&Vec<u8>>, path: Option<&Vec<u8>>) -> (r: Result<
    (Vec<u8>, Source),
    ConfigError,
>)
    requires
        key@.len() >= 1,
    ensures
        git matches Some(gv) ==> ({
            let u = trim_by(gv@, |b: u8| b == 34);
            &&& (r is Ok <==> url_normal(u) is Some)
            &&& (r matches Ok(p2) ==> p2.0@ == key@.subrange(1, key@.len() as int) && (
            p2.1 matches Source::GitHub(ub) && ub@ == url_normal(u).unwrap()))
            &&& (r matches Err(e) ==> e matches ConfigError::InvalidUrl { name, .. }
                && name@ == key@.subrange(1, key@.len() as int))
        }),
        path matches Some(pv) ==> git is None ==> (r matches Ok(p2) && p2.0@ == key@.subrange(
            1,
            key@.len() as int,
        ) && (p2.1 matches Source::Local(lp) && lp@ == trim_by(
            pv@,
            |b: u8| b == 34 || b == 92,
        ))),
        git is None && path is None ==> (r matches Err(e) && (e matches
            ConfigError::MissingSourceField { name } && name@ == key@.subrange(
            1,
            key@.len() as int,
        ))),
{
    let mut name: Vec<u8> = Vec::new();
    let kn = key.len();
    let mut i: usize = 1;
    while i < kn
        invariant
            1 <= i <= kn,
            kn == key@.len(),
            name@ == key@.subrange(1, i as int),
        decreases kn - i,
    {
        name.push(key[i]);
        proof {
            assert(key@.subrange(1, i + 1) =~= key@.subrange(1, i as int).push(key@[i as int]));
        }
        i = i + 1;
    }
    proof {
        assert(key@.subrange(1, kn as int) == name@);
    }
    match git {
        Some(gv) => {
            let u = trim_class(gv, true);
            match parse_url(&u) {
                Ok(nu) => Ok((name, Source::GitHub(nu))),
                Err(detail) => Err(ConfigError::InvalidUrl { name, detail }),
            }
        },
        None => match path {
            Some(pv) => {
                let p = trim_class(pv, false);
                Ok((name, Source::Local(p)))
            },
            None => Err(ConfigError::MissingSourceField { name }),
        },
    }
}

impl Config {
    pub open spec fn wf(self) -> bool {
        forall|i: int, j: int|
            0 <= i < j < self.deps@.len() ==> self.deps@[i].0@ != self.deps@[j].0@
    }

    pub fn new() -> (r: Config)
        ensures
            r.deps@.len() == 0,
            r.wf(),
    {
        Config { deps: Vec::new() }
    }

    /// Record a dependency; a later declaration of the same name replaces
    /// the earlier one.
    pub fn insert_dep(&mut self, name: Vec<u8>, source: Source)
        requires
            old(self).wf(),
        ensures
            final(self).wf(),
            (exists|i: int|
                0 <= i < old(self).deps@.len() && old(self).deps@[i].0@ == name@) ==> ({
                &&& final(self).deps@.len() == old(self).deps@.len()
                &&& exists|i: int|
                    0 <= i < final(self).deps@.len() && old(self).deps@[i].0@ == name@ && (
                    #[trigger] final(self).deps@[i]).0@ == name@ && final(self).deps@[i].1
                        == source && (forall|j: int|
                        0 <= j < final(self).deps@.len() && j != i ==> final(self).deps@[j] == old(
                            self,
                        ).deps@[j])
            }),
            !(exists|i: int|
                0 <= i < old(self).deps@.len() && old(self).deps@[i].0@ == name@) ==> ({
                &&& final(self).deps@.len() == old(self).deps@.len() + 1
                &&& (forall|j: int|
                    0 <= j < old(self).deps@.len() ==> final(self).deps@[j] == old(
                        self,
                    ).deps@[j])
                &&& final(self).deps@.last().0@ == name@
                &&& final(self).deps@.last().1 == source
            }),
    {
        let n = self.deps.len();
        let mut i: usize = 0;
        while i < n
            invariant
                0 <= i <= n,
                *self == *old(self),
                old(self).wf(),
                n == self.deps@.len(),
                forall|k: int| 0 <= k < i ==> self.deps@[k].0@ != name@,
            decreases n - i,
        {
            if bytes_eq(&self.deps[i].0, &name) {
                let ghost before = self.deps@;
                self.deps.remove(i);
                self.deps.insert(i, (name, source));
                proof {
                    assert forall|j: int|
                        0 <= j < self.deps@.len() && j != i implies self.deps@[j] == before[j] by {
                        if j < i {
                            assert(before.remove(i as int)[j] == before[j]);
                        } else {
                            assert(before.remove(i as int)[j - 1] == before[j]);
                        }
                    }
                    assert(self.deps@[i as int].0@ == name@);
                    assert forall|a: int, b: int|
                        0 <= a < b < self.deps@.len() implies self.deps@[a].0@
                        != self.deps@[b].0@ by {
                        if a != i && b != i {
                            assert(self.deps@[a] == before[a]);
                            assert(self.deps@[b] == before[b]);
                        } else if a == i {
                            assert(self.deps@[b] == before[b]);
                        } else {
                            assert(self.deps@[a] == before[a]);
                        }
                    }
                }
                return ;
            }
            i = i + 1;
        }
        self.deps.push((name, source));
    }
}

/// What the resolver does for one dependency: collect modules from a
/// directory as it stands, or fetch the remote tree into it first.
#[derive(Debug, PartialEq, Eq)]
pub enum ResolveAction {
    Collect { dir: Vec<u8> },
    FetchThenCollect { url: Vec<u8>, dir: Vec<u8> },
}

/// Decide the resolution of one dependency. A local path is used as is. A
/// remote source fetches into the build-cache directory keyed by the
/// dependency name, unless that directory already exists and is non-empty:
/// then the fetch is skipped and the cached tree is collected as it stands,
/// so a pre-populated cache triggers no remote fetch.
pub fn resolve_step(
    name: &Vec<u8>,
    source: &Source,
    build_dir: &Vec<u8>,
    cache_present: bool,
    cache_nonempty: bool,
) -> (r: ResolveAction)
    ensures
        source matches Source::Local(p) ==> r matches ResolveAction::Collect { dir }
            && dir@ == p@,
        source matches Source::GitHub(u) ==> ({
            let dest = build_dir@ + seq![47u8] + name@;
            &&& (cache_present && cache_nonempty ==> (r matches ResolveAction::Collect { dir }
                && dir@ == dest))
            &&& (!(cache_present && cache_nonempty) ==> (
            r matches ResolveAction::FetchThenCollect { url, dir } && url@ == u@ && dir@ == dest))
        }),
{
    match source {
        Source::Local(p) => ResolveAction::Collect { dir: clone_bytes(p) },
        Source::GitHub(u) => {
            let mut dir = clone_bytes(build_dir);
            dir.push(47);
            push_all(&mut dir, name);
            proof {
                assert(build_dir@.push(47u8) =~= build_dir@ + seq![47u8]);
            }
            if cache_present && cache_nonempty {
                ResolveAction::Collect { dir }
            } else {
                ResolveAction::FetchThenCollect { url: clone_bytes(u), dir }
            }
        },
    }
}

/// Errors of the pipeline's preconditions.
#[derive(Debug, PartialEq, Eq)]
pub enum PipelineError {
    /// The manifest file is absent from the project root.
    MissingManifest,
    /// The project entry module is absent.
    MissingEntryModule,
}

/// The pipeline's preconditions: the manifest file and the entry module must
/// both exist before any resolution or collection step runs; absence of
/// either aborts the build up front.
pub fn preflight(manifest_present: bool, entry_present: bool) -> (r: Result<(), PipelineError>)
    ensures
        r is Ok <==> (manifest_present && entry_present),
        !manifest_present ==> (r matches Err(e) && e is MissingManifest),
        manifest_present && !entry_present ==> (r matches Err(e) && e is MissingEntryModule),
{
    if !manifest_present {
        Err(PipelineError::MissingManifest)
    } else if !entry_present {
        Err(PipelineError::MissingEntryModule)
    } else {
        Ok(())
    }
}

} // verus!

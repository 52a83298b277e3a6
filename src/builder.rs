//! The configuration builder: registered sources, and the assembly of what
//! they yielded into one resolved tree.

use vstd::prelude::*;
use vstd::string::StringExecFns;
use crate::env::{env_views, load_env, load_env_vars, EnvVar};
use crate::error::{ConfigError, Failure};
use crate::file::{file_outcome, FileRead, FileSource};
use crate::resolve::{resolve_references, resolved};
use crate::source::{merge_all, merge_entries};
use crate::value::{Table, Val};

verus! {

/// A registered configuration source.
#[derive(Debug, Clone)]
pub enum SourceSpec {
    /// A file.
    File(FileSource),
    /// The environment variables under a prefix and a non-empty separator.
    Env { prefix: String, separator: String },
}

/// A builder of configuration: sources in the order of registration, later
/// ones overriding earlier ones.
#[derive(Debug, Clone)]
pub struct Config {
    pub sources: Vec<SourceSpec>,
}

/// Every environment source of `sources` has a non-empty separator.
pub open spec fn separators_ok(sources: Seq<SourceSpec>) -> bool {
    forall|i: int|
        0 <= i < sources.len() ==> match #[trigger] sources[i] {
            SourceSpec::Env { separator, .. } => separator@.len() > 0,
            _ => true,
        }
}

impl Config {
    /// A builder without sources.
    pub fn builder() -> (r: Config)
        ensures
            r.sources@.len() == 0,
    {
        Config { sources: Vec::new() }
    }

    /// Registers the file at `path`; a build fails where a `required` file
    /// does not exist, and skips a missing optional one.
    pub fn with_file(self, path: &str, required: bool) -> (r: Config)
        ensures
            r.sources@.len() == self.sources@.len() + 1,
            r.sources@.drop_last() == self.sources@,
            r.sources@.last() matches SourceSpec::File(f) && f.path@ == path@ && f.required
                == required,
    {
        let mut c = self;
        c.sources.push(SourceSpec::File(FileSource::new(path, required)));
        c
    }

    /// Registers the environment variables whose names start with `prefix`
    /// followed by `separator`.
    pub fn with_env(self, prefix: &str, separator: &str) -> (r: Config)
        requires
            separator@.len() > 0,
        ensures
            r.sources@.len() == self.sources@.len() + 1,
            r.sources@.drop_last() == self.sources@,
            r.sources@.last() matches SourceSpec::Env { prefix: p, separator: s } && p@ == prefix@
                && s@ == separator@,
    {
        let mut c = self;
        c.sources.push(
            SourceSpec::Env { prefix: String::from_str(prefix), separator: String::from_str(separator) },
        );
        c
    }
}

/// What one registered source yielded.
#[derive(Debug)]
pub enum Loaded {
    /// A file source and what reading it gave.
    File(FileSource, FileRead),
    /// An environment source and the variables of the environment.
    Env { prefix: String, separator: String, vars: Vec<EnvVar> },
}

/// `t` after what `l` yielded is merged into it.
pub open spec fn apply_loaded(t: Seq<(Seq<char>, Val)>, l: Loaded) -> Result<Seq<(Seq<char>, Val)>, Failure> {
    match l {
        Loaded::File(src, read) => match file_outcome(src, read) {
            Ok(es) => Ok(merge_all(t, es)),
            Err(e) => Err(e),
        },
        Loaded::Env { prefix, separator, vars } => Ok(
            load_env(t, env_views(vars@), prefix@, separator@),
        ),
    }
}

/// The merged tree of what `ls` yielded, in order, or the first failure.
pub open spec fn gather(ls: Seq<Loaded>) -> Result<Seq<(Seq<char>, Val)>, Failure>
    decreases ls.len(),
{
    if ls.len() == 0 {
        Ok(Seq::empty())
    } else {
        match gather(ls.drop_last()) {
            Err(e) => Err(e),
            Ok(t) => apply_loaded(t, ls.last()),
        }
    }
}

/// The merged and resolved tree of what `ls` yielded, or the first failure.
pub open spec fn assembled(ls: Seq<Loaded>) -> Result<Seq<(Seq<char>, Val)>, Failure> {
    match gather(ls) {
        Err(e) => Err(e),
        Ok(t) => resolved(t),
    }
}

/// Every environment source of `ls` has a non-empty separator.
pub open spec fn loaded_separators_ok(ls: Seq<Loaded>) -> bool {
    forall|i: int|
        0 <= i < ls.len() ==> match #[trigger] ls[i] {
            Loaded::Env { separator, .. } => separator@.len() > 0,
            _ => true,
        }
}

/// Merges what the sources yielded, in order of registration, into one
/// tree and resolves its references; the first failure ends the build.
#[verifier::loop_isolation(false)]
pub fn assemble(loaded: Vec<Loaded>) -> (r: Result<Table, ConfigError>)
    requires
        loaded_separators_ok(loaded@),
    ensures
        match r {
            Ok(t) => assembled(loaded@) == Ok::<Seq<(Seq<char>, Val)>, Failure>(t@),
            Err(e) => assembled(loaded@) == Err::<Seq<(Seq<char>, Val)>, Failure>(e@),
        },
{
    let ghost orig = loaded@;
    let mut loaded = loaded;
    let mut merged = Table::new();
    let n = loaded.len();
    let mut i: usize = 0;
    assert(orig.take(0) =~= Seq::<Loaded>::empty());
    while i < n
        invariant
            n == loaded@.len(),
            n == orig.len(),
            i <= n,
            loaded_separators_ok(orig),
            forall|j: int| i <= j < n ==> loaded@[j] == orig[j],
            gather(orig.take(i as int)) == Ok::<Seq<(Seq<char>, Val)>, Failure>(merged@),
        decreases n - i,
    {
        let mut item = Loaded::Env { prefix: String::new(), separator: String::new(), vars: Vec::new() };
        loaded.set_and_swap(i, &mut item);
        assert(orig.take(i as int + 1).drop_last() =~= orig.take(i as int));
        assert(item == orig[i as int]);
        match item {
            Loaded::File(src, read) => {
                match src.entries_from(read) {
                    Ok(es) => merge_entries(&mut merged, es),
                    Err(e) => {
                        proof {
                            assert(orig.take(i as int + 1).last() == orig[i as int]);
                            assert(gather(orig.take(i as int + 1)) == Err::<Seq<(Seq<char>, Val)>, Failure>(e@));
                            lemma_gather_err_stays(orig, (i + 1) as nat, n as nat);
                            assert(orig.take(n as int) =~= orig);
                        }
                        return Err(e);
                    },
                }
            },
            Loaded::Env { prefix, separator, vars } => {
                assert(separator@.len() > 0);
                load_env_vars(&mut merged, &vars, prefix.as_str(), separator.as_str());
            },
        }
        i = i + 1;
    }
    assert(orig.take(n as int) =~= orig);
    match resolve_references(&mut merged) {
        Ok(()) => Ok(merged),
        Err(e) => Err(e),
    }
}

proof fn lemma_gather_err_stays(ls: Seq<Loaded>, m: nat, k: nat)
    requires
        m <= k <= ls.len(),
        gather(ls.take(m as int)) is Err,
    ensures
        gather(ls.take(k as int)) == gather(ls.take(m as int)),
    decreases k,
{
    if k > m {
        assert(ls.take(k as int).drop_last() =~= ls.take(k - 1));
        lemma_gather_err_stays(ls, m, (k - 1) as nat);
    }
}

} // verus!

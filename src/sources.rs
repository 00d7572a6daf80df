use vstd::prelude::*;

use crate::cache::{load_redirects, Redirect, Registry, RegistryError};
use crate::text::same_text;

verus! {

/// A bang defined inline in the configuration.
#[derive(Debug, Clone)]
pub struct BangCustomConfig {
    pub template: String,
    pub trigger: String,
}

/// Where a list of bangs comes from: a local file, optionally refreshed from
/// a remote URL. A required source that fails stops start-up; an optional
/// one that fails contributes nothing.
#[derive(Debug, Clone)]
pub struct BangSourceConfig {
    pub required: bool,
    pub filepath: String,
    pub remote: Option<String>,
}

/// The bang part of the configuration.
#[derive(Debug, Clone)]
pub struct BangConfig {
    pub default_search_template: String,
    pub sources: Vec<BangSourceConfig>,
    /// Inline bangs, each under its short name; no two share a short name.
    pub custom: Vec<(String, BangCustomConfig)>,
}

impl BangConfig {
    /// The inline bangs have distinct short names.
    pub open spec fn wf(&self) -> bool {
        forall|i: int, j: int|
            0 <= i < j < self.custom@.len() ==> (#[trigger] self.custom@[i]).0@ != (
            #[trigger] self.custom@[j]).0@
    }

    /// Whether the inline bangs have distinct short names.
    pub fn has_unique_short_names(&self) -> (r: bool)
        ensures
            r == self.wf(),
    {
        let n = self.custom.len();
        let mut j: usize = 0;
        while j < n
            invariant
                j <= n,
                n == self.custom@.len(),
                forall|a: int, b: int|
                    0 <= a < b < j ==> (#[trigger] self.custom@[a]).0@ != (
                    #[trigger] self.custom@[b]).0@,
            decreases n - j,
        {
            let mut i: usize = 0;
            while i < j
                invariant
                    i <= j < n,
                    n == self.custom@.len(),
                    forall|a: int| 0 <= a < i ==> (#[trigger] self.custom@[a]).0@ != self.custom@[j as int].0@,
                decreases j - i,
            {
                if same_text(self.custom[i].0.as_str(), self.custom[j].0.as_str()) {
                    return false;
                }
                i = i + 1;
            }
            j = j + 1;
        }
        true
    }
}

/// What to do next for one bang source.
#[derive(Debug)]
pub enum SourceStep {
    /// Fetch the remote list into the source's file, then report whether
    /// that worked.
    Download,
    /// Read and parse the source's file, then report what came of it.
    Parse,
    /// Add these entries to the aggregate; the source is done.
    Contribute(Vec<Redirect>),
    /// A required source failed: stop start-up.
    Abort,
}

/// What happened to a bang source.
#[derive(Debug)]
pub enum SourceEvent {
    /// Work on the source begins.
    Started,
    /// The download finished, successfully or not.
    Downloaded(bool),
    /// The file was parsed into these entries, or could not be read or
    /// parsed.
    Parsed(Option<Vec<Redirect>>),
}

/// The step that follows `event` for `source`. Without `use_cache`, a
/// source with a remote is downloaded first. A failed download or parse
/// aborts for a required source; for an optional one a failed download
/// still goes on to parse what is on disk, and a failed parse contributes
/// nothing.
pub fn next_source_step(source: &BangSourceConfig, use_cache: bool, event: SourceEvent) -> (r:
    SourceStep)
    ensures
        match event {
            SourceEvent::Started => if !use_cache && source.remote is Some {
                r is Download
            } else {
                r is Parse
            },
            SourceEvent::Downloaded(ok) => if ok || !source.required {
                r is Parse
            } else {
                r is Abort
            },
            SourceEvent::Parsed(Some(v)) => r == SourceStep::Contribute(v),
            SourceEvent::Parsed(None) => if source.required {
                r is Abort
            } else {
                r matches SourceStep::Contribute(v) && v@.len() == 0
            },
        },
{
    match event {
        SourceEvent::Started => {
            if !use_cache && source.remote.is_some() {
                SourceStep::Download
            } else {
                SourceStep::Parse
            }
        },
        SourceEvent::Downloaded(ok) => {
            if ok || !source.required {
                SourceStep::Parse
            } else {
                SourceStep::Abort
            }
        },
        SourceEvent::Parsed(Some(v)) => SourceStep::Contribute(v),
        SourceEvent::Parsed(None) => {
            if source.required {
                SourceStep::Abort
            } else {
                SourceStep::Contribute(Vec::new())
            }
        },
    }
}

/// The redirect that an inline bang stands for.
pub open spec fn custom_redirect(short_name: String, c: BangCustomConfig) -> Redirect {
    Redirect { short_name, trigger: c.trigger, url_template: c.template }
}

/// The redirects of the inline bangs, in order.
pub open spec fn custom_redirects(custom: Seq<(String, BangCustomConfig)>) -> Seq<Redirect> {
    Seq::new(custom.len(), |i: int| custom_redirect(custom[i].0, custom[i].1))
}

/// The inline bangs of the configuration as redirects.
pub fn custom_bangs(config: &BangConfig) -> (r: Vec<Redirect>)
    ensures
        r@ == custom_redirects(config.custom@),
{
    let n = config.custom.len();
    let mut out: Vec<Redirect> = Vec::new();
    let mut i: usize = 0;
    while i < n
        invariant
            i <= n,
            n == config.custom@.len(),
            out@ == custom_redirects(config.custom@.subrange(0, i as int)),
        decreases n - i,
    {
        let entry = &config.custom[i];
        out.push(
            Redirect {
                short_name: entry.0.clone(),
                trigger: entry.1.trigger.clone(),
                url_template: entry.1.template.clone(),
            },
        );
        proof {
            assert(out@ =~= custom_redirects(config.custom@.subrange(0, i + 1)));
        }
        i = i + 1;
    }
    proof {
        assert(config.custom@.subrange(0, n as int) =~= config.custom@);
    }
    out
}

/// Fills the registry from what the sources gave and the inline bangs,
/// which come last so that they can shadow or extend what the sources
/// gave. With `overwrite` each is stored in place of the entry of its
/// trigger or appended; without it, the registry must be empty and is
/// loaded as a whole.
pub fn update_bangs_from_config(
    reg: &mut Registry,
    config: &BangConfig,
    loaded: Vec<Redirect>,
    overwrite: bool,
) -> (r: Result<(), RegistryError>)
    requires
        old(reg).wf(),
        config.wf(),
    ensures
        final(reg).wf(),
        ({
            let all = loaded@ + custom_redirects(config.custom@);
            &&& overwrite ==> r is Ok && (final(reg).entries(), final(reg).index())
                == crate::cache::upserted_all(old(reg).entries(), old(reg).index(), all)
            &&& !overwrite && old(reg).entries().len() > 0 ==> r == Err::<(), RegistryError>(
                RegistryError::AlreadyInitialized,
            ) && final(reg).entries() == old(reg).entries() && final(reg).index() == old(
                reg,
            ).index()
            &&& !overwrite && old(reg).entries().len() == 0 ==> r is Ok && final(reg).entries()
                == all && final(reg).index() == crate::cache::index_of_list(all)
        }),
{
    let mut all = loaded;
    let mut custom = custom_bangs(config);
    all.append(&mut custom);
    load_redirects(reg, all, overwrite)
}

} // verus!

//! Fidelity-preserving model of `~/.ssh/config`: [`SshConfig`] is the single entry point a
//! frontend drives — [`SshConfig::parse`]/[`list_hosts`](SshConfig::list_hosts) to read,
//! [`upsert_host`](SshConfig::upsert_host)/[`remove_host`](SshConfig::remove_host) plus
//! [`contents`](SshConfig::contents) to write. Reading and writing the file itself is the
//! frontend's job.

pub mod host;
pub mod laws;
pub mod model;
pub mod parser;
pub mod writer;

pub use host::SshHost;
pub use model::KnownDirective;

use vstd::prelude::*;

use crate::command::strings_view;
use host::{
    clone_host, extract_include_patterns, hosts_in, hosts_of, hosts_view, include_patterns,
    read_only_hosts, HostView,
};
use model::{render_view, segs_view, SegView, Segment};
use parser::{parse, parse_view, render};
use writer::{upsert, upsert_renaming, upsert_renaming_view, upsert_view};

verus! {

#[verifier::external_type_specification]
#[verifier::external_body]
pub struct ExPathBuf(std::path::PathBuf);

#[verifier::external_type_specification]
#[verifier::external_body]
pub struct ExIoError(std::io::Error);

/// Why a config could not be read or written.
#[derive(Debug)]
pub enum ConfigError {
    Io { path: std::path::PathBuf, source: std::io::Error },
    NoHomeDir,
}

/// A parsed `~/.ssh/config` (or an arbitrary path), plus every host flattened out of its
/// `Include`d files.
pub struct SshConfig {
    path: std::path::PathBuf,
    segments: Vec<Segment>,
    included_hosts: Vec<SshHost>,
}

/// The contents of a config: its segments and the read-only hosts of its included files.
pub struct ConfigView {
    pub segments: Seq<SegView>,
    pub included: Seq<HostView>,
}

impl View for SshConfig {
    type V = ConfigView;

    closed spec fn view(&self) -> ConfigView {
        ConfigView { segments: segs_view(self.segments@), included: hosts_view(self.included_hosts@) }
    }
}

/// Every host of the included files is read-only.
pub open spec fn all_read_only(hs: Seq<HostView>) -> bool {
    forall|i: int| 0 <= i < hs.len() ==> #[trigger] hs[i].read_only
}

/// What reading the config file gave: its text, the news that it does not exist, or another
/// I/O error.
pub enum ReadOutcome {
    Text(String),
    Missing,
    Failed(std::io::Error),
}

impl SshConfig {
    #[verifier::type_invariant]
    closed spec fn included_are_read_only(&self) -> bool {
        all_read_only(hosts_view(self.included_hosts@))
    }

    /// The config for the outcome of reading the file at `path`: its text parsed, an empty
    /// config when the file does not exist, and any other read error reported with the path.
    pub fn from_read(path: std::path::PathBuf, read: ReadOutcome) -> (r: Result<SshConfig, ConfigError>)
        ensures
            read matches ReadOutcome::Text(text) ==> (r matches Ok(cfg) && cfg@.segments == parse_view(
                text@,
            ) && cfg@.included.len() == 0 && cfg.path_of() == path),
            read is Missing ==> (r matches Ok(cfg) && cfg@.segments.len() == 0 && cfg@.included.len()
                == 0 && cfg.path_of() == path),
            read matches ReadOutcome::Failed(e) ==> r == Err::<SshConfig, ConfigError>(
                ConfigError::Io { path, source: e },
            ),
    {
        match read {
            ReadOutcome::Text(text) => Ok(SshConfig::parse(path, text.as_str())),
            ReadOutcome::Missing => {
                let cfg = SshConfig { path, segments: Vec::new(), included_hosts: Vec::new() };
                assert(cfg@.segments =~= Seq::<SegView>::empty());
                Ok(cfg)
            },
            ReadOutcome::Failed(e) => Err(ConfigError::Io { path, source: e }),
        }
    }

    /// The path the config was read from.
    pub closed spec fn path_of(&self) -> std::path::PathBuf {
        self.path
    }

    /// A config read from `contents`, the text of the file at `path` (empty for a missing file).
    /// Included files are added afterwards with [`Self::add_included_file`].
    pub fn parse(path: std::path::PathBuf, contents: &str) -> (cfg: SshConfig)
        ensures
            cfg@.segments == parse_view(contents@),
            cfg@.included == Seq::<HostView>::empty(),
            cfg.path_of() == path,
    {
        let segments = parse(contents);
        let cfg = SshConfig { path, segments, included_hosts: Vec::new() };
        assert(cfg@.included =~= Seq::<HostView>::empty());
        cfg
    }

    /// Every `Include` pattern of the file, in order; the frontend expands them to files.
    pub fn include_patterns(&self) -> (patterns: Vec<String>)
        ensures
            strings_view(patterns@) == include_patterns(self@.segments),
    {
        extract_include_patterns(&self.segments)
    }

    /// Adds every host of an included file (given by its text) as read-only. Never followed
    /// recursively: the included file's own `Include` lines are ignored.
    pub fn add_included_file(&mut self, contents: &str)
        ensures
            final(self)@.segments == old(self)@.segments,
            final(self)@.included == old(self)@.included + read_only_hosts(
                hosts_of(parse_view(contents@)),
            ),
            final(self).path_of() == old(self).path_of(),
    {
        proof {
            use_type_invariant(&*self);
        }
        let segs = parse(contents);
        let hosts = hosts_in(&segs);
        let mut included: Vec<SshHost> = Vec::new();
        std::mem::swap(&mut included, &mut self.included_hosts);
        let ghost start = hosts_view(included@);
        let ghost hv = hosts_view(hosts@);
        let mut i: usize = 0;
        while i < hosts.len()
            invariant
                i <= hosts.len(),
                hv == hosts_view(hosts@),
                hosts_view(included@) == start + read_only_hosts(hv.take(i as int)),
                all_read_only(hosts_view(included@)),
            decreases hosts.len() - i,
        {
            let mut h = clone_host(&hosts[i]);
            h.read_only = true;
            let ghost before = hosts_view(included@);
            included.push(h);
            proof {
                assert(hosts_view(included@) =~= before.push(h@));
                assert(read_only_hosts(hv.take(i + 1)) =~= read_only_hosts(hv.take(i as int)).push(
                    h@,
                ));
            }
            i += 1;
        }
        proof {
            assert(hv.take(hosts.len() as int) =~= hv);
        }
        std::mem::swap(&mut included, &mut self.included_hosts);
    }


    pub fn path(&self) -> (p: &std::path::PathBuf)
        ensures
            *p == self.path_of(),
    {
        &self.path
    }

    /// Every host known to this config: rewritable `Host <alias>` blocks, read-only
    /// wildcard/multi-pattern blocks, and read-only hosts from `Include`d files.
    pub fn list_hosts(&self) -> (hosts: Vec<SshHost>)
        ensures
            hosts_view(hosts@) == hosts_of(self@.segments) + self@.included,
            all_read_only(self@.included),
    {
        proof {
            use_type_invariant(self);
        }
        let mut hosts = hosts_in(&self.segments);
        let ghost start = hosts_view(hosts@);
        let ghost inc = hosts_view(self.included_hosts@);
        let mut i: usize = 0;
        while i < self.included_hosts.len()
            invariant
                i <= self.included_hosts.len(),
                inc == hosts_view(self.included_hosts@),
                hosts_view(hosts@) == start + inc.take(i as int),
            decreases self.included_hosts.len() - i,
        {
            let h = clone_host(&self.included_hosts[i]);
            let ghost before = hosts_view(hosts@);
            hosts.push(h);
            proof {
                assert(hosts_view(hosts@) =~= before.push(h@));
                assert(inc.take(i + 1) =~= inc.take(i as int).push(h@));
            }
            i += 1;
        }
        proof {
            assert(inc.take(self.included_hosts.len() as int) =~= inc);
        }
        hosts
    }

    /// Create or update the `Host <alias>` block matching `host.alias`, appending a new block at
    /// the end of the file if none exists yet.
    pub fn upsert_host(&mut self, host: SshHost)
        ensures
            final(self)@.segments == upsert_view(old(self)@.segments, host@),
            final(self)@.included == old(self)@.included,
            final(self).path_of() == old(self).path_of(),
    {
        proof {
            use_type_invariant(&*self);
        }
        let mut segments: Vec<Segment> = Vec::new();
        std::mem::swap(&mut segments, &mut self.segments);
        upsert(&mut segments, &host);
        std::mem::swap(&mut segments, &mut self.segments);
    }

    /// Same as [`upsert_host`](Self::upsert_host), but locates the block via `previous_alias`
    /// (the alias before the edit) so renaming an alias updates the existing block in place
    /// instead of appending a duplicate.
    pub fn upsert_host_renaming(&mut self, previous_alias: &str, host: SshHost)
        ensures
            final(self)@.segments == upsert_renaming_view(
                old(self)@.segments,
                Some(previous_alias@),
                host@,
            ),
            final(self)@.included == old(self)@.included,
            final(self).path_of() == old(self).path_of(),
    {
        proof {
            use_type_invariant(&*self);
        }
        let mut segments: Vec<Segment> = Vec::new();
        std::mem::swap(&mut segments, &mut self.segments);
        upsert_renaming(&mut segments, Some(previous_alias), &host);
        std::mem::swap(&mut segments, &mut self.segments);
    }

    /// Remove the `Host <alias>` block entirely. Returns `false` if no such managed block exists
    /// (wildcard/multi-pattern/`Include`d hosts can never be removed this way).
    pub fn remove_host(&mut self, alias: &str) -> (removed: bool)
        ensures
            removed == (writer::before_managed(old(self)@.segments, alias@)
                < old(self)@.segments.len()),
            removed ==> final(self)@.segments == old(self)@.segments.remove(
                writer::before_managed(old(self)@.segments, alias@) as int,
            ),
            !removed ==> final(self)@.segments == old(self)@.segments,
            final(self)@.included == old(self)@.included,
            final(self).path_of() == old(self).path_of(),
    {
        proof {
            use_type_invariant(&*self);
        }
        let mut segments: Vec<Segment> = Vec::new();
        std::mem::swap(&mut segments, &mut self.segments);
        let removed = writer::remove(&mut segments, alias);
        std::mem::swap(&mut segments, &mut self.segments);
        removed
    }

    /// The text to write back to the file.
    pub fn contents(&self) -> (text: String)
        ensures
            text@ == render_view(self@.segments),
    {
        render(&self.segments)
    }
}

} // verus!

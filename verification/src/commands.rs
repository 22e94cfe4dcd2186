//! The commands of the front end, as plain records, and the choices that
//! they stand for.

use crate::backend::BackendType;
use crate::snapshot::{
    borrowed_views, is_selection, marked_to_show, shown_count, text_view, texts, Snapshot,
    SnapshotManager, SnapshotView,
};
use crate::text::{begins_with, chars_of, has_prefix, same_text};
use vstd::prelude::*;

verus! {

/// What to back up and how.
#[derive(Debug)]
pub struct BackupCommand {
    pub paths: Vec<String>,
    pub tag: Vec<String>,
    pub exclude: Vec<String>,
    pub exclude_if_present: Vec<String>,
    pub one_file_system: bool,
    pub dry_run: bool,
    pub parent: Option<String>,
    pub hostname: Option<String>,
}

impl BackupCommand {
    /// Whether a path is left out of the backup.  No path is: the exclude
    /// patterns are recorded in the snapshot and not applied.
    pub fn should_exclude(&self, path: &str) -> (excluded: bool)
        ensures
            !excluded,
    {
        false
    }
}

/// What to do with the accounts of the hosting panel.
#[derive(Debug)]
#[allow(inconsistent_fields)]
pub enum HestiaSubcommands {
    Backup {
        user: Option<String>,
        repository: String,
        cleanup: bool,
        include_pattern: Option<String>,
        exclude_pattern: Option<String>,
        keep_tarballs: usize,
    },
    Restore { user: String, snapshot: String, repository: String, temp: bool },
    ListUsers { detailed: bool },
    ListBackups { repository: String, user: Option<String> },
    UserInfo { user: String },
}

#[derive(Debug)]
pub struct HestiaCommand {
    pub command: HestiaSubcommands,
}

/// Where and how to set up a repository.
#[derive(Debug)]
pub struct InitCommand {
    pub repo: Option<String>,
    pub backend: Option<String>,
    pub bucket: Option<String>,
    pub prefix: Option<String>,
    pub endpoint: Option<String>,
    pub access_key: Option<String>,
    pub secret_key: Option<String>,
    pub region: String,
    pub container: Option<String>,
    pub account_name: Option<String>,
    pub connection_string: Option<String>,
    pub client_id: Option<String>,
    pub storage_tier: Option<String>,
}

/// The kind of store that a name stands for, if it stands for one that can
/// be set up: `local`, `s3`, `minio` or `azure`.
pub open spec fn named_backend(name: Seq<char>) -> Option<BackendType> {
    if name == "local"@ {
        Some(BackendType::Local)
    } else if name == "s3"@ {
        Some(BackendType::S3)
    } else if name == "minio"@ {
        Some(BackendType::MinIO)
    } else if name == "azure"@ {
        Some(BackendType::Azure)
    } else {
        None
    }
}

impl InitCommand {
    /// The kind of store to set up: the one named, and a local one where
    /// none is named.
    pub fn backend_type(&self) -> (kind: Option<BackendType>)
        ensures
            kind == match self.backend {
                Some(name) => named_backend(name@),
                None => Some(BackendType::Local),
            },
    {
        match &self.backend {
            None => Some(BackendType::Local),
            Some(name) => {
                let name = chars_of(name.as_str());
                if same_text(&name, &chars_of("local")) {
                    Some(BackendType::Local)
                } else if same_text(&name, &chars_of("s3")) {
                    Some(BackendType::S3)
                } else if same_text(&name, &chars_of("minio")) {
                    Some(BackendType::MinIO)
                } else if same_text(&name, &chars_of("azure")) {
                    Some(BackendType::Azure)
                } else {
                    None
                }
            },
        }
    }

    /// Whether the endpoint is reached over TLS: whether it begins with
    /// `https://`.
    pub fn uses_tls(endpoint: &str) -> (r: bool)
        ensures
            r == begins_with(endpoint@, "https://"@),
    {
        has_prefix(&chars_of(endpoint), &chars_of("https://"))
    }
}

/// The command that restores files from a snapshot.
#[derive(Debug)]
pub struct RestoreCommand;

/// Which snapshots to show and how.
#[derive(Debug)]
pub struct SnapshotsCommand {
    pub group_by: Option<String>,
    pub format: Option<String>,
    pub hostname: Option<String>,
    pub tag: Vec<String>,
    pub path: Vec<String>,
    pub latest: Option<usize>,
}

impl SnapshotsCommand {
    /// The snapshots that the command shows, the latest first: those taken
    /// on the host asked for that carry one of the tags asked for, and of
    /// these the latest ones up to the limit.
    pub fn select<'a>(&self, manager: &'a SnapshotManager) -> (found: Vec<&'a Snapshot>)
        ensures
            exists|all: Seq<SnapshotView>|
                #[trigger] is_selection(
                    all,
                    manager.spec_snapshots(),
                    marked_to_show(
                        manager.spec_snapshots(),
                        text_view(self.hostname),
                        texts(self.tag@),
                    ),
                ) && borrowed_views(found@) == all.subrange(
                    0,
                    shown_count(all.len(), self.latest) as int,
                ),
    {
        manager.select(&self.hostname, &self.tag, self.latest)
    }
}

} // verus!

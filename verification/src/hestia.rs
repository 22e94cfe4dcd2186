//! Settings for backing up the accounts of a hosting control panel, and the
//! naming of the archives that the panel writes.

use crate::glob::{glob_match, glob_matches};
use crate::snapshot::{text_view, texts};
use crate::text::{
    begins_with, chars_of, contains_text, ends_with, has_prefix, has_suffix, lines_of, number_in,
    occurs_in, parse_number, part_views, remove_all, same_text, split_lines, text_of, trim_char,
    trimmed, without,
};
use vstd::prelude::*;
use vstd::seq_lib::lemma_multiset_commutative;
use vstd::string::StringExecFns;

verus! {

/// How the panel's database server is reached.
#[derive(Debug)]
pub struct MySQLCredentials {
    pub host: String,
    pub port: u16,
    pub root_user: String,
    pub root_password: Option<String>,
}

/// A web domain of a panel user, with the places of its files.
#[derive(Debug)]
pub struct HestiaDomain {
    pub domain: String,
    pub username: String,
    pub document_root: String,
    pub ssl_enabled: bool,
    pub ssl_cert_path: Option<String>,
    pub nginx_config: Option<String>,
    pub apache_config: Option<String>,
    pub access_log: Option<String>,
    pub error_log: Option<String>,
    pub subdirectories: Vec<String>,
}

#[derive(Debug, Clone, Copy, PartialEq, Eq, Structural)]
pub enum DatabaseType {
    MySQL,
    MariaDB,
    PostgreSQL,
}

/// Where the panel lives and what of it is backed up.
#[derive(Debug)]
pub struct HestiaIntegration {
    pub hestia_path: String,
    pub backup_path: String,
    pub include_system_files: bool,
    pub include_user_data: bool,
    pub include_databases: bool,
    pub include_mail: bool,
    pub exclude_cache: bool,
    pub compress_backups: bool,
    pub mysql_credentials: Option<MySQLCredentials>,
}

/// The port on which the database server listens unless told otherwise.
pub const MYSQL_PORT: u16 = 3306;

impl HestiaIntegration {
    /// The settings for a panel at `hestia_path`: everything is backed up
    /// but caches, archives are compressed and go to `/backup/hestia`, and no
    /// database credentials are set.
    pub fn new(hestia_path: &str) -> (settings: Self)
        ensures
            settings.hestia_path@ == hestia_path@,
            settings.backup_path@ == "/backup/hestia"@,
            settings.include_system_files,
            settings.include_user_data,
            settings.include_databases,
            settings.include_mail,
            settings.exclude_cache,
            settings.compress_backups,
            settings.mysql_credentials is None,
    {
        HestiaIntegration {
            hestia_path: String::from_str(hestia_path),
            backup_path: String::from_str("/backup/hestia"),
            include_system_files: true,
            include_user_data: true,
            include_databases: true,
            include_mail: true,
            exclude_cache: true,
            compress_backups: true,
            mysql_credentials: None,
        }
    }

    /// The settings for a panel at its usual place, `/usr/local/hestia`.
    pub fn default() -> (settings: Self)
        ensures
            settings.hestia_path@ == "/usr/local/hestia"@,
            settings.backup_path@ == "/backup/hestia"@,
            settings.include_system_files,
            settings.include_user_data,
            settings.include_databases,
            settings.include_mail,
            settings.exclude_cache,
            settings.compress_backups,
            settings.mysql_credentials is None,
    {
        HestiaIntegration::new("/usr/local/hestia")
    }

    /// The same settings with credentials for the database server on its
    /// usual port.
    pub fn with_mysql_credentials(self, host: String, user: String, password: Option<String>) -> (settings:
        Self)
        ensures
            settings.mysql_credentials matches Some(c) && c.host == host && c.port == MYSQL_PORT
                && c.root_user == user && c.root_password == password,
            settings.hestia_path == self.hestia_path,
            settings.backup_path == self.backup_path,
            settings.include_system_files == self.include_system_files,
            settings.include_user_data == self.include_user_data,
            settings.include_databases == self.include_databases,
            settings.include_mail == self.include_mail,
            settings.exclude_cache == self.exclude_cache,
            settings.compress_backups == self.compress_backups,
    {
        let mut settings = self;
        settings.mysql_credentials = Some(
            MySQLCredentials { host, port: MYSQL_PORT, root_user: user, root_password: password },
        );
        settings
    }

    /// The same settings with the four choices of what is backed up set
    /// anew.
    pub fn set_backup_options(
        self,
        include_system: bool,
        include_users: bool,
        include_databases: bool,
        include_mail: bool,
    ) -> (settings: Self)
        ensures
            settings.include_system_files == include_system,
            settings.include_user_data == include_users,
            settings.include_databases == include_databases,
            settings.include_mail == include_mail,
            settings.hestia_path == self.hestia_path,
            settings.backup_path == self.backup_path,
            settings.exclude_cache == self.exclude_cache,
            settings.compress_backups == self.compress_backups,
            settings.mysql_credentials == self.mysql_credentials,
    {
        let mut settings = self;
        settings.include_system_files = include_system;
        settings.include_user_data = include_users;
        settings.include_databases = include_databases;
        settings.include_mail = include_mail;
        settings
    }
}

/// Whether a file name is that of an archive of the user's: the user's
/// name, a dot, anything, and `.tar` at the end.  Without a user every name
/// that ends in `.tar` is one.
pub open spec fn names_archive(file_name: Seq<char>, user: Option<Seq<char>>) -> bool {
    match user {
        Some(name) => begins_with(file_name, name + "."@) && ends_with(file_name, ".tar"@),
        None => ends_with(file_name, ".tar"@),
    }
}

/// Tells whether a file is an archive of the user's.
pub fn is_user_archive(file_name: &str, user: Option<&str>) -> (r: bool)
    ensures
        r == names_archive(
            file_name@,
            match user {
                Some(name) => Some(name@),
                None => None,
            },
        ),
{
    let name = chars_of(file_name);
    let tar = chars_of(".tar");
    match user {
        Some(user) => {
            let lead = chars_of(String::from_str(user).concat(".").as_str());
            has_prefix(&name, &lead) && has_suffix(&name, &tar)
        },
        None => has_suffix(&name, &tar),
    }
}

/// The value of a setting: the line without its key, and without the
/// quotes around what is left.
pub open spec fn setting(line: Seq<char>, key: Seq<char>, quote: char) -> Seq<char> {
    trimmed(without(line, key), quote)
}

/// Reads the value of a setting from its line.
fn read_setting(line: &Vec<char>, key: &Vec<char>, quote: char) -> (value: Vec<char>)
    ensures
        value@ == setting(line@, key@, quote),
{
    trim_char(&remove_all(line, key), quote)
}

/// The version that the lines of the panel's configuration name: the value
/// of the first `VERSION=` line, and `unknown` without one.
pub open spec fn version_in(lines: Seq<Seq<char>>) -> Seq<char>
    decreases lines.len(),
{
    if lines.len() == 0 {
        "unknown"@
    } else if begins_with(lines[0], "VERSION="@) {
        setting(lines[0], "VERSION="@, '"')
    } else {
        version_in(lines.drop_first())
    }
}

/// The version of the panel, from its configuration.
pub fn panel_version(content: &str) -> (version: String)
    ensures
        version@ == version_in(lines_of(content@)),
{
    let lines = split_lines(&chars_of(content));
    let key = chars_of("VERSION=");
    let ghost all = part_views(lines@);
    let mut i: usize = 0;
    assert(all.subrange(0, all.len() as int) =~= all);
    while i < lines.len()
        invariant
            i <= lines.len(),
            all == part_views(lines@),
            all == lines_of(content@),
            key@ == "VERSION="@,
            version_in(all) == version_in(all.subrange(i as int, all.len() as int)),
        decreases lines.len() - i,
    {
        let ghost rest = all.subrange(i as int, all.len() as int);
        proof {
            assert(rest[0] == lines@[i as int]@);
            assert(rest.drop_first() =~= all.subrange(i + 1, all.len() as int));
        }
        if has_prefix(&lines[i], &key) {
            return text_of(&read_setting(&lines[i], &key, '"'));
        }
        i += 1;
    }
    String::from_str("unknown")
}

/// What the panel records of a user's standing.  The usages are in bytes.
#[derive(Debug, Clone, Copy, PartialEq, Eq, Structural)]
pub struct UserStats {
    pub suspended: bool,
    pub disk_usage: u64,
    pub bandwidth_usage: u64,
}

/// A number of mebibytes in bytes, and no more than 64 bits hold.
pub open spec fn mebibytes(n: u64) -> u64 {
    if n * 1_048_576 > u64::MAX {
        u64::MAX
    } else {
        (n * 1_048_576) as u64
    }
}

/// The standing after one more line of the user's configuration.
/// `SUSPENDED=` sets the suspension to whether the line holds `yes`;
/// `U_DISK=` and `U_BANDWIDTH=` set a usage where their value is a number,
/// taken in mebibytes.
pub open spec fn stats_after(stats: UserStats, line: Seq<char>) -> UserStats {
    if begins_with(line, "SUSPENDED="@) {
        UserStats { suspended: occurs_in(line, "yes"@), ..stats }
    } else if begins_with(line, "U_DISK="@) {
        match number_in(setting(line, "U_DISK="@, '\'')) {
            Some(n) => UserStats { disk_usage: mebibytes(n), ..stats },
            None => stats,
        }
    } else if begins_with(line, "U_BANDWIDTH="@) {
        match number_in(setting(line, "U_BANDWIDTH="@, '\'')) {
            Some(n) => UserStats { bandwidth_usage: mebibytes(n), ..stats },
            None => stats,
        }
    } else {
        stats
    }
}

/// The standing that the lines of a user's configuration give.
pub open spec fn stats_of(lines: Seq<Seq<char>>) -> UserStats
    decreases lines.len(),
{
    if lines.len() == 0 {
        UserStats { suspended: false, disk_usage: 0, bandwidth_usage: 0 }
    } else {
        stats_after(stats_of(lines.drop_last()), lines.last())
    }
}

/// Turns mebibytes into bytes.
fn to_bytes(n: u64) -> (bytes: u64)
    ensures
        bytes == mebibytes(n),
{
    if n > u64::MAX / 1_048_576 {
        u64::MAX
    } else {
        n * 1_048_576
    }
}

/// The standing of a user, from the user's configuration.
pub fn user_stats(content: &str) -> (stats: UserStats)
    ensures
        stats == stats_of(lines_of(content@)),
{
    let lines = split_lines(&chars_of(content));
    let suspended_key = chars_of("SUSPENDED=");
    let disk_key = chars_of("U_DISK=");
    let bandwidth_key = chars_of("U_BANDWIDTH=");
    let yes = chars_of("yes");
    let ghost all = part_views(lines@);
    let mut stats = UserStats { suspended: false, disk_usage: 0, bandwidth_usage: 0 };
    let mut i: usize = 0;
    assert(all.subrange(0, 0) =~= Seq::<Seq<char>>::empty());
    while i < lines.len()
        invariant
            i <= lines.len(),
            all == part_views(lines@),
            suspended_key@ == "SUSPENDED="@,
            disk_key@ == "U_DISK="@,
            bandwidth_key@ == "U_BANDWIDTH="@,
            yes@ == "yes"@,
            stats == stats_of(all.subrange(0, i as int)),
        decreases lines.len() - i,
    {
        let line = &lines[i];
        proof {
            let head = all.subrange(0, i + 1);
            assert(head.drop_last() =~= all.subrange(0, i as int));
            assert(head.last() == line@);
        }
        if has_prefix(line, &suspended_key) {
            stats.suspended = contains_text(line, &yes);
        } else if has_prefix(line, &disk_key) {
            match parse_number(&read_setting(line, &disk_key, '\'')) {
                Some(n) => {
                    stats.disk_usage = to_bytes(n);
                },
                None => {},
            }
        } else if has_prefix(line, &bandwidth_key) {
            match parse_number(&read_setting(line, &bandwidth_key, '\'')) {
                Some(n) => {
                    stats.bandwidth_usage = to_bytes(n);
                },
                None => {},
            }
        }
        i += 1;
    }
    assert(all.subrange(0, all.len() as int) =~= all);
    stats
}

/// The commands of the scheduled jobs that the lines name: the value of
/// each `CMD=` line, in order.
pub open spec fn jobs_of(lines: Seq<Seq<char>>) -> Seq<Seq<char>>
    decreases lines.len(),
{
    if lines.len() == 0 {
        Seq::empty()
    } else if begins_with(lines.last(), "CMD="@) {
        jobs_of(lines.drop_last()).push(setting(lines.last(), "CMD="@, '\''))
    } else {
        jobs_of(lines.drop_last())
    }
}

/// The commands of a user's scheduled jobs, from the user's job file.
pub fn cron_jobs(content: &str) -> (jobs: Vec<String>)
    ensures
        crate::snapshot::texts(jobs@) == jobs_of(lines_of(content@)),
{
    let lines = split_lines(&chars_of(content));
    let key = chars_of("CMD=");
    let ghost all = part_views(lines@);
    let mut jobs: Vec<String> = Vec::new();
    let mut i: usize = 0;
    assert(all.subrange(0, 0) =~= Seq::<Seq<char>>::empty());
    assert(crate::snapshot::texts(jobs@) =~= Seq::<Seq<char>>::empty());
    while i < lines.len()
        invariant
            i <= lines.len(),
            all == part_views(lines@),
            key@ == "CMD="@,
            crate::snapshot::texts(jobs@) == jobs_of(all.subrange(0, i as int)),
        decreases lines.len() - i,
    {
        let line = &lines[i];
        let ghost before = crate::snapshot::texts(jobs@);
        proof {
            let head = all.subrange(0, i + 1);
            assert(head.drop_last() =~= all.subrange(0, i as int));
            assert(head.last() == line@);
        }
        if has_prefix(line, &key) {
            let job = text_of(&read_setting(line, &key, '\''));
            jobs.push(job);
            assert(crate::snapshot::texts(jobs@) =~= before.push(setting(line@, "CMD="@, '\'')));
        }
        i += 1;
    }
    assert(all.subrange(0, all.len() as int) =~= all);
    jobs
}

/// Whether the lines of a domain's configuration tell that the domain has
/// a certificate: whether a line holds both `SSL=` and `yes`.
pub open spec fn ssl_in(lines: Seq<Seq<char>>) -> bool {
    exists|i: int|
        0 <= i < lines.len() && occurs_in(#[trigger] lines[i], "SSL="@) && occurs_in(
            lines[i],
            "yes"@,
        )
}

/// Whether a domain has a certificate, from the domain's configuration.
pub fn has_ssl(content: &str) -> (r: bool)
    ensures
        r == ssl_in(lines_of(content@)),
{
    let lines = split_lines(&chars_of(content));
    let key = chars_of("SSL=");
    let yes = chars_of("yes");
    let ghost all = part_views(lines@);
    let mut i: usize = 0;
    while i < lines.len()
        invariant
            i <= lines.len(),
            all == part_views(lines@),
            all == lines_of(content@),
            key@ == "SSL="@,
            yes@ == "yes"@,
            forall|j: int|
                0 <= j < i ==> !(occurs_in(#[trigger] all[j], "SSL="@) && occurs_in(all[j], "yes"@)),
        decreases lines.len() - i,
    {
        assert(all[i as int] == lines@[i as int]@);
        if contains_text(&lines[i], &key) && contains_text(&lines[i], &yes) {
            return true;
        }
        i += 1;
    }
    false
}

/// Whether a directory of the panel's user data is a user to list: not a
/// hidden one, and not `history`.
pub fn is_listed_user(name: &str) -> (r: bool)
    ensures
        r == (!begins_with(name@, "."@) && name@ != "history"@),
{
    let name = chars_of(name);
    !has_prefix(&name, &chars_of(".")) && !same_text(&name, &chars_of("history"))
}

/// Whether a directory of the panel's user data is a user to back up: not
/// a hidden one, and not `admin`.
pub fn is_backup_user(name: &str) -> (r: bool)
    ensures
        r == (!begins_with(name@, "."@) && name@ != "admin"@),
{
    let name = chars_of(name);
    !has_prefix(&name, &chars_of(".")) && !same_text(&name, &chars_of("admin"))
}

/// The latest of the archives with the times given: the first of those
/// that none is later than.
pub fn latest_archive(times: &Vec<u64>) -> (latest: Option<usize>)
    ensures
        match latest {
            None => times@.len() == 0,
            Some(at) => {
                &&& at < times@.len()
                &&& forall|j: int| 0 <= j < times@.len() ==> times@[j] <= times@[at as int]
                &&& forall|j: int| 0 <= j < at ==> times@[j] < times@[at as int]
            },
        },
{
    if times.len() == 0 {
        return None;
    }
    let mut at: usize = 0;
    let mut i: usize = 1;
    while i < times.len()
        invariant
            1 <= i <= times.len(),
            at < i,
            forall|j: int| 0 <= j < i ==> times@[j] <= times@[at as int],
            forall|j: int| 0 <= j < at ==> times@[j] < times@[at as int],
        decreases times.len() - i,
    {
        if times[i] > times[at] {
            at = i;
        }
        i += 1;
    }
    Some(at)
}

/// The places `0` to `count - 1`, in order.
pub open spec fn places(count: nat) -> Seq<usize> {
    Seq::new(count, |i: int| i as usize)
}

/// Whether `order` lists the archives with the times given from the latest
/// to the earliest, each once, and those of one time in the order of their
/// places.
pub open spec fn latest_first(times: Seq<u64>, order: Seq<usize>) -> bool {
    &&& order.to_multiset() == places(times.len()).to_multiset()
    &&& forall|i: int| 0 <= i < order.len() ==> (#[trigger] order[i]) < times.len()
    &&& forall|i: int, j: int|
        0 <= i < j < order.len() ==> times[(#[trigger] order[i]) as int] >= times[(
        #[trigger] order[j]) as int]
    &&& forall|i: int, j: int|
        0 <= i < j < order.len() && times[(#[trigger] order[i]) as int] == times[(
        #[trigger] order[j]) as int] ==> order[i] < order[j]
}

/// The number of archives that stay: `keep_count`, or all of them where
/// there are fewer.
pub open spec fn kept_count(keep_count: usize, count: nat) -> int {
    if keep_count < count {
        keep_count as int
    } else {
        count as int
    }
}

/// The archives to remove so that the `keep_count` latest stay: the others,
/// from the latest to the earliest.
pub fn archives_to_remove(times: &Vec<u64>, keep_count: usize) -> (removed: Vec<usize>)
    ensures
        exists|order: Seq<usize>|
            #[trigger] latest_first(times@, order) && removed@ == order.subrange(
                kept_count(keep_count, times@.len()),
                order.len() as int,
            ),
        removed@.len() == times@.len() - kept_count(keep_count, times@.len()),
{
    let mut order: Vec<usize> = Vec::new();
    let mut i: usize = 0;
    assert(places(0) =~= Seq::<usize>::empty());
    while i < times.len()
        invariant
            i <= times.len(),
            order@.len() == i,
            order@.to_multiset() == places(i as nat).to_multiset(),
            forall|k: int| 0 <= k < order@.len() ==> (#[trigger] order@[k]) < i,
            forall|a: int, b: int|
                0 <= a < b < order@.len() ==> times@[(#[trigger] order@[a]) as int] >= times@[(
                #[trigger] order@[b]) as int],
            forall|a: int, b: int|
                0 <= a < b < order@.len() && times@[(#[trigger] order@[a]) as int] == times@[(
                #[trigger] order@[b]) as int] ==> order@[a] < order@[b],
        decreases times.len() - i,
    {
        let mut at: usize = 0;
        while at < order.len() && times[order[at]] >= times[i]
            invariant
                at <= order.len(),
                i < times.len(),
                forall|k: int| 0 <= k < order@.len() ==> (#[trigger] order@[k]) < i,
                forall|k: int| 0 <= k < at ==> times@[(#[trigger] order@[k]) as int] >= times@[i as int],
            decreases order.len() - at,
        {
            at += 1;
        }
        let ghost before = order@;
        order.insert(at, i);
        proof {
            let now = order@;
            let front = before.subrange(0, at as int);
            let back = before.subrange(at as int, before.len() as int);
            assert(now =~= front.push(i) + back);
            assert(before =~= front + back);
            lemma_multiset_commutative(front.push(i), back);
            lemma_multiset_commutative(front, back);
            front.to_multiset_ensures();
            before.to_multiset_ensures();
            places(i as nat).to_multiset_ensures();
            assert(places((i + 1) as nat) =~= places(i as nat).push(i));
            assert(now.to_multiset() =~= before.to_multiset().insert(i));
            assert forall|k: int| 0 <= k < now.len() implies (#[trigger] now[k]) < i + 1 by {
                if k < at {
                    assert(now[k] == before[k]);
                } else if k > at {
                    assert(now[k] == before[k - 1]);
                }
            }
            assert forall|a: int, b: int| 0 <= a < b < now.len() implies times@[(
            #[trigger] now[a]) as int] >= times@[(#[trigger] now[b]) as int] by {
                let pa = if a < at { a } else { a - 1 };
                let pb = if b < at { b } else { b - 1 };
                if a != at {
                    assert(now[a] == before[pa]);
                }
                if b != at {
                    assert(now[b] == before[pb]);
                }
                if a == at {
                    assert(times@[before[at as int] as int] < times@[i as int]);
                }
            }
            assert forall|a: int, b: int|
                0 <= a < b < now.len() && times@[(#[trigger] now[a]) as int] == times@[(
                #[trigger] now[b]) as int] implies now[a] < now[b] by {
                let pa = if a < at { a } else { a - 1 };
                let pb = if b < at { b } else { b - 1 };
                if a != at {
                    assert(now[a] == before[pa]);
                }
                if b != at {
                    assert(now[b] == before[pb]);
                }
                if a == at {
                    assert(times@[before[at as int] as int] < times@[i as int]);
                    assert(times@[before[pb] as int] <= times@[before[at as int] as int]);
                }
            }
        }
        i += 1;
    }
    let start = if keep_count < times.len() {
        keep_count
    } else {
        times.len()
    };
    let mut removed: Vec<usize> = Vec::new();
    let mut k: usize = start;
    while k < order.len()
        invariant
            start <= k <= order.len(),
            removed@ == order@.subrange(start as int, k as int),
        decreases order.len() - k,
    {
        removed.push(order[k]);
        assert(removed@ =~= order@.subrange(start as int, k + 1));
        k += 1;
    }
    assert(latest_first(times@, order@));
    removed
}

/// A database of a panel user.
#[derive(Debug)]
pub struct DatabaseEntry {
    pub database_name: String,
    pub database_user: String,
    pub database_host: String,
    pub database_type: DatabaseType,
    pub charset: Option<String>,
}

/// What a `DatabaseEntry` holds, as plain values.
pub ghost struct DatabaseView {
    pub database_name: Seq<char>,
    pub database_user: Seq<char>,
    pub database_host: Seq<char>,
    pub database_type: DatabaseType,
    pub charset: Option<Seq<char>>,
}

impl View for DatabaseEntry {
    type V = DatabaseView;

    open spec fn view(&self) -> DatabaseView {
        DatabaseView {
            database_name: self.database_name@,
            database_user: self.database_user@,
            database_host: self.database_host@,
            database_type: self.database_type,
            charset: crate::snapshot::text_view(self.charset),
        }
    }
}

/// The databases read so far, and the one whose lines are being read.
pub ghost struct DatabaseListing {
    pub done: Seq<DatabaseView>,
    pub open: Option<DatabaseView>,
}

/// The database that a `DB=` line begins: named by the line's value, owned
/// by the user and the name joined by an underscore, on `localhost`.
pub open spec fn database_begun(line: Seq<char>, username: Seq<char>) -> DatabaseView {
    let name = setting(line, "DB="@, '\'');
    DatabaseView {
        database_name: name,
        database_user: username + "_"@ + name,
        database_host: "localhost"@,
        database_type: DatabaseType::MySQL,
        charset: None,
    }
}

/// The listing after one more line of the user's database file.  A `DB=`
/// line closes the database being read and begins the next; `CHARSET=` and
/// `HOST=` lines set a value of the database being read.
pub open spec fn listing_after(listing: DatabaseListing, line: Seq<char>, username: Seq<char>) -> DatabaseListing {
    if begins_with(line, "DB="@) {
        DatabaseListing {
            done: match listing.open {
                Some(db) => listing.done.push(db),
                None => listing.done,
            },
            open: Some(database_begun(line, username)),
        }
    } else {
        match listing.open {
            None => listing,
            Some(db) => if begins_with(line, "CHARSET="@) {
                DatabaseListing {
                    open: Some(
                        DatabaseView { charset: Some(setting(line, "CHARSET="@, '\'')), ..db },
                    ),
                    ..listing
                }
            } else if begins_with(line, "HOST="@) {
                DatabaseListing {
                    open: Some(DatabaseView { database_host: setting(line, "HOST="@, '\''), ..db }),
                    ..listing
                }
            } else {
                listing
            },
        }
    }
}

/// The listing that the lines of a user's database file give.
pub open spec fn listing_of(lines: Seq<Seq<char>>, username: Seq<char>) -> DatabaseListing
    decreases lines.len(),
{
    if lines.len() == 0 {
        DatabaseListing { done: Seq::empty(), open: None }
    } else {
        listing_after(listing_of(lines.drop_last(), username), lines.last(), username)
    }
}

/// The databases that the lines of a user's database file name.
pub open spec fn databases_in(lines: Seq<Seq<char>>, username: Seq<char>) -> Seq<DatabaseView> {
    let listing = listing_of(lines, username);
    match listing.open {
        Some(db) => listing.done.push(db),
        None => listing.done,
    }
}

/// The views of a list of databases.
pub open spec fn database_views(entries: Seq<DatabaseEntry>) -> Seq<DatabaseView> {
    Seq::new(entries.len(), |i: int| entries[i]@)
}

/// The view of a database that may be absent.
pub open spec fn open_view(entry: Option<DatabaseEntry>) -> Option<DatabaseView> {
    match entry {
        Some(db) => Some(db@),
        None => None,
    }
}

/// The databases of a user, from the user's database file.
pub fn databases(content: &str, username: &str) -> (found: Vec<DatabaseEntry>)
    ensures
        database_views(found@) == databases_in(lines_of(content@), username@),
{
    let lines = split_lines(&chars_of(content));
    let db_key = chars_of("DB=");
    let charset_key = chars_of("CHARSET=");
    let host_key = chars_of("HOST=");
    let ghost all = part_views(lines@);
    let mut found: Vec<DatabaseEntry> = Vec::new();
    let mut current: Option<DatabaseEntry> = None;
    let mut i: usize = 0;
    assert(all.subrange(0, 0) =~= Seq::<Seq<char>>::empty());
    assert(database_views(found@) =~= Seq::<DatabaseView>::empty());
    while i < lines.len()
        invariant
            i <= lines.len(),
            all == part_views(lines@),
            db_key@ == "DB="@,
            charset_key@ == "CHARSET="@,
            host_key@ == "HOST="@,
            listing_of(all.subrange(0, i as int), username@) == (DatabaseListing {
                done: database_views(found@),
                open: open_view(current),
            }),
        decreases lines.len() - i,
    {
        let line = &lines[i];
        let ghost before = database_views(found@);
        proof {
            let head = all.subrange(0, i + 1);
            assert(head.drop_last() =~= all.subrange(0, i as int));
            assert(head.last() == line@);
        }
        if has_prefix(line, &db_key) {
            match current {
                Some(db) => {
                    let ghost closed = db@;
                    found.push(db);
                    assert(database_views(found@) =~= before.push(closed));
                },
                None => {},
            }
            let name = text_of(&read_setting(line, &db_key, '\''));
            let user = String::from_str(username).concat("_").concat(name.as_str());
            current = Some(
                DatabaseEntry {
                    database_name: name,
                    database_user: user,
                    database_host: String::from_str("localhost"),
                    database_type: DatabaseType::MySQL,
                    charset: None,
                },
            );
        } else {
            match current {
                None => {
                    current = None;
                },
                Some(db) => {
                    if has_prefix(line, &charset_key) {
                        let value = text_of(&read_setting(line, &charset_key, '\''));
                        current = Some(
                            DatabaseEntry {
                                database_name: db.database_name,
                                database_user: db.database_user,
                                database_host: db.database_host,
                                database_type: db.database_type,
                                charset: Some(value),
                            },
                        );
                    } else if has_prefix(line, &host_key) {
                        let value = text_of(&read_setting(line, &host_key, '\''));
                        current = Some(
                            DatabaseEntry {
                                database_name: db.database_name,
                                database_user: db.database_user,
                                database_host: value,
                                database_type: db.database_type,
                                charset: db.charset,
                            },
                        );
                    } else {
                        current = Some(db);
                    }
                },
            }
        }
        i += 1;
    }
    assert(all.subrange(0, all.len() as int) =~= all);
    let ghost before = database_views(found@);
    match current {
        Some(db) => {
            let ghost last = db@;
            found.push(db);
            assert(database_views(found@) =~= before.push(last));
        },
        None => {},
    }
    found
}

/// Whether a user is chosen for a backup: the user's name has to match the
/// pattern that selects, if there is one, and must not match the pattern
/// that leaves out, if there is one.
pub open spec fn user_chosen(name: Seq<char>, only: Option<Seq<char>>, except: Option<Seq<char>>) -> bool {
    &&& only matches Some(pattern) ==> glob_matches(pattern, name)
    &&& except matches Some(pattern) ==> !glob_matches(pattern, name)
}

/// The users chosen among those given, in their order.
pub open spec fn users_chosen(names: Seq<Seq<char>>, only: Option<Seq<char>>, except: Option<Seq<char>>) -> Seq<
    Seq<char>,
>
    decreases names.len(),
{
    if names.len() == 0 {
        Seq::empty()
    } else if user_chosen(names.last(), only, except) {
        users_chosen(names.drop_last(), only, except).push(names.last())
    } else {
        users_chosen(names.drop_last(), only, except)
    }
}

/// The users to back up among those of the panel.
pub fn select_users(names: &Vec<String>, only: &Option<String>, except: &Option<String>) -> (chosen: Vec<
    String,
>)
    ensures
        texts(chosen@) == users_chosen(texts(names@), text_view(*only), text_view(*except)),
{
    let ghost all = texts(names@);
    let mut chosen: Vec<String> = Vec::new();
    let mut i: usize = 0;
    assert(all.subrange(0, 0) =~= Seq::<Seq<char>>::empty());
    assert(texts(chosen@) =~= Seq::<Seq<char>>::empty());
    while i < names.len()
        invariant
            i <= names.len(),
            all == texts(names@),
            texts(chosen@) == users_chosen(
                all.subrange(0, i as int),
                text_view(*only),
                text_view(*except),
            ),
        decreases names.len() - i,
    {
        let name = &names[i];
        let ghost before = texts(chosen@);
        proof {
            let head = all.subrange(0, i + 1);
            assert(head.drop_last() =~= all.subrange(0, i as int));
            assert(head.last() == name@);
        }
        let wanted = match only {
            Some(pattern) => glob_match(pattern.as_str(), name.as_str()),
            None => true,
        };
        let left_out = match except {
            Some(pattern) => glob_match(pattern.as_str(), name.as_str()),
            None => false,
        };
        if wanted && !left_out {
            chosen.push(name.clone());
            assert(texts(chosen@) =~= before.push(name@));
        }
        i += 1;
    }
    assert(all.subrange(0, all.len() as int) =~= all);
    chosen
}

} // verus!

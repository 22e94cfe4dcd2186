use ghostsnap::backend::{
    listed_path, object_key, part_checksum, part_ranges, tells_not_found, uses_multipart,
    AzureAuthMethod,
    AzureSimpleBackend, BackendType, BucketMetrics,
};
use ghostsnap::commands::{BackupCommand, InitCommand};
use ghostsnap::hestia::{
    archives_to_remove, cron_jobs, databases, has_ssl, is_backup_user, is_listed_user,
    is_user_archive, latest_archive, panel_version, select_users, user_stats, DatabaseType,
    HestiaIntegration,
};
use ghostsnap::text::{chars_of, parse_number, remove_all, split_lines, split_text, trim_char};

#[test]
fn keys_and_listed_paths() {
    assert_eq!(object_key("", "data/x"), "data/x");
    assert_eq!(object_key("backups", "data/x"), "backups/data/x");
    assert_eq!(listed_path("backups", "backups/data/x"), "data/x");
    assert_eq!(listed_path("", "backups/data/x"), "backups/data/x");
    assert_eq!(listed_path("backups", "backupsdata/x"), "backupsdata/x");
    assert_eq!(listed_path("backups", "other/data/x"), "other/data/x");
    assert_eq!(listed_path("bäck", "bäck/dätä"), "dätä");
    assert_eq!(listed_path("b", "b/"), "");
    for (prefix, path) in [("p", "a/b"), ("p/q", ""), ("ü", "ü/ü")] {
        assert_eq!(listed_path(prefix, &object_key(prefix, path)), path);
    }
}

#[test]
fn parts_tile_the_object() {
    assert_eq!(part_ranges(0, 10), Vec::<(usize, usize)>::new());
    assert_eq!(part_ranges(1, 10), vec![(0, 1)]);
    assert_eq!(part_ranges(10, 10), vec![(0, 10)]);
    assert_eq!(part_ranges(25, 10), vec![(0, 10), (10, 10), (20, 5)]);
    assert_eq!(part_ranges(30, 10), vec![(0, 10), (10, 10), (20, 10)]);
    assert_eq!(part_ranges(3, 1), vec![(0, 1), (1, 1), (2, 1)]);
    assert!(tells_not_found("service error: NotFound") && !tells_not_found("not found"));
    assert!(uses_multipart(64, 64));
    assert!(!uses_multipart(63, 64));
}

#[test]
fn checksum_is_the_md5_in_base64() {
    assert_eq!(part_checksum(true, b""), Some(String::from("1B2M2Y8AsgTpgAmY7PhCfg==")));
    assert_eq!(part_checksum(true, b"hello"), Some(String::from("XUFAKrxLKna5cZ2REBfFkg==")));
    assert_eq!(part_checksum(false, b"hello"), None);
}

#[test]
fn account_of_a_connection_string() {
    let name = |s: &str| AzureAuthMethod::ConnectionString(String::from(s)).account_name();
    assert_eq!(
        name("DefaultEndpointsProtocol=https;AccountName=store1;AccountKey=abc;AccountName=other"),
        "store1"
    );
    assert_eq!(name("AccountName="), "");
    assert_eq!(name("AccountKey=abc"), "unknown");
    assert_eq!(name(""), "unknown");
    assert_eq!(name(";;AccountName=ä;"), "ä");
    assert_eq!(name("xAccountName=a"), "unknown");
    let token = AzureAuthMethod::SasToken { account_name: String::from("t"), sas_token: String::from("s") };
    assert_eq!(token.account_name(), "t");
    let managed = AzureAuthMethod::ManagedIdentity { account_name: String::from("m"), client_id: None };
    assert_eq!(managed.account_name(), "m");
    let principal = AzureAuthMethod::ServicePrincipal {
        account_name: String::from("sp"),
        client_id: String::new(),
        client_secret: String::new(),
        tenant_id: String::new(),
    };
    assert_eq!(principal.account_name(), "sp");
}

#[test]
fn simple_backend_and_metrics() {
    let backend = AzureSimpleBackend::new(String::from("acct"), String::from("box"));
    assert_eq!((backend.account_name.as_str(), backend.container.as_str(), backend.prefix.as_str()), ("acct", "box", ""));
    assert_eq!(backend.backend_type(), BackendType::Azure);
    let mut metrics = BucketMetrics::empty(String::from("b"));
    metrics.count_object(Some(10));
    metrics.count_object(None);
    metrics.count_object(Some(5));
    assert_eq!((metrics.total_size, metrics.object_count, metrics.bucket_name.as_str()), (15, 3, "b"));
    metrics.count_object(Some(u64::MAX));
    assert_eq!((metrics.total_size, metrics.object_count), (u64::MAX, 4));
}

#[test]
fn panel_settings() {
    let settings = HestiaIntegration::new("/opt/hestia");
    assert_eq!(settings.hestia_path, "/opt/hestia");
    assert_eq!(settings.backup_path, "/backup/hestia");
    assert!(settings.include_system_files && settings.include_user_data);
    assert!(settings.include_databases && settings.include_mail);
    assert!(settings.exclude_cache && settings.compress_backups);
    assert!(settings.mysql_credentials.is_none());
    assert_eq!(HestiaIntegration::default().hestia_path, "/usr/local/hestia");

    let settings = settings
        .with_mysql_credentials(String::from("db"), String::from("root"), Some(String::from("pw")))
        .set_backup_options(false, true, false, true);
    let credentials = settings.mysql_credentials.as_ref().unwrap();
    assert_eq!((credentials.host.as_str(), credentials.port, credentials.root_user.as_str()), ("db", 3306, "root"));
    assert_eq!(credentials.root_password.as_deref(), Some("pw"));
    assert_eq!(
        (settings.include_system_files, settings.include_user_data, settings.include_databases, settings.include_mail),
        (false, true, false, true)
    );
    assert!(settings.exclude_cache);
    assert_eq!(settings.hestia_path, "/opt/hestia");
}

#[test]
fn archives_of_a_user() {
    assert!(is_user_archive("bob.2024-01-01_00-00-00.tar", Some("bob")));
    assert!(!is_user_archive("bobby.2024-01-01_00-00-00.tar", Some("bob")));
    assert!(!is_user_archive("bob.2024-01-01_00-00-00.tar.gz", Some("bob")));
    assert!(is_user_archive("bob.tar", Some("bob")));
    assert!(is_user_archive("anything.tar", None));
    assert!(!is_user_archive("anything.zip", None));
    assert!(is_user_archive(".tar", None));
    assert!(!is_user_archive("tar", None));
}

#[test]
fn choices_of_the_commands() {
    let init = |backend: Option<&str>| InitCommand {
        repo: None,
        backend: backend.map(String::from),
        bucket: None,
        prefix: None,
        endpoint: None,
        access_key: None,
        secret_key: None,
        region: String::from("us-east-1"),
        container: None,
        account_name: None,
        connection_string: None,
        client_id: None,
        storage_tier: None,
    };
    assert_eq!(init(None).backend_type(), Some(BackendType::Local));
    assert_eq!(init(Some("local")).backend_type(), Some(BackendType::Local));
    assert_eq!(init(Some("s3")).backend_type(), Some(BackendType::S3));
    assert_eq!(init(Some("minio")).backend_type(), Some(BackendType::MinIO));
    assert_eq!(init(Some("azure")).backend_type(), Some(BackendType::Azure));
    assert_eq!(init(Some("b2")).backend_type(), None);
    assert_eq!(init(Some("S3")).backend_type(), None);
    assert_eq!(init(Some("")).backend_type(), None);
    assert!(InitCommand::uses_tls("https://minio.example"));
    assert!(!InitCommand::uses_tls("http://minio.example"));
    assert!(!InitCommand::uses_tls("https:/"));
    let backup = BackupCommand {
        paths: vec![String::from("/home")],
        tag: Vec::new(),
        exclude: vec![String::from("*.tmp")],
        exclude_if_present: Vec::new(),
        one_file_system: false,
        dry_run: false,
        parent: None,
        hostname: None,
    };
    assert!(!backup.should_exclude("/home/a.tmp"));
}

#[test]
fn panel_configuration_is_read_line_by_line() {
    assert_eq!(panel_version("BACKEND='x'\nVERSION=\"1.8.11\"\nVERSION=\"2\"\n"), "1.8.11");
    assert_eq!(panel_version("VERSION=1.2\r\nX=1"), "1.2");
    assert_eq!(panel_version("A=1\n"), "unknown");
    assert_eq!(panel_version(""), "unknown");
    assert_eq!(panel_version(" VERSION=1"), "unknown");
    assert_eq!(panel_version("VERSION=\"\"a\"VERSION=\"\""), "a");

    let stats = user_stats("NAME='bob'\nSUSPENDED='no'\nU_DISK='12'\nU_BANDWIDTH='3'\n");
    assert_eq!((stats.suspended, stats.disk_usage, stats.bandwidth_usage), (false, 12 << 20, 3 << 20));
    let stats = user_stats("SUSPENDED='yes'\nU_DISK='x'\nU_BANDWIDTH='+7'\nU_DISK=''");
    assert_eq!((stats.suspended, stats.disk_usage, stats.bandwidth_usage), (true, 0, 7 << 20));
    let stats = user_stats("U_DISK='5'\nU_DISK='-1'\nU_DISK='18446744073709551615'\nU_BANDWIDTH='18446744073709551616'");
    assert_eq!((stats.disk_usage, stats.bandwidth_usage), (u64::MAX, 0));
    let stats = user_stats("U_DISK='17592186044415'\nU_BANDWIDTH='17592186044416'");
    assert_eq!((stats.disk_usage, stats.bandwidth_usage), (17592186044415 << 20, u64::MAX));
    let stats = user_stats("");
    assert_eq!((stats.suspended, stats.disk_usage, stats.bandwidth_usage), (false, 0, 0));

    assert_eq!(
        cron_jobs("JOB='1' CMD='x'\nCMD='run this'\nMIN='5'\nCMD=''plain''\r\nCMD='a CMD=b'"),
        vec!["run this", "plain", "a b"]
    );
    assert!(cron_jobs("").is_empty());

    assert!(has_ssl("DOMAIN='a'\nSSL='yes'\n"));
    assert!(has_ssl("yes, SSL= is on"));
    assert!(!has_ssl("SSL='no'\nLETSENCRYPT='yes'\n"));
    assert!(!has_ssl(""));

    let found = databases(
        "CHARSET='early'\nDB='shop'\nCHARSET='utf8'\nOTHER='1'\nDB='blog'\nHOST='db.local'\nHOST='db2'\nDB=''",
        "bob",
    );
    assert_eq!(found.len(), 3);
    assert_eq!(
        (found[0].database_name.as_str(), found[0].database_user.as_str(), found[0].database_host.as_str()),
        ("shop", "bob_shop", "localhost")
    );
    assert_eq!(found[0].charset.as_deref(), Some("utf8"));
    assert_eq!(found[0].database_type, DatabaseType::MySQL);
    assert_eq!((found[1].database_name.as_str(), found[1].database_host.as_str()), ("blog", "db2"));
    assert_eq!(found[1].charset, None);
    assert_eq!((found[2].database_name.as_str(), found[2].database_user.as_str()), ("", "bob_"));
    assert!(databases("HOST='x'\n", "bob").is_empty());
}

#[test]
fn users_and_archives_are_chosen() {
    assert!(is_listed_user("bob") && is_listed_user("admin"));
    assert!(!is_listed_user(".hidden") && !is_listed_user("history") && is_listed_user("history2"));
    assert!(is_backup_user("bob") && is_backup_user("history"));
    assert!(!is_backup_user("admin") && !is_backup_user(".x") && is_backup_user(""));

    assert_eq!(latest_archive(&vec![]), None);
    assert_eq!(latest_archive(&vec![5]), Some(0));
    assert_eq!(latest_archive(&vec![5, 9, 3, 9]), Some(1));
    assert_eq!(archives_to_remove(&vec![10, 40, 20, 30], 2), vec![2, 0]);
    assert_eq!(archives_to_remove(&vec![10, 40, 20, 30], 0), vec![1, 3, 2, 0]);
    assert_eq!(archives_to_remove(&vec![10, 40, 20, 30], 4), Vec::<usize>::new());
    assert_eq!(archives_to_remove(&vec![10, 40, 20, 30], 9), Vec::<usize>::new());
    assert_eq!(archives_to_remove(&vec![7, 7, 7], 1), vec![1, 2]);
    assert_eq!(archives_to_remove(&vec![], 1), Vec::<usize>::new());

    let names: Vec<String> = ["prod1", "test1", "prod2", "dev"].iter().map(|n| String::from(*n)).collect();
    let some = |p: &str| Some(String::from(p));
    assert_eq!(select_users(&names, &None, &None), names);
    assert_eq!(select_users(&names, &some("prod*"), &None), vec!["prod1", "prod2"]);
    assert_eq!(select_users(&names, &None, &some("*1")), vec!["prod2", "dev"]);
    assert_eq!(select_users(&names, &some("prod*"), &some("*1")), vec!["prod2"]);
    assert_eq!(select_users(&names, &some("none"), &None), Vec::<String>::new());
}

#[test]
fn texts_are_cut_and_read() {
    let c = |s: &str| chars_of(s);
    let s = |v: Vec<Vec<char>>| v.into_iter().map(|l| l.into_iter().collect::<String>()).collect::<Vec<_>>();
    for text in ["", "a", "a\n", "a\nb", "a\r\nb\r\n", "\n", "\n\n", "a\r", "a\r\n", "\r\n\r", "a\n\nb\n", "a\rb\n"] {
        let expected: Vec<String> = text.lines().map(String::from).collect();
        assert_eq!(s(split_lines(&c(text))), expected, "{:?}", text);
    }
    assert_eq!(s(split_text(&c("a;b;;c"), ';')), vec!["a", "b", "", "c"]);
    assert_eq!(s(split_text(&c(""), ';')), vec![""]);
    assert_eq!(s(split_text(&c(";"), ';')), vec!["", ""]);
    for (text, key) in [("", "a"), ("aaa", "a"), ("aaa", "aa"), ("abab", "ab"), ("xabx", "ab"), ("abc", ""), ("ab", "abc"), ("aXbXc", "X"), ("ababa", "aba")] {
        let got: String = remove_all(&c(text), &c(key)).into_iter().collect();
        assert_eq!(got, text.replace(key, ""), "{:?} {:?}", text, key);
    }
    for text in ["", "'", "''", "'a'", "a'", "'a", "''a''b''", "abc", "'''"] {
        let got: String = trim_char(&c(text), '\'').into_iter().collect();
        assert_eq!(got, text.trim_matches('\''), "{:?}", text);
    }
    for text in ["", "0", "7", "+7", "+", "-7", "007", "18446744073709551615", "18446744073709551616", "99999999999999999999999", "1a", "a1", " 1", "1 ", "++1", "٣"] {
        assert_eq!(parse_number(&c(text)), text.parse::<u64>().ok(), "{:?}", text);
    }
}

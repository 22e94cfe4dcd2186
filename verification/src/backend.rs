//! What the blob stores have in common: the kinds of store, how a path
//! becomes the key of an object and back, and how a large object is cut into
//! parts for upload.

use crate::chunker::cuts_tile;
use crate::text::{
    begins_with, chars_of, contains_text, has_prefix, occurs_in, part_views, split_on, split_text,
    text_of,
};
use vstd::prelude::*;
use vstd::string::StrSliceExecFns;
use vstd::string::StringExecFns;

verus! {

/// The MD5 digest of `data`, 16 bytes.
pub uninterp spec fn md5_digest(data: Seq<u8>) -> Seq<u8>;

/// The bytes in base64 with the standard alphabet and padding.
pub uninterp spec fn base64_standard(bytes: Seq<u8>) -> Seq<char>;

/// The MD5 digest of `data` in standard base64, as S3 takes it for
/// `Content-MD5`.
pub open spec fn md5_base64(data: Seq<u8>) -> Seq<char> {
    base64_standard(md5_digest(data))
}

/// Calls `md5::compute`.  The contract names the digest.
#[verifier::external_body]
fn md5_of(data: &[u8]) -> (digest: Vec<u8>)
    ensures
        digest@ == md5_digest(data@),
{
    md5::compute(data).0.to_vec()
}

/// Calls `encode` of the `STANDARD` engine of `base64`.  The contract names
/// the text.
#[verifier::external_body]
fn base64_of(bytes: &[u8]) -> (text: String)
    ensures
        text@ == base64_standard(bytes@),
{
    base64::Engine::encode(&base64::engine::general_purpose::STANDARD, bytes)
}

/// The checksum of `data` as S3 takes it.
fn content_md5(data: &[u8]) -> (text: String)
    ensures
        text@ == md5_base64(data@),
{
    let digest = md5_of(data);
    base64_of(digest.as_slice())
}

/// The kinds of blob store.
#[derive(Debug, Clone, Copy, PartialEq, Eq, Structural)]
pub enum BackendType {
    Local,
    S3,
    Azure,
    MinIO,
    B2,
}

/// What is known of an object in a store.  `modified` is in seconds since
/// the epoch.
#[derive(Debug)]
pub struct ObjectInfo {
    pub path: String,
    pub size: u64,
    pub modified: i64,
}

/// How an Azure account is reached.
#[derive(Debug)]
#[allow(inconsistent_fields)]
pub enum AzureAuthMethod {
    ConnectionString(String),
    SasToken { account_name: String, sas_token: String },
    ManagedIdentity { account_name: String, client_id: Option<String> },
    ServicePrincipal {
        account_name: String,
        client_id: String,
        client_secret: String,
        tenant_id: String,
    },
}

/// A container of an Azure account, addressed by name.
#[derive(Debug)]
pub struct AzureSimpleBackend {
    pub account_name: String,
    pub container: String,
    pub prefix: String,
}

impl AzureSimpleBackend {
    /// A backend for a container, without a prefix.
    pub fn new(account_name: String, container: String) -> (backend: Self)
        ensures
            backend.account_name == account_name,
            backend.container == container,
            backend.prefix@ == Seq::<char>::empty(),
    {
        AzureSimpleBackend { account_name, container, prefix: String::new() }
    }

    pub fn backend_type(&self) -> (kind: BackendType)
        ensures
            kind == BackendType::Azure,
    {
        BackendType::Azure
    }
}

/// Whether `index` names the first part of the list that begins with
/// `AccountName=`.
pub open spec fn is_account_part(parts: Seq<Seq<char>>, index: int) -> bool {
    &&& 0 <= index < parts.len()
    &&& begins_with(parts[index], "AccountName="@)
    &&& forall|j: int| 0 <= j < index ==> !begins_with(#[trigger] parts[j], "AccountName="@)
}

/// The account that a connection string names: what follows `AccountName=`
/// in the first of its parts between semicolons that begins so, and
/// `unknown` where no part does.
pub open spec fn account_in(connection: Seq<char>, name: Seq<char>) -> bool {
    let parts = split_on(connection, ';');
    if exists|i: int| is_account_part(parts, i) {
        exists|i: int| #[trigger] is_account_part(parts, i) && name == parts[i].subrange(12, parts[i].len() as int)
    } else {
        name == "unknown"@
    }
}

impl AzureAuthMethod {
    /// The name of the account: as it is given, or as the connection string
    /// names it.
    pub fn account_name(&self) -> (name: String)
        ensures
            match self {
                AzureAuthMethod::ConnectionString(connection) => account_in(connection@, name@),
                AzureAuthMethod::SasToken { account_name, .. } => name@ == account_name@,
                AzureAuthMethod::ManagedIdentity { account_name, .. } => name@ == account_name@,
                AzureAuthMethod::ServicePrincipal { account_name, .. } => name@ == account_name@,
            },
    {
        match self {
            AzureAuthMethod::ConnectionString(connection) => {
                let key = chars_of("AccountName=");
                proof {
                    reveal_strlit("AccountName=");
                }
                let parts = split_text(&chars_of(connection.as_str()), ';');
                let ghost views = part_views(parts@);
                let mut i: usize = 0;
                while i < parts.len()
                    invariant
                        i <= parts.len(),
                        self matches AzureAuthMethod::ConnectionString(text) && text@ == connection@,
                        views == part_views(parts@),
                        views == split_on(connection@, ';'),
                        key@ == "AccountName="@,
                        key@.len() == 12,
                        forall|j: int| 0 <= j < i ==> !begins_with(#[trigger] views[j], "AccountName="@),
                    decreases parts.len() - i,
                {
                    assert(views[i as int] == parts@[i as int]@);
                    if has_prefix(&parts[i], &key) {
                        assert(is_account_part(views, i as int));
                        let mut rest: Vec<char> = Vec::new();
                        let part = &parts[i];
                        let mut k: usize = 12;
                        while k < part.len()
                            invariant
                                12 <= k <= part.len(),
                                rest@ == part@.subrange(12, k as int),
                                part@ == views[i as int],
                                self matches AzureAuthMethod::ConnectionString(text) && text@
                                    == connection@,
                                is_account_part(views, i as int),
                                views == split_on(connection@, ';'),
                            decreases part.len() - k,
                        {
                            rest.push(part[k]);
                            assert(rest@ =~= part@.subrange(12, k + 1));
                            k += 1;
                        }
                        let name = text_of(&rest);
                        proof {
                            let all = split_on(connection@, ';');
                            assert(is_account_part(all, i as int));
                            assert(name@ == all[i as int].subrange(12, all[i as int].len() as int));
                        }
                        return name;
                    }
                    i += 1;
                }
                assert(!exists|i: int| is_account_part(views, i));
                String::from_str("unknown")
            },
            AzureAuthMethod::SasToken { account_name, .. } => account_name.clone(),
            AzureAuthMethod::ManagedIdentity { account_name, .. } => account_name.clone(),
            AzureAuthMethod::ServicePrincipal { account_name, .. } => account_name.clone(),
        }
    }
}

/// The key of the object that lives under `path` in a store with the
/// prefix given: the path itself without a prefix, and else the prefix, a
/// slash, and the path.
pub open spec fn key_of(prefix: Seq<char>, path: Seq<char>) -> Seq<char> {
    if prefix.len() == 0 {
        path
    } else {
        prefix + "/"@ + path
    }
}

/// The path that a listing shows for a key: the key without the prefix and
/// its slash where it begins with them, and else the key itself.
pub open spec fn path_of(prefix: Seq<char>, key: Seq<char>) -> Seq<char> {
    if prefix.len() > 0 && begins_with(key, prefix + "/"@) {
        key.subrange(prefix.len() as int + 1, key.len() as int)
    } else {
        key
    }
}

/// The key of the object that lives under `path`.
pub fn object_key(prefix: &str, path: &str) -> (key: String)
    ensures
        key@ == key_of(prefix@, path@),
{
    if prefix.unicode_len() == 0 {
        String::from_str(path)
    } else {
        String::from_str(prefix).concat("/").concat(path)
    }
}

/// The path that a listing shows for a key.
pub fn listed_path(prefix: &str, key: &str) -> (path: String)
    ensures
        path@ == path_of(prefix@, key@),
{
    let prefix_len = prefix.unicode_len();
    if prefix_len == 0 {
        return String::from_str(key);
    }
    let lead = String::from_str(prefix).concat("/");
    let lead_chars = chars_of(lead.as_str());
    let key_chars = chars_of(key);
    proof {
        reveal_strlit("/");
    }
    if has_prefix(&key_chars, &lead_chars) {
        let key_len = key_chars.len();
        assert(lead_chars@.len() == prefix_len + 1);
        String::from_str(key.substring_char(prefix_len + 1, key_len))
    } else {
        String::from_str(key)
    }
}

/// A listing shows an object under the path that it was stored under.
pub proof fn lemma_listing_shows_path(prefix: Seq<char>, path: Seq<char>)
    ensures
        prefix.len() > 0 ==> path_of(prefix, key_of(prefix, path)) == path,
{
    reveal_strlit("/");
    if prefix.len() > 0 {
        let lead = prefix + "/"@;
        let key = key_of(prefix, path);
        assert(key.subrange(0, lead.len() as int) =~= lead);
        assert(key.subrange(prefix.len() as int + 1, key.len() as int) =~= path);
    }
}

/// Whether the message of a failed request tells that the object is not
/// there: whether it holds `NotFound`.
pub fn tells_not_found(message: &str) -> (r: bool)
    ensures
        r == occurs_in(message@, "NotFound"@),
{
    contains_text(&chars_of(message), &chars_of("NotFound"))
}

/// Whether an object of `len` bytes is uploaded in parts.
pub fn uses_multipart(len: usize, threshold: usize) -> (r: bool)
    ensures
        r == (len >= threshold),
{
    len >= threshold
}

/// Whether the parts are those of an upload in parts of `part_size` bytes:
/// every part but the last has that size, and the last has no more.
pub open spec fn parts_sized(parts: Seq<(usize, usize)>, part_size: usize) -> bool {
    &&& forall|i: int| 0 <= i < parts.len() ==> (#[trigger] parts[i]).1 <= part_size
    &&& forall|i: int| 0 <= i < parts.len() - 1 ==> (#[trigger] parts[i]).1 == part_size
    &&& forall|i: int| 0 <= i < parts.len() ==> (#[trigger] parts[i]).0 == i * part_size
}

/// The parts in which an object of `len` bytes is uploaded, each as its
/// offset and length.  The parts tile the object.
pub fn part_ranges(len: usize, part_size: usize) -> (parts: Vec<(usize, usize)>)
    requires
        part_size > 0,
    ensures
        cuts_tile(parts@, len as nat),
        parts_sized(parts@, part_size),
{
    let mut parts: Vec<(usize, usize)> = Vec::new();
    let mut offset: usize = 0;
    while offset < len
        invariant
            offset <= len,
            part_size > 0,
            offset == parts@.len() * part_size,
            forall|i: int| 0 <= i < parts@.len() ==> (#[trigger] parts@[i]).1 == part_size,
            forall|i: int| 0 <= i < parts@.len() ==> (#[trigger] parts@[i]).0 == i * part_size,
        decreases len - offset,
    {
        let ghost before = parts@;
        let length = if len - offset < part_size {
            len - offset
        } else {
            part_size
        };
        parts.push((offset, length));
        proof {
            assert((before.len() + 1) * part_size == before.len() * part_size + part_size)
                by (nonlinear_arith);
        }
        if length < part_size {
            proof {
                let n = parts@.len() as int;
                assert forall|i: int| 0 <= i < n - 1 implies (#[trigger] parts@[i]).0 + parts@[i].1
                    == parts@[i + 1].0 by {
                    assert(parts@[i] == before[i]);
                    assert((i + 1) * part_size == i * part_size + part_size) by (nonlinear_arith);
                    if i + 1 < n - 1 {
                        assert(parts@[i + 1] == before[i + 1]);
                    }
                }
                assert forall|i: int| 0 <= i < n implies (#[trigger] parts@[i]).1 > 0 by {
                    if i < n - 1 {
                        assert(parts@[i] == before[i]);
                    }
                }
                assert forall|i: int| 0 <= i < n implies (#[trigger] parts@[i]).0 == i * part_size by {
                    if i < n - 1 {
                        assert(parts@[i] == before[i]);
                    }
                }
                assert forall|i: int| 0 <= i < n implies (#[trigger] parts@[i]).1 <= part_size by {
                    if i < n - 1 {
                        assert(parts@[i] == before[i]);
                    }
                }
                assert forall|i: int| 0 <= i < n - 1 implies (#[trigger] parts@[i]).1
                    == part_size by {
                    assert(parts@[i] == before[i]);
                }
                if n > 1 {
                    assert(parts@[0] == before[0]);
                }
                assert(0 * part_size == 0) by (nonlinear_arith);
            }
            return parts;
        }
        offset = offset + length;
    }
    proof {
        let n = parts@.len() as int;
        assert forall|i: int| 0 <= i < n - 1 implies (#[trigger] parts@[i]).0 + parts@[i].1
            == parts@[i + 1].0 by {
            assert((i + 1) * part_size == i * part_size + part_size) by (nonlinear_arith);
        }
        assert(0 * part_size == 0) by (nonlinear_arith);
        if n > 0 {
            assert((n - 1) * part_size + part_size == n * part_size) by (nonlinear_arith);
        }
    }
    parts
}

/// The checksum that goes with an upload, where checksums are asked for.
pub fn part_checksum(enabled: bool, data: &[u8]) -> (checksum: Option<String>)
    ensures
        enabled ==> (checksum matches Some(text) && text@ == md5_base64(data@)),
        !enabled ==> checksum is None,
{
    if enabled {
        Some(content_md5(data))
    } else {
        None
    }
}

/// The size and number of the objects of a bucket.
#[derive(Debug)]
pub struct BucketMetrics {
    pub total_size: u64,
    pub object_count: u64,
    pub bucket_name: String,
}

impl BucketMetrics {
    /// The metrics of a bucket of which no object has been counted yet.
    pub fn empty(bucket_name: String) -> (metrics: Self)
        ensures
            metrics.total_size == 0,
            metrics.object_count == 0,
            metrics.bucket_name == bucket_name,
    {
        BucketMetrics { total_size: 0, object_count: 0, bucket_name }
    }

    /// Counts one object of a listing.  An object without a size counts with
    /// none; the totals stop growing at what 64 bits hold.
    pub fn count_object(&mut self, size: Option<u64>)
        ensures
            final(self).bucket_name == old(self).bucket_name,
            final(self).object_count == if old(self).object_count == u64::MAX {
                u64::MAX
            } else {
                (old(self).object_count + 1) as u64
            },
            final(self).total_size == match size {
                Some(s) => if old(self).total_size + s > u64::MAX {
                    u64::MAX
                } else {
                    (old(self).total_size + s) as u64
                },
                None => old(self).total_size,
            },
    {
        if self.object_count < u64::MAX {
            self.object_count = self.object_count + 1;
        }
        match size {
            Some(s) => {
                if s > u64::MAX - self.total_size {
                    self.total_size = u64::MAX;
                } else {
                    self.total_size = self.total_size + s;
                }
            },
            None => {},
        }
    }
}

} // verus!

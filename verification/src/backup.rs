//! Backups of the database to an S3-compatible bucket: where snapshots
//! live, which of them a listing holds, which to prune, how the storage
//! client is configured, and how a submitted form updates the stored
//! configuration.

use vstd::prelude::*;
use crate::error::AppError;
use crate::order::{is_stable_desc_order, stable_order_desc, texts_of};
use crate::text::{
    after_last, after_last_exec, chars_eq, chars_of, ends_with, extend_chars, has_prefix, has_suffix,
    index_of, index_of_from, starts_with, string_of, sub_vec, trim, trim_end_char, trim_end_char_exec,
    trim_end_text, trim_end_text_exec, trimmed_chars,
};

verus! {

/// The stored backup configuration.
pub struct BackupConfig {
    pub id: u128,
    pub provider: String,
    pub bucket: String,
    pub path: String,
    pub region: String,
    pub endpoint: Option<String>,
    pub access_key_id: Option<String>,
    pub secret_access_key: Option<String>,
    pub b2_key_id: Option<String>,
    pub b2_application_key: Option<String>,
    pub b2_endpoint: Option<String>,
    pub enabled: bool,
    /// Unique per database instance; snapshots are stored under it so that
    /// a fresh database does not collide with an earlier one.
    pub db_instance_id: Option<String>,
    /// How often snapshots are taken, in minutes.
    pub interval_minutes: i64,
    /// How many snapshots are kept in the bucket.
    pub max_snapshots: i64,
}

/// A snapshot listed from the bucket.
pub struct Snapshot {
    /// The object key in the bucket.
    pub key: String,
    /// The timestamp taken from the file name.
    pub timestamp: String,
    /// The size in bytes.
    pub size: u64,
    /// The database instance the snapshot belongs to.
    pub instance_id: Option<String>,
}

/// What the storage client is built with.
pub struct S3Settings {
    pub bucket: String,
    pub region: String,
    pub access_key: String,
    pub secret_key: String,
    /// The endpoint, when one is set.
    pub endpoint: Option<String>,
    /// Whether plain HTTP is allowed.
    pub allow_http: bool,
}

/// An optional text as characters.
pub open spec fn opt_view(o: Option<String>) -> Option<Seq<char>> {
    match o {
        Some(s) => Some(s@),
        None => None,
    }
}

/// A slash.
pub open spec fn slash() -> Seq<char> {
    seq!['/']
}

// ── Where snapshots live ──

/// The key prefix of the snapshots of one database instance:
/// `{path}/{instance}/`, with the path's trailing slashes dropped and no
/// leading slash for an empty path; `{path}/` without an instance.
pub open spec fn spec_snapshot_prefix(path: Seq<char>, instance: Option<Seq<char>>) -> Seq<char> {
    let base = trim_end_char(path, '/');
    match instance {
        Some(id) => if base.len() == 0 {
            id + slash()
        } else {
            base + slash() + id + slash()
        },
        None => if base.len() == 0 {
            slash()
        } else {
            base + slash()
        },
    }
}

/// The key prefix of the snapshots of this database instance.
pub fn snapshot_prefix(config: &BackupConfig) -> (r: String)
    ensures
        r@ == spec_snapshot_prefix(config.path@, opt_view(config.db_instance_id)),
{
    let base = trim_end_char_exec(&chars_of(config.path.as_str()), '/');
    let mut out: Vec<char> = Vec::new();
    if base.len() > 0 {
        extend_chars(&mut out, &base);
        out.push('/');
    }
    match &config.db_instance_id {
        Some(id) => {
            extend_chars(&mut out, &chars_of(id.as_str()));
            out.push('/');
        },
        None => {
            if base.len() == 0 {
                out.push('/');
            }
        },
    }
    proof {
        match &config.db_instance_id {
            Some(id) => {
                if base.len() == 0 {
                    assert(out@ =~= id@ + slash());
                } else {
                    assert(out@ =~= base@ + slash() + id@ + slash());
                }
            },
            None => {
                if base.len() == 0 {
                    assert(out@ =~= slash());
                } else {
                    assert(out@ =~= base@ + slash());
                }
            },
        }
    }
    string_of(&out)
}

/// The instance id in a snapshot key: the first segment of the key once
/// `{base_path}/` is removed from its front (when the key starts with it),
/// provided a `/` follows that segment.
pub open spec fn spec_extract_instance_id(key: Seq<char>, base_path: Seq<char>) -> Option<Seq<char>> {
    let stripped = if base_path.len() == 0 {
        key
    } else if has_prefix(key, base_path + slash()) {
        key.subrange(base_path.len() as int + 1, key.len() as int)
    } else {
        key
    };
    match index_of_from(stripped, '/', 0) {
        Some(i) => Some(stripped.take(i)),
        None => None,
    }
}

/// The instance id in a snapshot key, taken relative to `base_path`.
pub fn extract_instance_id(key: &str, base_path: &str) -> (r: Option<String>)
    ensures
        opt_view(r) == spec_extract_instance_id(key@, base_path@),
{
    let k = chars_of(key);
    let b = chars_of(base_path);
    let stripped = if b.len() == 0 {
        sub_vec(&k, 0, k.len())
    } else {
        let mut p = sub_vec(&b, 0, b.len());
        p.push('/');
        assert(b@.subrange(0, b.len() as int) =~= b@);
        assert(p@ =~= b@ + slash());
        if starts_with(&k, &p) {
            sub_vec(&k, b.len() + 1, k.len())
        } else {
            sub_vec(&k, 0, k.len())
        }
    };
    assert(k@.subrange(0, k.len() as int) =~= k@);
    match index_of(&stripped, '/') {
        Some(i) => {
            let first = sub_vec(&stripped, 0, i);
            assert(stripped@.subrange(0, i as int) =~= stripped@.take(i as int));
            Some(string_of(&first))
        },
        None => None,
    }
}

/// The first `c` at or after `i` is at `k` when none comes before it.
proof fn lemma_index_of_from(s: Seq<char>, c: char, i: int, k: int)
    requires
        0 <= i <= k < s.len(),
        s[k] == c,
        forall|j: int| i <= j < k ==> s[j] != c,
    ensures
        index_of_from(s, c, i) == Some(k),
    decreases k - i,
{
    if i < k {
        lemma_index_of_from(s, c, i + 1, k);
    }
}

/// The instance id is found again in the key of any snapshot stored under
/// the instance's prefix, when the id holds no `/`.
pub proof fn lemma_instance_id_roundtrip(path: Seq<char>, id: Seq<char>, name: Seq<char>)
    requires
        forall|j: int| 0 <= j < id.len() ==> id[j] != '/',
    ensures
        spec_extract_instance_id(
            spec_snapshot_prefix(path, Some(id)) + name,
            trim_end_char(path, '/'),
        ) == Some(id),
{
    let base = trim_end_char(path, '/');
    let key = spec_snapshot_prefix(path, Some(id)) + name;
    let rest = id + slash() + name;
    if base.len() == 0 {
        assert(key =~= rest);
    } else {
        assert(key =~= (base + slash()) + rest);
        assert(key.take((base + slash()).len() as int) =~= base + slash());
        assert(key.subrange(base.len() as int + 1, key.len() as int) =~= rest);
    }
    assert forall|j: int| 0 <= j < id.len() implies rest[j] != '/' by {
        assert(rest[j] == id[j]);
    }
    assert(rest[id.len() as int] == '/');
    lemma_index_of_from(rest, '/', 0, id.len() as int);
    assert(rest.take(id.len() as int) =~= id);
}

/// The file extension of snapshots.
pub open spec fn db_suffix() -> Seq<char> {
    seq!['.', 'd', 'b']
}

/// The timestamp in a snapshot key: the file name with its `.db`
/// endings removed.
pub open spec fn key_timestamp(key: Seq<char>) -> Seq<char> {
    trim_end_text(after_last(key, '/'), db_suffix())
}

/// A snapshot as its key, timestamp, size and instance id.
pub open spec fn snap_view(s: Snapshot) -> (Seq<char>, Seq<char>, u64, Option<Seq<char>>) {
    (s.key@, s.timestamp@, s.size, opt_view(s.instance_id))
}

/// Snapshots as their views.
pub open spec fn snap_views(s: Seq<Snapshot>) -> Seq<(Seq<char>, Seq<char>, u64, Option<Seq<char>>)> {
    Seq::new(s.len(), |i: int| snap_view(s[i]))
}

/// Listed objects as key and size.
pub open spec fn listing_views(l: Seq<(String, u64)>) -> Seq<(Seq<char>, u64)> {
    Seq::new(l.len(), |i: int| (l[i].0@, l[i].1))
}

/// The snapshots in a listing, in listing order: the objects whose key
/// ends in `.db`, with the instance id taken from the key relative to
/// `base` when `from_key` holds, or else `own`.
pub open spec fn listed_snapshots(
    l: Seq<(Seq<char>, u64)>,
    from_key: bool,
    base: Seq<char>,
    own: Option<Seq<char>>,
) -> Seq<(Seq<char>, Seq<char>, u64, Option<Seq<char>>)>
    decreases l.len(),
{
    if l.len() == 0 {
        Seq::empty()
    } else {
        let rest = listed_snapshots(l.drop_last(), from_key, base, own);
        let (key, size) = l.last();
        if has_suffix(key, db_suffix()) {
            rest.push(
                (
                    key,
                    key_timestamp(key),
                    size,
                    if from_key {
                        spec_extract_instance_id(key, base)
                    } else {
                        own
                    },
                ),
            )
        } else {
            rest
        }
    }
}

/// The timestamps of snapshot views.
pub open spec fn timestamps(s: Seq<(Seq<char>, Seq<char>, u64, Option<Seq<char>>)>) -> Seq<Seq<char>> {
    Seq::new(s.len(), |i: int| s[i].1)
}

/// `out` is `snaps` newest first: by timestamp, largest first, snapshots
/// of equal timestamps in their listed order.
pub open spec fn is_newest_first(
    snaps: Seq<(Seq<char>, Seq<char>, u64, Option<Seq<char>>)>,
    out: Seq<(Seq<char>, Seq<char>, u64, Option<Seq<char>>)>,
) -> bool {
    exists|idx: Seq<usize>|
        is_stable_desc_order(timestamps(snaps), idx) && out == Seq::new(
            idx.len(),
            |a: int| snaps[idx[a] as int],
        )
}

pub(crate) fn copy_opt(o: &Option<String>) -> (r: Option<String>)
    ensures
        opt_view(r) == opt_view(*o),
{
    match o {
        Some(s) => Some(s.clone()),
        None => None,
    }
}

/// The snapshots in a listing of `(key, size)`, newest first (see
/// `listed_snapshots` and `is_newest_first`).
fn snapshots_in_listing(
    listing: &Vec<(String, u64)>,
    from_key: bool,
    base: &Vec<char>,
    own: &Option<String>,
) -> (r: Vec<Snapshot>)
    ensures
        is_newest_first(
            listed_snapshots(listing_views(listing@), from_key, base@, opt_view(*own)),
            snap_views(r@),
        ),
{
    let ghost lv = listing_views(listing@);
    let suffix = vec!['.', 'd', 'b'];
    assert(suffix@ =~= db_suffix());
    let base_str = string_of(base);
    let mut found: Vec<Snapshot> = Vec::new();
    let mut stamps: Vec<Vec<char>> = Vec::new();
    let mut i: usize = 0;
    while i < listing.len()
        invariant
            i <= listing.len(),
            lv == listing_views(listing@),
            suffix@ == db_suffix(),
            base_str@ == base@,
            snap_views(found@) == listed_snapshots(lv.take(i as int), from_key, base@, opt_view(*own)),
            texts_of(stamps@) == timestamps(snap_views(found@)),
        decreases listing.len() - i,
    {
        assert(lv.take(i + 1).drop_last() =~= lv.take(i as int));
        assert(lv.take(i + 1).last() == (listing@[i as int].0@, listing@[i as int].1));
        let key = chars_of(listing[i].0.as_str());
        if ends_with(&key, &suffix) {
            let name = after_last_exec(&key, '/');
            let stamp = trim_end_text_exec(&name, &suffix);
            let instance_id = if from_key {
                extract_instance_id(listing[i].0.as_str(), base_str.as_str())
            } else {
                copy_opt(own)
            };
            let ghost old_found = found@;
            let ghost old_stamps = stamps@;
            let snap = Snapshot {
                key: listing[i].0.clone(),
                timestamp: string_of(&stamp),
                size: listing[i].1,
                instance_id,
            };
            let ghost sv = snap_view(snap);
            let ghost st = stamp@;
            found.push(snap);
            stamps.push(stamp);
            assert(snap_views(found@) =~= snap_views(old_found).push(sv));
            assert(texts_of(stamps@) =~= texts_of(old_stamps).push(st));
            assert(timestamps(snap_views(found@)) =~= timestamps(snap_views(old_found)).push(sv.1));
        }
        i = i + 1;
    }
    assert(lv.take(listing.len() as int) =~= lv);
    let idx = stable_order_desc(&stamps);
    let mut out: Vec<Snapshot> = Vec::new();
    let mut a: usize = 0;
    while a < idx.len()
        invariant
            a <= idx.len(),
            is_stable_desc_order(texts_of(stamps@), idx@),
            stamps.len() == found.len(),
            out.len() == a,
            snap_views(out@) == Seq::new(idx@.len(), |b: int| snap_views(found@)[idx@[b] as int]).take(
                a as int,
            ),
        decreases idx.len() - a,
    {
        let k = idx[a];
        assert(k < found.len());
        let ghost old_out = out@;
        let s = Snapshot {
            key: found[k].key.clone(),
            timestamp: found[k].timestamp.clone(),
            size: found[k].size,
            instance_id: copy_opt(&found[k].instance_id),
        };
        out.push(s);
        assert(snap_views(out@) =~= snap_views(old_out).push(snap_views(found@)[k as int]));
        assert(snap_views(out@) =~= Seq::new(
            idx@.len(),
            |b: int| snap_views(found@)[idx@[b] as int],
        ).take(a + 1));
        a = a + 1;
    }
    let ghost whole = Seq::new(idx@.len(), |b: int| snap_views(found@)[idx@[b] as int]);
    assert(whole.take(idx.len() as int) =~= whole);
    assert(is_stable_desc_order(timestamps(snap_views(found@)), idx@));
    assert(snap_views(out@) == Seq::new(
        idx@.len(),
        |b: int| snap_views(found@)[idx@[b] as int],
    ));
    out
}

/// The key prefix that listing all instances' snapshots starts from: the
/// backup path without trailing slashes, or `/`.
pub open spec fn spec_all_snapshots_prefix(path: Seq<char>) -> Seq<char> {
    let base = trim_end_char(path, '/');
    if base.len() == 0 {
        slash()
    } else {
        base
    }
}

/// The key prefix to list when looking for the snapshots of all database
/// instances.
pub fn all_snapshots_prefix(config: &BackupConfig) -> (r: String)
    ensures
        r@ == spec_all_snapshots_prefix(config.path@),
{
    let base = trim_end_char_exec(&chars_of(config.path.as_str()), '/');
    if base.len() == 0 {
        let v = vec!['/'];
        assert(v@ =~= slash());
        string_of(&v)
    } else {
        string_of(&base)
    }
}

/// The key prefix to list when looking for this instance's snapshots: the
/// snapshot prefix without its trailing slashes.
pub fn own_snapshots_prefix(config: &BackupConfig) -> (r: String)
    ensures
        r@ == trim_end_char(spec_snapshot_prefix(config.path@, opt_view(config.db_instance_id)), '/'),
{
    let p = snapshot_prefix(config);
    string_of(&trim_end_char_exec(&chars_of(p.as_str()), '/'))
}

/// The snapshots of all database instances in a listing of `(key, size)`
/// under the backup path, newest first; each takes its instance id from
/// its key.
pub fn snapshots_of_all_instances(config: &BackupConfig, listing: &Vec<(String, u64)>) -> (r: Vec<
    Snapshot,
>)
    ensures
        is_newest_first(
            listed_snapshots(
                listing_views(listing@),
                true,
                trim_end_char(config.path@, '/'),
                None,
            ),
            snap_views(r@),
        ),
{
    let base = trim_end_char_exec(&chars_of(config.path.as_str()), '/');
    snapshots_in_listing(listing, true, &base, &None)
}

/// The snapshots of this database instance in a listing of `(key, size)`
/// under its prefix, newest first; each carries the configured instance
/// id.
pub fn snapshots_of_instance(config: &BackupConfig, listing: &Vec<(String, u64)>) -> (r: Vec<
    Snapshot,
>)
    ensures
        is_newest_first(
            listed_snapshots(
                listing_views(listing@),
                false,
                Seq::empty(),
                opt_view(config.db_instance_id),
            ),
            snap_views(r@),
        ),
{
    let base: Vec<char> = Vec::new();
    snapshots_in_listing(listing, false, &base, &config.db_instance_id)
}

// ── Pruning ──

/// How many snapshots are kept: the configured number, at least one.
pub open spec fn keep_count(max_snapshots: i64) -> int {
    if max_snapshots < 1 {
        1
    } else {
        max_snapshots as int
    }
}

/// The keys of the snapshots to delete from a newest-first list: all but
/// the first `keep_count` ones.
pub fn prune_plan(max_snapshots: i64, existing: &Vec<Snapshot>) -> (r: Vec<String>)
    ensures
        existing.len() <= keep_count(max_snapshots) ==> r.len() == 0,
        existing.len() > keep_count(max_snapshots) ==> r.len() == existing.len() - keep_count(
            max_snapshots,
        ) && forall|j: int|
            0 <= j < r.len() ==> #[trigger] r@[j]@ == existing@[j + keep_count(max_snapshots)].key@,
{
    let keep: i64 = if max_snapshots < 1 {
        1
    } else {
        max_snapshots
    };
    let mut out: Vec<String> = Vec::new();
    if (existing.len() as u64) <= (keep as u64) {
        return out;
    }
    let start = keep as usize;
    let mut i: usize = start;
    while i < existing.len()
        invariant
            start == keep_count(max_snapshots),
            start <= i <= existing.len(),
            out.len() == i - start,
            forall|j: int| 0 <= j < out.len() ==> #[trigger] out@[j]@ == existing@[j + start].key@,
        decreases existing.len() - i,
    {
        out.push(existing[i].key.clone());
        i = i + 1;
    }
    out
}

// ── The storage client ──

/// An endpoint with `https://` put in front unless it names a scheme.
pub open spec fn with_scheme(ep: Seq<char>) -> Seq<char> {
    if has_prefix(ep, "http://"@) || has_prefix(ep, "https://"@) {
        ep
    } else {
        "https://"@ + ep
    }
}

/// The default endpoint of Backblaze B2.
pub open spec fn b2_default_endpoint() -> Seq<char> {
    "s3.us-west-004.backblazeb2.com"@
}

/// An optional text, or empty text.
pub open spec fn or_empty(o: Option<String>) -> Seq<char> {
    match o {
        Some(s) => s@,
        None => Seq::empty(),
    }
}

/// The settings of the storage client for a configuration. For the `b2`
/// provider the B2 key and endpoint are used (the endpoint defaults to
/// Backblaze's) and plain HTTP is allowed; otherwise the S3 key and the
/// optional endpoint, with plain HTTP allowed for an `http://` endpoint.
/// Endpoints without a scheme get `https://`.
pub open spec fn spec_s3_settings(c: BackupConfig, s: S3Settings) -> bool {
    let b2 = c.provider@ == "b2"@;
    &&& s.bucket@ == c.bucket@
    &&& s.region@ == c.region@
    &&& s.access_key@ == if b2 {
        or_empty(c.b2_key_id)
    } else {
        or_empty(c.access_key_id)
    }
    &&& s.secret_key@ == if b2 {
        or_empty(c.b2_application_key)
    } else {
        or_empty(c.secret_access_key)
    }
    &&& opt_view(s.endpoint) == if b2 {
        Some(
            with_scheme(
                match c.b2_endpoint {
                    Some(e) => e@,
                    None => b2_default_endpoint(),
                },
            ),
        )
    } else {
        match c.endpoint {
            Some(e) => Some(with_scheme(e@)),
            None => None,
        }
    }
    &&& s.allow_http == (b2 || (c.endpoint matches Some(e) && has_prefix(e@, "http://"@)))
}

fn add_scheme(ep: &String) -> (r: String)
    ensures
        r@ == with_scheme(ep@),
{
    let e = chars_of(ep.as_str());
    if starts_with(&e, &chars_of("http://")) || starts_with(&e, &chars_of("https://")) {
        ep.clone()
    } else {
        let mut out = chars_of("https://");
        extend_chars(&mut out, &e);
        string_of(&out)
    }
}

fn text_or_empty(o: &Option<String>) -> (r: String)
    ensures
        r@ == or_empty(*o),
{
    match o {
        Some(s) => s.clone(),
        None => String::new(),
    }
}

/// The settings of the storage client for a configuration (see
/// `spec_s3_settings`).
pub fn s3_settings(config: &BackupConfig) -> (s: S3Settings)
    ensures
        spec_s3_settings(*config, s),
{
    let b2 = chars_eq(&chars_of(config.provider.as_str()), &chars_of("b2"));
    let (access_key, secret_key, endpoint) = if b2 {
        let ep = match &config.b2_endpoint {
            Some(e) => e.clone(),
            None => "s3.us-west-004.backblazeb2.com".to_owned(),
        };
        (
            text_or_empty(&config.b2_key_id),
            text_or_empty(&config.b2_application_key),
            Some(add_scheme(&ep)),
        )
    } else {
        (
            text_or_empty(&config.access_key_id),
            text_or_empty(&config.secret_access_key),
            match &config.endpoint {
                Some(e) => Some(add_scheme(e)),
                None => None,
            },
        )
    };
    let plain_http = match &config.endpoint {
        Some(e) => starts_with(&chars_of(e.as_str()), &chars_of("http://")),
        None => false,
    };
    S3Settings {
        bucket: config.bucket.clone(),
        region: config.region.clone(),
        access_key,
        secret_key,
        endpoint,
        allow_http: b2 || plain_http,
    }
}

/// The S3 client type of `object_store`.
#[verifier::external_type_specification]
#[verifier::external_body]
pub struct ExAmazonS3(object_store::aws::AmazonS3);

/// Builds a client with `object_store::aws::AmazonS3Builder` from the
/// settings: bucket, region, keys, the endpoint when there is one, and
/// `allow_http`. The settings come back unchanged beside the outcome, so
/// that callers can state what the client was built from; nothing is
/// stated of the outcome, since whether the builder accepts the settings
/// is its own business, and its error comes back as text.
#[verifier::external_body]
fn build_s3(s: S3Settings) -> (r: (Result<object_store::aws::AmazonS3, String>, S3Settings))
    ensures
        r.1 == s,
{
    let mut b = object_store::aws::AmazonS3Builder::new().with_bucket_name(&s.bucket).with_region(
        &s.region,
    ).with_access_key_id(&s.access_key).with_secret_access_key(&s.secret_key).with_allow_http(
        s.allow_http,
    );
    if let Some(ep) = &s.endpoint {
        b = b.with_endpoint(ep);
    }
    (b.build().map_err(|e| e.to_string()), s)
}

/// A storage client and the settings it was built from.
pub struct StorageClient {
    pub client: object_store::aws::AmazonS3,
    pub settings: S3Settings,
}

/// Builds the storage client for a configuration: the builder gets the
/// settings of `s3_settings`, and a client that comes back carries them. A
/// refusal of the builder is an internal error whose text starts with
/// `failed to build S3 client: ` and goes on with the builder's own text.
/// Whether the builder succeeds is not stated: it also sets up its HTTP
/// client, which depends on the machine's environment rather than on the
/// settings, so no success can be promised here.
pub fn build_object_store(config: &BackupConfig) -> (r: Result<StorageClient, AppError>)
    ensures
        r matches Ok(c) ==> spec_s3_settings(*config, c.settings),
        r matches Err(e) ==> e matches AppError::Internal(t) && has_prefix(
            t@,
            "failed to build S3 client: "@,
        ),
{
    let settings = s3_settings(config);
    let (built, settings) = build_s3(settings);
    match built {
        Ok(client) => Ok(StorageClient { client, settings }),
        Err(msg) => {
            let prefix = chars_of("failed to build S3 client: ");
            let mut text = chars_of("failed to build S3 client: ");
            extend_chars(&mut text, &chars_of(msg.as_str()));
            assert(text@.take(prefix@.len() as int) =~= prefix@);
            Err(AppError::Internal(string_of(&text)))
        },
    }
}

// ── Saving a submitted configuration ──

/// An optional field, dropped when it is blank.
pub open spec fn nonblank(o: Option<Seq<char>>) -> Option<Seq<char>> {
    match o {
        Some(s) => if trim(s).len() == 0 {
            None
        } else {
            Some(s)
        },
        None => None,
    }
}

pub(crate) fn nonblank_exec(o: &Option<String>) -> (r: Option<String>)
    ensures
        opt_view(r) == nonblank(opt_view(*o)),
{
    match o {
        Some(s) => if trimmed_chars(s.as_str()).len() == 0 {
            None
        } else {
            Some(s.clone())
        },
        None => None,
    }
}

/// The storage fields of a submitted configuration.
pub struct StorageFields {
    pub provider: String,
    pub bucket: String,
    pub path: String,
    pub region: String,
    pub endpoint: Option<String>,
    pub access_key_id: Option<String>,
    pub secret_access_key: Option<String>,
    pub b2_key_id: Option<String>,
    pub b2_application_key: Option<String>,
    pub b2_endpoint: Option<String>,
    pub interval_minutes: Option<i64>,
    pub max_snapshots: Option<i64>,
}

/// The configuration to store for submitted storage fields: with a stored
/// configuration, it keeps its id, instance id, enabled state, interval
/// and retention and takes the new storage fields; without one it is a new,
/// paused configuration with the submitted interval (60 minutes by
/// default) and retention (10 snapshots by default). Blank optional fields
/// count as missing, and a missing secret keeps the stored one.
pub open spec fn spec_merged_config(
    f: StorageFields,
    existing: Option<BackupConfig>,
    c: BackupConfig,
) -> bool {
    let secret = match nonblank(opt_view(f.secret_access_key)) {
        Some(s) => Some(s),
        None => match existing {
            Some(e) => opt_view(e.secret_access_key),
            None => None,
        },
    };
    let app_key = match nonblank(opt_view(f.b2_application_key)) {
        Some(s) => Some(s),
        None => match existing {
            Some(e) => opt_view(e.b2_application_key),
            None => None,
        },
    };
    &&& c.provider@ == f.provider@
    &&& c.bucket@ == f.bucket@
    &&& c.path@ == f.path@
    &&& c.region@ == f.region@
    &&& opt_view(c.endpoint) == nonblank(opt_view(f.endpoint))
    &&& opt_view(c.access_key_id) == nonblank(opt_view(f.access_key_id))
    &&& opt_view(c.secret_access_key) == secret
    &&& opt_view(c.b2_key_id) == nonblank(opt_view(f.b2_key_id))
    &&& opt_view(c.b2_application_key) == app_key
    &&& opt_view(c.b2_endpoint) == nonblank(opt_view(f.b2_endpoint))
    &&& match existing {
        Some(e) => {
            &&& c.id == e.id
            &&& c.enabled == e.enabled
            &&& opt_view(c.db_instance_id) == opt_view(e.db_instance_id)
            &&& c.interval_minutes == e.interval_minutes
            &&& c.max_snapshots == e.max_snapshots
        },
        None => {
            &&& c.id == 0
            &&& !c.enabled
            &&& c.db_instance_id is None
            &&& c.interval_minutes == match f.interval_minutes {
                Some(m) => m,
                None => 60,
            }
            &&& c.max_snapshots == match f.max_snapshots {
                Some(m) => m,
                None => 10,
            }
        },
    }
}

/// The configuration to store for submitted storage fields (see
/// `spec_merged_config`).
pub fn merged_config(f: &StorageFields, existing: &Option<BackupConfig>) -> (c: BackupConfig)
    ensures
        spec_merged_config(*f, *existing, c),
{
    let secret = match nonblank_exec(&f.secret_access_key) {
        Some(s) => Some(s),
        None => match existing {
            Some(e) => copy_opt(&e.secret_access_key),
            None => None,
        },
    };
    let app_key = match nonblank_exec(&f.b2_application_key) {
        Some(s) => Some(s),
        None => match existing {
            Some(e) => copy_opt(&e.b2_application_key),
            None => None,
        },
    };
    let (id, enabled, db_instance_id, interval_minutes, max_snapshots) = match existing {
        Some(e) => (e.id, e.enabled, copy_opt(&e.db_instance_id), e.interval_minutes, e.max_snapshots),
        None => (
            0u128,
            false,
            None,
            match f.interval_minutes {
                Some(m) => m,
                None => 60,
            },
            match f.max_snapshots {
                Some(m) => m,
                None => 10,
            },
        ),
    };
    BackupConfig {
        id,
        provider: f.provider.clone(),
        bucket: f.bucket.clone(),
        path: f.path.clone(),
        region: f.region.clone(),
        endpoint: nonblank_exec(&f.endpoint),
        access_key_id: nonblank_exec(&f.access_key_id),
        secret_access_key: secret,
        b2_key_id: nonblank_exec(&f.b2_key_id),
        b2_application_key: app_key,
        b2_endpoint: nonblank_exec(&f.b2_endpoint),
        enabled,
        db_instance_id,
        interval_minutes,
        max_snapshots,
    }
}

/// A secret left blank keeps the stored one. When a configuration is
/// stored and the submitted S3 secret key or B2 application key is missing
/// or only whitespace, the merged configuration holds the stored secret; a
/// secret that is given replaces it; and with nothing stored, a blank
/// secret is missing.
pub proof fn lemma_blank_secrets_kept(f: StorageFields, existing: Option<BackupConfig>, c: BackupConfig)
    requires
        spec_merged_config(f, existing, c),
    ensures
        (f.secret_access_key is None || trim(f.secret_access_key.unwrap()@).len() == 0) ==> match existing {
            Some(e) => opt_view(c.secret_access_key) == opt_view(e.secret_access_key),
            None => c.secret_access_key is None,
        },
        (f.b2_application_key is None || trim(f.b2_application_key.unwrap()@).len() == 0) ==> match existing {
            Some(e) => opt_view(c.b2_application_key) == opt_view(e.b2_application_key),
            None => c.b2_application_key is None,
        },
        (f.secret_access_key is Some && trim(f.secret_access_key.unwrap()@).len() > 0) ==> (
        c.secret_access_key is Some && c.secret_access_key.unwrap()@ == f.secret_access_key.unwrap()@),
        (f.b2_application_key is Some && trim(f.b2_application_key.unwrap()@).len() > 0) ==> (
        c.b2_application_key is Some && c.b2_application_key.unwrap()@ == f.b2_application_key.unwrap()@),
{
}

/// Saving storage fields over a stored configuration changes only its
/// storage: the id, the instance id, the enabled state, the interval and
/// the retention stay; a new configuration starts paused. The storage
/// fields are the submitted ones, and a blank key id (S3 or B2) is
/// missing rather than kept.
pub proof fn lemma_merge_keeps_state(f: StorageFields, existing: Option<BackupConfig>, c: BackupConfig)
    requires
        spec_merged_config(f, existing, c),
    ensures
        c.provider@ == f.provider@ && c.bucket@ == f.bucket@ && c.path@ == f.path@ && c.region@ == f.region@,
        existing is Some ==> (c.id == existing.unwrap().id && c.enabled == existing.unwrap().enabled
            && opt_view(c.db_instance_id) == opt_view(existing.unwrap().db_instance_id)
            && c.interval_minutes == existing.unwrap().interval_minutes && c.max_snapshots
            == existing.unwrap().max_snapshots),
        existing is None ==> !c.enabled && c.db_instance_id is None,
        (f.access_key_id is None || trim(f.access_key_id.unwrap()@).len() == 0) ==> c.access_key_id is None,
        (f.b2_key_id is None || trim(f.b2_key_id.unwrap()@).len() == 0) ==> c.b2_key_id is None,
{
}

// ── Automatic snapshots ──

/// Seconds to wait before looking at the configuration again: five
/// minutes while there is no enabled configuration, else the configured
/// interval, at least five minutes.
pub open spec fn spec_backup_wait_seconds(config: Option<BackupConfig>) -> int {
    match config {
        Some(c) => if c.enabled {
            (if c.interval_minutes < 5 {
                5
            } else {
                c.interval_minutes as int
            }) * 60
        } else {
            300
        },
        None => 300,
    }
}

/// The scheduler never waits less than five minutes.
pub proof fn lemma_backup_wait_minimum(config: Option<BackupConfig>)
    ensures
        spec_backup_wait_seconds(config) >= 300,
{
}

/// Seconds the backup scheduler waits (see `spec_backup_wait_seconds`).
pub fn backup_wait_seconds(config: &Option<BackupConfig>) -> (r: u64)
    requires
        config matches Some(c) ==> c.interval_minutes <= u64::MAX / 60,
    ensures
        r == spec_backup_wait_seconds(*config),
{
    match config {
        Some(c) => if c.enabled {
            let m: i64 = if c.interval_minutes < 5 {
                5
            } else {
                c.interval_minutes
            };
            (m as u64) * 60
        } else {
            300
        },
        None => 300,
    }
}

/// Whether a snapshot is due after the wait: there is a configuration and
/// it is enabled.
pub fn snapshot_due(config: &Option<BackupConfig>) -> (r: bool)
    ensures
        r == (config matches Some(c) && c.enabled),
{
    match config {
        Some(c) => c.enabled,
        None => false,
    }
}

} // verus!

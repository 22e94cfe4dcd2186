//! Snapshots and trees: the metadata objects of a repository.
//!
//! A tree lists the nodes of one directory; a snapshot names the tree at the
//! root of a backup together with where and when the backup was made.  Both
//! are stored as sealed JSON; the JSON itself is written and read by the
//! caller, the library seals and opens it.

use crate::crypto::{Encryptor, decrypted, is_sealing, sealable_len};
use crate::error::Error;
use crate::pack::unix_now;
use crate::hexcode::digit_char;
use crate::text::{chars_of, same_text, text_of};
use crate::types::{ChunkID, NodeType, TreeNode, TreeNodeView, fresh_uuid};
use vstd::prelude::*;
use vstd::seq_lib::lemma_multiset_commutative;
use vstd::string::StringExecFns;
use vstd::string::StrSliceExecFns;

verus! {

/// The UTC date and time of a moment given in seconds since the epoch, as
/// `%Y-%m-%d %H:%M:%S UTC`, or `None` for a moment that chrono cannot hold.
pub uninterp spec fn utc_text(seconds: i64) -> Option<Seq<char>>;

/// The text of a string that may be absent.
pub open spec fn text_view(text: Option<String>) -> Option<Seq<char>> {
    match text {
        Some(t) => Some(t@),
        None => None,
    }
}

/// The texts of a list of strings.
pub open spec fn texts(list: Seq<String>) -> Seq<Seq<char>> {
    Seq::new(list.len(), |i: int| list[i]@)
}

/// The decimal digits of a number.
pub open spec fn decimal(n: nat) -> Seq<char>
    decreases n,
{
    if n < 10 {
        seq![crate::hexcode::hex_digit(n as u8)]
    } else {
        decimal(n / 10).push(crate::hexcode::hex_digit((n % 10) as u8))
    }
}

/// Calls `hostname::get` and reads the name as text.  The name is the
/// machine's, so nothing is known of it.
#[verifier::external_body]
fn host_name() -> (name: Option<String>) {
    hostname::get().map(|h| h.to_string_lossy().to_string()).ok()
}

/// Calls `chrono::DateTime::from_timestamp` and formats the moment as
/// `%Y-%m-%d %H:%M:%S UTC`.
#[verifier::external_body]
fn utc_time_text(seconds: i64) -> (text: Option<String>)
    ensures
        text_view(text) == utc_text(seconds),
{
    chrono::DateTime::from_timestamp(seconds, 0).map(|t| t.format("%Y-%m-%d %H:%M:%S UTC").to_string())
}

/// The decimal digits of a number.
fn decimal_chars(n: usize) -> (digits: Vec<char>)
    ensures
        digits@ == decimal(n as nat),
    decreases n,
{
    if n < 10 {
        let mut digits: Vec<char> = Vec::new();
        digits.push(digit_char(n as u8));
        assert(digits@ =~= seq![crate::hexcode::hex_digit(n as u8)]);
        digits
    } else {
        let mut digits = decimal_chars(n / 10);
        digits.push(digit_char((n % 10) as u8));
        digits
    }
}

/// A number in decimal digits.
fn decimal_text(n: usize) -> (text: String)
    ensures
        text@ == decimal(n as nat),
{
    text_of(&decimal_chars(n))
}

/// A committed point-in-time view: the root tree and where, when and by whom
/// it was taken.
#[derive(Debug)]
pub struct Snapshot {
    pub id: String,
    pub parent: Option<String>,
    pub tree: ChunkID,
    pub paths: Vec<String>,
    pub hostname: String,
    pub username: String,
    pub time: i64,
    pub tags: Vec<String>,
    pub excludes: Vec<String>,
}

/// What a `Snapshot` holds, as plain values.
pub ghost struct SnapshotView {
    pub id: Seq<char>,
    pub parent: Option<Seq<char>>,
    pub tree: Seq<u8>,
    pub paths: Seq<Seq<char>>,
    pub hostname: Seq<char>,
    pub username: Seq<char>,
    pub time: i64,
    pub tags: Seq<Seq<char>>,
    pub excludes: Seq<Seq<char>>,
}

impl View for Snapshot {
    type V = SnapshotView;

    open spec fn view(&self) -> SnapshotView {
        SnapshotView {
            id: self.id@,
            parent: text_view(self.parent),
            tree: self.tree@,
            paths: texts(self.paths@),
            hostname: self.hostname@,
            username: self.username@,
            time: self.time,
            tags: texts(self.tags@),
            excludes: texts(self.excludes@),
        }
    }
}

/// The name that a snapshot records for its maker: the first of the two
/// names that is given, else `unknown`.
pub open spec fn recorded_name(first: Option<Seq<char>>, second: Option<Seq<char>>) -> Seq<char> {
    match first {
        Some(name) => name,
        None => match second {
            Some(name) => name,
            None => "unknown"@,
        },
    }
}

/// The first characters of `text`, at most `count` of them.
pub open spec fn prefix_of(text: Seq<char>, count: nat) -> Seq<char> {
    if text.len() <= count {
        text
    } else {
        text.subrange(0, count as int)
    }
}

/// The first eight characters of `text`, or all of it where it is shorter.
fn leading_eight(text: &str) -> (short: String)
    ensures
        short@ == prefix_of(text@, 8),
{
    let len = text.unicode_len();
    if len <= 8 {
        String::from_str(text)
    } else {
        String::from_str(text.substring_char(0, 8))
    }
}

impl Clone for Snapshot {
    fn clone(&self) -> (copy: Self)
        ensures
            copy@ == self@,
    {
        let parent = match &self.parent {
            Some(p) => Some(p.clone()),
            None => None,
        };
        let paths = self.paths.clone();
        let tags = self.tags.clone();
        let excludes = self.excludes.clone();
        assert(texts(paths@) =~= texts(self.paths@));
        assert(texts(tags@) =~= texts(self.tags@));
        assert(texts(excludes@) =~= texts(self.excludes@));
        Snapshot {
            id: self.id.clone(),
            parent,
            tree: self.tree,
            paths,
            hostname: self.hostname.clone(),
            username: self.username.clone(),
            time: self.time,
            tags,
            excludes,
        }
    }
}

impl Snapshot {
    /// Puts a snapshot together from its parts.  A host name that could not
    /// be read is recorded as `unknown`; the maker is the first of `user` and
    /// `username` that is given, else `unknown`.
    pub fn assemble(
        id: String,
        paths: Vec<String>,
        tree: ChunkID,
        hostname: Option<String>,
        user: Option<String>,
        username: Option<String>,
        time: i64,
    ) -> (snapshot: Self)
        ensures
            snapshot@ == (SnapshotView {
                id: id@,
                parent: None,
                tree: tree@,
                paths: texts(paths@),
                hostname: recorded_name(text_view(hostname), None),
                username: recorded_name(text_view(user), text_view(username)),
                time,
                tags: Seq::empty(),
                excludes: Seq::empty(),
            }),
    {
        let hostname = match hostname {
            Some(name) => name,
            None => String::from_str("unknown"),
        };
        let username = match user {
            Some(name) => name,
            None => match username {
                Some(name) => name,
                None => String::from_str("unknown"),
            },
        };
        let snapshot = Snapshot {
            id,
            parent: None,
            tree,
            paths,
            hostname,
            username,
            time,
            tags: Vec::new(),
            excludes: Vec::new(),
        };
        assert(snapshot@.tags =~= Seq::<Seq<char>>::empty());
        assert(snapshot@.excludes =~= Seq::<Seq<char>>::empty());
        snapshot
    }

    /// A new snapshot of `paths` with the root tree `tree`, taken now on
    /// this host, with a fresh identifier.  `user` and `username` are the two
    /// names under which the environment may know the maker.
    pub fn new(paths: Vec<String>, tree: ChunkID, user: Option<String>, username: Option<String>) -> (snapshot:
        Self)
        ensures
            snapshot@.id.len() == 36,
            snapshot@.parent is None,
            snapshot@.tree == tree@,
            snapshot@.paths == texts(paths@),
            snapshot@.username == recorded_name(text_view(user), text_view(username)),
            snapshot@.tags.len() == 0,
            snapshot@.excludes.len() == 0,
    {
        Snapshot::assemble(fresh_uuid(), paths, tree, host_name(), user, username, unix_now())
    }

    pub fn with_parent(self, parent: String) -> (snapshot: Self)
        ensures
            snapshot@ == (SnapshotView { parent: Some(parent@), ..self@ }),
    {
        let mut snapshot = self;
        snapshot.parent = Some(parent);
        snapshot
    }

    pub fn with_tags(self, tags: Vec<String>) -> (snapshot: Self)
        ensures
            snapshot@ == (SnapshotView { tags: texts(tags@), ..self@ }),
    {
        let mut snapshot = self;
        snapshot.tags = tags;
        snapshot
    }

    pub fn with_excludes(self, excludes: Vec<String>) -> (snapshot: Self)
        ensures
            snapshot@ == (SnapshotView { excludes: texts(excludes@), ..self@ }),
    {
        let mut snapshot = self;
        snapshot.excludes = excludes;
        snapshot
    }

    /// Seals the JSON form of a snapshot.  A failure to write the JSON comes
    /// in as its message and goes out as an error.
    pub fn serialize(json: core::result::Result<Vec<u8>, String>, encryptor: &Encryptor) -> (r:
        core::result::Result<Vec<u8>, Error>)
        ensures
            sealed_json(encryptor.spec_key(), json, r),
    {
        seal_json(json, "Failed to serialize snapshot: ", encryptor)
    }

    /// Opens a sealed snapshot and hands out its JSON form.
    pub fn deserialize(data: &[u8], encryptor: &Encryptor) -> (r: core::result::Result<Vec<u8>, Error>)
        ensures
            match decrypted(encryptor.spec_key(), data@) {
                Some(json) => r matches Ok(bytes) && bytes@ == json,
                None => r matches Err(Error::Encryption(_)),
            },
    {
        encryptor.decrypt(data)
    }

    /// The first eight characters of the identifier.
    pub fn short_id(&self) -> (short: String)
        ensures
            short@ == prefix_of(self@.id, 8),
    {
        leading_eight(self.id.as_str())
    }

    /// One line that tells the snapshot from others: its short identifier,
    /// the number of its paths, the host and the time.
    pub fn summary(&self) -> (line: String)
        ensures
            line@ == prefix_of(self@.id, 8) + " - "@ + decimal(self@.paths.len()) + " paths on "@
                + self@.hostname + " at "@ + match utc_text(self.time) {
                Some(text) => text,
                None => "unknown time"@,
            },
    {
        let time = match utc_time_text(self.time) {
            Some(text) => text,
            None => String::from_str("unknown time"),
        };
        self.short_id().concat(" - ").concat(decimal_text(self.paths.len()).as_str()).concat(
            " paths on ",
        ).concat(self.hostname.as_str()).concat(" at ").concat(time.as_str())
    }
}

/// What sealing a JSON form comes to: an error with the writer's message
/// behind `context` where the JSON could not be written, an encryption error
/// where it is too long for the cipher, and else a sealing of it.
pub open spec fn sealed_json(
    key: Seq<u8>,
    json: core::result::Result<Vec<u8>, String>,
    r: core::result::Result<Vec<u8>, Error>,
) -> bool {
    match json {
        Err(message) => r matches Err(Error::Other(m)) && m@.len() >= message@.len() && m@.subrange(
            m@.len() - message@.len(),
            m@.len() as int,
        ) == message@,
        Ok(plain) => if sealable_len(plain@.len()) {
            r matches Ok(sealed) && is_sealing(key, plain@, sealed@)
        } else {
            r matches Err(Error::Encryption(_))
        },
    }
}

/// Seals a JSON form, or reports why there is none.
fn seal_json(json: core::result::Result<Vec<u8>, String>, context: &str, encryptor: &Encryptor) -> (r:
    core::result::Result<Vec<u8>, Error>)
    ensures
        sealed_json(encryptor.spec_key(), json, r),
{
    match json {
        Err(message) => {
            let text = String::from_str(context).concat(message.as_str());
            assert(text@.subrange(text@.len() - message@.len(), text@.len() as int) =~= message@);
            Err(Error::Other(text))
        },
        Ok(plain) => encryptor.encrypt(plain.as_slice()),
    }
}

/// The nodes of one directory, in order.
#[derive(Debug)]
pub struct Tree {
    pub nodes: Vec<TreeNode>,
}

/// The views of a list of nodes.
pub open spec fn node_views(nodes: Seq<TreeNode>) -> Seq<TreeNodeView> {
    Seq::new(nodes.len(), |i: int| nodes[i]@)
}

impl View for Tree {
    type V = Seq<TreeNodeView>;

    open spec fn view(&self) -> Seq<TreeNodeView> {
        node_views(self.nodes@)
    }
}

/// The sizes of the nodes, added up.
pub open spec fn size_total(nodes: Seq<TreeNodeView>) -> nat
    decreases nodes.len(),
{
    if nodes.len() == 0 {
        0
    } else {
        size_total(nodes.drop_last()) + nodes.last().size as nat
    }
}

/// The number of nodes of the kind given.
pub open spec fn kind_count(nodes: Seq<TreeNodeView>, kind: NodeType) -> nat
    decreases nodes.len(),
{
    if nodes.len() == 0 {
        0
    } else {
        kind_count(nodes.drop_last(), kind) + if nodes.last().node_type == kind {
            1nat
        } else {
            0nat
        }
    }
}

/// Whether `index` is the first node of the list with the name given.
pub open spec fn is_first_named(nodes: Seq<TreeNodeView>, name: Seq<char>, index: int) -> bool {
    &&& 0 <= index < nodes.len()
    &&& nodes[index].name == name
    &&& forall|j: int| 0 <= j < index ==> (#[trigger] nodes[j]).name != name
}

proof fn lemma_size_total_grows(nodes: Seq<TreeNodeView>, upto: int)
    requires
        0 <= upto <= nodes.len(),
    ensures
        size_total(nodes.subrange(0, upto)) <= size_total(nodes),
    decreases nodes.len() - upto,
{
    if upto == nodes.len() {
        assert(nodes.subrange(0, upto) =~= nodes);
    } else {
        lemma_size_total_grows(nodes, upto + 1);
        let head = nodes.subrange(0, upto + 1);
        assert(head.drop_last() =~= nodes.subrange(0, upto));
    }
}

impl Tree {
    pub fn new() -> (tree: Self)
        ensures
            tree@.len() == 0,
    {
        Tree { nodes: Vec::new() }
    }

    /// Appends a node.
    pub fn add_node(&mut self, node: TreeNode)
        ensures
            final(self)@ == old(self)@.push(node@),
    {
        self.nodes.push(node);
        assert(self@ =~= old(self)@.push(node@));
    }

    /// Seals the JSON form of a tree.  A failure to write the JSON comes in
    /// as its message and goes out as an error.
    pub fn serialize(json: core::result::Result<Vec<u8>, String>, encryptor: &Encryptor) -> (r:
        core::result::Result<Vec<u8>, Error>)
        ensures
            sealed_json(encryptor.spec_key(), json, r),
    {
        seal_json(json, "Failed to serialize tree: ", encryptor)
    }

    /// Opens a sealed tree and hands out its JSON form.
    pub fn deserialize(data: &[u8], encryptor: &Encryptor) -> (r: core::result::Result<Vec<u8>, Error>)
        ensures
            match decrypted(encryptor.spec_key(), data@) {
                Some(json) => r matches Ok(bytes) && bytes@ == json,
                None => r matches Err(Error::Encryption(_)),
            },
    {
        encryptor.decrypt(data)
    }

    /// The first node with the name given.
    pub fn find_node(&self, path: &str) -> (r: Option<&TreeNode>)
        ensures
            match r {
                Some(node) => exists|index: int|
                    is_first_named(self@, path@, index) && node@ == #[trigger] self@[index],
                None => forall|j: int| 0 <= j < self@.len() ==> (#[trigger] self@[j]).name != path@,
            },
    {
        let wanted = String::from_str(path);
        let mut i: usize = 0;
        while i < self.nodes.len()
            invariant
                i <= self.nodes.len(),
                wanted@ == path@,
                forall|j: int| 0 <= j < i ==> (#[trigger] self@[j]).name != path@,
            decreases self.nodes.len() - i,
        {
            if self.nodes[i].name == wanted {
                assert(is_first_named(self@, path@, i as int));
                return Some(&self.nodes[i]);
            }
            i += 1;
        }
        None
    }

    /// The sizes of all nodes, added up.  The total has to fit in 64 bits.
    pub fn total_size(&self) -> (total: u64)
        requires
            size_total(self@) <= u64::MAX,
        ensures
            total == size_total(self@),
    {
        let mut total: u64 = 0;
        let mut i: usize = 0;
        assert(self@.subrange(0, 0) =~= Seq::<TreeNodeView>::empty());
        while i < self.nodes.len()
            invariant
                i <= self.nodes.len(),
                size_total(self@) <= u64::MAX,
                total == size_total(self@.subrange(0, i as int)),
            decreases self.nodes.len() - i,
        {
            proof {
                lemma_size_total_grows(self@, i + 1);
                let head = self@.subrange(0, i + 1);
                assert(head.drop_last() =~= self@.subrange(0, i as int));
                assert(head.last() == self.nodes@[i as int]@);
            }
            total = total + self.nodes[i].size;
            i += 1;
        }
        assert(self@.subrange(0, self@.len() as int) =~= self@);
        total
    }

    /// The number of file nodes.
    pub fn file_count(&self) -> (count: usize)
        ensures
            count == kind_count(self@, NodeType::File),
    {
        self.count_kind(NodeType::File)
    }

    /// The number of directory nodes.
    pub fn dir_count(&self) -> (count: usize)
        ensures
            count == kind_count(self@, NodeType::Directory),
    {
        self.count_kind(NodeType::Directory)
    }

    fn count_kind(&self, kind: NodeType) -> (count: usize)
        ensures
            count == kind_count(self@, kind),
    {
        let mut count: usize = 0;
        let mut i: usize = 0;
        assert(self@.subrange(0, 0) =~= Seq::<TreeNodeView>::empty());
        while i < self.nodes.len()
            invariant
                i <= self.nodes.len(),
                count == kind_count(self@.subrange(0, i as int), kind),
                count <= i,
            decreases self.nodes.len() - i,
        {
            proof {
                let head = self@.subrange(0, i + 1);
                assert(head.drop_last() =~= self@.subrange(0, i as int));
                assert(head.last() == self.nodes@[i as int]@);
            }
            if self.nodes[i].node_type == kind {
                count = count + 1;
            }
            i += 1;
        }
        assert(self@.subrange(0, self@.len() as int) =~= self@);
        count
    }
}

/// The views of a list of snapshots.
pub open spec fn snapshot_views(snapshots: Seq<Snapshot>) -> Seq<SnapshotView> {
    Seq::new(snapshots.len(), |i: int| snapshots[i]@)
}

/// The views of a list of borrowed snapshots.
pub open spec fn borrowed_views(snapshots: Seq<&Snapshot>) -> Seq<SnapshotView> {
    Seq::new(snapshots.len(), |i: int| snapshots[i]@)
}

/// Whether no two snapshots of the list have the same identifier.
pub open spec fn ids_unique(snapshots: Seq<SnapshotView>) -> bool {
    forall|i: int, j: int|
        0 <= i < j < snapshots.len() ==> (#[trigger] snapshots[i]).id != (#[trigger] snapshots[j]).id
}

/// Whether the snapshots are in order of time, the latest first.
pub open spec fn newest_first(snapshots: Seq<SnapshotView>) -> bool {
    forall|i: int, j: int|
        0 <= i < j < snapshots.len() ==> (#[trigger] snapshots[i]).time >= (
        #[trigger] snapshots[j]).time
}

/// The snapshots whose place is marked in `mask`, in their order.
pub open spec fn masked(snapshots: Seq<SnapshotView>, mask: Seq<bool>) -> Seq<SnapshotView>
    decreases snapshots.len(),
{
    if snapshots.len() == 0 || mask.len() != snapshots.len() {
        Seq::empty()
    } else {
        let before = masked(snapshots.drop_last(), mask.drop_last());
        if mask.last() {
            before.push(snapshots.last())
        } else {
            before
        }
    }
}

/// Whether `found` is what a search gives that wants the snapshots marked
/// in `mask`: those snapshots, each once, the latest first.
pub open spec fn is_selection(found: Seq<SnapshotView>, snapshots: Seq<SnapshotView>, mask: Seq<bool>) -> bool {
    &&& newest_first(found)
    &&& found.to_multiset() == masked(snapshots, mask).to_multiset()
}

/// The mask that marks every snapshot.
pub open spec fn all_marked(snapshots: Seq<SnapshotView>) -> Seq<bool> {
    Seq::new(snapshots.len(), |i: int| true)
}

/// The mask that marks the snapshots taken on the host given.
pub open spec fn marked_by_hostname(snapshots: Seq<SnapshotView>, hostname: Seq<char>) -> Seq<bool> {
    Seq::new(snapshots.len(), |i: int| snapshots[i].hostname == hostname)
}

/// The mask that marks the snapshots taken of the path given.
pub open spec fn marked_by_path(snapshots: Seq<SnapshotView>, path: Seq<char>) -> Seq<bool> {
    Seq::new(snapshots.len(), |i: int| covers_path(snapshots[i], path))
}

/// The mask that marks the snapshots that carry the tag given.
pub open spec fn marked_by_tag(snapshots: Seq<SnapshotView>, tag: Seq<char>) -> Seq<bool> {
    Seq::new(snapshots.len(), |i: int| carries_tag(snapshots[i], tag))
}

/// Whether a snapshot was taken of the path given.
pub open spec fn covers_path(snapshot: SnapshotView, path: Seq<char>) -> bool {
    snapshot.paths.contains(path)
}

/// Whether a snapshot carries the tag given.
pub open spec fn carries_tag(snapshot: SnapshotView, tag: Seq<char>) -> bool {
    snapshot.tags.contains(tag)
}

/// Tells whether a list of texts holds the text given.
fn holds_text(list: &Vec<String>, wanted: &Vec<char>) -> (r: bool)
    ensures
        r == texts(list@).contains(wanted@),
{
    let ghost all = texts(list@);
    let mut i: usize = 0;
    while i < list.len()
        invariant
            i <= list.len(),
            all == texts(list@),
            forall|j: int| 0 <= j < i ==> (#[trigger] all[j]) != wanted@,
        decreases list.len() - i,
    {
        let text = chars_of(list[i].as_str());
        assert(all[i as int] == text@);
        if same_text(&text, wanted) {
            return true;
        }
        i += 1;
    }
    false
}

/// The snapshots of a session, each under its identifier.
#[derive(Debug)]
pub struct SnapshotManager {
    snapshots: Vec<Snapshot>,
}

impl SnapshotManager {
    /// The snapshots, in the order in which their identifiers first came.
    pub closed spec fn spec_snapshots(&self) -> Seq<SnapshotView> {
        snapshot_views(self.snapshots@)
    }

    /// The invariant of the manager: no identifier is held twice.
    pub open spec fn inv(&self) -> bool {
        ids_unique(self.spec_snapshots())
    }

    pub fn new() -> (manager: Self)
        ensures
            manager.inv(),
            manager.spec_snapshots().len() == 0,
    {
        SnapshotManager { snapshots: Vec::new() }
    }

    /// The place of the snapshot with the identifier given.
    fn position(&self, id: &str) -> (r: Option<usize>)
        ensures
            match r {
                Some(at) => at < self.spec_snapshots().len() && self.spec_snapshots()[at as int].id
                    == id@,
                None => forall|j: int|
                    0 <= j < self.spec_snapshots().len() ==> (#[trigger] self.spec_snapshots()[j]).id
                        != id@,
            },
    {
        let wanted = chars_of(id);
        let mut i: usize = 0;
        while i < self.snapshots.len()
            invariant
                i <= self.snapshots.len(),
                wanted@ == id@,
                forall|j: int| 0 <= j < i ==> (#[trigger] self.spec_snapshots()[j]).id != id@,
            decreases self.snapshots.len() - i,
        {
            let held = chars_of(self.snapshots[i].id.as_str());
            assert(self.spec_snapshots()[i as int].id == held@);
            if same_text(&held, &wanted) {
                return Some(i);
            }
            i += 1;
        }
        None
    }

    /// Holds a snapshot under its identifier, in place of the one that was
    /// held under it.
    pub fn add_snapshot(&mut self, snapshot: Snapshot)
        requires
            old(self).inv(),
        ensures
            final(self).inv(),
            (exists|at: int|
                0 <= at < old(self).spec_snapshots().len() && (#[trigger] old(
                    self,
                ).spec_snapshots()[at]).id == snapshot@.id && final(self).spec_snapshots() == old(
                    self,
                ).spec_snapshots().update(at, snapshot@)) || ((forall|j: int|
                0 <= j < old(self).spec_snapshots().len() ==> (#[trigger] old(
                    self,
                ).spec_snapshots()[j]).id != snapshot@.id) && final(self).spec_snapshots() == old(
                self,
            ).spec_snapshots().push(snapshot@)),
    {
        let ghost before = self.spec_snapshots();
        let ghost added = snapshot@;
        match self.position(snapshot.id.as_str()) {
            Some(at) => {
                self.snapshots[at] = snapshot;
                proof {
                    let now = self.spec_snapshots();
                    assert(now =~= before.update(at as int, added));
                    assert forall|i: int, j: int| 0 <= i < j < now.len() implies (#[trigger] now[i]).id != (
                    #[trigger] now[j]).id by {
                        assert(now[i].id == before[i].id);
                        assert(now[j].id == before[j].id);
                    }
                }
            },
            None => {
                self.snapshots.push(snapshot);
                proof {
                    let now = self.spec_snapshots();
                    assert(now =~= before.push(added));
                    assert forall|i: int, j: int| 0 <= i < j < now.len() implies (#[trigger] now[i]).id != (
                    #[trigger] now[j]).id by {
                        assert(now[i] == before[i]);
                        if j < before.len() {
                            assert(now[j] == before[j]);
                        }
                    }
                }
            },
        }
    }

    /// The snapshot with the identifier given.
    pub fn get_snapshot(&self, id: &str) -> (r: Option<&Snapshot>)
        ensures
            match r {
                Some(snapshot) => snapshot@.id == id@ && self.spec_snapshots().contains(snapshot@),
                None => forall|j: int|
                    0 <= j < self.spec_snapshots().len() ==> (#[trigger] self.spec_snapshots()[j]).id
                        != id@,
            },
    {
        match self.position(id) {
            Some(at) => {
                assert(self.spec_snapshots()[at as int] == self.snapshots@[at as int]@);
                Some(&self.snapshots[at])
            },
            None => None,
        }
    }

    /// Lets go of the snapshot with the identifier given and hands it back.
    pub fn remove_snapshot(&mut self, id: &str) -> (r: Option<Snapshot>)
        requires
            old(self).inv(),
        ensures
            final(self).inv(),
            match r {
                Some(snapshot) => snapshot@.id == id@ && exists|at: int|
                    0 <= at < old(self).spec_snapshots().len() && #[trigger] old(
                        self,
                    ).spec_snapshots()[at] == snapshot@ && final(self).spec_snapshots() == old(
                        self,
                    ).spec_snapshots().remove(at),
                None => final(self).spec_snapshots() == old(self).spec_snapshots() && forall|j: int|
                    0 <= j < old(self).spec_snapshots().len() ==> (#[trigger] old(
                        self,
                    ).spec_snapshots()[j]).id != id@,
            },
    {
        let ghost before = self.spec_snapshots();
        match self.position(id) {
            Some(at) => {
                let snapshot = self.snapshots.remove(at);
                proof {
                    let now = self.spec_snapshots();
                    assert(now =~= before.remove(at as int));
                    assert(before[at as int] == snapshot@);
                    assert forall|i: int, j: int| 0 <= i < j < now.len() implies (#[trigger] now[i]).id != (
                    #[trigger] now[j]).id by {
                        let a = if i < at { i } else { i + 1 };
                        let b = if j < at { j } else { j + 1 };
                        assert(now[i] == before[a]);
                        assert(now[j] == before[b]);
                    }
                }
                Some(snapshot)
            },
            None => None,
        }
    }

    /// The number of snapshots held.
    pub fn snapshot_count(&self) -> (count: usize)
        ensures
            count == self.spec_snapshots().len(),
    {
        self.snapshots.len()
    }

    /// The snapshots marked in `mask`, the latest first.
    fn ordered(&self, mask: &Vec<bool>) -> (found: Vec<&Snapshot>)
        requires
            mask@.len() == self.spec_snapshots().len(),
        ensures
            newest_first(borrowed_views(found@)),
            borrowed_views(found@).to_multiset() == masked(self.spec_snapshots(), mask@).to_multiset(),
    {
        let ghost all = self.spec_snapshots();
        let mut found: Vec<&Snapshot> = Vec::new();
        let mut i: usize = 0;
        assert(all.subrange(0, 0) =~= Seq::<SnapshotView>::empty());
        assert(borrowed_views(found@) =~= Seq::<SnapshotView>::empty());
        while i < self.snapshots.len()
            invariant
                i <= self.snapshots.len(),
                all == self.spec_snapshots(),
                mask@.len() == all.len(),
                newest_first(borrowed_views(found@)),
                borrowed_views(found@).to_multiset() == masked(
                    all.subrange(0, i as int),
                    mask@.subrange(0, i as int),
                ).to_multiset(),
            decreases self.snapshots.len() - i,
        {
            proof {
                let head = all.subrange(0, i + 1);
                let flags = mask@.subrange(0, i + 1);
                assert(head.drop_last() =~= all.subrange(0, i as int));
                assert(flags.drop_last() =~= mask@.subrange(0, i as int));
                assert(head.last() == self.snapshots@[i as int]@);
                assert(flags.last() == mask@[i as int]);
            }
            if mask[i] {
                let snapshot = &self.snapshots[i];
                let mut at: usize = 0;
                while at < found.len() && found[at].time >= snapshot.time
                    invariant
                        at <= found.len(),
                        forall|k: int| 0 <= k < at ==> (#[trigger] found@[k]).time >= snapshot.time,
                    decreases found.len() - at,
                {
                    at += 1;
                }
                let ghost before = borrowed_views(found@);
                found.insert(at, snapshot);
                proof {
                    let now = borrowed_views(found@);
                    let front = before.subrange(0, at as int);
                    let back = before.subrange(at as int, before.len() as int);
                    assert(now =~= front.push(snapshot@) + back);
                    assert(before =~= front + back);
                    lemma_multiset_commutative(front.push(snapshot@), back);
                    lemma_multiset_commutative(front, back);
                    front.to_multiset_ensures();
                    before.to_multiset_ensures();
                    masked(all.subrange(0, i as int), mask@.subrange(0, i as int)).to_multiset_ensures();
                    assert(now.to_multiset() =~= before.to_multiset().insert(snapshot@));
                    assert forall|a: int, b: int| 0 <= a < b < now.len() implies (#[trigger] now[a]).time >= (
                    #[trigger] now[b]).time by {
                        let pa = if a < at { a } else { a - 1 };
                        let pb = if b < at { b } else { b - 1 };
                        if a != at {
                            assert(now[a] == before[pa]);
                        }
                        if b != at {
                            assert(now[b] == before[pb]);
                        }
                        if a == at {
                            assert(before[at as int].time < snapshot.time);
                        }
                    }
                }
            }
            i += 1;
        }
        assert(all.subrange(0, all.len() as int) =~= all);
        assert(mask@.subrange(0, mask@.len() as int) =~= mask@);
        found
    }

    /// All snapshots, the latest first.
    pub fn list_snapshots(&self) -> (found: Vec<&Snapshot>)
        ensures
            is_selection(
                borrowed_views(found@),
                self.spec_snapshots(),
                all_marked(self.spec_snapshots()),
            ),
    {
        let mut mask: Vec<bool> = Vec::new();
        let mut i: usize = 0;
        while i < self.snapshots.len()
            invariant
                i <= self.snapshots.len(),
                mask@.len() == i,
                forall|j: int| 0 <= j < i ==> #[trigger] mask@[j],
            decreases self.snapshots.len() - i,
        {
            mask.push(true);
            i += 1;
        }
        assert(mask@ =~= all_marked(self.spec_snapshots()));
        self.ordered(&mask)
    }

    /// The snapshots taken on the host given, the latest first.
    pub fn find_snapshots_by_hostname(&self, hostname: &str) -> (found: Vec<&Snapshot>)
        ensures
            is_selection(
                borrowed_views(found@),
                self.spec_snapshots(),
                marked_by_hostname(self.spec_snapshots(), hostname@),
            ),
    {
        let wanted = chars_of(hostname);
        let ghost all = self.spec_snapshots();
        let mut mask: Vec<bool> = Vec::new();
        let mut i: usize = 0;
        while i < self.snapshots.len()
            invariant
                i <= self.snapshots.len(),
                all == self.spec_snapshots(),
                wanted@ == hostname@,
                mask@.len() == i,
                forall|j: int| 0 <= j < i ==> #[trigger] mask@[j] == (all[j].hostname == hostname@),
            decreases self.snapshots.len() - i,
        {
            let held = chars_of(self.snapshots[i].hostname.as_str());
            assert(all[i as int].hostname == held@);
            mask.push(same_text(&held, &wanted));
            i += 1;
        }
        assert(mask@ =~= marked_by_hostname(all, hostname@));
        self.ordered(&mask)
    }

    /// The snapshots taken of the path given, the latest first.
    pub fn find_snapshots_by_path(&self, path: &str) -> (found: Vec<&Snapshot>)
        ensures
            is_selection(
                borrowed_views(found@),
                self.spec_snapshots(),
                marked_by_path(self.spec_snapshots(), path@),
            ),
    {
        let wanted = chars_of(path);
        let ghost all = self.spec_snapshots();
        let mut mask: Vec<bool> = Vec::new();
        let mut i: usize = 0;
        while i < self.snapshots.len()
            invariant
                i <= self.snapshots.len(),
                all == self.spec_snapshots(),
                wanted@ == path@,
                mask@.len() == i,
                forall|j: int| 0 <= j < i ==> #[trigger] mask@[j] == covers_path(all[j], path@),
            decreases self.snapshots.len() - i,
        {
            assert(all[i as int].paths == texts(self.snapshots@[i as int].paths@));
            mask.push(holds_text(&self.snapshots[i].paths, &wanted));
            i += 1;
        }
        assert(mask@ =~= marked_by_path(all, path@));
        self.ordered(&mask)
    }

    /// The snapshots that carry the tag given, the latest first.
    pub fn find_snapshots_by_tag(&self, tag: &str) -> (found: Vec<&Snapshot>)
        ensures
            is_selection(
                borrowed_views(found@),
                self.spec_snapshots(),
                marked_by_tag(self.spec_snapshots(), tag@),
            ),
    {
        let wanted = chars_of(tag);
        let ghost all = self.spec_snapshots();
        let mut mask: Vec<bool> = Vec::new();
        let mut i: usize = 0;
        while i < self.snapshots.len()
            invariant
                i <= self.snapshots.len(),
                all == self.spec_snapshots(),
                wanted@ == tag@,
                mask@.len() == i,
                forall|j: int| 0 <= j < i ==> #[trigger] mask@[j] == carries_tag(all[j], tag@),
            decreases self.snapshots.len() - i,
        {
            assert(all[i as int].tags == texts(self.snapshots@[i as int].tags@));
            mask.push(holds_text(&self.snapshots[i].tags, &wanted));
            i += 1;
        }
        assert(mask@ =~= marked_by_tag(all, tag@));
        self.ordered(&mask)
    }
}

/// Whether a snapshot carries one of the tags given.
pub open spec fn shares_tag(snapshot: SnapshotView, tags: Seq<Seq<char>>) -> bool {
    exists|i: int| 0 <= i < snapshot.tags.len() && tags.contains(#[trigger] snapshot.tags[i])
}

/// Whether a snapshot is one to show: taken on the host asked for, if one
/// is asked for, and carrying one of the tags asked for, if any is.
pub open spec fn is_shown(snapshot: SnapshotView, hostname: Option<Seq<char>>, tags: Seq<Seq<char>>) -> bool {
    &&& hostname matches Some(name) ==> snapshot.hostname == name
    &&& tags.len() > 0 ==> shares_tag(snapshot, tags)
}

/// The mask that marks the snapshots to show.
pub open spec fn marked_to_show(
    snapshots: Seq<SnapshotView>,
    hostname: Option<Seq<char>>,
    tags: Seq<Seq<char>>,
) -> Seq<bool> {
    Seq::new(snapshots.len(), |i: int| is_shown(snapshots[i], hostname, tags))
}

/// The number of snapshots to show out of `count`, with the limit given.
pub open spec fn shown_count(count: nat, latest: Option<usize>) -> nat {
    match latest {
        Some(limit) => if limit < count {
            limit as nat
        } else {
            count
        },
        None => count,
    }
}

impl SnapshotManager {
    /// Tells whether a snapshot carries one of the tags given.
    fn has_one_of(snapshot: &Snapshot, tags: &Vec<String>) -> (r: bool)
        ensures
            r == shares_tag(snapshot@, texts(tags@)),
    {
        let ghost own = texts(snapshot.tags@);
        let mut i: usize = 0;
        while i < snapshot.tags.len()
            invariant
                i <= snapshot.tags.len(),
                own == texts(snapshot.tags@),
                own == snapshot@.tags,
                forall|j: int| 0 <= j < i ==> !texts(tags@).contains(#[trigger] own[j]),
            decreases snapshot.tags.len() - i,
        {
            let tag = chars_of(snapshot.tags[i].as_str());
            assert(own[i as int] == tag@);
            if holds_text(tags, &tag) {
                return true;
            }
            i += 1;
        }
        false
    }

    /// The snapshots to show, the latest first: those taken on the host
    /// given, if one is given, that carry one of the tags given, if any is
    /// given; and of these the `latest` latest, if a limit is given.
    pub fn select(&self, hostname: &Option<String>, tags: &Vec<String>, latest: Option<usize>) -> (found:
        Vec<&Snapshot>)
        ensures
            exists|all: Seq<SnapshotView>|
                #[trigger] is_selection(
                    all,
                    self.spec_snapshots(),
                    marked_to_show(self.spec_snapshots(), text_view(*hostname), texts(tags@)),
                ) && borrowed_views(found@) == all.subrange(
                    0,
                    shown_count(all.len(), latest) as int,
                ),
    {
        let ghost all = self.spec_snapshots();
        let mut mask: Vec<bool> = Vec::new();
        let mut i: usize = 0;
        while i < self.snapshots.len()
            invariant
                i <= self.snapshots.len(),
                all == self.spec_snapshots(),
                mask@.len() == i,
                forall|j: int|
                    0 <= j < i ==> #[trigger] mask@[j] == is_shown(
                        all[j],
                        text_view(*hostname),
                        texts(tags@),
                    ),
            decreases self.snapshots.len() - i,
        {
            let snapshot = &self.snapshots[i];
            assert(all[i as int] == snapshot@);
            let on_host = match hostname {
                Some(name) => same_text(
                    &chars_of(snapshot.hostname.as_str()),
                    &chars_of(name.as_str()),
                ),
                None => true,
            };
            let tagged = tags.len() == 0 || SnapshotManager::has_one_of(snapshot, tags);
            mask.push(on_host && tagged);
            i += 1;
        }
        assert(mask@ =~= marked_to_show(all, text_view(*hostname), texts(tags@)));
        let mut found = self.ordered(&mask);
        let ghost whole = borrowed_views(found@);
        match latest {
            Some(limit) => {
                if limit < found.len() {
                    found.truncate(limit);
                }
            },
            None => {},
        }
        proof {
            assert(borrowed_views(found@) =~= whole.subrange(
                0,
                shown_count(whole.len(), latest) as int,
            ));
            assert(is_selection(
                whole,
                self.spec_snapshots(),
                marked_to_show(self.spec_snapshots(), text_view(*hostname), texts(tags@)),
            ));
        }
        found
    }
}

} // verus!

use vstd::prelude::*;

use crate::error::CacheError;
use crate::htm::{HashedTreeMap, TreeNode};
use crate::item::{copy_bytes, Directory, File, FileSystemItem, ItemView, Timestamp};
use crate::location::{lemma_parts_of_child, location_parts, parent_and_name};

verus! {

/// What one entry found under the root looks like.
pub enum EntryKind {
    Directory,
    File { created: Timestamp, modified: Timestamp, size: u64, buffer: Vec<u8> },
}

/// One entry found under the root while scanning backing storage: its full
/// path, its last path segment, and the full path of the directory it was
/// listed in.
pub struct Entry {
    pub location: String,
    pub name: String,
    pub parent: String,
    pub kind: EntryKind,
}

/// The outcome of scanning backing storage below a root, parents listed
/// before their contents.
pub enum Listing {
    /// The root does not exist.
    Missing,
    /// Reading backing storage failed at `location`.
    Unreadable { location: String },
    /// Everything found under the root.
    Found(Vec<Entry>),
}

/// The locations indexed once the root and the first `n` entries are in.
pub open spec fn known(root: Seq<char>, entries: Seq<Entry>, n: int) -> Set<Seq<char>>
    decreases n,
{
    if n <= 0 {
        set![root]
    } else {
        known(root, entries, n - 1).insert(entries[n - 1].location@)
    }
}

/// Entry `i` names an indexed parent and a location not yet indexed.
pub open spec fn fits(root: Seq<char>, entries: Seq<Entry>, i: int) -> bool {
    &&& known(root, entries, i).contains(entries[i].parent@)
    &&& !known(root, entries, i).contains(entries[i].location@)
}

/// Every entry fits when its turn comes.
pub open spec fn listing_ok(root: Seq<char>, entries: Seq<Entry>) -> bool {
    forall|i: int| 0 <= i < entries.len() ==> fits(root, entries, i)
}

/// The payload `item` is what entry `e` describes.
pub open spec fn shows(item: ItemView, e: Entry) -> bool {
    match e.kind {
        EntryKind::Directory => item matches ItemView::Directory { location, .. } && location
            == e.location@,
        EntryKind::File { created, modified, size, buffer } => item == ItemView::File {
            name: e.name@,
            created,
            modified,
            size,
            buffer: buffer@,
            location: e.location@,
        },
    }
}

/// The error met at the first entry that does not fit.
pub open spec fn scan_fault(root: Seq<char>, entries: Seq<Entry>, e: CacheError) -> bool {
    exists|i: int|
        0 <= i < entries.len() && (forall|j: int| 0 <= j < i ==> fits(root, entries, j)) && !fits(
            root,
            entries,
            i,
        ) && if known(root, entries, i).contains(entries[i].location@) {
            e.is_taken(entries[i].location@)
        } else {
            e.is_missing(entries[i].parent@)
        }
}

/// An in-memory mirror of a directory subtree.
pub struct Cache {
    host_location: String,
    tree: HashedTreeMap<FileSystemItem>,
}

impl View for Cache {
    type V = Map<Seq<char>, ItemView>;

    /// The payload of every indexed location.
    closed spec fn view(&self) -> Map<Seq<char>, ItemView> {
        self.tree@.map_values(|i: FileSystemItem| i@)
    }
}

impl Cache {
    /// The tree is consistent, and its root is the host location; once the
    /// root is removed, nothing is left.
    pub closed spec fn wf(&self) -> bool {
        &&& self.tree.wf()
        &&& self.tree.rooted() ==> self.tree.root_id() == self.host_location@
        &&& !self.tree.rooted() ==> self.tree@.dom() == Set::<Seq<char>>::empty()
    }

    /// The root path the mirror was built from.
    pub closed spec fn host(&self) -> Seq<char> {
        self.host_location@
    }

    /// The location of the directory that holds `k`.
    pub closed spec fn parent_of(&self, k: Seq<char>) -> Option<Seq<char>> {
        self.tree.parent_id(k)
    }

    /// The name `k` has in its directory.
    pub closed spec fn name_of(&self, k: Seq<char>) -> Seq<char> {
        self.tree.name_of(k)
    }

    /// `k` is `a` or lies somewhere below it.
    pub closed spec fn within(&self, k: Seq<char>, a: Seq<char>) -> bool {
        self.tree.descends(k, a)
    }

    /// A new entry can be made at `loc`: it is not indexed, and its directory
    /// part is.
    pub open spec fn can_create(&self, loc: Seq<char>) -> bool {
        &&& !self@.contains_key(loc)
        &&& location_parts(loc) matches Some((p, _))
        &&& self@.contains_key(p)
    }

    /// `after` holds one more entry than `before`, at `loc`, filed under its
    /// directory part and final name; nothing else changed.
    pub open spec fn adds(before: Cache, after: Cache, loc: Seq<char>) -> bool {
        &&& after@.dom() == before@.dom().insert(loc)
        &&& forall|k: Seq<char>| #[trigger]
            before@.contains_key(k) ==> after@[k] == before@[k] && after.parent_of(k)
                == before.parent_of(k) && after.name_of(k) == before.name_of(k)
        &&& location_parts(loc) matches Some((p, n)) && after.parent_of(loc) == Some(p)
            && after.name_of(loc) == n
    }

    /// `after` is `before` without `loc` and everything below it.
    pub open spec fn removes(before: Cache, after: Cache, loc: Seq<char>) -> bool {
        &&& forall|k: Seq<char>|
            #![trigger after@.contains_key(k)]
            #![trigger before@.contains_key(k)]
            after@.contains_key(k) <==> before@.contains_key(k) && !before.within(k, loc)
        &&& forall|k: Seq<char>| #[trigger]
            after@.contains_key(k) ==> after@[k] == before@[k] && after.parent_of(k)
                == before.parent_of(k) && after.name_of(k) == before.name_of(k)
    }

    /// Builds the mirror of `location` from what a scan of backing storage
    /// found there. The root becomes a directory; each entry is filed, in
    /// order, under its full path and its last path segment.
    pub fn new(location: &str, listing: Listing) -> (r: Result<Cache, CacheError>)
        ensures
            r matches Ok(c) ==> c.wf() && c.host() == location@,
            match listing {
                Listing::Missing => r matches Err(e) && e.is_missing(location@),
                Listing::Unreadable { location: at } => r matches Err(
                    CacheError::ScanFailedError { location: l },
                ) && l@ == at@,
                Listing::Found(entries) => {
                    &&& (r is Ok <==> listing_ok(location@, entries@))
                    &&& r matches Ok(c) ==> {
                        &&& c@.dom() == known(location@, entries@, entries@.len() as int)
                        &&& c@[location@] matches ItemView::Directory { location: l, .. } && l
                            == location@
                        &&& c.parent_of(location@) is None
                        &&& forall|i: int|
                            0 <= i < entries@.len() ==> {
                                &&& shows(c@[#[trigger] entries@[i].location@], entries@[i])
                                &&& c.parent_of(entries@[i].location@) == Some(entries@[i].parent@)
                                &&& c.name_of(entries@[i].location@) == entries@[i].name@
                            }
                    }
                    &&& r matches Err(e) ==> scan_fault(location@, entries@, e)
                },
            },
    {
        let entries = match listing {
            Listing::Missing => {
                return Err(CacheError::LocationDoesNotExistError { location: location.to_owned() });
            },
            Listing::Unreadable { location: at } => {
                return Err(CacheError::ScanFailedError { location: at });
            },
            Listing::Found(entries) => entries,
        };
        let root = Directory::new(location.to_owned());
        let mut tree = HashedTreeMap::new(
            location.to_owned(),
            TreeNode::new(FileSystemItem::Directory(root)),
        );
        proof {
            assert(tree@.dom() =~= known(location@, entries@, 0));
        }
        let mut i: usize = 0;
        while i < entries.len()
            invariant
                listing == Listing::Found(entries),
                tree.wf(),
                tree.rooted(),
                tree.root_id() == location@,
                0 <= i <= entries@.len(),
                tree@.dom() == known(location@, entries@, i as int),
                forall|j: int| 0 <= j < i ==> fits(location@, entries@, j),
                tree@[location@]@ matches ItemView::Directory { location: l, .. } && l == location@,
                tree.parent_id(location@) is None,
                forall|j: int|
                    0 <= j < i ==> {
                        &&& shows(tree@[#[trigger] entries@[j].location@]@, entries@[j])
                        &&& tree.parent_id(entries@[j].location@) == Some(entries@[j].parent@)
                        &&& tree.name_of(entries@[j].location@) == entries@[j].name@
                    },
            decreases entries@.len() - i,
        {
            let e = &entries[i];
            let item = match &e.kind {
                EntryKind::Directory => FileSystemItem::Directory(
                    Directory::new(e.location.clone()),
                ),
                EntryKind::File { created, modified, size, buffer } => FileSystemItem::File(
                    File {
                        name: e.name.clone(),
                        created: *created,
                        modified: *modified,
                        size: *size,
                        buffer: copy_bytes(buffer),
                        location: e.location.clone(),
                    },
                ),
            };
            let ghost g = item;
            let ghost pre = tree;
            match tree.insert(e.parent.as_str(), e.location.clone(), e.name.clone(), item) {
                Ok(()) => {},
                Err(err) => {
                    proof {
                        assert(!fits(location@, entries@, i as int));
                        assert(0 <= i < entries@.len() && (forall|j: int|
                            0 <= j < i ==> fits(location@, entries@, j)) && !fits(
                            location@,
                            entries@,
                            i as int,
                        ) && if known(location@, entries@, i as int).contains(
                            entries@[i as int].location@,
                        ) {
                            err.is_taken(entries@[i as int].location@)
                        } else {
                            err.is_missing(entries@[i as int].parent@)
                        });
                        assert(!listing_ok(location@, entries@));
                        assert(scan_fault(location@, entries@, err));
                    }
                    return Err(err);
                },
            }
            proof {
                let loc = entries@[i as int].location@;
                assert(tree@.dom() =~= known(location@, entries@, i + 1));
                Self::lemma_known_root(location@, entries@, i as int);
                assert(loc != location@);
                assert forall|j: int| 0 <= j < i + 1 implies {
                    &&& shows(tree@[#[trigger] entries@[j].location@]@, entries@[j])
                    &&& tree.parent_id(entries@[j].location@) == Some(entries@[j].parent@)
                    &&& tree.name_of(entries@[j].location@) == entries@[j].name@
                } by {
                    if j < i {
                        assert(known(location@, entries@, i as int).contains(entries@[j].location@))
                            by {
                            Self::lemma_known_has(location@, entries@, i as int, j);
                        }
                    }
                }
            }
            i += 1;
        }
        let c = Cache { host_location: location.to_owned(), tree };
        proof {
            let n = entries@.len() as int;
            assert(c@.dom() =~= tree@.dom());
            Self::lemma_known_root(location@, entries@, n);
            assert forall|j: int| 0 <= j < n implies c@.contains_key(
                #[trigger] entries@[j].location@,
            ) by {
                Self::lemma_known_has(location@, entries@, n, j);
            }
        }
        Ok(c)
    }

    proof fn lemma_known_root(root: Seq<char>, entries: Seq<Entry>, n: int)
        ensures
            known(root, entries, n).contains(root),
        decreases n,
    {
        if n > 0 {
            Self::lemma_known_root(root, entries, n - 1);
        }
    }

    proof fn lemma_known_has(root: Seq<char>, entries: Seq<Entry>, n: int, j: int)
        requires
            0 <= j < n,
        ensures
            known(root, entries, n).contains(entries[j].location@),
        decreases n,
    {
        if j < n - 1 {
            Self::lemma_known_has(root, entries, n - 1, j);
        }
    }

    /// `location` is indexed.
    pub fn contains(&self, location: &str) -> (r: bool)
        requires
            self.wf(),
        ensures
            r == self@.contains_key(location@),
    {
        match self.tree.get(location) {
            Some(_) => true,
            None => false,
        }
    }

    /// A copy of the payload at `location`.
    pub fn read(&self, location: &str) -> (r: Result<FileSystemItem, CacheError>)
        requires
            self.wf(),
        ensures
            match r {
                Ok(item) => self@.contains_key(location@) && item@ == self@[location@],
                Err(e) => !self@.contains_key(location@) && e.is_missing(location@),
            },
    {
        match self.tree.get(location) {
            Some(node) => Ok(node.value.duplicate()),
            None => Err(CacheError::LocationDoesNotExistError { location: location.to_owned() }),
        }
    }

    /// Whether the payload at `location` is a directory.
    pub fn is_dir(&self, location: &str) -> (r: Result<bool, CacheError>)
        requires
            self.wf(),
        ensures
            match r {
                Ok(b) => self@.contains_key(location@) && b == (self@[location@] is Directory),
                Err(e) => !self@.contains_key(location@) && e.is_missing(location@),
            },
    {
        match self.tree.get(location) {
            Some(node) => Ok(node.value.is_dir()),
            None => Err(CacheError::LocationDoesNotExistError { location: location.to_owned() }),
        }
    }

    /// The root path the mirror was built from.
    pub fn location(&self) -> (r: &str)
        ensures
            r@ == self.host(),
    {
        self.host_location.as_str()
    }

    /// Creates an empty directory at `location`, inside an indexed directory.
    pub fn mkdir(&mut self, location: &str) -> (r: Result<(), CacheError>)
        requires
            old(self).wf(),
        ensures
            final(self).wf(),
            final(self).host() == old(self).host(),
            r is Ok <==> old(self).can_create(location@),
            r is Ok ==> Self::adds(*old(self), *final(self), location@) && (final(self)@[location@] matches ItemView::Directory { location: l, created, modified } && l
                == location@ && created == modified),
            r is Err ==> *final(self) == *old(self),
            old(self)@.contains_key(location@) ==> (r matches Err(e) && e.is_taken(location@)),
            !old(self)@.contains_key(location@) && !old(self).can_create(location@) ==> (r matches Err(
                e,
            ) && e.is_missing(location@)),
    {
        if self.contains(location) {
            return Err(CacheError::LocationAlreadyExistsError { location: location.to_owned() });
        }
        let (parent, name) = match parent_and_name(location) {
            Some(parts) => parts,
            None => {
                return Err(CacheError::LocationDoesNotExistError { location: location.to_owned() });
            },
        };
        if !self.contains(parent.as_str()) {
            return Err(CacheError::LocationDoesNotExistError { location: location.to_owned() });
        }
        let item = FileSystemItem::Directory(Directory::new(location.to_owned()));
        let ghost g = item;
        let ghost pre = *self;
        let res = self.tree.insert(parent.as_str(), location.to_owned(), name, item);
        proof {
            Self::lemma_view_insert(pre, *self, location@, g);
        }
        res
    }

    /// Creates a file at `location`, inside an indexed directory, holding
    /// `buffer`. An indexed location is never overwritten.
    pub fn write(&mut self, location: &str, name: &str, buffer: Vec<u8>) -> (r: Result<
        (),
        CacheError,
    >)
        requires
            old(self).wf(),
        ensures
            final(self).wf(),
            final(self).host() == old(self).host(),
            r is Ok <==> old(self).can_create(location@),
            r is Ok ==> Self::adds(*old(self), *final(self), location@) && (final(self)@[location@] matches ItemView::File {
                name: n,
                created,
                modified,
                size,
                buffer: b,
                location: l,
            } && n == name@ && created == modified && size == buffer@.len() && b == buffer@ && l
                == location@),
            r is Err ==> *final(self) == *old(self),
            old(self)@.contains_key(location@) ==> (r matches Err(e) && e.is_taken(location@)),
            !old(self)@.contains_key(location@) && !old(self).can_create(location@) ==> (r matches Err(
                e,
            ) && e.is_missing(location@)),
    {
        if self.contains(location) {
            return Err(CacheError::LocationAlreadyExistsError { location: location.to_owned() });
        }
        let (parent, file_name) = match parent_and_name(location) {
            Some(parts) => parts,
            None => {
                return Err(CacheError::LocationDoesNotExistError { location: location.to_owned() });
            },
        };
        if !self.contains(parent.as_str()) {
            return Err(CacheError::LocationDoesNotExistError { location: location.to_owned() });
        }
        let t = Timestamp::now();
        let size = buffer.len() as u64;
        let item = FileSystemItem::File(
            File {
                name: name.to_owned(),
                created: t,
                modified: t,
                size,
                buffer,
                location: location.to_owned(),
            },
        );
        let ghost g = item;
        let ghost pre = *self;
        let res = self.tree.insert(parent.as_str(), location.to_owned(), file_name, item);
        proof {
            Self::lemma_view_insert(pre, *self, location@, g);
        }
        res
    }

    /// Removes `location` and, for a directory, everything below it.
    pub fn rm(&mut self, location: &str) -> (r: Result<(), CacheError>)
        requires
            old(self).wf(),
        ensures
            final(self).wf(),
            final(self).host() == old(self).host(),
            r is Ok <==> old(self)@.contains_key(location@),
            r is Ok ==> Self::removes(*old(self), *final(self), location@) && !final(self)@.contains_key(location@),
            r is Err ==> (r matches Err(e) && e.is_missing(location@)) && *final(self) == *old(self),
    {
        if !self.contains(location) {
            return Err(CacheError::LocationDoesNotExistError { location: location.to_owned() });
        }
        proof {
            self.tree.lemma_descends_self(location@);
        }
        let ghost pre = *self;
        let r = self.tree.remove(location);
        proof {
            if pre.tree.rooted() && location@ == pre.tree.root_id() {
                assert forall|k: Seq<char>| !self.tree@.contains_key(k) by {
                    if pre.tree@.contains_key(k) {
                        pre.tree.lemma_reaches_root(k);
                    }
                }
                assert(self.tree@.dom() =~= Set::<Seq<char>>::empty());
                if self.tree.rooted() {
                    self.tree.lemma_rooted_indexed();
                }
            }
        }
        r
    }

    proof fn lemma_view_insert(before: Cache, after: Cache, loc: Seq<char>, item: FileSystemItem)
        requires
            after.tree@ == before.tree@.insert(loc, item),
        ensures
            after@ == before@.insert(loc, item@),
    {
        assert(after@ =~= before@.insert(loc, item@));
    }
}

/// An entry can be created directly inside any indexed directory, under a
/// name without '/' that is not yet taken there.
pub proof fn lemma_create_inside(c: Cache, dir: Seq<char>, name: Seq<char>)
    requires
        c@.contains_key(dir),
        dir.len() > 0,
        name.len() > 0,
        !name.contains('/'),
        !c@.contains_key(dir + seq!['/'] + name),
    ensures
        c.can_create(dir + seq!['/'] + name),
        location_parts(dir + seq!['/'] + name) == Some((dir, name)),
{
    lemma_parts_of_child(dir, name);
}

/// Once an entry has been created at `loc`, creating it again is refused:
/// neither `mkdir` nor `write` ever replaces what is there.
pub proof fn lemma_create_once(before: Cache, after: Cache, loc: Seq<char>)
    requires
        Cache::adds(before, after, loc),
    ensures
        after@.contains_key(loc),
        !after.can_create(loc),
{
    assert(after@.dom().contains(loc));
}

/// Removing a directory also removes every entry directly inside it.
pub proof fn lemma_remove_takes_contents(
    before: Cache,
    after: Cache,
    dir: Seq<char>,
    inner: Seq<char>,
)
    requires
        before.wf(),
        before@.contains_key(inner),
        before.parent_of(inner) == Some(dir),
        Cache::removes(before, after, dir),
    ensures
        !after@.contains_key(dir),
        !after@.contains_key(inner),
{
    before.tree.lemma_child_descends(inner, dir);
    before.tree.lemma_descends_self(dir);
    assert(before.tree@.contains_key(inner));
}

/// Nothing in the mirror is orphaned: every indexed location lies within
/// the root path, which is itself indexed.
pub proof fn lemma_all_within_root(c: Cache, k: Seq<char>)
    requires
        c.wf(),
        c@.contains_key(k),
    ensures
        c@.contains_key(c.host()),
        c.within(k, c.host()),
{
    assert(c.tree@.contains_key(k));
    assert(c.tree.rooted()) by {
        if !c.tree.rooted() {
            assert(c.tree@.dom().contains(k));
        }
    }
    c.tree.lemma_reaches_root(k);
}

/// Removal keeps every entry outside the removed subtree, as it was.
pub proof fn lemma_remove_keeps_others(
    before: Cache,
    after: Cache,
    dir: Seq<char>,
    other: Seq<char>,
)
    requires
        before@.contains_key(other),
        !before.within(other, dir),
        Cache::removes(before, after, dir),
    ensures
        after@.contains_key(other),
        after@[other] == before@[other],
{
}

} // verus!

use vstd::prelude::*;

verus! {

/// A point in time as seconds and nanoseconds since the Unix epoch.
#[derive(Clone, Copy, PartialEq, Eq, Structural, Debug)]
pub struct Timestamp {
    pub secs: u64,
    pub nanos: u32,
}

#[verifier::external_type_specification]
#[verifier::external_body]
pub struct ExSystemTime(std::time::SystemTime);

/// Relies on std::time::SystemTime::now for the current wall-clock time.
#[verifier::external_body]
fn system_now() -> std::time::SystemTime {
    std::time::SystemTime::now()
}

/// Relies on std::time::SystemTime::duration_since, taken from the Unix epoch:
/// `None` for an instant before the epoch; a `Duration` keeps its sub-second
/// part below one billion nanoseconds.
#[verifier::external_body]
fn since_epoch(t: &std::time::SystemTime) -> (r: Option<Timestamp>)
    ensures
        r matches Some(ts) ==> ts.nanos < 1_000_000_000,
{
    match t.duration_since(std::time::UNIX_EPOCH) {
        Ok(d) => Some(Timestamp { secs: d.as_secs(), nanos: d.subsec_nanos() }),
        Err(_) => None,
    }
}

impl Timestamp {
    /// The current time; a clock set before the epoch reads as the epoch.
    pub fn now() -> (r: Timestamp)
        ensures
            r.nanos < 1_000_000_000,
    {
        match since_epoch(&system_now()) {
            Some(t) => t,
            None => Timestamp { secs: 0, nanos: 0 },
        }
    }
}

/// A file held in memory.
#[derive(Clone, Debug)]
pub struct File {
    pub name: String,
    pub created: Timestamp,
    pub modified: Timestamp,
    pub size: u64,
    pub buffer: Vec<u8>,
    pub location: String,
}

/// A directory held in memory; its contents are the tree's children.
#[derive(Clone, Debug)]
pub struct Directory {
    pub location: String,
    pub created: Timestamp,
    pub modified: Timestamp,
}

/// The payload of one node of the mirror.
#[derive(Clone, Debug)]
pub enum FileSystemItem {
    File(File),
    Directory(Directory),
}

/// What a payload holds, as mathematical values.
pub enum ItemView {
    File {
        name: Seq<char>,
        created: Timestamp,
        modified: Timestamp,
        size: u64,
        buffer: Seq<u8>,
        location: Seq<char>,
    },
    Directory { location: Seq<char>, created: Timestamp, modified: Timestamp },
}

impl View for FileSystemItem {
    type V = ItemView;

    open spec fn view(&self) -> ItemView {
        match self {
            FileSystemItem::File(f) => ItemView::File {
                name: f.name@,
                created: f.created,
                modified: f.modified,
                size: f.size,
                buffer: f.buffer@,
                location: f.location@,
            },
            FileSystemItem::Directory(d) => ItemView::Directory {
                location: d.location@,
                created: d.created,
                modified: d.modified,
            },
        }
    }
}

impl Directory {
    /// A directory at `location`, created and modified now.
    pub fn new(location: String) -> (r: Directory)
        ensures
            r.location == location,
            r.created == r.modified,
    {
        let t = Timestamp::now();
        Directory { location, created: t, modified: t }
    }
}

/// A byte-for-byte copy of `b`.
pub fn copy_bytes(b: &Vec<u8>) -> (r: Vec<u8>)
    ensures
        r@ == b@,
{
    let mut r: Vec<u8> = Vec::with_capacity(b.len());
    let mut i: usize = 0;
    while i < b.len()
        invariant
            0 <= i <= b@.len(),
            r@ == b@.subrange(0, i as int),
        decreases b@.len() - i,
    {
        r.push(b[i]);
        i += 1;
        assert(r@ =~= b@.subrange(0, i as int));
    }
    assert(r@ =~= b@);
    r
}

impl FileSystemItem {
    /// An independent copy of the payload.
    pub fn duplicate(&self) -> (r: FileSystemItem)
        ensures
            r@ == self@,
    {
        match self {
            FileSystemItem::File(f) => FileSystemItem::File(
                File {
                    name: f.name.clone(),
                    created: f.created,
                    modified: f.modified,
                    size: f.size,
                    buffer: copy_bytes(&f.buffer),
                    location: f.location.clone(),
                },
            ),
            FileSystemItem::Directory(d) => FileSystemItem::Directory(
                Directory { location: d.location.clone(), created: d.created, modified: d.modified },
            ),
        }
    }

    /// The location the payload was filed under.
    pub fn location(&self) -> (r: &str)
        ensures
            r@ == match self@ {
                ItemView::File { location, .. } => location,
                ItemView::Directory { location, .. } => location,
            },
    {
        match self {
            FileSystemItem::File(f) => f.location.as_str(),
            FileSystemItem::Directory(d) => d.location.as_str(),
        }
    }

    /// A file's name, or a directory's location.
    pub fn name(&self) -> (r: String)
        ensures
            r@ == match self@ {
                ItemView::File { name, .. } => name,
                ItemView::Directory { location, .. } => location,
            },
    {
        match self {
            FileSystemItem::File(f) => f.name.clone(),
            FileSystemItem::Directory(d) => d.location.clone(),
        }
    }

    /// "file" or "directory".
    pub fn file_type(&self) -> (r: String)
        ensures
            r@ == (if self@ is File {
                "file"@
            } else {
                "directory"@
            }),
    {
        match self {
            FileSystemItem::File(_) => "file".to_owned(),
            FileSystemItem::Directory(_) => "directory".to_owned(),
        }
    }

    /// The payload is a directory.
    pub fn is_dir(&self) -> (r: bool)
        ensures
            r == (self@ is Directory),
    {
        match self {
            FileSystemItem::File(_) => false,
            FileSystemItem::Directory(_) => true,
        }
    }
}

} // verus!

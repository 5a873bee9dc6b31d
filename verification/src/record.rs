use vstd::prelude::*;

use crate::strings::hidden_name;

verus! {

/// One filesystem entry observed during a walk: its base name, the full path
/// used to reach it, and whatever metadata could be read. Fields other than
/// `name`, `path` and `is_dir` are independently optional: a failed read of
/// one leaves the others intact.
pub struct FileInfo {
    pub name: String,
    pub path: String,
    pub size: Option<u64>,
    pub modified: Option<i64>,
    pub is_dir: bool,
    pub permissions: Option<String>,
    pub owner: Option<String>,
    pub group: Option<String>,
}

/// The mathematical value of a `FileInfo`: the same fields with every string
/// read as its character sequence.
pub ghost struct Record {
    pub name: Seq<char>,
    pub path: Seq<char>,
    pub size: Option<u64>,
    pub modified: Option<i64>,
    pub is_dir: bool,
    pub permissions: Option<Seq<char>>,
    pub owner: Option<Seq<char>>,
    pub group: Option<Seq<char>>,
}

/// The character sequence held by an optional string.
pub open spec fn opt_chars(o: Option<String>) -> Option<Seq<char>> {
    match o {
        Some(s) => Some(s@),
        None => None,
    }
}

impl View for FileInfo {
    type V = Record;

    open spec fn view(&self) -> Record {
        Record {
            name: self.name@,
            path: self.path@,
            size: self.size,
            modified: self.modified,
            is_dir: self.is_dir,
            permissions: opt_chars(self.permissions),
            owner: opt_chars(self.owner),
            group: opt_chars(self.group),
        }
    }
}

/// The views of a sequence of records.
pub open spec fn views(s: Seq<FileInfo>) -> Seq<Record> {
    s.map_values(|f: FileInfo| f@)
}

impl FileInfo {
    pub fn new(
        name: String,
        path: String,
        size: Option<u64>,
        modified: Option<i64>,
        is_dir: bool,
        permissions: Option<String>,
        owner: Option<String>,
        group: Option<String>,
    ) -> (r: FileInfo)
        ensures
            r.name == name,
            r.path == path,
            r.size == size,
            r.modified == modified,
            r.is_dir == is_dir,
            r.permissions == permissions,
            r.owner == owner,
            r.group == group,
    {
        FileInfo { name, path, size, modified, is_dir, permissions, owner, group }
    }
}

/// The metadata of one entry as the walk reads it: the size and directory
/// flag always come with readable metadata, the rest is independently
/// optional.
pub struct EntryMeta {
    pub size: u64,
    pub modified: Option<i64>,
    pub mode: Option<u32>,
    pub owner: Option<String>,
    pub group: Option<String>,
}

/// The mathematical value of an `EntryMeta`.
pub ghost struct MetaView {
    pub size: u64,
    pub modified: Option<i64>,
    pub mode: Option<u32>,
    pub owner: Option<Seq<char>>,
    pub group: Option<Seq<char>>,
}

impl View for EntryMeta {
    type V = MetaView;

    open spec fn view(&self) -> MetaView {
        MetaView {
            size: self.size,
            modified: self.modified,
            mode: self.mode,
            owner: opt_chars(self.owner),
            group: opt_chars(self.group),
        }
    }
}

/// A directory's contents as observed at walk time: either the directory
/// could not be opened, or a list of its entries.
pub enum FsTree {
    Missing,
    Listing(Vec<FsEntry>),
}

/// One enumerated entry: its metadata could not be read at all, or it is a
/// file, or a directory together with the listing found below it.
pub enum FsEntry {
    Unreadable { name: String },
    File { name: String, meta: EntryMeta },
    Dir { name: String, meta: EntryMeta, sub: FsTree },
}

impl FsEntry {
    /// The entry's base name.
    pub open spec fn name_chars(self) -> Seq<char> {
        match self {
            FsEntry::Unreadable { name } => name@,
            FsEntry::File { name, .. } => name@,
            FsEntry::Dir { name, .. } => name@,
        }
    }

    /// Whether the walk may emit a record for the entry: its metadata was
    /// readable and, when hidden entries are suppressed, its name does not
    /// mark it hidden.
    pub open spec fn visible(self, show_hidden: bool) -> bool {
        !(self is Unreadable) && (show_hidden || !hidden_name(self.name_chars()))
    }
}

/// The digit character of an octal digit value.
pub open spec fn octal_digit(d: int) -> char {
    if d == 0 {
        '0'
    } else if d == 1 {
        '1'
    } else if d == 2 {
        '2'
    } else if d == 3 {
        '3'
    } else if d == 4 {
        '4'
    } else if d == 5 {
        '5'
    } else if d == 6 {
        '6'
    } else {
        '7'
    }
}

/// The owner/group/other triplet of an access mode, as three zero-padded
/// octal digits.
pub open spec fn mode_string(m: u32) -> Seq<char> {
    seq![
        octal_digit(((m as int) / 64) % 8),
        octal_digit(((m as int) / 8) % 8),
        octal_digit((m as int) % 8),
    ]
}

/// The full path of an entry named `name` inside the directory `base`.
pub open spec fn path_of(base: Seq<char>, name: Seq<char>) -> Seq<char> {
    base + seq!['/'] + name
}

/// The record the walk emits for an entry with readable metadata.
pub open spec fn record_of(base: Seq<char>, name: Seq<char>, m: MetaView, is_dir: bool) -> Record {
    Record {
        name: name,
        path: path_of(base, name),
        size: Some(m.size),
        modified: m.modified,
        is_dir: is_dir,
        permissions: match m.mode {
            Some(b) => Some(mode_string(b)),
            None => None,
        },
        owner: m.owner,
        group: m.group,
    }
}

fn octal_digit_str(d: u32) -> (r: &'static str)
    requires
        d < 8,
    ensures
        r@ =~= seq![octal_digit(d as int)],
{
    proof {
        reveal_strlit("0");
        reveal_strlit("1");
        reveal_strlit("2");
        reveal_strlit("3");
        reveal_strlit("4");
        reveal_strlit("5");
        reveal_strlit("6");
        reveal_strlit("7");
    }
    match d {
        0 => "0",
        1 => "1",
        2 => "2",
        3 => "3",
        4 => "4",
        5 => "5",
        6 => "6",
        _ => "7",
    }
}

/// Render the permission triplet of an access mode.
pub fn format_mode(m: u32) -> (r: String)
    ensures
        r@ == mode_string(m),
{
    let mut s = String::new();
    s.append(octal_digit_str((m / 64) % 8));
    s.append(octal_digit_str((m / 8) % 8));
    s.append(octal_digit_str(m % 8));
    proof {
        assert(s@ =~= mode_string(m));
    }
    s
}

/// Append `name` to the directory path `base` with a separator.
pub fn join_path(base: &str, name: &str) -> (r: String)
    ensures
        r@ == path_of(base@, name@),
{
    proof {
        reveal_strlit("/");
    }
    let mut s = base.to_owned();
    s.append("/");
    s.append(name);
    proof {
        assert("/"@ =~= seq!['/']);
        assert(s@ =~= path_of(base@, name@));
    }
    s
}

fn clone_opt_string(o: &Option<String>) -> (r: Option<String>)
    ensures
        r == *o,
{
    match o {
        Some(s) => Some(s.clone()),
        None => None,
    }
}

/// The Entry Inspector: build the record for an entry whose metadata was
/// read, formatting the permission triplet and leaving unreadable fields
/// absent.
pub fn inspect(base: &str, name: &String, meta: &EntryMeta, is_dir: bool) -> (r: FileInfo)
    ensures
        r@ == record_of(base@, name@, meta@, is_dir),
{
    let path = join_path(base, name.as_str());
    let permissions: Option<String> = match meta.mode {
        Some(b) => Some(format_mode(b)),
        None => None,
    };
    let owner = clone_opt_string(&meta.owner);
    let group = clone_opt_string(&meta.group);
    FileInfo::new(
        name.clone(),
        path,
        Some(meta.size),
        meta.modified,
        is_dir,
        permissions,
        owner,
        group,
    )
}

} // verus!

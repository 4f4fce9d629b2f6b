//! The data model: owners, tags, declaration entries, resolved files, the
//! cache, and the views that the contracts of the crate speak of.
//!
//! Paths are held as text. What a path means (its components, its parent
//! directory) is defined in [`crate::paths`].

use vstd::prelude::*;
use vstd::std_specs::cmp::PartialEqSpecImpl;

verus! {

/// The syntactic category of an owner identifier.
#[derive(Debug, Clone, Copy, PartialEq, Eq, Hash, Structural)]
pub enum OwnerType {
    /// A single account, written `@name`.
    User,
    /// A team inside an organisation, written `@org/team`.
    Team,
    /// An e-mail address.
    Email,
    /// The literal `NOOWNER`: the pattern is declared to have no owner.
    Unowned,
    /// Anything else.
    Unknown,
}

/// An owner: the identifier as written, and its category. Two owners are the
/// same when both agree.
#[derive(Debug, Eq, Hash)]
pub struct Owner {
    pub identifier: String,
    pub owner_type: OwnerType,
}

/// What an [`Owner`] is, as plain values.
pub struct OwnerView {
    pub identifier: Seq<char>,
    pub owner_type: OwnerType,
}

impl View for Owner {
    type V = OwnerView;

    open spec fn view(&self) -> OwnerView {
        OwnerView { identifier: self.identifier@, owner_type: self.owner_type }
    }
}

impl DeepView for Owner {
    type V = OwnerView;

    open spec fn deep_view(&self) -> OwnerView {
        self@
    }
}

impl PartialEq for Owner {
    fn eq(&self, other: &Owner) -> (same: bool) {
        self.identifier == other.identifier && self.owner_type == other.owner_type
    }
}

impl PartialEqSpecImpl for Owner {
    open spec fn obeys_eq_spec() -> bool {
        true
    }

    open spec fn eq_spec(&self, other: &Owner) -> bool {
        self@ == other@
    }
}

impl Clone for Owner {
    fn clone(&self) -> (copy: Owner)
        ensures
            copy@ == self@,
    {
        Owner { identifier: self.identifier.clone(), owner_type: self.owner_type }
    }
}

/// A tag: the name without its leading `#`.
#[derive(Debug, Eq, Hash)]
pub struct Tag(pub String);

impl View for Tag {
    type V = Seq<char>;

    open spec fn view(&self) -> Seq<char> {
        self.0@
    }
}

impl DeepView for Tag {
    type V = Seq<char>;

    open spec fn deep_view(&self) -> Seq<char> {
        self@
    }
}

impl PartialEq for Tag {
    fn eq(&self, other: &Tag) -> (same: bool) {
        self.0 == other.0
    }
}

impl PartialEqSpecImpl for Tag {
    open spec fn obeys_eq_spec() -> bool {
        true
    }

    open spec fn eq_spec(&self, other: &Tag) -> bool {
        self@ == other@
    }
}

impl Clone for Tag {
    fn clone(&self) -> (copy: Tag)
        ensures
            copy@ == self@,
    {
        Tag(self.0.clone())
    }
}

/// One rule of a declaration file: a pattern with its owners and tags, and
/// the file and line that it was read from.
#[derive(Debug)]
pub struct CodeownersEntry {
    pub source_file: String,
    pub line_number: usize,
    pub pattern: String,
    pub owners: Vec<Owner>,
    pub tags: Vec<Tag>,
}

/// What a [`CodeownersEntry`] is, as plain values.
pub struct EntryView {
    pub source_file: Seq<char>,
    pub line_number: nat,
    pub pattern: Seq<char>,
    pub owners: Seq<OwnerView>,
    pub tags: Seq<Seq<char>>,
}

impl View for CodeownersEntry {
    type V = EntryView;

    open spec fn view(&self) -> EntryView {
        EntryView {
            source_file: self.source_file@,
            line_number: self.line_number as nat,
            pattern: self.pattern@,
            owners: self.owners.deep_view(),
            tags: self.tags.deep_view(),
        }
    }
}

impl DeepView for CodeownersEntry {
    type V = EntryView;

    open spec fn deep_view(&self) -> EntryView {
        self@
    }
}

impl Clone for CodeownersEntry {
    fn clone(&self) -> (copy: CodeownersEntry)
        ensures
            copy@ == self@,
    {
        let owners = self.owners.clone();
        let tags = self.tags.clone();
        assert(owners.deep_view() =~= self.owners.deep_view());
        assert(tags.deep_view() =~= self.tags.deep_view());
        CodeownersEntry {
            source_file: self.source_file.clone(),
            line_number: self.line_number,
            pattern: self.pattern.clone(),
            owners,
            tags,
        }
    }
}

/// The resolved ownership of one file of the tree.
#[derive(Debug)]
pub struct FileEntry {
    pub path: String,
    pub owners: Vec<Owner>,
    pub tags: Vec<Tag>,
}

/// What a [`FileEntry`] is, as plain values.
pub struct FileView {
    pub path: Seq<char>,
    pub owners: Seq<OwnerView>,
    pub tags: Seq<Seq<char>>,
}

impl View for FileEntry {
    type V = FileView;

    open spec fn view(&self) -> FileView {
        FileView { path: self.path@, owners: self.owners.deep_view(), tags: self.tags.deep_view() }
    }
}

impl DeepView for FileEntry {
    type V = FileView;

    open spec fn deep_view(&self) -> FileView {
        self@
    }
}

impl Clone for FileEntry {
    fn clone(&self) -> (copy: FileEntry)
        ensures
            copy@ == self@,
    {
        let owners = self.owners.clone();
        let tags = self.tags.clone();
        assert(owners.deep_view() =~= self.owners.deep_view());
        assert(tags.deep_view() =~= self.tags.deep_view());
        FileEntry { path: self.path.clone(), owners, tags }
    }
}

/// The ownership cache of a tree: the declaration entries, the resolved files,
/// and the two reverse indexes, stamped with the content hash of the tree.
///
/// Each index is a list of pairs, a key with the paths of its files; no key
/// occurs twice in the index of a cache that [`crate::cache::build_cache`] made.
#[derive(Debug)]
pub struct CodeownersCache {
    pub hash: [u8; 32],
    pub entries: Vec<CodeownersEntry>,
    pub files: Vec<FileEntry>,
    pub owners_map: Vec<(Owner, Vec<String>)>,
    pub tags_map: Vec<(Tag, Vec<String>)>,
}

/// What a [`CodeownersCache`] is, as plain values.
pub struct CacheView {
    pub hash: Seq<u8>,
    pub entries: Seq<EntryView>,
    pub files: Seq<FileView>,
    pub owners_map: Seq<(OwnerView, Seq<Seq<char>>)>,
    pub tags_map: Seq<(Seq<char>, Seq<Seq<char>>)>,
}

impl View for CodeownersCache {
    type V = CacheView;

    open spec fn view(&self) -> CacheView {
        CacheView {
            hash: self.hash@,
            entries: self.entries.deep_view(),
            files: self.files.deep_view(),
            owners_map: self.owners_map.deep_view(),
            tags_map: self.tags_map.deep_view(),
        }
    }
}

/// How the output of a command is written.
#[derive(Debug, Clone, Copy, PartialEq, Eq, Structural)]
pub enum OutputFormat {
    Text,
    Json,
    Bincode,
}

/// How a cache file is encoded.
#[derive(Debug, Clone, Copy, PartialEq, Eq, Structural)]
pub enum CacheEncoding {
    Bincode,
    Json,
}

/// The kinds of failure.
#[derive(Debug, Clone, Copy, PartialEq, Eq, Structural)]
pub enum ErrorKind {
    /// An argument that no caller should pass, such as a path without a
    /// directory.
    InvalidInput,
    /// A pattern that does not compile.
    InvalidPattern,
    /// A failure to read or write.
    Io,
    /// A failure to encode or decode a cache.
    Serialization,
}

/// A failure: its kind, and a message for the reader.
#[derive(Debug)]
pub struct Error {
    pub kind: ErrorKind,
    pub message: String,
}

impl Error {
    /// A failure of the given kind.
    pub fn new(kind: ErrorKind, message: &str) -> (error: Error)
        ensures
            error.kind == kind,
            error.message@ == message@,
    {
        Error { kind, message: message.to_owned() }
    }
}

} // verus!

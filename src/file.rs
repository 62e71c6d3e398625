//! One entry of a directory listing, and how its properties are filled in.
use vstd::prelude::*;

pub use crate::xml::parse_xml;
use crate::text::{
    decimal_u64, last_segment, parse_u64, same_text, segment_after_last, suffix_after,
    suffix_after_last,
};

verus! {

/// Metadata of one file or directory of a listing.
#[derive(Debug, Clone)]
pub struct FileInfo {
    pub path: String,
    pub name: String,
    pub size: u64,
    pub is_dir: bool,
    pub file_type: String,
    pub create_date: String,
    pub modified_date: String,
}

/// The mathematical value of a [`FileInfo`].
pub struct FileView {
    pub path: Seq<char>,
    pub name: Seq<char>,
    pub size: u64,
    pub is_dir: bool,
    pub file_type: Seq<char>,
    pub create_date: Seq<char>,
    pub modified_date: Seq<char>,
}

impl View for FileInfo {
    type V = FileView;

    open spec fn view(&self) -> FileView {
        FileView {
            path: self.path@,
            name: self.name@,
            size: self.size,
            is_dir: self.is_dir,
            file_type: self.file_type@,
            create_date: self.create_date@,
            modified_date: self.modified_date@,
        }
    }
}

/// A property of an entry that the listing records.
#[derive(Debug, Clone, Copy)]
pub enum Field {
    /// The reference field: the entry's path on the server.
    Path,
    /// The content length, present on files only.
    Size,
    /// The creation date, kept as the server wrote it.
    Created,
    /// The last-modified date, kept as the server wrote it.
    Modified,
}

pub open spec fn href_tag() -> Seq<char> {
    "D:href"@
}

pub open spec fn size_tag() -> Seq<char> {
    "lp1:getcontentlength"@
}

pub open spec fn created_tag() -> Seq<char> {
    "lp1:creationdate"@
}

pub open spec fn modified_tag() -> Seq<char> {
    "lp1:getlastmodified"@
}

/// The property that an element of qualified name `tag` holds, if it is one of them.
pub open spec fn field_for(tag: Seq<char>) -> Option<Field> {
    if tag == href_tag() {
        Some(Field::Path)
    } else if tag == size_tag() {
        Some(Field::Size)
    } else if tag == created_tag() {
        Some(Field::Created)
    } else if tag == modified_tag() {
        Some(Field::Modified)
    } else {
        None
    }
}

/// The name of an entry: the last `/`-delimited segment of its path.
pub open spec fn name_of(path: Seq<char>) -> Seq<char> {
    last_segment(path, '/')
}

/// The type of an entry: what follows the last `.` of its name, if any.
pub open spec fn type_of(name: Seq<char>) -> Seq<char> {
    suffix_after(name, '.')
}

/// The record of an entry before any of its properties is read.
pub open spec fn blank_view() -> FileView {
    FileView {
        path: Seq::empty(),
        name: Seq::empty(),
        size: 0,
        is_dir: true,
        file_type: Seq::empty(),
        create_date: Seq::empty(),
        modified_date: Seq::empty(),
    }
}

/// A record whose derived fields agree with the fields they are derived from.
pub open spec fn consistent(f: FileView) -> bool {
    &&& f.name == name_of(f.path)
    &&& f.file_type == type_of(f.name)
    &&& f.is_dir ==> f.size == 0
}

/// `f` after property `field` was read with text `text`; `None` when the
/// text of a size is not a number.
pub open spec fn with_field(f: FileView, field: Field, text: Seq<char>) -> Option<FileView> {
    match field {
        Field::Path => Some(
            FileView {
                path: text,
                name: name_of(text),
                file_type: type_of(name_of(text)),
                ..f
            },
        ),
        Field::Size => match decimal_u64(text) {
            Some(n) => Some(FileView { size: n, is_dir: false, ..f }),
            None => None,
        },
        Field::Created => Some(FileView { create_date: text, ..f }),
        Field::Modified => Some(FileView { modified_date: text, ..f }),
    }
}

/// Reading a property keeps a record consistent.
pub proof fn lemma_with_field_consistent(f: FileView, field: Field, text: Seq<char>)
    requires
        consistent(f),
    ensures
        with_field(f, field, text) matches Some(g) ==> consistent(g),
{
}

/// A record with no property read yet is consistent.
pub proof fn lemma_blank_consistent()
    ensures
        consistent(blank_view()),
{
    assert(name_of(Seq::empty()) =~= Seq::<char>::empty());
}

/// Looks up the property held by an element of qualified name `tag`.
pub fn field_of(tag: &str) -> (r: Option<Field>)
    ensures
        r == field_for(tag@),
{
    if same_text(tag, "D:href") {
        Some(Field::Path)
    } else if same_text(tag, "lp1:getcontentlength") {
        Some(Field::Size)
    } else if same_text(tag, "lp1:creationdate") {
        Some(Field::Created)
    } else if same_text(tag, "lp1:getlastmodified") {
        Some(Field::Modified)
    } else {
        None
    }
}

impl FileInfo {
    /// A record with no property read yet: a directory of size 0, all text empty.
    pub fn blank() -> (r: FileInfo)
        ensures
            r@ == blank_view(),
    {
        FileInfo {
            path: String::new(),
            name: String::new(),
            size: 0,
            is_dir: true,
            file_type: String::new(),
            create_date: String::new(),
            modified_date: String::new(),
        }
    }

    /// Sets property `field` from the element text `text`. A size whose text is
    /// not an unsigned 64-bit decimal number leaves the record unchanged and
    /// returns `false`.
    pub fn set_field(&mut self, field: Field, text: String) -> (ok: bool)
        ensures
            ok == with_field(old(self)@, field, text@).is_some(),
            ok ==> with_field(old(self)@, field, text@) == Some(final(self)@),
            !ok ==> final(self)@ == old(self)@,
    {
        match field {
            Field::Path => {
                let name = segment_after_last(text.as_str(), '/');
                let file_type = suffix_after_last(name.as_str(), '.');
                self.path = text;
                self.name = name;
                self.file_type = file_type;
                true
            },
            Field::Size => match parse_u64(text.as_str()) {
                Some(n) => {
                    self.size = n;
                    self.is_dir = false;
                    true
                },
                None => false,
            },
            Field::Created => {
                self.create_date = text;
                true
            },
            Field::Modified => {
                self.modified_date = text;
                true
            },
        }
    }
}

} // verus!

//! Directory entries: what the system reports of one child of a directory,
//! and the classified, display-ready record that a listing is made of.

use crate::order::Located;
use crate::text::name_text;
use vstd::prelude::*;
use vstd::string::*;

verus! {

/// The execute bit of the owner.
pub const OWNER_EXECUTE: u32 = 0o100;

/// The execute bit of the group.
pub const GROUP_EXECUTE: u32 = 0o010;

/// The execute bit of everybody else.
pub const OTHER_EXECUTE: u32 = 0o001;

/// Escape sequence for bold green, the color of executable files.
pub const COLOR_GREEN_BOLD: &'static str = "\x1b[32;1m";

/// Escape sequence for bold blue, the color of directories.
pub const COLOR_BLUE_BOLD: &'static str = "\x1b[34;1m";

/// Escape sequence for bold cyan, the color of symbolic links.
pub const COLOR_CYAN_BOLD: &'static str = "\x1b[36;1m";

/// Escape sequence that resets the style; it also ends every colored name.
pub const COLOR_RESET: &'static str = "\x1b[0m";

/// What the system says an entry is. At most one of the three holds of a
/// real entry; where none holds the entry is something else (a socket, a
/// device).
#[derive(Clone, Copy, Debug, PartialEq, Eq, Structural)]
pub struct FileType {
    pub is_dir: bool,
    pub is_file: bool,
    pub is_symlink: bool,
}

/// The display category of an entry.
#[derive(Clone, Copy, Debug, PartialEq, Eq, Structural)]
pub enum Category {
    Directory,
    ExecutableFile,
    RegularFile,
    Symlink,
    Other,
}

/// Why an entry is left out of a listing.
#[derive(Clone, Copy, Debug, PartialEq, Eq, Structural)]
pub enum SkipReason {
    /// The type of the entry could not be read.
    UnreadableType,
    /// The metadata of the entry could not be read.
    UnreadableMetadata,
    /// The path has no text form, or does not lie under the listed directory.
    UndecodableName,
}

/// One child of a directory as the system reports it.
#[derive(Debug)]
pub struct RawEntry {
    /// The bytes of the path, by which a listing is ordered.
    pub path: Vec<u8>,
    /// The path without the prefix of the listed directory, if it has a
    /// text form.
    pub name: Option<String>,
    /// The type of the entry, if it could be read.
    pub file_type: Option<FileType>,
    /// The permission bits, if the metadata could be read.
    pub mode: Option<u32>,
}

/// The mathematical content of a `RawEntry`.
pub ghost struct RawEntryView {
    pub path: Seq<u8>,
    pub name: Option<Seq<char>>,
    pub file_type: Option<FileType>,
    pub mode: Option<u32>,
}

impl View for RawEntry {
    type V = RawEntryView;

    open spec fn view(&self) -> RawEntryView {
        RawEntryView {
            path: self.path@,
            name: name_text(self.name),
            file_type: self.file_type,
            mode: self.mode,
        }
    }
}

impl Located for RawEntry {
    open spec fn path_view(&self) -> Seq<u8> {
        self.path@
    }

    fn path_bytes(&self) -> (p: &[u8]) {
        self.path.as_slice()
    }
}

/// An entry ready for display.
#[derive(Debug)]
pub struct FormattedEntry {
    /// The name as it is: the only text whose length counts as width.
    pub raw_output: String,
    /// The name between the escape sequence of its color and a reset.
    pub colored_output: String,
    /// Whether the name begins with a dot.
    pub is_hidden: bool,
}

/// The mathematical content of a `FormattedEntry`.
pub ghost struct EntryView {
    pub raw: Seq<char>,
    pub styled: Seq<char>,
    pub is_hidden: bool,
}

impl View for FormattedEntry {
    type V = EntryView;

    open spec fn view(&self) -> EntryView {
        EntryView {
            raw: self.raw_output@,
            styled: self.colored_output@,
            is_hidden: self.is_hidden,
        }
    }
}

/// The views of a sequence of raw entries.
pub open spec fn raw_views(entries: Seq<RawEntry>) -> Seq<RawEntryView> {
    entries.map_values(|e: RawEntry| e@)
}

/// The views of a sequence of formatted entries.
pub open spec fn entry_views(entries: Seq<FormattedEntry>) -> Seq<EntryView> {
    entries.map_values(|e: FormattedEntry| e@)
}

/// Whether a permission mode lets anybody execute the file.
pub open spec fn executable_mode(mode: u32) -> bool {
    ||| mode & OWNER_EXECUTE != 0
    ||| mode & GROUP_EXECUTE != 0
    ||| mode & OTHER_EXECUTE != 0
}

/// True when any of the three execute bits is set in `mode`.
pub fn is_executable(mode: u32) -> (b: bool)
    ensures
        b == executable_mode(mode),
{
    assert((mode & 0o111 > 0) == (mode & 0o100 != 0 || mode & 0o010 != 0 || mode & 0o001 != 0))
        by (bit_vector);
    mode & 0o111 > 0
}

/// The category of an entry of the given type and mode. The first of
/// directory, file and symbolic link that the type claims decides; a file
/// is executable if its mode says so.
pub open spec fn category_of(file_type: FileType, mode: u32) -> Category {
    if file_type.is_dir {
        Category::Directory
    } else if file_type.is_file {
        if executable_mode(mode) {
            Category::ExecutableFile
        } else {
            Category::RegularFile
        }
    } else if file_type.is_symlink {
        Category::Symlink
    } else {
        Category::Other
    }
}

/// Assigns the display category.
pub fn classify(file_type: FileType, mode: u32) -> (category: Category)
    ensures
        category == category_of(file_type, mode),
{
    if file_type.is_dir {
        Category::Directory
    } else if file_type.is_file {
        if is_executable(mode) {
            Category::ExecutableFile
        } else {
            Category::RegularFile
        }
    } else if file_type.is_symlink {
        Category::Symlink
    } else {
        Category::Other
    }
}

/// The escape sequence that starts a name of the given category.
pub open spec fn color_of(category: Category) -> Seq<char> {
    match category {
        Category::Directory => COLOR_BLUE_BOLD@,
        Category::ExecutableFile => COLOR_GREEN_BOLD@,
        Category::Symlink => COLOR_CYAN_BOLD@,
        Category::RegularFile => COLOR_RESET@,
        Category::Other => COLOR_RESET@,
    }
}

/// The escape sequence that starts a name of the given category.
pub fn color_code(category: Category) -> (code: &'static str)
    ensures
        code@ == color_of(category),
{
    match category {
        Category::Directory => COLOR_BLUE_BOLD,
        Category::ExecutableFile => COLOR_GREEN_BOLD,
        Category::Symlink => COLOR_CYAN_BOLD,
        Category::RegularFile => COLOR_RESET,
        Category::Other => COLOR_RESET,
    }
}

/// A name is hidden when it begins with a dot.
pub open spec fn hidden_name(name: Seq<char>) -> bool {
    name.len() > 0 && name[0] == '.'
}

/// Whether `name` begins with a dot.
pub fn is_hidden_name(name: &str) -> (hidden: bool)
    ensures
        hidden == hidden_name(name@),
{
    !name.is_empty() && name.get_char(0) == '.'
}

/// The name between the escape sequence of its category and a reset.
pub open spec fn styled(name: Seq<char>, category: Category) -> Seq<char> {
    color_of(category) + name + COLOR_RESET@
}

/// The record that displays a name of the given category.
pub open spec fn formatted(name: Seq<char>, category: Category) -> EntryView {
    EntryView { raw: name, styled: styled(name, category), is_hidden: hidden_name(name) }
}

impl EntryView {
    /// Whether the record shows one name: the styled text is the raw name in
    /// the color of some category, and the record is hidden exactly when the
    /// name begins with a dot.
    pub open spec fn well_formed(self) -> bool {
        exists|category: Category| self == #[trigger] formatted(self.raw, category)
    }
}

/// What becomes of a raw entry: its display record, or the first of the
/// three reasons, in this order, for which it has none.
pub open spec fn classified(entry: RawEntryView) -> Result<EntryView, SkipReason> {
    if entry.file_type is None {
        Err(SkipReason::UnreadableType)
    } else if entry.mode is None {
        Err(SkipReason::UnreadableMetadata)
    } else if entry.name is None {
        Err(SkipReason::UndecodableName)
    } else {
        Ok(formatted(entry.name->0, category_of(entry.file_type->0, entry.mode->0)))
    }
}

/// Classifies one raw entry, or says why it is left out.
pub fn classify_entry(entry: &RawEntry) -> (result: Result<FormattedEntry, SkipReason>)
    ensures
        match result {
            Ok(e) => classified(entry@) == Ok::<EntryView, SkipReason>(e@) && e@.well_formed(),
            Err(reason) => classified(entry@) == Err::<EntryView, SkipReason>(reason),
        },
{
    let file_type = match entry.file_type {
        Some(ft) => ft,
        None => return Err(SkipReason::UnreadableType),
    };
    let mode = match entry.mode {
        Some(mode) => mode,
        None => return Err(SkipReason::UnreadableMetadata),
    };
    let name = match &entry.name {
        Some(name) => name,
        None => return Err(SkipReason::UndecodableName),
    };
    let category = classify(file_type, mode);
    let mut colored = String::from_str(color_code(category));
    colored.append(name.as_str());
    colored.append(COLOR_RESET);
    let formatted_entry = FormattedEntry {
        is_hidden: is_hidden_name(name.as_str()),
        raw_output: name.clone(),
        colored_output: colored,
    };
    assert(formatted_entry@ == formatted(formatted_entry@.raw, category));
    Ok(formatted_entry)
}

/// The display record of a raw entry, if it has one.
pub open spec fn format_view(entry: RawEntryView) -> Option<EntryView> {
    match classified(entry) {
        Ok(e) => Some(e),
        Err(_) => None,
    }
}

/// The display record of one raw entry, or `None` where its type, its
/// metadata or its name cannot be had.
pub fn format_entry(entry: &RawEntry) -> (result: Option<FormattedEntry>)
    ensures
        match result {
            Some(e) => format_view(entry@) == Some(e@) && e@.well_formed(),
            None => format_view(entry@) is None,
        },
{
    match classify_entry(entry) {
        Ok(e) => Some(e),
        Err(_) => None,
    }
}

} // verus!

//! The rows of the file tree and their labels.
use crate::path::{PathView, TreePath};
use crate::text::{decode_lossy, shown_text, spaces};
use vstd::prelude::*;

verus! {

#[derive(Clone, Copy, Debug, PartialEq, Eq, Structural)]
pub enum EntryKind {
    File,
    Directory,
}

/// The last name of a path, or the whole path where it has none, as text.
pub open spec fn name_text(path: PathView) -> Seq<char> {
    match path.file_name() {
        Some(name) => if name.len() > 0 {
            shown_text(name)
        } else {
            shown_text(path.text())
        },
        None => shown_text(path.text()),
    }
}

/// `bytes` is the UTF-8 encoding of `text`.
pub open spec fn is_utf8_of(bytes: Seq<u8>, text: Seq<char>) -> bool {
    bytes == vstd::utf8::encode_utf8(text)
}

/// The icon of a file with the extension `ext`.
pub open spec fn extension_icon(ext: Option<Seq<u8>>) -> char {
    match ext {
        Some(e) => {
            if is_utf8_of(e, "rs"@) {
                '\u{E7A8}'
            } else if is_utf8_of(e, "md"@) {
                '\u{F0354}'
            } else if is_utf8_of(e, "toml"@) {
                '\u{E6B2}'
            } else if is_utf8_of(e, "json"@) || is_utf8_of(e, "jsonc"@) {
                '\u{E60B}'
            } else if is_utf8_of(e, "yml"@) || is_utf8_of(e, "yaml"@) {
                '\u{E6A8}'
            } else if is_utf8_of(e, "js"@) || is_utf8_of(e, "mjs"@) || is_utf8_of(e, "cjs"@) {
                '\u{E781}'
            } else if is_utf8_of(e, "ts"@) || is_utf8_of(e, "tsx"@) {
                '\u{F06E6}'
            } else if is_utf8_of(e, "jsx"@) {
                '\u{E7BA}'
            } else if is_utf8_of(e, "html"@) {
                '\u{E736}'
            } else if is_utf8_of(e, "css"@) || is_utf8_of(e, "scss"@) {
                '\u{E749}'
            } else if is_utf8_of(e, "sh"@) || is_utf8_of(e, "bash"@) || is_utf8_of(e, "zsh"@) {
                '\u{E795}'
            } else if is_utf8_of(e, "lock"@) {
                '\u{F033E}'
            } else {
                '\u{F0214}'
            }
        },
        None => '\u{F0214}',
    }
}

/// The sign before the icon: whether a directory is open, or a blank for a file.
pub open spec fn disclosure(kind: EntryKind, expanded: bool) -> char {
    match kind {
        EntryKind::Directory => if expanded {
            '\u{25BE}'
        } else {
            '\u{25B8}'
        },
        EntryKind::File => ' ',
    }
}

/// The icon of an entry.
pub open spec fn entry_icon(path: PathView, kind: EntryKind, expanded: bool) -> char {
    match kind {
        EntryKind::Directory => if expanded {
            '\u{F0DCF}'
        } else {
            '\u{F024B}'
        },
        EntryKind::File => extension_icon(path.extension()),
    }
}

/// What precedes the name of an entry in its row: two blanks for each level of depth, the
/// disclosure sign and the icon.
pub open spec fn label_prefix(
    path: PathView,
    depth: nat,
    kind: EntryKind,
    expanded: bool,
) -> Seq<char> {
    spaces(2 * depth) + seq![
        disclosure(kind, expanded),
        ' ',
        entry_icon(path, kind, expanded),
        ' ',
    ]
}

/// A row of the tree.
pub struct EntryView {
    pub path: PathView,
    pub depth: nat,
    pub kind: EntryKind,
    pub expanded: bool,
    pub prefix: Seq<char>,
    pub name: Seq<char>,
}

/// The row of a path, with the label that belongs to it.
pub open spec fn entry_row(
    path: PathView,
    depth: nat,
    kind: EntryKind,
    expanded: bool,
) -> EntryView {
    EntryView {
        path,
        depth,
        kind,
        expanded,
        prefix: label_prefix(path, depth, kind, expanded),
        name: name_text(path),
    }
}

/// A row of the tree.
#[derive(Debug)]
pub struct FileTreeEntry {
    pub path: TreePath,
    pub depth: usize,
    pub kind: EntryKind,
    pub expanded: bool,
    pub prefix: String,
    pub name: String,
}

impl View for FileTreeEntry {
    type V = EntryView;

    open spec fn view(&self) -> EntryView {
        EntryView {
            path: self.path@,
            depth: self.depth as nat,
            kind: self.kind,
            expanded: self.expanded,
            prefix: self.prefix@,
            name: self.name@,
        }
    }
}

impl FileTreeEntry {
    pub fn new(path: TreePath, depth: usize, kind: EntryKind, expanded: bool) -> (r: FileTreeEntry)
        ensures
            r@ == entry_row(path@, depth as nat, kind, expanded),
    {
        let (prefix, name) = entry_label_parts(&path, depth, kind, expanded);
        FileTreeEntry { path, depth, kind, expanded, prefix, name }
    }
}

/// The two parts of the label of an entry: what precedes its name, and its name.
pub fn entry_label_parts(path: &TreePath, depth: usize, kind: EntryKind, expanded: bool) -> (r: (
    String,
    String,
))
    ensures
        r.0@ == label_prefix(path@, depth as nat, kind, expanded),
        r.1@ == name_text(path@),
{
    let sign = match kind {
        EntryKind::Directory => if expanded {
            '\u{25BE}'
        } else {
            '\u{25B8}'
        },
        EntryKind::File => ' ',
    };
    let icon = match kind {
        EntryKind::Directory => if expanded {
            '\u{F0DCF}'
        } else {
            '\u{F024B}'
        },
        EntryKind::File => file_icon(path),
    };
    let mut prefix = String::new();
    let mut level: usize = 0;
    assert(prefix@ == spaces(0));
    while level < depth
        invariant
            level <= depth,
            prefix@ == spaces(2 * level as nat),
        decreases depth - level,
    {
        prefix.push(' ');
        prefix.push(' ');
        level += 1;
        assert(prefix@ == spaces(2 * level as nat));
    }
    prefix.push(sign);
    prefix.push(' ');
    prefix.push(icon);
    prefix.push(' ');
    assert(prefix@ == label_prefix(path@, depth as nat, kind, expanded));
    (prefix, file_name(path))
}

/// The last name of a path, or the whole path where it has none, as text.
pub fn file_name(path: &TreePath) -> (r: String)
    ensures
        r@ == name_text(path@),
{
    match path.file_name() {
        Some(name) => if name.len() > 0 {
            decode_lossy(name)
        } else {
            decode_lossy(&path.text())
        },
        None => decode_lossy(&path.text()),
    }
}

fn same_bytes(a: &Vec<u8>, b: &[u8]) -> (r: bool)
    ensures
        r == (a@ == b@),
{
    if a.len() != b.len() {
        return false;
    }
    let mut i: usize = 0;
    while i < a.len()
        invariant
            i <= a.len(),
            a@.len() == b@.len(),
            forall|j: int| 0 <= j < i ==> a@[j] == b@[j],
        decreases a.len() - i,
    {
        if a[i] != b[i] {
            return false;
        }
        i += 1;
    }
    assert(a@ == b@);
    true
}

/// The icon of a file, by its extension.
pub fn file_icon(path: &TreePath) -> (r: char)
    ensures
        r == extension_icon(path@.extension()),
{
    let e = match path.extension() {
        Some(e) => e,
        None => return '\u{F0214}',
    };
    if same_bytes(&e, "rs".as_bytes()) {
        '\u{E7A8}'
    } else if same_bytes(&e, "md".as_bytes()) {
        '\u{F0354}'
    } else if same_bytes(&e, "toml".as_bytes()) {
        '\u{E6B2}'
    } else if same_bytes(&e, "json".as_bytes())
        || same_bytes(&e, "jsonc".as_bytes()) {
        '\u{E60B}'
    } else if same_bytes(&e, "yml".as_bytes()) || same_bytes(&e, "yaml".as_bytes()) {
        '\u{E6A8}'
    } else if same_bytes(&e, "js".as_bytes()) || same_bytes(&e, "mjs".as_bytes())
        || same_bytes(&e, "cjs".as_bytes()) {
        '\u{E781}'
    } else if same_bytes(&e, "ts".as_bytes()) || same_bytes(&e, "tsx".as_bytes()) {
        '\u{F06E6}'
    } else if same_bytes(&e, "jsx".as_bytes()) {
        '\u{E7BA}'
    } else if same_bytes(&e, "html".as_bytes()) {
        '\u{E736}'
    } else if same_bytes(&e, "css".as_bytes()) || same_bytes(&e, "scss".as_bytes()) {
        '\u{E749}'
    } else if same_bytes(&e, "sh".as_bytes()) || same_bytes(&e, "bash".as_bytes())
        || same_bytes(&e, "zsh".as_bytes()) {
        '\u{E795}'
    } else if same_bytes(&e, "lock".as_bytes()) {
        '\u{F033E}'
    } else {
        '\u{F0214}'
    }
}

} // verus!

//! Small path helpers shared by the planner and the front-ends.
//!
//! Paths travel through the library as text. A file inside a folder is its
//! folder's path and its own name, joined with `/`; what `std::path` decides
//! beyond that (where a relative part begins, what the last component is) is
//! asked of `std::path` itself.

use vstd::prelude::*;

use crate::text::{chars_of, lowercase, string_from, to_lowercase};

verus! {

// ------------------------------------------------------------ display safety

/// A character that could rewrite a terminal: a control code (general category
/// Cc), a bidirectional control, a line or paragraph separator, or the
/// zero-width no-break space.
pub open spec fn display_hazard(c: char) -> bool {
    ||| c as int <= 0x1f
    ||| (0x7f <= c as int && c as int <= 0x9f)
    ||| c as int == 0x061c
    ||| c as int == 0x200e
    ||| c as int == 0x200f
    ||| (0x202a <= c as int && c as int <= 0x202e)
    ||| (0x2066 <= c as int && c as int <= 0x2069)
    ||| c as int == 0x2028
    ||| c as int == 0x2029
    ||| c as int == 0xfeff
}

/// `text` with every hazardous character replaced by `U+FFFD`.
pub open spec fn sanitized(text: Seq<char>) -> Seq<char> {
    text.map_values(|c: char| if display_hazard(c) { '\u{fffd}' } else { c })
}

pub fn is_display_hazard(character: char) -> (r: bool)
    ensures
        r == display_hazard(character),
{
    let code = character as u32;
    code <= 0x1f || (0x7f <= code && code <= 0x9f) || code == 0x061c || code == 0x200e || code
        == 0x200f || (0x202a <= code && code <= 0x202e) || (0x2066 <= code && code <= 0x2069)
        || code == 0x2028 || code == 0x2029 || code == 0xfeff
}

/// Replace anything in `text` that could rewrite a terminal with `U+FFFD`.
///
/// A filename is untrusted input: whoever produced the file chose it. A name
/// carrying `ESC[2K\r` could erase the line it was printed on and draw a
/// different rename above a confirmation prompt, and bidirectional overrides
/// reorder what is displayed. Both are replaced with a visible marker rather than
/// dropped, so a doctored name reads as suspicious instead of merely odd.
pub fn sanitize(text: String) -> (r: String)
    ensures
        r@ == sanitized(text@),
{
    let characters = chars_of(text.as_str());
    let mut out: Vec<char> = Vec::new();
    let mut index: usize = 0;
    while index < characters.len()
        invariant
            index <= characters.len(),
            characters@ == text@,
            out@ == sanitized(text@.take(index as int)),
        decreases characters.len() - index,
    {
        let character = characters[index];
        let shown = if is_display_hazard(character) { '\u{fffd}' } else { character };
        proof {
            assert(sanitized(text@.take(index + 1)) =~= sanitized(text@.take(index as int)).push(shown));
        }
        out.push(shown);
        index += 1;
    }
    assert(text@.take(index as int) =~= text@);
    string_from(out.as_slice())
}

// ------------------------------------------------------------ std::path queries
//
// `std::path` reads separators and prefixes by the rules of the platform the
// crate is built for (on Windows `\` and drive prefixes count, elsewhere only
// `/`). Each name below therefore stands for the answer on the build target,
// and what is proved from them holds for that target.

/// What `Path::strip_prefix` leaves of `path` once `root` is removed, as text.
pub uninterp spec fn stripped_path(path: Seq<char>, root: Seq<char>) -> Option<Seq<char>>;

/// `Path::strip_prefix`, with the relative remainder as text.
#[verifier::external_body]
fn strip_path_prefix(path: &str, root: &str) -> (r: Option<String>)
    ensures
        match r {
            Some(rest) => stripped_path(path@, root@) == Some(rest@),
            None => stripped_path(path@, root@) is None,
        },
{
    std::path::Path::new(path).strip_prefix(root).ok().map(|rest| rest.to_string_lossy().into_owned())
}

/// What `Path::file_name` gives for `path`, as text.
pub uninterp spec fn final_component(path: Seq<char>) -> Option<Seq<char>>;

/// `Path::file_name`, as text.
#[verifier::external_body]
pub(crate) fn path_file_name(path: &str) -> (r: Option<String>)
    ensures
        match r {
            Some(name) => final_component(path@) == Some(name@),
            None => final_component(path@) is None,
        },
{
    std::path::Path::new(path).file_name().map(|name| name.to_string_lossy().into_owned())
}

/// What `Path::parent` gives for `path`, as text.
pub uninterp spec fn parent_path(path: Seq<char>) -> Option<Seq<char>>;

/// `Path::parent`, as text.
#[verifier::external_body]
pub(crate) fn path_parent(path: &str) -> (r: Option<String>)
    ensures
        match r {
            Some(parent) => parent_path(path@) == Some(parent@),
            None => parent_path(path@) is None,
        },
{
    std::path::Path::new(path).parent().map(|parent| parent.to_string_lossy().into_owned())
}

/// Whether `Path` compares the two as equal (component by component).
pub uninterp spec fn same_path(left: Seq<char>, right: Seq<char>) -> bool;

/// `Path::eq`.
#[verifier::external_body]
pub(crate) fn paths_equal(left: &str, right: &str) -> (r: bool)
    ensures
        r == same_path(left@, right@),
{
    std::path::Path::new(left) == std::path::Path::new(right)
}

/// What `Path::new(left) < Path::new(right)` answers: std orders paths by their
/// components.
pub uninterp spec fn path_before(left: Seq<char>, right: Seq<char>) -> bool;

/// `Path`'s `<`.
#[verifier::external_body]
pub(crate) fn path_precedes(left: &str, right: &str) -> (r: bool)
    ensures
        r == path_before(left@, right@),
{
    std::path::Path::new(left) < std::path::Path::new(right)
}

/// How a path is shown relative to the scanned root: what is left after the
/// root, or the whole path, with display hazards replaced.
pub open spec fn shown_path(path: Seq<char>, root: Seq<char>) -> Seq<char> {
    sanitized(
        match stripped_path(path, root) {
            Some(rest) => rest,
            None => path,
        },
    )
}

/// How the name at the end of a path is shown.
pub open spec fn shown_name(path: Seq<char>) -> Seq<char> {
    sanitized(
        match final_component(path) {
            Some(name) => name,
            None => path,
        },
    )
}

/// How a folder is named in a listing: `.` for the root itself.
pub open spec fn shown_folder(directory: Seq<char>, root: Seq<char>) -> Seq<char> {
    if same_path(directory, root) {
        "."@
    } else {
        shown_path(directory, root)
    }
}

/// Render `path` relative to `root`, falling back to the whole path.
pub fn display_path(path: &str, root: &str) -> (r: String)
    ensures
        r@ == sanitized(
            match stripped_path(path@, root@) {
                Some(rest) => rest,
                None => path@,
            },
        ),
{
    match strip_path_prefix(path, root) {
        Some(rest) => sanitize(rest),
        None => sanitize(path.to_owned()),
    }
}

/// The file name, falling back to the whole path when there is none (a root, or
/// a path ending in `..`).
pub fn file_name(path: &str) -> (r: String)
    ensures
        r@ == sanitized(
            match final_component(path@) {
                Some(name) => name,
                None => path@,
            },
        ),
{
    match path_file_name(path) {
        Some(name) => sanitize(name),
        None => sanitize(path.to_owned()),
    }
}

/// A whole path, ready to be shown to a person.
pub fn display(path: &str) -> (r: String)
    ensures
        r@ == sanitized(path@),
{
    sanitize(path.to_owned())
}

/// Sort key that keeps output stable regardless of directory iteration order.
pub fn sort_key(path: &str) -> (r: String)
    ensures
        r@ == lowercase(path@),
{
    to_lowercase(path)
}

// ------------------------------------------------------------ names and joins

/// `dir` with `name` pushed onto it, as `PathBuf::push` does: an absolute
/// `name` replaces `dir`; otherwise a `/` goes between them unless `dir` is
/// empty or already ends in one.
pub open spec fn joined_path(dir: Seq<char>, name: Seq<char>) -> Seq<char> {
    if name.len() > 0 && name[0] == '/' {
        name
    } else if dir.len() == 0 || dir.last() == '/' {
        dir + name
    } else {
        dir + seq!['/'] + name
    }
}

pub fn join(dir: &str, name: &str) -> (r: String)
    ensures
        r@ == joined_path(dir@, name@),
{
    let d = chars_of(dir);
    let n = chars_of(name);
    let mut out: Vec<char> = Vec::new();
    if n.len() > 0 && n[0] == '/' {
        return name.to_owned();
    }
    let mut index: usize = 0;
    while index < d.len()
        invariant
            index <= d.len(),
            out@ == d@.take(index as int),
        decreases d.len() - index,
    {
        out.push(d[index]);
        index += 1;
    }
    assert(d@.take(index as int) =~= d@);
    if d.len() > 0 && d[d.len() - 1] != '/' {
        out.push('/');
    }
    let ghost before = out@;
    let mut index: usize = 0;
    while index < n.len()
        invariant
            index <= n.len(),
            out@ == before + n@.take(index as int),
        decreases n.len() - index,
    {
        out.push(n[index]);
        index += 1;
        assert(before + n@.take(index as int) =~= (before + n@.take(index - 1)).push(n@[index - 1]));
    }
    assert(n@.take(index as int) =~= n@);
    string_from(out.as_slice())
}

/// The position of the last `.` in `name`, if any.
pub open spec fn last_dot(name: Seq<char>) -> Option<int>
    decreases name.len(),
{
    if name.len() == 0 {
        None
    } else if name.last() == '.' {
        Some(name.len() - 1)
    } else {
        last_dot(name.drop_last())
    }
}

/// What `Path::file_stem` gives for a file whose name is `name`: the name
/// without its last extension; `..` and names with no dot, or whose only dot
/// leads, are whole.
pub open spec fn name_stem(name: Seq<char>) -> Seq<char> {
    if name == seq!['.', '.'] {
        name
    } else {
        match last_dot(name) {
            Some(k) => if k == 0 {
                name
            } else {
                name.take(k)
            },
            None => name,
        }
    }
}

/// What `Path::extension` gives for a file whose name is `name`.
pub open spec fn name_extension(name: Seq<char>) -> Option<Seq<char>> {
    if name == seq!['.', '.'] {
        None
    } else {
        match last_dot(name) {
            Some(k) => if k == 0 {
                None
            } else {
                Some(name.skip(k + 1))
            },
            None => None,
        }
    }
}

proof fn lemma_last_dot(name: Seq<char>)
    ensures
        match last_dot(name) {
            Some(k) => 0 <= k < name.len() && name[k] == '.' && forall|j: int| k < j < name.len() ==> name[j] != '.',
            None => forall|j: int| 0 <= j < name.len() ==> name[j] != '.',
        },
    decreases name.len(),
{
    if name.len() > 0 && name.last() != '.' {
        lemma_last_dot(name.drop_last());
        assert forall|j: int| 0 <= j < name.len() - 1 implies name[j] == name.drop_last()[j] by {}
    }
}

/// Where the last `.` of `name` sits.
fn find_last_dot(name: &Vec<char>) -> (r: Option<usize>)
    ensures
        match r {
            Some(k) => last_dot(name@) == Some(k as int),
            None => last_dot(name@) is None,
        },
{
    proof {
        lemma_last_dot(name@);
    }
    let mut index: usize = name.len();
    while index > 0
        invariant
            index <= name.len(),
            forall|j: int| index <= j < name.len() ==> name@[j] != '.',
            match last_dot(name@) {
                Some(k) => 0 <= k < name@.len() && name@[k] == '.' && forall|j: int| k < j < name@.len() ==> name@[j] != '.',
                None => forall|j: int| 0 <= j < name@.len() ==> name@[j] != '.',
            },
        decreases index,
    {
        if name[index - 1] == '.' {
            return Some(index - 1);
        }
        index -= 1;
    }
    None
}

fn is_dot_dot(name: &Vec<char>) -> (r: bool)
    ensures
        r == (name@ == seq!['.', '.']),
{
    if name.len() == 2 && name[0] == '.' && name[1] == '.' {
        assert(name@ =~= seq!['.', '.']);
        true
    } else {
        false
    }
}

/// The characters of `name` from `start` to `end`.
pub(crate) fn slice_string(name: &Vec<char>, start: usize, end: usize) -> (r: String)
    requires
        start <= end <= name.len(),
    ensures
        r@ == name@.subrange(start as int, end as int),
{
    let mut out: Vec<char> = Vec::new();
    let mut index: usize = start;
    while index < end
        invariant
            start <= index <= end <= name.len(),
            out@ == name@.subrange(start as int, index as int),
        decreases end - index,
    {
        out.push(name[index]);
        index += 1;
    }
    string_from(out.as_slice())
}

/// The stem of a file called `name`.
pub fn stem_of(name: &str) -> (r: String)
    ensures
        r@ == name_stem(name@),
{
    let characters = chars_of(name);
    if is_dot_dot(&characters) {
        return name.to_owned();
    }
    match find_last_dot(&characters) {
        Some(k) => if k == 0 {
            name.to_owned()
        } else {
            proof {
                lemma_last_dot(name@);
            }
            let r = slice_string(&characters, 0, k);
            assert(r@ =~= name@.take(k as int));
            r
        },
        None => name.to_owned(),
    }
}

/// The extension of a file called `name`, if it has one.
pub fn extension_of(name: &str) -> (r: Option<String>)
    ensures
        match r {
            Some(e) => name_extension(name@) == Some(e@),
            None => name_extension(name@) is None,
        },
{
    let characters = chars_of(name);
    if is_dot_dot(&characters) {
        return None;
    }
    match find_last_dot(&characters) {
        Some(k) => if k == 0 {
            None
        } else {
            let length = characters.len();
            proof {
                lemma_last_dot(name@);
                assert(k < length);
            }
            let r = slice_string(&characters, k + 1, length);
            assert(r@ =~= name@.skip(k + 1));
            Some(r)
        },
        None => None,
    }
}

/// A folder as the plan listing names it: `.` for the scanned root itself,
/// otherwise relative to it.
pub fn relative_directory(directory: &str, root: &str) -> (r: String)
    ensures
        same_path(directory@, root@) ==> r@ == "."@,
        !same_path(directory@, root@) ==> r@ == sanitized(
            match stripped_path(directory@, root@) {
                Some(rest) => rest,
                None => directory@,
            },
        ),
{
    if paths_equal(directory, root) {
        return ".".to_owned();
    }
    display_path(directory, root)
}

/// `path` with a leading `~` read as the home folder `home`: `~` alone is the
/// home folder and `~/rest` is `rest` inside it. Another user's `~name`, and any
/// path when the home folder is unknown, stay as they are.
pub open spec fn expanded(path: Seq<char>, home: Option<Seq<char>>) -> Seq<char> {
    if path.len() == 0 || path[0] != '~' {
        path
    } else {
        match home {
            None => path,
            Some(h) => if path.len() == 1 {
                h
            } else if path[1] == '/' {
                joined_path(h, path.skip(2))
            } else {
                path
            },
        }
    }
}

/// Expand a leading `~` into `home`, the user's home folder when it is known.
pub fn expand_user(path: &str, home: Option<&str>) -> (r: String)
    ensures
        r@ == expanded(path@, match home {
            Some(h) => Some(h@),
            None => None,
        }),
{
    let characters = chars_of(path);
    if characters.len() == 0 || characters[0] != '~' {
        return path.to_owned();
    }
    match home {
        None => path.to_owned(),
        Some(h) => {
            if characters.len() == 1 {
                h.to_owned()
            } else if characters[1] == '/' {
                let rest = slice_string(&characters, 2, characters.len());
                assert(rest@ =~= path@.skip(2));
                join(h, rest.as_str())
            } else {
                path.to_owned()
            }
        },
    }
}

/// Whether the last component of `path` is a hidden name, one that starts
/// with a dot.
pub fn is_hidden(path: &str) -> (r: bool)
    ensures
        r == (final_component(path@) matches Some(name) && name.len() > 0 && name[0] == '.'),
{
    match path_file_name(path) {
        Some(name) => {
            let characters = chars_of(name.as_str());
            characters.len() > 0 && characters[0] == '.'
        },
        None => false,
    }
}

} // verus!

//! Which files words are read from: the rules by which a walk through
//! directories takes or leaves what it finds, and the test that tells a text
//! file by its first bytes.

use vstd::prelude::*;
use vstd::utf8::valid_utf8;
use crate::text::char_to_lower;
use crate::text::chars_of;
use crate::text::to_lower;
use crate::trusted::utf8_valid_up_to;

verus! {

/// Of a file's first bytes, as many as this must be UTF-8 for the file to
/// count as text; a character cut off behind them is no fault.
pub const TEXT_PREFIX: usize = 56;

/// `a` and `b` are the same but for the case of ASCII letters.
pub open spec fn same_ignoring_case(a: Seq<char>, b: Seq<char>) -> bool {
    &&& a.len() == b.len()
    &&& forall|i: int| 0 <= i < a.len() ==> to_lower(#[trigger] a[i]) == to_lower(b[i])
}

/// What follows the last dot of `name`; nothing where `name` holds no dot.
pub open spec fn extension_of(name: Seq<char>) -> Option<Seq<char>>
    decreases name.len(),
{
    if name.len() == 0 {
        None
    } else if name.last() == '.' {
        Some(Seq::empty())
    } else {
        match extension_of(name.drop_last()) {
            Some(extension) => Some(extension.push(name.last())),
            None => None,
        }
    }
}

/// `extension` is one of the extensions of files that are never read, since
/// they hold no text: documents, sound, film and pictures.
pub open spec fn is_ignored_extension(extension: Seq<char>) -> bool {
    ||| same_ignoring_case(extension, "pdf"@)
    ||| same_ignoring_case(extension, "epub"@)
    ||| same_ignoring_case(extension, "mobi"@)
    ||| same_ignoring_case(extension, "azw3"@)
    ||| same_ignoring_case(extension, "doc"@)
    ||| same_ignoring_case(extension, "docx"@)
    ||| same_ignoring_case(extension, "mp3"@)
    ||| same_ignoring_case(extension, "mp4"@)
    ||| same_ignoring_case(extension, "avi"@)
    ||| same_ignoring_case(extension, "ogg"@)
    ||| same_ignoring_case(extension, "jpg"@)
    ||| same_ignoring_case(extension, "jpeg"@)
    ||| same_ignoring_case(extension, "png"@)
    ||| same_ignoring_case(extension, "gif"@)
}

/// `extension` is one of `allowed`, but for the case of letters.
pub open spec fn is_allowed_extension(extension: Seq<char>, allowed: Seq<&str>) -> bool {
    exists|i: int| 0 <= i < allowed.len() && same_ignoring_case(#[trigger] allowed[i]@, extension)
}

/// The name begins with a dot.
pub open spec fn is_hidden(name: Option<Seq<char>>) -> bool {
    match name {
        Some(n) => n.len() > 0 && n[0] == '.',
        None => false,
    }
}

/// Whether a walk takes what it has found `depth` levels below where it
/// began.
///
/// A file that the walk began at is taken. Below that, nothing is taken
/// whose name begins with a dot. A file is taken if its extension is none
/// of those that are never read and, where `allowed` is given, is one of
/// these; a file without extension only where `allowed` is not given; a file
/// whose name is no text never. Everything else, such as a directory, is
/// taken.
pub open spec fn entry_taken(
    depth: nat,
    is_file: bool,
    name: Option<Seq<char>>,
    allowed: Option<Seq<&str>>,
) -> bool {
    if depth == 0 && is_file {
        true
    } else if depth != 0 && is_hidden(name) {
        false
    } else if is_file {
        match name {
            Some(n) => match extension_of(n) {
                Some(extension) => !is_ignored_extension(extension) && match allowed {
                    Some(list) => is_allowed_extension(extension, list),
                    None => true,
                },
                None => allowed is None,
            },
            None => false,
        }
    } else {
        true
    }
}

/// Whether the characters of `name` from `from` on are `other`, but for the
/// case of letters.
fn tail_is(name: &Vec<char>, from: usize, other: &str) -> (r: bool)
    requires
        from <= name.len(),
    ensures
        r == same_ignoring_case(name@.skip(from as int), other@),
        r == same_ignoring_case(other@, name@.skip(from as int)),
{
    let wanted = chars_of(other);
    let ghost tail = name@.skip(from as int);
    if name.len() - from != wanted.len() {
        return false;
    }
    let mut i: usize = 0;
    while i < wanted.len()
        invariant
            i <= wanted.len(),
            from + wanted.len() == name.len(),
            wanted@ == other@,
            tail == name@.skip(from as int),
            forall|j: int| 0 <= j < i ==> to_lower(#[trigger] tail[j]) == to_lower(wanted@[j]),
        decreases wanted.len() - i,
    {
        assert(tail[i as int] == name@[from + i]);
        if char_to_lower(name[from + i]) != char_to_lower(wanted[i]) {
            assert(to_lower(tail[i as int]) != to_lower(other@[i as int]));
            return false;
        }
        i += 1;
    }
    true
}

/// Whether the characters of `name` from `from` on are one of `allowed`,
/// but for the case of letters.
fn tail_is_one_of(name: &Vec<char>, from: usize, allowed: &[&str]) -> (r: bool)
    requires
        from <= name.len(),
    ensures
        r == is_allowed_extension(name@.skip(from as int), allowed@),
{
    let ghost extension = name@.skip(from as int);
    let mut i: usize = 0;
    while i < allowed.len()
        invariant
            i <= allowed.len(),
            from <= name.len(),
            extension == name@.skip(from as int),
            forall|j: int| 0 <= j < i ==> !same_ignoring_case(#[trigger] allowed@[j]@, extension),
        decreases allowed.len() - i,
    {
        if tail_is(name, from, allowed[i]) {
            assert(same_ignoring_case(allowed@[i as int]@, extension));
            return true;
        }
        i += 1;
    }
    false
}

/// Where the extension of `name` begins: behind its last dot.
fn extension_start(name: &Vec<char>) -> (r: Option<usize>)
    ensures
        match r {
            Some(from) => from <= name@.len() && extension_of(name@) == Some(
                name@.skip(from as int),
            ),
            None => extension_of(name@) is None,
        },
{
    let mut found: Option<usize> = None;
    let mut i: usize = 0;
    assert(name@.take(0).len() == 0);
    while i < name.len()
        invariant
            i <= name.len(),
            match found {
                Some(from) => from <= i && extension_of(name@.take(i as int)) == Some(
                    name@.subrange(from as int, i as int),
                ),
                None => extension_of(name@.take(i as int)) is None,
            },
        decreases name.len() - i,
    {
        let ghost so_far = name@.take(i as int + 1);
        assert(so_far.drop_last() == name@.take(i as int));
        assert(so_far.last() == name@[i as int]);
        if name[i] == '.' {
            found = Some(i + 1);
            assert(name@.subrange(i as int + 1, i as int + 1) == Seq::<char>::empty());
        } else {
            proof {
                if let Some(from) = found {
                    assert(name@.subrange(from as int, i as int).push(name@[i as int])
                        == name@.subrange(from as int, i as int + 1));
                }
            }
        }
        i += 1;
    }
    proof {
        assert(name@.take(name.len() as int) == name@);
        if let Some(from) = found {
            assert(name@.subrange(from as int, name.len() as int) == name@.skip(from as int));
        }
    }
    found
}

/// Whether a walk takes what it has found `depth` levels below where it
/// began: a file or not, with the name `name` if that is text, where only
/// files with the extensions `allowed` are asked for if these are given.
pub fn takes_entry(depth: usize, is_file: bool, name: Option<&str>, allowed: Option<&[&str]>) -> (r:
    bool)
    ensures
        r == entry_taken(
            depth as nat,
            is_file,
            match name {
                Some(n) => Some(n@),
                None => None,
            },
            match allowed {
                Some(list) => Some(list@),
                None => None,
            },
        ),
{
    if depth == 0 && is_file {
        return true;
    }
    let name = match name {
        Some(n) => chars_of(n),
        None => {
            return !is_file;
        },
    };
    if depth != 0 && name.len() > 0 && name[0] == '.' {
        return false;
    }
    if !is_file {
        return true;
    }
    let from = match extension_start(&name) {
        Some(from) => from,
        None => {
            return allowed.is_none();
        },
    };
    let ignored = tail_is(&name, from, "pdf") || tail_is(&name, from, "epub") || tail_is(
        &name,
        from,
        "mobi",
    ) || tail_is(&name, from, "azw3") || tail_is(&name, from, "doc") || tail_is(
        &name,
        from,
        "docx",
    ) || tail_is(&name, from, "mp3") || tail_is(&name, from, "mp4") || tail_is(&name, from, "avi")
        || tail_is(&name, from, "ogg") || tail_is(&name, from, "jpg") || tail_is(
        &name,
        from,
        "jpeg",
    ) || tail_is(&name, from, "png") || tail_is(&name, from, "gif");
    if ignored {
        return false;
    }
    match allowed {
        None => true,
        Some(list) => tail_is_one_of(&name, from, list),
    }
}

/// Whether a file that begins with `prefix` is taken for text: the bytes
/// are UTF-8, or at least their first `TEXT_PREFIX` are.
pub fn looks_like_text(prefix: &[u8]) -> (r: bool)
    ensures
        r == (valid_utf8(prefix@) || exists|n: int|
            TEXT_PREFIX <= n <= prefix@.len() && valid_utf8(#[trigger] prefix@.take(n))),
{
    match utf8_valid_up_to(prefix) {
        None => true,
        Some(n) => {
            if n >= TEXT_PREFIX {
                true
            } else {
                false
            }
        },
    }
}

} // verus!

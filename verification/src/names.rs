//! File names: which files of a directory are notes, and where the file
//! of a post goes.

use crate::text::chars_of;
use vstd::prelude::*;

verus! {

/// The extension of a note's file.
pub open spec fn extension() -> Seq<char> {
    seq!['.', 'm', 'd']
}

/// A file named `name` is taken for a note: the name starts with
/// neither a full stop nor an underscore, and ends with the extension.
pub open spec fn eligible_name(name: Seq<char>) -> bool {
    &&& !(name.len() > 0 && (name[0] == '.' || name[0] == '_'))
    &&& extension().is_suffix_of(name)
}

/// `title` with a space in place of each slash.
pub open spec fn sanitized(title: Seq<char>) -> Seq<char> {
    title.map_values(
        |c: char|
            if c == '/' {
                ' '
            } else {
                c
            },
    )
}

/// The path of the file that holds the post titled `title` in the
/// directory `directory`.
pub open spec fn path_of(directory: Seq<char>, title: Seq<char>) -> Seq<char> {
    directory + seq!['/'] + sanitized(title) + extension()
}

/// Whether a file named `name` is taken for a note.
pub fn is_eligible_name(name: &str) -> (eligible: bool)
    ensures
        eligible == eligible_name(name@),
{
    let chars = chars_of(name);
    let n = chars.len();
    if n < 3 || chars[0] == '.' || chars[0] == '_' {
        return false;
    }
    let ends = chars[n - 3] == '.' && chars[n - 2] == 'm' && chars[n - 1] == 'd';
    proof {
        let tail = chars@.subrange(n - 3, n as int);
        assert(tail[0] == chars@[n - 3] && tail[1] == chars@[n - 2] && tail[2] == chars@[n - 1]);
        if ends {
            assert(tail == extension());
        }
    }
    ends
}

/// `title` with a space in place of each slash.
pub fn sanitize_title(title: &str) -> (name: String)
    ensures
        name@ == sanitized(title@),
{
    let chars = chars_of(title);
    let mut name = String::new();
    let mut i: usize = 0;
    while i < chars.len()
        invariant
            i <= chars.len(),
            name@ == sanitized(chars@.take(i as int)),
        decreases chars.len() - i,
    {
        let c = chars[i];
        if c == '/' {
            name.push(' ');
        } else {
            name.push(c);
        }
        proof {
            assert(name@ =~= sanitized(chars@.take(i + 1)));
        }
        i += 1;
    }
    proof {
        assert(chars@.take(chars.len() as int) == chars@);
    }
    name
}

/// The path of the file that holds the post titled `title` in the
/// directory `directory`.
pub fn output_path(directory: &str, title: &str) -> (path: String)
    ensures
        path@ == path_of(directory@, title@),
{
    let name = sanitize_title(title);
    let mut path = String::from_str(directory);
    path.push('/');
    path.append(name.as_str());
    path.push('.');
    path.push('m');
    path.push('d');
    assert(path@ =~= path_of(directory@, title@));
    path
}

} // verus!

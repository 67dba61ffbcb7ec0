//! Paths as they stand in an archive: relative, with forward slashes.

use vstd::prelude::*;
use vstd::std_specs::iter::IteratorSpec;
use vstd::string::next_postcondition;
use vstd::string::axiom_spec_iter;
use vstd::string::StringSliceAdditionalSpecFns;

verus! {

/// `String::push` from std appends one character to the string.
#[verifier::external_body]
pub(crate) fn string_push(s: &mut String, c: char)
    ensures
        final(s)@ == old(s)@.push(c),
{
    s.push(c)
}

/// A character of a path as the archive holds it: a backslash becomes a
/// forward slash, every other character stays.
pub open spec fn normalized_char(c: char) -> char {
    if c == '\\' {
        '/'
    } else {
        c
    }
}

/// A path with every backslash replaced by a forward slash.
pub open spec fn normalized(path: Seq<char>) -> Seq<char> {
    Seq::new(path.len(), |i: int| normalized_char(path[i]))
}

/// Replaces every backslash of `path` by a forward slash.
pub fn normalize_separators(path: &str) -> (r: String)
    ensures
        r@ == normalized(path@),
{
    broadcast use {next_postcondition, axiom_spec_iter};

    let mut out = String::new();
    let mut it = path.chars();
    loop
        invariant
            it.obeys_prophetic_iter_laws(),
            it.remaining().len() <= path@.len(),
            out@ == normalized(path@.take(path@.len() - it.remaining().len())),
            it.remaining() == path@.skip(path@.len() - it.remaining().len()),
            it.decrease() is Some,
        decreases it.decrease()->0,
    {
        let ghost before = it.remaining();
        let ghost done = path@.len() - before.len();
        match it.next() {
            Some(c) => {
                string_push(&mut out, normalized_char_of(c));
                proof {
                    assert(it.remaining() == before.drop_first());
                    assert(c == path@[done]);
                    assert(it.remaining() =~= path@.skip(done + 1));
                    assert(out@ =~= normalized(path@.take(done + 1)));
                }
            },
            None => {
                proof {
                    assert(path@.take(path@.len() as int) =~= path@);
                }
                return out;
            },
        }
    }
}

/// The part of a path after its last forward slash: the whole path where it
/// has none, nothing where it ends in one.
pub open spec fn base_name(path: Seq<char>) -> Seq<char>
    decreases path.len(),
{
    if path.len() == 0 {
        path
    } else if path.last() == '/' {
        Seq::empty()
    } else {
        base_name(path.drop_last()).push(path.last())
    }
}

/// Whether a path holds a forward slash.
pub open spec fn has_separator(path: Seq<char>) -> bool {
    exists|i: int| 0 <= i < path.len() && path[i] == '/'
}

/// A base name holds no separator and is the end of the path it was taken
/// from; a path without a separator is its own base name.
pub proof fn lemma_base_name(path: Seq<char>)
    ensures
        !has_separator(base_name(path)),
        base_name(path).len() <= path.len(),
        base_name(path) == path.skip(path.len() - base_name(path).len()),
        !has_separator(path) ==> base_name(path) == path,
    decreases path.len(),
{
    if path.len() == 0 {
    } else if path.last() == '/' {
        assert(path[path.len() - 1] == '/');
    } else {
        let front = path.drop_last();
        lemma_base_name(front);
        let b = base_name(front);
        assert(base_name(path) =~= path.skip(path.len() - base_name(path).len()));
        if !has_separator(path) {
            if has_separator(front) {
                let i = choose|i: int| 0 <= i < front.len() && front[i] == '/';
                assert(path[i] == '/');
            }
            assert(b.push(path.last()) =~= path);
        }
        if has_separator(base_name(path)) {
            let i = choose|i: int| 0 <= i < base_name(path).len() && base_name(path)[i] == '/';
            if i < b.len() {
                assert(b[i] == '/');
            }
        }
    }
}

/// The part of `path` after its last forward slash.
pub fn base_name_of(path: &str) -> (r: String)
    ensures
        r@ == base_name(path@),
{
    broadcast use {next_postcondition, axiom_spec_iter};

    let mut out = String::new();
    let mut it = path.chars();
    loop
        invariant
            it.obeys_prophetic_iter_laws(),
            it.remaining().len() <= path@.len(),
            out@ == base_name(path@.take(path@.len() - it.remaining().len())),
            it.remaining() == path@.skip(path@.len() - it.remaining().len()),
            it.decrease() is Some,
        decreases it.decrease()->0,
    {
        let ghost before = it.remaining();
        let ghost done = path@.len() - before.len();
        match it.next() {
            Some(c) => {
                if c == '/' {
                    out = String::new();
                } else {
                    string_push(&mut out, c);
                }
                proof {
                    assert(it.remaining() == before.drop_first());
                    assert(c == path@[done]);
                    assert(it.remaining() =~= path@.skip(done + 1));
                    assert(path@.take(done + 1).drop_last() =~= path@.take(done));
                }
            },
            None => {
                proof {
                    assert(path@.take(path@.len() as int) =~= path@);
                }
                return out;
            },
        }
    }
}

/// Whether a byte separates the parts of a path: a forward slash or a
/// backslash.
pub open spec fn is_separator(b: u8) -> bool {
    b == 0x2f || b == 0x5c
}

/// Whether a part of the path that consists of two dots begins at `i`.
pub open spec fn parent_step_at(path: Seq<u8>, i: int) -> bool {
    &&& 0 <= i
    &&& i + 2 <= path.len()
    &&& path[i] == 0x2e
    &&& path[i + 1] == 0x2e
    &&& (i == 0 || is_separator(path[i - 1]))
    &&& (i + 2 == path.len() || is_separator(path[i + 2]))
}

/// Whether a path, taken relative to a directory, may lead out of it: it
/// begins with a separator, or one of its parts is two dots.
pub open spec fn leaves_root(path: Seq<u8>) -> bool {
    (path.len() > 0 && is_separator(path[0])) || exists|i: int| parent_step_at(path, i)
}

/// Whether the path `path`, taken relative to a directory, may lead out of
/// it. A file of an archive with such a path should not be written.
pub fn path_leaves_root(path: &str) -> (r: bool)
    ensures
        r == leaves_root(path.spec_bytes()),
{
    let bytes = path.as_bytes();
    let len = bytes.len();
    if len > 0 && (bytes[0] == 0x2f || bytes[0] == 0x5c) {
        return true;
    }
    let mut i: usize = 0;
    while i < len
        invariant
            i <= len,
            len == bytes@.len(),
            bytes@ == path.spec_bytes(),
            forall|j: int| 0 <= j < i ==> !parent_step_at(bytes@, j),
        decreases len - i,
    {
        if len - i >= 2 && bytes[i] == 0x2e && bytes[i + 1] == 0x2e {
            let opens = i == 0 || bytes[i - 1] == 0x2f || bytes[i - 1] == 0x5c;
            let closes = len - i == 2 || bytes[i + 2] == 0x2f || bytes[i + 2] == 0x5c;
            if opens && closes {
                assert(parent_step_at(bytes@, i as int));
                return true;
            }
        }
        i += 1;
    }
    false
}

/// The character that stands in an archive's path for `c`.
pub fn normalized_char_of(c: char) -> (r: char)
    ensures
        r == normalized_char(c),
{
    if c == '\\' {
        '/'
    } else {
        c
    }
}

} // verus!

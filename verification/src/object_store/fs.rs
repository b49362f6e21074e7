//! Which keys name a file below a root directory.

use vstd::prelude::*;

use crate::strings::text2;
use crate::error::{corrupt, Error};
use crate::strings::chars_of;

verus! {

/// The two characters at `i` are a whole segment `..`.
pub open spec fn is_parent_segment(key: Seq<char>, i: int) -> bool {
    &&& 0 <= i
    &&& i + 2 <= key.len()
    &&& key[i] == '.'
    &&& key[i + 1] == '.'
    &&& i == 0 || key[i - 1] == '/'
    &&& i + 2 == key.len() || key[i + 2] == '/'
}

/// A key that cannot leave the root: not empty, not starting at the file system's
/// root or at `.`, and without a segment `..`.
pub open spec fn is_object_key(key: Seq<char>) -> bool {
    &&& key.len() > 0
    &&& key[0] != '/'
    &&& !(key[0] == '.' && (key.len() == 1 || key[1] == '/'))
    &&& forall|i: int| !#[trigger] is_parent_segment(key, i)
}

/// Refuses a key that could leave the root.
pub fn validate_object_key(key: &str) -> (r: Result<(), Error>)
    ensures
        is_object_key(key@) ==> r is Ok,
        !is_object_key(key@) ==> r is Err && r->Err_0 is Corrupt && r->Err_0->Corrupt_0@ == (
        if key@.len() == 0 {
            "empty object key"@
        } else {
            "invalid object key: "@ + key@
        }),
{
    let chars = chars_of(key);
    let len: usize = chars.len();
    if len == 0 {
        return Err(corrupt("empty object key"));
    }
    if chars[0] == '/' || (chars[0] == '.' && (len == 1 || chars[1] == '/')) {
        return Err(Error::Corrupt(text2("invalid object key: ", key)));
    }
    let mut i: usize = 0;
    while i < len
        invariant
            i <= len,
            len == chars@.len(),
            chars@ == key@,
            forall|j: int| 0 <= j < i ==> !#[trigger] is_parent_segment(key@, j),
        decreases len - i,
    {
        if chars[i] == '.' && i + 1 < len && chars[i + 1] == '.' && (i == 0 || chars[i - 1] == '/')
            && (i + 2 == len || chars[i + 2] == '/') {
            assert(is_parent_segment(key@, i as int));
            return Err(Error::Corrupt(text2("invalid object key: ", key)));
        }
        i = i + 1;
    }
    assert forall|j: int| !#[trigger] is_parent_segment(key@, j) by {
        if 0 <= j < len {
        }
    }
    Ok(())
}

/// A key never goes up from the root: no part of it between slashes is `..`. A key below a
/// key is one, and a name without slashes and dots is one.
pub proof fn law_keys_stay_below_the_root(key: Seq<char>, front: Seq<char>, rest: Seq<char>)
    requires
        is_object_key(key),
        front.len() == 0 || front.last() == '/',
        rest.len() == 0 || rest[0] == '/',
    ensures
        key != front + seq!['.', '.'] + rest,
        key != seq!['/'] + rest,
        key != seq!['.'] + rest,
{
    let up = front + seq!['.', '.'] + rest;
    if key == up {
        let i = front.len() as int;
        assert(up[i] == '.' && up[i + 1] == '.');
        if i > 0 {
            assert(up[i - 1] == front[i - 1]);
        }
        if rest.len() > 0 {
            assert(up[i + 2] == rest[0]);
        }
        assert(is_parent_segment(key, i));
    }
    assert((seq!['/'] + rest)[0] == '/');
    let here = seq!['.'] + rest;
    assert(here[0] == '.');
    if rest.len() > 0 {
        assert(here[1] == rest[0]);
    }
}

/// A key with a plain name below it is a key again, and so is a plain name.
pub proof fn law_names_below_keys_are_keys(key: Seq<char>, name: Seq<char>)
    requires
        is_object_key(key),
        name.len() > 0,
        !name.contains('/'),
        !name.contains('.'),
    ensures
        is_object_key(name),
        is_object_key(key + seq!['/'] + name),
{
    assert forall|i: int| !#[trigger] is_parent_segment(name, i) by {
        if is_parent_segment(name, i) {
            assert(name.contains(name[i]));
        }
    }
    assert(name.contains(name[0]));
    let all = key + seq!['/'] + name;
    assert(all[0] == key[0]);
    if key.len() > 1 {
        assert(all[1] == key[1]);
    }
    assert forall|i: int| !#[trigger] is_parent_segment(all, i) by {
        if is_parent_segment(all, i) {
            let n = key.len() as int;
            if i + 1 < n {
                assert(all[i] == key[i] && all[i + 1] == key[i + 1]);
                if i > 0 {
                    assert(all[i - 1] == key[i - 1]);
                }
                if i + 2 < n {
                    assert(all[i + 2] == key[i + 2]);
                }
                assert(is_parent_segment(key, i));
            } else if i + 1 == n {
                assert(all[i + 1] == '/');
            } else if i == n {
                assert(all[i] == '/');
            } else {
                assert(all[i] == name[i - n - 1]);
                assert(name.contains(name[i - n - 1]));
            }
        }
    }
}

} // verus!

//! Namespaces: their names, and the keys of the objects that hold them.

use vstd::prelude::*;
use vstd::string::*;

use crate::strings;
use crate::error::{invalid_write, Error};
use crate::strings::{chars_of, push_decimal};
use crate::wal::WalCursor;

pub mod writing;

verus! {

/// The characters a namespace name is made of.
pub open spec fn is_name_char(c: char) -> bool {
    ||| 'a' <= c <= 'z'
    ||| 'A' <= c <= 'Z'
    ||| '0' <= c <= '9'
    ||| c == '-'
    ||| c == '_'
    ||| c == '.'
}

/// A namespace name is not empty and made of letters, digits, `-`, `_` and `.`.
pub open spec fn is_namespace_name(name: Seq<char>) -> bool {
    name.len() > 0 && forall|i: int| 0 <= i < name.len() ==> is_name_char(#[trigger] name[i])
}

/// What is wrong with a text that is no namespace name.
pub open spec fn name_complaint(name: Seq<char>) -> Seq<char> {
    if name.len() == 0 {
        "namespace name cannot be empty"@
    } else {
        "namespace name may only hold letters, digits, '-', '_' and '.'"@
    }
}

/// Checks a namespace name.
pub fn validate_namespace_name(name: &str) -> (r: Result<(), Error>)
    ensures
        is_namespace_name(name@) ==> r is Ok,
        !is_namespace_name(name@) ==> r is Err && r->Err_0 is InvalidWrite && r->Err_0->InvalidWrite_0@
            == name_complaint(name@),
{
    let chars = chars_of(name);
    if chars.len() == 0 {
        return Err(invalid_write("namespace name cannot be empty"));
    }
    let mut i: usize = 0;
    while i < chars.len()
        invariant
            i <= chars@.len(),
            chars@ == name@,
            forall|j: int| 0 <= j < i ==> is_name_char(#[trigger] chars@[j]),
        decreases chars@.len() - i,
    {
        let c = chars[i];
        if !(('a' <= c && c <= 'z') || ('A' <= c && c <= 'Z') || ('0' <= c && c <= '9') || c == '-'
            || c == '_' || c == '.') {
            return Err(
                invalid_write("namespace name may only hold letters, digits, '-', '_' and '.'"),
            );
        }
        i = i + 1;
    }
    Ok(())
}

/// The key under which a namespace's objects lie, and a name below it.
pub open spec fn namespace_key(ns: Seq<char>, rest: Seq<char>) -> Seq<char> {
    "namespaces/"@ + ns + rest
}

fn key_of(ns: &str, rest: &str) -> (key: String)
    ensures
        key@ == namespace_key(ns@, rest@),
{
    let mut key = "namespaces/".to_owned();
    key.append(ns);
    key.append(rest);
    key
}

/// The pointer to the current manifest.
pub fn manifest_pointer_key(ns: &str) -> (key: String)
    ensures
        key@ == namespace_key(ns@, "/manifest/current"@),
{
    key_of(ns, "/manifest/current")
}

/// The manifest body of a generation.
pub open spec fn manifest_body_name(ns: Seq<char>, generation: nat) -> Seq<char> {
    namespace_key(ns, "/manifest/g/"@) + strings::decimal(generation) + ".json"@
}

/// The manifest body of a generation.
pub fn manifest_body_key(ns: &str, generation: u64) -> (key: String)
    ensures
        key@ == manifest_body_name(ns@, generation as nat),
{
    let mut key = key_of(ns, "/manifest/g/");
    push_decimal(&mut key, generation);
    key.append(".json");
    key
}

/// The manifest body of a generation, named by its content version.
pub fn manifest_content_body_key(ns: &str, generation: u64, version: &str) -> (key: String)
    ensures
        key@ == namespace_key(ns@, "/manifest/g/"@) + strings::decimal(generation as nat) + "-"@ + version@
            + ".json"@,
{
    let mut key = key_of(ns, "/manifest/g/");
    push_decimal(&mut key, generation);
    key.append("-");
    key.append(version);
    key.append(".json");
    key
}

/// The durable commit cursor.
pub fn wal_commit_key(ns: &str) -> (key: String)
    ensures
        key@ == namespace_key(ns@, "/wal_commit/current"@),
{
    key_of(ns, "/wal_commit/current")
}

/// The log object of a position.
pub open spec fn wal_name(ns: Seq<char>, cursor: WalCursor) -> Seq<char> {
    namespace_key(ns, "/wal/"@) + strings::decimal(cursor.epoch as nat) + "/"@ + strings::decimal(cursor.seq as nat)
        + ".wal"@
}

/// The log object of a position.
pub fn wal_key(ns: &str, cursor: WalCursor) -> (key: String)
    ensures
        key@ == wal_name(ns@, cursor),
{
    let mut key = key_of(ns, "/wal/");
    push_decimal(&mut key, cursor.epoch);
    key.append("/");
    push_decimal(&mut key, cursor.seq);
    key.append(".wal");
    key
}

/// What follows the same start in texts that are alike is alike.
pub proof fn lemma_behind(start: Seq<char>, a: Seq<char>, b: Seq<char>)
    requires
        start + a == start + b,
    ensures
        a == b,
{
    assert((start + a).skip(start.len() as int) =~= a);
    assert((start + b).skip(start.len() as int) =~= b);
}

/// No namespace name has a slash.
pub proof fn lemma_names_have_no_slash(name: Seq<char>)
    requires
        is_namespace_name(name),
    ensures
        !name.contains('/'),
{
    if name.contains('/') {
        let i = name.index_of('/');
        assert(is_name_char(name[i]));
    }
}

/// Names are told by their characters: a name may be put behind another, and what is no
/// name cannot become part of one. Of the characters of ASCII the letters, the digits and
/// three signs are in names, and no others.
pub proof fn law_names_are_told_by_characters(a: Seq<char>, b: Seq<char>, c: char)
    requires
        a.len() > 0,
        b.len() > 0,
    ensures
        is_namespace_name(a + b) <==> is_namespace_name(a) && is_namespace_name(b),
        !is_namespace_name(Seq::empty()),
        is_namespace_name(seq![c]) <==> (c as int) < 128 && (0x30 <= c as int <= 0x39 || 0x41
            <= c as int <= 0x5a || 0x61 <= c as int <= 0x7a || c as int == 0x2d || c as int == 0x2e
            || c as int == 0x5f),
{
    let all = a + b;
    assert forall|i: int| 0 <= i < a.len() implies all[i] == #[trigger] a[i] by {}
    assert forall|i: int| 0 <= i < b.len() implies all[a.len() + i] == #[trigger] b[i] by {}
    assert(seq![c][0] == c);
}

/// Objects of the log at different positions, or of different namespaces, have different
/// keys.
pub proof fn law_positions_have_objects_of_their_own(
    a: Seq<char>,
    s: WalCursor,
    b: Seq<char>,
    t: WalCursor,
)
    requires
        is_namespace_name(a),
        is_namespace_name(b),
        wal_name(a, s) == wal_name(b, t),
    ensures
        a == b,
        s == t,
{
    reveal_strlit("/wal/");
    reveal_strlit("/");
    reveal_strlit(".wal");
    let end = ".wal"@;
    let x = "/"@ + (strings::decimal(s.seq as nat) + end);
    let y = "/"@ + (strings::decimal(t.seq as nat) + end);
    let p = "/wal/"@ + (strings::decimal(s.epoch as nat) + x);
    let q = "/wal/"@ + (strings::decimal(t.epoch as nat) + y);
    assert(wal_name(a, s) =~= "namespaces/"@ + (a + p));
    assert(wal_name(b, t) =~= "namespaces/"@ + (b + q));
    lemma_behind("namespaces/"@, a + p, b + q);
    lemma_names_have_no_slash(a);
    lemma_names_have_no_slash(b);
    strings::lemma_same_split(a, p, b, q, '/');
    lemma_behind("/wal/"@, strings::decimal(s.epoch as nat) + x, strings::decimal(t.epoch as nat) + y);
    strings::lemma_same_number(s.epoch as nat, x, t.epoch as nat, y, '/');
    lemma_behind("/"@, strings::decimal(s.seq as nat) + end, strings::decimal(t.seq as nat) + end);
    strings::lemma_same_number(s.seq as nat, end, t.seq as nat, end, '.');
}

/// Manifests of different generations, or of different namespaces, have different keys.
pub proof fn law_generations_have_manifests_of_their_own(a: Seq<char>, g: nat, b: Seq<char>, h: nat)
    requires
        is_namespace_name(a),
        is_namespace_name(b),
        manifest_body_name(a, g) == manifest_body_name(b, h),
    ensures
        a == b,
        g == h,
{
    reveal_strlit("/manifest/g/");
    reveal_strlit(".json");
    let x = ".json"@;
    let p = "/manifest/g/"@ + (strings::decimal(g) + x);
    let q = "/manifest/g/"@ + (strings::decimal(h) + x);
    assert(manifest_body_name(a, g) =~= "namespaces/"@ + (a + p));
    assert(manifest_body_name(b, h) =~= "namespaces/"@ + (b + q));
    lemma_behind("namespaces/"@, a + p, b + q);
    lemma_names_have_no_slash(a);
    lemma_names_have_no_slash(b);
    strings::lemma_same_split(a, p, b, q, '/');
    lemma_behind("/manifest/g/"@, strings::decimal(g) + x, strings::decimal(h) + x);
    strings::lemma_same_number(g, x, h, x, '.');
}

} // verus!

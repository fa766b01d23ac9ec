//! The built-in types, which are told by what a thing is and not by a byte
//! pattern: the root, files, directories, arbitrary bytes and text.

use vstd::prelude::*;
use vstd::string::StringExecFns;
use crate::names::{all_all, all_allfiles, octet_stream, text_plain, inode_directory};

verus! {

/// The names of the built-in types.
pub open spec fn base_types() -> Seq<Seq<char>> {
    seq![all_all(), all_allfiles(), inode_directory(), text_plain(), octet_stream()]
}

/// The subclass pairs among the built-in types, each a type and one of its
/// subclasses.
pub open spec fn base_edges() -> Seq<(Seq<char>, Seq<char>)> {
    seq![
        (all_all(), all_allfiles()),
        (all_all(), inode_directory()),
        (all_allfiles(), octet_stream()),
        (octet_stream(), text_plain()),
    ]
}

/// Whether `name` is one of the built-in types.
pub open spec fn is_base_type(name: Seq<char>) -> bool {
    base_types().contains(name)
}

/// Whether a byte buffer is of the built-in type `name`: every buffer is a
/// file and arbitrary bytes; it is text where it holds no zero byte; it is
/// never the root or a directory.
pub open spec fn base_matches(name: Seq<char>, buf: Seq<u8>) -> bool {
    name == all_allfiles() || name == octet_stream() || (name == text_plain() && !buf.contains(0u8))
}

/// The built-in types.
pub fn get_supported() -> (types: Vec<String>)
    ensures
        types.deep_view() == base_types(),
{
    let mut types: Vec<String> = Vec::new();
    types.push(String::from_str("all/all"));
    types.push(String::from_str("all/allfiles"));
    types.push(String::from_str("inode/directory"));
    types.push(String::from_str("text/plain"));
    types.push(String::from_str("application/octet-stream"));
    assert(types.deep_view() =~= base_types());
    types
}

/// The subclass pairs among the built-in types, each a type and one of its
/// subclasses.
pub fn get_subclasses() -> (pairs: Vec<(String, String)>)
    ensures
        pairs.deep_view() == base_edges(),
{
    let mut pairs: Vec<(String, String)> = Vec::new();
    pairs.push((String::from_str("all/all"), String::from_str("all/allfiles")));
    pairs.push((String::from_str("all/all"), String::from_str("inode/directory")));
    pairs.push((String::from_str("all/allfiles"), String::from_str("application/octet-stream")));
    pairs.push((String::from_str("application/octet-stream"), String::from_str("text/plain")));
    assert(pairs.deep_view() =~= base_edges());
    pairs
}

/// The built-in types have no aliases.
pub fn get_aliaslist() -> (pairs: Vec<(String, String)>)
    ensures
        pairs.deep_view() == Seq::<(Seq<char>, Seq<char>)>::empty(),
{
    let pairs: Vec<(String, String)> = Vec::new();
    assert(pairs.deep_view() =~= Seq::<(Seq<char>, Seq<char>)>::empty());
    pairs
}

/// Whether `name` is one of the built-in types.
pub fn can_check(name: &String) -> (yes: bool)
    ensures
        yes == is_base_type(name@),
{
    let yes = *name == String::from_str("all/all") || *name == String::from_str("all/allfiles")
        || *name == String::from_str("inode/directory") || *name == String::from_str("text/plain")
        || *name == String::from_str("application/octet-stream");
    proof {
        if yes {
            if name@ == all_all() {
                assert(base_types()[0] == name@);
            } else if name@ == all_allfiles() {
                assert(base_types()[1] == name@);
            } else if name@ == inode_directory() {
                assert(base_types()[2] == name@);
            } else if name@ == text_plain() {
                assert(base_types()[3] == name@);
            } else {
                assert(base_types()[4] == name@);
            }
        }
    }
    yes
}

/// Tests a byte buffer against a built-in type.
pub fn from_u8(b: &[u8], mimetype: &String) -> (found: bool)
    ensures
        found == base_matches(mimetype@, b@),
{
    if *mimetype == String::from_str("application/octet-stream") || *mimetype == String::from_str(
        "all/allfiles",
    ) {
        return true;
    }
    if *mimetype == String::from_str("text/plain") {
        is_text_plain_from_u8(b)
    } else {
        false
    }
}

/// Whether a buffer holds no zero byte.
pub fn is_text_plain_from_u8(b: &[u8]) -> (text: bool)
    ensures
        text == !b@.contains(0u8),
{
    let n: usize = b.len();
    let mut i: usize = 0;
    while i < n
        invariant
            n == b.len(),
            i <= n,
            forall|k: int| 0 <= k < i ==> b@[k] != 0u8,
        decreases n - i,
    {
        if b[i] == 0u8 {
            return false;
        }
        i = i + 1;
    }
    true
}

} // verus!

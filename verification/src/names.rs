//! MIME type names: the fixed names the library knows, their order, and
//! searching lists of them.

use vstd::prelude::*;
use vstd::utf8::encode_utf8;
use vstd::string::StrSliceExecFns;

verus! {

/// The root of every type graph.
pub open spec fn all_all() -> Seq<char> {
    "all/all"@
}

/// The type of everything that is a file.
pub open spec fn all_allfiles() -> Seq<char> {
    "all/allfiles"@
}

/// The type of arbitrary bytes.
pub open spec fn octet_stream() -> Seq<char> {
    "application/octet-stream"@
}

/// The type of text.
pub open spec fn text_plain() -> Seq<char> {
    "text/plain"@
}

/// The type of directories.
pub open spec fn inode_directory() -> Seq<char> {
    "inode/directory"@
}

/// One of the four types that every graph holds and that never get a
/// synthesized parent.
pub open spec fn is_builtin(name: Seq<char>) -> bool {
    name == text_plain() || name == octet_stream() || name == all_all() || name == all_allfiles()
}

/// `token` is the part of `name` before its first `/`, or all of `name`
/// where it has none.
pub open spec fn is_top_level(name: Seq<char>, token: Seq<char>) -> bool {
    &&& token.len() <= name.len()
    &&& name.take(token.len() as int) == token
    &&& !token.contains('/')
    &&& (name.len() == token.len() || name[token.len() as int] == '/')
}

/// The type under which a type without a declared parent is placed: text
/// types under plain text, `inode` types under the root, all others under
/// arbitrary bytes.
pub open spec fn fallback_parent(name: Seq<char>) -> Seq<char> {
    if is_top_level(name, "text"@) {
        text_plain()
    } else if is_top_level(name, "inode"@) {
        all_all()
    } else {
        octet_stream()
    }
}

/// Lexicographic order on bytes, a proper prefix before what extends it.
pub open spec fn bytes_le(a: Seq<u8>, b: Seq<u8>) -> bool
    decreases a.len(),
{
    if a.len() == 0 {
        true
    } else if b.len() == 0 {
        false
    } else if a[0] != b[0] {
        a[0] < b[0]
    } else {
        bytes_le(a.drop_first(), b.drop_first())
    }
}

/// The order of names: that of their UTF-8 encodings.
pub open spec fn name_le(a: Seq<char>, b: Seq<char>) -> bool {
    bytes_le(encode_utf8(a), encode_utf8(b))
}

/// The names stand in ascending order.
pub open spec fn names_sorted(s: Seq<Seq<char>>) -> bool {
    forall|i: int, j: int| 0 <= i < j < s.len() ==> name_le(#[trigger] s[i], #[trigger] s[j])
}

/// `s` with `x` appended unless it is there already.
pub open spec fn add_missing(s: Seq<Seq<char>>, x: Seq<char>) -> Seq<Seq<char>> {
    if s.contains(x) {
        s
    } else {
        s.push(x)
    }
}

/// `[T]::sort_unstable` on strings: afterwards the strings stand in ascending
/// order of their bytes, and they are the same strings as before, each as
/// often as before.
#[verifier::external_body]
pub(crate) fn sort_names(names: &mut Vec<String>)
    ensures
        names_sorted(final(names).deep_view()),
        final(names).deep_view().to_multiset() == old(names).deep_view().to_multiset(),
{
    names.sort_unstable()
}

/// Where `name` stands in `names`, if it does.
pub fn position(names: &Vec<String>, name: &String) -> (at: Option<usize>)
    ensures
        match at {
            Some(i) => i < names.len() && names.deep_view()[i as int] == name@ && forall|k: int|
                0 <= k < i ==> names.deep_view()[k] != name@,
            None => !names.deep_view().contains(name@),
        },
{
    let n: usize = names.len();
    let mut i: usize = 0;
    while i < n
        invariant
            n == names.len(),
            i <= n,
            forall|k: int| 0 <= k < i ==> names.deep_view()[k] != name@,
        decreases n - i,
    {
        if names[i] == *name {
            assert(names.deep_view()[i as int] == names@[i as int]@);
            return Some(i);
        }
        assert(names.deep_view()[i as int] == names@[i as int]@);
        i = i + 1;
    }
    None
}

/// The distinct names of a list, each where it first occurs.
pub open spec fn distinct(s: Seq<Seq<char>>) -> Seq<Seq<char>>
    decreases s.len(),
{
    if s.len() == 0 {
        Seq::empty()
    } else {
        add_missing(distinct(s.drop_last()), s.last())
    }
}

/// The distinct names of a list, each where it first occurs.
pub fn dedup_names(names: &Vec<String>) -> (out: Vec<String>)
    ensures
        out.deep_view() == distinct(names.deep_view()),
        out.deep_view().no_duplicates(),
        out.deep_view().to_set() == names.deep_view().to_set(),
        out.len() <= names.len(),
{
    let n: usize = names.len();
    let mut out: Vec<String> = Vec::new();
    let mut i: usize = 0;
    assert(out.deep_view() =~= distinct(names.deep_view().take(0)));
    while i < n
        invariant
            n == names.len(),
            i <= n,
            out.len() <= i,
            out.deep_view() == distinct(names.deep_view().take(i as int)),
            out.deep_view().no_duplicates(),
            forall|x: Seq<char>| out.deep_view().contains(x) <==> names.deep_view().take(i as int).contains(x),
        decreases n - i,
    {
        let ghost before = out.deep_view();
        let found = position(&out, &names[i]);
        if found.is_none() {
            out.push(names[i].clone());
            assert(out.deep_view() =~= before.push(names.deep_view()[i as int]));
        }
        proof {
            let t0 = names.deep_view().take(i as int);
            let t1 = names.deep_view().take(i + 1);
            assert(t1 =~= t0.push(names.deep_view()[i as int]));
            assert(t1.drop_last() =~= t0);
            assert(names.deep_view()[i as int] == names@[i as int]@);
            assert forall|x: Seq<char>| out.deep_view().contains(x) <==> t1.contains(x) by {
                if t1.contains(x) {
                    let k = choose|k: int| 0 <= k < t1.len() && t1[k] == x;
                    if k < i {
                        assert(t0[k] == x);
                        assert(t0.contains(x));
                        assert(before.contains(x));
                        let m = choose|m: int| 0 <= m < before.len() && before[m] == x;
                        assert(out.deep_view()[m] == x);
                    } else {
                        if found.is_none() {
                            assert(out.deep_view()[before.len() as int] == x);
                        } else {
                            assert(before[found.unwrap() as int] == x);
                        }
                    }
                }
                if out.deep_view().contains(x) {
                    let m = choose|m: int| 0 <= m < out.deep_view().len() && out.deep_view()[m] == x;
                    if m < before.len() {
                        assert(before[m] == x);
                        assert(before.contains(x));
                        assert(t0.contains(x));
                        let k = choose|k: int| 0 <= k < t0.len() && t0[k] == x;
                        assert(t1[k] == x);
                    } else {
                        assert(t1[i as int] == x);
                    }
                }
            }
        }
        i = i + 1;
    }
    proof {
        assert(names.deep_view().take(n as int) =~= names.deep_view());
        assert(out.deep_view().to_set() =~= names.deep_view().to_set());
    }
    out
}

/// Whether the part of `name` before its first `/` is `token`. A token that
/// holds a `/` is the top level of no name.
pub fn has_top_level(name: &str, token: &str) -> (yes: bool)
    ensures
        yes == is_top_level(name@, token@),
{
    let tlen: usize = token.unicode_len();
    let nlen: usize = name.unicode_len();
    if nlen < tlen {
        return false;
    }
    let mut i: usize = 0;
    while i < tlen
        invariant
            tlen == token@.len(),
            nlen == name@.len(),
            tlen <= nlen,
            i <= tlen,
            forall|k: int| 0 <= k < i ==> name@[k] == token@[k] && token@[k] != '/',
        decreases tlen - i,
    {
        let c: char = token.get_char(i);
        if c == '/' {
            assert(token@[i as int] == '/');
            return false;
        }
        if name.get_char(i) != c {
            assert(name@.take(tlen as int)[i as int] != token@[i as int]);
            return false;
        }
        i = i + 1;
    }
    assert(name@.take(tlen as int) =~= token@);
    nlen == tlen || name.get_char(tlen) == '/'
}

} // verus!

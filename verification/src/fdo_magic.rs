//! What a loaded database says: its types, its aliases and its subclass
//! pairs, and how far into a file the rules of a type look.

use vstd::prelude::*;
use vstd::string::StringExecFns;
use vstd::utf8::{valid_utf8, decode_utf8, encode_utf8};
use std::sync::Arc;
use crate::magic::{MagicRule, RuleModel, models, forest_matches};
use crate::ruleset::{
    find_byte, scan_to, copy_range, string_from_utf8, table_names, table_model, lookup_forest, rules_of,
    add_entries, all_entries,
};
use crate::runtime::LoadedDatabase;
use crate::tree_magic::{resolve, alias_of};

verus! {

/// White space within a line.
pub open spec fn is_blank(b: u8) -> bool {
    b == 0x20 || b == 0x09 || b == 0x0b || b == 0x0c || b == 0x0d
}

/// The first place from `pos` on that holds no white space.
pub open spec fn blanks_end(s: Seq<u8>, pos: int) -> int
    decreases s.len() - pos,
{
    if 0 <= pos < s.len() && is_blank(s[pos]) {
        blanks_end(s, pos + 1)
    } else {
        pos
    }
}

/// The first place from `pos` on that holds white space or a line feed, or
/// the end of the text.
pub open spec fn token_end(s: Seq<u8>, pos: int) -> int
    decreases s.len() - pos,
{
    if 0 <= pos < s.len() && !is_blank(s[pos]) && s[pos] != 0x0a {
        token_end(s, pos + 1)
    } else {
        pos
    }
}

/// The place after the line that begins at `pos`, given where its second
/// word ends.
pub open spec fn line_next(s: Seq<u8>, from: int) -> int {
    if find_byte(s, from, 0x0a) < s.len() {
        find_byte(s, from, 0x0a) + 1
    } else {
        s.len() as int
    }
}

/// The first two words of the line that begins at `pos`, where it has two
/// and both are UTF-8.
pub open spec fn line_pair(s: Seq<u8>, pos: int) -> Option<(Seq<char>, Seq<char>)> {
    let a0 = blanks_end(s, pos);
    let a1 = token_end(s, a0);
    let b0 = blanks_end(s, a1);
    let b1 = token_end(s, b0);
    let a = s.subrange(a0, a1);
    let b = s.subrange(b0, b1);
    if a1 > a0 && b1 > b0 && valid_utf8(a) && valid_utf8(b) {
        Some((decode_utf8(a), decode_utf8(b)))
    } else {
        None
    }
}

/// Where the second word of the line that begins at `pos` ends.
pub open spec fn line_words_end(s: Seq<u8>, pos: int) -> int {
    token_end(s, blanks_end(s, token_end(s, blanks_end(s, pos))))
}

/// The pairs of words that the lines from `pos` on hold, line after line. A
/// line with fewer than two words gives none.
pub open spec fn text_pairs(s: Seq<u8>, pos: int) -> Seq<(Seq<char>, Seq<char>)>
    decreases s.len() - pos,
{
    if pos < 0 || pos >= s.len() {
        Seq::empty()
    } else {
        let next = line_next(s, line_words_end(s, pos));
        if pos < next <= s.len() {
            match line_pair(s, pos) {
                Some(pair) => seq![pair] + text_pairs(s, next),
                None => text_pairs(s, next),
            }
        } else {
            Seq::empty()
        }
    }
}

/// The place after the white space that begins at `pos`.
fn skip_blanks(text: &[u8], pos: usize) -> (end: usize)
    requires
        pos <= text.len(),
    ensures
        end == blanks_end(text@, pos as int),
        pos <= end <= text.len(),
{
    let len: usize = text.len();
    let mut end: usize = pos;
    while end < len && (text[end] == 0x20 || text[end] == 0x09 || text[end] == 0x0b || text[end] == 0x0c
        || text[end] == 0x0d)
        invariant
            len == text.len(),
            pos <= end <= len,
            blanks_end(text@, pos as int) == blanks_end(text@, end as int),
        decreases len - end,
    {
        end = end + 1;
    }
    end
}

/// The place after the word that begins at `pos`.
fn skip_word(text: &[u8], pos: usize) -> (end: usize)
    requires
        pos <= text.len(),
    ensures
        end == token_end(text@, pos as int),
        pos <= end <= text.len(),
{
    let len: usize = text.len();
    let mut end: usize = pos;
    while end < len && !(text[end] == 0x20 || text[end] == 0x09 || text[end] == 0x0b || text[end]
        == 0x0c || text[end] == 0x0d) && text[end] != 0x0a
        invariant
            len == text.len(),
            pos <= end <= len,
            token_end(text@, pos as int) == token_end(text@, end as int),
        decreases len - end,
    {
        end = end + 1;
    }
    end
}

/// Reads the pairs of words that the lines of a text hold: the first two
/// words of each line that has two.
pub fn read_pairs(text: &[u8]) -> (pairs: Vec<(String, String)>)
    ensures
        pairs.deep_view() == text_pairs(text@, 0),
{
    let len: usize = text.len();
    let mut pairs: Vec<(String, String)> = Vec::new();
    let mut at: usize = 0;
    assert(pairs.deep_view() + text_pairs(text@, 0) =~= text_pairs(text@, 0));
    while at < len
        invariant
            len == text.len(),
            at <= len,
            text_pairs(text@, 0) == pairs.deep_view() + text_pairs(text@, at as int),
        decreases len - at,
    {
        let a0: usize = skip_blanks(text, at);
        let a1: usize = skip_word(text, a0);
        let b0: usize = skip_blanks(text, a1);
        let b1: usize = skip_word(text, b0);
        let end: usize = scan_to(text, b1, 0x0a);
        let next: usize = if end < len { end + 1 } else { len };
        let ghost before = pairs.deep_view();
        if a1 > a0 && b1 > b0 {
            match string_from_utf8(copy_range(text, a0, a1)) {
                Some(first) => {
                    match string_from_utf8(copy_range(text, b0, b1)) {
                        Some(second) => {
                            let ghost pair = (first@, second@);
                            pairs.push((first, second));
                            proof {
                                assert(pairs.deep_view() =~= before.push(pair));
                                assert(before + (seq![pair] + text_pairs(text@, next as int))
                                    =~= before.push(pair) + text_pairs(text@, next as int));
                            }
                        },
                        None => {},
                    }
                },
                None => {},
            }
        }
        at = next;
    }
    assert(pairs.deep_view() + Seq::<(Seq<char>, Seq<char>)>::empty() =~= pairs.deep_view());
    pairs
}

/// Each line as a subclass pair: a line names a type and then its parent;
/// the pair names the parent first. Both names are resolved by the alias
/// table.
pub open spec fn subclass_pairs(
    lines: Seq<(Seq<char>, Seq<char>)>,
    aliases: Seq<(Seq<char>, Seq<char>)>,
) -> Seq<(Seq<char>, Seq<char>)> {
    Seq::new(
        lines.len(),
        |i: int| (resolve(aliases, lines[i].1), resolve(aliases, lines[i].0)),
    )
}

/// The aliases of a database: for each line of its alias text the alternate
/// name and the name it stands for.
pub fn get_aliaslist(ldb: &LoadedDatabase) -> (pairs: Vec<(String, String)>)
    ensures
        pairs.deep_view() == text_pairs(encode_utf8(ldb.alias_text()), 0),
{
    read_pairs(ldb.aliases().as_bytes())
}

/// The types for which a rule table has rules.
pub fn get_supported(table: &Vec<(String, Vec<MagicRule>)>) -> (types: Vec<String>)
    ensures
        types.deep_view() == table_names(table@),
{
    let n: usize = table.len();
    let mut types: Vec<String> = Vec::new();
    let mut i: usize = 0;
    while i < n
        invariant
            n == table.len(),
            i <= n,
            types.deep_view() == table_names(table@).take(i as int),
        decreases n - i,
    {
        let ghost before = types.deep_view();
        types.push(table[i].0.clone());
        assert(types.deep_view() =~= before.push(table@[i as int].0@));
        assert(table_names(table@).take(i + 1) =~= before.push(table@[i as int].0@));
        i = i + 1;
    }
    assert(table_names(table@).take(n as int) =~= table_names(table@));
    types
}

/// The subclass pairs of a database, each a type and one of its subclasses:
/// for each line of its subclass text, which names a type and then its
/// parent, the parent and the type, both with their aliases resolved.
pub fn get_subclasses(ldb: &LoadedDatabase) -> (pairs: Vec<(String, String)>)
    ensures
        pairs.deep_view() == subclass_pairs(
            text_pairs(encode_utf8(ldb.subclass_text()), 0),
            text_pairs(encode_utf8(ldb.alias_text()), 0),
        ),
{
    let aliases = get_aliaslist(ldb);
    let lines = read_pairs(ldb.subclasses().as_bytes());
    resolve_subclasses(&lines, &aliases)
}

/// Turns lines that name a type and then its parent into subclass pairs that
/// name the parent first, with the aliases of both names resolved.
pub fn resolve_subclasses(lines: &Vec<(String, String)>, aliases: &Vec<(String, String)>) -> (pairs: Vec<
    (String, String),
>)
    ensures
        pairs.deep_view() == subclass_pairs(lines.deep_view(), aliases.deep_view()),
{
    let n: usize = lines.len();
    let mut pairs: Vec<(String, String)> = Vec::new();
    let ghost want = subclass_pairs(lines.deep_view(), aliases.deep_view());
    let mut i: usize = 0;
    while i < n
        invariant
            n == lines.len(),
            i <= n,
            want == subclass_pairs(lines.deep_view(), aliases.deep_view()),
            pairs.deep_view() == want.take(i as int),
        decreases n - i,
    {
        let ghost before = pairs.deep_view();
        let child = alias_of(aliases, lines[i].0.as_str());
        let parent = alias_of(aliases, lines[i].1.as_str());
        let edge = (String::from_str(parent), String::from_str(child));
        proof {
            assert(lines.deep_view()[i as int].0 == lines@[i as int].0@);
            assert(lines.deep_view()[i as int].1 == lines@[i as int].1@);
        }
        pairs.push(edge);
        assert(pairs.deep_view() =~= before.push(want[i as int]));
        assert(want.take(i + 1) =~= before.push(want[i as int]));
        i = i + 1;
    }
    assert(want.take(n as int) =~= want);
    pairs
}

/// How many bytes from the start of a file a rule looks at.
pub open spec fn reach(rule: RuleModel) -> nat {
    (rule.start_off + rule.val.len() + rule.region_len) as nat
}

/// The largest reach among rules.
pub open spec fn longest_reach(rules: Seq<RuleModel>) -> nat
    decreases rules.len(),
{
    if rules.len() == 0 {
        0
    } else if reach(rules.last()) > longest_reach(rules.drop_last()) {
        reach(rules.last())
    } else {
        longest_reach(rules.drop_last())
    }
}

/// How many bytes of a file have to be read to test it against the rules:
/// the largest reach among them, or as much as a length can express.
pub fn scan_len(rules: &Vec<MagicRule>) -> (len: usize)
    ensures
        len == if longest_reach(models(rules@)) <= usize::MAX {
            longest_reach(models(rules@))
        } else {
            usize::MAX as nat
        },
{
    let n: usize = rules.len();
    let mut longest: u128 = 0;
    let mut i: usize = 0;
    while i < n
        invariant
            n == rules.len(),
            i <= n,
            longest == longest_reach(models(rules@).take(i as int)),
            longest <= 2 * u64::MAX,
        decreases n - i,
    {
        proof {
            assert(models(rules@).take(i + 1).drop_last() =~= models(rules@).take(i as int));
            assert(models(rules@).take(i + 1).last() == rules@[i as int]@);
        }
        let here: u128 = rules[i].start_off as u128 + rules[i].val.len() as u128 + rules[i].region_len as u128;
        if here > longest {
            longest = here;
        }
        i = i + 1;
    }
    assert(models(rules@).take(n as int) =~= models(rules@));
    if longest > usize::MAX as u128 {
        usize::MAX
    } else {
        longest as usize
    }
}


/// The rule table of a loaded database: the rules of all its magic files by
/// type, as far as the files could be read.
pub open spec fn rules_read(ldb: &LoadedDatabase) -> Seq<(Seq<char>, Seq<RuleModel>)> {
    add_entries(Seq::empty(), all_entries(ldb.files()))
}

/// The checker that tests by magic rules.
pub struct FdoMagic {
    ldb: Arc<LoadedDatabase>,
}

impl FdoMagic {
    /// The database whose rules are used.
    pub closed spec fn database(&self) -> &LoadedDatabase {
        &*self.ldb
    }

    /// A checker over the rules of a loaded database.
    pub fn new(ldb: Arc<LoadedDatabase>) -> (made: Self)
        ensures
            made.database() == &*ldb,
    {
        Self { ldb }
    }

    /// The rule table of the database, as far as its files can be read.
    fn table(&self) -> (table: Vec<(String, Vec<MagicRule>)>)
        ensures
            table_model(table@) == rules_read(self.database()),
    {
        match self.ldb.rules() {
            Ok(table) => table,
            Err((table, _)) => table,
        }
    }

    /// Tests a byte buffer against the rules of a type. A type without rules
    /// gives `false`.
    pub fn from_u8(&self, file: &[u8], mimetype: &str) -> (found: bool)
        ensures
            found == match lookup_forest(rules_read(self.database()), mimetype@) {
                Some(forest) => forest_matches(file@, forest),
                None => false,
            },
    {
        let table = self.table();
        let name = String::from_str(mimetype);
        match rules_of(&table, &name) {
            Some(forest) => crate::check::from_u8(file, forest),
            None => false,
        }
    }

    /// How many bytes of a file have to be read to test it against the rules
    /// of a type; `None` for a type without rules.
    pub fn scan_len(&self, mimetype: &str) -> (len: Option<usize>)
        ensures
            match lookup_forest(rules_read(self.database()), mimetype@) {
                Some(forest) => len == Some(
                    if longest_reach(forest) <= usize::MAX {
                        longest_reach(forest) as usize
                    } else {
                        usize::MAX
                    },
                ),
                None => len is None,
            },
    {
        let table = self.table();
        let name = String::from_str(mimetype);
        match rules_of(&table, &name) {
            Some(forest) => Some(scan_len(forest)),
            None => None,
        }
    }

    /// The types that have rules.
    pub fn get_supported(&self) -> (types: Vec<String>)
        ensures
            types.deep_view() == Seq::new(
                rules_read(self.database()).len(),
                |i: int| rules_read(self.database())[i].0,
            ),
    {
        let table = self.table();
        let types = get_supported(&table);
        assert(types.deep_view() =~= Seq::new(
            rules_read(self.database()).len(),
            |i: int| rules_read(self.database())[i].0,
        ));
        types
    }

    /// The subclass pairs of the database, each a type and one of its
    /// subclasses.
    pub fn get_subclasses(&self) -> (pairs: Vec<(String, String)>)
        ensures
            pairs.deep_view() == subclass_pairs(
                text_pairs(encode_utf8(self.database().subclass_text()), 0),
                text_pairs(encode_utf8(self.database().alias_text()), 0),
            ),
    {
        get_subclasses(&self.ldb)
    }

    /// The aliases of the database.
    pub fn get_aliaslist(&self) -> (pairs: Vec<(String, String)>)
        ensures
            pairs.deep_view() == text_pairs(encode_utf8(self.database().alias_text()), 0),
    {
        get_aliaslist(&self.ldb)
    }
}

} // verus!

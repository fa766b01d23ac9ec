//! Reading a magic file into a list of rule records.

use vstd::prelude::*;
use crate::magic::{MagicRule as Rule, RuleModel, models};
use vstd::slice::slice_subrange;
use crate::ruleset::{
    EntryModel, MagicEntry, entry_models, spec_file, spec_entries, from_u8_to_tuple_vec, has_header,
    parse_mime, parse_rules, scan_digits, scan_to, to_string,
};
use crate::db::shared_mime_db_types::SharedMimeMagicRule;
use crate::db::db_traits::MagicRule;
use crate::db::owned_db_types::OwnedMagicRule;

pub use crate::ruleset::MagicRuleParseError;

verus! {

/// A rule record as plain values: the priority and name of its type, and
/// what the rule says.
pub type RecordModel = (u32, Seq<char>, RuleModel);

/// The rules of one entry, each with the priority and name of the entry's
/// type.
pub open spec fn entry_records(entry: EntryModel) -> Seq<RecordModel> {
    Seq::new(entry.rules.len(), |i: int| (entry.priority, entry.mime, entry.rules[i]))
}

/// The rules of a sequence of entries as one list of records, in order.
pub open spec fn flat_records(entries: Seq<EntryModel>) -> Seq<RecordModel>
    decreases entries.len(),
{
    if entries.len() == 0 {
        Seq::empty()
    } else {
        flat_records(entries.drop_last()) + entry_records(entries.last())
    }
}

/// A list of rule records as plain values.
pub open spec fn record_models(rules: Seq<OwnedMagicRule>) -> Seq<RecordModel> {
    Seq::new(
        rules.len(),
        |i: int| (rules[i].spec_priority(), rules[i].spec_mime_type(), rules[i].model()),
    )
}

/// The record of one rule of an entry.
fn record_of(entry: &MagicEntry, rule: &Rule) -> (record: OwnedMagicRule)
    ensures
        record.spec_priority() == entry.priority,
        record.spec_mime_type() == entry.mime@,
        record.model() == rule@,
{
    let val = rule.val.clone();
    assert(val@ =~= rule.val@);
    let mask: Vec<u8> = match &rule.mask {
        Some(m) => {
            let c = m.clone();
            assert(c@ =~= m@);
            c
        },
        None => Vec::new(),
    };
    assert(mask@ =~= rule@.mask);
    OwnedMagicRule::new(
        entry.priority,
        entry.mime.clone(),
        rule.indent_level,
        rule.start_off,
        val,
        mask,
        rule.word_len,
        rule.region_len,
    )
}

/// Reads a magic file and appends its rules to `magic_rules`, each with the
/// priority and name of its type. Returns the number of rules appended; where
/// the file has an error, the rules read before it are appended all the same,
/// and their number is returned with the error.
pub fn parse_magic_file(input: &[u8], magic_rules: &mut Vec<OwnedMagicRule>) -> (out: Result<
    usize,
    (usize, MagicRuleParseError),
>)
    ensures
        record_models(final(magic_rules)@) == record_models(old(magic_rules)@) + flat_records(
            spec_file(input@).entries,
        ),
        match out {
            Ok(count) => spec_file(input@).error is None && count == flat_records(
                spec_file(input@).entries,
            ).len(),
            Err((count, error)) => spec_file(input@).error == Some(error) && count == flat_records(
                spec_file(input@).entries,
            ).len(),
        },
{
    let (entries, error) = from_u8_to_tuple_vec(input);
    let ghost start = record_models(magic_rules@);
    let before: usize = magic_rules.len();
    let n: usize = entries.len();
    let mut i: usize = 0;
    assert(record_models(magic_rules@) =~= start + flat_records(entry_models(entries@).take(0)));
    while i < n
        invariant
            n == entries.len(),
            i <= n,
            start.len() == before,
            record_models(magic_rules@) == start + flat_records(entry_models(entries@).take(i as int)),
        decreases n - i,
    {
        let entry = &entries[i];
        let ghost done = record_models(magic_rules@);
        let m: usize = entry.rules.len();
        let mut j: usize = 0;
        assert(done =~= done + entry_records(entry@).take(0));
        while j < m
            invariant
                m == entry.rules.len(),
                j <= m,
                record_models(magic_rules@) == done + entry_records(entry@).take(j as int),
            decreases m - j,
        {
            let ghost prev = record_models(magic_rules@);
            let record = record_of(entry, &entry.rules[j]);
            magic_rules.push(record);
            proof {
                assert(record_models(magic_rules@) =~= prev.push(entry_records(entry@)[j as int]));
                assert(entry_records(entry@).take(j + 1) =~= entry_records(entry@).take(j as int).push(
                    entry_records(entry@)[j as int],
                ));
            }
            j = j + 1;
        }
        proof {
            assert(entry_records(entry@).take(m as int) =~= entry_records(entry@));
            assert(entry_models(entries@).take(i + 1).drop_last() =~= entry_models(entries@).take(
                i as int,
            ));
            assert(entry_models(entries@).take(i + 1).last() == entry@);
            assert(start + (flat_records(entry_models(entries@).take(i as int)) + entry_records(entry@))
                =~= start + flat_records(entry_models(entries@).take(i as int)) + entry_records(
                entry@,
            ));
        }
        i = i + 1;
    }
    assert(entry_models(entries@).take(n as int) =~= entry_models(entries@));
    let count: usize = magic_rules.len() - before;
    match error {
        None => Ok(count),
        Some(error) => Err((count, error)),
    }
}


/// A list of rule records that borrow the names of their types, as plain
/// values.
pub open spec fn shared_record_models(rules: Seq<SharedMimeMagicRule>) -> Seq<RecordModel> {
    Seq::new(
        rules.len(),
        |i: int| (rules[i].spec_priority(), rules[i].spec_mime_type(), rules[i].model()),
    )
}

/// The names of the types of a sequence of entries, in order.
pub open spec fn entry_names(entries: Seq<EntryModel>) -> Seq<Seq<char>> {
    Seq::new(entries.len(), |i: int| entries[i].mime)
}

/// The record of one rule of an entry, with the name of the entry's type
/// borrowed.
fn shared_record_of<'a>(priority: u32, name: &'a str, rule: &Rule) -> (record: SharedMimeMagicRule<'a>)
    ensures
        record.spec_priority() == priority,
        record.spec_mime_type() == name@,
        record.model() == rule@,
{
    let val = rule.val.clone();
    assert(val@ =~= rule.val@);
    let mask: Vec<u8> = match &rule.mask {
        Some(m) => {
            let c = m.clone();
            assert(c@ =~= m@);
            c
        },
        None => Vec::new(),
    };
    assert(mask@ =~= rule@.mask);
    SharedMimeMagicRule::new(
        priority,
        name,
        rule.indent_level,
        rule.start_off,
        val,
        mask,
        rule.word_len,
        rule.region_len,
    )
}

/// Reads a magic file and appends its rules to `magic_rules`, each with the
/// priority of its type and with the name of its type borrowed from the
/// input. The names of the types of the entries are appended to
/// `mime_types`, entry by entry. Returns the number of rules appended; where
/// the file has an error, what was read before it is appended all the same,
/// and the number of rules is returned with the error.
pub fn parse_magic_file1<'a>(
    input: &'a [u8],
    mime_types: &mut Vec<String>,
    magic_rules: &mut Vec<SharedMimeMagicRule<'a>>,
) -> (out: Result<usize, (usize, MagicRuleParseError)>)
    ensures
        shared_record_models(final(magic_rules)@) == shared_record_models(old(magic_rules)@)
            + flat_records(spec_file(input@).entries),
        final(mime_types).deep_view() == old(mime_types).deep_view() + entry_names(
            spec_file(input@).entries,
        ),
        match out {
            Ok(count) => spec_file(input@).error is None && count == flat_records(
                spec_file(input@).entries,
            ).len(),
            Err((count, error)) => spec_file(input@).error == Some(error) && count == flat_records(
                spec_file(input@).entries,
            ).len(),
        },
{
    let ghost start = shared_record_models(magic_rules@);
    let ghost names = mime_types.deep_view();
    let before: usize = magic_rules.len();
    let len: usize = input.len();
    if !has_header(input) {
        proof {
            assert(start + flat_records(Seq::<EntryModel>::empty()) =~= start);
            assert(names + entry_names(Seq::<EntryModel>::empty()) =~= names);
        }
        return Err((0, MagicRuleParseError::MissingHeader { offset: 0 }));
    }
    let ghost mut done: Seq<EntryModel> = Seq::empty();
    let mut at: usize = 12;
    let mut error: Option<MagicRuleParseError> = None;
    proof {
        assert(start + flat_records(done) =~= start);
        assert(names + entry_names(done) =~= names);
        assert(done + spec_entries(input@, 12).entries =~= spec_entries(input@, 12).entries);
    }
    while at < len
        invariant_except_break
            error is None,
            spec_entries(input@, 12).entries == done + spec_entries(input@, at as int).entries,
            spec_entries(input@, 12).error == spec_entries(input@, at as int).error,
        invariant
            len == input.len(),
            12 <= at <= len,
            start.len() == before,
            shared_record_models(magic_rules@) == start + flat_records(done),
            mime_types.deep_view() == names + entry_names(done),
        ensures
            spec_entries(input@, 12).entries == done,
            spec_entries(input@, 12).error == error,
        decreases len - at,
    {
        match parse_mime(input, at) {
            Ok((head, body)) => {
                let d: usize = scan_digits(input, at + 1);
                let close: usize = scan_to(input, d + 1, 0x5d);
                let name: &'a str = match to_string(slice_subrange(input, d + 1, close)) {
                    Ok(text) => text,
                    Err(_) => vstd::pervasive::unreached(),
                };
                let (rules, next, failed) = parse_rules(input, body);
                let ghost entry = EntryModel {
                    priority: head.priority,
                    mime: head.mime_type@,
                    rules: models(rules@),
                };
                let ghost had = shared_record_models(magic_rules@);
                let m: usize = rules.len();
                let mut j: usize = 0;
                assert(had =~= had + entry_records(entry).take(0));
                while j < m
                    invariant
                        m == rules.len(),
                        j <= m,
                        name@ == entry.mime,
                        head.priority == entry.priority,
                        entry.rules == models(rules@),
                        shared_record_models(magic_rules@) == had + entry_records(entry).take(j as int),
                    decreases m - j,
                {
                    let ghost prev = shared_record_models(magic_rules@);
                    let record = shared_record_of(head.priority, name, &rules[j]);
                    magic_rules.push(record);
                    proof {
                        assert(shared_record_models(magic_rules@) =~= prev.push(
                            entry_records(entry)[j as int],
                        ));
                        assert(entry_records(entry).take(j + 1) =~= entry_records(entry).take(
                            j as int,
                        ).push(entry_records(entry)[j as int]));
                    }
                    j = j + 1;
                }
                let ghost listed = mime_types.deep_view();
                mime_types.push(head.mime_type);
                proof {
                    assert(entry_records(entry).take(m as int) =~= entry_records(entry));
                    assert(done.push(entry).drop_last() =~= done);
                    assert(done.push(entry).last() == entry);
                    assert(start + (flat_records(done) + entry_records(entry)) =~= start + flat_records(
                        done,
                    ) + entry_records(entry));
                    assert(mime_types.deep_view() =~= listed.push(entry.mime));
                    assert(names + entry_names(done.push(entry)) =~= (names + entry_names(done)).push(
                        entry.mime,
                    ));
                    assert(done + (seq![entry] + spec_entries(input@, next as int).entries)
                        =~= done.push(entry) + spec_entries(input@, next as int).entries);
                    assert(done + seq![entry] =~= done.push(entry));
                    done = done.push(entry);
                }
                if failed.is_some() {
                    error = failed;
                    break ;
                }
                at = next;
            },
            Err(e) => {
                error = Some(e);
                assert(done + Seq::<EntryModel>::empty() =~= done);
                break ;
            },
        }
    }
    let count: usize = magic_rules.len() - before;
    match error {
        None => Ok(count),
        Some(error) => Err((count, error)),
    }
}

} // verus!

//! Keeping count while a shared MIME database is loaded file by file.

use vstd::prelude::*;
use vstd::std_specs::ops::AddSpecImpl;
use std::path::PathBuf;
use crate::db::owned_db_types::OwnedBuildableDb;
use crate::db::parse_magic_rule::{MagicRuleParseError, parse_magic_file, record_models, flat_records};
use crate::ruleset::spec_file;

verus! {

/// How many records of each kind were loaded.
#[derive(Debug, Clone, Copy, PartialEq, Eq, Structural)]
pub struct LoadResult {
    pub magic_rules_num: usize,
    pub aliases_num: usize,
    pub subclasses_num: usize,
}

impl LoadResult {
    /// Nothing loaded.
    pub open spec fn spec_zero() -> LoadResult {
        LoadResult { magic_rules_num: 0, aliases_num: 0, subclasses_num: 0 }
    }

    /// The three counts as numbers without bound.
    pub open spec fn counts(self) -> (nat, nat, nat) {
        (self.magic_rules_num as nat, self.aliases_num as nat, self.subclasses_num as nat)
    }

    /// Nothing loaded.
    pub fn zero() -> (zero: LoadResult)
        ensures
            zero == LoadResult::spec_zero(),
    {
        LoadResult { magic_rules_num: 0, aliases_num: 0, subclasses_num: 0 }
    }
}

impl AddSpecImpl for LoadResult {
    open spec fn obeys_add_spec() -> bool {
        true
    }

    open spec fn add_req(self, rhs: LoadResult) -> bool {
        &&& self.magic_rules_num + rhs.magic_rules_num <= usize::MAX
        &&& self.aliases_num + rhs.aliases_num <= usize::MAX
        &&& self.subclasses_num + rhs.subclasses_num <= usize::MAX
    }

    open spec fn add_spec(self, rhs: LoadResult) -> LoadResult {
        LoadResult {
            magic_rules_num: (self.magic_rules_num + rhs.magic_rules_num) as usize,
            aliases_num: (self.aliases_num + rhs.aliases_num) as usize,
            subclasses_num: (self.subclasses_num + rhs.subclasses_num) as usize,
        }
    }
}

impl core::ops::Add for LoadResult {
    type Output = LoadResult;

    /// The counts of two loads taken together.
    fn add(self, rhs: LoadResult) -> (sum: LoadResult) {
        LoadResult {
            magic_rules_num: self.magic_rules_num + rhs.magic_rules_num,
            aliases_num: self.aliases_num + rhs.aliases_num,
            subclasses_num: self.subclasses_num + rhs.subclasses_num,
        }
    }
}

/// The counts of several loads taken together, kind by kind.
pub open spec fn total(results: Seq<LoadResult>) -> (nat, nat, nat)
    decreases results.len(),
{
    if results.len() == 0 {
        (0, 0, 0)
    } else {
        let rest = total(results.drop_last());
        let last = results.last().counts();
        (rest.0 + last.0, rest.1 + last.1, rest.2 + last.2)
    }
}

/// Adds up the counts of several loads.
pub fn sum(results: &Vec<LoadResult>) -> (all: LoadResult)
    requires
        total(results@).0 <= usize::MAX,
        total(results@).1 <= usize::MAX,
        total(results@).2 <= usize::MAX,
    ensures
        all.counts() == total(results@),
{
    let n: usize = results.len();
    let mut all = LoadResult::zero();
    let mut done: usize = 0;
    while done < n
        invariant
            n == results.len(),
            done <= n,
            all.counts() == total(results@.take(done as int)),
            total(results@).0 <= usize::MAX,
            total(results@).1 <= usize::MAX,
            total(results@).2 <= usize::MAX,
        decreases n - done,
    {
        proof {
            assert(results@.take(done + 1).drop_last() =~= results@.take(done as int));
            assert(results@.take(done + 1).last() == results@[done as int]);
            lemma_total_grows(results@, done + 1);
        }
        all = all + results[done];
        done = done + 1;
    }
    assert(results@.take(n as int) =~= results@);
    all
}

/// The total of a beginning of a list does not exceed the total of the list.
proof fn lemma_total_grows(results: Seq<LoadResult>, k: int)
    requires
        0 <= k <= results.len(),
    ensures
        total(results.take(k)).0 <= total(results).0,
        total(results.take(k)).1 <= total(results).1,
        total(results.take(k)).2 <= total(results).2,
    decreases results.len() - k,
{
    if k < results.len() {
        assert(results.drop_last().take(k) =~= results.take(k));
        lemma_total_grows(results.drop_last(), k);
    } else {
        assert(results.take(k) =~= results);
    }
}

/// Takes the value out of a result. An error is kept in `err` and gives
/// `None`.
pub fn until_err<T, E>(err: &mut Result<(), E>, item: Result<T, E>) -> (value: Option<T>)
    ensures
        match item {
            Ok(v) => value == Some(v) && *final(err) == *old(err),
            Err(e) => value is None && *final(err) == Err::<(), E>(e),
        },
{
    match item {
        Ok(v) => Some(v),
        Err(e) => {
            *err = Err(e);
            None
        },
    }
}

/// Takes the value out of a result. An error is added to `errs` and gives
/// `None`.
pub fn count_errs<T, E>(errs: &mut Vec<E>, item: Result<T, E>) -> (value: Option<T>)
    ensures
        match item {
            Ok(v) => value == Some(v) && final(errs)@ == old(errs)@,
            Err(e) => value is None && final(errs)@ == old(errs)@.push(e),
        },
{
    match item {
        Ok(v) => Some(v),
        Err(e) => {
            errs.push(e);
            None
        },
    }
}

/// The number that loading one file gave, whether it ended in an error or
/// not.
pub open spec fn loaded<E>(packed: Result<usize, (usize, E)>) -> usize {
    match packed {
        Ok(n) => n,
        Err((n, _)) => n,
    }
}

/// The error in which loading one file ended, as a list of one or none.
pub open spec fn load_error<E>(packed: Result<usize, (usize, E)>) -> Seq<E> {
    match packed {
        Ok(_) => Seq::empty(),
        Err((_, e)) => seq![e],
    }
}

/// Takes the number out of what loading one file gave, and adds the error,
/// where there is one, to `errs`.
pub fn unpack<E>(errs: &mut Vec<E>, packed: Result<usize, (usize, E)>) -> (n: usize)
    ensures
        n == loaded(packed),
        final(errs)@ == old(errs)@ + load_error(packed),
{
    match packed {
        Ok(n) => {
            assert(errs@ =~= old(errs)@ + load_error(packed));
            n
        },
        Err((n, e)) => {
            errs.push(e);
            assert(errs@ =~= old(errs)@ + load_error(packed));
            n
        },
    }
}

/// What loading a directory gave, from what loading its three files gave: the
/// three numbers, and with them the errors where there were any.
pub fn dir_result<E>(
    magic: Result<usize, (usize, E)>,
    aliases: Result<usize, (usize, E)>,
    subclasses: Result<usize, (usize, E)>,
) -> (out: Result<LoadResult, (LoadResult, Vec<E>)>)
    ensures
        match out {
            Ok(counts) => (load_error(magic) + load_error(aliases) + load_error(subclasses)).len() == 0
                && counts == (LoadResult {
                magic_rules_num: loaded(magic),
                aliases_num: loaded(aliases),
                subclasses_num: loaded(subclasses),
            }),
            Err((counts, errs)) => errs@.len() > 0 && errs@ == load_error(magic) + load_error(aliases)
                + load_error(subclasses) && counts == (LoadResult {
                magic_rules_num: loaded(magic),
                aliases_num: loaded(aliases),
                subclasses_num: loaded(subclasses),
            }),
        },
{
    let mut errs: Vec<E> = Vec::new();
    let magic_rules_num = unpack(&mut errs, magic);
    let aliases_num = unpack(&mut errs, aliases);
    let subclasses_num = unpack(&mut errs, subclasses);
    let counts = LoadResult { magic_rules_num, aliases_num, subclasses_num };
    proof {
        assert(errs@ =~= load_error(magic) + load_error(aliases) + load_error(subclasses));
    }
    if errs.len() > 0 {
        Err((counts, errs))
    } else {
        Ok(counts)
    }
}


/// The numbers that loading one directory gave, whether it ended in errors or
/// not.
pub open spec fn dir_counts<E>(result: Result<LoadResult, (LoadResult, Vec<E>)>) -> LoadResult {
    match result {
        Ok(counts) => counts,
        Err((counts, _)) => counts,
    }
}

/// The errors in which loading one directory ended.
pub open spec fn dir_errors<E>(result: Result<LoadResult, (LoadResult, Vec<E>)>) -> Seq<E> {
    match result {
        Ok(_) => Seq::empty(),
        Err((_, errs)) => errs@,
    }
}

/// The numbers that loading several directories gave, directory by
/// directory.
pub open spec fn all_counts<E>(results: Seq<Result<LoadResult, (LoadResult, Vec<E>)>>) -> Seq<
    LoadResult,
> {
    Seq::new(results.len(), |i: int| dir_counts(results[i]))
}

/// The errors in which loading several directories ended, in the order of
/// the directories.
pub open spec fn all_errors<E>(results: Seq<Result<LoadResult, (LoadResult, Vec<E>)>>) -> Seq<E>
    decreases results.len(),
{
    if results.len() == 0 {
        Seq::empty()
    } else {
        dir_errors(results[0]) + all_errors(results.drop_first())
    }
}

/// What loading several directories gave, from what loading each of them
/// gave: the numbers added up, and with them all errors where there were any.
pub fn dirs_result<E>(results: Vec<Result<LoadResult, (LoadResult, Vec<E>)>>) -> (out: Result<
    LoadResult,
    (LoadResult, Vec<E>),
>)
    requires
        total(all_counts(results@)).0 <= usize::MAX,
        total(all_counts(results@)).1 <= usize::MAX,
        total(all_counts(results@)).2 <= usize::MAX,
    ensures
        match out {
            Ok(counts) => all_errors(results@).len() == 0 && counts.counts() == total(
                all_counts(results@),
            ),
            Err((counts, errs)) => errs@.len() > 0 && errs@ == all_errors(results@) && counts.counts()
                == total(all_counts(results@)),
        },
{
    let mut results = results;
    let ghost given = results@;
    let mut numbers: Vec<LoadResult> = Vec::new();
    let mut errs: Vec<E> = Vec::new();
    assert(numbers@ =~= all_counts(given).take(0));
    assert(errs@ + all_errors(results@) =~= all_errors(given));
    while results.len() > 0
        invariant
            results.len() <= given.len(),
            results@ == given.skip(given.len() - results.len()),
            numbers@ == all_counts(given).take(given.len() - results.len()),
            errs@ + all_errors(results@) == all_errors(given),
        decreases results.len(),
    {
        let ghost before = results@;
        let ghost had = errs@;
        let ghost done = given.len() - results.len();
        let result = results.remove(0);
        proof {
            assert(result == before[0]);
            assert(results@ =~= before.drop_first());
            assert(before[0] == given[done]);
            assert(results@ =~= given.skip(done + 1));
            assert(all_counts(given).take(done + 1) =~= all_counts(given).take(done).push(
                dir_counts(result),
            ));
        }
        match result {
            Ok(counts) => {
                numbers.push(counts);
                assert(errs@ + all_errors(results@) =~= had + (dir_errors(result) + all_errors(
                    results@,
                )));
            },
            Err((counts, more)) => {
                let mut more = more;
                numbers.push(counts);
                errs.append(&mut more);
                assert(errs@ + all_errors(results@) =~= had + (dir_errors(result) + all_errors(
                    results@,
                )));
            },
        }
    }
    proof {
        assert(all_counts(given).take(given.len() as int) =~= all_counts(given));
        assert(errs@ + Seq::<E>::empty() =~= errs@);
    }
    let counts = sum(&numbers);
    if errs.len() > 0 {
        Err((counts, errs))
    } else {
        Ok(counts)
    }
}


/// `std::io::Error`, declared so that it can stand in a variant.
#[verifier::external_type_specification]
#[verifier::external_body]
pub struct ExIoError(std::io::Error);

/// Why loading a file of a shared MIME database ended early.
#[derive(Debug)]
#[allow(inconsistent_fields)]
pub enum SharedMimeDbProviderError {
    /// The file could not be read to its end.
    IoError { file_path: PathBuf, source: std::io::Error },
    /// The magic file could not be parsed to its end.
    MagicRuleParseError { file_path: PathBuf, source: MagicRuleParseError },
}

/// What loading a magic file gives, from how reading it ended and what
/// parsing the bytes read gave. An error of reading comes before an error of
/// parsing; the number of rules loaded is returned either way.
pub fn magic_file_result(
    file_path: PathBuf,
    io_error: Option<std::io::Error>,
    parsed: Result<usize, (usize, MagicRuleParseError)>,
) -> (out: Result<usize, (usize, SharedMimeDbProviderError)>)
    ensures
        out == match io_error {
            Some(source) => Err::<usize, (usize, SharedMimeDbProviderError)>(
                (loaded(parsed), SharedMimeDbProviderError::IoError { file_path, source }),
            ),
            None => match parsed {
                Ok(n) => Ok(n),
                Err((n, source)) => Err(
                    (n, SharedMimeDbProviderError::MagicRuleParseError { file_path, source }),
                ),
            },
        },
{
    match io_error {
        Some(source) => {
            let n = match parsed {
                Ok(n) => n,
                Err((n, _)) => n,
            };
            Err((n, SharedMimeDbProviderError::IoError { file_path, source }))
        },
        None => match parsed {
            Ok(n) => Ok(n),
            Err((n, source)) => Err(
                (n, SharedMimeDbProviderError::MagicRuleParseError { file_path, source }),
            ),
        },
    }
}

/// Loads the bytes read from a magic file into a database: the rules they
/// hold are appended to the rules of the database, up to the first error of
/// parsing. `io_error` is the error in which reading the file ended, if it
/// did; the bytes are then those read before it.
pub fn load_magic_rules_bytes(
    db: &mut OwnedBuildableDb,
    file_path: PathBuf,
    bytes: &[u8],
    io_error: Option<std::io::Error>,
) -> (out: Result<usize, (usize, SharedMimeDbProviderError)>)
    ensures
        record_models(final(db).magic_rules()) == record_models(old(db).magic_rules()) + flat_records(
            spec_file(bytes@).entries,
        ),
        final(db).aliases() == old(db).aliases(),
        final(db).subclasses() == old(db).subclasses(),
        match out {
            Ok(n) => io_error is None && spec_file(bytes@).error is None && n == flat_records(
                spec_file(bytes@).entries,
            ).len(),
            Err((n, error)) => n == flat_records(spec_file(bytes@).entries).len() && error == (
            match io_error {
                Some(source) => SharedMimeDbProviderError::IoError { file_path, source },
                None => SharedMimeDbProviderError::MagicRuleParseError {
                    file_path,
                    source: spec_file(bytes@).error->0,
                },
            }) && (io_error is Some || spec_file(bytes@).error is Some),
        },
{
    let parsed = parse_magic_file(bytes, db.magic_rules_mut());
    magic_file_result(file_path, io_error, parsed)
}

} // verus!

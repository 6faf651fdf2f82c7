//! Checking the configuration of a run before any job starts.
use vstd::prelude::*;
use crate::indexer::{all_positive, nat_seq, total, total_combinations};
use crate::text::{all_alnum, chars_of, is_alphanumeric, occurs, occurs_in};
use crate::wordlist::{first_empty, lengths_of, wordlist_lengths, words_of, Wordlist};

verus! {

/// Why a run cannot start.
#[derive(Debug)]
pub enum ConfigError {
    /// A wordlist argument without `path:identifier` form, or with an empty
    /// identifier; holds the argument.
    MissingIdentifier(String),
    /// An identifier with a character other than an ASCII letter or digit.
    NotAlphanumeric(String),
    /// An identifier given twice, or equal to the index identifier.
    DuplicateIdentifier(String),
    /// An identifier that does not occur in the command.
    NotInCommand(String),
    /// A wordlist without values; holds its identifier.
    EmptyWordlist(String),
    /// More combinations than a `usize` can count.
    TooManyJobs,
    /// A job to show at or past the number of jobs.
    ShowOutOfRange { show: usize, total: usize },
}

/// A configuration error as mathematical values.
pub ghost enum ConfigProblem {
    MissingIdentifier(Seq<char>),
    NotAlphanumeric(Seq<char>),
    DuplicateIdentifier(Seq<char>),
    NotInCommand(Seq<char>),
    EmptyWordlist(Seq<char>),
    TooManyJobs,
    ShowOutOfRange { show: nat, total: nat },
}

impl View for ConfigError {
    type V = ConfigProblem;

    open spec fn view(&self) -> ConfigProblem {
        match self {
            ConfigError::MissingIdentifier(s) => ConfigProblem::MissingIdentifier(s@),
            ConfigError::NotAlphanumeric(s) => ConfigProblem::NotAlphanumeric(s@),
            ConfigError::DuplicateIdentifier(s) => ConfigProblem::DuplicateIdentifier(s@),
            ConfigError::NotInCommand(s) => ConfigProblem::NotInCommand(s@),
            ConfigError::EmptyWordlist(s) => ConfigProblem::EmptyWordlist(s@),
            ConfigError::TooManyJobs => ConfigProblem::TooManyJobs,
            ConfigError::ShowOutOfRange { show, total } => ConfigProblem::ShowOutOfRange {
                show: *show as nat,
                total: *total as nat,
            },
        }
    }
}

/// A wordlist argument: the file to read and the identifier it stands for.
#[derive(Debug)]
pub struct FileArg {
    pub path: String,
    pub identifier: String,
}

/// The position of the first `:` in `s` at or after `from`.
pub open spec fn find_colon(s: Seq<char>, from: int) -> Option<int>
    decreases s.len() - from,
{
    if from < 0 || from >= s.len() {
        None
    } else if s[from] == ':' {
        Some(from)
    } else {
        find_colon(s, from + 1)
    }
}

/// The outcome of reading a wordlist argument `path:identifier`, split at its
/// first colon.
pub open spec fn file_arg_spec(line: Seq<char>) -> Result<(Seq<char>, Seq<char>), ConfigProblem> {
    match find_colon(line, 0) {
        None => Err(ConfigProblem::MissingIdentifier(line)),
        Some(p) => {
            let id = line.subrange(p + 1, line.len() as int);
            if id.len() == 0 {
                Err(ConfigProblem::MissingIdentifier(line))
            } else if !all_alnum(id) {
                Err(ConfigProblem::NotAlphanumeric(id))
            } else {
                Ok((line.subrange(0, p), id))
            }
        },
    }
}

proof fn lemma_find_colon(s: Seq<char>, from: int)
    requires
        0 <= from,
    ensures
        match find_colon(s, from) {
            Some(p) => from <= p < s.len() && s[p] == ':',
            None => true,
        },
    decreases s.len() - from,
{
    if from < s.len() && s[from] != ':' {
        lemma_find_colon(s, from + 1);
    }
}

/// Reads a wordlist argument `path:identifier`, split at its first colon.
pub fn parse_file_arg(line: &str) -> (r: Result<FileArg, ConfigError>)
    ensures
        match r {
            Ok(a) => file_arg_spec(line@) == Ok::<_, ConfigProblem>((a.path@, a.identifier@)),
            Err(e) => file_arg_spec(line@) == Err::<(Seq<char>, Seq<char>), _>(e@),
        },
{
    let cs = chars_of(line);
    let mut p: usize = 0;
    while p < cs.len() && cs[p] != ':'
        invariant
            p <= cs.len(),
            cs@ == line@,
            find_colon(line@, 0) == find_colon(line@, p as int),
        decreases cs.len() - p,
    {
        p = p + 1;
    }
    if p == cs.len() {
        return Err(ConfigError::MissingIdentifier(String::from_str(line)));
    }
    let identifier = String::from_str(line.substring_char(p + 1, cs.len()));
    if identifier.as_str().unicode_len() == 0 {
        return Err(ConfigError::MissingIdentifier(String::from_str(line)));
    }
    if !is_alphanumeric(identifier.as_str()) {
        return Err(ConfigError::NotAlphanumeric(identifier));
    }
    let path = String::from_str(line.substring_char(0, p));
    Ok(FileArg { path, identifier })
}

/// Identifier `k` repeats an earlier one, or equals the index identifier.
pub open spec fn is_duplicate(index: Seq<char>, ids: Seq<Seq<char>>, k: int) -> bool {
    (index.len() > 0 && ids[k] == index) || exists|m: int| 0 <= m < k && ids[m] == ids[k]
}

/// The first problem among the identifiers from position `k` on, each checked
/// for being a duplicate, then for occurring in the command.
pub open spec fn ids_problem(cmd: Seq<char>, index: Seq<char>, ids: Seq<Seq<char>>, k: int) -> Option<
    ConfigProblem,
>
    decreases ids.len() - k,
{
    if k < 0 || k >= ids.len() {
        None
    } else if is_duplicate(index, ids, k) {
        Some(ConfigProblem::DuplicateIdentifier(ids[k]))
    } else if !occurs_in(ids[k], cmd) {
        Some(ConfigProblem::NotInCommand(ids[k]))
    } else {
        ids_problem(cmd, index, ids, k + 1)
    }
}

/// The first problem with the identifiers of a run: the index identifier
/// (empty when none is configured) must occur in the command, then each
/// wordlist identifier in order must be new and occur in the command.
pub open spec fn identifiers_problem(cmd: Seq<char>, index: Seq<char>, ids: Seq<Seq<char>>) -> Option<
    ConfigProblem,
> {
    if index.len() > 0 && !occurs_in(index, cmd) {
        Some(ConfigProblem::NotInCommand(index))
    } else {
        ids_problem(cmd, index, ids, 0)
    }
}

/// The identifiers of a run are valid: each occurs in the command, they are
/// pairwise distinct, and none equals the index identifier, which occurs in
/// the command too where one is configured.
pub open spec fn identifiers_valid(cmd: Seq<char>, index: Seq<char>, ids: Seq<Seq<char>>) -> bool {
    &&& index.len() > 0 ==> occurs_in(index, cmd)
    &&& forall|k: int| 0 <= k < ids.len() ==> occurs_in(#[trigger] ids[k], cmd)
    &&& forall|k: int| 0 <= k < ids.len() ==> !(index.len() > 0 && #[trigger] ids[k] == index)
    &&& forall|k: int, m: int| 0 <= m < k < ids.len() ==> #[trigger] ids[m] != #[trigger] ids[k]
}

proof fn lemma_ids_problem_none(
    cmd: Seq<char>,
    index: Seq<char>,
    ids: Seq<Seq<char>>,
    k: int,
    j: int,
)
    requires
        0 <= k <= j < ids.len(),
        ids_problem(cmd, index, ids, k) is None,
    ensures
        !is_duplicate(index, ids, j) && occurs_in(ids[j], cmd),
    decreases j - k,
{
    if k < j {
        lemma_ids_problem_none(cmd, index, ids, k + 1, j);
    }
}

proof fn lemma_ids_problem_valid(cmd: Seq<char>, index: Seq<char>, ids: Seq<Seq<char>>, k: int)
    requires
        0 <= k <= ids.len(),
        forall|j: int|
            #![trigger is_duplicate(index, ids, j)]
            k <= j < ids.len() ==> !is_duplicate(index, ids, j) && occurs_in(ids[j], cmd),
    ensures
        ids_problem(cmd, index, ids, k) is None,
    decreases ids.len() - k,
{
    if k < ids.len() {
        assert(!is_duplicate(index, ids, k));
        lemma_ids_problem_valid(cmd, index, ids, k + 1);
    }
}

/// The ordered check finds no problem exactly when the identifiers are valid.
pub proof fn lemma_identifiers_check(cmd: Seq<char>, index: Seq<char>, ids: Seq<Seq<char>>)
    ensures
        identifiers_problem(cmd, index, ids) is None <==> identifiers_valid(cmd, index, ids),
{
    if identifiers_valid(cmd, index, ids) {
        assert forall|j: int| #![trigger is_duplicate(index, ids, j)]
            0 <= j < ids.len() implies !is_duplicate(index, ids, j) && occurs_in(
            ids[j],
            cmd,
        ) by {
            if exists|m: int| 0 <= m < j && ids[m] == ids[j] {
                let m = choose|m: int| 0 <= m < j && ids[m] == ids[j];
                assert(ids[m] != ids[j]);
            }
        }
        lemma_ids_problem_valid(cmd, index, ids, 0);
    }
    if identifiers_problem(cmd, index, ids) is None {
        assert forall|k: int, m: int| 0 <= m < k < ids.len() implies #[trigger] ids[m]
            != #[trigger] ids[k] by {
            lemma_ids_problem_none(cmd, index, ids, 0, k);
        }
        assert forall|k: int| 0 <= k < ids.len() implies occurs_in(#[trigger] ids[k], cmd) by {
            lemma_ids_problem_none(cmd, index, ids, 0, k);
        }
        assert forall|k: int| 0 <= k < ids.len() implies !(index.len() > 0 && #[trigger] ids[k]
            == index) by {
            lemma_ids_problem_none(cmd, index, ids, 0, k);
        }
    }
}

/// Checks the identifiers of a run against the command: the index
/// identifier (empty when none is configured) first, then each wordlist
/// identifier in order.
pub fn check_identifiers(command: &str, index: &str, identifiers: &Vec<String>) -> (r: Result<
    (),
    ConfigError,
>)
    ensures
        match r {
            Ok(()) => identifiers_problem(
                command@,
                index@,
                identifiers@.map_values(|s: String| s@),
            ) is None,
            Err(e) => identifiers_problem(
                command@,
                index@,
                identifiers@.map_values(|s: String| s@),
            ) == Some(e@),
        },
{
    let ghost ids = identifiers@.map_values(|s: String| s@);
    let cmd = chars_of(command);
    let idx = chars_of(index);
    if idx.len() > 0 && !occurs(&idx, &cmd) {
        return Err(ConfigError::NotInCommand(String::from_str(index)));
    }
    let mut k: usize = 0;
    while k < identifiers.len()
        invariant
            k <= identifiers.len(),
            ids == identifiers@.map_values(|s: String| s@),
            cmd@ == command@,
            idx@ == index@,
            identifiers_problem(command@, index@, ids) == ids_problem(
                command@,
                index@,
                ids,
                k as int,
            ),
        decreases identifiers.len() - k,
    {
        let id: &String = &identifiers[k];
        assert(ids[k as int] == id@);
        let mut dup = idx.len() > 0 && id.eq(&String::from_str(index));
        let mut m: usize = 0;
        while m < k && !dup
            invariant
                m <= k < identifiers.len(),
                ids == identifiers@.map_values(|s: String| s@),
                id@ == ids[k as int],
                dup ==> is_duplicate(index@, ids, k as int),
                !dup ==> !(index@.len() > 0 && ids[k as int] == index@),
                !dup ==> forall|j: int| 0 <= j < m ==> ids[j] != ids[k as int],
            decreases k - m,
        {
            assert(ids[m as int] == identifiers@[m as int]@);
            if identifiers[m].eq(id) {
                dup = true;
            }
            m = m + 1;
        }
        if dup {
            return Err(ConfigError::DuplicateIdentifier(id.clone()));
        }
        let id_chars = chars_of(id.as_str());
        if !occurs(&id_chars, &cmd) {
            return Err(ConfigError::NotInCommand(id.clone()));
        }
        k = k + 1;
    }
    Ok(())
}

/// The combination space of the wordlists: the length of each and the number
/// of jobs, the product of the lengths. A run without wordlists has exactly
/// one job. Fails on the first wordlist without values, or where the number of
/// jobs does not fit in a `usize`.
pub fn combination_space(wordlists: &Vec<Wordlist>) -> (r: Result<(Vec<usize>, usize), ConfigError>)
    ensures
        match r {
            Ok((lens, n)) => {
                &&& nat_seq(lens@) == lengths_of(words_of(wordlists@))
                &&& all_positive(nat_seq(lens@))
                &&& n as nat == total(nat_seq(lens@))
            },
            Err(e) => match e@ {
                ConfigProblem::EmptyWordlist(id) => exists|k: int|
                    0 <= k < wordlists@.len() && wordlists@[k].values@.len() == 0
                        && wordlists@[k].identifier@ == id && forall|m: int|
                        0 <= m < k ==> wordlists@[m].values@.len() > 0,
                ConfigProblem::TooManyJobs => all_positive(lengths_of(words_of(wordlists@)))
                    && total(lengths_of(words_of(wordlists@))) > usize::MAX,
                _ => false,
            },
        },
{
    match first_empty(wordlists) {
        Some(k) => {
            return Err(ConfigError::EmptyWordlist(wordlists[k].identifier.clone()));
        },
        None => {},
    }
    let lens = wordlist_lengths(wordlists);
    match total_combinations(&lens) {
        Some(n) => Ok((lens, n)),
        None => Err(ConfigError::TooManyJobs),
    }
}

/// Checks that job `show` exists among `total` jobs.
pub fn check_show(show: usize, total: usize) -> (r: Result<(), ConfigError>)
    ensures
        r is Ok <==> show < total,
        match r {
            Ok(()) => true,
            Err(e) => e@ == (ConfigProblem::ShowOutOfRange { show: show as nat, total: total as nat }),
        },
{
    if show >= total {
        Err(ConfigError::ShowOutOfRange { show, total })
    } else {
        Ok(())
    }
}

} // verus!

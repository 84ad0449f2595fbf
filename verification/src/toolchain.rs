//! The identities of toolchains: what `rustc -vV` prints, hashed the way the
//! build tool hashes it in a unit's record.
//!
//! The caller runs `rustup toolchain list` and `rustc` and hands in what they
//! printed.

use vstd::prelude::*;
use vstd::string::{StrSliceExecFns, StringExecFns};
use std::collections::HashSet;
use std::hash::{Hash, Hasher, SipHasher};
use rustc_stable_hash::StableSipHasher128;
use crate::text::{has_prefix, run_end, run_len, texts, Run};

verus! {

broadcast use vstd::std_specs::hash::group_hash_axioms;

/// `c` is one of `0-9`.
pub open spec fn is_digit(c: char) -> bool {
    '0' <= c && c <= '9'
}

/// The number of dots in `s`.
pub open spec fn dots(s: Seq<char>) -> nat
    decreases s.len(),
{
    if s.len() == 0 {
        0
    } else {
        dots(s.drop_last()) + if s.last() == '.' {
            1nat
        } else {
            0nat
        }
    }
}

/// `s` is a version number of two or three parts: digits and dots only, one
/// or two dots, and at least one digit before and after each dot.
pub open spec fn is_version(s: Seq<char>) -> bool {
    &&& s.len() > 0
    &&& forall|i: int| 0 <= i < s.len() ==> is_digit(#[trigger] s[i]) || s[i] == '.'
    &&& s[0] != '.'
    &&& s[s.len() - 1] != '.'
    &&& forall|i: int| 0 < i < s.len() ==> !(#[trigger] s[i] == '.' && s[i - 1] == '.')
    &&& 1 <= dots(s) <= 2
}

/// `toolchain` is `channel`, or `channel` followed by a dash and more.
pub open spec fn on_channel(toolchain: Seq<char>, channel: Seq<char>) -> bool {
    channel.is_prefix_of(toolchain) && (toolchain.len() == channel.len()
        || toolchain[channel.len() as int] == '-')
}

/// `toolchain` names a release channel.
pub open spec fn is_named_channel(toolchain: Seq<char>) -> bool {
    on_channel(toolchain, "stable"@) || on_channel(toolchain, "beta"@) || on_channel(
        toolchain,
        "nightly"@,
    )
}

/// The part of `toolchain` before its first dash.
pub open spec fn first_segment(toolchain: Seq<char>) -> Seq<char> {
    toolchain.take(run_len(toolchain, Run::Segment))
}

/// `toolchain` is a custom toolchain: not empty, not named after a release
/// channel, and not a version number of two or three parts.
pub open spec fn is_custom(toolchain: Seq<char>) -> bool {
    toolchain.len() > 0 && !is_named_channel(toolchain) && !is_version(first_segment(toolchain))
}

/// The names that a listing of installed toolchains holds: of each line the
/// first word.
pub open spec fn listed(text: Seq<char>) -> Seq<Seq<char>>
    decreases text.len(),
{
    let start = run_len(text, Run::Blank);
    let word = run_len(text.skip(start), Run::Word);
    let line = run_len(text, Run::Line);
    let here = if word > 0 {
        seq![text.subrange(start, start + word)]
    } else {
        Seq::empty()
    };
    if 0 <= line < text.len() {
        here + listed(text.skip(line + 1))
    } else {
        here
    }
}

fn is_on_channel(toolchain: &str, channel: &str) -> (r: bool)
    ensures
        r == on_channel(toolchain@, channel@),
{
    if !has_prefix(toolchain, channel) {
        return false;
    }
    let n = channel.unicode_len();
    toolchain.unicode_len() == n || toolchain.get_char(n) == '-'
}

fn is_version_number(s: &str) -> (r: bool)
    ensures
        r == is_version(s@),
{
    let len = s.unicode_len();
    if len == 0 {
        return false;
    }
    let mut count: usize = 0;
    let mut after_dot = true;
    let mut i: usize = 0;
    proof {
        assert(s@.take(0) =~= Seq::<char>::empty());
    }
    while i < len
        invariant
            i <= len,
            len == s@.len(),
            count == dots(s@.take(i as int)),
            count <= 2,
            after_dot == (i == 0 || s@[i - 1] == '.'),
            forall|k: int| 0 <= k < i ==> is_digit(#[trigger] s@[k]) || s@[k] == '.',
            i > 0 ==> s@[0] != '.',
            forall|k: int| 0 < k < i ==> !(#[trigger] s@[k] == '.' && s@[k - 1] == '.'),
        decreases len - i,
    {
        let c = s.get_char(i);
        proof {
            assert(s@.take(i + 1).drop_last() =~= s@.take(i as int));
            assert(s@.take(i + 1).last() == c);
        }
        if c == '.' {
            if after_dot {
                return false;
            }
            if count == 2 {
                proof {
                    lemma_dots_take(s@, i + 1);
                }
                return false;
            }
            count += 1;
            after_dot = true;
        } else if c >= '0' && c <= '9' {
            after_dot = false;
        } else {
            return false;
        }
        i += 1;
    }
    proof {
        assert(s@.take(i as int) =~= s@);
    }
    !after_dot && count >= 1
}

/// A part of a text has no more dots than the text.
pub proof fn lemma_dots_take(s: Seq<char>, k: int)
    requires
        0 <= k <= s.len(),
    ensures
        dots(s.take(k)) <= dots(s),
    decreases s.len() - k,
{
    if k < s.len() {
        lemma_dots_take(s, k + 1);
        assert(s.take(k + 1).drop_last() =~= s.take(k));
    } else {
        assert(s.take(k) =~= s);
    }
}

/// Whether a toolchain is a custom one: one that is named neither after a
/// release channel (`stable`, `beta`, `nightly`, alone or followed by a dash
/// and more) nor by a version number of two or three parts (`1.60`,
/// `1.60.0`, alone or followed by a dash and more). The empty name is not
/// custom.
pub fn is_custom_toolchain(toolchain: &str) -> (custom: bool)
    ensures
        custom == is_custom(toolchain@),
{
    if toolchain.unicode_len() == 0 {
        return false;
    }
    if is_on_channel(toolchain, "stable") || is_on_channel(toolchain, "beta") || is_on_channel(
        toolchain,
        "nightly",
    ) {
        return false;
    }
    proof {
        assert(toolchain@.skip(0) =~= toolchain@);
    }
    let end = run_end(toolchain, 0, Run::Segment);
    proof {
        assert(toolchain@.subrange(0, end as int) =~= first_segment(toolchain@));
    }
    !is_version_number(toolchain.substring_char(0, end))
}

/// The names in what `rustup toolchain list` printed: of each line the first
/// word. `None` where the listing could not be had.
pub fn rustup_toolchain_list(listing: Option<&str>) -> (list: Option<Vec<String>>)
    ensures
        match (listing, list) {
            (Some(text), Some(names)) => texts(names@) == listed(text@),
            (None, None) => true,
            _ => false,
        },
{
    let text = match listing {
        Some(text) => text,
        None => { return None; },
    };
    let len = text.unicode_len();
    let mut names: Vec<String> = Vec::new();
    let mut at: usize = 0;
    proof {
        assert(text@.skip(0) =~= text@);
        assert(texts(names@) + listed(text@) =~= listed(text@));
    }
    loop
        invariant_except_break
            len == text@.len(),
            at <= len,
            listed(text@) == texts(names@) + listed(text@.skip(at as int)),
        ensures
            texts(names@) == listed(text@),
        decreases len - at,
    {
        let ghost rest = text@.skip(at as int);
        let ghost before = texts(names@);
        let start = run_end(text, at, Run::Blank);
        let word_end = run_end(text, start, Run::Word);
        let line_end = run_end(text, at, Run::Line);
        proof {
            assert(rest.skip(start - at) =~= text@.skip(start as int));
            assert(rest.subrange(start - at, word_end - at) =~= text@.subrange(
                start as int,
                word_end as int,
            ));
            if line_end < len {
                assert(rest.skip(line_end - at + 1) =~= text@.skip(line_end + 1));
            }
        }
        if word_end > start {
            let name = String::from_str(text.substring_char(start, word_end));
            names.push(name);
            proof {
                assert(texts(names@) =~= before + seq![name@]);
            }
        } else {
            proof {
                assert(before + Seq::<Seq<char>>::empty() =~= before);
            }
        }
        if line_end >= len {
            break;
        }
        proof {
            let here = texts(names@);
            let tail = listed(text@.skip(line_end + 1));
            if word_end > start {
                assert(before + (seq![text@.subrange(start as int, word_end as int)] + tail)
                    =~= here + tail);
            }
        }
        at = line_end + 1;
    }
    Some(names)
}

/// What one run of `rustc -vV` printed.
#[derive(Clone, Debug)]
pub struct RustcOutput {
    /// Whether `rustc` ended with success.
    pub success: bool,
    /// What it wrote to standard output.
    pub stdout: String,
    /// What it wrote to standard error.
    pub stderr: String,
}

/// One query of a toolchain.
#[derive(Clone, Debug)]
pub struct RustcRun {
    /// The toolchain asked for; `None` for the default one.
    pub toolchain: Option<String>,
    /// What `rustc` printed; `None` where it could not be run.
    pub output: Option<RustcOutput>,
}

/// Why the identities of the toolchains could not be had.
#[derive(Clone, Debug)]
pub enum ToolchainError {
    /// `rustc` could not be run.
    NotRun,
    /// `rustc` failed for a toolchain that is not a custom one.
    Failed {
        /// The toolchain, empty for the default one.
        toolchain: String,
        /// What `rustc` wrote to standard output or, where that is empty, to
        /// standard error.
        message: String,
    },
    /// Toolchains were asked for by name, but the installed ones could not
    /// be listed.
    NoListing,
    /// A toolchain that was asked for is not among the installed ones.
    NotInstalled {
        /// The toolchain.
        toolchain: String,
        /// The installed toolchains.
        available: Vec<String>,
    },
}

/// A `ToolchainError`, in specifications.
pub enum ToolchainFailure {
    NotRun,
    Failed { toolchain: Seq<char>, message: Seq<char> },
    NoListing,
    NotInstalled { toolchain: Seq<char>, available: Seq<Seq<char>> },
}

impl View for ToolchainError {
    type V = ToolchainFailure;

    open spec fn view(&self) -> ToolchainFailure {
        match self {
            ToolchainError::NotRun => ToolchainFailure::NotRun,
            ToolchainError::Failed { toolchain, message } => ToolchainFailure::Failed {
                toolchain: toolchain@,
                message: message@,
            },
            ToolchainError::NoListing => ToolchainFailure::NoListing,
            ToolchainError::NotInstalled { toolchain, available } => ToolchainFailure::NotInstalled {
                toolchain: toolchain@,
                available: texts(available@),
            },
        }
    }
}

/// The identity of the toolchain that prints `version` for `rustc -vV`, as
/// the build tool computes it now.
pub uninterp spec fn stable_hash(version: Seq<char>) -> u64;

/// The identity of the toolchain that prints `version` for `rustc -vV`, as
/// the build tool computed it before Rust 1.85.
pub uninterp spec fn legacy_hash(version: Seq<char>) -> u64;

/// Hashes `version` with `rustc_stable_hash::StableSipHasher128`: the text is
/// fed to a new hasher through `Hash::hash`, and `Hasher::finish` gives the
/// result. The result depends on the text alone.
#[verifier::external_body]
pub(crate) fn hash_u64(version: &str) -> (hash: u64)
    ensures
        hash == stable_hash(version@),
{
    let mut hasher = StableSipHasher128::new();
    version.hash(&mut hasher);
    Hasher::finish(&hasher)
}

/// Hashes `version` with `std::hash::SipHasher` under the keys 0 and 0: the
/// text is fed to the hasher through `Hash::hash`, and `Hasher::finish` gives
/// the result. The result depends on the text alone.
#[allow(deprecated)]
#[verifier::external_body]
pub(crate) fn hash_u64_old(version: &str) -> (hash: u64)
    ensures
        hash == legacy_hash(version@),
{
    let mut hasher = SipHasher::new_with_keys(0, 0);
    version.hash(&mut hasher);
    hasher.finish()
}

impl RustcRun {
    /// The name of the toolchain asked for, empty for the default one.
    pub open spec fn spec_name(&self) -> Seq<char> {
        match self.toolchain {
            Some(toolchain) => toolchain@,
            None => Seq::empty(),
        }
    }

    /// Why this run ends the lookup, if it does: `rustc` could not be run, or
    /// it failed for a toolchain that is not a custom one.
    pub open spec fn spec_failure(&self) -> Option<ToolchainFailure> {
        match self.output {
            None => Some(ToolchainFailure::NotRun),
            Some(output) => if output.success || is_custom(self.spec_name()) {
                None
            } else {
                Some(
                    ToolchainFailure::Failed {
                        toolchain: self.spec_name(),
                        message: if output.stdout@.len() == 0 {
                            output.stderr@
                        } else {
                            output.stdout@
                        },
                    },
                )
            },
        }
    }

    /// The identities that this run gives: both hashes of what `rustc`
    /// printed, where it ended with success.
    pub open spec fn spec_identities(&self) -> Set<u64> {
        match self.output {
            Some(output) => if output.success {
                set![stable_hash(output.stdout@), legacy_hash(output.stdout@)]
            } else {
                Set::empty()
            },
            None => Set::empty(),
        }
    }
}

/// The identities that `runs` give, and 0.
pub open spec fn identities(runs: Seq<RustcRun>) -> Set<u64>
    decreases runs.len(),
{
    if runs.len() == 0 {
        set![0u64]
    } else {
        identities(runs.drop_last()) + runs.last().spec_identities()
    }
}

/// Why the first of `runs` that ends the lookup does so.
pub open spec fn first_failure(runs: Seq<RustcRun>) -> Option<ToolchainFailure>
    decreases runs.len(),
{
    if runs.len() == 0 {
        None
    } else if runs[0].spec_failure() is Some {
        runs[0].spec_failure()
    } else {
        first_failure(runs.drop_first())
    }
}

/// What a lookup over `runs` gives.
pub open spec fn looked_up(runs: Seq<RustcRun>) -> Result<Set<u64>, ToolchainFailure> {
    match first_failure(runs) {
        Some(failure) => Err(failure),
        None => Ok(identities(runs)),
    }
}

/// The first of `versions` that is not among `installed`.
pub open spec fn missing(versions: Seq<Seq<char>>, installed: Seq<Seq<char>>) -> Option<
    Seq<char>,
>
    decreases versions.len(),
{
    if versions.len() == 0 {
        None
    } else if !installed.contains(versions[0]) {
        Some(versions[0])
    } else {
        missing(versions.drop_first(), installed)
    }
}

/// Why the toolchains asked for cannot be looked up, if they cannot.
pub open spec fn refused(
    rust_versions: Option<Seq<Seq<char>>>,
    detected: Option<Seq<Seq<char>>>,
) -> Option<ToolchainFailure> {
    match (rust_versions, detected) {
        (Some(versions), Some(installed)) => match missing(versions, installed) {
            Some(toolchain) => Some(
                ToolchainFailure::NotInstalled { toolchain, available: installed },
            ),
            None => None,
        },
        (Some(_), None) => Some(ToolchainFailure::NoListing),
        (None, _) => None,
    }
}

/// The toolchains to query: those asked for; where none is asked for, the
/// installed ones; where those cannot be listed, the default one.
pub open spec fn queried(
    rust_versions: Option<Seq<Seq<char>>>,
    detected: Option<Seq<Seq<char>>>,
) -> Seq<Option<Seq<char>>> {
    match (rust_versions, detected) {
        (Some(versions), _) => versions.map_values(|name: Seq<char>| Some(name)),
        (None, Some(installed)) => installed.map_values(|name: Seq<char>| Some(name)),
        (None, None) => seq![None],
    }
}

/// What `hash_toolchains` gives.
pub open spec fn hashed(
    rust_versions: Option<Seq<Seq<char>>>,
    detected: Option<Seq<Seq<char>>>,
    runs: Seq<RustcRun>,
) -> Result<Set<u64>, ToolchainFailure> {
    match refused(rust_versions, detected) {
        Some(failure) => Err(failure),
        None => looked_up(runs),
    }
}

/// The texts of `names`, where there are any.
pub open spec fn some_texts(names: Option<&Vec<String>>) -> Option<Seq<Seq<char>>> {
    match names {
        Some(names) => Some(texts(names@)),
        None => None,
    }
}

/// An outcome, in specifications.
pub open spec fn outcome(result: Result<HashSet<u64>, ToolchainError>) -> Result<
    Set<u64>,
    ToolchainFailure,
> {
    match result {
        Ok(set) => Ok(set@),
        Err(error) => Err(error@),
    }
}

/// 0 is among the identities of any runs.
pub proof fn lemma_identities_hold_zero(runs: Seq<RustcRun>)
    ensures
        identities(runs).contains(0),
    decreases runs.len(),
{
    if runs.len() > 0 {
        lemma_identities_hold_zero(runs.drop_last());
    }
}

/// The identities that a run gives, `hashes` being the two hashes of what
/// `rustc` printed: both where the run ended with success, else none.
pub open spec fn identities_with(run: RustcRun, hashes: (u64, u64)) -> Set<u64> {
    match run.output {
        Some(output) => if output.success {
            set![hashes.0, hashes.1]
        } else {
            Set::empty()
        },
        None => Set::empty(),
    }
}

/// Takes one run into the identities, `hashes` being the two hashes of what
/// `rustc` printed. A run that ended with success gives both hashes. A run
/// that failed gives nothing where the toolchain is a custom one, and is an
/// error where it is not or where `rustc` could not be run.
pub fn take_run(toolchain_set: &mut HashSet<u64>, run: &RustcRun, hashes: (u64, u64)) -> (result:
    Result<(), ToolchainError>)
    ensures
        match result {
            Ok(_) => run.spec_failure() is None && final(toolchain_set)@ == old(toolchain_set)@
                + identities_with(*run, hashes),
            Err(error) => run.spec_failure() == Some(error@) && final(toolchain_set)@ == old(
                toolchain_set,
            )@,
        },
{
    match &run.output {
        None => Err(ToolchainError::NotRun),
        Some(output) => {
            if output.success {
                toolchain_set.insert(hashes.0);
                toolchain_set.insert(hashes.1);
                proof {
                    assert(toolchain_set@ =~= old(toolchain_set)@ + identities_with(*run, hashes));
                }
                Ok(())
            } else {
                let toolchain = match &run.toolchain {
                    Some(toolchain) => toolchain.as_str(),
                    None => "",
                };
                proof {
                    reveal_strlit("");
                    assert(toolchain@ =~= run.spec_name());
                    assert(toolchain_set@ + identities_with(*run, hashes) =~= toolchain_set@);
                }
                if is_custom_toolchain(toolchain) {
                    Ok(())
                } else {
                    let message = if output.stdout.as_str().unicode_len() == 0 {
                        output.stderr.clone()
                    } else {
                        output.stdout.clone()
                    };
                    Err(ToolchainError::Failed { toolchain: String::from_str(toolchain), message })
                }
            }
        },
    }
}

/// The identities before any toolchain is looked up: 0 alone.
pub fn no_toolchains() -> (toolchain_set: HashSet<u64>)
    ensures
        toolchain_set@ == identities(Seq::empty()),
{
    let mut toolchain_set: HashSet<u64> = HashSet::new();
    toolchain_set.insert(0);
    proof {
        assert(toolchain_set@ =~= set![0u64]);
    }
    toolchain_set
}

/// Takes one run into the identities: hashes what `rustc` printed, both
/// ways, where the run ended with success. A run that failed gives nothing
/// where the toolchain is a custom one, and is an error where it is not or
/// where `rustc` could not be run.
pub fn lookup_run(toolchain_set: &mut HashSet<u64>, run: &RustcRun) -> (result: Result<
    (),
    ToolchainError,
>)
    ensures
        match result {
            Ok(_) => run.spec_failure() is None && final(toolchain_set)@ == old(toolchain_set)@
                + run.spec_identities(),
            Err(error) => run.spec_failure() == Some(error@) && final(toolchain_set)@ == old(
                toolchain_set,
            )@,
        },
{
    let hashes = match &run.output {
        Some(output) => if output.success {
            (hash_u64(output.stdout.as_str()), hash_u64_old(output.stdout.as_str()))
        } else {
            (0, 0)
        },
        None => (0, 0),
    };
    take_run(toolchain_set, run, hashes)
}

/// The identities of the toolchains that were queried. Each run that ended
/// with success gives two, the hash of what `rustc` printed as it is computed
/// now and as it was computed before; 0 is always among them. A run that
/// failed is passed over where the toolchain is a custom one and ends the
/// lookup where it is not.
pub fn lookup_from_names(runs: &Vec<RustcRun>) -> (result: Result<HashSet<u64>, ToolchainError>)
    ensures
        outcome(result) == looked_up(runs@),
        result is Ok ==> result->Ok_0@.contains(0),
{
    let mut toolchain_set = no_toolchains();
    let mut i: usize = 0;
    proof {
        assert(runs@.skip(0) =~= runs@);
        assert(runs@.take(0) =~= Seq::<RustcRun>::empty());
    }
    while i < runs.len()
        invariant
            i <= runs.len(),
            first_failure(runs@) == first_failure(runs@.skip(i as int)),
            toolchain_set@ == identities(runs@.take(i as int)),
        decreases runs.len() - i,
    {
        let run = &runs[i];
        proof {
            assert(runs@.skip(i as int)[0] == runs@[i as int]);
            assert(runs@.skip(i as int).drop_first() =~= runs@.skip(i + 1));
            assert(runs@.take(i + 1).drop_last() =~= runs@.take(i as int));
            assert(runs@.take(i + 1).last() == runs@[i as int]);
        }
        match lookup_run(&mut toolchain_set, run) {
            Ok(_) => {},
            Err(error) => {
                return Err(error);
            },
        }
        i += 1;
    }
    proof {
        assert(runs@.take(i as int) =~= runs@);
        lemma_identities_hold_zero(runs@);
    }
    Ok(toolchain_set)
}

/// Whether `name` is among `names`.
pub fn contains_name(names: &Vec<String>, name: &String) -> (found: bool)
    ensures
        found == texts(names@).contains(name@),
{
    let mut i: usize = 0;
    while i < names.len()
        invariant
            i <= names.len(),
            forall|k: int| 0 <= k < i ==> texts(names@)[k] != name@,
        decreases names.len() - i,
    {
        if names[i] == *name {
            proof {
                assert(texts(names@)[i as int] == name@);
            }
            return true;
        }
        i += 1;
    }
    false
}

/// A copy of `names`.
pub fn copy_names(names: &Vec<String>) -> (copy: Vec<String>)
    ensures
        texts(copy@) == texts(names@),
{
    let mut copy: Vec<String> = Vec::new();
    let mut i: usize = 0;
    while i < names.len()
        invariant
            i <= names.len(),
            texts(copy@) == texts(names@).take(i as int),
        decreases names.len() - i,
    {
        let ghost before = texts(copy@);
        let name = names[i].clone();
        copy.push(name);
        proof {
            assert(texts(copy@) =~= before.push(name@));
            assert(texts(names@).take(i + 1) =~= texts(names@).take(i as int).push(name@));
        }
        i += 1;
    }
    proof {
        assert(texts(names@).take(i as int) =~= texts(names@));
    }
    copy
}

/// Tells whether the toolchains asked for can be looked up: where names are
/// given, the installed toolchains must have been listed, and each name must
/// be among them.
pub fn check_toolchains(rust_versions: Option<&Vec<String>>, detected: Option<&Vec<String>>) -> (result:
    Result<(), ToolchainError>)
    ensures
        match result {
            Ok(_) => refused(some_texts(rust_versions), some_texts(detected)) is None,
            Err(error) => refused(some_texts(rust_versions), some_texts(detected)) == Some(
                error@,
            ),
        },
{
    let versions = match rust_versions {
        Some(versions) => versions,
        None => { return Ok(()); },
    };
    let installed = match detected {
        Some(installed) => installed,
        None => { return Err(ToolchainError::NoListing); },
    };
    let ghost wanted = texts(versions@);
    let mut i: usize = 0;
    proof {
        assert(wanted.skip(0) =~= wanted);
    }
    while i < versions.len()
        invariant
            i <= versions.len(),
            rust_versions == Some(versions),
            detected == Some(installed),
            wanted == texts(versions@),
            missing(wanted, texts(installed@)) == missing(
                wanted.skip(i as int),
                texts(installed@),
            ),
        decreases versions.len() - i,
    {
        proof {
            assert(wanted.skip(i as int)[0] == versions@[i as int]@);
            assert(wanted.skip(i as int).drop_first() =~= wanted.skip(i + 1));
        }
        if !contains_name(installed, &versions[i]) {
            let toolchain = versions[i].clone();
            let available = copy_names(installed);
            let error = ToolchainError::NotInstalled { toolchain, available };
            return Err(error);
        }
        i += 1;
    }
    Ok(())
}

/// The toolchains to query with `rustc -vV`: those asked for; where none is
/// asked for, the installed ones; where those could not be listed, the
/// default one alone.
pub fn toolchains_to_query(rust_versions: Option<&Vec<String>>, detected: Option<&Vec<String>>) -> (names:
    Vec<Option<String>>)
    ensures
        names@.map_values(
            |name: Option<String>|
                match name {
                    Some(name) => Some(name@),
                    None => None,
                },
        ) == queried(some_texts(rust_versions), some_texts(detected)),
{
    let ghost view = |name: Option<String>|
        match name {
            Some(name) => Some(name@),
            None => None,
        };
    let list = match (rust_versions, detected) {
        (Some(versions), _) => versions,
        (None, Some(installed)) => installed,
        (None, None) => {
            let mut names: Vec<Option<String>> = Vec::new();
            names.push(None);
            proof {
                assert(names@.map_values(view) =~= seq![None::<Seq<char>>]);
            }
            return names;
        },
    };
    let mut names: Vec<Option<String>> = Vec::new();
    let mut i: usize = 0;
    let ghost some = |name: Seq<char>| Some(name);
    while i < list.len()
        invariant
            i <= list.len(),
            view == (|name: Option<String>|
                match name {
                    Some(name) => Some(name@),
                    None => None,
                }),
            some == (|name: Seq<char>| Some(name)),
            names@.map_values(view) == texts(list@).map_values(some).take(i as int),
        decreases list.len() - i,
    {
        let ghost before = names@.map_values(view);
        let name = Some(list[i].clone());
        names.push(name);
        proof {
            assert(names@.map_values(view) =~= before.push(view(name)));
            assert(texts(list@).map_values(some).take(i + 1) =~= texts(list@).map_values(
                some,
            ).take(i as int).push(Some(list@[i as int]@)));
        }
        i += 1;
    }
    proof {
        assert(texts(list@).map_values(some).take(i as int) =~= texts(list@).map_values(some));
    }
    names
}

/// The identities of the toolchains whose artifacts are to be kept.
///
/// `rust_versions` names the toolchains asked for, `detected` the installed
/// ones where they could be listed, and `runs` holds what `rustc -vV`
/// printed for each of the toolchains to query.
pub fn hash_toolchains(
    rust_versions: Option<&Vec<String>>,
    detected: Option<&Vec<String>>,
    runs: &Vec<RustcRun>,
) -> (result: Result<HashSet<u64>, ToolchainError>)
    ensures
        outcome(result) == hashed(some_texts(rust_versions), some_texts(detected), runs@),
        result is Ok ==> result->Ok_0@.contains(0),
{
    match check_toolchains(rust_versions, detected) {
        Err(error) => Err(error),
        Ok(_) => lookup_from_names(runs),
    }
}

} // verus!

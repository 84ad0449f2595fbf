//! What the command line asks for, once its arguments are parsed: the one
//! criterion by which artifacts are chosen.

use vstd::prelude::*;
use vstd::string::StrSliceExecFns;
use crate::text::{char_is_whitespace, is_whitespace, run_end, run_len, texts, Run};
use crate::toolchain::{copy_names, is_digit};

verus! {

/// The number of bytes in a megabyte, the unit of a size given as a bare
/// number.
pub const MEGABYTE: u64 = 1024 * 1024;

/// The parsed arguments.
#[derive(Clone, Debug)]
pub struct Args {
    /// Paths to check.
    pub path: Vec<String>,
    /// Dry run which will not delete any files.
    pub dry_run: bool,
    /// Load the timestamp file in the given path, cleaning everything older.
    pub file: bool,
    /// Whether a recursive search looks into directories whose names start
    /// with a dot.
    pub hidden: bool,
    /// Keep only artifacts made by toolchains that are installed.
    pub installed: bool,
    /// Remove the oldest artifacts until the tree is smaller than this size.
    pub maxsize: Option<String>,
    /// Apply to all projects below the given path.
    pub recursive: bool,
    /// Store a timestamp file at the given path.
    pub stamp: bool,
    /// Number of days backwards to keep.
    pub time: Option<u64>,
    /// Toolchains whose artifacts are kept.
    pub toolchains: Vec<String>,
    /// How much to log.
    pub verbose: u8,
}

/// By what artifacts are chosen.
#[derive(Clone, Debug, PartialEq)]
pub enum Criterion {
    /// Store a timestamp.
    Stamp,
    /// Keep what was used since the stored timestamp.
    File,
    /// Keep what was used in the last days, as many as given.
    Time(u64),
    /// Keep what the installed toolchains built.
    Installed,
    /// Keep what the given toolchains built.
    Toolchains(Vec<String>),
    /// Keep what was used last, up to the given number of bytes.
    MaxSize(u64),
}

/// A `Criterion`, in specifications.
pub enum Chosen {
    Stamp,
    File,
    Time(u64),
    Installed,
    Toolchains(Seq<Seq<char>>),
    MaxSize(u64),
}

impl View for Criterion {
    type V = Chosen;

    open spec fn view(&self) -> Chosen {
        match self {
            Criterion::Stamp => Chosen::Stamp,
            Criterion::File => Chosen::File,
            Criterion::Time(days) => Chosen::Time(*days),
            Criterion::Installed => Chosen::Installed,
            Criterion::Toolchains(names) => Chosen::Toolchains(texts(names@)),
            Criterion::MaxSize(bytes) => Chosen::MaxSize(*bytes),
        }
    }
}

/// Why the arguments give no criterion.
#[derive(Clone, Debug, PartialEq)]
pub enum ArgsError {
    /// The size is neither a size with a unit nor a number of megabytes that
    /// fits in 64 bits. Holds the text of the size.
    InvalidSize(String),
}

/// An `ArgsError`, in specifications.
pub enum Refused {
    InvalidSize(Seq<char>),
}

impl View for ArgsError {
    type V = Refused;

    open spec fn view(&self) -> Refused {
        match self {
            ArgsError::InvalidSize(size) => Refused::InvalidSize(size@),
        }
    }
}

/// The number of bytes that `human_size::Size` reads in `text`: the result of
/// parsing `text` as a `Size` and of `to_bytes` on it; `None` where it does
/// not parse.
pub uninterp spec fn human_size_bytes(text: Seq<char>) -> Option<u64>;

/// Where the number at the head of `text` ends: after the white space that
/// `text` begins with and the decimal digits and dots that follow it.
pub open spec fn number_end(text: Seq<char>) -> int {
    let start = run_len(text, Run::Space);
    start + run_len(text.skip(start), Run::Number)
}

/// The number at the head of `text` ends with the text, or an ASCII
/// character or white space follows it.
pub open spec fn reads_safely(text: Seq<char>) -> bool {
    let end = number_end(text);
    0 <= end < text.len() ==> (text[end] as u32) < 128 || is_whitespace(text[end])
}

/// Reads a size with a unit, such as `10GB` or `1.5 MiB`, through
/// `human_size`: `str::parse::<human_size::Size>` and then
/// `SpecificSize::to_bytes`. The result depends on the text alone. The
/// parser takes the number of characters before the unit for a number of
/// bytes and cuts the text there; so nothing but ASCII may stand before the
/// first character that is neither numeric nor a dot, which `reads_safely`
/// sees to.
#[verifier::external_body]
pub(crate) fn parse_human_size(text: &str) -> (bytes: Option<u64>)
    requires
        reads_safely(text@),
    ensures
        bytes == human_size_bytes(text@),
{
    text.parse::<human_size::Size>().ok().map(human_size::Size::to_bytes)
}

/// Whether `human_size` can be asked to read `text`.
pub fn can_read_safely(text: &str) -> (safe: bool)
    ensures
        safe == reads_safely(text@),
{
    let start = run_end(text, 0, Run::Space);
    proof {
        assert(text@.skip(0) =~= text@);
    }
    let end = run_end(text, start, Run::Number);
    if end < text.unicode_len() {
        let c = text.get_char(end);
        (c as u32) < 128 || char_is_whitespace(c)
    } else {
        true
    }
}

/// The number that the decimal digits `digits` write.
pub open spec fn decimal(digits: Seq<char>) -> nat
    decreases digits.len(),
{
    if digits.len() == 0 {
        0
    } else {
        decimal(digits.drop_last()) * 10 + (digits.last() as u32 - '0' as u32) as nat
    }
}

/// Every character of `s` is a decimal digit.
pub open spec fn all_digits(s: Seq<char>) -> bool {
    forall|i: int| 0 <= i < s.len() ==> is_digit(#[trigger] s[i])
}

/// `text` without a leading plus sign.
pub open spec fn unsigned(text: Seq<char>) -> Seq<char> {
    if text.len() > 0 && text[0] == '+' {
        text.skip(1)
    } else {
        text
    }
}

/// The number that `text` writes in decimal digits, with or without a plus
/// sign before them; `None` where `text` is anything else or the number does
/// not fit in 64 bits.
pub open spec fn parsed_u64(text: Seq<char>) -> Option<u64> {
    let digits = unsigned(text);
    if digits.len() > 0 && all_digits(digits) && decimal(digits) <= u64::MAX {
        Some(decimal(digits) as u64)
    } else {
        None
    }
}

/// The size that `text` gives in bytes, `sized` being what it gives as a
/// size with a unit: that, or else `text` as a number of megabytes.
pub open spec fn size_in_bytes(text: Seq<char>, sized: Option<u64>) -> Option<u64> {
    match sized {
        Some(bytes) => Some(bytes),
        None => match parsed_u64(text) {
            Some(megabytes) => if megabytes * MEGABYTE <= u64::MAX {
                Some((megabytes * MEGABYTE) as u64)
            } else {
                None
            },
            None => None,
        },
    }
}

/// A longer run of digits writes no smaller number.
pub proof fn lemma_decimal_take(digits: Seq<char>, k: int)
    requires
        0 <= k <= digits.len(),
        all_digits(digits),
    ensures
        decimal(digits.take(k)) <= decimal(digits),
    decreases digits.len() - k,
{
    if k < digits.len() {
        lemma_decimal_take(digits, k + 1);
        assert(digits.take(k + 1).drop_last() =~= digits.take(k));
        assert(digits.take(k + 1).last() == digits[k]);
        assert(is_digit(digits[k]));
    } else {
        assert(digits.take(k) =~= digits);
    }
}

/// Reads a number in decimal digits, with or without a plus sign before them.
pub fn parse_u64(text: &str) -> (number: Option<u64>)
    ensures
        number == parsed_u64(text@),
{
    let len = text.unicode_len();
    let start: usize = if len > 0 && text.get_char(0) == '+' {
        1
    } else {
        0
    };
    if start == len {
        return None;
    }
    let ghost digits = unsigned(text@);
    let mut value: u64 = 0;
    let mut i: usize = start;
    proof {
        assert(digits =~= text@.skip(start as int));
        assert(digits.take(0) =~= Seq::<char>::empty());
    }
    while i < len
        invariant
            start <= i <= len,
            len == text@.len(),
            digits == unsigned(text@),
            digits == text@.skip(start as int),
            all_digits(digits.take(i - start)),
            value == decimal(digits.take(i - start)),
        decreases len - i,
    {
        let c = text.get_char(i);
        let ghost seen = digits.take(i - start);
        let ghost next = digits.take(i - start + 1);
        proof {
            assert(next.drop_last() =~= seen);
            assert(next.last() == c);
            assert(digits[i - start] == c);
        }
        if !(c >= '0' && c <= '9') {
            return None;
        }
        proof {
            assert forall|k: int| 0 <= k < next.len() implies is_digit(#[trigger] next[k]) by {
                if k < seen.len() {
                    assert(next[k] == seen[k]);
                }
            }
        }
        let digit = (c as u32 - '0' as u32) as u64;
        let more = match value.checked_mul(10) {
            Some(tens) => tens.checked_add(digit),
            None => None,
        };
        match more {
            Some(more) => {
                value = more;
            },
            None => {
                proof {
                    assert(decimal(next) > u64::MAX);
                    if all_digits(digits) {
                        lemma_decimal_take(digits, i - start + 1);
                    }
                }
                return None;
            },
        }
        i += 1;
    }
    proof {
        assert(digits.take(i - start) =~= digits);
    }
    Some(value)
}

impl Args {
    /// Some criterion is given.
    pub open spec fn spec_has_criterion(&self) -> bool {
        self.stamp || self.file || self.installed || self.toolchains@.len() > 0 || self.time
            is Some || self.maxsize is Some
    }

    /// The criterion that the arguments give, `sized` being what the size
    /// gives as a size with a unit. The first of these counts: `stamp`,
    /// `file`, `installed`, `toolchains`, `time`, `maxsize`.
    pub open spec fn spec_criterion(&self, sized: Option<u64>) -> Result<Chosen, Refused> {
        if self.stamp {
            Ok(Chosen::Stamp)
        } else if self.file {
            Ok(Chosen::File)
        } else if self.installed {
            Ok(Chosen::Installed)
        } else if self.toolchains@.len() > 0 {
            Ok(Chosen::Toolchains(texts(self.toolchains@)))
        } else if self.time is Some {
            Ok(Chosen::Time(self.time->0))
        } else {
            match size_in_bytes(self.maxsize->0@, sized) {
                Some(bytes) => Ok(Chosen::MaxSize(bytes)),
                None => Err(Refused::InvalidSize(self.maxsize->0@)),
            }
        }
    }

    /// What the size gives as a size with a unit: what `human_size` reads in
    /// it, where it can be read safely.
    pub open spec fn spec_sized(&self) -> Option<u64> {
        match self.maxsize {
            Some(size) => if reads_safely(size@) {
                human_size_bytes(size@)
            } else {
                None
            },
            None => None,
        }
    }

    /// The criterion that the arguments give, from what the size gives as a
    /// size with a unit. Of several criteria the first of these counts:
    /// `stamp`, `file`, `installed`, `toolchains`, `time`, `maxsize`. A size
    /// that is no size with a unit is a number of megabytes.
    pub fn criterion_for(&self, sized: Option<u64>) -> (result: Result<Criterion, ArgsError>)
        requires
            self.spec_has_criterion(),
        ensures
            match result {
                Ok(criterion) => self.spec_criterion(sized) == Ok::<Chosen, Refused>(criterion@),
                Err(error) => self.spec_criterion(sized) == Err::<Chosen, Refused>(error@),
            },
    {
        if self.stamp {
            return Ok(Criterion::Stamp);
        }
        if self.file {
            return Ok(Criterion::File);
        }
        if self.installed {
            return Ok(Criterion::Installed);
        }
        if self.toolchains.len() > 0 {
            return Ok(Criterion::Toolchains(copy_names(&self.toolchains)));
        }
        if let Some(time) = self.time {
            return Ok(Criterion::Time(time));
        }
        let size = match &self.maxsize {
            Some(size) => size,
            None => unreached(),
        };
        let bytes = match sized {
            Some(bytes) => Some(bytes),
            None => match parse_u64(size.as_str()) {
                Some(megabytes) => megabytes.checked_mul(MEGABYTE),
                None => None,
            },
        };
        match bytes {
            Some(bytes) => Ok(Criterion::MaxSize(bytes)),
            None => Err(ArgsError::InvalidSize(size.clone())),
        }
    }

    /// The criterion that the arguments give.
    pub fn criterion(&self) -> (result: Result<Criterion, ArgsError>)
        requires
            self.spec_has_criterion(),
        ensures
            match result {
                Ok(criterion) => self.spec_criterion(self.spec_sized()) == Ok::<Chosen, Refused>(
                    criterion@,
                ),
                Err(error) => self.spec_criterion(self.spec_sized()) == Err::<Chosen, Refused>(
                    error@,
                ),
            },
    {
        let sized = match &self.maxsize {
            Some(size) => if can_read_safely(size.as_str()) {
                parse_human_size(size.as_str())
            } else {
                None
            },
            None => None,
        };
        self.criterion_for(sized)
    }
}

} // verus!

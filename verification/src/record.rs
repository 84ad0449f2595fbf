//! The metadata record of a unit: which toolchain built it.
//!
//! A unit's directory may hold several files. Those named `*.json` are
//! candidates for the record, and the first whose contents are a record
//! counts.

use vstd::prelude::*;
use vstd::string::StrSliceExecFns;
use crate::snapshot::RecordFile;

verus! {

/// What a unit's record tells: the identity of the toolchain that built it.
#[derive(Clone, Copy, Debug, PartialEq, Eq, Structural)]
pub struct Fingerprint {
    pub rustc: u64,
}

/// No file of the unit is a record.
#[derive(Clone, Copy, Debug, PartialEq, Eq, Structural)]
pub struct NotFound;

/// The text `.json`.
pub open spec fn json_suffix() -> Seq<char> {
    seq!['.', 'j', 's', 'o', 'n']
}

/// `name` is a file name whose extension is `json`: it ends in `.json`, and
/// something stands before that.
pub open spec fn has_json_extension(name: Seq<char>) -> bool {
    name.len() > 5 && name.skip(name.len() - 5) == json_suffix()
}

/// The first of `records` that is named `*.json` and holds a record.
pub open spec fn recorded(records: Seq<RecordFile>) -> Option<u64>
    decreases records.len(),
{
    if records.len() == 0 {
        None
    } else if has_json_extension(records[0].name@) && records[0].rustc is Some {
        records[0].rustc
    } else {
        recorded(records.drop_first())
    }
}

/// Whether `name` has the extension `json`.
pub fn is_json(name: &str) -> (r: bool)
    ensures
        r == has_json_extension(name@),
{
    let len = name.unicode_len();
    if len <= 5 {
        return false;
    }
    let at = len - 5;
    let r = name.get_char(at) == '.' && name.get_char(at + 1) == 'j' && name.get_char(at + 2)
        == 's' && name.get_char(at + 3) == 'o' && name.get_char(at + 4) == 'n';
    proof {
        let tail = name@.skip(name@.len() - 5);
        assert(tail.len() == 5);
        assert(tail[0] == name@[at as int]);
        assert(tail[1] == name@[at + 1]);
        assert(tail[2] == name@[at + 2]);
        assert(tail[3] == name@[at + 3]);
        assert(tail[4] == name@[at + 4]);
        if r {
            assert(tail =~= json_suffix());
        }
    }
    r
}

impl Fingerprint {
    /// Finds the record among the files of a unit's directory: the first
    /// file with the extension `json` whose contents are a record.
    pub fn load(records: &Vec<RecordFile>) -> (found: Result<Fingerprint, NotFound>)
        ensures
            match found {
                Ok(fingerprint) => recorded(records@) == Some(fingerprint.rustc),
                Err(_) => recorded(records@) is None,
            },
    {
        let mut i: usize = 0;
        proof {
            assert(records@.skip(0) =~= records@);
        }
        while i < records.len()
            invariant
                i <= records.len(),
                recorded(records@) == recorded(records@.skip(i as int)),
            decreases records.len() - i,
        {
            let file = &records[i];
            proof {
                assert(records@.skip(i as int)[0] == records@[i as int]);
                assert(records@.skip(i as int).drop_first() =~= records@.skip(i + 1));
            }
            if is_json(file.name.as_str()) {
                if let Some(rustc) = file.rustc {
                    return Ok(Fingerprint { rustc });
                }
            }
            i += 1;
        }
        Err(NotFound)
    }
}

} // verus!

use vstd::prelude::*;
use vstd::string::StringSliceAdditionalSpecFns;

use crate::memory_utils::{region_fits, MemoryError, MemoryUtils};
use crate::pattern::{compiled, is_compile_error, CompileError, Matcher, Pattern};
use crate::scan::{first_offset, match_offsets};

verus! {

/// Failures of address resolution.
#[derive(Clone, Debug, PartialEq, Eq)]
pub enum Error {
    /// A scan failed, or the signature did not compile.
    Memory(MemoryError),
    /// Uniqueness-checked resolution found more than one match.
    MultipleMatchesFound,
    /// The match address moved by the offset leaves the range of addresses.
    OffsetOutOfRange,
}

impl Error {
    /// Whether this is the error of a signature that matched nowhere.
    pub fn is_not_found(&self) -> (r: bool)
        ensures
            r <==> *self == Error::Memory(MemoryError::NotFound),
    {
        matches!(self, Error::Memory(MemoryError::NotFound))
    }
}

/// What resolved records offer their users: the address they stand for,
/// resolved anew on each call, and a stable name for diagnostics.
pub trait AddressProvider: 'static + Send + Sync {
    fn get_address(&self) -> Result<usize, Error>;

    fn name(&self) -> &'static str;
}

/// `address + offset`, where that is an address.
pub open spec fn offset_address(address: int, offset: int) -> Result<int, Error> {
    if 0 <= address + offset <= usize::MAX {
        Ok(address + offset)
    } else {
        Err(Error::OffsetOutOfRange)
    }
}

/// First-match resolution: the lowest match in the region at `base`, moved
/// by `offset`.
pub open spec fn resolve_first_spec(p: Seq<Matcher>, mem: Seq<u8>, base: int, offset: int) -> Result<
    int,
    Error,
> {
    match first_offset(p, mem) {
        Some(o) => offset_address(base + o, offset),
        None => Err(Error::Memory(MemoryError::NotFound)),
    }
}

/// Uniqueness-checked resolution: the one match in the region at `base`,
/// moved by `offset`; an error where there is none or more than one.
pub open spec fn resolve_unique_spec(p: Seq<Matcher>, mem: Seq<u8>, base: int, offset: int) -> Result<
    int,
    Error,
> {
    let all = match_offsets(p, mem);
    if all.len() == 0 {
        Err(Error::Memory(MemoryError::NotFound))
    } else if all.len() > 1 {
        Err(Error::MultipleMatchesFound)
    } else {
        offset_address(base + all[0], offset)
    }
}

/// A named target: a compiled signature and the signed offset from the
/// match to the address wanted.
pub struct AddressRecord {
    name: &'static str,
    pattern: Pattern,
    offset: i64,
}

fn apply_offset(address: usize, offset: i64) -> (r: Result<usize, Error>)
    ensures
        match offset_address(address as int, offset as int) {
            Ok(a) => r matches Ok(x) && x == a,
            Err(e) => r == Err::<usize, Error>(e),
        },
{
    let sum: i128 = address as i128 + offset as i128;
    if sum < 0 || sum > usize::MAX as i128 {
        Err(Error::OffsetOutOfRange)
    } else {
        Ok(sum as usize)
    }
}

impl AddressRecord {
    /// Declares a record; its signature is compiled here, so a malformed one
    /// fails at once.
    pub fn new(name: &'static str, pattern: &str, offset: i64) -> (r: Result<
        AddressRecord,
        CompileError,
    >)
        ensures
            r is Ok <==> compiled(pattern.spec_bytes()) is Some,
            r matches Ok(rec) ==> {
                &&& compiled(pattern.spec_bytes()) == Some(rec.pattern_spec())
                &&& rec.name_spec() == name
                &&& rec.offset_spec() == offset
            },
            r matches Err(e) ==> is_compile_error(pattern.spec_bytes(), e),
    {
        match Pattern::compile(pattern) {
            Ok(p) => Ok(AddressRecord { name, pattern: p, offset }),
            Err(e) => Err(e),
        }
    }

    /// Declares a record whose address is the match address itself: the
    /// offset defaults to zero.
    pub fn from_pattern(name: &'static str, pattern: &str) -> (r: Result<
        AddressRecord,
        CompileError,
    >)
        ensures
            r is Ok <==> compiled(pattern.spec_bytes()) is Some,
            r matches Ok(rec) ==> {
                &&& compiled(pattern.spec_bytes()) == Some(rec.pattern_spec())
                &&& rec.name_spec() == name
                &&& rec.offset_spec() == 0
            },
            r matches Err(e) ==> is_compile_error(pattern.spec_bytes(), e),
    {
        Self::new(name, pattern, 0)
    }

    pub closed spec fn pattern_spec(&self) -> Seq<Matcher> {
        self.pattern@
    }

    pub closed spec fn name_spec(&self) -> &'static str {
        self.name
    }

    pub closed spec fn offset_spec(&self) -> i64 {
        self.offset
    }

    pub fn name(&self) -> (r: &'static str)
        ensures
            r == self.name_spec(),
    {
        self.name
    }

    pub fn offset(&self) -> (r: i64)
        ensures
            r == self.offset_spec(),
    {
        self.offset
    }

    pub fn pattern(&self) -> (r: &Pattern)
        ensures
            r@ == self.pattern_spec(),
    {
        &self.pattern
    }

    /// First-match resolution over the region `memory` at address `base`.
    pub fn resolve_first(&self, memory: &[u8], base: usize) -> (r: Result<usize, Error>)
        requires
            region_fits(memory@, base),
        ensures
            match resolve_first_spec(self.pattern_spec(), memory@, base as int, self.offset_spec() as int) {
                Ok(a) => r matches Ok(x) && x == a,
                Err(e) => r == Err::<usize, Error>(e),
            },
    {
        match MemoryUtils::scan_first_pattern(memory, base, &self.pattern) {
            Ok(a) => apply_offset(a, self.offset),
            Err(e) => Err(Error::Memory(e)),
        }
    }

    /// Uniqueness-checked resolution over the region `memory` at address
    /// `base`: succeeds only where exactly one window matches.
    pub fn resolve_unique(&self, memory: &[u8], base: usize) -> (r: Result<usize, Error>)
        requires
            region_fits(memory@, base),
        ensures
            match resolve_unique_spec(self.pattern_spec(), memory@, base as int, self.offset_spec() as int) {
                Ok(a) => r matches Ok(x) && x == a,
                Err(e) => r == Err::<usize, Error>(e),
            },
    {
        match MemoryUtils::scan_all_pattern(memory, base, &self.pattern) {
            Ok(v) => {
                if v.len() > 1 {
                    Err(Error::MultipleMatchesFound)
                } else {
                    apply_offset(v[0], self.offset)
                }
            },
            Err(e) => Err(Error::Memory(e)),
        }
    }
}

/// Moving a match address by an offset is signed addition: a negative
/// offset moves it back, a positive one forward, and zero leaves it as is.
pub proof fn lemma_offset_arithmetic(address: usize, offset: i64)
    requires
        0 <= address + offset <= usize::MAX,
    ensures
        offset_address(address as int, offset as int) == Ok::<int, Error>(address + offset),
        offset == 0 ==> offset_address(address as int, offset as int) == Ok::<int, Error>(
            address as int,
        ),
        offset < 0 ==> offset_address(address as int, offset as int)->Ok_0 < address,
        offset > 0 ==> offset_address(address as int, offset as int)->Ok_0 > address,
{
}

/// Where a signature matches at least twice, uniqueness-checked resolution
/// fails with `MultipleMatchesFound`, while first-match resolution resolves
/// from the lower of the match addresses.
pub proof fn lemma_unique_rejects_what_first_accepts(
    p: Seq<Matcher>,
    mem: Seq<u8>,
    base: usize,
    offset: i64,
)
    requires
        p.len() > 0,
        match_offsets(p, mem).len() >= 2,
    ensures
        resolve_unique_spec(p, mem, base as int, offset as int) == Err::<int, Error>(
            Error::MultipleMatchesFound,
        ),
        resolve_first_spec(p, mem, base as int, offset as int) == offset_address(
            base + match_offsets(p, mem)[0],
            offset as int,
        ),
        match_offsets(p, mem)[0] < match_offsets(p, mem)[1],
{
    crate::scan::lemma_match_offsets_exact(p, mem);
}

} // verus!

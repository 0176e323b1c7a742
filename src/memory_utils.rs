use vstd::prelude::*;
use vstd::string::StringSliceAdditionalSpecFns;

use crate::pattern::{
    compile_bytes, compiled, is_compile_error, matcher_byte, CompileError, Matcher, Pattern,
};
use crate::scan::{first_offset, match_offsets};

verus! {

/// Failures of a scan over a memory region.
#[derive(Clone, Debug, PartialEq, Eq)]
pub enum MemoryError {
    /// No window of the region matches the pattern.
    NotFound,
    /// More than one window matches where exactly one was expected.
    MultipleMatchesFound,
    /// The signature text does not compile.
    PatternScan(CompileError),
    /// The module locator failed; the value is the operating system's error code.
    Locator(i32),
}

/// Scans over a borrowed memory region whose first byte lives at address `base`.
pub struct MemoryUtils;

/// The region's addresses fit in a `usize`.
pub open spec fn region_fits(memory: Seq<u8>, base: usize) -> bool {
    base + memory.len() <= usize::MAX
}

/// `addrs` holds the offsets `offs` moved by `base`, in the same order.
pub open spec fn are_addresses(addrs: Seq<usize>, base: usize, offs: Seq<int>) -> bool {
    &&& addrs.len() == offs.len()
    &&& forall|k: int| 0 <= k < addrs.len() ==> addrs[k] == base + offs[k]
}

impl MemoryUtils {
    /// The address of the lowest match of `pattern` in the region.
    pub fn scan_first_pattern(memory: &[u8], base: usize, pattern: &Pattern) -> (r: Result<
        usize,
        MemoryError,
    >)
        requires
            region_fits(memory@, base),
        ensures
            match first_offset(pattern@, memory@) {
                Some(o) => r matches Ok(a) && a == base + o,
                None => r matches Err(MemoryError::NotFound),
            },
    {
        proof {
            crate::scan::lemma_offsets_in_region(pattern@, memory@);
        }
        match pattern.find_first(memory) {
            Some(o) => Ok(base + o),
            None => Err(MemoryError::NotFound),
        }
    }

    /// The addresses of every match of `pattern` in the region, ascending,
    /// overlapping matches included. An empty result is `NotFound`.
    pub fn scan_all_pattern(memory: &[u8], base: usize, pattern: &Pattern) -> (r: Result<
        Vec<usize>,
        MemoryError,
    >)
        requires
            region_fits(memory@, base),
        ensures
            match_offsets(pattern@, memory@).len() == 0 ==> r matches Err(MemoryError::NotFound),
            match_offsets(pattern@, memory@).len() > 0 ==> (r matches Ok(v) && are_addresses(
                v@,
                base,
                match_offsets(pattern@, memory@),
            )),
    {
        let offsets = pattern.find_all(memory);
        let n = offsets.len();
        if n == 0 {
            return Err(MemoryError::NotFound);
        }
        let ghost all = match_offsets(pattern@, memory@);
        proof {
            crate::scan::lemma_offsets_in_region(pattern@, memory@);
        }
        let mut out: Vec<usize> = Vec::new();
        let mut k: usize = 0;
        while k < n
            invariant
                n == offsets@.len(),
                n == all.len(),
                region_fits(memory@, base),
                forall|j: int| 0 <= j < n ==> offsets@[j] == all[j],
                forall|j: int| 0 <= j < n ==> 0 <= #[trigger] all[j] < memory@.len(),
                k <= n,
                out@.len() == k,
                forall|j: int| 0 <= j < k ==> out@[j] == base + all[j],
            decreases n - k,
        {
            assert(0 <= all[k as int] < memory@.len());
            out.push(base + offsets[k]);
            k = k + 1;
        }
        Ok(out)
    }

    /// Compiles `pattern` and returns the address of its lowest match.
    pub fn scan_first(memory: &[u8], base: usize, pattern: &str) -> (r: Result<usize, MemoryError>)
        requires
            region_fits(memory@, base),
        ensures
            match compiled(pattern.spec_bytes()) {
                None => r matches Err(MemoryError::PatternScan(e)) && is_compile_error(
                    pattern.spec_bytes(),
                    e,
                ),
                Some(ms) => match first_offset(ms, memory@) {
                    Some(o) => r matches Ok(a) && a == base + o,
                    None => r matches Err(MemoryError::NotFound),
                },
            },
    {
        match Pattern::compile(pattern) {
            Ok(p) => Self::scan_first_pattern(memory, base, &p),
            Err(e) => Err(MemoryError::PatternScan(e)),
        }
    }

    /// Compiles `pattern` and returns the addresses of all its matches.
    pub fn scan_all(memory: &[u8], base: usize, pattern: &str) -> (r: Result<
        Vec<usize>,
        MemoryError,
    >)
        requires
            region_fits(memory@, base),
        ensures
            match compiled(pattern.spec_bytes()) {
                None => r matches Err(MemoryError::PatternScan(e)) && is_compile_error(
                    pattern.spec_bytes(),
                    e,
                ),
                Some(ms) => {
                    &&& match_offsets(ms, memory@).len() == 0 ==> (r matches Err(
                        MemoryError::NotFound,
                    ))
                    &&& match_offsets(ms, memory@).len() > 0 ==> (r matches Ok(v) && are_addresses(
                        v@,
                        base,
                        match_offsets(ms, memory@),
                    ))
                },
            },
    {
        match Pattern::compile(pattern) {
            Ok(p) => Self::scan_all_pattern(memory, base, &p),
            Err(e) => Err(MemoryError::PatternScan(e)),
        }
    }
}

/// Converts a signature into plain bytes, one per token, with each wildcard
/// written as `0xFF`. Text that does not compile, text without tokens
/// included, gives the compile error: `Empty`, or the first invalid token
/// with its position.
pub fn space_hex_to_bytes(text_hex: &str) -> (r: Result<Vec<u8>, CompileError>)
    ensures
        r is Ok <==> compiled(text_hex.spec_bytes()) is Some,
        r matches Ok(v) ==> v@ == compiled(text_hex.spec_bytes())->Some_0.map_values(
            |m: Matcher| matcher_byte(m),
        ),
        r matches Err(e) ==> is_compile_error(text_hex.spec_bytes(), e),
{
    match compile_bytes(text_hex.as_bytes()) {
        Ok(ms) => {
            let mut out: Vec<u8> = Vec::new();
            let mut k: usize = 0;
            while k < ms.len()
                invariant
                    k <= ms@.len(),
                    out@ == ms@.subrange(0, k as int).map_values(|m: Matcher| matcher_byte(m)),
                decreases ms@.len() - k,
            {
                let b = match ms[k] {
                    Matcher::Exact(b) => b,
                    Matcher::Wildcard => 0xFFu8,
                };
                out.push(b);
                assert(ms@.subrange(0, k + 1).map_values(|m: Matcher| matcher_byte(m))
                    =~= ms@.subrange(0, k as int).map_values(|m: Matcher| matcher_byte(m)).push(b));
                k = k + 1;
            }
            assert(ms@.subrange(0, ms@.len() as int) =~= ms@);
            Ok(out)
        },
        Err(e) => Err(e),
    }
}

} // verus!

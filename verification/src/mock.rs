//! Mocked scripts.
//!
//! Each mocked script execution is represented by 16 bytes of the script's
//! arguments: the first 8 bytes are the result (4 bytes of error type, then 4
//! bytes of error details; all zero for success), the next 8 bytes are the
//! consumed cycles, all little-endian. The first 16 bytes of the arguments
//! hold the result with VM0, the next 16 bytes the result with VM1.

use vstd::prelude::*;
use crate::text::{decimal, hex_u32_padded, le_value, push_decimal, push_hex_u32_padded, read_le};
use crate::transaction::Hash32;
use crate::vec_map::VecSet;

verus! {

/// How a script's code hash is matched.
#[derive(Clone, Copy, Debug, PartialEq, Eq, Structural)]
pub enum ScriptHashType {
    Data,
    Type,
    Data1,
    Data2,
}

/// The hash type that a script's hash-type byte stands for.
pub open spec fn hash_type_of(b: u8) -> Option<ScriptHashType> {
    if b == 0 {
        Some(ScriptHashType::Data)
    } else if b == 1 {
        Some(ScriptHashType::Type)
    } else if b == 2 {
        Some(ScriptHashType::Data1)
    } else if b == 4 {
        Some(ScriptHashType::Data2)
    } else {
        None
    }
}

/// `ScriptHashType::try_from(packed::Byte)` of `ckb_types`: the byte values
/// 0, 1, 2 and 4 name Data, Type, Data1 and Data2, every other value is an
/// error.
#[verifier::external_body]
fn script_hash_type_from_byte(b: u8) -> (r: Option<ScriptHashType>)
    ensures
        r == hash_type_of(b),
{
    match ckb_types::core::ScriptHashType::try_from(ckb_types::packed::Byte::new(b)) {
        Ok(ckb_types::core::ScriptHashType::Data) => Some(ScriptHashType::Data),
        Ok(ckb_types::core::ScriptHashType::Type) => Some(ScriptHashType::Type),
        Ok(ckb_types::core::ScriptHashType::Data1) => Some(ScriptHashType::Data1),
        Ok(ckb_types::core::ScriptHashType::Data2) => Some(ScriptHashType::Data2),
        Err(_) => None,
    }
}

/// Whether a script with this code hash and hash-type byte is mocked by a
/// registry with these data and type hashes.
pub open spec fn is_mocked(data: Set<Hash32>, types: Set<Hash32>, code_hash: Hash32, hash_type: u8) -> bool {
    match hash_type_of(hash_type) {
        Some(ScriptHashType::Type) => types.contains(code_hash),
        Some(_) => data.contains(code_hash),
        None => false,
    }
}

/// Registering a script's code hash under its hash type (type hashes for
/// `Type`, data hashes for the others) makes it mocked; unregistering it
/// makes it no longer mocked; a script with an invalid hash type is never
/// mocked.
pub proof fn lemma_register_mocks(data: Set<Hash32>, types: Set<Hash32>, code_hash: Hash32, hash_type: u8)
    ensures
        hash_type_of(hash_type) == Some(ScriptHashType::Type) ==> is_mocked(data, types.insert(code_hash), code_hash, hash_type)
            && !is_mocked(data, types.remove(code_hash), code_hash, hash_type),
        hash_type_of(hash_type) is Some && hash_type_of(hash_type) != Some(ScriptHashType::Type) ==> is_mocked(
            data.insert(code_hash),
            types,
            code_hash,
            hash_type,
        ) && !is_mocked(data.remove(code_hash), types, code_hash, hash_type),
        hash_type_of(hash_type) is None ==> !is_mocked(data, types, code_hash, hash_type),
{
}

/// The VM version a script runs with.
#[derive(Clone, Copy, Debug, PartialEq, Eq, Structural)]
pub enum ScriptVersion {
    V0,
    V1,
}

/// Where the 16 result bytes of a version start in the arguments.
pub open spec fn version_offset(v: ScriptVersion) -> nat {
    match v {
        ScriptVersion::V0 => 0,
        ScriptVersion::V1 => 16,
    }
}

/// A script: the code hash, the hash-type byte and the arguments.
#[derive(Clone, Debug)]
pub struct Script {
    pub code_hash: Hash32,
    pub hash_type: u8,
    pub args: Vec<u8>,
}

/// The errors of a script run that mocking produces.
#[derive(Clone, Debug)]
pub enum ScriptError {
    /// The run used up the cycle limit.
    ExceededMaximumCycles(u64),
    /// A mocked failure, with its message.
    Mock(String),
}

/// What a mocked run comes to.
#[derive(Debug)]
pub enum MockedResult {
    Completed(u64),
    Suspended(u64),
    Error(ScriptError),
}

/// The abstract value of a mocked run's outcome.
pub enum MockedOutcome {
    Completed(nat),
    Suspended(nat),
    Failed(Seq<char>),
}

/// The message for arguments too short to hold the result bytes.
pub open spec fn no_enough_args_message(len: nat, start: nat, end: nat) -> Seq<char> {
    "no enough args (length is "@ + decimal(len) + " but requires "@ + decimal(start) + ".."@
        + decimal(end) + ")"@
}

/// The message of a mocked failure with the given error type and details.
pub open spec fn unknown_error_message(err_type: u32, err_details: u32) -> Seq<char> {
    "unknown error ["@ + hex_u32_padded(err_type) + ", "@ + hex_u32_padded(err_details) + "]"@
}

/// The outcome of resuming a mocked script: `current` cycles were used
/// before and `max` more may be used.
pub open spec fn mocked_outcome(version: ScriptVersion, args: Seq<u8>, max: nat, current: nat) -> MockedOutcome {
    let start: int = version_offset(version) as int;
    if args.len() < start + 16 {
        MockedOutcome::Failed(no_enough_args_message(args.len(), start as nat, (start + 16) as nat))
    } else {
        let result_type = le_value(args.subrange(start, start + 8));
        let result_cycles = le_value(args.subrange(start + 8, start + 16));
        if result_cycles <= max {
            if result_type == 0 {
                MockedOutcome::Completed((current + result_cycles) as nat)
            } else {
                MockedOutcome::Failed(
                    unknown_error_message(
                        le_value(args.subrange(start, start + 4)) as u32,
                        le_value(args.subrange(start + 4, start + 8)) as u32,
                    ),
                )
            }
        } else {
            MockedOutcome::Suspended((current + max) as nat)
        }
    }
}

/// Bytes read as a little-endian number are zero exactly when every byte is
/// zero.
pub proof fn lemma_le_value_zero(s: Seq<u8>)
    ensures
        (le_value(s) == 0) <==> (forall|j: int| 0 <= j < s.len() ==> s[j] == 0),
    decreases s.len(),
{
    if s.len() > 0 {
        lemma_le_value_zero(s.drop_first());
        if le_value(s) == 0 {
            assert forall|j: int| 0 <= j < s.len() implies s[j] == 0 by {
                if j > 0 {
                    assert(s[j] == s.drop_first()[j - 1]);
                }
            }
        }
        if forall|j: int| 0 <= j < s.len() ==> s[j] == 0 {
            assert(s[0] == 0);
            assert forall|j: int| 0 <= j < s.drop_first().len() implies s.drop_first()[j] == 0 by {
                assert(s.drop_first()[j] == s[j + 1]);
            }
        }
    }
}

/// How the 16 result bytes of a mocked script decide a run. They start at
/// byte 0 of the arguments for the first VM version and at byte 16 for the
/// second: 8 result bytes (4 error-type bytes, then 4 error-detail bytes)
/// and 8 cycle bytes, all little-endian. With arguments that hold them, a run
/// whose recorded cycles fit in the limit completes, with `current` plus the
/// recorded cycles, exactly when all 8 result bytes are zero; otherwise it
/// fails with the message built from the error type and details. A run whose
/// recorded cycles pass the limit is suspended at `current + max`. Shorter
/// arguments fail with the message naming the length and the needed range.
pub proof fn lemma_mocked_result_bytes(version: ScriptVersion, args: Seq<u8>, max: nat, current: nat)
    ensures
        ({
            let start: int = if version == ScriptVersion::V0 { 0 } else { 16 };
            let cycles = le_value(args.subrange(start + 8, start + 16));
            let outcome = mocked_outcome(version, args, max, current);
            &&& args.len() < start + 16 ==> outcome == MockedOutcome::Failed(
                no_enough_args_message(args.len(), start as nat, (start + 16) as nat),
            )
            &&& args.len() >= start + 16 && cycles <= max ==> {
                &&& (outcome is Completed) <==> (forall|j: int| start <= j < start + 8 ==> args[j] == 0)
                &&& (forall|j: int| start <= j < start + 8 ==> args[j] == 0) ==> outcome
                    == MockedOutcome::Completed(current + cycles)
                &&& !(forall|j: int| start <= j < start + 8 ==> args[j] == 0) ==> outcome == MockedOutcome::Failed(
                    unknown_error_message(
                        le_value(args.subrange(start, start + 4)) as u32,
                        le_value(args.subrange(start + 4, start + 8)) as u32,
                    ),
                )
            }
            &&& args.len() >= start + 16 && cycles > max ==> outcome == MockedOutcome::Suspended(current + max)
        }),
{
    let start: int = if version == ScriptVersion::V0 { 0 } else { 16 };
    if args.len() >= start + 16 {
        let r = args.subrange(start, start + 8);
        lemma_le_value_zero(r);
        assert((forall|j: int| 0 <= j < r.len() ==> r[j] == 0) <==> (forall|j: int|
            start <= j < start + 8 ==> args[j] == 0)) by {
            if forall|j: int| 0 <= j < r.len() ==> r[j] == 0 {
                assert forall|j: int| start <= j < start + 8 implies args[j] == 0 by {
                    assert(args[j] == r[j - start]);
                }
            }
            if forall|j: int| start <= j < start + 8 ==> args[j] == 0 {
                assert forall|j: int| 0 <= j < r.len() implies r[j] == 0 by {
                    assert(r[j] == args[j + start]);
                }
            }
        }
    }
}

/// A mocked run never reports more cycles than it was allowed: a completed
/// run ends between `current` and `current + max`, a suspended one exactly
/// at `current + max`.
pub proof fn lemma_outcome_cycles(version: ScriptVersion, args: Seq<u8>, max: nat, current: nat)
    ensures
        match mocked_outcome(version, args, max, current) {
            MockedOutcome::Completed(c) => current <= c <= current + max,
            MockedOutcome::Suspended(c) => c == current + max,
            MockedOutcome::Failed(_) => true,
        },
{
}

/// Whether the cycles that resuming reports fit in 64 bits: current plus the
/// recorded cycles on completion, current plus the limit on suspension; a
/// failure adds nothing.
pub open spec fn cycles_fit(version: ScriptVersion, args: Seq<u8>, max: nat, current: nat) -> bool {
    match mocked_outcome(version, args, max, current) {
        MockedOutcome::Completed(c) => c <= u64::MAX,
        MockedOutcome::Suspended(c) => c <= u64::MAX,
        MockedOutcome::Failed(_) => true,
    }
}

/// A run from zero cycles always fits.
pub proof fn lemma_fits_from_zero(version: ScriptVersion, args: Seq<u8>, max: u64)
    ensures
        cycles_fit(version, args, max as nat, 0),
{
    let start: int = version_offset(version) as int;
    if args.len() >= start + 16 {
        crate::text::lemma_le_value_bound(args.subrange(start + 8, start + 16));
        crate::text::lemma_pow256_8();
    }
}

/// Whether an executable result is the given outcome.
pub open spec fn result_is(r: MockedResult, o: MockedOutcome) -> bool {
    match (r, o) {
        (MockedResult::Completed(a), MockedOutcome::Completed(b)) => a == b,
        (MockedResult::Suspended(a), MockedOutcome::Suspended(b)) => a == b,
        (MockedResult::Error(ScriptError::Mock(m)), MockedOutcome::Failed(s)) => m@ == s,
        _ => false,
    }
}

/// The state a chunked run ends in: completed with the total cycles, or
/// suspended with the cycles that the machine is to be set to.
#[derive(Clone, Copy, Debug, PartialEq, Eq, Structural)]
pub enum ChunkState {
    Completed(u64),
    Suspended(u64),
}

impl ScriptError {
    /// The failure that 8 result bytes encode: `unknown error [0x…, 0x…]`
    /// with the error type and details, each as `{:#010x}`.
    pub fn from_mocked(err_slice: &[u8]) -> (r: Self)
        requires
            err_slice@.len() >= 8,
        ensures
            r matches ScriptError::Mock(m) && m@ == unknown_error_message(
                le_value(err_slice@.subrange(0, 4)) as u32,
                le_value(err_slice@.subrange(4, 8)) as u32,
            ),
    {
        let err_type = read_le(err_slice, 0, 4);
        let err_details = read_le(err_slice, 4, 4);
        proof {
            crate::text::lemma_le_value_bound(err_slice@.subrange(0, 4));
            crate::text::lemma_le_value_bound(err_slice@.subrange(4, 8));
            assert(crate::text::pow256(4) == 0x1_0000_0000) by {
                reveal_with_fuel(crate::text::pow256, 5);
            }
        }
        let mut msg = String::from_str("unknown error [");
        push_hex_u32_padded(&mut msg, err_type as u32);
        msg.append(", ");
        push_hex_u32_padded(&mut msg, err_details as u32);
        msg.append("]");
        ScriptError::Mock(msg)
    }
}

/// The registry of mocked scripts: code hashes matched by data and by type.
pub struct MockedScripts {
    data_hashes: VecSet<Hash32>,
    type_hashes: VecSet<Hash32>,
}

impl MockedScripts {
    pub closed spec fn wf(&self) -> bool {
        self.data_hashes.wf() && self.type_hashes.wf()
    }

    /// The data hashes of mocked scripts.
    pub closed spec fn data_set(&self) -> Set<Hash32> {
        self.data_hashes@
    }

    /// The type hashes of mocked scripts.
    pub closed spec fn type_set(&self) -> Set<Hash32> {
        self.type_hashes@
    }

    /// An empty registry.
    pub fn init() -> (r: Self)
        ensures
            r.wf(),
            r.data_set() == Set::<Hash32>::empty(),
            r.type_set() == Set::<Hash32>::empty(),
    {
        MockedScripts { data_hashes: VecSet::new(), type_hashes: VecSet::new() }
    }

    /// Registers a data hash; returns whether it was new.
    pub fn insert_data_hash(&mut self, hash: Hash32) -> (r: bool)
        requires
            old(self).wf(),
        ensures
            final(self).wf(),
            final(self).data_set() == old(self).data_set().insert(hash),
            final(self).type_set() == old(self).type_set(),
            r == !old(self).data_set().contains(hash),
    {
        self.data_hashes.insert(hash)
    }

    /// Registers a type hash; returns whether it was new.
    pub fn insert_type_hash(&mut self, hash: Hash32) -> (r: bool)
        requires
            old(self).wf(),
        ensures
            final(self).wf(),
            final(self).type_set() == old(self).type_set().insert(hash),
            final(self).data_set() == old(self).data_set(),
            r == !old(self).type_set().contains(hash),
    {
        self.type_hashes.insert(hash)
    }

    /// Unregisters a data hash; returns whether it was registered.
    pub fn remove_data_hash(&mut self, hash: &Hash32) -> (r: bool)
        requires
            old(self).wf(),
        ensures
            final(self).wf(),
            final(self).data_set() == old(self).data_set().remove(*hash),
            final(self).type_set() == old(self).type_set(),
            r == old(self).data_set().contains(*hash),
    {
        self.data_hashes.remove(hash)
    }

    /// Unregisters a type hash; returns whether it was registered.
    pub fn remove_type_hash(&mut self, hash: &Hash32) -> (r: bool)
        requires
            old(self).wf(),
        ensures
            final(self).wf(),
            final(self).type_set() == old(self).type_set().remove(*hash),
            final(self).data_set() == old(self).data_set(),
            r == old(self).type_set().contains(*hash),
    {
        self.type_hashes.remove(hash)
    }

    /// Whether `hash` is the data hash of a mocked script.
    pub fn contains_data_hash(&self, hash: &Hash32) -> (r: bool)
        requires
            self.wf(),
        ensures
            r == self.data_set().contains(*hash),
    {
        self.data_hashes.contains(hash)
    }

    /// Whether `hash` is the type hash of a mocked script.
    pub fn contains_type_hash(&self, hash: &Hash32) -> (r: bool)
        requires
            self.wf(),
        ensures
            r == self.type_set().contains(*hash),
    {
        self.type_hashes.contains(hash)
    }

    /// Unregisters every hash.
    pub fn clear(&mut self)
        ensures
            final(self).wf(),
            final(self).data_set() == Set::<Hash32>::empty(),
            final(self).type_set() == Set::<Hash32>::empty(),
    {
        self.data_hashes.clear();
        self.type_hashes.clear();
    }

    /// Whether a script is mocked: by type hash for the `Type` hash type, by
    /// data hash for the other hash types; never for an invalid hash type.
    pub fn contains(&self, script: &Script) -> (r: bool)
        requires
            self.wf(),
        ensures
            r == is_mocked(self.data_set(), self.type_set(), script.code_hash, script.hash_type),
    {
        match script_hash_type_from_byte(script.hash_type) {
            Some(ScriptHashType::Type) => self.contains_type_hash(&script.code_hash),
            Some(_) => self.contains_data_hash(&script.code_hash),
            None => false,
        }
    }

    /// Whether resuming the script from `current_cycles` reports cycles that
    /// fit in 64 bits.
    pub fn resume_fits(version: ScriptVersion, script: &Script, max_cycles: u64, current_cycles: u64) -> (r: bool)
        ensures
            r == cycles_fit(version, script.args@, max_cycles as nat, current_cycles as nat),
    {
        let args = &script.args;
        let index: usize = match version {
            ScriptVersion::V0 => 0,
            ScriptVersion::V1 => 16,
        };
        if args.len() < index + 16 {
            return true;
        }
        let result_type = read_le(args.as_slice(), index, 8);
        let result_cycles = read_le(args.as_slice(), index + 8, 8);
        if result_cycles <= max_cycles {
            if result_type == 0 {
                current_cycles.checked_add(result_cycles).is_some()
            } else {
                true
            }
        } else {
            current_cycles.checked_add(max_cycles).is_some()
        }
    }

    /// Resumes a mocked script that has used `current_cycles` so far.
    pub fn resume(version: ScriptVersion, script: &Script, max_cycles: u64, current_cycles: u64) -> (r: MockedResult)
        requires
            cycles_fit(version, script.args@, max_cycles as nat, current_cycles as nat),
        ensures
            result_is(r, mocked_outcome(version, script.args@, max_cycles as nat, current_cycles as nat)),
    {
        let args = &script.args;
        let index: usize = match version {
            ScriptVersion::V0 => 0,
            ScriptVersion::V1 => 16,
        };
        if args.len() < index + 16 {
            let mut errmsg = String::from_str("no enough args (length is ");
            push_decimal(&mut errmsg, args.len() as u64);
            errmsg.append(" but requires ");
            push_decimal(&mut errmsg, index as u64);
            errmsg.append("..");
            push_decimal(&mut errmsg, (index + 16) as u64);
            errmsg.append(")");
            return MockedResult::Error(ScriptError::Mock(errmsg));
        }
        let result_type = read_le(args.as_slice(), index, 8);
        let result_cycles = read_le(args.as_slice(), index + 8, 8);
        if result_cycles <= max_cycles {
            if result_type == 0 {
                MockedResult::Completed(current_cycles + result_cycles)
            } else {
                let result_slice = slice_from(args.as_slice(), index);
                proof {
                    assert(result_slice@.subrange(0, 4) =~= args@.subrange(index as int, index + 4));
                    assert(result_slice@.subrange(4, 8) =~= args@.subrange(index + 4, index + 8));
                }
                MockedResult::Error(ScriptError::from_mocked(result_slice))
            }
        } else {
            MockedResult::Suspended(current_cycles + max_cycles)
        }
    }

    /// Executes a mocked script from the start.
    pub fn execute(version: ScriptVersion, script: &Script, max_cycles: u64) -> (r: MockedResult)
        ensures
            result_is(r, mocked_outcome(version, script.args@, max_cycles as nat, 0)),
    {
        proof {
            lemma_fits_from_zero(version, script.args@, max_cycles);
        }
        Self::resume(version, script, max_cycles, 0)
    }

    /// Runs a mocked script: its cycles when it completes, the cycle limit
    /// error when it would need more than `max_cycles`, its failure otherwise.
    pub fn run(version: ScriptVersion, script: &Script, max_cycles: u64) -> (r: Result<u64, ScriptError>)
        ensures
            match mocked_outcome(version, script.args@, max_cycles as nat, 0) {
                MockedOutcome::Completed(c) => r == Ok::<u64, ScriptError>(c as u64),
                MockedOutcome::Suspended(c) => r == Err::<u64, ScriptError>(ScriptError::ExceededMaximumCycles(c as u64)),
                MockedOutcome::Failed(s) => r matches Err(ScriptError::Mock(m)) && m@ == s,
            },
    {
        match Self::execute(version, script, max_cycles) {
            MockedResult::Completed(cycles) => Ok(cycles),
            MockedResult::Suspended(cycles) => Err(ScriptError::ExceededMaximumCycles(cycles)),
            MockedResult::Error(error) => Err(error),
        }
    }

    /// Runs a mocked script in chunk mode, resuming from a snapshot's cycles
    /// when one is given.
    pub fn chunk_run(
        version: ScriptVersion,
        script: &Script,
        max_cycles: u64,
        snap_cycles: Option<u64>,
    ) -> (r: Result<ChunkState, ScriptError>)
        requires
            snap_cycles matches Some(c) ==> cycles_fit(version, script.args@, max_cycles as nat, c as nat),
        ensures
            match mocked_outcome(
                version,
                script.args@,
                max_cycles as nat,
                match snap_cycles {
                    Some(c) => c as nat,
                    None => 0,
                },
            ) {
                MockedOutcome::Completed(c) => r == Ok::<ChunkState, ScriptError>(ChunkState::Completed(c as u64)),
                MockedOutcome::Suspended(c) => r == Ok::<ChunkState, ScriptError>(ChunkState::Suspended(c as u64)),
                MockedOutcome::Failed(s) => r matches Err(ScriptError::Mock(m)) && m@ == s,
            },
    {
        let mocked_result = match snap_cycles {
            Some(current_cycle) => Self::resume(version, script, max_cycles, current_cycle),
            None => Self::execute(version, script, max_cycles),
        };
        match mocked_result {
            MockedResult::Completed(cycles) => Ok(ChunkState::Completed(cycles)),
            MockedResult::Suspended(cycles) => Ok(ChunkState::Suspended(cycles)),
            MockedResult::Error(error) => Err(error),
        }
    }
}

/// The bytes of `s` from `start` on.
fn slice_from(s: &[u8], start: usize) -> (r: &[u8])
    requires
        start <= s@.len(),
    ensures
        r@ == s@.subrange(start as int, s@.len() as int),
{
    vstd::slice::slice_subrange(s, start, s.len())
}

} // verus!

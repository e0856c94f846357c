//! The miner's search for a seal: the nonces tried in a round and what a
//! round's outcome leads to.

use vstd::prelude::*;

verus! {

/// A proof-of-work seal: the nonce and the proof bytes.
#[derive(Clone, Debug)]
pub struct Seal {
    pub nonce: u64,
    pub proof: Vec<u8>,
}

/// What to do after a round of the search.
#[derive(Debug)]
pub enum MineStep {
    /// New work arrived: give up the current header.
    Stop,
    /// A seal was found.
    Found(Seal),
    /// Try again from this nonce.
    Next(u64),
}

/// The nonces of one round: one per CPU, `nonce + cpu_id`.
pub fn round_nonces(nonce: u64, cpu_nums: u64) -> (r: Vec<u64>)
    requires
        nonce + cpu_nums <= u64::MAX + 1,
    ensures
        r@ == Seq::new(cpu_nums as nat, |i: int| (nonce + i) as u64),
{
    let mut r: Vec<u64> = Vec::new();
    let mut cpu_id: u64 = 0;
    while cpu_id < cpu_nums
        invariant
            cpu_id <= cpu_nums,
            nonce + cpu_nums <= u64::MAX + 1,
            r@ =~= Seq::new(cpu_id as nat, |i: int| (nonce + i) as u64),
        decreases cpu_nums - cpu_id,
    {
        r.push(nonce + cpu_id);
        cpu_id += 1;
    }
    r
}

/// The outcome of a round: new work stops the search, a found seal ends it,
/// otherwise the next round starts at the next nonce (wrapping around).
pub fn mine_loop_step(nonce: u64, new_work: bool, found: Option<Seal>) -> (r: MineStep)
    ensures
        new_work ==> r is Stop,
        !new_work && found is Some ==> (r matches MineStep::Found(s) && s == found.unwrap()),
        !new_work && found is None ==> r == MineStep::Next(
            if nonce == u64::MAX { 0 } else { (nonce + 1) as u64 },
        ),
{
    if new_work {
        return MineStep::Stop;
    }
    match found {
        Some(seal) => MineStep::Found(seal),
        None => MineStep::Next(nonce.wrapping_add(1)),
    }
}

} // verus!

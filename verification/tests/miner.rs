use ckb::miner::{mine_loop_step, round_nonces, MineStep, Seal};

#[test]
fn nonces_per_cpu() {
    assert_eq!(round_nonces(10, 4), vec![10, 11, 12, 13]);
    assert_eq!(round_nonces(u64::MAX - 1, 2), vec![u64::MAX - 1, u64::MAX]);
    assert!(round_nonces(5, 0).is_empty());
}

#[test]
fn round_outcomes() {
    assert!(matches!(mine_loop_step(3, true, None), MineStep::Stop));
    assert!(matches!(mine_loop_step(3, true, Some(Seal { nonce: 3, proof: vec![] })), MineStep::Stop));
    match mine_loop_step(3, false, Some(Seal { nonce: 4, proof: vec![1, 2] })) {
        MineStep::Found(s) => {
            assert_eq!(s.nonce, 4);
            assert_eq!(s.proof, vec![1, 2]);
        }
        other => panic!("unexpected {:?}", other),
    }
    assert!(matches!(mine_loop_step(3, false, None), MineStep::Next(4)));
    assert!(matches!(mine_loop_step(u64::MAX, false, None), MineStep::Next(0)));
}

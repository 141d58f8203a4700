use std::collections::BTreeMap;

use poll_program::abort::{alloc_error, Abort};
use poll_program::codec::{decode_poll, encode_poll};
use poll_program::error::PollError;
use poll_program::identity::{Identity, KeyOrder};
use poll_program::instruction::PollInstruction;
use poll_program::poll::Poll;
use poll_program::processor::{process_instruction, AccountState, Report};

fn id(b: u8) -> Identity {
    Identity::new([b; 32])
}

fn texts(items: &[&str]) -> Vec<String> {
    items.iter().map(|s| s.to_string()).collect()
}

fn abc_poll() -> Poll {
    Poll::new(id(9), "Pick one".to_string(), texts(&["A", "B", "C"]))
}

fn percentages(counts: &[u64], total: u64) -> Vec<f64> {
    counts
        .iter()
        .map(|&c| if total > 0 { (c as f64 / total as f64) * 100.0 } else { 0.0 })
        .collect()
}

fn create_bytes(question: &str, options: &[&str]) -> Vec<u8> {
    borsh::to_vec(&(0u8, question.to_string(), texts(options))).unwrap()
}

fn vote_bytes(poll_id: u64, option_index: u8) -> Vec<u8> {
    borsh::to_vec(&(1u8, poll_id, option_index)).unwrap()
}

fn accounts(data_len: usize, second: Identity, signer: bool) -> Vec<AccountState> {
    vec![
        AccountState { key: id(1), is_signer: false, data: vec![0u8; data_len] },
        AccountState { key: second, is_signer: signer, data: Vec::new() },
    ]
}

#[test]
fn new_poll_has_no_votes() {
    let p = abc_poll();
    assert_eq!(p.total_votes, 0);
    assert!(p.votes.is_empty());
    assert!(p.voter_addresses.is_empty());
    assert!(p.is_valid());
    assert_eq!(p.get_results(), vec![0, 0, 0]);
}

#[test]
fn poll_without_options_is_not_valid() {
    let p = Poll::new(id(9), "Q".to_string(), Vec::new());
    assert!(!p.is_valid());
}

#[test]
fn two_distinct_voters_are_counted() {
    let mut p = abc_poll();
    assert_eq!(p.vote(id(5), 2), Ok(()));
    assert_eq!(p.vote(id(3), 2), Ok(()));
    assert_eq!(p.total_votes, 2);
    let r = p.get_results();
    assert_eq!(r.iter().sum::<u64>(), 2);
    assert_eq!(r, vec![0, 0, 2]);
    // entries are kept in voter order, the log in voting order
    assert_eq!(p.votes, vec![(id(3), 2), (id(5), 2)]);
    assert_eq!(p.voter_addresses, vec![id(5), id(3)]);
    assert!(p.is_valid());
}

#[test]
fn second_vote_from_same_voter_fails() {
    let mut p = abc_poll();
    assert_eq!(p.vote(id(4), 0), Ok(()));
    assert_eq!(p.vote(id(4), 1), Err(PollError::InvalidArgument));
    assert_eq!(p.total_votes, 1);
    assert_eq!(p.votes, vec![(id(4), 0)]);
    assert_eq!(p.voter_addresses, vec![id(4)]);
}

#[test]
fn out_of_range_option_fails() {
    let mut p = abc_poll();
    assert_eq!(p.vote(id(4), 3), Err(PollError::InvalidArgument));
    assert_eq!(p.vote(id(4), 255), Err(PollError::InvalidArgument));
    assert_eq!(p.total_votes, 0);
    assert!(p.votes.is_empty());
}

#[test]
fn tally_length_and_sum() {
    let mut p = Poll::new(id(9), "Q".to_string(), texts(&["x", "y", "z", "w"]));
    for (i, v) in [1u8, 3, 3, 0, 3].iter().enumerate() {
        assert_eq!(p.vote(id(i as u8 + 10), *v), Ok(()));
    }
    let r = p.get_results();
    assert_eq!(r.len(), 4);
    assert_eq!(r, vec![1, 1, 0, 3]);
    assert_eq!(r.iter().sum::<u64>(), p.total_votes);
    assert_eq!(p.get_results(), r);
}

#[test]
fn three_votes_scenario() {
    let mut p = abc_poll();
    assert_eq!(p.vote(id(1), 0), Ok(()));
    assert_eq!(p.vote(id(2), 1), Ok(()));
    assert_eq!(p.vote(id(3), 1), Ok(()));
    let d = p.get_detailed_results();
    assert_eq!(d.counts, vec![1, 2, 0]);
    assert_eq!(d.total_votes, 3);
    assert_eq!(d.voters, vec![id(1), id(2), id(3)]);
    let pct = percentages(&d.counts, d.total_votes);
    assert!((pct[0] - 33.33).abs() < 0.01);
    assert!((pct[1] - 66.67).abs() < 0.01);
    assert_eq!(pct[2], 0.0);
    for x in pct {
        assert!((0.0..=100.0).contains(&x));
    }
}

#[test]
fn empty_poll_scenario() {
    let p = abc_poll();
    let d = p.get_detailed_results();
    assert_eq!(d.counts, vec![0, 0, 0]);
    assert_eq!(d.total_votes, 0);
    assert_eq!(percentages(&d.counts, d.total_votes), vec![0.0, 0.0, 0.0]);
}

#[test]
fn identity_order_is_bytewise() {
    let mut a = [7u8; 32];
    let mut b = [7u8; 32];
    a[31] = 1;
    b[31] = 2;
    assert_eq!(Identity::new(a).compare(&Identity::new(b)), KeyOrder::Less);
    assert_eq!(Identity::new(b).compare(&Identity::new(a)), KeyOrder::Greater);
    assert_eq!(Identity::new(a).compare(&Identity::new(a)), KeyOrder::Equal);
    b[0] = 0;
    assert_eq!(Identity::new(a).compare(&Identity::new(b)), KeyOrder::Greater);
    assert!(Identity::new(a).same_as(&Identity::new(a)));
    assert!(!Identity::new(a).same_as(&Identity::new(b)));
}

#[test]
fn stored_poll_matches_borsh_layout() {
    let mut p = Poll::new(id(9), "Best fruit?".to_string(), texts(&["apple", "pear"]));
    p.vote(id(200), 1).unwrap();
    p.vote(id(7), 0).unwrap();
    let ours = encode_poll(&p).unwrap();
    let mut map = BTreeMap::new();
    map.insert([200u8; 32], 1u8);
    map.insert([7u8; 32], 0u8);
    let theirs = borsh::to_vec(&(
        [9u8; 32],
        "Best fruit?".to_string(),
        texts(&["apple", "pear"]),
        map,
        2u64,
        vec![[200u8; 32], [7u8; 32]],
    ))
    .unwrap();
    assert_eq!(ours, theirs);
}

#[test]
fn decode_then_encode_gives_the_same_bytes() {
    let mut p = Poll::new(id(9), "héllo wörld".to_string(), texts(&["ü", "b"]));
    p.vote(id(3), 1).unwrap();
    p.vote(id(1), 0).unwrap();
    let bytes = encode_poll(&p).unwrap();
    let mut padded = bytes.clone();
    padded.extend_from_slice(&[0xAB; 10]);
    let (q, n) = decode_poll(&padded).unwrap();
    assert_eq!(n, bytes.len());
    assert_eq!(q.question, "héllo wörld");
    assert_eq!(q.options, texts(&["ü", "b"]));
    assert_eq!(q.votes, p.votes);
    assert_eq!(q.voter_addresses, p.voter_addresses);
    assert_eq!(encode_poll(&q).unwrap(), bytes);
}

#[test]
fn decode_rejects_bad_bytes() {
    let p = abc_poll();
    let bytes = encode_poll(&p).unwrap();
    assert_eq!(decode_poll(&bytes[..bytes.len() - 1]).err(), Some(PollError::DecodeError));
    // invalid UTF-8 in the question
    let mut bad = bytes.clone();
    bad[36] = 0xFF;
    assert_eq!(decode_poll(&bad).err(), Some(PollError::DecodeError));
    // a zeroed buffer holds no poll
    assert_eq!(decode_poll(&[0u8; 100]).err(), Some(PollError::MissingState));
    // total that disagrees with the entries
    let mut p2 = abc_poll();
    p2.total_votes = 1;
    let b2 = encode_poll(&p2).unwrap();
    assert_eq!(decode_poll(&b2).err(), Some(PollError::DecodeError));
    // entries out of voter order
    let mut p3 = abc_poll();
    p3.vote(id(1), 0).unwrap();
    p3.vote(id(2), 0).unwrap();
    p3.votes.swap(0, 1);
    let b3 = encode_poll(&p3).unwrap();
    assert_eq!(decode_poll(&b3).err(), Some(PollError::DecodeError));
}

#[test]
fn instruction_decoding() {
    match PollInstruction::decode(&create_bytes("Q?", &["a", "b"])) {
        Ok(PollInstruction::CreatePoll { question, options }) => {
            assert_eq!(question, "Q?");
            assert_eq!(options, texts(&["a", "b"]));
        }
        other => panic!("unexpected {:?}", other),
    }
    match PollInstruction::decode(&vote_bytes(42, 3)) {
        Ok(PollInstruction::Vote { poll_id, option_index }) => {
            assert_eq!(poll_id, 42);
            assert_eq!(option_index, 3);
        }
        other => panic!("unexpected {:?}", other),
    }
    let results = borsh::to_vec(&(2u8, 0x0102030405060708u64)).unwrap();
    assert!(matches!(PollInstruction::decode(&results), Ok(PollInstruction::GetResults { poll_id: 0x0102030405060708 })));
    let detailed = borsh::to_vec(&(3u8, 5u64)).unwrap();
    assert!(matches!(PollInstruction::decode(&detailed), Ok(PollInstruction::GetDetailedResults { poll_id: 5 })));
    assert_eq!(PollInstruction::decode(&[]).err(), Some(PollError::DecodeError));
    assert_eq!(PollInstruction::decode(&[4, 0, 0, 0, 0, 0, 0, 0, 0]).err(), Some(PollError::DecodeError));
    assert_eq!(PollInstruction::decode(&[1, 0, 0, 0]).err(), Some(PollError::DecodeError));
    let mut long = vote_bytes(1, 1);
    long.push(0);
    assert_eq!(PollInstruction::decode(&long).err(), Some(PollError::DecodeError));
}

#[test]
fn create_vote_and_query_through_the_state_machine() {
    let prog = id(0);
    let creator = id(9);
    let mut acc = accounts(512, creator, true);
    assert!(matches!(process_instruction(&prog, &mut acc, &create_bytes("Q", &["A", "B", "C"])), Ok(Report::Created)));
    assert_eq!(acc[0].data.len(), 512);
    for (voter, option) in [(id(1), 0u8), (id(2), 1), (id(3), 1)] {
        acc[1] = AccountState { key: voter, is_signer: true, data: Vec::new() };
        assert!(matches!(process_instruction(&prog, &mut acc, &vote_bytes(0, option)), Ok(Report::Voted)));
    }
    match process_instruction(&prog, &mut acc, &borsh::to_vec(&(2u8, 0u64)).unwrap()) {
        Ok(Report::Results(counts)) => assert_eq!(counts, vec![1, 2, 0]),
        other => panic!("unexpected {:?}", other),
    }
    acc[1] = AccountState { key: creator, is_signer: false, data: Vec::new() };
    match process_instruction(&prog, &mut acc, &borsh::to_vec(&(3u8, 0u64)).unwrap()) {
        Ok(Report::Detailed { question, options, results }) => {
            assert_eq!(question, "Q");
            assert_eq!(options, texts(&["A", "B", "C"]));
            assert_eq!(results.counts, vec![1, 2, 0]);
            assert_eq!(results.total_votes, 3);
            assert_eq!(results.voters, vec![id(1), id(2), id(3)]);
        }
        other => panic!("unexpected {:?}", other),
    }
}

#[test]
fn detailed_results_only_for_the_creator() {
    let prog = id(0);
    let mut acc = accounts(256, id(9), true);
    process_instruction(&prog, &mut acc, &create_bytes("Q", &["A"])).unwrap();
    acc[1] = AccountState { key: id(8), is_signer: true, data: Vec::new() };
    let query = borsh::to_vec(&(3u8, 0u64)).unwrap();
    assert_eq!(process_instruction(&prog, &mut acc, &query).err(), Some(PollError::MissingSigner));
    acc[1] = AccountState { key: id(9), is_signer: true, data: Vec::new() };
    assert!(process_instruction(&prog, &mut acc, &query).is_ok());
}

#[test]
fn failed_vote_leaves_buffer_unchanged() {
    let prog = id(0);
    let mut acc = accounts(256, id(9), true);
    process_instruction(&prog, &mut acc, &create_bytes("Q", &["A", "B"])).unwrap();
    acc[1] = AccountState { key: id(4), is_signer: true, data: Vec::new() };
    process_instruction(&prog, &mut acc, &vote_bytes(0, 0)).unwrap();
    let before = acc[0].data.clone();
    assert_eq!(process_instruction(&prog, &mut acc, &vote_bytes(0, 1)).err(), Some(PollError::InvalidArgument));
    assert_eq!(acc[0].data, before);
    acc[1] = AccountState { key: id(5), is_signer: true, data: Vec::new() };
    assert_eq!(process_instruction(&prog, &mut acc, &vote_bytes(0, 2)).err(), Some(PollError::InvalidArgument));
    assert_eq!(acc[0].data, before);
}

#[test]
fn state_machine_errors() {
    let prog = id(0);
    let create = create_bytes("Q", &["A"]);
    let mut acc = accounts(256, id(9), false);
    assert_eq!(process_instruction(&prog, &mut acc, &create).err(), Some(PollError::MissingSigner));
    assert_eq!(process_instruction(&prog, &mut acc, &vote_bytes(0, 0)).err(), Some(PollError::MissingSigner));
    let mut one = vec![AccountState { key: id(1), is_signer: true, data: vec![0u8; 256] }];
    assert_eq!(process_instruction(&prog, &mut one, &create).err(), Some(PollError::NotEnoughAccountKeys));
    let mut none: Vec<AccountState> = Vec::new();
    let results = borsh::to_vec(&(2u8, 0u64)).unwrap();
    assert_eq!(process_instruction(&prog, &mut none, &results).err(), Some(PollError::NotEnoughAccountKeys));
    let mut signed = accounts(256, id(9), true);
    assert_eq!(process_instruction(&prog, &mut signed, &create_bytes("Q", &[])).err(), Some(PollError::InvalidArgument));
    assert_eq!(process_instruction(&prog, &mut signed, &vote_bytes(0, 0)).err(), Some(PollError::MissingState));
    assert_eq!(process_instruction(&prog, &mut signed, &results).err(), Some(PollError::MissingState));
    assert_eq!(process_instruction(&prog, &mut signed, &[7u8]).err(), Some(PollError::DecodeError));
    let mut small = accounts(10, id(9), true);
    assert_eq!(process_instruction(&prog, &mut small, &create).err(), Some(PollError::AccountDataTooSmall));
    assert_eq!(small[0].data, vec![0u8; 10]);
}

#[test]
fn abort_handlers_report_their_reason() {
    assert_eq!(poll_program::abort::panic(), Abort::Panicked);
    assert_eq!(alloc_error(1 << 20), Abort::AllocationFailed);
}

#[test]
fn detailed_counts_never_exceed_total() {
    let mut p = Poll::new(id(9), "Q".to_string(), texts(&["x", "y"]));
    for i in 0..10u8 {
        p.vote(id(i + 20), i % 2).unwrap();
    }
    let d = p.get_detailed_results();
    assert_eq!(d.counts, vec![5, 5]);
    assert_eq!(d.total_votes, 10);
    assert!(d.counts.iter().all(|&c| c <= d.total_votes));
    assert_eq!(percentages(&d.counts, d.total_votes), vec![50.0, 50.0]);
}

//! The state machine: decode the request, load the poll, authorize, then
//! either mutate and store the poll or report from it.
use vstd::prelude::*;
use crate::codec::{
    decode_poll, encodable, encode_poll, lemma_same_poll_same_bytes, lemma_texts_body_views, lemma_vote_grows_bytes, len_prefix, poll_bytes,
    stored_at_start, text_bytes, texts_body, u64_le, write_prefix,
};
use crate::error::PollError;
use crate::identity::Identity;
use crate::instruction::{PollInstruction, encodes, same_instruction};
use crate::poll::{DetailedResults, Poll, count_for, has_voted, same_poll, vote_outcome};

verus! {

/// One account handle of an invocation: its identity, whether it signed the
/// invocation, and its data buffer (whose length never changes).
#[derive(Debug)]
pub struct AccountState {
    pub key: Identity,
    pub is_signer: bool,
    pub data: Vec<u8>,
}

/// What a successful invocation reports.
#[derive(Debug)]
pub enum Report {
    Created,
    Voted,
    Results(Vec<u64>),
    Detailed { question: String, options: Vec<String>, results: DetailedResults },
}

/// The first account's data now starts with `bytes`; everything else is as before.
pub open spec fn first_data_written(old: Seq<AccountState>, new: Seq<AccountState>, bytes: Seq<u8>) -> bool {
    &&& old.len() >= 1
    &&& new.len() == old.len()
    &&& new[0].key == old[0].key
    &&& new[0].is_signer == old[0].is_signer
    &&& new[0].data@ == bytes + old[0].data@.skip(bytes.len() as int)
    &&& forall|i: int| 1 <= i < old.len() ==> new[i] == old[i]
}

/// The stored form of a poll that has no votes yet.
pub open spec fn fresh_poll_bytes(creator: Identity, question: String, options: Seq<String>) -> Seq<u8> {
    creator@ + text_bytes(question@) + len_prefix(options.len() as int) + texts_body(options) + len_prefix(0)
        + u64_le(0) + len_prefix(0)
}

/// Result of a create request on `old`, leaving `new`.
pub open spec fn create_outcome(
    old: Seq<AccountState>,
    question: String,
    options: Seq<String>,
    new: Seq<AccountState>,
    r: Result<Report, PollError>,
) -> bool {
    if old.len() < 2 {
        r == Err::<Report, PollError>(PollError::NotEnoughAccountKeys) && new == old
    } else if !old[1].is_signer {
        r == Err::<Report, PollError>(PollError::MissingSigner) && new == old
    } else if options.len() == 0 {
        r == Err::<Report, PollError>(PollError::InvalidArgument) && new == old
    } else {
        let bytes = fresh_poll_bytes(old[1].key, question, options);
        let fits = crate::codec::text_fits(question@) && options.len() <= u32::MAX && (forall|i: int|
            0 <= i < options.len() ==> crate::codec::text_fits((#[trigger] options[i])@));
        if fits && bytes.len() <= old[0].data@.len() {
            r == Ok::<Report, PollError>(Report::Created) && first_data_written(old, new, bytes)
        } else {
            r == Err::<Report, PollError>(PollError::AccountDataTooSmall) && new == old
        }
    }
}

/// The first account's data starts with some valid poll.
pub open spec fn holds_poll(accounts: Seq<AccountState>) -> bool {
    exists|p: Poll, n: int| #[trigger] stored_at_start(accounts[0].data@, p, n)
}

/// Result of a vote request on `old`, leaving `new`.
pub open spec fn vote_request_outcome(
    old: Seq<AccountState>,
    option_index: u8,
    new: Seq<AccountState>,
    r: Result<Report, PollError>,
) -> bool {
    if old.len() < 2 {
        r == Err::<Report, PollError>(PollError::NotEnoughAccountKeys) && new == old
    } else if !old[1].is_signer {
        r == Err::<Report, PollError>(PollError::MissingSigner) && new == old
    } else if !holds_poll(old) {
        (r == Err::<Report, PollError>(PollError::DecodeError) || r == Err::<Report, PollError>(PollError::MissingState))
            && new == old
    } else {
        &&& forall|p0: Poll, n: int| #[trigger] stored_at_start(old[0].data@, p0, n) ==> {
            if option_index as int >= p0.options@.len() || has_voted(p0.votes@, old[1].key@) {
                r == Err::<Report, PollError>(PollError::InvalidArgument)
            } else if p0.votes@.len() + 1 <= u32::MAX && poll_bytes(p0).len() + 65 <= old[0].data@.len() {
                r == Ok::<Report, PollError>(Report::Voted)
            } else {
                r == Err::<Report, PollError>(PollError::AccountDataTooSmall)
            }
        }
        &&& r is Err ==> new == old
        &&& r is Ok ==> exists|p0: Poll, n: int, p1: Poll|
            #[trigger] stored_at_start(old[0].data@, p0, n) && #[trigger] vote_outcome(p0, old[1].key, option_index, p1, Ok(()))
                && first_data_written(old, new, poll_bytes(p1))
    }
}

/// Result of a results query on `accounts`.
pub open spec fn results_outcome(accounts: Seq<AccountState>, r: Result<Report, PollError>) -> bool {
    if accounts.len() < 1 {
        r == Err::<Report, PollError>(PollError::NotEnoughAccountKeys)
    } else if !holds_poll(accounts) {
        r == Err::<Report, PollError>(PollError::DecodeError) || r == Err::<Report, PollError>(PollError::MissingState)
    } else {
        match r {
            Ok(Report::Results(counts)) => forall|p: Poll, n: int| #[trigger] stored_at_start(accounts[0].data@, p, n)
                ==> counts@.len() == p.options@.len() && (forall|k: int|
                0 <= k < counts@.len() ==> counts@[k] as int == count_for(p.votes@, k)),
            _ => false,
        }
    }
}

/// Result of a detailed results query on `accounts`: only the poll's creator
/// may see them.
pub open spec fn detailed_outcome(accounts: Seq<AccountState>, r: Result<Report, PollError>) -> bool {
    if accounts.len() < 2 {
        r == Err::<Report, PollError>(PollError::NotEnoughAccountKeys)
    } else if !holds_poll(accounts) {
        r == Err::<Report, PollError>(PollError::DecodeError) || r == Err::<Report, PollError>(PollError::MissingState)
    } else {
        forall|p: Poll, n: int| #[trigger] stored_at_start(accounts[0].data@, p, n) ==> {
            if accounts[1].key@ != p.creator@ {
                r == Err::<Report, PollError>(PollError::MissingSigner)
            } else {
                match r {
                    Ok(Report::Detailed { question, options, results }) => {
                        &&& question@ == p.question@
                        &&& options@.len() == p.options@.len()
                        &&& forall|k: int| 0 <= k < options@.len() ==> (#[trigger] options@[k])@ == p.options@[k]@
                        &&& results.counts@.len() == p.options@.len()
                        &&& forall|k: int| 0 <= k < results.counts@.len() ==> results.counts@[k] as int == count_for(p.votes@, k)
                        &&& results.total_votes == p.total_votes
                        &&& results.voters@ == p.voter_addresses@
                    },
                    _ => false,
                }
            }
        }
    }
}

/// Writes `poll` at the start of `data`; fails, changing nothing, when it does
/// not fit.
pub fn store_poll(poll: &Poll, data: &mut Vec<u8>) -> (r: Result<(), PollError>)
    ensures
        r is Ok <==> encodable(*poll) && poll_bytes(*poll).len() <= old(data)@.len(),
        r is Ok ==> final(data)@ == poll_bytes(*poll) + old(data)@.skip(poll_bytes(*poll).len() as int),
        r is Err ==> r == Err::<(), PollError>(PollError::AccountDataTooSmall) && final(data)@ == old(data)@,
{
    match encode_poll(poll) {
        None => Err(PollError::AccountDataTooSmall),
        Some(bytes) => {
            if bytes.len() > data.len() {
                return Err(PollError::AccountDataTooSmall);
            }
            write_prefix(data, &bytes);
            Ok(())
        },
    }
}

/// Replaces the first account's data with `poll`'s stored form.
fn store_in_first(accounts: &mut Vec<AccountState>, poll: &Poll) -> (r: Result<(), PollError>)
    requires
        old(accounts)@.len() >= 1,
    ensures
        r is Ok <==> encodable(*poll) && poll_bytes(*poll).len() <= old(accounts)@[0].data@.len(),
        r is Ok ==> first_data_written(old(accounts)@, final(accounts)@, poll_bytes(*poll)),
        r is Err ==> r == Err::<(), PollError>(PollError::AccountDataTooSmall) && final(accounts)@ == old(accounts)@,
{
    let mut data = accounts[0].data.clone();
    assert(data@ == accounts@[0].data@);
    match store_poll(poll, &mut data) {
        Ok(()) => {
            let key = accounts[0].key;
            let is_signer = accounts[0].is_signer;
            accounts.set(0, AccountState { key, is_signer, data });
            Ok(())
        },
        Err(e) => Err(e),
    }
}

/// Creates a poll whose creator is the second account, stored in the first.
pub fn process_create_poll(accounts: &mut Vec<AccountState>, question: String, options: Vec<String>) -> (r: Result<
    Report,
    PollError,
>)
    ensures
        create_outcome(old(accounts)@, question, options@, final(accounts)@, r),
{
    if accounts.len() < 2 {
        return Err(PollError::NotEnoughAccountKeys);
    }
    if !accounts[1].is_signer {
        return Err(PollError::MissingSigner);
    }
    if options.len() == 0 {
        return Err(PollError::InvalidArgument);
    }
    let ghost q = question;
    let ghost o = options@;
    let poll = Poll::new(accounts[1].key, question, options);
    assert(poll_bytes(poll) =~= fresh_poll_bytes(accounts@[1].key, q, o));
    match store_in_first(accounts, &poll) {
        Ok(()) => Ok(Report::Created),
        Err(e) => Err(e),
    }
}

/// Records the second account's vote in the poll stored in the first.
pub fn process_vote(accounts: &mut Vec<AccountState>, option_index: u8) -> (r: Result<Report, PollError>)
    ensures
        vote_request_outcome(old(accounts)@, option_index, final(accounts)@, r),
{
    if accounts.len() < 2 {
        return Err(PollError::NotEnoughAccountKeys);
    }
    if !accounts[1].is_signer {
        return Err(PollError::MissingSigner);
    }
    let (mut poll, n) = match decode_poll(accounts[0].data.as_slice()) {
        Ok(x) => x,
        Err(e) => return Err(e),
    };
    let ghost p0 = poll;
    let ghost before = accounts@;
    proof {
        assert(stored_at_start(before[0].data@, p0, n as int));
        assert forall|p: Poll, m: int| #[trigger] stored_at_start(before[0].data@, p, m) implies same_poll(p0, p) by {}
    }
    let voter = accounts[1].key;
    match poll.vote(voter, option_index) {
        Ok(()) => {},
        Err(e) => {
            proof {
                assert forall|p: Poll, m: int| #[trigger] stored_at_start(before[0].data@, p, m) implies option_index as int
                    >= p.options@.len() || has_voted(p.votes@, before[1].key@) by {
                    assert(same_poll(p0, p));
                }
            }
            return Err(e);
        },
    }
    proof {
        lemma_vote_grows_bytes(p0, voter, option_index, poll);
        assert forall|p: Poll, m: int| #[trigger] stored_at_start(before[0].data@, p, m) implies !(option_index as int
            >= p.options@.len() || has_voted(p.votes@, before[1].key@)) && poll_bytes(p) == poll_bytes(p0) && p.votes@.len()
            == p0.votes@.len() by {
            assert(same_poll(p0, p));
            lemma_same_poll_same_bytes(p0, p);
        }
    }
    match store_in_first(accounts, &poll) {
        Ok(()) => {
            assert(vote_outcome(p0, accounts@[1].key, option_index, poll, Ok(())));
            Ok(Report::Voted)
        },
        Err(e) => Err(e),
    }
}

/// Reports the vote count of each option of the poll stored in the first account.
pub fn process_get_results(accounts: &Vec<AccountState>) -> (r: Result<Report, PollError>)
    ensures
        results_outcome(accounts@, r),
{
    if accounts.len() < 1 {
        return Err(PollError::NotEnoughAccountKeys);
    }
    let (poll, n) = match decode_poll(accounts[0].data.as_slice()) {
        Ok(x) => x,
        Err(e) => return Err(e),
    };
    let counts = poll.get_results();
    proof {
        assert(stored_at_start(accounts@[0].data@, poll, n as int));
        assert forall|p: Poll, m: int| #[trigger] stored_at_start(accounts@[0].data@, p, m) implies same_poll(poll, p) by {}
    }
    Ok(Report::Results(counts))
}

/// Reports counts, total and voters to the poll's creator, who must be the
/// second account.
pub fn process_get_detailed_results(accounts: &Vec<AccountState>) -> (r: Result<Report, PollError>)
    ensures
        detailed_outcome(accounts@, r),
{
    if accounts.len() < 2 {
        return Err(PollError::NotEnoughAccountKeys);
    }
    let (poll, n) = match decode_poll(accounts[0].data.as_slice()) {
        Ok(x) => x,
        Err(e) => return Err(e),
    };
    proof {
        assert(stored_at_start(accounts@[0].data@, poll, n as int));
        assert forall|p: Poll, m: int| #[trigger] stored_at_start(accounts@[0].data@, p, m) implies same_poll(poll, p) by {}
    }
    if !accounts[1].key.same_as(&poll.creator) {
        return Err(PollError::MissingSigner);
    }
    let results = poll.get_detailed_results();
    Ok(Report::Detailed { question: poll.question, options: poll.options, results })
}

/// What handling the request `ins` does to `old`, leaving `new`.
pub open spec fn request_outcome(
    old: Seq<AccountState>,
    ins: PollInstruction,
    new: Seq<AccountState>,
    r: Result<Report, PollError>,
) -> bool {
    match ins {
        PollInstruction::CreatePoll { question, options } => create_outcome(old, question, options@, new, r),
        PollInstruction::Vote { poll_id, option_index } => vote_request_outcome(old, option_index, new, r),
        PollInstruction::GetResults { poll_id } => results_outcome(old, r) && new == old,
        PollInstruction::GetDetailedResults { poll_id } => detailed_outcome(old, r) && new == old,
    }
}

proof fn lemma_same_request_same_outcome(
    old: Seq<AccountState>,
    a: PollInstruction,
    c: PollInstruction,
    new: Seq<AccountState>,
    r: Result<Report, PollError>,
)
    requires
        same_instruction(a, c),
        request_outcome(old, a, new, r),
    ensures
        request_outcome(old, c, new, r),
{
    if let (
        PollInstruction::CreatePoll { question: q1, options: o1 },
        PollInstruction::CreatePoll { question: q2, options: o2 },
    ) = (a, c) {
        lemma_texts_body_views(o1@, o2@);
        assert((forall|i: int| 0 <= i < o1@.len() ==> crate::codec::text_fits((#[trigger] o1@[i])@)) == (forall|i: int|
            0 <= i < o2@.len() ==> crate::codec::text_fits((#[trigger] o2@[i])@))) by {
            if forall|i: int| 0 <= i < o1@.len() ==> crate::codec::text_fits((#[trigger] o1@[i])@) {
                assert forall|i: int| 0 <= i < o2@.len() implies crate::codec::text_fits((#[trigger] o2@[i])@) by {
                    assert(crate::codec::text_fits(o1@[i]@));
                }
            }
            if forall|i: int| 0 <= i < o2@.len() ==> crate::codec::text_fits((#[trigger] o2@[i])@) {
                assert forall|i: int| 0 <= i < o1@.len() implies crate::codec::text_fits((#[trigger] o1@[i])@) by {
                    assert(crate::codec::text_fits(o2@[i]@));
                }
            }
        }
    }
}

/// Runs one invocation: decodes `instruction_data` and handles the request
/// against `accounts`. Data that encodes no request fails with `DecodeError`;
/// on any error no account changes.
pub fn process_instruction(
    program_id: &Identity,
    accounts: &mut Vec<AccountState>,
    instruction_data: &[u8],
) -> (r: Result<Report, PollError>)
    ensures
        r is Err ==> final(accounts)@ == old(accounts)@,
        forall|ins: PollInstruction| #[trigger] encodes(instruction_data@, ins) ==> request_outcome(
            old(accounts)@,
            ins,
            final(accounts)@,
            r,
        ),
        (forall|ins: PollInstruction| !#[trigger] encodes(instruction_data@, ins)) ==> r == Err::<Report, PollError>(
            PollError::DecodeError,
        ),
{
    let instruction = match PollInstruction::decode(instruction_data) {
        Ok(ins) => ins,
        Err(e) => return Err(e),
    };
    let ghost ins = instruction;
    let ghost before = accounts@;
    let r = match instruction {
        PollInstruction::CreatePoll { question, options } => process_create_poll(accounts, question, options),
        PollInstruction::Vote { poll_id, option_index } => process_vote(accounts, option_index),
        PollInstruction::GetResults { poll_id } => process_get_results(accounts),
        PollInstruction::GetDetailedResults { poll_id } => process_get_detailed_results(accounts),
    };
    proof {
        assert(request_outcome(before, ins, accounts@, r));
        assert forall|other: PollInstruction| #[trigger] encodes(instruction_data@, other) implies request_outcome(
            before,
            other,
            accounts@,
            r,
        ) by {
            lemma_same_request_same_outcome(before, ins, other, accounts@, r);
        }
    }
    r
}

/// A detailed query on a stored poll fails with `MissingSigner` when the
/// second account is not the poll's creator, and succeeds when it is.
pub proof fn lemma_detailed_only_for_creator(accounts: Seq<AccountState>, p: Poll, n: int, r: Result<Report, PollError>)
    requires
        accounts.len() >= 2,
        stored_at_start(accounts[0].data@, p, n),
        detailed_outcome(accounts, r),
    ensures
        accounts[1].key@ != p.creator@ ==> r == Err::<Report, PollError>(PollError::MissingSigner),
        accounts[1].key@ == p.creator@ ==> r is Ok,
{
}

/// A signed vote request from a voter already recorded in the stored poll, or
/// naming an option past the last one, fails with `InvalidArgument` and leaves
/// every account, its bytes included, as it was.
pub proof fn lemma_rejected_vote_keeps_accounts(
    old: Seq<AccountState>,
    option_index: u8,
    new: Seq<AccountState>,
    r: Result<Report, PollError>,
    p: Poll,
    n: int,
)
    requires
        old.len() >= 2,
        old[1].is_signer,
        stored_at_start(old[0].data@, p, n),
        has_voted(p.votes@, old[1].key@) || option_index as int >= p.options@.len(),
        vote_request_outcome(old, option_index, new, r),
    ensures
        r == Err::<Report, PollError>(PollError::InvalidArgument),
        new == old,
{
}

} // verus!

//! The requests a caller can send, and their wire form.
use vstd::prelude::*;
use crate::codec::{
    len_prefix, lemma_u64_le_injective, read_texts, read_text, read_u64, text_at, texts_at, texts_body, text_bytes,
    text_fits, u64_le,
};
use crate::error::PollError;

verus! {

/// A request: one tag byte selects the variant, its fields follow.
#[derive(Debug)]
pub enum PollInstruction {
    CreatePoll { question: String, options: Vec<String> },
    Vote { poll_id: u64, option_index: u8 },
    GetResults { poll_id: u64 },
    GetDetailedResults { poll_id: u64 },
}

/// The wire form of a request.
pub open spec fn instruction_bytes(ins: PollInstruction) -> Seq<u8> {
    match ins {
        PollInstruction::CreatePoll { question, options } => seq![0u8] + text_bytes(question@) + len_prefix(
            options@.len() as int,
        ) + texts_body(options@),
        PollInstruction::Vote { poll_id, option_index } => seq![1u8] + u64_le(poll_id) + seq![option_index],
        PollInstruction::GetResults { poll_id } => seq![2u8] + u64_le(poll_id),
        PollInstruction::GetDetailedResults { poll_id } => seq![3u8] + u64_le(poll_id),
    }
}

/// Every length in the request fits its `u32` prefix.
pub open spec fn instruction_fits(ins: PollInstruction) -> bool {
    match ins {
        PollInstruction::CreatePoll { question, options } => {
            &&& text_fits(question@)
            &&& options@.len() <= u32::MAX
            &&& forall|i: int| 0 <= i < options@.len() ==> text_fits((#[trigger] options@[i])@)
        },
        _ => true,
    }
}

/// `a` and `c` are the same request: texts compared by their characters.
pub open spec fn same_instruction(a: PollInstruction, c: PollInstruction) -> bool {
    match (a, c) {
        (
            PollInstruction::CreatePoll { question: q1, options: o1 },
            PollInstruction::CreatePoll { question: q2, options: o2 },
        ) => q1@ == q2@ && o1@.len() == o2@.len() && forall|k: int| 0 <= k < o1@.len() ==> (#[trigger] o1@[k])@ == o2@[k]@,
        (
            PollInstruction::Vote { poll_id: i1, option_index: x1 },
            PollInstruction::Vote { poll_id: i2, option_index: x2 },
        ) => i1 == i2 && x1 == x2,
        (PollInstruction::GetResults { poll_id: i1 }, PollInstruction::GetResults { poll_id: i2 }) => i1 == i2,
        (PollInstruction::GetDetailedResults { poll_id: i1 }, PollInstruction::GetDetailedResults { poll_id: i2 }) => i1
            == i2,
        _ => false,
    }
}

/// `data` is exactly the wire form of the request `ins`.
pub open spec fn encodes(data: Seq<u8>, ins: PollInstruction) -> bool {
    instruction_fits(ins) && instruction_bytes(ins) == data
}

proof fn lemma_create_parts(data: Seq<u8>, question: String, options: Vec<String>)
    requires
        encodes(data, PollInstruction::CreatePoll { question, options }),
    ensures
        data.len() >= 1,
        data[0] == 0u8,
        text_at(data, 1, question@),
        texts_at(data, 1 + text_bytes(question@).len() as int, options@),
        data.len() == 1 + text_bytes(question@).len() + 4 + texts_body(options@).len(),
{
    let t = text_bytes(question@);
    let lo = len_prefix(options@.len() as int);
    let to = texts_body(options@);
    assert(data == seq![0u8] + t + lo + to);
    let a: int = 1 + t.len() as int;
    assert(data.subrange(1, a) =~= t);
    assert(data.subrange(a, a + 4) =~= lo);
    assert(data.subrange(a + 4, a + 4 + to.len() as int) =~= to);
}

proof fn lemma_fixed_parts(data: Seq<u8>, ins: PollInstruction)
    requires
        encodes(data, ins),
        !(ins is CreatePoll),
    ensures
        data.len() >= 9,
        data.subrange(1, 9) == u64_le(
            match ins {
                PollInstruction::Vote { poll_id, option_index } => poll_id,
                PollInstruction::GetResults { poll_id } => poll_id,
                PollInstruction::GetDetailedResults { poll_id } => poll_id,
                _ => 0,
            },
        ),
{
    match ins {
        PollInstruction::Vote { poll_id, option_index } => {
            assert(data.subrange(1, 9) =~= u64_le(poll_id));
        },
        PollInstruction::GetResults { poll_id } => {
            assert(data.subrange(1, 9) =~= u64_le(poll_id));
        },
        PollInstruction::GetDetailedResults { poll_id } => {
            assert(data.subrange(1, 9) =~= u64_le(poll_id));
        },
        _ => {},
    }
}

impl PollInstruction {
    /// Decodes a whole request; every byte must be used.
    pub fn decode(data: &[u8]) -> (r: Result<PollInstruction, PollError>)
        ensures
            r matches Ok(ins) ==> encodes(data@, ins),
            forall|ins: PollInstruction| #[trigger] encodes(data@, ins) ==> (r matches Ok(got) && same_instruction(got, ins)),
            r matches Err(e) ==> e == PollError::DecodeError,
    {
        proof {
            assert forall|ins: PollInstruction| #[trigger] encodes(data@, ins) implies data@.len() >= 1 && data@[0] == match ins {
                PollInstruction::CreatePoll { .. } => 0u8,
                PollInstruction::Vote { .. } => 1u8,
                PollInstruction::GetResults { .. } => 2u8,
                PollInstruction::GetDetailedResults { .. } => 3u8,
            } by {
                match ins {
                    PollInstruction::CreatePoll { question, options } => {
                        lemma_create_parts(data@, question, options);
                    },
                    _ => {
                        lemma_fixed_parts(data@, ins);
                    },
                }
            }
        }
        if data.len() == 0 {
            return Err(PollError::DecodeError);
        }
        let tag = data[0];
        let n = data.len();
        if tag == 0 {
            let (question, p1) = match read_text(data, 1) {
                Some(x) => x,
                None => {
                    proof {
                        assert forall|ins: PollInstruction| #[trigger] encodes(data@, ins) implies false by {
                            if let PollInstruction::CreatePoll { question, options } = ins {
                                lemma_create_parts(data@, question, options);
                            }
                        }
                    }
                    return Err(PollError::DecodeError);
                },
            };
            let (options, p2) = match read_texts(data, p1) {
                Some(x) => x,
                None => {
                    proof {
                        assert forall|ins: PollInstruction| #[trigger] encodes(data@, ins) implies false by {
                            if let PollInstruction::CreatePoll { question, options } = ins {
                                lemma_create_parts(data@, question, options);
                            }
                        }
                    }
                    return Err(PollError::DecodeError);
                },
            };
            let ins = PollInstruction::CreatePoll { question, options };
            proof {
                assert forall|other: PollInstruction| #[trigger] encodes(data@, other) implies p2 == n && same_instruction(
                    ins,
                    other,
                ) by {
                    if let PollInstruction::CreatePoll { question, options } = other {
                        lemma_create_parts(data@, question, options);
                    }
                }
            }
            if p2 != n {
                return Err(PollError::DecodeError);
            }
            proof {
                assert(data@ =~= data@.subrange(0, 1) + data@.subrange(1, p1 as int) + data@.subrange(
                    p1 as int,
                    p2 as int,
                ));
                assert(data@.subrange(0, 1) =~= seq![0u8]);
                assert(instruction_bytes(ins) =~= data@);
            }
            Ok(ins)
        } else if tag == 1 {
            let (poll_id, p1) = match read_u64(data, 1) {
                Some(x) => x,
                None => return Err(PollError::DecodeError),
            };
            if p1 + 1 != n {
                proof {
                    assert forall|other: PollInstruction| #[trigger] encodes(data@, other) implies false by {
                        lemma_fixed_parts(data@, other);
                    }
                }
                return Err(PollError::DecodeError);
            }
            let option_index = data[p1];
            let ins = PollInstruction::Vote { poll_id, option_index };
            proof {
                assert(data@ =~= data@.subrange(0, 1) + data@.subrange(1, p1 as int) + seq![option_index]);
                assert(data@.subrange(0, 1) =~= seq![1u8]);
                assert forall|other: PollInstruction| #[trigger] encodes(data@, other) implies same_instruction(ins, other) by {
                    lemma_fixed_parts(data@, other);
                    if let PollInstruction::Vote { poll_id: i2, option_index: x2 } = other {
                        lemma_u64_le_injective(poll_id, i2);
                    }
                }
            }
            Ok(ins)
        } else if tag == 2 || tag == 3 {
            let (poll_id, p1) = match read_u64(data, 1) {
                Some(x) => x,
                None => return Err(PollError::DecodeError),
            };
            if p1 != n {
                proof {
                    assert forall|other: PollInstruction| #[trigger] encodes(data@, other) implies false by {
                        lemma_fixed_parts(data@, other);
                    }
                }
                return Err(PollError::DecodeError);
            }
            proof {
                assert(data@ =~= data@.subrange(0, 1) + data@.subrange(1, p1 as int));
            }
            let ins = if tag == 2 {
                PollInstruction::GetResults { poll_id }
            } else {
                PollInstruction::GetDetailedResults { poll_id }
            };
            proof {
                assert(instruction_bytes(ins) =~= data@);
                assert forall|other: PollInstruction| #[trigger] encodes(data@, other) implies same_instruction(ins, other) by {
                    lemma_fixed_parts(data@, other);
                    match other {
                        PollInstruction::GetResults { poll_id: i2 } => {
                            lemma_u64_le_injective(poll_id, i2);
                        },
                        PollInstruction::GetDetailedResults { poll_id: i2 } => {
                            lemma_u64_le_injective(poll_id, i2);
                        },
                        _ => {},
                    }
                }
            }
            Ok(ins)
        } else {
            Err(PollError::DecodeError)
        }
    }
}

} // verus!

//! Questions that only the host can answer, and the answers it gave so far.
//!
//! Reading and writing are deterministic functions of their input and a list of answers. When
//! the list runs out, they stop with the next question as their error; the host adds the
//! answer to the list and starts over.

use vstd::prelude::*;
use vstd::string::*;
use std::collections::VecDeque;
use crate::error;
use crate::error::{Error, ErrorOf, Fault};
use crate::integer::Integer;
use crate::value::{Message, Msg, Val, Value};

verus! {

/// A question to the host. `S` is a text, `V` a value, `M` a message and `B` a string of bytes.
pub enum QuestionOf<S, V, M, B> {
    /// Which integer a text in the host's notation stands for, if any.
    ReadInt(S),
    /// How the host prints a value.
    ValueText(V),
    /// The binary form of a message.
    Pack(M),
    /// The message of the given type with the given binary form.
    Unpack { desc: usize, data: B },
    /// The value that a JSON value has as an extension field of the registry.
    ReadExtension { extension: usize, value: V },
}

/// An answer of the host. `N` is an integer.
pub enum AnswerOf<S, V, M, B, N> {
    Int(Option<N>),
    Text(S),
    Bytes(B),
    Message(M),
    Value(V),
    /// The host failed; the number is the host's own.
    Raised(u64),
}

pub type Question = QuestionOf<String, Value, Message, Vec<u8>>;

pub type QuestionV = QuestionOf<Seq<char>, Val, Msg, Seq<u8>>;

pub type Answer = AnswerOf<String, Value, Message, Vec<u8>, Integer>;

/// What an [`Answer`] stands for.
pub type Ans = AnswerOf<Seq<char>, Val, Msg, Seq<u8>, int>;

pub open spec fn question_view(q: Question) -> QuestionV {
    match q {
        QuestionOf::ReadInt(s) => QuestionOf::ReadInt(s@),
        QuestionOf::ValueText(v) => QuestionOf::ValueText(v@),
        QuestionOf::Pack(m) => QuestionOf::Pack(m@),
        QuestionOf::Unpack { desc, data } => QuestionOf::Unpack { desc, data: data@ },
        QuestionOf::ReadExtension { extension, value } => QuestionOf::ReadExtension {
            extension,
            value: value@,
        },
    }
}

pub open spec fn answer_view(a: Answer) -> Ans {
    match a {
        AnswerOf::Int(Some(n)) => AnswerOf::Int(Some(n@)),
        AnswerOf::Int(None) => AnswerOf::Int(None),
        AnswerOf::Text(s) => AnswerOf::Text(s@),
        AnswerOf::Bytes(b) => AnswerOf::Bytes(b@),
        AnswerOf::Message(m) => AnswerOf::Message(m@),
        AnswerOf::Value(v) => AnswerOf::Value(v@),
        AnswerOf::Raised(n) => AnswerOf::Raised(n),
    }
}

/// The answers that are still unused.
pub struct Answers {
    pub rest: VecDeque<Answer>,
}

impl Answers {
    pub open spec fn view(&self) -> Seq<Ans> {
        self.rest@.map_values(|a: Answer| answer_view(a))
    }

    /// No answers.
    pub fn none() -> (r: Answers)
        ensures
            r@ == Seq::<Ans>::empty(),
    {
        let r = Answers { rest: VecDeque::new() };
        assert(r@ =~= Seq::<Ans>::empty());
        r
    }

    /// Adds an answer behind the others.
    pub fn add(&mut self, answer: Answer)
        ensures
            final(self)@ == old(self)@.push(answer_view(answer)),
    {
        self.rest.push_back(answer);
        assert(self@ =~= old(self)@.push(answer_view(answer)));
    }

    /// Takes the next answer, or stops with the question.
    pub fn take(&mut self, question: Question) -> (r: Result<Answer, Error>)
        ensures
            match next_answer(old(self)@, question_view(question)) {
                Ok(a) => r is Ok && answer_view(r->Ok_0) == a,
                Err(f) => r is Err && error::fault_of(r->Err_0) == f,
            },
            final(self)@ == after_answer(old(self)@),
    {
        match self.rest.pop_front() {
            None => {
                assert(self@ =~= old(self)@);
                Err(ErrorOf::Asked(question))
            },
            Some(AnswerOf::Raised(n)) => {
                assert(self@ =~= old(self)@.skip(1));
                Err(ErrorOf::Raised(n))
            },
            Some(a) => {
                assert(self@ =~= old(self)@.skip(1));
                Ok(a)
            },
        }
    }
}

/// The next answer of a list, or the error that stops the work.
pub open spec fn next_answer(answers: Seq<Ans>, question: QuestionV) -> Result<Ans, Fault> {
    if answers.len() == 0 {
        Err(ErrorOf::Asked(question))
    } else {
        match answers[0] {
            AnswerOf::Raised(n) => Err(ErrorOf::Raised(n)),
            a => Ok(a),
        }
    }
}

/// The answers that are left after one was asked for.
pub open spec fn after_answer(answers: Seq<Ans>) -> Seq<Ans> {
    if answers.len() == 0 {
        answers
    } else {
        answers.skip(1)
    }
}

/// Answers are taken in their order, and no question is answered by another's answer: without one
/// the work stops with the question, and an answer that raises stops it with what it raises.
pub proof fn lemma_answers_are_taken_in_order(a: Ans, later: Seq<Ans>, question: QuestionV)
    ensures
        after_answer(seq![a] + later) == later,
        !(a is Raised) ==> next_answer(seq![a] + later, question) == Ok::<Ans, Fault>(a),
        a is Raised ==> next_answer(seq![a] + later, question) == Err::<Ans, Fault>(
            ErrorOf::Raised(a->Raised_0),
        ),
        next_answer(seq![], question) == Err::<Ans, Fault>(ErrorOf::Asked(question)),
{
    assert((seq![a] + later).skip(1) =~= later);
}

} // verus!

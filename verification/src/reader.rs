//! The sequence of rows of a source of lines, as a state machine.
//!
//! The machine never touches the source. Its driver reads a line, or
//! finds that there is none left or that reading failed, and feeds what it
//! found to the machine; the machine answers with what to do next.
//!
//! ```text
//! Reading  --line that decodes-->        Yielding   (hand the row out)
//! Reading  --line that does not-->       Reading    (read on)
//! Reading  --no line-->                  Exhausted  (stop)
//! Yielding --the next pull-->            Reading
//! Exhausted is final.
//! ```

use crate::types::DataParse;
use crate::{parse_line, parsed, Row, RowView, TargetReader};
use vstd::prelude::*;

verus! {

/// Where a sequence of rows stands.
#[derive(Clone, Copy, PartialEq, Eq, Debug, Structural)]
pub enum State {
    /// The next line is wanted.
    Reading,
    /// The last line fed gave a row.
    Yielding,
    /// The source has ended; no row will follow.
    Exhausted,
}

/// What the driver of a sequence does next.
pub enum Step<T, F> {
    /// Hand this row to the consumer.
    Yield(Row<T, F>),
    /// The line gave no row: read the next one.
    Skip,
    /// The sequence has ended.
    Stop,
}

/// What a machine in state `state` does with `event`, a line or the end of
/// the source, where `row` is what the line decodes to: the state it moves
/// to, and the row it hands out, if any.
pub open spec fn transition<R>(state: State, event: Option<Seq<char>>, row: Option<R>) -> (
    State,
    Option<R>,
) {
    match (state, event) {
        (State::Exhausted, _) => (State::Exhausted, None),
        (_, None) => (State::Exhausted, None),
        (_, Some(_)) => match row {
            Some(r) => (State::Yielding, Some(r)),
            None => (State::Reading, None),
        },
    }
}

/// The sequence of the rows of a source of lines under a pair of decoders.
pub struct Reader<'a, TR: TargetReader, P: DataParse> {
    p: &'a P,
    tr: &'a TR,
    state: State,
}

impl<'a, TR: TargetReader, P: DataParse> Reader<'a, TR, P> {
    #[verifier::type_invariant]
    spec fn usable(&self) -> bool {
        self.tr.wf() && self.p.wf()
    }

    /// The decoder of targets.
    pub closed spec fn target_reader(&self) -> &'a TR {
        self.tr
    }

    /// The decoder of features.
    pub closed spec fn parser(&self) -> &'a P {
        self.p
    }

    /// Where the sequence stands.
    pub closed spec fn phase(&self) -> State {
        self.state
    }

    /// A sequence that has read nothing yet.
    pub fn new(tr: &'a TR, p: &'a P) -> (reader: Self)
        requires
            tr.wf(),
            p.wf(),
        ensures
            reader.phase() == State::Reading,
            reader.target_reader() == tr,
            reader.parser() == p,
    {
        Reader { p: p, tr: tr, state: State::Reading }
    }

    /// Where the sequence stands.
    pub fn state(&self) -> (state: State)
        ensures
            state == self.phase(),
    {
        self.state
    }

    /// Takes what the driver found at the source: the next line, or `None`
    /// where the source has ended or could not be read.
    pub fn feed(&mut self, event: Option<&str>) -> (step: Step<TR::Out, P::Out>)
        ensures
            final(self).target_reader() == old(self).target_reader(),
            final(self).parser() == old(self).parser(),
            ({
                let row = match event {
                    Some(line) => parsed(old(self).target_reader(), old(self).parser(), line@),
                    None => None,
                };
                let (state, handed) = transition(old(self).phase(), event.deep_view(), row);
                &&& final(self).phase() == state
                &&& match step {
                    Step::Yield(r) => handed == Some(r.deep_view()),
                    Step::Skip => handed is None && state == State::Reading,
                    Step::Stop => handed is None && state == State::Exhausted,
                }
            }),
    {
        proof {
            use_type_invariant(&*self);
        }
        match self.state {
            State::Exhausted => Step::Stop,
            _ => match event {
                None => {
                    self.state = State::Exhausted;
                    Step::Stop
                },
                Some(line) => match parse_line(self.tr, self.p, line) {
                    Some(row) => {
                        self.state = State::Yielding;
                        Step::Yield(row)
                    },
                    None => {
                        self.state = State::Reading;
                        Step::Skip
                    },
                },
            },
        }
    }
}

} // verus!

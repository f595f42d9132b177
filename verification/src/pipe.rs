//! gdb over a pipe: the bytes that have been read from it and not been asked for yet.

use std::collections::VecDeque;
use vstd::prelude::*;

verus! {

/// A connection over a pipe. Whoever reads from the pipe hands over what came of each
/// read; an error `E` is passed on where it stands among the bytes.
#[derive(Debug)]
pub struct GdbOverPipe<E> {
    /// What has come in and not been asked for yet, oldest first.
    pub queue: VecDeque<Result<u8, E>>,
    /// The pipe has ended.
    pub hung_up: bool,
}

/// What there is to read.
#[derive(Debug)]
pub enum Heard<E> {
    /// A byte, or the error that came in its place.
    Item(Result<u8, E>),
    /// Nothing yet.
    Wait,
    /// Nothing, and there will be no more: the connection is reset.
    Reset,
}

impl<E> GdbOverPipe<E> {
    /// A connection on which nothing has come in.
    pub fn new() -> (r: Self)
        ensures
            r.queue@ == Seq::<Result<u8, E>>::empty(),
            !r.hung_up,
    {
        GdbOverPipe { queue: VecDeque::new(), hung_up: false }
    }

    /// Takes in what came of reading up to one byte: `None` is the end of the pipe. Tells
    /// whether to read on.
    pub fn heard(&mut self, r: Result<Option<u8>, E>) -> (on: bool)
        ensures
            match r {
                Ok(None) => !on && final(self).hung_up && final(self).queue@ == old(self).queue@,
                Ok(Some(byte)) => {
                    &&& on
                    &&& final(self).hung_up == old(self).hung_up
                    &&& final(self).queue@ == old(self).queue@.push(Ok(byte))
                },
                Err(e) => {
                    &&& on
                    &&& final(self).hung_up == old(self).hung_up
                    &&& final(self).queue@ == old(self).queue@.push(Err(e))
                },
            },
    {
        match r {
            Ok(None) => {
                self.hung_up = true;
                false
            },
            Ok(Some(byte)) => {
                self.queue.push_back(Ok(byte));
                true
            },
            Err(e) => {
                self.queue.push_back(Err(e));
                true
            },
        }
    }

    /// Takes the oldest item. What came in before the end of the pipe is still given.
    pub fn read(&mut self) -> (r: Heard<E>)
        ensures
            final(self).hung_up == old(self).hung_up,
            if old(self).queue@.len() > 0 {
                &&& r == Heard::Item(old(self).queue@[0])
                &&& final(self).queue@ == old(self).queue@.drop_first()
            } else {
                &&& r == (if old(self).hung_up {
                    Heard::<E>::Reset
                } else {
                    Heard::Wait
                })
                &&& final(self).queue@ == old(self).queue@
            },
    {
        match self.queue.pop_front() {
            Some(item) => {
                assert(self.queue@ =~= old(self).queue@.drop_first());
                Heard::Item(item)
            },
            None => {
                if self.hung_up {
                    Heard::Reset
                } else {
                    Heard::Wait
                }
            },
        }
    }

    /// Takes the oldest item, if there is one, without waiting.
    pub fn peek(&mut self) -> (r: Result<Option<u8>, E>)
        ensures
            final(self).hung_up == old(self).hung_up,
            if old(self).queue@.len() > 0 {
                &&& r == (match old(self).queue@[0] {
                    Ok(byte) => Ok::<Option<u8>, E>(Some(byte)),
                    Err(e) => Err(e),
                })
                &&& final(self).queue@ == old(self).queue@.drop_first()
            } else {
                &&& r == Ok::<Option<u8>, E>(None)
                &&& final(self).queue@ == old(self).queue@
            },
    {
        match self.queue.pop_front() {
            Some(item) => {
                assert(self.queue@ =~= old(self).queue@.drop_first());
                match item {
                    Ok(byte) => Ok(Some(byte)),
                    Err(e) => Err(e),
                }
            },
            None => Ok(None),
        }
    }
}

} // verus!

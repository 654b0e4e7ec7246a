//! One source matcher: executable state machine over in-memory source bytes.

use crate::machine::{abs_chunks, attempt_start, emitted, hit, init, step, Machine};
use vstd::prelude::*;

verus! {

/// Outcome of advancing a source cursor: more bytes remain, or the end of
/// the source has been reached.
pub enum FileRead {
    Next,
    End,
}

impl FileRead {
    /// True exactly for the end-of-source outcome.
    pub fn is_end(&self) -> (r: bool)
        ensures
            r == (*self is End),
    {
        match self {
            Self::End => true,
            _ => false,
        }
    }
}

/// A matcher for one source: its full content, the chunks found so far, the
/// target offset where the current attempt began, and the cursor into the
/// content.  `check` feeds it one target byte at a time.
pub struct Source {
    content: Vec<u8>,
    chunks: Vec<(usize, usize)>,
    start: Option<usize>,
    cursor: usize,
}

impl Source {
    /// The source bytes this matcher looks for.
    pub closed spec fn content(&self) -> Seq<u8> {
        self.content@
    }

    /// The matcher's state, as the spec-level machine.
    pub closed spec fn state(&self) -> Machine {
        Machine {
            cursor: self.cursor as nat,
            start: match self.start {
                Some(a) => Some(a as nat),
                None => None,
            },
        }
    }

    /// The chunks found so far, in order of discovery.
    pub closed spec fn found(&self) -> Seq<(nat, nat)> {
        abs_chunks(self.chunks@)
    }

    /// A fresh matcher for the given source content: nothing found yet, no
    /// attempt in progress.
    pub fn new(content: Vec<u8>) -> (s: Source)
        ensures
            s.content() == content@,
            s.state() == init(),
            s.found() == Seq::<(nat, nat)>::empty(),
    {
        let s = Source { content, chunks: Vec::new(), start: None, cursor: 0 };
        proof {
            assert(s.found() =~= Seq::<(nat, nat)>::empty());
        }
        s
    }

    /// The source byte the cursor points at: the next byte expected to match.
    fn byte(&self) -> (b: u8)
        requires
            self.cursor < self.content@.len(),
        ensures
            b == self.content@[self.cursor as int],
    {
        self.content[self.cursor]
    }

    /// Abandon the current attempt: cursor back to the start of the source.
    fn rewind(&mut self)
        ensures
            final(self).content@ == old(self).content@,
            final(self).chunks@ == old(self).chunks@,
            final(self).start is None,
            final(self).cursor == 0,
    {
        self.cursor = 0;
        self.start = None;
    }

    /// Advance the cursor past the byte just matched; report whether the end
    /// of the source has now been reached.
    fn next(&mut self) -> (r: FileRead)
        requires
            old(self).cursor < old(self).content@.len(),
        ensures
            final(self).content@ == old(self).content@,
            final(self).chunks@ == old(self).chunks@,
            final(self).start == old(self).start,
            final(self).cursor == old(self).cursor + 1,
            (r is End) == (final(self).cursor == final(self).content@.len()),
    {
        let n = self.content.len();
        self.cursor = self.cursor + 1;
        if self.cursor == n {
            FileRead::End
        } else {
            FileRead::Next
        }
    }

    /// Feed one target byte, read at the given target offset.  The matcher
    /// moves exactly as the spec-level machine does, and appends the chunk
    /// that the transition emits, if any.
    pub fn check(&mut self, byte: u8, offset: usize)
        ensures
            final(self).content() == old(self).content(),
            final(self).state() == step(
                old(self).content(),
                old(self).state(),
                byte,
                offset as nat,
            ).0,
            final(self).found() == old(self).found() + emitted(
                step(old(self).content(), old(self).state(), byte, offset as nat).1,
            ),
    {
        let ghost s0 = old(self).content();
        let ghost m0 = old(self).state();
        if self.cursor < self.content.len() && byte == self.byte() {
            assert(hit(s0, m0, byte));
            if self.start.is_none() {
                self.start = Some(offset);
            }
            let a = self.start.unwrap();
            proof {
                assert(a as nat == attempt_start(m0, offset as nat));
            }
            if self.next().is_end() {
                self.chunks.push((a, offset));
                self.rewind();
                proof {
                    assert(self.found() =~= old(self).found() + emitted(
                        step(s0, m0, byte, offset as nat).1,
                    ));
                }
            } else {
                proof {
                    assert(self.found() =~= old(self).found() + emitted(
                        step(s0, m0, byte, offset as nat).1,
                    ));
                }
            }
        } else {
            assert(!hit(s0, m0, byte));
            self.start = None;
            self.rewind();
            proof {
                assert(self.found() =~= old(self).found() + emitted(
                    step(s0, m0, byte, offset as nat).1,
                ));
            }
        }
    }

    /// The chunks found so far, as `(start, end)` offset pairs into the
    /// target, in order of discovery.
    pub fn chunks(&self) -> (cs: &Vec<(usize, usize)>)
        ensures
            abs_chunks(cs@) == self.found(),
    {
        &self.chunks
    }
}

} // verus!

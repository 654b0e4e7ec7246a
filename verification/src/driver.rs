//! Driver: feeds a target held in memory to one or more source matchers.

use crate::machine::{init, run, lemma_run_step};
use crate::matcher::Source;
use vstd::prelude::*;

verus! {

/// Feed every byte of `target` to one fresh matcher, in order, byte `i` at
/// offset `i`.  Afterwards the matcher's state and chunk list are exactly
/// those of the spec-level run of its source over the whole target.
pub fn scan_source(src: &mut Source, target: &Vec<u8>)
    requires
        old(src).state() == init(),
        old(src).found() == Seq::<(nat, nat)>::empty(),
    ensures
        final(src).content() == old(src).content(),
        final(src).state() == run(old(src).content(), target@).0,
        final(src).found() == run(old(src).content(), target@).1,
{
    let ghost s = old(src).content();
    let mut i: usize = 0;
    proof {
        assert(target@.take(0) =~= Seq::<u8>::empty());
    }
    while i < target.len()
        invariant
            i <= target.len(),
            src.content() == s,
            src.state() == run(s, target@.take(i as int)).0,
            src.found() == run(s, target@.take(i as int)).1,
        decreases target.len() - i,
    {
        src.check(target[i], i);
        proof {
            lemma_run_step(s, target@, i as int);
        }
        i = i + 1;
    }
    proof {
        assert(target@.take(target@.len() as int) =~= target@);
    }
}

/// Scan the target once for every matcher in the list.  Each matcher's
/// result is the spec-level run of its own source over the target: matchers
/// are mutually independent, and their order in the list does not affect any
/// individual result.
pub fn scan(sources: Vec<Source>, target: &Vec<u8>) -> (done: Vec<Source>)
    requires
        forall|k: int|
            0 <= k < sources@.len() ==> (#[trigger] sources@[k]).state() == init()
                && sources@[k].found() == Seq::<(nat, nat)>::empty(),
    ensures
        done@.len() == sources@.len(),
        forall|k: int|
            0 <= k < done@.len() ==> (#[trigger] done@[k]).content() == sources@[k].content()
                && done@[k].state() == run(sources@[k].content(), target@).0
                && done@[k].found() == run(sources@[k].content(), target@).1,
{
    let ghost orig = sources@;
    let mut pending = sources;
    let mut done: Vec<Source> = Vec::new();
    while pending.len() > 0
        invariant
            done@.len() + pending@.len() == orig.len(),
            forall|k: int|
                0 <= k < pending@.len() ==> #[trigger] pending@[k] == orig[done@.len() + k],
            forall|k: int|
                0 <= k < orig.len() ==> (#[trigger] orig[k]).state() == init()
                    && orig[k].found() == Seq::<(nat, nat)>::empty(),
            forall|k: int|
                0 <= k < done@.len() ==> (#[trigger] done@[k]).content() == orig[k].content()
                    && done@[k].state() == run(orig[k].content(), target@).0
                    && done@[k].found() == run(orig[k].content(), target@).1,
        decreases pending@.len(),
    {
        let mut src = pending.remove(0);
        scan_source(&mut src, target);
        done.push(src);
    }
    done
}

} // verus!

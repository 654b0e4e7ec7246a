//! Spec-level model of one source matcher.
//!
//! A matcher is a small state machine driven by the target's bytes.  Its
//! state is a cursor into the source (how many source bytes the current
//! attempt has matched) and the target offset at which that attempt began.
//! [`step`] gives the transition for one incoming byte; [`run`] folds it over
//! a whole target, collecting the emitted chunks.

use vstd::prelude::*;

verus! {

/// State of one matcher: `cursor` is the number of source bytes matched by
/// the current attempt, `start` the target offset where the attempt began
/// (`None` exactly when no attempt is in progress).
pub ghost struct Machine {
    pub cursor: nat,
    pub start: Option<nat>,
}

/// The state of a freshly created matcher: no attempt in progress.
pub open spec fn init() -> Machine {
    Machine { cursor: 0, start: None }
}

/// The incoming byte equals the source byte the cursor points at.
pub open spec fn hit(s: Seq<u8>, m: Machine, byte: u8) -> bool {
    m.cursor < s.len() && s[m.cursor as int] == byte
}

/// The offset at which the current attempt began, taking the incoming
/// offset when no attempt was in progress.
pub open spec fn attempt_start(m: Machine, offset: nat) -> nat {
    match m.start {
        Some(a) => a,
        None => offset,
    }
}

/// The chunks emitted by one transition, as a sequence (empty or singleton).
pub open spec fn emitted(e: Option<(nat, nat)>) -> Seq<(nat, nat)> {
    match e {
        Some(c) => seq![c],
        None => Seq::empty(),
    }
}

/// The view of executable chunk pairs as spec-level chunks.
pub open spec fn abs_chunks(cs: Seq<(usize, usize)>) -> Seq<(nat, nat)> {
    cs.map(|i: int, c: (usize, usize)| (c.0 as nat, c.1 as nat))
}

/// One transition: feed `byte`, read at target `offset`, to a matcher for
/// source `s` in state `m`.  On a hit the cursor advances; completing the
/// source emits the chunk `(attempt start, offset)` and resets.  On a miss
/// the attempt is abandoned and the byte is consumed: the matcher does not
/// retry it against the start of the source.
pub open spec fn step(s: Seq<u8>, m: Machine, byte: u8, offset: nat) -> (Machine, Option<
    (nat, nat),
>) {
    if hit(s, m, byte) {
        let a = attempt_start(m, offset);
        if m.cursor + 1 == s.len() {
            (init(), Some((a, offset)))
        } else {
            (Machine { cursor: m.cursor + 1, start: Some(a) }, None)
        }
    } else {
        (init(), None)
    }
}

/// Feed every byte of `t` in order, byte `t[i]` at offset `i`, starting from
/// a fresh matcher; the result is the final state and all emitted chunks in
/// order of discovery.
pub open spec fn run(s: Seq<u8>, t: Seq<u8>) -> (Machine, Seq<(nat, nat)>)
    decreases t.len(),
{
    if t.len() == 0 {
        (init(), Seq::empty())
    } else {
        let prev = run(s, t.drop_last());
        let st = step(s, prev.0, t.last(), (t.len() - 1) as nat);
        (st.0, prev.1 + emitted(st.1))
    }
}

/// Unfolds `run` one byte at a time over prefixes of the target.
pub proof fn lemma_run_step(s: Seq<u8>, t: Seq<u8>, i: int)
    requires
        0 <= i < t.len(),
    ensures
        run(s, t.take(i + 1)).0 == step(s, run(s, t.take(i)).0, t[i], i as nat).0,
        run(s, t.take(i + 1)).1 == run(s, t.take(i)).1 + emitted(
            step(s, run(s, t.take(i)).0, t[i], i as nat).1,
        ),
{
    assert(t.take(i + 1).drop_last() =~= t.take(i));
    assert(t.take(i + 1).last() == t[i]);
}

/// What the run maintains of the machine state: an attempt is in progress
/// exactly when `start` is set, the cursor rests strictly inside the source
/// (or at 0), and the bytes matched so far are a prefix of the source that
/// stands verbatim at the end of the target read so far.
pub open spec fn state_inv(s: Seq<u8>, t: Seq<u8>, m: Machine) -> bool {
    &&& (m.cursor == 0 <==> m.start is None)
    &&& (m.cursor == 0 || m.cursor < s.len())
    &&& (m.start is Some ==> {
        &&& m.start->0 + m.cursor == t.len()
        &&& s.take(m.cursor as int) == t.subrange(m.start->0 as int, t.len() as int)
    })
}

/// A reported chunk is a genuine occurrence: the whole source stands in the
/// target at the reported offsets, and `end` is the offset of the last
/// matching byte.
pub open spec fn chunk_ok(s: Seq<u8>, t: Seq<u8>, c: (nat, nat)) -> bool {
    &&& 1 <= s.len()
    &&& c.1 == c.0 + s.len() - 1
    &&& c.1 < t.len()
    &&& t.subrange(c.0 as int, c.0 + s.len() as int) == s
}

/// Everything the run maintains: the state invariant, soundness of every
/// reported chunk, strictly ascending and non-overlapping chunks, and all
/// chunks ending before the current attempt began.
pub open spec fn run_inv(s: Seq<u8>, t: Seq<u8>, m: Machine, cs: Seq<(nat, nat)>) -> bool {
    &&& state_inv(s, t, m)
    &&& (forall|i: int| 0 <= i < cs.len() ==> chunk_ok(s, t, #[trigger] cs[i]))
    &&& (forall|i: int| 0 <= i && i + 1 < cs.len() ==> (#[trigger] cs[i]).1 < cs[i + 1].0)
    &&& (forall|i: int| 0 <= i < cs.len() ==> (#[trigger] cs[i]).1 + m.cursor < t.len())
}

/// The run of any source over any target satisfies `run_inv`.  In
/// particular every chunk it reports is a genuine full-length occurrence of
/// the source, and the chunks are in strictly ascending, non-overlapping
/// order.
pub proof fn lemma_run_inv(s: Seq<u8>, t: Seq<u8>)
    ensures
        run_inv(s, t, run(s, t).0, run(s, t).1),
    decreases t.len(),
{
    if t.len() == 0 {
    } else {
        let t0 = t.drop_last();
        lemma_run_inv(s, t0);
        let m = run(s, t0).0;
        let cs = run(s, t0).1;
        let byte = t.last();
        let off = t.len() - 1;
        assert forall|a: int, b: int| 0 <= a <= b <= t0.len() implies t0.subrange(a, b)
            == t.subrange(a, b) by {
            assert(t0.subrange(a, b) =~= t.subrange(a, b));
        }
        let m2 = run(s, t).0;
        let cs2 = run(s, t).1;
        if hit(s, m, byte) {
            let a = attempt_start(m, off as nat);
            assert(a + m.cursor == off);
            assert(s.take(m.cursor as int) == t.subrange(a as int, off)) by {
                if m.cursor == 0 {
                    assert(s.take(0) =~= t.subrange(off, off));
                } else {
                    assert(t0.subrange(a as int, t0.len() as int) == t.subrange(a as int, off));
                }
            }
            assert(s.take(m.cursor as int + 1) =~= t.subrange(a as int, off + 1)) by {
                assert(s.take(m.cursor as int + 1) =~= s.take(m.cursor as int).push(
                    s[m.cursor as int],
                ));
                assert(t.subrange(a as int, off + 1) =~= t.subrange(a as int, off).push(t[off]));
            }
            if m.cursor + 1 == s.len() {
                let e = seq![(a, off as nat)];
                assert(cs2 =~= cs + e);
                assert(s.take(s.len() as int) =~= s);
                assert(chunk_ok(s, t, (a, off as nat)));
                assert(forall|i: int| 0 <= i < cs.len() ==> (#[trigger] cs[i]).1 < a);
                assert forall|i: int| 0 <= i && i + 1 < cs2.len() implies (#[trigger] cs2[i]).1
                    < cs2[i + 1].0 by {
                    if i + 1 < cs.len() {
                        assert((cs + e)[i] == cs[i] && (cs + e)[i + 1] == cs[i + 1]);
                    } else {
                        assert((cs + e)[i] == cs[i] && (cs + e)[i + 1] == e[0]);
                    }
                }
            } else {
                assert(cs2 =~= cs);
                assert(state_inv(s, t, m2));
            }
        } else {
            assert(cs2 =~= cs);
        }
    }
}

/// While the source stands verbatim in the target at offset `o` and the
/// matcher reaches `o` with no attempt in progress, each of the next `j`
/// bytes advances the attempt by one without failing; the last byte of the
/// occurrence emits its chunk and resets the matcher.
pub proof fn lemma_advance(s: Seq<u8>, t: Seq<u8>, o: int, j: int)
    requires
        1 <= s.len(),
        0 <= o,
        o + s.len() <= t.len(),
        run(s, t.take(o)).0 == init(),
        t.subrange(o, o + s.len() as int) == s,
        0 <= j <= s.len(),
    ensures
        j < s.len() ==> run(s, t.take(o + j)).0 == (if j == 0 {
            init()
        } else {
            Machine { cursor: j as nat, start: Some(o as nat) }
        }),
        j < s.len() ==> run(s, t.take(o + j)).1 == run(s, t.take(o)).1,
        j == s.len() ==> run(s, t.take(o + j)).0 == init(),
        j == s.len() ==> run(s, t.take(o + j)).1 == run(s, t.take(o)).1.push(
            (o as nat, (o + s.len() - 1) as nat),
        ),
    decreases j,
{
    if j > 0 {
        lemma_advance(s, t, o, j - 1);
        lemma_run_step(s, t, o + j - 1);
        let m = run(s, t.take(o + j - 1)).0;
        assert(s[j - 1] == t.subrange(o, o + s.len() as int)[j - 1]);
        assert(hit(s, m, t[o + j - 1]));
        assert(attempt_start(m, (o + j - 1) as nat) == o);
        if j == s.len() {
            assert(run(s, t.take(o + j)).1 =~= run(s, t.take(o)).1.push(
                (o as nat, (o + s.len() - 1) as nat),
            ));
        } else {
            assert(run(s, t.take(o + j)).1 =~= run(s, t.take(o)).1);
        }
    }
}

/// Chunks only accumulate: the chunks reported after reading a prefix of
/// the target stand, in the same order, at the front of the chunks reported
/// after reading any longer prefix.
pub proof fn lemma_chunks_monotone(s: Seq<u8>, t: Seq<u8>, k: int, l: int)
    requires
        0 <= k <= l <= t.len(),
    ensures
        run(s, t.take(k)).1.is_prefix_of(run(s, t.take(l)).1),
    decreases l - k,
{
    if k == l {
        assert(run(s, t.take(k)).1 =~= run(s, t.take(l)).1);
    } else {
        lemma_chunks_monotone(s, t, k, l - 1);
        lemma_run_step(s, t, l - 1);
        assert(run(s, t.take(k)).1.is_prefix_of(run(s, t.take(l - 1)).1 + emitted(
            step(s, run(s, t.take(l - 1)).0, t[l - 1], (l - 1) as nat).1,
        ))) by {
            let a = run(s, t.take(k)).1;
            let b = run(s, t.take(l - 1)).1;
            let c = emitted(step(s, run(s, t.take(l - 1)).0, t[l - 1], (l - 1) as nat).1);
            assert(a.is_prefix_of(b));
            assert(forall|i: int| 0 <= i < a.len() ==> a[i] == (b + c)[i]);
        }
    }
}

/// An occurrence of a non-empty source at offset `o`, reached with no
/// attempt in progress, is reported: the run over the whole target contains
/// the chunk `(o, o + s.len() - 1)`, and the matcher stands idle again right
/// after the occurrence.  The idleness hypothesis is exactly the
/// non-backtracking restart policy: an occurrence that begins while an
/// earlier attempt is still in progress can be missed.
pub proof fn lemma_occurrence_reported(s: Seq<u8>, t: Seq<u8>, o: int)
    requires
        1 <= s.len(),
        0 <= o,
        o + s.len() <= t.len(),
        run(s, t.take(o)).0 == init(),
        t.subrange(o, o + s.len() as int) == s,
    ensures
        run(s, t).1.contains((o as nat, (o + s.len() - 1) as nat)),
        run(s, t.take(o + s.len() as int)).0 == init(),
{
    lemma_advance(s, t, o, s.len() as int);
    lemma_chunks_monotone(s, t, o + s.len() as int, t.len() as int);
    assert(t.take(t.len() as int) =~= t);
    let c = (o as nat, (o + s.len() - 1) as nat);
    let cs1 = run(s, t.take(o + s.len() as int)).1;
    let csall = run(s, t).1;
    assert(cs1[cs1.len() - 1] == c);
    assert(cs1.is_prefix_of(csall));
    assert(csall[cs1.len() - 1] == c);
    assert(csall.contains(c));
}

/// An occurrence of a non-empty source at the very start of the target is
/// always reported: a fresh matcher has no attempt in progress.
pub proof fn lemma_occurrence_at_start(s: Seq<u8>, t: Seq<u8>)
    requires
        1 <= s.len(),
        s.len() <= t.len(),
        t.subrange(0, s.len() as int) == s,
    ensures
        run(s, t).1.contains((0nat, (s.len() - 1) as nat)),
{
    assert(t.take(0) =~= Seq::<u8>::empty());
    lemma_occurrence_reported(s, t, 0);
}

/// A source that stands nowhere in the target is never reported: its chunk
/// list stays empty.
pub proof fn lemma_no_occurrence(s: Seq<u8>, t: Seq<u8>)
    requires
        forall|o: int|
            0 <= o && o + s.len() <= t.len() ==> #[trigger] t.subrange(o, o + s.len() as int)
                != s,
    ensures
        run(s, t).1 == Seq::<(nat, nat)>::empty(),
{
    lemma_run_inv(s, t);
    let cs = run(s, t).1;
    if cs.len() > 0 {
        let c = cs[0];
        assert(chunk_ok(s, t, c));
        assert(t.subrange(c.0 as int, c.0 + s.len() as int) == s);
        assert(false);
    }
    assert(cs =~= Seq::<(nat, nat)>::empty());
}

/// A matcher's result is a function of its own content and the target
/// alone: two sources with equal content get equal chunk lists from the
/// same target, wherever each stands in the source list and whatever the
/// other matchers do.
pub proof fn lemma_equal_content_equal_chunks(s1: Seq<u8>, s2: Seq<u8>, t: Seq<u8>)
    requires
        s1 == s2,
    ensures
        run(s1, t).1 == run(s2, t).1,
{
}

/// An empty target yields an empty chunk list for every source.
pub proof fn lemma_empty_target(s: Seq<u8>)
    ensures
        run(s, Seq::<u8>::empty()).1 == Seq::<(nat, nat)>::empty(),
{
}

/// Two adjacent occurrences of a non-empty source, the first reached with
/// no attempt in progress, are both reported, each as its own chunk; their
/// spans follow one another without overlap.
pub proof fn lemma_adjacent_occurrences(s: Seq<u8>, t: Seq<u8>, o: int)
    requires
        1 <= s.len(),
        0 <= o,
        o + 2 * (s.len() as int) <= t.len(),
        run(s, t.take(o)).0 == init(),
        t.subrange(o, o + s.len() as int) == s,
        t.subrange(o + s.len() as int, o + 2 * (s.len() as int)) == s,
    ensures
        run(s, t).1.contains((o as nat, (o + s.len() - 1) as nat)),
        run(s, t).1.contains(((o + s.len()) as nat, (o + 2 * s.len() - 1) as nat)),
{
    lemma_occurrence_reported(s, t, o);
    lemma_occurrence_reported(s, t, o + s.len() as int);
}

} // verus!

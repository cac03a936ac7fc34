//! Random visibility sample generators.

use vstd::prelude::*;

use rand::Rng;
use rand::SeedableRng;

verus! {

use crate::analyses::VISIBLE_VAL;
use crate::node_map::IdSet;
use crate::node_map::NodeValueMap;
use crate::roll_up::MAX_OPERABILITY;

/// The chance of sampling a node as not visible when none is
/// configured for it, as a fixed-point fraction of `MAX_OPERABILITY`.
pub const DEFAULT_OFF_CHANCE: u64 = 500;

/// Produces one visibility sample per call: a mapping from each
/// dynamic node id to a flag, `VISIBLE_VAL` for visible, `0` for not
/// visible.  It can be split into independent per-worker copies over
/// the same id set.
pub trait VisGen: Sized {
    spec fn wf(&self) -> bool;

    /// The ids the generator samples.
    spec fn id_set(&self) -> Set<u32>;

    fn next_states(&mut self) -> (s: NodeValueMap<u8>)
        requires
            old(self).wf(),
        ensures
            final(self).wf(),
            final(self).id_set() == old(self).id_set(),
            s.wf(),
            s@.dom() == old(self).id_set(),
            forall|k: u32| s@.dom().contains(k) ==> s@[k] == 0 || s@[k] == VISIBLE_VAL,
    ;

    fn split_to_threads(&self, threads: u64) -> (out: Vec<Self>)
        requires
            self.wf(),
        ensures
            out@.len() == threads,
            forall|i: int|
                0 <= i < out@.len() ==> (#[trigger] out@[i]).wf() && out@[i].id_set()
                    == self.id_set(),
    ;
}

#[verifier::external_type_specification]
#[verifier::external_body]
pub struct ExStdRng(rand::rngs::StdRng);

/// Relies on rand's `SeedableRng::from_entropy`: yields a generator
/// freshly seeded from the operating system's entropy source, and
/// panics only if that source fails.
#[verifier::external_body]
fn fresh_rng() -> rand::rngs::StdRng {
    rand::rngs::StdRng::from_entropy()
}

/// Relies on rand's `Rng::gen_range`: returns a uniformly distributed
/// value in `[0, bound)`.
#[verifier::external_body]
fn rand_below(rng: &mut rand::rngs::StdRng, bound: u64) -> (r: u64)
    requires
        bound > 0,
    ensures
        r < bound,
{
    rng.gen_range(0..bound)
}

/// Turns one uniform draw from `[0, MAX_OPERABILITY)` into a
/// visibility flag: the node is sampled not visible when the draw
/// reaches the node's off chance, else visible.
pub fn visibility_flag(draw: u64, off_chance: u64) -> (flag: u8)
    ensures
        flag == (if draw >= off_chance {
            0u8
        } else {
            VISIBLE_VAL
        }),
{
    if draw >= off_chance {
        0
    } else {
        VISIBLE_VAL
    }
}

/// Samples every id independently: each call draws, for each id, a
/// uniform value in `[0, MAX_OPERABILITY)` and compares it with the
/// id's configured off chance (`DEFAULT_OFF_CHANCE` when none is
/// configured).
pub struct RandomGen {
    pub rng: rand::rngs::StdRng,
    pub ids: IdSet,
    pub off_chances: NodeValueMap<u64>,
}

impl VisGen for RandomGen {
    open spec fn wf(&self) -> bool {
        self.ids.wf() && self.off_chances.wf()
    }

    open spec fn id_set(&self) -> Set<u32> {
        self.ids@
    }

    /// Beyond the trait's contract: only the random source advances —
    /// the id set (in order) and the off-chance configuration are
    /// unchanged — and the extreme off chances are certain: an off
    /// chance of zero always samples the node not visible, one at or
    /// above `MAX_OPERABILITY` always samples it visible (every draw
    /// lies strictly below the scale).
    fn next_states(&mut self) -> (s: NodeValueMap<u8>)
        ensures
            final(self).ids == old(self).ids,
            final(self).off_chances == old(self).off_chances,
            forall|k: u32|
                #![trigger s@[k]]
                s@.dom().contains(k) && old(self).off_chances@.dom().contains(k) && old(
                    self,
                ).off_chances@[k] == 0 ==> s@[k] == 0,
            forall|k: u32|
                #![trigger s@[k]]
                s@.dom().contains(k) && old(self).off_chances@.dom().contains(k) && old(
                    self,
                ).off_chances@[k] >= MAX_OPERABILITY ==> s@[k] == VISIBLE_VAL,
    {
        let mut new_states = NodeValueMap::<u8>::new();
        let n = self.ids.len();
        let mut i: usize = 0;
        proof {
            self.ids.lemma_ids();
            assert(new_states@.dom() =~= self.ids.id_seq().take(0).to_set());
        }
        while i < n
            invariant
                self.wf(),
                self.ids == old(self).ids,
                self.off_chances == old(self).off_chances,
                n == self.ids.id_seq().len(),
                i <= n,
                new_states.wf(),
                new_states@.dom() == self.ids.id_seq().take(i as int).to_set(),
                forall|k: u32|
                    new_states@.dom().contains(k) ==> new_states@[k] == 0 || new_states@[k]
                        == VISIBLE_VAL,
                forall|k: u32|
                    #![trigger new_states@[k]]
                    new_states@.dom().contains(k) && self.off_chances@.dom().contains(k)
                        && self.off_chances@[k] == 0 ==> new_states@[k] == 0,
                forall|k: u32|
                    #![trigger new_states@[k]]
                    new_states@.dom().contains(k) && self.off_chances@.dom().contains(k)
                        && self.off_chances@[k] >= MAX_OPERABILITY ==> new_states@[k]
                        == VISIBLE_VAL,
            decreases n - i,
        {
            let id = self.ids.idx(i);
            let draw = rand_below(&mut self.rng, MAX_OPERABILITY);
            let off_chance = match self.off_chances.get(id) {
                Some(c) => c,
                None => DEFAULT_OFF_CHANCE,
            };
            let flag = visibility_flag(draw, off_chance);
            let ghost prev_dom = new_states@.dom();
            new_states.insert(id, flag);
            proof {
                assert(new_states@.dom() =~= prev_dom.insert(id));
                assert(self.ids.id_seq().take(i + 1).drop_last() =~= self.ids.id_seq().take(
                    i as int,
                ));
                assert(self.ids.id_seq().take(i + 1).last() == self.ids.id_seq()[i as int]);
                assert(new_states@.dom() =~= self.ids.id_seq().take(i + 1).to_set()) by {
                    let t1 = self.ids.id_seq().take(i + 1);
                    let t0 = self.ids.id_seq().take(i as int);
                    assert forall|x: u32| t1.contains(x) implies prev_dom.insert(id).contains(
                        x,
                    ) by {
                        let j = choose|j: int| 0 <= j < t1.len() && t1[j] == x;
                        if j < i {
                            assert(t0[j] == x);
                        }
                    }
                    assert forall|x: u32| prev_dom.insert(id).contains(x) implies t1.contains(
                        x,
                    ) by {
                        if x == id {
                            assert(t1[i as int] == x);
                        } else {
                            let j = choose|j: int| 0 <= j < t0.len() && t0[j] == x;
                            assert(t1[j] == x);
                        }
                    }
                }
            }
            i += 1;
        }
        proof {
            self.ids.lemma_ids();
            assert(self.ids.id_seq().take(n as int) =~= self.ids.id_seq());
            assert(new_states@.dom() =~= self.ids@) by {
                assert forall|x: u32| self.ids.id_seq().to_set().contains(x) implies
                    self.ids@.contains(x) by {}
                assert forall|x: u32| self.ids@.contains(x) implies
                    self.ids.id_seq().to_set().contains(x) by {}
            }
        }
        new_states
    }

    /// Each copy samples the same ids with the same off chances, but
    /// owns its own independently seeded random source.  Beyond the
    /// trait's contract: each copy keeps the id order and the whole
    /// off-chance configuration.
    fn split_to_threads(&self, threads: u64) -> (out: Vec<Self>)
        ensures
            forall|j: int|
                0 <= j < out@.len() ==> (#[trigger] out@[j]).ids.id_seq() == self.ids.id_seq()
                    && out@[j].off_chances@ == self.off_chances@ && out@[j].off_chances.eseq()
                    == self.off_chances.eseq(),
    {
        let mut out: Vec<RandomGen> = Vec::new();
        let mut i: u64 = 0;
        while i < threads
            invariant
                self.wf(),
                i <= threads,
                out@.len() == i,
                forall|j: int|
                    0 <= j < out@.len() ==> (#[trigger] out@[j]).wf() && out@[j].id_set()
                        == self.id_set() && out@[j].ids.id_seq() == self.ids.id_seq()
                        && out@[j].off_chances@ == self.off_chances@ && out@[j].off_chances.eseq()
                        == self.off_chances.eseq(),
            decreases threads - i,
        {
            out.push(
                RandomGen {
                    rng: fresh_rng(),
                    ids: self.ids.duplicate(),
                    off_chances: self.off_chances.duplicate(),
                },
            );
            i += 1;
        }
        out
    }
}

} // verus!

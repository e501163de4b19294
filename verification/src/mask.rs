use vstd::prelude::*;
use crate::actions::Action;
use crate::actions::ACTION_COUNT;
use crate::actions::lemma_id_round_trip;

verus! {

/// A set of moves, one bit per move, indexed by [`Action::id`].
#[derive(Clone, Copy, Debug, PartialEq, Eq, Structural, Hash)]
pub struct ActionMask {
    pub bits: u64,
}

/// Whether bit `i` of `bits` is set.
pub open spec fn bit_is_set(bits: u64, i: u8) -> bool {
    (bits >> (i as u64)) & 1u64 == 1u64
}

proof fn lemma_bit_or(bits: u64, i: u64, j: u64)
    by (bit_vector)
    requires
        i < 64,
        j < 64,
    ensures
        (((bits | (1u64 << i)) >> j) & 1u64 == 1u64) == (i == j || (bits >> j) & 1u64 == 1u64),
{
}

proof fn lemma_bit_clear(bits: u64, i: u64, j: u64)
    by (bit_vector)
    requires
        i < 64,
        j < 64,
    ensures
        (((bits & !(1u64 << i)) >> j) & 1u64 == 1u64) == (i != j && (bits >> j) & 1u64 == 1u64),
{
}

proof fn lemma_bit_union(a: u64, b: u64, j: u64)
    by (bit_vector)
    requires
        j < 64,
    ensures
        (((a | b) >> j) & 1u64 == 1u64) == ((a >> j) & 1u64 == 1u64 || (b >> j) & 1u64 == 1u64),
        (((a & b) >> j) & 1u64 == 1u64) == ((a >> j) & 1u64 == 1u64 && (b >> j) & 1u64 == 1u64),
        ((0u64 >> j) & 1u64 == 1u64) == false,
{
}

/// Whether the job level, and for Manipulation the unlock toggle, admits the move.
pub open spec fn unlocked(a: Action, level: u8, manipulation: bool) -> bool {
    a.spec_level_requirement() <= level && (a == Action::Manipulation ==> manipulation)
}

impl View for ActionMask {
    type V = Set<Action>;

    /// The moves whose bit is set.
    open spec fn view(&self) -> Set<Action> {
        Set::new(|a: Action| self.spec_has(a))
    }
}

impl ActionMask {
    pub open spec fn spec_has(self, a: Action) -> bool {
        bit_is_set(self.bits, a.spec_id())
    }

    /// The empty set.
    pub fn none() -> (r: ActionMask)
        ensures
            r@ == Set::<Action>::empty(),
            forall|a: Action| !r.spec_has(a),
    {
        let r = ActionMask { bits: 0 };
        proof {
            assert forall|a: Action| !r.spec_has(a) by {
                lemma_bit_union(0, 0, a.spec_id() as u64);
            }
            assert(r@ =~= Set::<Action>::empty());
        }
        r
    }

    /// Every move of the catalogue.
    pub fn all() -> (r: ActionMask)
        ensures
            forall|a: Action| r.spec_has(a),
            r@ == Set::<Action>::full(),
    {
        let r = ActionMask::from_level(u8::MAX, true);
        proof {
            assert(r@ =~= Set::<Action>::full());
        }
        r
    }

    pub fn has(self, a: Action) -> (r: bool)
        ensures
            r == self.spec_has(a),
            r == self@.contains(a),
    {
        (self.bits >> (a.id() as u64)) & 1u64 == 1u64
    }

    pub fn add(self, a: Action) -> (r: ActionMask)
        ensures
            r@ == self@.insert(a),
            forall|b: Action| r.spec_has(b) == (b == a || self.spec_has(b)),
    {
        let r = ActionMask { bits: self.bits | (1u64 << (a.id() as u64)) };
        proof {
            assert forall|b: Action| r.spec_has(b) == (b == a || self.spec_has(b)) by {
                lemma_id_round_trip(a);
                lemma_id_round_trip(b);
                lemma_bit_or(self.bits, a.spec_id() as u64, b.spec_id() as u64);
            }
            assert(r@ =~= self@.insert(a));
        }
        r
    }

    pub fn remove(self, a: Action) -> (r: ActionMask)
        ensures
            r@ == self@.remove(a),
            forall|b: Action| r.spec_has(b) == (b != a && self.spec_has(b)),
    {
        let r = ActionMask { bits: self.bits & !(1u64 << (a.id() as u64)) };
        proof {
            assert forall|b: Action| r.spec_has(b) == (b != a && self.spec_has(b)) by {
                lemma_id_round_trip(a);
                lemma_id_round_trip(b);
                lemma_bit_clear(self.bits, a.spec_id() as u64, b.spec_id() as u64);
            }
            assert(r@ =~= self@.remove(a));
        }
        r
    }

    pub fn union(self, other: ActionMask) -> (r: ActionMask)
        ensures
            r@ == self@.union(other@),
            forall|b: Action| r.spec_has(b) == (self.spec_has(b) || other.spec_has(b)),
    {
        let r = ActionMask { bits: self.bits | other.bits };
        proof {
            assert forall|b: Action| r.spec_has(b) == (self.spec_has(b) || other.spec_has(b)) by {
                lemma_id_round_trip(b);
                lemma_bit_union(self.bits, other.bits, b.spec_id() as u64);
            }
            assert(r@ =~= self@.union(other@));
        }
        r
    }

    pub fn intersection(self, other: ActionMask) -> (r: ActionMask)
        ensures
            r@ == self@.intersect(other@),
            forall|b: Action| r.spec_has(b) == (self.spec_has(b) && other.spec_has(b)),
    {
        let r = ActionMask { bits: self.bits & other.bits };
        proof {
            assert forall|b: Action| r.spec_has(b) == (self.spec_has(b) && other.spec_has(b)) by {
                lemma_id_round_trip(b);
                lemma_bit_union(self.bits, other.bits, b.spec_id() as u64);
            }
            assert(r@ =~= self@.intersect(other@));
        }
        r
    }

    /// The members in ascending order of identifier, each once.
    pub fn actions_iter(self) -> (r: Vec<Action>)
        ensures
            forall|a: Action| r@.contains(a) <==> self.spec_has(a),
            forall|i: int, j: int| 0 <= i < j < r.len() ==> r[i].spec_id() < r[j].spec_id(),
            r.len() <= ACTION_COUNT,
    {
        let mut out: Vec<Action> = Vec::new();
        let mut i: u8 = 0;
        while i < ACTION_COUNT
            invariant
                i <= ACTION_COUNT,
                out.len() <= i,
                forall|a: Action| out@.contains(a) <==> (self.spec_has(a) && a.spec_id() < i),
                forall|k: int, l: int| 0 <= k < l < out.len() ==> out[k].spec_id() < out[l].spec_id(),
                forall|k: int| 0 <= k < out.len() ==> out[k].spec_id() < i,
            decreases ACTION_COUNT - i,
        {
            if let Some(a) = Action::from_id(i) {
                if self.has(a) {
                    let ghost before = out@;
                    out.push(a);
                    proof {
                        assert(out@ == before.push(a));
                        assert forall|b: Action| out@.contains(b) <==> (self.spec_has(b)
                            && b.spec_id() < i + 1) by {
                            lemma_id_round_trip(b);
                            if before.contains(b) {
                                let k = choose|k: int| 0 <= k < before.len() && before[k] == b;
                                assert(out@[k] == b);
                            }
                            if b == a {
                                assert(out@[before.len() as int] == a);
                            }
                            if out@.contains(b) {
                                let k = choose|k: int| 0 <= k < out@.len() && out@[k] == b;
                                if k < before.len() {
                                    assert(before[k] == b);
                                }
                            }
                        }
                    }
                } else {
                    proof {
                        assert forall|b: Action| out@.contains(b) <==> (self.spec_has(b)
                            && b.spec_id() < i + 1) by {
                            lemma_id_round_trip(b);
                        }
                    }
                }
            }
            i += 1;
        }
        proof {
            assert forall|a: Action| out@.contains(a) <==> self.spec_has(a) by {
                lemma_id_round_trip(a);
            }
        }
        out
    }

    /// The moves that a crafter of the given job level has unlocked.
    /// Manipulation is taught by a quest, so it needs the toggle as well.
    pub fn from_level(level: u8, manipulation: bool) -> (r: ActionMask)
        ensures
            forall|a: Action| r.spec_has(a) == unlocked(a, level, manipulation),
            r@ == Set::new(|a: Action| unlocked(a, level, manipulation)),
    {
        let mut mask = ActionMask::none();
        let mut i: u8 = 0;
        while i < ACTION_COUNT
            invariant
                i <= ACTION_COUNT,
                forall|a: Action|
                    mask.spec_has(a) == (a.spec_id() < i && unlocked(a, level, manipulation)),
            decreases ACTION_COUNT - i,
        {
            let ghost before = mask;
            if let Some(a) = Action::from_id(i) {
                let free = match a {
                    Action::Manipulation => manipulation,
                    _ => true,
                };
                if a.level_requirement() <= level && free {
                    mask = mask.add(a);
                }
            }
            proof {
                assert forall|b: Action|
                    mask.spec_has(b) == (b.spec_id() < i + 1 && unlocked(
                        b,
                        level,
                        manipulation,
                    )) by {
                    lemma_id_round_trip(b);
                    assert(before.spec_has(b) == (b.spec_id() < i && unlocked(
                        b,
                        level,
                        manipulation,
                    )));
                }
            }
            i += 1;
        }
        proof {
            assert forall|a: Action| mask.spec_has(a) == unlocked(a, level, manipulation) by {
                lemma_id_round_trip(a);
            }
            assert(mask@ =~= Set::new(|a: Action| unlocked(a, level, manipulation)));
        }
        mask
    }
}

} // verus!

//! Single-writer discipline: a directory is held by at most one open store
//! handle at a time.

use crate::bytes::{copy_bytes, same_bytes};
use crate::error::StoreError;
use vstd::prelude::*;

verus! {

/// The directories among `held`, each named by the bytes of its path.
pub open spec fn dirs_of(held: Seq<Vec<u8>>) -> Set<Seq<u8>> {
    Set::new(|dir: Seq<u8>| exists|i: int| 0 <= i < held.len() && (#[trigger] held[i])@ == dir)
}

/// No directory is listed twice.
pub open spec fn distinct(held: Seq<Vec<u8>>) -> bool {
    forall|i: int, j: int| 0 <= i < j < held.len() ==> (#[trigger] held[i])@ != (#[trigger] held[j])@
}

/// What an attempt to take the lock of `dir` comes to while the directories
/// in `held` are held: the directory joins them, unless it is among them
/// already.
pub open spec fn acquire_outcome(held: Set<Seq<u8>>, dir: Seq<u8>) -> Result<
    Set<Seq<u8>>,
    StoreError,
> {
    if held.contains(dir) {
        Err(StoreError::LockContention)
    } else {
        Ok(held.insert(dir))
    }
}

/// The directories that open store handles of this process hold. Opening a
/// store takes the lock of its directory, closing it gives the lock back.
pub struct LockRegistry {
    held: Vec<Vec<u8>>,
}

impl View for LockRegistry {
    type V = Set<Seq<u8>>;

    closed spec fn view(&self) -> Set<Seq<u8>> {
        dirs_of(self.held@)
    }
}

impl LockRegistry {
    /// The registry is in order: it lists no directory twice.
    pub closed spec fn wf(&self) -> bool {
        distinct(self.held@)
    }

    /// A registry in which no directory is held.
    pub fn new() -> (registry: LockRegistry)
        ensures
            registry.wf(),
            registry@ == Set::<Seq<u8>>::empty(),
    {
        let registry = LockRegistry { held: Vec::new() };
        assert(registry@ =~= Set::<Seq<u8>>::empty());
        registry
    }

    /// Where `dir` is listed, if it is.
    fn position(&self, dir: &[u8]) -> (place: Option<usize>)
        ensures
            place is Some <==> self@.contains(dir@),
            place is Some ==> place->0 < self.held@.len() && self.held@[place->0 as int]@ == dir@,
    {
        let mut i: usize = 0;
        while i < self.held.len()
            invariant
                i <= self.held@.len(),
                forall|k: int| 0 <= k < i ==> (#[trigger] self.held@[k])@ != dir@,
            decreases self.held.len() - i,
        {
            if same_bytes(self.held[i].as_slice(), dir) {
                return Some(i);
            }
            i += 1;
        }
        None
    }

    /// Whether the directory is held.
    pub fn is_held(&self, dir: &[u8]) -> (held: bool)
        ensures
            held == self@.contains(dir@),
    {
        self.position(dir).is_some()
    }

    /// Takes the lock of `dir` for a handle that is about to open. Where a
    /// live handle holds the directory the attempt fails at once with
    /// `LockContention`, and nothing changes.
    pub fn acquire(&mut self, dir: &[u8]) -> (outcome: Result<(), StoreError>)
        requires
            old(self).wf(),
        ensures
            final(self).wf(),
            match outcome {
                Ok(_) => acquire_outcome(old(self)@, dir@) == Ok::<Set<Seq<u8>>, StoreError>(
                    final(self)@,
                ),
                Err(error) => acquire_outcome(old(self)@, dir@) == Err::<
                    Set<Seq<u8>>,
                    StoreError,
                >(error) && final(self)@ == old(self)@,
            },
    {
        if self.position(dir).is_some() {
            return Err(StoreError::LockContention);
        }
        let ghost before = self.held@;
        self.held.push(copy_bytes(dir));
        proof {
            let after = self.held@;
            assert forall|d: Seq<u8>| dirs_of(after).contains(d) <==> dirs_of(before).insert(
                dir@,
            ).contains(d) by {
                if dirs_of(after).contains(d) {
                    let i = choose|i: int| 0 <= i < after.len() && (#[trigger] after[i])@ == d;
                    if i < before.len() {
                        assert(before[i]@ == d);
                    }
                }
                if dirs_of(before).contains(d) {
                    let i = choose|i: int| 0 <= i < before.len() && (#[trigger] before[i])@ == d;
                    assert(after[i]@ == d);
                }
                if d == dir@ {
                    assert(after[after.len() - 1]@ == d);
                }
            }
            assert(dirs_of(after) =~= dirs_of(before).insert(dir@));
            assert forall|i: int, j: int| 0 <= i < j < after.len() implies (#[trigger] after[i])@
                != (#[trigger] after[j])@ by {
                if j == after.len() - 1 {
                    assert(before[i]@ != dir@);
                } else {
                    assert(before[i]@ != before[j]@);
                }
            }
        }
        Ok(())
    }

    /// Gives the lock of `dir` back when its handle closes, and tells whether
    /// the directory was held.
    pub fn release(&mut self, dir: &[u8]) -> (was_held: bool)
        requires
            old(self).wf(),
        ensures
            final(self).wf(),
            was_held == old(self)@.contains(dir@),
            final(self)@ == old(self)@.remove(dir@),
    {
        let ghost before = self.held@;
        match self.position(dir) {
            None => {
                assert(self@ =~= old(self)@.remove(dir@));
                false
            },
            Some(place) => {
                self.held.remove(place);
                proof {
                    let after = self.held@;
                    assert forall|i: int, j: int| 0 <= i < j < after.len() implies (
                    #[trigger] after[i])@ != (#[trigger] after[j])@ by {
                        let bi = if i < place {
                            i
                        } else {
                            i + 1
                        };
                        let bj = if j < place {
                            j
                        } else {
                            j + 1
                        };
                        assert(after[i] == before[bi] && after[j] == before[bj]);
                    }
                    assert forall|d: Seq<u8>| dirs_of(after).contains(d) <==> dirs_of(
                        before,
                    ).remove(dir@).contains(d) by {
                        if dirs_of(after).contains(d) {
                            let i = choose|i: int|
                                0 <= i < after.len() && (#[trigger] after[i])@ == d;
                            let bi = if i < place {
                                i
                            } else {
                                i + 1
                            };
                            assert(after[i] == before[bi]);
                            assert(before[bi]@ == d);
                            if d == dir@ {
                                assert(before[place as int]@ == dir@);
                                assert(bi != place);
                                if bi < place {
                                    assert(before[bi]@ != before[place as int]@);
                                } else {
                                    assert(before[place as int]@ != before[bi]@);
                                }
                            }
                        }
                        if dirs_of(before).remove(dir@).contains(d) {
                            let i = choose|i: int|
                                0 <= i < before.len() && (#[trigger] before[i])@ == d;
                            assert(i != place);
                            let ai = if i < place {
                                i
                            } else {
                                i - 1
                            };
                            assert(after[ai] == before[i]);
                        }
                    }
                    assert(dirs_of(after) =~= dirs_of(before).remove(dir@));
                }
                true
            },
        }
    }
}

/// Single-writer exclusion: a directory that a handle has taken cannot be
/// taken again while the handle lives, whatever other directories are taken
/// or given back meanwhile. Once it is given back it can be taken anew.
pub proof fn law_single_writer(held: Set<Seq<u8>>, dir: Seq<u8>, other: Seq<u8>)
    requires
        acquire_outcome(held, dir) is Ok,
        other != dir,
    ensures
        ({
            let taken = acquire_outcome(held, dir)->Ok_0;
            &&& acquire_outcome(taken, dir) == Err::<Set<Seq<u8>>, StoreError>(
                StoreError::LockContention,
            )
            &&& acquire_outcome(taken.insert(other), dir) is Err
            &&& acquire_outcome(taken.remove(other), dir) is Err
            &&& acquire_outcome(taken.remove(dir), dir) is Ok
        }),
{
}

} // verus!

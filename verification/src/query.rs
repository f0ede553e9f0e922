//! Access checks for queries.
//!
//! A query names component types, each read (`&T`) or written (`&mut T`).
//! A query that writes a component type must not also read it, nor write it
//! twice: that would hand out aliasing references.
use crate::component::ComponentTypeId;
use vstd::prelude::*;

verus! {

/// Why a query's component accesses conflict.
#[derive(Debug, Clone, Copy, PartialEq, Eq, Structural)]
pub enum AccessConflict {
    /// The same component type is written twice.
    DuplicateMutable,
    /// The same component type is both read and written.
    ReadWriteOverlap,
}

/// Whether items `i` and `j` name the same component type and at least one
/// of them writes it.
pub open spec fn clash(items: Seq<(bool, Option<ComponentTypeId>)>, i: int, j: int) -> bool {
    &&& items[i].1 is Some
    &&& items[i].1 == items[j].1
    &&& (items[i].0 || items[j].0)
}

/// Whether item `j` clashes with an earlier item.
pub open spec fn clashes_before(items: Seq<(bool, Option<ComponentTypeId>)>, j: int) -> bool {
    exists|i: int| 0 <= i < j && clash(items, i, j)
}

/// Whether item `j` and an earlier item both write the same type.
pub open spec fn writes_twice(items: Seq<(bool, Option<ComponentTypeId>)>, j: int) -> bool {
    exists|i: int| 0 <= i < j && items[i].0 && items[j].0 && items[i].1 is Some && items[i].1 == items[j].1
}

/// Validate that no component type has overlapping mutable and immutable
/// access: the first item (in order) that clashes with an earlier one
/// decides the answer. It is a duplicate write when that item and an earlier
/// item both write its type, and a read/write overlap otherwise.
#[verifier::loop_isolation(false)]
pub fn validate_no_access_conflicts(items: &[(bool, Option<ComponentTypeId>)]) -> (r: Result<(), AccessConflict>)
    ensures
        r is Ok <==> forall|j: int| 0 <= j < items@.len() ==> !clashes_before(items@, j),
        r is Err ==> exists|j: int| {
            &&& 0 <= j < items@.len()
            &&& clashes_before(items@, j)
            &&& forall|k: int| 0 <= k < j ==> !clashes_before(items@, k)
            &&& r->Err_0 == (if writes_twice(items@, j) {
                AccessConflict::DuplicateMutable
            } else {
                AccessConflict::ReadWriteOverlap
            })
        },
{
    let mut j: usize = 0;
    while j < items.len()
        invariant
            j <= items@.len(),
            forall|k: int| 0 <= k < j ==> !clashes_before(items@, k),
        decreases items@.len() - j,
    {
        let (is_mut, tid) = items[j];
        if let Some(id) = tid {
            let mut dup_mut = false;
            let mut overlap = false;
            let mut i: usize = 0;
            while i < j
                invariant
                    j < items@.len(),
                    i <= j,
                    items@[j as int] == (is_mut, tid),
                    tid == Some(id),
                    dup_mut == (exists|k: int| 0 <= k < i && items@[k].0 && is_mut && items@[k].1 == tid),
                    (dup_mut || overlap) == (exists|k: int| 0 <= k < i && clash(items@, k, j as int)),
                decreases j - i,
            {
                let (m2, t2) = items[i];
                proof {
                    assert(items@[i as int] == (m2, t2));
                }
                if let Some(id2) = t2 {
                    if id2.0 == id.0 {
                        assert(id2 == id);
                        if m2 && is_mut {
                            dup_mut = true;
                        } else if m2 || is_mut {
                            overlap = true;
                        }
                        proof {
                            if m2 || is_mut {
                                assert(clash(items@, i as int, j as int));
                            } else {
                                assert(!clash(items@, i as int, j as int));
                            }
                        }
                    } else {
                        assert(!clash(items@, i as int, j as int));
                    }
                } else {
                    assert(!clash(items@, i as int, j as int));
                }
                i = i + 1;
            }
            proof {
                assert(dup_mut == writes_twice(items@, j as int));
                assert((dup_mut || overlap) == clashes_before(items@, j as int));
            }
            if dup_mut {
                return Err(AccessConflict::DuplicateMutable);
            }
            if overlap {
                return Err(AccessConflict::ReadWriteOverlap);
            }
        } else {
            proof {
                assert(!clashes_before(items@, j as int));
            }
        }
        j = j + 1;
    }
    Ok(())
}

} // verus!

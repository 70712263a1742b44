//! The target descriptor registry: a name-keyed, immutable table of
//! bundled descriptors, selected case-insensitively.

use vstd::prelude::*;

use crate::algorithm::TargetDescriptor;
use crate::errors::TargetSelectionError;

verus! {

/// ASCII lower case of one byte.
pub open spec fn lower_byte(c: u8) -> u8 {
    if 0x41 <= c <= 0x5A {
        (c + 0x20) as u8
    } else {
        c
    }
}

/// ASCII lower case of a name.
pub open spec fn lower_name(s: Seq<u8>) -> Seq<u8> {
    s.map_values(|c: u8| lower_byte(c))
}

/// Compares two names ignoring ASCII case.
pub fn names_match(a: &[u8], b: &[u8]) -> (r: bool)
    ensures
        r == (lower_name(a@) == lower_name(b@)),
{
    if a.len() != b.len() {
        proof {
            assert(lower_name(a@).len() != lower_name(b@).len());
        }
        return false;
    }
    let n = a.len();
    let mut i: usize = 0;
    while i < n
        invariant
            n == a@.len() == b@.len(),
            0 <= i <= n,
            forall|k: int| 0 <= k < i ==> lower_byte(a@[k]) == lower_byte(b@[k]),
        decreases n - i,
    {
        let ca = if a[i] >= 0x41 && a[i] <= 0x5A {
            a[i] + 0x20
        } else {
            a[i]
        };
        let cb = if b[i] >= 0x41 && b[i] <= 0x5A {
            b[i] + 0x20
        } else {
            b[i]
        };
        if ca != cb {
            proof {
                assert(lower_name(a@)[i as int] == lower_byte(a@[i as int]));
                assert(lower_name(b@)[i as int] == lower_byte(b@[i as int]));
            }
            return false;
        }
        i += 1;
    }
    proof {
        assert(lower_name(a@) =~= lower_name(b@));
    }
    true
}

/// A name-keyed table of validated target descriptors, populated once
/// at start and never mutated afterwards.
pub struct Registry {
    targets: Vec<TargetDescriptor>,
}

impl Registry {
    pub closed spec fn targets(self) -> Seq<TargetDescriptor> {
        self.targets@
    }

    pub open spec fn wf(self) -> bool {
        forall|i: int| 0 <= i < self.targets().len() ==> (#[trigger] self.targets()[i]).wf()
    }

    pub fn new() -> (r: Registry)
        ensures
            r.targets() == Seq::<TargetDescriptor>::empty(),
            r.wf(),
    {
        let r = Registry { targets: Vec::new() };
        proof {
            assert(r.targets() =~= Seq::<TargetDescriptor>::empty());
        }
        r
    }

    /// Adds one bundled descriptor.
    pub fn add(&mut self, td: TargetDescriptor)
        requires
            old(self).wf(),
            td.wf(),
        ensures
            final(self).targets() == old(self).targets().push(td),
            final(self).wf(),
    {
        self.targets.push(td);
        proof {
            assert forall|i: int| 0 <= i < self.targets().len() implies (
            #[trigger] self.targets()[i]).wf() by {
                if i < old(self).targets().len() {
                    assert(self.targets()[i] == old(self).targets()[i]);
                } else {
                    assert(self.targets()[i] == td);
                }
            }
        }
    }

    /// Selects the named target, ignoring ASCII case; fails exactly
    /// when no bundled descriptor bears the name.
    pub fn select(&self, name: &[u8]) -> (r: Result<&TargetDescriptor, TargetSelectionError>)
        requires
            self.wf(),
        ensures
            match r {
                Ok(td) => td.wf() && exists|i: int|
                    0 <= i < self.targets().len() && (#[trigger] self.targets()[i]) == *td
                        && lower_name(self.targets()[i].name@) == lower_name(name@),
                Err(e) => (e matches TargetSelectionError::UnknownTarget(n) && n@ == name@) && (
                forall|i: int|
                    0 <= i < self.targets().len() ==> lower_name(
                        (#[trigger] self.targets()[i]).name@,
                    ) != lower_name(name@)),
            },
    {
        let n = self.targets.len();
        let mut i: usize = 0;
        while i < n
            invariant
                self.wf(),
                n == self.targets@.len(),
                0 <= i <= n,
                forall|k: int|
                    0 <= k < i ==> lower_name((#[trigger] self.targets@[k]).name@)
                        != lower_name(name@),
            decreases n - i,
        {
            let td = &self.targets[i];
            if names_match(td.name.as_slice(), name) {
                proof {
                    assert(self.targets()[i as int] == *td);
                    assert(self.targets()[i as int].wf());
                }
                return Ok(td);
            }
            i += 1;
        }
        let mut copy: Vec<u8> = Vec::new();
        let mut j: usize = 0;
        while j < name.len()
            invariant
                0 <= j <= name@.len(),
                copy@ == name@.subrange(0, j as int),
            decreases name@.len() - j,
        {
            copy.push(name[j]);
            proof {
                assert(copy@ =~= name@.subrange(0, j + 1));
            }
            j += 1;
        }
        proof {
            assert(copy@ =~= name@);
        }
        Err(TargetSelectionError::UnknownTarget(copy))
    }
}

} // verus!

//! The five marks, the keys they are filed under, and the directive set that
//! a command line asks for.

use crate::delta::{upper, Delta};
use std::collections::BTreeMap;
use std::path::PathBuf;
use vstd::prelude::*;

verus! {

/// PAGEEXEC: use the NX bit to mark pages that must not be executed.
pub const PAGEEXEC: char = 'P';

/// EMUTRAMP: emulate stack trampolines.
pub const EMUTRAMP: char = 'E';

/// MPROTECT: write-xor-execute in the mmap and mprotect system calls.
pub const MPROTECT: char = 'M';

/// RANDMMAP: address space layout randomisation.
pub const RANDMMAP: char = 'R';

/// SEGMEXEC: NX bit emulation by segmentation.
pub const SEGMEXEC: char = 'S';

/// The key of the mark that a letter stands for: the code point of its
/// upper-case form, so that both cases of a letter name the same mark.
pub open spec fn mark_key(c: char) -> u32 {
    upper(c) as u32
}

/// The keys of the five marks.
pub open spec fn marks() -> Set<u32> {
    set![
        mark_key(EMUTRAMP),
        mark_key(MPROTECT),
        mark_key(PAGEEXEC),
        mark_key(RANDMMAP),
        mark_key(SEGMEXEC),
    ]
}

/// A directive set: a change for each of the five marks, and for nothing else.
pub open spec fn is_directive_set(m: Map<u32, Delta>) -> bool {
    m.dom() == marks()
}

/// Computes the key of the mark that `c` stands for.
pub fn key_of(c: char) -> (k: u32)
    ensures
        k == mark_key(c),
{
    c.to_ascii_uppercase() as u32
}

/// Std's `PathBuf`, carried through without being looked into.
#[verifier::external_type_specification]
#[verifier::external_body]
pub struct ExPathBuf(PathBuf);

/// What a command line asks for: the file to mark and, for each mark, whether
/// enabling and whether disabling was requested.
pub struct Cli {
    pub binary: PathBuf,
    pub e_pageexec: bool,
    pub d_pageexec: bool,
    pub e_emutramp: bool,
    pub d_emutramp: bool,
    pub e_mprotect: bool,
    pub d_mprotect: bool,
    pub e_randmmap: bool,
    pub d_randmmap: bool,
    pub e_segmexec: bool,
    pub d_segmexec: bool,
}

impl Cli {
    /// The directive set that the requests stand for.
    pub open spec fn directives(&self) -> Map<u32, Delta> {
        Map::empty().insert(
            mark_key(PAGEEXEC),
            Delta::requested(self.e_pageexec, self.d_pageexec),
        ).insert(mark_key(EMUTRAMP), Delta::requested(self.e_emutramp, self.d_emutramp)).insert(
            mark_key(MPROTECT),
            Delta::requested(self.e_mprotect, self.d_mprotect),
        ).insert(mark_key(RANDMMAP), Delta::requested(self.e_randmmap, self.d_randmmap)).insert(
            mark_key(SEGMEXEC),
            Delta::requested(self.e_segmexec, self.d_segmexec),
        )
    }

    /// Builds the directive set: one change per mark, filed under the mark's key.
    pub fn get_delta(&self) -> (delta: BTreeMap<u32, Delta>)
        ensures
            delta@ == self.directives(),
            is_directive_set(delta@),
    {
        let mut delta: BTreeMap<u32, Delta> = BTreeMap::new();
        delta.insert(key_of(PAGEEXEC), Delta::new(self.e_pageexec, self.d_pageexec));
        delta.insert(key_of(EMUTRAMP), Delta::new(self.e_emutramp, self.d_emutramp));
        delta.insert(key_of(MPROTECT), Delta::new(self.e_mprotect, self.d_mprotect));
        delta.insert(key_of(RANDMMAP), Delta::new(self.e_randmmap, self.d_randmmap));
        delta.insert(key_of(SEGMEXEC), Delta::new(self.e_segmexec, self.d_segmexec));
        assert(delta@.dom() =~= marks());
        delta
    }
}

} // verus!

//! The transaction log: an ordered record of reversible prefix mutations.
//!
//! Every mutation the registry stages goes through a `Transaction`, which
//! records enough prior state to undo it.  `commit` discards the undo
//! record; `rollback` undoes every recorded entry in reverse order and is
//! proved to restore the prefix exactly to the state the transaction was
//! opened on — the all-or-nothing guarantee the rest of the engine
//! depends on.

use vstd::prelude::*;
use crate::prefix::InstallPrefix;

verus! {

/// One reversible mutation: what stood at `path` before the step.
pub enum TxEntry {
    /// A file was created or overwritten; `prior` is its earlier content,
    /// or `None` if it did not exist.
    Wrote { path: Vec<u8>, prior: Option<Vec<u8>> },
    /// A file was removed; `kept` is the content it had.
    Removed { path: Vec<u8>, kept: Vec<u8> },
}

/// Undo a single entry on a prefix state.
pub open spec fn undo_one(e: TxEntry, fs: Map<Seq<u8>, Seq<u8>>) -> Map<Seq<u8>, Seq<u8>> {
    match e {
        TxEntry::Wrote { path, prior: None } => fs.remove(path@),
        TxEntry::Wrote { path, prior: Some(d) } => fs.insert(path@, d@),
        TxEntry::Removed { path, kept } => fs.insert(path@, kept@),
    }
}

/// Undo a whole log on a prefix state, last entry first.
pub open spec fn undo_all(es: Seq<TxEntry>, fs: Map<Seq<u8>, Seq<u8>>) -> Map<Seq<u8>, Seq<u8>>
    decreases es.len(),
{
    if es.len() == 0 {
        fs
    } else {
        undo_all(es.drop_last(), undo_one(es.last(), fs))
    }
}

/// An open transaction: the undo log and the state it was opened on.
pub struct Transaction {
    pub entries: Vec<TxEntry>,
    pub start: Ghost<Map<Seq<u8>, Seq<u8>>>,
}

impl Transaction {
    /// The log, undone on `fs`, leads back exactly to the opening state.
    /// Every staged operation preserves this, so rollback is exact at any
    /// failure point.
    pub open spec fn wf_for(&self, fs: Map<Seq<u8>, Seq<u8>>) -> bool {
        undo_all(self.entries@, fs) == self.start@
    }

    /// Open a transaction on the current state of `prefix`.
    pub fn new(prefix: &InstallPrefix) -> (t: Transaction)
        ensures
            t.wf_for(prefix@),
            t.start@ == prefix@,
    {
        Transaction { entries: Vec::new(), start: Ghost(prefix@) }
    }

    /// Create or overwrite a file, recording its prior state.
    pub fn write_file(&mut self, prefix: &mut InstallPrefix, path: &Vec<u8>, data: Vec<u8>)
        requires
            old(self).wf_for(old(prefix)@),
            old(prefix).wf(),
        ensures
            final(prefix).wf(),
            final(prefix)@ == old(prefix)@.insert(path@, data@),
            final(self).wf_for(final(prefix)@),
            final(self).start == old(self).start,
    {
        let ghost fs0 = prefix@;
        let prior: Option<Vec<u8>> = match prefix.get(path) {
            Some(d) => Some(d.clone()),
            None => None,
        };
        let ghost pr = prior;
        prefix.put(path.clone(), data);
        let e = TxEntry::Wrote { path: path.clone(), prior };
        proof {
            let fs1 = fs0.insert(path@, data@);
            match pr {
                None => {
                    assert(undo_one(e, fs1) =~= fs0);
                },
                Some(d) => {
                    assert(d@ == fs0[path@]);
                    assert(undo_one(e, fs1) =~= fs0);
                },
            }
        }
        let ghost pre_entries = self.entries@;
        self.entries.push(e);
        proof {
            assert(self.entries@.drop_last() =~= pre_entries);
            assert(self.entries@.last() == e);
        }
    }

    /// Remove a file, recording its content; removing a file that is
    /// already gone records nothing and succeeds.
    pub fn remove_file(&mut self, prefix: &mut InstallPrefix, path: &Vec<u8>)
        requires
            old(self).wf_for(old(prefix)@),
            old(prefix).wf(),
        ensures
            final(prefix).wf(),
            final(prefix)@ == old(prefix)@.remove(path@),
            final(self).wf_for(final(prefix)@),
            final(self).start == old(self).start,
    {
        let ghost fs0 = prefix@;
        let prior: Option<Vec<u8>> = match prefix.get(path) {
            Some(d) => Some(d.clone()),
            None => None,
        };
        match prior {
            None => {
                proof {
                    assert(fs0.remove(path@) =~= fs0);
                }
                prefix.del(path);
            },
            Some(d) => {
                let ghost dv = d@;
                prefix.del(path);
                let e = TxEntry::Removed { path: path.clone(), kept: d };
                proof {
                    assert(undo_one(e, fs0.remove(path@)) =~= fs0);
                }
                let ghost pre_entries = self.entries@;
                self.entries.push(e);
                proof {
                    assert(self.entries@.drop_last() =~= pre_entries);
                    assert(self.entries@.last() == e);
                }
            },
        }
    }

    /// Finalize: the staged state stands, the undo record is discarded.
    pub fn commit(self) {
    }

    /// Undo every recorded entry in reverse order.  The prefix afterwards
    /// equals, byte for byte, the state the transaction was opened on.
    pub fn rollback(self, prefix: &mut InstallPrefix)
        requires
            self.wf_for(old(prefix)@),
            old(prefix).wf(),
        ensures
            final(prefix).wf(),
            final(prefix)@ == self.start@,
    {
        let Transaction { mut entries, start } = self;
        loop
            invariant
                prefix.wf(),
                undo_all(entries@, prefix@) == start@,
            ensures
                prefix.wf(),
                prefix@ == start@,
            decreases entries@.len(),
        {
            let ghost pre = entries@;
            match entries.pop() {
                None => {
                    break;
                },
                Some(e) => {
                    proof {
                        assert(pre.drop_last() =~= entries@);
                        assert(pre.last() == e);
                    }
                    match e {
                        TxEntry::Wrote { path, prior: None } => {
                            prefix.del(&path);
                        },
                        TxEntry::Wrote { path, prior: Some(d) } => {
                            prefix.put(path, d);
                        },
                        TxEntry::Removed { path, kept } => {
                            prefix.put(path, kept);
                        },
                    }
                },
            }
        }
        assert(prefix@ == start@);
    }
}

} // verus!

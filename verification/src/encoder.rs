use vstd::prelude::*;

use crate::model::{head_run_len, idx_of, lemma_head_run_len_is};
use crate::table::Table;
use crate::Index;

verus! {

/// A cursor that run-length encodes a sequence of characters into a
/// series of runs, looking indices up in a fixed table.
/// See [`Table::encode`].
pub struct Encoder {
    pub(crate) index: usize,
}

impl Encoder {
    /// The position in the input at which the next run starts.
    pub closed spec fn pos(&self) -> int {
        self.index as int
    }

    /// A fresh cursor, standing at the front of the input.
    pub(crate) fn new() -> (r: Encoder)
        ensures
            r.pos() == 0,
    {
        Encoder { index: 0 }
    }

    /// Produces the next run of `items`: the length of the maximal run
    /// of equal characters at the cursor, with the run's character
    /// resolved to its table index. `None` once the input is exhausted.
    pub fn next(&mut self, table: &Table, items: &[char]) -> (r: Option<(Index, usize)>)
        requires
            table.wf(),
            forall|i: int| 0 <= i < items@.len() ==> table@.contains(#[trigger] items@[i]),
            old(self).pos() <= items@.len(),
        ensures
            0 <= final(self).pos() <= items@.len(),
            old(self).pos() < items@.len() ==> {
                let l = head_run_len(items@.skip(old(self).pos()));
                &&& r matches Some(run) && run.0 as int == idx_of(table@, items@[old(self).pos()])
                    && run.1 as int == l
                &&& final(self).pos() == old(self).pos() + l
            },
            old(self).pos() >= items@.len() ==> r is None && *final(self) == *old(self),
    {
        if self.index < items.len() {
            let ind = self.index;
            let len = run_length_at(items, ind);
            self.index = ind + len;
            proof {
                assert(table@.contains(items@[ind as int]));
            }
            match table.get_index(items[ind]) {
                Some(ti) => Some((ti, len)),
                None => vstd::pervasive::unreached(),
            }
        } else {
            None
        }
    }
}

/// Scans forward from `ind` and returns the length of the maximal run
/// of characters equal to `items[ind]`.
pub(crate) fn run_length_at(items: &[char], ind: usize) -> (len: usize)
    requires
        ind < items@.len(),
    ensures
        len as int == head_run_len(items@.skip(ind as int)),
        ind + len <= items@.len(),
{
    let n = items.len();
    let mut len: usize = 1;
    while ind + len < n && items[ind] == items[ind + len]
        invariant
            n == items@.len(),
            ind < n,
            1 <= len,
            ind + len <= n,
            forall|k: int| 0 <= k < len ==> #[trigger] items@[ind + k] == items@[ind as int],
        decreases items@.len() - (ind + len),
    {
        len = len + 1;
    }
    proof {
        let sk = items@.skip(ind as int);
        assert forall|k: int| 0 <= k < len implies #[trigger] sk[k] == sk[0] by {
            assert(sk[k] == items@[ind + k]);
            assert(sk[0] == items@[ind as int]);
        }
        if (len as int) < sk.len() {
            assert(sk[len as int] == items@[ind + len]);
            assert(sk[0] == items@[ind as int]);
        }
        lemma_head_run_len_is(sk, len as int);
    }
    len
}

} // verus!

use vstd::prelude::*;

use crate::encoder::run_length_at;
use crate::model::{head_run_len, step_index, table_step};
use crate::table::Table;
use crate::Index;

verus! {

/// A cursor that run-length encodes a sequence of characters into a
/// series of runs, and also adds characters to the table as it
/// encounters them. See [`Table::encode_mut`].
pub struct EncoderMut {
    pub(crate) index: usize,
}

impl EncoderMut {
    /// The position in the input at which the next run starts.
    pub closed spec fn pos(&self) -> int {
        self.index as int
    }

    /// A fresh cursor, standing at the front of the input.
    pub(crate) fn new() -> (r: EncoderMut)
        ensures
            r.pos() == 0,
    {
        EncoderMut { index: 0 }
    }

    /// Produces the next run of `items`, resolving the run's character
    /// through the table and inserting it first when it is absent.
    /// `None` once the input is exhausted; the table then stays as it is.
    pub fn next(&mut self, table: &mut Table, items: &[char]) -> (r: Option<(Index, usize)>)
        requires
            old(table).wf(),
            old(self).pos() <= items@.len(),
        ensures
            final(table).wf(),
            0 <= final(self).pos() <= items@.len(),
            old(self).pos() < items@.len() ==> {
                let x = items@[old(self).pos()];
                let l = head_run_len(items@.skip(old(self).pos()));
                &&& final(table)@ == table_step(old(table)@, x)
                &&& r matches Some(run) && run.0 as int == step_index(old(table)@, x)
                    && run.1 as int == l
                &&& final(self).pos() == old(self).pos() + l
            },
            old(self).pos() >= items@.len() ==> r is None && *final(self) == *old(self)
                && *final(table) == *old(table),
    {
        if self.index < items.len() {
            let ind = self.index;
            let len = run_length_at(items, ind);
            self.index = ind + len;
            let ti = table.insert_or_get(items[ind]);
            Some((ti, len))
        } else {
            None
        }
    }
}

} // verus!

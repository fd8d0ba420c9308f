use vstd::prelude::*;

use crate::model::{as_int_runs, decode_runs, lemma_decode_runs_step, valid_runs};
use crate::table::Table;
use crate::Index;

verus! {

/// A cursor that decodes a sequence of runs into a series of characters
/// fetched from the table. See [`Table::decode`].
pub struct Decoder {
    pub(crate) pos: usize,
    pub(crate) run: Option<(Index, usize)>,
}

impl Decoder {
    /// The runs still to be decoded: the partly spent pending run, then
    /// the unconsumed tail of the input.
    pub closed spec fn runs_view(&self, runs: Seq<(usize, usize)>) -> Seq<(int, int)> {
        let tail = as_int_runs(runs.skip(self.pos as int));
        match self.run {
            Some(p) => seq![(p.0 as int, p.1 as int)] + tail,
            None => tail,
        }
    }

    /// The cursor stands inside the input, and a pending run always has
    /// at least one repetition left.
    pub closed spec fn wf(&self, runs: Seq<(usize, usize)>) -> bool {
        &&& self.pos as int <= runs.len()
        &&& (self.run matches Some(p) ==> p.1 >= 1)
    }

    /// A fresh cursor, standing at the front of the input.
    pub(crate) fn new() -> (r: Decoder)
        ensures
            forall|runs: Seq<(usize, usize)>|
                r.wf(runs) && #[trigger] r.runs_view(runs) == as_int_runs(runs),
    {
        let r = Decoder { pos: 0, run: None };
        proof {
            assert forall|runs: Seq<(usize, usize)>|
                r.wf(runs) && #[trigger] r.runs_view(runs) == as_int_runs(runs) by {
                assert(runs.skip(0) =~= runs);
            }
        }
        r
    }

    /// Decodes one character: the next repetition of the pending run,
    /// or of the next run pulled from the input. `None` when the input
    /// is exhausted, and also when a run's index is not in the table —
    /// a stale index silently ends the output. A run's length is a
    /// positive integer, as the data model has it.
    pub fn next(&mut self, table: &Table, runs: &[(Index, usize)]) -> (r: Option<char>)
        requires
            old(self).wf(runs@),
            forall|i: int| 0 <= i < runs@.len() ==> (#[trigger] runs@[i]).1 >= 1,
        ensures
            final(self).wf(runs@),
            ({
                let rem = old(self).runs_view(runs@);
                &&& rem.len() == 0 ==> r is None && final(self).runs_view(runs@) == rem
                &&& rem.len() > 0 ==> {
                    let (ind, len) = rem[0];
                    &&& (0 <= ind < table@.len() ==> r == Some(table@[ind]))
                    &&& (!(0 <= ind < table@.len()) ==> r is None)
                    &&& final(self).runs_view(runs@) == (if len > 1 {
                        rem.update(0, (ind, len - 1))
                    } else {
                        rem.drop_first()
                    })
                }
            }),
            table.wf() && valid_runs(table@.len() as int, old(self).runs_view(runs@)) ==> {
                let remc = decode_runs(table@, old(self).runs_view(runs@));
                &&& remc.len() > 0 ==> r == Some(remc[0]) && decode_runs(
                    table@,
                    final(self).runs_view(runs@),
                ) == remc.drop_first()
                &&& remc.len() == 0 ==> r is None && decode_runs(
                    table@,
                    final(self).runs_view(runs@),
                ) == Seq::<char>::empty()
            },
    {
        let ghost rem = self.runs_view(runs@);
        let cur: Option<(usize, usize)> = match self.run {
            Some(p) => {
                self.run = None;
                Some(p)
            },
            None => {
                if self.pos < runs.len() {
                    let p = runs[self.pos];
                    self.pos = self.pos + 1;
                    proof {
                        assert(as_int_runs(runs@.skip(old(self).pos as int)).drop_first()
                            =~= as_int_runs(runs@.skip(self.pos as int)));
                    }
                    Some(p)
                } else {
                    None
                }
            },
        };
        match cur {
            None => {
                proof {
                    lemma_empty_view(rem, table@);
                }
                None
            },
            Some((ind, len)) => {
                if len > 1 {
                    self.run = Some((ind, len - 1));
                }
                proof {
                    assert(rem.len() > 0 && rem[0] == (ind as int, len as int));
                    if len > 1 {
                        assert(self.runs_view(runs@) =~= rem.update(
                            0,
                            (ind as int, len as int - 1),
                        ));
                    } else {
                        assert(self.runs_view(runs@) =~= rem.drop_first());
                    }
                    if (ind as int) < table@.len() {
                        lemma_decode_runs_step(table@, rem);
                    }
                }
                table.get(ind)
            },
        }
    }
}

/// An exhausted cursor decodes to nothing.
proof fn lemma_empty_view(rem: Seq<(int, int)>, ts: Seq<char>)
    requires
        rem.len() == 0,
    ensures
        decode_runs(ts, rem) == Seq::<char>::empty(),
{
}

} // verus!

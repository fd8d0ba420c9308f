use vstd::prelude::*;

use crate::model::{bytes_to_runs, decode_runs, lemma_decode_runs_step, valid_runs};
use crate::table::Table;
use crate::Index;

verus! {

/// A cursor that decodes a run-length encoded sequence of bytes into a
/// series of characters fetched from the table.
/// See [`Table::decode_bytes`].
pub struct BytesDecoder {
    pub(crate) pos: usize,
    pub(crate) run: Option<(Index, usize)>,
}

impl BytesDecoder {
    /// The runs still to be decoded: the partly spent pending run, then
    /// the runs the unconsumed bytes parse into.
    pub closed spec fn runs_view(&self, bytes: Seq<u8>) -> Seq<(int, int)> {
        let tail = bytes_to_runs(bytes.skip(self.pos as int));
        match self.run {
            Some(p) => seq![(p.0 as int, p.1 as int)] + tail,
            None => tail,
        }
    }

    /// The cursor stands inside the input, and a pending run always has
    /// at least one repetition left.
    pub closed spec fn wf(&self, bytes: Seq<u8>) -> bool {
        &&& self.pos as int <= bytes.len()
        &&& (self.run matches Some(p) ==> p.1 >= 1)
    }

    /// A fresh cursor, standing at the front of the input.
    pub(crate) fn new() -> (r: BytesDecoder)
        ensures
            forall|bytes: Seq<u8>|
                r.wf(bytes) && #[trigger] r.runs_view(bytes) == bytes_to_runs(bytes),
    {
        let r = BytesDecoder { pos: 0, run: None };
        proof {
            assert forall|bytes: Seq<u8>|
                r.wf(bytes) && #[trigger] r.runs_view(bytes) == bytes_to_runs(bytes) by {
                assert(bytes.skip(0) =~= bytes);
            }
        }
        r
    }

    /// Decodes one character: the next repetition of the pending run,
    /// or of the next record parsed from the bytes. `None` when the
    /// input is exhausted or ends in a truncated record, and also when
    /// a record's index is not in the table — a stale index silently
    /// ends the output.
    pub fn next(&mut self, table: &Table, bytes: &[u8]) -> (r: Option<char>)
        requires
            old(self).wf(bytes@),
        ensures
            final(self).wf(bytes@),
            ({
                let rem = old(self).runs_view(bytes@);
                &&& rem.len() == 0 ==> r is None && final(self).runs_view(bytes@) == rem
                &&& rem.len() > 0 ==> {
                    let (ind, len) = rem[0];
                    &&& (0 <= ind < table@.len() ==> r == Some(table@[ind]))
                    &&& (!(0 <= ind < table@.len()) ==> r is None)
                    &&& final(self).runs_view(bytes@) == (if len > 1 {
                        rem.update(0, (ind, len - 1))
                    } else {
                        rem.drop_first()
                    })
                }
            }),
            table.wf() && valid_runs(table@.len() as int, old(self).runs_view(bytes@)) ==> {
                let remc = decode_runs(table@, old(self).runs_view(bytes@));
                &&& remc.len() > 0 ==> r == Some(remc[0]) && decode_runs(
                    table@,
                    final(self).runs_view(bytes@),
                ) == remc.drop_first()
                &&& remc.len() == 0 ==> r is None && decode_runs(
                    table@,
                    final(self).runs_view(bytes@),
                ) == Seq::<char>::empty()
            },
    {
        let ghost rem = self.runs_view(bytes@);
        let cur: Option<(usize, usize)> = match self.run {
            Some(p) => {
                self.run = None;
                Some(p)
            },
            None => {
                if self.pos < bytes.len() {
                    let ghost sk = bytes@.skip(self.pos as int);
                    let b0 = bytes[self.pos];
                    self.pos = self.pos + 1;
                    proof {
                        assert(sk[0] == b0);
                        assert(sk.drop_first() =~= bytes@.skip(self.pos as int));
                    }
                    if b0 % 2 == 1 {
                        if self.pos < bytes.len() {
                            let b1 = bytes[self.pos];
                            self.pos = self.pos + 1;
                            proof {
                                assert(sk[1] == b1);
                                assert(sk.skip(2) =~= bytes@.skip(self.pos as int));
                                assert(rem[0] == (b0 as int / 2, b1 as int));
                            }
                            Some(((b0 / 2) as usize, b1 as usize))
                        } else {
                            proof {
                                assert(sk.len() == 1);
                                assert(rem.len() == 0);
                                assert(bytes@.skip(self.pos as int).len() == 0);
                            }
                            None
                        }
                    } else {
                        proof {
                            assert(rem[0] == (b0 as int / 2, 1int));
                        }
                        Some(((b0 / 2) as usize, 1))
                    }
                } else {
                    None
                }
            },
        };
        match cur {
            None => {
                proof {
                    assert(rem.len() == 0);
                    assert(decode_runs(table@, rem) == Seq::<char>::empty());
                    assert(self.runs_view(bytes@) =~= rem);
                }
                None
            },
            Some((ind, len)) => {
                if len > 1 {
                    self.run = Some((ind, len - 1));
                }
                proof {
                    assert(rem.len() > 0 && rem[0] == (ind as int, len as int));
                    if len > 1 {
                        assert(self.runs_view(bytes@) =~= rem.update(
                            0,
                            (ind as int, len as int - 1),
                        ));
                    } else {
                        assert(self.runs_view(bytes@) =~= rem.drop_first());
                    }
                    if (ind as int) < table@.len() {
                        lemma_decode_runs_step(table@, rem);
                    }
                }
                table.get(ind)
            },
        }
    }
}

} // verus!

use vstd::prelude::*;

use crate::encoder::Encoder;
use crate::model::{
    encoded_runs, head_run_len, idx_of, lemma_encoded_runs_step, lemma_idx_of,
    lemma_runs_bytes_cons, run_bytes, runs_bytes,
};
use crate::table::Table;

verus! {

/// A cursor that run-length encodes a sequence of characters into the
/// compressed byte format, looking indices up in a fixed table.
/// See [`Table::encode_bytes`].
pub struct BytesEncoder {
    pub(crate) rle: Encoder,
    pub(crate) run: Option<(u8, usize)>,
    pub(crate) len: Option<u8>,
}

impl BytesEncoder {
    /// The bytes the cursor has still to emit: a pending length byte,
    /// the rest of a partly emitted run, then the bytes of the runs not
    /// yet pulled from the underlying encoder.
    pub closed spec fn remaining(&self, ts: Seq<char>, items: Seq<char>) -> Seq<u8> {
        (match self.len {
            Some(b) => seq![b],
            None => Seq::<u8>::empty(),
        }) + (match self.run {
            Some(p) => run_bytes(p.0 as int, p.1 as int),
            None => Seq::<u8>::empty(),
        }) + runs_bytes(encoded_runs(ts, items.skip(self.rle.pos())))
    }

    /// The cursor stands inside the input, and a pending run has at
    /// least one repetition left and a seven-bit index.
    pub closed spec fn wf(&self, items: Seq<char>) -> bool {
        &&& 0 <= self.rle.pos() <= items.len()
        &&& (self.run matches Some(p) ==> p.1 >= 1 && p.0 < 128)
    }

    /// A fresh cursor, standing at the front of the input.
    pub(crate) fn new() -> (r: BytesEncoder)
        ensures
            forall|ts: Seq<char>, items: Seq<char>|
                r.wf(items) && #[trigger] r.remaining(ts, items) == runs_bytes(
                    encoded_runs(ts, items),
                ),
    {
        let r = BytesEncoder { rle: Encoder::new(), run: None, len: None };
        proof {
            assert forall|ts: Seq<char>, items: Seq<char>|
                r.wf(items) && #[trigger] r.remaining(ts, items) == runs_bytes(
                    encoded_runs(ts, items),
                ) by {
                assert(items.skip(0) =~= items);
                assert(r.remaining(ts, items) =~= runs_bytes(encoded_runs(ts, items)));
            }
        }
        r
    }

    /// Emits the next byte of the packed encoding, or `None` once the
    /// whole input has been emitted.
    pub fn next(&mut self, table: &Table, items: &[char]) -> (r: Option<u8>)
        requires
            table.wf(),
            table@.len() < 128,
            forall|i: int| 0 <= i < items@.len() ==> table@.contains(#[trigger] items@[i]),
            old(self).wf(items@),
        ensures
            final(self).wf(items@),
            ({
                let rem = old(self).remaining(table@, items@);
                &&& rem.len() > 0 ==> r == Some(rem[0]) && final(self).remaining(table@, items@)
                    == rem.drop_first()
                &&& rem.len() == 0 ==> r is None && final(self).remaining(table@, items@) == rem
            }),
    {
        let ghost ts = table@;
        let ghost s = items@;
        let ghost rem = self.remaining(ts, s);
        match self.len {
            Some(b) => {
                self.len = None;
                proof {
                    assert(rem[0] == b);
                    assert(self.remaining(ts, s) =~= rem.drop_first());
                }
                Some(b)
            },
            None => {
                let cur: Option<(u8, usize)> = match self.run {
                    Some(p) => {
                        self.run = None;
                        Some(p)
                    },
                    None => {
                        match self.rle.next(table, items) {
                            Some((ind, len)) => {
                                proof {
                                    let i = old(self).rle.pos();
                                    lemma_idx_of(ts, s[i]);
                                    lemma_encoded_runs_step(ts, s, i);
                                    lemma_runs_bytes_cons(
                                        (idx_of(ts, s[i]), head_run_len(s.skip(i))),
                                        encoded_runs(ts, s.skip(self.rle.pos())),
                                    );
                                }
                                Some((ind as u8, len))
                            },
                            None => None,
                        }
                    },
                };
                match cur {
                    None => {
                        proof {
                            assert(rem =~= Seq::<u8>::empty());
                            assert(self.remaining(ts, s) =~= rem);
                        }
                        None
                    },
                    Some((ind, len)) => {
                        let ghost tail = runs_bytes(encoded_runs(ts, s.skip(self.rle.pos())));
                        proof {
                            assert(rem =~= run_bytes(ind as int, len as int) + tail);
                        }
                        let num: usize = if len < 127 {
                            len
                        } else {
                            127
                        };
                        let ind_bits: u8 = if len > 1 {
                            self.len = Some(num as u8);
                            ind * 2 + 1
                        } else {
                            ind * 2
                        };
                        if len > num {
                            self.run = Some((ind, len - num));
                        }
                        proof {
                            if len <= 127 {
                                assert(self.remaining(ts, s) =~= rem.drop_first());
                            } else {
                                assert(run_bytes(ind as int, len as int) == seq![
                                    (ind as int * 2 + 1) as u8,
                                    127u8,
                                ] + run_bytes(ind as int, len as int - 127));
                                assert(self.remaining(ts, s) =~= rem.drop_first());
                            }
                            assert(rem[0] == ind_bits);
                        }
                        Some(ind_bits)
                    },
                }
            },
        }
    }
}

} // verus!

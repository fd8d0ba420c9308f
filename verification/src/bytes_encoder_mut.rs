use vstd::prelude::*;

use crate::encoder_mut::EncoderMut;
use crate::error::Error;
use crate::model::{
    head_run_len, lemma_mut_bytes_step, lemma_run_bytes_ok_chain, mut_bytes, run_bytes, step_index,
    table_step,
};
use crate::table::Table;

verus! {

/// A cursor that run-length encodes a sequence of characters into the
/// compressed byte format, and also adds characters to the table as it
/// encounters them. See [`Table::encode_bytes_mut`].
///
/// Each step yields a success-or-failure outcome, not a raw byte: a run
/// whose index has grown past seven bits yields a `TableTooLarge`
/// failure for that run, whose bytes are lost, and iteration continues
/// with the following runs. Callers who discard the failures are left
/// with a truncated, non-decodable byte stream.
pub struct BytesEncoderMut {
    pub(crate) rle: EncoderMut,
    pub(crate) run: Option<(u8, usize)>,
    pub(crate) len: Option<u8>,
}

impl BytesEncoderMut {
    /// The outcomes the cursor has still to yield: a pending length
    /// byte, the rest of a partly emitted run, then the outcomes of the
    /// runs not yet pulled from the underlying encoder, against the
    /// table as it stands now.
    pub closed spec fn remaining(&self, ts: Seq<char>, items: Seq<char>) -> Seq<
        Result<u8, Error>,
    > {
        (match self.len {
            Some(b) => seq![Ok::<u8, Error>(b)],
            None => Seq::<Result<u8, Error>>::empty(),
        }) + (match self.run {
            Some(p) => run_bytes(p.0 as int, p.1 as int).map_values(|b: u8| Ok::<u8, Error>(b)),
            None => Seq::<Result<u8, Error>>::empty(),
        }) + mut_bytes(ts, items.skip(self.rle.pos()))
    }

    /// The cursor stands inside the input, and a pending run has at
    /// least one repetition left and a seven-bit index.
    pub closed spec fn wf(&self, items: Seq<char>) -> bool {
        &&& 0 <= self.rle.pos() <= items.len()
        &&& (self.run matches Some(p) ==> p.1 >= 1 && p.0 < 128)
    }

    /// Whether the next step will pull a fresh run from the input, and
    /// so may grow the table.
    pub closed spec fn will_pull(&self, items: Seq<char>) -> bool {
        self.len is None && self.run is None && self.rle.pos() < items.len()
    }

    /// The position in the input at which the next fresh run starts.
    pub closed spec fn input_pos(&self) -> int {
        self.rle.pos()
    }

    /// A fresh cursor, standing at the front of the input.
    pub(crate) fn new() -> (r: BytesEncoderMut)
        ensures
            r.input_pos() == 0,
            forall|items: Seq<char>| #[trigger] r.will_pull(items) <==> items.len() > 0,
            forall|ts: Seq<char>, items: Seq<char>|
                r.wf(items) && #[trigger] r.remaining(ts, items) == mut_bytes(ts, items),
    {
        let r = BytesEncoderMut { rle: EncoderMut::new(), run: None, len: None };
        proof {
            assert forall|ts: Seq<char>, items: Seq<char>|
                r.wf(items) && #[trigger] r.remaining(ts, items) == mut_bytes(ts, items) by {
                assert(items.skip(0) =~= items);
                assert(r.remaining(ts, items) =~= mut_bytes(ts, items));
            }
        }
        r
    }

    /// Yields the next outcome of the packed encoding, or `None` once
    /// the whole input has been processed. The table grows exactly when
    /// a fresh run is pulled whose character it does not hold yet.
    #[verifier::rlimit(50)]
    pub fn next(&mut self, table: &mut Table, items: &[char]) -> (r: Option<Result<u8, Error>>)
        requires
            old(table).wf(),
            old(self).wf(items@),
        ensures
            final(table).wf(),
            final(self).wf(items@),
            0 <= final(self).input_pos() <= items@.len(),
            old(self).will_pull(items@) ==> {
                let i = old(self).input_pos();
                &&& 0 <= i < items@.len()
                &&& final(table)@ == table_step(old(table)@, items@[i])
                &&& final(self).input_pos() == i + head_run_len(items@.skip(i))
            },
            !old(self).will_pull(items@) ==> *final(table) == *old(table)
                && final(self).input_pos() == old(self).input_pos(),
            r is None ==> !old(self).will_pull(items@) && *final(self) == *old(self)
                && old(self).input_pos() == items@.len(),
            ({
                let rem = old(self).remaining(old(table)@, items@);
                &&& rem.len() > 0 ==> r == Some(rem[0]) && final(self).remaining(
                    final(table)@,
                    items@,
                ) == rem.drop_first()
                &&& rem.len() == 0 ==> r is None && final(self).remaining(final(table)@, items@)
                    == rem
            }),
    {
        let ghost s = items@;
        let ghost rem = self.remaining(table@, s);
        match self.len {
            Some(b) => {
                self.len = None;
                proof {
                    assert(rem[0] == Ok::<u8, Error>(b));
                    assert(self.remaining(table@, s) =~= rem.drop_first());
                }
                Some(Ok(b))
            },
            None => {
                let cur: Option<(u8, usize)> = match self.run {
                    Some(p) => {
                        self.run = None;
                        Some(p)
                    },
                    None => {
                        let ghost ts0 = table@;
                        let ghost i = self.rle.pos();
                        match self.rle.next(table, items) {
                            Some((ind, len)) => {
                                proof {
                                    crate::model::lemma_head_run_len(s.skip(i));
                                    lemma_mut_bytes_step(ts0, s, i);
                                }
                                if ind < 128 {
                                    Some((ind as u8, len))
                                } else {
                                    let size = table.len();
                                    proof {
                                        assert(self.remaining(table@, s) =~= rem.drop_first());
                                        assert(rem[0] == Err::<u8, Error>(
                                            Error::TableTooLarge(size),
                                        ));
                                    }
                                    return Some(Err(Error::TableTooLarge(size)));
                                }
                            },
                            None => None,
                        }
                    },
                };
                match cur {
                    None => {
                        proof {
                            assert(rem =~= Seq::<Result<u8, Error>>::empty());
                            assert(self.remaining(table@, s) =~= rem);
                        }
                        None
                    },
                    Some((ind, len)) => {
                        let ghost tail = mut_bytes(table@, s.skip(self.rle.pos()));
                        proof {
                            assert(rem =~= run_bytes(ind as int, len as int).map_values(
                                |b: u8| Ok::<u8, Error>(b),
                            ) + tail);
                        }
                        let num: usize = if len < 127 {
                            len
                        } else {
                            127
                        };
                        let ind_bits: u8 = if len > 1 {
                            self.len = Some(num as u8);
                            ind * 2 + 1
                        } else {
                            ind * 2
                        };
                        if len > num {
                            self.run = Some((ind, len - num));
                        }
                        proof {
                            if len <= 127 {
                                if len > 1 {
                                    assert(run_bytes(ind as int, len as int) == seq![
                                        (ind as int * 2 + 1) as u8,
                                        len as u8,
                                    ]);
                                    assert(run_bytes(ind as int, len as int).map_values(
                                        |b: u8| Ok::<u8, Error>(b),
                                    ) =~= seq![
                                        Ok::<u8, Error>((ind as int * 2 + 1) as u8),
                                        Ok::<u8, Error>(len as u8),
                                    ]);
                                } else {
                                    assert(run_bytes(ind as int, len as int) == seq![
                                        (ind as int * 2) as u8,
                                    ]);
                                    assert(run_bytes(ind as int, len as int).map_values(
                                        |b: u8| Ok::<u8, Error>(b),
                                    ) =~= seq![Ok::<u8, Error>((ind as int * 2) as u8)]);
                                }
                                assert(self.remaining(table@, s) =~= rem.drop_first());
                            } else {
                                lemma_run_bytes_ok_chain(ind as int, len as int);
                                assert(self.remaining(table@, s) =~= rem.drop_first());
                            }
                            assert(rem[0] == Ok::<u8, Error>(ind_bits));
                        }
                        Some(Ok(ind_bits))
                    },
                }
            },
        }
    }
}

} // verus!

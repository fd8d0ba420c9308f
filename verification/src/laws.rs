//! Laws of the codec: properties that relate the table, the encoders
//! and the decoders, stated over the model and proved once and for all.

use vstd::prelude::*;

use crate::error::Error;
use crate::model::{
    bytes_to_runs, chunk_runs, decode_runs, distinct, encoded_runs, head_run_len, idx_of,
    lemma_decode_runs_cons, lemma_head_run_len, lemma_idx_of, lemma_runs_bytes_cons,
    lemma_table_extended_prefix, lemma_table_extended_run, lemma_table_step_distinct,
    lemma_unique_index, mut_bytes, mut_runs, record_bytes, record_lens, records_concat, run_bytes,
    run_count, runs_bytes, seq_sum, step_index, table_extended, table_step,
};

verus! {

/// Inserting an element a second time changes nothing: the table stays
/// as one insertion left it, and both insertions resolve to the same
/// index.
pub proof fn lemma_insert_idempotent(ts: Seq<char>, x: char)
    requires
        distinct(ts),
    ensures
        table_step(table_step(ts, x), x) == table_step(ts, x),
        step_index(table_step(ts, x), x) == step_index(ts, x),
{
    let ts1 = table_step(ts, x);
    if !ts.contains(x) {
        assert(ts1 == ts.push(x));
        assert(ts1[ts.len() as int] == x);
        assert forall|i: int, j: int| 0 <= i < j < ts1.len() implies #[trigger] ts1[i]
            != #[trigger] ts1[j] by {
            if j == ts.len() as int {
                if ts1[i] == x {
                    assert(ts[i] == x);
                    assert(ts.contains(x));
                }
            }
        }
        lemma_unique_index(ts1, x, ts.len() as int);
    }
}

/// Round trip through runs: decoding the runs that encoding `s`
/// produces, against a duplicate-free table holding every element of
/// `s`, yields `s` again, exactly and in order.
pub proof fn lemma_round_trip_runs(ts: Seq<char>, s: Seq<char>)
    requires
        distinct(ts),
        forall|i: int| 0 <= i < s.len() ==> ts.contains(#[trigger] s[i]),
    ensures
        decode_runs(ts, encoded_runs(ts, s)) == s,
    decreases s.len(),
{
    if s.len() > 0 {
        lemma_head_run_len(s);
        let l = head_run_len(s);
        let x = s[0];
        lemma_idx_of(ts, x);
        let ind = idx_of(ts, x);
        let rest = encoded_runs(ts, s.skip(l));
        assert(encoded_runs(ts, s) == seq![(ind, l)] + rest);
        lemma_decode_runs_cons((ind, l), rest, ts);
        assert forall|i: int| 0 <= i < s.skip(l).len() implies ts.contains(
            #[trigger] s.skip(l)[i],
        ) by {
            assert(s.skip(l)[i] == s[l + i]);
        }
        lemma_round_trip_runs(ts, s.skip(l));
        assert(run_count(l) == l);
        assert(decode_runs(ts, encoded_runs(ts, s)) =~= s);
    }
}

/// Parsing the bytes of one logical run in front of any tail yields
/// the run's chain of records, then the parse of the tail.
proof fn lemma_parse_run_bytes(ind: int, len: int, tail: Seq<u8>)
    requires
        0 <= ind < 128,
        1 <= len,
    ensures
        bytes_to_runs(run_bytes(ind, len) + tail) == chunk_runs(ind, len) + bytes_to_runs(tail),
    decreases len,
{
    let bs = run_bytes(ind, len) + tail;
    if len == 1 {
        let b0 = (ind * 2) as u8;
        assert(bs[0] == b0);
        assert(b0 as int == ind * 2);
        assert(bs.drop_first() =~= tail);
        assert(bytes_to_runs(bs) =~= chunk_runs(ind, len) + bytes_to_runs(tail));
    } else if len <= 127 {
        let b0 = (ind * 2 + 1) as u8;
        assert(bs[0] == b0);
        assert(bs[1] == len as u8);
        assert(b0 as int == ind * 2 + 1);
        assert((len as u8) as int == len);
        assert(bs.skip(2) =~= tail);
        assert(bytes_to_runs(bs) =~= chunk_runs(ind, len) + bytes_to_runs(tail));
    } else {
        let b0 = (ind * 2 + 1) as u8;
        assert(run_bytes(ind, len) == seq![b0, 127u8] + run_bytes(ind, len - 127));
        assert(bs[0] == b0);
        assert(bs[1] == 127u8);
        assert(b0 as int == ind * 2 + 1);
        assert(bs.skip(2) =~= run_bytes(ind, len - 127) + tail);
        lemma_parse_run_bytes(ind, len - 127, tail);
        assert(bytes_to_runs(bs) =~= chunk_runs(ind, len) + bytes_to_runs(tail));
    }
}

/// Decoding the chain of records of one run in front of any remaining
/// runs yields the run's repetitions, then the rest.
proof fn lemma_decode_chunks(ts: Seq<char>, ind: int, len: int, rest: Seq<(int, int)>)
    requires
        0 <= ind < ts.len(),
        1 <= len,
    ensures
        decode_runs(ts, chunk_runs(ind, len) + rest) == Seq::new(len as nat, |_i: int| ts[ind])
            + decode_runs(ts, rest),
    decreases len,
{
    if len <= 127 {
        lemma_decode_runs_cons((ind, len), rest, ts);
        assert(chunk_runs(ind, len) + rest =~= seq![(ind, len)] + rest);
        assert(decode_runs(ts, chunk_runs(ind, len) + rest) =~= Seq::new(
            len as nat,
            |_i: int| ts[ind],
        ) + decode_runs(ts, rest));
    } else {
        lemma_decode_runs_cons((ind, 127int), chunk_runs(ind, len - 127) + rest, ts);
        assert(chunk_runs(ind, len) + rest =~= seq![(ind, 127int)] + (chunk_runs(ind, len - 127)
            + rest));
        lemma_decode_chunks(ts, ind, len - 127, rest);
        assert(decode_runs(ts, chunk_runs(ind, len) + rest) =~= Seq::new(
            len as nat,
            |_i: int| ts[ind],
        ) + decode_runs(ts, rest));
    }
}

/// Round trip through bytes: byte-decoding the byte-encoding of `s`,
/// against a duplicate-free table of fewer than 128 items holding
/// every element of `s`, yields `s` again, exactly and in order.
pub proof fn lemma_round_trip_bytes(ts: Seq<char>, s: Seq<char>)
    requires
        distinct(ts),
        ts.len() < 128,
        forall|i: int| 0 <= i < s.len() ==> ts.contains(#[trigger] s[i]),
    ensures
        decode_runs(ts, bytes_to_runs(runs_bytes(encoded_runs(ts, s)))) == s,
    decreases s.len(),
{
    if s.len() == 0 {
        assert(decode_runs(ts, bytes_to_runs(runs_bytes(encoded_runs(ts, s)))) =~= s);
    } else {
        lemma_head_run_len(s);
        let l = head_run_len(s);
        let x = s[0];
        lemma_idx_of(ts, x);
        let ind = idx_of(ts, x);
        let rest_runs = encoded_runs(ts, s.skip(l));
        assert(encoded_runs(ts, s) == seq![(ind, l)] + rest_runs);
        lemma_runs_bytes_cons((ind, l), rest_runs);
        lemma_parse_run_bytes(ind, l, runs_bytes(rest_runs));
        lemma_decode_chunks(ts, ind, l, bytes_to_runs(runs_bytes(rest_runs)));
        assert forall|i: int| 0 <= i < s.skip(l).len() implies ts.contains(
            #[trigger] s.skip(l)[i],
        ) by {
            assert(s.skip(l)[i] == s[l + i]);
        }
        lemma_round_trip_bytes(ts, s.skip(l));
        assert(decode_runs(ts, bytes_to_runs(runs_bytes(encoded_runs(ts, s)))) =~= s);
    }
}

/// Round trip for the table-growing byte path: when the table the
/// whole encode leaves behind still fits seven-bit indices, every
/// outcome is a success — the outcome stream is exactly the bytes of
/// the runs the growing encoder resolves — and decoding those bytes
/// against the grown table yields the input again.
pub proof fn lemma_round_trip_bytes_mut(ts0: Seq<char>, s: Seq<char>)
    requires
        distinct(ts0),
        table_extended(ts0, s).len() < 128,
    ensures
        mut_bytes(ts0, s) == runs_bytes(mut_runs(ts0, s)).map_values(|b: u8| Ok::<u8, Error>(b)),
        decode_runs(table_extended(ts0, s), bytes_to_runs(runs_bytes(mut_runs(ts0, s)))) == s,
    decreases s.len(),
{
    let tsf = table_extended(ts0, s);
    if s.len() == 0 {
        assert(mut_bytes(ts0, s) =~= runs_bytes(mut_runs(ts0, s)).map_values(
            |b: u8| Ok::<u8, Error>(b),
        ));
        assert(decode_runs(tsf, bytes_to_runs(runs_bytes(mut_runs(ts0, s)))) =~= s);
    } else {
        lemma_head_run_len(s);
        let x = s[0];
        let l = head_run_len(s);
        let ts1 = table_step(ts0, x);
        let ind = step_index(ts0, x);
        lemma_table_step_distinct(ts0, x);
        lemma_table_extended_run(ts0, s);
        lemma_table_extended_prefix(ts1, s.skip(l));
        if ts0.contains(x) {
            lemma_idx_of(ts0, x);
        } else {
            assert(ts1[ind] == x);
        }
        assert(0 <= ind < ts1.len());
        assert(ts1[ind] == x);
        assert(tsf[ind] == x);
        assert(ind < 128);
        let rest_runs = mut_runs(ts1, s.skip(l));
        assert(mut_runs(ts0, s) == seq![(ind, l)] + rest_runs);
        lemma_runs_bytes_cons((ind, l), rest_runs);
        lemma_round_trip_bytes_mut(ts1, s.skip(l));
        assert(mut_bytes(ts0, s) == run_bytes(ind, l).map_values(|b: u8| Ok::<u8, Error>(b))
            + mut_bytes(ts1, s.skip(l)));
        assert(mut_bytes(ts0, s) =~= runs_bytes(mut_runs(ts0, s)).map_values(
            |b: u8| Ok::<u8, Error>(b),
        ));
        lemma_parse_run_bytes(ind, l, runs_bytes(rest_runs));
        lemma_decode_chunks(tsf, ind, l, bytes_to_runs(runs_bytes(rest_runs)));
        assert(decode_runs(tsf, bytes_to_runs(runs_bytes(mut_runs(ts0, s)))) =~= s);
    }
}

/// A logical run splits into `ceil(len / 127)` records that share one
/// index: its bytes are exactly those records, and the records'
/// lengths, each between 1 and 127, sum to the run's length.
pub proof fn lemma_run_splitting(ind: int, len: int)
    requires
        1 <= len,
    ensures
        run_bytes(ind, len) == records_concat(ind, record_lens(len)),
        record_lens(len).len() == (len + 126) / 127,
        seq_sum(record_lens(len)) == len,
        forall|i: int|
            0 <= i < record_lens(len).len() ==> 1 <= #[trigger] record_lens(len)[i] <= 127,
    decreases len,
{
    if len <= 127 {
        let rl = record_lens(len);
        assert(rl == seq![len]);
        assert(rl[0] == len);
        assert(rl.drop_first() =~= Seq::<int>::empty());
        assert(records_concat(ind, Seq::<int>::empty()) == Seq::<u8>::empty());
        assert(seq_sum(Seq::<int>::empty()) == 0);
        assert(records_concat(ind, rl) =~= record_bytes(ind, len));
        assert(seq_sum(rl) == len);
        assert((len + 126) / 127 == 1);
    } else {
        lemma_run_splitting(ind, len - 127);
        let rl = record_lens(len);
        assert(rl == seq![127int] + record_lens(len - 127));
        assert(rl[0] == 127);
        assert(rl.drop_first() =~= record_lens(len - 127));
        assert(records_concat(ind, rl) =~= record_bytes(ind, 127) + records_concat(
            ind,
            record_lens(len - 127),
        ));
        assert(run_bytes(ind, len) =~= records_concat(ind, rl));
        assert(seq_sum(rl) == len);
        assert((len + 126) / 127 == 1 + (len - 1) / 127);
        assert(rl.len() == (len + 126) / 127);
        assert forall|i: int| 0 <= i < rl.len() implies 1 <= #[trigger] rl[i] <= 127 by {
            if i > 0 {
                assert(rl[i] == record_lens(len - 127)[i - 1]);
            }
        }
    }
}

} // verus!

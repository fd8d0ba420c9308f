//! The mathematical model of the encoder and decoder: runs of a character
//! sequence, their decoding against a table, and the packed byte format.

use vstd::prelude::*;

use crate::error::Error;

verus! {

/// The table's order on characters: the order of their scalar values.
pub open spec fn char_le(a: char, b: char) -> bool {
    (a as u32) <= (b as u32)
}

/// Strict version of [`char_le`].
pub open spec fn char_lt(a: char, b: char) -> bool {
    (a as u32) < (b as u32)
}

/// No two positions of `ts` hold equal characters.
pub open spec fn distinct(ts: Seq<char>) -> bool {
    forall|i: int, j: int| 0 <= i < j < ts.len() ==> #[trigger] ts[i] != #[trigger] ts[j]
}

/// In a duplicate-free sequence, `idx_of` resolves to the one position
/// that holds the value.
pub proof fn lemma_unique_index(ts: Seq<char>, x: char, w: int)
    requires
        0 <= w < ts.len(),
        ts[w] == x,
        distinct(ts),
    ensures
        ts.contains(x),
        idx_of(ts, x) == w,
{
    assert(ts.contains(x));
    let w2 = idx_of(ts, x);
    assert(0 <= w2 < ts.len() && ts[w2] == x);
}

/// The index of `x` in `ts`, meaningful only when `ts` contains `x`
/// and holds no duplicates.
pub open spec fn idx_of(ts: Seq<char>, x: char) -> int {
    choose|i: int| 0 <= i < ts.len() && ts[i] == x
}

/// The element list after one insertion: unchanged if `x` is already
/// present, else `x` appended.
pub open spec fn table_step(ts: Seq<char>, x: char) -> Seq<char> {
    if ts.contains(x) {
        ts
    } else {
        ts.push(x)
    }
}

/// The index one insertion of `x` resolves to: the existing index if `x`
/// is present, else the next fresh one.
pub open spec fn step_index(ts: Seq<char>, x: char) -> int {
    if ts.contains(x) {
        idx_of(ts, x)
    } else {
        ts.len() as int
    }
}

/// The element list after inserting every element of `s`, in order.
pub open spec fn table_extended(ts: Seq<char>, s: Seq<char>) -> Seq<char>
    decreases s.len(),
{
    if s.len() == 0 {
        ts
    } else {
        table_extended(table_step(ts, s[0]), s.drop_first())
    }
}

/// Extending by the elements of `s` from position `i` on is one
/// insertion of `s[i]` followed by extending from `i + 1` on.
pub proof fn lemma_table_extended_step(ts: Seq<char>, s: Seq<char>, i: int)
    requires
        0 <= i < s.len(),
    ensures
        table_extended(ts, s.skip(i)) == table_extended(table_step(ts, s[i]), s.skip(i + 1)),
{
    assert(s.skip(i).len() > 0);
    assert(s.skip(i)[0] == s[i]);
    assert(s.skip(i).drop_first() =~= s.skip(i + 1));
}

/// Extending never disturbs the items already present: the extended
/// list keeps `ts` as a prefix, so indices once issued stay valid.
pub proof fn lemma_table_extended_prefix(ts: Seq<char>, s: Seq<char>)
    ensures
        ts.len() <= table_extended(ts, s).len(),
        forall|i: int| 0 <= i < ts.len() ==> #[trigger] table_extended(ts, s)[i] == ts[i],
    decreases s.len(),
{
    if s.len() > 0 {
        lemma_table_extended_prefix(table_step(ts, s[0]), s.drop_first());
    }
}

/// One insertion keeps the item list duplicate-free.
pub proof fn lemma_table_step_distinct(ts: Seq<char>, x: char)
    requires
        distinct(ts),
    ensures
        distinct(table_step(ts, x)),
        table_step(ts, x).contains(x),
{
    let ts1 = table_step(ts, x);
    if ts.contains(x) {
    } else {
        assert(ts1[ts.len() as int] == x);
        assert forall|i: int, j: int| 0 <= i < j < ts1.len() implies #[trigger] ts1[i]
            != #[trigger] ts1[j] by {
            if j == ts.len() as int {
                if ts1[i] == x {
                    assert(ts[i] == x);
                    assert(ts.contains(x));
                }
            }
        }
    }
}

/// Inserting every element of a run one by one comes to the same as
/// inserting the run's character once and moving past the run: the
/// repeats are no-ops.
pub proof fn lemma_table_extended_run(ts: Seq<char>, s: Seq<char>)
    requires
        s.len() > 0,
    ensures
        table_extended(ts, s) == table_extended(table_step(ts, s[0]), s.skip(head_run_len(s))),
    decreases s.len(),
{
    let x = s[0];
    let l = head_run_len(s);
    let ts1 = table_step(ts, x);
    lemma_head_run_len(s);
    if s.len() >= 2 && s[1] == s[0] {
        let d = s.drop_first();
        assert(table_extended(ts, s) == table_extended(ts1, d));
        assert(head_run_len(d) == l - 1);
        assert(ts1.contains(x)) by {
            if !ts.contains(x) {
                assert(ts1[ts.len() as int] == x);
            }
        }
        assert(table_step(ts1, d[0]) == ts1);
        lemma_table_extended_run(ts1, d);
        assert(d.skip(l - 1) =~= s.skip(l));
    } else {
        assert(l == 1);
        assert(s.drop_first() =~= s.skip(1));
    }
}

/// The runs the table-growing encoder produces: each run's character
/// resolved against the table as grown so far.
pub open spec fn mut_runs(ts: Seq<char>, s: Seq<char>) -> Seq<(int, int)>
    decreases s.len(),
        via mut_runs_decreases
{
    if s.len() == 0 {
        Seq::empty()
    } else {
        seq![(step_index(ts, s[0]), head_run_len(s))] + mut_runs(
            table_step(ts, s[0]),
            s.skip(head_run_len(s)),
        )
    }
}

#[via_fn]
proof fn mut_runs_decreases(ts: Seq<char>, s: Seq<char>) {
    if s.len() > 0 {
        lemma_head_run_len(s);
    }
}

/// The position of the first element of `s` that `ts` does not contain;
/// `s.len()` when every element is present.
pub open spec fn first_absent(ts: Seq<char>, s: Seq<char>) -> int
    decreases s.len(),
{
    if s.len() == 0 {
        0
    } else if !ts.contains(s[0]) {
        0
    } else {
        1 + first_absent(ts, s.drop_first())
    }
}

/// The length of the maximal run of equal characters at the front of `s`.
pub open spec fn head_run_len(s: Seq<char>) -> int
    decreases s.len(),
{
    if s.len() == 0 {
        0
    } else if s.len() >= 2 && s[1] == s[0] {
        1 + head_run_len(s.drop_first())
    } else {
        1
    }
}

pub proof fn lemma_head_run_len(s: Seq<char>)
    requires
        s.len() > 0,
    ensures
        1 <= head_run_len(s) <= s.len(),
        forall|i: int| 0 <= i < head_run_len(s) ==> #[trigger] s[i] == s[0],
        head_run_len(s) < s.len() ==> s[head_run_len(s)] != s[0],
    decreases s.len(),
{
    if s.len() >= 2 && s[1] == s[0] {
        lemma_head_run_len(s.drop_first());
        assert forall|i: int| 0 <= i < head_run_len(s) implies #[trigger] s[i] == s[0] by {
            if i >= 1 {
                assert(s.drop_first()[i - 1] == s[i]);
            }
        }
        if head_run_len(s) < s.len() {
            assert(s.drop_first()[head_run_len(s) - 1] == s[head_run_len(s)]);
        }
    }
}

/// `first_absent` is the leftmost position whose element is missing.
pub proof fn lemma_first_absent_at(ts: Seq<char>, s: Seq<char>, i: int)
    requires
        0 <= i < s.len(),
        forall|j: int| 0 <= j < i ==> ts.contains(#[trigger] s[j]),
        !ts.contains(s[i]),
    ensures
        first_absent(ts, s) == i,
    decreases i,
{
    if i > 0 {
        lemma_first_absent_at(ts, s.drop_first(), i - 1);
        assert forall|j: int| 0 <= j < i - 1 implies ts.contains(#[trigger] s.drop_first()[j]) by {
            assert(s.drop_first()[j] == s[j + 1]);
        }
        assert(s.drop_first()[i - 1] == s[i]);
    }
}

/// A length with the three marks of the maximal front run is the maximal
/// front run's length.
pub proof fn lemma_head_run_len_is(s: Seq<char>, l: int)
    requires
        1 <= l <= s.len(),
        forall|k: int| 0 <= k < l ==> #[trigger] s[k] == s[0],
        l < s.len() ==> s[l] != s[0],
    ensures
        head_run_len(s) == l,
    decreases s.len(),
{
    if s.len() >= 2 && s[1] == s[0] {
        if l == 1 {
            assert(s[1] == s[0]);
            assert(false);
        } else {
            let d = s.drop_first();
            assert forall|k: int| 0 <= k < l - 1 implies #[trigger] d[k] == d[0] by {
                assert(d[k] == s[k + 1]);
                assert(d[0] == s[1]);
            }
            assert(l - 1 < d.len() ==> d[l - 1] != d[0]);
            lemma_head_run_len_is(d, l - 1);
        }
    } else {
        if l >= 2 {
            assert(s[1] == s[0]);
            assert(false);
        }
    }
}

/// The runs of `s`, greedy and leftmost-maximal, each run's character
/// resolved to its index in `ts`.
pub open spec fn encoded_runs(ts: Seq<char>, s: Seq<char>) -> Seq<(int, int)>
    decreases s.len(),
        via encoded_runs_decreases
{
    if s.len() == 0 {
        Seq::empty()
    } else {
        let l = head_run_len(s);
        seq![(idx_of(ts, s[0]), l)] + encoded_runs(ts, s.skip(l))
    }
}

#[via_fn]
proof fn encoded_runs_decreases(ts: Seq<char>, s: Seq<char>) {
    if s.len() > 0 {
        lemma_head_run_len(s);
    }
}

/// The number of elements one run of nominal length `len` decodes to:
/// a stored length below one still stands for a single element.
pub open spec fn run_count(len: int) -> int {
    if len < 1 {
        1
    } else {
        len
    }
}

/// The characters a run sequence decodes to under table `ts`: each run
/// repeats its character, and decoding stops silently at the first run
/// whose index the table cannot resolve.
pub open spec fn decode_runs(ts: Seq<char>, rs: Seq<(int, int)>) -> Seq<char>
    decreases rs.len(),
{
    if rs.len() == 0 {
        Seq::empty()
    } else {
        let (ind, len) = rs[0];
        if 0 <= ind < ts.len() {
            Seq::new(run_count(len) as nat, |_i: int| ts[ind]) + decode_runs(ts, rs.drop_first())
        } else {
            Seq::empty()
        }
    }
}

/// A contained character's index is a real position holding it.
pub proof fn lemma_idx_of(ts: Seq<char>, x: char)
    requires
        ts.contains(x),
    ensures
        0 <= idx_of(ts, x) < ts.len(),
        ts[idx_of(ts, x)] == x,
{
    let w = choose|i: int| 0 <= i < ts.len() && ts[i] == x;
    assert(0 <= w < ts.len() && ts[w] == x);
}

/// The run encoding of the tail that starts at `i` opens with the run
/// at `i` and continues past it.
pub proof fn lemma_encoded_runs_step(ts: Seq<char>, s: Seq<char>, i: int)
    requires
        0 <= i < s.len(),
    ensures
        encoded_runs(ts, s.skip(i)) == seq![(idx_of(ts, s[i]), head_run_len(s.skip(i)))]
            + encoded_runs(ts, s.skip(i + head_run_len(s.skip(i)))),
{
    lemma_head_run_len(s.skip(i));
    assert(s.skip(i)[0] == s[i]);
    let l = head_run_len(s.skip(i));
    assert(s.skip(i).skip(l) =~= s.skip(i + l));
}

/// Byte-encoding a run sequence encodes its first run, then the rest.
pub proof fn lemma_runs_bytes_cons(head: (int, int), rest: Seq<(int, int)>)
    ensures
        runs_bytes(seq![head] + rest) == run_bytes(head.0, head.1) + runs_bytes(rest),
{
    let rs = seq![head] + rest;
    assert(rs[0] == head);
    assert(rs.drop_first() =~= rest);
}

/// Runs as an executable cursor yields them, lifted to the model.
pub open spec fn as_int_runs(rs: Seq<(usize, usize)>) -> Seq<(int, int)> {
    rs.map_values(|p: (usize, usize)| (p.0 as int, p.1 as int))
}

/// Every run index resolves in a table of `n` items.
pub open spec fn valid_runs(n: int, rs: Seq<(int, int)>) -> bool {
    forall|i: int| 0 <= i < rs.len() ==> 0 <= (#[trigger] rs[i]).0 < n
}

/// How decoding one run relates to decoding the rest: the run's
/// character comes first, and the tail is the same run shortened by
/// one, or the remaining runs once it is spent.
pub proof fn lemma_decode_runs_step(ts: Seq<char>, rs: Seq<(int, int)>)
    requires
        rs.len() > 0,
        0 <= rs[0].0 < ts.len(),
    ensures
        decode_runs(ts, rs).len() >= 1,
        decode_runs(ts, rs)[0] == ts[rs[0].0],
        rs[0].1 > 1 ==> decode_runs(ts, rs.update(0, (rs[0].0, rs[0].1 - 1))) == decode_runs(
            ts,
            rs,
        ).drop_first(),
        rs[0].1 <= 1 ==> decode_runs(ts, rs.drop_first()) == decode_runs(ts, rs).drop_first(),
{
    let (ind, len) = rs[0];
    let head = Seq::new(run_count(len) as nat, |_i: int| ts[ind]);
    assert(decode_runs(ts, rs) == head + decode_runs(ts, rs.drop_first()));
    if len > 1 {
        let rs1 = rs.update(0, (ind, len - 1));
        assert(rs1[0] == (ind, len - 1));
        assert(rs1.drop_first() =~= rs.drop_first());
        let head1 = Seq::new(run_count(len - 1) as nat, |_i: int| ts[ind]);
        assert(decode_runs(ts, rs1) == head1 + decode_runs(ts, rs1.drop_first()));
        assert(decode_runs(ts, rs1) =~= decode_runs(ts, rs).drop_first());
    } else {
        assert(run_count(len) == 1);
        assert(decode_runs(ts, rs.drop_first()) =~= decode_runs(ts, rs).drop_first());
    }
}

/// One record of the byte format for a run of `n` repetitions,
/// `1 <= n <= 127`: the shifted index alone when `n` is one, else the
/// flagged index byte followed by the explicit length byte.
pub open spec fn record_bytes(ind: int, n: int) -> Seq<u8> {
    if n == 1 {
        seq![(ind * 2) as u8]
    } else {
        seq![(ind * 2 + 1) as u8, n as u8]
    }
}

/// The bytes of one logical run: chained records of up to 127 each.
pub open spec fn run_bytes(ind: int, len: int) -> Seq<u8>
    decreases len,
{
    if len <= 127 {
        record_bytes(ind, len)
    } else {
        record_bytes(ind, 127) + run_bytes(ind, len - 127)
    }
}

/// The byte encoding of a whole run sequence.
pub open spec fn runs_bytes(rs: Seq<(int, int)>) -> Seq<u8>
    decreases rs.len(),
{
    if rs.len() == 0 {
        Seq::empty()
    } else {
        run_bytes(rs[0].0, rs[0].1) + runs_bytes(rs.drop_first())
    }
}

/// The outcome stream of the table-growing byte encoder: per run, its
/// bytes when the run's index (resolved against the table as grown so
/// far) fits in seven bits, else a single `TableTooLarge` failure
/// carrying the table's size after the growth — the run's bytes are
/// dropped, and encoding continues with the next run.
pub open spec fn mut_bytes(ts: Seq<char>, s: Seq<char>) -> Seq<Result<u8, Error>>
    decreases s.len(),
        via mut_bytes_decreases
{
    if s.len() == 0 {
        Seq::empty()
    } else {
        let x = s[0];
        let l = head_run_len(s);
        let ts1 = table_step(ts, x);
        let ind = step_index(ts, x);
        let rest = mut_bytes(ts1, s.skip(l));
        if ind < 128 {
            run_bytes(ind, l).map_values(|b: u8| Ok::<u8, Error>(b)) + rest
        } else {
            seq![Err::<u8, Error>(Error::TableTooLarge(ts1.len() as usize))] + rest
        }
    }
}

#[via_fn]
proof fn mut_bytes_decreases(ts: Seq<char>, s: Seq<char>) {
    if s.len() > 0 {
        lemma_head_run_len(s);
    }
}

/// A chained run's successful outcomes: the first record's two bytes,
/// then the outcomes of the rest of the run.
pub proof fn lemma_run_bytes_ok_chain(ind: int, len: int)
    requires
        len > 127,
    ensures
        run_bytes(ind, len).map_values(|b: u8| Ok::<u8, Error>(b)) == seq![
            Ok::<u8, Error>((ind * 2 + 1) as u8),
            Ok::<u8, Error>(127u8),
        ] + run_bytes(ind, len - 127).map_values(|b: u8| Ok::<u8, Error>(b)),
{
    assert(run_bytes(ind, len) == seq![(ind * 2 + 1) as u8, 127u8] + run_bytes(ind, len - 127));
    assert(run_bytes(ind, len).map_values(|b: u8| Ok::<u8, Error>(b)) =~= seq![
        Ok::<u8, Error>((ind * 2 + 1) as u8),
        Ok::<u8, Error>(127u8),
    ] + run_bytes(ind, len - 127).map_values(|b: u8| Ok::<u8, Error>(b)));
}

/// The outcome stream of the tail that starts at `i` opens with the
/// outcome of the run at `i` and continues past it, against the table
/// that run leaves behind.
pub proof fn lemma_mut_bytes_step(ts: Seq<char>, s: Seq<char>, i: int)
    requires
        0 <= i < s.len(),
    ensures
        ({
            let x = s[i];
            let l = head_run_len(s.skip(i));
            let ts1 = table_step(ts, x);
            let ind = step_index(ts, x);
            mut_bytes(ts, s.skip(i)) == (if ind < 128 {
                run_bytes(ind, l).map_values(|b: u8| Ok::<u8, Error>(b))
            } else {
                seq![Err::<u8, Error>(Error::TableTooLarge(ts1.len() as usize))]
            }) + mut_bytes(ts1, s.skip(i + l))
        }),
{
    lemma_head_run_len(s.skip(i));
    assert(s.skip(i)[0] == s[i]);
    assert(s.skip(i).skip(head_run_len(s.skip(i))) =~= s.skip(i + head_run_len(s.skip(i))));
}

/// The runs a byte stream parses into: an even first byte is a run of
/// one, an odd first byte carries an explicit length in the next byte;
/// a trailing odd byte with no length byte ends the parse.
pub open spec fn bytes_to_runs(bytes: Seq<u8>) -> Seq<(int, int)>
    decreases bytes.len(),
{
    if bytes.len() == 0 {
        Seq::empty()
    } else if bytes[0] % 2 == 0 {
        seq![(bytes[0] as int / 2, 1)] + bytes_to_runs(bytes.drop_first())
    } else if bytes.len() == 1 {
        Seq::empty()
    } else {
        seq![(bytes[0] as int / 2, bytes[1] as int)] + bytes_to_runs(bytes.skip(2))
    }
}

/// Decoding one leading run then the rest: the run's character
/// repeated, then whatever the remaining runs decode to.
pub proof fn lemma_decode_runs_cons(head: (int, int), rest: Seq<(int, int)>, ts: Seq<char>)
    requires
        0 <= head.0 < ts.len(),
    ensures
        decode_runs(ts, seq![head] + rest) == Seq::new(
            run_count(head.1) as nat,
            |_i: int| ts[head.0],
        ) + decode_runs(ts, rest),
{
    let rs = seq![head] + rest;
    assert(rs[0] == head);
    assert(rs.drop_first() =~= rest);
    assert(decode_runs(ts, rs) =~= Seq::new(run_count(head.1) as nat, |_i: int| ts[head.0])
        + decode_runs(ts, rest));
}

/// The lengths of the records a run of `len` repetitions is chained
/// into: full records of 127, then what is left.
pub open spec fn record_lens(len: int) -> Seq<int>
    decreases len,
{
    if len <= 127 {
        seq![len]
    } else {
        seq![127int] + record_lens(len - 127)
    }
}

/// The sum of a sequence of integers.
pub open spec fn seq_sum(s: Seq<int>) -> int
    decreases s.len(),
{
    if s.len() == 0 {
        0
    } else {
        s[0] + seq_sum(s.drop_first())
    }
}

/// The bytes of a row of records that share one index and carry the
/// given lengths.
pub open spec fn records_concat(ind: int, lens: Seq<int>) -> Seq<u8>
    decreases lens.len(),
{
    if lens.len() == 0 {
        Seq::empty()
    } else {
        record_bytes(ind, lens[0]) + records_concat(ind, lens.drop_first())
    }
}

/// The runs a chained record row parses back into: one per record, all
/// sharing the index.
pub open spec fn chunk_runs(ind: int, len: int) -> Seq<(int, int)>
    decreases len,
{
    if len <= 127 {
        seq![(ind, len)]
    } else {
        seq![(ind, 127int)] + chunk_runs(ind, len - 127)
    }
}

} // verus!

use vstd::prelude::*;

use crate::bytes_decoder::BytesDecoder;
use crate::bytes_encoder::BytesEncoder;
use crate::bytes_encoder_mut::BytesEncoderMut;
use crate::decoder::Decoder;
use crate::encoder::Encoder;
use crate::encoder_mut::EncoderMut;
use crate::error::Error;
use crate::hex::{hex_digits, hex_of_runs, lemma_hex_of_runs_cons, push_hex};
use crate::model::{
    as_int_runs, bytes_to_runs, char_le, char_lt, distinct, encoded_runs, first_absent,
    head_run_len, idx_of, lemma_encoded_runs_step, lemma_first_absent_at, lemma_head_run_len,
    lemma_unique_index, mut_bytes, runs_bytes, step_index, table_extended, table_step,
};
use crate::Index;

verus! {

/// A table to store items to be encoded into run-length format.
///
/// `items` lists the distinct characters in the order they were added;
/// a character's position in that list is its permanent index. `sorted`
/// lists positions into `items` arranged by character order, and serves
/// as the search structure for lookups.
#[derive(Clone, Debug)]
pub struct Table {
    items: Vec<char>,
    sorted: Vec<usize>,
}

impl View for Table {
    type V = Seq<char>;

    /// The model of a table: its items in insertion order.
    closed spec fn view(&self) -> Seq<char> {
        self.items@
    }
}

impl Table {
    /// The character stored at position `i` of the sorted order.
    spec fn sorted_at(&self, i: int) -> char {
        self.items@[self.sorted@[i] as int]
    }

    /// The items read through the sorted order: ascending by character.
    pub closed spec fn sorted_view(&self) -> Seq<char> {
        Seq::new(self.sorted@.len(), |i: int| self.sorted_at(i))
    }

    /// The table's invariant: `sorted` is a permutation of the positions
    /// of `items`, ascending by character order, and `items` holds no
    /// duplicates.
    pub closed spec fn wf(&self) -> bool {
        &&& self.sorted@.len() == self.items@.len()
        &&& forall|i: int|
            0 <= i < self.sorted@.len() ==> (#[trigger] self.sorted@[i]) < self.items@.len()
        &&& forall|i: int, j: int|
            0 <= i < j < self.sorted@.len() ==> char_lt(
                #[trigger] self.sorted_at(i),
                #[trigger] self.sorted_at(j),
            )
        &&& forall|i: int, j: int|
            0 <= i < j < self.items@.len() ==> #[trigger] self.items@[i]
                != #[trigger] self.items@[j]
        &&& forall|k: int|
            0 <= k < self.items@.len() ==> #[trigger] self.sorted@.contains(k as usize)
    }

    /// Constructs a new, empty table with the specified capacity.
    pub fn with_capacity(capacity: usize) -> (r: Table)
        ensures
            r@ == Seq::<char>::empty(),
            r.wf(),
    {
        Table { items: Vec::with_capacity(capacity), sorted: Vec::with_capacity(capacity) }
    }

    /// The number of unique elements in the table.
    pub fn len(&self) -> (r: usize)
        ensures
            r == self@.len(),
    {
        self.items.len()
    }

    /// Returns the item at the given position in insertion order, or
    /// `None` if the position is out of bounds.
    pub fn get(&self, index: usize) -> (r: Option<char>)
        ensures
            index < self@.len() ==> r == Some(self@[index as int]),
            index >= self@.len() ==> r is None,
    {
        if index < self.items.len() {
            Some(self.items[index])
        } else {
            None
        }
    }

    /// Returns the subslice of items at the given positions, in
    /// insertion order, or `None` if the range is out of bounds — the
    /// range form of positional access.
    pub fn get_range(&self, start: usize, end: usize) -> (r: Option<&[char]>)
        ensures
            start <= end && end <= self@.len() ==> (r matches Some(s) && s@ == self@.subrange(
                start as int,
                end as int,
            )),
            !(start <= end && end <= self@.len()) ==> r is None,
    {
        if start <= end && end <= self.items.len() {
            Some(&self.items.as_slice()[start..end])
        } else {
            None
        }
    }

    /// Clears the table, removing all items.
    ///
    /// Note that this method has no effect on the allocated capacity
    /// of the table.
    pub fn clear(&mut self)
        ensures
            final(self)@ == Seq::<char>::empty(),
            final(self).wf(),
    {
        self.items.clear();
        self.sorted.clear();
    }

    /// Binary search over the sorted order. `Ok(p)` is a position in
    /// `sorted` whose character equals `item`; `Err(p)` is the insertion
    /// point that keeps the sorted order, and says the item is absent.
    fn search(&self, item: char) -> (r: Result<usize, usize>)
        requires
            self.wf(),
        ensures
            r matches Ok(p) ==> p < self.sorted@.len() && self.sorted_at(p as int) == item,
            r matches Err(p) ==> {
                &&& p <= self.sorted@.len()
                &&& !self@.contains(item)
                &&& forall|i: int| 0 <= i < p ==> char_lt(#[trigger] self.sorted_at(i), item)
                &&& forall|i: int|
                    p <= i < self.sorted@.len() ==> char_lt(item, #[trigger] self.sorted_at(i))
            },
    {
        let mut lo: usize = 0;
        let mut hi: usize = self.sorted.len();
        while lo < hi
            invariant
                self.wf(),
                lo <= hi <= self.sorted@.len(),
                forall|i: int| 0 <= i < lo ==> char_lt(#[trigger] self.sorted_at(i), item),
                forall|i: int|
                    hi <= i < self.sorted@.len() ==> char_lt(item, #[trigger] self.sorted_at(i)),
            decreases hi - lo,
        {
            let mid = lo + (hi - lo) / 2;
            let c = self.items[self.sorted[mid]];
            proof {
                assert(c == self.sorted_at(mid as int));
            }
            if (c as u32) < (item as u32) {
                proof {
                    assert forall|i: int| 0 <= i < mid + 1 implies char_lt(
                        #[trigger] self.sorted_at(i),
                        item,
                    ) by {
                        if i < mid {
                            assert(char_lt(self.sorted_at(i), self.sorted_at(mid as int)));
                        }
                    }
                }
                lo = mid + 1;
            } else if (item as u32) < (c as u32) {
                proof {
                    assert forall|i: int| mid <= i < self.sorted@.len() implies char_lt(
                        item,
                        #[trigger] self.sorted_at(i),
                    ) by {
                        if i > mid {
                            assert(char_lt(self.sorted_at(mid as int), self.sorted_at(i)));
                        }
                    }
                }
                hi = mid;
            } else {
                proof {
                    vstd::utf8::char_u32_cast(c, c as u32);
                    vstd::utf8::char_u32_cast(item, item as u32);
                }
                return Ok(mid);
            }
        }
        proof {
            assert forall|j: int| 0 <= j < self.items@.len() implies self.items@[j] != item by {
                if self.items@[j] == item {
                    assert(self.sorted@.contains(j as usize));
                    let i = choose|i: int|
                        0 <= i < self.sorted@.len() && self.sorted@[i] == j as usize;
                    assert(self.sorted_at(i) == item);
                }
            }
        }
        Err(lo)
    }

    /// Looks the item up, inserting it first if it is not yet present.
    /// Returns the item's index, which is stable from then on.
    pub fn insert_or_get(&mut self, item: char) -> (r: usize)
        requires
            old(self).wf(),
        ensures
            final(self).wf(),
            final(self)@ == table_step(old(self)@, item),
            r as int == step_index(old(self)@, item),
            r < final(self)@.len(),
            final(self)@[r as int] == item,
    {
        match self.search(item) {
            Ok(p) => {
                let r = self.sorted[p];
                proof {
                    assert(self@[r as int] == item);
                    assert(distinct(self@));
                    lemma_unique_index(self@, item, r as int);
                }
                r
            },
            Err(p) => {
                let ind = self.items.len();
                self.items.push(item);
                self.sorted.insert(p, ind);
                proof {
                    let old_t = old(self);
                    old_t.sorted@.insert_ensures(p as int, ind);
                    assert forall|i: int, j: int|
                        0 <= i < j < self.sorted@.len() implies char_lt(
                        #[trigger] self.sorted_at(i),
                        #[trigger] self.sorted_at(j),
                    ) by {
                        lemma_insert_position(old_t, self, p as int, ind, item, i);
                        lemma_insert_position(old_t, self, p as int, ind, item, j);
                    }
                    assert forall|k: int|
                        0 <= k < self.items@.len() implies #[trigger] self.sorted@.contains(
                        k as usize,
                    ) by {
                        if k == ind as int {
                            assert(self.sorted@[p as int] == k as usize);
                        } else {
                            assert(old_t.sorted@.contains(k as usize));
                            let i = choose|i: int|
                                0 <= i < old_t.sorted@.len() && old_t.sorted@[i] == k as usize;
                            if i < p as int {
                                assert(self.sorted@[i] == k as usize);
                            } else {
                                assert(self.sorted@[i + 1] == k as usize);
                            }
                        }
                    }
                    assert(self@ =~= old_t@.push(item));
                }
                ind
            },
        }
    }

    /// Inserts the item into the table. Tables only contain unique
    /// values, so if the item is already in the table, it will not
    /// add a duplicate.
    pub fn insert(&mut self, item: char)
        requires
            old(self).wf(),
        ensures
            final(self).wf(),
            final(self)@ == table_step(old(self)@, item),
    {
        self.insert_or_get(item);
    }

    /// Extend the table with the contents of a vector of items,
    /// consuming it as an iterator would.
    pub fn extend(&mut self, items: Vec<char>)
        requires
            old(self).wf(),
        ensures
            final(self).wf(),
            final(self)@ == table_extended(old(self)@, items@),
    {
        proof {
            assert(items@.skip(0) =~= items@);
        }
        let mut i: usize = 0;
        while i < items.len()
            invariant
                self.wf(),
                i <= items@.len(),
                table_extended(old(self)@, items@) == table_extended(self@, items@.skip(i as int)),
            decreases items@.len() - i,
        {
            proof {
                crate::model::lemma_table_extended_step(self@, items@, i as int);
            }
            self.insert_or_get(items[i]);
            i = i + 1;
        }
        proof {
            assert(items@.skip(items@.len() as int) =~= Seq::<char>::empty());
        }
    }

    /// Extend the table with the contents of a slice.
    pub fn extend_from_slice(&mut self, items: &[char])
        requires
            old(self).wf(),
        ensures
            final(self).wf(),
            final(self)@ == table_extended(old(self)@, items@),
    {
        proof {
            assert(items@.skip(0) =~= items@);
        }
        let mut i: usize = 0;
        while i < items.len()
            invariant
                self.wf(),
                i <= items@.len(),
                table_extended(old(self)@, items@) == table_extended(self@, items@.skip(i as int)),
            decreases items@.len() - i,
        {
            proof {
                crate::model::lemma_table_extended_step(self@, items@, i as int);
            }
            self.insert_or_get(items[i]);
            i = i + 1;
        }
        proof {
            assert(items@.skip(items@.len() as int) =~= Seq::<char>::empty());
        }
    }

    /// Constructs a new table with items collected from a vector,
    /// consumed in order.
    pub fn from_iter(items: Vec<char>) -> (r: Table)
        ensures
            r.wf(),
            r@ == table_extended(Seq::<char>::empty(), items@),
    {
        let mut table = Table::default();
        table.extend(items);
        table
    }

    /// Constructs a new table with items from a slice.
    pub fn from_slice(slice: &[char]) -> (r: Table)
        ensures
            r.wf(),
            r@ == table_extended(Seq::<char>::empty(), slice@),
    {
        let mut table = Table::default();
        table.extend_from_slice(slice);
        table
    }

    /// Returns a cursor to run-length encode the items.
    ///
    /// Unlike [`Table::encode`], this cannot fail, because it adds
    /// items to the table as they are found: encoding leaves behind a
    /// table that contains one of every item encountered in the slice.
    pub fn encode_mut(&self, _items: &[char]) -> (r: EncoderMut)
        ensures
            r.pos() == 0,
    {
        EncoderMut::new()
    }

    /// Returns a cursor to run-length encode the items, using this
    /// table as a lookup.
    ///
    /// # Errors
    ///
    /// If `items` contains any element not found in the table, this
    /// method returns [`Error::TableMissingItems`] carrying the
    /// position of the first such element.
    pub fn encode(&self, items: &[char]) -> (r: Result<Encoder, Error>)
        requires
            self.wf(),
        ensures
            r is Ok <==> forall|i: int|
                0 <= i < items@.len() ==> self@.contains(#[trigger] items@[i]),
            r matches Ok(e) ==> e.pos() == 0,
            r matches Err(e) ==> e matches Error::TableMissingItems(k) && k as int == first_absent(
                self@,
                items@,
            ) && k < items@.len() && !self@.contains(items@[k as int]),
    {
        let mut i: usize = 0;
        while i < items.len()
            invariant
                self.wf(),
                i <= items@.len(),
                forall|j: int| 0 <= j < i ==> self@.contains(#[trigger] items@[j]),
            decreases items@.len() - i,
        {
            if self.get_index(items[i]).is_none() {
                proof {
                    lemma_first_absent_at(self@, items@, i as int);
                }
                return Err(Error::TableMissingItems(i));
            }
            i = i + 1;
        }
        Ok(Encoder::new())
    }

    /// The items of the table in insertion order.
    pub fn as_ref(&self) -> (r: &Vec<char>)
        ensures
            r@ == self@,
    {
        &self.items
    }

    /// Returns a cursor to run-length encode the items as a sequence
    /// of bytes.
    ///
    /// # Format
    ///
    /// Each record is one or two bytes. Bit 0 of byte 0 says whether a
    /// length byte follows; bits 1–7 of byte 0 hold the item's table
    /// index. With the flag set, byte 1 holds the run's length, from 1
    /// to 127; with the flag clear the run has length 1 and there is no
    /// byte 1. A run longer than 127 becomes several records sharing
    /// one index.
    ///
    /// # Errors
    ///
    /// Because an index is stored in 7 bits, this format only works for
    /// tables of up to 127 items: on a larger table this method returns
    /// [`Error::TableTooLarge`] carrying the table's size. A missing
    /// item is reported as by [`Table::encode`].
    pub fn encode_bytes(&self, items: &[char]) -> (r: Result<BytesEncoder, Error>)
        requires
            self.wf(),
        ensures
            self@.len() >= 128 ==> (r matches Err(e) && e matches Error::TableTooLarge(n) && n
                == self@.len()),
            self@.len() < 128 ==> {
                &&& r is Ok <==> forall|i: int|
                    0 <= i < items@.len() ==> self@.contains(#[trigger] items@[i])
                &&& r matches Ok(be) ==> be.wf(items@) && be.remaining(self@, items@)
                    == runs_bytes(encoded_runs(self@, items@))
                &&& r matches Err(e) ==> e matches Error::TableMissingItems(k) && k as int
                    == first_absent(self@, items@)
            },
    {
        if self.items.len() < 128 {
            match self.encode(items) {
                Ok(_) => {
                    let be = BytesEncoder::new();
                    proof {
                        assert(be.remaining(self@, items@) == runs_bytes(
                            encoded_runs(self@, items@),
                        ));
                    }
                    Ok(be)
                },
                Err(e) => Err(e),
            }
        } else {
            Err(Error::TableTooLarge(self.items.len()))
        }
    }

    /// Returns a cursor to run-length encode the items as a sequence
    /// of bytes, adding items to the table as they are found.
    ///
    /// Unlike [`Table::encode_bytes`], a missing item cannot fail; but
    /// because the table can grow past 127 items mid-stream, each step
    /// of the cursor yields a success-or-failure outcome that the
    /// caller must inspect.
    ///
    /// # Errors
    ///
    /// On a table already holding 128 or more items this method returns
    /// [`Error::TableTooLarge`] carrying the table's size.
    pub fn encode_bytes_mut(&self, items: &[char]) -> (r: Result<BytesEncoderMut, Error>)
        ensures
            self@.len() < 128 ==> (r matches Ok(be) && be.wf(items@) && be.input_pos() == 0
                && (be.will_pull(items@) <==> items@.len() > 0) && be.remaining(self@, items@)
                == mut_bytes(self@, items@)),
            self@.len() >= 128 ==> (r matches Err(e) && e matches Error::TableTooLarge(n) && n
                == self@.len()),
    {
        if self.items.len() < 128 {
            let be = BytesEncoderMut::new();
            proof {
                assert(be.remaining(self@, items@) == mut_bytes(self@, items@));
            }
            Ok(be)
        } else {
            Err(Error::TableTooLarge(self.items.len()))
        }
    }

    /// Run-length encodes the items into the diagnostic text format:
    /// one `INDEX:LENGTH,` token per run, both numbers in uppercase
    /// hexadecimal. One-way; meant for debugging and logging.
    ///
    /// # Errors
    ///
    /// A missing item is reported as by [`Table::encode`].
    pub fn encode_hex_str(&self, items: &[char]) -> (r: Result<String, Error>)
        requires
            self.wf(),
        ensures
            r is Ok <==> forall|i: int|
                0 <= i < items@.len() ==> self@.contains(#[trigger] items@[i]),
            r matches Ok(s) ==> s@ == hex_of_runs(encoded_runs(self@, items@)),
            r matches Err(e) ==> e matches Error::TableMissingItems(k) && k as int == first_absent(
                self@,
                items@,
            ),
    {
        let mut enc = match self.encode(items) {
            Ok(e) => e,
            Err(e) => { return Err(e) },
        };
        let mut out: Vec<char> = Vec::new();
        proof {
            assert(items@.skip(0) =~= items@);
        }
        let mut done = false;
        while !done
            invariant
                self.wf(),
                forall|i: int| 0 <= i < items@.len() ==> self@.contains(#[trigger] items@[i]),
                0 <= enc.pos() <= items@.len(),
                done ==> enc.pos() == items@.len(),
                hex_of_runs(encoded_runs(self@, items@)) == out@ + hex_of_runs(
                    encoded_runs(self@, items@.skip(enc.pos())),
                ),
            decreases items@.len() - enc.pos() + (if done { 0int } else { 1int }),
        {
            let ghost i = enc.pos();
            match enc.next(self, items) {
                Some((ind, len)) => {
                    proof {
                        lemma_head_run_len(items@.skip(i));
                        lemma_encoded_runs_step(self@, items@, i);
                        lemma_hex_of_runs_cons(
                            (idx_of(self@, items@[i]), head_run_len(items@.skip(i))),
                            encoded_runs(self@, items@.skip(enc.pos())),
                        );
                    }
                    let ghost out0 = out@;
                    push_hex(&mut out, ind);
                    out.push(':');
                    push_hex(&mut out, len);
                    out.push(',');
                    proof {
                        assert(out@ =~= out0 + hex_digits(ind as int) + seq![':'] + hex_digits(
                            len as int,
                        ) + seq![',']);
                        assert(hex_of_runs(encoded_runs(self@, items@)) =~= out@ + hex_of_runs(
                            encoded_runs(self@, items@.skip(enc.pos())),
                        ));
                    }
                },
                None => {
                    done = true;
                },
            }
        }
        proof {
            assert(items@.skip(items@.len() as int) =~= Seq::<char>::empty());
        }
        Ok(chars_to_string(&out))
    }

    /// Returns a cursor that decodes the series of runs using this
    /// table as the index lookup for the elements.
    pub fn decode(&self, runs: &[(Index, usize)]) -> (r: Decoder)
        ensures
            r.wf(runs@),
            r.runs_view(runs@) == as_int_runs(runs@),
    {
        Decoder::new()
    }

    /// Returns a cursor that decodes the run-length encoded bytes using
    /// this table as the index lookup for the elements.
    pub fn decode_bytes(&self, bytes: &[u8]) -> (r: BytesDecoder)
        ensures
            r.wf(bytes@),
            r.runs_view(bytes@) == bytes_to_runs(bytes@),
    {
        BytesDecoder::new()
    }

    /// A well-formed table holds no duplicate items.
    pub proof fn lemma_view_distinct(&self)
        requires
            self.wf(),
        ensures
            distinct(self@),
    {
    }

    /// After any sequence of insertions, reading the table through the
    /// sorted order yields a non-decreasing sequence of characters, and
    /// that sequence holds exactly the table's items.
    pub proof fn lemma_sorted_order(&self)
        requires
            self.wf(),
        ensures
            self.sorted_view().len() == self@.len(),
            forall|i: int, j: int|
                0 <= i <= j < self.sorted_view().len() ==> char_le(
                    #[trigger] self.sorted_view()[i],
                    #[trigger] self.sorted_view()[j],
                ),
            forall|x: char| self.sorted_view().contains(x) <==> self@.contains(x),
    {
        assert forall|i: int, j: int| 0 <= i <= j < self.sorted_view().len() implies char_le(
            #[trigger] self.sorted_view()[i],
            #[trigger] self.sorted_view()[j],
        ) by {
            if i < j {
                assert(char_lt(self.sorted_at(i), self.sorted_at(j)));
            }
        }
        assert forall|x: char| self.sorted_view().contains(x) <==> self@.contains(x) by {
            if self.sorted_view().contains(x) {
                let i = choose|i: int|
                    0 <= i < self.sorted_view().len() && self.sorted_view()[i] == x;
                assert(self@[self.sorted@[i] as int] == x);
            }
            if self@.contains(x) {
                let k = choose|k: int| 0 <= k < self@.len() && self@[k] == x;
                assert(self.items.len() == self@.len());
                assert(self.sorted@.contains(k as usize));
                let i = choose|i: int| 0 <= i < self.sorted@.len() && self.sorted@[i] == k as usize;
                assert(self.sorted@[i] == k as usize);
                assert(self.sorted_at(i) == self@[k]);
                assert(self.sorted_view()[i] == x);
                assert(self.sorted_view().contains(x));
            }
        }
    }

    /// A cursor over the items in insertion order.
    pub fn iter(&self) -> (r: TableIter)
        ensures
            r.pos() == 0,
    {
        TableIter { index: 0 }
    }

    /// A cursor over the items in ascending character order.
    pub fn iter_sorted(&self) -> (r: SortedTableIter)
        ensures
            r.pos() == 0,
    {
        SortedTableIter { index: 0 }
    }

    /// Looks up the index assigned to the item, without mutating the
    /// table. `None` says the item is not in the table.
    pub fn get_index(&self, item: char) -> (r: Option<usize>)
        requires
            self.wf(),
        ensures
            r is Some <==> self@.contains(item),
            r matches Some(p) ==> {
                &&& p as int == idx_of(self@, item)
                &&& p < self@.len()
                &&& self@[p as int] == item
            },
    {
        match self.search(item) {
            Ok(p) => {
                let r = self.sorted[p];
                proof {
                    assert(self@[r as int] == item);
                    assert(distinct(self@));
                    lemma_unique_index(self@, item, r as int);
                }
                Some(r)
            },
            Err(_) => None,
        }
    }
}

/// A cursor over a table's items in insertion order.
/// See [`Table::iter`].
pub struct TableIter {
    pub(crate) index: usize,
}

impl TableIter {
    /// How many items have been yielded so far.
    pub closed spec fn pos(&self) -> int {
        self.index as int
    }

    /// The next item in insertion order, or `None` past the end.
    pub fn next(&mut self, table: &Table) -> (r: Option<char>)
        ensures
            old(self).pos() < table@.len() ==> r == Some(table@[old(self).pos()])
                && final(self).pos() == old(self).pos() + 1,
            old(self).pos() >= table@.len() ==> r is None && *final(self) == *old(self),
    {
        if self.index < table.items.len() {
            let c = table.items[self.index];
            self.index = self.index + 1;
            Some(c)
        } else {
            None
        }
    }
}

/// A cursor over a table's items in ascending character order.
/// See [`Table::iter_sorted`].
pub struct SortedTableIter {
    pub(crate) index: usize,
}

impl SortedTableIter {
    /// How many items have been yielded so far.
    pub closed spec fn pos(&self) -> int {
        self.index as int
    }

    /// The next item in ascending order, or `None` past the end.
    pub fn next(&mut self, table: &Table) -> (r: Option<char>)
        requires
            table.wf(),
        ensures
            old(self).pos() < table@.len() ==> r == Some(table.sorted_view()[old(self).pos()])
                && final(self).pos() == old(self).pos() + 1,
            old(self).pos() >= table@.len() ==> r is None && *final(self) == *old(self),
    {
        if self.index < table.sorted.len() {
            let j = table.sorted[self.index];
            let c = table.items[j];
            proof {
                assert(c == table.sorted_at(self.index as int));
            }
            self.index = self.index + 1;
            Some(c)
        } else {
            None
        }
    }
}

/// Relies on `FromIterator for String`: collecting borrowed characters
/// yields exactly those characters, in order.
#[verifier::external_body]
fn chars_to_string(v: &Vec<char>) -> (r: String)
    ensures
        r@ == v@,
{
    v.iter().collect()
}

impl Default for Table {
    /// An empty table.
    fn default() -> (r: Table)
        ensures
            r@ == Seq::<char>::empty(),
            r.wf(),
    {
        Table { items: Vec::new(), sorted: Vec::new() }
    }
}

/// Relates a position of the new sorted order to the old one after a
/// single insertion of `item` (with fresh index `ind`) at position `p`.
proof fn lemma_insert_position(t0: &Table, t1: &Table, p: int, ind: usize, item: char, i: int)
    requires
        t0.wf(),
        !t0@.contains(item),
        0 <= p <= t0.sorted@.len(),
        ind as int == t0.items@.len(),
        t1.items@ == t0.items@.push(item),
        t1.sorted@ == t0.sorted@.insert(p, ind),
        0 <= i < t1.sorted@.len(),
        forall|k: int| 0 <= k < p ==> char_lt(#[trigger] t0.sorted_at(k), item),
        forall|k: int| p <= k < t0.sorted@.len() ==> char_lt(item, #[trigger] t0.sorted_at(k)),
    ensures
        i < p ==> t1.sorted_at(i) == t0.sorted_at(i) && char_lt(t1.sorted_at(i), item),
        i == p ==> t1.sorted_at(i) == item,
        i > p ==> t1.sorted_at(i) == t0.sorted_at(i - 1) && char_lt(item, t1.sorted_at(i)),
{
    t0.sorted@.insert_ensures(p, ind);
    if i < p {
        assert(t1.sorted@[i] == t0.sorted@[i]);
        assert(t0.sorted@[i] < t0.items@.len());
        assert(t1.sorted_at(i) == t0.sorted_at(i));
    } else if i == p {
        assert(t1.sorted@[i] == ind);
        assert(t1.sorted_at(i) == t1.items@[ind as int]);
        assert(t1.sorted_at(i) == item);
    } else {
        assert(t1.sorted@[i] == t0.sorted@[i - 1]);
        assert(t0.sorted@[i - 1] < t0.items@.len());
        assert(t1.sorted_at(i) == t0.sorted_at(i - 1));
    }
}

} // verus!

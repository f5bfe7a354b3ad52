//! Zero-copy splitting of a record into fields, and header lookup.

use bytes::Bytes;
use vstd::prelude::*;

use crate::ascii::{eq_ignore_ascii_case, eq_ignore_case};
use crate::buffer::{bytes_as_slice, bytes_contents, bytes_empty, bytes_slice};
use crate::search::{contains, first_match, is_first_match, lemma_first_match, memchr2, occurs_at, SubstringFinder};

verus! {

/// Maximum number of parts supported.
pub const MAX_PARTS: usize = 32;

/// Spans `(start, end)` of the parts found by scanning `data` from `cursor`,
/// `count` parts having been found before it. Each part ends at the first
/// occurrence of the delimiter `d`; the scan then resumes `step` bytes after
/// that occurrence. The last possible part, and the part after the last
/// delimiter, run to the end of the data.
pub open spec fn scan_spans(data: Seq<u8>, d: Seq<u8>, step: nat, cursor: nat, count: nat) -> Seq<
    (nat, nat),
>
    decreases MAX_PARTS - count,
{
    if cursor > data.len() {
        seq![]
    } else if count + 1 >= MAX_PARTS {
        seq![(cursor, data.len())]
    } else {
        match first_match(data.subrange(cursor as int, data.len() as int), d) {
            Some(p) => seq![(cursor, (cursor + p) as nat)] + scan_spans(
                data,
                d,
                step,
                (cursor + p + step) as nat,
                count + 1,
            ),
            None => seq![(cursor, data.len())],
        }
    }
}

/// Spans of the parts of `data` split on the delimiter `d`, resuming `step`
/// bytes after each delimiter occurrence.
pub open spec fn part_spans(data: Seq<u8>, d: Seq<u8>, step: nat) -> Seq<(nat, nat)> {
    scan_spans(data, d, step, 0, 0)
}

/// The scan of `data` from `cursor`, `count` parts having been found, stays
/// in bounds: every search that the scan makes (one per part before the
/// last slot) starts at or before the end of the data, and every resumed
/// position fits in a `usize`.
pub open spec fn scan_in_bounds(data: Seq<u8>, d: Seq<u8>, step: nat, cursor: nat, count: nat) -> bool
    decreases MAX_PARTS - count,
{
    if count + 1 >= MAX_PARTS {
        true
    } else if cursor > data.len() {
        false
    } else {
        match first_match(data.subrange(cursor as int, data.len() as int), d) {
            Some(p) => cursor + p + step <= usize::MAX && scan_in_bounds(
                data,
                d,
                step,
                (cursor + p + step) as nat,
                count + 1,
            ),
            None => true,
        }
    }
}

/// Resuming no further than the end of each delimiter occurrence keeps the
/// scan in bounds.
pub proof fn lemma_scan_in_bounds(data: Seq<u8>, d: Seq<u8>, step: nat, cursor: nat, count: nat)
    requires
        step <= d.len(),
        cursor <= data.len(),
        data.len() <= usize::MAX,
    ensures
        scan_in_bounds(data, d, step, cursor, count),
    decreases MAX_PARTS - count,
{
    if count + 1 < MAX_PARTS {
        let rest = data.subrange(cursor as int, data.len() as int);
        lemma_first_match(rest, d);
        match first_match(rest, d) {
            Some(p) => {
                assert(occurs_at(rest, d, p));
                lemma_scan_in_bounds(data, d, step, (cursor + p + step) as nat, count + 1);
            },
            None => {},
        }
    }
}

/// Spans produced by eager splitting: the whole payload for an empty
/// delimiter, otherwise the delimiter-separated parts.
pub open spec fn split_spans(data: Seq<u8>, d: Seq<u8>) -> Seq<(nat, nat)> {
    if d.len() == 0 {
        seq![(0nat, data.len())]
    } else {
        part_spans(data, d, d.len())
    }
}

/// The bytes of part `i` given its spans, or nothing past the last part.
pub open spec fn part_of(data: Seq<u8>, spans: Seq<(nat, nat)>, i: int) -> Seq<u8> {
    if 0 <= i < spans.len() {
        data.subrange(spans[i].0 as int, spans[i].1 as int)
    } else {
        Seq::empty()
    }
}

/// Field `i` of `data` split on delimiter `d`: what evaluation reads.
pub open spec fn field(data: Seq<u8>, d: Seq<u8>, i: int) -> Seq<u8> {
    part_of(data, part_spans(data, d, d.len()), i)
}

/// The spans are well-formed ranges of `data`.
pub open spec fn spans_valid(data: Seq<u8>, spans: Seq<(nat, nat)>) -> bool {
    forall|i: int| 0 <= i < spans.len() ==> (#[trigger] spans[i]).0 <= spans[i].1 <= data.len()
}

/// Scanned spans are valid ranges and never more than `MAX_PARTS - count`.
pub proof fn lemma_scan_spans_valid(data: Seq<u8>, d: Seq<u8>, step: nat, cursor: nat, count: nat)
    ensures
        spans_valid(data, scan_spans(data, d, step, cursor, count)),
        count < MAX_PARTS ==> count + scan_spans(data, d, step, cursor, count).len() <= MAX_PARTS,
        scan_spans(data, d, step, cursor, count).len() >= 1 <==> cursor <= data.len(),
    decreases MAX_PARTS - count,
{
    if cursor > data.len() {
    } else if count + 1 >= MAX_PARTS {
    } else {
        let rest = data.subrange(cursor as int, data.len() as int);
        lemma_first_match(rest, d);
        match first_match(rest, d) {
            Some(p) => {
                lemma_scan_spans_valid(data, d, step, (cursor + p + step) as nat, count + 1);
                let tail = scan_spans(data, d, step, (cursor + p + step) as nat, count + 1);
                assert(occurs_at(rest, d, p));
                let all = seq![(cursor, (cursor + p) as nat)] + tail;
                assert forall|i: int| 0 <= i < all.len() implies (#[trigger] all[i]).0 <= all[i].1 <= data.len() by {
                    if i > 0 {
                        assert(all[i] == tail[i - 1]);
                    }
                }
            },
            None => {},
        }
    }
}

/// Splits a record into parts, with zero-copy access to each.
///
/// Supports eager splitting (`split`, `split_with_finder`) and demand-driven
/// lazy splitting (`new_lazy` followed by `ensure`).
pub struct PayloadParts {
    payload: Bytes,
    offsets: [(usize, usize); MAX_PARTS],
    count: usize,
    scan_cursor: usize,
    finished: bool,
}

impl PayloadParts {
    /// The record's bytes.
    pub closed spec fn data(self) -> Seq<u8> {
        bytes_contents(self.payload)
    }

    /// Spans of the parts found so far.
    pub closed spec fn found(self) -> Seq<(nat, nat)> {
        Seq::new(self.count as nat, |i: int| (self.offsets@[i].0 as nat, self.offsets@[i].1 as nat))
    }

    /// Whether the whole record has been scanned.
    pub closed spec fn is_finished(self) -> bool {
        self.finished
    }

    /// All parts the record has for delimiter `d` and step `step`: those
    /// found so far, followed by those a further scan would find.
    pub closed spec fn eventual(self, d: Seq<u8>, step: nat) -> Seq<(nat, nat)> {
        if self.finished {
            self.found()
        } else {
            self.found() + scan_spans(self.data(), d, step, self.scan_cursor as nat, self.count as nat)
        }
    }

    /// Internal consistency: the parts found are valid ranges of the record,
    /// and an unfinished scan has room for more parts and a cursor within it.
    pub closed spec fn wf(self) -> bool {
        &&& self.count <= MAX_PARTS
        &&& spans_valid(self.data(), self.found())
        &&& !self.finished ==> self.count < MAX_PARTS && self.scan_cursor <= self.data().len()
    }

    /// Scanning further on delimiter `d` with step `step` stays in bounds.
    pub closed spec fn resumable(self, d: Seq<u8>, step: nat) -> bool {
        self.finished || scan_in_bounds(self.data(), d, step, self.scan_cursor as nat, self.count as nat)
    }

    /// Once part `i` has been found or the record fully scanned, the part
    /// read from the splitter is the one the record eventually has.
    pub proof fn lemma_part_settled(self, d: Seq<u8>, step: nat, i: int)
        requires
            self.wf(),
            0 <= i,
            i < self.found().len() || self.is_finished(),
        ensures
            part_of(self.data(), self.found(), i) == part_of(
                self.data(),
                self.eventual(d, step),
                i,
            ),
    {
        if !self.finished {
            assert(self.eventual(d, step)[i] == self.found()[i]);
        }
    }

    /// The parts found so far begin the parts the record eventually has.
    pub proof fn lemma_found_prefix_of_eventual(self, d: Seq<u8>, step: nat)
        ensures
            self.found().is_prefix_of(self.eventual(d, step)),
    {
        if !self.finished {
            assert(self.found() =~= self.eventual(d, step).subrange(0, self.found().len() as int));
        } else {
            assert(self.found() =~= self.found().subrange(0, self.found().len() as int));
        }
    }

    /// A lazy splitter never holds more parts than eager splitting finds: its
    /// parts so far begin the eager parts of the same record.
    pub proof fn lemma_lazy_within_eager(lazy: Self, d: Seq<u8>)
        requires
            d.len() > 0,
            lazy.eventual(d, d.len()) == part_spans(lazy.data(), d, d.len()),
        ensures
            lazy.found().is_prefix_of(split_spans(lazy.data(), d)),
            lazy.found().len() <= split_spans(lazy.data(), d).len(),
    {
        lazy.lemma_found_prefix_of_eventual(d, d.len());
    }

    /// Lazy and eager splitting agree: once a lazy splitter of a record (made by
    /// `new_lazy`, advanced by `ensure` with a non-empty delimiter) has found
    /// part `i` or scanned the whole record, its part `i` is part `i` of the
    /// same record split eagerly on that delimiter.
    pub proof fn lemma_lazy_agrees_with_eager(lazy: Self, eager: Self, d: Seq<u8>, i: int)
        requires
            lazy.wf(),
            d.len() > 0,
            lazy.eventual(d, d.len()) == part_spans(lazy.data(), d, d.len()),
            eager.data() == lazy.data(),
            eager.found() == split_spans(eager.data(), d),
            0 <= i,
            i < lazy.found().len() || lazy.is_finished(),
        ensures
            part_of(lazy.data(), lazy.found(), i) == part_of(eager.data(), eager.found(), i),
    {
        lazy.lemma_part_settled(d, d.len(), i);
    }

    /// Split a payload by the given delimiter.
    pub fn split(payload: Bytes, delimiter: &[u8]) -> (parts: Self)
        ensures
            parts.wf(),
            parts.data() == bytes_contents(payload),
            parts.is_finished(),
            parts.found() == split_spans(bytes_contents(payload), delimiter@),
    {
        if delimiter.len() == 0 {
            let len = bytes_as_slice(&payload).len();
            let mut offsets = [(0usize, 0usize); MAX_PARTS];
            offsets[0] = (0, len);
            let parts = PayloadParts { payload, offsets, count: 1, scan_cursor: 0, finished: true };
            assert(parts.found() =~= split_spans(bytes_contents(payload), delimiter@));
            return parts;
        }
        let finder = SubstringFinder::new(delimiter);
        Self::split_with_finder(payload, &finder, delimiter.len())
    }

    /// Split a payload using a prebuilt searcher for the delimiter.
    ///
    /// The scan resumes `delim_len` bytes after each delimiter occurrence; a
    /// `delim_len` of zero yields the whole payload as the only part.
    pub fn split_with_finder(payload: Bytes, finder: &SubstringFinder, delim_len: usize) -> (parts:
        Self)
        requires
            delim_len <= finder@.len() || scan_in_bounds(
                bytes_contents(payload),
                finder@,
                delim_len as nat,
                0,
                0,
            ),
        ensures
            parts.wf(),
            parts.data() == bytes_contents(payload),
            parts.is_finished(),
            delim_len == 0 ==> parts.found() == seq![(0nat, bytes_contents(payload).len())],
            delim_len > 0 ==> parts.found() == part_spans(
                bytes_contents(payload),
                finder@,
                delim_len as nat,
            ),
    {
        let mut offsets = [(0usize, 0usize); MAX_PARTS];
        let ghost data = bytes_contents(payload);
        let ghost d = finder@;
        let ghost step = delim_len as nat;
        if delim_len == 0 {
            let len = bytes_as_slice(&payload).len();
            offsets[0] = (0, len);
            let parts = PayloadParts { payload, offsets, count: 1, scan_cursor: 0, finished: true };
            assert(parts.found() =~= seq![(0nat, data.len())]);
            return parts;
        }
        let mut count: usize = 0;
        let mut start: usize = 0;
        let data_slice = bytes_as_slice(&payload);
        let payload_len = data_slice.len();
        proof {
            lemma_scan_spans_valid(data, d, step, 0, 0);
            if step <= d.len() {
                lemma_scan_in_bounds(data, d, step, 0, 0);
            }
        }
        while count < MAX_PARTS - 1
            invariant
                d == finder@,
                data_slice@ == data,
                payload_len == data.len(),
                delim_len == step,
                0 < step,
                count < MAX_PARTS,
                scan_in_bounds(data, d, step, start as nat, count as nat),
                Seq::new(count as nat, |i: int| (offsets@[i].0 as nat, offsets@[i].1 as nat))
                    + scan_spans(data, d, step, start as nat, count as nat) == part_spans(
                    data,
                    d,
                    step,
                ),
                spans_valid(
                    data,
                    Seq::new(count as nat, |i: int| (offsets@[i].0 as nat, offsets@[i].1 as nat)),
                ),
            ensures
                count < MAX_PARTS,
                Seq::new(count as nat, |i: int| (offsets@[i].0 as nat, offsets@[i].1 as nat))
                    + scan_spans(data, d, step, start as nat, count as nat) == part_spans(
                    data,
                    d,
                    step,
                ),
                spans_valid(
                    data,
                    Seq::new(count as nat, |i: int| (offsets@[i].0 as nat, offsets@[i].1 as nat)),
                ),
                start <= data.len() ==> scan_spans(data, d, step, start as nat, count as nat) == seq![
                    (start as nat, data.len()),
                ],
                start > data.len() ==> scan_spans(data, d, step, start as nat, count as nat) == Seq::<
                    (nat, nat),
                >::empty(),
            decreases MAX_PARTS - count,
        {
            let ghost before = Seq::new(
                count as nat,
                |i: int| (offsets@[i].0 as nat, offsets@[i].1 as nat),
            );
            let rest = vstd::slice::slice_subrange(data_slice, start, payload_len);
            assert(rest@ == data.subrange(start as int, data.len() as int));
            let found = finder.find(rest);
            proof {
                lemma_first_match(rest@, d);
            }
            match found {
                Some(pos) => {
                    proof {
                        assert(first_match(rest@, d) == Some(pos as int));
                        assert(is_first_match(rest@, d, pos as int));
                        assert(occurs_at(rest@, d, pos as int));
                    }
                    offsets[count] = (start, start + pos);
                    let ghost next = (start + pos + step) as nat;
                    proof {
                        let tail = scan_spans(data, d, step, next, (count + 1) as nat);
                        assert(scan_spans(data, d, step, start as nat, count as nat) == seq![
                            (start as nat, (start + pos) as nat),
                        ] + tail);
                        let after = Seq::new(
                            (count + 1) as nat,
                            |i: int| (offsets@[i].0 as nat, offsets@[i].1 as nat),
                        );
                        assert(after =~= before.push((start as nat, (start + pos) as nat)));
                        assert(after + tail =~= before + (seq![
                            (start as nat, (start + pos) as nat),
                        ] + tail));
                    }
                    count += 1;
                    start = start + pos + delim_len;
                },
                None => {
                    assert(scan_spans(data, d, step, start as nat, count as nat) == seq![
                        (start as nat, data.len()),
                    ]);
                    break ;
                },
            }
        }
        // The remainder is the last part, unless the scan ran past the end.
        let ghost before = Seq::new(count as nat, |i: int| (offsets@[i].0 as nat, offsets@[i].1 as nat));
        if start <= payload_len {
            offsets[count] = (start, payload_len);
            count += 1;
            proof {
                let after = Seq::new(count as nat, |i: int| (offsets@[i].0 as nat, offsets@[i].1 as nat));
                assert(after =~= before.push((start as nat, data.len())));
                assert(after == part_spans(data, d, step));
                assert forall|i: int| 0 <= i < after.len() implies (#[trigger] after[i]).0 <= after[i].1
                    <= data.len() by {
                    if i < before.len() {
                        assert(after[i] == before[i]);
                    }
                }
            }
        } else {
            assert(before + Seq::<(nat, nat)>::empty() =~= before);
        }
        let parts = PayloadParts { payload, offsets, count, scan_cursor: payload_len, finished: true };
        parts
    }

    /// Create a lazy splitter that scans delimiters on demand.
    pub fn new_lazy(payload: Bytes) -> (parts: Self)
        ensures
            parts.wf(),
            parts.data() == bytes_contents(payload),
            !parts.is_finished(),
            parts.found() == Seq::<(nat, nat)>::empty(),
            forall|d: Seq<u8>, step: nat| #[trigger]
                parts.eventual(d, step) == part_spans(bytes_contents(payload), d, step),
            forall|d: Seq<u8>, step: nat| #[trigger]
                parts.resumable(d, step) == scan_in_bounds(bytes_contents(payload), d, step, 0, 0),
    {
        let parts = PayloadParts {
            payload,
            offsets: [(0usize, 0usize); MAX_PARTS],
            count: 0,
            scan_cursor: 0,
            finished: false,
        };
        assert(parts.found() =~= Seq::<(nat, nat)>::empty());
        assert forall|d: Seq<u8>, step: nat| #[trigger]
            parts.eventual(d, step) == part_spans(bytes_contents(payload), d, step) by {
            assert(parts.found() + scan_spans(parts.data(), d, step, 0, 0) =~= scan_spans(
                parts.data(),
                d,
                step,
                0,
                0,
            ));
        }
        parts
    }

    /// Ensure that part `index` is available, scanning further as needed.
    ///
    /// Afterwards either part `index` has been found or the record has been
    /// fully scanned; the parts found so far only grow, and the parts the
    /// record eventually has do not change.
    pub fn ensure(&mut self, index: usize, finder: &SubstringFinder, delim_len: usize)
        requires
            old(self).wf(),
            delim_len <= finder@.len() || old(self).resumable(finder@, delim_len as nat),
        ensures
            final(self).wf(),
            old(self).found().is_prefix_of(final(self).found()),
            old(self).resumable(finder@, delim_len as nat) ==> final(self).resumable(
                finder@,
                delim_len as nat,
            ),
            final(self).data() == old(self).data(),
            final(self).eventual(finder@, delim_len as nat) == old(self).eventual(
                finder@,
                delim_len as nat,
            ),
            index < final(self).found().len() || final(self).is_finished(),
            (index < old(self).found().len() || old(self).is_finished()) ==> final(self).found()
                == old(self).found() && final(self).is_finished() == old(self).is_finished(),
    {
        if index < self.count || self.finished {
            return ;
        }
        let ghost d = finder@;
        let ghost step = delim_len as nat;
        let ghost data = self.data();
        let ghost target = old(self).eventual(d, step);
        let data_slice = bytes_as_slice(&self.payload);
        let len = data_slice.len();
        let ghost was_resumable = old(self).resumable(d, step);
        proof {
            if step <= d.len() {
                lemma_scan_in_bounds(data, d, step, self.scan_cursor as nat, self.count as nat);
            }
        }
        while self.count <= index && !self.finished
            invariant
                d == finder@,
                data == old(self).data(),
                target == old(self).eventual(d, step),
                !(index < old(self).found().len() || old(self).is_finished()),
                data_slice@ == data,
                len == data.len(),
                self.data() == data,
                delim_len == step,
                self.resumable(d, step),
                was_resumable ==> old(self).resumable(d, step),
                old(self).found().is_prefix_of(self.found()),
                self.eventual(d, step) == target,
                self.wf(),
            decreases MAX_PARTS - self.count,
        {
            let ghost before = self.found();
            let cursor = self.scan_cursor;
            let count = self.count;
            if count >= MAX_PARTS - 1 {
                // Last slot: take the remainder.
                self.offsets[count] = (cursor, len);
                self.count = count + 1;
                self.finished = true;
                proof {
                    assert(self.found() =~= before.push((cursor as nat, len as nat)));
                    assert(scan_spans(data, d, step, cursor as nat, count as nat) == seq![
                        (cursor as nat, data.len()),
                    ]);
                    assert(self.eventual(d, step) =~= target);
                    assert(old(self).found().is_prefix_of(self.found()));
                }
                return ;
            }
            let rest = vstd::slice::slice_subrange(data_slice, cursor, len);
            assert(rest@ == data.subrange(cursor as int, data.len() as int));
            let found = finder.find(rest);
            proof {
                lemma_first_match(rest@, d);
            }
            match found {
                Some(pos) => {
                    proof {
                        assert(first_match(rest@, d) == Some(pos as int));
                        assert(occurs_at(rest@, d, pos as int));
                    }
                    self.offsets[count] = (cursor, cursor + pos);
                    self.count = count + 1;
                    let next = cursor + pos + delim_len;
                    self.scan_cursor = next;
                    if next > len {
                        // Past the end: no part follows.
                        self.finished = true;
                    }
                    proof {
                        assert(old(self).found().is_prefix_of(self.found()));
                        let tail = scan_spans(
                            data,
                            d,
                            step,
                            (cursor + pos + step) as nat,
                            (count + 1) as nat,
                        );
                        assert(scan_spans(data, d, step, cursor as nat, count as nat) == seq![
                            (cursor as nat, (cursor + pos) as nat),
                        ] + tail);
                        assert(self.found() =~= before.push((cursor as nat, (cursor + pos) as nat)));
                        assert(self.eventual(d, step) =~= target);
                    }
                },
                None => {
                    self.offsets[count] = (cursor, len);
                    self.count = count + 1;
                    self.finished = true;
                    proof {
                        assert(scan_spans(data, d, step, cursor as nat, count as nat) == seq![
                            (cursor as nat, data.len()),
                        ]);
                        assert(self.found() =~= before.push((cursor as nat, len as nat)));
                        assert(self.eventual(d, step) =~= target);
                        assert(old(self).found().is_prefix_of(self.found()));
                    }
                    return ;
                },
            }
        }
    }

    /// Get the number of parts found so far.
    pub fn len(&self) -> (n: usize)
        ensures
            n == self.found().len(),
    {
        self.count
    }

    /// Check if no parts have been found.
    pub fn is_empty(&self) -> (b: bool)
        ensures
            b == (self.found().len() == 0),
    {
        self.count == 0
    }

    /// Get a part by index as a byte slice; empty if the index is out of bounds.
    pub fn get(&self, index: usize) -> (part: &[u8])
        requires
            self.wf(),
        ensures
            part@ == part_of(self.data(), self.found(), index as int),
    {
        if index < self.count {
            let (start, end) = self.offsets[index];
            assert(self.found()[index as int] == (start as nat, end as nat));
            let data = bytes_as_slice(&self.payload);
            vstd::slice::slice_subrange(data, start, end)
        } else {
            &[]
        }
    }

    /// Get a part by index as a shared sub-buffer; empty if out of bounds.
    pub fn get_bytes(&self, index: usize) -> (part: Bytes)
        requires
            self.wf(),
        ensures
            bytes_contents(part) == part_of(self.data(), self.found(), index as int),
    {
        if index < self.count {
            let (start, end) = self.offsets[index];
            assert(self.found()[index as int] == (start as nat, end as nat));
            bytes_slice(&self.payload, start, end)
        } else {
            bytes_empty()
        }
    }

    /// The whole payload that was split.
    pub fn payload(&self) -> (p: &Bytes)
        ensures
            bytes_contents(*p) == self.data(),
    {
        &self.payload
    }

    /// All parts found so far, in order.
    pub fn iter(&self) -> (v: Vec<&[u8]>)
        requires
            self.wf(),
        ensures
            v@.len() == self.found().len(),
            forall|i: int| 0 <= i < v@.len() ==> v@[i]@ == part_of(self.data(), self.found(), i),
    {
        let mut v: Vec<&[u8]> = Vec::new();
        let mut i: usize = 0;
        while i < self.count
            invariant
                self.wf(),
                i <= self.count,
                v@.len() == i,
                self.found().len() == self.count,
                forall|j: int| 0 <= j < i ==> v@[j]@ == part_of(self.data(), self.found(), j),
            decreases self.count - i,
        {
            v.push(self.get(i));
            i += 1;
        }
        v
    }
}


/// The byte ends a header line (`\r` or `\n`).
pub open spec fn is_line_break(b: u8) -> bool {
    b == 13 || b == 10
}

/// End of the line starting at `s`: the first line break at or after `s`,
/// or the end of the data.
pub open spec fn line_end(h: Seq<u8>, s: int) -> int
    decreases h.len() - s,
{
    if s < 0 || s >= h.len() {
        h.len() as int
    } else if is_line_break(h[s]) {
        s
    } else {
        line_end(h, s + 1)
    }
}

/// Start of the next line after a line ending at `e`: skips one `\r`, then
/// one `\n`.
pub open spec fn next_line_start(h: Seq<u8>, e: int) -> int {
    let a = if 0 <= e < h.len() && h[e] == 13 {
        e + 1
    } else {
        e
    };
    if 0 <= a < h.len() && h[a] == 10 {
        a + 1
    } else {
        a
    }
}

/// First index at or after `i` that is not a space or tab.
pub open spec fn skip_blanks(line: Seq<u8>, i: int) -> int
    decreases line.len() - i,
{
    if 0 <= i < line.len() && (line[i] == 32 || line[i] == 9) {
        skip_blanks(line, i + 1)
    } else {
        i
    }
}

/// The line is `name` (ignoring ASCII case), a colon, and a value; the value
/// starts after any spaces or tabs following the colon.
pub open spec fn header_line_value(line: Seq<u8>, name: Seq<u8>) -> Option<Seq<u8>> {
    if line.len() > name.len() && eq_ignore_case(line.subrange(0, name.len() as int), name)
        && line[name.len() as int] == 58 {
        Some(line.subrange(skip_blanks(line, name.len() + 1int), line.len() as int))
    } else {
        None
    }
}

/// Value of the first header line at or after line start `s` that names
/// the header `name`.
pub open spec fn header_value_from(h: Seq<u8>, name: Seq<u8>, s: int) -> Option<Seq<u8>>
    decreases h.len() - s,
{
    if s < 0 || s >= h.len() {
        None
    } else {
        let e = line_end(h, s);
        match header_line_value(h.subrange(s, e), name) {
            Some(v) => Some(v),
            None => {
                let n = next_line_start(h, e);
                if n <= s || n == e {
                    None
                } else {
                    header_value_from(h, name, n)
                }
            },
        }
    }
}

/// Value of header `name` in a headers blob such as
/// `Name: value\r\nOther: value2\r\n`; nothing for empty input or name.
pub open spec fn header_value(h: Seq<u8>, name: Seq<u8>) -> Option<Seq<u8>> {
    if h.len() == 0 || name.len() == 0 {
        None
    } else {
        header_value_from(h, name, 0)
    }
}

/// `s` starts a line of `h`: it lies inside `h` and is the first byte or
/// follows a line break.
pub open spec fn is_line_start(h: Seq<u8>, s: int) -> bool {
    0 <= s < h.len() && (s == 0 || is_line_break(h[s - 1]))
}

/// The value that the line of `h` starting at `s` gives for header `name`.
pub open spec fn line_header(h: Seq<u8>, name: Seq<u8>, s: int) -> Option<Seq<u8>> {
    header_line_value(h.subrange(s, line_end(h, s)), name)
}

/// The line of `h` starting at `s` names header `name`.
pub open spec fn names_header(h: Seq<u8>, name: Seq<u8>, s: int) -> bool {
    is_line_start(h, s) && line_header(h, name, s) is Some
}

/// From `s`, the line runs without a break up to `line_end`, which is the
/// end of `h` or a break.
proof fn lemma_line_end_props(h: Seq<u8>, s: int)
    requires
        0 <= s <= h.len(),
    ensures
        s <= line_end(h, s) <= h.len(),
        forall|j: int| s <= j < line_end(h, s) ==> !is_line_break(h[j]),
        line_end(h, s) < h.len() ==> is_line_break(h[line_end(h, s)]),
    decreases h.len() - s,
{
    if s < h.len() && !is_line_break(h[s]) {
        lemma_line_end_props(h, s + 1);
    }
}

/// Scanning from a line start (or the end) finds the first line at or after
/// it that names the header.
proof fn lemma_header_value_from_first(h: Seq<u8>, name: Seq<u8>, s: int)
    requires
        name.len() > 0,
        0 <= s,
        s < h.len() ==> is_line_start(h, s),
    ensures
        header_value_from(h, name, s) is None <==> forall|t: int| s <= t ==> !#[trigger] names_header(h, name, t),
        forall|t: int|
            s <= t && #[trigger] names_header(h, name, t) && (forall|u: int| s <= u < t ==> !names_header(h, name, u))
                ==> header_value_from(h, name, s) == line_header(h, name, t),
    decreases h.len() - s,
{
    if s >= h.len() {
        return;
    }
    let e = line_end(h, s);
    lemma_line_end_props(h, s);
    // Between `s` and the end of its line no line starts.
    assert forall|t: int| s < t <= e implies !is_line_start(h, t) by {
        assert(!is_line_break(h[t - 1]));
    }
    if line_header(h, name, s) is Some {
        assert(names_header(h, name, s));
        return;
    }
    let n = next_line_start(h, e);
    if n <= s || n == e {
        assert(e == h.len());
        assert forall|t: int| s <= t implies !#[trigger] names_header(h, name, t) by {
            if s < t && t < h.len() {
                assert(!is_line_start(h, t));
            }
        }
        return;
    }
    // The skipped positions after the break start no line that names the
    // header: at most one of them starts a line, and that line is empty.
    assert forall|t: int| s <= t < n implies !#[trigger] names_header(h, name, t) by {
        if s < t && t <= e {
            assert(!is_line_start(h, t));
        } else if t > e {
            assert(t == e + 1 && h[e + 1] == 10);
            lemma_line_end_props(h, t);
            assert(line_end(h, t) == t);
            assert(h.subrange(t, t).len() == 0);
        }
    }
    assert(is_line_break(h[n - 1]));
    lemma_header_value_from_first(h, name, n);
    assert forall|t: int|
        s <= t && #[trigger] names_header(h, name, t) && (forall|u: int| s <= u < t ==> !names_header(h, name, u))
            implies header_value_from(h, name, s) == line_header(h, name, t) by {
        assert(n <= t);
    }
}

/// The header lookup in plain terms: for a non-empty name, the value is that
/// of the first line (a run of bytes between line breaks) that starts with
/// the name, ignoring ASCII case, followed by a colon; leading spaces and
/// tabs of the value are dropped. There is none when no line names it.
pub proof fn lemma_header_value_is_first_naming_line(h: Seq<u8>, name: Seq<u8>)
    requires
        name.len() > 0,
    ensures
        header_value(h, name) is None <==> forall|t: int| !#[trigger] names_header(h, name, t),
        forall|t: int|
            #[trigger] names_header(h, name, t) && (forall|u: int| 0 <= u < t ==> !names_header(h, name, u))
                ==> header_value(h, name) == line_header(h, name, t),
{
    lemma_header_value_from_first(h, name, 0);
    if h.len() == 0 {
        assert forall|t: int| !#[trigger] names_header(h, name, t) by {}
    }
    assert forall|t: int| !(0 <= t) implies !#[trigger] names_header(h, name, t) by {}
}

/// `line_end` is the first line break at or after `s`.
proof fn lemma_line_end(h: Seq<u8>, s: int, e: int)
    requires
        0 <= s <= e <= h.len(),
        forall|j: int| s <= j < e ==> !is_line_break(h[j]),
        e == h.len() || is_line_break(h[e]),
    ensures
        line_end(h, s) == e,
    decreases e - s,
{
    if s < e {
        lemma_line_end(h, s + 1, e);
    }
}

/// Index of the first byte at or after `i` that is not a space or tab.
fn skip_blanks_exec(line: &[u8], i: usize) -> (j: usize)
    requires
        i <= line@.len(),
    ensures
        j == skip_blanks(line@, i as int),
        i <= j <= line@.len(),
{
    let mut j = i;
    while j < line.len() && (line[j] == 32 || line[j] == 9)
        invariant
            i <= j <= line@.len(),
            skip_blanks(line@, i as int) == skip_blanks(line@, j as int),
        decreases line@.len() - j,
    {
        j += 1;
    }
    j
}

/// Extract a header value from a headers blob such as
/// `Header-Name: value\r\nOther-Header: value2\r\n`.
///
/// The name is matched ignoring ASCII case; leading spaces and tabs of the
/// value are skipped; trailing whitespace is kept.
pub fn extract_header_value<'a>(headers: &'a [u8], header_name: &[u8]) -> (r: Option<&'a [u8]>)
    ensures
        match r {
            Some(v) => header_value(headers@, header_name@) == Some(v@),
            None => header_value(headers@, header_name@) is None,
        },
{
    if headers.len() == 0 || header_name.len() == 0 {
        return None;
    }
    let ghost h = headers@;
    let ghost name = header_name@;
    let len = headers.len();
    let nlen = header_name.len();
    let mut line_start: usize = 0;
    while line_start < len
        invariant
            h == headers@,
            name == header_name@,
            len == h.len(),
            nlen == name.len(),
            line_start <= len,
            header_value(h, name) == header_value_from(h, name, line_start as int),
            name.len() > 0,
            h.len() > 0,
        ensures
            header_value(h, name) is None,
        decreases len - line_start,
    {
        let rest = vstd::slice::slice_subrange(headers, line_start, len);
        let line_end_pos = match memchr2(13, 10, rest) {
            Some(pos) => line_start + pos,
            None => len,
        };
        proof {
            assert forall|j: int| line_start <= j < line_end_pos implies !is_line_break(h[j]) by {
                assert(h[j] == rest@[j - line_start]);
            }
            if line_end_pos < len {
                assert(h[line_end_pos as int] == rest@[line_end_pos - line_start]);
            }
            lemma_line_end(h, line_start as int, line_end_pos as int);
        }
        let line = vstd::slice::slice_subrange(headers, line_start, line_end_pos);
        let ghost spec_line = h.subrange(line_start as int, line_end_pos as int);
        assert(line@ == spec_line);
        if line.len() > nlen {
            let potential = vstd::slice::slice_subrange(line, 0, nlen);
            if eq_ignore_ascii_case(potential, header_name) && line[nlen] == 58 {
                let val_start = skip_blanks_exec(line, nlen + 1);
                let value = vstd::slice::slice_subrange(line, val_start, line.len());
                assert(header_line_value(spec_line, name) == Some(value@));
                return Some(value);
            }
        }
        assert(header_line_value(spec_line, name) is None);
        let mut next = line_end_pos;
        if next < len && headers[next] == 13 {
            next += 1;
        }
        if next < len && headers[next] == 10 {
            next += 1;
        }
        if next == line_end_pos {
            break ;
        }
        line_start = next;
    }
    None
}

/// Header lookup ignores the ASCII case of the name: two names equal up to
/// case find the same value.
pub proof fn lemma_header_name_ignores_case(h: Seq<u8>, n1: Seq<u8>, n2: Seq<u8>)
    requires
        eq_ignore_case(n1, n2),
    ensures
        header_value(h, n1) == header_value(h, n2),
{
    if h.len() > 0 && n1.len() > 0 {
        lemma_header_from_ignores_case(h, n1, n2, 0);
    }
}

proof fn lemma_header_from_ignores_case(h: Seq<u8>, n1: Seq<u8>, n2: Seq<u8>, s: int)
    requires
        eq_ignore_case(n1, n2),
    ensures
        header_value_from(h, n1, s) == header_value_from(h, n2, s),
    decreases h.len() - s,
{
    if 0 <= s < h.len() {
        let e = line_end(h, s);
        let line = h.subrange(s, e);
        if line.len() > n1.len() {
            let head = line.subrange(0, n1.len() as int);
            assert(eq_ignore_case(head, n1) == eq_ignore_case(head, n2));
        }
        assert(header_line_value(line, n1) == header_line_value(line, n2));
        let n = next_line_start(h, e);
        if !(n <= s || n == e) {
            lemma_header_from_ignores_case(h, n1, n2, n);
        }
    }
}

/// The parts given by `spans`, joined with `d` between consecutive parts.
pub open spec fn join_parts(data: Seq<u8>, spans: Seq<(nat, nat)>, d: Seq<u8>) -> Seq<u8>
    decreases spans.len(),
{
    if spans.len() == 0 {
        Seq::empty()
    } else if spans.len() == 1 {
        data.subrange(spans[0].0 as int, spans[0].1 as int)
    } else {
        data.subrange(spans[0].0 as int, spans[0].1 as int) + d + join_parts(data, spans.drop_first(), d)
    }
}

/// Joining the parts of a record with the delimiter they were split on
/// gives the record back.
pub proof fn lemma_join_parts(data: Seq<u8>, d: Seq<u8>, cursor: nat, count: nat)
    requires
        d.len() > 0,
        cursor <= data.len(),
        count < MAX_PARTS,
    ensures
        join_parts(data, scan_spans(data, d, d.len(), cursor, count), d) == data.subrange(
            cursor as int,
            data.len() as int,
        ),
    decreases MAX_PARTS - count,
{
    let s = scan_spans(data, d, d.len(), cursor, count);
    if count + 1 < MAX_PARTS {
        let rest = data.subrange(cursor as int, data.len() as int);
        lemma_first_match(rest, d);
        match first_match(rest, d) {
            Some(p) => {
                assert(occurs_at(rest, d, p));
                let next = (cursor + p + d.len()) as nat;
                lemma_join_parts(data, d, next, count + 1);
                lemma_scan_spans_valid(data, d, d.len(), next, count + 1);
                let tail = scan_spans(data, d, d.len(), next, count + 1);
                assert(s == seq![(cursor, (cursor + p) as nat)] + tail);
                assert(s.drop_first() =~= tail);
                assert(data.subrange(cursor + p, next as int) =~= rest.subrange(p, p + d.len()));
                assert(data.subrange(cursor as int, cursor + p) + d + data.subrange(next as int, data.len() as int)
                    =~= data.subrange(cursor as int, data.len() as int));
            },
            None => {
                assert(s == seq![(cursor, data.len())]);
            },
        }
    } else {
        assert(s == seq![(cursor, data.len())]);
    }
}

/// Splitting a record on a non-empty delimiter and joining the parts with
/// it gives the record back.
pub proof fn lemma_split_then_join(data: Seq<u8>, d: Seq<u8>)
    requires
        d.len() > 0,
    ensures
        join_parts(data, split_spans(data, d), d) == data,
{
    lemma_join_parts(data, d, 0, 0);
    assert(data.subrange(0, data.len() as int) =~= data);
}

/// No part holds the delimiter, except that the last part may when it fills
/// the last slot (the scan stops there and the rest of the record is kept
/// whole).
pub proof fn lemma_parts_hold_no_delimiter(data: Seq<u8>, d: Seq<u8>, step: nat, cursor: nat, count: nat)
    requires
        d.len() > 0,
    ensures
        ({
            let s = scan_spans(data, d, step, cursor, count);
            forall|i: int|
                0 <= i < s.len() && (i + 1 < s.len() || count + s.len() < MAX_PARTS) ==> !contains(
                    data.subrange((#[trigger] s[i]).0 as int, s[i].1 as int),
                    d,
                )
        }),
    decreases MAX_PARTS - count,
{
    let s = scan_spans(data, d, step, cursor, count);
    if cursor <= data.len() && count + 1 < MAX_PARTS {
        let rest = data.subrange(cursor as int, data.len() as int);
        lemma_first_match(rest, d);
        match first_match(rest, d) {
            Some(p) => {
                let next = (cursor + p + step) as nat;
                lemma_parts_hold_no_delimiter(data, d, step, next, count + 1);
                let tail = scan_spans(data, d, step, next, count + 1);
                assert(s == seq![(cursor, (cursor + p) as nat)] + tail);
                let first = data.subrange(cursor as int, cursor + p);
                assert(!contains(first, d)) by {
                    if contains(first, d) {
                        let k = choose|k: int| occurs_at(first, d, k);
                        assert(first.subrange(k, k + d.len()) =~= rest.subrange(k, k + d.len()));
                        assert(occurs_at(rest, d, k));
                    }
                }
                assert forall|i: int|
                    0 <= i < s.len() && (i + 1 < s.len() || count + s.len() < MAX_PARTS) implies !contains(
                    data.subrange((#[trigger] s[i]).0 as int, s[i].1 as int),
                    d,
                ) by {
                    if i > 0 {
                        assert(s[i] == tail[i - 1]);
                    }
                }
            },
            None => {
                assert(s == seq![(cursor, data.len())]);
            },
        }
    }
}

/// Splitting on a non-empty delimiter loses nothing: the first part starts
/// the record, the last one ends it, and between consecutive parts stands
/// exactly one occurrence of the delimiter.
#[verifier::spinoff_prover]
pub proof fn lemma_parts_rejoin(data: Seq<u8>, d: Seq<u8>, cursor: nat, count: nat)
    requires
        d.len() > 0,
        cursor <= data.len(),
        count < MAX_PARTS,
    ensures
        ({
            let s = scan_spans(data, d, d.len(), cursor, count);
            &&& s.len() >= 1
            &&& s[0].0 == cursor
            &&& s.last().1 == data.len()
            &&& forall|i: int, j: int|
                #![trigger s[i], s[j]]
                0 <= i && j == i + 1 && j < s.len() ==> s[j].0 == s[i].1 + d.len() && data.subrange(
                    s[i].1 as int,
                    s[i].1 + d.len() as int,
                ) == d
        }),
    decreases MAX_PARTS - count,
{
    lemma_scan_spans_valid(data, d, d.len(), cursor, count);
    if count + 1 < MAX_PARTS {
        let rest = data.subrange(cursor as int, data.len() as int);
        lemma_first_match(rest, d);
        match first_match(rest, d) {
            Some(p) => {
                let next = (cursor + p + d.len()) as nat;
                lemma_parts_rejoin(data, d, next, count + 1);
                let tail = scan_spans(data, d, d.len(), next, count + 1);
                let s = scan_spans(data, d, d.len(), cursor, count);
                assert(s == seq![(cursor, (cursor + p) as nat)] + tail);
                assert(data.subrange(cursor + p, cursor + p + d.len()) =~= rest.subrange(
                    p as int,
                    p + d.len(),
                ));
                assert forall|i: int, j: int|
                    #![trigger s[i], s[j]]
                    0 <= i && j == i + 1 && j < s.len() implies s[j].0 == s[i].1 + d.len()
                        && data.subrange(s[i].1 as int, s[i].1 + d.len() as int) == d by {
                    if i > 0 {
                        assert(s[i] == tail[i - 1]);
                        assert(s[j] == tail[j - 1]);
                    } else {
                        assert(s[1] == tail[0]);
                        assert(occurs_at(rest, d, p));
                    }
                }
                assert(s.last() == tail.last());
            },
            None => {},
        }
    }
}

} // verus!

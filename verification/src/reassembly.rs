//! Rebuilding frames from lossy, out-of-order UDP fragments.
//!
//! Every datagram opens with a fixed 12-byte big-endian header — frame
//! identifier, fragment index, total fragment count, total byte size —
//! followed by one fragment's payload. A [`Reassembler`] keeps one
//! [`PendingFrame`] record per frame identifier still being assembled,
//! gates out identifiers at or below the last completed one, purges stale
//! and timed-out records, and evicts the smallest identifiers when the
//! pending set outgrows its bound.

use vstd::prelude::*;

verus! {

/// Bytes of header before a fragment's payload.
pub const UDP_HEADER_SIZE: usize = 12;

/// A pending record is purged once it is older than this many milliseconds.
pub const UDP_FRAME_TIMEOUT_MS: u64 = 500;

/// Default bound on how many frames may be mid-reassembly at once.
pub const UDP_MAX_PENDING_FRAMES: usize = 3;

/// Big-endian 16-bit value at offset `i` of `s`.
pub open spec fn be_u16(s: Seq<u8>, i: int) -> int {
    s[i] * 0x100 + s[i + 1]
}

/// Big-endian 32-bit value at offset `i` of `s`.
pub open spec fn be_u32(s: Seq<u8>, i: int) -> int {
    s[i] * 0x1000000 + s[i + 1] * 0x10000 + s[i + 2] * 0x100 + s[i + 3]
}

/// The decoded fragment header.
#[derive(Clone, Copy, Debug)]
pub struct FragmentHeader {
    pub frame_id: u32,
    pub fragment_index: u16,
    pub total_fragments: u16,
    pub total_size: u32,
}

/// The header the first 12 bytes of `d` encode.
pub open spec fn header_of(d: Seq<u8>) -> FragmentHeader {
    FragmentHeader {
        frame_id: be_u32(d, 0) as u32,
        fragment_index: be_u16(d, 4) as u16,
        total_fragments: be_u16(d, 6) as u16,
        total_size: be_u32(d, 8) as u32,
    }
}

/// Decode the big-endian header of a datagram; datagrams shorter than the
/// header are malformed.
pub fn parse_header(d: &[u8]) -> (r: Option<FragmentHeader>)
    ensures
        d@.len() >= UDP_HEADER_SIZE ==> r == Some(header_of(d@)),
        d@.len() < UDP_HEADER_SIZE ==> r is None,
{
    if d.len() < UDP_HEADER_SIZE {
        return None;
    }
    let frame_id: u32 = (d[0] as u32) * 0x1000000 + (d[1] as u32) * 0x10000 + (d[2] as u32)
        * 0x100 + (d[3] as u32);
    let fragment_index: u16 = (d[4] as u16) * 0x100 + (d[5] as u16);
    let total_fragments: u16 = (d[6] as u16) * 0x100 + (d[7] as u16);
    let total_size: u32 = (d[8] as u32) * 0x1000000 + (d[9] as u32) * 0x10000 + (d[10] as u32)
        * 0x100 + (d[11] as u32);
    Some(FragmentHeader { frame_id, fragment_index, total_fragments, total_size })
}

/// One frame mid-reassembly: an index-addressed slot per expected fragment.
pub struct PendingFrame {
    pub frame_id: u32,
    pub total_fragments: u16,
    pub total_size: u32,
    pub fragments: Vec<Option<Vec<u8>>>,
    pub received_count: u16,
    pub created_at_ms: u64,
}

/// The mathematical image of a pending record.
pub ghost struct RecordView {
    pub frame_id: u32,
    pub total_fragments: u16,
    pub total_size: u32,
    pub fragments: Seq<Option<Seq<u8>>>,
    pub received_count: u16,
    pub created_at_ms: u64,
}

pub open spec fn frag_view(o: Option<Vec<u8>>) -> Option<Seq<u8>> {
    match o {
        Some(v) => Some(v@),
        None => None,
    }
}

impl View for PendingFrame {
    type V = RecordView;

    open spec fn view(&self) -> RecordView {
        RecordView {
            frame_id: self.frame_id,
            total_fragments: self.total_fragments,
            total_size: self.total_size,
            fragments: self.fragments@.map_values(|o: Option<Vec<u8>>| frag_view(o)),
            received_count: self.received_count,
            created_at_ms: self.created_at_ms,
        }
    }
}

/// How many slots hold a fragment.
pub open spec fn count_filled(frags: Seq<Option<Seq<u8>>>) -> int
    decreases frags.len(),
{
    if frags.len() == 0 {
        0
    } else {
        count_filled(frags.drop_last()) + if frags.last() is Some {
            1int
        } else {
            0int
        }
    }
}

pub open spec fn opt_bytes(o: Option<Seq<u8>>) -> Seq<u8> {
    match o {
        Some(b) => b,
        None => Seq::empty(),
    }
}

/// The first `n` slots' payloads, concatenated in index order.
pub open spec fn concat_opt(frags: Seq<Option<Seq<u8>>>, n: int) -> Seq<u8>
    decreases n,
{
    if n <= 0 {
        Seq::empty()
    } else {
        concat_opt(frags, n - 1) + opt_bytes(frags[n - 1])
    }
}

impl RecordView {
    /// One slot per expected fragment, and an accurate received count.
    pub open spec fn wf(self) -> bool {
        &&& self.fragments.len() == self.total_fragments as int
        &&& self.received_count as int == count_filled(self.fragments)
    }

    pub open spec fn complete(self) -> bool {
        self.received_count == self.total_fragments
    }

    /// Whether the record has outlived the reassembly timeout at `now_ms`.
    pub open spec fn expired(self, now_ms: u64) -> bool {
        now_ms > self.created_at_ms + UDP_FRAME_TIMEOUT_MS
    }

    /// A fresh record created at `now_ms`: every slot empty.
    pub open spec fn fresh(frame_id: u32, total_fragments: u16, total_size: u32, now_ms: u64) -> RecordView {
        RecordView {
            frame_id,
            total_fragments,
            total_size,
            fragments: Seq::new(total_fragments as nat, |i: int| None),
            received_count: 0,
            created_at_ms: now_ms,
        }
    }

    /// Recording fragment `idx` with payload `data`: fills the slot when the
    /// index is in range and the slot is still empty; a duplicate or an
    /// out-of-range index changes nothing.
    pub open spec fn record(self, idx: u16, data: Seq<u8>) -> RecordView {
        if idx < self.total_fragments && self.fragments[idx as int] is None {
            RecordView {
                fragments: self.fragments.update(idx as int, Some(data)),
                received_count: (self.received_count + 1) as u16,
                ..self
            }
        } else {
            self
        }
    }

    /// The reassembled byte sequence: every slot's payload in index order.
    pub open spec fn assembled(self) -> Seq<u8> {
        concat_opt(self.fragments, self.fragments.len() as int)
    }
}

pub proof fn lemma_count_filled_bounds(frags: Seq<Option<Seq<u8>>>)
    ensures
        0 <= count_filled(frags) <= frags.len(),
        count_filled(frags) == frags.len() ==> forall|i: int|
            0 <= i < frags.len() ==> frags[i] is Some,
    decreases frags.len(),
{
    if frags.len() > 0 {
        lemma_count_filled_bounds(frags.drop_last());
        if count_filled(frags) == frags.len() {
            assert forall|i: int| 0 <= i < frags.len() implies frags[i] is Some by {
                if i < frags.len() - 1 {
                    assert(frags.drop_last()[i] == frags[i]);
                } else {
                    assert(frags.last() == frags[i]);
                }
            }
        }
    }
}

pub proof fn lemma_count_filled_all_none(frags: Seq<Option<Seq<u8>>>)
    requires
        forall|i: int| 0 <= i < frags.len() ==> frags[i] is None,
    ensures
        count_filled(frags) == 0,
    decreases frags.len(),
{
    if frags.len() > 0 {
        assert forall|i: int| 0 <= i < frags.drop_last().len() implies frags.drop_last()[i]
            is None by {
            assert(frags.drop_last()[i] == frags[i]);
        }
        lemma_count_filled_all_none(frags.drop_last());
        assert(frags.last() == frags[frags.len() - 1]);
    }
}

pub proof fn lemma_count_filled_slot_none(frags: Seq<Option<Seq<u8>>>, i: int)
    requires
        0 <= i < frags.len(),
        frags[i] is None,
    ensures
        count_filled(frags) < frags.len(),
    decreases frags.len(),
{
    if i == frags.len() - 1 {
        assert(frags.last() == frags[i]);
        lemma_count_filled_bounds(frags.drop_last());
    } else {
        assert(frags.drop_last()[i] == frags[i]);
        lemma_count_filled_slot_none(frags.drop_last(), i);
    }
}

pub proof fn lemma_count_filled_update(frags: Seq<Option<Seq<u8>>>, i: int, data: Seq<u8>)
    requires
        0 <= i < frags.len(),
        frags[i] is None,
    ensures
        count_filled(frags.update(i, Some(data))) == count_filled(frags) + 1,
    decreases frags.len(),
{
    let upd = frags.update(i, Some(data));
    if i == frags.len() - 1 {
        assert(upd.drop_last() =~= frags.drop_last());
        assert(upd.last() == upd[i]);
        assert(frags.last() == frags[i]);
    } else {
        assert(upd.drop_last() =~= frags.drop_last().update(i, Some(data)));
        assert(frags.drop_last()[i] == frags[i]);
        lemma_count_filled_update(frags.drop_last(), i, data);
        assert(upd.last() == upd[upd.len() - 1]);
        assert(frags.last() == frags[frags.len() - 1]);
    }
}

impl PendingFrame {
    /// Start reassembling frame `frame_id` at time `now_ms`, expecting
    /// `total_fragments` fragments and `total_size` bytes in all.
    pub fn new(frame_id: u32, total_fragments: u16, total_size: u32, now_ms: u64) -> (r:
        PendingFrame)
        ensures
            r@ == RecordView::fresh(frame_id, total_fragments, total_size, now_ms),
            r@.wf(),
    {
        let mut fragments: Vec<Option<Vec<u8>>> = Vec::new();
        let mut i: usize = 0;
        let n = total_fragments as usize;
        while i < n
            invariant
                i <= n,
                fragments@.len() == i as int,
                forall|j: int| 0 <= j < i ==> fragments@[j] is None,
            decreases n - i,
        {
            fragments.push(None);
            i = i + 1;
        }
        let r = PendingFrame {
            frame_id,
            total_fragments,
            total_size,
            fragments,
            received_count: 0,
            created_at_ms: now_ms,
        };
        proof {
            assert forall|j: int| 0 <= j < r@.fragments.len() implies r@.fragments[j] is None by {
                assert(r@.fragments[j] == frag_view(r.fragments@[j]));
            }
            lemma_count_filled_all_none(r@.fragments);
            assert(r@.fragments =~= Seq::new(total_fragments as nat, |k: int| None::<Seq<u8>>));
        }
        r
    }

    /// Record the fragment at `index`. A duplicate delivery of an index
    /// counts once; an out-of-range index is ignored and never reports
    /// completion, as the wire protocol treats such a datagram as malformed.
    pub fn add_fragment(&mut self, index: u16, data: Vec<u8>) -> (complete: bool)
        requires
            old(self)@.wf(),
        ensures
            final(self)@ == old(self)@.record(index, data@),
            final(self)@.wf(),
            complete == (index < old(self)@.total_fragments && final(self)@.complete()),
    {
        if index >= self.total_fragments {
            return false;
        }
        let idx = index as usize;
        if self.fragments[idx].is_none() {
            proof {
                lemma_count_filled_slot_none(self@.fragments, idx as int);
                lemma_count_filled_update(self@.fragments, idx as int, data@);
            }
            let ghost pre = self@.fragments;
            self.fragments.set(idx, Some(data));
            proof {
                assert(self@.fragments =~= pre.update(idx as int, Some(data@)));
            }
            self.received_count = self.received_count + 1;
        }
        self.is_complete()
    }

    pub fn is_complete(&self) -> (r: bool)
        ensures
            r == self@.complete(),
    {
        self.received_count == self.total_fragments
    }

    /// Whether the record has outlived the reassembly timeout at `now_ms`.
    pub fn is_expired(&self, now_ms: u64) -> (r: bool)
        ensures
            r == self@.expired(now_ms),
    {
        now_ms > self.created_at_ms && now_ms - self.created_at_ms > UDP_FRAME_TIMEOUT_MS
    }

    /// Concatenate every received fragment in index order; `None` while any
    /// slot is still empty.
    pub fn assemble(&self) -> (r: Option<Vec<u8>>)
        requires
            self@.wf(),
        ensures
            self@.complete() ==> r is Some && r->0@ == self@.assembled(),
            !self@.complete() ==> r is None,
    {
        if !self.is_complete() {
            return None;
        }
        proof {
            lemma_count_filled_bounds(self@.fragments);
        }
        let mut data: Vec<u8> = Vec::new();
        let n = self.fragments.len();
        let mut i: usize = 0;
        while i < n
            invariant
                i <= n,
                n == self@.fragments.len(),
                forall|j: int| 0 <= j < n ==> self@.fragments[j] is Some,
                self@.fragments == self.fragments@.map_values(|o: Option<Vec<u8>>| frag_view(o)),
                data@ == concat_opt(self@.fragments, i as int),
            decreases n - i,
        {
            proof {
                assert(self@.fragments[i as int] == frag_view(self.fragments@[i as int]));
            }
            match &self.fragments[i] {
                Some(f) => {
                    let ghost pre = data@;
                    let m = f.len();
                    let mut j: usize = 0;
                    while j < m
                        invariant
                            j <= m,
                            m == f@.len(),
                            data@ == pre + f@.subrange(0, j as int),
                        decreases m - j,
                    {
                        let b = f[j];
                        data.push(b);
                        assert(data@ =~= pre + f@.subrange(0, (j + 1) as int));
                        j = j + 1;
                    }
                    proof {
                        assert(f@ =~= f@.subrange(0, f@.len() as int));
                        assert(opt_bytes(self@.fragments[i as int]) == f@);
                        assert(data@ =~= concat_opt(self@.fragments, i + 1));
                    }
                },
                None => {
                    proof {
                        assert(false);
                    }
                    return None;
                },
            }
            i = i + 1;
        }
        Some(data)
    }
}

/// The mathematical images of a list of pending records.
pub open spec fn pviews(p: Seq<PendingFrame>) -> Seq<RecordView> {
    p.map_values(|r: PendingFrame| r@)
}

/// Identifiers strictly increase along the pending list.
pub open spec fn sorted_ids(p: Seq<RecordView>) -> bool {
    forall|i: int, j: int| 0 <= i < j < p.len() ==> p[i].frame_id < p[j].frame_id
}

pub open spec fn all_wf(p: Seq<RecordView>) -> bool {
    forall|i: int| 0 <= i < p.len() ==> p[i].wf()
}

/// Whether a record for `id` is pending.
pub open spec fn has_id(p: Seq<RecordView>, id: u32) -> bool {
    exists|i: int| 0 <= i < p.len() && p[i].frame_id == id
}

/// Position of the record for `id` (meaningful when `has_id` holds).
pub open spec fn index_of(p: Seq<RecordView>, id: u32) -> int {
    choose|i: int| 0 <= i < p.len() && p[i].frame_id == id
}

/// Where a fresh record for `id` belongs in the sorted list.
pub open spec fn insert_pos(p: Seq<RecordView>, id: u32) -> int
    decreases p.len(),
{
    if p.len() == 0 {
        0
    } else if p[0].frame_id < id {
        1 + insert_pos(p.skip(1), id)
    } else {
        0
    }
}

/// The staleness gate: identifiers at or below the last completed one are
/// dropped outright.
pub open spec fn gate_blocks(last: Option<u32>, id: u32) -> bool {
    match last {
        Some(l) => id <= l,
        None => false,
    }
}

/// No pending identifier sits at or below the staleness threshold.
pub open spec fn gate_respected(p: Seq<RecordView>, last: Option<u32>) -> bool {
    match last {
        Some(l) => forall|i: int| 0 <= i < p.len() ==> p[i].frame_id > l,
        None => true,
    }
}

/// A record survives the sweep after frame `done_id` completes at `now_ms`
/// when its identifier is newer and it has not timed out.
pub open spec fn spec_keep(r: RecordView, done_id: u32, now_ms: u64) -> bool {
    r.frame_id > done_id && !r.expired(now_ms)
}

/// The pending records that survive the sweep, their order unchanged.
pub open spec fn spec_sweep(p: Seq<RecordView>, done_id: u32, now_ms: u64) -> Seq<RecordView>
    decreases p.len(),
{
    if p.len() == 0 {
        Seq::empty()
    } else {
        let rest = spec_sweep(p.skip(1), done_id, now_ms);
        if spec_keep(p[0], done_id, now_ms) {
            seq![p[0]] + rest
        } else {
            rest
        }
    }
}

/// Evicting the numerically smallest identifiers until at most `max`
/// records remain; with identifiers sorted ascending that keeps a suffix.
pub open spec fn spec_bound(p: Seq<RecordView>, max: int) -> Seq<RecordView> {
    if p.len() <= max {
        p
    } else {
        p.skip(p.len() - max)
    }
}

/// The record a datagram with header `h` lands in: the pending one for its
/// identifier, or a fresh one created at `now_ms`.
pub open spec fn target_record(p: Seq<RecordView>, h: FragmentHeader, now_ms: u64) -> RecordView {
    if has_id(p, h.frame_id) {
        p[index_of(p, h.frame_id)]
    } else {
        RecordView::fresh(h.frame_id, h.total_fragments, h.total_size, now_ms)
    }
}

/// Whether the datagram completes its record.
pub open spec fn completes(
    p: Seq<RecordView>,
    h: FragmentHeader,
    payload: Seq<u8>,
    now_ms: u64,
) -> bool {
    let r = target_record(p, h, now_ms);
    h.fragment_index < r.total_fragments && r.record(h.fragment_index, payload).complete()
}

/// The pending set after an incomplete store: the fragment recorded into
/// its record, the record kept (or inserted) at its sorted position.
pub open spec fn store_incomplete(
    p: Seq<RecordView>,
    h: FragmentHeader,
    payload: Seq<u8>,
    now_ms: u64,
) -> Seq<RecordView> {
    let rec = target_record(p, h, now_ms).record(h.fragment_index, payload);
    if has_id(p, h.frame_id) {
        p.update(index_of(p, h.frame_id), rec)
    } else {
        p.insert(insert_pos(p, h.frame_id), rec)
    }
}

/// The bytes a completing datagram reassembles to.
pub open spec fn completed_bytes(
    p: Seq<RecordView>,
    h: FragmentHeader,
    payload: Seq<u8>,
    now_ms: u64,
) -> Seq<u8> {
    target_record(p, h, now_ms).record(h.fragment_index, payload).assembled()
}

/// The pending set after a completion: the completed identifier's record
/// goes, older and timed-out records are swept, and the smallest
/// identifiers are evicted down to `max`.
pub open spec fn after_completion(
    p: Seq<RecordView>,
    h: FragmentHeader,
    now_ms: u64,
    max: int,
) -> Seq<RecordView> {
    let without = if has_id(p, h.frame_id) {
        p.remove(index_of(p, h.frame_id))
    } else {
        p
    };
    spec_bound(spec_sweep(without, h.frame_id, now_ms), max)
}

/// What handling one datagram did.
pub enum DatagramOutcome {
    /// Shorter than the fragment header: dropped.
    TooShort,
    /// Identifier at or below the last completed one: dropped.
    Stale,
    /// Fragment recorded (or ignored as a duplicate or out of range); the
    /// frame is still incomplete.
    Stored,
    /// The frame completed and opens with the start marker: publish it.
    Completed(Vec<u8>),
    /// The frame completed but fails the start-marker check: nothing is
    /// published, yet the staleness gate advances all the same.
    Rejected,
}

/// The single-loop reassembly state: pending records sorted by identifier,
/// the staleness gate, and the pending-set bound.
pub struct Reassembler {
    pending: Vec<PendingFrame>,
    last_completed_frame_id: Option<u32>,
    max_pending: usize,
}

/// The mathematical image of the reassembly state.
pub ghost struct ReassemblerView {
    pub pending: Seq<RecordView>,
    pub last_completed_frame_id: Option<u32>,
    pub max_pending: int,
}

impl View for Reassembler {
    type V = ReassemblerView;

    closed spec fn view(&self) -> ReassemblerView {
        ReassemblerView {
            pending: pviews(self.pending@),
            last_completed_frame_id: self.last_completed_frame_id,
            max_pending: self.max_pending as int,
        }
    }
}

impl ReassemblerView {
    pub open spec fn wf(self) -> bool {
        &&& all_wf(self.pending)
        &&& sorted_ids(self.pending)
        &&& gate_respected(self.pending, self.last_completed_frame_id)
        &&& self.max_pending >= 0
    }
}

/// Recording a fragment keeps a record well formed and touches only the
/// addressed slot.
pub proof fn lemma_record_wf(r: RecordView, idx: u16, data: Seq<u8>)
    requires
        r.wf(),
    ensures
        r.record(idx, data).wf(),
        r.record(idx, data).frame_id == r.frame_id,
        r.record(idx, data).total_fragments == r.total_fragments,
        r.record(idx, data).total_size == r.total_size,
        r.record(idx, data).created_at_ms == r.created_at_ms,
        r.record(idx, data).fragments.len() == r.fragments.len(),
        idx < r.total_fragments ==> r.record(idx, data).fragments[idx as int] is Some,
        forall|j: int|
            0 <= j < r.fragments.len() && j != idx ==> r.record(idx, data).fragments[j]
                == r.fragments[j],
{
    if idx < r.total_fragments && r.fragments[idx as int] is None {
        lemma_count_filled_slot_none(r.fragments, idx as int);
        lemma_count_filled_update(r.fragments, idx as int, data);
    }
}

/// What survives a sweep: exactly the records that pass `spec_keep`, their
/// order, well-formedness and sortedness intact.
pub proof fn lemma_sweep_props(p: Seq<RecordView>, done_id: u32, now_ms: u64)
    ensures
        forall|i: int|
            0 <= i < spec_sweep(p, done_id, now_ms).len() ==> p.contains(
                #[trigger] spec_sweep(p, done_id, now_ms)[i],
            ) && spec_keep(spec_sweep(p, done_id, now_ms)[i], done_id, now_ms),
        forall|r: RecordView|
            p.contains(r) && spec_keep(r, done_id, now_ms) ==> spec_sweep(
                p,
                done_id,
                now_ms,
            ).contains(r),
        sorted_ids(p) ==> sorted_ids(spec_sweep(p, done_id, now_ms)),
        all_wf(p) ==> all_wf(spec_sweep(p, done_id, now_ms)),
        spec_sweep(p, done_id, now_ms).len() <= p.len(),
    decreases p.len(),
{
    if p.len() > 0 {
        lemma_sweep_props(p.skip(1), done_id, now_ms);
        let rest = spec_sweep(p.skip(1), done_id, now_ms);
        let swept = spec_sweep(p, done_id, now_ms);
        assert forall|r: RecordView| p.skip(1).contains(r) implies p.contains(r) by {
            let j = choose|j: int| 0 <= j < p.skip(1).len() && p.skip(1)[j] == r;
            assert(p[j + 1] == r);
        }
        assert forall|i: int|
            0 <= i < swept.len() implies p.contains(#[trigger] swept[i]) && spec_keep(
            swept[i],
            done_id,
            now_ms,
        ) by {
            if spec_keep(p[0], done_id, now_ms) {
                if i == 0 {
                    assert(swept[0] == p[0]);
                } else {
                    assert(swept[i] == rest[i - 1]);
                }
            } else {
                assert(swept[i] == rest[i]);
            }
        }
        assert forall|r: RecordView|
            p.contains(r) && spec_keep(r, done_id, now_ms) implies swept.contains(r) by {
            let j = choose|j: int| 0 <= j < p.len() && p[j] == r;
            if j == 0 {
                assert(spec_keep(p[0], done_id, now_ms));
                assert(swept[0] == r);
            } else {
                assert(p.skip(1)[j - 1] == r);
                assert(p.skip(1).contains(r));
                let k = choose|k: int| 0 <= k < rest.len() && rest[k] == r;
                if spec_keep(p[0], done_id, now_ms) {
                    assert(swept[k + 1] == r);
                } else {
                    assert(swept[k] == r);
                }
            }
        }
        if sorted_ids(p) {
            assert forall|i: int, j: int|
                0 <= i < j < swept.len() implies swept[i].frame_id < swept[j].frame_id by {
                if spec_keep(p[0], done_id, now_ms) && i == 0 {
                    assert(swept[j] == rest[j - 1]);
                    assert(p.skip(1).contains(swept[j]));
                    let k = choose|k: int|
                        0 <= k < p.skip(1).len() && p.skip(1)[k] == swept[j];
                    assert(p[k + 1] == swept[j]);
                } else {
                    let di: int = if spec_keep(p[0], done_id, now_ms) {
                        1int
                    } else {
                        0int
                    };
                    assert(swept[i] == rest[i - di]);
                    assert(swept[j] == rest[j - di]);
                }
            }
        }
        if all_wf(p) {
            assert forall|i: int| 0 <= i < swept.len() implies swept[i].wf() by {
                let k = choose|k: int| 0 <= k < p.len() && p[k] == swept[i];
            }
        }
    }
}

/// Where the sorted insertion point lies once the neighbours are known.
pub proof fn lemma_insert_pos_at(p: Seq<RecordView>, id: u32, i: int)
    requires
        0 <= i <= p.len(),
        forall|j: int| 0 <= j < i ==> p[j].frame_id < id,
        i < p.len() ==> p[i].frame_id >= id,
    ensures
        insert_pos(p, id) == i,
    decreases p.len(),
{
    if p.len() > 0 && i > 0 {
        assert forall|j: int| 0 <= j < i - 1 implies p.skip(1)[j].frame_id < id by {
            assert(p.skip(1)[j] == p[j + 1]);
        }
        lemma_insert_pos_at(p.skip(1), id, i - 1);
    }
}

/// Bounding keeps a suffix: at most `max` records, pointwise from the tail.
pub proof fn lemma_bound_props(p: Seq<RecordView>, max: int)
    requires
        0 <= max,
    ensures
        spec_bound(p, max).len() == if p.len() <= max {
            p.len() as int
        } else {
            max
        },
        forall|i: int|
            0 <= i < spec_bound(p, max).len() ==> spec_bound(p, max)[i] == p[p.len() - spec_bound(
                p,
                max,
            ).len() + i],
        sorted_ids(p) ==> sorted_ids(spec_bound(p, max)),
        all_wf(p) ==> all_wf(spec_bound(p, max)),
{
}

impl Reassembler {
    /// Empty reassembly state with the given pending-set bound.
    pub fn new(max_pending: usize) -> (r: Reassembler)
        ensures
            r@.pending == Seq::<RecordView>::empty(),
            r@.last_completed_frame_id is None,
            r@.max_pending == max_pending as int,
            r@.wf(),
    {
        let r = Reassembler { pending: Vec::new(), last_completed_frame_id: None, max_pending };
        proof {
            assert(r@.pending =~= Seq::<RecordView>::empty());
        }
        r
    }

    /// The staleness gate's current threshold.
    pub fn last_completed(&self) -> (r: Option<u32>)
        ensures
            r == self@.last_completed_frame_id,
    {
        self.last_completed_frame_id
    }

    /// How many frames are mid-reassembly.
    pub fn pending_count(&self) -> (n: usize)
        ensures
            n as int == self@.pending.len(),
    {
        self.pending.len()
    }

    /// Whether a record for `id` is pending.
    pub fn has_pending(&self, id: u32) -> (r: bool)
        requires
            self@.wf(),
        ensures
            r == has_id(self@.pending, id),
    {
        let (found, _pos) = self.find_position(id);
        found
    }

    /// Locate `id` in the sorted pending list: `(true, i)` when record `i`
    /// carries `id`, else `(false, p)` with `p` the sorted insertion point.
    fn find_position(&self, id: u32) -> (r: (bool, usize))
        requires
            self@.wf(),
        ensures
            r.0 == has_id(self@.pending, id),
            r.1 <= self@.pending.len(),
            r.0 ==> r.1 < self@.pending.len() && self@.pending[r.1 as int].frame_id == id
                && index_of(self@.pending, id) == r.1 as int,
            !r.0 ==> insert_pos(self@.pending, id) == r.1 as int && (forall|j: int|
                0 <= j < r.1 ==> self@.pending[j].frame_id < id) && (forall|j: int|
                r.1 <= j < self@.pending.len() ==> self@.pending[j].frame_id > id),
    {
        let ghost p = self@.pending;
        let n = self.pending.len();
        let mut i: usize = 0;
        while i < n
            invariant
                i <= n,
                n == p.len(),
                p == self@.pending,
                sorted_ids(p),
                forall|j: int| 0 <= j < i ==> p[j].frame_id < id,
            decreases n - i,
        {
            let fid = self.pending[i].frame_id;
            proof {
                assert(fid == p[i as int].frame_id);
            }
            if fid == id {
                proof {
                    assert(has_id(p, id));
                    let k = index_of(p, id);
                    assert(0 <= k < p.len() && p[k].frame_id == id);
                    if k < i as int {
                        assert(p[k].frame_id < id);
                    } else if k > i as int {
                        assert(p[i as int].frame_id < p[k].frame_id);
                    }
                }
                return (true, i);
            }
            if fid > id {
                proof {
                    lemma_insert_pos_at(p, id, i as int);
                    assert forall|j: int| i <= j < p.len() implies p[j].frame_id > id by {
                        if j > i {
                            assert(p[i as int].frame_id < p[j].frame_id);
                        }
                    }
                    assert(!has_id(p, id)) by {
                        if has_id(p, id) {
                            let k = choose|k: int| 0 <= k < p.len() && p[k].frame_id == id;
                            assert(p[k].frame_id != id);
                        }
                    }
                }
                return (false, i);
            }
            i = i + 1;
        }
        proof {
            lemma_insert_pos_at(p, id, n as int);
            assert(!has_id(p, id)) by {
                if has_id(p, id) {
                    let k = choose|k: int| 0 <= k < p.len() && p[k].frame_id == id;
                    assert(p[k].frame_id != id);
                }
            }
        }
        (false, n)
    }

    /// Drop every pending record whose identifier is at or below `done_id`
    /// and every record that has outlived the timeout.
    fn sweep(&mut self, done_id: u32, now_ms: u64)
        ensures
            final(self)@.pending == spec_sweep(old(self)@.pending, done_id, now_ms),
            final(self)@.last_completed_frame_id == old(self)@.last_completed_frame_id,
            final(self)@.max_pending == old(self)@.max_pending,
    {
        let ghost orig = self@.pending;
        let mut kept: Vec<PendingFrame> = Vec::new();
        proof {
            assert(pviews(kept@) + spec_sweep(orig, done_id, now_ms) =~= spec_sweep(
                orig,
                done_id,
                now_ms,
            ));
        }
        while self.pending.len() > 0
            invariant
                spec_sweep(orig, done_id, now_ms) == pviews(kept@) + spec_sweep(
                    self@.pending,
                    done_id,
                    now_ms,
                ),
                self.last_completed_frame_id == old(self).last_completed_frame_id,
                self.max_pending == old(self).max_pending,
            decreases self@.pending.len(),
        {
            let ghost pv = self@.pending;
            let ghost kept_pre = kept@;
            let r = self.pending.remove(0);
            proof {
                assert(r@ == pv[0]);
                assert(self@.pending =~= pv.skip(1));
            }
            let keep_it = r.frame_id > done_id && !r.is_expired(now_ms);
            proof {
                assert(keep_it == spec_keep(pv[0], done_id, now_ms));
            }
            if keep_it {
                kept.push(r);
                proof {
                    assert(pviews(kept@) =~= pviews(kept_pre).push(r@));
                    assert(pviews(kept_pre).push(r@) + spec_sweep(pv.skip(1), done_id, now_ms)
                        =~= pviews(kept_pre) + (seq![pv[0]] + spec_sweep(
                        pv.skip(1),
                        done_id,
                        now_ms,
                    )));
                }
            }
        }
        self.pending = kept;
        proof {
            assert(pviews(kept@) + Seq::<RecordView>::empty() =~= pviews(kept@));
        }
    }

    /// Evict the numerically smallest pending identifiers until the set is
    /// within its bound.
    fn evict(&mut self)
        ensures
            final(self)@.pending == spec_bound(old(self)@.pending, old(self)@.max_pending),
            final(self)@.last_completed_frame_id == old(self)@.last_completed_frame_id,
            final(self)@.max_pending == old(self)@.max_pending,
    {
        let ghost orig = self@.pending;
        proof {
            assert(orig.skip(0) =~= orig);
        }
        while self.pending.len() > self.max_pending
            invariant
                self@.pending.len() <= orig.len(),
                self@.pending == orig.skip(orig.len() - self@.pending.len()),
                orig.len() <= self.max_pending as int ==> self@.pending.len() == orig.len(),
                orig.len() > self.max_pending as int ==> self@.pending.len()
                    >= self.max_pending as int,
                self.last_completed_frame_id == old(self).last_completed_frame_id,
                self.max_pending == old(self).max_pending,
            decreases self@.pending.len(),
        {
            let ghost pv = self@.pending;
            self.pending.remove(0);
            proof {
                assert(self@.pending =~= pv.skip(1));
                assert(pv.skip(1) =~= orig.skip(orig.len() - pv.len() + 1));
            }
        }
    }

    /// Feed one datagram; `now_ms` is the current monotonic time in
    /// milliseconds. Never fails: an undersized or stale datagram is
    /// dropped; a fragment is recorded once, whatever the arrival order; a
    /// completing fragment yields the reassembled frame when it opens with
    /// the start marker and a rejection otherwise — either way the
    /// staleness gate advances and the pending set is swept of older and
    /// timed-out records, then bounded by evicting the smallest
    /// identifiers.
    pub fn handle_datagram(&mut self, datagram: &[u8], now_ms: u64) -> (out: DatagramOutcome)
        requires
            old(self)@.wf(),
        ensures
            final(self)@.wf(),
            final(self)@.max_pending == old(self)@.max_pending,
            match out {
                DatagramOutcome::TooShort => datagram@.len() < UDP_HEADER_SIZE && final(self)@
                    == old(self)@,
                DatagramOutcome::Stale => datagram@.len() >= UDP_HEADER_SIZE && gate_blocks(
                    old(self)@.last_completed_frame_id,
                    header_of(datagram@).frame_id,
                ) && final(self)@ == old(self)@,
                DatagramOutcome::Stored => ({
                    let v = old(self)@;
                    let h = header_of(datagram@);
                    let payload = datagram@.skip(UDP_HEADER_SIZE as int);
                    &&& datagram@.len() >= UDP_HEADER_SIZE
                    &&& !gate_blocks(v.last_completed_frame_id, h.frame_id)
                    &&& !completes(v.pending, h, payload, now_ms)
                    &&& final(self)@.pending == store_incomplete(v.pending, h, payload, now_ms)
                    &&& final(self)@.last_completed_frame_id == v.last_completed_frame_id
                }),
                DatagramOutcome::Completed(f) => ({
                    let v = old(self)@;
                    let h = header_of(datagram@);
                    let payload = datagram@.skip(UDP_HEADER_SIZE as int);
                    &&& datagram@.len() >= UDP_HEADER_SIZE
                    &&& !gate_blocks(v.last_completed_frame_id, h.frame_id)
                    &&& completes(v.pending, h, payload, now_ms)
                    &&& f@ == completed_bytes(v.pending, h, payload, now_ms)
                    &&& crate::extract::is_start_at(f@, 0)
                    &&& final(self)@.pending == after_completion(
                        v.pending,
                        h,
                        now_ms,
                        v.max_pending,
                    )
                    &&& final(self)@.last_completed_frame_id == Some(h.frame_id)
                }),
                DatagramOutcome::Rejected => ({
                    let v = old(self)@;
                    let h = header_of(datagram@);
                    let payload = datagram@.skip(UDP_HEADER_SIZE as int);
                    &&& datagram@.len() >= UDP_HEADER_SIZE
                    &&& !gate_blocks(v.last_completed_frame_id, h.frame_id)
                    &&& completes(v.pending, h, payload, now_ms)
                    &&& !crate::extract::is_start_at(
                        completed_bytes(v.pending, h, payload, now_ms),
                        0,
                    )
                    &&& final(self)@.pending == after_completion(
                        v.pending,
                        h,
                        now_ms,
                        v.max_pending,
                    )
                    &&& final(self)@.last_completed_frame_id == Some(h.frame_id)
                }),
            },
    {
        let ghost v = old(self)@;
        let h = match parse_header(datagram) {
            Some(h) => h,
            None => {
                return DatagramOutcome::TooShort;
            },
        };
        match self.last_completed_frame_id {
            Some(last) => {
                if h.frame_id <= last {
                    return DatagramOutcome::Stale;
                }
            },
            None => {},
        }
        let mut payload: Vec<u8> = Vec::new();
        let mut k: usize = UDP_HEADER_SIZE;
        while k < datagram.len()
            invariant
                UDP_HEADER_SIZE as int <= k as int <= datagram@.len(),
                payload@ == datagram@.subrange(UDP_HEADER_SIZE as int, k as int),
            decreases datagram@.len() - k,
        {
            let b = datagram[k];
            payload.push(b);
            assert(payload@ =~= datagram@.subrange(UDP_HEADER_SIZE as int, (k + 1) as int));
            k = k + 1;
        }
        let ghost pl = payload@;
        proof {
            assert(pl =~= datagram@.skip(UDP_HEADER_SIZE as int));
        }

        let (found, pos) = self.find_position(h.frame_id);
        let ghost target = target_record(v.pending, h, now_ms);
        let mut rec: PendingFrame = if found {
            self.pending.remove(pos)
        } else {
            PendingFrame::new(h.frame_id, h.total_fragments, h.total_size, now_ms)
        };
        let ghost pending_without = self@.pending;
        proof {
            if found {
                assert(pending_without =~= v.pending.remove(index_of(v.pending, h.frame_id)));
            }
            assert(rec@ == target);
            assert(target.wf());
            lemma_record_wf(target, h.fragment_index, pl);
        }
        let complete = rec.add_fragment(h.fragment_index, payload);
        proof {
            assert(rec@ == target.record(h.fragment_index, pl));
            assert(complete == completes(v.pending, h, pl, now_ms));
        }
        if !complete {
            let ghost before_insert = self@.pending;
            self.pending.insert(pos, rec);
            proof {
                assert(self@.pending =~= before_insert.insert(pos as int, rec@));
                if found {
                    assert(self@.pending =~= v.pending.update(pos as int, rec@));
                    assert forall|a: int, b: int|
                        0 <= a < b < self@.pending.len() implies self@.pending[a].frame_id
                        < self@.pending[b].frame_id by {
                        assert(self@.pending[a].frame_id == v.pending[a].frame_id);
                        assert(self@.pending[b].frame_id == v.pending[b].frame_id);
                    }
                } else {
                    assert forall|a: int, b: int|
                        0 <= a < b < self@.pending.len() implies self@.pending[a].frame_id
                        < self@.pending[b].frame_id by {
                        if a < pos as int {
                            assert(self@.pending[a] == v.pending[a]);
                        } else if a == pos as int {
                            assert(self@.pending[a] == rec@);
                        } else {
                            assert(self@.pending[a] == v.pending[a - 1]);
                        }
                        if b < pos as int {
                            assert(self@.pending[b] == v.pending[b]);
                        } else if b == pos as int {
                            assert(self@.pending[b] == rec@);
                        } else {
                            assert(self@.pending[b] == v.pending[b - 1]);
                        }
                    }
                }
                assert(all_wf(self@.pending)) by {
                    assert forall|i: int| 0 <= i < self@.pending.len() implies self@.pending[i].wf()
                        by {
                        if i < pos as int {
                            assert(self@.pending[i] == v.pending[i]);
                        } else if i == pos as int {
                        } else {
                            if found {
                                assert(self@.pending[i] == v.pending[i]);
                            } else {
                                assert(self@.pending[i] == v.pending[i - 1]);
                            }
                        }
                    }
                }
                assert(gate_respected(self@.pending, v.last_completed_frame_id)) by {
                    match v.last_completed_frame_id {
                        Some(l) => {
                            assert forall|i: int|
                                0 <= i < self@.pending.len() implies self@.pending[i].frame_id
                                > l by {
                                if i < pos as int {
                                    assert(self@.pending[i] == v.pending[i]);
                                } else if i == pos as int {
                                    assert(self@.pending[i].frame_id == h.frame_id);
                                } else {
                                    if found {
                                        assert(self@.pending[i] == v.pending[i]);
                                    } else {
                                        assert(self@.pending[i] == v.pending[i - 1]);
                                    }
                                }
                            }
                        },
                        None => {},
                    }
                }
            }
            return DatagramOutcome::Stored;
        }

        let assembled = rec.assemble();
        let data: Vec<u8> = match assembled {
            Some(d) => d,
            None => {
                // Unreachable: a complete record has every slot filled.
                proof {
                    assert(false);
                }
                return DatagramOutcome::Stored;
            },
        };
        proof {
            assert(data@ == completed_bytes(v.pending, h, pl, now_ms));
            // The sorted remainder stays sorted and well formed after the
            // completed record leaves.
            if found {
                let i0 = index_of(v.pending, h.frame_id);
                assert forall|a: int, b: int|
                    0 <= a < b < pending_without.len() implies pending_without[a].frame_id
                    < pending_without[b].frame_id by {
                    assert(pending_without[a] == if a < i0 {
                        v.pending[a]
                    } else {
                        v.pending[a + 1]
                    });
                    assert(pending_without[b] == if b < i0 {
                        v.pending[b]
                    } else {
                        v.pending[b + 1]
                    });
                }
                assert forall|i: int|
                    0 <= i < pending_without.len() implies pending_without[i].wf() by {
                    assert(pending_without[i] == if i < i0 {
                        v.pending[i]
                    } else {
                        v.pending[i + 1]
                    });
                }
            }
            assert(sorted_ids(pending_without));
            assert(all_wf(pending_without));
        }
        self.last_completed_frame_id = Some(h.frame_id);
        self.sweep(h.frame_id, now_ms);
        self.evict();
        proof {
            let swept = spec_sweep(pending_without, h.frame_id, now_ms);
            lemma_sweep_props(pending_without, h.frame_id, now_ms);
            lemma_bound_props(swept, v.max_pending);
            assert(self@.pending == spec_bound(swept, v.max_pending));
            assert(self@.pending == after_completion(v.pending, h, now_ms, v.max_pending));
            assert(gate_respected(self@.pending, Some(h.frame_id))) by {
                assert forall|i: int|
                    0 <= i < self@.pending.len() implies self@.pending[i].frame_id > h.frame_id by {
                    assert(self@.pending[i] == swept[swept.len() - self@.pending.len() + i]);
                    assert(spec_keep(swept[swept.len() - self@.pending.len() + i], h.frame_id, now_ms));
                }
            }
        }
        if data.len() >= 2 && data[0] == 0xFF && data[1] == 0xD8 {
            DatagramOutcome::Completed(data)
        } else {
            proof {
                assert(!crate::extract::is_start_at(data@, 0));
            }
            DatagramOutcome::Rejected
        }
    }
}

pub proof fn lemma_count_filled_all_some(frags: Seq<Option<Seq<u8>>>)
    requires
        forall|i: int| 0 <= i < frags.len() ==> frags[i] is Some,
    ensures
        count_filled(frags) == frags.len(),
    decreases frags.len(),
{
    if frags.len() > 0 {
        assert forall|i: int| 0 <= i < frags.drop_last().len() implies frags.drop_last()[i]
            is Some by {
            assert(frags.drop_last()[i] == frags[i]);
        }
        lemma_count_filled_all_some(frags.drop_last());
        assert(frags.last() == frags[frags.len() - 1]);
    }
}

/// Deliver, in the order `order` lists their indices, the fragments that
/// `frags` holds per index.
pub open spec fn record_all(r: RecordView, frags: Seq<Seq<u8>>, order: Seq<u16>) -> RecordView
    decreases order.len(),
{
    if order.len() == 0 {
        r
    } else {
        record_all(r.record(order[0], frags[order[0] as int]), frags, order.skip(1))
    }
}

proof fn lemma_record_all_slots(r: RecordView, frags: Seq<Seq<u8>>, order: Seq<u16>)
    requires
        r.wf(),
        r.total_fragments as int == frags.len(),
        forall|k: int| 0 <= k < order.len() ==> (order[k] as int) < frags.len(),
        forall|i: int|
            0 <= i < frags.len() ==> (r.fragments[i] is None || r.fragments[i] == Some(frags[i])),
    ensures
        ({
            let r2 = record_all(r, frags, order);
            &&& r2.wf()
            &&& r2.total_fragments == r.total_fragments
            &&& r2.fragments.len() == r.fragments.len()
            &&& forall|i: int|
                0 <= i < frags.len() ==> (r2.fragments[i] is None || r2.fragments[i] == Some(
                    frags[i],
                ))
            &&& forall|i: int|
                0 <= i < frags.len() && r.fragments[i] is Some ==> r2.fragments[i] is Some
            &&& forall|k: int| 0 <= k < order.len() ==> r2.fragments[order[k] as int] is Some
        }),
    decreases order.len(),
{
    if order.len() > 0 {
        let idx = order[0];
        let data = frags[idx as int];
        let r1 = r.record(idx, data);
        lemma_record_wf(r, idx, data);
        assert forall|i: int|
            0 <= i < frags.len() implies (r1.fragments[i] is None || r1.fragments[i] == Some(
            frags[i],
        )) by {
            if i != idx as int {
                assert(r1.fragments[i] == r.fragments[i]);
            } else if idx < r.total_fragments && r.fragments[idx as int] is None {
                assert(r1.fragments[i] == Some(data));
            }
        }
        assert forall|k: int|
            0 <= k < order.skip(1).len() implies (order.skip(1)[k] as int) < frags.len() by {
            assert(order.skip(1)[k] == order[k + 1]);
        }
        lemma_record_all_slots(r1, frags, order.skip(1));
        let r2 = record_all(r, frags, order);
        assert(r2 == record_all(r1, frags, order.skip(1)));
        assert forall|k: int| 0 <= k < order.len() implies r2.fragments[order[k] as int]
            is Some by {
            if k == 0 {
                assert(idx < r.total_fragments);
                assert(r1.fragments[idx as int] is Some);
            } else {
                assert(order.skip(1)[k - 1] == order[k]);
            }
        }
    }
}

/// Reassembly correctness: split a frame into fragments and deliver them in
/// any order, duplicates included; once every index has been seen at least
/// once — each counted once toward completion — the record is complete and
/// reassembles the frame's bytes in index order.
pub proof fn lemma_reassembly_exact(
    frame_id: u32,
    total_size: u32,
    now_ms: u64,
    frags: Seq<Seq<u8>>,
    order: Seq<u16>,
)
    requires
        frags.len() <= u16::MAX,
        forall|k: int| 0 <= k < order.len() ==> (order[k] as int) < frags.len(),
        forall|i: u16| (i as int) < frags.len() ==> #[trigger] order.contains(i),
    ensures
        ({
            let r = record_all(
                RecordView::fresh(frame_id, frags.len() as u16, total_size, now_ms),
                frags,
                order,
            );
            &&& r.complete()
            &&& r.assembled() == crate::extract::concat_frames(frags)
        }),
{
    let r0 = RecordView::fresh(frame_id, frags.len() as u16, total_size, now_ms);
    assert(r0.fragments.len() == frags.len());
    lemma_count_filled_all_none(r0.fragments);
    assert(r0.wf());
    lemma_record_all_slots(r0, frags, order);
    let r = record_all(r0, frags, order);
    assert forall|i: int| 0 <= i < r.fragments.len() implies r.fragments[i] == Some(frags[i]) by {
        assert(order.contains(i as u16));
        let k = choose|k: int| 0 <= k < order.len() && order[k] == i as u16;
        assert(order[k] as int == i);
        assert(r.fragments[order[k] as int] is Some);
    }
    lemma_count_filled_all_some(r.fragments);
    lemma_assembled_matches(r.fragments, frags, frags.len() as int);
    assert(frags.take(frags.len() as int) =~= frags);
}

proof fn lemma_assembled_matches(slots: Seq<Option<Seq<u8>>>, frags: Seq<Seq<u8>>, n: int)
    requires
        slots.len() == frags.len(),
        0 <= n <= slots.len(),
        forall|i: int| 0 <= i < slots.len() ==> slots[i] == Some(frags[i]),
    ensures
        concat_opt(slots, n) == crate::extract::concat_frames(frags.take(n)),
    decreases n,
{
    if n == 0 {
        assert(frags.take(0) =~= Seq::<Seq<u8>>::empty());
    } else {
        lemma_assembled_matches(slots, frags, n - 1);
        crate::extract::lemma_concat_frames_snoc(frags.take(n - 1), frags[n - 1]);
        assert(frags.take(n) =~= frags.take(n - 1).push(frags[n - 1]));
        assert(opt_bytes(slots[n - 1]) == frags[n - 1]);
    }
}

/// Staleness-gate law: in any well-formed state where frame `done` has
/// completed — successfully or via failed verification — a datagram
/// identifier at or below `done` is gated out, and no pending record for it
/// exists either, so none can complete later.
pub proof fn lemma_staleness_gate(v: ReassemblerView, done: u32, id: u32)
    requires
        v.wf(),
        v.last_completed_frame_id == Some(done),
        id <= done,
    ensures
        gate_blocks(v.last_completed_frame_id, id),
        !has_id(v.pending, id),
{
    if has_id(v.pending, id) {
        let k = choose|k: int| 0 <= k < v.pending.len() && v.pending[k].frame_id == id;
        assert(v.pending[k].frame_id > done);
    }
}

/// Timeout law: the records that survive a sweep are exactly the pending
/// ones that are newer than the completed frame and not yet timed out; in
/// particular every timed-out record is purged, whatever its progress.
pub proof fn lemma_timeout_purges(p: Seq<RecordView>, done_id: u32, now_ms: u64, r: RecordView)
    ensures
        spec_sweep(p, done_id, now_ms).contains(r) <==> (p.contains(r) && r.frame_id > done_id
            && !r.expired(now_ms)),
{
    lemma_sweep_props(p, done_id, now_ms);
    if spec_sweep(p, done_id, now_ms).contains(r) {
        let i = choose|i: int|
            0 <= i < spec_sweep(p, done_id, now_ms).len() && spec_sweep(p, done_id, now_ms)[i]
                == r;
        assert(spec_keep(spec_sweep(p, done_id, now_ms)[i], done_id, now_ms));
    }
}

/// A record missing any fragment slot cannot be complete; a purged record
/// re-created from scratch therefore completes only from fragments that
/// arrive after its re-creation.
pub proof fn lemma_incomplete_record(r: RecordView, i: int)
    requires
        r.wf(),
        0 <= i < r.fragments.len(),
        r.fragments[i] is None,
    ensures
        !r.complete(),
{
    lemma_count_filled_slot_none(r.fragments, i);
}

/// Eviction law: bounding the pending set keeps at most `max` records,
/// leaves a set within the bound untouched, and every evicted identifier is
/// numerically smaller than every surviving one.
pub proof fn lemma_bound_evicts_smallest(p: Seq<RecordView>, max: int)
    requires
        sorted_ids(p),
        0 <= max,
    ensures
        spec_bound(p, max).len() <= max,
        p.len() <= max ==> spec_bound(p, max) == p,
        forall|i: int, j: int|
            0 <= i < p.len() - spec_bound(p, max).len() && p.len() - spec_bound(p, max).len() <= j
                < p.len() ==> p[i].frame_id < p[j].frame_id,
        forall|j: int|
            0 <= j < spec_bound(p, max).len() ==> spec_bound(p, max)[j] == p[p.len() - spec_bound(
                p,
                max,
            ).len() + j],
{
    lemma_bound_props(p, max);
}

} // verus!

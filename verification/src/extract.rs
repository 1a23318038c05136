//! Extracting marker-delimited JPEG frames from a raw byte stream.
//!
//! A frame is the inclusive byte span from a start marker `FF D8` to the
//! earliest end marker `FF D9` that begins at least two bytes later. The
//! extractor repeatedly takes the earliest such span out of an ingest
//! buffer, discarding any bytes that precede it; a size guard truncates the
//! buffer when it grows past a configured bound.

use vstd::prelude::*;

verus! {

/// Both markers open with this byte.
pub const MARKER_HEAD: u8 = 0xFF;
/// Second byte of the frame start marker.
pub const START_TAIL: u8 = 0xD8;
/// Second byte of the frame end marker.
pub const END_TAIL: u8 = 0xD9;

/// A two-byte marker `FF tail` begins at index `i` of `s`.
pub open spec fn is_marker_at(s: Seq<u8>, i: int, tail: u8) -> bool {
    &&& 0 <= i
    &&& i + 2 <= s.len()
    &&& s[i] == MARKER_HEAD
    &&& s[i + 1] == tail
}

pub open spec fn is_start_at(s: Seq<u8>, i: int) -> bool {
    is_marker_at(s, i, START_TAIL)
}

pub open spec fn is_end_at(s: Seq<u8>, i: int) -> bool {
    is_marker_at(s, i, END_TAIL)
}

/// Index of the earliest marker `FF tail` at or after `i`, if any.
pub open spec fn first_marker_from(s: Seq<u8>, i: int, tail: u8) -> Option<int>
    decreases s.len() - i,
{
    if i + 2 > s.len() {
        None
    } else if is_marker_at(s, i, tail) {
        Some(i)
    } else {
        first_marker_from(s, i + 1, tail)
    }
}

/// The earliest complete frame of `s`: `Some((start, end))` means the frame
/// is `s[start..end]`, where `start` is the earliest start marker and
/// `end - 2` the earliest end marker at or after `start + 2`.
pub open spec fn spec_find_frame(s: Seq<u8>) -> Option<(int, int)> {
    match first_marker_from(s, 0, START_TAIL) {
        None => None,
        Some(start) => match first_marker_from(s, start + 2, END_TAIL) {
            None => None,
            Some(e) => Some((start, e + 2)),
        },
    }
}

pub proof fn lemma_first_marker_some(s: Seq<u8>, i: int, k: int, tail: u8)
    requires
        first_marker_from(s, i, tail) == Some(k),
    ensures
        i <= k,
        is_marker_at(s, k, tail),
        forall|m: int| i <= m < k ==> !is_marker_at(s, m, tail),
    decreases s.len() - i,
{
    if i + 2 > s.len() {
        // first_marker_from(s, i, tail) is None: contradicts the requires.
    } else if is_marker_at(s, i, tail) {
        // k == i and the range below k is empty.
    } else {
        lemma_first_marker_some(s, i + 1, k, tail);
    }
}

pub proof fn lemma_first_marker_none(s: Seq<u8>, i: int, m: int, tail: u8)
    requires
        first_marker_from(s, i, tail) is None,
        i <= m,
    ensures
        !is_marker_at(s, m, tail),
    decreases s.len() - i,
{
    if i + 2 > s.len() {
        // Any m >= i also has m + 2 > s.len().
    } else if is_marker_at(s, i, tail) {
        // first_marker_from is Some: contradicts the requires.
    } else if m > i {
        lemma_first_marker_none(s, i + 1, m, tail);
    }
}

pub proof fn lemma_first_marker_at(s: Seq<u8>, i: int, k: int, tail: u8)
    requires
        i <= k,
        is_marker_at(s, k, tail),
        forall|m: int| i <= m < k ==> !is_marker_at(s, m, tail),
    ensures
        first_marker_from(s, i, tail) == Some(k),
    decreases k - i,
{
    if i < k {
        lemma_first_marker_at(s, i + 1, k, tail);
    }
}

pub proof fn lemma_no_marker_from(s: Seq<u8>, i: int, tail: u8)
    requires
        forall|m: int| i <= m ==> !is_marker_at(s, m, tail),
    ensures
        first_marker_from(s, i, tail) is None,
    decreases s.len() - i,
{
    if i + 2 <= s.len() {
        lemma_no_marker_from(s, i + 1, tail);
    }
}

/// What `spec_find_frame` means: the returned span is the earliest start
/// marker followed by the earliest end marker after it, and a `None` answer
/// rules out any start/end marker pair.
pub proof fn lemma_find_frame_props(s: Seq<u8>)
    ensures
        match spec_find_frame(s) {
            Some(p) => {
                &&& 0 <= p.0
                &&& p.0 + 4 <= p.1 <= s.len()
                &&& is_start_at(s, p.0)
                &&& is_end_at(s, p.1 - 2)
                &&& forall|m: int| m < p.0 ==> !is_start_at(s, m)
                &&& forall|m: int| p.0 + 2 <= m < p.1 - 2 ==> !is_end_at(s, m)
            },
            None => forall|i: int, j: int|
                !(is_start_at(s, i) && is_end_at(s, j) && i + 2 <= j),
        },
{
    match first_marker_from(s, 0, START_TAIL) {
        None => {
            assert forall|i: int, j: int|
                !(is_start_at(s, i) && is_end_at(s, j) && i + 2 <= j) by {
                if is_start_at(s, i) {
                    lemma_first_marker_none(s, 0, i, START_TAIL);
                }
            }
        },
        Some(start) => {
            lemma_first_marker_some(s, 0, start, START_TAIL);
            match first_marker_from(s, start + 2, END_TAIL) {
                None => {
                    assert forall|i: int, j: int|
                        !(is_start_at(s, i) && is_end_at(s, j) && i + 2 <= j) by {
                        if is_start_at(s, i) && is_end_at(s, j) && i + 2 <= j {
                            // No start marker precedes `start`, so j >= start + 2.
                            lemma_first_marker_none(s, start + 2, j, END_TAIL);
                        }
                    }
                },
                Some(e) => {
                    lemma_first_marker_some(s, start + 2, e, END_TAIL);
                },
            }
        },
    }
}

/// Find the earliest marker `FF tail` beginning at or after `from`.
fn find_marker_from(buffer: &[u8], from: usize, tail: u8) -> (r: Option<usize>)
    requires
        from <= buffer@.len(),
    ensures
        match r {
            Some(k) => {
                &&& first_marker_from(buffer@, from as int, tail) == Some(k as int)
                &&& from <= k
                &&& k + 2 <= buffer@.len()
            },
            None => first_marker_from(buffer@, from as int, tail) is None,
        },
{
    let n = buffer.len();
    let mut i: usize = from;
    loop
        invariant
            from <= i <= n,
            n == buffer@.len(),
            first_marker_from(buffer@, from as int, tail) == first_marker_from(
                buffer@,
                i as int,
                tail,
            ),
        decreases n - i,
    {
        if i >= n || i + 1 >= n {
            return None;
        }
        if buffer[i] == MARKER_HEAD && buffer[i + 1] == tail {
            return Some(i);
        }
        assert(!is_marker_at(buffer@, i as int, tail));
        i = i + 1;
    }
}

/// Locate the earliest complete frame in `buffer`: the first start marker,
/// then the first end marker starting at least two bytes past it. Returns
/// the frame's span as `(start, end)` with `end` exclusive.
pub fn find_jpeg_frame(buffer: &[u8]) -> (r: Option<(usize, usize)>)
    ensures
        match r {
            Some(p) => {
                &&& spec_find_frame(buffer@) == Some((p.0 as int, p.1 as int))
                &&& p.0 + 4 <= p.1 <= buffer@.len()
            },
            None => spec_find_frame(buffer@) is None,
        },
{
    let n = buffer.len();
    let start = match find_marker_from(buffer, 0, START_TAIL) {
        Some(k) => k,
        None => {
            return None;
        },
    };
    let e = match find_marker_from(buffer, start + 2, END_TAIL) {
        Some(k) => k,
        None => {
            return None;
        },
    };
    proof {
        lemma_first_marker_some(buffer@, start + 2, e as int, END_TAIL);
    }
    Some((start, e + 2))
}

/// Frames extracted greedily from `s`, in order, together with the
/// unconsumed rest of the buffer.
pub open spec fn spec_extract(s: Seq<u8>) -> (Seq<Seq<u8>>, Seq<u8>)
    decreases s.len(),
        via spec_extract_decreases
{
    match spec_find_frame(s) {
        Some(p) => {
            let rest = spec_extract(s.skip(p.1));
            (seq![s.subrange(p.0, p.1)] + rest.0, rest.1)
        },
        None => (Seq::empty(), s),
    }
}

#[via_fn]
proof fn spec_extract_decreases(s: Seq<u8>) {
    lemma_find_frame_props(s);
}

pub proof fn lemma_first_marker_append(s: Seq<u8>, t: Seq<u8>, i: int, tail: u8)
    requires
        first_marker_from(s, i, tail) is Some,
    ensures
        first_marker_from(s + t, i, tail) == first_marker_from(s, i, tail),
    decreases s.len() - i,
{
    if i + 2 > s.len() {
        // first_marker_from(s, i, tail) is None: contradicts the requires.
    } else if is_marker_at(s, i, tail) {
        assert(is_marker_at(s + t, i, tail));
    } else {
        assert(!is_marker_at(s + t, i, tail));
        lemma_first_marker_append(s, t, i + 1, tail);
    }
}

pub proof fn lemma_find_frame_append(s: Seq<u8>, t: Seq<u8>)
    requires
        spec_find_frame(s) is Some,
    ensures
        spec_find_frame(s + t) == spec_find_frame(s),
{
    match first_marker_from(s, 0, START_TAIL) {
        Some(start) => {
            lemma_first_marker_append(s, t, 0, START_TAIL);
            match first_marker_from(s, start + 2, END_TAIL) {
                Some(e) => {
                    lemma_first_marker_append(s, t, start + 2, END_TAIL);
                },
                None => {},
            }
        },
        None => {},
    }
}

/// Chunking independence: feeding a stream in two pieces extracts the same
/// frames as feeding it whole. Whatever `b` alone yields, `b + c` yields
/// that and then whatever the unconsumed rest of `b` followed by `c` yields.
pub proof fn lemma_extract_chunked(b: Seq<u8>, c: Seq<u8>)
    ensures
        spec_extract(b + c).0 == spec_extract(b).0 + spec_extract(spec_extract(b).1 + c).0,
        spec_extract(b + c).1 == spec_extract(spec_extract(b).1 + c).1,
    decreases b.len(),
{
    lemma_find_frame_props(b);
    match spec_find_frame(b) {
        None => {
            assert(spec_extract(b).1 + c =~= b + c);
            assert(spec_extract(b).0 + spec_extract(b + c).0 =~= spec_extract(b + c).0);
        },
        Some(p) => {
            lemma_find_frame_append(b, c);
            assert((b + c).subrange(p.0, p.1) =~= b.subrange(p.0, p.1));
            assert((b + c).skip(p.1) =~= b.skip(p.1) + c);
            lemma_extract_chunked(b.skip(p.1), c);
            assert(spec_extract(b + c).0 =~= spec_extract(b).0 + spec_extract(
                spec_extract(b).1 + c,
            ).0);
        },
    }
}

/// One well-formed frame: opens with the start marker, closes with the end
/// marker, and contains no earlier end marker the scanner could take for
/// the frame's close.
pub open spec fn wf_frame(f: Seq<u8>) -> bool {
    &&& f.len() >= 4
    &&& is_start_at(f, 0)
    &&& is_end_at(f, f.len() - 2)
    &&& forall|j: int| 2 <= j < f.len() - 2 ==> !is_end_at(f, j)
}

/// No start marker occurs anywhere in `s`.
pub open spec fn start_free(s: Seq<u8>) -> bool {
    forall|i: int| !is_start_at(s, i)
}

pub open spec fn concat_frames(fs: Seq<Seq<u8>>) -> Seq<u8>
    decreases fs.len(),
{
    if fs.len() == 0 {
        Seq::empty()
    } else {
        fs[0] + concat_frames(fs.skip(1))
    }
}

pub proof fn lemma_concat_frames_snoc(fs: Seq<Seq<u8>>, x: Seq<u8>)
    ensures
        concat_frames(fs.push(x)) == concat_frames(fs) + x,
    decreases fs.len(),
{
    let g = fs.push(x);
    assert(concat_frames(g) == g[0] + concat_frames(g.skip(1)));
    if fs.len() == 0 {
        assert(g[0] == x);
        assert(g.skip(1) =~= Seq::<Seq<u8>>::empty());
        assert(concat_frames(Seq::<Seq<u8>>::empty()) == Seq::<u8>::empty());
        assert(concat_frames(g) =~= concat_frames(fs) + x);
    } else {
        assert(g[0] == fs[0]);
        assert(g.skip(1) =~= fs.skip(1).push(x));
        lemma_concat_frames_snoc(fs.skip(1), x);
        assert(concat_frames(g.skip(1)) == concat_frames(fs.skip(1).push(x)));
        assert(concat_frames(fs) == fs[0] + concat_frames(fs.skip(1)));
        assert(concat_frames(g) =~= concat_frames(fs) + x);
    }
}

/// The extractor is exact on well-formed streams: a prefix free of start
/// markers followed by any well-formed frames yields exactly those frames,
/// in order and byte for byte, consuming everything once at least one frame
/// is present.
pub proof fn lemma_extract_exact(prefix: Seq<u8>, frames: Seq<Seq<u8>>)
    requires
        start_free(prefix),
        forall|k: int| 0 <= k < frames.len() ==> wf_frame(#[trigger] frames[k]),
    ensures
        spec_extract(prefix + concat_frames(frames)).0 == frames,
        frames.len() > 0 ==> spec_extract(prefix + concat_frames(frames)).1 == Seq::<u8>::empty(),
        frames.len() == 0 ==> spec_extract(prefix + concat_frames(frames)).1 == prefix,
    decreases frames.len(),
{
    let s = prefix + concat_frames(frames);
    if frames.len() == 0 {
        assert(s =~= prefix);
        assert forall|m: int| true implies !is_marker_at(s, m, START_TAIL) by {
            assert(!is_start_at(prefix, m));
        }
        lemma_no_marker_from(s, 0, START_TAIL);
        assert(spec_extract(s).0 =~= frames);
    } else {
        let f = frames[0];
        let rest = frames.skip(1);
        let pl = prefix.len() as int;
        let fl = f.len() as int;
        assert(wf_frame(f));
        assert(concat_frames(frames) == f + concat_frames(rest));
        assert(s.len() == pl + fl + concat_frames(rest).len());
        // The earliest start marker sits exactly where the first frame begins.
        assert(is_marker_at(s, pl, START_TAIL)) by {
            assert(s[pl] == f[0] && s[pl + 1] == f[1]);
        }
        assert forall|m: int| 0 <= m < pl implies !is_marker_at(s, m, START_TAIL) by {
            if m < pl - 1 {
                assert(s[m] == prefix[m] && s[m + 1] == prefix[m + 1]);
                assert(!is_start_at(prefix, m));
            } else {
                // The byte after the prefix is the marker head, not its tail.
                assert(s[m + 1] == f[0] && f[0] == MARKER_HEAD);
            }
        }
        lemma_first_marker_at(s, 0, pl, START_TAIL);
        // The earliest end marker after it closes that same frame.
        assert(is_marker_at(s, pl + fl - 2, END_TAIL)) by {
            assert(s[pl + fl - 2] == f[fl - 2] && s[pl + fl - 1] == f[fl - 1]);
        }
        assert forall|m: int| pl + 2 <= m < pl + fl - 2 implies !is_marker_at(s, m, END_TAIL) by {
            assert(s[m] == f[m - pl] && s[m + 1] == f[m - pl + 1]);
            assert(!is_end_at(f, m - pl));
        }
        lemma_first_marker_at(s, pl + 2, pl + fl - 2, END_TAIL);
        assert(spec_find_frame(s) == Some((pl, pl + fl)));
        assert(s.subrange(pl, pl + fl) =~= f);
        assert(s.skip(pl + fl) =~= Seq::<u8>::empty() + concat_frames(rest));
        assert forall|k: int| 0 <= k < rest.len() implies wf_frame(#[trigger] rest[k]) by {
            assert(rest[k] == frames[k + 1]);
        }
        lemma_extract_exact(Seq::empty(), rest);
        assert(spec_extract(s).0 =~= frames);
    }
}

/// Index of the last start marker strictly below position `i`, if any.
pub open spec fn last_start_before(s: Seq<u8>, i: int) -> Option<int>
    decreases i,
{
    if i <= 0 {
        None
    } else if is_start_at(s, i - 1) {
        Some(i - 1)
    } else {
        last_start_before(s, i - 1)
    }
}

/// The overflow guard: a buffer grown past `max` keeps only the bytes from
/// its last start marker on, or nothing when no start marker remains.
pub open spec fn apply_guard(s: Seq<u8>, max: int) -> Seq<u8> {
    if s.len() <= max {
        s
    } else {
        match last_start_before(s, s.len() as int) {
            Some(p) => s.skip(p),
            None => Seq::empty(),
        }
    }
}

pub proof fn lemma_last_start_props(s: Seq<u8>, i: int)
    ensures
        match last_start_before(s, i) {
            Some(p) => is_start_at(s, p) && p < i && forall|m: int| p < m < i ==> !is_start_at(
                s,
                m,
            ),
            None => forall|m: int| m < i ==> !is_start_at(s, m),
        },
    decreases i,
{
    if i <= 0 {
    } else if is_start_at(s, i - 1) {
    } else {
        lemma_last_start_props(s, i - 1);
    }
}

/// Overflow on a start-marker-free buffer clears it entirely.
pub proof fn lemma_guard_clears(s: Seq<u8>, max: int)
    requires
        start_free(s),
        s.len() > max,
    ensures
        apply_guard(s, max) == Seq::<u8>::empty(),
{
    lemma_last_start_props(s, s.len() as int);
    match last_start_before(s, s.len() as int) {
        Some(p) => {
            assert(false);
        },
        None => {},
    }
}

/// Overflow on a buffer that still holds a start marker keeps exactly the
/// bytes from the last such marker onward.
pub proof fn lemma_guard_keeps_tail(s: Seq<u8>, max: int)
    requires
        s.len() > max,
        exists|i: int| is_start_at(s, i),
    ensures
        last_start_before(s, s.len() as int) is Some,
        ({
            let p = last_start_before(s, s.len() as int)->0;
            &&& apply_guard(s, max) == s.skip(p)
            &&& is_start_at(s, p)
            &&& forall|m: int| m > p ==> !is_start_at(s, m)
        }),
{
    lemma_last_start_props(s, s.len() as int);
    match last_start_before(s, s.len() as int) {
        Some(p) => {
            assert forall|m: int| m > p implies !is_start_at(s, m) by {
                if is_start_at(s, m) {
                    assert(m + 2 <= s.len());
                }
            }
        },
        None => {
            let i = choose|i: int| is_start_at(s, i);
            assert(i < s.len());
            assert(false);
        },
    }
}

/// The byte sequences a batch of extracted frames holds.
pub open spec fn views_of(frames: Seq<Vec<u8>>) -> Seq<Seq<u8>> {
    frames.map_values(|f: Vec<u8>| f@)
}

/// Find the last start marker in `v`, scanning from the tail.
fn find_last_start(v: &Vec<u8>) -> (r: Option<usize>)
    ensures
        match r {
            Some(p) => last_start_before(v@, v@.len() as int) == Some(p as int) && p + 2
                <= v@.len(),
            None => last_start_before(v@, v@.len() as int) is None,
        },
{
    let n = v.len();
    let mut i: usize = n;
    loop
        invariant
            i <= n,
            n == v@.len(),
            last_start_before(v@, n as int) == last_start_before(v@, i as int),
        decreases i,
    {
        if i == 0 {
            return None;
        }
        if i < n && v[i - 1] == MARKER_HEAD && v[i] == START_TAIL {
            return Some(i - 1);
        }
        proof {
            assert(!is_start_at(v@, i - 1));
        }
        i = i - 1;
    }
}

/// The mutable byte buffer one producer connection feeds; it accumulates
/// reads, surrenders every complete frame, and never holds more than
/// `max_size` bytes once a call returns.
pub struct IngestBuffer {
    pub buf: Vec<u8>,
    pub max_size: usize,
}

impl IngestBuffer {
    pub fn new(max_size: usize) -> (r: IngestBuffer)
        ensures
            r.buf@ == Seq::<u8>::empty(),
            r.max_size == max_size,
    {
        IngestBuffer { buf: Vec::new(), max_size }
    }

    /// Append one read's worth of bytes, extract every complete frame the
    /// buffer now holds, in stream order, and run the overflow guard on what
    /// remains.
    pub fn push_bytes(&mut self, data: &[u8]) -> (frames: Vec<Vec<u8>>)
        ensures
            ({
                let stream = old(self).buf@ + data@;
                &&& views_of(frames@) == spec_extract(stream).0
                &&& final(self).buf@ == apply_guard(
                    spec_extract(stream).1,
                    old(self).max_size as int,
                )
                &&& final(self).max_size == old(self).max_size
            }),
    {
        let ghost stream = self.buf@ + data@;
        let ghost buf0 = self.buf@;
        let mut k: usize = 0;
        while k < data.len()
            invariant
                k <= data@.len(),
                self.buf@ == buf0 + data@.subrange(0, k as int),
                self.max_size == old(self).max_size,
            decreases data@.len() - k,
        {
            let b = data[k];
            self.buf.push(b);
            assert(self.buf@ =~= buf0 + data@.subrange(0, (k + 1) as int));
            k = k + 1;
        }
        assert(self.buf@ =~= stream);

        let mut frames: Vec<Vec<u8>> = Vec::new();
        loop
            invariant
                views_of(frames@) + spec_extract(self.buf@).0 == spec_extract(stream).0,
                spec_extract(self.buf@).1 == spec_extract(stream).1,
                self.max_size == old(self).max_size,
            ensures
                spec_find_frame(self.buf@) is None,
                views_of(frames@) + spec_extract(self.buf@).0 == spec_extract(stream).0,
                spec_extract(self.buf@).1 == spec_extract(stream).1,
                self.max_size == old(self).max_size,
            decreases self.buf@.len(),
        {
            let found = find_jpeg_frame(self.buf.as_slice());
            match found {
                None => {
                    break ;
                },
                Some((start, end)) => {
                    proof {
                        lemma_find_frame_props(self.buf@);
                    }
                    let ghost pre = self.buf@;
                    let ghost frames_pre = frames@;
                    let mut frame: Vec<u8> = Vec::new();
                    let mut i: usize = start;
                    while i < end
                        invariant
                            start <= i <= end,
                            end <= self.buf@.len(),
                            self.buf@ == pre,
                            frame@ == pre.subrange(start as int, i as int),
                        decreases end - i,
                    {
                        let b = self.buf[i];
                        frame.push(b);
                        assert(frame@ =~= pre.subrange(start as int, (i + 1) as int));
                        i = i + 1;
                    }
                    let mut rest: Vec<u8> = Vec::new();
                    let mut j: usize = end;
                    while j < self.buf.len()
                        invariant
                            end <= j <= self.buf@.len(),
                            self.buf@ == pre,
                            rest@ == pre.subrange(end as int, j as int),
                        decreases self.buf@.len() - j,
                    {
                        let b = self.buf[j];
                        rest.push(b);
                        assert(rest@ =~= pre.subrange(end as int, (j + 1) as int));
                        j = j + 1;
                    }
                    proof {
                        assert(frame@ == pre.subrange(start as int, end as int));
                        assert(rest@ =~= pre.skip(end as int));
                    }
                    frames.push(frame);
                    self.buf = rest;
                    proof {
                        assert(views_of(frames@) =~= views_of(frames_pre).push(frame@));
                        assert(spec_extract(pre).0 == seq![
                            pre.subrange(start as int, end as int),
                        ] + spec_extract(pre.skip(end as int)).0);
                        assert(views_of(frames@) + spec_extract(self.buf@).0 =~= views_of(
                            frames_pre,
                        ) + spec_extract(pre).0);
                    }
                },
            }
        }
        proof {
            assert(spec_extract(self.buf@).0 == Seq::<Seq<u8>>::empty());
            assert(views_of(frames@) =~= views_of(frames@) + spec_extract(self.buf@).0);
            assert(spec_extract(self.buf@).1 == self.buf@);
        }

        if self.buf.len() > self.max_size {
            let found = find_last_start(&self.buf);
            let ghost pre = self.buf@;
            match found {
                Some(pos) => {
                    let mut kept: Vec<u8> = Vec::new();
                    let mut j: usize = pos;
                    while j < self.buf.len()
                        invariant
                            pos <= j <= self.buf@.len(),
                            self.buf@ == pre,
                            kept@ == pre.subrange(pos as int, j as int),
                        decreases self.buf@.len() - j,
                    {
                        let b = self.buf[j];
                        kept.push(b);
                        assert(kept@ =~= pre.subrange(pos as int, (j + 1) as int));
                        j = j + 1;
                    }
                    self.buf = kept;
                    proof {
                        assert(self.buf@ =~= pre.skip(pos as int));
                    }
                },
                None => {
                    self.buf.clear();
                },
            }
        }
        frames
    }
}

} // verus!

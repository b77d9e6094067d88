use vstd::prelude::*;
use crate::anchor::{
    AnchorWindow, anchors, copy_range, extract_anchors, lemma_anchors_from_wf,
    lemma_padding_has_no_anchors, window_at, windows_view, PADDING, STRIDE, WINDOW_LEN,
};
use crate::search::{first_occurrence, search};

verus! {

/// Why a comparison was refused.
#[derive(PartialEq, Eq, Structural, Debug, Clone, Copy)]
pub enum CompareError {
    /// The two buffers differ in length.
    LengthMismatch,
    /// The chunk size is zero or odd.
    InvalidChunkSize,
}

/// A chunk size is usable when it is even and positive.
pub open spec fn valid_chunk_size(c: int) -> bool {
    c > 0 && c % 2 == 0
}

/// The records produced by the patterns of `rest`, taken `c` bytes at a time
/// (the last one possibly shorter), when the next accepted pattern is
/// expected at `expected`. A pattern is accepted when its first occurrence
/// in `target` is at or after `expected`; each acceptance moves the
/// expectation forward by one `STRIDE`.
pub open spec fn window_records(target: Seq<u8>, rest: Seq<u8>, c: int, expected: int) -> Seq<
    (int, int),
>
    decreases rest.len(),
{
    if rest.len() == 0 || c <= 0 {
        seq![]
    } else {
        let pat = if rest.len() <= c {
            rest
        } else {
            rest.take(c)
        };
        let tail = if rest.len() <= c {
            Seq::empty()
        } else {
            rest.skip(c)
        };
        match first_occurrence(target, pat) {
            Some(p) => if p >= expected {
                seq![(expected, p - expected)] + window_records(target, tail, c, expected + STRIDE)
            } else {
                window_records(target, tail, c, expected)
            },
            None => window_records(target, tail, c, expected),
        }
    }
}

/// The records of a sequence of windows `(origin, bytes)`, window after window.
pub open spec fn records_of(target: Seq<u8>, ws: Seq<(int, Seq<u8>)>, c: int) -> Seq<(int, int)>
    decreases ws.len(),
{
    if ws.len() == 0 {
        seq![]
    } else {
        window_records(target, ws[0].1, c, ws[0].0) + records_of(target, ws.skip(1), c)
    }
}

/// The displacement records of comparing `reference` against `target`.
pub open spec fn correlation(reference: Seq<u8>, target: Seq<u8>, c: int) -> Seq<(int, int)> {
    records_of(target, anchors(reference), c)
}

/// The records `(original_offset, shift)` as pairs of integers.
pub open spec fn records_view(v: Seq<(usize, u128)>) -> Seq<(int, int)> {
    v.map_values(|x: (usize, u128)| (x.0 as int, x.1 as int))
}

/// What `compare` returns for the given inputs.
pub open spec fn compare_result(
    chunk_size: int,
    reference: Seq<u8>,
    target: Seq<u8>,
    r: Result<Vec<(usize, u128)>, CompareError>,
) -> bool {
    if reference.len() != target.len() {
        r == Err::<Vec<(usize, u128)>, CompareError>(CompareError::LengthMismatch)
    } else if !valid_chunk_size(chunk_size) {
        r == Err::<Vec<(usize, u128)>, CompareError>(CompareError::InvalidChunkSize)
    } else {
        r matches Ok(v) && records_view(v@) == correlation(reference, target, chunk_size)
    }
}

/// Searches `target` for each pattern of `window` and appends the accepted
/// records to `out`. The first accepted pattern is attributed to the
/// window's origin, each further one to the next `STRIDE` after it; a
/// pattern that is missing, or first found before its expected offset, is
/// skipped.
pub fn correlate_window(
    target: &Vec<u8>,
    window: &AnchorWindow,
    chunk_size: usize,
    out: &mut Vec<(usize, u128)>,
)
    requires
        chunk_size > 0,
        window.origin <= target.len(),
    ensures
        records_view(final(out)@) == records_view(old(out)@) + window_records(
            target@,
            window.bytes@,
            chunk_size as int,
            window.origin as int,
        ),
{
    let ghost c = chunk_size as int;
    let ghost start_out = out@;
    let bytes = &window.bytes;
    let blen: usize = bytes.len();
    let mut expected: u128 = window.origin as u128;
    let mut start: usize = 0;
    proof {
        assert(bytes@.skip(0) =~= bytes@);
    }
    while start < blen
        invariant
            blen == bytes@.len(),
            start <= blen,
            chunk_size > 0,
            c == chunk_size as int,
            expected <= target@.len() + STRIDE,
            records_view(out@) + window_records(target@, bytes@.skip(start as int), c, expected as int)
                == records_view(start_out) + window_records(
                target@,
                bytes@,
                c,
                window.origin as int,
            ),
        decreases blen - start,
    {
        let ghost before = out@;
        let ghost rest = bytes@.skip(start as int);
        let end: usize = if blen - start > chunk_size {
            start + chunk_size
        } else {
            blen
        };
        let pattern = copy_range(bytes, start, end);
        proof {
            if rest.len() <= c {
                assert(pattern@ =~= rest);
                assert(bytes@.skip(end as int) =~= Seq::<u8>::empty());
            } else {
                assert(pattern@ =~= rest.take(c));
                assert(bytes@.skip(end as int) =~= rest.skip(c));
            }
        }
        let found = search(target, &pattern);
        match found {
            Some(p) => {
                if p as u128 >= expected {
                    let rec: (usize, u128) = (expected as usize, p as u128 - expected);
                    out.push(rec);
                    proof {
                        assert(records_view(out@) =~= records_view(before) + seq![
                            (expected as int, p - expected),
                        ]);
                    }
                    expected = expected + STRIDE as u128;
                }
            },
            None => {},
        }
        start = end;
    }
    proof {
        assert(bytes@.skip(blen as int) =~= Seq::<u8>::empty());
        assert(records_view(out@) + Seq::<(int, int)>::empty() =~= records_view(out@));
    }
}

/// Compares `reference` against `target`, splitting each anchor window of
/// `reference` into patterns of `chunk_size` bytes, and returns the
/// accepted `(original_offset, shift)` records in window order. Buffers of
/// different lengths, or a chunk size that is zero or odd, are refused with
/// an error.
pub fn compare(chunk_size: usize, reference: &Vec<u8>, target: &Vec<u8>) -> (r: Result<
    Vec<(usize, u128)>,
    CompareError,
>)
    ensures
        compare_result(chunk_size as int, reference@, target@, r),
        r is Err <==> reference.len() != target.len() || !valid_chunk_size(chunk_size as int),
        reference.len() != target.len() ==> r == Err::<Vec<(usize, u128)>, CompareError>(
            CompareError::LengthMismatch,
        ),
        reference.len() == target.len() && !valid_chunk_size(chunk_size as int) ==> r == Err::<
            Vec<(usize, u128)>,
            CompareError,
        >(CompareError::InvalidChunkSize),
        r matches Ok(v) ==> records_view(v@) == correlation(reference@, target@, chunk_size as int),
{
    if reference.len() != target.len() {
        return Err(CompareError::LengthMismatch);
    }
    if chunk_size == 0 || chunk_size % 2 != 0 {
        return Err(CompareError::InvalidChunkSize);
    }
    let ws = extract_anchors(reference);
    let ghost wv = windows_view(ws@);
    let mut out: Vec<(usize, u128)> = Vec::new();
    let mut k: usize = 0;
    proof {
        assert(wv.skip(0) =~= wv);
        assert(records_view(out@) =~= Seq::<(int, int)>::empty());
    }
    while k < ws.len()
        invariant
            k <= ws@.len(),
            wv == windows_view(ws@),
            wv == anchors(reference@),
            reference@.len() == target@.len(),
            chunk_size > 0,
            forall|i: int| 0 <= i < ws@.len() ==> (#[trigger] ws@[i]).origin < reference@.len(),
            records_view(out@) + records_of(target@, wv.skip(k as int), chunk_size as int)
                == records_of(target@, wv, chunk_size as int),
        decreases ws@.len() - k,
    {
        let ghost before = out@;
        let ghost rest = wv.skip(k as int);
        correlate_window(target, &ws[k], chunk_size, &mut out);
        proof {
            assert(rest[0] == ws@[k as int]@);
            assert(rest.skip(1) =~= wv.skip(k + 1));
            assert(records_view(out@) + records_of(target@, wv.skip(k + 1), chunk_size as int)
                =~= records_view(before) + records_of(target@, rest, chunk_size as int));
        }
        k += 1;
    }
    proof {
        assert(wv.skip(ws@.len() as int) =~= Seq::<(int, Seq<u8>)>::empty());
        assert(records_view(out@) + Seq::<(int, int)>::empty() =~= records_view(out@));
    }
    Ok(out)
}

/// Comparing the same inputs twice gives the same outcome: the same error,
/// or the same records in the same order.
pub proof fn lemma_compare_deterministic(
    chunk_size: int,
    reference: Seq<u8>,
    target: Seq<u8>,
    r1: Result<Vec<(usize, u128)>, CompareError>,
    r2: Result<Vec<(usize, u128)>, CompareError>,
)
    requires
        compare_result(chunk_size, reference, target, r1),
        compare_result(chunk_size, reference, target, r2),
    ensures
        match (r1, r2) {
            (Ok(v1), Ok(v2)) => v1@ == v2@,
            (Err(e1), Err(e2)) => e1 == e2,
            _ => false,
        },
{
    if let (Ok(v1), Ok(v2)) = (r1, r2) {
        let s1 = records_view(v1@);
        let s2 = records_view(v2@);
        assert(s1 == s2);
        assert(v1@.len() == s1.len() && v2@.len() == s2.len());
        assert forall|i: int| 0 <= i < v1@.len() implies v1@[i] == v2@[i] by {
            assert(s1[i] == (v1@[i].0 as int, v1@[i].1 as int));
            assert(s2[i] == (v2@[i].0 as int, v2@[i].1 as int));
        }
        assert(v1@ =~= v2@);
    }
}

/// A reference buffer made only of padding bytes has no anchor window, so
/// comparing it against any target yields no record.
pub proof fn lemma_all_padding_yields_nothing(reference: Seq<u8>, target: Seq<u8>, chunk_size: int)
    requires
        forall|k: int| 0 <= k < reference.len() ==> reference[k] == PADDING,
    ensures
        anchors(reference) == Seq::<(int, Seq<u8>)>::empty(),
        correlation(reference, target, chunk_size) == Seq::<(int, int)>::empty(),
{
    lemma_padding_has_no_anchors(reference, 0);
}

/// The pattern of window `w` that starts at `s`, for chunk size `c`.
pub open spec fn chunk_at(w: Seq<u8>, s: int, c: int) -> Seq<u8> {
    w.subrange(s, if s + c <= w.len() { s + c } else { w.len() as int })
}

/// Every pattern of window `w` (origin `o`) first occurs in `b` at its own
/// place, `o` plus its start within the window.
pub open spec fn patterns_found_at_home(b: Seq<u8>, o: int, w: Seq<u8>, c: int) -> bool {
    forall|s: int|
        0 <= s < w.len() && s % c == 0 ==> first_occurrence(b, #[trigger] chunk_at(w, s, c))
            == Some(o + s)
}

/// Chunk sizes for which each accepted pattern starts exactly on a stride.
pub open spec fn stride_aligned_chunk(c: int) -> bool {
    c == 2 || c == 4 || c == 8 || c >= WINDOW_LEN
}

proof fn lemma_window_zero_shift(b: Seq<u8>, o: int, w: Seq<u8>, c: int, s: int, expected: int)
    requires
        stride_aligned_chunk(c),
        w.len() <= WINDOW_LEN,
        0 <= s <= w.len(),
        s % c == 0,
        expected >= o + s,
        (expected - o - s) % c == 0,
        patterns_found_at_home(b, o, w, c),
    ensures
        forall|k: int|
            0 <= k < window_records(b, w.skip(s), c, expected).len() ==> (#[trigger] window_records(
                b,
                w.skip(s),
                c,
                expected,
            )[k]).1 == 0,
    decreases w.len() - s,
{
    let rest = w.skip(s);
    if rest.len() > 0 {
        assert(first_occurrence(b, chunk_at(w, s, c)) == Some(o + s));
        if rest.len() <= c {
            assert(rest =~= chunk_at(w, s, c));
            assert(window_records(b, Seq::<u8>::empty(), c, expected) == Seq::<(int, int)>::empty());
            assert(window_records(b, Seq::<u8>::empty(), c, expected + STRIDE) == Seq::<
                (int, int),
            >::empty());
            let all = window_records(b, rest, c, expected);
            if o + s >= expected {
                assert(all =~= seq![(expected, 0int)]);
            } else {
                assert(all =~= Seq::<(int, int)>::empty());
            }
        } else {
            assert(rest.take(c) =~= chunk_at(w, s, c));
            assert(rest.skip(c) =~= w.skip(s + c));
            let x = expected - o - s;
            if x == 0 {
                assert((expected + STRIDE - o - (s + c)) % c == 0 && (s + c) % c == 0) by {
                    assert(c == 2 || c == 4 || c == 8);
                }
                lemma_window_zero_shift(b, o, w, c, s + c, expected + STRIDE);
                let tail = window_records(b, w.skip(s + c), c, expected + STRIDE);
                let all = window_records(b, rest, c, expected);
                assert(all == seq![(expected, 0int)] + tail);
                assert forall|k: int| 0 <= k < all.len() implies (#[trigger] all[k]).1 == 0 by {
                    if k > 0 {
                        assert(all[k] == tail[k - 1]);
                    }
                }
            } else {
                assert(x >= c && (x - c) % c == 0 && (s + c) % c == 0) by {
                    assert(c == 2 || c == 4 || c == 8);
                }
                lemma_window_zero_shift(b, o, w, c, s + c, expected);
                assert(window_records(b, rest, c, expected) == window_records(
                    b,
                    w.skip(s + c),
                    c,
                    expected,
                ));
            }
        }
    }
}

proof fn lemma_records_zero_shift(b: Seq<u8>, ws: Seq<(int, Seq<u8>)>, c: int)
    requires
        stride_aligned_chunk(c),
        forall|k: int|
            0 <= k < ws.len() ==> (#[trigger] ws[k]).1.len() <= WINDOW_LEN && patterns_found_at_home(
                b,
                ws[k].0,
                ws[k].1,
                c,
            ),
    ensures
        forall|k: int|
            0 <= k < records_of(b, ws, c).len() ==> (#[trigger] records_of(b, ws, c)[k]).1 == 0,
    decreases ws.len(),
{
    if ws.len() > 0 {
        let w = ws[0];
        assert(w.1.skip(0) =~= w.1);
        lemma_window_zero_shift(b, w.0, w.1, c, 0, w.0);
        let rest = ws.skip(1);
        assert forall|k: int| 0 <= k < rest.len() implies (#[trigger] rest[k]).1.len() <= WINDOW_LEN
            && patterns_found_at_home(b, rest[k].0, rest[k].1, c) by {
            assert(rest[k] == ws[k + 1]);
        }
        lemma_records_zero_shift(b, rest, c);
        let head = window_records(b, w.1, c, w.0);
        let all = records_of(b, ws, c);
        assert(all == head + records_of(b, rest, c));
        assert forall|k: int| 0 <= k < all.len() implies (#[trigger] all[k]).1 == 0 by {
            if k >= head.len() {
                assert(all[k] == records_of(b, rest, c)[k - head.len()]);
            }
        }
    }
}

/// Comparing a buffer against itself yields only records of shift zero,
/// provided that the chunk size is 2, 4 or 8 (it divides the stride) or
/// covers a whole window, and that every pattern of every stride-aligned
/// window first occurs in the buffer at its own place. Without these
/// conditions a self-comparison can report a non-zero shift.
pub proof fn lemma_self_compare_zero_shift(b: Seq<u8>, c: int)
    requires
        stride_aligned_chunk(c),
        forall|o: int|
            0 <= o < b.len() && o % (STRIDE as int) == 0 ==> patterns_found_at_home(
                b,
                o,
                #[trigger] window_at(b, o),
                c,
            ),
    ensures
        forall|k: int|
            0 <= k < correlation(b, b, c).len() ==> (#[trigger] correlation(b, b, c)[k]).1 == 0,
{
    let ws = anchors(b);
    lemma_anchors_from_wf(b, 0);
    assert forall|k: int| 0 <= k < ws.len() implies (#[trigger] ws[k]).1.len() <= WINDOW_LEN
        && patterns_found_at_home(b, ws[k].0, ws[k].1, c) by {
        let (o, w) = ws[k];
        assert(w == window_at(b, o));
    }
    lemma_records_zero_shift(b, ws, c);
}

} // verus!

use vstd::prelude::*;

verus! {

/// Number of bytes in a full anchor window.
pub const WINDOW_LEN: usize = 15;

/// Distance between the starting offsets of successive candidate windows.
pub const STRIDE: usize = 8;

/// A first byte that marks a window as likely padding.
pub const PADDING: u8 = 0xFF;

/// An excerpt of the reference buffer used as search material.
pub struct AnchorWindow {
    /// Offset in the reference buffer where the window starts.
    pub origin: usize,
    /// The window's bytes, copied out of the reference buffer.
    pub bytes: Vec<u8>,
}

impl View for AnchorWindow {
    type V = (int, Seq<u8>);

    open spec fn view(&self) -> (int, Seq<u8>) {
        (self.origin as int, self.bytes@)
    }
}

/// The bytes of the window starting at `i`: up to `WINDOW_LEN` bytes,
/// truncated at the end of the buffer.
pub open spec fn window_at(r: Seq<u8>, i: int) -> Seq<u8> {
    r.subrange(i, if i + WINDOW_LEN <= r.len() { i + WINDOW_LEN } else { r.len() as int })
}

/// The anchor windows of `r` whose origins are `i`, `i + STRIDE`, ...,
/// skipping those whose first byte is `PADDING`.
pub open spec fn anchors_from(r: Seq<u8>, i: int) -> Seq<(int, Seq<u8>)>
    decreases r.len() + STRIDE - i,
{
    if i < 0 || i >= r.len() {
        seq![]
    } else if r[i] == PADDING {
        anchors_from(r, i + STRIDE)
    } else {
        seq![(i, window_at(r, i))] + anchors_from(r, i + STRIDE)
    }
}

/// All anchor windows of a reference buffer, in ascending origin order.
pub open spec fn anchors(r: Seq<u8>) -> Seq<(int, Seq<u8>)> {
    anchors_from(r, 0)
}

/// The windows as `(origin, bytes)` pairs.
pub open spec fn windows_view(ws: Seq<AnchorWindow>) -> Seq<(int, Seq<u8>)> {
    ws.map_values(|w: AnchorWindow| w@)
}

/// Every window of `anchors_from(r, i)` starts inside `r` on the stride grid
/// from `i`, does not start with padding, and reads no byte past the end.
pub proof fn lemma_anchors_from_wf(r: Seq<u8>, i: int)
    requires
        0 <= i,
    ensures
        forall|k: int|
            0 <= k < anchors_from(r, i).len() ==> {
                let (o, b) = #[trigger] anchors_from(r, i)[k];
                &&& i <= o < r.len()
                &&& (o - i) % (STRIDE as int) == 0
                &&& r[o] != PADDING
                &&& b == window_at(r, o)
                &&& 0 < b.len() <= WINDOW_LEN
                &&& o + b.len() <= r.len()
            },
        forall|k1: int, k2: int|
            0 <= k1 < k2 < anchors_from(r, i).len() ==> (#[trigger] anchors_from(r, i)[k1]).0
                < (#[trigger] anchors_from(r, i)[k2]).0,
    decreases r.len() + STRIDE - i,
{
    if i < r.len() {
        lemma_anchors_from_wf(r, i + STRIDE);
        let rest = anchors_from(r, i + STRIDE);
        if r[i] != PADDING {
            let s = anchors_from(r, i);
            assert forall|k: int| 1 <= k < s.len() implies s[k] == rest[k - 1] by {}
        }
    }
}

/// From any offset on, a buffer made only of `PADDING` has no anchor window.
pub proof fn lemma_padding_has_no_anchors(r: Seq<u8>, i: int)
    requires
        0 <= i,
        forall|k: int| 0 <= k < r.len() ==> r[k] == PADDING,
    ensures
        anchors_from(r, i) == Seq::<(int, Seq<u8>)>::empty(),
    decreases r.len() + STRIDE - i,
{
    if i < r.len() {
        lemma_padding_has_no_anchors(r, i + STRIDE);
    }
}

/// Returns a fresh vector holding `v[lo..hi]`.
pub fn copy_range(v: &Vec<u8>, lo: usize, hi: usize) -> (r: Vec<u8>)
    requires
        lo <= hi <= v.len(),
    ensures
        r@ == v@.subrange(lo as int, hi as int),
{
    let mut r: Vec<u8> = Vec::new();
    let mut j: usize = lo;
    while j < hi
        invariant
            lo <= j <= hi,
            hi <= v@.len(),
            r@ == v@.subrange(lo as int, j as int),
        decreases hi - j,
    {
        r.push(v[j]);
        assert(r@ =~= v@.subrange(lo as int, j + 1));
        j += 1;
    }
    r
}

/// Extracts the anchor windows of `reference`: for each offset that is a
/// multiple of `STRIDE` and whose byte is not `PADDING`, the `WINDOW_LEN`
/// bytes starting there, or the bytes up to the end of the buffer when fewer
/// remain. Each window owns a fresh copy of its bytes.
pub fn extract_anchors(reference: &Vec<u8>) -> (ws: Vec<AnchorWindow>)
    ensures
        windows_view(ws@) == anchors(reference@),
        forall|k: int|
            0 <= k < ws.len() ==> {
                let w = #[trigger] ws@[k];
                &&& w.origin < reference.len()
                &&& w.origin % STRIDE == 0
                &&& reference@[w.origin as int] != PADDING
                &&& 0 < w.bytes.len() <= WINDOW_LEN
                &&& w.origin + w.bytes.len() <= reference.len()
                &&& w.bytes@ == window_at(reference@, w.origin as int)
            },
        forall|k1: int, k2: int|
            0 <= k1 < k2 < ws.len() ==> (#[trigger] ws@[k1]).origin < (#[trigger] ws@[k2]).origin,
{
    let len = reference.len();
    let mut ws: Vec<AnchorWindow> = Vec::new();
    let mut i: usize = 0;
    while i < len
        invariant
            len == reference@.len(),
            i <= len,
            windows_view(ws@) + anchors_from(reference@, i as int) == anchors(reference@),
        decreases len - i,
    {
        let ghost before = ws@;
        if reference[i] != PADDING {
            let end: usize = if len - i >= WINDOW_LEN { i + WINDOW_LEN } else { len };
            let bytes = copy_range(reference, i, end);
            ws.push(AnchorWindow { origin: i, bytes });
            assert(windows_view(ws@) =~= windows_view(before) + seq![
                (i as int, window_at(reference@, i as int)),
            ]);
            assert(windows_view(ws@) + anchors_from(reference@, i + STRIDE) =~= windows_view(before)
                + anchors_from(reference@, i as int));
        }
        let next: usize = if len - i > STRIDE { i + STRIDE } else { len };
        assert(anchors_from(reference@, next as int) == anchors_from(reference@, i + STRIDE));
        i = next;
    }
    assert(windows_view(ws@) =~= anchors(reference@));
    proof {
        lemma_anchors_from_wf(reference@, 0);
        assert forall|k: int| 0 <= k < ws.len() implies ws@[k]@ == #[trigger] anchors(reference@)[k] by {
            assert(windows_view(ws@)[k] == ws@[k]@);
        }
        assert forall|k: int| 0 <= k < ws.len() implies {
            let w = #[trigger] ws@[k];
            &&& w.origin < reference.len()
            &&& w.origin % STRIDE == 0
            &&& reference@[w.origin as int] != PADDING
            &&& 0 < w.bytes.len() <= WINDOW_LEN
            &&& w.origin + w.bytes.len() <= reference.len()
            &&& w.bytes@ == window_at(reference@, w.origin as int)
        } by {
            let a = anchors(reference@)[k];
            assert(ws@[k]@ == a);
            assert(ws@[k].origin == a.0);
            assert(ws@[k].bytes@ == a.1);
        }
        assert forall|k1: int, k2: int|
            0 <= k1 < k2 < ws.len() implies (#[trigger] ws@[k1]).origin < (#[trigger] ws@[k2]).origin by {
            assert(ws@[k1]@ == anchors(reference@)[k1]);
            assert(ws@[k2]@ == anchors(reference@)[k2]);
        }
    }
    ws
}

} // verus!

//! Content-defined chunking of large files.
use vstd::prelude::*;

verus! {

pub const MIN_CHUNK: usize = 1024 * 1024;

pub const AVG_CHUNK: usize = 4 * 1024 * 1024;

pub const MAX_CHUNK: usize = 8 * 1024 * 1024;

/// The windows that FastCDC (2020, 1/4/8 MiB) cuts from a buffer, as
/// (offset, length) pairs.
pub uninterp spec fn cdc_cuts(data: Seq<u8>) -> Seq<(usize, usize)>;

/// Windows that lie end to end from offset 0 to `n`, each of at most
/// `MAX_CHUNK` bytes and, but for the last, at least `MIN_CHUNK` bytes.
pub open spec fn windows_tile(ws: Seq<(usize, usize)>, n: int) -> bool {
    &&& (ws.len() == 0 <==> n == 0)
    &&& ws.len() > 0 ==> ws[0].0 == 0 && ws.last().0 + ws.last().1 == n
    &&& forall|i: int| 0 <= i < ws.len() - 1 ==> #[trigger] ws[i + 1].0 == ws[i].0 + ws[i].1
    &&& forall|i: int| 0 <= i < ws.len() ==> 0 < #[trigger] ws[i].1 <= MAX_CHUNK
    &&& forall|i: int| 0 <= i < ws.len() - 1 ==> #[trigger] ws[i].1 >= MIN_CHUNK
}

/// Relies on fastcdc::v2020::FastCDC::new(data, 1 MiB, 4 MiB, 8 MiB) and its
/// iterator: chunks follow each other from the start to the end of the data,
/// none is longer than the maximum and only the last may be shorter than the
/// minimum.
#[verifier::external_body]
fn fastcdc_windows(data: &[u8]) -> (r: Vec<(usize, usize)>)
    ensures
        r@ == cdc_cuts(data@),
        windows_tile(r@, data@.len() as int),
{
    fastcdc::v2020::FastCDC::new(data, MIN_CHUNK as u32, AVG_CHUNK as u32, MAX_CHUNK as u32)
        .map(|c| (c.offset, c.length))
        .collect()
}

/// The chunk windows of `data`; the same bytes always give the same windows.
pub fn cut(data: &[u8]) -> (r: Vec<(usize, usize)>)
    ensures
        r@ == cdc_cuts(data@),
        windows_tile(r@, data@.len() as int),
{
    fastcdc_windows(data)
}

/// The bytes of window `w`.
pub open spec fn window_bytes(data: Seq<u8>, w: (usize, usize)) -> Seq<u8> {
    data.subrange(w.0 as int, w.0 + w.1)
}

/// Windows that tile a buffer lie inside it.
pub proof fn lemma_window_in_bounds(ws: Seq<(usize, usize)>, n: int, i: int)
    requires
        windows_tile(ws, n),
        0 <= i < ws.len(),
    ensures
        ws[i].0 + ws[i].1 <= n,
    decreases ws.len() - i,
{
    if i < ws.len() - 1 {
        lemma_window_in_bounds(ws, n, i + 1);
        assert(ws[i + 1].0 == ws[i].0 + ws[i].1);
    }
}

} // verus!

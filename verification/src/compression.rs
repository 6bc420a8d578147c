//! zstd compression of file contents.
use vstd::prelude::*;

verus! {

/// The zstd frame that zstd's `encode_all` makes of `data` at level 0 (the default level).
pub uninterp spec fn zstd_frame(data: Seq<u8>) -> Seq<u8>;

/// What zstd's `decode_all` makes of `frame`: the data, or none when the frame is invalid.
pub uninterp spec fn zstd_unframe(frame: Seq<u8>) -> Option<Seq<u8>>;

/// zstd's `stream::encode_all` at level 0 on data held in memory. The
/// contract says that it always gives the frame: reading from a `Cursor` and
/// writing to a `Vec` cannot fail, so `encode_all` reports an error only where
/// zstd itself does, which at the default level and parameters happens only
/// when its working memory cannot be allocated. Running out of memory is left
/// unsaid here, as it is for every allocation (when zstd cannot even create
/// its context, zstd-safe panics). The compression is lossless: decoding the
/// frame gives the data back; and a frame is never empty, as it opens with a
/// frame header (`zstd.h` gives its least size, `ZSTD_FRAMEHEADERSIZE_MIN`,
/// as 6 bytes).
#[verifier::external_body]
pub(crate) fn compress(data: &[u8]) -> (r: Option<Vec<u8>>)
    ensures
        r is Some,
        r matches Some(c) ==> c@ == zstd_frame(data@),
        r matches Some(c) ==> zstd_unframe(c@) == Some(data@),
        r matches Some(c) ==> c@.len() > 0,
{
    zstd::stream::encode_all(std::io::Cursor::new(data), 0).ok()
}

/// zstd's `stream::decode_all`, the reader error dropped.
#[verifier::external_body]
pub(crate) fn decompress(frame: &[u8]) -> (r: Option<Vec<u8>>)
    ensures
        match zstd_unframe(frame@) {
            Some(d) => r matches Some(v) && v@ == d,
            None => r is None,
        },
{
    zstd::stream::decode_all(std::io::Cursor::new(frame)).ok()
}

} // verus!

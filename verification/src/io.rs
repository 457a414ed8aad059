//! Requests to and answers from the chunk store, the file name of a stored
//! chunk, and the byte format in which a chunk is stored.
use std::sync::Arc;

use vstd::prelude::*;
use vstd::string::StringExecFns;

use crate::chunk::Chunk;
use crate::constants::CHUNK_SIZE3_U;
use crate::position::IVec3;

verus! {

/// A request to the chunk store.
pub enum IORequest {
    LoadChunk(IVec3),
    SaveChunk { position: IVec3, chunk: Arc<Chunk> },
}

/// An answer of the chunk store: a chunk that was loaded (or found missing),
/// or a chunk that was saved.
pub enum IOResponse {
    ChunkLoaded(IVec3, Option<Arc<Chunk>>),
    ChunkSaved(IVec3),
}

/// The character of decimal digit `d`.
pub open spec fn digit_char(d: int) -> char {
    (48 + d) as char
}

/// The decimal digits of `m`, most significant first, without leading zeros.
pub open spec fn decimal_digits(m: nat) -> Seq<char>
    decreases m,
{
    if m < 10 {
        seq![digit_char(m as int)]
    } else {
        decimal_digits(m / 10).push(digit_char((m % 10) as int))
    }
}

/// `n` written in decimal, with a leading `-` when it is negative.
pub open spec fn decimal(n: int) -> Seq<char> {
    if n < 0 {
        seq!['-'] + decimal_digits((-n) as nat)
    } else {
        decimal_digits(n as nat)
    }
}

/// The file in which the chunk at `pos` is stored:
/// `world/chunks/{x}_{y}_{z}.bin`.
pub open spec fn chunk_path(pos: IVec3) -> Seq<char> {
    "world/chunks/"@ + decimal(pos.x as int) + "_"@ + decimal(pos.y as int) + "_"@ + decimal(
        pos.z as int,
    ) + ".bin"@
}

proof fn lemma_digits_shape(m: nat)
    ensures
        decimal_digits(m).len() >= 1,
        m < 10 <==> decimal_digits(m).len() == 1,
        forall|i: int|
            0 <= i < decimal_digits(m).len() ==> 48 <= #[trigger] decimal_digits(m)[i] as int <= 57,
    decreases m,
{
    if m >= 10 {
        lemma_digits_shape(m / 10);
        let d = decimal_digits(m / 10);
        assert forall|i: int|
            0 <= i < decimal_digits(m).len() implies 48 <= #[trigger] decimal_digits(m)[i] as int <= 57 by {
            if i < d.len() {
                assert(decimal_digits(m)[i] == d[i]);
            }
        }
    }
}

proof fn lemma_digits_injective(m: nat, n: nat)
    requires
        decimal_digits(m) == decimal_digits(n),
    ensures
        m == n,
    decreases m,
{
    lemma_digits_shape(m);
    lemma_digits_shape(n);
    let dm = decimal_digits(m);
    if m < 10 {
        assert(dm[0] == digit_char(m as int));
        assert(dm[0] == digit_char(n as int));
    } else {
        let dn = decimal_digits(n);
        assert(dm.last() == digit_char((m % 10) as int));
        assert(dn.last() == digit_char((n % 10) as int));
        assert(dm.drop_last() =~= decimal_digits(m / 10));
        assert(dn.drop_last() =~= decimal_digits(n / 10));
        lemma_digits_injective(m / 10, n / 10);
    }
}

/// Decimal text only holds digits and `-`.
proof fn lemma_decimal_chars(n: int)
    ensures
        forall|i: int|
            0 <= i < decimal(n).len() ==> #[trigger] decimal(n)[i] == '-' || 48 <= decimal(n)[i] as int
                <= 57,
{
    if n < 0 {
        lemma_digits_shape((-n) as nat);
        assert forall|i: int| 0 <= i < decimal(n).len() implies #[trigger] decimal(n)[i] == '-' || 48
            <= decimal(n)[i] as int <= 57 by {
            if i > 0 {
                assert(decimal(n)[i] == decimal_digits((-n) as nat)[i - 1]);
            }
        }
    } else {
        lemma_digits_shape(n as nat);
    }
}

/// Different numbers have different decimal text.
proof fn lemma_decimal_injective(a: int, b: int)
    requires
        decimal(a) == decimal(b),
    ensures
        a == b,
{
    if a < 0 {
        lemma_digits_shape((-a) as nat);
        if b < 0 {
            assert(decimal(a).skip(1) =~= decimal_digits((-a) as nat));
            assert(decimal(b).skip(1) =~= decimal_digits((-b) as nat));
            lemma_digits_injective((-a) as nat, (-b) as nat);
        } else {
            lemma_digits_shape(b as nat);
            assert(decimal(a)[0] == '-');
            assert(48 <= decimal(b)[0] as int);
        }
    } else if b < 0 {
        lemma_digits_shape(a as nat);
        assert(decimal(b)[0] == '-');
        assert(48 <= decimal(a)[0] as int);
    } else {
        lemma_digits_injective(a as nat, b as nat);
    }
}

/// Text before a separator that it does not contain is fixed by the whole.
proof fn lemma_split_at_separator(a1: Seq<char>, b1: Seq<char>, a2: Seq<char>, b2: Seq<char>, sep: char)
    requires
        a1 + seq![sep] + b1 == a2 + seq![sep] + b2,
        forall|i: int| 0 <= i < a1.len() ==> a1[i] != sep,
        forall|i: int| 0 <= i < a2.len() ==> a2[i] != sep,
    ensures
        a1 == a2,
        b1 == b2,
{
    let s = a1 + seq![sep] + b1;
    let t = a2 + seq![sep] + b2;
    if a1.len() < a2.len() {
        assert(s[a1.len() as int] == sep);
        assert(t[a1.len() as int] == a2[a1.len() as int]);
    } else if a2.len() < a1.len() {
        assert(t[a2.len() as int] == sep);
        assert(s[a2.len() as int] == a1[a2.len() as int]);
    }
    assert(a1 =~= s.take(a1.len() as int));
    assert(a2 =~= t.take(a2.len() as int));
    assert(b1 =~= s.skip(a1.len() as int + 1));
    assert(b2 =~= t.skip(a2.len() as int + 1));
}

/// Different chunk positions are stored in different files.
pub proof fn lemma_chunk_paths_distinct(p: IVec3, q: IVec3)
    requires
        p != q,
    ensures
        chunk_path(p) != chunk_path(q),
{
    reveal_strlit("_");
    let pre = "world/chunks/"@;
    let bin = ".bin"@;
    let u = "_"@;
    assert(u == seq!['_']);
    if chunk_path(p) == chunk_path(q) {
        let (xp, yp, zp) = (decimal(p.x as int), decimal(p.y as int), decimal(p.z as int));
        let (xq, yq, zq) = (decimal(q.x as int), decimal(q.y as int), decimal(q.z as int));
        let rp = yp + u + (zp + bin);
        let rq = yq + u + (zq + bin);
        assert(chunk_path(p).skip(pre.len() as int) =~= xp + u + rp);
        assert(chunk_path(q).skip(pre.len() as int) =~= xq + u + rq);
        lemma_decimal_chars(p.x as int);
        lemma_decimal_chars(q.x as int);
        lemma_decimal_chars(p.y as int);
        lemma_decimal_chars(q.y as int);
        lemma_split_at_separator(xp, rp, xq, rq, '_');
        lemma_split_at_separator(yp, zp + bin, yq, zq + bin, '_');
        assert(zp =~= (zp + bin).take(zp.len() as int));
        assert(zq =~= (zq + bin).take(zq.len() as int));
        lemma_decimal_injective(p.x as int, q.x as int);
        lemma_decimal_injective(p.y as int, q.y as int);
        lemma_decimal_injective(p.z as int, q.z as int);
    }
}

fn digit_str(d: u64) -> (s: &'static str)
    requires
        d < 10,
    ensures
        s@ == seq![digit_char(d as int)],
{
    proof {
        reveal_strlit("0");
        reveal_strlit("1");
        reveal_strlit("2");
        reveal_strlit("3");
        reveal_strlit("4");
        reveal_strlit("5");
        reveal_strlit("6");
        reveal_strlit("7");
        reveal_strlit("8");
        reveal_strlit("9");
    }
    match d {
        0 => "0",
        1 => "1",
        2 => "2",
        3 => "3",
        4 => "4",
        5 => "5",
        6 => "6",
        7 => "7",
        8 => "8",
        _ => "9",
    }
}

fn append_digits(s: &mut String, m: u64)
    ensures
        final(s)@ == old(s)@ + decimal_digits(m as nat),
    decreases m,
{
    if m >= 10 {
        append_digits(s, m / 10);
    }
    s.append(digit_str(m % 10));
    proof {
        if m >= 10 {
            assert(decimal_digits(m as nat) == decimal_digits((m / 10) as nat).push(
                digit_char((m % 10) as int),
            ));
        }
    }
}

fn append_decimal(s: &mut String, n: i32)
    ensures
        final(s)@ == old(s)@ + decimal(n as int),
{
    if n < 0 {
        proof {
            reveal_strlit("-");
        }
        s.append("-");
        let m: u64 = (-(n as i64)) as u64;
        append_digits(s, m);
    } else {
        append_digits(s, n as u64);
    }
}

/// The file in which the chunk at `pos` is stored.
pub fn get_chunk_path(pos: IVec3) -> (r: String)
    ensures
        r@ == chunk_path(pos),
{
    let mut s = String::from_str("world/chunks/");
    append_decimal(&mut s, pos.x);
    s.append("_");
    append_decimal(&mut s, pos.y);
    s.append("_");
    append_decimal(&mut s, pos.z);
    s.append(".bin");
    s
}


/// Size of a stored chunk once decompressed: four bytes per voxel.
pub const STORED_CHUNK_BYTES: usize = 131072;

/// zstd level at which chunks are compressed.
pub const COMPRESSION_LEVEL: i32 = 3;

/// Why a chunk could not be turned into stored bytes or back.
#[derive(Clone, Copy, Debug, PartialEq, Eq, Structural)]
pub enum ChunkIoError {
    /// The stored bytes are not a zstd frame.
    Decompression,
    /// The decompressed bytes are not `STORED_CHUNK_BYTES` long.
    SizeMismatch { got: usize },
}

#[verifier::external_type_specification]
#[verifier::external_body]
pub struct ExIoError(std::io::Error);

/// The frame that `zstd::encode_all` makes of `data` at `level`.
pub uninterp spec fn zstd_frame(data: Seq<u8>, level: i32) -> Seq<u8>;

/// What `zstd::decode_all` gives back for `frame`: the decompressed bytes,
/// or nothing when `frame` is not a valid zstd frame.
pub uninterp spec fn zstd_content(frame: Seq<u8>) -> Option<Seq<u8>>;

/// `zstd::encode_all`: compresses `data` into one zstd frame. The frame is
/// named by `zstd_frame`, and decompressing it gives back `data` (zstd is
/// lossless). Reading from a slice and writing into a `Vec` cannot fail, and
/// setting the compression level only fails for a level zstd refuses, so at
/// level 3 it always succeeds; at other levels nothing is said of failure.
#[verifier::external_body]
fn compress(data: &[u8], level: i32) -> (r: Result<Vec<u8>, std::io::Error>)
    ensures
        level == 3 ==> r is Ok,
        match r {
            Ok(frame) => frame@ == zstd_frame(data@, level) && zstd_content(frame@) == Some(data@),
            Err(_) => true,
        },
{
    zstd::encode_all(data, level)
}

/// `zstd::decode_all`: decompresses the frame; it fails exactly when the
/// bytes are not a valid frame.
#[verifier::external_body]
fn decompress(frame: &[u8]) -> (r: Result<Vec<u8>, std::io::Error>)
    ensures
        match r {
            Ok(data) => zstd_content(frame@) == Some(data@),
            Err(_) => zstd_content(frame@) is None,
        },
{
    zstd::decode_all(frame)
}

/// The `u32` whose bytes, least significant first, are `b`.
pub open spec fn le_word(b: Seq<u8>) -> u32 {
    (b[0] + 256 * b[1] + 65536 * b[2] + 16777216 * b[3]) as u32
}

/// The `u32` whose bytes, most significant first, are `b`.
pub open spec fn be_word(b: Seq<u8>) -> u32 {
    (b[3] + 256 * b[2] + 65536 * b[1] + 16777216 * b[0]) as u32
}

/// The four bytes of voxel `i` in decompressed chunk bytes.
pub open spec fn word_of(data: Seq<u8>, i: int) -> Seq<u8> {
    data.subrange(4 * i, 4 * i + 4)
}

/// Every four bytes of `data`, least significant first, as a word.
pub open spec fn le_words(data: Seq<u8>) -> Seq<u32> {
    Seq::new(data.len() / 4, |i: int| le_word(word_of(data, i)))
}

/// Every four bytes of `data`, most significant first, as a word.
pub open spec fn be_words(data: Seq<u8>) -> Seq<u32> {
    Seq::new(data.len() / 4, |i: int| be_word(word_of(data, i)))
}

/// `bytemuck::cast_slice_mut`: the voxels of a chunk viewed as bytes, and
/// filled with `bytes`; each voxel is then its four bytes in the machine's
/// byte order, the same order for all of them.
#[verifier::external_body]
fn read_voxels(bytes: &[u8]) -> (r: [u32; 32768])
    requires
        bytes@.len() == 131072,
    ensures
        r@ == le_words(bytes@) || r@ == be_words(bytes@),
{
    let mut voxels = [0u32; CHUNK_SIZE3_U];
    bytemuck::cast_slice_mut::<u32, u8>(&mut voxels[..]).copy_from_slice(bytes);
    voxels
}

/// The bytes that are compressed when a chunk is stored: each voxel cut
/// to its low byte.
pub open spec fn stored_bytes(c: Chunk) -> Seq<u8> {
    Seq::new(32768, |i: int| c.voxels@[i] as u8)
}

/// `r` is what reading decompressed chunk bytes `data` gives: when `data`
/// has `STORED_CHUNK_BYTES` bytes, a chunk whose voxel `i` is the word of
/// bytes `4 i .. 4 i + 4`, all words in one byte order; else the size
/// mismatch.
pub open spec fn chunk_read(r: Result<Chunk, ChunkIoError>, data: Seq<u8>) -> bool {
    match r {
        Ok(c) => data.len() == STORED_CHUNK_BYTES && (c.voxels@ == le_words(data) || c.voxels@
            == be_words(data)),
        Err(e) => data.len() != STORED_CHUNK_BYTES && e == ChunkIoError::SizeMismatch {
            got: data.len() as usize,
        },
    }
}

/// Reads decompressed chunk bytes back into a chunk.
pub fn chunk_from_bytes(data: &[u8]) -> (r: Result<Chunk, ChunkIoError>)
    ensures
        chunk_read(r, data@),
{
    if data.len() != STORED_CHUNK_BYTES {
        return Err(ChunkIoError::SizeMismatch { got: data.len() });
    }
    let voxels = read_voxels(data);
    Ok(Chunk { voxels })
}

/// The bytes a chunk is stored as: its voxels cut to their low byte, then
/// compressed with zstd at `COMPRESSION_LEVEL`.
pub fn encode_chunk(chunk: &Chunk) -> (frame: Vec<u8>)
    ensures
        frame@ == zstd_frame(stored_bytes(*chunk), COMPRESSION_LEVEL),
        zstd_content(frame@) == Some(stored_bytes(*chunk)),
{
    let mut bytes: Vec<u8> = Vec::with_capacity(CHUNK_SIZE3_U);
    let mut i: usize = 0;
    while i < CHUNK_SIZE3_U
        invariant
            i <= 32768,
            bytes@.len() == i,
            forall|j: int| 0 <= j < i ==> #[trigger] bytes@[j] == chunk.voxels@[j] as u8,
        decreases 32768 - i,
    {
        bytes.push(chunk.voxels[i] as u8);
        i += 1;
    }
    assert(bytes@ =~= stored_bytes(*chunk));
    match compress(bytes.as_slice(), COMPRESSION_LEVEL) {
        Ok(frame) => frame,
        Err(_) => {
            // compression at level 3 does not fail
            proof {
                assert(false);
            }
            Vec::new()
        },
    }
}

/// `r` is what reading the stored bytes `compressed` gives: the
/// decompression error when they are not a zstd frame, else what reading
/// the decompressed bytes gives.
pub open spec fn chunk_decoded(r: Result<Chunk, ChunkIoError>, compressed: Seq<u8>) -> bool {
    match zstd_content(compressed) {
        Some(data) => chunk_read(r, data),
        None => r == Err::<Chunk, ChunkIoError>(ChunkIoError::Decompression),
    }
}

/// Reads a stored chunk: decompresses it and reads the bytes back.
pub fn decode_chunk(compressed: &[u8]) -> (r: Result<Chunk, ChunkIoError>)
    ensures
        chunk_decoded(r, compressed@),
{
    match decompress(compressed) {
        Ok(data) => chunk_from_bytes(data.as_slice()),
        Err(_) => Err(ChunkIoError::Decompression),
    }
}

/// A stored chunk cannot be read back: the bytes that storing a chunk
/// makes decompress to one byte per voxel, while reading asks for four, so
/// reading them always ends in a size mismatch.
pub proof fn lemma_stored_chunk_unreadable(c: Chunk, frame: Seq<u8>)
    requires
        zstd_content(frame) == Some(stored_bytes(c)),
    ensures
        forall|r: Result<Chunk, ChunkIoError>|
            #[trigger] chunk_decoded(r, frame) ==> r == Err::<Chunk, ChunkIoError>(
                ChunkIoError::SizeMismatch { got: 32768 },
            ),
{
}

} // verus!

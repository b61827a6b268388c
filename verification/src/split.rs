//! Cutting the input into the blocks that the workers process.
//!
//! For compression the input is cut into pieces of `block_size` bytes. For
//! decompression the input is a sequence of bzip2 streams, and each block
//! ends where the next stream header is found.

use vstd::prelude::*;

use crate::block::Tcontent;

verus! {

/// The block size that the pipeline uses (bzip2's largest block, 900 kB).
pub const BLOCK_SIZE: usize = 900000;

/// How far past a block's nominal size the search for the next stream
/// header goes.
pub const SCAN_SLACK: usize = 10000;

/// The length of a stream header.
pub const HEADER_LEN: usize = 10;

/// The bytes that open a bzip2 stream compressed at level 9: "BZh91AY&SY".
pub open spec fn stream_header() -> Seq<u8> {
    seq![0x42u8, 0x5a, 0x68, 0x39, 0x31, 0x41, 0x59, 0x26, 0x53, 0x59]
}

/// A stream header starts at position `i` of `s`.
pub open spec fn is_header_at(s: Seq<u8>, i: int) -> bool {
    0 <= i && i + HEADER_LEN <= s.len() && s.subrange(i, i + HEADER_LEN as int) == stream_header()
}

/// The header's bytes, one by one: 'B', 'Z', 'h', '9', '1', 'A', 'Y', '&',
/// 'S', 'Y'.
pub proof fn lemma_stream_header_bytes()
    ensures
        stream_header().len() == HEADER_LEN,
        stream_header()[0] == 66u8 && stream_header()[1] == 90u8 && stream_header()[2] == 104u8
            && stream_header()[3] == 57u8 && stream_header()[4] == 49u8 && stream_header()[5]
            == 65u8 && stream_header()[6] == 89u8 && stream_header()[7] == 38u8
            && stream_header()[8] == 83u8 && stream_header()[9] == 89u8,
{
}

/// A header is recognised at any position whatever, exactly where the ten
/// bytes from that position, all inside `s`, are the header's bytes.
pub proof fn lemma_is_header_at_meaning(s: Seq<u8>, i: int)
    ensures
        is_header_at(s, i) <==> (0 <= i && i + HEADER_LEN <= s.len() && forall|k: int|
            0 <= k < HEADER_LEN ==> #[trigger] s[i + k] == stream_header()[k]),
{
    if 0 <= i && i + HEADER_LEN <= s.len() {
        let w = s.subrange(i, i + HEADER_LEN as int);
        if forall|k: int| 0 <= k < HEADER_LEN ==> #[trigger] s[i + k] == stream_header()[k] {
            assert forall|k: int| 0 <= k < HEADER_LEN implies w[k] == stream_header()[k] by {
                assert(s[i + k] == stream_header()[k]);
            }
            assert(w =~= stream_header());
        }
        if w == stream_header() {
            assert forall|k: int| 0 <= k < HEADER_LEN implies #[trigger] s[i + k]
                == stream_header()[k] by {
                assert(w[k] == s[i + k]);
            }
        }
    }
}

/// `r` cuts `0..len` into consecutive, non-empty ranges, in order.
pub open spec fn is_partition(r: Seq<(usize, usize)>, len: nat) -> bool {
    &&& (r.len() == 0 <==> len == 0)
    &&& r.len() > 0 ==> r[0].0 == 0 && r.last().1 == len
    &&& forall|k: int| 0 <= k < r.len() ==> #[trigger] r[k].0 < r[k].1 && r[k].1 <= len
    &&& forall|k: int| 0 <= k < r.len() - 1 ==> #[trigger] r[k].1 == r[k + 1].0
}

/// Every compression block holds `block_size` bytes, except the last, which
/// holds at most `block_size`.
pub open spec fn is_compression_split(r: Seq<(usize, usize)>, len: nat, block_size: nat) -> bool {
    &&& is_partition(r, len)
    &&& forall|k: int| 0 <= k < r.len() - 1 ==> #[trigger] r[k].1 - r[k].0 == block_size
    &&& r.len() > 0 ==> r.last().1 - r.last().0 <= block_size
}

/// Where the search for the header that ends the block starting at `start`
/// stops: `block_size + 10000` bytes on, or at the end of the input.
pub open spec fn scan_limit(len: int, start: int, block_size: int) -> int {
    if start + block_size + SCAN_SLACK < len {
        start + block_size + SCAN_SLACK
    } else {
        len
    }
}

/// `a..z` is the decompression block that starts at `a`: it ends at the first
/// stream header found from `a + 10` on whose 10 bytes lie before the scan
/// limit, or at the end of the input if there is none.
pub open spec fn is_decompression_block(s: Seq<u8>, block_size: nat, a: int, z: int) -> bool {
    let hi = scan_limit(s.len() as int, a, block_size as int);
    &&& 0 <= a < z <= s.len()
    &&& if z < s.len() {
        &&& a + HEADER_LEN <= z
        &&& z + HEADER_LEN <= hi
        &&& is_header_at(s, z)
        &&& forall|j: int| a + HEADER_LEN <= j < z ==> !is_header_at(s, j)
    } else {
        forall|j: int| a + HEADER_LEN <= j && j + HEADER_LEN <= hi ==> !is_header_at(s, j)
    }
}

/// The cut of `s` into decompression blocks.
pub open spec fn is_decompression_split(r: Seq<(usize, usize)>, s: Seq<u8>, block_size: nat) -> bool {
    &&& is_partition(r, s.len())
    &&& forall|k: int|
        0 <= k < r.len() ==> is_decompression_block(s, block_size, #[trigger] r[k].0 as int, r[k].1 as int)
}

/// The pipeline's constants: blocks of 900000 bytes, a search window
/// reaching 10000 bytes further, and headers of 10 bytes.
pub proof fn lemma_constants()
    ensures
        BLOCK_SIZE == 900000,
        SCAN_SLACK == 10000,
        HEADER_LEN == 10,
{
}

proof fn lemma_compression_starts(r: Seq<(usize, usize)>, len: nat, block_size: nat, k: int)
    requires
        is_compression_split(r, len, block_size),
        0 <= k < r.len(),
    ensures
        r[k].0 == k * block_size,
    decreases k,
{
    if k == 0 {
        assert(r[0].0 == 0);
        assert(0 * block_size == 0) by (nonlinear_arith);
    } else {
        lemma_compression_starts(r, len, block_size, k - 1);
        assert(r[k - 1].1 - r[k - 1].0 == block_size);
        assert(r[k - 1].1 == r[k].0);
        assert((k - 1) * block_size + block_size == k * block_size) by (nonlinear_arith);
    }
}

/// Compression block `k` is `k * block_size .. min((k + 1) * block_size, len)`,
/// and there are `len / block_size` blocks, rounded up.
pub proof fn lemma_compression_closed_form(r: Seq<(usize, usize)>, len: nat, block_size: nat)
    requires
        block_size > 0,
        is_compression_split(r, len, block_size),
    ensures
        r.len() == (len + block_size - 1) / block_size as int,
        forall|k: int|
            0 <= k < r.len() ==> #[trigger] r[k].0 == k * block_size && r[k].1 == (if (k + 1)
                * block_size <= len {
                (k + 1) * block_size
            } else {
                len as int
            }),
{
    assert forall|k: int| 0 <= k < r.len() implies #[trigger] r[k].0 == k * block_size && r[k].1
        == (if (k + 1) * block_size <= len {
        (k + 1) * block_size
    } else {
        len as int
    }) by {
        lemma_compression_starts(r, len, block_size, k);
        assert((k + 1) * block_size == k * block_size + block_size) by (nonlinear_arith);
        if k < r.len() - 1 {
            assert(r[k].1 - r[k].0 == block_size);
        } else {
            assert(r[k].1 == len);
        }
    }
    if r.len() == 0 {
        assert(len == 0);
        let bs = block_size as int;
        assert((bs - 1) / bs == 0) by (nonlinear_arith)
            requires
                bs > 0,
        ;
    } else {
        let l = r.len() as int;
        lemma_compression_starts(r, len, block_size, l - 1);
        assert(r[l - 1].1 == len);
        assert(l * block_size == (l - 1) * block_size + block_size) by (nonlinear_arith);
        let q = len + block_size - 1;
        let bs = block_size as int;
        assert(l * bs <= q < l * bs + bs);
        assert(q / bs == l) by (nonlinear_arith)
            requires
                l * bs <= q < l * bs + bs,
                bs > 0,
        ;
    }
}

/// A decompression block starting at `a` is not empty; it ends at a header
/// at least 10 bytes on whose 10 bytes end within `a + block_size + 10000`,
/// or at the end of the input; and no header lying wholly in that window
/// comes before its end.
pub proof fn lemma_decompression_block_meaning(s: Seq<u8>, block_size: nat, a: int, z: int)
    requires
        is_decompression_block(s, block_size, a, z),
    ensures
        0 <= a < z <= s.len(),
        z < s.len() ==> is_header_at(s, z) && a + 10 <= z && z + 10 <= a + block_size + 10000,
        forall|j: int|
            a + 10 <= j && j + 10 <= s.len() && j + 10 <= a + block_size + 10000 && is_header_at(s, j)
                ==> z <= j,
{
}

/// Cuts `0..total_len` into blocks of `block_size` bytes, the last one
/// possibly shorter.
pub fn compression_ranges(total_len: usize, block_size: usize) -> (r: Vec<(usize, usize)>)
    requires
        block_size > 0,
    ensures
        is_compression_split(r@, total_len as nat, block_size as nat),
        r@.len() == (total_len + block_size - 1) / block_size as int,
        forall|k: int|
            0 <= k < r@.len() ==> #[trigger] r@[k].0 == k * block_size && r@[k].1 == (if (k + 1)
                * block_size <= total_len {
                (k + 1) * block_size
            } else {
                total_len as int
            }),
{
    let mut ranges: Vec<(usize, usize)> = Vec::new();
    let mut pos_end: usize = 0;
    let mut bytes_left: usize = total_len;
    while bytes_left > 0
        invariant
            block_size > 0,
            pos_end + bytes_left == total_len,
            ranges.len() == 0 ==> pos_end == 0,
            ranges.len() > 0 ==> ranges@[0].0 == 0 && ranges@.last().1 == pos_end,
            forall|k: int|
                0 <= k < ranges.len() ==> #[trigger] ranges@[k].0 < ranges@[k].1 && ranges@[k].1
                    <= pos_end,
            forall|k: int|
                0 <= k < ranges.len() - 1 ==> #[trigger] ranges@[k].1 == ranges@[k + 1].0,
            forall|k: int|
                0 <= k < ranges.len() - 1 ==> #[trigger] ranges@[k].1 - ranges@[k].0 == block_size,
            ranges.len() > 0 ==> ranges@.last().1 - ranges@.last().0 <= block_size,
            ranges.len() > 0 && bytes_left > 0 ==> ranges@.last().1 - ranges@.last().0 == block_size,
        decreases bytes_left,
    {
        let pos_init = pos_end;
        pos_end = pos_end + if bytes_left < block_size {
            total_len - pos_end
        } else {
            block_size
        };
        bytes_left = bytes_left - (pos_end - pos_init);
        ranges.push((pos_init, pos_end));
    }
    proof {
        lemma_compression_closed_form(ranges@, total_len as nat, block_size as nat);
    }
    ranges
}

/// The bytes of `s` that the ranges `r` cover, one range after the other.
pub open spec fn pieces(s: Seq<u8>, r: Seq<(usize, usize)>) -> Seq<u8>
    decreases r.len(),
{
    if r.len() == 0 {
        Seq::empty()
    } else {
        pieces(s, r.drop_last()) + s.subrange(r.last().0 as int, r.last().1 as int)
    }
}

proof fn lemma_pieces_prefix(s: Seq<u8>, r: Seq<(usize, usize)>, m: int)
    requires
        is_partition(r, s.len()),
        1 <= m <= r.len(),
    ensures
        pieces(s, r.take(m)) == s.subrange(0, r[m - 1].1 as int),
    decreases m,
{
    assert(r.take(m).drop_last() =~= r.take(m - 1));
    if m == 1 {
        assert(r.take(0) =~= Seq::<(usize, usize)>::empty());
        assert(pieces(s, r.take(0)) =~= Seq::<u8>::empty());
        assert(r.take(1).last() == r[0]);
        assert(r[0].0 == 0);
        assert(pieces(s, r.take(1)) =~= s.subrange(0, r[0].1 as int));
    } else {
        lemma_pieces_prefix(s, r, m - 1);
        assert(r[m - 2].1 == r[m - 1].0);
        assert(s.subrange(0, r[m - 2].1 as int) + s.subrange(r[m - 1].0 as int, r[m - 1].1 as int)
            =~= s.subrange(0, r[m - 1].1 as int));
    }
}

/// Cutting loses and repeats nothing: the ranges of a partition of `s`,
/// put back one after the other, give `s`.
pub proof fn lemma_pieces_rebuild_input(s: Seq<u8>, r: Seq<(usize, usize)>)
    requires
        is_partition(r, s.len()),
    ensures
        pieces(s, r) == s,
{
    if r.len() == 0 {
        assert(s =~= Seq::<u8>::empty());
    } else {
        lemma_pieces_prefix(s, r, r.len() as int);
        assert(r.take(r.len() as int) =~= r);
        assert(s.subrange(0, s.len() as int) =~= s);
    }
}

/// Every decompression block but the first starts with a stream header.
pub proof fn lemma_blocks_start_at_headers(r: Seq<(usize, usize)>, s: Seq<u8>, block_size: nat)
    requires
        is_decompression_split(r, s, block_size),
    ensures
        forall|k: int| 1 <= k < r.len() ==> is_header_at(s, #[trigger] r[k].0 as int),
{
    assert forall|k: int| 1 <= k < r.len() implies is_header_at(s, #[trigger] r[k].0 as int) by {
        assert(r[k - 1].1 == r[k].0);
        assert(is_decompression_block(s, block_size, r[k - 1].0 as int, r[k - 1].1 as int));
    }
}

/// `s` is a run of bzip2 streams that start at the positions `b[0]`,
/// ..., `b[m - 1]` (`m == b.len() - 1`), with `b[m]` the end of `s`: each
/// stream opens with a stream header and holds at least its 10 bytes, a
/// stream header occurs only where a stream starts, and every stream but
/// the last fits the scan window (its length plus 10 is at most
/// `block_size + 10000`).
pub open spec fn is_stream_layout(s: Seq<u8>, b: Seq<int>, block_size: nat) -> bool {
    &&& b.len() >= 1
    &&& b[0] == 0
    &&& b.last() == s.len()
    &&& forall|i: int, j: int| 0 <= i < j < b.len() ==> #[trigger] b[i] < #[trigger] b[j]
    &&& forall|i: int| 0 <= i < b.len() - 1 ==> #[trigger] b[i] + HEADER_LEN <= b[i + 1]
    &&& forall|i: int| 0 <= i < b.len() - 1 ==> is_header_at(s, #[trigger] b[i])
    &&& forall|j: int|
        is_header_at(s, j) ==> exists|i: int| 0 <= i < b.len() - 1 && #[trigger] b[i] == j
    &&& forall|i: int|
        0 <= i < b.len() - 2 ==> b[i + 1] - #[trigger] b[i] + HEADER_LEN <= block_size + SCAN_SLACK
}

proof fn lemma_cut_block(s: Seq<u8>, b: Seq<int>, block_size: nat, z: int, k: int)
    requires
        is_stream_layout(s, b, block_size),
        0 <= k < b.len() - 1,
        is_decompression_block(s, block_size, b[k], z),
    ensures
        z == b[k + 1],
{
    let m = b.len() - 1;
    let a = b[k];
    let len = s.len() as int;
    if k + 1 < m {
        assert(b[k] + HEADER_LEN <= b[k + 1]);
        assert(b[k + 1] + HEADER_LEN <= b[k + 2]);
        if k + 2 < m {
            assert(b[k + 2] < b[m]);
        }
        assert(b[k + 1] - b[k] + HEADER_LEN <= block_size + SCAN_SLACK);
        assert(is_header_at(s, b[k + 1]));
        assert(b[k + 1] + HEADER_LEN <= scan_limit(len, a, block_size as int));
    }
    if z < len {
        assert(is_header_at(s, z));
        let i = choose|i: int| 0 <= i < b.len() - 1 && #[trigger] b[i] == z;
        if i <= k {
            if i < k {
                assert(b[i] < b[k]);
            }
        }
        assert(i > k);
        if i > k + 1 {
            assert(b[k + 1] < b[i]);
            assert(is_header_at(s, b[k + 1]));
        }
    } else {
        if k + 1 < m {
            assert(is_header_at(s, b[k + 1]));
        }
    }
}

proof fn lemma_cut_prefix(
    s: Seq<u8>,
    b: Seq<int>,
    block_size: nat,
    r: Seq<(usize, usize)>,
    k: int,
)
    requires
        is_stream_layout(s, b, block_size),
        is_decompression_split(r, s, block_size),
        0 <= k < r.len(),
    ensures
        k < b.len() - 1,
        r[k].0 == b[k],
        r[k].1 == b[k + 1],
    decreases k,
{
    let m = b.len() - 1;
    if k == 0 {
        assert(r[0].0 == 0);
    } else {
        lemma_cut_prefix(s, b, block_size, r, k - 1);
        assert(r[k - 1].1 == r[k].0);
    }
    if k >= m {
        assert(r[k].0 < r[k].1 && r[k].1 <= s.len());
    }
    assert(is_decompression_block(s, block_size, r[k].0 as int, r[k].1 as int));
    lemma_cut_block(s, b, block_size, r[k].1 as int, k);
}

/// Cutting a run of bzip2 streams gives exactly those streams: when the
/// streams of `s` start at `b[0..m]`, each with a header only at its start
/// and each but the last within the scan window, the decompression cut of
/// `s` has `m` blocks and block `k` is `b[k]..b[k + 1]`.
pub proof fn lemma_cut_falls_on_stream_starts(
    s: Seq<u8>,
    b: Seq<int>,
    block_size: nat,
    r: Seq<(usize, usize)>,
)
    requires
        is_stream_layout(s, b, block_size),
        is_decompression_split(r, s, block_size),
    ensures
        r.len() == b.len() - 1,
        forall|k: int| 0 <= k < r.len() ==> #[trigger] r[k].0 == b[k] && r[k].1 == b[k + 1],
{
    let m = b.len() - 1;
    assert forall|k: int| 0 <= k < r.len() implies #[trigger] r[k].0 == b[k] && r[k].1 == b[k + 1] by {
        lemma_cut_prefix(s, b, block_size, r, k);
    }
    if r.len() == 0 {
        if m > 0 {
            assert(b[0] < b[m]);
        }
    } else {
        let l = r.len() - 1;
        lemma_cut_prefix(s, b, block_size, r, l);
        if l + 1 < m {
            assert(b[l + 1] < b[m]);
        }
    }
}

/// The streams one after the other.
pub open spec fn joined(streams: Seq<Seq<u8>>) -> Seq<u8>
    decreases streams.len(),
{
    if streams.len() == 0 {
        Seq::empty()
    } else {
        joined(streams.drop_last()) + streams.last()
    }
}

/// Where each stream starts in `joined(streams)`, and its end last.
pub open spec fn stream_starts(streams: Seq<Seq<u8>>) -> Seq<int> {
    Seq::new(streams.len() + 1, |i: int| joined(streams.take(i)).len() as int)
}

proof fn lemma_joined_add(a: Seq<Seq<u8>>, c: Seq<Seq<u8>>)
    ensures
        joined(a + c) == joined(a) + joined(c),
    decreases c.len(),
{
    if c.len() == 0 {
        assert(a + c =~= a);
        assert(joined(a) + joined(c) =~= joined(a));
    } else {
        assert((a + c).drop_last() =~= a + c.drop_last());
        lemma_joined_add(a, c.drop_last());
        assert(joined(a + c) =~= joined(a) + joined(c));
    }
}

/// Stream `k` lies in the joined streams between its start and the next.
proof fn lemma_stream_slice(streams: Seq<Seq<u8>>, k: int)
    requires
        0 <= k < streams.len(),
    ensures
        joined(streams).subrange(stream_starts(streams)[k], stream_starts(streams)[k + 1])
            == streams[k],
{
    let front = streams.take(k);
    let back = streams.skip(k + 1);
    let mid = front.push(streams[k]);
    assert(streams =~= mid + back);
    assert(streams.take(k + 1) =~= mid);
    assert(mid.drop_last() =~= front);
    lemma_joined_add(mid, back);
    assert(joined(mid) == joined(front) + streams[k]);
    assert(joined(streams).subrange(joined(front).len() as int, joined(mid).len() as int)
        =~= streams[k]);
}

/// Cutting the streams put one after the other gives back each stream:
/// when the joined streams are laid out as `is_stream_layout` asks (a header
/// only at each stream's start, every stream but the last within the scan
/// window), the decompression cut has one block per stream and block `k`
/// holds exactly stream `k`.
pub proof fn lemma_cut_gives_back_streams(
    streams: Seq<Seq<u8>>,
    block_size: nat,
    r: Seq<(usize, usize)>,
)
    requires
        is_stream_layout(joined(streams), stream_starts(streams), block_size),
        is_decompression_split(r, joined(streams), block_size),
    ensures
        r.len() == streams.len(),
        forall|k: int|
            0 <= k < r.len() ==> joined(streams).subrange(#[trigger] r[k].0 as int, r[k].1 as int)
                == streams[k],
{
    let s = joined(streams);
    let b = stream_starts(streams);
    lemma_cut_falls_on_stream_starts(s, b, block_size, r);
    assert forall|k: int| 0 <= k < r.len() implies s.subrange(#[trigger] r[k].0 as int, r[k].1 as int)
        == streams[k] by {
        lemma_stream_slice(streams, k);
    }
}

/// Whether a stream header starts at position `i` of `s`.
pub fn is_stream_header_at(s: &[u8], i: usize) -> (b: bool)
    requires
        i + HEADER_LEN <= s.len(),
    ensures
        b == is_header_at(s@, i as int),
        b <==> forall|k: int| 0 <= k < HEADER_LEN ==> #[trigger] s@[i + k] == stream_header()[k],
{
    let b = s[i] == 0x42 && s[i + 1] == 0x5a && s[i + 2] == 0x68 && s[i + 3] == 0x39 && s[i + 4]
        == 0x31 && s[i + 5] == 0x41 && s[i + 6] == 0x59 && s[i + 7] == 0x26 && s[i + 8] == 0x53
        && s[i + 9] == 0x59;
    proof {
        lemma_is_header_at_meaning(s@, i as int);
        let w = s@.subrange(i as int, i + HEADER_LEN as int);
        if b {
            assert(w =~= stream_header());
        } else {
            if w == stream_header() {
                assert(w[0] == s@[i as int] && w[1] == s@[i + 1] && w[2] == s@[i + 2] && w[3]
                    == s@[i + 3] && w[4] == s@[i + 4] && w[5] == s@[i + 5] && w[6] == s@[i + 6]
                    && w[7] == s@[i + 7] && w[8] == s@[i + 8] && w[9] == s@[i + 9]);
            }
        }
    }
    b
}

/// The first position `i` in `from..` at which a stream header lies wholly
/// before `to`.
pub fn find_stream_header(s: &[u8], from: usize, to: usize) -> (r: Option<usize>)
    requires
        from <= to <= s.len(),
    ensures
        match r {
            Some(i) => {
                &&& from <= i
                &&& i + HEADER_LEN <= to
                &&& is_header_at(s@, i as int)
                &&& forall|j: int| from <= j < i ==> !is_header_at(s@, j)
            },
            None => forall|j: int| from <= j && j + HEADER_LEN <= to ==> !is_header_at(s@, j),
        },
{
    if to - from < HEADER_LEN {
        return None;
    }
    let last = to - HEADER_LEN;
    let mut i = from;
    while i <= last
        invariant
            from <= i <= last + 1,
            last + HEADER_LEN == to,
            to <= s.len(),
            forall|j: int| from <= j < i ==> !is_header_at(s@, j),
        decreases last + 1 - i,
    {
        if is_stream_header_at(s, i) {
            return Some(i);
        }
        i = i + 1;
    }
    None
}

/// Cuts a sequence of bzip2 streams into blocks: each block starts where the
/// previous one ended and runs up to the next stream header found within
/// `block_size + 10000` bytes, or to the end of the input.
pub fn decompression_ranges(input: &[u8], block_size: usize) -> (r: Vec<(usize, usize)>)
    requires
        input.len() == 0 || input.len() >= HEADER_LEN,
    ensures
        is_decompression_split(r@, input@, block_size as nat),
{
    let len = input.len();
    let mut ranges: Vec<(usize, usize)> = Vec::new();
    let mut pos_end: usize = 0;
    let mut bytes_left: usize = len;
    while bytes_left > 0
        invariant
            len == input.len(),
            pos_end + bytes_left == len,
            bytes_left > 0 ==> bytes_left >= HEADER_LEN,
            ranges.len() == 0 ==> pos_end == 0,
            ranges.len() > 0 ==> ranges@[0].0 == 0 && ranges@.last().1 == pos_end,
            forall|k: int|
                0 <= k < ranges.len() ==> #[trigger] ranges@[k].0 < ranges@[k].1 && ranges@[k].1
                    <= pos_end,
            forall|k: int|
                0 <= k < ranges.len() - 1 ==> #[trigger] ranges@[k].1 == ranges@[k + 1].0,
            forall|k: int|
                0 <= k < ranges.len() ==> is_decompression_block(
                    input@,
                    block_size as nat,
                    #[trigger] ranges@[k].0 as int,
                    ranges@[k].1 as int,
                ),
        decreases bytes_left,
    {
        let pos_init = pos_end;
        let room = len - pos_init;
        let hi = if room > SCAN_SLACK && room - SCAN_SLACK > block_size {
            pos_init + block_size + SCAN_SLACK
        } else {
            len
        };
        assert(hi == scan_limit(len as int, pos_init as int, block_size as int));
        let found = find_stream_header(input, pos_init + HEADER_LEN, hi);
        pos_end = match found {
            Some(i) => i,
            None => len,
        };
        bytes_left = bytes_left - (pos_end - pos_init);
        ranges.push((pos_init, pos_end));
        assert(is_decompression_block(input@, block_size as nat, pos_init as int, pos_end as int));
    }
    ranges
}

/// The blocks that the decompression workers receive: block `k` holds the
/// bytes of the `k`-th decompression range and an output buffer of
/// `block_size` zero bytes.
pub fn decompression_blocks(input: &[u8], block_size: usize) -> (blocks: Vec<Tcontent>)
    requires
        input.len() == 0 || input.len() >= HEADER_LEN,
    ensures
        exists|r: Seq<(usize, usize)>|
            {
                &&& is_decompression_split(r, input@, block_size as nat)
                &&& blocks@.len() == r.len()
                &&& forall|k: int|
                    0 <= k < r.len() ==> {
                        &&& (#[trigger] blocks@[k]).order == k
                        &&& blocks@[k].buffer_input@ == input@.subrange(
                            r[k].0 as int,
                            r[k].1 as int,
                        )
                        &&& blocks@[k].buffer_output@ == crate::block::zeros(block_size as nat)
                        &&& blocks@[k].output_size == 0
                    }
            },
{
    let ranges = decompression_ranges(input, block_size);
    let mut blocks: Vec<Tcontent> = Vec::new();
    let mut order: usize = 0;
    while order < ranges.len()
        invariant
            is_decompression_split(ranges@, input@, block_size as nat),
            order <= ranges.len(),
            blocks@.len() == order,
            forall|k: int|
                0 <= k < order ==> {
                    &&& (#[trigger] blocks@[k]).order == k
                    &&& blocks@[k].buffer_input@ == input@.subrange(
                        ranges@[k].0 as int,
                        ranges@[k].1 as int,
                    )
                    &&& blocks@[k].buffer_output@ == crate::block::zeros(block_size as nat)
                    &&& blocks@[k].output_size == 0
                },
        decreases ranges.len() - order,
    {
        let (a, z) = ranges[order];
        assert(is_decompression_block(input@, block_size as nat, a as int, z as int));
        let piece = vstd::slice::slice_subrange(input, a, z);
        blocks.push(Tcontent::new(order as u64, piece, block_size));
        order = order + 1;
    }
    blocks
}

} // verus!

//! Encoding of channel bytes into SPI waveform bytes.
//!
//! With the SPI clock at [`PI_SPI_HZ`] one SPI bit lasts 64 ns, so the
//! protocol's high/low pulse widths for one data bit fit in two SPI bytes:
//!
//! - a logical 0 is high for about 320 ns (350 ns ± 150 ns) and low for
//!   about 704 ns (800 ns ± 150 ns): [`WS_ZERO_BYTES`];
//! - a logical 1 is high for about 576 ns (700 ns ± 150 ns) and low for
//!   about 448 ns (600 ns ± 150 ns): [`WS_ONE_BYTES`].
//!
//! The two patterns hold only for that clock: another bus frequency needs
//! other patterns.
use vstd::prelude::*;

verus! {

/// The SPI clock frequency that the waveform patterns are made for (15.6 MHz).
pub const PI_SPI_HZ: u32 = 15_600_000;

/// SPI bytes sent for one data bit.
pub const SPI_BYTES_PER_BIT: usize = 2;

/// Data bits in one channel byte.
pub const BITS_PER_PX: usize = 8;

/// SPI bytes sent for one channel byte.
pub const SPI_BYTES_PER_PX: usize = SPI_BYTES_PER_BIT * BITS_PER_PX;

/// SPI bytes of the low level that resets the strip (50 µs) before a frame.
pub const SPI_BYTES_PER_RESET: usize = 100;

/// The SPI bytes of a logical 0.
pub const WS_ZERO_BYTES: [u8; SPI_BYTES_PER_BIT] = [0b1111_1000, 0b0000_0000];

/// The SPI bytes of a logical 1.
pub const WS_ONE_BYTES: [u8; SPI_BYTES_PER_BIT] = [0b1111_1111, 0b1000_0000];

/// Whether bit `pos` of `value` is set, counting from the most significant
/// bit (position 0) to the least significant one (position 7).
pub open spec fn bit_is_set(value: u8, pos: int) -> bool {
    (value >> ((7 - pos) as u8)) & 1u8 == 1u8
}

/// The waveform of one data bit.
pub open spec fn bit_waveform(one: bool) -> Seq<u8> {
    if one {
        WS_ONE_BYTES@
    } else {
        WS_ZERO_BYTES@
    }
}

/// The waveform of one channel byte: the waveforms of its eight bits, most
/// significant bit first.
pub open spec fn pixel_waveform(value: u8) -> Seq<u8> {
    Seq::new(
        SPI_BYTES_PER_PX as nat,
        |i: int| bit_waveform(bit_is_set(value, i / SPI_BYTES_PER_BIT as int))[i % SPI_BYTES_PER_BIT as int],
    )
}

/// Encodes one channel byte into the SPI bytes that carry it on the wire.
pub fn encode_pixel(pixel: &u8) -> (encoded: [u8; SPI_BYTES_PER_PX])
    ensures
        encoded@ == pixel_waveform(*pixel),
{
    let mut encoded: [u8; SPI_BYTES_PER_PX] = [0; SPI_BYTES_PER_PX];
    let mut px_bit_idx: usize = 0;
    while px_bit_idx < BITS_PER_PX
        invariant
            px_bit_idx <= BITS_PER_PX,
            forall|i: int|
                0 <= i < px_bit_idx * SPI_BYTES_PER_BIT ==> encoded@[i] == pixel_waveform(*pixel)[i],
        decreases BITS_PER_PX - px_bit_idx,
    {
        let shift: u8 = (BITS_PER_PX - px_bit_idx - 1) as u8;
        let bit: u8 = (*pixel >> shift) & 1;
        let spi_data = if bit == 1 {
            WS_ONE_BYTES
        } else {
            WS_ZERO_BYTES
        };
        assert(spi_data@ == bit_waveform(bit_is_set(*pixel, px_bit_idx as int)));
        let mut byte: usize = 0;
        while byte < SPI_BYTES_PER_BIT
            invariant
                px_bit_idx < BITS_PER_PX,
                byte <= SPI_BYTES_PER_BIT,
                spi_data@ == bit_waveform(bit_is_set(*pixel, px_bit_idx as int)),
                forall|i: int|
                    0 <= i < px_bit_idx * SPI_BYTES_PER_BIT + byte ==> encoded@[i] == pixel_waveform(*pixel)[i],
            decreases SPI_BYTES_PER_BIT - byte,
        {
            encoded[px_bit_idx * SPI_BYTES_PER_BIT + byte] = spi_data[byte];
            byte = byte + 1;
        }
        px_bit_idx = px_bit_idx + 1;
    }
    assert(encoded@ =~= pixel_waveform(*pixel));
    encoded
}

/// Encoding is a function of the channel byte alone: any two results of
/// `encode_pixel` on the same byte are the same bytes.
pub proof fn lemma_encode_pixel_deterministic(
    pixel: u8,
    first: [u8; SPI_BYTES_PER_PX],
    second: [u8; SPI_BYTES_PER_PX],
)
    requires
        call_ensures(encode_pixel, (&pixel,), first),
        call_ensures(encode_pixel, (&pixel,), second),
    ensures
        first == second,
{
    assert(first@ == second@);
    assert forall|i: int| 0 <= i < SPI_BYTES_PER_PX implies first[i] == second[i] by {
        assert(first@[i] == second@[i]);
    }
    assert(first =~= second);
}

/// The waveform of a sequence of channel bytes: the waveforms of the bytes,
/// concatenated in order.
pub open spec fn slice_waveform(data: Seq<u8>) -> Seq<u8>
    decreases data.len(),
{
    if data.len() == 0 {
        Seq::empty()
    } else {
        slice_waveform(data.drop_last()) + pixel_waveform(data.last())
    }
}

/// Every channel byte has a waveform of exactly `SPI_BYTES_PER_PX` bytes, and
/// the two bytes for bit position `pos` are the pattern of a logical 1 if that
/// bit is set, and the pattern of a logical 0 otherwise.
pub proof fn lemma_pixel_waveform_bits(value: u8, pos: int)
    requires
        0 <= pos < BITS_PER_PX,
    ensures
        pixel_waveform(value).len() == SPI_BYTES_PER_BIT * BITS_PER_PX,
        pixel_waveform(value).subrange(pos * SPI_BYTES_PER_BIT, (pos + 1) * SPI_BYTES_PER_BIT)
            == (if bit_is_set(value, pos) {
            WS_ONE_BYTES@
        } else {
            WS_ZERO_BYTES@
        }),
{
    let chunk = pixel_waveform(value).subrange(pos * SPI_BYTES_PER_BIT, (pos + 1) * SPI_BYTES_PER_BIT);
    assert(chunk =~= bit_waveform(bit_is_set(value, pos)));
}

/// The waveform of `n` channel bytes is `n` times as long as that of one.
pub proof fn lemma_slice_waveform_len(data: Seq<u8>)
    ensures
        slice_waveform(data).len() == data.len() * SPI_BYTES_PER_PX,
    decreases data.len(),
{
    if data.len() > 0 {
        lemma_slice_waveform_len(data.drop_last());
    }
}

/// Encoding two runs of channel bytes one after the other gives the waveform
/// of the two runs joined: the order of the channels is kept.
pub proof fn lemma_slice_waveform_concat(a: Seq<u8>, b: Seq<u8>)
    ensures
        slice_waveform(a + b) == slice_waveform(a) + slice_waveform(b),
    decreases b.len(),
{
    if b.len() == 0 {
        assert(a + b =~= a);
        assert(slice_waveform(a) + slice_waveform(b) =~= slice_waveform(a));
    } else {
        assert((a + b).drop_last() =~= a + b.drop_last());
        assert((a + b).last() == b.last());
        lemma_slice_waveform_concat(a, b.drop_last());
        assert(slice_waveform(a + b) =~= slice_waveform(a) + slice_waveform(b));
    }
}

/// Byte `k` of the waveform of `data` is byte `k % SPI_BYTES_PER_PX` of the
/// waveform of channel `k / SPI_BYTES_PER_PX`.
pub proof fn lemma_slice_waveform_index(data: Seq<u8>, k: int)
    requires
        0 <= k < data.len() * SPI_BYTES_PER_PX,
    ensures
        slice_waveform(data)[k] == pixel_waveform(data[k / SPI_BYTES_PER_PX as int])[k
            % SPI_BYTES_PER_PX as int],
    decreases data.len(),
{
    let n = data.len() - 1;
    let w = SPI_BYTES_PER_PX as int;
    lemma_slice_waveform_len(data.drop_last());
    if k < n * w {
        lemma_slice_waveform_index(data.drop_last(), k);
    } else {
        assert(k / w == n && k % w == k - n * w) by (nonlinear_arith)
            requires
                w == 16,
                n * w <= k < data.len() * w,
                data.len() == n + 1,
        ;
    }
}

/// The waveform of channel `i` stands, whole, at bytes
/// `[i * SPI_BYTES_PER_PX, (i + 1) * SPI_BYTES_PER_PX)` of the waveform of
/// `data`.
pub proof fn lemma_slice_waveform_chunk(data: Seq<u8>, i: int)
    requires
        0 <= i < data.len(),
    ensures
        slice_waveform(data).subrange(i * SPI_BYTES_PER_PX, (i + 1) * SPI_BYTES_PER_PX)
            == pixel_waveform(data[i]),
{
    lemma_slice_waveform_len(data);
    let chunk = slice_waveform(data).subrange(i * SPI_BYTES_PER_PX, (i + 1) * SPI_BYTES_PER_PX);
    let w = SPI_BYTES_PER_PX as int;
    assert((i + 1) * w <= data.len() * w) by (nonlinear_arith)
        requires
            w == 16,
            0 <= i < data.len(),
    ;
    assert forall|j: int| 0 <= j < w implies chunk[j] == pixel_waveform(data[i])[j] by {
        assert((i * w + j) / w == i && (i * w + j) % w == j && i * w + j < data.len() * w)
            by (nonlinear_arith)
            requires
                w == 16,
                0 <= j < w,
                0 <= i < data.len(),
        ;
        lemma_slice_waveform_index(data, i * w + j);
    }
    assert(chunk =~= pixel_waveform(data[i]));
}

/// Encodes a run of channel bytes, of any length, into the concatenation of
/// their waveforms.
pub fn encode_slice(pixels: &[u8]) -> (encoded: Vec<u8>)
    ensures
        encoded@ == slice_waveform(pixels@),
        encoded@.len() == pixels@.len() * SPI_BYTES_PER_PX,
{
    let mut encoded: Vec<u8> = Vec::new();
    let mut i: usize = 0;
    while i < pixels.len()
        invariant
            i <= pixels@.len(),
            encoded@ == slice_waveform(pixels@.subrange(0, i as int)),
        decreases pixels@.len() - i,
    {
        let bytes = encode_pixel(&pixels[i]);
        let ghost before = encoded@;
        let mut j: usize = 0;
        while j < SPI_BYTES_PER_PX
            invariant
                j <= SPI_BYTES_PER_PX,
                bytes@ == pixel_waveform(pixels@[i as int]),
                encoded@ == before + bytes@.subrange(0, j as int),
            decreases SPI_BYTES_PER_PX - j,
        {
            encoded.push(bytes[j]);
            assert(bytes@.subrange(0, j + 1) =~= bytes@.subrange(0, j as int).push(bytes@[j as int]));
            j = j + 1;
        }
        assert(pixels@.subrange(0, i + 1).drop_last() =~= pixels@.subrange(0, i as int));
        assert(bytes@.subrange(0, SPI_BYTES_PER_PX as int) =~= bytes@);
        i = i + 1;
    }
    assert(pixels@.subrange(0, pixels@.len() as int) =~= pixels@);
    proof {
        lemma_slice_waveform_len(pixels@);
    }
    encoded
}

/// Encodes the channels of one node, in order. Encoding a node ahead of time
/// keeps the work off the path where the timing of the signal matters.
pub fn encode_node<const N: usize>(node: &[u8; N]) -> (encoded: Vec<u8>)
    ensures
        encoded@ == slice_waveform(node@),
        encoded@.len() == N * SPI_BYTES_PER_PX,
{
    encode_slice(node.as_slice())
}

} // verus!

//! What an output device promises, and a device built on any byte port.
//!
//! A WS28xx strip reads any pause between bytes longer than its low-level
//! tolerance as the end of a frame, so a device sends each frame to its port
//! in a single transfer.
use vstd::prelude::*;

use crate::encoding::{encode_pixel, lemma_slice_waveform_index, lemma_slice_waveform_len,
    pixel_waveform, slice_waveform, SPI_BYTES_PER_PX, SPI_BYTES_PER_RESET};

verus! {

/// The errors of an output device once it is built. A port that cannot be
/// opened or set up fails with its own error, before any device exists.
#[derive(Debug, Clone, Copy, PartialEq, Eq, Structural)]
pub enum HardwareError {
    /// A transfer did not complete. `attempted` is the number of bytes that
    /// the transfer tried to send, not the number that got through.
    Transmission { attempted: usize },
}

/// A port that moves bytes towards the strip, such as an SPI device.
///
/// `transfers` is the record of the transfers that the port completed,
/// oldest first.
pub trait HardwareDev {
    type Error;

    /// The transfers that the port completed, oldest first. A port that
    /// keeps no record of them leaves it empty, and then cannot report a
    /// successful transfer.
    closed spec fn transfers(&self) -> Seq<Seq<u8>> {
        Seq::empty()
    }

    /// Sends `encoded_data`, exactly as given, in one transfer. On success
    /// that transfer is recorded; a transfer that fails is not.
    fn write_all(&mut self, encoded_data: &[u8]) -> (r: Result<(), Self::Error>)
        ensures
            r is Ok ==> final(self).transfers() == old(self).transfers().push(encoded_data@),
            r is Err ==> final(self).transfers() == old(self).transfers(),
    ;
}

/// `n` zero bytes: the low level that resets the strip.
pub open spec fn reset_signal(n: nat) -> Seq<u8> {
    Seq::new(n, |i: int| 0u8)
}

/// The frame that a device with preamble `preamble` sends for the channel
/// values `data`.
pub open spec fn frame_of(preamble: Seq<u8>, data: Seq<u8>) -> Seq<u8> {
    preamble + slice_waveform(data)
}

/// The error of a transfer of `len` bytes that did not complete.
pub open spec fn transmission_failure(len: int) -> Result<(), HardwareError> {
    Err(HardwareError::Transmission { attempted: len as usize })
}

/// The channel waveform that a buffer holding `staged` holds once `data` is
/// encoded at its start: the waveform of `data`, then what `staged` held
/// past it.
pub open spec fn restage(staged: Seq<u8>, data: Seq<u8>) -> Seq<u8> {
    slice_waveform(data) + staged.subrange(data.len() * SPI_BYTES_PER_PX, staged.len() as int)
}

/// An output device for a strip of `B` channel values.
///
/// `frames` is the record of the frames that the device's port accepted,
/// oldest first: each successful write adds exactly one frame, and a failed
/// one adds none.
pub trait GenericHardware<const B: usize>: Sized {
    /// Whether the transmission buffer is sized and laid out for `B` channels.
    spec fn is_ready(&self) -> bool;

    /// The frames that the port accepted, oldest first.
    spec fn frames(&self) -> Seq<Seq<u8>>;

    /// The bytes that every frame starts with, ahead of the encoded channels.
    spec fn preamble(&self) -> Seq<u8>;

    /// The channel waveform held in the transmission buffer, after the
    /// preamble.
    spec fn staged(&self) -> Seq<u8>;

    /// Sizes the transmission buffer for `B` channels and fills it with
    /// zeros. Calling it again does no harm; it must be called before the
    /// first `encode_and_write`.
    fn init(&mut self)
        requires
            old(self).preamble().len() + B * SPI_BYTES_PER_PX <= usize::MAX,
        ensures
            final(self).is_ready(),
            final(self).staged() == reset_signal((B * SPI_BYTES_PER_PX) as nat),
            final(self).frames() == old(self).frames(),
            final(self).preamble() == old(self).preamble(),
    ;

    /// Sends already encoded bytes, exactly as given, in one transfer.
    fn write_raw(&mut self, byte_array: &[u8]) -> (r: Result<(), HardwareError>)
        ensures
            final(self).is_ready() == old(self).is_ready(),
            final(self).preamble() == old(self).preamble(),
            final(self).staged() == old(self).staged(),
            r is Ok ==> final(self).frames() == old(self).frames().push(byte_array@),
            r is Err ==> final(self).frames() == old(self).frames() && r == transmission_failure(
                byte_array@.len() as int,
            ),
    ;

    /// Encodes up to `B` channel values into the transmission buffer, where
    /// their waveform replaces that of the first channels; the waveform of
    /// the other channels stays as it was. Then sends the preamble and the
    /// whole buffered waveform, `B` channels of it, in one transfer.
    fn encode_and_write(&mut self, byte_array: &[u8]) -> (r: Result<(), HardwareError>)
        requires
            old(self).is_ready(),
            byte_array@.len() <= B,
        ensures
            final(self).is_ready(),
            final(self).preamble() == old(self).preamble(),
            final(self).staged() == restage(old(self).staged(), byte_array@),
            final(self).staged().len() == B * SPI_BYTES_PER_PX,
            r is Ok ==> final(self).frames() == old(self).frames().push(
                final(self).preamble() + final(self).staged(),
            ),
            r is Err ==> final(self).frames() == old(self).frames() && r == transmission_failure(
                old(self).preamble().len() + B * SPI_BYTES_PER_PX,
            ),
    ;
}

/// An output device that encodes channel values for the SPI waveform and
/// sends each frame through the port `P`, optionally after a reset signal.
pub struct WS28xxGenAdapter<P: HardwareDev> {
    hw: P,
    reset_len: usize,
    buffer: Vec<u8>,
}

impl<P: HardwareDev> WS28xxGenAdapter<P> {
    /// The port that the device sends through.
    pub closed spec fn port(&self) -> P {
        self.hw
    }

    /// A device whose frames hold the encoded channels alone.
    pub fn new(hw: P) -> (r: Self)
        ensures
            r.port() == hw,
            r.sent_frames() == hw.transfers(),
            r.reset_prefix() == Seq::<u8>::empty(),
    {
        WS28xxGenAdapter { hw, reset_len: 0, buffer: Vec::new() }
    }

    /// A device whose frames start with a reset signal of
    /// `SPI_BYTES_PER_RESET` zero bytes.
    pub fn with_reset(hw: P) -> (r: Self)
        ensures
            r.port() == hw,
            r.sent_frames() == hw.transfers(),
            r.reset_prefix() == reset_signal(SPI_BYTES_PER_RESET as nat),
    {
        WS28xxGenAdapter {
            hw,
            reset_len: SPI_BYTES_PER_RESET,
            buffer: Vec::new(),
        }
    }

    /// The frames that the port accepted, oldest first: its transfers.
    pub closed spec fn sent_frames(&self) -> Seq<Seq<u8>> {
        self.hw.transfers()
    }

    /// The reset signal that every frame starts with.
    pub closed spec fn reset_prefix(&self) -> Seq<u8> {
        reset_signal(self.reset_len as nat)
    }

    /// The port that the device sends through.
    pub fn get_hw_dev(&self) -> (r: &P)
        ensures
            *r == self.port(),
    {
        &self.hw
    }
}

impl<P: HardwareDev, const B: usize> GenericHardware<B> for WS28xxGenAdapter<P> {
    closed spec fn is_ready(&self) -> bool {
        &&& self.buffer@.len() == self.reset_len + B * SPI_BYTES_PER_PX
        &&& self.buffer@.subrange(0, self.reset_len as int) == reset_signal(self.reset_len as nat)
    }

    open spec fn frames(&self) -> Seq<Seq<u8>> {
        self.sent_frames()
    }

    open spec fn preamble(&self) -> Seq<u8> {
        self.reset_prefix()
    }

    closed spec fn staged(&self) -> Seq<u8> {
        self.buffer@.subrange(self.reset_len as int, self.buffer@.len() as int)
    }

    fn init(&mut self)
        ensures
            final(self).port() == old(self).port(),
    {
        let len: usize = self.reset_len + B * SPI_BYTES_PER_PX;
        let mut buffer: Vec<u8> = Vec::new();
        let mut i: usize = 0;
        while i < len
            invariant
                i <= len,
                buffer@ == reset_signal(i as nat),
            decreases len - i,
        {
            buffer.push(0);
            i = i + 1;
            assert(buffer@ =~= reset_signal(i as nat));
        }
        self.buffer = buffer;
        assert(self.buffer@.subrange(0, self.reset_len as int) =~= reset_signal(
            self.reset_len as nat,
        ));
        assert(self.buffer@.subrange(self.reset_len as int, len as int) =~= reset_signal(
            (B * SPI_BYTES_PER_PX) as nat,
        ));
    }

    fn write_raw(&mut self, byte_array: &[u8]) -> (r: Result<(), HardwareError>) {
        match self.hw.write_all(byte_array) {
            Ok(()) => Ok(()),
            Err(_) => Err(HardwareError::Transmission { attempted: byte_array.len() }),
        }
    }

    fn encode_and_write(&mut self, byte_array: &[u8]) -> (r: Result<(), HardwareError>) {
        let ghost data = byte_array@;
        let ghost w = SPI_BYTES_PER_PX as int;
        let ghost start = self.reset_len as int;
        let ghost old_buffer = self.buffer@;
        let total: usize = self.buffer.len();
        let n: usize = byte_array.len();
        let mut i: usize = 0;
        while i < n
            invariant
                i <= n,
                n == data.len(),
                n <= B,
                data == byte_array@,
                w == SPI_BYTES_PER_PX,
                start == self.reset_len,
                old_buffer == old(self).buffer@,
                self.hw == old(self).hw,
                self.buffer@.len() == start + B * w,
                total == start + B * w,
                self.buffer@.subrange(0, start) == reset_signal(start as nat),
                forall|k: int|
                    0 <= k < i * w ==> #[trigger] self.buffer@[start + k] == slice_waveform(
                        data,
                    )[k],
                forall|k: int|
                    i * w <= k < B * w ==> #[trigger] self.buffer@[start + k] == old_buffer[start
                        + k],
            decreases n - i,
        {
            let bytes = encode_pixel(&byte_array[i]);
            assert(i * w + w <= B * w) by (nonlinear_arith)
                requires
                    i < B,
                    w == 16,
            ;
            let base: usize = self.reset_len + i * SPI_BYTES_PER_PX;
            let mut j: usize = 0;
            while j < SPI_BYTES_PER_PX
                invariant
                    i < n,
                    n == data.len(),
                    n <= B,
                    j <= SPI_BYTES_PER_PX,
                    data == byte_array@,
                    w == SPI_BYTES_PER_PX,
                    start == self.reset_len,
                    self.hw == old(self).hw,
                    total == start + B * w,
                    base == start + i * w,
                    i * w + w <= B * w,
                    bytes@ == pixel_waveform(data[i as int]),
                    self.buffer@.len() == start + B * w,
                    self.buffer@.subrange(0, start) == reset_signal(start as nat),
                    forall|k: int|
                        0 <= k < i * w + j ==> #[trigger] self.buffer@[start + k]
                            == slice_waveform(data)[k],
                    forall|k: int|
                        i * w + j <= k < B * w ==> #[trigger] self.buffer@[start + k]
                            == old_buffer[start + k],
                decreases SPI_BYTES_PER_PX - j,
            {
                let ghost before = self.buffer@;
                self.buffer[base + j] = bytes[j];
                assert(self.buffer@.subrange(0, start) =~= before.subrange(0, start));
                assert forall|k: int| 0 <= k < i * w + j + 1 implies #[trigger] self.buffer@[start
                    + k] == slice_waveform(data)[k] by {
                    if k == i * w + j {
                        assert(k / w == i as int && k % w == j as int) by (nonlinear_arith)
                            requires
                                k == i * w + j,
                                0 <= j < w,
                                w == 16,
                        ;
                        assert(k < data.len() * w) by (nonlinear_arith)
                            requires
                                k == i * w + j,
                                i < data.len(),
                                0 <= j < w,
                                w == 16,
                        ;
                        lemma_slice_waveform_index(data, k);
                    }
                }
                j = j + 1;
            }
            i = i + 1;
        }
        proof {
            lemma_slice_waveform_len(data);
            assert(n * w <= B * w) by (nonlinear_arith)
                requires
                    n <= B,
                    w == 16,
            ;
            let old_staged = old_buffer.subrange(start, old_buffer.len() as int);
            let staged = restage(old_staged, data);
            assert forall|k: int| 0 <= k < B * w implies self.buffer@[start + k] == staged[k] by {
                if k < n * w {
                } else {
                    assert(self.buffer@[start + k] == old_buffer[start + k]);
                }
            }
            assert(self.buffer@.subrange(start, self.buffer@.len() as int) =~= staged);
            assert forall|k: int| 0 <= k < self.buffer@.len() implies self.buffer@[k] == (
            reset_signal(start as nat) + staged)[k] by {
                if k < start {
                    assert(self.buffer@[k] == self.buffer@.subrange(0, start)[k]);
                } else {
                    assert(self.buffer@[start + (k - start)] == staged[k - start]);
                }
            }
            assert(self.buffer@ =~= reset_signal(start as nat) + staged);
        }
        match self.hw.write_all(self.buffer.as_slice()) {
            Ok(()) => Ok(()),
            Err(_) => Err(HardwareError::Transmission { attempted: self.buffer.len() }),
        }
    }
}

} // verus!

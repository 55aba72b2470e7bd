//! Drives WS28xx-family addressable LED strips through a general-purpose SPI
//! port, with an arbitrary number of colour channels per LED node.
//!
//! The [`encoding`] module turns channel bytes into the SPI waveform that the
//! one-wire protocol needs; the [`hardware`] module states what every output
//! device promises; [`LEDs`] is the buffer of channel values that an
//! application fills node by node and hands to a device in one frame.
use vstd::prelude::*;

pub mod encoding;
pub mod hardware;
pub mod rpi_ws281x;

pub use encoding::{encode_node, encode_pixel, encode_slice};
pub use hardware::{GenericHardware, HardwareDev, HardwareError, WS28xxGenAdapter};

use encoding::{lemma_slice_waveform_len, slice_waveform, SPI_BYTES_PER_PX};
use hardware::{frame_of, reset_signal, restage, transmission_failure};

verus! {

/// `n` channel values that are all zero.
pub open spec fn dark(n: nat) -> Seq<u8> {
    Seq::new(n, |i: int| 0u8)
}

/// A buffer of `nodes` nodes of `m` values each in which every node reads
/// all zeros is all zeros, so writing it sends the frame of a dark strip.
pub proof fn lemma_dark_nodes(values: Seq<u8>, nodes: nat, m: nat)
    requires
        m > 0,
        values.len() == nodes * m,
        forall|idx: int|
            0 <= idx < nodes ==> #[trigger] values.subrange(idx * m, idx * m + m) == dark(m),
    ensures
        values == dark(nodes * m),
{
    assert forall|k: int| 0 <= k < values.len() implies values[k] == 0u8 by {
        let idx = k / (m as int);
        let off = k % (m as int);
        assert(0 <= idx < nodes && idx * m + off == k && 0 <= off < m) by (nonlinear_arith)
            requires
                0 <= k < nodes * m,
                m > 0,
                idx == k / (m as int),
                off == k % (m as int),
        ;
        assert(idx * m + m <= nodes * m) by (nonlinear_arith)
            requires
                0 <= idx < nodes,
                m > 0,
        ;
        assert(values.subrange(idx * m, idx * m + m) == dark(m));
        assert(values.subrange(idx * m, idx * m + m)[off] == values[k]);
    }
    assert(values =~= dark(nodes * m));
}

/// The channel values of a strip of `N` values, `M` to a node, and the device
/// that shows them.
///
/// Node `idx` owns the values at `[idx * M, idx * M + M)`.
pub struct LEDs<const N: usize, const M: usize, H: GenericHardware<N>> {
    leds: [u8; N],
    hw_dev: H,
}

impl<const N: usize, const M: usize, H: GenericHardware<N>> View for LEDs<N, M, H> {
    type V = Seq<u8>;

    closed spec fn view(&self) -> Seq<u8> {
        self.leds@
    }
}

impl<const N: usize, const M: usize, H: GenericHardware<N>> LEDs<N, M, H> {
    /// The device that the strip writes to.
    pub closed spec fn hardware(&self) -> H {
        self.hw_dev
    }

    /// The strip holds `N` channel values and can be written: its device
    /// is initialised for `N` channels.
    pub open spec fn wf(&self) -> bool {
        &&& self@.len() == N
        &&& self.hardware().is_ready()
        &&& self.hardware().staged().len() == N * SPI_BYTES_PER_PX
    }

    /// Takes the device, initialises it, and starts with every channel at zero.
    pub fn new(hardware_device: H) -> (r: Self)
        requires
            hardware_device.preamble().len() + N * SPI_BYTES_PER_PX <= usize::MAX,
        ensures
            r@ == dark(N as nat),
            r@.len() == N,
            r.wf(),
            r.hardware().staged() == reset_signal((N * SPI_BYTES_PER_PX) as nat),
            r.hardware().frames() == hardware_device.frames(),
            r.hardware().preamble() == hardware_device.preamble(),
    {
        let mut hw_dev = hardware_device;
        hw_dev.init();
        let leds: [u8; N] = [0; N];
        assert(leds@ =~= dark(N as nat));
        LEDs { leds, hw_dev }
    }

    /// Overwrites the channel values of node `idx`; the other nodes keep
    /// theirs. Nothing is sent.
    pub fn set_node(&mut self, idx: usize, node: [u8; M])
        requires
            idx * M + M <= N,
        ensures
            final(self)@ == old(self)@.subrange(0, idx * M) + node@ + old(self)@.subrange(
                idx * M + M,
                N as int,
            ),
            final(self)@.subrange(idx * M, idx * M + M) == node@,
            final(self)@.len() == N,
            final(self).hardware() == old(self).hardware(),
    {
        let start: usize = idx * M;
        let mut j: usize = 0;
        while j < M
            invariant
                start == idx * M,
                start + M <= N,
                j <= M,
                self.hw_dev == old(self).hw_dev,
                forall|k: int|
                    0 <= k < N ==> #[trigger] self.leds@[k] == if start <= k < start + j {
                        node@[k - start]
                    } else {
                        old(self).leds@[k]
                    },
            decreases M - j,
        {
            self.leds[start + j] = node[j];
            j = j + 1;
        }
        assert(self.leds@ =~= old(self)@.subrange(0, idx * M) + node@ + old(self)@.subrange(
            idx * M + M,
            N as int,
        ));
        assert(self.leds@.subrange(idx * M, idx * M + M) =~= node@);
    }

    /// The channel values of node `idx`.
    pub fn get_node(&self, idx: usize) -> (node: [u8; M])
        requires
            idx * M + M <= N,
        ensures
            node@ == self@.subrange(idx * M, idx * M + M),
            node@.len() == M,
    {
        let start: usize = idx * M;
        let mut node: [u8; M] = [0; M];
        let mut j: usize = 0;
        while j < M
            invariant
                start == idx * M,
                start + M <= N,
                j <= M,
                forall|k: int| 0 <= k < j ==> #[trigger] node@[k] == self.leds@[start + k],
            decreases M - j,
        {
            node[j] = self.leds[start + j];
            j = j + 1;
        }
        assert(node@ =~= self@.subrange(idx * M, idx * M + M));
        node
    }

    /// All the channel values, node after node.
    pub fn buffer(&self) -> (r: &[u8; N])
        ensures
            r@ == self@,
    {
        &self.leds
    }

    /// The device that the strip writes to.
    pub fn hw_dev(&self) -> (r: &H)
        ensures
            *r == self.hardware(),
    {
        &self.hw_dev
    }

    /// Hands every channel value to the device, which encodes them and sends
    /// them in one frame. The device's result is returned as it is.
    pub fn write(&mut self) -> (r: Result<(), HardwareError>)
        requires
            old(self).wf(),
        ensures
            final(self)@ == old(self)@,
            final(self).wf(),
            final(self).hardware().preamble() == old(self).hardware().preamble(),
            r is Ok ==> final(self).hardware().frames() == old(self).hardware().frames().push(
                frame_of(old(self).hardware().preamble(), old(self)@),
            ),
            r is Err ==> final(self).hardware().frames() == old(self).hardware().frames() && r
                == transmission_failure(old(self).hardware().preamble().len() + N * SPI_BYTES_PER_PX),
    {
        proof {
            lemma_slice_waveform_len(self.leds@);
            let staged = self.hw_dev.staged();
            assert(restage(staged, self.leds@) =~= slice_waveform(self.leds@));
        }
        self.hw_dev.encode_and_write(self.leds.as_slice())
    }

    /// Sets every channel to zero, then writes the strip.
    pub fn clear(&mut self) -> (r: Result<(), HardwareError>)
        requires
            old(self).wf(),
        ensures
            final(self)@ == dark(N as nat),
            final(self).wf(),
            final(self).hardware().preamble() == old(self).hardware().preamble(),
            r is Ok ==> final(self).hardware().frames() == old(self).hardware().frames().push(
                frame_of(old(self).hardware().preamble(), dark(N as nat)),
            ),
            r is Err ==> final(self).hardware().frames() == old(self).hardware().frames() && r
                == transmission_failure(old(self).hardware().preamble().len() + N * SPI_BYTES_PER_PX),
    {
        let mut i: usize = 0;
        while i < N
            invariant
                i <= N,
                self.hw_dev == old(self).hw_dev,
                forall|k: int| 0 <= k < i ==> #[trigger] self.leds@[k] == 0u8,
            decreases N - i,
        {
            self.leds[i] = 0;
            i = i + 1;
        }
        assert(self.leds@ =~= dark(N as nat));
        self.write()
    }
}

} // verus!

use ws28xx_n_channel_spi::encoding::{SPI_BYTES_PER_PX, SPI_BYTES_PER_RESET};
use ws28xx_n_channel_spi::{
    encode_slice, GenericHardware, HardwareDev, HardwareError, WS28xxGenAdapter, LEDs,
};

/// A port that keeps every transfer it accepts, or that breaks off every
/// transfer after `fail_after` bytes.
#[derive(Default)]
struct RecordingPort {
    transfers: Vec<Vec<u8>>,
    fail_after: Option<usize>,
    delivered: usize,
}

impl HardwareDev for RecordingPort {
    type Error = usize;

    fn write_all(&mut self, encoded_data: &[u8]) -> Result<(), usize> {
        match self.fail_after {
            Some(k) => {
                self.delivered = k.min(encoded_data.len());
                Err(self.delivered)
            }
            None => {
                self.transfers.push(encoded_data.to_vec());
                Ok(())
            }
        }
    }
}

fn failing_port(k: usize) -> RecordingPort {
    RecordingPort { fail_after: Some(k), ..Default::default() }
}

type Strip = LEDs<9, 3, WS28xxGenAdapter<RecordingPort>>;

#[test]
fn new_strip_is_dark() {
    let strip: Strip = LEDs::new(WS28xxGenAdapter::new(RecordingPort::default()));
    assert_eq!(strip.buffer(), &[0u8; 9]);
    assert!(strip.hw_dev().get_hw_dev().transfers.is_empty());
}

#[test]
fn set_node_scenario_rgb() {
    let mut strip: Strip = LEDs::new(WS28xxGenAdapter::new(RecordingPort::default()));
    strip.set_node(1, [0, 50, 30]);
    assert_eq!(strip.buffer()[3..6], [0, 50, 30]);
    assert_eq!(strip.buffer()[0..3], [0, 0, 0]);
    assert_eq!(strip.buffer()[6..9], [0, 0, 0]);
}

#[test]
fn set_node_then_get_node_reads_back() {
    let mut strip: Strip = LEDs::new(WS28xxGenAdapter::new(RecordingPort::default()));
    strip.set_node(0, [1, 2, 3]);
    strip.set_node(2, [7, 8, 9]);
    strip.set_node(1, [4, 5, 6]);
    assert_eq!(strip.get_node(0), [1, 2, 3]);
    assert_eq!(strip.get_node(1), [4, 5, 6]);
    assert_eq!(strip.get_node(2), [7, 8, 9]);
    strip.set_node(1, [10, 11, 12]);
    assert_eq!(strip.get_node(1), [10, 11, 12]);
    assert_eq!(strip.get_node(0), [1, 2, 3]);
    assert_eq!(strip.get_node(2), [7, 8, 9]);
}

#[test]
fn set_node_last_node() {
    let mut strip: Strip = LEDs::new(WS28xxGenAdapter::new(RecordingPort::default()));
    strip.set_node(2, [255, 255, 255]);
    assert_eq!(strip.buffer(), &[0, 0, 0, 0, 0, 0, 255, 255, 255]);
}

#[test]
fn write_sends_encoded_buffer_in_one_transfer() {
    let mut strip: Strip = LEDs::new(WS28xxGenAdapter::new(RecordingPort::default()));
    strip.set_node(1, [0, 50, 30]);
    assert_eq!(strip.write(), Ok(()));
    let transfers = &strip.hw_dev().get_hw_dev().transfers;
    assert_eq!(transfers.len(), 1);
    assert_eq!(transfers[0].len(), 9 * SPI_BYTES_PER_PX);
    assert_eq!(transfers[0], encode_slice(&[0, 0, 0, 0, 50, 30, 0, 0, 0]));
    assert_eq!(strip.buffer()[3..6], [0, 50, 30]);
}

#[test]
fn write_with_reset_prefix() {
    let mut strip: Strip = LEDs::new(WS28xxGenAdapter::with_reset(RecordingPort::default()));
    strip.set_node(0, [255, 0, 1]);
    assert_eq!(strip.write(), Ok(()));
    let transfers = &strip.hw_dev().get_hw_dev().transfers;
    assert_eq!(transfers.len(), 1);
    let frame = &transfers[0];
    assert_eq!(frame.len(), SPI_BYTES_PER_RESET + 9 * SPI_BYTES_PER_PX);
    assert!(frame[..SPI_BYTES_PER_RESET].iter().all(|b| *b == 0));
    assert_eq!(frame[SPI_BYTES_PER_RESET..], encode_slice(&[255, 0, 1, 0, 0, 0, 0, 0, 0])[..]);
}

#[test]
fn clear_zeroes_every_node_and_writes() {
    let mut strip: Strip = LEDs::new(WS28xxGenAdapter::new(RecordingPort::default()));
    strip.set_node(0, [1, 2, 3]);
    strip.set_node(2, [9, 9, 9]);
    assert_eq!(strip.clear(), Ok(()));
    for idx in 0..3 {
        assert_eq!(strip.get_node(idx), [0, 0, 0]);
    }
    let transfers = &strip.hw_dev().get_hw_dev().transfers;
    assert_eq!(transfers.len(), 1);
    assert_eq!(transfers[0], encode_slice(&[0; 9]));
}

#[test]
fn failed_write_reports_attempted_length() {
    let mut strip: Strip = LEDs::new(WS28xxGenAdapter::new(failing_port(5)));
    strip.set_node(0, [1, 2, 3]);
    let r = strip.write();
    assert_eq!(r, Err(HardwareError::Transmission { attempted: 9 * SPI_BYTES_PER_PX }));
    assert_eq!(strip.hw_dev().get_hw_dev().delivered, 5);
    assert_eq!(strip.get_node(0), [1, 2, 3]);
}

#[test]
fn failed_clear_reports_attempted_length() {
    let mut strip: Strip = LEDs::new(WS28xxGenAdapter::with_reset(failing_port(0)));
    strip.set_node(1, [1, 2, 3]);
    let r = strip.clear();
    assert_eq!(
        r,
        Err(HardwareError::Transmission { attempted: SPI_BYTES_PER_RESET + 9 * SPI_BYTES_PER_PX })
    );
    assert_eq!(strip.get_node(1), [0, 0, 0]);
}

#[test]
fn write_raw_failure_carries_attempted_not_delivered() {
    let mut device = WS28xxGenAdapter::new(failing_port(3));
    let raw = [1u8, 2, 3, 4, 5, 6, 7, 8, 9, 10];
    let r = GenericHardware::<4>::write_raw(&mut device, &raw);
    assert_eq!(r, Err(HardwareError::Transmission { attempted: 10 }));
    assert_eq!(device.get_hw_dev().delivered, 3);
}

#[test]
fn write_raw_sends_bytes_verbatim() {
    let mut device = WS28xxGenAdapter::new(RecordingPort::default());
    let raw = [0xde, 0xad, 0xbe, 0xef];
    assert_eq!(GenericHardware::<2>::write_raw(&mut device, &raw), Ok(()));
    assert_eq!(device.get_hw_dev().transfers, vec![raw.to_vec()]);
}

#[test]
fn init_is_idempotent_and_encode_and_write_fills_frame() {
    let mut device = WS28xxGenAdapter::with_reset(RecordingPort::default());
    GenericHardware::<2>::init(&mut device);
    GenericHardware::<2>::init(&mut device);
    assert_eq!(GenericHardware::<2>::encode_and_write(&mut device, &[0xff, 0x00]), Ok(()));
    assert_eq!(GenericHardware::<2>::encode_and_write(&mut device, &[0x0f, 0xf0]), Ok(()));
    let transfers = &device.get_hw_dev().transfers;
    assert_eq!(transfers.len(), 2);
    let mut expected = vec![0u8; SPI_BYTES_PER_RESET];
    expected.extend(encode_slice(&[0x0f, 0xf0]));
    assert_eq!(transfers[1], expected);
}

#[test]
fn strip_of_one_channel_nodes() {
    let mut strip: LEDs<4, 1, WS28xxGenAdapter<RecordingPort>> =
        LEDs::new(WS28xxGenAdapter::new(RecordingPort::default()));
    strip.set_node(3, [42]);
    assert_eq!(strip.buffer(), &[0, 0, 0, 42]);
    assert_eq!(strip.write(), Ok(()));
    assert_eq!(strip.hw_dev().get_hw_dev().transfers[0], encode_slice(&[0, 0, 0, 42]));
}

#[test]
fn encode_and_write_shorter_input_keeps_rest_of_frame() {
    let mut device = WS28xxGenAdapter::new(RecordingPort::default());
    GenericHardware::<3>::init(&mut device);
    assert_eq!(GenericHardware::<3>::encode_and_write(&mut device, &[1, 2, 3]), Ok(()));
    assert_eq!(GenericHardware::<3>::encode_and_write(&mut device, &[9]), Ok(()));
    let transfers = &device.get_hw_dev().transfers;
    assert_eq!(transfers[1].len(), 3 * SPI_BYTES_PER_PX);
    assert_eq!(transfers[1], encode_slice(&[9, 2, 3]));
}

#[test]
fn encode_and_write_shorter_input_after_init_is_zero_waveform() {
    let mut device = WS28xxGenAdapter::with_reset(RecordingPort::default());
    GenericHardware::<2>::init(&mut device);
    assert_eq!(GenericHardware::<2>::encode_and_write(&mut device, &[]), Ok(()));
    let mut expected = vec![0u8; SPI_BYTES_PER_RESET];
    expected.extend(vec![0u8; 2 * SPI_BYTES_PER_PX]);
    assert_eq!(device.get_hw_dev().transfers[0], expected);
}

#[test]
fn reset_device_failure_reports_whole_frame_length() {
    let mut device = WS28xxGenAdapter::with_reset(failing_port(7));
    GenericHardware::<4>::init(&mut device);
    let r = GenericHardware::<4>::encode_and_write(&mut device, &[1, 2]);
    assert_eq!(
        r,
        Err(HardwareError::Transmission { attempted: SPI_BYTES_PER_RESET + 4 * SPI_BYTES_PER_PX })
    );
    assert_eq!(device.get_hw_dev().delivered, 7);
}

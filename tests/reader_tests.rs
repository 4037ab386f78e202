use std::cell::Cell;

use futures::Future;

use edf_reader::check_bounds;
use edf_reader::decimal::Decimal;
use edf_reader::error::EdfError;
use edf_reader::file_reader::{MemoryReader, SyncFileReader};
use edf_reader::model::{EDFHeader, Ratio};
use edf_reader::sync_reader::SyncEDFReader;
use edf_reader::window::{decode_window, plan_window, WindowPlan};

const SAMPLING_RATE: usize = 200;

fn field(text: &str, width: usize) -> Vec<u8> {
    let mut bytes = text.as_bytes().to_vec();
    assert!(bytes.len() <= width);
    bytes.resize(width, b' ');
    bytes
}

struct ChannelSpec {
    label: &'static str,
    physical_minimum: &'static str,
    physical_maximum: &'static str,
    digital_minimum: &'static str,
    digital_maximum: &'static str,
    samples: usize,
}

fn general_header(date: &str, time: &str, blocks: &str, seconds: &str, signals: usize) -> Vec<u8> {
    let mut out = Vec::new();
    out.extend(field("0", 8));
    out.extend(field("patient X", 80));
    out.extend(field("recording Y", 80));
    out.extend(field(date, 8));
    out.extend(field(time, 8));
    out.extend(field(&(256 * (signals + 1)).to_string(), 8));
    out.extend(field("reserved", 44));
    out.extend(field(blocks, 8));
    out.extend(field(seconds, 8));
    out.extend(field(&signals.to_string(), 4));
    out
}

fn channel_headers(channels: &[ChannelSpec]) -> Vec<u8> {
    let mut out = Vec::new();
    for c in channels {
        out.extend(field(c.label, 16));
    }
    for _ in channels {
        out.extend(field("AgAgCl electrode", 80));
    }
    for _ in channels {
        out.extend(field("uV", 8));
    }
    for c in channels {
        out.extend(field(c.physical_minimum, 8));
    }
    for c in channels {
        out.extend(field(c.physical_maximum, 8));
    }
    for c in channels {
        out.extend(field(c.digital_minimum, 8));
    }
    for c in channels {
        out.extend(field(c.digital_maximum, 8));
    }
    for _ in channels {
        out.extend(field("HP:0.1Hz", 80));
    }
    for c in channels {
        out.extend(field(&c.samples.to_string(), 8));
    }
    for _ in channels {
        out.extend(field("", 32));
    }
    out
}

fn channel(label: &'static str, samples: usize) -> ChannelSpec {
    ChannelSpec {
        label,
        physical_minimum: "-1000",
        physical_maximum: "1000",
        digital_minimum: "-32768",
        digital_maximum: "32767",
        samples,
    }
}

/// Twelve channels sampled at 200 Hz in blocks of one second; channel 0 is a
/// square wave of period ten seconds and amplitude 100 uV, channel 1 a ramp.
fn generator_file(blocks: usize) -> Vec<u8> {
    let labels = [
        "squarewave", "ramp", "pulse", "ECG", "noise", "sine 1 Hz", "sine 8 Hz", "sine 8.5 Hz",
        "sine 15 Hz", "sine 17 Hz", "sine 50 Hz", "events",
    ];
    let channels: Vec<ChannelSpec> = labels
        .iter()
        .enumerate()
        .map(|(i, l)| channel(l, if i == 11 { 10 } else { SAMPLING_RATE }))
        .collect();
    let mut out = general_header("01.01.20", "00.00.00", &blocks.to_string(), "1", 12);
    out.extend(channel_headers(&channels));
    for b in 0..blocks {
        for (j, c) in channels.iter().enumerate() {
            for k in 0..c.samples {
                let sample: i16 = match j {
                    0 => {
                        if (b % 10) < 5 {
                            3277
                        } else {
                            -3277
                        }
                    }
                    1 => (k as i16) * 100,
                    _ => (b as i16) + (j as i16),
                };
                out.extend(sample.to_le_bytes());
            }
        }
    }
    out
}

fn to_f64(r: &Ratio) -> f64 {
    r.numerator as f64 / r.denominator as f64
}

fn get_sync_reader() -> SyncEDFReader<MemoryReader> {
    SyncEDFReader::init_with_file_reader(MemoryReader::new(generator_file(120))).unwrap()
}

fn run_assert(data: &Vec<Vec<Ratio>>, edf_header: &EDFHeader) {
    assert_eq!(edf_header.channels.len(), data.len());
    let data_ch0 = &data[0];
    assert_eq!(SAMPLING_RATE * 10, data_ch0.len());
    let delta_error = 0.1;
    for i in 0..SAMPLING_RATE * 5 {
        assert!((to_f64(&data_ch0[i]) - 100.0).abs() < delta_error);
    }
    for i in 5 * SAMPLING_RATE..10 * SAMPLING_RATE {
        assert!((to_f64(&data_ch0[i]) + 100.0).abs() < delta_error);
    }
}

fn read_sync(offset: u64) {
    let edf_reader = get_sync_reader();
    let data = edf_reader.read_data_window(offset, 10 * 1000).unwrap();
    run_assert(&data, &edf_reader.edf_header);
}

/// A source that counts its reads.
struct CountingReader {
    inner: MemoryReader,
    reads: Cell<usize>,
}

impl SyncFileReader for CountingReader {
    fn read(&self, offset: u64, length: u64) -> Result<Vec<u8>, EdfError> {
        self.reads.set(self.reads.get() + 1);
        self.inner.read(offset, length)
    }
}

#[test]
fn integration_tests_parse_header() {
    let edf_reader = get_sync_reader();
    let h = &edf_reader.edf_header;
    assert_eq!("0", h.file_version);
    assert_eq!("patient X", h.local_patient_identification);
    assert_eq!("recording Y", h.local_recording_identification);
    assert_eq!("01.01.20", h.start_date);
    assert_eq!("00.00.00", h.start_time);
    assert_eq!(1577836800000, h.record_start_time_in_ms);
    assert_eq!(256 * 13, h.byte_size_header);
    assert_eq!(120, h.number_of_blocks);
    assert_eq!(1000, h.block_duration);
    assert_eq!(12, h.number_of_signals);
    assert_eq!("squarewave", h.channels[0].label);
    assert_eq!("AgAgCl electrode", h.channels[0].transducter_type);
    assert_eq!("uV", h.channels[0].physical_dimension);
    assert_eq!("HP:0.1Hz", h.channels[0].prefiltering);
    assert_eq!("events", h.channels[11].label);
    assert_eq!(200, h.channels[0].number_of_samples_in_data_record);
    assert_eq!(10, h.channels[11].number_of_samples_in_data_record);
}

#[test]
fn read_data() {
    read_sync(0);
    read_sync(10 * 1000);
    read_sync(60 * 1000);
}

/// Decodes the header with each read delivered by a futures-0.1 future, as a
/// non-blocking reader does.
fn header_through_futures(bytes: Vec<u8>) -> EDFHeader {
    let first = bytes[0..256].to_vec();
    futures::future::ok::<Vec<u8>, EdfError>(first)
        .and_then(EDFHeader::build_general_header)
        .and_then(move |mut header| {
            let (offset, length) = header.channel_records_range();
            let records = bytes[offset as usize..(offset + length) as usize].to_vec();
            futures::future::ok::<Vec<u8>, EdfError>(records).and_then(move |records| {
                header.build_channel_headers(records)?;
                Ok(header)
            })
        })
        .wait()
        .unwrap()
}

#[test]
fn integration_tests_async_parse_header() {
    let async_header = header_through_futures(generator_file(120));
    let sync_edf_reader = get_sync_reader();
    assert_eq!(async_header.channels.len(), 12);
    assert_eq!(sync_edf_reader.edf_header.channels.len(), 12);
    assert_eq!(sync_edf_reader.edf_header, async_header);
}

#[test]
fn read_sync_multiples_windows() {
    read_sync(0);
    read_sync(10 * 1000);
    read_sync(60 * 1000);
}

#[test]
fn channel_lengths_follow_samples_per_block() {
    let edf_reader = get_sync_reader();
    let data = edf_reader.read_data_window(0, 10000).unwrap();
    assert_eq!(12, data.len());
    assert_eq!(2000, data[0].len());
    assert_eq!(100, data[11].len());
    let ramp: Vec<f64> = data[1][0..3].iter().map(to_f64).collect();
    assert!((ramp[0] - 0.0152590218966964).abs() < 1e-9);
    assert!((ramp[1] - (100.0 * 2000.0 / 65535.0 + 0.0152590218966964)).abs() < 1e-9);
    assert_eq!(Ratio { numerator: 1000, denominator: 65535 }, data[1][0]);
    assert!((to_f64(&data[11][10]) - (-1000.0 + (1.0 + 11.0 + 32768.0) * 2000.0 / 65535.0)).abs() < 1e-9);
}

#[test]
fn window_out_of_bounds_reads_nothing() {
    let counted = CountingReader { inner: MemoryReader::new(generator_file(120)), reads: Cell::new(0) };
    let edf_reader = SyncEDFReader::init_with_file_reader(counted).unwrap();
    assert_eq!(2, edf_reader.file_reader.reads.get());
    assert_eq!(Err(EdfError::WindowOutOfBounds), edf_reader.read_data_window(115000, 5001));
    assert_eq!(Err(EdfError::WindowOutOfBounds), edf_reader.read_data_window(u64::MAX, 1));
    assert_eq!(2, edf_reader.file_reader.reads.get());
    assert!(edf_reader.read_data_window(115000, 5000).is_ok());
    assert_eq!(3, edf_reader.file_reader.reads.get());
}

#[test]
fn reading_twice_gives_the_same_window() {
    let edf_reader = get_sync_reader();
    let first = edf_reader.read_data_window(12345, 6789).unwrap();
    let second = edf_reader.read_data_window(12345, 6789).unwrap();
    assert_eq!(first, second);
}

#[test]
fn unaligned_window_is_widened_to_whole_blocks() {
    let edf_reader = get_sync_reader();
    let data = edf_reader.read_data_window(1500, 1200).unwrap();
    assert_eq!(2 * SAMPLING_RATE, data[0].len());
    let aligned = edf_reader.read_data_window(1000, 2000).unwrap();
    assert_eq!(aligned, data);
}

#[test]
fn empty_window_has_empty_channels() {
    let edf_reader = get_sync_reader();
    let data = edf_reader.read_data_window(3000, 0).unwrap();
    assert_eq!(12, data.len());
    assert!(data.iter().all(|c| c.is_empty()));
}

#[test]
fn truncated_file_fails_with_io_failure() {
    let mut bytes = generator_file(120);
    bytes.truncate(bytes.len() - 1);
    let edf_reader = SyncEDFReader::init_with_file_reader(MemoryReader::new(bytes)).unwrap();
    assert_eq!(Err(EdfError::IoFailure), edf_reader.read_data_window(119000, 1000));
    assert!(edf_reader.read_data_window(118000, 1000).is_ok());
}

#[test]
fn plan_window_places_blocks() {
    let edf_reader = get_sync_reader();
    let h = &edf_reader.edf_header;
    let block = h.get_size_of_data_block();
    assert_eq!(2 * (11 * 200 + 10), block);
    assert_eq!(
        Ok(WindowPlan { offset: 3328 + 2 * block, length: 3 * block, blocks: 3 }),
        plan_window(h, 2999, 2001)
    );
    assert_eq!(Ok(()), check_bounds(0, 120000, h));
    assert_eq!(Err(EdfError::WindowOutOfBounds), check_bounds(1, 120000, h));
}

#[test]
fn decode_window_demultiplexes_blocks() {
    let edf_reader = get_sync_reader();
    let h = &edf_reader.edf_header;
    let plan = plan_window(h, 5000, 1000).unwrap();
    let bytes = generator_file(120);
    let data = bytes[plan.offset as usize..(plan.offset + plan.length) as usize].to_vec();
    let decoded = decode_window(h, plan.blocks, &data);
    assert_eq!(decoded, edf_reader.read_data_window(5000, 1000).unwrap());
    assert!((to_f64(&decoded[0][0]) + 100.0).abs() < 0.1);
    assert!((to_f64(&decoded[2][0]) - (-1000.0 + (5.0 + 2.0 + 32768.0) * 2000.0 / 65535.0)).abs() < 1e-9);
}

#[test]
fn header_round_trip() {
    let mut bytes = general_header("02.03.21", "04.05.06", "7", "30", 2);
    let h = EDFHeader::build_general_header(bytes.clone()).unwrap();
    assert_eq!("02.03.21", h.start_date);
    assert_eq!("04.05.06", h.start_time);
    assert_eq!(1614657906000, h.record_start_time_in_ms);
    assert_eq!(768, h.byte_size_header);
    assert_eq!(7, h.number_of_blocks);
    assert_eq!(30000, h.block_duration);
    assert_eq!(2, h.number_of_signals);
    assert!(h.channels.is_empty());
    let specs = [
        ChannelSpec {
            label: "EEG Fpz-Cz",
            physical_minimum: "-3200.5",
            physical_maximum: "3200.5",
            digital_minimum: "-2048",
            digital_maximum: "2047",
            samples: 100,
        },
        ChannelSpec {
            label: "Temp",
            physical_minimum: "34",
            physical_maximum: "40.25",
            digital_minimum: "0",
            digital_maximum: "625",
            samples: 1,
        },
    ];
    let mut header = h.clone();
    header.build_channel_headers(channel_headers(&specs)).unwrap();
    let c = &header.channels[0];
    assert_eq!("EEG Fpz-Cz", c.label);
    assert_eq!(Decimal { mantissa: -32005, scale: 1 }, c.physical_minimum);
    assert_eq!(Decimal { mantissa: 32005, scale: 1 }, c.physical_maximum);
    assert_eq!(-2048, c.digital_minimum);
    assert_eq!(2047, c.digital_maximum);
    assert_eq!(100, c.number_of_samples_in_data_record);
    assert_eq!(Ratio { numerator: 64010, denominator: 40950 }, c.scale_factor);
    assert_eq!(Decimal { mantissa: 4025, scale: 2 }, header.channels[1].physical_maximum);
    assert_eq!(2 * 101, header.get_size_of_data_block());
    bytes.truncate(255);
    assert_eq!(Err(EdfError::OutOfData), EDFHeader::build_general_header(bytes));
}

#[test]
fn scale_factor_maps_digital_range_onto_physical_range() {
    let mut h = EDFHeader::build_general_header(general_header("", "", "1", "1", 1)).unwrap();
    assert_eq!(0, h.record_start_time_in_ms);
    let specs = [ChannelSpec {
        label: "x",
        physical_minimum: "-0.5",
        physical_maximum: "12",
        digital_minimum: "-100",
        digital_maximum: "150",
        samples: 4,
    }];
    h.build_channel_headers(channel_headers(&specs)).unwrap();
    let c = &h.channels[0];
    assert_eq!(Ratio { numerator: 125, denominator: 2500 }, c.scale_factor);
    assert!((to_f64(&c.to_physical(-100)) + 0.5).abs() < 1e-12);
    assert!((to_f64(&c.to_physical(150)) - 12.0).abs() < 1e-12);
    assert!((to_f64(&c.to_physical(0)) - 4.5).abs() < 1e-12);
}

#[test]
fn header_errors() {
    let bad_number = general_header("01.01.20", "00.00.00", "x", "1", 1);
    assert_eq!(Err(EdfError::MalformedNumber), EDFHeader::build_general_header(bad_number));
    let bad_date = general_header("32.13.20", "00.00.00", "1", "1", 1);
    assert_eq!(Err(EdfError::MalformedDate), EDFHeader::build_general_header(bad_date));
    let bad_time = general_header("01.01.20", "25.00", "1", "1", 1);
    assert_eq!(Err(EdfError::MalformedDate), EDFHeader::build_general_header(bad_time));
    let mut bad_text = general_header("01.01.20", "00.00.00", "1", "1", 1);
    bad_text[10] = 0xff;
    assert_eq!(Err(EdfError::MalformedText), EDFHeader::build_general_header(bad_text));

    let h = EDFHeader::build_general_header(general_header("", "", "1", "1", 1)).unwrap();
    let degenerate = [ChannelSpec {
        label: "flat",
        physical_minimum: "0",
        physical_maximum: "1",
        digital_minimum: "5",
        digital_maximum: "5",
        samples: 1,
    }];
    let mut copy = h.clone();
    assert_eq!(Err(EdfError::DegenerateChannel), copy.build_channel_headers(channel_headers(&degenerate)));
    assert_eq!(h, copy);
    let bad_bound = [ChannelSpec {
        label: "bad",
        physical_minimum: "low",
        physical_maximum: "1",
        digital_minimum: "0",
        digital_maximum: "5",
        samples: 1,
    }];
    assert_eq!(Err(EdfError::MalformedNumber), copy.build_channel_headers(channel_headers(&bad_bound)));
    let mut short = channel_headers(&degenerate);
    short.truncate(255);
    assert_eq!(Err(EdfError::OutOfData), copy.build_channel_headers(short));
}

/// Fetches the window's bytes through a futures-0.1 source and decodes them
/// when the future completes, as a non-blocking reader does.
fn read_async(offset: u64) {
    let edf_reader = get_sync_reader();
    let header = edf_reader.edf_header.clone();
    let plan = plan_window(&header, offset, 10 * 1000).unwrap();
    let bytes = generator_file(120);
    let range = bytes[plan.offset as usize..(plan.offset + plan.length) as usize].to_vec();
    let data = futures::future::ok::<Vec<u8>, EdfError>(range)
        .map(move |data| decode_window(&header, plan.blocks, &data))
        .wait()
        .unwrap();
    assert_eq!(edf_reader.read_data_window(offset, 10 * 1000).unwrap(), data);
    run_assert(&data, &edf_reader.edf_header);
}

#[test]
fn read_async_multiples_windows() {
    read_async(0);
    read_async(10 * 1000);
    read_async(60 * 1000);
}

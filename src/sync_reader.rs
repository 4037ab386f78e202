//! Reads an EDF file through a blocking byte source.
use vstd::prelude::*;
use crate::error::EdfError;
use crate::file_reader::SyncFileReader;
use crate::model::{EDFHeader, EDF_HEADER_BYTE_SIZE, Ratio};
use crate::window::{
    blocks_to_fetch, decode_window, plan_window, recording_duration, window_decoded,
    window_length, window_offset,
};

verus! {

/// `v` is a window of `duration` milliseconds of a file with header `h`, decoded
/// from `data`, the bytes of the whole blocks that cover it.
pub open spec fn window_read(h: EDFHeader, data: Seq<u8>, duration: int, v: Seq<Vec<Ratio>>) -> bool {
    &&& data.len() == window_length(h, duration)
    &&& window_decoded(h, data, blocks_to_fetch(h, duration), v)
}

/// `v` is the window `[start, start + duration)` of a file with header `h`,
/// decoded from the bytes that the source delivered for it.
pub open spec fn window_of_file(h: EDFHeader, start: int, duration: int, v: Seq<Vec<Ratio>>) -> bool {
    exists|data: Seq<u8>| #[trigger] window_read(h, data, duration, v)
}

/// `h` is the header decoded from some main header and the channel records
/// that follow it.
pub open spec fn header_of_file(h: EDFHeader) -> bool {
    exists|general: Seq<u8>, records: Seq<u8>| #[trigger] h.decoded_from(general, records)
}

/// An EDF file opened through a blocking byte source: its header, decoded once,
/// and the source for reading windows of samples.
pub struct SyncEDFReader<T: SyncFileReader> {
    pub edf_header: EDFHeader,
    pub file_reader: T,
}

impl<T: SyncFileReader> SyncEDFReader<T> {
    pub open spec fn wf(&self) -> bool {
        self.edf_header.wf()
    }

    /// Reads the main header (bytes `[0, 256)`), decodes it, then reads the
    /// channel records (the range `channel_records_range` gives) and decodes them.
    pub fn init_with_file_reader(file_reader: T) -> (r: Result<SyncEDFReader<T>, EdfError>)
        ensures
            r matches Ok(reader) ==> reader.wf() && header_of_file(reader.edf_header),
            r matches Err(e) ==> e == EdfError::IoFailure || e == EdfError::MalformedText || e
                == EdfError::MalformedNumber || e == EdfError::MalformedDate || e
                == EdfError::DegenerateChannel,
    {
        let general_header_raw = match file_reader.read(0, EDF_HEADER_BYTE_SIZE as u64) {
            Ok(d) => d,
            Err(e) => return Err(e),
        };
        let ghost g = general_header_raw@;
        let mut edf_header = match EDFHeader::build_general_header(general_header_raw) {
            Ok(h) => h,
            Err(e) => return Err(e),
        };
        let (offset, length) = edf_header.channel_records_range();
        let channel_headers_raw = match file_reader.read(offset, length) {
            Ok(d) => d,
            Err(e) => return Err(e),
        };
        let ghost c = channel_headers_raw@;
        match edf_header.build_channel_headers(channel_headers_raw) {
            Ok(()) => {},
            Err(e) => return Err(e),
        }
        assert(edf_header.decoded_from(g, c));
        assert(header_of_file(edf_header));
        Ok(SyncEDFReader { edf_header, file_reader })
    }

    /// Reads the samples of `[start_time_ms, start_time_ms + duration_ms)`,
    /// widened to whole blocks, in physical units, one sequence per channel.
    pub fn read_data_window(&self, start_time_ms: u64, duration_ms: u64) -> (r: Result<
        Vec<Vec<Ratio>>,
        EdfError,
    >)
        requires
            self.wf(),
        ensures
            start_time_ms + duration_ms > recording_duration(self.edf_header) ==> r == Err::<
                Vec<Vec<Ratio>>,
                EdfError,
            >(EdfError::WindowOutOfBounds),
            start_time_ms + duration_ms <= recording_duration(self.edf_header) ==> {
                let fits = window_offset(self.edf_header, start_time_ms as int) <= u64::MAX
                    && window_length(self.edf_header, duration_ms as int) <= u64::MAX;
                &&& !fits ==> r == Err::<Vec<Vec<Ratio>>, EdfError>(EdfError::RangeOverflow)
                &&& fits ==> (r matches Ok(v) ==> window_of_file(
                    self.edf_header,
                    start_time_ms as int,
                    duration_ms as int,
                    v@,
                ))
                &&& fits ==> (r matches Err(e) ==> e == EdfError::IoFailure)
            },
    {
        let plan = match plan_window(&self.edf_header, start_time_ms, duration_ms) {
            Ok(p) => p,
            Err(e) => return Err(e),
        };
        let data = match self.file_reader.read(plan.offset, plan.length) {
            Ok(d) => d,
            Err(e) => return Err(e),
        };
        assert(plan.length == plan.blocks * self.edf_header.spec_size_of_data_block());
        let v = decode_window(&self.edf_header, plan.blocks, &data);
        assert(window_read(self.edf_header, data@, duration_ms as int, v@));
        assert(window_of_file(self.edf_header, start_time_ms as int, duration_ms as int, v@));
        Ok(v)
    }
}

/// Two windows read with the same header from the same bytes, with the same
/// start and duration, are identical: reading has no hidden state, and the
/// result does not depend on which source delivered the bytes.
pub proof fn lemma_window_deterministic(
    h: EDFHeader,
    data: Seq<u8>,
    duration: int,
    v1: Seq<Vec<Ratio>>,
    v2: Seq<Vec<Ratio>>,
)
    requires
        h.wf(),
        window_read(h, data, duration, v1),
        window_read(h, data, duration, v2),
    ensures
        v1.len() == v2.len(),
        forall|j: int| 0 <= j < v1.len() ==> #[trigger] v1[j]@ == v2[j]@,
{
    let blocks = blocks_to_fetch(h, duration);
    assert forall|j: int| 0 <= j < v1.len() implies #[trigger] v1[j]@ == v2[j]@ by {
        assert(crate::window::channel_decoded(h, data, blocks, j, v1[j]@));
        assert(crate::window::channel_decoded(h, data, blocks, j, v2[j]@));
        assert forall|p: int| 0 <= p < v1[j]@.len() implies v1[j]@[p] == v2[j]@[p] by {
            assert(crate::window::sample_matches(h, data, j, p, v1[j]@[p]));
            assert(crate::window::sample_matches(h, data, j, p, v2[j]@[p]));
        }
        assert(v1[j]@ =~= v2[j]@);
    }
}

/// Two headers decoded from the same main header and channel records are the
/// same header, field by field, whichever source delivered the bytes.
pub proof fn lemma_header_deterministic(h1: EDFHeader, h2: EDFHeader, general: Seq<u8>, records: Seq<u8>)
    requires
        h1.decoded_from(general, records),
        h2.decoded_from(general, records),
    ensures
        h1.file_version@ == h2.file_version@,
        h1.local_patient_identification@ == h2.local_patient_identification@,
        h1.local_recording_identification@ == h2.local_recording_identification@,
        h1.start_date@ == h2.start_date@,
        h1.start_time@ == h2.start_time@,
        h1.record_start_time_in_ms == h2.record_start_time_in_ms,
        h1.byte_size_header == h2.byte_size_header,
        h1.number_of_blocks == h2.number_of_blocks,
        h1.block_duration == h2.block_duration,
        h1.number_of_signals == h2.number_of_signals,
        h1.channels@.len() == h2.channels@.len(),
        forall|i: int|
            0 <= i < h1.channels@.len() ==> {
                let (c1, c2) = (#[trigger] h1.channels@[i], h2.channels@[i]);
                &&& c1.label@ == c2.label@
                &&& c1.transducter_type@ == c2.transducter_type@
                &&& c1.physical_dimension@ == c2.physical_dimension@
                &&& c1.physical_minimum == c2.physical_minimum
                &&& c1.physical_maximum == c2.physical_maximum
                &&& c1.digital_minimum == c2.digital_minimum
                &&& c1.digital_maximum == c2.digital_maximum
                &&& c1.prefiltering@ == c2.prefiltering@
                &&& c1.number_of_samples_in_data_record == c2.number_of_samples_in_data_record
                &&& c1.scale_factor == c2.scale_factor
            },
{
    assert forall|i: int| 0 <= i < h1.channels@.len() implies {
        let (c1, c2) = (#[trigger] h1.channels@[i], h2.channels@[i]);
        c1.scale_factor == c2.scale_factor
    } by {
        let n = h1.number_of_signals as int;
        assert(h1.channels@[i].matches(records, n, i));
        assert(h2.channels@[i].matches(records, n, i));
        assert(h1.channels@[i].wf());
        assert(h2.channels@[i].wf());
    }
}

} // verus!

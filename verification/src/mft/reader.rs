//! Reading records: the reader interface, the reader over the bytes of the
//! whole `$MFT`, and the loader that gathers those bytes from the volume.

use super::record::{extract_mft_data_runs, mft_runs};
use super::types::{DataRun, MftError};
use crate::error::IoFault;
use crate::text::{decimal, push_decimal};
use crate::win32::{RawFileRecord, VolumeData};
use vstd::prelude::*;
use vstd::slice::{slice_subrange, slice_to_vec};
use vstd::string::*;

verus! {

/// A source of raw records.
pub trait RecordReader {
    /// Reads one record.
    fn read(&self, requested_record: u64) -> Result<RawFileRecord, MftError>;
}

/// What is wrong with a volume's geometry, if anything.
pub open spec fn geometry_fault(v: VolumeData) -> Option<MftError> {
    if v.slot_count == 0 || v.bytes_per_file_record_segment == 0 {
        Some(MftError::InvalidVolumeData)
    } else if v.major_version != 3 || v.minor_version != 1 {
        Some(MftError::UnsupportedNtfsVersion { major: v.major_version, minor: v.minor_version })
    } else {
        None
    }
}

/// Refuses a volume without records or with an NTFS version other than 3.1.
pub fn validate_volume_data(volume_data: &VolumeData) -> (r: Result<(), MftError>)
    ensures
        match r {
            Ok(()) => geometry_fault(*volume_data) is None,
            Err(e) => geometry_fault(*volume_data) == Some(e),
        },
{
    if volume_data.slot_count == 0 || volume_data.bytes_per_file_record_segment == 0 {
        return Err(MftError::InvalidVolumeData);
    }
    if volume_data.major_version != 3 || volume_data.minor_version != 1 {
        return Err(
            MftError::UnsupportedNtfsVersion {
                major: volume_data.major_version,
                minor: volume_data.minor_version,
            },
        );
    }
    Ok(())
}

// ---------------------------------------------------------------------------
// The reader over the whole `$MFT`
// ---------------------------------------------------------------------------

/// Reader over the bytes of the `$MFT`.
pub struct MftFileReader {
    bytes: Vec<u8>,
    record_size: u32,
}

impl MftFileReader {
    /// The bytes of the `$MFT`.
    pub closed spec fn bytes(&self) -> Seq<u8> {
        self.bytes@
    }

    /// The size of one record.
    pub closed spec fn record_size(&self) -> u32 {
        self.record_size
    }

    /// A reader over the given bytes.
    pub fn from_bytes(bytes: Vec<u8>, record_size: u32) -> (r: Self)
        ensures
            r.bytes() == bytes@,
            r.record_size() == record_size,
    {
        MftFileReader { bytes, record_size }
    }

    /// How many whole records there are.
    pub fn record_count(&self) -> (r: u64)
        requires
            self.record_size() > 0,
        ensures
            r == self.bytes().len() / (self.record_size() as nat),
    {
        self.bytes.len() as u64 / self.record_size as u64
    }
}

/// Record `n` of a `$MFT` with the bytes `b`.
pub open spec fn record_slice(b: Seq<u8>, size: int, n: int) -> Option<Seq<u8>> {
    if (n + 1) * size <= b.len() {
        Some(b.subrange(n * size, (n + 1) * size))
    } else {
        None
    }
}

/// The message of a failed read of record `n`.
pub open spec fn read_fault_message(size: int, n: int) -> Seq<char> {
    if n * size > u64::MAX {
        "record offset overflow"@
    } else {
        "record "@ + decimal(n as nat) + " out of range"@
    }
}

impl RecordReader for MftFileReader {
    fn read(&self, requested_record: u64) -> (r: Result<RawFileRecord, MftError>)
        ensures
            match record_slice(
                self.bytes(),
                self.record_size() as int,
                requested_record as int,
            ) {
                Some(b) => r is Ok && r->Ok_0.bytes@ == b && r->Ok_0.file_reference
                    == requested_record,
                None => r matches Err(MftError::Io(f)) && f.code is None && f.message@
                    == read_fault_message(self.record_size() as int, requested_record as int),
            },
    {
        let size: u64 = self.record_size as u64;
        let len: u64 = self.bytes.len() as u64;
        proof {
            assert((requested_record + 1) * size == requested_record * size + size)
                by (nonlinear_arith);
        }
        let offset: u64 = match requested_record.checked_mul(size) {
            Some(v) => v,
            None => {
                return Err(
                    MftError::Io(
                        IoFault { code: None, message: String::from_str("record offset overflow") },
                    ),
                );
            },
        };
        if len < size || offset > len - size {
            let mut message = String::from_str("record ");
            push_decimal(&mut message, requested_record);
            message.append(" out of range");
            return Err(MftError::Io(IoFault { code: None, message }));
        }
        let part = slice_subrange(
            self.bytes.as_slice(),
            offset as usize,
            (offset + size) as usize,
        );
        Ok(RawFileRecord { file_reference: requested_record, bytes: slice_to_vec(part) })
    }
}

// ---------------------------------------------------------------------------
// Loading the `$MFT`
// ---------------------------------------------------------------------------

/// What a loader wants next.
#[derive(Debug, Clone, Copy, PartialEq, Eq, Structural)]
pub enum LoadStep {
    /// Read `len` bytes of the volume at `offset` and supply them.
    Read { offset: u64, len: u64 },
    /// Every run has been gathered.
    Done,
}

/// Gathers the bytes of the `$MFT` run by run. The caller does the reading.
pub struct MftLoader {
    runs: Vec<DataRun>,
    next: usize,
    bytes: Vec<u8>,
    volume: VolumeData,
}

/// Model of a loader: the runs that are still to be gathered, and the bytes so far.
pub struct LoadState {
    pub runs: Seq<DataRun>,
    pub bytes: Seq<u8>,
}

/// `n` zero bytes.
pub open spec fn zeros(n: nat) -> Seq<u8> {
    Seq::new(n, |i: int| 0u8)
}

/// A run that does not fit the volume: it lies before the volume's start, or
/// the bytes gathered would exceed the valid length, or its place or size
/// exceeds 64 bits.
pub open spec fn run_fault(s: LoadState, v: VolumeData) -> bool {
    let run = s.runs[0];
    let size = run.length_clusters * v.bytes_per_cluster;
    ||| run.start_lcn < 0
    ||| size > u64::MAX
    ||| s.bytes.len() + size > v.mft_valid_data_length
    ||| run.start_lcn * v.bytes_per_cluster > u64::MAX
}

/// What comes next: sparse runs are filled with zeros without a read; the first
/// other run is read; a faulty run ends the loading.
pub open spec fn load_step(s: LoadState, v: VolumeData) -> (Result<LoadStep, MftError>, LoadState)
    decreases s.runs.len(),
{
    if s.runs.len() == 0 {
        (Ok(LoadStep::Done), s)
    } else {
        let run = s.runs[0];
        let size = run.length_clusters * v.bytes_per_cluster;
        if run_fault(s, v) {
            (Err(MftError::InvalidVolumeData), s)
        } else if run.start_lcn == 0 {
            load_step(
                LoadState {
                    runs: s.runs.drop_first(),
                    bytes: s.bytes + zeros(size as nat),
                },
                v,
            )
        } else {
            (
                Ok(
                    LoadStep::Read {
                        offset: (run.start_lcn * v.bytes_per_cluster) as u64,
                        len: size as u64,
                    },
                ),
                s,
            )
        }
    }
}

impl MftLoader {
    /// The loader's internal consistency.
    pub closed spec fn wf(&self) -> bool {
        self.next <= self.runs@.len() && self.volume.bytes_per_file_record_segment > 0
    }

    /// The loader's model.
    pub closed spec fn state(&self) -> LoadState {
        LoadState {
            runs: self.runs@.subrange(self.next as int, self.runs@.len() as int),
            bytes: self.bytes@,
        }
    }

    /// The geometry of the volume that is read.
    pub closed spec fn volume(&self) -> VolumeData {
        self.volume
    }

    /// Starts from the raw record 0 of a volume.
    pub fn start(volume_data: VolumeData, record0_bytes: &[u8]) -> (r: Result<Self, MftError>)
        ensures
            match geometry_fault(volume_data) {
                Some(fault) => r is Err && r->Err_0 == fault,
                None => match mft_runs(record0_bytes@, volume_data.bytes_per_sector as int) {
                    Some(runs) => if runs.len() > 0 {
                        r is Ok && r->Ok_0.wf() && r->Ok_0.volume() == volume_data && r->Ok_0.state() == (
                        LoadState { runs, bytes: Seq::empty() })
                    } else {
                        r is Err && r->Err_0 == (MftError::BadRecord { ref_no: 0 })
                    },
                    None => r is Err && r->Err_0 == (MftError::BadRecord { ref_no: 0 }),
                },
            },
    {
        match validate_volume_data(&volume_data) {
            Ok(()) => {},
            Err(e) => {
                return Err(e);
            },
        }
        let runs: Vec<DataRun> = match extract_mft_data_runs(
            record0_bytes,
            volume_data.bytes_per_sector,
        ) {
            Ok(v) => v,
            Err(e) => {
                return Err(e);
            },
        };
        if runs.len() == 0 {
            return Err(MftError::BadRecord { ref_no: 0 });
        }
        let loader = MftLoader { runs, next: 0, bytes: Vec::new(), volume: volume_data };
        proof {
            assert(loader.runs@.subrange(0, loader.runs@.len() as int) =~= loader.runs@);
            assert(loader.bytes@ =~= Seq::<u8>::empty());
        }
        Ok(loader)
    }

    /// Fills in the sparse runs that come next, and says what to read.
    pub fn step(&mut self) -> (r: Result<LoadStep, MftError>)
        requires
            old(self).wf(),
        ensures
            final(self).wf(),
            r == load_step(old(self).state(), old(self).volume()).0,
            final(self).state() == load_step(old(self).state(), old(self).volume()).1,
            final(self).volume() == old(self).volume(),
    {
        let bpc: u64 = self.volume.bytes_per_cluster as u64;
        let ghost goal = load_step(self.state(), self.volume());
        loop
            invariant
                self.wf(),
                bpc == self.volume.bytes_per_cluster,
                goal == load_step(self.state(), self.volume()),
                goal == load_step(old(self).state(), old(self).volume()),
                self.volume() == old(self).volume(),
            decreases self.runs@.len() - self.next,
        {
            if self.next == self.runs.len() {
                return Ok(LoadStep::Done);
            }
            let run: DataRun = self.runs[self.next];
            let ghost s = self.state();
            assert(s.runs[0] == run);
            if run.start_lcn < 0 {
                return Err(MftError::InvalidVolumeData);
            }
            let size: u64 = match run.length_clusters.checked_mul(bpc) {
                Some(v) => v,
                None => {
                    return Err(MftError::InvalidVolumeData);
                },
            };
            let have: u64 = self.bytes.len() as u64;
            if have > self.volume.mft_valid_data_length || size
                > self.volume.mft_valid_data_length - have {
                return Err(MftError::InvalidVolumeData);
            }
            let offset: u64 = match (run.start_lcn as u64).checked_mul(bpc) {
                Some(v) => v,
                None => {
                    return Err(MftError::InvalidVolumeData);
                },
            };
            if run.start_lcn != 0 {
                return Ok(LoadStep::Read { offset, len: size });
            }
            let mut n: u64 = 0;
            let ghost before = self.bytes@;
            let ghost runs = self.runs@;
            let ghost next = self.next;
            let ghost volume = self.volume;
            while n < size
                invariant
                    n <= size,
                    self.wf(),
                    self.runs@ == runs,
                    self.next == next,
                    self.volume == volume,
                    self.bytes@ =~= before + zeros(n as nat),
                decreases size - n,
            {
                self.bytes.push(0);
                n += 1;
            }
            self.next = self.next + 1;
            proof {
                assert(s.runs.drop_first() =~= self.state().runs);
            }
        }
    }

    /// Takes the bytes that the last step asked for.
    pub fn supply(&mut self, chunk: &[u8])
        requires
            old(self).wf(),
            old(self).state().runs.len() > 0,
        ensures
            final(self).wf(),
            final(self).volume() == old(self).volume(),
            final(self).state() == (LoadState {
                runs: old(self).state().runs.drop_first(),
                bytes: old(self).state().bytes + chunk@,
            }),
    {
        let total: usize = self.runs.len();
        let mut i: usize = 0;
        while i < chunk.len()
            invariant
                i <= chunk@.len(),
                total == self.runs@.len(),
                self.wf(),
                self.runs@ == old(self).runs@,
                self.next == old(self).next,
                self.volume == old(self).volume,
                self.bytes@ =~= old(self).bytes@ + chunk@.subrange(0, i as int),
            decreases chunk@.len() - i,
        {
            self.bytes.push(chunk[i]);
            i += 1;
        }
        self.next = self.next + 1;
        proof {
            assert(chunk@.subrange(0, chunk@.len() as int) =~= chunk@);
            assert(self.state().runs =~= old(self).state().runs.drop_first());
        }
    }

    /// The reader over the gathered bytes, cut to whole records.
    pub fn finish(self) -> (r: Result<MftFileReader, MftError>)
        requires
            self.wf(),
        ensures
            ({
                let size = self.volume().bytes_per_file_record_segment as nat;
                let valid = self.volume().mft_valid_data_length as nat;
                let aligned = (valid / size) * size;
                if self.state().bytes.len() < aligned {
                    r is Err && r->Err_0 == MftError::InvalidVolumeData
                } else {
                    &&& r is Ok
                    &&& r->Ok_0.bytes() == self.state().bytes.take(aligned as int)
                    &&& r->Ok_0.record_size() == size
                    &&& r->Ok_0.record_size() > 0
                }
            }),
    {
        let size: u64 = self.volume.bytes_per_file_record_segment as u64;
        let valid: u64 = self.volume.mft_valid_data_length;
        proof {
            vstd::arithmetic::div_mod::lemma_fundamental_div_mod(valid as int, size as int);
            assert((valid as int / size as int) * size as int == size as int * (valid as int
                / size as int)) by (nonlinear_arith);
        }
        let aligned: u64 = (valid / size) * size;
        let mut bytes: Vec<u8> = self.bytes;
        if (bytes.len() as u64) < aligned {
            return Err(MftError::InvalidVolumeData);
        }
        bytes.truncate(aligned as usize);
        Ok(MftFileReader { bytes, record_size: self.volume.bytes_per_file_record_segment })
    }
}

} // verus!

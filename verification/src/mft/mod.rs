//! NTFS file records: repair, parsing, and the index over a whole `$MFT`.

pub mod attributes;
pub mod bytes;
pub mod fixup;
pub mod index;
pub mod reader;
pub mod record;
pub mod runs;
pub mod types;

pub use attributes::parse_attribute_list_entries;
pub use fixup::{apply_usa_fixup, is_ioctl_fixed_record};
pub use index::{enumerate_mft, MftIndex};
pub use reader::{validate_volume_data, LoadStep, MftFileReader, MftLoader, RecordReader};
pub use record::{extract_mft_data_runs, parse_record, select_effective_names};
pub use runs::decode_data_runs;
pub use types::{
    AttributeListEntry, DataRun, DirectFileStats, FileRef, MftError, MftName, MftRecord,
    IO_REPARSE_TAG_MOUNT_POINT, IO_REPARSE_TAG_SYMLINK,
};

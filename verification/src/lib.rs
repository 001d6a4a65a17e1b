//! Photo and video organiser: the verified core.
//!
//! Given the library's index and the new files of a batch (their dates,
//! sizes and fingerprints), the library decides where every file goes:
//! duplicates are recognised, dates are corrected, files are numbered day
//! by day in the order of their time, and files without a reliable date
//! go to the triage folder. It also reads dates from file names, Exif data
//! and MP4 `mvhd` atoms, and computes the fingerprints.
pub mod accounted;
pub mod adopt;
pub mod apply;
pub mod dedup;
pub mod exifdate;
pub mod fingerprint;
pub mod indexfile;
pub mod laws;
pub mod layout;
pub mod library;
pub mod media;
pub mod mp4date;
pub mod namedate;
pub mod naming;
pub mod order;
pub mod place;
pub mod plan;
pub mod stamp;
pub mod strmap;
pub mod text;
pub mod timing;
pub mod triage;
pub mod unique;

pub use apply::{Progress, Summary};
pub use naming::NameFormat;
pub use stamp::Stamp;

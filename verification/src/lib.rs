pub mod buffer;
pub mod calendar;
pub mod codec;
pub mod errors;
pub mod tag;

pub use buffer::{BufAdd, TagBuf, VecBuf};
pub use calendar::{CalendarTimestamp, EPOCH_YEAR, MAX_TAG_YEAR};
pub use codec::{base_x, rev_x, BASE54};
pub use errors::TagError;
pub use tag::{decompose, to_datetag_array, to_datetag_buf, to_datetag_string, to_tag, TagComponents, RAND_RANGE};

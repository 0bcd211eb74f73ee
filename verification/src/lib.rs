//! Writers and encoders for Anycubic resin-printer slice files: an in-memory
//! byte cursor, the AFF container primitives, the per-printer machine
//! profiles, the PW0 run-length layer codec and the preview-thumbnail
//! pipeline.

pub mod aff_layout;
pub mod aff_metadata;
pub mod codecs;
pub mod cursor;
pub mod preview;
pub mod pw0;
pub mod text;

pub use aff_layout::{patch_u32_le, write_named_table_header, write_padded_string, write_u32_le};
pub use aff_metadata::{machine_for_suffix, machine_profile_for_suffix, AffMachine, AffMachineProfile, AffRleFormat};
pub use codecs::{PngColour, PngStage};
pub use cursor::{Cursor, IoError, SeekFrom};
pub use preview::{
    build_preview_png, can_encode_png, can_resize, decode_base64, decode_png_rgb8, encode_png_rgb8, resize_rgb_nearest,
    rgb8_from_samples, PreviewError,
};
pub use pw0::{encode_pw0, encode_pw0_from_rle, flush_run, RleRun};

/// Bit-addressable reading and writing, and the link between bits and bytes.
pub mod bits;
/// The metadata payload: its layout, decoding, encoding and checksum.
pub mod rpu;
/// Compatibility modes and the crop transform.
pub mod convert;
/// Start-code scanning, emulation prevention and unit classification.
pub mod nal;
/// Splitting a stream into its base and enhancement layers.
pub mod demux;
/// Scope-based field overrides over a sequence of records.
pub mod edit;
/// Recognising the kind of input from its name.
pub mod input;
/// Extraction and editing of metadata units.
pub mod pipeline;

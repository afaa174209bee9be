//! Reading and writing ESBMC goto binaries (the "GBF" format) and the
//! intermediate representation tree (`Irept`) that they carry.

pub mod irep;
pub mod names;
pub mod gbf;
pub mod bytewriter;
pub mod bytereader;
pub mod esbmc;
pub mod roundtrip;
pub mod readback;
pub mod irep_json;

//! A verified cache-archive engine: records built from adapter-bound fields
//! and shared values are written to a flat byte archive and read back, with
//! full validation of untrusted bytes, deduplication of shared values, a
//! registry for polymorphic payloads, and fields rebuilt from a context.
mod buffer;
mod deserialize;
mod error;
mod laws;
mod layout;
mod model;
mod module;
mod polymorphic;
mod registry;
mod scratch;
mod serialize;
mod shared;
mod with;

pub use buffer::ArchiveBuffer;
pub use deserialize::{
    check_archive, fill_skips, from_bytes, CacheableDeserializer, CurrentHandle, SkipContext,
};
pub use error::{DeserializeError, SerializeError};
pub use laws::{
    lemma_decode_canonical, lemma_read_after_write, lemma_round_trip,
    lemma_sharing_shrinks, lemma_sharing_shrinks_record, lemma_single_byte_change_detected,
    lemma_skip_not_archived, with_copy,
};
pub use model::{Field, Graph, Shape};
pub use module::{
    lemma_build_meta_archive_round_trip, lemma_build_meta_round_trip, BuildExtraDataType,
    BuildMeta, BuildMetaDefaultObject, BuildMetaExportsType, BuildMetaReader, ExportsArgument,
    ExportsType, FactoryMeta, LibIdentOptions, ModuleArgument, ResolvedId,
};
pub use polymorphic::{lemma_dyn_pair_round_trip, pack_dyn, unpack_dyn, DynArchive, DynPayload};
pub use registry::{
    lemma_shared_tag_fails_build, DynReconstruct, Registration, Registry, RegistryError,
};
pub use scratch::ScratchArena;
pub use serialize::{to_bytes, CacheableSerializer};
pub use shared::{SharedReadTable, SharedWriteTable};
pub use with::{AsDyn, AsRefStr, AsRefStrConverter, AsVec, SkipWithDeserialize};

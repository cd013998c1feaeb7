//! Codec tags for content-addressed blocks.

use vstd::prelude::*;

use crate::error::{StoreError, StoreResult};

verus! {

/// The different codecs supported by the block store.
#[derive(Debug, Clone, Copy, PartialEq, Eq, Hash, Structural)]
pub enum Codec {
    /// Raw bytes.
    Raw,
    /// DAG-CBOR codec.
    DagCbor,
    /// DAG-JSON codec.
    DagJson,
    /// DAG-PB codec.
    DagPb,
}

/// The multicodec tag of a codec.
pub open spec fn codec_code(c: Codec) -> u64 {
    match c {
        Codec::Raw => 0x55,
        Codec::DagCbor => 0x71,
        Codec::DagJson => 0x0129,
        Codec::DagPb => 0x70,
    }
}

/// Whether an integer is the multicodec tag of a supported codec.
pub open spec fn is_supported_code(value: u64) -> bool {
    value == 0x55 || value == 0x71 || value == 0x0129 || value == 0x70
}

/// The codec a multicodec tag names, if it is supported.
pub open spec fn codec_of_code(value: u64) -> Option<Codec> {
    if value == 0x55 {
        Some(Codec::Raw)
    } else if value == 0x71 {
        Some(Codec::DagCbor)
    } else if value == 0x0129 {
        Some(Codec::DagJson)
    } else if value == 0x70 {
        Some(Codec::DagPb)
    } else {
        Option::None
    }
}

impl Codec {
    /// Returns the multicodec tag of this codec.
    pub fn to_code(self) -> (r: u64)
        ensures
            r == codec_code(self),
    {
        match self {
            Codec::Raw => 0x55,
            Codec::DagCbor => 0x71,
            Codec::DagJson => 0x0129,
            Codec::DagPb => 0x70,
        }
    }

    /// Converts a multicodec tag to the codec it names.
    ///
    /// Returns `UnsupportedCodec` exactly on tags that name no supported
    /// codec.
    pub fn try_from_code(value: u64) -> (r: StoreResult<Codec>)
        ensures
            is_supported_code(value) <==> r is Ok,
            r matches Ok(c) ==> codec_code(c) == value && codec_of_code(value) == Some(c),
            !is_supported_code(value) ==> r == StoreResult::<Codec>::Err(
                StoreError::UnsupportedCodec(value),
            ),
    {
        if value == 0x55 {
            Ok(Codec::Raw)
        } else if value == 0x71 {
            Ok(Codec::DagCbor)
        } else if value == 0x0129 {
            Ok(Codec::DagJson)
        } else if value == 0x70 {
            Ok(Codec::DagPb)
        } else {
            Err(StoreError::UnsupportedCodec(value))
        }
    }
}

/// Converting a codec to its tag and back yields the same codec.
pub proof fn lemma_codec_round_trip(c: Codec)
    ensures
        is_supported_code(codec_code(c)),
        forall|d: Codec| codec_code(d) == codec_code(c) ==> d == c,
{
}

} // verus!

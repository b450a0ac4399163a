//! Descriptors attached to the elementary streams of a program map.

use crate::internal::cursor::{
    be16, be32, get_u16, get_u32, lemma_big_endian_2, lemma_big_endian_4,
};
use vstd::prelude::*;

verus! {

/// A descriptor that the parser understands.
#[derive(Debug, PartialEq, Eq, Clone, Copy, Structural)]
pub enum StreamDesc {
    Registration(RegistrationDesc),
    Metadata(MetadataDesc),
    Ac3(Ac3Desc),
    Eac3(Eac3Desc),
}

/// Registration descriptor: the four-byte identifier of the format.
#[derive(Debug, PartialEq, Eq, Clone, Copy, Structural)]
pub struct RegistrationDesc {
    pub format_id: u32,
}

/// Tag of the registration descriptor (ISO/IEC 13818-1, table 2-45).
pub const REGISTRATION_DESC_TAG: u8 = 5;

/// Metadata descriptor: the application format identifier, where the
/// descriptor carries one.
#[derive(Debug, PartialEq, Eq, Clone, Copy, Structural)]
pub struct MetadataDesc {
    pub app_format_id: Option<u32>,
}

/// Tag of the metadata descriptor (ISO/IEC 13818-1, table 2-45).
pub const METADATA_DESC_TAG: u8 = 38;

/// AC-3 descriptor.
#[derive(Debug, PartialEq, Eq, Clone, Copy, Structural)]
pub struct Ac3Desc;

/// Tag of the AC-3 descriptor (ETSI EN 300 468, annex D.3).
pub const AC3_DESCRIPTOR_TAG: u8 = 106;

/// Enhanced AC-3 descriptor.
#[derive(Debug, PartialEq, Eq, Clone, Copy, Structural)]
pub struct Eac3Desc;

/// Tag of the enhanced AC-3 descriptor (ETSI EN 300 468, annex D.5).
pub const EAC3_DESCRIPTOR_TAG: u8 = 122;

/// What a descriptor with the given tag and body decodes to. `None` for a tag
/// that is not understood and for a body that is too short for its tag.
pub open spec fn stream_desc(tag: u8, body: Seq<u8>) -> Option<StreamDesc> {
    if tag == REGISTRATION_DESC_TAG {
        if body.len() < 4 {
            None
        } else {
            Some(StreamDesc::Registration(RegistrationDesc { format_id: be32(body, 0) as u32 }))
        }
    } else if tag == METADATA_DESC_TAG {
        if body.len() < 2 {
            None
        } else if be16(body, 0) != 0xffff {
            Some(StreamDesc::Metadata(MetadataDesc { app_format_id: None }))
        } else if body.len() < 6 {
            None
        } else {
            Some(StreamDesc::Metadata(MetadataDesc { app_format_id: Some(be32(body, 2) as u32) }))
        }
    } else if tag == AC3_DESCRIPTOR_TAG {
        Some(StreamDesc::Ac3(Ac3Desc))
    } else if tag == EAC3_DESCRIPTOR_TAG {
        Some(StreamDesc::Eac3(Eac3Desc))
    } else {
        None
    }
}

/// Decodes the body of one descriptor.
pub fn parse_stream_desc(tag: u8, buf: &[u8]) -> (r: Option<StreamDesc>)
    ensures
        r == stream_desc(tag, buf@),
{
    if tag == REGISTRATION_DESC_TAG {
        if buf.len() < 4 {
            return None;
        }
        let (format_id, _) = get_u32(buf);
        proof {
            lemma_big_endian_4(buf@);
        }
        Some(StreamDesc::Registration(RegistrationDesc { format_id }))
    } else if tag == METADATA_DESC_TAG {
        if buf.len() < 2 {
            return None;
        }
        let (metadata_app_format, buf2) = get_u16(buf);
        proof {
            lemma_big_endian_2(buf@);
        }
        if metadata_app_format == 0xffff {
            if buf2.len() < 4 {
                return None;
            }
            let (id, _) = get_u32(buf2);
            proof {
                lemma_big_endian_4(buf2@);
            }
            Some(StreamDesc::Metadata(MetadataDesc { app_format_id: Some(id) }))
        } else {
            Some(StreamDesc::Metadata(MetadataDesc { app_format_id: None }))
        }
    } else if tag == AC3_DESCRIPTOR_TAG {
        Some(StreamDesc::Ac3(Ac3Desc {  }))
    } else if tag == EAC3_DESCRIPTOR_TAG {
        Some(StreamDesc::Eac3(Eac3Desc {  }))
    } else {
        None
    }
}

} // verus!

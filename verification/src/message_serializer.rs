//! The serializer types of message payloads, one per format. Each is a unit
//! value that selects the format; the encoding itself is done by the format's
//! crate.
use vstd::prelude::*;

verus! {

/// JSON serializer using serde_json.
#[derive(Debug, Clone, Copy, Default, PartialEq, Eq, Structural)]
pub struct JsonSerializer;

impl JsonSerializer {
    /// Creates a new JSON serializer.
    pub fn new() -> (r: Self)
        ensures
            r == JsonSerializer,
    {
        JsonSerializer
    }
}

/// MessagePack serializer using rmp-serde.
#[derive(Debug, Clone, Copy, Default, PartialEq, Eq, Structural)]
pub struct MessagePackSerializer;

impl MessagePackSerializer {
    /// Creates a new MessagePack serializer.
    pub fn new() -> (r: Self)
        ensures
            r == MessagePackSerializer,
    {
        MessagePackSerializer
    }
}

/// CBOR serializer using ciborium.
#[derive(Debug, Clone, Copy, Default, PartialEq, Eq, Structural)]
pub struct CborSerializer;

impl CborSerializer {
    /// Creates a new CBOR serializer.
    pub fn new() -> (r: Self)
        ensures
            r == CborSerializer,
    {
        CborSerializer
    }
}

/// Postcard serializer using the postcard crate.
#[derive(Debug, Clone, Copy, Default, PartialEq, Eq, Structural)]
pub struct PostcardSerializer;

impl PostcardSerializer {
    /// Creates a new Postcard serializer.
    pub fn new() -> (r: Self)
        ensures
            r == PostcardSerializer,
    {
        PostcardSerializer
    }
}

/// Protocol Buffers serializer using the prost crate.
#[derive(Debug, Clone, Copy, Default, PartialEq, Eq, Structural)]
pub struct ProtobufSerializer;

impl ProtobufSerializer {
    /// Creates a new Protobuf serializer.
    pub fn new() -> (r: Self)
        ensures
            r == ProtobufSerializer,
    {
        ProtobufSerializer
    }
}

/// RON (Rusty Object Notation) serializer using the ron crate.
#[derive(Debug, Clone, Copy, Default, PartialEq, Eq, Structural)]
pub struct RonSerializer;

impl RonSerializer {
    /// Creates a new RON serializer.
    pub fn new() -> (r: Self)
        ensures
            r == RonSerializer,
    {
        RonSerializer
    }
}

/// Flexbuffers serializer using the flexbuffers crate.
#[derive(Debug, Clone, Copy, Default, PartialEq, Eq, Structural)]
pub struct FlexbuffersSerializer;

impl FlexbuffersSerializer {
    /// Creates a new Flexbuffers serializer.
    pub fn new() -> (r: Self)
        ensures
            r == FlexbuffersSerializer,
    {
        FlexbuffersSerializer
    }
}

} // verus!

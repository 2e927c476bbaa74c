//! A tile ready for drawing: its identity, image bytes and placement.

use vstd::prelude::*;
use bytes::Bytes;
use crate::tile_coordinates::TileCoordinates;
use crate::tile_id::TileId;

verus! {

/// The immutable, reference-counted byte buffer of the `bytes` crate, in
/// which tile images are kept; carried through without looking inside.
#[verifier::external_type_specification]
#[verifier::external_body]
pub struct ExBytes(Bytes);

/// The bytes that a `Bytes` buffer holds.
pub uninterp spec fn bytes_content(b: Bytes) -> Seq<u8>;

/// Relies on `<bytes::Bytes as Clone>::clone`: the clone is another handle
/// to the same bytes (same start and length).
pub assume_specification[ <Bytes as Clone>::clone ](b: &Bytes) -> (r: Bytes)
    ensures
        bytes_content(r) == bytes_content(*b),
;

/// Relies on `<bytes::Bytes as AsRef<[u8]>>::as_ref`: the slice shows the
/// buffer's bytes.
#[verifier::external_body]
fn bytes_as_slice(b: &Bytes) -> (r: &[u8])
    ensures
        r@ == bytes_content(*b),
{
    b.as_ref()
}

/// One tile handed to the renderer.
pub struct Tile {
    pub id: TileId,
    pub data: Bytes,
    pub coords: TileCoordinates,
}

impl Tile {
    pub fn new(id: &TileId, data: Bytes, coords: &TileCoordinates) -> (r: Tile)
        ensures
            r.id == *id,
            r.data == data,
            r.coords == *coords,
    {
        Tile { id: *id, data, coords: *coords }
    }

    pub fn coords(&self) -> (r: &TileCoordinates)
        ensures
            *r == self.coords,
    {
        &self.coords
    }

    /// The tile's encoded image.
    pub fn data(&self) -> (r: &[u8])
        ensures
            r@ == bytes_content(self.data),
    {
        bytes_as_slice(&self.data)
    }
}

} // verus!

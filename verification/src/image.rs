//! Image files: their bytes are carried whole, nothing is interpreted.

use vstd::prelude::*;

use crate::error::RLibError;

verus! {

/// An image file held as its raw bytes.
#[derive(Debug)]
pub struct Image {
    /// The raw bytes of the image.
    pub data: Vec<u8>,
}

impl Image {
    /// The raw bytes of the image.
    pub fn get_data(&self) -> (r: &[u8])
        ensures
            r@ == self.data@,
    {
        self.data.as_slice()
    }

    /// Takes the whole stream as the image's bytes; nothing can fail.
    pub fn decode(data: &[u8]) -> (r: Result<Image, RLibError>)
        ensures
            r matches Ok(img) ==> img.data@ == data@,
            r is Ok,
    {
        let mut bytes: Vec<u8> = Vec::new();
        bytes.extend_from_slice(data);
        proof {
            assert(bytes@ =~= data@);
        }
        Ok(Image { data: bytes })
    }
}

} // verus!

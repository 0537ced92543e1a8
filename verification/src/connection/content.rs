//! The body of a request.

use vstd::prelude::*;

verus! {

/// A request body: its content type, its declared length and its bytes.
pub struct Content {
    pub _type: String,
    pub lenght: u32,
    pub data: Vec<u8>,
}

impl Content {
    pub fn new(t: String, lenght: u32, data: Vec<u8>) -> (r: Self)
        ensures
            r._type == t,
            r.lenght == lenght,
            r.data == data,
    {
        Self { _type: t, lenght, data }
    }
}

} // verus!

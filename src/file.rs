use vstd::prelude::*;

verus! {

/// The whole content of one regular file, held in memory.
#[derive(Debug, PartialEq)]
pub struct File {
    bytes: Vec<u8>,
}

impl View for File {
    type V = Seq<u8>;

    closed spec fn view(&self) -> Seq<u8> {
        self.bytes@
    }
}

impl File {
    /// A file that owns the given bytes.
    pub fn new(bytes: Vec<u8>) -> (r: File)
        ensures
            r@ == bytes@,
    {
        File { bytes: bytes }
    }

    /// The file's content, borrowed.
    pub fn bytes(&self) -> (r: &[u8])
        ensures
            r@ == self@,
    {
        self.bytes.as_slice()
    }
}

} // verus!

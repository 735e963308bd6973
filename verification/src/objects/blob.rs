use vstd::prelude::*;

use crate::objects::base::ObjectBase;
use crate::objects::io::ObjectWriter;

verus! {

/// A blob object: an opaque byte payload, stored verbatim.
pub struct BlobObject {
    pub content: Vec<u8>,
}

impl BlobObject {
    pub fn new(content: Vec<u8>) -> (b: BlobObject)
        ensures
            b.content == content,
    {
        BlobObject { content }
    }
}

impl ObjectBase for BlobObject {
    open spec fn kind_chars(&self) -> Seq<char> {
        "blob"@
    }

    /// A blob's body is its payload, unmodified.
    open spec fn body_bytes(&self) -> Seq<u8> {
        self.content@
    }

    open spec fn obj_wf(&self) -> bool {
        true
    }

    fn obj_type(&self) -> (r: &'static str) {
        "blob"
    }

    fn body_size(&self) -> (n: usize) {
        self.content.len()
    }

    fn write_body_to(&self, writer: &mut ObjectWriter) {
        writer.write(self.content.as_slice());
    }
}

} // verus!

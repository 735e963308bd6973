use vstd::prelude::*;

use crate::objects::io::{ObjectStore, ObjectWriter, sha1_of};
use crate::text::{dec_bytes, push_dec_u64};
use vstd::utf8::encode_utf8;

verus! {

// The object codec: every object is serialized as
// `<kind> <body-byte-length>\0<body>`, and the digest is computed over that
// whole sequence, never over the body alone.

/// The header framing of a serialized object: the kind tag, one space, the
/// body length in decimal, and a NUL byte.
pub open spec fn header_bytes(kind: Seq<char>, body_len: nat) -> Seq<u8> {
    encode_utf8(kind) + seq![32u8] + dec_bytes(body_len) + seq![0u8]
}

/// The full serialized bytes of an object: header followed by body.
pub open spec fn object_bytes<T: ObjectBase>(o: T) -> Seq<u8> {
    header_bytes(o.kind_chars(), o.body_bytes().len()) + o.body_bytes()
}

/// The capability set shared by the three object kinds: a kind tag, an exact
/// body byte count, and a body serializer. The count and the serializer are
/// tied to one spec-level body, so they can never diverge.
pub trait ObjectBase: Sized {
    /// The kind tag characters: `blob`, `tree` or `commit`.
    spec fn kind_chars(&self) -> Seq<char>;

    /// The exact bytes the body serializes to.
    spec fn body_bytes(&self) -> Seq<u8>;

    /// What must hold of the object before it can be sized and serialized.
    spec fn obj_wf(&self) -> bool;

    /// The kind tag.
    fn obj_type(&self) -> (r: &'static str)
        ensures
            r@ == self.kind_chars(),
    ;

    /// The body byte count; always equal to what `write_body_to` emits.
    fn body_size(&self) -> (n: usize)
        requires
            self.obj_wf(),
        ensures
            n == self.body_bytes().len(),
    ;

    /// Writes exactly the body bytes.
    fn write_body_to(&self, writer: &mut ObjectWriter)
        requires
            self.obj_wf(),
        ensures
            final(writer)@ == old(writer)@ + self.body_bytes(),
    ;

    /// Writes the header for this object's kind and body length.
    fn write_header_to(&self, writer: &mut ObjectWriter)
        requires
            self.obj_wf(),
        ensures
            final(writer)@ == old(writer)@
                + header_bytes(self.kind_chars(), self.body_bytes().len()),
    {
        let size = self.body_size();
        let tag = self.obj_type();
        writer.write(tag.as_bytes());
        let mut tail: Vec<u8> = Vec::new();
        tail.push(32u8);
        push_dec_u64(&mut tail, size as u64);
        tail.push(0u8);
        writer.write(tail.as_slice());
        assert(writer@ =~= old(writer)@
            + header_bytes(self.kind_chars(), self.body_bytes().len()));
    }

    /// Writes the whole serialized object: header, then body.
    fn write_to(&self, writer: &mut ObjectWriter)
        requires
            self.obj_wf(),
        ensures
            final(writer)@ == old(writer)@
                + header_bytes(self.kind_chars(), self.body_bytes().len())
                + self.body_bytes(),
    {
        self.write_header_to(writer);
        self.write_body_to(writer);
    }
}

/// Serializes an object into a fresh writer, files it in the store, and
/// returns its digest: the digest of the full header + body byte sequence.
pub fn write_object<T: ObjectBase>(object: &T, store: &mut ObjectStore) -> (h: crate::objects::io::Hash)
    requires
        object.obj_wf(),
        old(store).wf(),
    ensures
        h.wf(),
        h@ == sha1_of(object_bytes(*object)),
        final(store).wf(),
        final(store)@ == old(store)@.insert(h@, object_bytes(*object)),
{
    let mut writer = ObjectWriter::new();
    object.write_to(&mut writer);
    assert(writer@ =~= object_bytes(*object));
    writer.finalize(store)
}

} // verus!

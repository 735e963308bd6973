use vstd::prelude::*;

pub use crate::common::datetime::{Timestamp, Timezone};

use crate::common::datetime::ts_chars;
use crate::common::user::{User, user_chars};
use crate::objects::base::ObjectBase;
use crate::objects::io::ObjectWriter;
use crate::text::hex_chars;
use vstd::utf8::encode_utf8;

verus! {

/// A commit object: a tree snapshot, its parent (an all-zero digest where
/// there is none), the pre-formatted author and committer identities with
/// their timestamps, and a message.
pub struct CommitObject {
    pub tree_hash: crate::objects::io::Hash,
    pub parent_hash: crate::objects::io::Hash,
    pub author: User,
    pub author_timestamp: Timestamp,
    pub committer: User,
    pub commit_timestamp: Timestamp,
    pub message: String,
}

/// The commit body text, line by line: `tree <hex>`, `parent <hex>`,
/// `author <identity> <timestamp>`, `committer <identity> <timestamp>`, a
/// blank line, then the message — each line ended by a newline.
pub open spec fn commit_body_chars(c: CommitObject) -> Seq<char> {
    seq!['t', 'r', 'e', 'e', ' '] + hex_chars(c.tree_hash@) + seq!['\n']
        + seq!['p', 'a', 'r', 'e', 'n', 't', ' '] + hex_chars(c.parent_hash@) + seq!['\n']
        + seq!['a', 'u', 't', 'h', 'o', 'r', ' ']
        + user_chars(c.author.name@, c.author.email@) + seq![' ']
        + ts_chars(c.author_timestamp.spec_epoch(), c.author_timestamp.spec_tz_sec())
        + seq!['\n']
        + seq!['c', 'o', 'm', 'm', 'i', 't', 't', 'e', 'r', ' ']
        + user_chars(c.committer.name@, c.committer.email@) + seq![' ']
        + ts_chars(c.commit_timestamp.spec_epoch(), c.commit_timestamp.spec_tz_sec())
        + seq!['\n']
        + seq!['\n']
        + c.message@ + seq!['\n']
}

impl CommitObject {
    /// Renders the whole body text.
    pub fn render_body(&self) -> (r: String)
        requires
            self.obj_wf(),
        ensures
            r@ == commit_body_chars(*self),
    {
        let mut out = String::new();
        let tree_kw = "tree ";
        let parent_kw = "parent ";
        let author_kw = "author ";
        let committer_kw = "committer ";
        let nl = "\n";
        let sp = " ";
        proof {
            reveal_strlit("tree ");
            reveal_strlit("parent ");
            reveal_strlit("author ");
            reveal_strlit("committer ");
            reveal_strlit("\n");
            reveal_strlit(" ");
            assert(tree_kw@ =~= seq!['t', 'r', 'e', 'e', ' ']);
            assert(parent_kw@ =~= seq!['p', 'a', 'r', 'e', 'n', 't', ' ']);
            assert(author_kw@ =~= seq!['a', 'u', 't', 'h', 'o', 'r', ' ']);
            assert(committer_kw@ =~= seq!['c', 'o', 'm', 'm', 'i', 't', 't', 'e', 'r', ' ']);
            assert(nl@ =~= seq!['\n']);
            assert(sp@ =~= seq![' ']);
        }
        out.append(tree_kw);
        let tree_hex = self.tree_hash.to_hex();
        out.append(tree_hex.as_str());
        out.append(nl);
        out.append(parent_kw);
        let parent_hex = self.parent_hash.to_hex();
        out.append(parent_hex.as_str());
        out.append(nl);
        out.append(author_kw);
        let author_txt = self.author.render();
        out.append(author_txt.as_str());
        out.append(sp);
        let author_ts = self.author_timestamp.render();
        out.append(author_ts.as_str());
        out.append(nl);
        out.append(committer_kw);
        let committer_txt = self.committer.render();
        out.append(committer_txt.as_str());
        out.append(sp);
        let commit_ts = self.commit_timestamp.render();
        out.append(commit_ts.as_str());
        out.append(nl);
        out.append(nl);
        out.append(self.message.as_str());
        out.append(nl);
        assert(out@ =~= commit_body_chars(*self));
        out
    }
}

impl ObjectBase for CommitObject {
    open spec fn kind_chars(&self) -> Seq<char> {
        "commit"@
    }

    /// A commit's body is the UTF-8 encoding of its rendered text.
    open spec fn body_bytes(&self) -> Seq<u8> {
        encode_utf8(commit_body_chars(*self))
    }

    open spec fn obj_wf(&self) -> bool {
        &&& self.tree_hash.wf()
        &&& self.parent_hash.wf()
        &&& self.author_timestamp.in_range()
        &&& self.commit_timestamp.in_range()
    }

    fn obj_type(&self) -> (r: &'static str) {
        "commit"
    }

    fn body_size(&self) -> (n: usize) {
        let body = self.render_body();
        let bytes = body.as_str().as_bytes_vec();
        bytes.len()
    }

    fn write_body_to(&self, writer: &mut ObjectWriter) {
        let body = self.render_body();
        writer.write(body.as_str().as_bytes());
    }
}

} // verus!

use vstd::prelude::*;

use crate::text::{dec_chars, dec_chars_int, append_dec_u64, append_dec_i64};

verus! {

/// The kind of event a reflog line records.
pub enum RefLogKind {
    COMMIT,
    CHECKOUT,
}

/// The rendered kind tag.
pub open spec fn kind_chars(k: RefLogKind) -> Seq<char> {
    match k {
        RefLogKind::COMMIT => seq!['c', 'o', 'm', 'm', 'i', 't'],
        RefLogKind::CHECKOUT => seq!['c', 'h', 'e', 'c', 'k', 'o', 'u', 't'],
    }
}

impl RefLogKind {
    /// Renders the kind tag.
    pub fn render(&self) -> (r: &'static str)
        ensures
            r@ == kind_chars(*self),
    {
        match self {
            RefLogKind::COMMIT => {
                let r = "commit";
                proof {
                    reveal_strlit("commit");
                    assert(r@ =~= kind_chars(RefLogKind::COMMIT));
                }
                r
            },
            RefLogKind::CHECKOUT => {
                let r = "checkout";
                proof {
                    reveal_strlit("checkout");
                    assert(r@ =~= kind_chars(RefLogKind::CHECKOUT));
                }
                r
            },
        }
    }
}

/// One reflog record: the transition of a ref from one digest to another,
/// with who made it, when, and why.
pub struct RefLog {
    pub prev_hash: String,
    pub hash: String,
    pub author: String,
    pub email: String,
    pub timestamp: u64,
    pub timezone: i16,
    pub kind: RefLogKind,
    pub description: String,
}

/// The rendered reflog line (without its trailing newline):
/// `<prev> <hash> <author> <<email>> <timestamp> <timezone>    <kind>: <description>`.
pub open spec fn reflog_line_chars(l: RefLog) -> Seq<char> {
    l.prev_hash@ + seq![' '] + l.hash@ + seq![' '] + l.author@ + seq![' ', '<']
        + l.email@ + seq!['>', ' '] + dec_chars(l.timestamp as nat) + seq![' ']
        + dec_chars_int(l.timezone as int) + seq![' ', ' ', ' ', ' ']
        + kind_chars(l.kind) + seq![':', ' '] + l.description@
}

/// Renders one reflog line; appending it (with a newline) to the log file
/// is the caller's work.
pub fn format_reflog_line(log: &RefLog) -> (r: String)
    ensures
        r@ == reflog_line_chars(*log),
{
    let sp = " ";
    let lt = " <";
    let gt = "> ";
    let gap = "    ";
    let colon = ": ";
    proof {
        reveal_strlit(" ");
        reveal_strlit(" <");
        reveal_strlit("> ");
        reveal_strlit("    ");
        reveal_strlit(": ");
        assert(sp@ =~= seq![' ']);
        assert(lt@ =~= seq![' ', '<']);
        assert(gt@ =~= seq!['>', ' ']);
        assert(gap@ =~= seq![' ', ' ', ' ', ' ']);
        assert(colon@ =~= seq![':', ' ']);
    }
    let mut out = String::new();
    out.append(log.prev_hash.as_str());
    out.append(sp);
    out.append(log.hash.as_str());
    out.append(sp);
    out.append(log.author.as_str());
    out.append(lt);
    out.append(log.email.as_str());
    out.append(gt);
    append_dec_u64(&mut out, log.timestamp);
    out.append(sp);
    append_dec_i64(&mut out, log.timezone as i64);
    out.append(gap);
    out.append(log.kind.render());
    out.append(colon);
    out.append(log.description.as_str());
    assert(out@ =~= reflog_line_chars(*log));
    out
}

} // verus!

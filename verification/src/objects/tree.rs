use vstd::prelude::*;

use crate::objects::base::ObjectBase;
use crate::objects::io::ObjectWriter;
use crate::text::{octal6_bytes, push_octal6, oct_val, is_oct_digit_byte, pow8,
    lemma_oct_fixed_invert, lemma_pow8_mono};
use vstd::utf8::encode_utf8;

verus! {

/// A file mode: unsigned mode bits, serialized as six octal digits
/// (left-padded with zeros; bits beyond the low 18 are not representable in
/// six digits and are truncated away, as the rendering does).
pub struct Mode(pub u32);

/// One entry of a tree object: mode bits, a path segment, and the digest of
/// the child object (a blob for a file, a tree for a directory).
pub struct TreeEntry {
    pub mode: Mode,
    pub name: String,
    pub hash: crate::objects::io::Hash,
}

/// The serialized form of one entry, per the documented grammar:
/// `<mode as 6 octal digits> <name>\0<20 raw digest bytes>`.
pub open spec fn entry_bytes(mode: u32, name: Seq<char>, hash: Seq<u8>) -> Seq<u8> {
    octal6_bytes(mode as nat) + seq![32u8] + encode_utf8(name) + seq![0u8] + hash
}

impl TreeEntry {
    /// A serializable entry: a full digest, a name free of NUL (the
    /// grammar's terminator), and a size that fits the machine.
    pub open spec fn wf(&self) -> bool {
        &&& self.hash.wf()
        &&& forall|i: int| 0 <= i < self.name@.len() ==> self.name@[i] != '\0'
        &&& encode_utf8(self.name@).len() + 28 <= usize::MAX
    }

    /// This entry's serialized bytes.
    pub open spec fn spec_bytes(&self) -> Seq<u8> {
        entry_bytes(self.mode.0, self.name@, self.hash@)
    }

    /// The serialized size: 6 mode digits, a space, the name, a NUL, and 20
    /// digest bytes.
    pub fn size(&self) -> (n: usize)
        requires
            self.wf(),
        ensures
            n == self.spec_bytes().len(),
    {
        proof {
            lemma_oct_fixed_invert(self.mode.0 as nat, 6);
        }
        6 + 1 + self.name.as_str().len() + 1 + 20
    }

    /// Writes this entry's serialized bytes.
    pub fn write_to(&self, writer: &mut ObjectWriter)
        requires
            self.wf(),
        ensures
            final(writer)@ == old(writer)@ + self.spec_bytes(),
    {
        let mut head: Vec<u8> = Vec::new();
        push_octal6(&mut head, self.mode.0);
        head.push(32u8);
        let mut name_bytes = self.name.as_str().as_bytes_vec();
        head.append(&mut name_bytes);
        head.push(0u8);
        writer.write(head.as_slice());
        writer.write(self.hash.as_bytes().as_slice());
        assert(writer@ =~= old(writer)@ + self.spec_bytes());
    }
}

/// Whether every entry of a sequence is serializable.
pub open spec fn entries_wf(entries: Seq<TreeEntry>) -> bool {
    forall|i: int| 0 <= i < entries.len() ==> (#[trigger] entries[i]).wf()
}

/// The body of a tree object: its entries' serialized bytes, concatenated
/// in order.
pub open spec fn tree_body_bytes(entries: Seq<TreeEntry>) -> Seq<u8>
    decreases entries.len(),
{
    if entries.len() == 0 {
        Seq::empty()
    } else {
        entries[0].spec_bytes() + tree_body_bytes(entries.drop_first())
    }
}

/// The body of a sequence of entries splits at any index.
pub proof fn lemma_tree_body_split(entries: Seq<TreeEntry>, i: int)
    requires
        0 <= i <= entries.len(),
    ensures
        tree_body_bytes(entries) == tree_body_bytes(entries.take(i))
            + tree_body_bytes(entries.skip(i)),
    decreases i,
{
    if i == 0 {
        assert(entries.take(0) =~= Seq::<TreeEntry>::empty());
        assert(entries.skip(0) =~= entries);
        assert(tree_body_bytes(entries.take(0)) =~= Seq::<u8>::empty());
        assert(tree_body_bytes(entries) =~= tree_body_bytes(entries.take(0))
            + tree_body_bytes(entries.skip(0)));
    } else {
        lemma_tree_body_split(entries.drop_first(), i - 1);
        assert(entries.take(i).drop_first() =~= entries.drop_first().take(i - 1));
        assert(entries.skip(i) =~= entries.drop_first().skip(i - 1));
        assert(entries.take(i)[0] == entries[0]);
        assert(tree_body_bytes(entries.take(i))
            == entries[0].spec_bytes() + tree_body_bytes(entries.drop_first().take(i - 1)));
        assert(tree_body_bytes(entries) =~= tree_body_bytes(entries.take(i))
            + tree_body_bytes(entries.skip(i)));
    }
}

/// A tree object: the ordered collection of entries of one directory level.
/// Serialization follows the order in which entries were added, which makes
/// the rendering deterministic for a given build of the tree.
pub struct TreeObject {
    entries: Vec<TreeEntry>,
}

impl TreeObject {
    /// The entries in serialization order.
    pub closed spec fn spec_entries(&self) -> Seq<TreeEntry> {
        self.entries@
    }

    /// An empty tree object.
    pub fn new() -> (t: TreeObject)
        ensures
            t.spec_entries() == Seq::<TreeEntry>::empty(),
    {
        TreeObject { entries: Vec::new() }
    }

    /// Appends one entry; it will be serialized after those already added.
    pub fn add(&mut self, entry: TreeEntry)
        ensures
            final(self).spec_entries() == old(self).spec_entries().push(entry),
    {
        self.entries.push(entry);
    }

    /// How many entries were added.
    pub fn entry_count(&self) -> (n: usize)
        ensures
            n == self.spec_entries().len(),
    {
        self.entries.len()
    }
}

impl ObjectBase for TreeObject {
    open spec fn kind_chars(&self) -> Seq<char> {
        "tree"@
    }

    /// A tree's body is its entries' bytes, concatenated in order.
    open spec fn body_bytes(&self) -> Seq<u8> {
        tree_body_bytes(self.spec_entries())
    }

    open spec fn obj_wf(&self) -> bool {
        &&& entries_wf(self.spec_entries())
        &&& tree_body_bytes(self.spec_entries()).len() <= usize::MAX
    }

    fn obj_type(&self) -> (r: &'static str) {
        "tree"
    }

    fn body_size(&self) -> (n: usize) {
        let ghost all = self.entries@;
        let mut total: usize = 0;
        let mut i: usize = 0;
        while i < self.entries.len()
            invariant
                i <= all.len(),
                self.entries@ == all,
                entries_wf(all),
                tree_body_bytes(all).len() <= usize::MAX,
                total == tree_body_bytes(all.take(i as int)).len(),
            decreases all.len() - i,
        {
            proof {
                lemma_tree_body_split(all, i + 1);
                lemma_tree_body_split(all.take(i + 1), i as int);
                assert(all.take(i + 1).take(i as int) =~= all.take(i as int));
                assert(all.take(i + 1).skip(i as int) =~= seq![all[i as int]]);
                assert(seq![all[i as int]].drop_first() =~= Seq::<TreeEntry>::empty());
                assert(tree_body_bytes(Seq::<TreeEntry>::empty()) =~= Seq::<u8>::empty());
                assert(tree_body_bytes(seq![all[i as int]])
                    =~= all[i as int].spec_bytes());
                assert(tree_body_bytes(all.take(i + 1))
                    == tree_body_bytes(all.take(i as int)) + all[i as int].spec_bytes());
            }
            let sz = self.entries[i].size();
            total = total + sz;
            i = i + 1;
        }
        proof {
            assert(all.take(all.len() as int) =~= all);
        }
        total
    }

    fn write_body_to(&self, writer: &mut ObjectWriter) {
        let ghost all = self.entries@;
        let mut i: usize = 0;
        while i < self.entries.len()
            invariant
                i <= all.len(),
                self.entries@ == all,
                entries_wf(all),
                writer@ == old(writer)@ + tree_body_bytes(all.take(i as int)),
            decreases all.len() - i,
        {
            proof {
                lemma_tree_body_split(all.take(i + 1), i as int);
                assert(all.take(i + 1).take(i as int) =~= all.take(i as int));
                assert(all.take(i + 1).skip(i as int) =~= seq![all[i as int]]);
                assert(seq![all[i as int]].drop_first() =~= Seq::<TreeEntry>::empty());
                assert(tree_body_bytes(Seq::<TreeEntry>::empty()) =~= Seq::<u8>::empty());
                assert(tree_body_bytes(seq![all[i as int]]) =~= all[i as int].spec_bytes());
                assert(tree_body_bytes(all.take(i + 1))
                    == tree_body_bytes(all.take(i as int)) + all[i as int].spec_bytes());
            }
            self.entries[i].write_to(writer);
            assert(writer@ =~= old(writer)@ + tree_body_bytes(all.take(i + 1)));
            i = i + 1;
        }
        proof {
            assert(all.take(all.len() as int) =~= all);
        }
    }
}

/// The position of the first NUL byte at or after `from`, or -1 if there is
/// none.
pub open spec fn nul_pos(s: Seq<u8>, from: int) -> int
    decreases s.len() - from,
    when 0 <= from <= s.len()
{
    if from >= s.len() {
        -1
    } else if s[from] == 0 {
        from
    } else {
        nul_pos(s, from + 1)
    }
}

proof fn lemma_nul_pos_found(s: Seq<u8>, from: int, j: int)
    requires
        0 <= from <= j < s.len(),
        s[j] == 0,
        forall|k: int| from <= k < j ==> s[k] != 0,
    ensures
        nul_pos(s, from) == j,
    decreases j - from,
{
    if from < j {
        lemma_nul_pos_found(s, from + 1, j);
    }
}

proof fn lemma_nul_pos_none(s: Seq<u8>, from: int)
    requires
        0 <= from <= s.len(),
        forall|k: int| from <= k < s.len() ==> s[k] != 0,
    ensures
        nul_pos(s, from) == -1,
    decreases s.len() - from,
{
    if from < s.len() {
        lemma_nul_pos_none(s, from + 1);
    }
}

/// The UTF-8 encoding of a NUL-free character sequence contains no NUL
/// byte, so a name can always be recovered up to the grammar's terminator.
pub proof fn lemma_encode_utf8_no_nul(chars: Seq<char>)
    requires
        forall|i: int| 0 <= i < chars.len() ==> chars[i] != '\0',
    ensures
        forall|i: int| 0 <= i < encode_utf8(chars).len() ==> encode_utf8(chars)[i] != 0,
    decreases chars.len(),
{
    if chars.len() > 0 {
        let c = chars[0];
        let scalar = c as u32;
        assert(scalar != 0) by {
            if scalar == 0 {
                assert(c as u32 == '\0' as u32);
                assert(c == '\0') by {
                    vstd::utf8::char_u32_cast(c, scalar);
                    vstd::utf8::char_u32_cast('\0', 0);
                }
            }
        }
        let enc = vstd::utf8::encode_scalar(scalar);
        assert(forall|z: u8| (0x80u8 | z) != 0) by (bit_vector);
        assert(forall|z: u8| (0xC0u8 | z) != 0) by (bit_vector);
        assert(forall|z: u8| (0xE0u8 | z) != 0) by (bit_vector);
        assert(forall|z: u8| (0xF0u8 | z) != 0) by (bit_vector);
        assert forall|i: int| 0 <= i < enc.len() implies enc[i] != 0 by {
            if vstd::utf8::has_width_1_encoding(scalar) {
                assert(enc[i] == vstd::utf8::leading_byte_width_1(scalar));
                assert((scalar & 0x7F) == scalar) by (bit_vector)
                    requires
                        scalar <= 0x7F,
                ;
                assert(enc[i] as u32 == scalar);
            }
        }
        lemma_encode_utf8_no_nul(chars.drop_first());
        let tail = encode_utf8(chars.drop_first());
        assert(encode_utf8(chars) == enc + tail);
        assert forall|i: int|
            0 <= i < encode_utf8(chars).len() implies encode_utf8(chars)[i] != 0 by {
            if i < enc.len() {
                assert(encode_utf8(chars)[i] == enc[i]);
            } else {
                assert(encode_utf8(chars)[i] == tail[i - enc.len()]);
            }
        }
    }
}

/// The result of re-parsing a tree body at spec level: for each entry its
/// mode value, its name bytes and its digest bytes, or `None` where the
/// bytes do not follow the grammar.
pub open spec fn parse_tree_body(s: Seq<u8>) -> Option<Seq<(nat, Seq<u8>, Seq<u8>)>>
    decreases s.len(),
{
    if s.len() == 0 {
        Some(Seq::empty())
    } else if s.len() < 7 {
        None
    } else if exists|i: int| 0 <= i < 6 && !is_oct_digit_byte(#[trigger] s[i]) {
        None
    } else if s[6] != 32 {
        None
    } else {
        let j = nul_pos(s, 7);
        if j < 0 {
            None
        } else if j + 21 > s.len() {
            None
        } else {
            match parse_tree_body(s.skip(j + 21)) {
                Some(rest) => Some(
                    seq![(oct_val(s.take(6)), s.subrange(7, j), s.subrange(j + 1, j + 21))]
                        + rest,
                ),
                None => None,
            }
        }
    }
}

/// One entry recovered by the parser: plain mode bits, name bytes and
/// digest bytes.
pub struct RawTreeEntry {
    pub mode: u32,
    pub name: Vec<u8>,
    pub hash: Vec<u8>,
}

fn parse_at(data: &[u8], pos: usize) -> (r: Option<Vec<RawTreeEntry>>)
    requires
        pos <= data@.len(),
    ensures
        r is Some <==> parse_tree_body(data@.skip(pos as int)) is Some,
        r matches Some(v) ==> parse_tree_body(data@.skip(pos as int)) matches Some(parsed)
            && v@.len() == parsed.len()
            && forall|i: int|
                0 <= i < parsed.len()
                    ==> #[trigger] parsed[i]
                        == (v@[i].mode as nat, v@[i].name@, v@[i].hash@),
    decreases data@.len() - pos,
{
    let ghost s = data@.skip(pos as int);
    let n = data.len();
    if pos == n {
        let r: Vec<RawTreeEntry> = Vec::new();
        return Some(r);
    }
    if n - pos < 7 {
        return None;
    }
    let mut mode: u32 = 0;
    let mut i: usize = 0;
    while i < 6
        invariant
            i <= 6,
            pos <= data@.len(),
            data@.len() - pos >= 7,
            n == data@.len(),
            s == data@.skip(pos as int),
            mode as nat == oct_val(s.take(i as int)),
            mode < pow8(i as nat),
            forall|k: int| 0 <= k < i ==> is_oct_digit_byte(#[trigger] s[k]),
        decreases 6 - i,
    {
        proof {
            assert(pow8(0) == 1);
            assert(pow8(1) == 8);
            assert(pow8(2) == 64);
            assert(pow8(3) == 512);
            assert(pow8(4) == 4096);
            assert(pow8(5) == 32768);
            assert(pow8(6) == 262144);
            lemma_pow8_mono(i as nat, 5);
            lemma_pow8_mono((i + 1) as nat, 6);
            assert(pow8((i + 1) as nat) == 8 * pow8(i as nat));
        }
        let b = data[pos + i];
        if !(48 <= b && b <= 55) {
            proof {
                assert(s[i as int] == b);
                assert(!is_oct_digit_byte(s[i as int]));
            }
            return None;
        }
        proof {
            assert(s.take(i + 1).drop_last() =~= s.take(i as int));
            assert(s.take(i + 1).last() == s[i as int]);
        }
        mode = 8 * mode + ((b - 48) as u32);
        i = i + 1;
    }
    if data[pos + 6] != 32 {
        return None;
    }
    let mut j: usize = pos + 7;
    while j < n && data[j] != 0
        invariant
            pos + 7 <= j <= n,
            n == data@.len(),
            s == data@.skip(pos as int),
            forall|k: int| pos + 7 <= k < j ==> data@[k] != 0,
        decreases n - j,
    {
        j = j + 1;
    }
    if j == n {
        proof {
            assert forall|k: int| 7 <= k < s.len() implies s[k] != 0 by {
                assert(s[k] == data@[pos + k]);
            }
            lemma_nul_pos_none(s, 7);
        }
        return None;
    }
    let ghost rel = j - pos;
    proof {
        assert(data@[j as int] == 0);
        assert(s[rel as int] == 0);
        assert forall|k: int| 7 <= k < rel implies s[k] != 0 by {
            assert(s[k] == data@[pos + k]);
        }
        lemma_nul_pos_found(s, 7, rel as int);
    }
    if n - j < 21 {
        return None;
    }
    let mut name: Vec<u8> = Vec::new();
    let mut k: usize = pos + 7;
    while k < j
        invariant
            pos + 7 <= k <= j,
            j < n,
            n == data@.len(),
            s == data@.skip(pos as int),
            rel == j - pos,
            name@ == s.subrange(7, k - pos),
        decreases j - k,
    {
        name.push(data[k]);
        assert(name@ =~= s.subrange(7, k + 1 - pos));
        k = k + 1;
    }
    let mut hash: Vec<u8> = Vec::new();
    let mut k2: usize = 0;
    while k2 < 20
        invariant
            k2 <= 20,
            pos + 7 <= j,
            j + 21 <= n,
            n == data@.len(),
            s == data@.skip(pos as int),
            rel == j - pos,
            hash@ == s.subrange(rel + 1, rel + 1 + k2),
        decreases 20 - k2,
    {
        assert(s[rel + 1 + k2] == data@[j + 1 + k2]);
        hash.push(data[j + 1 + k2]);
        assert(hash@ =~= s.subrange(rel + 1, rel + 1 + k2 + 1));
        k2 = k2 + 1;
    }
    proof {
        assert(data@.skip(j + 21) =~= s.skip(rel + 21));
    }
    match parse_at(data, j + 21) {
        Some(mut rest) => {
            let entry = RawTreeEntry { mode, name, hash };
            rest.insert(0, entry);
            proof {
                let parsed_rest = parse_tree_body(s.skip(rel + 21))->Some_0;
                let head = (oct_val(s.take(6)), s.subrange(7, rel as int),
                    s.subrange(rel + 1, rel + 21));
                assert(parse_tree_body(s) == Some(seq![head] + parsed_rest));
                assert(rest@[0].name@ =~= s.subrange(7, rel as int));
                assert(rest@[0].hash@ =~= s.subrange(rel + 1, rel + 21));
                let parsed = parse_tree_body(s)->Some_0;
                assert forall|t: int| 0 <= t < parsed.len() implies #[trigger] parsed[t]
                    == (rest@[t].mode as nat, rest@[t].name@, rest@[t].hash@) by {
                    if t == 0 {
                        assert(parsed[0] == head);
                    } else {
                        assert(parsed[t] == parsed_rest[t - 1]);
                    }
                }
            }
            Some(rest)
        },
        None => None,
    }
}

/// Re-parses a tree object's body per the grammar
/// `mode(6 octal) SPACE name NUL digest(20 bytes)`, repeated; `None` where
/// the bytes do not follow it.
pub fn parse_tree_entries(data: &Vec<u8>) -> (r: Option<Vec<RawTreeEntry>>)
    ensures
        r is Some <==> parse_tree_body(data@) is Some,
        r matches Some(v) ==> parse_tree_body(data@) matches Some(parsed)
            && v@.len() == parsed.len()
            && forall|i: int|
                0 <= i < parsed.len()
                    ==> #[trigger] parsed[i]
                        == (v@[i].mode as nat, v@[i].name@, v@[i].hash@),
{
    proof {
        assert(data@.skip(0) =~= data@);
    }
    parse_at(data.as_slice(), 0)
}

/// Tree framing: re-parsing the serialized body of well-formed entries
/// recovers exactly the original entries — mode, name bytes and digest — in
/// the order they were serialized. Modes must fit in six octal digits
/// (below `8^6`): the rendering truncates higher bits, so, for instance, a
/// mode of `8^6` serializes like mode 0 and cannot be recovered.
pub proof fn lemma_tree_framing(entries: Seq<TreeEntry>)
    requires
        entries_wf(entries),
        forall|i: int| 0 <= i < entries.len() ==> (#[trigger] entries[i]).mode.0 < 262144,
    ensures
        parse_tree_body(tree_body_bytes(entries)) matches Some(parsed)
            && parsed.len() == entries.len()
            && forall|i: int|
                0 <= i < entries.len()
                    ==> #[trigger] parsed[i]
                        == (entries[i].mode.0 as nat, encode_utf8(entries[i].name@),
                            entries[i].hash@),
    decreases entries.len(),
{
    assert(pow8(0) == 1);
    assert(pow8(1) == 8);
    assert(pow8(2) == 64);
    assert(pow8(3) == 512);
    assert(pow8(4) == 4096);
    assert(pow8(5) == 32768);
    assert(pow8(6) == 262144);
    if entries.len() == 0 {
    } else {
        let e = entries[0];
        let oct = octal6_bytes(e.mode.0 as nat);
        let nameb = encode_utf8(e.name@);
        let nl = nameb.len() as int;
        let rest = tree_body_bytes(entries.drop_first());
        let s = tree_body_bytes(entries);
        lemma_oct_fixed_invert(e.mode.0 as nat, 6);
        lemma_encode_utf8_no_nul(e.name@);
        assert(s == e.spec_bytes() + rest);
        assert(e.spec_bytes() == oct + seq![32u8] + nameb + seq![0u8] + e.hash@);
        assert(s.len() == 28 + nl + rest.len());
        assert forall|i: int| 0 <= i < 6 implies is_oct_digit_byte(#[trigger] s[i]) by {
            assert(s[i] == oct[i]);
        }
        assert(s[6] == 32);
        assert forall|k: int| 7 <= k < 7 + nl implies s[k] != 0 by {
            assert(s[k] == nameb[k - 7]);
        }
        assert(s[7 + nl] == 0);
        lemma_nul_pos_found(s, 7, 7 + nl);
        let j = 7 + nl;
        assert(s.take(6) =~= oct);
        assert(oct_val(s.take(6)) == e.mode.0 as nat);
        assert(s.subrange(7, j) =~= nameb);
        assert(s.subrange(j + 1, j + 21) =~= e.hash@);
        assert(s.skip(j + 21) =~= rest);
        lemma_tree_framing(entries.drop_first());
        let parsed_rest = parse_tree_body(rest)->Some_0;
        let head = (oct_val(s.take(6)), s.subrange(7, j), s.subrange(j + 1, j + 21));
        assert(!(exists|i: int| 0 <= i < 6 && !is_oct_digit_byte(#[trigger] s[i])));
        assert(parse_tree_body(s) == Some(seq![head] + parsed_rest));
        let parsed = parse_tree_body(s)->Some_0;
        assert forall|i: int| 0 <= i < entries.len() implies #[trigger] parsed[i]
            == (entries[i].mode.0 as nat, encode_utf8(entries[i].name@), entries[i].hash@) by {
            if i == 0 {
                assert(parsed[0] == head);
            } else {
                assert(parsed[i] == parsed_rest[i - 1]);
                assert(entries.drop_first()[i - 1] == entries[i]);
            }
        }
    }
}

} // verus!

use vstd::prelude::*;

use crate::errors::GitError;

verus! {

// The staging tree: an in-memory, path-keyed recursive structure that
// accumulates relative file paths and then emits one tree object per
// directory level and one blob object per file, bottom-up.

/// A pending file: the source path whose contents become a blob object.
struct Blob {
    path: String,
}

/// One staged entry: a pending file or a nested staging tree.
enum TreeEntryObject {
    Blob(Blob),
    Tree(Tree),
}

/// The staging tree of one directory level: named entries, kept in
/// insertion order (which makes serialization deterministic per build).
pub struct Tree {
    entries: Vec<(String, TreeEntryObject)>,
}

/// The spec-level shape of a staged entry: a file carrying its source path,
/// or a directory carrying its own named entries.
pub enum StageNode {
    File(Seq<char>),
    Dir(Seq<(Seq<char>, StageNode)>),
}

spec fn node_view(o: TreeEntryObject) -> StageNode
    decreases o,
{
    match o {
        TreeEntryObject::Blob(b) => StageNode::File(b.path@),
        TreeEntryObject::Tree(t) => StageNode::Dir(entries_view(t.entries@)),
    }
}

spec fn entries_view(es: Seq<(String, TreeEntryObject)>) -> Seq<(Seq<char>, StageNode)>
    decreases es,
{
    if es.len() == 0 {
        Seq::empty()
    } else {
        seq![(es[0].0@, node_view(es[0].1))] + entries_view(es.drop_first())
    }
}

proof fn lemma_entries_view_index(es: Seq<(String, TreeEntryObject)>)
    ensures
        entries_view(es).len() == es.len(),
        forall|i: int|
            0 <= i < es.len() ==> #[trigger] entries_view(es)[i]
                == (es[i].0@, node_view(es[i].1)),
    decreases es.len(),
{
    if es.len() > 0 {
        lemma_entries_view_index(es.drop_first());
        assert forall|i: int|
            0 <= i < es.len() implies #[trigger] entries_view(es)[i]
                == (es[i].0@, node_view(es[i].1)) by {
            if i > 0 {
                assert(entries_view(es)[i] == entries_view(es.drop_first())[i - 1]);
                assert(es.drop_first()[i - 1] == es[i]);
            }
        }
    }
}

impl View for Tree {
    type V = Seq<(Seq<char>, StageNode)>;

    closed spec fn view(&self) -> Seq<(Seq<char>, StageNode)> {
        entries_view(self.entries@)
    }
}

/// The position of the first `/` at or after `from`, or -1 if there is
/// none.
pub open spec fn slash_pos(s: Seq<char>, from: int) -> int
    decreases s.len() - from,
    when 0 <= from <= s.len()
{
    if from >= s.len() {
        -1
    } else if s[from] == '/' {
        from
    } else {
        slash_pos(s, from + 1)
    }
}

proof fn lemma_slash_pos_range(s: Seq<char>, from: int)
    requires
        0 <= from <= s.len(),
    ensures
        slash_pos(s, from) == -1 || from <= slash_pos(s, from) < s.len(),
    decreases s.len() - from,
{
    if from < s.len() && s[from] != '/' {
        lemma_slash_pos_range(s, from + 1);
    }
}

proof fn lemma_slash_pos_found(s: Seq<char>, from: int, j: int)
    requires
        0 <= from <= j < s.len(),
        s[j] == '/',
        forall|k: int| from <= k < j ==> s[k] != '/',
    ensures
        slash_pos(s, from) == j,
    decreases j - from,
{
    if from < j {
        lemma_slash_pos_found(s, from + 1, j);
    }
}

proof fn lemma_slash_pos_none(s: Seq<char>, from: int)
    requires
        0 <= from <= s.len(),
        forall|k: int| from <= k < s.len() ==> s[k] != '/',
    ensures
        slash_pos(s, from) == -1,
    decreases s.len() - from,
{
    if from < s.len() {
        lemma_slash_pos_none(s, from + 1);
    }
}

/// The segments of a path split on `/` (an empty path gives one empty
/// segment, and a trailing `/` gives a trailing empty segment, as `split`
/// does).
pub open spec fn split_path(s: Seq<char>) -> Seq<Seq<char>>
    decreases s.len(),
    via split_path_dec
{
    let j = slash_pos(s, 0);
    if j < 0 {
        seq![s]
    } else {
        seq![s.take(j)] + split_path(s.skip(j + 1))
    }
}

#[via_fn]
proof fn split_path_dec(s: Seq<char>) {
    lemma_slash_pos_range(s, 0);
}

/// The index of `name` among staged entries, or -1: the first match wins.
pub open spec fn find_name(nodes: Seq<(Seq<char>, StageNode)>, name: Seq<char>) -> int
    decreases nodes.len(),
{
    if nodes.len() == 0 {
        -1
    } else if nodes[0].0 == name {
        0
    } else {
        let r = find_name(nodes.drop_first(), name);
        if r < 0 {
            -1
        } else {
            r + 1
        }
    }
}

proof fn lemma_find_name_found(nodes: Seq<(Seq<char>, StageNode)>, name: Seq<char>, i: int)
    requires
        0 <= i < nodes.len(),
        nodes[i].0 == name,
        forall|k: int| 0 <= k < i ==> (#[trigger] nodes[k]).0 != name,
    ensures
        find_name(nodes, name) == i,
    decreases i,
{
    if i > 0 {
        assert forall|k: int| 0 <= k < i - 1 implies (#[trigger] nodes.drop_first()[k]).0 != name by {
            assert(nodes.drop_first()[k] == nodes[k + 1]);
        }
        assert(nodes.drop_first()[i - 1] == nodes[i]);
        lemma_find_name_found(nodes.drop_first(), name, i - 1);
    }
}

proof fn lemma_find_name_none(nodes: Seq<(Seq<char>, StageNode)>, name: Seq<char>)
    requires
        forall|k: int| 0 <= k < nodes.len() ==> (#[trigger] nodes[k]).0 != name,
    ensures
        find_name(nodes, name) == -1,
    decreases nodes.len(),
{
    if nodes.len() > 0 {
        assert forall|k: int|
            0 <= k < nodes.drop_first().len()
                implies (#[trigger] nodes.drop_first()[k]).0 != name by {
            assert(nodes.drop_first()[k] == nodes[k + 1]);
        }
        lemma_find_name_none(nodes.drop_first(), name);
    }
}

/// How one inserted path transforms a staged level. The first segment
/// either reuses the entry of that name or appends a new one; a file is
/// recorded only at the last segment of a file path; descending stops at an
/// existing file entry (no file/directory conflict handling is attempted).
pub open spec fn spec_add_path(
    nodes: Seq<(Seq<char>, StageNode)>,
    segs: Seq<Seq<char>>,
    is_file: bool,
    full: Seq<char>,
) -> Seq<(Seq<char>, StageNode)>
    decreases segs.len(),
{
    if segs.len() == 0 {
        nodes
    } else {
        let name = segs[0];
        let idx = find_name(nodes, name);
        if idx < 0 {
            let node = if is_file && segs.len() == 1 {
                StageNode::File(full)
            } else {
                StageNode::Dir(spec_add_path(Seq::empty(), segs.drop_first(), is_file, full))
            };
            nodes.push((name, node))
        } else {
            let node = match nodes[idx].1 {
                StageNode::File(p) => StageNode::File(p),
                StageNode::Dir(children) => StageNode::Dir(
                    spec_add_path(children, segs.drop_first(), is_file, full),
                ),
            };
            nodes.update(idx, (name, node))
        }
    }
}

impl Tree {
    /// An empty staging tree.
    pub fn new() -> (t: Tree)
        ensures
            t@ == Seq::<(Seq<char>, StageNode)>::empty(),
    {
        let t = Tree { entries: Vec::new() };
        proof {
            assert(t@ =~= Seq::<(Seq<char>, StageNode)>::empty());
        }
        t
    }

    fn find_entry(&self, name: &String) -> (r: Option<usize>)
        ensures
            match r {
                Some(i) => {
                    &&& i < self.entries@.len()
                    &&& self.entries@[i as int].0@ == name@
                    &&& forall|k: int|
                        0 <= k < i ==> (#[trigger] self.entries@[k]).0@ != name@
                },
                None => forall|k: int|
                    0 <= k < self.entries@.len()
                        ==> (#[trigger] self.entries@[k]).0@ != name@,
            },
    {
        let mut i: usize = 0;
        while i < self.entries.len()
            invariant
                i <= self.entries@.len(),
                forall|k: int| 0 <= k < i ==> (#[trigger] self.entries@[k]).0@ != name@,
            decreases self.entries@.len() - i,
        {
            if self.entries[i].0.eq(name) {
                return Some(i);
            }
            i = i + 1;
        }
        None
    }

    /// Stages one relative path: segments are split on `/`, directories are
    /// walked or created one segment at a time, and the last segment of a
    /// file path is recorded as a pending file carrying the full path.
    pub fn add_path(&mut self, path: &String, is_file: bool)
        ensures
            final(self)@ == spec_add_path(old(self)@, split_path(path@), is_file, path@),
    {
        let mut segments = split_on_slash(path);
        self._add_path(&mut segments, is_file, path);
    }

    fn _add_path(&mut self, path: &mut Vec<String>, is_file: bool, fullpath: &String)
        ensures
            final(self)@ == spec_add_path(
                old(self)@,
                old(path).deep_view(),
                is_file,
                fullpath@,
            ),
        decreases old(path)@.len(),
    {
        proof {
            lemma_entries_view_index(self.entries@);
        }
        if path.len() == 0 {
            assert(old(path).deep_view() =~= Seq::<Seq<char>>::empty());
            return;
        }
        let ghost segs = old(path).deep_view();
        proof {
            assert(segs.len() == old(path)@.len());
            assert(segs[0] == old(path)@[0]@);
        }
        let entry_name = path.remove(0);
        proof {
            assert(path.deep_view() =~= segs.drop_first());
        }
        let found = self.find_entry(&entry_name);
        match found {
            None => {
                proof {
                    assert forall|k: int|
                        0 <= k < self@.len() implies (#[trigger] self@[k]).0 != entry_name@ by {
                        assert(self@[k] == (self.entries@[k].0@, node_view(self.entries@[k].1)));
                    }
                    lemma_find_name_none(self@, entry_name@);
                }
                if is_file && path.len() == 0 {
                    let node = TreeEntryObject::Blob(Blob { path: fullpath.clone() });
                    proof {
                        assert(path.deep_view().len() == 0);
                        assert(segs.len() == 1);
                    }
                    self.entries.push((entry_name, node));
                    proof {
                        lemma_entries_view_index(self.entries@);
                        assert(self@ =~= spec_add_path(old(self)@, segs, is_file, fullpath@));
                    }
                } else {
                    let mut sub = Tree::new();
                    sub._add_path(path, is_file, fullpath);
                    let ghost subv = sub@;
                    let node = TreeEntryObject::Tree(sub);
                    self.entries.push((entry_name, node));
                    proof {
                        lemma_entries_view_index(self.entries@);
                        assert(node_view(self.entries@[self.entries@.len() - 1].1)
                            == StageNode::Dir(subv));
                        assert(self@ =~= spec_add_path(old(self)@, segs, is_file, fullpath@));
                    }
                }
            },
            Some(i) => {
                proof {
                    assert forall|k: int|
                        0 <= k < i implies (#[trigger] self@[k]).0 != entry_name@ by {
                        assert(self@[k] == (self.entries@[k].0@, node_view(self.entries@[k].1)));
                    }
                    assert(self@[i as int]
                        == (self.entries@[i as int].0@, node_view(self.entries@[i as int].1)));
                    lemma_find_name_found(self@, entry_name@, i as int);
                }
                let ghost old_entries = self.entries@;
                let (name, node) = self.entries.remove(i);
                let node2 = match node {
                    TreeEntryObject::Blob(b) => TreeEntryObject::Blob(b),
                    TreeEntryObject::Tree(mut t) => {
                        t._add_path(path, is_file, fullpath);
                        TreeEntryObject::Tree(t)
                    },
                };
                self.entries.insert(i, (name, node2));
                proof {
                    assert(self.entries@ =~= old_entries.update(i as int, (old_entries[i as int].0, self.entries@[i as int].1)));
                    lemma_entries_view_index(self.entries@);
                    lemma_entries_view_index(old_entries);
                    assert(self@ =~= spec_add_path(old(self)@, segs, is_file, fullpath@));
                }
            },
        }
    }
}

spec fn files_map(s: Seq<(String, Vec<u8>)>) -> Map<Seq<char>, Seq<u8>>
    decreases s.len(),
{
    if s.len() == 0 {
        Map::empty()
    } else {
        files_map(s.drop_first()).insert(s[0].0@, s[0].1@)
    }
}

proof fn lemma_files_map_skip(s: Seq<(String, Vec<u8>)>, i: int, p: Seq<char>)
    requires
        0 <= i <= s.len(),
        forall|k: int| 0 <= k < i ==> (#[trigger] s[k]).0@ != p,
    ensures
        files_map(s).contains_key(p) == files_map(s.skip(i)).contains_key(p),
        files_map(s).contains_key(p) ==> files_map(s)[p] == files_map(s.skip(i))[p],
    decreases i,
{
    if i > 0 {
        assert(s.drop_first() =~= s.skip(1));
        assert forall|k: int| 0 <= k < i - 1 implies (#[trigger] s.skip(1)[k]).0@ != p by {
            assert(s.skip(1)[k] == s[k + 1]);
        }
        lemma_files_map_skip(s.skip(1), i - 1, p);
        assert(s.skip(1).skip(i - 1) =~= s.skip(i));
    } else {
        assert(s.skip(0) =~= s);
    }
}

/// The contents of the staged files, keyed by source path: the filesystem
/// as the staging tree will see it. The caller reads each file once and
/// hands the bytes over; a path registered twice keeps its latest contents.
pub struct FileSource {
    files: Vec<(String, Vec<u8>)>,
}

impl View for FileSource {
    type V = Map<Seq<char>, Seq<u8>>;

    closed spec fn view(&self) -> Map<Seq<char>, Seq<u8>> {
        files_map(self.files@)
    }
}

impl FileSource {
    /// An empty file table.
    pub fn new() -> (f: FileSource)
        ensures
            f@ == Map::<Seq<char>, Seq<u8>>::empty(),
    {
        FileSource { files: Vec::new() }
    }

    /// Registers the contents of one file.
    pub fn add(&mut self, path: String, content: Vec<u8>)
        ensures
            final(self)@ == old(self)@.insert(path@, content@),
    {
        let ghost p = path@;
        let ghost c = content@;
        self.files.insert(0, (path, content));
        proof {
            assert(self.files@.drop_first() =~= old(self).files@);
            assert(self.files@[0] == (self.files@[0].0, self.files@[0].1));
            assert(self@ =~= old(self)@.insert(p, c));
        }
    }

    /// Looks one file's contents up.
    pub fn lookup(&self, path: &String) -> (r: Option<&Vec<u8>>)
        ensures
            match r {
                Some(v) => self@.contains_key(path@) && v@ == self@[path@],
                None => !self@.contains_key(path@),
            },
    {
        let mut i: usize = 0;
        while i < self.files.len()
            invariant
                i <= self.files@.len(),
                forall|k: int| 0 <= k < i ==> (#[trigger] self.files@[k]).0@ != path@,
            decreases self.files@.len() - i,
        {
            if self.files[i].0.eq(path) {
                proof {
                    lemma_files_map_skip(self.files@, i as int, path@);
                    let rest = self.files@.skip(i as int);
                    assert(rest[0] == self.files@[i as int]);
                    assert(rest.drop_first() =~= self.files@.skip(i + 1));
                    assert(files_map(rest) == files_map(rest.drop_first()).insert(
                        rest[0].0@, rest[0].1@));
                }
                return Some(&self.files[i].1);
            }
            i = i + 1;
        }
        proof {
            lemma_files_map_skip(self.files@, self.files@.len() as int, path@);
            assert(self.files@.skip(self.files@.len() as int)
                =~= Seq::<(String, Vec<u8>)>::empty());
        }
        None
    }
}

/// The full serialized bytes of a blob object holding `content`.
pub open spec fn blob_object_bytes(content: Seq<u8>) -> Seq<u8> {
    crate::objects::base::header_bytes("blob"@, content.len()) + content
}

/// The full serialized bytes of a tree object whose body is `body`.
pub open spec fn tree_object_bytes(body: Seq<u8>) -> Seq<u8> {
    crate::objects::base::header_bytes("tree"@, body.len()) + body
}

/// The tree-entry line a staged node contributes to its parent's body:
/// mode 100644 with the blob digest for a file, mode 40000 with the
/// (recursively computed) tree digest for a directory.
pub open spec fn stage_entry_bytes(
    name: Seq<char>,
    node: StageNode,
    files: Map<Seq<char>, Seq<u8>>,
) -> Seq<u8>
    decreases node,
{
    match node {
        StageNode::File(path) => crate::objects::tree::entry_bytes(
            0o100644u32,
            name,
            crate::objects::io::sha1_of(blob_object_bytes(files[path])),
        ),
        StageNode::Dir(children) => crate::objects::tree::entry_bytes(
            0o40000u32,
            name,
            crate::objects::io::sha1_of(tree_object_bytes(stage_body(children, files))),
        ),
    }
}

/// The serialized tree body of one staged level.
pub open spec fn stage_body(
    nodes: Seq<(Seq<char>, StageNode)>,
    files: Map<Seq<char>, Seq<u8>>,
) -> Seq<u8>
    decreases nodes,
{
    if nodes.len() == 0 {
        Seq::empty()
    } else {
        stage_entry_bytes(nodes[0].0, nodes[0].1, files)
            + stage_body(nodes.drop_first(), files)
    }
}

/// The digest the recursive write returns for one staged level: the digest
/// of the tree object framing that level's body.
pub open spec fn stage_digest(
    nodes: Seq<(Seq<char>, StageNode)>,
    files: Map<Seq<char>, Seq<u8>>,
) -> Seq<u8> {
    crate::objects::io::sha1_of(tree_object_bytes(stage_body(nodes, files)))
}

/// Whether one staged node's files all have contents available.
pub open spec fn node_files_present(node: StageNode, files: Map<Seq<char>, Seq<u8>>) -> bool
    decreases node,
{
    match node {
        StageNode::File(path) => files.contains_key(path),
        StageNode::Dir(children) => all_files_present(children, files),
    }
}

/// Whether every staged file of a level (recursively) has contents
/// available.
pub open spec fn all_files_present(
    nodes: Seq<(Seq<char>, StageNode)>,
    files: Map<Seq<char>, Seq<u8>>,
) -> bool
    decreases nodes,
{
    if nodes.len() == 0 {
        true
    } else {
        node_files_present(nodes[0].1, files) && all_files_present(nodes.drop_first(), files)
    }
}

/// A name a tree entry can carry: free of NUL, and small enough that the
/// entry's serialized size fits the machine.
pub open spec fn entry_name_wf(name: Seq<char>) -> bool {
    &&& forall|i: int| 0 <= i < name.len() ==> name[i] != '\0'
    &&& vstd::utf8::encode_utf8(name).len() + 28 <= usize::MAX
}

/// Whether one staged node is serializable (recursively).
pub open spec fn stage_node_wf(node: StageNode, files: Map<Seq<char>, Seq<u8>>) -> bool
    decreases node,
{
    match node {
        StageNode::File(_) => true,
        StageNode::Dir(children) => {
            &&& stage_body(children, files).len() <= usize::MAX
            &&& stage_nodes_wf(children, files)
        },
    }
}

/// Whether every staged entry of a level is serializable: names are valid
/// and nested levels' bodies fit the machine.
pub open spec fn stage_nodes_wf(
    nodes: Seq<(Seq<char>, StageNode)>,
    files: Map<Seq<char>, Seq<u8>>,
) -> bool
    decreases nodes,
{
    if nodes.len() == 0 {
        true
    } else {
        entry_name_wf(nodes[0].0) && stage_node_wf(nodes[0].1, files)
            && stage_nodes_wf(nodes.drop_first(), files)
    }
}

/// What the recursive write needs of a staged tree: every level's body
/// fits the machine and every name is valid. These are machine limits, not
/// logic: any tree built from real paths within memory satisfies them.
pub open spec fn stage_wf(
    nodes: Seq<(Seq<char>, StageNode)>,
    files: Map<Seq<char>, Seq<u8>>,
) -> bool {
    &&& stage_body(nodes, files).len() <= usize::MAX
    &&& stage_nodes_wf(nodes, files)
}

proof fn lemma_stage_nodes_wf_index(
    nodes: Seq<(Seq<char>, StageNode)>,
    files: Map<Seq<char>, Seq<u8>>,
    i: int,
)
    requires
        stage_nodes_wf(nodes, files),
        0 <= i < nodes.len(),
    ensures
        entry_name_wf(nodes[i].0),
        stage_node_wf(nodes[i].1, files),
    decreases i,
{
    if i > 0 {
        lemma_stage_nodes_wf_index(nodes.drop_first(), files, i - 1);
        assert(nodes.drop_first()[i - 1] == nodes[i]);
    }
}

proof fn lemma_all_present_concat(
    a: Seq<(Seq<char>, StageNode)>,
    b: Seq<(Seq<char>, StageNode)>,
    files: Map<Seq<char>, Seq<u8>>,
)
    ensures
        all_files_present(a + b, files) == (all_files_present(a, files)
            && all_files_present(b, files)),
    decreases a.len(),
{
    if a.len() == 0 {
        assert(a + b =~= b);
    } else {
        lemma_all_present_concat(a.drop_first(), b, files);
        assert((a + b).drop_first() =~= a.drop_first() + b);
        assert((a + b)[0] == a[0]);
    }
}

proof fn lemma_all_present_index(
    nodes: Seq<(Seq<char>, StageNode)>,
    files: Map<Seq<char>, Seq<u8>>,
    i: int,
)
    requires
        all_files_present(nodes, files),
        0 <= i < nodes.len(),
    ensures
        node_files_present(nodes[i].1, files),
    decreases i,
{
    if i > 0 {
        lemma_all_present_index(nodes.drop_first(), files, i - 1);
        assert(nodes.drop_first()[i - 1] == nodes[i]);
    }
}

proof fn lemma_all_present_take_step(
    nodes: Seq<(Seq<char>, StageNode)>,
    files: Map<Seq<char>, Seq<u8>>,
    i: int,
)
    requires
        0 <= i < nodes.len(),
    ensures
        all_files_present(nodes.take(i + 1), files) == (all_files_present(
            nodes.take(i),
            files,
        ) && node_files_present(nodes[i].1, files)),
{
    lemma_all_present_concat(nodes.take(i), seq![nodes[i]], files);
    assert(nodes.take(i + 1) =~= nodes.take(i) + seq![nodes[i]]);
    assert(seq![nodes[i]].drop_first() =~= Seq::<(Seq<char>, StageNode)>::empty());
    assert(all_files_present(Seq::empty(), files));
    assert(all_files_present(seq![nodes[i]], files) == node_files_present(nodes[i].1, files));
}

proof fn lemma_body_align(
    es: Seq<crate::objects::tree::TreeEntry>,
    nodes: Seq<(Seq<char>, StageNode)>,
    files: Map<Seq<char>, Seq<u8>>,
)
    requires
        es.len() == nodes.len(),
        forall|k: int|
            0 <= k < es.len() ==> (#[trigger] es[k]).spec_bytes() == stage_entry_bytes(
                nodes[k].0,
                nodes[k].1,
                files,
            ),
    ensures
        crate::objects::tree::tree_body_bytes(es) == stage_body(nodes, files),
    decreases es.len(),
{
    if es.len() > 0 {
        assert forall|k: int|
            0 <= k < es.drop_first().len()
                implies (#[trigger] es.drop_first()[k]).spec_bytes() == stage_entry_bytes(
                nodes.drop_first()[k].0,
                nodes.drop_first()[k].1,
                files,
            ) by {
            assert(es.drop_first()[k] == es[k + 1]);
            assert(nodes.drop_first()[k] == nodes[k + 1]);
        }
        lemma_body_align(es.drop_first(), nodes.drop_first(), files);
        assert(es[0].spec_bytes() == stage_entry_bytes(nodes[0].0, nodes[0].1, files));
    }
}

fn copy_bytes(v: &Vec<u8>) -> (r: Vec<u8>)
    ensures
        r@ == v@,
{
    let mut out: Vec<u8> = Vec::new();
    let mut i: usize = 0;
    while i < v.len()
        invariant
            i <= v@.len(),
            out@ == v@.take(i as int),
        decreases v@.len() - i,
    {
        out.push(v[i]);
        assert(out@ =~= v@.take(i + 1));
        i = i + 1;
    }
    assert(out@ =~= v@);
    out
}

impl Tree {
    /// Consumes the staging tree, writing one blob object per staged file
    /// and one tree object per directory level, children before parents,
    /// and returns the digest of this level's tree object.
    ///
    /// Fails with `IoFailure` exactly when some staged file has no
    /// contents in `files`; objects already written for earlier siblings
    /// remain in the store either way (they are content-addressed and
    /// harmless).
    #[verifier::loop_isolation(false)]
    pub fn write_recursively(
        self,
        files: &FileSource,
        store: &mut crate::objects::io::ObjectStore,
    ) -> (r: Result<crate::objects::io::Hash, GitError>)
        requires
            old(store).wf(),
            stage_wf(self@, files@),
        ensures
            final(store).wf(),
            forall|k: Seq<u8>|
                old(store)@.contains_key(k) ==> final(store)@.contains_key(k),
            r is Ok <==> all_files_present(self@, files@),
            r matches Ok(h) ==> {
                &&& h.wf()
                &&& h@ == stage_digest(self@, files@)
                &&& final(store)@.contains_key(h@)
                &&& final(store)@[h@] == tree_object_bytes(stage_body(self@, files@))
            },
            r matches Err(e) ==> e == GitError::IoFailure,
        decreases self,
    {
        let ghost whole = self;
        let ghost view0 = self@;
        let Tree { entries: mut entries } = self;
        let ghost orig = entries@;
        proof {
            lemma_entries_view_index(orig);
        }
        let mut tree_object = crate::objects::tree::TreeObject::new();
        let ghost mut i: int = 0;
        while entries.len() > 0
            invariant
                0 <= i <= orig.len(),
                entries@ == orig.skip(i),
                view0 == entries_view(orig),
                view0.len() == orig.len(),
                forall|k: int|
                    0 <= k < orig.len() ==> #[trigger] view0[k]
                        == (orig[k].0@, node_view(orig[k].1)),
                stage_wf(view0, files@),
                store.wf(),
                forall|k: Seq<u8>|
                    old(store)@.contains_key(k) ==> #[trigger] store@.contains_key(k),
                tree_object.spec_entries().len() == i,
                forall|k: int| 0 <= k < i ==> {
                    &&& (#[trigger] tree_object.spec_entries()[k]).wf()
                    &&& tree_object.spec_entries()[k].spec_bytes() == stage_entry_bytes(
                        view0[k].0,
                        view0[k].1,
                        files@,
                    )
                },
                all_files_present(view0.take(i), files@),
            decreases entries@.len(),
        {
            proof {
                assert(entries@[0] == orig[i]);
                lemma_stage_nodes_wf_index(view0, files@, i);
                lemma_all_present_take_step(view0, files@, i);
            }
            let (name, node) = entries.remove(0);
            proof {
                assert(entries@ =~= orig.skip(i + 1));
            }
            match node {
                TreeEntryObject::Blob(b) => {
                    let content = match files.lookup(&b.path) {
                        Some(c) => copy_bytes(c),
                        None => {
                            proof {
                                assert(view0[i].1 == StageNode::File(b.path@));
                                assert(!node_files_present(view0[i].1, files@));
                                if all_files_present(view0, files@) {
                                    lemma_all_present_index(view0, files@, i);
                                }
                            }
                            return Err(GitError::IoFailure);
                        },
                    };
                    let blob = crate::objects::blob::BlobObject::new(content);
                    let h = crate::objects::base::write_object(&blob, store);
                    proof {
                        assert(crate::objects::base::object_bytes(blob)
                            =~= blob_object_bytes(files@[b.path@]));
                    }
                    let entry = crate::objects::tree::TreeEntry {
                        mode: crate::objects::tree::Mode(0o100644),
                        name,
                        hash: h,
                    };
                    proof {
                        assert(view0[i].0 == orig[i].0@);
                        assert(entry.wf());
                        assert(entry.spec_bytes() == stage_entry_bytes(
                            view0[i].0, view0[i].1, files@));
                    }
                    tree_object.add(entry);
                },
                TreeEntryObject::Tree(t) => {
                    proof {
                        assert(node_view(orig[i].1) == StageNode::Dir(t@));
                        assert(view0[i].1 == StageNode::Dir(t@));
                        assert(stage_node_wf(view0[i].1, files@));
                        assert(stage_wf(t@, files@));
                        assert(decreases_to!(whole => whole.entries));
                        assert(decreases_to!(whole.entries => whole.entries@));
                        assert(decreases_to!(whole.entries@ => whole.entries@[i]));
                        assert(decreases_to!(whole.entries@[i] => whole.entries@[i].1));
                        assert(whole.entries@[i].1 == TreeEntryObject::Tree(t));
                        assert(decreases_to!(whole.entries@[i].1
                            => whole.entries@[i].1->Tree_0));
                    }
                    let sub_result = t.write_recursively(files, store);
                    let h = match sub_result {
                        Ok(h) => h,
                        Err(e) => {
                            proof {
                                assert(!node_files_present(view0[i].1, files@));
                                if all_files_present(view0, files@) {
                                    lemma_all_present_index(view0, files@, i);
                                }
                            }
                            return Err(e);
                        },
                    };
                    let entry = crate::objects::tree::TreeEntry {
                        mode: crate::objects::tree::Mode(0o40000),
                        name,
                        hash: h,
                    };
                    proof {
                        assert(view0[i].0 == orig[i].0@);
                        assert(entry.wf());
                        assert(entry.spec_bytes() == stage_entry_bytes(
                            view0[i].0, view0[i].1, files@));
                    }
                    tree_object.add(entry);
                },
            }
            proof {
                i = i + 1;
            }
        }
        proof {
            assert(i == orig.len());
            assert(view0.take(i) =~= view0);
            lemma_body_align(tree_object.spec_entries(), view0, files@);
            assert(crate::objects::tree::entries_wf(tree_object.spec_entries()));
        }
        let h = crate::objects::base::write_object(&tree_object, store);
        proof {
            assert(crate::objects::base::object_bytes(tree_object)
                =~= tree_object_bytes(stage_body(view0, files@)));
        }
        Ok(h)
    }
}

/// Splits a path on `/` into its segments.
fn split_on_slash(path: &String) -> (r: Vec<String>)
    ensures
        r.deep_view() == split_path(path@),
{
    let mut out: Vec<String> = Vec::new();
    split_from(path.as_str(), 0, &mut out);
    proof {
        assert(path@.skip(0) =~= path@);
        assert(out.deep_view() =~= Seq::<Seq<char>>::empty() + split_path(path@));
    }
    out
}

fn split_from(s: &str, start: usize, out: &mut Vec<String>)
    requires
        start <= s@.len(),
    ensures
        final(out).deep_view() == old(out).deep_view() + split_path(s@.skip(start as int)),
    decreases s@.len() - start,
{
    let ghost rest = s@.skip(start as int);
    let n = s.unicode_len();
    let mut j: usize = start;
    while j < n && s.get_char(j) != '/'
        invariant
            start <= j <= n,
            n == s@.len(),
            forall|k: int| start <= k < j ==> s@[k] != '/',
        decreases n - j,
    {
        j = j + 1;
    }
    if j == n {
        proof {
            assert forall|k: int| 0 <= k < rest.len() implies rest[k] != '/' by {
                assert(rest[k] == s@[start + k]);
            }
            lemma_slash_pos_none(rest, 0);
        }
        let seg = s.substring_char(start, n);
        out.push(String::from_str(seg));
        proof {
            assert(seg@ =~= rest);
            assert(out.deep_view() =~= old(out).deep_view() + split_path(rest));
        }
    } else {
        proof {
            assert(s@[j as int] == '/');
            assert(rest[j - start] == s@[j as int]);
            assert forall|k: int| 0 <= k < j - start implies rest[k] != '/' by {
                assert(rest[k] == s@[start + k]);
            }
            lemma_slash_pos_found(rest, 0, j - start);
        }
        let seg = s.substring_char(start, j);
        out.push(String::from_str(seg));
        let ghost mid = out.deep_view();
        split_from(s, j + 1, out);
        proof {
            assert(seg@ =~= rest.take(j - start));
            assert(s@.skip(j + 1) =~= rest.skip(j - start + 1));
            assert(mid =~= old(out).deep_view().push(rest.take(j - start)));
            assert(out.deep_view() =~= old(out).deep_view() + split_path(rest));
        }
    }
}

} // verus!

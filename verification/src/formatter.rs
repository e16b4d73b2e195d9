//! The path tree: building a directory/file tree from slash-separated
//! relative paths, and rendering it as ordered box-drawing lines.

use crate::order::lex_le;
use crate::scanner::ScannedFile;
use crate::order::lex_lt;
use crate::order::str_le;
use crate::order::str_lt;
use vstd::prelude::*;

verus! {

/// The mathematical model of a directory node: named subdirectory models and
/// file names, each in listing order.
pub struct NodeV {
    pub children: Seq<(Seq<char>, NodeV)>,
    pub files: Seq<Seq<char>>,
}

/// One directory level of the path tree: subdirectories keyed by name, and
/// the names of the files directly inside.
pub struct Node {
    pub children: Vec<(String, Node)>,
    pub files: Vec<String>,
}

impl Node {
    /// The model of this node: each child's name view paired with its model,
    /// and the file name views, in stored order.
    pub open spec fn model(&self) -> NodeV
        decreases self,
    {
        NodeV {
            children: Seq::new(
                self.children@.len(),
                |i: int|
                    if 0 <= i < self.children@.len() {
                        (self.children@[i].0@, self.children@[i].1.model())
                    } else {
                        (Seq::empty(), NodeV { children: Seq::empty(), files: Seq::empty() })
                    },
            ),
            files: Seq::new(self.files@.len(), |i: int| self.files@[i]@),
        }
    }
}

impl View for Node {
    type V = NodeV;

    open spec fn view(&self) -> NodeV {
        self.model()
    }
}

impl Node {
    /// A node with no subdirectories and no files.
    pub fn new() -> (r: Self)
        ensures
            r@.children == Seq::<(Seq<char>, NodeV)>::empty(),
            r@.files == Seq::<Seq<char>>::empty(),
    {
        let r = Node { children: Vec::new(), files: Vec::new() };
        proof {
            assert(r@.children =~= Seq::<(Seq<char>, NodeV)>::empty());
            assert(r@.files =~= Seq::<Seq<char>>::empty());
        }
        r
    }

    /// Inserts the path `parts[from..]`: the last segment as a file, each
    /// earlier segment as a directory on the way down, in sorted position.
    pub fn insert_path(&mut self, parts: &Vec<String>, from: usize)
        ensures
            final(self)@ == spec_insert(old(self)@, parts.deep_view(), from as int),
        decreases parts@.len() - from,
    {
        if from >= parts.len() {
            return ;
        }
        if from == parts.len() - 1 {
            let name = parts[from].clone();
            proof {
                assert(self.files.deep_view() =~= old(self)@.files);
            }
            let pos = find_file_pos(&self.files, &name);
            self.files.insert(pos, name);
            proof {
                assert(self@.files =~= old(self)@.files.insert(
                    spec_file_pos(old(self)@.files, parts.deep_view()[from as int], 0),
                    parts.deep_view()[from as int],
                ));
                assert(self@.children =~= old(self)@.children);
            }
        } else {
            let name = parts[from].clone();
            proof {
                assert(seq_of_children(self.children@) =~~= old(self)@.children);
            }
            let pos = find_dir_pos(&self.children, &name);
            if pos < self.children.len() && self.children[pos].0 == name {
                let mut entry = self.children.remove(pos);
                entry.1.insert_path(parts, from + 1);
                self.children.insert(pos, entry);
                proof {
                    assert(self@.files =~= old(self)@.files);
                    assert(self@.children =~= old(self)@.children.update(
                        pos as int,
                        (
                            parts.deep_view()[from as int],
                            spec_insert(
                                old(self)@.children[pos as int].1,
                                parts.deep_view(),
                                from + 1,
                            ),
                        ),
                    ));
                }
            } else {
                let mut child = Node::new();
                child.insert_path(parts, from + 1);
                self.children.insert(pos, (name, child));
                proof {
                    assert(self@.files =~= old(self)@.files);
                    assert(self@.children =~= old(self)@.children.insert(
                        pos as int,
                        (
                            parts.deep_view()[from as int],
                            spec_insert(empty_nodev(), parts.deep_view(), from + 1),
                        ),
                    ));
                }
            }
        }
    }
}

/// The model of a node with no subdirectories and no files.
pub open spec fn empty_nodev() -> NodeV {
    NodeV { children: Seq::empty(), files: Seq::empty() }
}

/// The first position in `files` at or after `i` whose name is above `name`;
/// inserting there keeps the list sorted and keeps equal names stable.
pub open spec fn spec_file_pos(files: Seq<Seq<char>>, name: Seq<char>, i: int) -> int
    decreases files.len() - i,
    when 0 <= i <= files.len()
{
    if i == files.len() {
        i
    } else if lex_lt(name, files[i]) {
        i
    } else {
        spec_file_pos(files, name, i + 1)
    }
}

/// The first position in `ch` at or after `i` whose name is at or above
/// `name`: where `name` stands if present, or belongs if absent.
pub open spec fn spec_dir_pos(ch: Seq<(Seq<char>, NodeV)>, name: Seq<char>, i: int) -> int
    decreases ch.len() - i,
    when 0 <= i <= ch.len()
{
    if i == ch.len() {
        i
    } else if lex_le(name, ch[i].0) {
        i
    } else {
        spec_dir_pos(ch, name, i + 1)
    }
}

/// The model of inserting the path `parts[i..]` below `m`: the last segment
/// joins the files in sorted position; each earlier segment selects or
/// creates the subdirectory of that name, in sorted position.
pub open spec fn spec_insert(m: NodeV, parts: Seq<Seq<char>>, i: int) -> NodeV
    decreases parts.len() - i,
{
    if i < 0 || i >= parts.len() {
        m
    } else if i == parts.len() - 1 {
        NodeV { children: m.children, files: m.files.insert(spec_file_pos(m.files, parts[i], 0), parts[i]) }
    } else {
        let j = spec_dir_pos(m.children, parts[i], 0);
        if j < m.children.len() && m.children[j].0 == parts[i] {
            NodeV {
                children: m.children.update(j, (parts[i], spec_insert(m.children[j].1, parts, i + 1))),
                files: m.files,
            }
        } else {
            NodeV {
                children: m.children.insert(j, (parts[i], spec_insert(empty_nodev(), parts, i + 1))),
                files: m.files,
            }
        }
    }
}

fn find_file_pos(files: &Vec<String>, name: &String) -> (r: usize)
    ensures
        r == spec_file_pos(files.deep_view(), name@, 0),
        r <= files@.len(),
{
    let n = files.len();
    let mut i: usize = 0;
    while i < n
        invariant
            i <= n,
            n == files@.len(),
            spec_file_pos(files.deep_view(), name@, 0) == spec_file_pos(files.deep_view(), name@, i as int),
        decreases n - i,
    {
        if str_lt(name.as_str(), files[i].as_str()) {
            return i;
        }
        i += 1;
    }
    i
}

fn find_dir_pos(ch: &Vec<(String, Node)>, name: &String) -> (r: usize)
    ensures
        r == spec_dir_pos(seq_of_children(ch@), name@, 0),
        r <= ch@.len(),
{
    let n = ch.len();
    let mut i: usize = 0;
    while i < n
        invariant
            i <= n,
            n == ch@.len(),
            spec_dir_pos(seq_of_children(ch@), name@, 0) == spec_dir_pos(
                seq_of_children(ch@),
                name@,
                i as int,
            ),
        decreases n - i,
    {
        if str_le(name.as_str(), ch[i].0.as_str()) {
            return i;
        }
        i += 1;
    }
    i
}

/// The model of a child list: each entry's name view paired with its model.
pub open spec fn seq_of_children(ch: Seq<(String, Node)>) -> Seq<(Seq<char>, NodeV)> {
    Seq::new(
        ch.len(),
        |i: int|
            if 0 <= i < ch.len() {
                (ch[i].0@, ch[i].1@)
            } else {
                (Seq::empty(), empty_nodev())
            },
    )
}

/// The index of the first `/` in `s` at or after `i`, or the length of `s`
/// if there is none.
pub open spec fn spec_find_slash(s: Seq<char>, i: int) -> int
    decreases s.len() - i,
    when 0 <= i <= s.len()
{
    if i >= s.len() {
        i
    } else if s[i] == '/' {
        i
    } else {
        spec_find_slash(s, i + 1)
    }
}

pub proof fn lemma_find_slash_bounds(s: Seq<char>, i: int)
    requires
        0 <= i <= s.len(),
    ensures
        i <= spec_find_slash(s, i) <= s.len(),
        forall|j: int| i <= j < spec_find_slash(s, i) ==> s[j] != '/',
        spec_find_slash(s, i) < s.len() ==> s[spec_find_slash(s, i)] == '/',
    decreases s.len() - i,
{
    if i < s.len() && s[i] != '/' {
        lemma_find_slash_bounds(s, i + 1);
    }
}

/// The segments of `s`, split at each `/`.
pub open spec fn spec_split(s: Seq<char>) -> Seq<Seq<char>>
    decreases s.len(),
    via spec_split_decreases
{
    let i = spec_find_slash(s, 0);
    if i >= s.len() {
        seq![s]
    } else {
        seq![s.take(i)] + spec_split(s.skip(i + 1))
    }
}

#[via_fn]
proof fn spec_split_decreases(s: Seq<char>) {
    lemma_find_slash_bounds(s, 0);
}

/// Splits a path on `/` into its segments.
pub fn split_path(s: &String) -> (r: Vec<String>)
    ensures
        r.deep_view() == spec_split(s@),
{
    let n = s.as_str().unicode_len();
    let mut r: Vec<String> = Vec::new();
    proof {
        assert(s@.skip(0) =~= s@);
        assert(r.deep_view() =~= Seq::<Seq<char>>::empty());
        assert(Seq::<Seq<char>>::empty() + spec_split(s@) =~= spec_split(s@));
    }
    let mut start: usize = 0;
    let mut i: usize = 0;
    while i < n
        invariant
            0 <= start <= i <= n,
            n == s@.len(),
            forall|j: int| start <= j < i ==> s@[j] != '/',
            spec_split(s@) == r.deep_view() + spec_split(s@.skip(start as int)),
        decreases n - i,
    {
        let c = s.as_str().get_char(i);
        if c == '/' {
            let ghost r0 = r.deep_view();
            let seg = s.as_str().substring_char(start, i);
            r.push(String::from_str(seg));
            proof {
                lemma_split_step(s@, start as int, i as int);
                assert(r.deep_view() =~= r0 + seq![seg@]);
                assert(r0 + seq![seg@] + spec_split(s@.skip(i + 1)) =~= r0 + (seq![seg@]
                    + spec_split(s@.skip(i + 1))));
            }
            start = i + 1;
        }
        i += 1;
    }
    let ghost r0 = r.deep_view();
    let seg = s.as_str().substring_char(start, n);
    r.push(String::from_str(seg));
    proof {
        lemma_split_last(s@, start as int);
        assert(r.deep_view() =~= r0 + seq![seg@]);
    }
    r
}

/// Splitting the tail that begins at `start` yields the segment up to the
/// slash at `i`, then the split of what follows that slash.
proof fn lemma_split_step(s: Seq<char>, start: int, i: int)
    requires
        0 <= start <= i < s.len(),
        forall|j: int| start <= j < i ==> s[j] != '/',
        s[i] == '/',
    ensures
        spec_split(s.skip(start)) == seq![s.subrange(start, i)] + spec_split(s.skip(i + 1)),
{
    let t = s.skip(start);
    lemma_find_slash_prefix(t, 0, i - start);
    assert(spec_find_slash(t, 0) == i - start);
    assert(t.take(i - start) =~= s.subrange(start, i));
    assert(t.skip(i - start + 1) =~= s.skip(i + 1));
}

/// A sequence with no slash before position `k` and a slash at `k` has its
/// first slash at `k`.
proof fn lemma_find_slash_prefix(t: Seq<char>, i: int, k: int)
    requires
        0 <= i <= k < t.len(),
        forall|j: int| i <= j < k ==> t[j] != '/',
        t[k] == '/',
    ensures
        spec_find_slash(t, i) == k,
    decreases k - i,
{
    if i < k {
        lemma_find_slash_prefix(t, i + 1, k);
    }
}

/// Splitting a tail with no slash in it yields that tail as the only segment.
proof fn lemma_split_last(s: Seq<char>, start: int)
    requires
        0 <= start <= s.len(),
        forall|j: int| start <= j < s.len() ==> s[j] != '/',
    ensures
        spec_split(s.skip(start)) == seq![s.subrange(start, s.len() as int)],
{
    let t = s.skip(start);
    lemma_find_slash_none(t, 0);
    assert(t =~= s.subrange(start, s.len() as int));
}

/// A sequence without a slash has its first slash index at its length.
proof fn lemma_find_slash_none(t: Seq<char>, i: int)
    requires
        0 <= i <= t.len(),
        forall|j: int| i <= j < t.len() ==> t[j] != '/',
    ensures
        spec_find_slash(t, i) == t.len(),
    decreases t.len() - i,
{
    if i < t.len() {
        lemma_find_slash_none(t, i + 1);
    }
}

/// The connector drawn before an entry: a corner for the last sibling, a tee
/// for every other.
pub open spec fn spec_connector(is_last: bool) -> Seq<char> {
    if is_last {
        "└── "@
    } else {
        "├── "@
    }
}

/// What a parent adds to the prefix handed to its children: blanks below a
/// corner, a bar below a tee.
pub open spec fn spec_extension(is_last: bool) -> Seq<char> {
    if is_last {
        "    "@
    } else {
        "│   "@
    }
}

/// The rendered lines of the files of one node, from index `i` on: each line
/// carries the display prefix, a connector that is a corner exactly on the
/// final file, and the file's name; files always close their node's listing.
pub open spec fn spec_file_lines(files: Seq<Seq<char>>, i: int, pp: Seq<char>, px: Seq<char>) -> Seq<
    (Seq<char>, Seq<char>),
>
    decreases files.len() - i,
    when 0 <= i <= files.len()
{
    if i >= files.len() {
        Seq::empty()
    } else {
        seq![(px + spec_connector(i == files.len() - 1) + files[i], pp + files[i])]
            + spec_file_lines(files, i + 1, pp, px)
    }
}

/// The rendered lines of one named subtree: the node's own line, then all
/// its children under the extended prefix.
pub open spec fn spec_render(
    name: Seq<char>,
    full: Seq<char>,
    n: NodeV,
    px: Seq<char>,
    is_last: bool,
) -> Seq<(Seq<char>, Seq<char>)>
    decreases n, 2int, 0int,
{
    seq![(px + spec_connector(is_last) + name, full)] + spec_children(
        n,
        full + "/"@,
        px + spec_extension(is_last),
    )
}

/// The rendered lines of a node's children: subdirectories first, then
/// files, each group in stored order.
pub open spec fn spec_children(n: NodeV, pp: Seq<char>, px: Seq<char>) -> Seq<
    (Seq<char>, Seq<char>),
>
    decreases n, 1int, 0int,
{
    spec_dirs(n, 0, pp, px) + spec_file_lines(n.files, 0, pp, px)
}

/// The rendered lines of a node's subdirectories from index `i` on; a
/// subdirectory is the last sibling only when it closes the child list and
/// no files follow.
pub open spec fn spec_dirs(n: NodeV, i: int, pp: Seq<char>, px: Seq<char>) -> Seq<
    (Seq<char>, Seq<char>),
>
    decreases n, 0int, n.children.len() - i,
    via spec_dirs_decreases
{
    if i < 0 || i >= n.children.len() {
        Seq::empty()
    } else {
        spec_render(
            n.children[i].0,
            pp + n.children[i].0,
            n.children[i].1,
            px,
            i == n.children.len() - 1 && n.files.len() == 0,
        ) + spec_dirs(n, i + 1, pp, px)
    }
}

#[via_fn]
proof fn spec_dirs_decreases(n: NodeV, i: int, pp: Seq<char>, px: Seq<char>) {
    if 0 <= i < n.children.len() {
        assert(decreases_to!(n => n.children));
        assert(decreases_to!(n.children => n.children[i]));
        assert(decreases_to!(n.children[i] => n.children[i].1));
    }
}

/// The rendered lines of the top-level directories from index `i` on; the
/// last of them is always a last sibling, root files having been listed
/// before them.
pub open spec fn spec_top_dirs(n: NodeV, i: int) -> Seq<(Seq<char>, Seq<char>)>
    decreases n, 3int, n.children.len() - i,
    via spec_top_dirs_decreases
{
    if i < 0 || i >= n.children.len() {
        Seq::empty()
    } else {
        spec_render(
            n.children[i].0,
            n.children[i].0,
            n.children[i].1,
            Seq::empty(),
            i == n.children.len() - 1,
        ) + spec_top_dirs(n, i + 1)
    }
}

#[via_fn]
proof fn spec_top_dirs_decreases(n: NodeV, i: int) {
    if 0 <= i < n.children.len() {
        assert(decreases_to!(n => n.children));
        assert(decreases_to!(n.children => n.children[i]));
        assert(decreases_to!(n.children[i] => n.children[i].1));
    }
}

/// The full tree listing: the root's own files first, bare of any prefix,
/// then each top-level directory's subtree.
pub open spec fn spec_tree_lines(n: NodeV) -> Seq<(Seq<char>, Seq<char>)> {
    spec_file_lines(n.files, 0, Seq::empty(), Seq::empty()) + spec_top_dirs(n, 0)
}

/// The relative path of each record, in input order.
pub open spec fn spec_paths(files: Seq<ScannedFile>) -> Seq<Seq<char>> {
    files.map_values(|f: ScannedFile| f.path@)
}

/// The tree that the first `k` paths build, each split into segments and
/// inserted in turn.
pub open spec fn spec_build_root(paths: Seq<Seq<char>>, k: int) -> NodeV
    decreases k,
{
    if k <= 0 {
        empty_nodev()
    } else {
        spec_insert(spec_build_root(paths, k - 1), spec_split(paths[k - 1]), 0)
    }
}

/// The tree lines that a record set renders to.
pub open spec fn spec_build_tree(files: Seq<ScannedFile>) -> Seq<(Seq<char>, Seq<char>)> {
    spec_tree_lines(spec_build_root(spec_paths(files), files.len() as int))
}

fn concat2(a: &str, b: &str) -> (r: String)
    ensures
        r@ == a@ + b@,
{
    let mut r = String::from_str(a);
    r.append(b);
    r
}

fn make_line(px: &str, is_last: bool, name: &str) -> (r: String)
    ensures
        r@ == px@ + spec_connector(is_last) + name@,
{
    let mut r = String::from_str(px);
    if is_last {
        r.append("└── ");
    } else {
        r.append("├── ");
    }
    r.append(name);
    r
}

fn render_node(
    name: &String,
    full: String,
    n: &Node,
    px: &String,
    is_last: bool,
    out: &mut Vec<(String, String)>,
)
    ensures
        final(out).deep_view() == old(out).deep_view() + spec_render(name@, full@, n@, px@, is_last),
    decreases n,
{
    let line = make_line(px.as_str(), is_last, name.as_str());
    let child_pp = concat2(full.as_str(), "/");
    let child_px = concat2(px.as_str(), if is_last { "    " } else { "│   " });
    let ghost base = out.deep_view();
    out.push((line, full));
    proof {
        assert(out.deep_view() =~= base + seq![(px@ + spec_connector(is_last) + name@, full@)]);
    }
    let ndirs = n.children.len();
    let nfiles = n.files.len();
    let mut j: usize = 0;
    while j < ndirs
        invariant
            j <= ndirs,
            ndirs == n@.children.len(),
            nfiles == n@.files.len(),
            child_pp@ == full@ + "/"@,
            child_px@ == px@ + spec_extension(is_last),
            out.deep_view() + spec_dirs(n@, j as int, child_pp@, child_px@) == base + seq![
                (px@ + spec_connector(is_last) + name@, full@),
            ] + spec_dirs(n@, 0, child_pp@, child_px@),
        decreases ndirs - j,
    {
        let child_is_last = j == ndirs - 1 && nfiles == 0;
        let cname = &n.children[j].0;
        let cfull = concat2(child_pp.as_str(), cname.as_str());
        let ghost before = out.deep_view();
        proof {
            assert(decreases_to!(n => n.children));
            assert(decreases_to!(n.children => n.children@));
            assert(decreases_to!(n.children@ => n.children@[j as int]));
            assert(decreases_to!(n.children@[j as int] => n.children@[j as int].1));
        }
        render_node(cname, cfull, &n.children[j].1, &child_px, child_is_last, out);
        proof {
            assert(n@.children[j as int] == (cname@, n.children@[j as int].1@));
            assert(spec_dirs(n@, j as int, child_pp@, child_px@) == spec_render(
                cname@,
                child_pp@ + cname@,
                n.children@[j as int].1@,
                child_px@,
                child_is_last,
            ) + spec_dirs(n@, j + 1, child_pp@, child_px@));
            assert(before + spec_render(
                cname@,
                child_pp@ + cname@,
                n.children@[j as int].1@,
                child_px@,
                child_is_last,
            ) + spec_dirs(n@, j + 1, child_pp@, child_px@) =~= before + (spec_render(
                cname@,
                child_pp@ + cname@,
                n.children@[j as int].1@,
                child_px@,
                child_is_last,
            ) + spec_dirs(n@, j + 1, child_pp@, child_px@)));
        }
        j += 1;
    }
    proof {
        assert(spec_dirs(n@, ndirs as int, child_pp@, child_px@) =~= Seq::<
            (Seq<char>, Seq<char>),
        >::empty());
        assert(out.deep_view() =~= base + seq![(px@ + spec_connector(is_last) + name@, full@)]
            + spec_dirs(n@, 0, child_pp@, child_px@));
    }
    let mut k: usize = 0;
    while k < nfiles
        invariant
            k <= nfiles,
            nfiles == n@.files.len(),
            child_pp@ == full@ + "/"@,
            child_px@ == px@ + spec_extension(is_last),
            out.deep_view() + spec_file_lines(n@.files, k as int, child_pp@, child_px@) == base
                + seq![(px@ + spec_connector(is_last) + name@, full@)] + spec_dirs(
                n@,
                0,
                child_pp@,
                child_px@,
            ) + spec_file_lines(n@.files, 0, child_pp@, child_px@),
        decreases nfiles - k,
    {
        let fname = &n.files[k];
        let fline = make_line(child_px.as_str(), k == nfiles - 1, fname.as_str());
        let ffull = concat2(child_pp.as_str(), fname.as_str());
        let ghost before = out.deep_view();
        out.push((fline, ffull));
        proof {
            assert(n@.files[k as int] == fname@);
            assert(out.deep_view() =~= before + seq![
                (
                    child_px@ + spec_connector(k as int == n@.files.len() - 1) + fname@,
                    child_pp@ + fname@,
                ),
            ]);
            assert(spec_file_lines(n@.files, k as int, child_pp@, child_px@) == seq![
                (
                    child_px@ + spec_connector(k as int == n@.files.len() - 1) + fname@,
                    child_pp@ + fname@,
                ),
            ] + spec_file_lines(n@.files, k + 1, child_pp@, child_px@));
            assert(before + seq![
                (
                    child_px@ + spec_connector(k as int == n@.files.len() - 1) + fname@,
                    child_pp@ + fname@,
                ),
            ] + spec_file_lines(n@.files, k + 1, child_pp@, child_px@) =~= before + (seq![
                (
                    child_px@ + spec_connector(k as int == n@.files.len() - 1) + fname@,
                    child_pp@ + fname@,
                ),
            ] + spec_file_lines(n@.files, k + 1, child_pp@, child_px@)));
        }
        k += 1;
    }
    proof {
        assert(spec_file_lines(n@.files, nfiles as int, child_pp@, child_px@) =~= Seq::<
            (Seq<char>, Seq<char>),
        >::empty());
        assert(out.deep_view() =~= base + seq![(px@ + spec_connector(is_last) + name@, full@)]
            + spec_dirs(n@, 0, child_pp@, child_px@) + spec_file_lines(
            n@.files,
            0,
            child_pp@,
            child_px@,
        ));
        assert(spec_render(name@, full@, n@, px@, is_last) == seq![
            (px@ + spec_connector(is_last) + name@, full@),
        ] + spec_children(n@, child_pp@, child_px@));
        assert(out.deep_view() =~= base + spec_render(name@, full@, n@, px@, is_last));
    }
}

/// Builds the path tree of the given records and renders it: a line for
/// every directory and file, in listing order, each paired with its full
/// relative path.
pub fn build_tree(files: &Vec<ScannedFile>) -> (r: Vec<(String, String)>)
    ensures
        r.deep_view() == spec_build_tree(files@),
{
    let mut root = Node::new();
    proof {
        assert(root@ == spec_build_root(spec_paths(files@), 0)) by {
            assert(root@.children =~= empty_nodev().children);
            assert(root@.files =~= empty_nodev().files);
        }
    }
    let nf = files.len();
    let mut i: usize = 0;
    while i < nf
        invariant
            i <= nf,
            nf == files@.len(),
            root@ == spec_build_root(spec_paths(files@), i as int),
        decreases nf - i,
    {
        let parts = split_path(&files[i].path);
        root.insert_path(&parts, 0);
        proof {
            assert(spec_paths(files@)[i as int] == files@[i as int].path@);
        }
        i += 1;
    }
    let mut out: Vec<(String, String)> = Vec::new();
    let ghost rootv = root@;
    let empty_px = String::new();
    proof {
        assert(empty_px@ =~= Seq::<char>::empty());
        assert(out.deep_view() =~= Seq::<(Seq<char>, Seq<char>)>::empty());
        assert(Seq::<(Seq<char>, Seq<char>)>::empty() + spec_file_lines(
            rootv.files,
            0,
            Seq::empty(),
            Seq::empty(),
        ) =~= spec_file_lines(rootv.files, 0, Seq::empty(), Seq::empty()));
    }
    let nfiles = root.files.len();
    let mut k: usize = 0;
    while k < nfiles
        invariant
            k <= nfiles,
            nfiles == rootv.files.len(),
            rootv == root@,
            out.deep_view() + spec_file_lines(rootv.files, k as int, Seq::empty(), Seq::empty())
                == spec_file_lines(rootv.files, 0, Seq::empty(), Seq::empty()),
        decreases nfiles - k,
    {
        let fname = &root.files[k];
        let fline = make_line("", k == nfiles - 1, fname.as_str());
        let ffull = String::from_str(fname.as_str());
        let ghost before = out.deep_view();
        out.push((fline, ffull));
        proof {
            assert(rootv.files[k as int] == fname@);
            reveal_strlit("");
            assert(""@ =~= Seq::<char>::empty());
            assert(Seq::<char>::empty() + spec_connector(k as int == rootv.files.len() - 1)
                + fname@ =~= spec_connector(k as int == rootv.files.len() - 1) + fname@);
            assert(""@ + spec_connector(k as int == rootv.files.len() - 1) + fname@
                =~= Seq::<char>::empty() + spec_connector(k as int == rootv.files.len() - 1)
                + fname@);
            assert(Seq::<char>::empty() + fname@ =~= fname@);
            assert(out.deep_view() =~= before + seq![
                (
                    Seq::<char>::empty() + spec_connector(k as int == rootv.files.len() - 1)
                        + fname@,
                    Seq::<char>::empty() + fname@,
                ),
            ]);
            assert(spec_file_lines(rootv.files, k as int, Seq::empty(), Seq::empty()) == seq![
                (
                    Seq::<char>::empty() + spec_connector(k as int == rootv.files.len() - 1)
                        + fname@,
                    Seq::<char>::empty() + fname@,
                ),
            ] + spec_file_lines(rootv.files, k + 1, Seq::empty(), Seq::empty()));
            assert(before + seq![
                (
                    Seq::<char>::empty() + spec_connector(k as int == rootv.files.len() - 1)
                        + fname@,
                    Seq::<char>::empty() + fname@,
                ),
            ] + spec_file_lines(rootv.files, k + 1, Seq::empty(), Seq::empty()) =~= before + (seq![
                (
                    Seq::<char>::empty() + spec_connector(k as int == rootv.files.len() - 1)
                        + fname@,
                    Seq::<char>::empty() + fname@,
                ),
            ] + spec_file_lines(rootv.files, k + 1, Seq::empty(), Seq::empty())));
        }
        k += 1;
    }
    proof {
        assert(spec_file_lines(rootv.files, nfiles as int, Seq::empty(), Seq::empty()) =~= Seq::<
            (Seq<char>, Seq<char>),
        >::empty());
        assert(out.deep_view() =~= spec_file_lines(rootv.files, 0, Seq::empty(), Seq::empty()));
    }
    let ndirs = root.children.len();
    let mut j: usize = 0;
    while j < ndirs
        invariant
            j <= ndirs,
            ndirs == rootv.children.len(),
            rootv == root@,
            empty_px@ == Seq::<char>::empty(),
            out.deep_view() + spec_top_dirs(rootv, j as int) == spec_file_lines(
                rootv.files,
                0,
                Seq::empty(),
                Seq::empty(),
            ) + spec_top_dirs(rootv, 0),
        decreases ndirs - j,
    {
        let cname = &root.children[j].0;
        let cfull = String::from_str(cname.as_str());
        let ghost before = out.deep_view();
        render_node(cname, cfull, &root.children[j].1, &empty_px, j == ndirs - 1, &mut out);
        proof {
            assert(rootv.children[j as int] == (cname@, root.children@[j as int].1@));
            assert(spec_top_dirs(rootv, j as int) == spec_render(
                cname@,
                cname@,
                root.children@[j as int].1@,
                Seq::empty(),
                j as int == rootv.children.len() - 1,
            ) + spec_top_dirs(rootv, j + 1));
            assert(before + spec_render(
                cname@,
                cname@,
                root.children@[j as int].1@,
                Seq::empty(),
                j as int == rootv.children.len() - 1,
            ) + spec_top_dirs(rootv, j + 1) =~= before + (spec_render(
                cname@,
                cname@,
                root.children@[j as int].1@,
                Seq::empty(),
                j as int == rootv.children.len() - 1,
            ) + spec_top_dirs(rootv, j + 1)));
        }
        j += 1;
    }
    proof {
        assert(spec_top_dirs(rootv, ndirs as int) =~= Seq::<(Seq<char>, Seq<char>)>::empty());
        assert(out.deep_view() =~= spec_tree_lines(rootv));
    }
    out
}

/// The number of file entries in the whole tree below `n`, this node's own
/// files included.
pub open spec fn count_files(n: NodeV) -> int
    decreases n, 1int, 0int,
{
    n.files.len() + count_files_children(n.children, 0)
}

/// The number of file entries below the children `ch[i..]`.
pub open spec fn count_files_children(ch: Seq<(Seq<char>, NodeV)>, i: int) -> int
    decreases ch, 0int, ch.len() - i,
{
    if i < 0 || i >= ch.len() {
        0
    } else {
        count_files(ch[i].1) + count_files_children(ch, i + 1)
    }
}

/// The number of directory nodes in the whole tree below `n`, each child
/// counted once, the node itself not counted.
pub open spec fn count_dirs(n: NodeV) -> int
    decreases n, 1int, 0int,
{
    count_dirs_children(n.children, 0)
}

/// The number of directory nodes at or below the children `ch[i..]`.
pub open spec fn count_dirs_children(ch: Seq<(Seq<char>, NodeV)>, i: int) -> int
    decreases ch, 0int, ch.len() - i,
{
    if i < 0 || i >= ch.len() {
        0
    } else {
        1 + count_dirs(ch[i].1) + count_dirs_children(ch, i + 1)
    }
}

proof fn lemma_file_lines_len(files: Seq<Seq<char>>, i: int, pp: Seq<char>, px: Seq<char>)
    requires
        0 <= i <= files.len(),
    ensures
        spec_file_lines(files, i, pp, px).len() == files.len() - i,
    decreases files.len() - i,
{
    if i < files.len() {
        lemma_file_lines_len(files, i + 1, pp, px);
    }
}

proof fn lemma_render_len(name: Seq<char>, full: Seq<char>, n: NodeV, px: Seq<char>, is_last: bool)
    ensures
        spec_render(name, full, n, px, is_last).len() == 1 + count_dirs(n) + count_files(n),
    decreases n, 2int, 0int,
{
    lemma_children_len(n, full + "/"@, px + spec_extension(is_last));
}

proof fn lemma_children_len(n: NodeV, pp: Seq<char>, px: Seq<char>)
    ensures
        spec_children(n, pp, px).len() == count_dirs(n) + count_files(n),
    decreases n, 1int, 0int,
{
    lemma_dirs_len(n, 0, pp, px);
    lemma_file_lines_len(n.files, 0, pp, px);
}

proof fn lemma_dirs_len(n: NodeV, i: int, pp: Seq<char>, px: Seq<char>)
    requires
        0 <= i <= n.children.len(),
    ensures
        spec_dirs(n, i, pp, px).len() == count_dirs_children(n.children, i)
            + count_files_children(n.children, i),
    decreases n, 0int, n.children.len() - i,
{
    if i < n.children.len() {
        proof_decreases_child(n, i);
        lemma_render_len(
            n.children[i].0,
            pp + n.children[i].0,
            n.children[i].1,
            px,
            i == n.children.len() - 1 && n.files.len() == 0,
        );
        lemma_dirs_len(n, i + 1, pp, px);
    }
}

proof fn lemma_top_dirs_len(n: NodeV, i: int)
    requires
        0 <= i <= n.children.len(),
    ensures
        spec_top_dirs(n, i).len() == count_dirs_children(n.children, i) + count_files_children(
            n.children,
            i,
        ),
    decreases n, 0int, n.children.len() - i,
{
    if i < n.children.len() {
        proof_decreases_child(n, i);
        lemma_render_len(
            n.children[i].0,
            n.children[i].0,
            n.children[i].1,
            Seq::empty(),
            i == n.children.len() - 1,
        );
        lemma_top_dirs_len(n, i + 1);
    }
}

proof fn proof_decreases_child(n: NodeV, i: int)
    requires
        0 <= i < n.children.len(),
    ensures
        decreases_to!(n => n.children[i].1),
{
    assert(decreases_to!(n => n.children));
    assert(decreases_to!(n.children => n.children[i]));
    assert(decreases_to!(n.children[i] => n.children[i].1));
}

/// Inserting one path below a node adds exactly one file entry to its
/// subtree.
proof fn lemma_insert_file_count(m: NodeV, parts: Seq<Seq<char>>, i: int)
    requires
        0 <= i < parts.len(),
    ensures
        count_files(spec_insert(m, parts, i)) == count_files(m) + 1,
    decreases parts.len() - i,
{
    if i == parts.len() - 1 {
        let files2 = m.files.insert(spec_file_pos(m.files, parts[i], 0), parts[i]);
        lemma_file_pos_range(m.files, parts[i], 0);
        m.files.insert_ensures(spec_file_pos(m.files, parts[i], 0), parts[i]);
    } else {
        let j = spec_dir_pos(m.children, parts[i], 0);
        lemma_dir_pos_range(m.children, parts[i], 0);
        if j < m.children.len() && m.children[j].0 == parts[i] {
            lemma_insert_file_count(m.children[j].1, parts, i + 1);
            let e = (parts[i], spec_insert(m.children[j].1, parts, i + 1));
            lemma_count_files_children_update(m.children, j, e, 0);
        } else {
            lemma_insert_file_count(empty_nodev(), parts, i + 1);
            let e = (parts[i], spec_insert(empty_nodev(), parts, i + 1));
            lemma_count_files_children_insert(m.children, j, e, 0);
        }
    }
}

/// Replacing the child at `j` changes the file total by the difference the
/// new child brings.
proof fn lemma_count_files_children_update(
    ch: Seq<(Seq<char>, NodeV)>,
    j: int,
    e: (Seq<char>, NodeV),
    i: int,
)
    requires
        0 <= i <= ch.len(),
        0 <= j < ch.len(),
    ensures
        count_files_children(ch.update(j, e), i) == count_files_children(ch, i) + if i <= j {
            count_files(e.1) - count_files(ch[j].1)
        } else {
            0
        },
    decreases ch.len() - i,
{
    if i < ch.len() {
        lemma_count_files_children_update(ch, j, e, i + 1);
    }
}

/// A child inserted at `j` adds its own file total.
proof fn lemma_count_files_children_insert(
    ch: Seq<(Seq<char>, NodeV)>,
    j: int,
    e: (Seq<char>, NodeV),
    i: int,
)
    requires
        0 <= i <= j <= ch.len(),
    ensures
        count_files_children(ch.insert(j, e), i) == count_files_children(ch, i) + count_files(e.1),
    decreases ch.len() - i,
{
    ch.insert_ensures(j, e);
    if i < j {
        lemma_count_files_children_insert(ch, j, e, i + 1);
        assert(ch.insert(j, e)[i] == ch[i]);
    } else {
        lemma_count_files_children_shift(ch, j, e, i);
    }
}

/// Past the insertion point, the shifted tail keeps its file total, the new
/// child's own total added once at its place.
proof fn lemma_count_files_children_shift(
    ch: Seq<(Seq<char>, NodeV)>,
    j: int,
    e: (Seq<char>, NodeV),
    i: int,
)
    requires
        0 <= j <= ch.len(),
        j <= i <= ch.len(),
    ensures
        count_files_children(ch.insert(j, e), i + 1) == count_files_children(ch, i),
    decreases ch.len() - i,
{
    ch.insert_ensures(j, e);
    if i < ch.len() {
        lemma_count_files_children_shift(ch, j, e, i + 1);
        assert(ch.insert(j, e)[i + 1] == ch[i]);
    }
}

/// The first file position lies within the list.
proof fn lemma_file_pos_range(files: Seq<Seq<char>>, name: Seq<char>, i: int)
    requires
        0 <= i <= files.len(),
    ensures
        i <= spec_file_pos(files, name, i) <= files.len(),
    decreases files.len() - i,
{
    if i < files.len() && !lex_lt(name, files[i]) {
        lemma_file_pos_range(files, name, i + 1);
    }
}

/// The first directory position lies within the list.
proof fn lemma_dir_pos_range(ch: Seq<(Seq<char>, NodeV)>, name: Seq<char>, i: int)
    requires
        0 <= i <= ch.len(),
    ensures
        i <= spec_dir_pos(ch, name, i) <= ch.len(),
    decreases ch.len() - i,
{
    if i < ch.len() && !lex_le(name, ch[i].0) {
        lemma_dir_pos_range(ch, name, i + 1);
    }
}

/// Every record contributes exactly one file entry to the built tree.
proof fn lemma_build_file_count(paths: Seq<Seq<char>>, k: int)
    requires
        0 <= k <= paths.len(),
    ensures
        count_files(spec_build_root(paths, k)) == k,
    decreases k,
{
    if k > 0 {
        lemma_build_file_count(paths, k - 1);
        lemma_split_nonempty(paths[k - 1]);
        lemma_insert_file_count(spec_build_root(paths, k - 1), spec_split(paths[k - 1]), 0);
    } else {
        assert(count_files_children(empty_nodev().children, 0) == 0);
    }
}

/// A split always yields at least one segment.
proof fn lemma_split_nonempty(s: Seq<char>)
    ensures
        spec_split(s).len() >= 1,
    decreases s.len(),
{
    lemma_find_slash_bounds(s, 0);
    if spec_find_slash(s, 0) < s.len() {
        lemma_split_nonempty(s.skip(spec_find_slash(s, 0) + 1));
    }
}

/// The tree listing holds one line for each directory node of the built
/// tree and one for each record, and no line at all for an empty record
/// set.
pub proof fn lemma_tree_line_count(files: Seq<ScannedFile>)
    ensures
        spec_build_tree(files).len() == count_dirs(spec_build_root(spec_paths(files), files.len() as int))
            + files.len(),
        files.len() == 0 ==> spec_build_tree(files).len() == 0,
{
    let root = spec_build_root(spec_paths(files), files.len() as int);
    lemma_build_file_count(spec_paths(files), files.len() as int);
    lemma_file_lines_len(root.files, 0, Seq::empty(), Seq::empty());
    lemma_top_dirs_len(root, 0);
}

/// Whether `p` is an initial run of `s`.
pub open spec fn starts_with(s: Seq<char>, p: Seq<char>) -> bool {
    p.len() <= s.len() && forall|m: int| 0 <= m < p.len() ==> s[m] == p[m]
}

/// Each file line of a node carries the node's child prefix, then a corner
/// connector exactly on the final file and a tee on every other: files
/// close their node's combined child listing.
pub proof fn lemma_file_line_connectors(files: Seq<Seq<char>>, i: int, pp: Seq<char>, px: Seq<char>)
    requires
        0 <= i <= files.len(),
    ensures
        spec_file_lines(files, i, pp, px).len() == files.len() - i,
        forall|k: int|
            0 <= k < files.len() - i ==> spec_file_lines(files, i, pp, px)[k] == (
                px + spec_connector(i + k == files.len() - 1) + files[i + k],
                pp + files[i + k],
            ),
    decreases files.len() - i,
{
    if i < files.len() {
        lemma_file_line_connectors(files, i + 1, pp, px);
    }
}

/// The line that opens the `i`-th subdirectory's block carries a corner
/// connector exactly when that subdirectory closes the child list and no
/// files follow it.
pub proof fn lemma_dir_connector(n: NodeV, i: int, pp: Seq<char>, px: Seq<char>)
    requires
        0 <= i < n.children.len(),
    ensures
        spec_dirs(n, i, pp, px).len() > 0,
        spec_dirs(n, i, pp, px)[0] == (
            px + spec_connector(i == n.children.len() - 1 && n.files.len() == 0) + n.children[i].0,
            pp + n.children[i].0,
        ),
{
    let last = i == n.children.len() - 1 && n.files.len() == 0;
    let head = spec_render(n.children[i].0, pp + n.children[i].0, n.children[i].1, px, last);
    assert(head[0] == (px + spec_connector(last) + n.children[i].0, pp + n.children[i].0));
    assert(spec_dirs(n, i, pp, px)[0] == head[0]);
}

/// Every line a node renders for its children begins with the prefix the
/// node was handed: the parent's own connector choice, turned into blanks
/// under a corner and a bar under a tee, runs down the whole block.
pub proof fn lemma_children_prefixed(n: NodeV, pp: Seq<char>, px: Seq<char>)
    ensures
        forall|k: int|
            0 <= k < spec_children(n, pp, px).len() ==> starts_with(
                #[trigger] spec_children(n, pp, px)[k].0,
                px,
            ),
    decreases n, 2int, 0int,
{
    lemma_dirs_prefixed(n, 0, pp, px);
    lemma_files_prefixed(n.files, 0, pp, px);
    let d = spec_dirs(n, 0, pp, px);
    let f = spec_file_lines(n.files, 0, pp, px);
    assert forall|k: int| 0 <= k < spec_children(n, pp, px).len() implies starts_with(
        spec_children(n, pp, px)[k].0,
        px,
    ) by {
        if k < d.len() {
            assert(spec_children(n, pp, px)[k] == d[k]);
        } else {
            assert(spec_children(n, pp, px)[k] == f[k - d.len()]);
        }
    }
}

proof fn lemma_files_prefixed(files: Seq<Seq<char>>, i: int, pp: Seq<char>, px: Seq<char>)
    requires
        0 <= i <= files.len(),
    ensures
        forall|k: int|
            0 <= k < spec_file_lines(files, i, pp, px).len() ==> starts_with(
                #[trigger] spec_file_lines(files, i, pp, px)[k].0,
                px,
            ),
    decreases files.len() - i,
{
    if i < files.len() {
        lemma_files_prefixed(files, i + 1, pp, px);
        assert forall|k: int| 0 <= k < spec_file_lines(files, i, pp, px).len() implies starts_with(
            spec_file_lines(files, i, pp, px)[k].0,
            px,
        ) by {
            if k == 0 {
                assert(spec_file_lines(files, i, pp, px)[0].0 == px + spec_connector(
                    i == files.len() - 1,
                ) + files[i]);
            } else {
                assert(spec_file_lines(files, i, pp, px)[k] == spec_file_lines(
                    files,
                    i + 1,
                    pp,
                    px,
                )[k - 1]);
            }
        }
    }
}

proof fn lemma_dirs_prefixed(n: NodeV, i: int, pp: Seq<char>, px: Seq<char>)
    requires
        0 <= i <= n.children.len(),
    ensures
        forall|k: int|
            0 <= k < spec_dirs(n, i, pp, px).len() ==> starts_with(
                #[trigger] spec_dirs(n, i, pp, px)[k].0,
                px,
            ),
    decreases n, 1int, n.children.len() - i,
{
    if i < n.children.len() {
        proof_decreases_child(n, i);
        let last = i == n.children.len() - 1 && n.files.len() == 0;
        lemma_render_prefixed(
            n.children[i].0,
            pp + n.children[i].0,
            n.children[i].1,
            px,
            last,
        );
        lemma_dirs_prefixed(n, i + 1, pp, px);
        let head = spec_render(n.children[i].0, pp + n.children[i].0, n.children[i].1, px, last);
        assert forall|k: int| 0 <= k < spec_dirs(n, i, pp, px).len() implies starts_with(
            spec_dirs(n, i, pp, px)[k].0,
            px,
        ) by {
            if k < head.len() {
                assert(spec_dirs(n, i, pp, px)[k] == head[k]);
            } else {
                assert(spec_dirs(n, i, pp, px)[k] == spec_dirs(n, i + 1, pp, px)[k - head.len()]);
            }
        }
    }
}

/// Every line of a rendered subtree begins with the prefix handed to it.
pub proof fn lemma_render_prefixed(
    name: Seq<char>,
    full: Seq<char>,
    n: NodeV,
    px: Seq<char>,
    is_last: bool,
)
    ensures
        forall|k: int|
            0 <= k < spec_render(name, full, n, px, is_last).len() ==> starts_with(
                #[trigger] spec_render(name, full, n, px, is_last)[k].0,
                px,
            ),
    decreases n, 3int, 0int,
{
    let cpx = px + spec_extension(is_last);
    lemma_children_prefixed(n, full + "/"@, cpx);
    assert forall|k: int|
        0 <= k < spec_render(name, full, n, px, is_last).len() implies starts_with(
        spec_render(name, full, n, px, is_last)[k].0,
        px,
    ) by {
        if k == 0 {
            assert(spec_render(name, full, n, px, is_last)[0].0 == px + spec_connector(is_last)
                + name);
        } else {
            let line = spec_children(n, full + "/"@, cpx)[k - 1].0;
            assert(spec_render(name, full, n, px, is_last)[k].0 == line);
            assert(starts_with(line, cpx));
            assert(forall|m: int| 0 <= m < px.len() ==> cpx[m] == px[m]);
        }
    }
}

/// A well-formed node: subdirectory names strictly sorted, file names
/// sorted, every subdirectory well-formed in turn.
pub open spec fn wf(n: NodeV) -> bool
    decreases n,
{
    &&& (forall|i: int, j: int|
        0 <= i < j < n.children.len() ==> lex_lt(
            #[trigger] n.children[i].0,
            #[trigger] n.children[j].0,
        ))
    &&& (forall|i: int, j: int|
        0 <= i <= j < n.files.len() ==> lex_le(#[trigger] n.files[i], #[trigger] n.files[j]))
    &&& (forall|i: int| 0 <= i < n.children.len() ==> wf(#[trigger] n.children[i].1))
}

proof fn lemma_file_pos_char(files: Seq<Seq<char>>, name: Seq<char>, i: int)
    requires
        0 <= i <= files.len(),
    ensures
        i <= spec_file_pos(files, name, i) <= files.len(),
        forall|j: int| i <= j < spec_file_pos(files, name, i) ==> !lex_lt(name, files[j]),
        spec_file_pos(files, name, i) < files.len() ==> lex_lt(
            name,
            files[spec_file_pos(files, name, i)],
        ),
    decreases files.len() - i,
{
    if i < files.len() && !lex_lt(name, files[i]) {
        lemma_file_pos_char(files, name, i + 1);
    }
}

proof fn lemma_dir_pos_char(ch: Seq<(Seq<char>, NodeV)>, name: Seq<char>, i: int)
    requires
        0 <= i <= ch.len(),
    ensures
        i <= spec_dir_pos(ch, name, i) <= ch.len(),
        forall|j: int| i <= j < spec_dir_pos(ch, name, i) ==> !lex_le(name, ch[j].0),
        spec_dir_pos(ch, name, i) < ch.len() ==> lex_le(name, ch[spec_dir_pos(ch, name, i)].0),
    decreases ch.len() - i,
{
    if i < ch.len() && !lex_le(name, ch[i].0) {
        lemma_dir_pos_char(ch, name, i + 1);
    }
}

/// Inserting a path below a well-formed node leaves it well-formed.
proof fn lemma_insert_wf(m: NodeV, parts: Seq<Seq<char>>, i: int)
    requires
        wf(m),
    ensures
        wf(spec_insert(m, parts, i)),
    decreases parts.len() - i,
{
    if i < 0 || i >= parts.len() {
    } else if i == parts.len() - 1 {
        let name = parts[i];
        let p = spec_file_pos(m.files, name, 0);
        lemma_file_pos_char(m.files, name, 0);
        let f2 = m.files.insert(p, name);
        m.files.insert_ensures(p, name);
        let r = spec_insert(m, parts, i);
        assert forall|a: int, b: int| 0 <= a <= b < f2.len() implies lex_le(
            #[trigger] f2[a],
            #[trigger] f2[b],
        ) by {
            if a == b {
                crate::order::lemma_lex_total(f2[a], f2[a]);
            } else if b < p {
                assert(f2[a] == m.files[a] && f2[b] == m.files[b]);
            } else if a < p && b == p {
                crate::order::lemma_lex_not_lt(name, m.files[a]);
            } else if a < p && b > p {
                assert(f2[a] == m.files[a] && f2[b] == m.files[b - 1]);
            } else if a == p && b == p {
                crate::order::lemma_lex_total(name, name);
            } else if a == p && b > p {
                assert(f2[b] == m.files[b - 1]);
                if b - 1 == p {
                    assert(lex_lt(name, m.files[p]));
                } else {
                    crate::order::lemma_lex_lt_le_trans(name, m.files[p], m.files[b - 1]);
                }
            } else {
                assert(f2[a] == m.files[a - 1] && f2[b] == m.files[b - 1]);
            }
        }
        assert(r.files == f2 && r.children == m.children);
    } else {
        let name = parts[i];
        let j = spec_dir_pos(m.children, name, 0);
        lemma_dir_pos_char(m.children, name, 0);
        if j < m.children.len() && m.children[j].0 == name {
            lemma_insert_wf(m.children[j].1, parts, i + 1);
            let e = (name, spec_insert(m.children[j].1, parts, i + 1));
            let c2 = m.children.update(j, e);
            let r = spec_insert(m, parts, i);
            assert(r.children == c2 && r.files == m.files);
            assert(forall|k: int| 0 <= k < c2.len() ==> c2[k].0 == m.children[k].0);
            assert forall|a: int, b: int| 0 <= a < b < c2.len() implies lex_lt(
                #[trigger] c2[a].0,
                #[trigger] c2[b].0,
            ) by {
                assert(lex_lt(m.children[a].0, m.children[b].0));
            }
        } else {
            lemma_insert_wf(empty_nodev(), parts, i + 1);
            let e = (name, spec_insert(empty_nodev(), parts, i + 1));
            let c2 = m.children.insert(j, e);
            m.children.insert_ensures(j, e);
            let r = spec_insert(m, parts, i);
            assert(r.children == c2 && r.files == m.files);
            assert forall|a: int, b: int| 0 <= a < b < c2.len() implies lex_lt(
                #[trigger] c2[a].0,
                #[trigger] c2[b].0,
            ) by {
                if b < j {
                    assert(c2[a].0 == m.children[a].0 && c2[b].0 == m.children[b].0);
                } else if a < j && b == j {
                    assert(c2[a].0 == m.children[a].0 && c2[b].0 == name);
                    crate::order::lemma_lex_not_lt(name, m.children[a].0);
                    assert(lex_le(m.children[a].0, name));
                    if m.children[a].0 == name {
                        assert(lex_le(name, m.children[a].0));
                    }
                    assert(lex_lt(m.children[a].0, name));
                } else if a < j && b > j {
                    assert(c2[a].0 == m.children[a].0 && c2[b].0 == m.children[b - 1].0);
                    if b - 1 == j {
                        assert(lex_le(name, m.children[j].0));
                        assert(m.children[j].0 != name);
                        crate::order::lemma_lex_not_lt(name, m.children[a].0);
                        assert(lex_lt(m.children[a].0, name));
                        crate::order::lemma_lex_lt_le_trans(
                            m.children[a].0,
                            name,
                            m.children[b - 1].0,
                        );
                    } else {
                        assert(lex_lt(m.children[a].0, m.children[b - 1].0));
                    }
                } else if a == j {
                    assert(c2[a].0 == name && c2[b].0 == m.children[b - 1].0);
                    assert(lex_le(name, m.children[j].0));
                    assert(m.children[j].0 != name);
                    if b - 1 == j {
                        assert(lex_lt(name, m.children[b - 1].0));
                    } else {
                        assert(lex_lt(m.children[j].0, m.children[b - 1].0));
                        assert(lex_lt(name, m.children[j].0));
                        crate::order::lemma_lex_lt_le_trans(
                            name,
                            m.children[j].0,
                            m.children[b - 1].0,
                        );
                    }
                } else {
                    assert(c2[a].0 == m.children[a - 1].0 && c2[b].0 == m.children[b - 1].0);
                    assert(lex_lt(m.children[a - 1].0, m.children[b - 1].0));
                }
            }
            assert forall|k: int| 0 <= k < c2.len() implies wf(#[trigger] c2[k].1) by {
                if k < j {
                    assert(c2[k].1 == m.children[k].1);
                } else if k == j {
                    assert(c2[k].1 == e.1);
                } else {
                    assert(c2[k].1 == m.children[k - 1].1);
                }
            }
        }
    }
}

/// Every tree built from a record set is well-formed: in each node the
/// subdirectory names are strictly sorted, the file names are sorted, and
/// both hold at every depth.
pub proof fn lemma_build_wf(files: Seq<ScannedFile>)
    ensures
        wf(spec_build_root(spec_paths(files), files.len() as int)),
{
    lemma_build_wf_upto(spec_paths(files), files.len() as int);
}

proof fn lemma_build_wf_upto(paths: Seq<Seq<char>>, k: int)
    ensures
        wf(spec_build_root(paths, k)),
    decreases k,
{
    if k <= 0 {
    } else {
        lemma_build_wf_upto(paths, k - 1);
        lemma_insert_wf(spec_build_root(paths, k - 1), spec_split(paths[k - 1]), 0);
    }
}

/// A node's children render as its subdirectory blocks, in stored order,
/// followed by its file lines: subdirectories always precede files.
pub proof fn lemma_dirs_before_files(n: NodeV, pp: Seq<char>, px: Seq<char>)
    ensures
        spec_children(n, pp, px) == spec_dirs(n, 0, pp, px) + spec_file_lines(n.files, 0, pp, px),
{
}

/// Whether the tree below `n` holds a directory node at the segment path
/// `d`.
pub open spec fn has_dir(n: NodeV, d: Seq<Seq<char>>) -> bool
    decreases d.len(),
{
    d.len() >= 1 && exists|i: int|
        0 <= i < n.children.len() && (#[trigger] n.children[i]).0 == d[0] && (d.len() == 1
            || has_dir(n.children[i].1, d.drop_first()))
}

/// Directory membership reads the child list alone.
proof fn lemma_has_dir_same_children(n1: NodeV, n2: NodeV, d: Seq<Seq<char>>)
    requires
        n1.children == n2.children,
    ensures
        has_dir(n1, d) == has_dir(n2, d),
{
    if has_dir(n1, d) {
        let i = choose|i: int|
            0 <= i < n1.children.len() && n1.children[i].0 == d[0] && (d.len() == 1 || has_dir(
                n1.children[i].1,
                d.drop_first(),
            ));
        assert(0 <= i < n2.children.len() && n2.children[i].0 == d[0] && (d.len() == 1 || has_dir(
            n2.children[i].1,
            d.drop_first(),
        )));
    }
    if has_dir(n2, d) {
        let i = choose|i: int|
            0 <= i < n2.children.len() && n2.children[i].0 == d[0] && (d.len() == 1 || has_dir(
                n2.children[i].1,
                d.drop_first(),
            ));
        assert(0 <= i < n1.children.len() && n1.children[i].0 == d[0] && (d.len() == 1 || has_dir(
            n1.children[i].1,
            d.drop_first(),
        )));
    }
}

/// Dropping the first segment shifts a prefix claim by one position.
proof fn lemma_prefix_shift(d: Seq<Seq<char>>, parts: Seq<Seq<char>>, i: int)
    requires
        0 <= i,
        d.len() >= 1,
        i + d.len() <= parts.len(),
        d[0] == parts[i],
    ensures
        (d.drop_first() == parts.subrange(i + 1, i + d.len())) <==> (d == parts.subrange(
            i,
            i + d.len(),
        )),
{
    let d2 = d.drop_first();
    if d2 == parts.subrange(i + 1, i + d.len()) {
        assert forall|t: int| 0 <= t < d.len() implies d[t] == parts.subrange(i, i + d.len())[t] by {
            if t > 0 {
                assert(d[t] == d2[t - 1]);
                assert(d2[t - 1] == parts[i + t]);
            }
        }
        assert(d =~= parts.subrange(i, i + d.len()));
    }
    if d == parts.subrange(i, i + d.len()) {
        assert forall|t: int| 0 <= t < d2.len() implies d2[t] == parts.subrange(
            i + 1,
            i + d.len(),
        )[t] by {
            assert(d2[t] == d[t + 1]);
            assert(d[t + 1] == parts[i + t + 1]);
        }
        assert(d2 =~= parts.subrange(i + 1, i + d.len()));
    }
}

/// Inserting the path `parts[i..]` adds exactly the directories at its
/// proper prefixes.
proof fn lemma_insert_has_dir(m: NodeV, parts: Seq<Seq<char>>, i: int, d: Seq<Seq<char>>)
    requires
        0 <= i < parts.len(),
    ensures
        has_dir(spec_insert(m, parts, i), d) <==> (has_dir(m, d) || (d.len() >= 1 && i + d.len()
            < parts.len() && d == parts.subrange(i, i + d.len()))),
    decreases parts.len() - i,
{
    let r = spec_insert(m, parts, i);
    if i == parts.len() - 1 {
        lemma_has_dir_same_children(r, m, d);
    } else {
        let name = parts[i];
        let j = spec_dir_pos(m.children, name, 0);
        lemma_dir_pos_char(m.children, name, 0);
        let d2 = d.drop_first();
        if d.len() >= 2 {
            lemma_insert_has_dir(m.children[j].1, parts, i + 1, d2);
            lemma_insert_has_dir(empty_nodev(), parts, i + 1, d2);
        }
        if j < m.children.len() && m.children[j].0 == name {
            let e = (name, spec_insert(m.children[j].1, parts, i + 1));
            let c2 = m.children.update(j, e);
            assert(r.children == c2);
            if has_dir(r, d) {
                let w = choose|w: int|
                    0 <= w < c2.len() && c2[w].0 == d[0] && (d.len() == 1 || has_dir(
                        c2[w].1,
                        d2,
                    ));
                if w != j {
                    assert(c2[w] == m.children[w]);
                    assert(has_dir(m, d));
                } else {
                    assert(d[0] == name);
                    if d.len() == 1 {
                        assert(has_dir(m, d));
                    } else {
                        if has_dir(m.children[j].1, d2) {
                            assert(has_dir(m, d));
                        } else {
                            assert(d2 == parts.subrange(i + 1, i + 1 + d2.len()));
                            assert(i + 1 + d2.len() == i + d.len());
                            lemma_prefix_shift(d, parts, i);
                            assert(d == parts.subrange(i, i + d.len()));
                        }
                    }
                }
            }
            if has_dir(m, d) {
                let w = choose|w: int|
                    0 <= w < m.children.len() && m.children[w].0 == d[0] && (d.len() == 1
                        || has_dir(m.children[w].1, d2));
                if w != j {
                    assert(c2[w] == m.children[w]);
                    assert(has_dir(r, d));
                } else {
                    assert(c2[j].0 == d[0]);
                    if d.len() == 1 {
                        assert(has_dir(r, d));
                    } else {
                        assert(has_dir(e.1, d2));
                        assert(has_dir(r, d));
                    }
                }
            }
            if d.len() >= 1 && i + d.len() < parts.len() && d == parts.subrange(i, i + d.len()) {
                assert(d[0] == name);
                if d.len() == 1 {
                    assert(c2[j].0 == d[0]);
                    assert(has_dir(r, d));
                } else {
                    lemma_prefix_shift(d, parts, i);
                    assert(i + 1 + d2.len() == i + d.len());
                    assert(d2 == parts.subrange(i + 1, i + 1 + d2.len()));
                    assert(has_dir(e.1, d2));
                    assert(c2[j] == e && c2[j].0 == d[0]);
                    assert(has_dir(r, d));
                }
            }
        } else {
            let e = (name, spec_insert(empty_nodev(), parts, i + 1));
            let c2 = m.children.insert(j, e);
            m.children.insert_ensures(j, e);
            assert(r.children == c2);
            if has_dir(r, d) {
                let w = choose|w: int|
                    0 <= w < c2.len() && c2[w].0 == d[0] && (d.len() == 1 || has_dir(
                        c2[w].1,
                        d2,
                    ));
                if w < j {
                    assert(c2[w] == m.children[w]);
                    assert(has_dir(m, d));
                } else if w > j {
                    assert(c2[w] == m.children[w - 1]);
                    assert(has_dir(m, d));
                } else {
                    assert(d[0] == name);
                    if d.len() == 1 {
                        assert(d =~= parts.subrange(i, i + 1));
                    } else {
                        assert(!has_dir(empty_nodev(), d2));
                        assert(d2 == parts.subrange(i + 1, i + 1 + d2.len()));
                        assert(i + 1 + d2.len() == i + d.len());
                        lemma_prefix_shift(d, parts, i);
                        assert(d == parts.subrange(i, i + d.len()));
                    }
                }
            }
            if has_dir(m, d) {
                let w = choose|w: int|
                    0 <= w < m.children.len() && m.children[w].0 == d[0] && (d.len() == 1
                        || has_dir(m.children[w].1, d2));
                if w < j {
                    assert(c2[w] == m.children[w]);
                    assert(has_dir(r, d));
                } else {
                    assert(c2[w + 1] == m.children[w]);
                    assert(has_dir(r, d));
                }
            }
            if d.len() >= 1 && i + d.len() < parts.len() && d == parts.subrange(i, i + d.len()) {
                assert(d[0] == name);
                assert(c2[j].0 == d[0]);
                if d.len() == 1 {
                    assert(has_dir(r, d));
                } else {
                    lemma_prefix_shift(d, parts, i);
                    assert(i + 1 + d2.len() == i + d.len());
                    assert(d2 == parts.subrange(i + 1, i + 1 + d2.len()));
                    assert(has_dir(e.1, d2));
                    assert(has_dir(r, d));
                }
            }
        }
    }
}

/// The built tree holds a directory node at `d` exactly when `d` is a
/// nonempty proper prefix of some record path's segments: the directories
/// encountered are the distinct prefixes, each present once.
pub proof fn lemma_build_dirs(paths: Seq<Seq<char>>, k: int, d: Seq<Seq<char>>)
    requires
        0 <= k <= paths.len(),
    ensures
        has_dir(spec_build_root(paths, k), d) <==> exists|j: int|
            0 <= j < k && d.len() >= 1 && d.len() < (#[trigger] spec_split(paths[j])).len() && d
                == spec_split(paths[j]).subrange(0, d.len() as int),
    decreases k,
{
    if k > 0 {
        lemma_build_dirs(paths, k - 1, d);
        let prev = spec_build_root(paths, k - 1);
        let parts = spec_split(paths[k - 1]);
        lemma_split_nonempty(paths[k - 1]);
        lemma_insert_has_dir(prev, parts, 0, d);
        assert(parts.subrange(0, parts.len() as int) =~= parts);
        if !has_dir(prev, d) && d.len() >= 1 && d.len() < parts.len() && d == parts.subrange(
            0,
            d.len() as int,
        ) {
            assert(0 + d.len() < parts.len() && d == parts.subrange(0, 0 + d.len() as int));
        }
    } else {
        if has_dir(spec_build_root(paths, 0), d) {
            let w = choose|w: int|
                0 <= w < spec_build_root(paths, 0).children.len() && spec_build_root(
                    paths,
                    0,
                ).children[w].0 == d[0];
            assert(false);
        }
    }
}

/// The body of a record's content block: a binary marker, the content
/// itself, or an empty-file marker.
pub open spec fn spec_body(f: ScannedFile) -> Seq<char> {
    if f.is_binary {
        "[Binary file]"@
    } else {
        match f.content {
            Option::Some(c) => c@,
            Option::None => "[Empty file]"@,
        }
    }
}

/// A record's full content block: its path, a colon, a newline, the body.
pub open spec fn spec_block(f: ScannedFile) -> Seq<char> {
    f.path@ + ":\n"@ + spec_body(f)
}

/// The first position in `entries` at or after `i` whose key is at or above
/// `key`.
pub open spec fn spec_entry_pos(
    entries: Seq<(Seq<char>, Seq<char>)>,
    key: Seq<char>,
    i: int,
) -> int
    decreases entries.len() - i,
    when 0 <= i <= entries.len()
{
    if i == entries.len() {
        i
    } else if lex_le(key, entries[i].0) {
        i
    } else {
        spec_entry_pos(entries, key, i + 1)
    }
}

/// Setting `key` to `val` in a key-sorted entry list: an existing key keeps
/// its place with the new value; a new key enters at its sorted position.
pub open spec fn spec_put(
    entries: Seq<(Seq<char>, Seq<char>)>,
    key: Seq<char>,
    val: Seq<char>,
) -> Seq<(Seq<char>, Seq<char>)> {
    let j = spec_entry_pos(entries, key, 0);
    if j < entries.len() && entries[j].0 == key {
        entries.update(j, (key, val))
    } else {
        entries.insert(j, (key, val))
    }
}

/// The content mapping of the first `k` records: path-to-block entries,
/// sorted by path, a later record replacing an earlier one of the same path.
pub open spec fn spec_contents(files: Seq<ScannedFile>, k: int) -> Seq<(Seq<char>, Seq<char>)>
    decreases k,
{
    if k <= 0 {
        Seq::empty()
    } else {
        spec_put(spec_contents(files, k - 1), files[k - 1].path@, spec_block(files[k - 1]))
    }
}

fn make_block(f: &ScannedFile) -> (r: String)
    ensures
        r@ == spec_block(*f),
{
    let mut b = f.path.clone();
    b.append(":\n");
    if f.is_binary {
        b.append("[Binary file]");
    } else {
        match &f.content {
            Option::Some(c) => b.append(c.as_str()),
            Option::None => b.append("[Empty file]"),
        }
    }
    b
}

fn find_entry_pos(entries: &Vec<(String, String)>, key: &String) -> (r: usize)
    ensures
        r == spec_entry_pos(entries.deep_view(), key@, 0),
        r <= entries@.len(),
{
    let n = entries.len();
    let mut i: usize = 0;
    while i < n
        invariant
            i <= n,
            n == entries@.len(),
            spec_entry_pos(entries.deep_view(), key@, 0) == spec_entry_pos(
                entries.deep_view(),
                key@,
                i as int,
            ),
        decreases n - i,
    {
        if str_le(key.as_str(), entries[i].0.as_str()) {
            return i;
        }
        i += 1;
    }
    i
}

/// Renders each record's content block and gathers them into a mapping from
/// path to block, sorted by path.
pub fn format_file_contents(files: &Vec<ScannedFile>) -> (r: Vec<(String, String)>)
    ensures
        r.deep_view() == spec_contents(files@, files@.len() as int),
{
    let mut out: Vec<(String, String)> = Vec::new();
    proof {
        assert(out.deep_view() =~= Seq::<(Seq<char>, Seq<char>)>::empty());
    }
    let n = files.len();
    let mut i: usize = 0;
    while i < n
        invariant
            i <= n,
            n == files@.len(),
            out.deep_view() == spec_contents(files@, i as int),
        decreases n - i,
    {
        let key = files[i].path.clone();
        let block = make_block(&files[i]);
        let pos = find_entry_pos(&out, &key);
        let ghost before = out.deep_view();
        if pos < out.len() && out[pos].0 == key {
            let _ = out.remove(pos);
            out.insert(pos, (key, block));
            proof {
                assert(out.deep_view() =~= before.update(
                    pos as int,
                    (files@[i as int].path@, spec_block(files@[i as int])),
                ));
            }
        } else {
            out.insert(pos, (key, block));
            proof {
                assert(out.deep_view() =~= before.insert(
                    pos as int,
                    (files@[i as int].path@, spec_block(files@[i as int])),
                ));
            }
        }
        i += 1;
    }
    out
}

/// The position where `key` enters a key-sorted list while staying after
/// every entry whose key equals its own.
pub open spec fn spec_pair_pos(
    entries: Seq<(Seq<char>, Seq<char>)>,
    key: Seq<char>,
    i: int,
) -> int
    decreases entries.len() - i,
    when 0 <= i <= entries.len()
{
    if i == entries.len() {
        i
    } else if lex_lt(key, entries[i].0) {
        i
    } else {
        spec_pair_pos(entries, key, i + 1)
    }
}

/// The first `k` entries, rearranged into key-sorted order by inserting each
/// in turn at its sorted position.
pub open spec fn spec_sort_entries(entries: Seq<(Seq<char>, Seq<char>)>, k: int) -> Seq<
    (Seq<char>, Seq<char>),
>
    decreases k,
{
    if k <= 0 {
        Seq::empty()
    } else {
        let sorted = spec_sort_entries(entries, k - 1);
        sorted.insert(spec_pair_pos(sorted, entries[k - 1].0, 0), entries[k - 1])
    }
}

/// The tree section of the document: each display line followed by a
/// newline, from index `i` on.
pub open spec fn spec_tree_part(tree: Seq<(Seq<char>, Seq<char>)>, i: int) -> Seq<char>
    decreases tree.len() - i,
    when 0 <= i <= tree.len()
{
    if i >= tree.len() {
        Seq::empty()
    } else {
        tree[i].0 + "\n"@ + spec_tree_part(tree, i + 1)
    }
}

/// The contents section of the document: each block followed by a blank
/// line, from index `i` on.
pub open spec fn spec_contents_part(entries: Seq<(Seq<char>, Seq<char>)>, i: int) -> Seq<char>
    decreases entries.len() - i,
    when 0 <= i <= entries.len()
{
    if i >= entries.len() {
        Seq::empty()
    } else {
        entries[i].1 + "\n\n"@ + spec_contents_part(entries, i + 1)
    }
}

/// The full document: the tree lines, one blank separator line, then every
/// content block in path order, each followed by a blank line.
pub open spec fn spec_summary(
    tree: Seq<(Seq<char>, Seq<char>)>,
    contents: Seq<(Seq<char>, Seq<char>)>,
) -> Seq<char> {
    spec_tree_part(tree, 0) + "\n"@ + spec_contents_part(
        spec_sort_entries(contents, contents.len() as int),
        0,
    )
}

fn find_pair_pos(entries: &Vec<(String, String)>, key: &String) -> (r: usize)
    ensures
        r == spec_pair_pos(entries.deep_view(), key@, 0),
        r <= entries@.len(),
{
    let n = entries.len();
    let mut i: usize = 0;
    while i < n
        invariant
            i <= n,
            n == entries@.len(),
            spec_pair_pos(entries.deep_view(), key@, 0) == spec_pair_pos(
                entries.deep_view(),
                key@,
                i as int,
            ),
        decreases n - i,
    {
        if str_lt(key.as_str(), entries[i].0.as_str()) {
            return i;
        }
        i += 1;
    }
    i
}

/// Concatenates the tree section, a separating blank line, and the content
/// blocks in path order, each closed by a blank line.
pub fn format_project_summary(
    tree: Vec<(String, String)>,
    file_contents: Vec<(String, String)>,
) -> (r: String)
    ensures
        r@ == spec_summary(tree.deep_view(), file_contents.deep_view()),
{
    let mut out = String::new();
    let nt = tree.len();
    let mut i: usize = 0;
    proof {
        assert(out@ =~= Seq::<char>::empty());
        assert(Seq::<char>::empty() + spec_tree_part(tree.deep_view(), 0) =~= spec_tree_part(
            tree.deep_view(),
            0,
        ));
    }
    while i < nt
        invariant
            i <= nt,
            nt == tree@.len(),
            out@ + spec_tree_part(tree.deep_view(), i as int) == spec_tree_part(
                tree.deep_view(),
                0,
            ),
        decreases nt - i,
    {
        let ghost before = out@;
        out.append(tree[i].0.as_str());
        out.append("\n");
        proof {
            assert(tree.deep_view()[i as int].0 == tree@[i as int].0@);
            assert(out@ =~= before + (tree.deep_view()[i as int].0 + "\n"@));
            assert(before + (tree.deep_view()[i as int].0 + "\n"@) + spec_tree_part(
                tree.deep_view(),
                i + 1,
            ) =~= before + (tree.deep_view()[i as int].0 + "\n"@ + spec_tree_part(
                tree.deep_view(),
                i + 1,
            )));
        }
        i += 1;
    }
    out.append("\n");
    let mut sorted: Vec<(String, String)> = Vec::new();
    proof {
        assert(sorted.deep_view() =~= Seq::<(Seq<char>, Seq<char>)>::empty());
    }
    let nc = file_contents.len();
    let mut j: usize = 0;
    while j < nc
        invariant
            j <= nc,
            nc == file_contents@.len(),
            sorted.deep_view() == spec_sort_entries(file_contents.deep_view(), j as int),
        decreases nc - j,
    {
        let key = file_contents[j].0.clone();
        let val = file_contents[j].1.clone();
        let pos = find_pair_pos(&sorted, &key);
        let ghost before = sorted.deep_view();
        sorted.insert(pos, (key, val));
        proof {
            assert(file_contents.deep_view()[j as int] == (
                file_contents@[j as int].0@,
                file_contents@[j as int].1@,
            ));
            assert(sorted.deep_view() =~= before.insert(
                pos as int,
                file_contents.deep_view()[j as int],
            ));
        }
        j += 1;
    }
    let ghost sortedv = sorted.deep_view();
    let ghost treedone = spec_tree_part(tree.deep_view(), 0) + "\n"@;
    proof {
        assert(out@ == treedone);
        assert(treedone + Seq::<char>::empty() =~= treedone);
        assert(out@ + spec_contents_part(sortedv, 0) =~= treedone + spec_contents_part(
            sortedv,
            0,
        ));
    }
    let ns = sorted.len();
    let mut k: usize = 0;
    while k < ns
        invariant
            k <= ns,
            ns == sortedv.len(),
            sortedv == sorted.deep_view(),
            out@ + spec_contents_part(sortedv, k as int) == treedone + spec_contents_part(
                sortedv,
                0,
            ),
        decreases ns - k,
    {
        let ghost before = out@;
        out.append(sorted[k].1.as_str());
        out.append("\n\n");
        proof {
            assert(sortedv[k as int].1 == sorted@[k as int].1@);
            assert(out@ =~= before + (sortedv[k as int].1 + "\n\n"@));
            assert(before + (sortedv[k as int].1 + "\n\n"@) + spec_contents_part(sortedv, k + 1)
                =~= before + (sortedv[k as int].1 + "\n\n"@ + spec_contents_part(
                sortedv,
                k + 1,
            )));
        }
        k += 1;
    }
    proof {
        assert(spec_contents_part(sortedv, ns as int) =~= Seq::<char>::empty());
        assert(out@ + Seq::<char>::empty() =~= out@);
        assert(out@ =~= spec_summary(tree.deep_view(), file_contents.deep_view()));
    }
    out
}

/// The full document for a record set: its tree listing, a blank separator
/// line, then its content blocks in path order.
pub open spec fn spec_render_document(files: Seq<ScannedFile>) -> Seq<char> {
    spec_summary(spec_build_tree(files), spec_contents(files, files.len() as int))
}

/// Renders the full document for a record set: the tree listing and the
/// content blocks, assembled in the fixed layout.
pub fn render(files: &Vec<ScannedFile>) -> (r: String)
    ensures
        r@ == spec_render_document(files@),
{
    let tree = build_tree(files);
    let contents = format_file_contents(files);
    format_project_summary(tree, contents)
}

/// A record set with nothing in it renders as a single blank line: an empty
/// tree section, the separator, and no content blocks.
pub proof fn lemma_empty_document(files: Seq<ScannedFile>)
    requires
        files.len() == 0,
    ensures
        spec_build_tree(files).len() == 0,
        spec_contents(files, files.len() as int).len() == 0,
        spec_render_document(files) == "\n"@,
{
    let root = spec_build_root(spec_paths(files), 0);
    assert(spec_file_lines(root.files, 0, Seq::empty(), Seq::empty()) =~= Seq::<
        (Seq<char>, Seq<char>),
    >::empty());
    assert(spec_top_dirs(root, 0) =~= Seq::<(Seq<char>, Seq<char>)>::empty());
    assert(spec_build_tree(files) =~= Seq::<(Seq<char>, Seq<char>)>::empty());
    let tree = spec_build_tree(files);
    let contents = spec_contents(files, 0);
    assert(spec_tree_part(tree, 0) =~= Seq::<char>::empty());
    assert(spec_sort_entries(contents, 0) =~= Seq::<(Seq<char>, Seq<char>)>::empty());
    assert(spec_contents_part(spec_sort_entries(contents, contents.len() as int), 0) =~= Seq::<
        char,
    >::empty());
    assert(spec_render_document(files) =~= "\n"@);
}

/// Whether no two records share a path.
pub open spec fn unique_paths(s: Seq<ScannedFile>) -> bool {
    forall|i: int, j: int|
        0 <= i < j < s.len() ==> (#[trigger] s[i].path)@ != (#[trigger] s[j].path)@
}

/// Whether the entry keys are strictly sorted.
pub open spec fn entry_sorted(e: Seq<(Seq<char>, Seq<char>)>) -> bool {
    forall|i: int, j: int| 0 <= i < j < e.len() ==> lex_lt(#[trigger] e[i].0, #[trigger] e[j].0)
}

/// The entry a record formats to.
pub open spec fn spec_entry_of(f: ScannedFile) -> (Seq<char>, Seq<char>) {
    (f.path@, spec_block(f))
}

proof fn lemma_entry_pos_char(entries: Seq<(Seq<char>, Seq<char>)>, key: Seq<char>, i: int)
    requires
        0 <= i <= entries.len(),
    ensures
        i <= spec_entry_pos(entries, key, i) <= entries.len(),
        forall|j: int| i <= j < spec_entry_pos(entries, key, i) ==> !lex_le(key, entries[j].0),
        spec_entry_pos(entries, key, i) < entries.len() ==> lex_le(
            key,
            entries[spec_entry_pos(entries, key, i)].0,
        ),
    decreases entries.len() - i,
{
    if i < entries.len() && !lex_le(key, entries[i].0) {
        lemma_entry_pos_char(entries, key, i + 1);
    }
}

/// The content mapping of records with pairwise distinct paths: strictly
/// sorted by path, holding exactly one entry per record.
proof fn lemma_contents_char(s: Seq<ScannedFile>, k: int)
    requires
        0 <= k <= s.len(),
        unique_paths(s),
    ensures
        entry_sorted(spec_contents(s, k)),
        forall|e: (Seq<char>, Seq<char>)|
            #[trigger] spec_contents(s, k).contains(e) <==> exists|j: int|
                0 <= j < k && e == spec_entry_of(#[trigger] s[j]),
    decreases k,
{
    if k > 0 {
        lemma_contents_char(s, k - 1);
        let prev = spec_contents(s, k - 1);
        let key = s[k - 1].path@;
        let val = spec_block(s[k - 1]);
        let p = spec_entry_pos(prev, key, 0);
        lemma_entry_pos_char(prev, key, 0);
        assert forall|m: int| 0 <= m < prev.len() implies prev[m].0 != key by {
            assert(prev.contains(prev[m]));
            let j = choose|j: int| 0 <= j < k - 1 && prev[m] == spec_entry_of(s[j]);
            assert(s[j].path@ != s[k - 1].path@);
        }
        let cur = prev.insert(p, (key, val));
        prev.insert_ensures(p, (key, val));
        assert(spec_contents(s, k) == cur);
        assert forall|a: int, b: int| 0 <= a < b < cur.len() implies lex_lt(
            #[trigger] cur[a].0,
            #[trigger] cur[b].0,
        ) by {
            if b < p {
                assert(cur[a].0 == prev[a].0 && cur[b].0 == prev[b].0);
            } else if a < p && b == p {
                assert(cur[a].0 == prev[a].0 && cur[b].0 == key);
                crate::order::lemma_lex_not_lt(key, prev[a].0);
                assert(lex_le(prev[a].0, key));
                if prev[a].0 == key {
                    assert(false);
                }
            } else if a < p && b > p {
                assert(cur[a].0 == prev[a].0 && cur[b].0 == prev[b - 1].0);
                if b - 1 == p {
                    crate::order::lemma_lex_not_lt(key, prev[a].0);
                    if prev[a].0 == key {
                        assert(false);
                    }
                    crate::order::lemma_lex_lt_le_trans(prev[a].0, key, prev[p].0);
                } else {
                    assert(lex_lt(prev[a].0, prev[b - 1].0));
                }
            } else if a == p {
                assert(cur[a].0 == key && cur[b].0 == prev[b - 1].0);
                assert(lex_le(key, prev[p].0) && prev[p].0 != key);
                if b - 1 > p {
                    crate::order::lemma_lex_lt_le_trans(key, prev[p].0, prev[b - 1].0);
                }
            } else {
                assert(cur[a].0 == prev[a - 1].0 && cur[b].0 == prev[b - 1].0);
            }
        }
        assert forall|e: (Seq<char>, Seq<char>)| #[trigger] cur.contains(e) implies exists|j: int|
            0 <= j < k && e == spec_entry_of(s[j]) by {
            let idx = choose|idx: int| 0 <= idx < cur.len() && cur[idx] == e;
            if idx == p {
                assert(e == spec_entry_of(s[k - 1]));
            } else if idx < p {
                assert(prev[idx] == e);
                assert(prev.contains(e));
            } else {
                assert(prev[idx - 1] == e);
                assert(prev.contains(e));
            }
        }
        assert forall|j: int| 0 <= j < k implies cur.contains(spec_entry_of(#[trigger] s[j])) by {
            if j == k - 1 {
                assert(cur[p] == spec_entry_of(s[k - 1]));
            } else {
                assert(prev.contains(spec_entry_of(s[j])));
                let idx = choose|idx: int|
                    0 <= idx < prev.len() && prev[idx] == spec_entry_of(s[j]);
                if idx < p {
                    assert(cur[idx] == spec_entry_of(s[j]));
                } else {
                    assert(cur[idx + 1] == spec_entry_of(s[j]));
                }
            }
        }
    }
}

/// Two strictly key-sorted entry lists holding the same entries are equal.
proof fn lemma_sorted_entries_unique(x: Seq<(Seq<char>, Seq<char>)>, y: Seq<(Seq<char>, Seq<char>)>)
    requires
        entry_sorted(x),
        entry_sorted(y),
        forall|e: (Seq<char>, Seq<char>)| #[trigger] x.contains(e) <==> #[trigger] y.contains(e),
    ensures
        x == y,
    decreases x.len(),
{
    if x.len() == 0 {
        if y.len() > 0 {
            assert(y.contains(y[0]));
            assert(x.contains(y[0]));
        }
        assert(x =~= y);
    } else {
        assert(x.contains(x[0]));
        assert(y.contains(x[0]));
        let j = choose|j: int| 0 <= j < y.len() && y[j] == x[0];
        assert(y.contains(y[0]));
        assert(x.contains(y[0]));
        let m = choose|m: int| 0 <= m < x.len() && x[m] == y[0];
        if j > 0 && m > 0 {
            assert(lex_lt(y[0].0, y[j].0));
            assert(lex_lt(x[0].0, x[m].0));
            crate::order::lemma_lex_lt_le_trans(y[0].0, x[0].0, y[0].0);
        }
        assert(x[0] == y[0]);
        let xt = x.drop_first();
        let yt = y.drop_first();
        assert forall|e: (Seq<char>, Seq<char>)| #[trigger] xt.contains(e) implies yt.contains(
            e,
        ) by {
            let idx = choose|idx: int| 0 <= idx < xt.len() && xt[idx] == e;
            assert(x[idx + 1] == e);
            assert(x.contains(e));
            assert(y.contains(e));
            let jj = choose|jj: int| 0 <= jj < y.len() && y[jj] == e;
            assert(lex_lt(x[0].0, e.0));
            if jj == 0 {
                assert(e == y[0]);
            }
            assert(yt[jj - 1] == e);
        }
        assert forall|e: (Seq<char>, Seq<char>)| #[trigger] yt.contains(e) implies xt.contains(
            e,
        ) by {
            let idx = choose|idx: int| 0 <= idx < yt.len() && yt[idx] == e;
            assert(y[idx + 1] == e);
            assert(y.contains(e));
            assert(x.contains(e));
            let jj = choose|jj: int| 0 <= jj < x.len() && x[jj] == e;
            assert(lex_lt(y[0].0, e.0));
            if jj == 0 {
                assert(e == x[0]);
            }
            assert(xt[jj - 1] == e);
        }
        lemma_sorted_entries_unique(xt, yt);
        assert(x.len() == y.len());
        assert forall|i: int| 0 <= i < x.len() implies x[i] == y[i] by {
            if i > 0 {
                assert(x[i] == xt[i - 1]);
                assert(y[i] == yt[i - 1]);
            }
        }
        assert(x =~= y);
    }
}

/// The content mapping does not depend on the order of the records: two
/// record lists holding the same records, each path at most once, format to
/// the same mapping.
pub proof fn lemma_contents_order_independent(a: Seq<ScannedFile>, b: Seq<ScannedFile>)
    requires
        unique_paths(a),
        unique_paths(b),
        forall|r: ScannedFile| #[trigger] a.contains(r) <==> #[trigger] b.contains(r),
    ensures
        spec_contents(a, a.len() as int) == spec_contents(b, b.len() as int),
{
    lemma_contents_char(a, a.len() as int);
    lemma_contents_char(b, b.len() as int);
    let ca = spec_contents(a, a.len() as int);
    let cb = spec_contents(b, b.len() as int);
    assert forall|e: (Seq<char>, Seq<char>)| #[trigger] ca.contains(e) implies cb.contains(e) by {
        let j = choose|j: int| 0 <= j < a.len() && e == spec_entry_of(a[j]);
        assert(a.contains(a[j]));
        assert(b.contains(a[j]));
        let m = choose|m: int| 0 <= m < b.len() && b[m] == a[j];
        assert(e == spec_entry_of(b[m]));
    }
    assert forall|e: (Seq<char>, Seq<char>)| #[trigger] cb.contains(e) implies ca.contains(e) by {
        let j = choose|j: int| 0 <= j < b.len() && e == spec_entry_of(b[j]);
        assert(b.contains(b[j]));
        assert(a.contains(b[j]));
        let m = choose|m: int| 0 <= m < a.len() && a[m] == b[j];
        assert(e == spec_entry_of(a[m]));
    }
    lemma_sorted_entries_unique(ca, cb);
}

} // verus!


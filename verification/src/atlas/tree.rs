use vstd::prelude::*;

use crate::atlas::text::{ascii_lower_seq, chars_eq, chars_less, chars_of, lemma_text_less_irreflexive, lemma_text_less_total,
    lemma_text_less_trans, lower_chars, push_str_chars, string_from_chars, text_less,
};
use crate::atlas::types::{FileTreeNode, SourceImage};
use vstd::multiset::Multiset;

verus! {

/// The node stands for an image file.
pub open spec fn is_image_node(n: FileTreeNode) -> bool {
    n.node_type@ == "image"@
}

} // verus!

verus! {

broadcast use vstd::string::group_string_axioms;

// ---------------------------------------------------------------------------
// Relative paths split at '/'
// ---------------------------------------------------------------------------

/// The parts joined with '/' between them.
pub open spec fn joined(parts: Seq<Seq<char>>) -> Seq<char>
    decreases parts.len(),
{
    if parts.len() == 0 {
        Seq::empty()
    } else if parts.len() == 1 {
        parts[0]
    } else {
        joined(parts.drop_last()) + seq!['/'] + parts.last()
    }
}

/// `parts` is what splitting at every '/' gives: at least one part, none
/// holding a '/', and joined again they are the text.
pub open spec fn split_of(parts: Seq<Seq<char>>, s: Seq<char>) -> bool {
    &&& parts.len() >= 1
    &&& forall|i: int, j: int| 0 <= i < parts.len() && 0 <= j < parts[i].len() ==> #[trigger] parts[i][j] != '/'
    &&& joined(parts) == s
}

/// The parts of a relative path between its '/'s.
pub fn split_path(rel_path: &str) -> (parts: Vec<String>)
    ensures
        split_of(parts@.map_values(|p: String| p@), rel_path@),
{
    let chars = chars_of(rel_path);
    let mut parts: Vec<String> = Vec::new();
    let mut current: Vec<char> = Vec::new();
    let mut i: usize = 0;
    while i < chars.len()
        invariant
            i <= chars@.len(),
            chars@ == rel_path@,
            forall|j: int| 0 <= j < current@.len() ==> current@[j] != '/',
            forall|a: int, j: int|
                0 <= a < parts@.len() && 0 <= j < parts@[a]@.len() ==> #[trigger] parts@[a]@[j] != '/',
            parts@.len() == 0 ==> current@ == chars@.take(i as int),
            parts@.len() > 0 ==> joined(parts@.map_values(|p: String| p@)) + seq!['/'] + current@ == chars@.take(i as int),
        decreases chars@.len() - i,
    {
        let c = chars[i];
        let ghost before = parts@.map_values(|p: String| p@);
        let ghost cur = current@;
        if c == '/' {
            let s = string_from_chars(&current);
            parts.push(s);
            current = Vec::new();
            proof {
                let now = parts@.map_values(|p: String| p@);
                assert(now == before.push(cur));
                assert(now.drop_last() == before);
                if before.len() == 0 {
                    assert(joined(now) == cur);
                }
                assert(joined(now) + seq!['/'] + current@ =~= chars@.take(i + 1));
            }
        } else {
            current.push(c);
            proof {
                assert(chars@.take(i + 1) == chars@.take(i as int).push(c));
                if parts@.len() > 0 {
                    assert(joined(before) + seq!['/'] + current@ =~= (joined(before) + seq!['/'] + cur).push(c));
                }
            }
        }
        i += 1;
    }
    let ghost before = parts@.map_values(|p: String| p@);
    let ghost cur = current@;
    let s = string_from_chars(&current);
    parts.push(s);
    proof {
        let now = parts@.map_values(|p: String| p@);
        assert(now == before.push(cur));
        assert(now.drop_last() == before);
        assert(chars@.take(chars@.len() as int) == chars@);
        assert forall|a: int, j: int| 0 <= a < now.len() && 0 <= j < now[a].len() implies #[trigger] now[a][j] != '/' by {
            if a < before.len() {
                assert(now[a] == parts@[a]@);
            }
        }
    }
    parts
}

} // verus!

verus! {

// ---------------------------------------------------------------------------
// Image paths in the tree
// ---------------------------------------------------------------------------

pub open spec fn is_dir_node(n: FileTreeNode) -> bool {
    n.node_type@ == "directory"@
}

/// The child sits where its name puts it under a folder with path `path`,
/// and is a folder or an image.
pub open spec fn child_in_place(path: Seq<char>, c: FileTreeNode) -> bool {
    &&& c.path@ == under(path, c.name@)
    &&& (is_image_node(c) || is_dir_node(c))
}

/// No two folders among the nodes share a name.
pub open spec fn distinct_folders(s: Seq<FileTreeNode>) -> bool {
    forall|a: int, b: int|
        0 <= a < b < s.len() && is_dir_node(#[trigger] s[a]) && is_dir_node(#[trigger] s[b]) ==> s[a].name@
            != s[b].name@
}

/// The tree at `n` is laid out by names: an image has no children; a folder
/// holds each child at its name under its own path, no two folders with the
/// same name, and so on down.
pub open spec fn arranged(n: FileTreeNode) -> bool
    decreases n,
{
    if is_image_node(n) {
        n.children@.len() == 0
    } else {
        &&& is_dir_node(n)
        &&& distinct_folders(n.children@)
        &&& arranged_children(n.path@, n.children@)
    }
}

/// Every one of the nodes is in place under `path` and arranged.
pub open spec fn arranged_children(path: Seq<char>, s: Seq<FileTreeNode>) -> bool
    decreases s,
{
    if s.len() == 0 {
        true
    } else {
        arranged_children(path, s.drop_last()) && child_in_place(path, s.last()) && arranged(s.last())
    }
}

proof fn lemma_arranged_children_index(path: Seq<char>, s: Seq<FileTreeNode>)
    ensures
        arranged_children(path, s) == forall|i: int|
            0 <= i < s.len() ==> child_in_place(path, #[trigger] s[i]) && arranged(s[i]),
    decreases s.len(),
{
    if s.len() > 0 {
        lemma_arranged_children_index(path, s.drop_last());
        if !arranged_children(path, s) {
            if !arranged_children(path, s.drop_last()) {
                let i = choose|i: int|
                    0 <= i < s.drop_last().len() && !(child_in_place(path, #[trigger] s.drop_last()[i]) && arranged(
                        s.drop_last()[i],
                    ));
                assert(s[i] == s.drop_last()[i]);
            }
        } else {
            assert forall|i: int| 0 <= i < s.len() implies child_in_place(path, #[trigger] s[i]) && arranged(s[i]) by {
                if i < s.len() - 1 {
                    assert(s[i] == s.drop_last()[i]);
                }
            }
        }
    }
}


/// The paths of the image files at or under the node.
pub open spec fn paths(n: FileTreeNode) -> Multiset<Seq<char>>
    decreases n,
{
    if is_image_node(n) {
        Multiset::singleton(n.path@)
    } else {
        paths_of(n.children@)
    }
}

/// The paths of the image files under the nodes.
pub open spec fn paths_of(nodes: Seq<FileTreeNode>) -> Multiset<Seq<char>>
    decreases nodes,
{
    if nodes.len() == 0 {
        Multiset::empty()
    } else {
        paths_of(nodes.drop_last()).add(paths(nodes.last()))
    }
}

pub proof fn lemma_paths_of_concat(a: Seq<FileTreeNode>, b: Seq<FileTreeNode>)
    ensures
        paths_of(a + b) == paths_of(a).add(paths_of(b)),
    decreases b.len(),
{
    broadcast use vstd::multiset::group_multiset_axioms;
    if b.len() == 0 {
        assert(a + b == a);
        assert(paths_of(a).add(paths_of(b)) =~= paths_of(a));
    } else {
        assert((a + b).drop_last() == a + b.drop_last());
        lemma_paths_of_concat(a, b.drop_last());
        assert(paths_of(a + b) =~= paths_of(a).add(paths_of(b)));
    }
}

pub proof fn lemma_paths_of_single(n: FileTreeNode)
    ensures
        paths_of(seq![n]) == paths(n),
{
    broadcast use vstd::multiset::group_multiset_axioms;
    let e = Seq::<FileTreeNode>::empty();
    assert(paths_of(e) == Multiset::<Seq<char>>::empty());
    assert(seq![n].drop_last() == e);
    assert(seq![n].last() == n);
    assert(paths_of(seq![n]) =~= paths(n));
}

/// Replacing the node at `k` changes the paths by what it held.
pub proof fn lemma_paths_of_replace(before: Seq<FileTreeNode>, k: int, n: FileTreeNode)
    requires
        0 <= k < before.len(),
    ensures
        paths_of(before.update(k, n)).add(paths(before[k])) == paths_of(before).add(paths(n)),
{
    broadcast use vstd::multiset::group_multiset_axioms;
    let front = before.take(k);
    let back = before.skip(k + 1);
    assert(before == front + seq![before[k]] + back);
    assert(before.update(k, n) == front + seq![n] + back);
    lemma_paths_of_concat(front + seq![before[k]], back);
    lemma_paths_of_concat(front, seq![before[k]]);
    lemma_paths_of_concat(front + seq![n], back);
    lemma_paths_of_concat(front, seq![n]);
    lemma_paths_of_single(before[k]);
    lemma_paths_of_single(n);
    assert(paths_of(before.update(k, n)).add(paths(before[k])) =~= paths_of(before).add(paths(n)));
}

/// The path of a node under `prefix`.
pub open spec fn under(prefix: Seq<char>, name: Seq<char>) -> Seq<char> {
    if prefix.len() == 0 {
        name
    } else {
        prefix + seq!['/'] + name
    }
}

/// The path the tree gives the image at the end of `parts` under `prefix`:
/// each part joins the path of its folder (a folder with an empty path
/// passes its name on as the path).
pub open spec fn tree_path(prefix: Seq<char>, parts: Seq<Seq<char>>) -> Seq<char>
    decreases parts.len(),
{
    if parts.len() <= 1 {
        under(prefix, parts[0])
    } else {
        tree_path(under(prefix, parts[0]), parts.drop_first())
    }
}

proof fn lemma_joined_first(parts: Seq<Seq<char>>)
    requires
        parts.len() >= 2,
    ensures
        joined(parts) == parts[0] + seq!['/'] + joined(parts.drop_first()),
    decreases parts.len(),
{
    if parts.len() > 2 {
        lemma_joined_first(parts.drop_last());
        assert(parts.drop_last().drop_first() == parts.drop_first().drop_last());
        assert(parts.drop_first().last() == parts.last());
        assert(joined(parts) =~= parts[0] + seq!['/'] + joined(parts.drop_first()));
    } else {
        assert(parts.drop_last().len() == 1);
        assert(joined(parts.drop_last()) == parts[0]);
        assert(parts.drop_first().len() == 1);
        assert(joined(parts.drop_first()) == parts[1]);
        assert(joined(parts) =~= parts[0] + seq!['/'] + joined(parts.drop_first()));
    }
}

/// When no part is empty, the tree gives an image its path joined.
pub proof fn lemma_tree_path_joined(prefix: Seq<char>, parts: Seq<Seq<char>>)
    requires
        parts.len() >= 1,
        forall|i: int| 0 <= i < parts.len() ==> (#[trigger] parts[i]).len() > 0,
    ensures
        tree_path(prefix, parts) == under(prefix, joined(parts)),
    decreases parts.len(),
{
    if parts.len() >= 2 {
        let rest = parts.drop_first();
        assert forall|i: int| 0 <= i < rest.len() implies (#[trigger] rest[i]).len() > 0 by {
            assert(rest[i] == parts[i + 1]);
        }
        lemma_tree_path_joined(under(prefix, parts[0]), rest);
        lemma_joined_first(parts);
        assert(parts[0].len() > 0);
        assert(under(under(prefix, parts[0]), joined(rest)) =~= under(prefix, joined(parts)));
    }
}

} // verus!

verus! {

/// The texts of the parts.
pub open spec fn part_texts(parts: Seq<String>) -> Seq<Seq<char>> {
    parts.map_values(|p: String| p@)
}

/// The path of a node named `name` under a folder with path `prefix`.
fn path_under(prefix: &str, name: &str) -> (r: String)
    ensures
        r@ == under(prefix@, name@),
{
    let prefix_chars = chars_of(prefix);
    if prefix_chars.len() == 0 {
        return String::from_str(name);
    }
    let mut text: Vec<char> = Vec::new();
    push_str_chars(&mut text, prefix);
    push_str_chars(&mut text, "/");
    push_str_chars(&mut text, name);
    proof {
        reveal_strlit("/");
    }
    string_from_chars(&text)
}

/// Whether the node is a folder named `name`.
fn is_folder_named(node: &FileTreeNode, name: &str) -> (r: bool)
    ensures
        r == (is_dir_node(*node) && node.name@ == name@),
{
    let kind = chars_of(node.node_type.as_str());
    let folder = chars_of("directory");
    let own = chars_of(node.name.as_str());
    let wanted = chars_of(name);
    chars_eq(&kind, &folder) && chars_eq(&own, &wanted)
}

proof fn lemma_kinds_differ()
    ensures
        "directory"@ != "image"@,
{
    reveal_strlit("directory");
    reveal_strlit("image");
    assert("directory"@.len() != "image"@.len());
}

/// The node has the name, path and kind of `o`.
pub open spec fn same_header(n: FileTreeNode, o: FileTreeNode) -> bool {
    &&& n.name@ == o.name@
    &&& n.path@ == o.path@
    &&& n.node_type@ == o.node_type@
}

/// Some folder among the nodes is named `name`.
pub open spec fn has_folder(s: Seq<FileTreeNode>, name: Seq<char>) -> bool {
    exists|k: int| 0 <= k < s.len() && is_dir_node(#[trigger] s[k]) && s[k].name@ == name
}

/// The first folder among the nodes named `name` is at `k`.
pub open spec fn first_folder_at(s: Seq<FileTreeNode>, name: Seq<char>, k: int) -> bool {
    &&& 0 <= k < s.len()
    &&& is_dir_node(s[k])
    &&& s[k].name@ == name
    &&& forall|j: int| 0 <= j < k ==> !(is_dir_node(#[trigger] s[j]) && s[j].name@ == name)
}

/// The children `f` are the children `o` of a folder with path `prefix`
/// after the image at the end of `parts` was added: with one part, a new
/// image node at the end; with more, the image goes on into the first
/// folder named by the first part, or into a new folder of that name added
/// at the end.
pub open spec fn inserted(f: Seq<FileTreeNode>, o: Seq<FileTreeNode>, parts: Seq<Seq<char>>, prefix: Seq<char>) -> bool
    decreases parts.len(),
{
    if parts.len() == 0 {
        f == o
    } else if parts.len() == 1 {
        &&& f.len() == o.len() + 1
        &&& f.take(o.len() as int) == o
        &&& is_image_node(f.last())
        &&& f.last().name@ == parts[0]
        &&& f.last().path@ == under(prefix, parts[0])
        &&& f.last().children@.len() == 0
        &&& f.last().image_count == 1
    } else if has_folder(o, parts[0]) {
        exists|k: int|
            {
                &&& #[trigger] first_folder_at(o, parts[0], k)
                &&& f.len() == o.len()
                &&& forall|j: int| 0 <= j < f.len() && j != k ==> f[j] == o[j]
                &&& same_header(f[k], o[k])
                &&& f[k].image_count == o[k].image_count
                &&& inserted(f[k].children@, o[k].children@, parts.drop_first(), under(prefix, parts[0]))
            }
    } else {
        &&& f.len() == o.len() + 1
        &&& f.take(o.len() as int) == o
        &&& is_dir_node(f.last())
        &&& f.last().name@ == parts[0]
        &&& f.last().path@ == under(prefix, parts[0])
        &&& f.last().image_count == 0
        &&& inserted(f.last().children@, Seq::empty(), parts.drop_first(), under(prefix, parts[0]))
    }
}

/// `t` is the tree, not yet counted and sorted, that adding the images one
/// after another to an empty folder named `name` gives.
pub open spec fn grown(t: FileTreeNode, name: Seq<char>, images: Seq<SourceImage>) -> bool
    decreases images.len(),
{
    &&& is_dir_node(t)
    &&& t.name@ == name
    &&& t.path@ == Seq::<char>::empty()
    &&& t.image_count == 0
    &&& if images.len() == 0 {
        t.children@.len() == 0
    } else {
        exists|t0: FileTreeNode|
            grown(t0, name, images.drop_last()) && #[trigger] inserted(
                t.children@,
                t0.children@,
                path_parts(images.last().rel_path@),
                Seq::empty(),
            )
    }
}

/// Adds the image at the end of `parts[from..]` under the folder `node`,
/// whose path is `prefix`, making the folders on the way that are missing.
pub fn insert_image_node(node: &mut FileTreeNode, parts: &Vec<String>, from: usize, prefix: &str)
    requires
        from <= parts@.len(),
        !is_image_node(*old(node)),
        arranged(*old(node)),
        old(node).path@ == prefix@,
    ensures
        final(node).name@ == old(node).name@,
        final(node).path@ == old(node).path@,
        final(node).node_type@ == old(node).node_type@,
        arranged(*final(node)),
        from == parts@.len() ==> paths(*final(node)) == paths(*old(node)),
        from < parts@.len() ==> paths(*final(node)) == paths(*old(node)).insert(
            tree_path(prefix@, part_texts(parts@).skip(from as int)),
        ),
        final(node).image_count == old(node).image_count,
        inserted(final(node).children@, old(node).children@, part_texts(parts@).skip(from as int), prefix@),
    decreases parts@.len() - from,
{
    broadcast use vstd::multiset::group_multiset_axioms;
    proof {
        lemma_kinds_differ();
    }
    if from == parts.len() {
        return;
    }
    let ghost rest = part_texts(parts@).skip(from as int);
    let name = &parts[from];
    let path = path_under(prefix, name.as_str());
    let ghost before = node.children@;
    proof {
        lemma_arranged_children_index(prefix@, before);
    }
    if from + 1 == parts.len() {
        let leaf = FileTreeNode::image(name.clone(), path);
        node.children.push(leaf);
        proof {
            assert(rest.len() == 1);
            assert(rest[0] == name@);
            assert(node.children@.drop_last() == before);
            assert(is_image_node(leaf));
            assert(paths(leaf) == Multiset::singleton(under(prefix@, name@)));
            assert(arranged(leaf));
            assert(child_in_place(prefix@, leaf));
            assert(arranged_children(node.path@, node.children@));
            assert(distinct_folders(node.children@)) by {
                assert forall|a: int, b: int|
                    0 <= a < b < node.children@.len() && is_dir_node(#[trigger] node.children@[a]) && is_dir_node(
                        #[trigger] node.children@[b],
                    ) implies node.children@[a].name@ != node.children@[b].name@ by {
                    assert(b < before.len());
                    assert(node.children@[a] == before[a]);
                    assert(node.children@[b] == before[b]);
                }
            }
        }
        return;
    }
    let mut index: usize = 0;
    while index < node.children.len() && !is_folder_named(&node.children[index], name.as_str())
        invariant
            index <= node.children@.len(),
            forall|j: int| 0 <= j < index ==> !(is_dir_node(#[trigger] node.children@[j]) && node.children@[j].name@ == name@),
        decreases node.children@.len() - index,
    {
        index += 1;
    }
    let ghost found = index < node.children@.len();
    proof {
        if found {
            assert(first_folder_at(before, name@, index as int));
        } else {
            assert forall|k: int| 0 <= k < before.len() implies !(is_dir_node(#[trigger] before[k]) && before[k].name@
                == name@) by {}
        }
    }
    if index == node.children.len() {
        let folder = FileTreeNode::directory(name.clone(), path.clone());
        node.children.push(folder);
        proof {
            assert(!is_image_node(folder));
            assert(paths(folder) =~= Multiset::empty());
            assert(node.children@.drop_last() == before);
            assert(paths_of(node.children@) =~= paths_of(before));
            assert(arranged_children(folder.path@, folder.children@));
            assert(arranged(folder));
            assert(child_in_place(prefix@, folder));
            assert(arranged_children(node.path@, node.children@));
            assert(distinct_folders(node.children@)) by {
                assert forall|a: int, b: int|
                    0 <= a < b < node.children@.len() && is_dir_node(#[trigger] node.children@[a]) && is_dir_node(
                        #[trigger] node.children@[b],
                    ) implies node.children@[a].name@ != node.children@[b].name@ by {
                    assert(node.children@[a] == before[a]);
                    if b < before.len() {
                        assert(node.children@[b] == before[b]);
                    }
                }
            }
        }
    }
    let ghost mid = node.children@;
    let mut child = node.children.remove(index);
    let ghost old_child = child;
    proof {
        assert(!is_image_node(child)) by {
            if index < before.len() {
                assert(is_dir_node(child));
            }
        }
        lemma_arranged_children_index(prefix@, mid);
        assert(child == mid[index as int]);
        assert(child.name@ == name@);
        assert(child.path@ == path@);
    }
    insert_image_node(&mut child, parts, from + 1, path.as_str());
    node.children.insert(index, child);
    proof {
        assert(node.children@ == mid.update(index as int, child));
        assert forall|i: int| 0 <= i < node.children@.len() implies child_in_place(
            prefix@,
            #[trigger] node.children@[i],
        ) && arranged(node.children@[i]) by {
            if i != index {
                assert(node.children@[i] == mid[i]);
            }
        }
        lemma_arranged_children_index(prefix@, node.children@);
        assert(distinct_folders(node.children@)) by {
            assert forall|a: int, b: int|
                0 <= a < b < node.children@.len() && is_dir_node(#[trigger] node.children@[a]) && is_dir_node(
                    #[trigger] node.children@[b],
                ) implies node.children@[a].name@ != node.children@[b].name@ by {
                if a != index {
                    assert(node.children@[a] == mid[a]);
                }
                if b != index {
                    assert(node.children@[b] == mid[b]);
                }
            }
        }
        lemma_paths_of_replace(mid, index as int, child);
        assert(part_texts(parts@).skip(from + 1) == rest.drop_first());
        assert(rest[0] == name@);
        assert(tree_path(prefix@, rest) == tree_path(under(prefix@, name@), rest.drop_first()));
        let t = tree_path(prefix@, rest);
        assert(mid[index as int] == old_child);
        assert(paths(child) == paths(old_child).insert(t));
        assert(paths_of(mid) == paths_of(before));
        let a = paths_of(node.children@);
        assert forall|x: Seq<char>| a.count(x) == paths_of(before).insert(t).count(x) by {
            assert(a.add(paths(old_child)).count(x) == paths_of(mid).add(paths(child)).count(x));
        }
        assert(paths_of(node.children@) =~= paths_of(before).insert(t));
        assert(rest.len() >= 2);
        let f = node.children@;
        if found {
            assert(mid == before);
            assert(has_folder(before, rest[0]));
            assert(forall|j: int| 0 <= j < f.len() && j != index ==> f[j] == before[j]);
            assert(first_folder_at(before, rest[0], index as int));
            assert(inserted(f, before, rest, prefix@));
        } else {
            assert(!has_folder(before, rest[0]));
            assert(f.take(before.len() as int) =~= before);
            assert(f.last() == child);
            assert(old_child.children@ == Seq::<FileTreeNode>::empty());
            assert(inserted(f, before, rest, prefix@));
        }
    }
}

} // verus!

verus! {

// ---------------------------------------------------------------------------
// Counts and order of the tree
// ---------------------------------------------------------------------------

/// The key children are listed by: folders first, then by name without
/// regard to ASCII case.
pub open spec fn child_key(n: FileTreeNode) -> Seq<char> {
    seq![if is_dir_node(n) { '0' } else { '1' }] + ascii_lower_seq(n.name@)
}

/// The nodes are listed by key.
pub open spec fn sorted_children(s: Seq<FileTreeNode>) -> bool {
    forall|a: int, b: int| 0 <= a < b < s.len() ==> !text_less(child_key(#[trigger] s[b]), child_key(#[trigger] s[a]))
}


/// How many of the nodes have a key that is not above `key`.
pub open spec fn count_not_above(s: Seq<FileTreeNode>, key: Seq<char>) -> nat
    decreases s.len(),
{
    if s.len() == 0 {
        0
    } else {
        count_not_above(s.drop_last(), key) + if !text_less(key, child_key(s.last())) {
            1nat
        } else {
            0nat
        }
    }
}

/// The nodes ordered by key; nodes with equal keys keep their order (a
/// stable sort).
pub open spec fn by_child_key(s: Seq<FileTreeNode>) -> Seq<FileTreeNode>
    decreases s.len(),
{
    if s.len() == 0 {
        Seq::empty()
    } else {
        let t = by_child_key(s.drop_last());
        t.insert(count_not_above(t, child_key(s.last())) as int, s.last())
    }
}


/// `f` is `o` counted and sorted: the same name, path and kind; an image
/// counts one; a folder counts the images under it and lists its children,
/// each counted and sorted in turn, by key, children with equal keys in the
/// order they had.
pub open spec fn sorted_from(f: FileTreeNode, o: FileTreeNode) -> bool
    decreases o,
{
    &&& same_header(f, o)
    &&& if is_image_node(o) {
        f.image_count == 1 && f.children@ == o.children@
    } else {
        &&& f.image_count == paths(o).len()
        &&& exists|u: Seq<FileTreeNode>|
            #![trigger by_child_key(u)]
            {
                &&& u.len() == o.children@.len()
                &&& forall|i: int| 0 <= i < u.len() ==> sorted_from(#[trigger] u[i], o.children@[i])
                &&& f.children@ == by_child_key(u)
            }
    }
}

/// The node keeps its name, path, kind and image paths.
pub open spec fn same_place(a: FileTreeNode, b: FileTreeNode) -> bool {
    &&& a.name@ == b.name@
    &&& a.path@ == b.path@
    &&& a.node_type@ == b.node_type@
    &&& paths(a) == paths(b)
}

/// In nodes listed by key, the nodes not above `key` are the first `p`.
proof fn lemma_count_not_above_prefix(s: Seq<FileTreeNode>, key: Seq<char>, p: int)
    requires
        0 <= p <= s.len(),
        forall|q: int| 0 <= q < p ==> !text_less(key, child_key(#[trigger] s[q])),
        forall|q: int| p <= q < s.len() ==> text_less(key, child_key(#[trigger] s[q])),
    ensures
        count_not_above(s, key) == p,
    decreases s.len(),
{
    if s.len() > 0 {
        let init = s.drop_last();
        if p == s.len() {
            assert(!text_less(key, child_key(s[s.len() - 1])));
            assert forall|q: int| 0 <= q < p - 1 implies !text_less(key, child_key(#[trigger] init[q])) by {
                assert(init[q] == s[q]);
            }
            lemma_count_not_above_prefix(init, key, p - 1);
        } else {
            assert(text_less(key, child_key(s[s.len() - 1])));
            assert forall|q: int| 0 <= q < p implies !text_less(key, child_key(#[trigger] init[q])) by {
                assert(init[q] == s[q]);
            }
            assert forall|q: int| p <= q < init.len() implies text_less(key, child_key(#[trigger] init[q])) by {
                assert(init[q] == s[q]);
            }
            lemma_count_not_above_prefix(init, key, p);
        }
    }
}

/// Where `insert_point` puts a key among nodes listed by key is
/// `count_not_above`.
proof fn lemma_insert_point_count(s: Seq<FileTreeNode>, key: Seq<char>, p: int)
    requires
        0 <= p <= s.len(),
        sorted_children(s),
        forall|q: int| 0 <= q < p ==> !text_less(key, child_key(#[trigger] s[q])),
        p < s.len() ==> text_less(key, child_key(s[p])),
    ensures
        count_not_above(s, key) == p,
{
    assert forall|q: int| p <= q < s.len() implies text_less(key, child_key(#[trigger] s[q])) by {
        if q > p {
            let kp = child_key(s[p]);
            let kq = child_key(s[q]);
            assert(!text_less(kq, kp));
            if kp != kq {
                lemma_text_less_total(kp, kq);
                lemma_text_less_trans(key, kp, kq);
            }
        }
    }
    lemma_count_not_above_prefix(s, key, p);
}

/// Every node at or under `n` holds the number of images under it, and
/// lists its children by key.
pub open spec fn counted(n: FileTreeNode) -> bool
    decreases n,
{
    if is_image_node(n) {
        n.image_count == 1
    } else {
        &&& n.image_count == paths(n).len()
        &&& sorted_children(n.children@)
        &&& all_counted(n.children@)
    }
}

/// Every one of the nodes is counted.
pub open spec fn all_counted(s: Seq<FileTreeNode>) -> bool
    decreases s,
{
    if s.len() == 0 {
        true
    } else {
        all_counted(s.drop_last()) && counted(s.last())
    }
}

proof fn lemma_all_counted_index(s: Seq<FileTreeNode>)
    ensures
        all_counted(s) == forall|i: int| 0 <= i < s.len() ==> counted(#[trigger] s[i]),
    decreases s.len(),
{
    if s.len() > 0 {
        lemma_all_counted_index(s.drop_last());
        if !all_counted(s) {
            if !all_counted(s.drop_last()) {
                let i = choose|i: int| 0 <= i < s.drop_last().len() && !counted(#[trigger] s.drop_last()[i]);
                assert(s[i] == s.drop_last()[i]);
            } else {
                assert(!counted(s[s.len() - 1]));
            }
        } else {
            assert forall|i: int| 0 <= i < s.len() implies counted(#[trigger] s[i]) by {
                if i < s.len() - 1 {
                    assert(s[i] == s.drop_last()[i]);
                }
            }
        }
    }
}

/// The key of a node.
fn key_of(node: &FileTreeNode) -> (k: Vec<char>)
    ensures
        k@ == child_key(*node),
{
    let kind = chars_of(node.node_type.as_str());
    let folder = chars_of("directory");
    let mut k: Vec<char> = Vec::new();
    k.push(if chars_eq(&kind, &folder) { '0' } else { '1' });
    let lower = lower_chars(&chars_of(node.name.as_str()));
    let mut i: usize = 0;
    while i < lower.len()
        invariant
            i <= lower@.len(),
            k@ == seq![if is_dir_node(*node) { '0' } else { '1' }] + lower@.take(i as int),
        decreases lower@.len() - i,
    {
        k.push(lower[i]);
        assert(lower@.take(i + 1) == lower@.take(i as int).push(lower@[i as int]));
        i += 1;
    }
    assert(lower@.take(lower@.len() as int) == lower@);
    k
}

proof fn lemma_paths_of_insert(s: Seq<FileTreeNode>, p: int, n: FileTreeNode)
    requires
        0 <= p <= s.len(),
    ensures
        paths_of(s.insert(p, n)) == paths_of(s).add(paths(n)),
{
    broadcast use vstd::multiset::group_multiset_axioms;
    let front = s.take(p);
    let back = s.skip(p);
    assert(s == front + back);
    assert(s.insert(p, n) == front + seq![n] + back);
    lemma_paths_of_concat(front + seq![n], back);
    lemma_paths_of_concat(front, seq![n]);
    lemma_paths_of_concat(front, back);
    lemma_paths_of_single(n);
    assert(paths_of(s.insert(p, n)) =~= paths_of(s).add(paths(n)));
}

/// Where a node with `key` goes among nodes listed by key: after all the
/// keys that are not after it.
fn insert_point(keys: &Vec<Vec<char>>, key: &Vec<char>) -> (p: usize)
    ensures
        p <= keys@.len(),
        forall|q: int| 0 <= q < p ==> !text_less(key@, (#[trigger] keys@[q])@),
        p < keys@.len() ==> text_less(key@, keys@[p as int]@),
{
    let mut p: usize = 0;
    while p < keys.len() && !chars_less(key, &keys[p])
        invariant
            p <= keys@.len(),
            forall|q: int| 0 <= q < p ==> !text_less(key@, (#[trigger] keys@[q])@),
        decreases keys@.len() - p,
    {
        p += 1;
    }
    p
}

/// Sets the count of images at every node at or under `node` and lists
/// every folder's children by key; gives the count.
pub fn update_counts_and_sort(node: &mut FileTreeNode) -> (count: usize)
    requires
        paths(*old(node)).len() <= usize::MAX,
    ensures
        final(node).name@ == old(node).name@,
        final(node).path@ == old(node).path@,
        final(node).node_type@ == old(node).node_type@,
        paths(*final(node)) == paths(*old(node)),
        counted(*final(node)),
        count == paths(*final(node)).len(),
        arranged(*old(node)) ==> arranged(*final(node)),
        sorted_from(*final(node), *old(node)),
        !is_image_node(*old(node)) ==> exists|u: Seq<FileTreeNode>|
            {
                &&& u.len() == old(node).children@.len()
                &&& forall|i: int| 0 <= i < u.len() ==> same_place(#[trigger] u[i], old(node).children@[i])
                &&& final(node).children@ == by_child_key(u)
            },
    decreases *old(node),
{
    broadcast use vstd::multiset::group_multiset_axioms;
    let kind = chars_of(node.node_type.as_str());
    let image = chars_of("image");
    if chars_eq(&kind, &image) {
        node.image_count = 1;
        proof {
            assert(paths(*node) =~= Multiset::singleton(node.path@));
            assert(sorted_from(*node, *old(node)));
        }
        return 1;
    }
    let ghost start = *node;
    let ghost tidy = arranged(start);
    let ghost mut u: Seq<FileTreeNode> = Seq::empty();
    proof {
        lemma_arranged_children_index(start.path@, start.children@);
    }
    let mut children: Vec<FileTreeNode> = Vec::new();
    std::mem::swap(&mut children, &mut node.children);
    let ghost all = children@;
    let mut sorted: Vec<FileTreeNode> = Vec::new();
    let mut keys: Vec<Vec<char>> = Vec::new();
    let mut count: usize = 0;
    let ghost mut done: int = 0;
    proof {
        assert(paths_of(sorted@) =~= Multiset::empty());
        assert(all.skip(0) == all);
        assert(paths(start) == paths_of(all));
    }
    while children.len() > 0
        invariant
            all == start.children@,
            start == *old(node),
            !is_image_node(start),
            paths(start) == paths_of(all),
            paths(start).len() <= usize::MAX,
            0 <= done <= all.len(),
            children@ == all.skip(done),
            paths_of(sorted@).add(paths_of(children@)) == paths_of(all),
            count == paths_of(sorted@).len(),
            keys@.len() == sorted@.len(),
            forall|a: int| 0 <= a < keys@.len() ==> (#[trigger] keys@[a])@ == child_key(sorted@[a]),
            sorted_children(sorted@),
            forall|a: int| 0 <= a < sorted@.len() ==> counted(#[trigger] sorted@[a]),
            tidy == arranged(start),
            u.len() == done,
            forall|i: int| 0 <= i < u.len() ==> same_place(#[trigger] u[i], all[i]),
            forall|i: int| 0 <= i < u.len() ==> sorted_from(#[trigger] u[i], all[i]),
            sorted@ == by_child_key(u),
            tidy ==> forall|i: int| 0 <= i < all.len() ==> child_in_place(start.path@, #[trigger] all[i]) && arranged(all[i]),
            tidy ==> distinct_folders(all),
            tidy ==> forall|a: int| 0 <= a < sorted@.len() ==> child_in_place(start.path@, #[trigger] sorted@[a]) && arranged(sorted@[a]),
            tidy ==> distinct_folders(sorted@),
            tidy ==> forall|a: int, b: int|
                0 <= a < sorted@.len() && done <= b < all.len() && is_dir_node(#[trigger] sorted@[a]) && is_dir_node(
                    #[trigger] all[b],
                ) ==> sorted@[a].name@ != all[b].name@,
        decreases children@.len(),
    {
        let ghost rest = children@;
        let mut child = children.remove(0);
        proof {
            assert(child == all[done]);
            assert(rest == seq![child] + children@);
            lemma_paths_of_concat(seq![child], children@);
            lemma_paths_of_single(child);
            assert(paths(child).len() <= paths_of(all).len());
            assert(decreases_to!(start => start.children@[done]));
        }
        let ghost child_before = child;
        let c = update_counts_and_sort(&mut child);
        count = count + c;
        let key = key_of(&child);
        let p = insert_point(&keys, &key);
        let ghost before = sorted@;
        let ghost before_keys = keys@;
        sorted.insert(p, child);
        keys.insert(p, key);
        proof {
            assert forall|q: int| 0 <= q < p implies !text_less(key@, child_key(#[trigger] before[q])) by {
                assert(before_keys[q]@ == child_key(before[q]));
            }
            if p < before.len() {
                assert(before_keys[p as int]@ == child_key(before[p as int]));
            }
            lemma_insert_point_count(before, key@, p as int);
            let nu = u.push(child);
            assert(nu.drop_last() == u);
            assert(by_child_key(nu) == before.insert(p as int, child));
            assert forall|i: int| 0 <= i < nu.len() implies same_place(#[trigger] nu[i], all[i]) by {
                if i < u.len() {
                    assert(nu[i] == u[i]);
                } else {
                    assert(child_before == all[done]);
                }
            }
            assert(sorted_from(child, all[done]));
            assert forall|i: int| 0 <= i < nu.len() implies sorted_from(#[trigger] nu[i], all[i]) by {
                if i < u.len() {
                    assert(nu[i] == u[i]);
                }
            }
            u = nu;
            lemma_paths_of_insert(before, p as int, child);
            assert(paths_of(sorted@).add(paths_of(children@)) =~= paths_of(all));
            assert(all.skip(done + 1) == children@);
            done = done + 1;
            assert forall|a: int| 0 <= a < keys@.len() implies (#[trigger] keys@[a])@ == child_key(sorted@[a]) by {
                if a > p {
                    assert(keys@[a] == before_keys[a - 1]);
                    assert(sorted@[a] == before[a - 1]);
                } else if a < p {
                    assert(keys@[a] == before_keys[a]);
                    assert(sorted@[a] == before[a]);
                }
            }
            assert forall|a: int| 0 <= a < sorted@.len() implies counted(#[trigger] sorted@[a]) by {
                if a > p {
                    assert(sorted@[a] == before[a - 1]);
                } else if a < p {
                    assert(sorted@[a] == before[a]);
                }
            }
            if tidy {
                let d = done - 1;
                assert(child_before == all[d]);
                assert(child_in_place(start.path@, child));
                assert(arranged(child));
                assert forall|a: int| 0 <= a < sorted@.len() implies child_in_place(start.path@, #[trigger] sorted@[a])
                    && arranged(sorted@[a]) by {
                    if a > p {
                        assert(sorted@[a] == before[a - 1]);
                    } else if a < p {
                        assert(sorted@[a] == before[a]);
                    }
                }
                assert forall|a: int, b: int|
                    0 <= a < b < sorted@.len() && is_dir_node(#[trigger] sorted@[a]) && is_dir_node(#[trigger] sorted@[b])
                        implies sorted@[a].name@ != sorted@[b].name@ by {
                    if a == p {
                        assert(sorted@[b] == before[b - 1]);
                        assert(is_dir_node(all[d]));
                    } else if b == p {
                        if a < p {
                            assert(sorted@[a] == before[a]);
                        }
                        assert(is_dir_node(all[d]));
                    } else {
                        let a0 = if a < p { a } else { a - 1 };
                        let b0 = if b < p { b } else { b - 1 };
                        assert(sorted@[a] == before[a0]);
                        assert(sorted@[b] == before[b0]);
                    }
                }
                assert forall|a: int, b: int|
                    0 <= a < sorted@.len() && done <= b < all.len() && is_dir_node(#[trigger] sorted@[a]) && is_dir_node(
                        #[trigger] all[b],
                    ) implies sorted@[a].name@ != all[b].name@ by {
                    if a == p {
                        assert(is_dir_node(all[d]));
                        assert(all[d].name@ != all[b].name@);
                    } else {
                        let a0 = if a < p { a } else { a - 1 };
                        assert(sorted@[a] == before[a0]);
                    }
                }
            }
            assert forall|a: int, b: int| 0 <= a < b < sorted@.len() implies !text_less(
                child_key(#[trigger] sorted@[b]),
                child_key(#[trigger] sorted@[a]),
            ) by {
                let k = key@;
                if b < p {
                    assert(sorted@[a] == before[a]);
                    assert(sorted@[b] == before[b]);
                } else if b == p {
                    assert(sorted@[a] == before[a]);
                    assert(before_keys[a]@ == child_key(before[a]));
                } else if a < p {
                    assert(sorted@[a] == before[a]);
                    assert(sorted@[b] == before[b - 1]);
                } else if a == p {
                    assert(sorted@[b] == before[b - 1]);
                    let kp = child_key(before[p as int]);
                    let kb = child_key(before[b - 1]);
                    assert(before_keys[p as int]@ == kp);
                    assert(text_less(k, kp));
                    if text_less(kb, k) {
                        lemma_text_less_trans(kb, k, kp);
                        if b - 1 > p {
                            assert(!text_less(kb, kp));
                        } else {
                            lemma_text_less_irreflexive(kp);
                        }
                    }
                } else {
                    assert(sorted@[a] == before[a - 1]);
                    assert(sorted@[b] == before[b - 1]);
                }
            }
        }
    }
    node.children = sorted;
    node.image_count = count;
    proof {
        assert(children@.len() == 0);
        assert(paths_of(children@) =~= Multiset::empty());
        assert(paths_of(node.children@) =~= paths_of(all));
        lemma_all_counted_index(node.children@);
        assert(!is_image_node(*node));
        if tidy {
            lemma_arranged_children_index(node.path@, node.children@);
            assert(arranged(*node));
        }
        assert(node.children@ == by_child_key(u));
        assert(same_header(*node, start));
        assert(node.image_count == paths(start).len());
        assert(!is_image_node(start));
        assert(sorted_from(*node, start));
    }
    count
}

} // verus!

verus! {

// ---------------------------------------------------------------------------
// The tree of a scan
// ---------------------------------------------------------------------------

proof fn lemma_joined_has_slash(parts: Seq<Seq<char>>)
    requires
        parts.len() >= 2,
    ensures
        joined(parts).len() == joined(parts.drop_last()).len() + 1 + parts.last().len(),
        joined(parts)[joined(parts.drop_last()).len() as int] == '/',
{
}

/// A text has one split at '/'.
pub proof fn lemma_split_unique(p1: Seq<Seq<char>>, p2: Seq<Seq<char>>, s: Seq<char>)
    requires
        split_of(p1, s),
        split_of(p2, s),
    ensures
        p1 == p2,
    decreases p1.len() + p2.len(),
{
    if p1.len() == 1 && p2.len() == 1 {
        assert(p1 =~= p2);
    } else if p1.len() == 1 {
        lemma_joined_has_slash(p2);
        let k = joined(p2.drop_last()).len() as int;
        assert(s[k] == '/');
        assert(p1[0][k] == '/');
    } else if p2.len() == 1 {
        lemma_joined_has_slash(p1);
        let k = joined(p1.drop_last()).len() as int;
        assert(s[k] == '/');
        assert(p2[0][k] == '/');
    } else {
        lemma_joined_has_slash(p1);
        lemma_joined_has_slash(p2);
        let l1 = p1.last();
        let l2 = p2.last();
        let a1 = joined(p1.drop_last());
        let a2 = joined(p2.drop_last());
        assert(s == a1 + seq!['/'] + l1);
        assert(s == a2 + seq!['/'] + l2);
        if l1.len() < l2.len() {
            let k = a1.len() as int;
            assert(s[k] == '/');
            assert(l2[k - a2.len() - 1] == s[k]);
            assert(p2[p2.len() - 1] == l2);
            assert(false);
        } else if l2.len() < l1.len() {
            let k = a2.len() as int;
            assert(s[k] == '/');
            assert(l1[k - a1.len() - 1] == s[k]);
            assert(p1[p1.len() - 1] == l1);
            assert(false);
        }
        assert(l1 =~= s.skip(a1.len() as int + 1));
        assert(l2 =~= s.skip(a2.len() as int + 1));
        assert(a1 =~= s.take(a1.len() as int));
        assert(a2 =~= s.take(a2.len() as int));
        let d1 = p1.drop_last();
        let d2 = p2.drop_last();
        assert forall|i: int, j: int| 0 <= i < d1.len() && 0 <= j < d1[i].len() implies #[trigger] d1[i][j] != '/' by {
            assert(d1[i] == p1[i]);
        }
        assert forall|i: int, j: int| 0 <= i < d2.len() && 0 <= j < d2[i].len() implies #[trigger] d2[i][j] != '/' by {
            assert(d2[i] == p2[i]);
        }
        lemma_split_unique(d1, d2, a1);
        assert(p1 =~= d1.push(l1));
        assert(p2 =~= d2.push(l2));
    }
}

/// The parts of a text between its '/'s.
pub open spec fn path_parts(s: Seq<char>) -> Seq<Seq<char>> {
    choose|p: Seq<Seq<char>>| split_of(p, s)
}

/// The paths the tree gives the images, from their relative paths.
pub open spec fn image_tree_paths(images: Seq<SourceImage>) -> Multiset<Seq<char>>
    decreases images.len(),
{
    if images.len() == 0 {
        Multiset::empty()
    } else {
        image_tree_paths(images.drop_last()).insert(tree_path(Seq::empty(), path_parts(images.last().rel_path@)))
    }
}

/// The folder tree of the images under a root folder named `root_name`:
/// exactly the tree that adding each image in turn along the parts of its
/// relative path gives (a folder per part but the last, found by name or
/// added at the end, and an image node named by the last part), then
/// counted and sorted, every folder listing folders first, then by name
/// without regard to ASCII case, nodes with equal keys in the order they
/// were added.
pub fn build_file_tree(root_name: String, images: &[SourceImage]) -> (root: FileTreeNode)
    ensures
        root.name@ == root_name@,
        root.path@ == Seq::<char>::empty(),
        is_dir_node(root),
        paths(root) == image_tree_paths(images@),
        counted(root),
        arranged(root),
        exists|t: FileTreeNode| #[trigger] grown(t, root_name@, images@) && sorted_from(root, t),
{
    let mut root = FileTreeNode::directory(root_name, String::new());
    proof {
        lemma_kinds_differ();
        assert(paths(root) =~= Multiset::empty());
        assert(arranged_children(root.path@, root.children@));
        assert(arranged(root));
        assert(grown(root, root_name@, images@.take(0)));
    }
    let mut i: usize = 0;
    while i < images.len()
        invariant
            i <= images@.len(),
            is_dir_node(root),
            "directory"@ != "image"@,
            root.name@ == root_name@,
            root.path@ == Seq::<char>::empty(),
            paths(root) == image_tree_paths(images@.take(i as int)),
            arranged(root),
            grown(root, root_name@, images@.take(i as int)),
        decreases images@.len() - i,
    {
        let parts = split_path(images[i].rel_path.as_str());
        proof {
            let p = part_texts(parts@);
            assert(split_of(p, images@[i as int].rel_path@));
            let c = path_parts(images@[i as int].rel_path@);
            lemma_split_unique(p, c, images@[i as int].rel_path@);
            assert(p.skip(0) == p);
            assert(images@.take(i + 1).drop_last() == images@.take(i as int));
            reveal_strlit("");
            assert(""@ =~= Seq::<char>::empty());
        }
        let ghost before = root;
        insert_image_node(&mut root, &parts, 0, "");
        proof {
            let taken = images@.take(i + 1);
            assert(taken.drop_last() == images@.take(i as int));
            assert(taken.last() == images@[i as int]);
            assert(part_texts(parts@).skip(0) == path_parts(images@[i as int].rel_path@));
            assert(inserted(root.children@, before.children@, path_parts(taken.last().rel_path@), Seq::empty()));
            assert(grown(root, root_name@, taken));
        }
        i += 1;
    }
    assert(images@.take(images@.len() as int) == images@);
    proof {
        lemma_image_tree_paths_len(images@);
    }
    let ghost grown_tree = root;
    update_counts_and_sort(&mut root);
    assert(grown(grown_tree, root_name@, images@) && sorted_from(root, grown_tree));
    root
}

proof fn lemma_image_tree_paths_len(images: Seq<SourceImage>)
    ensures
        image_tree_paths(images).len() == images.len(),
    decreases images.len(),
{
    broadcast use vstd::multiset::group_multiset_axioms;
    if images.len() > 0 {
        lemma_image_tree_paths_len(images.drop_last());
    }
}

} // verus!

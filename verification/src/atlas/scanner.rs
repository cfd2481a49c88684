use vstd::prelude::*;

use crate::atlas::text::{
    ascii_lower_seq, chars_eq, chars_of, decimal, is_order_of, push_decimal, lower_chars, ordered_by_text, push_str_chars,
    sort_order_by_text, string_from_chars, text_less,
};
use crate::atlas::types::{path_to_posix, posix_form, FileTreeNode, ScanResult, SourceImage};
use crate::atlas::tree::{arranged, build_file_tree, counted, grown, image_tree_paths, is_dir_node, paths, sorted_from};

verus! {

broadcast use vstd::string::group_string_axioms;

// ---------------------------------------------------------------------------
// Image files
// ---------------------------------------------------------------------------

/// What `Path::extension` gives for the path, as text: the part of the
/// file name after its last '.', if it has one.
pub uninterp spec fn path_extension(path: Seq<char>) -> Option<Seq<char>>;

/// `std::path::Path::extension`, taken as UTF-8 (a part of a `&str` always is).
#[verifier::external_body]
fn extension_of(path: &str) -> (r: Option<String>)
    ensures
        match r {
            Some(e) => path_extension(path@) == Some(e@),
            None => path_extension(path@) is None,
        },
{
    std::path::Path::new(path).extension().and_then(|ext| ext.to_str()).map(|ext| ext.to_string())
}

/// The extensions of the image formats the packer reads, in lower case.
pub open spec fn image_extension(ext: Seq<char>) -> bool {
    ext == "png"@ || ext == "jpg"@ || ext == "jpeg"@ || ext == "webp"@ || ext == "bmp"@
}

/// Whether an extension is one of an image format the packer reads: png,
/// jpg, jpeg, webp or bmp, without regard to ASCII case.
pub fn is_image_extension(ext: &str) -> (r: bool)
    ensures
        r == image_extension(ascii_lower_seq(ext@)),
{
    let chars = chars_of(ext);
    let lower = lower_chars(&chars);
    let png = chars_of("png");
    let jpg = chars_of("jpg");
    let jpeg = chars_of("jpeg");
    let webp = chars_of("webp");
    let bmp = chars_of("bmp");
    chars_eq(&lower, &png) || chars_eq(&lower, &jpg) || chars_eq(&lower, &jpeg) || chars_eq(&lower, &webp)
        || chars_eq(&lower, &bmp)
}

/// Whether the path names an image the packer reads: its extension, without
/// regard to ASCII case, is png, jpg, jpeg, webp or bmp.
pub fn is_supported_image(path: &str) -> (r: bool)
    ensures
        r == (path_extension(path@) matches Some(e) && image_extension(ascii_lower_seq(e))),
{
    match extension_of(path) {
        None => false,
        Some(ext) => is_image_extension(ext.as_str()),
    }
}

} // verus!

verus! {

// ---------------------------------------------------------------------------
// Records of the images of one input folder
// ---------------------------------------------------------------------------

/// An image file a walk of an input folder found, with what reading it gave.
pub struct FoundFile {
    /// The path of the file as found.
    pub abs_path: String,
    /// Its path relative to the input folder, as the platform writes it.
    pub local_path: String,
    /// Its file name.
    pub name: String,
    pub file_size: u64,
    /// Width and height, or why its header could not be read.
    pub dimensions: Result<(u32, u32), String>,
}

/// The key files are listed by: the relative path with forward slashes,
/// ASCII lower-cased.
pub open spec fn file_key(f: FoundFile) -> Seq<char> {
    ascii_lower_seq(posix_form(f.local_path@))
}

/// The relative path a file is listed under: its own, after the label of its
/// input folder when there is one.
pub open spec fn listed_path(f: FoundFile, prefix: Option<Seq<char>>) -> Seq<char> {
    match prefix {
        Some(p) => p + "/"@ + posix_form(f.local_path@),
        None => posix_form(f.local_path@),
    }
}

/// The record of a found file.
pub open spec fn record_of(img: SourceImage, f: FoundFile, id: int, prefix: Option<Seq<char>>) -> bool {
    &&& img.id == id
    &&& img.name@ == f.name@
    &&& img.abs_path@ == f.abs_path@
    &&& img.rel_path@ == listed_path(f, prefix)
    &&& img.file_size == f.file_size
    &&& match f.dimensions {
        Ok((w, h)) => img.width == w && img.height == h && img.readable && img.error is None,
        Err(m) => {
            &&& img.width == 0 && img.height == 0 && !img.readable
            &&& img.error matches Some(e) && e@ == m@
        },
    }
}

/// The warning on a file whose header could not be read.
pub open spec fn metadata_warning(rel_path: Seq<char>, reason: Seq<char>) -> Seq<char> {
    "Failed to read image metadata: "@ + rel_path + ": "@ + reason
}

/// The warnings on the files, in the listed order.
pub open spec fn failure_notes(files: Seq<FoundFile>, order: Seq<usize>, prefix: Option<Seq<char>>) -> Seq<Seq<char>>
    decreases order.len(),
{
    if order.len() == 0 {
        Seq::empty()
    } else {
        let f = files[order.last() as int];
        failure_notes(files, order.drop_last(), prefix) + match f.dimensions {
            Ok(_) => Seq::<Seq<char>>::empty(),
            Err(m) => seq![metadata_warning(listed_path(f, prefix), m@)],
        }
    }
}

/// The texts of the warnings.
pub open spec fn texts(ws: Seq<String>) -> Seq<Seq<char>> {
    ws.map_values(|w: String| w@)
}

/// The label text, if any.
pub open spec fn prefix_text(p: Option<&str>) -> Option<Seq<char>> {
    match p {
        Some(p) => Some(p@),
        None => None,
    }
}

/// The files listed in `order`: by key without regard to ASCII case, equal
/// keys in the order found; their records numbered from `id_offset`, and
/// the warnings on the files that could not be read.
pub open spec fn listed(
    files: Seq<FoundFile>,
    order: Seq<usize>,
    prefix: Option<Seq<char>>,
    id_offset: int,
    images: Seq<SourceImage>,
    warnings: Seq<Seq<char>>,
) -> bool {
    &&& is_order_of(order, files.len() as int)
    &&& images.len() == files.len()
    &&& forall|a: int, b: int|
        0 <= a < b < order.len() ==> !text_less(
            file_key(files[#[trigger] order[b] as int]),
            file_key(files[#[trigger] order[a] as int]),
        )
    &&& forall|a: int, b: int|
        0 <= a < b < order.len() && file_key(files[#[trigger] order[a] as int]) == file_key(
            files[#[trigger] order[b] as int],
        ) ==> order[a] < order[b]
    &&& forall|k: int| 0 <= k < images.len() ==> record_of(#[trigger] images[k], files[order[k] as int], id_offset + k, prefix)
    &&& warnings == failure_notes(files, order, prefix)
}

/// The records of the image files of one input folder: listed by relative
/// path without regard to ASCII case, numbered from `id_offset`, with a
/// warning for each file whose header could not be read.
pub fn build_source_images(
    files: &Vec<FoundFile>,
    rel_prefix: Option<&str>,
    id_offset: usize,
    warnings: &mut Vec<String>,
) -> (images: Vec<SourceImage>)
    requires
        id_offset + files@.len() <= usize::MAX,
    ensures
        exists|order: Seq<usize>|
            #[trigger] listed(
                files@,
                order,
                prefix_text(rel_prefix),
                id_offset as int,
                images@,
                texts(final(warnings)@).skip(old(warnings)@.len() as int),
            ),
        texts(final(warnings)@).take(old(warnings)@.len() as int) == texts(old(warnings)@),
        final(warnings)@.len() >= old(warnings)@.len(),
{
    let ghost prefix: Option<Seq<char>> = match rel_prefix {
        Some(p) => Some(p@),
        None => None,
    };
    let mut keys: Vec<Vec<char>> = Vec::new();
    let mut i: usize = 0;
    while i < files.len()
        invariant
            i <= files@.len(),
            keys@.len() == i,
            forall|k: int| 0 <= k < i ==> (#[trigger] keys@[k])@ == file_key(files@[k]),
        decreases files@.len() - i,
    {
        let posix = path_to_posix(files[i].local_path.as_str());
        let chars = chars_of(posix.as_str());
        keys.push(lower_chars(&chars));
        i += 1;
    }
    let order = sort_order_by_text(&keys);
    let ghost start = warnings@;
    let mut images: Vec<SourceImage> = Vec::new();
    let mut k: usize = 0;
    while k < order.len()
        invariant
            k <= order@.len(),
            is_order_of(order@, files@.len() as int),
            id_offset + files@.len() <= usize::MAX,
            images@.len() == k,
            forall|j: int| 0 <= j < k ==> record_of(#[trigger] images@[j], files@[order@[j] as int], id_offset + j, prefix),
            texts(warnings@) == texts(start) + failure_notes(files@, order@.take(k as int), prefix),
            prefix == match rel_prefix {
                Some(p) => Some(p@),
                None => None::<Seq<char>>,
            },
        decreases order@.len() - k,
    {
        let file = &files[order[k]];
        let local = path_to_posix(file.local_path.as_str());
        let rel_path = match rel_prefix {
            Some(p) => {
                let mut text: Vec<char> = Vec::new();
                push_str_chars(&mut text, p);
                push_str_chars(&mut text, "/");
                push_str_chars(&mut text, local.as_str());
                string_from_chars(&text)
            },
            None => local,
        };
        let ghost before = warnings@;
        let (width, height, readable, error) = match &file.dimensions {
            Ok((w, h)) => (*w, *h, true, None),
            Err(reason) => {
                let mut text: Vec<char> = Vec::new();
                push_str_chars(&mut text, "Failed to read image metadata: ");
                push_str_chars(&mut text, rel_path.as_str());
                push_str_chars(&mut text, ": ");
                push_str_chars(&mut text, reason.as_str());
                warnings.push(string_from_chars(&text));
                (0, 0, false, Some(reason.clone()))
            },
        };
        proof {
            let t = order@.take(k + 1);
            let f = files@[order@[k as int] as int];
            assert(t.drop_last() == order@.take(k as int));
            assert(t.last() == order@[k as int]);
            assert(rel_path@ == listed_path(f, prefix));
            match f.dimensions {
                Ok(_) => {
                    assert(warnings@ == before);
                },
                Err(m) => {
                    assert(warnings@ == before.push(warnings@.last()));
                    assert(warnings@.last()@ == metadata_warning(listed_path(f, prefix), m@));
                    assert(texts(warnings@) =~= texts(before).push(warnings@.last()@));
                },
            }
            assert(texts(warnings@) =~= texts(start) + failure_notes(files@, t, prefix));
        }
        images.push(
            SourceImage {
                id: id_offset + k,
                name: file.name.clone(),
                abs_path: file.abs_path.clone(),
                rel_path,
                width,
                height,
                file_size: file.file_size,
                readable,
                error,
            },
        );
        k += 1;
    }
    proof {
        assert(order@.take(order@.len() as int) == order@);
        assert(texts(warnings@).take(start.len() as int) =~= texts(start));
        assert(texts(warnings@).skip(start.len() as int) =~= failure_notes(files@, order@, prefix));
        assert forall|a: int, b: int|
            0 <= a < b < order@.len() implies !text_less(
                file_key(files@[#[trigger] order@[b] as int]),
                file_key(files@[#[trigger] order@[a] as int]),
            ) by {
            assert(keys@[order@[a] as int]@ == file_key(files@[order@[a] as int]));
            assert(keys@[order@[b] as int]@ == file_key(files@[order@[b] as int]));
        }
        assert forall|a: int, b: int|
            0 <= a < b < order@.len() && file_key(files@[#[trigger] order@[a] as int]) == file_key(
                files@[#[trigger] order@[b] as int],
            ) implies order@[a] < order@[b] by {
            assert(keys@[order@[a] as int]@ == file_key(files@[order@[a] as int]));
            assert(keys@[order@[b] as int]@ == file_key(files@[order@[b] as int]));
        }
        assert(listed(files@, order@, prefix, id_offset as int, images@, texts(warnings@).skip(start.len() as int)));
    }
    images
}

} // verus!

verus! {

// ---------------------------------------------------------------------------
// Labels of several input folders
// ---------------------------------------------------------------------------

/// `char::is_whitespace`: the characters with the Unicode White_Space
/// property.
pub open spec fn white_space(c: char) -> bool {
    ||| '\t' <= c <= '\r'
    ||| c == ' '
    ||| c == '\u{85}'
    ||| c == '\u{A0}'
    ||| c == '\u{1680}'
    ||| '\u{2000}' <= c <= '\u{200A}'
    ||| c == '\u{2028}'
    ||| c == '\u{2029}'
    ||| c == '\u{202F}'
    ||| c == '\u{205F}'
    ||| c == '\u{3000}'
}

/// Nothing but white space (what `str::trim` leaves empty).
pub open spec fn blank(s: Seq<char>) -> bool {
    forall|i: int| 0 <= i < s.len() ==> white_space(#[trigger] s[i])
}

/// Whether the text is nothing but white space.
pub fn is_blank(s: &str) -> (r: bool)
    ensures
        r == blank(s@),
{
    let chars = chars_of(s);
    let mut i: usize = 0;
    while i < chars.len()
        invariant
            i <= chars@.len(),
            chars@ == s@,
            forall|k: int| 0 <= k < i ==> white_space(#[trigger] chars@[k]),
        decreases chars@.len() - i,
    {
        let c = chars[i];
        let white = ('\t' <= c && c <= '\r') || c == ' ' || c == '\u{85}' || c == '\u{A0}' || c == '\u{1680}'
            || ('\u{2000}' <= c && c <= '\u{200A}') || c == '\u{2028}' || c == '\u{2029}' || c == '\u{202F}'
            || c == '\u{205F}' || c == '\u{3000}';
        if !white {
            return false;
        }
        i += 1;
    }
    true
}

/// The label an input folder starts from: its name, or "input" when it has
/// none or only white space.
pub open spec fn base_label(name: Option<Seq<char>>) -> Seq<char> {
    match name {
        Some(n) => if blank(n) {
            "input"@
        } else {
            n
        },
        None => "input"@,
    }
}

/// The `m`-th label tried: the base itself, then `base_2`, `base_3`, ...
pub open spec fn candidate(base: Seq<char>, m: nat) -> Seq<char> {
    if m == 0 {
        base
    } else {
        base + "_"@ + decimal(m + 1)
    }
}

/// The lower-cased labels of the first `i` folders.
pub open spec fn used_labels(labels: Seq<String>, i: int) -> Set<Seq<char>> {
    labels.take(i).map_values(|l: String| ascii_lower_seq(l@)).to_set()
}

/// `label` is the first candidate whose lower-cased form is not in `used`.
pub open spec fn first_free(label: Seq<char>, base: Seq<char>, used: Set<Seq<char>>) -> bool {
    exists|m: nat|
        {
            &&& label == #[trigger] candidate(base, m)
            &&& !used.contains(ascii_lower_seq(candidate(base, m)))
            &&& forall|j: nat| j < m ==> used.contains(ascii_lower_seq(#[trigger] candidate(base, j)))
        }
}

/// Lower-casing keeps the `_` and the digits of a numbered label.
proof fn lemma_lower_numbered(base: Seq<char>, k: nat)
    ensures
        ascii_lower_seq(base + "_"@ + decimal(k)) == ascii_lower_seq(base) + "_"@ + decimal(k),
{
    reveal_strlit("_");
    lemma_decimal_digits(k);
    let s = base + "_"@ + decimal(k);
    assert(ascii_lower_seq(s) =~= ascii_lower_seq(base) + "_"@ + decimal(k));
}

/// The characters of a numeral are digits.
proof fn lemma_decimal_digits(n: nat)
    ensures
        forall|i: int| 0 <= i < decimal(n).len() ==> '0' <= #[trigger] decimal(n)[i] <= '9',
    decreases n,
{
    if n >= 10 {
        lemma_decimal_digits(n / 10);
        assert forall|i: int| 0 <= i < decimal(n).len() implies '0' <= #[trigger] decimal(n)[i] <= '9' by {
            if i < decimal(n).len() - 1 {
                assert(decimal(n)[i] == decimal(n / 10)[i]);
            }
        }
    }
}

/// Numbered candidates differ once lower-cased.
proof fn lemma_candidates_distinct(base: Seq<char>, a: nat, b: nat)
    requires
        1 <= a,
        1 <= b,
        a != b,
    ensures
        ascii_lower_seq(candidate(base, a)) != ascii_lower_seq(candidate(base, b)),
{
    lemma_lower_numbered(base, a + 1);
    lemma_lower_numbered(base, b + 1);
    let p = ascii_lower_seq(base) + "_"@;
    if ascii_lower_seq(candidate(base, a)) == ascii_lower_seq(candidate(base, b)) {
        assert((p + decimal(a + 1)).skip(p.len() as int) =~= decimal(a + 1));
        assert((p + decimal(b + 1)).skip(p.len() as int) =~= decimal(b + 1));
        crate::atlas::text::lemma_decimal_injective(a + 1, b + 1);
    }
}

/// When the candidates `1..m` are all taken, there are at least `m - 1`
/// taken labels.
proof fn lemma_taken_bound(base: Seq<char>, used: Set<Seq<char>>, m: nat)
    requires
        used.finite(),
        m >= 1,
        forall|j: nat| 1 <= j < m ==> used.contains(ascii_lower_seq(#[trigger] candidate(base, j))),
    ensures
        m - 1 <= used.len(),
{
    let f = |j: int| ascii_lower_seq(candidate(base, j as nat));
    let x = vstd::set_lib::set_int_range(1, m as int);
    vstd::set_lib::lemma_int_range(1, m as int);
    assert(vstd::relations::injective_on(f, x)) by {
        assert forall|a: int, b: int| x.contains(a) && x.contains(b) && #[trigger] f(a) == #[trigger] f(b) implies a == b by {
            if a != b {
                lemma_candidates_distinct(base, a as nat, b as nat);
            }
        }
    }
    vstd::set_lib::lemma_map_size(x, x.map(f), f);
    assert(x.map(f).subset_of(used)) by {
        assert forall|v: Seq<char>| x.map(f).contains(v) implies used.contains(v) by {
            let a = choose|a: int| x.contains(a) && f(a) == v;
            assert(used.contains(ascii_lower_seq(candidate(base, a as nat))));
        }
    }
    vstd::set_lib::lemma_len_subset(x.map(f), used);
}

} // verus!

verus! {

/// The optional name as text.
pub open spec fn name_text(name: Option<String>) -> Option<Seq<char>> {
    match name {
        Some(n) => Some(n@),
        None => None,
    }
}

/// The lower-cased texts.
pub open spec fn lowered(labels: Seq<String>) -> Seq<Seq<char>> {
    labels.map_values(|l: String| ascii_lower_seq(l@))
}

/// Whether `key` is among the used keys.
fn key_used(used: &Vec<Vec<char>>, key: &Vec<char>) -> (r: bool)
    ensures
        r == used@.map_values(|u: Vec<char>| u@).contains(key@),
{
    let mut i: usize = 0;
    while i < used.len()
        invariant
            i <= used@.len(),
            forall|k: int| 0 <= k < i ==> (#[trigger] used@[k])@ != key@,
        decreases used@.len() - i,
    {
        if chars_eq(&used[i], key) {
            assert(used@.map_values(|u: Vec<char>| u@)[i as int] == key@);
            return true;
        }
        i += 1;
    }
    proof {
        let views = used@.map_values(|u: Vec<char>| u@);
        if views.contains(key@) {
            let k = choose|k: int| 0 <= k < views.len() && #[trigger] views[k] == key@;
            assert(used@[k]@ != key@);
        }
    }
    false
}

/// A label for each input folder: its name (or "input"), with `_2`, `_3`,
/// ... added until it differs, without regard to ASCII case, from the labels
/// before it.
pub fn unique_root_labels(names: &Vec<Option<String>>) -> (labels: Vec<String>)
    requires
        names@.len() <= usize::MAX - 3,
    ensures
        labels@.len() == names@.len(),
        forall|i: int, j: int|
            0 <= i < j < labels@.len() ==> ascii_lower_seq((#[trigger] labels@[i])@) != ascii_lower_seq(
                (#[trigger] labels@[j])@,
            ),
        forall|i: int|
            0 <= i < labels@.len() ==> first_free(
                (#[trigger] labels@[i])@,
                base_label(name_text(names@[i])),
                used_labels(labels@, i),
            ),
{
    let mut labels: Vec<String> = Vec::new();
    let mut used: Vec<Vec<char>> = Vec::new();
    let mut i: usize = 0;
    while i < names.len()
        invariant
            i <= names@.len(),
            names@.len() <= usize::MAX - 3,
            labels@.len() == i,
            used@.map_values(|u: Vec<char>| u@) == lowered(labels@),
            forall|a: int, b: int|
                0 <= a < b < labels@.len() ==> ascii_lower_seq((#[trigger] labels@[a])@) != ascii_lower_seq(
                    (#[trigger] labels@[b])@,
                ),
            forall|a: int|
                0 <= a < labels@.len() ==> first_free(
                    (#[trigger] labels@[a])@,
                    base_label(name_text(names@[a])),
                    used_labels(labels@, a),
                ),
        decreases names@.len() - i,
    {
        let base: String = match &names[i] {
            Some(n) => if is_blank(n.as_str()) {
                String::from_str("input")
            } else {
                n.clone()
            },
            None => String::from_str("input"),
        };
        let ghost b = base@;
        assert(b == base_label(name_text(names@[i as int])));
        let ghost used_set = used@.map_values(|u: Vec<char>| u@).to_set();
        proof {
            assert(used_set == used_labels(labels@, i as int)) by {
                assert(labels@.take(i as int) == labels@);
            }
            used@.map_values(|u: Vec<char>| u@).lemma_cardinality_of_set();
            vstd::seq_lib::seq_to_set_is_finite(used@.map_values(|u: Vec<char>| u@));
        }
        let mut label = base.clone();
        let mut index: usize = 2;
        let mut key = lower_chars(&chars_of(label.as_str()));
        while key_used(&used, &key)
            invariant
                2 <= index <= used@.len() + 3,
                used@.len() == i,
                i < names@.len() <= usize::MAX - 3,
                used_set == used@.map_values(|u: Vec<char>| u@).to_set(),
                used_set.finite(),
                used_set.len() <= used@.len(),
                b == base@,
                label@ == candidate(b, (index - 2) as nat),
                key@ == ascii_lower_seq(label@),
                forall|j: nat| j < index - 2 ==> used_set.contains(ascii_lower_seq(#[trigger] candidate(b, j))),
            decreases used@.len() + 3 - index,
        {
            proof {
                assert(used_set.contains(ascii_lower_seq(candidate(b, (index - 2) as nat))));
                lemma_taken_bound(b, used_set, (index - 1) as nat);
            }
            let mut text: Vec<char> = Vec::new();
            push_str_chars(&mut text, base.as_str());
            push_str_chars(&mut text, "_");
            push_decimal(&mut text, index as u64);
            label = string_from_chars(&text);
            index += 1;
            key = lower_chars(&chars_of(label.as_str()));
        }
        let ghost before = labels@;
        let ghost old_used = used@;
        proof {
            let m = (index - 2) as nat;
            assert(!used_set.contains(ascii_lower_seq(candidate(b, m))));
            assert(first_free(label@, b, used_set));
        }
        used.push(key);
        labels.push(label);
        proof {
            assert(labels@.take(i as int) == before);
            assert(used@ == old_used.push(key));
            assert(labels@ == before.push(label));
            assert(old_used.map_values(|u: Vec<char>| u@) == lowered(before));
            assert(used@.map_values(|u: Vec<char>| u@) =~= lowered(labels@)) by {
                assert forall|k: int| 0 <= k < used@.len() implies used@.map_values(|u: Vec<char>| u@)[k] == lowered(labels@)[k] by {
                    if k < i {
                        assert(used@[k] == old_used[k]);
                        assert(labels@[k] == before[k]);
                        assert(old_used.map_values(|u: Vec<char>| u@)[k] == lowered(before)[k]);
                    }
                }
            }
            assert forall|a: int| 0 <= a < labels@.len() implies first_free(
                (#[trigger] labels@[a])@,
                base_label(name_text(names@[a])),
                used_labels(labels@, a),
            ) by {
                if a < i {
                    assert(labels@[a] == before[a]);
                    assert(labels@.take(a) == before.take(a));
                }
            }
            assert forall|x: int, y: int| 0 <= x < y < labels@.len() implies ascii_lower_seq((#[trigger] labels@[x])@)
                != ascii_lower_seq((#[trigger] labels@[y])@) by {
                if y == i {
                    assert(lowered(before)[x] == ascii_lower_seq(before[x]@));
                    assert(used_set.contains(lowered(before)[x]));
                } else {
                    assert(labels@[x] == before[x]);
                    assert(labels@[y] == before[y]);
                }
            }
        }
        i += 1;
    }
    labels
}

// ---------------------------------------------------------------------------
// Input folders
// ---------------------------------------------------------------------------

/// The key by which two input folders count as the same directory: the path
/// with forward slashes, ASCII lower-cased.
pub open spec fn directory_key(path: Seq<char>) -> Seq<char> {
    ascii_lower_seq(posix_form(path))
}

/// The keys of a list of paths.
pub open spec fn directory_keys(paths: Seq<Seq<char>>) -> Seq<Seq<char>> {
    paths.map_values(|p: Seq<char>| directory_key(p))
}

/// The input folders that are kept, in their order: each non-empty path
/// whose key no path kept before it has.
pub open spec fn kept_directories(paths: Seq<Seq<char>>) -> Seq<Seq<char>>
    decreases paths.len(),
{
    if paths.len() == 0 {
        Seq::empty()
    } else {
        let kept = kept_directories(paths.drop_last());
        let p = paths.last();
        if p.len() == 0 || directory_keys(kept).contains(directory_key(p)) {
            kept
        } else {
            kept.push(p)
        }
    }
}

/// The texts of a list of strings.
pub open spec fn string_texts(v: Seq<String>) -> Seq<Seq<char>> {
    v.map_values(|s: String| s@)
}

/// No two kept folders share a key, and every non-empty path given has the
/// key of a kept folder.
pub proof fn lemma_kept_directories(paths: Seq<Seq<char>>)
    ensures
        forall|i: int, j: int|
            0 <= i < j < kept_directories(paths).len() ==> directory_key(#[trigger] kept_directories(paths)[i])
                != directory_key(#[trigger] kept_directories(paths)[j]),
        forall|k: int|
            0 <= k < paths.len() && paths[k].len() > 0 ==> directory_keys(kept_directories(paths)).contains(
                directory_key(#[trigger] paths[k]),
            ),
        forall|i: int|
            0 <= i < kept_directories(paths).len() ==> (#[trigger] kept_directories(paths)[i]).len() > 0,
    decreases paths.len(),
{
    if paths.len() > 0 {
        let rest = paths.drop_last();
        lemma_kept_directories(rest);
        let kept = kept_directories(rest);
        let p = paths.last();
        if !(p.len() == 0 || directory_keys(kept).contains(directory_key(p))) {
            let now = kept.push(p);
            assert(directory_keys(now) == directory_keys(kept).push(directory_key(p)));
            assert forall|i: int, j: int| 0 <= i < j < now.len() implies directory_key(#[trigger] now[i])
                != directory_key(#[trigger] now[j]) by {
                if j == now.len() - 1 {
                    assert(directory_keys(kept)[i] == directory_key(kept[i]));
                }
            }
            assert forall|k: int| 0 <= k < paths.len() && paths[k].len() > 0 implies directory_keys(now).contains(
                directory_key(#[trigger] paths[k]),
            ) by {
                if k < paths.len() - 1 {
                    assert(rest[k] == paths[k]);
                    let w = choose|w: int| 0 <= w < directory_keys(kept).len() && directory_keys(kept)[w] == directory_key(rest[k]);
                    assert(directory_keys(now)[w] == directory_keys(kept)[w]);
                } else {
                    assert(directory_keys(now)[now.len() - 1] == directory_key(p));
                }
            }
        } else {
            assert forall|k: int| 0 <= k < paths.len() && paths[k].len() > 0 implies directory_keys(kept).contains(
                directory_key(#[trigger] paths[k]),
            ) by {
                if k < paths.len() - 1 {
                    assert(rest[k] == paths[k]);
                }
            }
        }
    }
}

proof fn lemma_no_directories_kept(paths: Seq<Seq<char>>)
    requires
        forall|k: int| 0 <= k < paths.len() ==> (#[trigger] paths[k]).len() == 0,
    ensures
        kept_directories(paths) == Seq::<Seq<char>>::empty(),
    decreases paths.len(),
{
    if paths.len() > 0 {
        let rest = paths.drop_last();
        assert forall|k: int| 0 <= k < rest.len() implies (#[trigger] rest[k]).len() == 0 by {
            assert(rest[k] == paths[k]);
        }
        lemma_no_directories_kept(rest);
        assert(paths.last() == paths[paths.len() - 1]);
    }
}

/// Input folders whose non-empty paths all name one directory keep only the
/// first of them: the scan is then that of one folder.
pub proof fn lemma_one_directory_kept(paths: Seq<Seq<char>>, first: int)
    requires
        0 <= first < paths.len(),
        paths[first].len() > 0,
        forall|j: int| 0 <= j < first ==> (#[trigger] paths[j]).len() == 0,
        forall|k: int|
            0 <= k < paths.len() && (#[trigger] paths[k]).len() > 0 ==> directory_key(paths[k])
                == directory_key(paths[first]),
    ensures
        kept_directories(paths) == seq![paths[first]],
    decreases paths.len(),
{
    let rest = paths.drop_last();
    let p = paths.last();
    assert(p == paths[paths.len() - 1]);
    if first == paths.len() - 1 {
        assert forall|k: int| 0 <= k < rest.len() implies (#[trigger] rest[k]).len() == 0 by {
            assert(rest[k] == paths[k]);
        }
        lemma_no_directories_kept(rest);
        assert(directory_keys(Seq::<Seq<char>>::empty()) == Seq::<Seq<char>>::empty());
    } else {
        assert(rest[first] == paths[first]);
        assert forall|j: int| 0 <= j < first implies (#[trigger] rest[j]).len() == 0 by {
            assert(rest[j] == paths[j]);
        }
        assert forall|k: int|
            0 <= k < rest.len() && (#[trigger] rest[k]).len() > 0 implies directory_key(rest[k])
                == directory_key(rest[first]) by {
            assert(rest[k] == paths[k]);
        }
        lemma_one_directory_kept(rest, first);
        if p.len() > 0 {
            let kept = seq![paths[first]];
            assert(directory_keys(kept)[0] == directory_key(paths[first]));
            assert(directory_keys(kept).contains(directory_key(p)));
        }
    }
}

/// The ASCII lower-cased, forward-slash key of a path.
fn directory_key_of(path: &str) -> (key: Vec<char>)
    ensures
        key@ == directory_key(path@),
{
    let posix = path_to_posix(path);
    lower_chars(&chars_of(posix.as_str()))
}

/// Keeps the first of the input folders that name the same directory, in
/// their order, skipping empty paths; the paths come resolved (canonical).
/// Fails with "Choose at least one input directory." when none is left.
/// No two folders kept share a key, and every non-empty path given has the
/// key of a folder kept.
pub fn collect_unique_input_directories(paths: &Vec<String>) -> (r: Result<Vec<String>, String>)
    ensures
        match r {
            Ok(kept) => {
                &&& string_texts(kept@) == kept_directories(string_texts(paths@))
                &&& kept@.len() > 0
                &&& forall|i: int, j: int|
                    0 <= i < j < kept@.len() ==> directory_key(#[trigger] kept@[i]@) != directory_key(
                        #[trigger] kept@[j]@,
                    )
                &&& forall|k: int|
                    0 <= k < paths@.len() && paths@[k]@.len() > 0 ==> directory_keys(string_texts(kept@)).contains(
                        directory_key(#[trigger] paths@[k]@),
                    )
            },
            Err(e) => {
                &&& kept_directories(string_texts(paths@)).len() == 0
                &&& e@ == "Choose at least one input directory."@
            },
        },
{
    let mut kept: Vec<String> = Vec::new();
    let mut keys: Vec<Vec<char>> = Vec::new();
    let mut i: usize = 0;
    while i < paths.len()
        invariant
            i <= paths.len(),
            string_texts(kept@) == kept_directories(string_texts(paths@).take(i as int)),
            keys@.len() == kept@.len(),
            forall|k: int| 0 <= k < keys@.len() ==> (#[trigger] keys@[k])@ == directory_key(kept@[k]@),
        decreases paths.len() - i,
    {
        let ghost before = string_texts(paths@).take(i as int);
        let ghost now = string_texts(paths@).take(i + 1);
        assert(now.drop_last() == before);
        assert(now.last() == paths@[i as int]@);
        let p = paths[i].as_str();
        let chars = chars_of(p);
        if chars.len() > 0 {
            let key = directory_key_of(p);
            let mut found = false;
            let mut j: usize = 0;
            while j < keys.len()
                invariant
                    j <= keys@.len(),
                    found == exists|w: int| 0 <= w < j && (#[trigger] keys@[w])@ == key@,
                decreases keys@.len() - j,
            {
                if chars_eq(&keys[j], &key) {
                    found = true;
                }
                j += 1;
            }
            proof {
                let dk = directory_keys(kept_directories(before));
                assert(dk.len() == keys@.len());
                assert forall|w: int| 0 <= w < keys@.len() implies dk[w] == (#[trigger] keys@[w])@ by {
                    assert(kept_directories(before)[w] == string_texts(kept@)[w]);
                }
                if found {
                    let w = choose|w: int| 0 <= w < keys@.len() && (#[trigger] keys@[w])@ == key@;
                    assert(dk[w] == directory_key(now.last()));
                } else {
                    assert(key@ == directory_key(now.last()));
                    if dk.contains(directory_key(now.last())) {
                        let w = choose|w: int| 0 <= w < dk.len() && dk[w] == directory_key(now.last());
                        assert((keys@[w])@ == key@);
                    }
                }
            }
            if !found {
                let ghost prev = kept@;
                kept.push(paths[i].clone());
                keys.push(key);
                assert(string_texts(kept@) == string_texts(prev).push(paths@[i as int]@));
            }
        }
        i += 1;
    }
    assert(string_texts(paths@).take(paths.len() as int) == string_texts(paths@));
    proof {
        lemma_kept_directories(string_texts(paths@));
        let kd = kept_directories(string_texts(paths@));
        assert forall|k: int| 0 <= k < paths@.len() && paths@[k]@.len() > 0 implies directory_keys(
            string_texts(kept@),
        ).contains(directory_key(#[trigger] paths@[k]@)) by {
            assert(string_texts(paths@)[k] == paths@[k]@);
        }
        assert forall|a: int, b: int| 0 <= a < b < kept@.len() implies directory_key(#[trigger] kept@[a]@)
            != directory_key(#[trigger] kept@[b]@) by {
            assert(kd[a] == kept@[a]@);
            assert(kd[b] == kept@[b]@);
        }
    }
    if kept.len() == 0 {
        let e = "Choose at least one input directory.";
        Err(e.to_string())
    } else {
        Ok(kept)
    }
}

} // verus!

verus! {

// ---------------------------------------------------------------------------
// Scans
// ---------------------------------------------------------------------------

/// What a scan of one input folder found: the records of its image files,
/// the warnings, and the folder tree named `root_name`.
pub open spec fn scanned(files: Seq<FoundFile>, root_name: Seq<char>, r: ScanResult) -> bool {
    &&& r.total_images == r.images@.len()
    &&& exists|order: Seq<usize>| #[trigger] listed(files, order, None, 0, r.images@, texts(r.warnings@))
    &&& r.root.name@ == root_name
    &&& r.root.path@ == Seq::<char>::empty()
    &&& is_dir_node(r.root)
    &&& paths(r.root) == image_tree_paths(r.images@)
    &&& counted(r.root)
    &&& arranged(r.root)
    &&& exists|t: FileTreeNode| #[trigger] grown(t, root_name, r.images@) && sorted_from(r.root, t)
}

/// The scan of one input folder whose image files were found as `files`.
pub fn scan_folder(root_name: String, files: &Vec<FoundFile>) -> (r: ScanResult)
    ensures
        scanned(files@, root_name@, r),
{
    let mut warnings: Vec<String> = Vec::new();
    let count = files.len();
    let images = build_source_images(files, None, 0, &mut warnings);
    proof {
        assert(texts(warnings@).skip(0) == texts(warnings@));
        let order = choose|order: Seq<usize>|
            #[trigger] listed(files@, order, prefix_text(None), 0, images@, texts(warnings@).skip(0));
        assert(listed(files@, order, None, 0, images@, texts(warnings@)));
    }
    let ghost name = root_name@;
    let root = build_file_tree(root_name, images.as_slice());
    let r = ScanResult { total_images: images.len(), root, images, warnings };
    proof {
        let order = choose|order: Seq<usize>| #[trigger] listed(files@, order, None, 0, r.images@, texts(r.warnings@));
        assert(listed(files@, order, None, 0, r.images@, texts(r.warnings@)));
        assert(r.root.name@ == name);
    }
    r
}

/// One input folder of a scan of several: its name (if the path has one),
/// the name of its tree when it is the only one, and its image files.
pub struct ScannedRoot {
    pub name: Option<String>,
    pub title: String,
    pub files: Vec<FoundFile>,
}

/// The number of image files of the folders.
pub open spec fn files_total(roots: Seq<ScannedRoot>) -> int
    decreases roots.len(),
{
    if roots.len() == 0 {
        0
    } else {
        files_total(roots.drop_last()) + roots.last().files@.len()
    }
}

/// The first `n` folders are listed, in turn, under their labels.
pub open spec fn roots_listed(
    roots: Seq<ScannedRoot>,
    labels: Seq<String>,
    n: nat,
    images: Seq<SourceImage>,
    warnings: Seq<Seq<char>>,
) -> bool
    decreases n,
{
    if n == 0 {
        images.len() == 0 && warnings.len() == 0
    } else {
        exists|m: int, w: int, order: Seq<usize>|
            {
                &&& 0 <= m <= images.len()
                &&& 0 <= w <= warnings.len()
                &&& roots_listed(roots, labels, (n - 1) as nat, images.take(m), warnings.take(w))
                &&& #[trigger] listed(
                    roots[n - 1].files@,
                    order,
                    Some(labels[n - 1]@),
                    m,
                    images.skip(m),
                    warnings.skip(w),
                )
            }
    }
}

/// What a scan of the input folders gives: one folder is scanned on its
/// own; otherwise each gets a label told apart from the others', its files
/// are listed under it with ids counted on, and the tree is "Input Folders".
pub open spec fn folders_scanned(roots: Seq<ScannedRoot>, r: ScanResult) -> bool {
    &&& roots.len() == 1 ==> scanned(roots[0].files@, roots[0].title@, r)
    &&& roots.len() > 1 ==> {
        &&& r.total_images == r.images@.len()
        &&& forall|k: int| 0 <= k < r.images@.len() ==> (#[trigger] r.images@[k]).id == k
        &&& exists|labels: Seq<String>|
            {
                &&& labels.len() == roots.len()
                &&& forall|i: int, j: int|
                    0 <= i < j < labels.len() ==> ascii_lower_seq((#[trigger] labels[i])@) != ascii_lower_seq(
                        (#[trigger] labels[j])@,
                    )
                &&& forall|i: int|
                    0 <= i < labels.len() ==> first_free(
                        (#[trigger] labels[i])@,
                        base_label(name_text(roots[i].name)),
                        used_labels(labels, i),
                    )
                &&& #[trigger] roots_listed(roots, labels, roots.len(), r.images@, texts(r.warnings@))
            }
        &&& r.root.name@ == "Input Folders"@
        &&& is_dir_node(r.root)
        &&& paths(r.root) == image_tree_paths(r.images@)
        &&& counted(r.root)
        &&& arranged(r.root)
        &&& exists|t: FileTreeNode| #[trigger] grown(t, "Input Folders"@, r.images@) && sorted_from(r.root, t)
    }
}

/// The scan of the input folders, one per folder kept.
pub fn scan_folders(roots: &Vec<ScannedRoot>) -> (r: ScanResult)
    requires
        roots@.len() >= 1,
        roots@.len() <= usize::MAX - 3,
        files_total(roots@) <= usize::MAX,
    ensures
        folders_scanned(roots@, r),
{
    if roots.len() == 1 {
        return scan_folder(roots[0].title.clone(), &roots[0].files);
    }
    let mut names: Vec<Option<String>> = Vec::new();
    let mut i: usize = 0;
    while i < roots.len()
        invariant
            i <= roots@.len(),
            names@.len() == i,
            forall|k: int| 0 <= k < i ==> name_text(#[trigger] names@[k]) == name_text(roots@[k].name),
        decreases roots@.len() - i,
    {
        let name = match &roots[i].name {
            Some(n) => Some(n.clone()),
            None => None,
        };
        names.push(name);
        i += 1;
    }
    let labels = unique_root_labels(&names);
    let mut images: Vec<SourceImage> = Vec::new();
    let mut warnings: Vec<String> = Vec::new();
    let mut k: usize = 0;
    while k < roots.len()
        invariant
            k <= roots@.len(),
            labels@.len() == roots@.len(),
            files_total(roots@) <= usize::MAX,
            images@.len() == files_total(roots@.take(k as int)),
            forall|j: int| 0 <= j < images@.len() ==> (#[trigger] images@[j]).id == j,
            roots_listed(roots@, labels@, k as nat, images@, texts(warnings@)),
        decreases roots@.len() - k,
    {
        let ghost before = images@;
        let ghost before_warnings = texts(warnings@);
        proof {
            assert(roots@.take(k + 1).drop_last() == roots@.take(k as int));
            lemma_files_total_prefix(roots@, k + 1);
        }
        let mut listed_images = build_source_images(&roots[k].files, Some(labels[k].as_str()), images.len(), &mut warnings);
        let ghost added = listed_images@;
        images.append(&mut listed_images);
        proof {
            let order = choose|order: Seq<usize>|
                #[trigger] listed(
                    roots@[k as int].files@,
                    order,
                    Some(labels@[k as int]@),
                    before.len() as int,
                    added,
                    texts(warnings@).skip(before_warnings.len() as int),
                );
            assert(images@.take(before.len() as int) == before);
            assert(images@.skip(before.len() as int) == added);
            assert(texts(warnings@).take(before_warnings.len() as int) == before_warnings);
            assert(listed(
                roots@[k as int].files@,
                order,
                Some(labels@[k as int]@),
                before.len() as int,
                images@.skip(before.len() as int),
                texts(warnings@).skip(before_warnings.len() as int),
            ));
            assert(roots_listed(
                roots@,
                labels@,
                k as nat,
                images@.take(before.len() as int),
                texts(warnings@).take(before_warnings.len() as int),
            ));
            lemma_roots_listed_step(
                roots@,
                labels@,
                k as nat,
                images@,
                texts(warnings@),
                before.len() as int,
                before_warnings.len() as int,
                order,
            );
            assert forall|j: int| 0 <= j < images@.len() implies (#[trigger] images@[j]).id == j by {
                if j >= before.len() {
                    assert(images@[j] == added[j - before.len()]);
                    assert(record_of(added[j - before.len()], roots@[k as int].files@[order[j - before.len()] as int], before.len() + (j - before.len()), Some(labels@[k as int]@)));
                }
            }
        }
        k += 1;
    }
    proof {
        assert(roots@.take(roots@.len() as int) == roots@);
        assert forall|i: int| 0 <= i < labels@.len() implies first_free(
            (#[trigger] labels@[i])@,
            base_label(name_text(roots@[i].name)),
            used_labels(labels@, i),
        ) by {
            assert(name_text(names@[i]) == name_text(roots@[i].name));
        }
    }
    let root = build_file_tree(String::from_str("Input Folders"), images.as_slice());
    let r = ScanResult { total_images: images.len(), root, images, warnings };
    proof {
        assert(roots_listed(roots@, labels@, roots@.len(), r.images@, texts(r.warnings@)));
    }
    r
}

proof fn lemma_roots_listed_step(
    roots: Seq<ScannedRoot>,
    labels: Seq<String>,
    k: nat,
    images: Seq<SourceImage>,
    warnings: Seq<Seq<char>>,
    m: int,
    w: int,
    order: Seq<usize>,
)
    requires
        k < roots.len(),
        0 <= m <= images.len(),
        0 <= w <= warnings.len(),
        roots_listed(roots, labels, k, images.take(m), warnings.take(w)),
        listed(roots[k as int].files@, order, Some(labels[k as int]@), m, images.skip(m), warnings.skip(w)),
    ensures
        roots_listed(roots, labels, k + 1, images, warnings),
{
    assert(((k + 1) - 1) as nat == k);
}

proof fn lemma_files_total_prefix(roots: Seq<ScannedRoot>, n: int)
    requires
        0 <= n <= roots.len(),
    ensures
        files_total(roots.take(n)) <= files_total(roots),
    decreases roots.len(),
{
    if roots.len() > 0 {
        if n == roots.len() {
            assert(roots.take(n) == roots);
        } else {
            assert(roots.drop_last().take(n) == roots.take(n));
            lemma_files_total_prefix(roots.drop_last(), n);
        }
    }
}

/// Input paths whose non-empty entries all name one directory scan as that
/// directory alone: only the first non-empty path is kept, and what a scan
/// of the one folder found there gives is exactly what a scan of that folder
/// on its own gives.
pub proof fn lemma_duplicate_folders_scan_as_one(
    paths: Seq<Seq<char>>,
    first: int,
    roots: Seq<ScannedRoot>,
    r: ScanResult,
)
    requires
        0 <= first < paths.len(),
        paths[first].len() > 0,
        forall|j: int| 0 <= j < first ==> (#[trigger] paths[j]).len() == 0,
        forall|k: int|
            0 <= k < paths.len() && (#[trigger] paths[k]).len() > 0 ==> directory_key(paths[k])
                == directory_key(paths[first]),
        roots.len() == kept_directories(paths).len(),
    ensures
        kept_directories(paths) == seq![paths[first]],
        roots.len() == 1,
        folders_scanned(roots, r) <==> scanned(roots[0].files@, roots[0].title@, r),
{
    lemma_one_directory_kept(paths, first);
}

} // verus!

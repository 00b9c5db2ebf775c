//! The palettes that ship with the editor, grouped by the folder they sit in.
//!
//! Each resource is a path (bytes of a '/'-separated relative path) and its
//! contents. Only `.pal` files (any letter case) of at least 768 bytes become
//! palettes; a palette is named by its file stem and filed under the part of
//! its path before the last '/'.
use vstd::prelude::*;

use crate::image_io::{ascii_lower, to_ascii_lower};
use crate::palette::{is_grayscale, lemma_pal_entries_roundtrip, spec_pal_bytes, Palette};

verus! {

/// The `.pal` files bundled with the editor.
pub struct EmbeddedPalettes;

/// A group of palettes as plain values: the folder, then each palette's name
/// and its 768 bytes.
pub type GroupModel = (Seq<u8>, Seq<(Seq<u8>, Seq<u8>)>);

/// Byte-wise lexicographic order (a proper prefix comes first).
pub open spec fn bytes_less(a: Seq<u8>, b: Seq<u8>) -> bool
    decreases a.len(),
{
    if b.len() == 0 {
        false
    } else if a.len() == 0 {
        true
    } else if a[0] != b[0] {
        a[0] < b[0]
    } else {
        bytes_less(a.drop_first(), b.drop_first())
    }
}

/// The path ends in ".pal", in any letter case.
pub open spec fn has_pal_suffix(p: Seq<u8>) -> bool {
    &&& p.len() >= 4
    &&& ascii_lower(p[p.len() - 4]) == 46
    &&& ascii_lower(p[p.len() - 3]) == 112
    &&& ascii_lower(p[p.len() - 2]) == 97
    &&& ascii_lower(p[p.len() - 1]) == 108
}

/// Index of the last '/' in the path, or -1.
pub open spec fn slash_pos(p: Seq<u8>) -> int
    decreases p.len(),
{
    if p.len() == 0 {
        -1
    } else if p.last() == 47 {
        p.len() - 1
    } else {
        slash_pos(p.drop_last())
    }
}

/// The folder of a path: everything before its last '/' (empty without one).
pub open spec fn folder_of(p: Seq<u8>) -> Seq<u8> {
    if slash_pos(p) < 0 {
        Seq::empty()
    } else {
        p.subrange(0, slash_pos(p))
    }
}

/// The stem of a `.pal` path: its file name without the ".pal", except for a
/// file name that is only ".pal", which is its own stem.
pub open spec fn stem_of(p: Seq<u8>) -> Seq<u8> {
    let start = slash_pos(p) + 1;
    if p.len() - start == 4 {
        p.subrange(start, p.len() as int)
    } else {
        p.subrange(start, p.len() - 4)
    }
}

/// The resources as plain values.
pub open spec fn files_view(files: Seq<(Vec<u8>, Vec<u8>)>) -> Seq<(Seq<u8>, Seq<u8>)> {
    files.map_values(|f: (Vec<u8>, Vec<u8>)| (f.0@, f.1@))
}

/// The palettes among the resources, in their order: folder, stem and the
/// 768 bytes read.
pub open spec fn pal_files(fs: Seq<(Seq<u8>, Seq<u8>)>) -> Seq<(Seq<u8>, Seq<u8>, Seq<u8>)>
    decreases fs.len(),
{
    if fs.len() == 0 {
        Seq::empty()
    } else {
        let rest = pal_files(fs.drop_last());
        let p = fs.last().0;
        let d = fs.last().1;
        if has_pal_suffix(p) && d.len() >= 768 {
            rest.push((folder_of(p), stem_of(p), d.take(768)))
        } else {
            rest
        }
    }
}

/// The palettes (name and bytes) filed under `folder`, in their order.
pub open spec fn group_items(es: Seq<(Seq<u8>, Seq<u8>, Seq<u8>)>, folder: Seq<u8>) -> Seq<
    (Seq<u8>, Seq<u8>),
>
    decreases es.len(),
{
    if es.len() == 0 {
        Seq::empty()
    } else {
        let rest = group_items(es.drop_last(), folder);
        if es.last().0 == folder {
            rest.push((es.last().1, es.last().2))
        } else {
            rest
        }
    }
}

/// A list of named palettes as plain values.
pub open spec fn items_view(items: Seq<(Vec<u8>, Palette)>) -> Seq<(Seq<u8>, Seq<u8>)> {
    items.map_values(|it: (Vec<u8>, Palette)| (it.0@, spec_pal_bytes(it.1)))
}

/// Groups of palettes as plain values.
pub open spec fn groups_view(g: Seq<(Vec<u8>, Vec<(Vec<u8>, Palette)>)>) -> Seq<GroupModel> {
    g.map_values(|e: (Vec<u8>, Vec<(Vec<u8>, Palette)>)| (e.0@, items_view(e.1@)))
}

/// The groups are exactly the folders of `es`, in byte order, each with its
/// palettes in the order they came.
pub open spec fn is_grouping(gv: Seq<GroupModel>, es: Seq<(Seq<u8>, Seq<u8>, Seq<u8>)>) -> bool {
    &&& forall|i: int, j: int|
        0 <= i < j < gv.len() ==> #[trigger] bytes_less(gv[i].0, gv[j].0)
    &&& forall|i: int|
        0 <= i < gv.len() ==> #[trigger] gv[i].1 == group_items(es, gv[i].0) && gv[i].1.len() > 0
    &&& forall|k: int|
        0 <= k < es.len() ==> exists|i: int| 0 <= i < gv.len() && #[trigger] gv[i].0 == #[trigger] es[k].0
}

/// All palettes of the groups, group after group.
pub open spec fn flatten_groups(gv: Seq<GroupModel>) -> Seq<(Seq<u8>, Seq<u8>)>
    decreases gv.len(),
{
    if gv.len() == 0 {
        Seq::empty()
    } else {
        flatten_groups(gv.drop_last()) + gv.last().1
    }
}

/// The ASCII bytes of "Grayscale".
pub open spec fn grayscale_name() -> Seq<u8> {
    seq![71u8, 114u8, 97u8, 121u8, 115u8, 99u8, 97u8, 108u8, 101u8]
}

proof fn lemma_less_irreflexive(a: Seq<u8>)
    ensures
        !bytes_less(a, a),
    decreases a.len(),
{
    if a.len() > 0 {
        lemma_less_irreflexive(a.drop_first());
    }
}

proof fn lemma_less_transitive(a: Seq<u8>, b: Seq<u8>, c: Seq<u8>)
    requires
        bytes_less(a, b),
        bytes_less(b, c),
    ensures
        bytes_less(a, c),
    decreases a.len(),
{
    if a.len() > 0 && a[0] == b[0] && b[0] == c[0] {
        lemma_less_transitive(a.drop_first(), b.drop_first(), c.drop_first());
    }
}

proof fn lemma_less_total(a: Seq<u8>, b: Seq<u8>)
    requires
        !bytes_less(a, b),
        !bytes_less(b, a),
    ensures
        a == b,
    decreases a.len(),
{
    if a.len() > 0 && b.len() > 0 {
        lemma_less_total(a.drop_first(), b.drop_first());
        assert(a =~= seq![a[0]] + a.drop_first());
        assert(b =~= seq![b[0]] + b.drop_first());
    } else {
        assert(a =~= b);
    }
}

proof fn lemma_slash_pos(p: Seq<u8>)
    ensures
        -1 <= slash_pos(p) < p.len(),
        slash_pos(p) >= 0 ==> p[slash_pos(p)] == 47,
        forall|j: int| slash_pos(p) < j < p.len() ==> p[j] != 47,
    decreases p.len(),
{
    if p.len() > 0 && p.last() != 47 {
        lemma_slash_pos(p.drop_last());
        assert forall|j: int| slash_pos(p) < j < p.len() implies p[j] != 47 by {
            if j < p.len() - 1 {
                assert(p.drop_last()[j] == p[j]);
            }
        }
    }
}

/// A palette path's last '/' comes before its ".pal".
proof fn lemma_pal_slash(p: Seq<u8>)
    requires
        has_pal_suffix(p),
    ensures
        -1 <= slash_pos(p) < p.len() - 4,
{
    lemma_slash_pos(p);
    if slash_pos(p) >= p.len() - 4 {
        let j = slash_pos(p);
        assert(p[j] == 47);
        assert(ascii_lower(p[j]) == 47);
    }
}

/// A folder with a palette filed under it is the folder of some palette.
proof fn lemma_group_items_source(es: Seq<(Seq<u8>, Seq<u8>, Seq<u8>)>, folder: Seq<u8>)
    requires
        group_items(es, folder).len() > 0,
    ensures
        exists|k: int| 0 <= k < es.len() && #[trigger] es[k].0 == folder,
    decreases es.len(),
{
    if es.last().0 != folder {
        lemma_group_items_source(es.drop_last(), folder);
        let k = choose|k: int| 0 <= k < es.drop_last().len() && #[trigger] es.drop_last()[k].0 == folder;
        assert(es[k].0 == folder);
    } else {
        assert(es[es.len() - 1].0 == folder);
    }
}

proof fn lemma_flatten_push(gv: Seq<GroupModel>, g: GroupModel)
    ensures
        flatten_groups(gv.push(g)) == flatten_groups(gv) + g.1,
{
    assert(gv.push(g).drop_last() =~= gv);
}

/// Whether `a` comes before `b` in byte order.
fn less_bytes(a: &Vec<u8>, b: &Vec<u8>) -> (r: bool)
    ensures
        r == bytes_less(a@, b@),
{
    let mut i: usize = 0;
    assert(a@.skip(0) =~= a@);
    assert(b@.skip(0) =~= b@);
    loop
        invariant
            i <= a@.len(),
            i <= b@.len(),
            bytes_less(a@, b@) == bytes_less(a@.skip(i as int), b@.skip(i as int)),
        decreases a@.len() - i,
    {
        if i == b.len() {
            return false;
        }
        if i == a.len() {
            return true;
        }
        if a[i] != b[i] {
            return a[i] < b[i];
        }
        assert(a@.skip(i as int).drop_first() =~= a@.skip(i as int + 1));
        assert(b@.skip(i as int).drop_first() =~= b@.skip(i as int + 1));
        i = i + 1;
    }
}

/// Whether the path ends in ".pal", in any letter case.
fn ends_with_pal(p: &Vec<u8>) -> (r: bool)
    ensures
        r == has_pal_suffix(p@),
{
    let n = p.len();
    if n < 4 {
        return false;
    }
    to_ascii_lower(p[n - 4]) == 46 && to_ascii_lower(p[n - 3]) == 112 && to_ascii_lower(p[n - 2])
        == 97 && to_ascii_lower(p[n - 1]) == 108
}

/// One past the index of the last '/' (0 without one).
fn name_start(p: &Vec<u8>) -> (s: usize)
    ensures
        s == slash_pos(p@) + 1,
{
    let mut i: usize = p.len();
    assert(p@.take(i as int) =~= p@);
    while i > 0
        invariant
            i <= p@.len(),
            slash_pos(p@) == slash_pos(p@.take(i as int)),
        decreases i,
    {
        assert(p@.take(i as int).drop_last() =~= p@.take(i - 1));
        if p[i - 1] == 47 {
            return i;
        }
        i = i - 1;
    }
    i
}

/// The bytes `src[lo..hi]`.
fn copy_range(src: &Vec<u8>, lo: usize, hi: usize) -> (out: Vec<u8>)
    requires
        lo <= hi <= src@.len(),
    ensures
        out@ == src@.subrange(lo as int, hi as int),
{
    let mut out: Vec<u8> = Vec::new();
    let mut i: usize = lo;
    while i < hi
        invariant
            lo <= i <= hi,
            hi <= src@.len(),
            out@ == src@.subrange(lo as int, i as int),
        decreases hi - i,
    {
        out.push(src[i]);
        assert(out@ =~= src@.subrange(lo as int, i + 1));
        i = i + 1;
    }
    out
}

/// Filing one more palette under a folder that already has a group.
proof fn lemma_grouping_extend(
    gv: Seq<GroupModel>,
    es: Seq<(Seq<u8>, Seq<u8>, Seq<u8>)>,
    e: (Seq<u8>, Seq<u8>, Seq<u8>),
    i: int,
)
    requires
        is_grouping(gv, es),
        0 <= i < gv.len(),
        gv[i].0 == e.0,
    ensures
        is_grouping(gv.update(i, (gv[i].0, gv[i].1.push((e.1, e.2)))), es.push(e)),
{
    let gv2 = gv.update(i, (gv[i].0, gv[i].1.push((e.1, e.2))));
    let es2 = es.push(e);
    assert(es2.drop_last() =~= es);
    assert forall|a: int, b: int| 0 <= a < b < gv2.len() implies #[trigger] bytes_less(
        gv2[a].0,
        gv2[b].0,
    ) by {
        assert(bytes_less(gv[a].0, gv[b].0));
    }
    assert forall|j: int| 0 <= j < gv2.len() implies #[trigger] gv2[j].1 == group_items(
        es2,
        gv2[j].0,
    ) && gv2[j].1.len() > 0 by {
        if j != i {
            lemma_less_irreflexive(gv[i].0);
            if j < i {
                assert(bytes_less(gv[j].0, gv[i].0));
            } else {
                assert(bytes_less(gv[i].0, gv[j].0));
            }
            assert(gv[j].0 != e.0);
        }
    }
    assert forall|k: int| 0 <= k < es2.len() implies exists|m: int|
        0 <= m < gv2.len() && #[trigger] gv2[m].0 == #[trigger] es2[k].0 by {
        if k < es.len() {
            let m = choose|m: int| 0 <= m < gv.len() && #[trigger] gv[m].0 == es[k].0;
            assert(gv2[m].0 == es2[k].0);
        } else {
            assert(gv2[i].0 == es2[k].0);
        }
    }
}

/// No group holds the folder of a palette that sorts between the groups
/// before `i` and the groups from `i` on.
proof fn lemma_folder_absent(
    gv: Seq<GroupModel>,
    es: Seq<(Seq<u8>, Seq<u8>, Seq<u8>)>,
    f: Seq<u8>,
    i: int,
)
    requires
        is_grouping(gv, es),
        0 <= i <= gv.len(),
        forall|j: int| 0 <= j < i ==> bytes_less(#[trigger] gv[j].0, f),
        i < gv.len() ==> bytes_less(f, gv[i].0),
    ensures
        forall|m: int| 0 <= m < gv.len() ==> #[trigger] gv[m].0 != f,
        group_items(es, f).len() == 0,
{
    lemma_less_irreflexive(f);
    assert forall|m: int| 0 <= m < gv.len() implies #[trigger] gv[m].0 != f by {
        if m < i {
            assert(bytes_less(gv[m].0, f));
        } else if m > i {
            assert(bytes_less(gv[i].0, gv[m].0));
            if gv[m].0 == f {
                lemma_less_transitive(f, gv[i].0, f);
            }
        }
    }
    if group_items(es, f).len() > 0 {
        lemma_group_items_source(es, f);
        let k = choose|k: int| 0 <= k < es.len() && #[trigger] es[k].0 == f;
        let m = choose|m: int| 0 <= m < gv.len() && #[trigger] gv[m].0 == es[k].0;
        assert(gv[m].0 != f);
    }
}

/// Opening a new group, at its place in byte order, for a palette whose
/// folder has none yet.
proof fn lemma_grouping_insert(
    gv: Seq<GroupModel>,
    es: Seq<(Seq<u8>, Seq<u8>, Seq<u8>)>,
    e: (Seq<u8>, Seq<u8>, Seq<u8>),
    i: int,
)
    requires
        is_grouping(gv, es),
        0 <= i <= gv.len(),
        forall|j: int| 0 <= j < i ==> bytes_less(#[trigger] gv[j].0, e.0),
        i < gv.len() ==> bytes_less(e.0, gv[i].0),
    ensures
        is_grouping(gv.insert(i, (e.0, seq![(e.1, e.2)])), es.push(e)),
{
    let gv2 = gv.insert(i, (e.0, seq![(e.1, e.2)]));
    let es2 = es.push(e);
    assert(es2.drop_last() =~= es);
    lemma_folder_absent(gv, es, e.0, i);
    assert forall|a: int, b: int| 0 <= a < b < gv2.len() implies #[trigger] bytes_less(
        gv2[a].0,
        gv2[b].0,
    ) by {
        if a < i && b < i {
            assert(bytes_less(gv[a].0, gv[b].0));
        } else if a < i && b == i {
            assert(bytes_less(gv[a].0, e.0));
        } else if a < i {
            assert(bytes_less(gv[a].0, gv[b - 1].0));
        } else if a == i {
            if b - 1 > i {
                assert(bytes_less(gv[i].0, gv[b - 1].0));
                lemma_less_transitive(e.0, gv[i].0, gv[b - 1].0);
            }
        } else {
            assert(bytes_less(gv[a - 1].0, gv[b - 1].0));
        }
    }
    assert(group_items(es, e.0) =~= Seq::<(Seq<u8>, Seq<u8>)>::empty());
    assert forall|j: int| 0 <= j < gv2.len() implies #[trigger] gv2[j].1 == group_items(
        es2,
        gv2[j].0,
    ) && gv2[j].1.len() > 0 by {
        if j < i {
            assert(gv[j].0 != e.0);
        } else if j > i {
            assert(gv[j - 1].0 != e.0);
        } else {
            assert(group_items(es2, e.0) =~= seq![(e.1, e.2)]);
        }
    }
    assert forall|k: int| 0 <= k < es2.len() implies exists|m: int|
        0 <= m < gv2.len() && #[trigger] gv2[m].0 == #[trigger] es2[k].0 by {
        if k < es.len() {
            let m = choose|m: int| 0 <= m < gv.len() && #[trigger] gv[m].0 == es[k].0;
            if m < i {
                assert(gv2[m].0 == es2[k].0);
            } else {
                assert(gv2[m + 1].0 == es2[k].0);
            }
        } else {
            assert(gv2[i].0 == es2[k].0);
        }
    }
}

/// How many palettes `es` files under the folders `fs`, folder by folder.
pub open spec fn items_total(es: Seq<(Seq<u8>, Seq<u8>, Seq<u8>)>, fs: Seq<Seq<u8>>) -> int
    decreases fs.len(),
{
    if fs.len() == 0 {
        0
    } else {
        items_total(es, fs.drop_last()) + group_items(es, fs.last()).len()
    }
}

/// The folders of the groups, in order.
pub open spec fn group_folders(gv: Seq<GroupModel>) -> Seq<Seq<u8>> {
    gv.map_values(|g: GroupModel| g.0)
}

proof fn lemma_flatten_len(gv: Seq<GroupModel>, es: Seq<(Seq<u8>, Seq<u8>, Seq<u8>)>)
    requires
        forall|i: int| 0 <= i < gv.len() ==> #[trigger] gv[i].1 == group_items(es, gv[i].0),
    ensures
        flatten_groups(gv).len() == items_total(es, group_folders(gv)),
    decreases gv.len(),
{
    if gv.len() > 0 {
        let gv2 = gv.drop_last();
        assert forall|i: int| 0 <= i < gv2.len() implies #[trigger] gv2[i].1 == group_items(
            es,
            gv2[i].0,
        ) by {
            assert(gv2[i] == gv[i]);
        }
        lemma_flatten_len(gv2, es);
        assert(group_folders(gv).drop_last() =~= group_folders(gv2));
        assert(gv[gv.len() - 1].1 == group_items(es, gv[gv.len() - 1].0));
    }
}

/// One more palette adds one to the total of the one folder of `fs` it is
/// filed under, and nothing when none is.
proof fn lemma_items_total_push(
    es: Seq<(Seq<u8>, Seq<u8>, Seq<u8>)>,
    e: (Seq<u8>, Seq<u8>, Seq<u8>),
    fs: Seq<Seq<u8>>,
)
    requires
        forall|i: int, j: int| 0 <= i < j < fs.len() ==> #[trigger] fs[i] != #[trigger] fs[j],
    ensures
        items_total(es.push(e), fs) == items_total(es, fs) + if fs.contains(e.0) {
            1int
        } else {
            0int
        },
    decreases fs.len(),
{
    let es2 = es.push(e);
    assert(es2.drop_last() =~= es);
    if fs.len() > 0 {
        let fs2 = fs.drop_last();
        assert forall|i: int, j: int| 0 <= i < j < fs2.len() implies #[trigger] fs2[i]
            != #[trigger] fs2[j] by {
            assert(fs[i] != fs[j]);
        }
        lemma_items_total_push(es, e, fs2);
        let x = fs.last();
        if fs2.contains(e.0) {
            let k = choose|k: int| 0 <= k < fs2.len() && fs2[k] == e.0;
            assert(fs[k] == e.0);
            assert(x != e.0);
            assert(fs.contains(e.0));
        } else if x == e.0 {
            assert(fs[fs.len() - 1] == e.0);
        } else {
            assert forall|k: int| 0 <= k < fs.len() implies fs[k] != e.0 by {
                if k < fs.len() - 1 {
                    assert(fs2[k] == fs[k]);
                }
            }
        }
    }
}

proof fn lemma_items_total_all(es: Seq<(Seq<u8>, Seq<u8>, Seq<u8>)>, fs: Seq<Seq<u8>>)
    requires
        forall|i: int, j: int| 0 <= i < j < fs.len() ==> #[trigger] fs[i] != #[trigger] fs[j],
        forall|k: int| 0 <= k < es.len() ==> fs.contains(#[trigger] es[k].0),
    ensures
        items_total(es, fs) == es.len(),
    decreases es.len(), fs.len(),
{
    if es.len() == 0 {
        if fs.len() > 0 {
            let fs2 = fs.drop_last();
            assert forall|i: int, j: int| 0 <= i < j < fs2.len() implies #[trigger] fs2[i]
                != #[trigger] fs2[j] by {
                assert(fs[i] != fs[j]);
            }
            lemma_items_total_all(es, fs2);
        }
    } else {
        let es2 = es.drop_last();
        let e = es.last();
        assert(es2.push(e) =~= es);
        assert forall|k: int| 0 <= k < es2.len() implies fs.contains(#[trigger] es2[k].0) by {
            assert(es[k] == es2[k]);
        }
        lemma_items_total_all(es2, fs);
        assert(fs.contains(es[es.len() - 1].0));
        lemma_items_total_push(es2, e, fs);
    }
}

/// Grouping keeps every palette, once: the groups together hold as many
/// palettes as the resources do.
pub proof fn lemma_grouping_keeps_every_palette(
    gv: Seq<GroupModel>,
    es: Seq<(Seq<u8>, Seq<u8>, Seq<u8>)>,
)
    requires
        is_grouping(gv, es),
    ensures
        flatten_groups(gv).len() == es.len(),
{
    let fs = group_folders(gv);
    lemma_flatten_len(gv, es);
    assert forall|i: int, j: int| 0 <= i < j < fs.len() implies #[trigger] fs[i]
        != #[trigger] fs[j] by {
        assert(bytes_less(gv[i].0, gv[j].0));
        lemma_less_irreflexive(gv[i].0);
    }
    assert forall|k: int| 0 <= k < es.len() implies fs.contains(#[trigger] es[k].0) by {
        let i = choose|i: int| 0 <= i < gv.len() && #[trigger] gv[i].0 == es[k].0;
        assert(fs[i] == es[k].0);
    }
    lemma_items_total_all(es, fs);
}

impl EmbeddedPalettes {
    /// Groups the bundled palettes by folder: one entry per folder, folders
    /// in byte order, and in each the palettes (stem, palette) in the order of
    /// `files`. A resource whose path does not end in ".pal" (any case), or
    /// that holds fewer than 768 bytes, is left out.
    pub fn grouped_by_folder(files: &Vec<(Vec<u8>, Vec<u8>)>) -> (groups: Vec<
        (Vec<u8>, Vec<(Vec<u8>, Palette)>),
    >)
        ensures
            is_grouping(groups_view(groups@), pal_files(files_view(files@))),
    {
        let ghost fv = files_view(files@);
        let mut groups: Vec<(Vec<u8>, Vec<(Vec<u8>, Palette)>)> = Vec::new();
        assert(groups_view(groups@) =~= Seq::<GroupModel>::empty());
        let mut k: usize = 0;
        while k < files.len()
            invariant
                k <= files@.len(),
                fv == files_view(files@),
                is_grouping(groups_view(groups@), pal_files(fv.take(k as int))),
            decreases files@.len() - k,
        {
            let ghost es = pal_files(fv.take(k as int));
            assert(fv.take(k + 1).drop_last() =~= fv.take(k as int));
            assert(fv[k as int] == (files@[k as int].0@, files@[k as int].1@));
            let path = &files[k].0;
            let data = &files[k].1;
            if ends_with_pal(path) && data.len() >= 768 {
                if let Ok(pal) = Palette::from_bytes(data.as_slice()) {
                    proof {
                        lemma_pal_entries_roundtrip(data@, pal);
                        lemma_pal_slash(path@);
                    }
                    let start = name_start(path);
                    let folder = if start == 0 {
                        Vec::new()
                    } else {
                        copy_range(path, 0, start - 1)
                    };
                    let stem = if path.len() - start == 4 {
                        copy_range(path, start, path.len())
                    } else {
                        copy_range(path, start, path.len() - 4)
                    };
                    assert(folder@ =~= folder_of(path@));
                    let ghost e = (folder@, stem@, data@.take(768));
                    assert(pal_files(fv.take(k + 1)) == es.push(e));
                    let ghost gv = groups_view(groups@);
                    let ghost old_groups = groups@;
                    // the first group whose folder does not come before this one
                    let mut i: usize = 0;
                    while i < groups.len() && less_bytes(&groups[i].0, &folder)
                        invariant
                            i <= groups@.len(),
                            groups@ == old_groups,
                            gv == groups_view(groups@),
                            folder@ == e.0,
                            forall|j: int| 0 <= j < i ==> bytes_less(#[trigger] gv[j].0, e.0),
                        decreases groups@.len() - i,
                    {
                        assert(gv[i as int].0 == groups@[i as int].0@);
                        i = i + 1;
                    }
                    if i < groups.len() {
                        assert(gv[i as int].0 == groups@[i as int].0@);
                    }
                    let found = i < groups.len() && !less_bytes(&folder, &groups[i].0);
                    let item = (stem, pal);
                    assert((item.0@, spec_pal_bytes(item.1)) == (e.1, e.2));
                    if found {
                        proof {
                            lemma_less_total(gv[i as int].0, e.0);
                            lemma_grouping_extend(gv, es, e, i as int);
                        }
                        let mut g = groups.remove(i);
                        let ghost old_items = g.1@;
                        g.1.push(item);
                        assert(items_view(g.1@) =~= items_view(old_items).push((e.1, e.2)));
                        groups.insert(i, g);
                        assert(groups_view(groups@) =~= gv.update(
                            i as int,
                            (gv[i as int].0, gv[i as int].1.push((e.1, e.2))),
                        ));
                    } else {
                        proof {
                            if i < groups@.len() {
                                lemma_less_irreflexive(e.0);
                            }
                            lemma_grouping_insert(gv, es, e, i as int);
                        }
                        let mut items: Vec<(Vec<u8>, Palette)> = Vec::new();
                        items.push(item);
                        assert(items_view(items@) =~= seq![(e.1, e.2)]);
                        groups.insert(i, (folder, items));
                        assert(groups_view(groups@) =~= gv.insert(
                            i as int,
                            (e.0, seq![(e.1, e.2)]),
                        ));
                    }
                }
            }
            k = k + 1;
        }
        assert(fv.take(files@.len() as int) =~= fv);
        groups
    }
}

/// The bundled palettes, grouped by folder (as `grouped_by_folder`), and
/// the same palettes in one list, group after group. With no bundled
/// palette, the list holds only the grey ramp, named "Grayscale".
pub fn load_embedded_palettes(files: &Vec<(Vec<u8>, Vec<u8>)>) -> (res: (
    Vec<(Vec<u8>, Vec<(Vec<u8>, Palette)>)>,
    Vec<(Vec<u8>, Palette)>,
))
    ensures
        is_grouping(groups_view(res.0@), pal_files(files_view(files@))),
        flatten_groups(groups_view(res.0@)).len() > 0 ==> items_view(res.1@) == flatten_groups(
            groups_view(res.0@),
        ),
        flatten_groups(groups_view(res.0@)).len() == 0 ==> res.1@.len() == 1 && res.1@[0].0@
            == grayscale_name() && is_grayscale(res.1@[0].1),
{
    let groups = EmbeddedPalettes::grouped_by_folder(files);
    let ghost gv = groups_view(groups@);
    let mut flat: Vec<(Vec<u8>, Palette)> = Vec::new();
    let mut gi: usize = 0;
    assert(gv.take(0) =~= Seq::<GroupModel>::empty());
    while gi < groups.len()
        invariant
            gi <= groups@.len(),
            gv == groups_view(groups@),
            items_view(flat@) == flatten_groups(gv.take(gi as int)),
        decreases groups@.len() - gi,
    {
        let items = &groups[gi].1;
        assert(gv[gi as int].1 == items_view(items@));
        let mut j: usize = 0;
        assert(gv[gi as int].1.take(0) =~= Seq::<(Seq<u8>, Seq<u8>)>::empty());
        assert(flatten_groups(gv.take(gi as int)) + gv[gi as int].1.take(0) =~= flatten_groups(
            gv.take(gi as int),
        ));
        while j < items.len()
            invariant
                j <= items@.len(),
                gi < groups@.len(),
                items@ == groups@[gi as int].1@,
                gv == groups_view(groups@),
                gv[gi as int].1 == items_view(items@),
                items_view(flat@) == flatten_groups(gv.take(gi as int)) + gv[gi as int].1.take(
                    j as int,
                ),
            decreases items@.len() - j,
        {
            let name = copy_range(&items[j].0, 0, items[j].0.len());
            assert(name@ =~= items@[j as int].0@);
            let ghost before = flat@;
            flat.push((name, items[j].1));
            assert(items_view(flat@) =~= items_view(before).push(gv[gi as int].1[j as int]));
            assert(gv[gi as int].1.take(j + 1) =~= gv[gi as int].1.take(j as int).push(
                gv[gi as int].1[j as int],
            ));
            assert(items_view(flat@) =~= flatten_groups(gv.take(gi as int)) + gv[
                gi as int
            ].1.take(j + 1));
            j = j + 1;
        }
        assert(gv[gi as int].1.take(j as int) =~= gv[gi as int].1);
        assert(gv.take(gi + 1) =~= gv.take(gi as int).push(gv[gi as int]));
        proof {
            lemma_flatten_push(gv.take(gi as int), gv[gi as int]);
        }
        gi = gi + 1;
    }
    assert(gv.take(gi as int) =~= gv);
    if flat.len() == 0 {
        let name: Vec<u8> = vec![71, 114, 97, 121, 115, 99, 97, 108, 101];
        assert(name@ =~= grayscale_name());
        flat.push((name, Palette::default_grayscale()));
    }
    (groups, flat)
}

} // verus!

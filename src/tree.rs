use vstd::prelude::*;
use vstd::seq_lib::lemma_multiset_commutative;
use crate::error::ObjectError;
use crate::kind::Kind;
use crate::writer::{encode_object, object_id, object_bytes};
use crate::zlib::zlib_decoded;
use crate::header::{find_byte, find_first, lemma_find_byte, lemma_find_byte_absent, lemma_find_byte_extend};
use vstd::slice::slice_subrange;

verus! {

/// The file-system category of a tree entry.
#[derive(Debug, Clone, Copy, PartialEq, Eq, Structural)]
pub enum Mode {
    Directory,
    Regular,
    Executable,
    Symlink,
}

/// The ASCII token that records a mode in a tree body.
pub open spec fn mode_token(m: Mode) -> Seq<u8> {
    match m {
        Mode::Directory => seq![52, 48, 48, 48, 48],
        Mode::Regular => seq![49, 48, 48, 54, 52, 52],
        Mode::Executable => seq![49, 48, 48, 55, 53, 53],
        Mode::Symlink => seq![49, 50, 48, 48, 48, 48],
    }
}

/// The mode whose token is exactly `t`, if any.
pub open spec fn mode_of_token(t: Seq<u8>) -> Option<Mode> {
    if t == mode_token(Mode::Directory) {
        Some(Mode::Directory)
    } else if t == mode_token(Mode::Regular) {
        Some(Mode::Regular)
    } else if t == mode_token(Mode::Executable) {
        Some(Mode::Executable)
    } else if t == mode_token(Mode::Symlink) {
        Some(Mode::Symlink)
    } else {
        None
    }
}

/// The mode of a directory entry, from its metadata: directories first,
/// then symbolic links, then files with any execute bit among
/// `permissions`, then all other files.
pub open spec fn mode_of_metadata(is_dir: bool, is_symlink: bool, permissions: u32) -> Mode {
    if is_dir {
        Mode::Directory
    } else if is_symlink {
        Mode::Symlink
    } else if permissions & 0o111 != 0 {
        Mode::Executable
    } else {
        Mode::Regular
    }
}

pub proof fn lemma_mode_token_round_trip(m: Mode)
    ensures
        mode_of_token(mode_token(m)) == Some(m),
{
    assert(mode_token(Mode::Directory) != mode_token(Mode::Regular)) by {
        assert(mode_token(Mode::Directory).len() != mode_token(Mode::Regular).len());
    }
    assert(mode_token(Mode::Directory) != mode_token(Mode::Executable)) by {
        assert(mode_token(Mode::Directory).len() != mode_token(Mode::Executable).len());
    }
    assert(mode_token(Mode::Directory) != mode_token(Mode::Symlink)) by {
        assert(mode_token(Mode::Directory).len() != mode_token(Mode::Symlink).len());
    }
    assert(mode_token(Mode::Regular) != mode_token(Mode::Executable)) by {
        assert(mode_token(Mode::Regular)[3] != mode_token(Mode::Executable)[3]);
    }
    assert(mode_token(Mode::Regular) != mode_token(Mode::Symlink)) by {
        assert(mode_token(Mode::Regular)[1] != mode_token(Mode::Symlink)[1]);
    }
    assert(mode_token(Mode::Executable) != mode_token(Mode::Symlink)) by {
        assert(mode_token(Mode::Executable)[1] != mode_token(Mode::Symlink)[1]);
    }
}

impl Mode {
    /// The mode of a directory entry with the given metadata.
    pub fn from_metadata(is_dir: bool, is_symlink: bool, permissions: u32) -> (r: Mode)
        ensures
            r == mode_of_metadata(is_dir, is_symlink, permissions),
    {
        if is_dir {
            Mode::Directory
        } else if is_symlink {
            Mode::Symlink
        } else if permissions & 0o111 != 0 {
            Mode::Executable
        } else {
            Mode::Regular
        }
    }

    pub fn token(&self) -> (r: Vec<u8>)
        ensures
            r@ == mode_token(*self),
    {
        let r = match self {
            Mode::Directory => vec![52, 48, 48, 48, 48],
            Mode::Regular => vec![49, 48, 48, 54, 52, 52],
            Mode::Executable => vec![49, 48, 48, 55, 53, 53],
            Mode::Symlink => vec![49, 50, 48, 48, 48, 48],
        };
        assert(r@ =~= mode_token(*self));
        r
    }

    /// The mode named by the bytes `t`, if any.
    pub fn from_token(t: &[u8]) -> (r: Option<Mode>)
        ensures
            r == mode_of_token(t@),
    {
        proof {
            lemma_mode_token_round_trip(Mode::Directory);
            lemma_mode_token_round_trip(Mode::Regular);
            lemma_mode_token_round_trip(Mode::Executable);
            lemma_mode_token_round_trip(Mode::Symlink);
        }
        if t.len() == 5 && t[0] == 52 && t[1] == 48 && t[2] == 48 && t[3] == 48 && t[4] == 48 {
            assert(t@ =~= mode_token(Mode::Directory));
            Some(Mode::Directory)
        } else if t.len() == 6 && t[0] == 49 && t[1] == 48 && t[2] == 48 && t[3] == 54 && t[4]
            == 52 && t[5] == 52 {
            assert(t@ =~= mode_token(Mode::Regular));
            Some(Mode::Regular)
        } else if t.len() == 6 && t[0] == 49 && t[1] == 48 && t[2] == 48 && t[3] == 55 && t[4]
            == 53 && t[5] == 53 {
            assert(t@ =~= mode_token(Mode::Executable));
            Some(Mode::Executable)
        } else if t.len() == 6 && t[0] == 49 && t[1] == 50 && t[2] == 48 && t[3] == 48 && t[4]
            == 48 && t[5] == 48 {
            assert(t@ =~= mode_token(Mode::Symlink));
            Some(Mode::Symlink)
        } else {
            None
        }
    }
}

/// One entry of a tree: a mode, a raw name, and the id of the entry's object.
#[derive(Debug, Clone, PartialEq, Eq)]
pub struct TreeEntry {
    pub mode: Mode,
    pub name: Vec<u8>,
    pub id: [u8; 20],
}

/// What a tree entry holds, as plain values.
pub struct EntryView {
    pub mode: Mode,
    pub name: Seq<u8>,
    pub id: Seq<u8>,
}

impl View for TreeEntry {
    type V = EntryView;

    open spec fn view(&self) -> EntryView {
        EntryView { mode: self.mode, name: self.name@, id: self.id@ }
    }
}

/// The key by which tree entries are ordered: the name's bytes, followed, for
/// a directory, by one value above every byte.
pub open spec fn name_key(name: Seq<u8>, is_dir: bool) -> Seq<int> {
    name.map_values(|b: u8| b as int) + if is_dir {
        seq![256int]
    } else {
        Seq::<int>::empty()
    }
}

/// Lexicographic order on keys from position `i` on; a key that ends first
/// comes first.
pub open spec fn key_lt_from(a: Seq<int>, b: Seq<int>, i: nat) -> bool
    decreases a.len() - i,
{
    if i >= a.len() {
        i < b.len()
    } else if i >= b.len() {
        false
    } else if a[i as int] != b[i as int] {
        a[i as int] < b[i as int]
    } else {
        key_lt_from(a, b, i + 1)
    }
}

pub open spec fn key_lt(a: Seq<int>, b: Seq<int>) -> bool {
    key_lt_from(a, b, 0)
}

/// Entry `a` comes before entry `b` in a tree.
pub open spec fn entry_lt(a: EntryView, b: EntryView) -> bool {
    key_lt(name_key(a.name, a.mode == Mode::Directory), name_key(b.name, b.mode == Mode::Directory))
}

proof fn lemma_key_lt_irreflexive(a: Seq<int>, i: nat)
    ensures
        !key_lt_from(a, a, i),
    decreases a.len() - i,
{
    if i < a.len() {
        lemma_key_lt_irreflexive(a, i + 1);
    }
}

proof fn lemma_key_lt_transitive(a: Seq<int>, b: Seq<int>, c: Seq<int>, i: nat)
    requires
        key_lt_from(a, b, i),
        key_lt_from(b, c, i),
    ensures
        key_lt_from(a, c, i),
    decreases a.len() - i,
{
    if i < a.len() && i < b.len() && i < c.len() && a[i as int] == b[i as int] && b[i as int]
        == c[i as int] {
        lemma_key_lt_transitive(a, b, c, i + 1);
    }
}

proof fn lemma_key_lt_total(a: Seq<int>, b: Seq<int>, i: nat)
    requires
        i <= a.len(),
        i <= b.len(),
        a.take(i as int) == b.take(i as int),
        a != b,
    ensures
        key_lt_from(a, b, i) || key_lt_from(b, a, i),
    decreases a.len() - i,
{
    if i < a.len() && i < b.len() && a[i as int] == b[i as int] {
        assert(a.take(i + 1int) =~= a.take(i as int).push(a[i as int]));
        assert(b.take(i + 1int) =~= b.take(i as int).push(b[i as int]));
        lemma_key_lt_total(a, b, i + 1);
    } else if i == a.len() && i == b.len() {
        assert(a =~= a.take(i as int));
        assert(b =~= b.take(i as int));
    }
}

/// Distinct names give distinct keys, whatever the modes.
proof fn lemma_name_key_injective(n1: Seq<u8>, d1: bool, n2: Seq<u8>, d2: bool)
    requires
        name_key(n1, d1) == name_key(n2, d2),
    ensures
        n1 == n2,
{
    let k = name_key(n1, d1);
    let k2 = name_key(n2, d2);
    assert(k.len() == n1.len() + if d1 { 1int } else { 0int });
    assert(k2.len() == n2.len() + if d2 { 1int } else { 0int });
    if d1 == d2 {
        assert(n1.len() == n2.len());
        assert forall|i: int| 0 <= i < n1.len() implies n1[i] == n2[i] by {
            assert(k[i] == n1[i] as int);
            assert(k2[i] == n2[i] as int);
        }
        assert(n1 =~= n2);
    } else if d1 {
        assert(k.len() == n2.len());
        assert(k[k.len() - 1] == 256);
        assert(k[k.len() - 1] == n2[k.len() - 1] as int);
    } else {
        assert(k.len() == n1.len());
        assert(k[k.len() - 1] == 256);
        assert(k[k.len() - 1] == n1[k.len() - 1] as int);
    }
}

/// Tree order is a strict order, and total on entries with different names.
pub proof fn lemma_entry_order(a: EntryView, b: EntryView, c: EntryView)
    ensures
        !entry_lt(a, a),
        entry_lt(a, b) && entry_lt(b, c) ==> entry_lt(a, c),
        a.name != b.name ==> entry_lt(a, b) || entry_lt(b, a),
{
    let ka = name_key(a.name, a.mode == Mode::Directory);
    let kb = name_key(b.name, b.mode == Mode::Directory);
    let kc = name_key(c.name, c.mode == Mode::Directory);
    lemma_key_lt_irreflexive(ka, 0);
    if entry_lt(a, b) && entry_lt(b, c) {
        lemma_key_lt_transitive(ka, kb, kc, 0);
    }
    if a.name != b.name {
        if ka == kb {
            lemma_name_key_injective(a.name, a.mode == Mode::Directory, b.name, b.mode
                == Mode::Directory);
        }
        assert(ka.take(0) =~= kb.take(0));
        lemma_key_lt_total(ka, kb, 0);
    }
}

pub open spec fn entry_views(v: Seq<TreeEntry>) -> Seq<EntryView> {
    v.map_values(|e: TreeEntry| e@)
}

/// No two entries share a name, as in any one directory.
pub open spec fn names_distinct(s: Seq<EntryView>) -> bool {
    forall|i: int, j: int| 0 <= i < j < s.len() ==> s[i].name != s[j].name
}

/// Every entry comes strictly before each one after it.
pub open spec fn in_tree_order(s: Seq<EntryView>) -> bool {
    forall|i: int, j: int| 0 <= i < j < s.len() ==> entry_lt(s[i], s[j])
}

/// The entries of `s` arranged in tree order.
pub open spec fn tree_order(s: Seq<EntryView>) -> Seq<EntryView> {
    choose|t: Seq<EntryView>| in_tree_order(t) && t.to_multiset() == s.to_multiset()
}

/// The serialized record of one entry: mode token, space, name, NUL, and
/// the 20 raw bytes of the id.
pub open spec fn entry_bytes(e: EntryView) -> Seq<u8> {
    mode_token(e.mode) + seq![32u8] + e.name + seq![0u8] + e.id
}

/// The records of `s`, in the order given.
pub open spec fn entries_bytes(s: Seq<EntryView>) -> Seq<u8>
    decreases s.len(),
{
    if s.len() == 0 {
        Seq::empty()
    } else {
        entry_bytes(s[0]) + entries_bytes(s.drop_first())
    }
}

/// The body of the tree object holding the entries `s`.
pub open spec fn tree_body_bytes(s: Seq<EntryView>) -> Seq<u8> {
    entries_bytes(tree_order(s))
}

pub proof fn lemma_entries_bytes_push(s: Seq<EntryView>, e: EntryView)
    ensures
        entries_bytes(s.push(e)) == entries_bytes(s) + entry_bytes(e),
    decreases s.len(),
{
    if s.len() == 0 {
        assert(s.push(e).drop_first() =~= Seq::<EntryView>::empty());
        assert(entries_bytes(Seq::<EntryView>::empty()) == Seq::<u8>::empty());
        assert(entries_bytes(s.push(e)) =~= entry_bytes(e));
        assert(entries_bytes(s) + entry_bytes(e) =~= entry_bytes(e));
    } else {
        assert(s.push(e).drop_first() =~= s.drop_first().push(e));
        lemma_entries_bytes_push(s.drop_first(), e);
        assert(s.push(e)[0] == s[0]);
        assert(entries_bytes(s.push(e)) =~= entry_bytes(s[0]) + (entries_bytes(s.drop_first())
            + entry_bytes(e)));
    }
}

proof fn lemma_to_multiset_insert<A>(s: Seq<A>, i: int, a: A)
    requires
        0 <= i <= s.len(),
    ensures
        s.insert(i, a).to_multiset() == s.to_multiset().insert(a),
{
    let u = s.insert(i, a);
    assert(u.remove(i) =~= s);
    u.to_multiset_ensures();
    assert(u[i] == a);
    assert(u.contains(a));
    assert(u.to_multiset().count(a) > 0);
    assert(u.to_multiset() =~= u.to_multiset().remove(a).insert(a));
}

/// Two arrangements of the same entries that are both in tree order are the
/// same arrangement.
pub proof fn lemma_tree_order_unique(t1: Seq<EntryView>, t2: Seq<EntryView>)
    requires
        in_tree_order(t1),
        in_tree_order(t2),
        t1.to_multiset() == t2.to_multiset(),
    ensures
        t1 == t2,
    decreases t1.len(),
{
    t1.to_multiset_ensures();
    t2.to_multiset_ensures();
    if t1.len() == 0 {
        assert(t2.len() == 0);
        assert(t1 =~= t2);
    } else {
        assert(t2.len() > 0);
        assert(t1.contains(t1[0]));
        assert(t1.to_multiset().count(t1[0]) > 0);
        assert(t2.to_multiset().count(t1[0]) > 0);
        assert(t2.contains(t1[0]));
        let j = choose|j: int| 0 <= j < t2.len() && t2[j] == t1[0];
        assert(t2.contains(t2[0]));
        assert(t2.to_multiset().count(t2[0]) > 0);
        assert(t1.to_multiset().count(t2[0]) > 0);
        assert(t1.contains(t2[0]));
        let i = choose|i: int| 0 <= i < t1.len() && t1[i] == t2[0];
        if j > 0 {
            assert(entry_lt(t2[0], t1[0]));
            lemma_entry_order(t1[0], t2[0], t1[0]);
            if i > 0 {
                assert(entry_lt(t1[0], t2[0]));
            }
        }
        assert(t1[0] == t2[0]);
        let r1 = t1.remove(0);
        let r2 = t2.remove(0);
        assert(r1.to_multiset() == r2.to_multiset());
        assert(r1 =~= t1.drop_first());
        assert(r2 =~= t2.drop_first());
        assert(in_tree_order(r1)) by {
            assert forall|a: int, b: int| 0 <= a < b < r1.len() implies entry_lt(r1[a], r1[b]) by {
                assert(r1[a] == t1[a + 1] && r1[b] == t1[b + 1]);
            }
        }
        assert(in_tree_order(r2)) by {
            assert forall|a: int, b: int| 0 <= a < b < r2.len() implies entry_lt(r2[a], r2[b]) by {
                assert(r2[a] == t2[a + 1] && r2[b] == t2[b + 1]);
            }
        }
        lemma_tree_order_unique(r1, r2);
        assert(t1 =~= seq![t1[0]] + r1);
        assert(t2 =~= seq![t2[0]] + r2);
    }
}

/// The tree body of a directory's entries does not depend on the order in
/// which they were listed.
pub proof fn lemma_tree_body_order_independent(a: Seq<EntryView>, b: Seq<EntryView>)
    requires
        a.to_multiset() == b.to_multiset(),
    ensures
        tree_body_bytes(a) == tree_body_bytes(b),
{
}

/// The element at position `i` of an entry's key, if the key is that long.
fn key_at(name: &[u8], is_dir: bool, i: usize) -> (r: Option<u16>)
    ensures
        i < name_key(name@, is_dir).len() ==> r == Some(name_key(name@, is_dir)[i as int] as u16),
        i >= name_key(name@, is_dir).len() ==> r is None,
        i < name_key(name@, is_dir).len() ==> 0 <= name_key(name@, is_dir)[i as int] <= 256,
{
    if i < name.len() {
        Some(name[i] as u16)
    } else if i == name.len() && is_dir {
        Some(256)
    } else {
        None
    }
}

/// Whether entry `a` comes before entry `b` in a tree.
pub fn entry_before(a: &TreeEntry, b: &TreeEntry) -> (r: bool)
    ensures
        r == entry_lt(a@, b@),
{
    let ad = a.mode == Mode::Directory;
    let bd = b.mode == Mode::Directory;
    let ghost ka = name_key(a.name@, ad);
    let ghost kb = name_key(b.name@, bd);
    assert(entry_lt(a@, b@) == key_lt(ka, kb));
    let alen = a.name.len();
    let mut i: usize = 0;
    loop
        invariant
            i <= ka.len(),
            i <= kb.len(),
            ka == name_key(a.name@, ad),
            kb == name_key(b.name@, bd),
            entry_lt(a@, b@) == key_lt(ka, kb),
            alen == a.name@.len(),
            key_lt(ka, kb) == key_lt_from(ka, kb, i as nat),
        decreases ka.len() - i,
    {
        let an = a.name.as_slice();
        let bn = b.name.as_slice();
        assert(an@ == a.name@);
        let x = key_at(an, ad, i);
        let y = key_at(bn, bd, i);
        match (x, y) {
            (None, None) => {
                assert(!key_lt_from(ka, kb, i as nat));
                return false;
            },
            (None, Some(_)) => {
                assert(key_lt_from(ka, kb, i as nat));
                return true;
            },
            (Some(_), None) => {
                assert(!key_lt_from(ka, kb, i as nat));
                return false;
            },
            (Some(p), Some(q)) => {
                if p != q {
                    return p < q;
                }
                if p == 256 {
                    assert(!key_lt_from(ka, kb, (i + 1) as nat));
                    return false;
                }
                assert(i < a.name@.len()) by {
                    if i >= a.name@.len() {
                        assert(ka[i as int] == 256);
                    }
                }
                i = i + 1;
            },
        }
    }
}

/// Arranges entries with distinct names in tree order.
pub fn sort_entries(entries: Vec<TreeEntry>) -> (r: Vec<TreeEntry>)
    requires
        names_distinct(entry_views(entries@)),
    ensures
        in_tree_order(entry_views(r@)),
        entry_views(r@).to_multiset() == entry_views(entries@).to_multiset(),
{
    let ghost orig = entry_views(entries@);
    let mut rest = entries;
    let mut sorted: Vec<TreeEntry> = Vec::new();
    assert(orig.skip(orig.len() as int) =~= Seq::<EntryView>::empty());
    assert(entry_views(sorted@) =~= Seq::<EntryView>::empty());
    assert(orig.take(orig.len() as int) =~= orig);
    while rest.len() > 0
        invariant
            names_distinct(orig),
            rest@.len() <= orig.len(),
            entry_views(rest@) == orig.take(rest@.len() as int),
            in_tree_order(entry_views(sorted@)),
            entry_views(sorted@).to_multiset() == orig.skip(rest@.len() as int).to_multiset(),
        decreases rest.len(),
    {
        let ghost r = rest@.len() as int;
        let ghost before = rest@;
        let x = match rest.pop() {
            Some(x) => x,
            None => {
                return sorted;
            },
        };
        assert(x@ == orig[r - 1]) by {
            assert(entry_views(before)[r - 1] == before[r - 1]@);
            assert(orig.take(r)[r - 1] == orig[r - 1]);
        }
        let mut j: usize = 0;
        while j < sorted.len() && !entry_before(&x, &sorted[j])
            invariant
                j <= sorted@.len(),
                forall|k: int| 0 <= k < j ==> !entry_lt(x@, #[trigger] sorted@[k]@),
            decreases sorted.len() - j,
        {
            j = j + 1;
        }
        let ghost sv = entry_views(sorted@);
        proof {
            sv.to_multiset_ensures();
            orig.skip(r).to_multiset_ensures();
            assert forall|k: int| 0 <= k < sv.len() implies (#[trigger] sv[k]).name != x@.name by {
                assert(sv.contains(sv[k]));
                assert(sv.to_multiset().count(sv[k]) > 0);
                assert(orig.skip(r).to_multiset().count(sv[k]) > 0);
                assert(orig.skip(r).contains(sv[k]));
                let p = choose|p: int| 0 <= p < orig.skip(r).len() && orig.skip(r)[p] == sv[k];
                assert(orig[r + p] == sv[k]);
            }
        }
        sorted.insert(j, x);
        proof {
            let nv = entry_views(sorted@);
            assert(nv =~= sv.insert(j as int, x@));
            lemma_to_multiset_insert(sv, j as int, x@);
            assert(orig.skip(r - 1) =~= orig.skip(r).insert(0, x@));
            lemma_to_multiset_insert(orig.skip(r), 0, x@);
            assert forall|a: int, b: int| 0 <= a < b < nv.len() implies entry_lt(nv[a], nv[b]) by {
                if b < j {
                    assert(nv[a] == sv[a] && nv[b] == sv[b]);
                } else if b == j {
                    assert(nv[a] == sv[a]);
                    assert(!entry_lt(x@, sv[a]));
                    lemma_entry_order(sv[a], x@, x@);
                } else if a == j {
                    assert(nv[b] == sv[b - 1]);
                    assert(entry_lt(x@, sv[j as int]));
                    if b - 1 > j {
                        lemma_entry_order(x@, sv[j as int], sv[b - 1]);
                    }
                } else if a < j {
                    assert(nv[a] == sv[a] && nv[b] == sv[b - 1]);
                } else {
                    assert(nv[a] == sv[a - 1] && nv[b] == sv[b - 1]);
                }
            }
            assert(rest@ =~= before.drop_last());
            assert(entry_views(rest@) =~= orig.take(rest@.len() as int)) by {
                assert forall|k: int| 0 <= k < rest@.len() implies entry_views(rest@)[k] == orig[k] by {
                    assert(entry_views(before)[k] == before[k]@);
                    assert(orig.take(r)[k] == orig[k]);
                }
            }
        }
    }
    assert(orig.skip(0) =~= orig);
    sorted
}

/// Writes the records of `entries`, in the order given.
pub fn serialize_entries(entries: &Vec<TreeEntry>) -> (r: Vec<u8>)
    ensures
        r@ == entries_bytes(entry_views(entries@)),
{
    let ghost ev = entry_views(entries@);
    let mut out: Vec<u8> = Vec::new();
    let mut i: usize = 0;
    assert(ev.take(0) =~= Seq::<EntryView>::empty());
    while i < entries.len()
        invariant
            i <= entries@.len(),
            ev == entry_views(entries@),
            out@ == entries_bytes(ev.take(i as int)),
        decreases entries.len() - i,
    {
        let e = &entries[i];
        let mut m = e.mode.token();
        out.append(&mut m);
        out.push(32);
        out.extend_from_slice(e.name.as_slice());
        out.push(0);
        out.extend_from_slice(&e.id);
        proof {
            assert(ev.take(i + 1) =~= ev.take(i as int).push(ev[i as int]));
            lemma_entries_bytes_push(ev.take(i as int), ev[i as int]);
            assert(ev[i as int] == e@);
            assert(out@ =~= entries_bytes(ev.take(i as int)) + entry_bytes(ev[i as int]));
        }
        i = i + 1;
    }
    assert(ev.take(i as int) =~= ev);
    out
}

/// The body of the tree object for the entries of one directory, in tree
/// order whatever order they come in; `None` when there are no entries, as an
/// empty directory has no tree object.
pub fn tree_body(entries: Vec<TreeEntry>) -> (r: Option<Vec<u8>>)
    requires
        names_distinct(entry_views(entries@)),
    ensures
        r is None <==> entries@.len() == 0,
        r matches Some(b) ==> b@ == tree_body_bytes(entry_views(entries@)),
        in_tree_order(tree_order(entry_views(entries@))),
        tree_order(entry_views(entries@)).to_multiset() == entry_views(entries@).to_multiset(),
{
    let ghost ev = entry_views(entries@);
    let sorted = sort_entries(entries);
    let ghost sv = entry_views(sorted@);
    proof {
        sv.to_multiset_ensures();
        ev.to_multiset_ensures();
        let t = tree_order(ev);
        assert(in_tree_order(sv) && sv.to_multiset() == ev.to_multiset());
        assert(in_tree_order(t) && t.to_multiset() == ev.to_multiset());
        lemma_tree_order_unique(t, sv);
    }
    if sorted.len() == 0 {
        return None;
    }
    Some(serialize_entries(&sorted))
}

/// Builds the tree object for the entries of one directory: its compressed
/// bytes and its id, or `None` for a directory with no entries.
pub fn build_tree(entries: Vec<TreeEntry>) -> (r: Option<(Vec<u8>, [u8; 20])>)
    requires
        names_distinct(entry_views(entries@)),
    ensures
        r is None <==> entries@.len() == 0,
        r matches Some((_, id)) ==> id@ == object_id(
            Kind::Tree,
            tree_body_bytes(entry_views(entries@)),
        ),
        r matches Some((bytes, _)) ==> zlib_decoded(bytes@) == Some(
            object_bytes(Kind::Tree, tree_body_bytes(entry_views(entries@))),
        ),
        in_tree_order(tree_order(entry_views(entries@))),
        tree_order(entry_views(entries@)).to_multiset() == entry_views(entries@).to_multiset(),
{
    match tree_body(entries) {
        None => None,
        Some(body) => Some(encode_object(Kind::Tree, body.as_slice())),
    }
}

/// What a listed directory entry turned into.
pub enum Child {
    /// A file, or a symbolic link, stored as a blob.
    Blob { mode: Mode, id: [u8; 20] },
    /// A subdirectory, with the id of its tree, or `None` when it held
    /// nothing worth storing.
    Subtree { id: Option<[u8; 20]> },
}

/// One entry of a directory listing, after its content has been stored.
pub struct ListedEntry {
    pub name: Vec<u8>,
    pub child: Child,
}

/// The tree entry that a listed entry becomes, if any: an empty
/// subdirectory, and a subdirectory with a reserved name, become none.
pub open spec fn kept_entry(e: ListedEntry) -> Option<EntryView> {
    match e.child {
        Child::Blob { mode, id } => Some(EntryView { mode, name: e.name@, id: id@ }),
        Child::Subtree { id: Some(id) } => if reserved_name(e.name@) {
            None
        } else {
            Some(EntryView { mode: Mode::Directory, name: e.name@, id: id@ })
        },
        Child::Subtree { id: None } => None,
    }
}

/// The tree entries that a listing keeps, in listing order.
pub open spec fn kept_entries(listing: Seq<ListedEntry>) -> Seq<EntryView>
    decreases listing.len(),
{
    if listing.len() == 0 {
        Seq::empty()
    } else {
        let k = kept_entries(listing.drop_last());
        match kept_entry(listing.last()) {
            Some(v) => k.push(v),
            None => k,
        }
    }
}

pub open spec fn listing_names_distinct(listing: Seq<ListedEntry>) -> bool {
    forall|i: int, j: int| 0 <= i < j < listing.len() ==> listing[i].name@ != listing[j].name@
}

/// Every kept entry carries the name of an entry of the listing whose content
/// it is.
pub proof fn lemma_kept_entries_origin(listing: Seq<ListedEntry>)
    ensures
        kept_entries(listing).len() <= listing.len(),
        forall|k: int| 0 <= k < kept_entries(listing).len() ==> exists|i: int| 0 <= i < listing.len()
            && kept_entry(#[trigger] listing[i]) == Some(#[trigger] kept_entries(listing)[k]),
    decreases listing.len(),
{
    if listing.len() > 0 {
        let s = listing.drop_last();
        lemma_kept_entries_origin(s);
        let kl = kept_entries(listing);
        assert forall|k: int| 0 <= k < kl.len() implies exists|i: int| 0 <= i < listing.len()
            && kept_entry(#[trigger] listing[i]) == Some(#[trigger] kl[k]) by {
            if k < kept_entries(s).len() {
                let i = choose|i: int| 0 <= i < s.len() && kept_entry(#[trigger] s[i]) == Some(
                    kept_entries(s)[k],
                );
                assert(listing[i] == s[i]);
            } else {
                assert(listing[listing.len() - 1] == listing.last());
            }
        }
    }
}

proof fn lemma_kept_entries_concat(a: Seq<ListedEntry>, b: Seq<ListedEntry>)
    ensures
        kept_entries(a + b) == kept_entries(a) + kept_entries(b),
    decreases b.len(),
{
    if b.len() == 0 {
        assert(a + b =~= a);
        assert(kept_entries(a) + kept_entries(b) =~= kept_entries(a));
    } else {
        assert((a + b).drop_last() =~= a + b.drop_last());
        assert((a + b).last() == b.last());
        lemma_kept_entries_concat(a, b.drop_last());
        match kept_entry(b.last()) {
            Some(v) => {
                assert(kept_entries(a) + kept_entries(b) =~= (kept_entries(a) + kept_entries(
                    b.drop_last(),
                )).push(v));
            },
            None => {},
        }
    }
}

/// Listings that hold the same entries, in any order, keep the same entries.
proof fn lemma_kept_entries_permutation(l1: Seq<ListedEntry>, l2: Seq<ListedEntry>)
    requires
        l1.to_multiset() == l2.to_multiset(),
    ensures
        kept_entries(l1).to_multiset() == kept_entries(l2).to_multiset(),
    decreases l1.len(),
{
    l1.to_multiset_ensures();
    l2.to_multiset_ensures();
    if l1.len() == 0 {
        assert(l2.len() == 0);
        assert(l1 =~= l2);
    } else {
        let x = l1.last();
        let l1p = l1.drop_last();
        assert(l1 =~= l1p.push(x));
        assert(l1p + seq![x] =~= l1);
        l1p.to_multiset_ensures();
        assert(l1.contains(x));
        assert(l1.to_multiset().count(x) > 0);
        assert(l2.contains(x));
        let j = choose|j: int| 0 <= j < l2.len() && l2[j] == x;
        let a = l2.take(j);
        let b = l2.skip(j + 1);
        let l2p = l2.remove(j);
        assert(l2p =~= a + b);
        assert(l2 =~= a + seq![x] + b);
        assert(l2p.to_multiset() =~= l1p.to_multiset()) by {
            assert(l2p.to_multiset() =~= l2.to_multiset().remove(x));
            assert(l1.to_multiset() =~= l1p.to_multiset().insert(x));
        }
        lemma_kept_entries_permutation(l1p, l2p);
        let kx = kept_entries(seq![x]);
        lemma_kept_entries_concat(l1p, seq![x]);
        lemma_kept_entries_concat(a, seq![x]);
        lemma_kept_entries_concat(a + seq![x], b);
        lemma_kept_entries_concat(a, b);
        lemma_multiset_commutative(kept_entries(l1p), kx);
        lemma_multiset_commutative(kept_entries(a), kx);
        lemma_multiset_commutative(kept_entries(a) + kx, kept_entries(b));
        lemma_multiset_commutative(kept_entries(a), kept_entries(b));
        assert(kept_entries(l1).to_multiset() =~= kept_entries(l1p).to_multiset().add(
            kx.to_multiset(),
        ));
        assert(kept_entries(l2).to_multiset() =~= kept_entries(l2p).to_multiset().add(
            kx.to_multiset(),
        ));
    }
}

/// Two listings of one directory snapshot that come in different orders give
/// the same tree: the same answer to whether any entry is kept, and the same
/// tree body.
pub proof fn lemma_snapshot_order_independent(l1: Seq<ListedEntry>, l2: Seq<ListedEntry>)
    requires
        l1.to_multiset() == l2.to_multiset(),
    ensures
        kept_entries(l1).len() == kept_entries(l2).len(),
        tree_body_bytes(kept_entries(l1)) == tree_body_bytes(kept_entries(l2)),
{
    lemma_kept_entries_permutation(l1, l2);
    kept_entries(l1).to_multiset_ensures();
    kept_entries(l2).to_multiset_ensures();
    lemma_tree_body_order_independent(kept_entries(l1), kept_entries(l2));
}

/// A listing with distinct names keeps entries with distinct names.
pub proof fn lemma_kept_entries_distinct(listing: Seq<ListedEntry>)
    requires
        listing_names_distinct(listing),
    ensures
        names_distinct(kept_entries(listing)),
    decreases listing.len(),
{
    if listing.len() > 0 {
        let s = listing.drop_last();
        assert(listing_names_distinct(s)) by {
            assert forall|i: int, j: int| 0 <= i < j < s.len() implies s[i].name@ != s[j].name@ by {
                assert(s[i] == listing[i] && s[j] == listing[j]);
            }
        }
        lemma_kept_entries_distinct(s);
        lemma_kept_entries_origin(s);
        let ks = kept_entries(s);
        match kept_entry(listing.last()) {
            Some(v) => {
                assert forall|a: int, b: int| 0 <= a < b < ks.len() + 1 implies ks.push(v)[a].name
                    != ks.push(v)[b].name by {
                    if b == ks.len() {
                        let i = choose|i: int| 0 <= i < s.len() && kept_entry(#[trigger] s[i])
                            == Some(ks[a]);
                        assert(s[i] == listing[i]);
                        assert(listing[listing.len() - 1] == listing.last());
                    }
                }
            },
            None => {},
        }
    }
}

/// A directory whose subdirectories all came out empty, and which holds
/// nothing else, keeps no entry, so no tree object is written for it.
pub proof fn lemma_empty_subdirectories_elided(listing: Seq<ListedEntry>)
    requires
        forall|i: int| 0 <= i < listing.len() ==> (#[trigger] listing[i]).child matches Child::Subtree { id: None },
    ensures
        kept_entries(listing).len() == 0,
{
    lemma_kept_entries_origin(listing);
    if kept_entries(listing).len() > 0 {
        let i = choose|i: int| 0 <= i < listing.len() && kept_entry(#[trigger] listing[i]) == Some(
            kept_entries(listing)[0],
        );
    }
}

/// An empty subdirectory never appears among the entries of its parent's
/// tree.
pub proof fn lemma_empty_subdirectory_absent(listing: Seq<ListedEntry>, i: int)
    requires
        listing_names_distinct(listing),
        0 <= i < listing.len(),
        listing[i].child matches Child::Subtree { id: None },
    ensures
        forall|k: int| 0 <= k < kept_entries(listing).len() ==> (#[trigger] kept_entries(listing)[k]).name != listing[i].name@,
{
    lemma_kept_entries_origin(listing);
    assert forall|k: int| 0 <= k < kept_entries(listing).len() implies (#[trigger] kept_entries(
        listing,
    )[k]).name != listing[i].name@ by {
        let j = choose|j: int| 0 <= j < listing.len() && kept_entry(#[trigger] listing[j]) == Some(
            kept_entries(listing)[k],
        );
        assert(j != i);
    }
}

/// Stores the snapshot of one directory from its listing: subdirectories
/// that came out empty or have a reserved name are dropped, the rest go into
/// a tree object in tree order. Returns the tree's compressed bytes and id, or `None` when no
/// entry is left.
pub fn snapshot_tree(listing: Vec<ListedEntry>) -> (r: Option<(Vec<u8>, [u8; 20])>)
    requires
        listing_names_distinct(listing@),
    ensures
        r is None <==> kept_entries(listing@).len() == 0,
        r matches Some((_, id)) ==> id@ == object_id(
            Kind::Tree,
            tree_body_bytes(kept_entries(listing@)),
        ),
        r matches Some((bytes, _)) ==> zlib_decoded(bytes@) == Some(
            object_bytes(Kind::Tree, tree_body_bytes(kept_entries(listing@))),
        ),
        in_tree_order(tree_order(kept_entries(listing@))),
        tree_order(kept_entries(listing@)).to_multiset() == kept_entries(listing@).to_multiset(),
{
    let mut entries: Vec<TreeEntry> = Vec::new();
    let mut i: usize = 0;
    assert(listing@.take(0) =~= Seq::<ListedEntry>::empty());
    assert(entry_views(entries@) =~= Seq::<EntryView>::empty());
    while i < listing.len()
        invariant
            i <= listing@.len(),
            entry_views(entries@) == kept_entries(listing@.take(i as int)),
        decreases listing.len() - i,
    {
        let le = &listing[i];
        let ghost before = entry_views(entries@);
        match &le.child {
            Child::Blob { mode, id } => {
                let mut name: Vec<u8> = Vec::new();
                name.extend_from_slice(le.name.as_slice());
                assert(name@ =~= le.name@);
                entries.push(TreeEntry { mode: *mode, name, id: *id });
            },
            Child::Subtree { id: Some(id) } => if !is_reserved_name(le.name.as_slice()) {
                let mut name: Vec<u8> = Vec::new();
                name.extend_from_slice(le.name.as_slice());
                assert(name@ =~= le.name@);
                entries.push(TreeEntry { mode: Mode::Directory, name, id: *id });
            },
            Child::Subtree { id: None } => {},
        }
        proof {
            let t = listing@.take(i + 1);
            assert(t.drop_last() =~= listing@.take(i as int));
            assert(t.last() == listing@[i as int]);
            match kept_entry(listing@[i as int]) {
                Some(v) => {
                    assert(entries@.last()@ == v);
                    assert(entry_views(entries@) =~= before.push(v));
                },
                None => {},
            }
        }
        i = i + 1;
    }
    proof {
        assert(listing@.take(i as int) =~= listing@);
        lemma_kept_entries_distinct(listing@);
    }
    build_tree(entries)
}

/// The first record of a tree body and the number of bytes it takes, if the
/// body begins with a well-formed record.
pub open spec fn parse_entry(s: Seq<u8>) -> Option<(EntryView, nat)> {
    let z = find_byte(s, 0);
    let head = s.take(z as int);
    let sp = find_byte(head, 32);
    if z < s.len() && sp < head.len() && mode_of_token(head.take(sp as int)) is Some && z + 21
        <= s.len() {
        Some(
            (
                EntryView {
                    mode: mode_of_token(head.take(sp as int))->0,
                    name: head.subrange(sp + 1int, z as int),
                    id: s.subrange(z + 1int, z + 21int),
                },
                z + 21,
            ),
        )
    } else {
        None
    }
}

/// The records of a tree body, or `None` when it is not a sequence of
/// well-formed records.
pub open spec fn parse_entries(s: Seq<u8>) -> Option<Seq<EntryView>>
    decreases s.len(),
{
    if s.len() == 0 {
        Some(Seq::empty())
    } else {
        match parse_entry(s) {
            Some((e, n)) => if 0 < n <= s.len() {
                match parse_entries(s.skip(n as int)) {
                    Some(es) => Some(seq![e] + es),
                    None => None,
                }
            } else {
                None
            },
            None => None,
        }
    }
}

/// Entries fit to be stored: names without NUL bytes, ids of 20 bytes.
pub open spec fn storable(es: Seq<EntryView>) -> bool {
    forall|i: int| 0 <= i < es.len() ==> (#[trigger] es[i]).id.len() == 20 && forall|j: int|
        0 <= j < es[i].name.len() ==> es[i].name[j] != 0
}

/// Reading back a serialized tree body gives the entries it was written
/// from, in the same order.
pub proof fn lemma_parse_entries_bytes(es: Seq<EntryView>)
    requires
        storable(es),
    ensures
        parse_entries(entries_bytes(es)) == Some(es),
    decreases es.len(),
{
    if es.len() == 0 {
        assert(entries_bytes(es) =~= Seq::<u8>::empty());
        assert(parse_entries(Seq::<u8>::empty()) == Some(Seq::<EntryView>::empty()));
        assert(es =~= Seq::<EntryView>::empty());
    } else {
        let e = es[0];
        let tail = es.drop_first();
        assert(storable(tail)) by {
            assert forall|i: int| 0 <= i < tail.len() implies (#[trigger] tail[i]).id.len() == 20
                && forall|j: int| 0 <= j < tail[i].name.len() ==> tail[i].name[j] != 0 by {
                assert(tail[i] == es[i + 1]);
            }
        }
        lemma_parse_entries_bytes(tail);
        let m = mode_token(e.mode);
        let text = m + seq![32u8] + e.name;
        let eb = entry_bytes(e);
        let s = entries_bytes(es);
        assert(s == eb + entries_bytes(tail));
        assert(eb =~= text + (seq![0u8] + e.id));
        assert(s =~= text + (seq![0u8] + e.id + entries_bytes(tail)));
        assert(m.len() == 5 || m.len() == 6);
        assert forall|i: int| 0 <= i < text.len() implies text[i] != 0 by {
            if i >= m.len() + 1 {
                assert(text[i] == e.name[i - m.len() - 1]);
            }
        }
        lemma_find_byte_absent(text, 0);
        lemma_find_byte_extend(text, seq![0u8] + e.id + entries_bytes(tail), 0);
        assert(find_byte(seq![0u8] + e.id + entries_bytes(tail), 0) == 0);
        let z = text.len();
        assert(find_byte(s, 0) == z);
        assert(s.take(z as int) =~= text);
        assert forall|i: int| 0 <= i < m.len() implies m[i] != 32 by {}
        lemma_find_byte_absent(m, 32);
        lemma_find_byte_extend(m, seq![32u8] + e.name, 32);
        assert(text =~= m + (seq![32u8] + e.name));
        assert(find_byte(seq![32u8] + e.name, 32) == 0);
        assert(text.take(m.len() as int) =~= m);
        lemma_mode_token_round_trip(e.mode);
        assert(text.subrange(m.len() + 1int, z as int) =~= e.name);
        assert(s.subrange(z + 1int, z + 21int) =~= e.id);
        assert(s.skip(z + 21int) =~= entries_bytes(tail));
        assert(seq![e] + tail =~= es);
    }
}

fn copy_id(b: &[u8]) -> (r: [u8; 20])
    requires
        b@.len() == 20,
    ensures
        r@ == b@,
{
    let mut id: [u8; 20] = [0u8; 20];
    let mut k: usize = 0;
    while k < 20
        invariant
            k <= 20,
            b@.len() == 20,
            id@.len() == 20,
            forall|j: int| 0 <= j < k ==> id@[j] == b@[j],
        decreases 20 - k,
    {
        id[k] = b[k];
        k = k + 1;
    }
    assert(id@ =~= b@);
    id
}

/// Reads the entries of a tree body, in the order they are stored.
pub fn parse_tree(body: &[u8]) -> (r: Result<Vec<TreeEntry>, ObjectError>)
    ensures
        match r {
            Ok(es) => parse_entries(body@) == Some(entry_views(es@)),
            Err(e) => e == ObjectError::CorruptObject && parse_entries(body@) is None,
        },
{
    let mut out: Vec<TreeEntry> = Vec::new();
    let mut pos: usize = 0;
    assert(body@.skip(0) =~= body@);
    assert(entry_views(out@) =~= Seq::<EntryView>::empty());
    while pos < body.len()
        invariant
            pos <= body@.len(),
            parse_entries(body@) == match parse_entries(body@.skip(pos as int)) {
                Some(es) => Some(entry_views(out@) + es),
                None => None,
            },
        decreases body.len() - pos,
    {
        let rest = slice_subrange(body, pos, body.len());
        assert(rest@ == body@.skip(pos as int));
        let z = find_first(rest, 0);
        if z >= rest.len() {
            return Err(ObjectError::CorruptObject);
        }
        let head = slice_subrange(rest, 0, z);
        let sp = find_first(head, 32);
        if sp >= head.len() {
            return Err(ObjectError::CorruptObject);
        }
        let mode = match Mode::from_token(slice_subrange(head, 0, sp)) {
            Some(m) => m,
            None => {
                return Err(ObjectError::CorruptObject);
            },
        };
        if rest.len() - z < 21 {
            return Err(ObjectError::CorruptObject);
        }
        let mut name: Vec<u8> = Vec::new();
        name.extend_from_slice(slice_subrange(head, sp + 1, z));
        let id = copy_id(slice_subrange(rest, z + 1, z + 21));
        let e = TreeEntry { mode, name, id };
        proof {
            let v = parse_entry(rest@).unwrap().0;
            assert(e@.name =~= v.name);
            assert(e@ == v);
            assert(rest@.skip(z + 21) =~= body@.skip(pos + z + 21));
            assert(entry_views(out@.push(e)) =~= entry_views(out@) + seq![e@]);
        }
        let ghost prev = entry_views(out@);
        out.push(e);
        proof {
            match parse_entries(body@.skip(pos + z + 21)) {
                Some(es) => {
                    assert(prev + (seq![e@] + es) =~= entry_views(out@) + es);
                },
                None => {},
            }
        }
        pos = pos + z + 21;
    }
    assert(body@.skip(pos as int) =~= Seq::<u8>::empty());
    assert(entry_views(out@) + Seq::<EntryView>::empty() =~= entry_views(out@));
    Ok(out)
}

/// Directory names that a snapshot leaves out: the store's own metadata
/// directory and the build-artifact directory.
pub open spec fn reserved_name(name: Seq<u8>) -> bool {
    name == seq![46u8, 103, 105, 116] || name == seq![116u8, 97, 114, 103, 101, 116]
}

/// Whether a subdirectory of this name is left out of a snapshot.
pub fn is_reserved_name(name: &[u8]) -> (r: bool)
    ensures
        r == reserved_name(name@),
{
    if name.len() == 4 && name[0] == 46 && name[1] == 103 && name[2] == 105 && name[3] == 116 {
        assert(name@ =~= seq![46u8, 103, 105, 116]);
        true
    } else if name.len() == 6 && name[0] == 116 && name[1] == 97 && name[2] == 114 && name[3]
        == 103 && name[4] == 101 && name[5] == 116 {
        assert(name@ =~= seq![116u8, 97, 114, 103, 101, 116]);
        true
    } else {
        proof {
            if name@ == seq![46u8, 103, 105, 116] {
                assert(name@[0] == 46 && name@[3] == 116);
            }
            if name@ == seq![116u8, 97, 114, 103, 101, 116] {
                assert(name@[0] == 116 && name@[5] == 116);
            }
        }
        false
    }
}

} // verus!

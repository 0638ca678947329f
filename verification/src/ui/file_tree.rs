use vstd::prelude::*;

use std::path::PathBuf;

use crate::graph::spec::lemma_filter_take_succ;

verus! {

#[verifier::external_type_specification]
#[verifier::external_body]
pub struct ExPathBuf(PathBuf);

/// `PathBuf::clone` returns a copy of the path, equal to it.
pub assume_specification[ <PathBuf as Clone>::clone ](path: &PathBuf) -> (copy: PathBuf)
    ensures
        copy == *path,
;

/// One entry in the cached file tree.
///
/// `FileEntry` is a plain data snapshot of the filesystem taken at scan time.
/// It is *not* live: filesystem changes only appear after a rescan. This keeps
/// the UI fast (no per-frame directory reads) and avoids borrowing the OS
/// filesystem handle across ImGui frames.
#[derive(Debug)]
pub struct FileEntry {
    pub name: String,
    pub path: PathBuf,
    pub is_dir: bool,
    pub children: Vec<FileEntry>,
}

/// `a` and `b` are the same tree: equal names, paths and kinds, and the same
/// children, one for one, in order.
pub open spec fn same_tree(a: FileEntry, b: FileEntry) -> bool
    decreases a,
{
    &&& a.name@ == b.name@
    &&& a.path == b.path
    &&& a.is_dir == b.is_dir
    &&& a.children@.len() == b.children@.len()
    &&& forall|t: int|
        0 <= t < a.children@.len() ==> same_tree(
            #[trigger] a.children@[t],
            b.children@[t],
        )
}

/// A copy of the tree `e`.
fn clone_entry(e: &FileEntry) -> (copy: FileEntry)
    ensures
        same_tree(copy, *e),
    decreases e,
{
    let mut children: Vec<FileEntry> = Vec::new();
    let mut i: usize = 0;
    while i < e.children.len()
        invariant
            0 <= i <= e.children@.len(),
            children@.len() == i,
            forall|t: int| 0 <= t < i ==> same_tree(#[trigger] children@[t], e.children@[t]),
        decreases e.children@.len() - i,
    {
        proof {
            assert(decreases_to!(e => e.children));
            assert(decreases_to!(e.children => e.children@));
            assert(decreases_to!(e.children@ => e.children@[i as int]));
        }
        let child = clone_entry(&e.children[i]);
        children.push(child);
        i += 1;
    }
    FileEntry { name: e.name.clone(), path: e.path.clone(), is_dir: e.is_dir, children }
}

impl Clone for FileEntry {
    /// A copy of the whole tree.
    fn clone(&self) -> (copy: Self)
        ensures
            same_tree(copy, *self),
    {
        clone_entry(self)
    }
}

// ---------------------------------------------------------------------------
// Which entries are listed.
// ---------------------------------------------------------------------------

/// Hidden entries (names starting with `.`) and the `target` build-output
/// directory are left out of the tree.
pub open spec fn listed(name: Seq<char>) -> bool {
    &&& !(name.len() > 0 && name[0] == '.')
    &&& name != "target"@
}

/// Whether an entry named `name` is shown in the tree.
pub fn is_listed(name: &str) -> (shown: bool)
    ensures
        shown == listed(name@),
{
    if name.unicode_len() > 0 && name.get_char(0) == '.' {
        return false;
    }
    let own = String::from_str(name);
    let target = String::from_str("target");
    !(own == target)
}

// ---------------------------------------------------------------------------
// Ordering of names.
// ---------------------------------------------------------------------------

/// Lexicographic order on character sequences, characters compared by code
/// point (the order of `str`'s comparison operators).
pub open spec fn chars_le(a: Seq<char>, b: Seq<char>) -> bool
    decreases a.len(),
{
    if a.len() == 0 {
        true
    } else if b.len() == 0 {
        false
    } else if a[0] != b[0] {
        (a[0] as int) < (b[0] as int)
    } else {
        chars_le(a.drop_first(), b.drop_first())
    }
}

/// `chars_le` is reflexive.
pub proof fn lemma_chars_le_reflexive(a: Seq<char>)
    ensures
        chars_le(a, a),
    decreases a.len(),
{
    if a.len() > 0 {
        lemma_chars_le_reflexive(a.drop_first());
    }
}

/// `chars_le` is total.
pub proof fn lemma_chars_le_total(a: Seq<char>, b: Seq<char>)
    ensures
        chars_le(a, b) || chars_le(b, a),
    decreases a.len(),
{
    if a.len() > 0 && b.len() > 0 && a[0] == b[0] {
        lemma_chars_le_total(a.drop_first(), b.drop_first());
    }
}

/// `chars_le` is transitive.
pub proof fn lemma_chars_le_transitive(a: Seq<char>, b: Seq<char>, c: Seq<char>)
    requires
        chars_le(a, b),
        chars_le(b, c),
    ensures
        chars_le(a, c),
    decreases a.len(),
{
    if a.len() > 0 && b.len() > 0 && c.len() > 0 && a[0] == b[0] && b[0] == c[0] {
        lemma_chars_le_transitive(a.drop_first(), b.drop_first(), c.drop_first());
    }
}

/// `chars_le` is the lexicographic order: `a` comes no later than `b`
/// exactly when `a` is a prefix of `b`, or at the first position where they
/// differ `a` has the smaller character.
pub proof fn law_chars_le_is_lexicographic(a: Seq<char>, b: Seq<char>)
    ensures
        chars_le(a, b) <==> ((a.len() <= b.len() && a =~= b.take(a.len() as int)) || exists|i: int|
            0 <= i < a.len() && i < b.len() && a.take(i) =~= b.take(i) && (#[trigger] a[i] as int)
                < (b[i] as int)),
    decreases a.len(),
{
    if a.len() == 0 {
        assert(a =~= b.take(0));
    } else if b.len() == 0 {
        assert(!(a.len() <= b.len()));
    } else {
        let a1 = a.drop_first();
        let b1 = b.drop_first();
        law_chars_le_is_lexicographic(a1, b1);
        let prefix = a.len() <= b.len() && a =~= b.take(a.len() as int);
        let prefix1 = a1.len() <= b1.len() && a1 =~= b1.take(a1.len() as int);
        let diff = exists|i: int|
            0 <= i < a.len() && i < b.len() && a.take(i) =~= b.take(i) && (#[trigger] a[i] as int)
                < (b[i] as int);
        let diff1 = exists|i: int|
            0 <= i < a1.len() && i < b1.len() && a1.take(i) =~= b1.take(i) && (#[trigger] a1[i] as int)
                < (b1[i] as int);
        if a[0] != b[0] {
            if (a[0] as int) < (b[0] as int) {
                assert(a.take(0) =~= b.take(0));
                assert(diff);
            } else {
                assert(!prefix) by {
                    if prefix {
                        assert(a[0] == b.take(a.len() as int)[0]);
                    }
                }
                assert(!diff) by {
                    if diff {
                        let i = choose|i: int|
                            0 <= i < a.len() && i < b.len() && a.take(i) =~= b.take(i) && (
                            #[trigger] a[i] as int) < (b[i] as int);
                        if i > 0 {
                            assert(a.take(i)[0] == b.take(i)[0]);
                        }
                    }
                }
            }
        } else {
            assert(prefix == prefix1) by {
                if prefix {
                    assert forall|k: int| 0 <= k < a1.len() implies #[trigger] a1[k] == b1.take(a1.len() as int)[k] by {
                        assert(a[k + 1] == b.take(a.len() as int)[k + 1]);
                    }
                }
                if prefix1 {
                    assert forall|k: int| 0 <= k < a.len() implies #[trigger] a[k] == b.take(a.len() as int)[k] by {
                        if k > 0 {
                            assert(a1[k - 1] == b1.take(a1.len() as int)[k - 1]);
                        }
                    }
                }
            }
            assert(diff == diff1) by {
                if diff {
                    let i = choose|i: int|
                        0 <= i < a.len() && i < b.len() && a.take(i) =~= b.take(i) && (
                        #[trigger] a[i] as int) < (b[i] as int);
                    assert(i > 0);
                    assert(a1.take(i - 1) =~= b1.take(i - 1)) by {
                        assert forall|k: int| 0 <= k < i - 1 implies #[trigger] a1.take(i - 1)[k] == b1.take(i - 1)[k] by {
                            assert(a.take(i)[k + 1] == b.take(i)[k + 1]);
                        }
                    }
                    assert(a1[i - 1] == a[i] && b1[i - 1] == b[i]);
                }
                if diff1 {
                    let i = choose|i: int|
                        0 <= i < a1.len() && i < b1.len() && a1.take(i) =~= b1.take(i) && (
                        #[trigger] a1[i] as int) < (b1[i] as int);
                    assert(a.take(i + 1) =~= b.take(i + 1)) by {
                        assert forall|k: int| 0 <= k < i + 1 implies #[trigger] a.take(i + 1)[k] == b.take(i + 1)[k] by {
                            if k > 0 {
                                assert(a1.take(i)[k - 1] == b1.take(i)[k - 1]);
                            }
                        }
                    }
                    assert(a[i + 1] == a1[i] && b[i + 1] == b1[i]);
                }
            }
        }
    }
}

/// Whether `a` comes no later than `b` in `chars_le` order.
fn key_le(a: &Vec<char>, b: &Vec<char>) -> (le: bool)
    ensures
        le == chars_le(a@, b@),
{
    let mut i: usize = 0;
    proof {
        assert(a@.skip(0) =~= a@);
        assert(b@.skip(0) =~= b@);
    }
    while i < a.len() && i < b.len()
        invariant
            0 <= i <= a@.len(),
            i <= b@.len(),
            chars_le(a@, b@) == chars_le(a@.skip(i as int), b@.skip(i as int)),
        decreases a@.len() - i,
    {
        if a[i] != b[i] {
            proof {
                assert(a@[i as int] == a@.skip(i as int)[0]);
                assert(b@[i as int] == b@.skip(i as int)[0]);
            }
            return a[i] < b[i];
        }
        proof {
            assert(a@.skip(i as int).drop_first() =~= a@.skip(i + 1));
            assert(b@.skip(i as int).drop_first() =~= b@.skip(i + 1));
        }
        i += 1;
    }
    i == a.len()
}

// ---------------------------------------------------------------------------
// Stable sorting by precomputed keys.
// ---------------------------------------------------------------------------

/// The contents of each key.
pub open spec fn key_seqs(keys: Seq<Vec<char>>) -> Seq<Seq<char>> {
    keys.map_values(|k: Vec<char>| k@)
}

/// `out` is `items` rearranged by `perm` (`out[t] == items[perm[t]]`), in
/// nondecreasing order of `keys` (`keys[i]` being the key of `items[i]`),
/// with items of equal keys kept in their original order.
pub open spec fn arranges<T>(items: Seq<T>, keys: Seq<Seq<char>>, out: Seq<T>, perm: Seq<int>) -> bool {
    &&& perm.len() == items.len()
    &&& out.len() == items.len()
    &&& forall|t: int| 0 <= t < perm.len() ==> 0 <= #[trigger] perm[t] < items.len()
    &&& forall|t: int| 0 <= t < perm.len() ==> #[trigger] out[t] == items[perm[t]]
    &&& forall|t: int, u: int| 0 <= t < u < perm.len() ==> #[trigger] perm[t] != #[trigger] perm[u]
    &&& forall|t: int, u: int|
        0 <= t < u < perm.len() ==> chars_le(keys[#[trigger] perm[t]], keys[#[trigger] perm[u]])
    &&& forall|t: int, u: int|
        0 <= t < u < perm.len() && keys[#[trigger] perm[t]] == keys[#[trigger] perm[u]] ==> perm[t]
            < perm[u]
}

/// `out` is the stable sort of `items` by `keys`.
pub open spec fn is_stable_sort<T>(items: Seq<T>, keys: Seq<Seq<char>>, out: Seq<T>) -> bool {
    exists|perm: Seq<int>| arranges(items, keys, out, perm)
}

/// Inserting item `i` at position `q` of an arrangement of the first `i`
/// items gives an arrangement of the first `i + 1` items, when every key
/// before `q` is at most the new key and every key from `q` on is above it.
proof fn lemma_insert_arranges<T>(
    items: Seq<T>,
    keys: Seq<Seq<char>>,
    out: Seq<T>,
    perm: Seq<int>,
    i: int,
    q: int,
)
    requires
        0 <= i < items.len(),
        keys.len() == items.len(),
        arranges(items.take(i), keys, out, perm),
        0 <= q <= perm.len(),
        q > 0 ==> chars_le(keys[perm[q - 1]], keys[i]),
        forall|u: int| q <= u < perm.len() ==> !chars_le(#[trigger] keys[perm[u]], keys[i]),
    ensures
        arranges(items.take(i + 1), keys, out.insert(q, items[i]), perm.insert(q, i)),
{
    let p2 = perm.insert(q, i);
    let o2 = out.insert(q, items[i]);
    perm.insert_ensures(q, i);
    out.insert_ensures(q, items[i]);
    let n = perm.len();
    assert(n == i);
    // Where each position of the new arrangement came from.
    assert forall|t: int| 0 <= t < p2.len() implies (t < q ==> p2[t] == perm[t]) && (t > q
        ==> p2[t] == perm[t - 1]) && (t == q ==> p2[t] == i) by {
        if t > q {
            assert(p2[(t - 1) + 1] == perm[t - 1]);
        }
    }
    assert forall|t: int| 0 <= t < p2.len() implies 0 <= #[trigger] p2[t] < items.take(i + 1).len() by {
        if t < q {
        } else if t > q {
            assert(p2[t] == perm[t - 1]);
        }
    }
    assert forall|t: int| 0 <= t < p2.len() implies #[trigger] o2[t] == items.take(i + 1)[p2[t]] by {
        if t < q {
            assert(o2[t] == out[t]);
        } else if t > q {
            assert(o2[(t - 1) + 1] == out[t - 1]);
            assert(p2[t] == perm[t - 1]);
        }
    }
    assert forall|t: int, u: int| 0 <= t < u < p2.len() implies #[trigger] p2[t] != #[trigger] p2[u] by {
        if u == q {
        } else if t == q {
            assert(p2[u] == perm[u - 1]);
        } else {
            let t0 = if t < q { t } else { t - 1 };
            let u0 = if u < q { u } else { u - 1 };
            assert(p2[t] == perm[t0] && p2[u] == perm[u0]);
            assert(perm[t0] != perm[u0]);
        }
    }
    assert forall|t: int, u: int| 0 <= t < u < p2.len() implies chars_le(
        keys[#[trigger] p2[t]],
        keys[#[trigger] p2[u]],
    ) by {
        if u == q {
            if t < q - 1 {
                assert(chars_le(keys[perm[t]], keys[perm[q - 1]]));
                lemma_chars_le_transitive(keys[perm[t]], keys[perm[q - 1]], keys[i]);
            }
        } else if t == q {
            assert(p2[u] == perm[u - 1]);
            lemma_chars_le_total(keys[perm[u - 1]], keys[i]);
        } else {
            let t0 = if t < q { t } else { t - 1 };
            let u0 = if u < q { u } else { u - 1 };
            assert(p2[t] == perm[t0] && p2[u] == perm[u0]);
            assert(chars_le(keys[perm[t0]], keys[perm[u0]]));
        }
    }
    assert forall|t: int, u: int|
        0 <= t < u < p2.len() && keys[#[trigger] p2[t]] == keys[#[trigger] p2[u]] implies p2[t]
        < p2[u] by {
        if u == q {
        } else if t == q {
            assert(p2[u] == perm[u - 1]);
            lemma_chars_le_reflexive(keys[i]);
        } else {
            let t0 = if t < q { t } else { t - 1 };
            let u0 = if u < q { u } else { u - 1 };
            assert(p2[t] == perm[t0] && p2[u] == perm[u0]);
        }
    }
}

/// Sort `items` stably by `keys`, `keys[i]` being the key of `items[i]`:
/// items come out in nondecreasing `chars_le` order of their keys, and items
/// with equal keys keep their original relative order.
pub fn stable_sort_by_keys<T>(items: Vec<T>, keys: &Vec<Vec<char>>) -> (sorted: Vec<T>)
    requires
        keys@.len() == items@.len(),
    ensures
        is_stable_sort(items@, key_seqs(keys@), sorted@),
{
    let ghost all = items@;
    let ghost ks = key_seqs(keys@);
    let mut out: Vec<T> = Vec::new();
    let mut order: Vec<usize> = Vec::new();
    let ghost mut perm: Seq<int> = Seq::empty();
    proof {
        assert(all.take(0) =~= Seq::<T>::empty());
    }
    for item in it: items.into_iter()
        invariant
            it.seq() == all,
            keys@.len() == all.len(),
            ks == key_seqs(keys@),
            arranges(all.take(it.index()), ks, out@, perm),
            order@.len() == perm.len(),
            forall|t: int| 0 <= t < perm.len() ==> #[trigger] order@[t] as int == perm[t],
    {
        let i: usize = order.len();
        let mut q: usize = out.len();
        while q > 0 && !key_le(&keys[order[q - 1]], &keys[i])
            invariant
                0 <= q <= out@.len(),
                i == perm.len(),
                i < keys@.len(),
                keys@.len() == all.len(),
                ks == key_seqs(keys@),
                arranges(all.take(i as int), ks, out@, perm),
                order@.len() == perm.len(),
                forall|t: int| 0 <= t < perm.len() ==> #[trigger] order@[t] as int == perm[t],
                forall|u: int| q <= u < perm.len() ==> !chars_le(#[trigger] ks[perm[u]], ks[i as int]),
            decreases q,
        {
            q -= 1;
        }
        proof {
            assert(item == all[i as int]);
            lemma_insert_arranges(all, ks, out@, perm, i as int, q as int);
            perm = perm.insert(q as int, i as int);
        }
        out.insert(q, item);
        order.insert(q, i);
        proof {
            assert(all.take(i + 1) == all.take(it.index() + 1));
            assert forall|t: int| 0 <= t < perm.len() implies #[trigger] order@[t] as int == perm[t] by {
                order@.insert_ensures(q as int, i);
            }
        }
    }
    proof {
        assert(all.take(all.len() as int) =~= all);
    }
    out
}

// ---------------------------------------------------------------------------
// The order of one directory level.
// ---------------------------------------------------------------------------

/// What `str::to_lowercase` makes of a string (the Unicode lowercase mapping).
pub uninterp spec fn lowercase(s: Seq<char>) -> Seq<char>;

/// `str::to_lowercase`: the result is the lowercase mapping of `s`, a
/// function of `s` alone; nothing more is stated of it.
#[verifier::external_body]
fn to_lowercase(s: &str) -> (lower: String)
    ensures
        lower@ == lowercase(s@),
{
    s.to_lowercase()
}

/// The characters of `s`, in order.
fn chars_of(s: &str) -> (chars: Vec<char>)
    ensures
        chars@ == s@,
{
    let n = s.unicode_len();
    let mut chars: Vec<char> = Vec::new();
    let mut i: usize = 0;
    while i < n
        invariant
            n == s@.len(),
            0 <= i <= n,
            chars@ == s@.take(i as int),
        decreases n - i,
    {
        chars.push(s.get_char(i));
        proof {
            assert(s@.take(i + 1) =~= s@.take(i as int).push(s@[i as int]));
        }
        i += 1;
    }
    proof {
        assert(s@.take(n as int) =~= s@);
    }
    chars
}

/// Every character of `s` is an ASCII character.
pub open spec fn is_ascii_text(s: Seq<char>) -> bool {
    forall|i: int| 0 <= i < s.len() ==> (#[trigger] s[i] as int) < 128
}

/// `c` with `A` to `Z` turned into `a` to `z`, other characters unchanged.
pub open spec fn ascii_lower_char(c: char) -> char {
    if 'A' <= c <= 'Z' {
        ((c as int) + 32) as char
    } else {
        c
    }
}

/// `s` with every ASCII capital letter turned into its small letter.
pub open spec fn ascii_lowercase(s: Seq<char>) -> Seq<char> {
    s.map_values(|c: char| ascii_lower_char(c))
}

/// A name in lowercase: for an all-ASCII name its ASCII lowercase form
/// (what `str::to_lowercase` gives for ASCII text), otherwise what
/// `str::to_lowercase` gives.
pub open spec fn lowercase_name(name: Seq<char>) -> Seq<char> {
    if is_ascii_text(name) {
        ascii_lowercase(name)
    } else {
        lowercase(name)
    }
}

/// The sort key of an entry: its name in lowercase.
pub open spec fn entry_key(e: FileEntry) -> Seq<char> {
    lowercase_name(e.name@)
}

/// An all-ASCII name's sort key has one character per character of the
/// name: the same character, except that a capital letter `A` to `Z`
/// becomes the letter 32 code points further on, `a` to `z`.
pub proof fn law_ascii_key_lowercases_every_letter(name: Seq<char>)
    requires
        is_ascii_text(name),
    ensures
        lowercase_name(name).len() == name.len(),
        forall|i: int|
            0 <= i < name.len() ==> (#[trigger] lowercase_name(name)[i] as int) == (if 65 <= (
            name[i] as int) <= 90 {
                (name[i] as int) + 32
            } else {
                name[i] as int
            }),
{
}

/// The characters of `name` in lowercase (see `lowercase_name`).
fn lowercase_chars(name: &str) -> (key: Vec<char>)
    ensures
        key@ == lowercase_name(name@),
{
    let chars = chars_of(name);
    let mut ascii = true;
    let mut i: usize = 0;
    while i < chars.len()
        invariant
            chars@ == name@,
            0 <= i <= chars@.len(),
            ascii == (forall|k: int| 0 <= k < i ==> (#[trigger] chars@[k] as int) < 128),
        decreases chars@.len() - i,
    {
        if chars[i] >= '\u{80}' {
            ascii = false;
        }
        i += 1;
    }
    if !ascii {
        return chars_of(to_lowercase(name).as_str());
    }
    let mut key: Vec<char> = Vec::new();
    let mut j: usize = 0;
    while j < chars.len()
        invariant
            chars@ == name@,
            is_ascii_text(name@),
            0 <= j <= chars@.len(),
            key@ == ascii_lowercase(name@).take(j as int),
        decreases chars@.len() - j,
    {
        let c = chars[j];
        let lower = if 'A' <= c && c <= 'Z' {
            ((c as u8) + 32) as char
        } else {
            c
        };
        proof {
            assert(ascii_lower_char(c) == lower);
            assert(ascii_lowercase(name@).take(j + 1) =~= ascii_lowercase(name@).take(j as int).push(lower));
        }
        key.push(lower);
        j += 1;
    }
    proof {
        assert(ascii_lowercase(name@).take(chars@.len() as int) =~= ascii_lowercase(name@));
    }
    key
}

/// The sort keys of `entries`, in order.
pub open spec fn entry_keys(entries: Seq<FileEntry>) -> Seq<Seq<char>> {
    entries.map_values(|e: FileEntry| entry_key(e))
}

/// The directories among `entries`, in order.
pub open spec fn dirs_of(entries: Seq<FileEntry>) -> Seq<FileEntry> {
    entries.filter(|e: FileEntry| e.is_dir)
}

/// The files (non-directories) among `entries`, in order.
pub open spec fn files_of(entries: Seq<FileEntry>) -> Seq<FileEntry> {
    entries.filter(|e: FileEntry| !e.is_dir)
}

/// Order the entries of one directory the standard file-tree way:
/// directories before files, each group sorted by lowercase name, entries
/// whose lowercase names are equal keeping their given order.
pub fn order_entries(entries: Vec<FileEntry>) -> (ordered: Vec<FileEntry>)
    ensures
        ordered@.len() == dirs_of(entries@).len() + files_of(entries@).len(),
        is_stable_sort(
            dirs_of(entries@),
            entry_keys(dirs_of(entries@)),
            ordered@.take(dirs_of(entries@).len() as int),
        ),
        is_stable_sort(
            files_of(entries@),
            entry_keys(files_of(entries@)),
            ordered@.skip(dirs_of(entries@).len() as int),
        ),
        forall|t: int|
            0 <= t < dirs_of(entries@).len() ==> (#[trigger] ordered@[t]).is_dir,
        forall|t: int|
            dirs_of(entries@).len() <= t < ordered@.len() ==> !(#[trigger] ordered@[t]).is_dir,
        forall|t: int, u: int|
            0 <= t < u < dirs_of(entries@).len() ==> chars_le(
                lowercase_name((#[trigger] ordered@[t]).name@),
                lowercase_name((#[trigger] ordered@[u]).name@),
            ),
        forall|t: int, u: int|
            dirs_of(entries@).len() <= t < u < ordered@.len() ==> chars_le(
                lowercase_name((#[trigger] ordered@[t]).name@),
                lowercase_name((#[trigger] ordered@[u]).name@),
            ),
{
    let ghost all = entries@;
    let ghost is_dir = |e: FileEntry| e.is_dir;
    let ghost is_file = |e: FileEntry| !e.is_dir;
    let mut dirs: Vec<FileEntry> = Vec::new();
    let mut dir_keys: Vec<Vec<char>> = Vec::new();
    let mut files: Vec<FileEntry> = Vec::new();
    let mut file_keys: Vec<Vec<char>> = Vec::new();
    for e in it: entries.into_iter()
        invariant
            it.seq() == all,
            is_dir == (|e: FileEntry| e.is_dir),
            is_file == (|e: FileEntry| !e.is_dir),
            dirs@ == all.take(it.index()).filter(is_dir),
            files@ == all.take(it.index()).filter(is_file),
            key_seqs(dir_keys@) == entry_keys(dirs@),
            key_seqs(file_keys@) == entry_keys(files@),
            dir_keys@.len() == dirs@.len(),
            file_keys@.len() == files@.len(),
    {
        proof {
            lemma_filter_take_succ(all, is_dir, it.index());
            lemma_filter_take_succ(all, is_file, it.index());
        }
        let key = lowercase_chars(e.name.as_str());
        if e.is_dir {
            proof {
                let ks = key_seqs(dir_keys@.push(key));
                let es = entry_keys(dirs@.push(e));
                assert forall|t: int| 0 <= t < ks.len() implies ks[t] == es[t] by {
                    if t < dir_keys@.len() {
                        assert(key_seqs(dir_keys@)[t] == entry_keys(dirs@)[t]);
                        assert(dir_keys@.push(key)[t] == dir_keys@[t]);
                        assert(dirs@.push(e)[t] == dirs@[t]);
                    }
                }
                assert(ks =~= es);
            }
            dirs.push(e);
            dir_keys.push(key);
        } else {
            proof {
                let ks = key_seqs(file_keys@.push(key));
                let es = entry_keys(files@.push(e));
                assert forall|t: int| 0 <= t < ks.len() implies ks[t] == es[t] by {
                    if t < file_keys@.len() {
                        assert(key_seqs(file_keys@)[t] == entry_keys(files@)[t]);
                        assert(file_keys@.push(key)[t] == file_keys@[t]);
                        assert(files@.push(e)[t] == files@[t]);
                    }
                }
                assert(ks =~= es);
            }
            files.push(e);
            file_keys.push(key);
        }
    }
    proof {
        assert(all.take(all.len() as int) =~= all);
    }
    let mut ordered = stable_sort_by_keys(dirs, &dir_keys);
    let mut sorted_files = stable_sort_by_keys(files, &file_keys);
    let ghost sorted_dirs = ordered@;
    let ghost sorted_files_seq = sorted_files@;
    ordered.append(&mut sorted_files);
    proof {
        assert(ordered@.take(sorted_dirs.len() as int) =~= sorted_dirs);
        assert(ordered@.skip(sorted_dirs.len() as int) =~= sorted_files_seq);
        let nd = sorted_dirs.len() as int;
        lemma_sorted_by_entry_key(dirs_of(all), sorted_dirs);
        lemma_sorted_by_entry_key(files_of(all), sorted_files_seq);
        assert forall|t: int| 0 <= t < nd implies (#[trigger] ordered@[t]).is_dir by {
            assert(ordered@[t] == sorted_dirs[t]);
        }
        assert forall|t: int| nd <= t < ordered@.len() implies !(#[trigger] ordered@[t]).is_dir by {
            assert(ordered@[t] == sorted_files_seq[t - nd]);
        }
        assert forall|t: int, u: int| 0 <= t < u < nd implies chars_le(
            lowercase_name((#[trigger] ordered@[t]).name@),
            lowercase_name((#[trigger] ordered@[u]).name@),
        ) by {
            assert(ordered@[t] == sorted_dirs[t] && ordered@[u] == sorted_dirs[u]);
        }
        assert forall|t: int, u: int| nd <= t < u < ordered@.len() implies chars_le(
            lowercase_name((#[trigger] ordered@[t]).name@),
            lowercase_name((#[trigger] ordered@[u]).name@),
        ) by {
            assert(ordered@[t] == sorted_files_seq[t - nd] && ordered@[u] == sorted_files_seq[u - nd]);
        }
    }
    ordered
}

/// A stable sort of entries by their keys lists them in nondecreasing key
/// order, and every entry it lists was among the given ones.
proof fn lemma_sorted_by_entry_key(items: Seq<FileEntry>, out: Seq<FileEntry>)
    requires
        is_stable_sort(items, entry_keys(items), out),
    ensures
        forall|t: int, u: int|
            0 <= t < u < out.len() ==> chars_le(
                entry_key(#[trigger] out[t]),
                entry_key(#[trigger] out[u]),
            ),
        forall|t: int| 0 <= t < out.len() ==> items.contains(#[trigger] out[t]),
{
    let keys = entry_keys(items);
    let perm = choose|perm: Seq<int>| arranges(items, keys, out, perm);
    assert forall|t: int, u: int| 0 <= t < u < out.len() implies chars_le(
        entry_key(#[trigger] out[t]),
        entry_key(#[trigger] out[u]),
    ) by {
        assert(chars_le(keys[perm[t]], keys[perm[u]]));
        assert(out[t] == items[perm[t]] && out[u] == items[perm[u]]);
    }
    assert forall|t: int| 0 <= t < out.len() implies items.contains(#[trigger] out[t]) by {
        assert(out[t] == items[perm[t]]);
    }
}

} // verus!

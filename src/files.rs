//! Choosing and ordering the image files of a folder.
//!
//! A file is taken when it is a regular file whose extension (the bytes after
//! the last dot of its name, where that dot is not the name's first byte) is
//! one of jpg, jpeg, png, gif, bmp, webp, compared without regard to ASCII
//! case. The files taken are ordered by the bytes of their names.
use vstd::prelude::*;
use vstd::utf8::encode_utf8;

verus! {

/// The byte of `.` in ASCII.
pub const DOT: u8 = 46;

/// One entry of a folder listing, as the file system reports it. `bytes`
/// holds the file's contents where the caller loaded them.
#[derive(Debug, Clone)]
pub struct FolderEntry {
    pub name: String,
    pub is_file: bool,
    pub bytes: Vec<u8>,
}

/// The UTF-8 bytes of a name.
pub open spec fn name_bytes(name: String) -> Seq<u8> {
    encode_utf8(name@)
}

pub open spec fn ascii_lower(b: u8) -> u8 {
    if 65 <= b <= 90 {
        (b + 32) as u8
    } else {
        b
    }
}

pub open spec fn lowered(s: Seq<u8>) -> Seq<u8> {
    s.map_values(|b: u8| ascii_lower(b))
}

/// An extension of a recognised raster format, in any ASCII case: the
/// ASCII codes below spell jpg, jpeg, png, gif, bmp and webp.
pub open spec fn is_image_extension(e: Seq<u8>) -> bool {
    let l = lowered(e);
    ||| l == seq![106u8, 112u8, 103u8]
    ||| l == seq![106u8, 112u8, 101u8, 103u8]
    ||| l == seq![112u8, 110u8, 103u8]
    ||| l == seq![103u8, 105u8, 102u8]
    ||| l == seq![98u8, 109u8, 112u8]
    ||| l == seq![119u8, 101u8, 98u8, 112u8]
}

/// The name `n` has an extension, at the last dot `k`, that names a
/// recognised raster format.
pub open spec fn has_image_extension(n: Seq<u8>) -> bool {
    exists|k: int|
        #![trigger n[k]]
        0 < k < n.len() && n[k] == DOT && (forall|j: int| k < j < n.len() ==> n[j] != DOT)
            && is_image_extension(n.subrange(k + 1, n.len() as int))
}

/// `a` comes before `b` in byte-wise lexicographic order.
pub open spec fn lex_lt(a: Seq<u8>, b: Seq<u8>) -> bool
    decreases a.len(),
{
    if a.len() == 0 {
        b.len() > 0
    } else if b.len() == 0 {
        false
    } else if a[0] != b[0] {
        a[0] < b[0]
    } else {
        lex_lt(a.drop_first(), b.drop_first())
    }
}

fn lower_byte(b: u8) -> (r: u8)
    ensures
        r == ascii_lower(b),
{
    if 65 <= b && b <= 90 {
        b + 32
    } else {
        b
    }
}

/// Whether the bytes of `b` from `start` on equal `word` once lowered.
fn tail_matches(b: &[u8], start: usize, word: &[u8]) -> (r: bool)
    requires
        start <= b@.len(),
    ensures
        r == (lowered(b@.subrange(start as int, b@.len() as int)) == word@),
{
    let ghost tail = b@.subrange(start as int, b@.len() as int);
    let n = b.len();
    if n - start != word.len() {
        assert(lowered(tail).len() != word@.len());
        return false;
    }
    let mut j: usize = 0;
    while j < word.len()
        invariant
            j <= word@.len(),
            start + word@.len() == b@.len(),
            n == b@.len(),
            tail == b@.subrange(start as int, b@.len() as int),
            forall|t: int| 0 <= t < j ==> ascii_lower(tail[t]) == word@[t],
        decreases word@.len() - j,
    {
        if lower_byte(b[start + j]) != word[j] {
            assert(lowered(tail)[j as int] != word@[j as int]);
            return false;
        }
        j += 1;
    }
    assert(lowered(tail) =~= word@);
    true
}

/// Whether a file of this name is taken as an image: its extension is one
/// of jpg, jpeg, png, gif, bmp, webp in any ASCII case.
pub fn is_image_file_name(name: &str) -> (r: bool)
    ensures
        r == has_image_extension(encode_utf8(name@)),
{
    let b = name.as_bytes();
    let ghost n = b@;
    assert(n == encode_utf8(name@));
    let mut i: usize = b.len();
    while i > 0
        invariant
            i <= n.len(),
            b@ == n,
            forall|j: int| i <= j < n.len() ==> n[j] != DOT,
        ensures
            i == 0 || n[i - 1] == DOT,
        decreases i,
    {
        if b[i - 1] == DOT {
            break;
        }
        i -= 1;
    }
    if i <= 1 {
        assert(!has_image_extension(n)) by {
            if has_image_extension(n) {
                let k = choose|k: int|
                    #![trigger n[k]]
                    0 < k < n.len() && n[k] == DOT && (forall|j: int|
                        k < j < n.len() ==> n[j] != DOT) && is_image_extension(
                        n.subrange(k + 1, n.len() as int),
                    );
                assert(n[k] == DOT);
            }
        }
        return false;
    }
    let k = i - 1;
    assert(n[k as int] == DOT);
    let jpg = vec![106u8, 112u8, 103u8];
    let jpeg = vec![106u8, 112u8, 101u8, 103u8];
    let png = vec![112u8, 110u8, 103u8];
    let gif = vec![103u8, 105u8, 102u8];
    let bmp = vec![98u8, 109u8, 112u8];
    let webp = vec![119u8, 101u8, 98u8, 112u8];
    let r = tail_matches(b, i, jpg.as_slice()) || tail_matches(b, i, jpeg.as_slice())
        || tail_matches(b, i, png.as_slice()) || tail_matches(b, i, gif.as_slice())
        || tail_matches(b, i, bmp.as_slice()) || tail_matches(b, i, webp.as_slice());
    proof {
        assert(jpg@ =~= seq![106u8, 112u8, 103u8]);
        assert(jpeg@ =~= seq![106u8, 112u8, 101u8, 103u8]);
        assert(png@ =~= seq![112u8, 110u8, 103u8]);
        assert(gif@ =~= seq![103u8, 105u8, 102u8]);
        assert(bmp@ =~= seq![98u8, 109u8, 112u8]);
        assert(webp@ =~= seq![119u8, 101u8, 98u8, 112u8]);
        if has_image_extension(n) {
            let k2 = choose|k2: int|
                #![trigger n[k2]]
                0 < k2 < n.len() && n[k2] == DOT && (forall|j: int| k2 < j < n.len() ==> n[j] != DOT)
                    && is_image_extension(n.subrange(k2 + 1, n.len() as int));
            assert(n[k2] == DOT);
            assert(k2 == k);
        }
        if r {
            assert(n[k as int] == DOT);
        }
    }
    r
}

/// Whether `a` comes before `b` in byte-wise lexicographic order.
pub fn bytes_lt(a: &[u8], b: &[u8]) -> (r: bool)
    ensures
        r == lex_lt(a@, b@),
{
    let mut i: usize = 0;
    assert(a@.skip(0) =~= a@);
    assert(b@.skip(0) =~= b@);
    while i < a.len() && i < b.len()
        invariant
            i <= a@.len(),
            i <= b@.len(),
            lex_lt(a@, b@) == lex_lt(a@.skip(i as int), b@.skip(i as int)),
        decreases a@.len() - i,
    {
        if a[i] != b[i] {
            return a[i] < b[i];
        }
        assert(a@.skip(i as int).drop_first() =~= a@.skip(i + 1));
        assert(b@.skip(i as int).drop_first() =~= b@.skip(i + 1));
        i += 1;
    }
    i < b.len()
}

/// The entry is a regular file with a recognised image extension.
pub open spec fn is_image_entry(e: FolderEntry) -> bool {
    e.is_file && has_image_extension(encode_utf8(e.name@))
}

/// The sort key of entry `i`: the bytes of its name.
pub open spec fn entry_key(entries: Seq<FolderEntry>, i: usize) -> Seq<u8> {
    encode_utf8(entries[i as int].name@)
}

/// Inserts index `i` into `s` after every index whose name does not come
/// after its own, so that equal names keep their order.
pub open spec fn insert_by_name(entries: Seq<FolderEntry>, s: Seq<usize>, i: usize) -> Seq<usize>
    decreases s.len(),
{
    if s.len() == 0 {
        seq![i]
    } else if lex_lt(entry_key(entries, i), entry_key(entries, s[0])) {
        seq![i] + s
    } else {
        seq![s[0]] + insert_by_name(entries, s.drop_first(), i)
    }
}

/// The indices of the image entries among the first `n`, ordered by name;
/// entries of equal name keep the listing's order.
pub open spec fn image_order(entries: Seq<FolderEntry>, n: nat) -> Seq<usize>
    decreases n,
{
    if n == 0 {
        seq![]
    } else {
        let prev = image_order(entries, (n - 1) as nat);
        if is_image_entry(entries[n - 1]) {
            insert_by_name(entries, prev, (n - 1) as usize)
        } else {
            prev
        }
    }
}

proof fn lemma_insert_at(entries: Seq<FolderEntry>, s: Seq<usize>, i: usize, pos: int)
    requires
        0 <= pos <= s.len(),
        forall|t: int|
            0 <= t < pos ==> !lex_lt(entry_key(entries, i), #[trigger] entry_key(entries, s[t])),
        pos < s.len() ==> lex_lt(entry_key(entries, i), entry_key(entries, s[pos])),
    ensures
        insert_by_name(entries, s, i) == s.insert(pos, i),
    decreases s.len(),
{
    if s.len() == 0 {
        assert(s.insert(pos, i) =~= seq![i]);
    } else if pos == 0 {
        assert(s.insert(pos, i) =~= seq![i] + s);
    } else {
        assert(!lex_lt(entry_key(entries, i), entry_key(entries, s[0])));
        let rest = s.drop_first();
        assert forall|t: int| 0 <= t < pos - 1 implies !lex_lt(
            entry_key(entries, i),
            #[trigger] entry_key(entries, rest[t]),
        ) by {
            assert(rest[t] == s[t + 1]);
        }
        lemma_insert_at(entries, rest, i, pos - 1);
        assert(s.insert(pos, i) =~= seq![s[0]] + rest.insert(pos - 1, i));
    }
}

proof fn lemma_insert_bounded(entries: Seq<FolderEntry>, s: Seq<usize>, i: usize, bound: usize)
    requires
        forall|t: int| 0 <= t < s.len() ==> s[t] < bound,
        i < bound,
    ensures
        forall|t: int|
            0 <= t < insert_by_name(entries, s, i).len() ==> #[trigger] insert_by_name(
                entries,
                s,
                i,
            )[t] < bound,
        insert_by_name(entries, s, i).len() == s.len() + 1,
    decreases s.len(),
{
    if s.len() > 0 && !lex_lt(entry_key(entries, i), entry_key(entries, s[0])) {
        lemma_insert_bounded(entries, s.drop_first(), i, bound);
        let rest = insert_by_name(entries, s.drop_first(), i);
        assert forall|t: int| 0 <= t < rest.len() + 1 implies #[trigger] (seq![s[0]] + rest)[t]
            < bound by {
            if t > 0 {
                assert((seq![s[0]] + rest)[t] == rest[t - 1]);
            }
        }
    }
}

proof fn lemma_lex_trans(a: Seq<u8>, b: Seq<u8>, c: Seq<u8>)
    requires
        lex_lt(a, b),
        lex_lt(b, c),
    ensures
        lex_lt(a, c),
    decreases a.len(),
{
    if a.len() > 0 && b.len() > 0 && c.len() > 0 && a[0] == b[0] && b[0] == c[0] {
        lemma_lex_trans(a.drop_first(), b.drop_first(), c.drop_first());
    }
}

proof fn lemma_lex_asym(a: Seq<u8>, b: Seq<u8>)
    requires
        lex_lt(a, b),
    ensures
        !lex_lt(b, a),
    decreases a.len(),
{
    if a.len() > 0 && b.len() > 0 && a[0] == b[0] {
        lemma_lex_asym(a.drop_first(), b.drop_first());
    }
}

/// Where [`insert_by_name`] puts the new index.
spec fn insert_pos(entries: Seq<FolderEntry>, s: Seq<usize>, i: usize) -> int
    decreases s.len(),
{
    if s.len() == 0 {
        0
    } else if lex_lt(entry_key(entries, i), entry_key(entries, s[0])) {
        0
    } else {
        1 + insert_pos(entries, s.drop_first(), i)
    }
}

proof fn lemma_insert_pos(entries: Seq<FolderEntry>, s: Seq<usize>, i: usize)
    ensures
        0 <= insert_pos(entries, s, i) <= s.len(),
        forall|t: int|
            0 <= t < insert_pos(entries, s, i) ==> !lex_lt(
                entry_key(entries, i),
                #[trigger] entry_key(entries, s[t]),
            ),
        insert_pos(entries, s, i) < s.len() ==> lex_lt(
            entry_key(entries, i),
            entry_key(entries, s[insert_pos(entries, s, i)]),
        ),
        insert_by_name(entries, s, i) == s.insert(insert_pos(entries, s, i), i),
    decreases s.len(),
{
    if s.len() > 0 && !lex_lt(entry_key(entries, i), entry_key(entries, s[0])) {
        let rest = s.drop_first();
        lemma_insert_pos(entries, rest, i);
        assert forall|t: int| 0 <= t < insert_pos(entries, s, i) implies !lex_lt(
            entry_key(entries, i),
            #[trigger] entry_key(entries, s[t]),
        ) by {
            if t > 0 {
                assert(s[t] == rest[t - 1]);
            }
        }
        if insert_pos(entries, s, i) < s.len() {
            assert(s[insert_pos(entries, s, i)] == rest[insert_pos(entries, rest, i)]);
        }
    }
    lemma_insert_at(entries, s, i, insert_pos(entries, s, i));
}

/// No index in `s` has a name that comes before the name of an index
/// earlier in `s`.
pub open spec fn sorted_by_name(entries: Seq<FolderEntry>, s: Seq<usize>) -> bool {
    forall|a: int, b: int|
        0 <= a < b < s.len() ==> !lex_lt(
            #[trigger] entry_key(entries, s[b]),
            #[trigger] entry_key(entries, s[a]),
        )
}

proof fn lemma_insert_keeps_sorted(entries: Seq<FolderEntry>, s: Seq<usize>, i: usize)
    requires
        sorted_by_name(entries, s),
        !s.contains(i),
        s.no_duplicates(),
    ensures
        sorted_by_name(entries, insert_by_name(entries, s, i)),
        s.no_duplicates() ==> insert_by_name(entries, s, i).no_duplicates(),
        forall|k: usize| insert_by_name(entries, s, i).contains(k) <==> (s.contains(k) || k == i),
{
    lemma_insert_pos(entries, s, i);
    let pos = insert_pos(entries, s, i);
    let r = s.insert(pos, i);
    let ki = entry_key(entries, i);
    assert forall|a: int, b: int| 0 <= a < b < r.len() implies !lex_lt(
        #[trigger] entry_key(entries, r[b]),
        #[trigger] entry_key(entries, r[a]),
    ) by {
        if b < pos {
            assert(r[a] == s[a] && r[b] == s[b]);
        } else if b == pos {
            assert(r[a] == s[a]);
        } else if a == pos {
            assert(r[b] == s[b - 1]);
            let kp = entry_key(entries, s[pos]);
            if b - 1 > pos {
                assert(!lex_lt(entry_key(entries, s[b - 1]), kp));
            }
            if lex_lt(entry_key(entries, s[b - 1]), ki) {
                lemma_lex_trans(entry_key(entries, s[b - 1]), ki, kp);
                if b - 1 == pos {
                    lemma_lex_asym(ki, kp);
                }
            }
        } else if a < pos {
            assert(r[a] == s[a] && r[b] == s[b - 1]);
        } else {
            assert(r[a] == s[a - 1] && r[b] == s[b - 1]);
        }
    }
    assert forall|a: int, b: int| 0 <= a < r.len() && 0 <= b < r.len() && a != b implies r[a]
        != r[b] by {
        if a != pos && b != pos {
            let sa = if a < pos { a } else { a - 1 };
            let sb = if b < pos { b } else { b - 1 };
            assert(r[a] == s[sa] && r[b] == s[sb]);
        } else if a == pos {
            let sb = if b < pos { b } else { b - 1 };
            assert(r[b] == s[sb]);
        } else {
            let sa = if a < pos { a } else { a - 1 };
            assert(r[a] == s[sa]);
        }
    }
    assert forall|k: usize| r.contains(k) <==> (s.contains(k) || k == i) by {
        if r.contains(k) {
            let t = choose|t: int| 0 <= t < r.len() && r[t] == k;
            if t < pos {
                assert(s[t] == k);
            } else if t > pos {
                assert(s[t - 1] == k);
            }
        }
        if s.contains(k) {
            let t = choose|t: int| 0 <= t < s.len() && s[t] == k;
            if t < pos {
                assert(r[t] == k);
            } else {
                assert(r[t + 1] == k);
            }
        }
        if k == i {
            assert(r[pos] == i);
        }
    }
}

/// The folder order is sorted by the bytes of the names, holds every image
/// entry of the listing, and nothing else, each exactly once.
pub proof fn lemma_image_order_sorted_and_complete(entries: Seq<FolderEntry>, n: nat)
    requires
        n <= entries.len() <= usize::MAX,
    ensures
        sorted_by_name(entries, image_order(entries, n)),
        image_order(entries, n).no_duplicates(),
        forall|k: usize|
            image_order(entries, n).contains(k) <==> (k < n && is_image_entry(entries[k as int])),
    decreases n,
{
    if n > 0 {
        let prev = image_order(entries, (n - 1) as nat);
        lemma_image_order_sorted_and_complete(entries, (n - 1) as nat);
        let i = (n - 1) as usize;
        assert(!prev.contains(i));
        if is_image_entry(entries[n - 1]) {
            lemma_insert_keeps_sorted(entries, prev, i);
        }
        assert forall|k: usize|
            image_order(entries, n).contains(k) <==> (k < n && is_image_entry(
                entries[k as int],
            )) by {
            assert(prev.contains(k) <==> (k < n - 1 && is_image_entry(entries[k as int])));
        }
    } else {
        assert forall|k: usize| !image_order(entries, n).contains(k) by {}
    }
}

/// The indices of the entries that are image files, ordered by the bytes of
/// their names; entries of equal name keep their order in the listing.
pub fn collect_image_files(entries: &Vec<FolderEntry>) -> (r: Vec<usize>)
    ensures
        r@ == image_order(entries@, entries@.len()),
        forall|t: int| 0 <= t < r@.len() ==> r@[t] < entries@.len(),
        sorted_by_name(entries@, r@),
        r@.no_duplicates(),
        forall|k: usize| r@.contains(k) <==> (k < entries@.len() && is_image_entry(entries@[k as int])),
{
    let mut r: Vec<usize> = Vec::new();
    let mut i: usize = 0;
    while i < entries.len()
        invariant
            i <= entries@.len(),
            r@ == image_order(entries@, i as nat),
            forall|t: int| 0 <= t < r@.len() ==> r@[t] < i,
        decreases entries@.len() - i,
    {
        let e = &entries[i];
        if e.is_file && is_image_file_name(e.name.as_str()) {
            let key = e.name.as_str().as_bytes();
            let mut j: usize = 0;
            while j < r.len()
                invariant
                    j <= r@.len(),
                    key@ == entry_key(entries@, i),
                    forall|t: int| 0 <= t < r@.len() ==> r@[t] < i,
                    i < entries@.len(),
                    forall|t: int|
                        0 <= t < j ==> !lex_lt(
                            entry_key(entries@, i),
                            #[trigger] entry_key(entries@, r@[t]),
                        ),
                ensures
                    j <= r@.len(),
                    j < r@.len() ==> lex_lt(entry_key(entries@, i), entry_key(entries@, r@[j as int])),
                    forall|t: int|
                        0 <= t < j ==> !lex_lt(
                            entry_key(entries@, i),
                            #[trigger] entry_key(entries@, r@[t]),
                        ),
                decreases r@.len() - j,
            {
                let other = entries[r[j]].name.as_str().as_bytes();
                if bytes_lt(key, other) {
                    break;
                }
                j += 1;
            }
            proof {
                lemma_insert_at(entries@, r@, i, j as int);
                lemma_insert_bounded(entries@, r@, i, (i + 1) as usize);
            }
            r.insert(j, i);
        }
        i += 1;
    }
    proof {
        lemma_image_order_sorted_and_complete(entries@, entries@.len());
    }
    r
}

} // verus!

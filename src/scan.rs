//! Aggregation of a scanned file list: total size, file count, extension
//! histogram and the files at or above a size threshold.
use vstd::prelude::*;
use vstd::multiset::Multiset;
use crate::size::clamp_u64;
use crate::text::{chars_of, decimal_string, trim_text, trimmed};

verus! {

/// One regular file met by a directory walk: its path, the bytes of its file
/// name as the platform encodes it, and its size in bytes where its metadata
/// could be read.
#[derive(Clone, Debug)]
pub struct FileRecord {
    pub path: String,
    pub name: Vec<u8>,
    pub size: Option<u64>,
}

/// A file at or above the requested size threshold.
#[derive(Clone, Debug, PartialEq, Eq)]
pub struct FileEntry {
    pub path: String,
    pub size: u64,
}

/// The statistics of one scan.
#[derive(Clone, Debug, PartialEq, Eq)]
pub struct FolderStats {
    pub total_size: u64,
    pub total_files: usize,
    pub extension_count: Vec<(String, usize)>,
    pub filtered_files: Vec<FileEntry>,
}

/// The index of the last `.` in the bytes `s`, or -1 when there is none.
pub open spec fn last_dot(s: Seq<u8>) -> int
    decreases s.len(),
{
    if s.len() == 0 {
        -1
    } else if s.last() == 46u8 {
        s.len() - 1
    } else {
        last_dot(s.drop_last())
    }
}

/// The extension of a file name, as `Path::extension` reads it: the bytes
/// after the last `.`, unless that `.` begins the name (or the name is `..`).
pub open spec fn extension_of(name: Seq<u8>) -> Option<Seq<u8>> {
    if name == seq![46u8, 46u8] {
        None
    } else if last_dot(name) > 0 {
        Some(name.skip(last_dot(name) + 1))
    } else {
        None
    }
}

/// What `std::str::from_utf8` gives for the bytes `b`: their text, or `None`
/// where they are not valid UTF-8.
pub uninterp spec fn utf8_of(b: Seq<u8>) -> Option<Seq<char>>;

/// Relies on `std::str::from_utf8`: the text that `b` encodes, or `None`
/// where `b` is not valid UTF-8; the result depends on the bytes alone.
#[verifier::external_body]
fn utf8_text(b: &[u8]) -> (r: Option<String>)
    ensures
        match r {
            Some(t) => utf8_of(b@) == Some(t@),
            None => utf8_of(b@) is None,
        },
{
    std::str::from_utf8(b).ok().map(|t| t.to_string())
}

/// What `str::to_lowercase` returns for a string with the characters `s`.
pub uninterp spec fn lower_of(s: Seq<char>) -> Seq<char>;

/// Relies on `str::to_lowercase`: the lower-case mapping of `s`, which
/// depends on its characters alone.
#[verifier::external_body]
fn lowercase(s: &str) -> (r: String)
    ensures
        r@ == lower_of(s@),
{
    s.to_lowercase()
}

/// The histogram key of a file name: its extension, lower-cased, or
/// `"unknown"` when it has none or the extension is not UTF-8.
pub open spec fn extension_key(name: Seq<u8>) -> Seq<char> {
    match extension_of(name) {
        Some(e) => match utf8_of(e) {
            Some(t) => lower_of(t),
            None => "unknown"@,
        },
        None => "unknown"@,
    }
}

/// The histogram key of the file whose name has the bytes `name`.
pub fn extension_key_of(name: &Vec<u8>) -> (r: String)
    ensures
        r@ == extension_key(name@),
{
    let n = name.len();
    let mut found = false;
    let mut pos: usize = 0;
    let mut i: usize = 0;
    proof {
        assert(name@.take(0) =~= Seq::<u8>::empty());
    }
    while i < n
        invariant
            n == name@.len(),
            i <= n,
            found ==> pos < i,
            last_dot(name@.take(i as int)) == if found {
                pos as int
            } else {
                -1
            },
        decreases n - i,
    {
        proof {
            assert(name@.take(i + 1).drop_last() =~= name@.take(i as int));
        }
        if name[i] == 46u8 {
            found = true;
            pos = i;
        }
        i = i + 1;
    }
    proof {
        assert(name@.take(n as int) =~= name@);
    }
    let dotdot = n == 2 && name[0] == 46u8 && name[1] == 46u8;
    proof {
        if dotdot {
            assert(name@ =~= seq![46u8, 46u8]);
        } else if n == 2 {
            assert(name@[0] != seq![46u8, 46u8][0] || name@[1] != seq![46u8, 46u8][1]);
        }
    }
    if !dotdot && found && pos > 0 {
        let mut ext: Vec<u8> = Vec::new();
        let mut j: usize = pos + 1;
        proof {
            assert(name@.subrange(pos + 1, pos + 1) =~= Seq::<u8>::empty());
        }
        while j < n
            invariant
                pos < n == name@.len(),
                pos + 1 <= j <= n,
                ext@ == name@.subrange(pos + 1, j as int),
            decreases n - j,
        {
            ext.push(name[j]);
            proof {
                assert(ext@ =~= name@.subrange(pos + 1, j + 1));
            }
            j = j + 1;
        }
        proof {
            assert(ext@ =~= name@.skip(pos + 1));
        }
        match utf8_text(ext.as_slice()) {
            Some(t) => lowercase(t.as_str()),
            None => String::from_str("unknown"),
        }
    } else {
        String::from_str("unknown")
    }
}

/// The keys of a list of `(key, count)` entries.
pub open spec fn key_views(c: Seq<(String, usize)>) -> Seq<Seq<char>> {
    c.map_values(|e: (String, usize)| e.0@)
}

/// How many files a list of `(key, count)` entries credits to the key `k`.
pub open spec fn count_of(c: Seq<(String, usize)>, k: Seq<char>) -> nat
    decreases c.len(),
{
    if c.len() == 0 {
        0
    } else {
        count_of(c.drop_last(), k) + if c.last().0@ == k {
            c.last().1 as nat
        } else {
            0
        }
    }
}

/// The sum of the counts of a list of `(key, count)` entries.
pub open spec fn count_total(c: Seq<(String, usize)>) -> nat
    decreases c.len(),
{
    if c.len() == 0 {
        0
    } else {
        count_total(c.drop_last()) + c.last().1 as nat
    }
}

/// The bytes that a record adds to the total size: 0 where its size is unknown.
pub open spec fn record_size(r: FileRecord) -> nat {
    match r.size {
        Some(s) => s as nat,
        None => 0,
    }
}

/// The exact sum of the sizes of `rs`.
pub open spec fn size_sum(rs: Seq<FileRecord>) -> nat
    decreases rs.len(),
{
    if rs.len() == 0 {
        0
    } else {
        size_sum(rs.drop_last()) + record_size(rs.last())
    }
}

/// The histogram key of each record, in order.
pub open spec fn record_keys(rs: Seq<FileRecord>) -> Seq<Seq<char>> {
    rs.map_values(|r: FileRecord| extension_key(r.name@))
}

/// The distinct keys of `ks`, in the order of their first appearance.
pub open spec fn first_seen(ks: Seq<Seq<char>>) -> Seq<Seq<char>> {
    ks.remove_duplicates(seq![])
}

/// How often `k` occurs in `ks`.
pub open spec fn occurrences(ks: Seq<Seq<char>>, k: Seq<char>) -> nat {
    ks.to_multiset().count(k)
}

/// The partial statistics of a run of files: total size (saturating at
/// `u64::MAX`), file count, and the count of each extension key in order of
/// first appearance. Partial results of disjoint runs combine with `merge`.
#[derive(Clone, Debug, PartialEq, Eq)]
pub struct ScanTally {
    pub total_size: u64,
    pub total_files: usize,
    pub counts: Vec<(String, usize)>,
}

impl ScanTally {
    /// Keys are distinct, every count is positive, and the counts add up to
    /// the file count.
    pub open spec fn wf(self) -> bool {
        &&& key_views(self.counts@).no_duplicates()
        &&& forall|i: int| 0 <= i < self.counts@.len() ==> #[trigger] self.counts@[i].1 > 0
        &&& count_total(self.counts@) == self.total_files
    }

    /// `self` is the tally of exactly the records `rs`.
    pub open spec fn describes(self, rs: Seq<FileRecord>) -> bool {
        &&& self.wf()
        &&& self.total_files == rs.len()
        &&& self.total_size == clamp_u64(size_sum(rs) as int)
        &&& key_views(self.counts@) == first_seen(record_keys(rs))
        &&& forall|k: Seq<char>| #[trigger]
            count_of(self.counts@, k) == occurrences(record_keys(rs), k)
    }

    /// `self` combines `a` and `b`: sizes and counts add up, and the keys of
    /// `a` come first, followed by those keys of `b` that `a` lacks.
    pub open spec fn merged_from(self, a: ScanTally, b: ScanTally) -> bool {
        &&& self.wf()
        &&& self.total_files == a.total_files + b.total_files
        &&& self.total_size == clamp_u64(a.total_size + b.total_size)
        &&& key_views(self.counts@) == key_views(a.counts@) + key_views(b.counts@).filter(
            |k: Seq<char>| !key_views(a.counts@).contains(k),
        )
        &&& forall|k: Seq<char>| #[trigger]
            count_of(self.counts@, k) == count_of(a.counts@, k) + count_of(b.counts@, k)
    }

    /// The tally of no files.
    pub fn new() -> (r: ScanTally)
        ensures
            r.describes(Seq::empty()),
    {
        let r = ScanTally { total_size: 0, total_files: 0, counts: Vec::new() };
        proof {
            assert(key_views(r.counts@) =~= Seq::<Seq<char>>::empty());
            assert(record_keys(Seq::empty()) =~= Seq::<Seq<char>>::empty());
            assert forall|k: Seq<char>| #[trigger]
                count_of(r.counts@, k) == occurrences(record_keys(Seq::empty()), k) by {
                assert(record_keys(Seq::empty()).to_multiset() =~= Multiset::empty()) by {
                    broadcast use vstd::seq_lib::group_to_multiset_ensures;
                }
            }
        }
        r
    }
}

proof fn lemma_count_absent(c: Seq<(String, usize)>, k: Seq<char>)
    requires
        !key_views(c).contains(k),
    ensures
        count_of(c, k) == 0,
    decreases c.len(),
{
    if c.len() > 0 {
        assert(key_views(c)[c.len() - 1] == c.last().0@);
        assert(key_views(c.drop_last()) =~= key_views(c).drop_last());
        lemma_count_absent(c.drop_last(), k);
    }
}

proof fn lemma_count_at(c: Seq<(String, usize)>, i: int)
    requires
        key_views(c).no_duplicates(),
        0 <= i < c.len(),
    ensures
        count_of(c, c[i].0@) == c[i].1,
    decreases c.len(),
{
    let d = c.drop_last();
    assert(key_views(d) =~= key_views(c).drop_last());
    if i == c.len() - 1 {
        assert forall|j: int| 0 <= j < key_views(d).len() implies key_views(d)[j] != c[i].0@ by {
            assert(key_views(c)[j] == key_views(d)[j]);
            assert(key_views(c)[i] == c[i].0@);
        }
        lemma_count_absent(d, c[i].0@);
    } else {
        assert(key_views(c)[i] == c[i].0@);
        assert(key_views(c)[c.len() - 1] == c.last().0@);
        lemma_count_at(d, i);
        assert(d[i] == c[i]);
    }
}

proof fn lemma_count_update(c: Seq<(String, usize)>, i: int, e: (String, usize), k: Seq<char>)
    requires
        0 <= i < c.len(),
        c[i].0@ == e.0@,
    ensures
        count_of(c.update(i, e), k) + (if k == e.0@ {
            c[i].1 as nat
        } else {
            0
        }) == count_of(c, k) + (if k == e.0@ {
            e.1 as nat
        } else {
            0
        }),
        count_total(c.update(i, e)) + c[i].1 == count_total(c) + e.1,
        key_views(c.update(i, e)) == key_views(c),
    decreases c.len(),
{
    let u = c.update(i, e);
    assert(key_views(u) =~= key_views(c));
    if i == c.len() - 1 {
        assert(u.drop_last() =~= c.drop_last());
    } else {
        assert(u.drop_last() =~= c.drop_last().update(i, e));
        lemma_count_update(c.drop_last(), i, e, k);
    }
}

proof fn lemma_entry_within_total(c: Seq<(String, usize)>, i: int)
    requires
        0 <= i < c.len(),
    ensures
        c[i].1 <= count_total(c),
    decreases c.len(),
{
    if i < c.len() - 1 {
        lemma_entry_within_total(c.drop_last(), i);
    }
}

proof fn lemma_total_prefix(c: Seq<(String, usize)>, j: int)
    requires
        0 <= j <= c.len(),
    ensures
        count_total(c.take(j)) <= count_total(c),
    decreases c.len() - j,
{
    if j < c.len() {
        assert(c.take(j + 1).drop_last() =~= c.take(j));
        lemma_total_prefix(c, j + 1);
    } else {
        assert(c.take(j) =~= c);
    }
}

/// `a + b`, or `u64::MAX` where the sum does not fit.
pub fn add_saturating(a: u64, b: u64) -> (r: u64)
    ensures
        r == clamp_u64(a + b),
{
    if a > u64::MAX - b {
        u64::MAX
    } else {
        a + b
    }
}

/// The position of the entry with key `key`, if any.
fn find_key(c: &Vec<(String, usize)>, key: &String) -> (r: Option<usize>)
    ensures
        match r {
            Some(i) => i < c@.len() && c@[i as int].0@ == key@,
            None => !key_views(c@).contains(key@),
        },
{
    let mut i: usize = 0;
    while i < c.len()
        invariant
            i <= c@.len(),
            forall|j: int| 0 <= j < i ==> c@[j].0@ != key@,
        decreases c.len() - i,
    {
        if c[i].0 == *key {
            return Some(i);
        }
        i = i + 1;
    }
    proof {
        assert forall|j: int| 0 <= j < key_views(c@).len() implies key_views(c@)[j] != key@ by {
            assert(key_views(c@)[j] == c@[j].0@);
        }
    }
    None
}

/// Adds `n` files of key `key` to the entries `c`: the entry of that key
/// grows, or a new entry comes last.
fn add_to_entry(c: &mut Vec<(String, usize)>, key: String, n: usize)
    requires
        key_views(old(c)@).no_duplicates(),
        forall|i: int| 0 <= i < old(c)@.len() ==> #[trigger] old(c)@[i].1 > 0,
        n > 0,
        count_total(old(c)@) + n <= usize::MAX,
    ensures
        key_views(final(c)@).no_duplicates(),
        forall|i: int| 0 <= i < final(c)@.len() ==> #[trigger] final(c)@[i].1 > 0,
        count_total(final(c)@) == count_total(old(c)@) + n,
        key_views(final(c)@) == if key_views(old(c)@).contains(key@) {
            key_views(old(c)@)
        } else {
            key_views(old(c)@).push(key@)
        },
        forall|k: Seq<char>| #[trigger]
            count_of(final(c)@, k) == count_of(old(c)@, k) + if k == key@ {
                n as nat
            } else {
                0
            },
{
    match find_key(c, &key) {
        Some(i) => {
            proof {
                lemma_entry_within_total(c@, i as int);
                assert(key_views(c@)[i as int] == key@);
            }
            let grown = c[i].1 + n;
            let k = c[i].0.clone();
            let ghost before = c@;
            c.set(i, (k, grown));
            proof {
                assert(c@ == before.update(i as int, (k, grown)));
                lemma_count_update(before, i as int, (k, grown), key@);
                assert forall|q: Seq<char>| #[trigger]
                    count_of(c@, q) == count_of(before, q) + if q == key@ {
                        n as nat
                    } else {
                        0
                    } by {
                    lemma_count_update(before, i as int, (k, grown), q);
                    if q == key@ {
                        lemma_count_at(before, i as int);
                    }
                }
                assert forall|j: int| 0 <= j < c@.len() implies #[trigger] c@[j].1 > 0 by {
                    if j != i {
                        assert(c@[j] == before[j]);
                    }
                }
            }
        },
        None => {
            let ghost before = c@;
            c.push((key, n));
            proof {
                assert(c@.drop_last() =~= before);
                assert(key_views(c@) =~= key_views(before).push(key@));
                assert forall|j: int| 0 <= j < c@.len() implies #[trigger] c@[j].1 > 0 by {
                    if j < before.len() {
                        assert(c@[j] == before[j]);
                    }
                }
                assert(key_views(c@).no_duplicates()) by {
                    assert forall|x: int, y: int|
                        0 <= x < y < key_views(c@).len() implies key_views(c@)[x] != key_views(
                        c@,
                    )[y] by {
                        if y == before.len() {
                            assert(key_views(before)[x] == key_views(c@)[x]);
                        } else {
                            assert(key_views(before)[x] == key_views(c@)[x]);
                            assert(key_views(before)[y] == key_views(c@)[y]);
                        }
                    }
                }
            }
        },
    }
}

proof fn lemma_first_seen_push(ks: Seq<Seq<char>>, x: Seq<char>)
    ensures
        first_seen(ks.push(x)) == if ks.contains(x) {
            first_seen(ks)
        } else {
            first_seen(ks).push(x)
        },
        first_seen(ks).contains(x) == ks.contains(x),
{
    ks.lemma_remove_duplicates_append(x, seq![]);
    ks.lemma_remove_duplicates_properties(seq![]);
    assert(ks + seq![x] =~= ks.push(x));
    assert(ks + Seq::<Seq<char>>::empty() =~= ks);
    assert(first_seen(ks) + seq![x] =~= first_seen(ks).push(x));
}

proof fn lemma_occurrences_push(ks: Seq<Seq<char>>, x: Seq<char>, k: Seq<char>)
    ensures
        occurrences(ks.push(x), k) == occurrences(ks, k) + if k == x {
            1nat
        } else {
            0nat
        },
{
    broadcast use vstd::seq_lib::group_to_multiset_ensures;

}

proof fn lemma_records_push(rs: Seq<FileRecord>, r: FileRecord)
    ensures
        record_keys(rs.push(r)) == record_keys(rs).push(extension_key(r.name@)),
        size_sum(rs.push(r)) == size_sum(rs) + record_size(r),
{
    assert(record_keys(rs.push(r)) =~= record_keys(rs).push(extension_key(r.name@)));
    assert(rs.push(r).drop_last() =~= rs);
}

impl ScanTally {
    /// Counts one more file.
    pub fn absorb(&mut self, record: &FileRecord)
        requires
            old(self).wf(),
            old(self).total_files < usize::MAX,
        ensures
            final(self).wf(),
            final(self).total_files == old(self).total_files + 1,
            final(self).total_size == clamp_u64(old(self).total_size + record_size(*record)),
            key_views(final(self).counts@) == if key_views(old(self).counts@).contains(
                extension_key(record.name@),
            ) {
                key_views(old(self).counts@)
            } else {
                key_views(old(self).counts@).push(extension_key(record.name@))
            },
            forall|k: Seq<char>| #[trigger]
                count_of(final(self).counts@, k) == count_of(old(self).counts@, k) + if k
                    == extension_key(record.name@) {
                    1nat
                } else {
                    0nat
                },
    {
        let key = extension_key_of(&record.name);
        let bytes: u64 = match record.size {
            Some(b) => b,
            None => 0,
        };
        self.total_size = add_saturating(self.total_size, bytes);
        self.total_files = self.total_files + 1;
        add_to_entry(&mut self.counts, key, 1);
    }

    /// Combines the tallies of two disjoint runs of files.
    pub fn merge(self, other: ScanTally) -> (r: ScanTally)
        requires
            self.wf(),
            other.wf(),
            self.total_files + other.total_files <= usize::MAX,
        ensures
            r.merged_from(self, other),
    {
        let ghost a = self.counts@;
        let ghost b = other.counts@;
        let ghost in_a = |k: Seq<char>| !key_views(a).contains(k);
        let mut counts = self.counts;
        let mut j: usize = 0;
        proof {
            assert(b.take(0) =~= Seq::<(String, usize)>::empty());
            assert(key_views(b.take(0)) =~= Seq::<Seq<char>>::empty());
            assert(key_views(a) + key_views(b.take(0)).filter(in_a) =~= key_views(a));
        }
        while j < other.counts.len()
            invariant
                b == other.counts@,
                other.wf(),
                self.wf(),
                a == self.counts@,
                self.total_files + other.total_files <= usize::MAX,
                j <= b.len(),
                in_a == (|k: Seq<char>| !key_views(a).contains(k)),
                key_views(counts@).no_duplicates(),
                forall|i: int| 0 <= i < counts@.len() ==> #[trigger] counts@[i].1 > 0,
                count_total(counts@) == count_total(a) + count_total(b.take(j as int)),
                key_views(counts@) == key_views(a) + key_views(b.take(j as int)).filter(in_a),
                forall|k: Seq<char>| #[trigger]
                    count_of(counts@, k) == count_of(a, k) + count_of(b.take(j as int), k),
            decreases b.len() - j,
        {
            let ghost before = counts@;
            let ghost x = b[j as int].0@;
            let ghost pre = b.take(j as int);
            let ghost post = b.take(j + 1);
            proof {
                assert(post.drop_last() =~= pre);
                assert(post.last() == b[j as int]);
                assert(key_views(post) =~= key_views(pre).push(x));
                key_views(pre).lemma_filter_push(x, in_a);
                lemma_total_prefix(b, j + 1);
                assert(count_total(post) == count_total(pre) + b[j as int].1);
                assert(!key_views(pre).contains(x)) by {
                    if key_views(pre).contains(x) {
                        let y = choose|y: int| 0 <= y < key_views(pre).len() && key_views(pre)[y] == x;
                        assert(key_views(b)[y] == x);
                        assert(key_views(b)[j as int] == x);
                    }
                }
                assert(key_views(counts@).contains(x) == key_views(a).contains(x)) by {
                    if key_views(pre).filter(in_a).contains(x) {
                        let y = choose|y: int|
                            0 <= y < key_views(pre).filter(in_a).len() && key_views(pre).filter(
                                in_a,
                            )[y] == x;
                        key_views(pre).lemma_filter_contains_rev(in_a, x);
                    }
                    if key_views(counts@).contains(x) {
                        let y = choose|y: int| 0 <= y < key_views(counts@).len() && key_views(counts@)[y] == x;
                        if y >= key_views(a).len() {
                            assert(key_views(pre).filter(in_a)[y - key_views(a).len()] == x);
                        } else {
                            assert(key_views(a)[y] == x);
                        }
                    }
                    if key_views(a).contains(x) {
                        let y = choose|y: int| 0 <= y < key_views(a).len() && key_views(a)[y] == x;
                        assert(key_views(counts@)[y] == x);
                    }
                }
                assert(b[j as int].1 > 0);
            }
            let key = other.counts[j].0.clone();
            let n = other.counts[j].1;
            add_to_entry(&mut counts, key, n);
            proof {
                assert forall|k: Seq<char>| #[trigger]
                    count_of(counts@, k) == count_of(a, k) + count_of(post, k) by {
                    assert(count_of(post, k) == count_of(pre, k) + if post.last().0@ == k {
                        post.last().1 as nat
                    } else {
                        0
                    });
                    assert(count_of(before, k) == count_of(a, k) + count_of(pre, k));
                }
                if key_views(a).contains(x) {
                    assert(!in_a(x));
                } else {
                    assert(in_a(x));
                    assert(key_views(a) + key_views(pre).filter(in_a).push(x) =~= key_views(a)
                        + key_views(post).filter(in_a));
                }
            }
            j = j + 1;
        }
        proof {
            assert(b.take(b.len() as int) =~= b);
        }
        ScanTally {
            total_size: add_saturating(self.total_size, other.total_size),
            total_files: self.total_files + other.total_files,
            counts,
        }
    }
}

/// Tallies the records `records`, one after another.
pub fn tally_records(records: &Vec<FileRecord>) -> (r: ScanTally)
    ensures
        r.describes(records@),
{
    let mut t = ScanTally::new();
    let mut i: usize = 0;
    proof {
        assert(records@.take(0) =~= Seq::<FileRecord>::empty());
    }
    while i < records.len()
        invariant
            i <= records.len(),
            t.describes(records@.take(i as int)),
        decreases records.len() - i,
    {
        let ghost before = t;
        let ghost pre = records@.take(i as int);
        let ghost post = records@.take(i + 1);
        let ghost x = extension_key(records@[i as int].name@);
        proof {
            assert(post =~= pre.push(records@[i as int]));
            lemma_records_push(pre, records@[i as int]);
            lemma_first_seen_push(record_keys(pre), x);
        }
        t.absorb(&records[i]);
        proof {
            assert forall|k: Seq<char>| #[trigger]
                count_of(t.counts@, k) == occurrences(record_keys(post), k) by {
                lemma_occurrences_push(record_keys(pre), x, k);
            }
            let total = size_sum(pre);
            let add = record_size(records@[i as int]);
            assert(clamp_u64(clamp_u64(total as int) + add) == clamp_u64((total + add) as int));
        }
        i = i + 1;
    }
    proof {
        assert(records@.take(records.len() as int) =~= records@);
    }
    t
}

proof fn lemma_size_sum_concat(a: Seq<FileRecord>, b: Seq<FileRecord>)
    ensures
        size_sum(a + b) == size_sum(a) + size_sum(b),
    decreases b.len(),
{
    if b.len() > 0 {
        assert((a + b).drop_last() =~= a + b.drop_last());
        lemma_size_sum_concat(a, b.drop_last());
    } else {
        assert(a + b =~= a);
    }
}

proof fn lemma_first_seen_concat(x: Seq<Seq<char>>, y: Seq<Seq<char>>)
    ensures
        first_seen(x + y) == first_seen(x) + first_seen(y).filter(
            |k: Seq<char>| !first_seen(x).contains(k),
        ),
    decreases y.len(),
{
    let p = |k: Seq<char>| !first_seen(x).contains(k);
    if y.len() == 0 {
        assert(x + y =~= x);
        assert(first_seen(y) =~= Seq::<Seq<char>>::empty());
        assert(first_seen(y).filter(p) =~= Seq::<Seq<char>>::empty());
        assert(first_seen(x) + Seq::<Seq<char>>::empty() =~= first_seen(x));
    } else {
        let z = y.last();
        let w = y.drop_last();
        assert(y =~= w.push(z));
        assert(x + y =~= (x + w).push(z));
        lemma_first_seen_concat(x, w);
        lemma_first_seen_push(x + w, z);
        lemma_first_seen_push(w, z);
        lemma_first_seen_push(x, z);
        first_seen(w).lemma_filter_push(z, p);
        assert((x + w).contains(z) == (x.contains(z) || w.contains(z))) by {
            if (x + w).contains(z) {
                let i = choose|i: int| 0 <= i < (x + w).len() && (x + w)[i] == z;
                if i < x.len() {
                    assert(x[i] == z);
                } else {
                    assert(w[i - x.len()] == z);
                }
            }
            if x.contains(z) {
                let i = choose|i: int| 0 <= i < x.len() && x[i] == z;
                assert((x + w)[i] == z);
            }
            if w.contains(z) {
                let i = choose|i: int| 0 <= i < w.len() && w[i] == z;
                assert((x + w)[x.len() + i] == z);
            }
        }
        if !w.contains(z) && !x.contains(z) {
            assert(first_seen(x) + first_seen(w).filter(p).push(z) =~= first_seen(x) + first_seen(
                w,
            ).push(z).filter(p));
        }
    }
}

/// Splitting a file list into two parts, tallying each part on its own and
/// merging the two tallies gives exactly the tally of the whole list.
pub proof fn lemma_partition_independence(
    a: Seq<FileRecord>,
    b: Seq<FileRecord>,
    ta: ScanTally,
    tb: ScanTally,
    merged: ScanTally,
)
    requires
        ta.describes(a),
        tb.describes(b),
        merged.merged_from(ta, tb),
    ensures
        merged.describes(a + b),
{
    lemma_size_sum_concat(a, b);
    assert(record_keys(a + b) =~= record_keys(a) + record_keys(b));
    lemma_first_seen_concat(record_keys(a), record_keys(b));
    assert(key_views(merged.counts@) =~= first_seen(record_keys(a + b)));
    assert forall|k: Seq<char>| #[trigger]
        count_of(merged.counts@, k) == occurrences(record_keys(a + b), k) by {
        vstd::seq_lib::lemma_multiset_commutative(record_keys(a), record_keys(b));
    }
}

/// The `(key, count)` entries of a tally, over plain values.
pub open spec fn entry_views(c: Seq<(String, usize)>) -> Seq<(Seq<char>, nat)> {
    c.map_values(|e: (String, usize)| (e.0@, e.1 as nat))
}

proof fn lemma_entry_membership(t: ScanTally, k: Seq<char>, n: nat)
    requires
        t.wf(),
    ensures
        entry_views(t.counts@).contains((k, n)) <==> (n > 0 && count_of(t.counts@, k) == n),
{
    let c = t.counts@;
    if entry_views(c).contains((k, n)) {
        let i = choose|i: int| 0 <= i < entry_views(c).len() && entry_views(c)[i] == (k, n);
        assert(entry_views(c)[i] == (c[i].0@, c[i].1 as nat));
        lemma_count_at(c, i);
    }
    if n > 0 && count_of(c, k) == n {
        if !key_views(c).contains(k) {
            lemma_count_absent(c, k);
        }
        let i = choose|i: int| 0 <= i < key_views(c).len() && key_views(c)[i] == k;
        assert(key_views(c)[i] == c[i].0@);
        lemma_count_at(c, i);
        assert(entry_views(c)[i] == (k, n));
    }
}

/// The order in which parts are merged does not matter: the tallies of
/// `a + b` and of `b + a` agree on total size, file count and every
/// `(key, count)` entry; only the order of the entries may differ.
pub proof fn lemma_merge_order_irrelevant(
    a: Seq<FileRecord>,
    b: Seq<FileRecord>,
    t1: ScanTally,
    t2: ScanTally,
)
    requires
        t1.describes(a + b),
        t2.describes(b + a),
    ensures
        t1.total_size == t2.total_size,
        t1.total_files == t2.total_files,
        forall|k: Seq<char>| #[trigger] count_of(t1.counts@, k) == count_of(t2.counts@, k),
        entry_views(t1.counts@).to_set() == entry_views(t2.counts@).to_set(),
{
    lemma_size_sum_concat(a, b);
    lemma_size_sum_concat(b, a);
    assert(record_keys(a + b) =~= record_keys(a) + record_keys(b));
    assert(record_keys(b + a) =~= record_keys(b) + record_keys(a));
    vstd::seq_lib::lemma_multiset_commutative(record_keys(a), record_keys(b));
    vstd::seq_lib::lemma_multiset_commutative(record_keys(b), record_keys(a));
    assert(record_keys(a + b).to_multiset() =~= record_keys(b + a).to_multiset());
    assert forall|e: (Seq<char>, nat)|
        entry_views(t1.counts@).to_set().contains(e) == entry_views(t2.counts@).to_set().contains(
            e,
        ) by {
        lemma_entry_membership(t1, e.0, e.1);
        lemma_entry_membership(t2, e.0, e.1);
    }
    assert(entry_views(t1.counts@).to_set() =~= entry_views(t2.counts@).to_set());
}

/// The position of `k` among the distinct keys of `ks`, in order of first
/// appearance.
pub open spec fn first_seen_rank(ks: Seq<Seq<char>>, k: Seq<char>) -> int {
    first_seen(ks).index_of(k)
}

/// Key `a` is listed before key `b`: it occurs more often in `ks`, or as
/// often and was seen first.
pub open spec fn ranks_before(ks: Seq<Seq<char>>, a: Seq<char>, b: Seq<char>) -> bool {
    ||| occurrences(ks, a) > occurrences(ks, b)
    ||| occurrences(ks, a) == occurrences(ks, b) && first_seen_rank(ks, a) < first_seen_rank(
        ks,
        b,
    )
}

/// `h` is the extension histogram of the keys `ks`: one entry for each key of
/// `ks` with its number of occurrences, the most frequent first and ties in
/// order of first appearance.
pub open spec fn is_histogram_of(h: Seq<(String, usize)>, ks: Seq<Seq<char>>) -> bool {
    &&& forall|i: int|
        0 <= i < h.len() ==> ks.contains(#[trigger] h[i].0@) && h[i].1 == occurrences(
            ks,
            h[i].0@,
        )
    &&& forall|k: Seq<char>| ks.contains(k) ==> #[trigger] key_views(h).contains(k)
    &&& forall|i: int, j: int|
        0 <= i < j < h.len() ==> ranks_before(ks, #[trigger] h[i].0@, #[trigger] h[j].0@)
}

/// Entry `a` of `c` is listed before entry `b`: a larger count, or an equal
/// count and an earlier position.
spec fn entry_before(c: Seq<(String, usize)>, a: int, b: int) -> bool {
    c[a].1 > c[b].1 || (c[a].1 == c[b].1 && a < b)
}

/// The sum of the counts of the entries of `c` at the positions `order`.
spec fn ordered_total(c: Seq<(String, usize)>, order: Seq<usize>) -> nat
    decreases order.len(),
{
    if order.len() == 0 {
        0
    } else {
        ordered_total(c, order.drop_last()) + c[order.last() as int].1 as nat
    }
}

proof fn lemma_ordered_total_insert(c: Seq<(String, usize)>, order: Seq<usize>, p: int, j: usize)
    requires
        0 <= p <= order.len(),
    ensures
        ordered_total(c, order.insert(p, j)) == ordered_total(c, order) + c[j as int].1,
    decreases order.len(),
{
    let o2 = order.insert(p, j);
    if p == order.len() {
        assert(o2.drop_last() =~= order);
    } else {
        assert(o2.drop_last() =~= order.drop_last().insert(p, j));
        assert(o2.last() == order.last());
        lemma_ordered_total_insert(c, order.drop_last(), p, j);
    }
}

/// The positions of the entries of `c`, most files first, ties by position.
fn order_by_count(c: &Vec<(String, usize)>) -> (order: Vec<usize>)
    ensures
        order@.len() == c@.len(),
        forall|x: usize| order@.contains(x) <==> x < c@.len(),
        forall|p: int| 0 <= p < order@.len() ==> #[trigger] order@[p] < c@.len(),
        forall|p: int, q: int|
            0 <= p < q < order@.len() ==> entry_before(
                c@,
                #[trigger] order@[p] as int,
                #[trigger] order@[q] as int,
            ),
        ordered_total(c@, order@) == count_total(c@),
{
    let mut order: Vec<usize> = Vec::new();
    let mut j: usize = 0;
    proof {
        assert(c@.take(0) =~= Seq::<(String, usize)>::empty());
    }
    while j < c.len()
        invariant
            j <= c@.len(),
            order@.len() == j,
            forall|x: usize| order@.contains(x) <==> x < j,
            forall|p: int| 0 <= p < order@.len() ==> #[trigger] order@[p] < j,
            forall|p: int, q: int|
                0 <= p < q < order@.len() ==> entry_before(
                    c@,
                    #[trigger] order@[p] as int,
                    #[trigger] order@[q] as int,
                ),
            ordered_total(c@, order@) == count_total(c@.take(j as int)),
        decreases c@.len() - j,
    {
        let n = c[j].1;
        let mut p: usize = 0;
        while p < order.len() && c[order[p]].1 >= n
            invariant
                p <= order@.len(),
                j < c@.len(),
                n == c@[j as int].1,
                forall|q: int| 0 <= q < order@.len() ==> #[trigger] order@[q] < j,
                forall|r: int| 0 <= r < p ==> c@[#[trigger] order@[r] as int].1 >= n,
            decreases order@.len() - p,
        {
            p = p + 1;
        }
        let ghost old_order = order@;
        order.insert(p, j);
        proof {
            assert(order@ == old_order.insert(p as int, j));
            old_order.insert_ensures(p as int, j);
            lemma_ordered_total_insert(c@, old_order, p as int, j);
            assert(c@.take(j + 1).drop_last() =~= c@.take(j as int));
            assert forall|x: usize| order@.contains(x) <==> x < j + 1 by {
                if x < j {
                    assert(old_order.contains(x));
                    let r = choose|r: int| 0 <= r < old_order.len() && old_order[r] == x;
                    if r < p {
                        assert(order@[r] == x);
                    } else {
                        assert(order@[r + 1] == x);
                    }
                }
                if x == j {
                    assert(order@[p as int] == j);
                }
                if order@.contains(x) {
                    let r = choose|r: int| 0 <= r < order@.len() && order@[r] == x;
                    if r < p {
                        assert(old_order[r] == x);
                    } else if r > p {
                        assert(old_order[r - 1] == x);
                    }
                }
            }
            assert forall|q: int| 0 <= q < order@.len() implies #[trigger] order@[q] < j + 1 by {
                if q < p {
                    assert(order@[q] == old_order[q]);
                } else if q > p {
                    assert(order@[q] == old_order[q - 1]);
                }
            }
            assert forall|r: int, s: int|
                0 <= r < s < order@.len() implies entry_before(
                c@,
                #[trigger] order@[r] as int,
                #[trigger] order@[s] as int,
            ) by {
                if s < p {
                    assert(order@[r] == old_order[r] && order@[s] == old_order[s]);
                } else if s == p {
                    assert(order@[r] == old_order[r]);
                    assert(c@[old_order[r] as int].1 >= n);
                } else if r < p {
                    assert(order@[r] == old_order[r] && order@[s] == old_order[s - 1]);
                } else if r == p {
                    assert(order@[s] == old_order[s - 1]);
                    assert(c@[old_order[p as int] as int].1 < n);
                    if s - 1 > p {
                        assert(entry_before(c@, old_order[p as int] as int, old_order[s - 1] as int));
                    }
                } else {
                    assert(order@[r] == old_order[r - 1] && order@[s] == old_order[s - 1]);
                }
            }
        }
        j = j + 1;
    }
    proof {
        assert(c@.take(c@.len() as int) =~= c@);
    }
    order
}

/// The entries of `c` at the positions `order`, in that order.
fn gather_entries(c: &Vec<(String, usize)>, order: &Vec<usize>) -> (h: Vec<(String, usize)>)
    requires
        forall|p: int| 0 <= p < order@.len() ==> #[trigger] order@[p] < c@.len(),
    ensures
        h@.len() == order@.len(),
        forall|p: int| 0 <= p < order@.len() ==> #[trigger] h@[p] == c@[order@[p] as int],
        count_total(h@) == ordered_total(c@, order@),
{
    let mut h: Vec<(String, usize)> = Vec::new();
    let mut p: usize = 0;
    proof {
        assert(order@.take(0) =~= Seq::<usize>::empty());
    }
    while p < order.len()
        invariant
            p <= order@.len(),
            forall|q: int| 0 <= q < order@.len() ==> #[trigger] order@[q] < c@.len(),
            h@.len() == p,
            forall|q: int| 0 <= q < p ==> #[trigger] h@[q] == c@[order@[q] as int],
            count_total(h@) == ordered_total(c@, order@.take(p as int)),
        decreases order@.len() - p,
    {
        let a = order[p];
        let key = c[a].0.clone();
        let ghost before = h@;
        h.push((key, c[a].1));
        proof {
            assert(h@.drop_last() =~= before);
            assert(order@.take(p + 1).drop_last() =~= order@.take(p as int));
            assert(h@[p as int] == c@[a as int]);
        }
        p = p + 1;
    }
    proof {
        assert(order@.take(order@.len() as int) =~= order@);
    }
    h
}

/// The files of `rs` whose size is known and at least `threshold`, in order,
/// as `(path, size)`.
pub open spec fn selected(rs: Seq<FileRecord>, threshold: u64) -> Seq<(Seq<char>, u64)> {
    rs.filter(|r: FileRecord| r.size is Some && r.size->0 >= threshold).map_values(
        |r: FileRecord| (r.path@, r.size->0),
    )
}

/// A list of file entries as `(path, size)`.
pub open spec fn file_entry_views(v: Seq<FileEntry>) -> Seq<(Seq<char>, u64)> {
    v.map_values(|e: FileEntry| (e.path@, e.size))
}

/// The files of `records` whose size could be read and is at least
/// `threshold`, in order.
pub fn select_files(records: &Vec<FileRecord>, threshold: u64) -> (r: Vec<FileEntry>)
    ensures
        file_entry_views(r@) == selected(records@, threshold),
{
    let ghost keep = |r: FileRecord| r.size is Some && r.size->0 >= threshold;
    let ghost view = |r: FileRecord| (r.path@, r.size->0);
    let mut out: Vec<FileEntry> = Vec::new();
    let mut i: usize = 0;
    proof {
        assert(records@.take(0) =~= Seq::<FileRecord>::empty());
        assert(records@.take(0).filter(keep) =~= Seq::<FileRecord>::empty());
        assert(file_entry_views(out@) =~= Seq::<(Seq<char>, u64)>::empty());
        assert(selected(records@.take(0), threshold) =~= Seq::<(Seq<char>, u64)>::empty());
    }
    while i < records.len()
        invariant
            i <= records@.len(),
            keep == (|r: FileRecord| r.size is Some && r.size->0 >= threshold),
            view == (|r: FileRecord| (r.path@, r.size->0)),
            file_entry_views(out@) == records@.take(i as int).filter(keep).map_values(view),
        decreases records@.len() - i,
    {
        let ghost pre = records@.take(i as int);
        let ghost rec = records@[i as int];
        proof {
            assert(records@.take(i + 1) =~= pre.push(rec));
            pre.lemma_filter_push(rec, keep);
        }
        match records[i].size {
            Some(bytes) => {
                if bytes >= threshold {
                    let ghost before = out@;
                    out.push(FileEntry { path: records[i].path.clone(), size: bytes });
                    proof {
                        assert(file_entry_views(out@) =~= file_entry_views(before).push(view(rec)));
                        assert(pre.filter(keep).push(rec).map_values(view) =~= pre.filter(
                            keep,
                        ).map_values(view).push(view(rec)));
                    }
                }
            },
            None => {},
        }
        i = i + 1;
    }
    proof {
        assert(records@.take(records@.len() as int) =~= records@);
    }
    out
}

proof fn lemma_first_seen_no_duplicates(ks: Seq<Seq<char>>)
    ensures
        first_seen(ks).no_duplicates(),
    decreases ks.len(),
{
    if ks.len() > 0 {
        let w = ks.drop_last();
        let z = ks.last();
        assert(ks =~= w.push(z));
        lemma_first_seen_no_duplicates(w);
        lemma_first_seen_push(w, z);
        if !w.contains(z) {
            let f = first_seen(w).push(z);
            assert forall|x: int, y: int| 0 <= x < y < f.len() implies f[x] != f[y] by {
                if y == f.len() - 1 {
                    assert(f[x] == first_seen(w)[x]);
                    assert(first_seen(w).contains(f[x]));
                }
            }
        }
    } else {
        assert(first_seen(ks) =~= Seq::<Seq<char>>::empty());
    }
}

proof fn lemma_index_of_distinct(v: Seq<Seq<char>>, a: int)
    requires
        v.no_duplicates(),
        0 <= a < v.len(),
    ensures
        v.index_of(v[a]) == a,
{
    assert(v.contains(v[a]));
}

proof fn lemma_histogram_from_tally(
    c: Seq<(String, usize)>,
    order: Seq<usize>,
    h: Seq<(String, usize)>,
    ks: Seq<Seq<char>>,
)
    requires
        c.len() <= usize::MAX,
        key_views(c).no_duplicates(),
        key_views(c) == first_seen(ks),
        forall|k: Seq<char>| #[trigger] count_of(c, k) == occurrences(ks, k),
        order.len() == c.len(),
        forall|x: usize| order.contains(x) <==> x < c.len(),
        forall|p: int| 0 <= p < order.len() ==> #[trigger] order[p] < c.len(),
        forall|p: int, q: int|
            0 <= p < q < order.len() ==> entry_before(
                c,
                #[trigger] order[p] as int,
                #[trigger] order[q] as int,
            ),
        h.len() == order.len(),
        forall|p: int| 0 <= p < order.len() ==> #[trigger] h[p] == c[order[p] as int],
    ensures
        is_histogram_of(h, ks),
{
    ks.lemma_remove_duplicates_properties(seq![]);
    assert(ks + Seq::<Seq<char>>::empty() =~= ks);
    assert forall|i: int| 0 <= i < h.len() implies ks.contains(#[trigger] h[i].0@) && h[i].1
        == occurrences(ks, h[i].0@) by {
        let a = order[i] as int;
        assert(h[i] == c[a]);
        assert(key_views(c)[a] == c[a].0@);
        assert(first_seen(ks).contains(c[a].0@));
        lemma_count_at(c, a);
    }
    assert forall|k: Seq<char>| ks.contains(k) implies #[trigger] key_views(h).contains(k) by {
        assert(first_seen(ks).contains(k));
        let a = choose|a: int| 0 <= a < key_views(c).len() && key_views(c)[a] == k;
        assert(order.contains(a as usize));
        let p = choose|p: int| 0 <= p < order.len() && order[p] == a as usize;
        assert(h[p] == c[a]);
        assert(key_views(h)[p] == k);
    }
    assert forall|i: int, j: int|
        0 <= i < j < h.len() implies ranks_before(ks, #[trigger] h[i].0@, #[trigger] h[j].0@) by {
        let a = order[i] as int;
        let b = order[j] as int;
        assert(h[i] == c[a] && h[j] == c[b]);
        assert(entry_before(c, a, b));
        assert(key_views(c)[a] == c[a].0@ && key_views(c)[b] == c[b].0@);
        lemma_count_at(c, a);
        lemma_count_at(c, b);
        lemma_index_of_distinct(key_views(c), a);
        lemma_index_of_distinct(key_views(c), b);
    }
}

/// The views of a list of strings.
pub open spec fn text_views(v: Seq<String>) -> Seq<Seq<char>> {
    v.map_values(|s: String| s@)
}

/// The extension histogram of the keys `keys`: each distinct key with its
/// number of occurrences, the most frequent first, ties in order of first
/// appearance.
pub fn extension_histogram(keys: &Vec<String>) -> (h: Vec<(String, usize)>)
    ensures
        is_histogram_of(h@, text_views(keys@)),
        count_total(h@) == keys@.len(),
{
    let ghost ks = text_views(keys@);
    let mut c: Vec<(String, usize)> = Vec::new();
    let mut i: usize = 0;
    proof {
        assert(ks.take(0) =~= Seq::<Seq<char>>::empty());
        assert(key_views(c@) =~= Seq::<Seq<char>>::empty());
        assert forall|k: Seq<char>| #[trigger] count_of(c@, k) == occurrences(ks.take(0), k) by {
            broadcast use vstd::seq_lib::group_to_multiset_ensures;

        }
    }
    while i < keys.len()
        invariant
            i <= keys@.len(),
            ks == text_views(keys@),
            key_views(c@).no_duplicates(),
            forall|j: int| 0 <= j < c@.len() ==> #[trigger] c@[j].1 > 0,
            count_total(c@) == i,
            key_views(c@) == first_seen(ks.take(i as int)),
            forall|k: Seq<char>| #[trigger] count_of(c@, k) == occurrences(ks.take(i as int), k),
        decreases keys@.len() - i,
    {
        let ghost x = keys@[i as int]@;
        proof {
            assert(ks.take(i + 1) =~= ks.take(i as int).push(x));
            lemma_first_seen_push(ks.take(i as int), x);
        }
        add_to_entry(&mut c, keys[i].clone(), 1);
        proof {
            assert forall|k: Seq<char>| #[trigger]
                count_of(c@, k) == occurrences(ks.take(i + 1), k) by {
                lemma_occurrences_push(ks.take(i as int), x, k);
            }
        }
        i = i + 1;
    }
    proof {
        assert(ks.take(keys@.len() as int) =~= ks);
    }
    let order = order_by_count(&c);
    let h = gather_entries(&c, &order);
    let n = c.len();
    proof {
        assert(c@.len() == n);
        lemma_histogram_from_tally(c@, order@, h@, ks);
    }
    h
}

impl FolderStats {
    /// `self` holds the statistics of the files `rs` for `threshold`: the
    /// total size (saturating at `u64::MAX`), the file count, the extension
    /// histogram (whose counts add up to the file count), and the files of
    /// known size at or above the threshold, in order.
    pub open spec fn summarizes(self, rs: Seq<FileRecord>, threshold: u64) -> bool {
        &&& self.total_size == clamp_u64(size_sum(rs) as int)
        &&& self.total_files == rs.len()
        &&& is_histogram_of(self.extension_count@, record_keys(rs))
        &&& count_total(self.extension_count@) == self.total_files
        &&& file_entry_views(self.filtered_files@) == selected(rs, threshold)
    }
}

/// Collects the statistics of the files `records`: total size (saturating at
/// `u64::MAX`), file count, extension histogram, and the files whose size is
/// known and at least `threshold`.
pub fn build_folder_stats(records: &Vec<FileRecord>, threshold: u64) -> (r: FolderStats)
    ensures
        r.summarizes(records@, threshold),
{
    let t = tally_records(records);
    let order = order_by_count(&t.counts);
    let h = gather_entries(&t.counts, &order);
    let filtered = select_files(records, threshold);
    let n = t.counts.len();
    proof {
        assert(t.counts@.len() == n);
        lemma_histogram_from_tally(t.counts@, order@, h@, record_keys(records@));
    }
    FolderStats {
        total_size: t.total_size,
        total_files: t.total_files,
        extension_count: h,
        filtered_files: filtered,
    }
}

/// What humansize's `FileSize::file_size` writes for `n` bytes with the
/// conventional options (multiples of 1024, units `B`, `KB`, `MB`, ...).
pub uninterp spec fn conventional_size_text(n: u64) -> Seq<char>;

/// Relies on humansize's `FileSize::file_size` for `u64` with
/// `file_size_opts::CONVENTIONAL`: the unsigned implementation always returns
/// `Ok` with text that depends on `n` alone.
#[verifier::external_body]
fn conventional_size(n: u64) -> (r: Result<String, String>)
    ensures
        r is Ok,
        r matches Ok(t) ==> t@ == conventional_size_text(n),
{
    humansize::FileSize::file_size(&n, humansize::file_size_opts::CONVENTIONAL)
}

/// `n` bytes in human-readable form ("1.50 GB"); plain "<n> B" should the
/// formatter fail.
pub fn format_bytes(bytes: u64) -> (r: String)
    ensures
        r@ == conventional_size_text(bytes),
{
    match conventional_size(bytes) {
        Ok(t) => t,
        Err(_) => {
            let mut t = decimal_string(bytes);
            t.append(" B");
            t
        },
    }
}

/// The verdict on a root path typed by a person, before a scan.
#[derive(Clone, Debug, PartialEq, Eq)]
pub enum PathStatus {
    /// A directory, with the trimmed path.
    Valid(String),
    /// Nothing but whitespace was given.
    Empty,
    /// The trimmed path is not a directory.
    Invalid,
}

impl PathStatus {
    /// Classifies the typed `text`; `is_dir` tells whether the trimmed text
    /// names an existing directory.
    pub fn validate(text: &str, is_dir: bool) -> (r: PathStatus)
        ensures
            trimmed(text@).len() == 0 ==> r is Empty,
            trimmed(text@).len() > 0 && is_dir ==> (r matches PathStatus::Valid(p) && p@
                == trimmed(text@)),
            trimmed(text@).len() > 0 && !is_dir ==> r is Invalid,
    {
        let t = trim_text(text);
        if t.unicode_len() == 0 {
            PathStatus::Empty
        } else if is_dir {
            PathStatus::Valid(t)
        } else {
            PathStatus::Invalid
        }
    }

    /// The path of a valid status.
    pub fn path(self) -> (r: Option<String>)
        ensures
            match self {
                PathStatus::Valid(p) => r == Some(p),
                _ => r is None,
            },
    {
        match self {
            PathStatus::Valid(p) => Some(p),
            _ => None,
        }
    }

    /// The note shown for a rejected path.
    pub fn error_message(&self) -> (r: Option<&'static str>)
        ensures
            match self {
                PathStatus::Empty => r matches Some(m) && m@ == "(masukkan path dulu)"@,
                PathStatus::Invalid => r matches Some(m) && m@ == "(path tidak valid)"@,
                PathStatus::Valid(_) => r is None,
            },
    {
        match self {
            PathStatus::Empty => Some("(masukkan path dulu)"),
            PathStatus::Invalid => Some("(path tidak valid)"),
            PathStatus::Valid(_) => None,
        }
    }
}

proof fn lemma_selected_push(rs: Seq<FileRecord>, r: FileRecord, threshold: u64)
    ensures
        selected(rs.push(r), threshold) == if r.size is Some && r.size->0 >= threshold {
            selected(rs, threshold).push((r.path@, r.size->0))
        } else {
            selected(rs, threshold)
        },
{
    let keep = |x: FileRecord| x.size is Some && x.size->0 >= threshold;
    let view = |x: FileRecord| (x.path@, x.size->0);
    rs.lemma_filter_push(r, keep);
    if keep(r) {
        assert(rs.filter(keep).push(r).map_values(view) =~= rs.filter(keep).map_values(view).push(
            view(r),
        ));
    }
}

/// The threshold is inclusive: every selected file has at least `threshold`
/// bytes, every file of known size at or above it is selected (one of exactly
/// `threshold` bytes included, one byte less excluded), a zero threshold
/// selects every file of known size, and a threshold above every known size
/// selects nothing.
pub proof fn lemma_threshold_boundary(rs: Seq<FileRecord>, threshold: u64)
    ensures
        forall|j: int|
            0 <= j < selected(rs, threshold).len() ==> #[trigger] selected(rs, threshold)[j].1
                >= threshold,
        forall|i: int|
            0 <= i < rs.len() && rs[i].size is Some && rs[i].size->0 >= threshold
                ==> selected(rs, threshold).contains((#[trigger] rs[i].path@, rs[i].size->0)),
        selected(rs, 0).len() == rs.filter(|r: FileRecord| r.size is Some).len(),
        (forall|i: int| 0 <= i < rs.len() && #[trigger] rs[i].size is Some ==> rs[i].size->0 < threshold)
            ==> selected(rs, threshold).len() == 0,
    decreases rs.len(),
{
    if rs.len() == 0 {
        assert(rs.filter(|r: FileRecord| r.size is Some) =~= Seq::<FileRecord>::empty());
        assert(selected(rs, threshold) =~= Seq::<(Seq<char>, u64)>::empty());
        assert(selected(rs, 0) =~= Seq::<(Seq<char>, u64)>::empty());
    } else {
        let w = rs.drop_last();
        let r = rs.last();
        assert(rs =~= w.push(r));
        lemma_threshold_boundary(w, threshold);
        lemma_selected_push(w, r, threshold);
        lemma_selected_push(w, r, 0);
        w.lemma_filter_push(r, |r: FileRecord| r.size is Some);
        let sel = selected(rs, threshold);
        let prev = selected(w, threshold);
        assert forall|i: int|
            0 <= i < rs.len() && rs[i].size is Some && rs[i].size->0 >= threshold
                implies sel.contains((#[trigger] rs[i].path@, rs[i].size->0)) by {
            if i < w.len() {
                assert(rs[i] == w[i]);
                assert(prev.contains((w[i].path@, w[i].size->0)));
                let j = choose|j: int| 0 <= j < prev.len() && prev[j] == (w[i].path@, w[i].size->0);
                assert(sel[j] == prev[j]);
            } else {
                assert(sel[sel.len() - 1] == (r.path@, r.size->0));
            }
        }
        if forall|i: int| 0 <= i < rs.len() && #[trigger] rs[i].size is Some ==> rs[i].size->0 < threshold {
            assert forall|i: int| 0 <= i < w.len() && #[trigger] w[i].size is Some implies w[i].size->0
                < threshold by {
                assert(rs[i] == w[i]);
            }
            assert(rs[rs.len() - 1] == r);
        }
    }
}

/// Merging is commutative: `a` merged with `b` and `b` merged with `a` agree
/// on total size, file count and every `(key, count)` entry.
pub proof fn lemma_merge_commutative(a: ScanTally, b: ScanTally, ab: ScanTally, ba: ScanTally)
    requires
        ab.merged_from(a, b),
        ba.merged_from(b, a),
    ensures
        ab.total_size == ba.total_size,
        ab.total_files == ba.total_files,
        forall|k: Seq<char>| #[trigger] count_of(ab.counts@, k) == count_of(ba.counts@, k),
        entry_views(ab.counts@).to_set() == entry_views(ba.counts@).to_set(),
{
    assert(a.total_size + b.total_size == b.total_size + a.total_size);
    assert forall|e: (Seq<char>, nat)|
        entry_views(ab.counts@).to_set().contains(e) == entry_views(ba.counts@).to_set().contains(
            e,
        ) by {
        lemma_entry_membership(ab, e.0, e.1);
        lemma_entry_membership(ba, e.0, e.1);
    }
    assert(entry_views(ab.counts@).to_set() =~= entry_views(ba.counts@).to_set());
}

/// Merging is associative: merging `a` with `b` and then with `c`, or `a`
/// with the merge of `b` and `c`, agree on total size, file count and every
/// `(key, count)` entry, so the grouping of a reduction does not matter.
pub proof fn lemma_merge_associative(
    a: ScanTally,
    b: ScanTally,
    c: ScanTally,
    ab: ScanTally,
    ab_c: ScanTally,
    bc: ScanTally,
    a_bc: ScanTally,
)
    requires
        ab.merged_from(a, b),
        ab_c.merged_from(ab, c),
        bc.merged_from(b, c),
        a_bc.merged_from(a, bc),
    ensures
        ab_c.total_size == a_bc.total_size,
        ab_c.total_files == a_bc.total_files,
        forall|k: Seq<char>| #[trigger] count_of(ab_c.counts@, k) == count_of(a_bc.counts@, k),
        entry_views(ab_c.counts@).to_set() == entry_views(a_bc.counts@).to_set(),
{
    assert forall|k: Seq<char>| #[trigger]
        count_of(ab_c.counts@, k) == count_of(a_bc.counts@, k) by {
        assert(count_of(ab_c.counts@, k) == count_of(ab.counts@, k) + count_of(c.counts@, k));
        assert(count_of(a_bc.counts@, k) == count_of(a.counts@, k) + count_of(bc.counts@, k));
    }
    assert forall|e: (Seq<char>, nat)|
        entry_views(ab_c.counts@).to_set().contains(e) == entry_views(
            a_bc.counts@,
        ).to_set().contains(e) by {
        lemma_entry_membership(ab_c, e.0, e.1);
        lemma_entry_membership(a_bc, e.0, e.1);
    }
    assert(entry_views(ab_c.counts@).to_set() =~= entry_views(a_bc.counts@).to_set());
}

proof fn lemma_concat_parts(a: Seq<FileRecord>, b: Seq<FileRecord>, threshold: u64)
    ensures
        size_sum(a + b) == size_sum(a) + size_sum(b),
        record_keys(a + b).to_multiset() == record_keys(a).to_multiset().add(
            record_keys(b).to_multiset(),
        ),
        selected(a + b, threshold).to_multiset() == selected(a, threshold).to_multiset().add(
            selected(b, threshold).to_multiset(),
        ),
{
    let keep = |r: FileRecord| r.size is Some && r.size->0 >= threshold;
    let view = |r: FileRecord| (r.path@, r.size->0);
    lemma_size_sum_concat(a, b);
    assert(record_keys(a + b) =~= record_keys(a) + record_keys(b));
    vstd::seq_lib::lemma_multiset_commutative(record_keys(a), record_keys(b));
    Seq::filter_distributes_over_add(a, b, keep);
    assert((a.filter(keep) + b.filter(keep)).map_values(view) =~= a.filter(keep).map_values(view)
        + b.filter(keep).map_values(view));
    vstd::seq_lib::lemma_multiset_commutative(selected(a, threshold), selected(b, threshold));
}

proof fn lemma_rearranged_records(rs1: Seq<FileRecord>, rs2: Seq<FileRecord>, threshold: u64)
    requires
        rs1.to_multiset() == rs2.to_multiset(),
    ensures
        rs1.len() == rs2.len(),
        size_sum(rs1) == size_sum(rs2),
        record_keys(rs1).to_multiset() == record_keys(rs2).to_multiset(),
        selected(rs1, threshold).to_multiset() == selected(rs2, threshold).to_multiset(),
    decreases rs1.len(),
{
    broadcast use vstd::seq_lib::group_to_multiset_ensures;

    if rs1.len() == 0 {
        assert(rs1.to_multiset().len() == rs1.len());
        assert(rs2.to_multiset().len() == rs2.len());
        assert(rs2.len() == 0);
        assert(rs1 =~= rs2);
    } else {
        let x = rs1.last();
        let w = rs1.drop_last();
        assert(rs1 =~= w.push(x));
        assert(rs2.to_multiset().count(x) > 0);
        assert(rs2.contains(x));
        let i = choose|i: int| 0 <= i < rs2.len() && rs2[i] == x;
        let p = rs2.take(i);
        let q = rs2.skip(i + 1);
        let v = p + q;
        let one = seq![x];
        assert(rs2 =~= p + one + q);
        assert(w + one =~= rs1);
        vstd::seq_lib::lemma_multiset_commutative(p + one, q);
        vstd::seq_lib::lemma_multiset_commutative(p, one);
        vstd::seq_lib::lemma_multiset_commutative(p, q);
        vstd::seq_lib::lemma_multiset_commutative(w, one);
        assert(w.to_multiset() =~= v.to_multiset()) by {
            assert(w.push(x).to_multiset() =~= w.to_multiset().insert(x));
            assert(rs2.remove(i).to_multiset() =~= rs2.to_multiset().remove(rs2[i]));
            assert(rs2.remove(i) =~= v);
            assert forall|y: FileRecord| w.to_multiset().count(y) == v.to_multiset().count(y) by {
                assert(rs1.to_multiset().count(y) == rs2.to_multiset().count(y));
            }
        }
        lemma_rearranged_records(w, v, threshold);
        lemma_concat_parts(w, one, threshold);
        lemma_concat_parts(p, one, threshold);
        lemma_concat_parts(p + one, q, threshold);
        lemma_concat_parts(p, q, threshold);
        assert(record_keys(rs1).to_multiset() =~= record_keys(rs2).to_multiset());
        assert(selected(rs1, threshold).to_multiset() =~= selected(rs2, threshold).to_multiset());
    }
}

proof fn lemma_histogram_entries(h: Seq<(String, usize)>, ks: Seq<Seq<char>>, k: Seq<char>, n: nat)
    requires
        is_histogram_of(h, ks),
    ensures
        entry_views(h).contains((k, n)) <==> (ks.contains(k) && n == occurrences(ks, k)),
{
    if entry_views(h).contains((k, n)) {
        let i = choose|i: int| 0 <= i < entry_views(h).len() && entry_views(h)[i] == (k, n);
        assert(entry_views(h)[i] == (h[i].0@, h[i].1 as nat));
    }
    if ks.contains(k) && n == occurrences(ks, k) {
        assert(key_views(h).contains(k));
        let i = choose|i: int| 0 <= i < key_views(h).len() && key_views(h)[i] == k;
        assert(key_views(h)[i] == h[i].0@);
        assert(entry_views(h)[i] == (k, n));
    }
}

/// The order in which the files of a scan are met does not matter: for two
/// arrangements of the same files, the statistics agree on total size, file
/// count, every `(extension, count)` entry (only ties may be listed in
/// another order) and the multiset of selected files.
pub proof fn lemma_permutation_independence(
    rs1: Seq<FileRecord>,
    rs2: Seq<FileRecord>,
    threshold: u64,
    s1: FolderStats,
    s2: FolderStats,
)
    requires
        rs1.to_multiset() == rs2.to_multiset(),
        s1.summarizes(rs1, threshold),
        s2.summarizes(rs2, threshold),
    ensures
        s1.total_size == s2.total_size,
        s1.total_files == s2.total_files,
        entry_views(s1.extension_count@).to_set() == entry_views(s2.extension_count@).to_set(),
        file_entry_views(s1.filtered_files@).to_multiset() == file_entry_views(
            s2.filtered_files@,
        ).to_multiset(),
{
    broadcast use vstd::seq_lib::group_to_multiset_ensures;

    lemma_rearranged_records(rs1, rs2, threshold);
    let ks1 = record_keys(rs1);
    let ks2 = record_keys(rs2);
    assert forall|e: (Seq<char>, nat)|
        entry_views(s1.extension_count@).to_set().contains(e) == entry_views(
            s2.extension_count@,
        ).to_set().contains(e) by {
        lemma_histogram_entries(s1.extension_count@, ks1, e.0, e.1);
        lemma_histogram_entries(s2.extension_count@, ks2, e.0, e.1);
        assert(ks1.contains(e.0) == (ks1.to_multiset().count(e.0) > 0));
        assert(ks2.contains(e.0) == (ks2.to_multiset().count(e.0) > 0));
    }
    assert(entry_views(s1.extension_count@).to_set() =~= entry_views(
        s2.extension_count@,
    ).to_set());
}

} // verus!

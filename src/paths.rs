use vstd::prelude::*;

verus! {

/// The path separator `/`.
pub const SLASH: u8 = 47;

/// The extension separator `.`.
pub const DOT: u8 = 46;

/// Index of the last occurrence of `c` in `s`, or -1.
pub open spec fn last_index_of(s: Seq<u8>, c: u8) -> int
    decreases s.len(),
{
    if s.len() == 0 {
        -1
    } else if s.last() == c {
        s.len() - 1
    } else {
        last_index_of(s.drop_last(), c)
    }
}

/// The file name of a path: the bytes after its last `/`.
pub open spec fn file_name(p: Seq<u8>) -> Seq<u8> {
    p.subrange(last_index_of(p, SLASH) + 1, p.len() as int)
}

/// The extension of a path: the bytes of its file name after the last `.`,
/// where that `.` is not the name's first byte (`.png` and `..` have none).
pub open spec fn extension(p: Seq<u8>) -> Option<Seq<u8>> {
    let f = file_name(p);
    let d = last_index_of(f, DOT);
    if d <= 0 || f == seq![DOT, DOT] {
        None
    } else {
        Some(f.subrange(d + 1, f.len() as int))
    }
}

/// Whether an extension is one of the accepted image formats (case-sensitive).
pub open spec fn allowed_extension(e: Seq<u8>) -> bool {
    e == seq![106u8, 112, 101, 103]  // jpeg
        || e == seq![106u8, 112, 103]  // jpg
        || e == seq![112u8, 110, 103]  // png
        || e == seq![103u8, 105, 102]  // gif
}

/// Whether a path names a candidate tile image.
pub open spec fn is_tile_path(p: Seq<u8>) -> bool {
    match extension(p) {
        Some(e) => allowed_extension(e),
        None => false,
    }
}

/// Lexicographic order on byte strings, a prefix first.
pub open spec fn lex_le(a: Seq<u8>, b: Seq<u8>) -> bool
    decreases a.len(),
{
    if a.len() == 0 {
        true
    } else if b.len() == 0 {
        false
    } else if a[0] != b[0] {
        a[0] < b[0]
    } else {
        lex_le(a.drop_first(), b.drop_first())
    }
}

fn last_index(s: &Vec<u8>, end: usize, c: u8) -> (r: Option<usize>)
    requires
        end <= s@.len(),
    ensures
        match r {
            Some(i) => i < end && i == last_index_of(s@.subrange(0, end as int), c),
            None => last_index_of(s@.subrange(0, end as int), c) == -1,
        },
{
    let mut i: usize = end;
    while i > 0
        invariant
            i <= end <= s@.len(),
            last_index_of(s@.subrange(0, end as int), c) == last_index_of(s@.subrange(0, i as int), c),
        decreases i,
    {
        assert(s@.subrange(0, i as int).drop_last() =~= s@.subrange(0, i - 1));
        if s[i - 1] == c {
            return Some(i - 1);
        }
        i = i - 1;
    }
    None
}

fn bytes_equal(s: &Vec<u8>, start: usize, lit: &[u8]) -> (r: bool)
    requires
        start <= s@.len(),
    ensures
        r == (s@.subrange(start as int, s@.len() as int) == lit@),
{
    if s.len() - start != lit.len() {
        assert(s@.subrange(start as int, s@.len() as int).len() != lit@.len());
        return false;
    }
    let len: usize = s.len();
    let mut i: usize = 0;
    while i < lit.len()
        invariant
            len == s@.len(),
            start <= s@.len(),
            s@.len() - start == lit@.len(),
            i <= lit@.len(),
            forall|j: int| 0 <= j < i ==> s@[start + j] == lit@[j],
        decreases lit@.len() - i,
    {
        if s[start + i] != lit[i] {
            assert(s@.subrange(start as int, s@.len() as int)[i as int] != lit@[i as int]);
            return false;
        }
        i = i + 1;
    }
    assert(s@.subrange(start as int, s@.len() as int) =~= lit@);
    true
}

/// Whether `path` has one of the extensions jpeg, jpg, png or gif.
pub fn is_image_path(path: &Vec<u8>) -> (r: bool)
    ensures
        r == is_tile_path(path@),
{
    let n: usize = path.len();
    assert(path@.subrange(0, n as int) =~= path@);
    let name_start: usize = match last_index(path, n, SLASH) {
        Some(i) => i + 1,
        None => 0,
    };
    let ghost f = file_name(path@);
    assert(f =~= path@.subrange(name_start as int, n as int));
    proof {
        lemma_last_index_suffix(path@, name_start as int, DOT);
    }
    let dot: usize = match last_index(path, n, DOT) {
        Some(i) => i,
        None => {
            return false;
        },
    };
    if dot <= name_start {
        return false;
    }
    assert(last_index_of(f, DOT) == dot - name_start);
    if bytes_equal(path, name_start, &[DOT, DOT]) {
        return false;
    }
    let e: usize = dot + 1;
    assert(f.subrange(dot - name_start + 1, f.len() as int) =~= path@.subrange(e as int, n as int));
    bytes_equal(path, e, &[106u8, 112, 101, 103]) || bytes_equal(path, e, &[106u8, 112, 103])
        || bytes_equal(path, e, &[112u8, 110, 103]) || bytes_equal(path, e, &[103u8, 105, 102])
}

/// Where the last `c` of `s` lies after `start`, it is the last `c` of the
/// suffix from `start`, shifted.
proof fn lemma_last_index_suffix(s: Seq<u8>, start: int, c: u8)
    requires
        last_index_of(s, SLASH) + 1 == start,
        c != SLASH,
    ensures
        last_index_of(s, c) >= start ==> last_index_of(s.subrange(start, s.len() as int), c) == last_index_of(s, c) - start,
        last_index_of(s, c) < start ==> last_index_of(s.subrange(start, s.len() as int), c) == -1,
    decreases s.len(),
{
    lemma_last_index_bounds(s, SLASH);
    lemma_last_index_bounds(s, c);
    let suffix = s.subrange(start, s.len() as int);
    if s.len() > 0 && s.last() != c {
        if s.last() == SLASH {
            assert(suffix.len() == 0);
        } else {
            let t = s.drop_last();
            lemma_last_index_bounds(t, SLASH);
            lemma_last_index_suffix(t, start, c);
            assert(suffix.drop_last() =~= t.subrange(start, t.len() as int));
        }
    }
}

proof fn lemma_last_index_bounds(s: Seq<u8>, c: u8)
    ensures
        -1 <= last_index_of(s, c) < s.len(),
        last_index_of(s, c) >= 0 ==> s[last_index_of(s, c)] == c,
    decreases s.len(),
{
    if s.len() > 0 {
        lemma_last_index_bounds(s.drop_last(), c);
    }
}

/// Relies on std's `slice::sort`: the result is a permutation of the input
/// in the ascending order of `Vec<u8>`, which compares lexicographically.
#[verifier::external_body]
fn sort_paths(v: &mut Vec<Vec<u8>>)
    ensures
        final(v).deep_view().to_multiset() == old(v).deep_view().to_multiset(),
        forall|i: int, j: int|
            0 <= i < j < final(v).deep_view().len() ==> lex_le(final(v).deep_view()[i], final(v).deep_view()[j]),
{
    v.sort();
}

/// Keeps the paths of candidate tile images and puts them in lexicographic
/// order, which fixes which of two tiles with the same key survives.
pub fn find_images(paths: Vec<Vec<u8>>) -> (r: Vec<Vec<u8>>)
    ensures
        r.deep_view().to_multiset() == paths.deep_view().filter(|p: Seq<u8>| is_tile_path(p)).to_multiset(),
        forall|i: int, j: int| 0 <= i < j < r.deep_view().len() ==> lex_le(r.deep_view()[i], r.deep_view()[j]),
{
    let ghost pred = |p: Seq<u8>| is_tile_path(p);
    let mut out: Vec<Vec<u8>> = Vec::new();
    let mut i: usize = 0;
    while i < paths.len()
        invariant
            i <= paths@.len(),
            pred == (|p: Seq<u8>| is_tile_path(p)),
            out.deep_view() == paths.deep_view().subrange(0, i as int).filter(pred),
        decreases paths@.len() - i,
    {
        let p = &paths[i];
        let ghost prefix = paths.deep_view().subrange(0, i + 1);
        assert(prefix.drop_last() =~= paths.deep_view().subrange(0, i as int));
        assert(prefix.last() == p@);
        let ghost before = out.deep_view();
        if is_image_path(p) {
            let q = p.clone();
            assert(q@ =~= p@);
            out.push(q);
            assert(out.deep_view() =~= before.push(p@));
            assert(out.deep_view() == prefix.filter(pred)) by {
                reveal(Seq::filter);
            }
        } else {
            assert(out.deep_view() == prefix.filter(pred)) by {
                reveal(Seq::filter);
            }
        }
        i = i + 1;
    }
    assert(paths.deep_view().subrange(0, paths@.len() as int) =~= paths.deep_view());
    sort_paths(&mut out);
    out
}

} // verus!

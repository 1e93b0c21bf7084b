use vstd::prelude::*;
use vstd::string::StrSliceExecFns;
use crate::error::NwaError;

verus! {

/// The three kinds of input: a single stream, an archive of streams, and an
/// archive of raw sub-files.
#[derive(Clone, Copy, Debug, PartialEq, Eq, Structural)]
pub enum FileType {
    Nwa,
    Nwk,
    Ovk,
}

/// The lowercase form of a string, as std computes it.
pub uninterp spec fn lower_of(s: Seq<char>) -> Seq<char>;

/// Relies on `str::to_lowercase`: its result depends on the characters alone.
#[verifier::external_body]
fn lowercase(s: &str) -> (r: String)
    ensures
        r@ == lower_of(s@),
{
    s.to_lowercase()
}

/// Whether `p` occurs in `t` at position `i`.
pub open spec fn occurs_at(t: Seq<char>, p: Seq<char>, i: int) -> bool {
    0 <= i && i + p.len() <= t.len() && t.subrange(i, i + p.len()) == p
}

pub open spec fn occurs(t: Seq<char>, p: Seq<char>) -> bool {
    exists|i: int| occurs_at(t, p, i)
}

/// The kind that a lowercase file name names: the first of "nwa", "nwk" and
/// "ovk" that occurs in it.
pub open spec fn kind_of(lower: Seq<char>) -> Result<FileType, NwaError> {
    if occurs(lower, seq!['n', 'w', 'a']) {
        Ok(FileType::Nwa)
    } else if occurs(lower, seq!['n', 'w', 'k']) {
        Ok(FileType::Nwk)
    } else if occurs(lower, seq!['o', 'v', 'k']) {
        Ok(FileType::Ovk)
    } else {
        Err(NwaError::UnknownFileType)
    }
}

/// Whether `p` occurs in `t`.
pub fn contains_chars(t: &str, p: &[char]) -> (r: bool)
    ensures
        r == occurs(t@, p@),
{
    let n = t.unicode_len();
    let m = p.len();
    if m > n {
        assert forall|i: int| !occurs_at(t@, p@, i) by {}
        return false;
    }
    let mut i: usize = 0;
    while i <= n - m
        invariant
            n == t@.len(),
            m == p@.len(),
            m <= n,
            i <= n - m + 1,
            forall|j: int| 0 <= j < i ==> !occurs_at(t@, p@, j),
        decreases n - m + 1 - i,
    {
        let mut k: usize = 0;
        let mut same = true;
        while k < m && same
            invariant
                n == t@.len(),
                m == p@.len(),
                i + m <= n,
                k <= m,
                same ==> forall|q: int| 0 <= q < k ==> t@[i + q] == p@[q],
                !same ==> exists|q: int| 0 <= q < m && t@[i + q] != p@[q],
            decreases m - k + if same {
                1int
            } else {
                0int
            },
        {
            if t.get_char(i + k) != p[k] {
                same = false;
            } else {
                k = k + 1;
            }
        }
        if same {
            assert(t@.subrange(i as int, i + m) =~= p@);
            assert(occurs_at(t@, p@, i as int));
            return true;
        }
        proof {
            let q = choose|q: int| 0 <= q < m && t@[i + q] != p@[q];
            assert(t@.subrange(i as int, i + m)[q] != p@[q]);
        }
        i = i + 1;
    }
    assert forall|j: int| !occurs_at(t@, p@, j) by {
        if 0 <= j && j + m <= n {
            assert(j < i);
        }
    }
    false
}

/// The kind that an already lowercase file name names.
pub fn filetype_of_lowercase(lower: &str) -> (r: Result<FileType, NwaError>)
    ensures
        r == kind_of(lower@),
{
    let nwa = ['n', 'w', 'a'];
    let nwk = ['n', 'w', 'k'];
    let ovk = ['o', 'v', 'k'];
    assert(nwa@ =~= seq!['n', 'w', 'a']);
    assert(nwk@ =~= seq!['n', 'w', 'k']);
    assert(ovk@ =~= seq!['o', 'v', 'k']);
    if contains_chars(lower, nwa.as_slice()) {
        Ok(FileType::Nwa)
    } else if contains_chars(lower, nwk.as_slice()) {
        Ok(FileType::Nwk)
    } else if contains_chars(lower, ovk.as_slice()) {
        Ok(FileType::Ovk)
    } else {
        Err(NwaError::UnknownFileType)
    }
}

/// The kind of file that a file name names, matched without regard to case.
pub fn get_filetype(filename: &str) -> (r: Result<FileType, NwaError>)
    ensures
        r == kind_of(lower_of(filename@)),
{
    let lower = lowercase(filename);
    filetype_of_lowercase(lower.as_str())
}

} // verus!

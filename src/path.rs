//! Byte-string paths: absolute or relative, compared byte-wise, never
//! normalised.

use crate::collections::TableKey;
use vstd::prelude::*;
use vstd::slice::{slice_subrange, slice_to_vec};
use vstd::string::StringSliceAdditionalSpecFns;

verus! {

/// The path separator.
pub const SLASH: u8 = 0x2f;

/// The path `/`.
pub open spec fn root_seq() -> Seq<u8> {
    seq![SLASH]
}

/// `s` starts with a separator.
pub open spec fn is_absolute_seq(s: Seq<u8>) -> bool {
    s.len() > 0 && s[0] == SLASH
}

/// `s` without its trailing separators.
pub open spec fn trim_end_slashes(s: Seq<u8>) -> Seq<u8>
    decreases s.len(),
{
    if s.len() > 0 && s.last() == SLASH {
        trim_end_slashes(s.drop_last())
    } else {
        s
    }
}

/// Index of the last separator in `s`, or -1 when there is none.
pub open spec fn last_slash(s: Seq<u8>) -> int
    decreases s.len(),
{
    if s.len() == 0 {
        -1
    } else if s.last() == SLASH {
        s.len() - 1
    } else {
        last_slash(s.drop_last())
    }
}

/// `b` appended to `a`: an absolute `b` wins; otherwise one separator is put
/// between them unless `a` is empty or already ends in one.
pub open spec fn join_seq(a: Seq<u8>, b: Seq<u8>) -> Seq<u8> {
    if is_absolute_seq(b) {
        b
    } else if a.len() == 0 || a.last() == SLASH {
        a + b
    } else {
        a + seq![SLASH] + b
    }
}

/// The last component of `s`, trailing separators ignored; none for the empty
/// path.
pub open spec fn file_name_seq(s: Seq<u8>) -> Option<Seq<u8>> {
    if s.len() == 0 {
        None
    } else {
        let t = trim_end_slashes(s);
        Some(t.subrange(last_slash(t) + 1, t.len() as int))
    }
}

/// Everything before the last separator, trailing separators ignored; `/` where
/// that would be empty; none for `/` itself and for a single relative
/// component.
pub open spec fn parent_seq(s: Seq<u8>) -> Option<Seq<u8>> {
    if s == root_seq() {
        None
    } else {
        let t = trim_end_slashes(s);
        if t.len() == 0 {
            Some(root_seq())
        } else {
            let i = last_slash(t);
            if i < 0 {
                None
            } else if i == 0 {
                Some(root_seq())
            } else {
                Some(t.subrange(0, i))
            }
        }
    }
}

/// Trimming keeps a prefix, and drops only separators.
pub proof fn lemma_trim_end_slashes(s: Seq<u8>)
    ensures
        trim_end_slashes(s).len() <= s.len(),
        trim_end_slashes(s) == s.subrange(0, trim_end_slashes(s).len() as int),
        trim_end_slashes(s).len() == 0 || trim_end_slashes(s).last() != SLASH,
        forall|i: int| trim_end_slashes(s).len() <= i < s.len() ==> s[i] == SLASH,
    decreases s.len(),
{
    if s.len() > 0 && s.last() == SLASH {
        lemma_trim_end_slashes(s.drop_last());
        assert forall|i: int| trim_end_slashes(s).len() <= i < s.len() implies s[i] == SLASH by {
            if i < s.len() - 1 {
                assert(s.drop_last()[i] == s[i]);
            }
        }
        assert(s.drop_last().subrange(0, trim_end_slashes(s).len() as int) == s.subrange(
            0,
            trim_end_slashes(s).len() as int,
        ));
    } else {
        assert(s.subrange(0, s.len() as int) == s);
    }
}

/// `last_slash` points at the last separator, or is -1 when there is none.
pub proof fn lemma_last_slash(s: Seq<u8>)
    ensures
        -1 <= last_slash(s) < s.len(),
        last_slash(s) >= 0 ==> s[last_slash(s)] == SLASH,
        forall|i: int| last_slash(s) < i < s.len() ==> s[i] != SLASH,
    decreases s.len(),
{
    if s.len() > 0 && s.last() != SLASH {
        lemma_last_slash(s.drop_last());
        assert forall|i: int| last_slash(s) < i < s.len() implies s[i] != SLASH by {
            if i < s.len() - 1 {
                assert(s.drop_last()[i] == s[i]);
            }
        }
    }
}

/// The text that `String::from_utf8_lossy` makes of `b`.
pub uninterp spec fn utf8_lossy(b: Seq<u8>) -> Seq<char>;

/// Relies on `String::from_utf8_lossy`: the text depends on the bytes alone,
/// and bytes below 0x80 (ASCII) each decode to the character of that code.
#[verifier::external_body]
fn decode_lossy(b: &[u8]) -> (r: String)
    ensures
        r@ == utf8_lossy(b@),
        (forall|i: int| 0 <= i < b@.len() ==> b@[i] < 0x80) ==> r@ == b@.map_values(
            |x: u8| x as char,
        ),
{
    String::from_utf8_lossy(b).into_owned()
}

/// A path held as the bytes that name it.
#[derive(Debug, PartialEq, Eq, Hash)]
pub struct PathBuf {
    inner: Vec<u8>,
}

impl View for PathBuf {
    type V = Seq<u8>;

    closed spec fn view(&self) -> Seq<u8> {
        self.inner@
    }
}

/// Length of `v[0..end]` once trailing separators are dropped.
fn trimmed_end(v: &Vec<u8>, end: usize) -> (n: usize)
    requires
        end <= v@.len(),
    ensures
        n == trim_end_slashes(v@.subrange(0, end as int)).len(),
{
    let mut n = end;
    while n > 0 && v[n - 1] == SLASH
        invariant
            n <= end <= v@.len(),
            trim_end_slashes(v@.subrange(0, n as int)) == trim_end_slashes(
                v@.subrange(0, end as int),
            ),
        decreases n,
    {
        assert(v@.subrange(0, n as int).drop_last() == v@.subrange(0, n - 1));
        n = n - 1;
    }
    n
}

/// Index of the last separator in `v[0..end]`.
fn rfind_slash(v: &Vec<u8>, end: usize) -> (r: Option<usize>)
    requires
        end <= v@.len(),
    ensures
        match r {
            Some(i) => i < end && last_slash(v@.subrange(0, end as int)) == i as int,
            None => last_slash(v@.subrange(0, end as int)) == -1,
        },
{
    let mut n = end;
    while n > 0
        invariant
            n <= end <= v@.len(),
            last_slash(v@.subrange(0, n as int)) == last_slash(v@.subrange(0, end as int)),
        decreases n,
    {
        if v[n - 1] == SLASH {
            return Some(n - 1);
        }
        assert(v@.subrange(0, n as int).drop_last() == v@.subrange(0, n - 1));
        n = n - 1;
    }
    None
}

/// The bytes `v[lo..hi]` as a new vector.
fn copy_range(v: &Vec<u8>, lo: usize, hi: usize) -> (r: Vec<u8>)
    requires
        lo <= hi <= v@.len(),
    ensures
        r@ == v@.subrange(lo as int, hi as int),
{
    slice_to_vec(slice_subrange(v.as_slice(), lo, hi))
}

impl PathBuf {
    /// The empty path.
    pub fn new() -> (r: PathBuf)
        ensures
            r@ == Seq::<u8>::empty(),
    {
        PathBuf { inner: Vec::new() }
    }

    /// The path named by the bytes of `s`.
    pub fn from(s: &str) -> (r: PathBuf)
        ensures
            r@ == s.spec_bytes(),
    {
        PathBuf { inner: slice_to_vec(s.as_bytes()) }
    }

    /// The path named by `b`.
    pub fn from_bytes(b: &[u8]) -> (r: PathBuf)
        ensures
            r@ == b@,
    {
        PathBuf { inner: slice_to_vec(b) }
    }

    /// The path `/`.
    pub fn root() -> (r: PathBuf)
        ensures
            r@ == root_seq(),
    {
        let mut inner: Vec<u8> = Vec::new();
        inner.push(SLASH);
        PathBuf { inner }
    }

    /// The bytes of the path.
    pub fn as_bytes(&self) -> (r: &[u8])
        ensures
            r@ == self@,
    {
        self.inner.as_slice()
    }

    /// The path as text, with invalid UTF-8 replaced.
    pub fn to_string_lossy(&self) -> (r: String)
        ensures
            r@ == utf8_lossy(self@),
            (forall|i: int| 0 <= i < self@.len() ==> self@[i] < 0x80) ==> r@ == self@.map_values(
                |x: u8| x as char,
            ),
    {
        decode_lossy(self.inner.as_slice())
    }

    /// This path.
    pub fn as_path(&self) -> (r: &PathBuf)
        ensures
            r@ == self@,
    {
        self
    }

    /// Whether the path starts with a separator.
    pub fn is_absolute(&self) -> (r: bool)
        ensures
            r == is_absolute_seq(self@),
    {
        self.inner.len() > 0 && self.inner[0] == SLASH
    }

    /// This path followed by `other`, see `join_seq`.
    pub fn join(&self, other: &PathBuf) -> (r: PathBuf)
        ensures
            r@ == join_seq(self@, other@),
    {
        if other.is_absolute() {
            other.clone()
        } else {
            let mut joined = self.inner.clone();
            let n = joined.len();
            if n > 0 && joined[n - 1] != SLASH {
                joined.push(SLASH);
            }
            let mut i: usize = 0;
            let ghost base = joined@;
            while i < other.inner.len()
                invariant
                    i <= other.inner@.len(),
                    joined@ == base + other.inner@.subrange(0, i as int),
                decreases other.inner@.len() - i,
            {
                joined.push(other.inner[i]);
                i = i + 1;
                assert(base + other.inner@.subrange(0, i as int) == (base + other.inner@.subrange(
                    0,
                    i - 1,
                )).push(other.inner@[i - 1]));
            }
            assert(other.inner@.subrange(0, other.inner@.len() as int) == other.inner@);
            PathBuf { inner: joined }
        }
    }

    /// The last component, see `file_name_seq`.
    pub fn file_name(&self) -> (r: Option<Vec<u8>>)
        ensures
            match r {
                Some(v) => file_name_seq(self@) == Some(v@),
                None => file_name_seq(self@).is_none(),
            },
    {
        if self.inner.len() == 0 {
            return None;
        }
        let end = trimmed_end(&self.inner, self.inner.len());
        proof {
            assert(self.inner@.subrange(0, self.inner@.len() as int) == self.inner@);
            lemma_trim_end_slashes(self.inner@);
        }
        let ghost t = self.inner@.subrange(0, end as int);
        proof {
            lemma_last_slash(t);
        }
        let start = match rfind_slash(&self.inner, end) {
            Some(i) => i + 1,
            None => 0,
        };
        let name = copy_range(&self.inner, start, end);
        assert(name@ == t.subrange(last_slash(t) + 1, t.len() as int));
        Some(name)
    }

    /// The enclosing path, see `parent_seq`.
    pub fn parent(&self) -> (r: Option<PathBuf>)
        ensures
            match r {
                Some(p) => parent_seq(self@) == Some(p@),
                None => parent_seq(self@).is_none(),
            },
    {
        if self.inner.len() == 1 && self.inner[0] == SLASH {
            assert(self@ == root_seq());
            return None;
        }
        assert(self@ != root_seq());
        let end = trimmed_end(&self.inner, self.inner.len());
        proof {
            assert(self.inner@.subrange(0, self.inner@.len() as int) == self.inner@);
            lemma_trim_end_slashes(self.inner@);
        }
        let ghost t = self.inner@.subrange(0, end as int);
        proof {
            lemma_last_slash(t);
        }
        if end == 0 {
            return Some(PathBuf::root());
        }
        match rfind_slash(&self.inner, end) {
            None => None,
            Some(i) => {
                if i == 0 {
                    Some(PathBuf::root())
                } else {
                    let p = copy_range(&self.inner, 0, i);
                    assert(p@ == t.subrange(0, i as int));
                    Some(PathBuf { inner: p })
                }
            },
        }
    }
}

impl Clone for PathBuf {
    fn clone(&self) -> (r: PathBuf)
        ensures
            r@ == self@,
    {
        PathBuf { inner: self.inner.clone() }
    }
}

impl TableKey for PathBuf {
    fn same_key(&self, other: &PathBuf) -> (r: bool) {
        if self.inner.len() != other.inner.len() {
            return false;
        }
        let mut i: usize = 0;
        while i < self.inner.len()
            invariant
                self.inner@.len() == other.inner@.len(),
                i <= self.inner@.len(),
                forall|j: int| 0 <= j < i ==> self.inner@[j] == other.inner@[j],
            decreases self.inner@.len() - i,
        {
            if self.inner[i] != other.inner[i] {
                return false;
            }
            i = i + 1;
        }
        assert(self.inner@ == other.inner@);
        true
    }
}

} // verus!

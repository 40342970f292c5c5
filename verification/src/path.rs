//! Unix file paths as byte strings.

use vstd::prelude::*;
use vstd::utf8::*;

verus! {

/// The byte that separates the components of a path.
pub const SEPARATOR: u8 = 47;

/// The byte of which the components `.` and `..` are made.
pub const DOT: u8 = 46;

/// A Unix path: any sequence of bytes.
#[derive(Debug)]
pub struct FilePath {
    pub bytes: Vec<u8>,
}

impl View for FilePath {
    type V = Seq<u8>;

    open spec fn view(&self) -> Seq<u8> {
        self.bytes@
    }
}

/// The bytes of an optional path.
pub open spec fn optional_path(path: Option<FilePath>) -> Option<Seq<u8>> {
    match path {
        Some(p) => Some(p@),
        None => None,
    }
}

/// Whether `path` starts at the root directory.
pub open spec fn is_rooted(path: Seq<u8>) -> bool {
    path.len() > 0 && path[0] == SEPARATOR
}

/// The number of bytes before the first separator of `path`.
pub open spec fn segment_len(path: Seq<u8>) -> nat
    decreases path.len(),
{
    if path.len() == 0 || path[0] == SEPARATOR {
        0
    } else {
        1 + segment_len(path.skip(1))
    }
}

/// What stands between the separators of `path`, in order, without what is empty and without
/// the references `.` to the current directory.
pub open spec fn components(path: Seq<u8>) -> Seq<Seq<u8>>
    decreases path.len(),
{
    if path.len() == 0 {
        seq![]
    } else if path[0] == SEPARATOR {
        components(path.skip(1))
    } else {
        let n = segment_len(path);
        proof {
            lemma_segment_len(path);
        }
        let rest = components(path.skip(n as int));
        if path.take(n as int) == seq![DOT] {
            rest
        } else {
            seq![path.take(n as int)] + rest
        }
    }
}

/// Whether `path` is relative and its first segment is `.`.
pub open spec fn starts_at_dot(path: Seq<u8>) -> bool {
    path.len() > 0 && path[0] == DOT && (path.len() == 1 || path[1] == SEPARATOR)
}

/// Whether two paths have the same root, the same explicit reference to the current directory
/// in front and the same components: repeated and trailing separators and inner references to
/// the current directory make no difference.
pub open spec fn same_location(a: Seq<u8>, b: Seq<u8>) -> bool {
    &&& is_rooted(a) == is_rooted(b)
    &&& starts_at_dot(a) == starts_at_dot(b)
    &&& components(a) == components(b)
}

/// `path` followed by `tail`, with one separator between the two; `tail` alone if it is rooted.
pub open spec fn joined(path: Seq<u8>, tail: Seq<u8>) -> Seq<u8> {
    if is_rooted(tail) {
        tail
    } else if path.len() > 0 && path.last() != SEPARATOR {
        path.push(SEPARATOR) + tail
    } else {
        path + tail
    }
}

/// A segment lies within its path, holds no separator and ends at one or at the end.
pub proof fn lemma_segment_len(path: Seq<u8>)
    ensures
        segment_len(path) <= path.len(),
        path.len() > 0 && path[0] != SEPARATOR ==> segment_len(path) > 0,
        forall|i: int| 0 <= i < segment_len(path) ==> path[i] != SEPARATOR,
        segment_len(path) < path.len() ==> path[segment_len(path) as int] == SEPARATOR,
    decreases path.len(),
{
    if path.len() > 0 && path[0] != SEPARATOR {
        let rest = path.skip(1);
        lemma_segment_len(rest);
        assert forall|i: int| 0 <= i < segment_len(path) implies path[i] != SEPARATOR by {
            if i > 0 {
                assert(rest[i - 1] == path[i]);
            }
        }
    }
}

/// The first separator of a sequence fixes the length of its first segment.
pub proof fn lemma_segment_len_is(path: Seq<u8>, n: int)
    requires
        0 <= n <= path.len(),
        forall|i: int| 0 <= i < n ==> path[i] != SEPARATOR,
        n < path.len() ==> path[n] == SEPARATOR,
    ensures
        segment_len(path) == n,
{
    lemma_segment_len(path);
    let m = segment_len(path) as int;
    if m < n {
        assert(path[m] == SEPARATOR);
    } else if n < m {
        assert(path[n] != SEPARATOR);
    }
}

impl FilePath {
    /// The path that `s` spells.
    pub fn new(s: &str) -> (path: FilePath)
        ensures
            path@ == encode_utf8(s@),
            path.bytes@ == encode_utf8(s@),
    {
        FilePath { bytes: s.as_bytes_vec() }
    }

    /// Whether the path has no bytes.
    pub fn is_empty(&self) -> (r: bool)
        ensures
            r == (self@.len() == 0),
    {
        self.bytes.len() == 0
    }

    /// Whether the path starts at the root directory.
    pub fn is_absolute(&self) -> (r: bool)
        ensures
            r == is_rooted(self@),
            r == (self.bytes@.len() > 0 && self.bytes@[0] == 47),
    {
        self.bytes.len() > 0 && self.bytes[0] == SEPARATOR
    }

    /// The components of the path: see [`components`].
    fn segments(&self) -> (r: Vec<Vec<u8>>)
        ensures
            r@.map_values(|v: Vec<u8>| v@) == components(self@),
    {
        let ghost path = self@;
        let ghost view = |v: Vec<u8>| v@;
        let mut r: Vec<Vec<u8>> = Vec::new();
        let mut at: usize = 0;
        assert(path.skip(0) =~= path);
        assert(r@.map_values(view) =~= Seq::<Seq<u8>>::empty());
        while at < self.bytes.len()
            invariant
                path == self@,
                at <= self.bytes.len(),
                r@.map_values(view) + components(path.skip(at as int)) == components(path),
                view == (|v: Vec<u8>| v@),
            decreases self.bytes.len() - at,
        {
            let ghost rest = path.skip(at as int);
            if self.bytes[at] == SEPARATOR {
                assert(rest.skip(1) =~= path.skip(at + 1));
                at = at + 1;
            } else {
                let mut segment: Vec<u8> = Vec::new();
                let start: usize = at;
                while at < self.bytes.len() && self.bytes[at] != SEPARATOR
                    invariant
                        path == self@,
                        start <= at <= self.bytes.len(),
                        rest == path.skip(start as int),
                        segment@ == rest.take(at - start),
                        forall|i: int| 0 <= i < at - start ==> rest[i] != SEPARATOR,
                    decreases self.bytes.len() - at,
                {
                    segment.push(self.bytes[at]);
                    assert(rest.take(at + 1 - start) =~= rest.take(at - start).push(
                        rest[at - start],
                    ));
                    at = at + 1;
                }
                proof {
                    lemma_segment_len_is(rest, at - start);
                    assert(rest.skip(at - start) =~= path.skip(at as int));
                }
                let ghost before = r@;
                let is_dot = segment.len() == 1 && segment[0] == DOT;
                assert(is_dot <==> segment@ =~= seq![DOT]);
                if !is_dot {
                    r.push(segment);
                    assert(r@.map_values(view) =~= before.map_values(view).push(segment@));
                    assert(before.map_values(view) + (seq![segment@] + components(
                        path.skip(at as int),
                    )) =~= r@.map_values(view) + components(path.skip(at as int)));
                }
            }
        }
        assert(components(path.skip(path.len() as int)) =~= Seq::<Seq<u8>>::empty());
        assert(r@.map_values(view) + Seq::<Seq<u8>>::empty() =~= r@.map_values(view));
        r
    }

    /// Whether two paths name the same location: see [`same_location`].
    pub fn same_as(&self, other: &FilePath) -> (r: bool)
        ensures
            r == same_location(self@, other@),
    {
        if self.is_absolute() != other.is_absolute() || self.at_dot() != other.at_dot() {
            return false;
        }
        let a = self.segments();
        let b = other.segments();
        let ghost view = |v: Vec<u8>| v@;
        assert(a@.map_values(view).len() == a.len());
        assert(b@.map_values(view).len() == b.len());
        if a.len() != b.len() {
            return false;
        }
        let mut i: usize = 0;
        while i < a.len()
            invariant
                a.len() == b.len(),
                i <= a.len(),
                view == (|v: Vec<u8>| v@),
                components(self@) == a@.map_values(view),
                components(other@) == b@.map_values(view),
                forall|j: int| 0 <= j < i ==> (#[trigger] a@[j])@ == b@[j]@,
            decreases a.len() - i,
        {
            if !same_bytes(&a[i], &b[i]) {
                assert(a@.map_values(view)[i as int] != b@.map_values(view)[i as int]);
                return false;
            }
            i = i + 1;
        }
        assert(a@.map_values(view) =~= b@.map_values(view));
        true
    }

    /// Whether the path is relative and starts with `.`.
    fn at_dot(&self) -> (r: bool)
        ensures
            r == starts_at_dot(self@),
    {
        self.bytes.len() > 0 && self.bytes[0] == DOT && (self.bytes.len() == 1 || self.bytes[1]
            == SEPARATOR)
    }

    /// The path extended by `tail`: see [`joined`].
    pub fn join(&self, tail: &str) -> (path: FilePath)
        ensures
            path@ == joined(self@, encode_utf8(tail@)),
            path.bytes@ == if encode_utf8(tail@).len() > 0 && encode_utf8(tail@)[0] == 47 {
                encode_utf8(tail@)
            } else if self.bytes@.len() == 0 || self.bytes@.last() == 47 {
                self.bytes@ + encode_utf8(tail@)
            } else {
                self.bytes@ + seq![47u8] + encode_utf8(tail@)
            },
    {
        let more = tail.as_bytes_vec();
        if more.len() > 0 && more[0] == SEPARATOR {
            return FilePath { bytes: more };
        }
        let mut bytes: Vec<u8> = copy_bytes(&self.bytes);
        if bytes.len() > 0 && bytes[bytes.len() - 1] != SEPARATOR {
            bytes.push(SEPARATOR);
        }
        let ghost front = bytes@;
        let mut i: usize = 0;
        assert(front + more@.take(0) =~= front);
        while i < more.len()
            invariant
                i <= more.len(),
                bytes@ == front + more@.take(i as int),
            decreases more.len() - i,
        {
            bytes.push(more[i]);
            assert(front + more@.take(i + 1) =~= (front + more@.take(i as int)).push(
                more@[i as int],
            ));
            i = i + 1;
        }
        assert(more@.take(more.len() as int) =~= more@);
        assert(self.bytes@.push(47) =~= self.bytes@ + seq![47u8]);
        FilePath { bytes }
    }
}

impl Clone for FilePath {
    fn clone(&self) -> (r: Self)
        ensures
            r@ == self@,
            r.bytes@ == self.bytes@,
    {
        FilePath { bytes: copy_bytes(&self.bytes) }
    }
}

/// A copy of `v`.
fn copy_bytes(v: &Vec<u8>) -> (r: Vec<u8>)
    ensures
        r@ == v@,
{
    let mut r: Vec<u8> = Vec::new();
    let mut i: usize = 0;
    while i < v.len()
        invariant
            i <= v.len(),
            r@ == v@.take(i as int),
        decreases v.len() - i,
    {
        r.push(v[i]);
        assert(v@.take(i + 1) =~= v@.take(i as int).push(v@[i as int]));
        i = i + 1;
    }
    assert(v@.take(v.len() as int) =~= v@);
    r
}

/// Whether `a` and `b` hold the same bytes.
pub fn same_bytes(a: &Vec<u8>, b: &Vec<u8>) -> (r: bool)
    ensures
        r == (a@ == b@),
{
    if a.len() != b.len() {
        return false;
    }
    let mut i: usize = 0;
    while i < a.len()
        invariant
            a.len() == b.len(),
            i <= a.len(),
            forall|j: int| 0 <= j < i ==> a@[j] == b@[j],
        decreases a.len() - i,
    {
        if a[i] != b[i] {
            return false;
        }
        i = i + 1;
    }
    assert(a@ =~= b@);
    true
}

/// A trailing separator names the same location.
pub proof fn law_trailing_separator(path: Seq<u8>)
    requires
        path.len() > 0,
    ensures
        same_location(path, path.push(SEPARATOR)),
{
    lemma_components_push_separator(path);
}

/// A separator at the end adds no component.
pub proof fn lemma_components_push_separator(path: Seq<u8>)
    ensures
        components(path.push(SEPARATOR)) == components(path),
    decreases path.len(),
{
    let longer = path.push(SEPARATOR);
    if path.len() == 0 {
        assert(longer.skip(1) =~= path);
    } else if path[0] == SEPARATOR {
        assert(longer.skip(1) =~= path.skip(1).push(SEPARATOR));
        lemma_components_push_separator(path.skip(1));
    } else {
        lemma_segment_len(path);
        let n = segment_len(path) as int;
        assert forall|i: int| 0 <= i < n implies longer[i] != SEPARATOR by {
            assert(longer[i] == path[i]);
        }
        lemma_segment_len_is(longer, n);
        assert(longer.take(n) =~= path.take(n));
        assert(longer.skip(n) =~= path.skip(n).push(SEPARATOR));
        lemma_components_push_separator(path.skip(n));
    }
}

} // verus!

//! Keys, paths, and the orders in which they are kept.

use std::cmp::Ordering;
use vstd::prelude::*;

verus! {

/// A key inside one subtree: an opaque byte string.
pub type Key = Vec<u8>;

/// A type whose values are kept sorted by a strict order on their views.
pub trait SortKey: Sized + View {
    /// Strict order on views.
    spec fn view_lt(a: Self::V, b: Self::V) -> bool;

    proof fn lemma_view_lt_irreflexive(a: Self::V)
        ensures
            !Self::view_lt(a, a),
    ;

    proof fn lemma_view_lt_transitive(a: Self::V, b: Self::V, c: Self::V)
        requires
            Self::view_lt(a, b),
            Self::view_lt(b, c),
        ensures
            Self::view_lt(a, c),
    ;

    /// Three-way comparison that agrees with `view_lt`.
    fn compare(&self, other: &Self) -> (r: Ordering)
        ensures
            (r == Ordering::Less) <==> Self::view_lt(self@, other@),
            (r == Ordering::Equal) <==> self@ == other@,
            (r == Ordering::Greater) <==> Self::view_lt(other@, self@),
    ;

    /// A copy with the same view.
    fn copy_key(&self) -> (r: Self)
        ensures
            r@ == self@,
    ;
}

/// `a` and `b` agree before index `i`, where `a` is smaller: either it ends
/// there while `b` goes on, or its byte there is smaller.
pub open spec fn key_lt_at(a: Seq<u8>, b: Seq<u8>, i: int) -> bool {
    &&& 0 <= i <= a.len()
    &&& i <= b.len()
    &&& forall|j: int| 0 <= j < i ==> a[j] == b[j]
    &&& ((i == a.len() && i < b.len()) || (i < a.len() && i < b.len() && a[i] < b[i]))
}

/// Lexicographic order on byte strings (the order of `Vec<u8>`).
pub open spec fn key_lt(a: Seq<u8>, b: Seq<u8>) -> bool {
    exists|i: int| key_lt_at(a, b, i)
}

pub proof fn lemma_key_lt_irreflexive(a: Seq<u8>)
    ensures
        !key_lt(a, a),
{
    if key_lt(a, a) {
        let i = choose|i: int| key_lt_at(a, a, i);
        assert(false);
    }
}

pub proof fn lemma_key_lt_asymmetric(a: Seq<u8>, b: Seq<u8>)
    requires
        key_lt(a, b),
    ensures
        !key_lt(b, a),
{
    let i = choose|i: int| key_lt_at(a, b, i);
    if key_lt(b, a) {
        let j = choose|j: int| key_lt_at(b, a, j);
        if i < j {
            assert(b[i] == a[i]);
        } else if j < i {
            assert(a[j] == b[j]);
        }
        assert(false);
    }
}

pub proof fn lemma_key_lt_transitive(a: Seq<u8>, b: Seq<u8>, c: Seq<u8>)
    requires
        key_lt(a, b),
        key_lt(b, c),
    ensures
        key_lt(a, c),
{
    let i = choose|i: int| key_lt_at(a, b, i);
    let j = choose|j: int| key_lt_at(b, c, j);
    if i < j {
        assert(b[i] == c[i]);
        assert(key_lt_at(a, c, i));
    } else if j < i {
        assert(a[j] == b[j]);
        assert(key_lt_at(a, c, j));
    } else {
        assert(key_lt_at(a, c, i));
    }
}

/// Byte-by-byte copy of a key.
pub fn copy_bytes(k: &[u8]) -> (r: Vec<u8>)
    ensures
        r@ == k@,
{
    let mut r: Vec<u8> = Vec::new();
    let mut i: usize = 0;
    while i < k.len()
        invariant
            i <= k@.len(),
            r@ == k@.subrange(0, i as int),
        decreases k@.len() - i,
    {
        r.push(k[i]);
        i = i + 1;
        assert(r@ =~= k@.subrange(0, i as int));
    }
    assert(r@ =~= k@);
    r
}

/// Whether two byte strings are equal.
pub fn same_bytes(a: &[u8], b: &[u8]) -> (r: bool)
    ensures
        r == (a@ == b@),
{
    match compare_bytes(a, b) {
        Ordering::Equal => true,
        _ => false,
    }
}

/// Three-way lexicographic comparison of two byte strings.
pub fn compare_bytes(a: &[u8], b: &[u8]) -> (r: Ordering)
    ensures
        (r == Ordering::Less) <==> key_lt(a@, b@),
        (r == Ordering::Equal) <==> a@ == b@,
        (r == Ordering::Greater) <==> key_lt(b@, a@),
{
    let mut i: usize = 0;
    while i < a.len() && i < b.len()
        invariant
            i <= a@.len(),
            i <= b@.len(),
            forall|j: int| 0 <= j < i ==> a@[j] == b@[j],
        decreases a@.len() - i,
    {
        if a[i] != b[i] {
            if a[i] < b[i] {
                proof {
                    assert(key_lt_at(a@, b@, i as int));
                    lemma_key_lt_asymmetric(a@, b@);
                }
                return Ordering::Less;
            } else {
                proof {
                    assert(key_lt_at(b@, a@, i as int));
                    lemma_key_lt_asymmetric(b@, a@);
                }
                return Ordering::Greater;
            }
        }
        i = i + 1;
    }
    if a.len() < b.len() {
        proof {
            assert(key_lt_at(a@, b@, i as int));
            lemma_key_lt_asymmetric(a@, b@);
        }
        Ordering::Less
    } else if b.len() < a.len() {
        proof {
            assert(key_lt_at(b@, a@, i as int));
            lemma_key_lt_asymmetric(b@, a@);
        }
        Ordering::Greater
    } else {
        proof {
            assert(a@ =~= b@);
            lemma_key_lt_irreflexive(a@);
        }
        Ordering::Equal
    }
}

impl SortKey for Vec<u8> {
    open spec fn view_lt(a: Seq<u8>, b: Seq<u8>) -> bool {
        key_lt(a, b)
    }

    proof fn lemma_view_lt_irreflexive(a: Seq<u8>) {
        lemma_key_lt_irreflexive(a);
    }

    proof fn lemma_view_lt_transitive(a: Seq<u8>, b: Seq<u8>, c: Seq<u8>) {
        lemma_key_lt_transitive(a, b, c);
    }

    fn compare(&self, other: &Self) -> (r: Ordering) {
        compare_bytes(self.as_slice(), other.as_slice())
    }

    fn copy_key(&self) -> (r: Self) {
        copy_bytes(self.as_slice())
    }
}

/// Location of a subtree: the keys leading to it from the root subtree, which
/// has the empty path.
#[derive(Debug, Clone, PartialEq, Eq, Hash, Default)]
pub struct Path(pub Vec<Vec<u8>>);

impl View for Path {
    type V = Seq<Seq<u8>>;

    open spec fn view(&self) -> Seq<Seq<u8>> {
        self.0@.map_values(|k: Vec<u8>| k@)
    }
}

/// `p` and `q` have one length, agree before segment `i`, and `p`'s segment
/// there is smaller.
pub open spec fn path_lt_at(p: Seq<Seq<u8>>, q: Seq<Seq<u8>>, i: int) -> bool {
    &&& 0 <= i < p.len()
    &&& p.len() == q.len()
    &&& forall|j: int| 0 <= j < i ==> p[j] == q[j]
    &&& key_lt(p[i], q[i])
}

/// Order of paths: shorter paths first, paths of one length lexicographically
/// by segment.
pub open spec fn path_lt(p: Seq<Seq<u8>>, q: Seq<Seq<u8>>) -> bool {
    p.len() < q.len() || exists|i: int| path_lt_at(p, q, i)
}

pub proof fn lemma_path_lt_irreflexive(p: Seq<Seq<u8>>)
    ensures
        !path_lt(p, p),
{
    if exists|i: int| path_lt_at(p, p, i) {
        let i = choose|i: int| path_lt_at(p, p, i);
        lemma_key_lt_irreflexive(p[i]);
    }
}

pub proof fn lemma_path_lt_asymmetric(p: Seq<Seq<u8>>, q: Seq<Seq<u8>>)
    requires
        path_lt(p, q),
    ensures
        !path_lt(q, p),
{
    if p.len() == q.len() && path_lt(q, p) {
        let i = choose|i: int| path_lt_at(p, q, i);
        let j = choose|j: int| path_lt_at(q, p, j);
        if i < j {
            assert(q[i] == p[i]);
            lemma_key_lt_irreflexive(p[i]);
        } else if j < i {
            assert(p[j] == q[j]);
            lemma_key_lt_irreflexive(q[j]);
        } else {
            lemma_key_lt_asymmetric(p[i], q[i]);
        }
    }
}

pub proof fn lemma_path_lt_transitive(p: Seq<Seq<u8>>, q: Seq<Seq<u8>>, r: Seq<Seq<u8>>)
    requires
        path_lt(p, q),
        path_lt(q, r),
    ensures
        path_lt(p, r),
{
    if p.len() == q.len() && q.len() == r.len() {
        let i = choose|i: int| path_lt_at(p, q, i);
        let j = choose|j: int| path_lt_at(q, r, j);
        if i < j {
            assert(q[i] == r[i]);
            assert(path_lt_at(p, r, i));
        } else if j < i {
            assert(p[j] == q[j]);
            assert(path_lt_at(p, r, j));
        } else {
            lemma_key_lt_transitive(p[i], q[i], r[i]);
            assert(path_lt_at(p, r, i));
        }
    } else {
        if p.len() == q.len() {
            let i = choose|i: int| path_lt_at(p, q, i);
        }
        if q.len() == r.len() {
            let j = choose|j: int| path_lt_at(q, r, j);
        }
    }
}

impl Path {
    /// The empty path, which addresses the root subtree.
    pub fn root() -> (r: Path)
        ensures
            r@ == Seq::<Seq<u8>>::empty(),
    {
        let r = Path(Vec::new());
        assert(r@ =~= Seq::<Seq<u8>>::empty());
        r
    }

    /// Number of segments.
    pub fn len(&self) -> (r: usize)
        ensures
            r == self@.len(),
    {
        self.0.len()
    }

    /// Segment `i`.
    pub fn segment(&self, i: usize) -> (r: &Vec<u8>)
        requires
            i < self@.len(),
        ensures
            r@ == self@[i as int],
    {
        &self.0[i]
    }

    /// A copy of the first `n` segments.
    pub fn prefix(&self, n: usize) -> (r: Path)
        requires
            n <= self@.len(),
        ensures
            r@ == self@.subrange(0, n as int),
    {
        let mut v: Vec<Vec<u8>> = Vec::new();
        let mut i: usize = 0;
        while i < n
            invariant
                i <= n <= self@.len(),
                v@.len() == i,
                forall|j: int| 0 <= j < i ==> #[trigger] v@[j]@ == self@[j],
            decreases n - i,
        {
            let seg = copy_bytes(self.0[i].as_slice());
            v.push(seg);
            i = i + 1;
        }
        assert(v@.map_values(|k: Vec<u8>| k@) =~= self@.subrange(0, n as int));
        Path(v)
    }

    /// A copy of this path with `key` appended.
    pub fn child(&self, key: &[u8]) -> (r: Path)
        ensures
            r@ == self@.push(key@),
    {
        let mut r = self.prefix(self.0.len());
        assert(self@.subrange(0, self@.len() as int) =~= self@);
        r.0.push(copy_bytes(key));
        assert(r@ =~= self@.push(key@));
        r
    }
}

impl SortKey for Path {
    open spec fn view_lt(a: Seq<Seq<u8>>, b: Seq<Seq<u8>>) -> bool {
        path_lt(a, b)
    }

    proof fn lemma_view_lt_irreflexive(a: Seq<Seq<u8>>) {
        lemma_path_lt_irreflexive(a);
    }

    proof fn lemma_view_lt_transitive(a: Seq<Seq<u8>>, b: Seq<Seq<u8>>, c: Seq<Seq<u8>>) {
        lemma_path_lt_transitive(a, b, c);
    }

    fn compare(&self, other: &Self) -> (r: Ordering) {
        if self.0.len() < other.0.len() {
            proof {
                lemma_path_lt_asymmetric(self@, other@);
            }
            return Ordering::Less;
        }
        if other.0.len() < self.0.len() {
            proof {
                lemma_path_lt_asymmetric(other@, self@);
            }
            return Ordering::Greater;
        }
        let mut i: usize = 0;
        while i < self.0.len()
            invariant
                i <= self@.len(),
                self@.len() == other@.len(),
                forall|j: int| 0 <= j < i ==> self@[j] == other@[j],
            decreases self@.len() - i,
        {
            match compare_bytes(self.0[i].as_slice(), other.0[i].as_slice()) {
                Ordering::Less => {
                    proof {
                        assert(path_lt_at(self@, other@, i as int));
                        lemma_path_lt_asymmetric(self@, other@);
                    }
                    return Ordering::Less;
                },
                Ordering::Greater => {
                    proof {
                        assert(path_lt_at(other@, self@, i as int));
                        lemma_path_lt_asymmetric(other@, self@);
                    }
                    return Ordering::Greater;
                },
                Ordering::Equal => {},
            }
            i = i + 1;
        }
        proof {
            assert(self@ =~= other@);
            lemma_path_lt_irreflexive(self@);
        }
        Ordering::Equal
    }

    fn copy_key(&self) -> (r: Self) {
        let r = self.prefix(self.0.len());
        assert(self@.subrange(0, self@.len() as int) =~= self@);
        r
    }
}

impl PartialOrd for Path {
    fn partial_cmp(&self, other: &Path) -> (r: Option<Ordering>) {
        Some(self.compare(other))
    }
}

impl vstd::std_specs::cmp::PartialOrdSpecImpl for Path {
    open spec fn obeys_partial_cmp_spec() -> bool {
        true
    }

    open spec fn partial_cmp_spec(&self, other: &Path) -> Option<Ordering> {
        Some(
            if path_lt(self@, other@) {
                Ordering::Less
            } else if self@ == other@ {
                Ordering::Equal
            } else {
                Ordering::Greater
            },
        )
    }
}

impl From<Vec<Vec<u8>>> for Path {
    fn from(value: Vec<Vec<u8>>) -> (r: Path) {
        Path(value)
    }
}

impl vstd::std_specs::convert::FromSpecImpl<Vec<Vec<u8>>> for Path {
    open spec fn obeys_from_spec() -> bool {
        true
    }

    open spec fn from_spec(v: Vec<Vec<u8>>) -> Path {
        Path(v)
    }
}

} // verus!

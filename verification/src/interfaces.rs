//! Sets of network interface names.

use vstd::prelude::*;
use vstd::utf8::*;

verus! {

/// Whether `a` and `b` agree before position `k`, and at `k` either `a` ends first or holds
/// the smaller byte.
pub open spec fn smaller_at(a: Seq<u8>, b: Seq<u8>, k: int) -> bool {
    &&& 0 <= k <= a.len()
    &&& k < b.len()
    &&& forall|i: int| 0 <= i < k ==> a[i] == b[i]
    &&& k < a.len() ==> a[k] < b[k]
}

/// Lexicographic order on bytes.
pub open spec fn bytes_before(a: Seq<u8>, b: Seq<u8>) -> bool {
    exists|k: int| smaller_at(a, b, k)
}

/// The order of strings: lexicographic on their bytes.
pub open spec fn name_before(a: Seq<char>, b: Seq<char>) -> bool {
    bytes_before(encode_utf8(a), encode_utf8(b))
}

/// Whether the names stand in strictly increasing order, so that none occurs twice.
pub open spec fn increasing(names: Seq<Seq<char>>) -> bool {
    forall|i: int, j: int|
        0 <= i < j < names.len() ==> name_before(#[trigger] names[i], #[trigger] names[j])
}

/// The texts of a vector of strings.
pub open spec fn texts(v: Seq<String>) -> Seq<Seq<char>> {
    v.map_values(|s: String| s@)
}

/// The texts of strings are those of each, in order.
pub proof fn law_texts(v: Seq<String>)
    ensures
        texts(v).len() == v.len(),
        forall|i: int| 0 <= i < v.len() ==> #[trigger] texts(v)[i] == v[i]@,
{
}

proof fn lemma_same_bytes_same_name(a: Seq<char>, b: Seq<char>)
    requires
        encode_utf8(a) == encode_utf8(b),
    ensures
        a == b,
{
    encode_utf8_decode_utf8(a);
    encode_utf8_decode_utf8(b);
}

proof fn lemma_before_irreflexive(a: Seq<char>)
    ensures
        !name_before(a, a),
{
}

proof fn lemma_before_transitive(a: Seq<char>, b: Seq<char>, c: Seq<char>)
    requires
        name_before(a, b),
        name_before(b, c),
    ensures
        name_before(a, c),
{
    let (x, y, z) = (encode_utf8(a), encode_utf8(b), encode_utf8(c));
    let k1 = choose|k: int| smaller_at(x, y, k);
    let k2 = choose|k: int| smaller_at(y, z, k);
    let k = if k1 <= k2 { k1 } else { k2 };
    assert(smaller_at(x, z, k));
}

/// Names in increasing order differ.
pub proof fn lemma_increasing_differ(names: Seq<Seq<char>>, i: int, j: int)
    requires
        increasing(names),
        0 <= i < j < names.len(),
    ensures
        names[i] != names[j],
{
    lemma_before_irreflexive(names[i]);
}

/// Two sets of names in increasing order that hold the same names list them alike.
pub proof fn law_increasing_is_unique(a: Seq<Seq<char>>, b: Seq<Seq<char>>)
    requires
        increasing(a),
        increasing(b),
        a.to_set() == b.to_set(),
    ensures
        a == b,
    decreases a.len(),
{
    if a.len() == 0 {
        if b.len() > 0 {
            assert(b.to_set().contains(b[0]));
            assert(a.contains(b[0]));
        }
        assert(a =~= b);
    } else {
        assert(a.to_set().contains(a.last()));
        assert(b.contains(a.last()));
        assert(b.len() > 0);
        assert(b.to_set().contains(b.last()));
        assert(a.contains(b.last()));
        lemma_last_is_greatest(a, b.last());
        lemma_last_is_greatest(b, a.last());
        if a.last() != b.last() {
            lemma_before_transitive(a.last(), b.last(), a.last());
            lemma_before_irreflexive(a.last());
        }
        let a2 = a.drop_last();
        let b2 = b.drop_last();
        lemma_drop_last(a);
        lemma_drop_last(b);
        assert(a2.to_set() =~= b2.to_set());
        law_increasing_is_unique(a2, b2);
        assert(a =~= a2.push(a.last()));
        assert(b =~= b2.push(b.last()));
    }
}

proof fn lemma_last_is_greatest(a: Seq<Seq<char>>, x: Seq<char>)
    requires
        increasing(a),
        a.contains(x),
    ensures
        x == a.last() || name_before(x, a.last()),
{
    let i = choose|i: int| 0 <= i < a.len() && a[i] == x;
    if i < a.len() - 1 {
        assert(name_before(a[i], a[a.len() - 1]));
    }
}

proof fn lemma_drop_last(a: Seq<Seq<char>>)
    requires
        increasing(a),
        a.len() > 0,
    ensures
        increasing(a.drop_last()),
        a.drop_last().to_set() == a.to_set().remove(a.last()),
{
    let a2 = a.drop_last();
    assert forall|x: Seq<char>| #[trigger] a2.to_set().contains(x) <==> a.to_set().remove(
        a.last(),
    ).contains(x) by {
        if a2.contains(x) {
            let i = choose|i: int| 0 <= i < a2.len() && a2[i] == x;
            assert(a[i] == x);
            assert(name_before(a[i], a[a.len() - 1]));
            lemma_before_irreflexive(x);
        }
        if a.contains(x) && x != a.last() {
            let i = choose|i: int| 0 <= i < a.len() && a[i] == x;
            assert(a2[i] == x);
        }
    }
    assert(a2.to_set() =~= a.to_set().remove(a.last()));
}

/// How two strings stand in the order of strings.
#[derive(Clone, Copy, Debug, PartialEq, Eq, Structural)]
enum Standing {
    Before,
    Same,
    After,
}

/// Where `a` stands towards `b`.
fn standing(a: &String, b: &String) -> (r: Standing)
    ensures
        r == Standing::Before ==> name_before(a@, b@),
        r == Standing::Same ==> a@ == b@,
        r == Standing::After ==> name_before(b@, a@),
{
    let x = a.as_str().as_bytes();
    let y = b.as_str().as_bytes();
    let mut i: usize = 0;
    while i < x.len() && i < y.len()
        invariant
            x@ == encode_utf8(a@),
            y@ == encode_utf8(b@),
            i <= x.len(),
            i <= y.len(),
            forall|j: int| 0 <= j < i ==> x@[j] == y@[j],
        decreases x.len() - i,
    {
        if x[i] < y[i] {
            assert(smaller_at(x@, y@, i as int));
            return Standing::Before;
        }
        if y[i] < x[i] {
            assert(smaller_at(y@, x@, i as int));
            return Standing::After;
        }
        i = i + 1;
    }
    if x.len() < y.len() {
        assert(smaller_at(x@, y@, i as int));
        Standing::Before
    } else if y.len() < x.len() {
        assert(smaller_at(y@, x@, i as int));
        Standing::After
    } else {
        assert(x@ =~= y@);
        proof {
            lemma_same_bytes_same_name(a@, b@);
        }
        Standing::Same
    }
}

/// A set of interface names, kept in increasing order.
#[derive(Debug)]
pub struct InterfaceSet {
    names: Vec<String>,
}

impl View for InterfaceSet {
    type V = Set<Seq<char>>;

    closed spec fn view(&self) -> Set<Seq<char>> {
        self.listed().to_set()
    }
}

impl InterfaceSet {
    /// The names in increasing order.
    pub closed spec fn listed(&self) -> Seq<Seq<char>> {
        texts(self.names@)
    }

    #[verifier::type_invariant]
    spec fn sorted(self) -> bool {
        increasing(texts(self.names@))
    }

    /// The set without names.
    pub fn new() -> (r: InterfaceSet)
        ensures
            r@ == Set::<Seq<char>>::empty(),
    {
        let names: Vec<String> = Vec::new();
        assert(texts(names@) =~= Seq::<Seq<char>>::empty());
        assert(texts(names@).to_set() =~= Set::<Seq<char>>::empty());
        InterfaceSet { names }
    }

    /// The names in increasing order.
    pub fn names(&self) -> (r: &Vec<String>)
        ensures
            texts(r@) == self.listed(),
            increasing(texts(r@)),
            texts(r@).to_set() == self@,
            forall|x: Seq<char>| #[trigger]
                self@.contains(x) <==> exists|i: int| 0 <= i < r@.len() && (#[trigger] r@[i])@ == x,
    {
        proof {
            use_type_invariant(self);
            lemma_texts_contain(self.names@);
        }
        &self.names
    }

    /// Hands the names over, in increasing order.
    pub fn into_names(self) -> (r: Vec<String>)
        ensures
            texts(r@) == self.listed(),
            increasing(texts(r@)),
            texts(r@).to_set() == self@,
            forall|x: Seq<char>| #[trigger]
                self@.contains(x) <==> exists|i: int| 0 <= i < r@.len() && (#[trigger] r@[i])@ == x,
    {
        proof {
            use_type_invariant(&self);
            lemma_texts_contain(self.names@);
        }
        self.names
    }

    /// Whether the set holds no name.
    pub fn is_empty(&self) -> (r: bool)
        ensures
            r == (self@ == Set::<Seq<char>>::empty()),
    {
        proof {
            if self.names.len() > 0 {
                assert(self@.contains(texts(self.names@)[0]));
            } else {
                assert(self@ =~= Set::<Seq<char>>::empty());
            }
        }
        self.names.len() == 0
    }

    /// Whether the set holds `name`.
    pub fn contains(&self, name: &String) -> (r: bool)
        ensures
            r == self@.contains(name@),
    {
        let mut i: usize = 0;
        while i < self.names.len()
            invariant
                i <= self.names.len(),
                forall|j: int| 0 <= j < i ==> #[trigger] texts(self.names@)[j] != name@,
            decreases self.names.len() - i,
        {
            if self.names[i] == *name {
                assert(texts(self.names@)[i as int] == name@);
                return true;
            }
            i = i + 1;
        }
        false
    }

    /// Adds `name` to the set.
    pub fn insert(&mut self, name: String)
        ensures
            final(self)@ == old(self)@.insert(name@),
    {
        proof {
            use_type_invariant(&*self);
        }
        let mut i: usize = 0;
        let ghost before = texts(self.names@);
        while i < self.names.len()
            invariant
                before == texts(self.names@),
                increasing(before),
                *self == *old(self),
                i <= self.names.len(),
                forall|j: int| 0 <= j < i ==> name_before(#[trigger] before[j], name@),
            ensures
                i < before.len() ==> name_before(name@, before[i as int]),
            decreases self.names.len() - i,
        {
            let s = standing(&self.names[i], &name);
            if s == Standing::Same {
                proof {
                    assert(before[i as int] == name@);
                    assert(self@.insert(name@) =~= self@);
                }
                return;
            }
            if s == Standing::After {
                break;
            }
            i = i + 1;
        }
        let mut names: Vec<String> = Vec::new();
        assert(texts(names@) =~= Seq::<Seq<char>>::empty());
        std::mem::swap(&mut names, &mut self.names);
        names.insert(i, name);
        proof {
            let after = texts(names@);
            assert(after =~= before.insert(i as int, name@));
            assert forall|a: int, b: int| 0 <= a < b < after.len() implies name_before(
                #[trigger] after[a],
                #[trigger] after[b],
            ) by {
                if a == i {
                    assert(after[b] == before[b - 1]);
                    if b - 1 > i {
                        assert(name_before(before[i as int], before[b - 1]));
                        lemma_before_transitive(name@, before[i as int], before[b - 1]);
                    }
                } else if b == i {
                    assert(after[a] == before[a]);
                } else {
                    let a2 = if a < i { a } else { a - 1 };
                    let b2 = if b < i { b } else { b - 1 };
                    assert(after[a] == before[a2] && after[b] == before[b2]);
                }
            }
            assert forall|x: Seq<char>| after.contains(x) <==> before.contains(x) || x == name@ by {
                if before.contains(x) {
                    let j = choose|j: int| 0 <= j < before.len() && before[j] == x;
                    assert(after[if j < i { j } else { j + 1 }] == x);
                }
                assert(after[i as int] == name@);
            }
            assert(after.to_set() =~= before.to_set().insert(name@));
        }
        self.names = names;
    }

    /// Adds all names of `other` to the set.
    pub fn extend(&mut self, other: &InterfaceSet)
        ensures
            final(self)@ == old(self)@.union(other@),
    {
        let mut i: usize = 0;
        let ghost more = texts(other.names@);
        assert(self@ =~= self@.union(more.take(0).to_set()));
        while i < other.names.len()
            invariant
                more == texts(other.names@),
                i <= other.names.len(),
                self@ == old(self)@.union(more.take(i as int).to_set()),
            decreases other.names.len() - i,
        {
            self.insert(other.names[i].clone());
            proof {
                let t = more.take(i as int);
                assert(more.take(i + 1) =~= t.push(more[i as int]));
                lemma_push_to_set(t, more[i as int]);
                assert(self@ =~= old(self)@.union(more.take(i + 1).to_set()));
            }
            i = i + 1;
        }
        assert(more.take(more.len() as int) =~= more);
    }
}

/// The texts of strings hold what one of the strings holds.
proof fn lemma_texts_contain(v: Seq<String>)
    ensures
        forall|x: Seq<char>| #[trigger]
            texts(v).to_set().contains(x) <==> exists|i: int| 0 <= i < v.len() && (#[trigger] v[i])@
                == x,
{
    assert forall|x: Seq<char>| #[trigger]
        texts(v).to_set().contains(x) <==> exists|i: int| 0 <= i < v.len() && (#[trigger] v[i])@
            == x by {
        if texts(v).contains(x) {
            let i = choose|i: int| 0 <= i < texts(v).len() && texts(v)[i] == x;
            assert(v[i]@ == x);
        }
        if exists|i: int| 0 <= i < v.len() && (#[trigger] v[i])@ == x {
            let i = choose|i: int| 0 <= i < v.len() && (#[trigger] v[i])@ == x;
            assert(texts(v)[i] == x);
        }
    }
}

/// Names in increasing order stand in the order of their bytes: of two, the earlier one either is
/// the beginning of the later one, or has the smaller byte where they first differ.
pub proof fn law_names_stand_in_byte_order(names: Seq<Seq<char>>, i: int, j: int)
    requires
        increasing(names),
        0 <= i < j < names.len(),
    ensures
        ({
            let (a, b) = (encode_utf8(names[i]), encode_utf8(names[j]));
            exists|k: int|
                0 <= k <= a.len() && k < b.len() && a.take(k) == #[trigger] b.take(k) && (k < a.len()
                    ==> a[k] < b[k])
        }),
{
    let (a, b) = (encode_utf8(names[i]), encode_utf8(names[j]));
    assert(name_before(names[i], names[j]));
    let k = choose|k: int| smaller_at(a, b, k);
    assert(a.take(k) =~= b.take(k));
}

/// Appending an element to a sequence adds it to the set of its elements.
pub proof fn lemma_push_to_set<A>(s: Seq<A>, x: A)
    ensures
        s.push(x).to_set() == s.to_set().insert(x),
{
    assert forall|y: A| #[trigger]
        s.push(x).to_set().contains(y) <==> s.to_set().insert(x).contains(y) by {
        if s.contains(y) {
            let j = choose|j: int| 0 <= j < s.len() && s[j] == y;
            assert(s.push(x)[j] == y);
        }
        assert(s.push(x)[s.len() as int] == x);
    }
    assert(s.push(x).to_set() =~= s.to_set().insert(x));
}

} // verus!

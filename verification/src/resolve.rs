//! Finding the indexes of network interfaces.
//!
//! The kernel shows the index of an interface as text, in a file of the directory that it keeps
//! for the interface.

use crate::interfaces::{increasing, texts, InterfaceSet};
use crate::path::{joined, FilePath};
use crate::text::{
    chars_of, decimal, decimal_string, parse_u32, spelled_u32, trim, trimmed,
};
use std::collections::BTreeMap;
use vstd::prelude::*;
use vstd::utf8::*;

verus! {

/// Why interfaces could not be resolved.
#[derive(Debug)]
pub enum ResolveError {
    /// The name cannot be that of an interface.
    InvalidName(String),
    /// There is no such interface.
    Missing(String),
    /// The index of the interface is not a number.
    Unreadable(String),
    /// An earlier interface has the same index.
    SharedIndex(u32),
}

/// [`ResolveError`] as a mathematical value.
pub enum ResolveRefusal {
    InvalidName(Seq<char>),
    Missing(Seq<char>),
    Unreadable(Seq<char>),
    SharedIndex(u32),
}

impl View for ResolveError {
    type V = ResolveRefusal;

    open spec fn view(&self) -> ResolveRefusal {
        match *self {
            ResolveError::InvalidName(name) => ResolveRefusal::InvalidName(name@),
            ResolveError::Missing(name) => ResolveRefusal::Missing(name@),
            ResolveError::Unreadable(name) => ResolveRefusal::Unreadable(name@),
            ResolveError::SharedIndex(index) => ResolveRefusal::SharedIndex(index),
        }
    }
}

/// An error stands for itself, with its name as text.
pub proof fn law_resolve_error_view(name: String, index: u32)
    ensures
        ResolveError::InvalidName(name)@ == ResolveRefusal::InvalidName(name@),
        ResolveError::Missing(name)@ == ResolveRefusal::Missing(name@),
        ResolveError::Unreadable(name)@ == ResolveRefusal::Unreadable(name@),
        ResolveError::SharedIndex(index)@ == ResolveRefusal::SharedIndex(index),
{
}

impl ResolveRefusal {
    /// The message for the error, where `shown` is how the name of the interface is shown, or,
    /// if its index is not a number, the file that was read.
    pub open spec fn text(self, shown: Seq<char>) -> Seq<char> {
        match self {
            ResolveRefusal::InvalidName(_) => "invalid interface name "@ + shown,
            ResolveRefusal::Missing(_) => "TC interface "@ + shown + " does not exist"@,
            ResolveRefusal::Unreadable(_) => "read interface index from "@ + shown,
            ResolveRefusal::SharedIndex(index) => "multiple TC interfaces resolved to ifindex "@
                + decimal(index as nat),
        }
    }
}

impl ResolveError {
    /// The message for the error, where `shown` is how the name of the interface is shown, or,
    /// if its index is not a number, the file that was read.
    pub fn message(&self, shown: &str) -> (s: String)
        ensures
            s@ == self@.text(shown@),
    {
        match self {
            ResolveError::InvalidName(_) => {
                let mut s = "invalid interface name ".to_owned();
                s.append(shown);
                s
            },
            ResolveError::Missing(_) => {
                let mut s = "TC interface ".to_owned();
                s.append(shown);
                s.append(" does not exist");
                s
            },
            ResolveError::Unreadable(_) => {
                let mut s = "read interface index from ".to_owned();
                s.append(shown);
                s
            },
            ResolveError::SharedIndex(index) => {
                let mut s = "multiple TC interfaces resolved to ifindex ".to_owned();
                s.append(decimal_string(*index).as_str());
                s
            },
        }
    }
}

/// Whether `name` names one entry of a directory, and not the directory or its parent.
pub open spec fn is_entry_name(name: Seq<char>) -> bool {
    !name.contains('/') && name != seq!['.'] && name != seq!['.', '.']
}

/// Where the kernel shows the index of the interface `name`.
pub open spec fn index_file(name: Seq<char>) -> Seq<u8> {
    joined(
        joined(encode_utf8("/sys/class/net"@), encode_utf8(name)),
        encode_utf8("ifindex"@),
    )
}

/// The bytes of a text without a slash hold none.
proof fn lemma_no_separator(s: Seq<char>)
    requires
        !s.contains('/'),
    ensures
        s.len() > 0 ==> encode_utf8(s).len() > 0,
        forall|i: int| 0 <= i < encode_utf8(s).len() ==> #[trigger] encode_utf8(s)[i] != 47,
    decreases s.len(),
{
    if s.len() > 0 {
        let rest = s.drop_first();
        let u = s[0] as u32;
        assert(s[0] != '/');
        assert forall|c: char| rest.contains(c) implies s.contains(c) by {
            let i = choose|i: int| 0 <= i < rest.len() && rest[i] == c;
            assert(s[i + 1] == c);
        }
        lemma_no_separator(rest);
        assert(u != 47) by {
            char_u32_cast(s[0], u);
            char_u32_cast('/', 47);
        }
        assert(u <= 0x7f && u != 47 ==> (u & 0x7f) as u8 != 47) by (bit_vector);
        assert(0xC0 | ((u >> 6) & 0x1F) as u8 >= 0x80) by (bit_vector);
        assert(0xE0 | ((u >> 12) & 0x0F) as u8 >= 0x80) by (bit_vector);
        assert(0xF0 | ((u >> 18) & 0x7) as u8 >= 0x80) by (bit_vector);
        assert(0x80 | (u & 0x3F) as u8 >= 0x80) by (bit_vector);
        assert(0x80 | ((u >> 6) & 0x3F) as u8 >= 0x80) by (bit_vector);
        assert(0x80 | ((u >> 12) & 0x3F) as u8 >= 0x80) by (bit_vector);
        let head = encode_scalar(u);
        char_is_scalar(s[0]);
        assert forall|i: int| 0 <= i < head.len() implies head[i] != 47 by {}
        let tail = encode_utf8(rest);
        assert forall|i: int| 0 <= i < encode_utf8(s).len() implies #[trigger] encode_utf8(s)[i]
            != 47 by {
            if i < head.len() {
                assert(encode_utf8(s)[i] == head[i]);
            } else {
                assert(encode_utf8(s)[i] == tail[i - head.len()]);
            }
        }
    }
}

/// The index of an interface is shown in the file `ifindex` of the directory that has the name of
/// the interface.
pub proof fn law_index_file(name: Seq<char>)
    requires
        name.len() > 0,
        !name.contains('/'),
    ensures
        index_file(name) == encode_utf8("/sys/class/net/"@) + encode_utf8(name) + encode_utf8(
            "/ifindex"@,
        ),
{
    reveal_strlit("/sys/class/net");
    reveal_strlit("/sys/class/net/");
    reveal_strlit("ifindex");
    reveal_strlit("/ifindex");
    let (a, b, c, d) = ("/sys/class/net"@, "/sys/class/net/"@, "ifindex"@, "/ifindex"@);
    assert(is_ascii_chars(a) && is_ascii_chars(b) && is_ascii_chars(c) && is_ascii_chars(d));
    is_ascii_chars_encode_utf8(a);
    is_ascii_chars_encode_utf8(b);
    is_ascii_chars_encode_utf8(c);
    is_ascii_chars_encode_utf8(d);
    lemma_no_separator(name);
    let n = encode_utf8(name);
    assert(n[0] != 47 && n[n.len() - 1] != 47);
    assert(encode_utf8(a)[13] == 't' as u8);
    assert(encode_utf8(a).last() == encode_utf8(a)[13]);
    assert(encode_utf8(b) =~= encode_utf8(a).push(47));
    assert(encode_utf8(d) =~= seq![47u8] + encode_utf8(c));
    assert(encode_utf8(c)[0] == 'i' as u8);
    let folder = joined(encode_utf8(a), n);
    assert(folder =~= encode_utf8(b) + n);
    assert(folder.last() == n[n.len() - 1]);
    assert(folder.push(47) + encode_utf8(c) =~= encode_utf8(b) + n + encode_utf8(d));
}

/// The index that the kernel shows as `text`.
pub open spec fn shown_index(text: Seq<char>) -> Option<u32> {
    spelled_u32(trimmed(text))
}

/// The texts of the values of a map.
pub open spec fn value_texts(m: Map<u32, String>) -> Map<u32, Seq<char>> {
    m.map_values(|s: String| s@)
}

/// Whether `name` is one of the first `n` of `names`.
pub open spec fn among(names: Seq<Seq<char>>, n: int, name: Seq<char>) -> bool {
    exists|i: int| 0 <= i < n && names[i] == name
}

/// Whether `name` is found under one of `keys`.
pub open spec fn found_under(
    keys: Set<u32>,
    found: Map<u32, Seq<char>>,
    name: Seq<char>,
) -> bool {
    exists|k: u32| keys.contains(k) && found[k] == name
}

/// Whether `found` gives each of the first `n` of `names` one index, and nothing else.
pub open spec fn indexes(found: Map<u32, Seq<char>>, names: Seq<Seq<char>>, n: int) -> bool {
    &&& forall|k: u32| found.contains_key(k) ==> among(names, n, #[trigger] found[k])
    &&& forall|i: int| 0 <= i < n ==> found_under(found.dom(), found, #[trigger] names[i])
    &&& found.dom().finite()
    &&& found.dom().len() == n
}

/// One more name under a new index.
proof fn lemma_indexes_insert(
    found: Map<u32, Seq<char>>,
    names: Seq<Seq<char>>,
    n: int,
    index: u32,
)
    requires
        0 <= n < names.len(),
        indexes(found, names, n),
        !found.contains_key(index),
    ensures
        indexes(found.insert(index, names[n]), names, n + 1),
{
    let after = found.insert(index, names[n]);
    assert(after.dom() =~= found.dom().insert(index));
    assert forall|k: u32| after.contains_key(k) implies among(names, n + 1, #[trigger] after[k]) by {
        if k != index {
            assert(after[k] == found[k]);
            assert(among(names, n, found[k]));
        }
    }
    assert forall|i: int| 0 <= i < n + 1 implies found_under(
        after.dom(),
        after,
        #[trigger] names[i],
    ) by {
        if i < n {
            let k = choose|k: u32| found.dom().contains(k) && found[k] == names[i];
            assert(after.dom().contains(k) && after[k] == names[i]);
        } else {
            assert(after.dom().contains(index) && after[index] == names[i]);
        }
    }
}

/// How far the search for the indexes of `names` has come: the names before `next` are `found`.
pub struct SearchModel {
    pub names: Seq<Seq<char>>,
    pub next: int,
    pub found: Map<u32, Seq<char>>,
}

impl SearchModel {
    /// A search that has found nothing yet.
    pub open spec fn initial(names: Seq<Seq<char>>) -> SearchModel {
        SearchModel { names, next: 0, found: Map::empty() }
    }

    /// Whether what was found so far belongs to the names before the next one.
    pub open spec fn well_formed(self) -> bool {
        &&& 0 <= self.next <= self.names.len()
        &&& increasing(self.names)
        &&& indexes(self.found, self.names, self.next)
    }

    /// Whether all names have been dealt with.
    pub open spec fn is_complete(self) -> bool {
        self.next == self.names.len()
    }

    /// The name that is searched for next.
    pub open spec fn wanted(self) -> Seq<char> {
        self.names[self.next]
    }

    /// The search once the next name was found under `index`.
    pub open spec fn having(self, index: u32) -> SearchModel {
        SearchModel {
            next: self.next + 1,
            found: self.found.insert(index, self.wanted()),
            ..self
        }
    }
}

/// The search for the indexes of interfaces.
#[derive(Debug)]
pub struct InterfaceSearch {
    names: Vec<String>,
    next: usize,
    found: BTreeMap<u32, String>,
}

impl View for InterfaceSearch {
    type V = SearchModel;

    closed spec fn view(&self) -> SearchModel {
        SearchModel {
            names: texts(self.names@),
            next: self.next as int,
            found: value_texts(self.found@),
        }
    }
}

impl InterfaceSearch {
    /// Starts to search for `names`.
    pub fn start(names: &InterfaceSet) -> (r: InterfaceSearch)
        ensures
            r@ == SearchModel::initial(names.listed()),
            r@.well_formed(),
            r@.names == names.listed(),
            r@.names.to_set() == names@,
            r@.next == 0,
            r@.found == Map::<u32, Seq<char>>::empty(),
    {
        let source = names.names();
        let mut list: Vec<String> = Vec::new();
        let mut i: usize = 0;
        while i < source.len()
            invariant
                i <= source.len(),
                list@ == source@.take(i as int),
            decreases source.len() - i,
        {
            list.push(source[i].clone());
            assert(source@.take(i + 1) =~= source@.take(i as int).push(source@[i as int]));
            i = i + 1;
        }
        assert(source@.take(source.len() as int) =~= source@);
        let found: BTreeMap<u32, String> = BTreeMap::new();
        assert(value_texts(found@) =~= Map::<u32, Seq<char>>::empty());
        assert(value_texts(found@).dom() =~= Set::<u32>::empty());
        InterfaceSearch { names: list, next: 0, found }
    }

    /// The file to be read next, if a name is left.
    pub fn request(&self) -> (r: Result<Option<FilePath>, ResolveError>)
        requires
            self@.well_formed(),
        ensures
            match r {
                Ok(None) => self@.is_complete(),
                Ok(Some(path)) => !self@.is_complete() && is_entry_name(self@.wanted()) && path@
                    == index_file(self@.wanted()),
                Err(e) => !self@.is_complete() && !is_entry_name(self@.wanted()) && e@
                    == ResolveRefusal::InvalidName(self@.wanted()),
            },
            self@.next == self@.names.len() <==> r == Ok::<Option<FilePath>, ResolveError>(None),
            self@.next < self@.names.len() ==> {
                let name = self@.names[self@.next];
                &&& (r is Err <==> name.contains('/') || name =~= seq!['.'] || name =~= seq![
                    '.',
                    '.',
                ])
                &&& r matches Err(e) ==> e@ == ResolveRefusal::InvalidName(name)
                &&& r matches Ok(Some(path)) ==> (name.len() > 0 ==> path.bytes@ == encode_utf8(
                    "/sys/class/net/"@,
                ) + encode_utf8(name) + encode_utf8("/ifindex"@))
            },
    {
        if self.next == self.names.len() {
            return Ok(None);
        }
        let name = &self.names[self.next];
        proof {
            if is_entry_name(name@) && name@.len() > 0 {
                law_index_file(name@);
            }
        }
        if !entry_name(name) {
            return Err(ResolveError::InvalidName(name.clone()));
        }
        Ok(Some(FilePath::new("/sys/class/net").join(name.as_str()).join("ifindex")))
    }

    /// Takes what was read from the file asked for: its text, or nothing if it could not be
    /// read.
    pub fn supply(&mut self, text: Option<&str>) -> (r: Result<(), ResolveError>)
        requires
            old(self)@.well_formed(),
            !old(self)@.is_complete(),
        ensures
            final(self)@.well_formed(),
            match r {
                Ok(_) => text matches Some(t) && took(old(self)@, t@, final(self)@),
                Err(e) => final(self)@ == old(self)@ && match text {
                    None => e@ == ResolveRefusal::Missing(old(self)@.wanted()),
                    Some(t) => match shown_index(t@) {
                        None => e@ == ResolveRefusal::Unreadable(old(self)@.wanted()),
                        Some(index) => old(self)@.found.contains_key(index) && e@
                            == ResolveRefusal::SharedIndex(index),
                    },
                },
            },
    {
        let name = self.names[self.next].clone();
        let text = match text {
            Some(text) => text,
            None => {
                return Err(ResolveError::Missing(name));
            },
        };
        let index = match parse_u32(&trim(text)) {
            Some(index) => index,
            None => {
                return Err(ResolveError::Unreadable(name));
            },
        };
        if self.found.contains_key(&index) {
            return Err(ResolveError::SharedIndex(index));
        }
        assert(self.next < self.names.len());
        proof {
            lemma_indexes_insert(
                value_texts(self.found@),
                texts(self.names@),
                self.next as int,
                index,
            );
        }
        self.found.insert(index, name);
        assert(value_texts(self.found@) =~= value_texts(old(self).found@).insert(index, name@));
        self.next = self.next + 1;
        Ok(())
    }

    /// Hands over what was found.
    pub fn finish(self) -> (r: BTreeMap<u32, String>)
        requires
            self@.well_formed(),
            self@.is_complete(),
        ensures
            value_texts(r@) == self@.found,
            forall|k: u32| #[trigger] r@.contains_key(k) <==> self@.found.contains_key(k),
            forall|k: u32| #[trigger] r@.contains_key(k) ==> self@.found[k] == r@[k]@,
            indexes(value_texts(r@), self@.names, self@.names.len() as int),
    {
        assert forall|k: u32| #[trigger] self.found@.contains_key(k) implies self@.found[k]
            == self.found@[k]@ by {}
        self.found
    }
}

/// Whether `after` is the search `before` once the file asked for was read and held `text`: the
/// name is found under the index shown there, which no other has.
pub open spec fn took(before: SearchModel, text: Seq<char>, after: SearchModel) -> bool {
    &&& before.next < before.names.len()
    &&& shown_index(text) matches Some(index) && !before.found.contains_key(index) && after
        == before.having(index)
}

/// Whether `name` names one entry of a directory, and not the directory or its parent.
fn entry_name(name: &String) -> (r: bool)
    ensures
        r == is_entry_name(name@),
{
    let chars = chars_of(name.as_str());
    let n: usize = chars.len();
    if (n == 1 && chars[0] == '.') || (n == 2 && chars[0] == '.' && chars[1] == '.') {
        assert(name@ =~= seq!['.'] || name@ =~= seq!['.', '.']);
        return false;
    }
    assert(name@ != seq!['.'] && name@ != seq!['.', '.']) by {
        assert(seq!['.'].len() == 1 && seq!['.'][0] == '.');
        assert(seq!['.', '.'].len() == 2 && seq!['.', '.'][0] == '.' && seq!['.', '.'][1] == '.');
    }
    let mut i: usize = 0;
    while i < n
        invariant
            chars@ == name@,
            n == chars.len(),
            i <= n,
            forall|j: int| 0 <= j < i ==> name@[j] != '/',
        decreases n - i,
    {
        if chars[i] == '/' {
            assert(name@[i as int] == '/');
            return false;
        }
        i = i + 1;
    }
    true
}

/// No two interfaces that were found share an index, and none was found twice.
pub proof fn law_search_is_one_to_one(s: SearchModel, a: u32, b: u32)
    requires
        s.well_formed(),
        s.found.contains_key(a),
        s.found.contains_key(b),
        s.found[a] == s.found[b],
    ensures
        a == b,
{
    let found = s.found;
    let names = s.names;
    let n = s.next;
    if a != b {
        // Without `b`, still each name has an index: one index too few for that.
        let keys = found.dom().remove(b);
        assert forall|i: int| 0 <= i < n implies found_under(keys, found, #[trigger] names[i]) by {
            let k = choose|k: u32| found.dom().contains(k) && found[k] == names[i];
            if k == b {
                assert(keys.contains(a) && found[a] == names[i]);
            } else {
                assert(keys.contains(k) && found[k] == names[i]);
            }
        }
        lemma_covering(keys, found, names, n);
    }
}

/// Whether `found` has each of the first `n` of `names` under the index that `shown` tells of it,
/// and nothing else.
pub open spec fn as_shown(
    found: Map<u32, Seq<char>>,
    names: Seq<Seq<char>>,
    n: int,
    shown: spec_fn(Seq<char>) -> Seq<char>,
) -> bool {
    &&& forall|i: int|
        0 <= i < n ==> (shown_index(shown(#[trigger] names[i])) matches Some(k)
            && found.contains_key(k) && found[k] == names[i])
    &&& forall|k: u32| #[trigger]
        found.contains_key(k) ==> among(names, n, found[k]) && shown_index(shown(found[k])) == Some(k)
}

/// Whether the search at place `i` took what `shown` tells of the interface it asked for.
pub open spec fn goes_on(
    searches: Seq<SearchModel>,
    i: int,
    shown: spec_fn(Seq<char>) -> Seq<char>,
) -> bool {
    took(searches[i], shown(searches[i].wanted()), searches[i + 1])
}

/// A search in which each file held what `shown` tells of its interface found each interface
/// under the index shown there, and nothing else.
pub proof fn law_interfaces_are_found_as_shown(
    searches: Seq<SearchModel>,
    shown: spec_fn(Seq<char>) -> Seq<char>,
)
    requires
        searches.len() > 0,
        searches[0] == SearchModel::initial(searches[0].names),
        forall|i: int| 0 <= i < searches.len() - 1 ==> #[trigger] goes_on(searches, i, shown),
    ensures
        searches.last().names == searches[0].names,
        searches.last().next == searches.len() - 1,
        as_shown(
            searches.last().found,
            searches[0].names,
            searches.len() - 1,
            shown,
        ),
    decreases searches.len(),
{
    let names = searches[0].names;
    let n = searches.len() - 1;
    if n > 0 {
        let front = searches.drop_last();
        assert forall|i: int| 0 <= i < front.len() - 1 implies #[trigger] goes_on(
            front,
            i,
            shown,
        ) by {
            assert(goes_on(searches, i, shown));
        }
        law_interfaces_are_found_as_shown(front, shown);
        let before = searches[n - 1];
        assert(goes_on(searches, n - 1, shown));
        assert(before.wanted() == names[n - 1]);
        let old_found = before.found;
        let found = searches[n].found;
        let index = shown_index(shown(names[n - 1]))->0;
        assert(!old_found.contains_key(index));
        assert forall|k: u32| #[trigger] found.contains_key(k) implies among(names, n, found[k])
            && shown_index(shown(found[k])) == Some(k) by {
            if k != index {
                assert(old_found.contains_key(k));
                assert(among(names, n - 1, old_found[k]));
                assert(found[k] == old_found[k]);
            }
        }
    }
}

/// A finite set of indexes under which the first `n` different names are found has at least `n`
/// elements.
proof fn lemma_covering(keys: Set<u32>, found: Map<u32, Seq<char>>, names: Seq<Seq<char>>, n: int)
    requires
        0 <= n <= names.len(),
        increasing(names),
        keys.finite(),
        forall|i: int| 0 <= i < n ==> found_under(keys, found, #[trigger] names[i]),
    ensures
        keys.len() >= n,
    decreases n,
{
    if n > 0 {
        assert(found_under(keys, found, names[n - 1]));
        let last = choose|k: u32| keys.contains(k) && found[k] == names[n - 1];
        let rest = keys.remove(last);
        assert forall|i: int| 0 <= i < n - 1 implies found_under(
            rest,
            found,
            #[trigger] names[i],
        ) by {
            let k = choose|k: u32| keys.contains(k) && found[k] == names[i];
            crate::interfaces::lemma_increasing_differ(names, i, n - 1);
            assert(rest.contains(k) && found[k] == names[i]);
        }
        lemma_covering(rest, found, names, n - 1);
    }
}

} // verus!

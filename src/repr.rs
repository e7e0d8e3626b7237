//! The in-memory representation of CSON data.
//!
//! Objects keep their members sorted by key, with byte-wise comparison of the
//! keys' UTF-8 text; a key occurs at most once.
use vstd::prelude::*;
use vstd::string::*;
use vstd::utf8::*;

verus! {

broadcast use vstd::std_specs::vec::group_vec_axioms, vstd::seq::group_seq_axioms;

/// The meaning of an [`Atom`].
pub enum Value {
    Null,
    True,
    False,
    I64(int),
    U64(int),
    /// The decimal text of a floating-point number.
    F64(Seq<char>),
    Str(Seq<char>),
    Array(Seq<Value>),
    Object(Map<Seq<char>, Value>),
}

/// A slice of a larger text.
pub struct Slice<'a>(pub &'a str);

impl<'a> Slice<'a> {
    /// The part of `base` from byte `start` to byte `end`.
    pub fn new(base: &'a str, start: usize, end: usize) -> (r: Slice<'a>)
        requires
            start <= end <= base.spec_bytes().len(),
            is_char_boundary(base.spec_bytes(), start as int),
            is_char_boundary(base.spec_bytes(), end as int),
        ensures
            r.0.spec_bytes() == base.spec_bytes().subrange(start as int, end as int),
    {
        let (head, _) = base.split_at(end);
        proof {
            let b = base.spec_bytes();
            let h = b.subrange(0, end as int);
            encode_utf8_valid_utf8(base@);
            valid_utf8_split(b, end as int);
            assert(head.spec_bytes() =~= h);
            is_char_boundary_start_end_of_seq(h);
            if 0 < start < end {
                is_char_boundary_iff_not_is_continuation_byte(b, start as int);
                is_char_boundary_iff_not_is_continuation_byte(h, start as int);
            }
        }
        let (_, mid) = head.split_at(start);
        proof {
            assert(mid.spec_bytes() =~= base.spec_bytes().subrange(start as int, end as int));
        }
        Slice(mid)
    }
}

/// An object key; keys compare by their text.
#[derive(Clone, Debug, PartialEq)]
pub struct Key(pub String);

impl Key {
    pub fn new(s: &str) -> (r: Key)
        ensures
            r.0@ == s@,
    {
        Key(s.to_owned())
    }

    /// The UTF-8 bytes of the key, by which keys are ordered.
    pub open spec fn bytes(&self) -> Seq<u8> {
        encode_utf8(self.0@)
    }
}

/// `a[i..]` comes before `b[i..]` in byte-wise order, a proper prefix first.
pub open spec fn bytes_lt_from(a: Seq<u8>, b: Seq<u8>, i: int) -> bool
    decreases a.len() - i,
{
    if i >= a.len() {
        i < b.len()
    } else if i >= b.len() {
        false
    } else if a[i] != b[i] {
        a[i] < b[i]
    } else {
        bytes_lt_from(a, b, i + 1)
    }
}

/// Byte-wise (lexicographic) order.
pub open spec fn bytes_lt(a: Seq<u8>, b: Seq<u8>) -> bool {
    bytes_lt_from(a, b, 0)
}

proof fn lemma_lt_irreflexive(a: Seq<u8>, i: int)
    ensures
        !bytes_lt_from(a, a, i),
    decreases a.len() - i,
{
    if i < a.len() {
        lemma_lt_irreflexive(a, i + 1);
    }
}

proof fn lemma_lt_transitive(a: Seq<u8>, b: Seq<u8>, c: Seq<u8>, i: int)
    requires
        bytes_lt_from(a, b, i),
        bytes_lt_from(b, c, i),
    ensures
        bytes_lt_from(a, c, i),
    decreases a.len() - i,
{
    if i < a.len() && i < b.len() && i < c.len() && a[i] == b[i] && b[i] == c[i] {
        lemma_lt_transitive(a, b, c, i + 1);
    }
}

proof fn lemma_lt_total(a: Seq<u8>, b: Seq<u8>, i: int)
    requires
        0 <= i <= a.len(),
        i <= b.len(),
        a.subrange(0, i) == b.subrange(0, i),
    ensures
        a == b || bytes_lt_from(a, b, i) || bytes_lt_from(b, a, i),
    decreases a.len() - i,
{
    if i == a.len() && i == b.len() {
        assert(a =~= a.subrange(0, i));
        assert(b =~= b.subrange(0, i));
    } else if i < a.len() && i < b.len() && a[i] == b[i] {
        assert(a.subrange(0, i + 1) =~= a.subrange(0, i).push(a[i]));
        assert(b.subrange(0, i + 1) =~= b.subrange(0, i).push(b[i]));
        lemma_lt_total(a, b, i + 1);
    }
}

/// Texts in order have different bytes, hence are different texts.
proof fn lemma_lt_distinct(x: Seq<char>, y: Seq<char>)
    requires
        bytes_lt(encode_utf8(x), encode_utf8(y)),
    ensures
        x != y,
{
    if x == y {
        lemma_lt_irreflexive(encode_utf8(x), 0);
    }
}

/// The meaning of an atom.
pub open spec fn atom_value(a: Atom) -> Value
    decreases a,
{
    match a {
        Atom::Null => Value::Null,
        Atom::True => Value::True,
        Atom::False => Value::False,
        Atom::I64(v) => Value::I64(v as int),
        Atom::U64(v) => Value::U64(v as int),
        Atom::F64(t) => Value::F64(t@),
        Atom::OwnedString(t) => Value::Str(t@),
        Atom::Array(l) => Value::Array(atoms_value(l@)),
        Atom::Object(o) => Value::Object(o.value_map()),
    }
}

/// The meanings of a sequence of atoms.
pub open spec fn atoms_value(s: Seq<Atom>) -> Seq<Value>
    decreases s,
{
    if s.len() == 0 {
        seq![]
    } else {
        atoms_value(s.drop_last()).push(atom_value(s.last()))
    }
}

/// The map that a sequence of members builds when each is inserted in turn.
pub open spec fn members_value(s: Seq<(Key, Atom)>) -> Map<Seq<char>, Value>
    decreases s,
{
    if s.len() == 0 {
        Map::empty()
    } else {
        members_value(s.drop_last()).insert(s.last().0.0@, atom_value(s.last().1))
    }
}

/// A CSON value.
#[derive(Debug, PartialEq)]
pub enum Atom {
    Null,
    True,
    False,
    I64(i64),
    U64(u64),
    /// A floating-point number, held as its decimal text in JSON number
    /// syntax.
    F64(String),
    OwnedString(String),
    Array(Vec<Atom>),
    Object(AtomObject),
}

impl View for Atom {
    type V = Value;

    open spec fn view(&self) -> Value {
        atom_value(*self)
    }
}

/// The members of an object, sorted by key.
#[derive(Debug, PartialEq)]
pub struct AtomObject {
    entries: Vec<(Key, Atom)>,
}

impl AtomObject {
    /// The members in order.
    pub closed spec fn members(&self) -> Seq<(Key, Atom)> {
        self.entries@
    }

    /// The object as a map from key text to meaning.
    pub closed spec fn value_map(&self) -> Map<Seq<char>, Value>
        decreases self,
    {
        members_value(self.entries@)
    }

    /// Keys strictly increase in byte-wise order.
    #[verifier::type_invariant]
    spec fn sorted(&self) -> bool {
        sorted_members(self.entries@)
    }
}

/// Byte-wise comparison.
pub fn compare_bytes(a: &[u8], b: &[u8]) -> (r: std::cmp::Ordering)
    ensures
        r is Less <==> bytes_lt(a@, b@),
        r is Equal <==> a@ == b@,
        r is Greater <==> bytes_lt(b@, a@),
{
    let mut i: usize = 0;
    while i < a.len() && i < b.len() && a[i] == b[i]
        invariant
            0 <= i <= a@.len(),
            i <= b@.len(),
            a@.subrange(0, i as int) == b@.subrange(0, i as int),
            bytes_lt(a@, b@) == bytes_lt_from(a@, b@, i as int),
            bytes_lt(b@, a@) == bytes_lt_from(b@, a@, i as int),
        decreases a@.len() - i,
    {
        assert(a@.subrange(0, i + 1) =~= a@.subrange(0, i as int).push(a@[i as int]));
        assert(b@.subrange(0, i + 1) =~= b@.subrange(0, i as int).push(b@[i as int]));
        i = i + 1;
    }
    proof {
        lemma_lt_total(a@, b@, i as int);
        lemma_lt_irreflexive(a@, i as int);
        if a@ != b@ && bytes_lt_from(a@, b@, i as int) && bytes_lt_from(b@, a@, i as int) {
            lemma_lt_transitive(a@, b@, a@, i as int);
        }
    }
    if i < a.len() && i < b.len() {
        if a[i] < b[i] {
            std::cmp::Ordering::Less
        } else {
            std::cmp::Ordering::Greater
        }
    } else if i < b.len() {
        std::cmp::Ordering::Less
    } else if i < a.len() {
        std::cmp::Ordering::Greater
    } else {
        std::cmp::Ordering::Equal
    }
}

/// Keys strictly increase in byte-wise order.
pub open spec fn sorted_members(s: Seq<(Key, Atom)>) -> bool {
    forall|i: int, j: int|
        0 <= i < j < s.len() ==> bytes_lt(#[trigger] s[i].0.bytes(), #[trigger] s[j].0.bytes())
}

/// No key occurs twice.
pub open spec fn keys_unique(s: Seq<(Key, Atom)>) -> bool {
    forall|i: int, j: int| 0 <= i < j < s.len() ==> #[trigger] s[i].0.0@ != #[trigger] s[j].0.0@
}

/// With unique keys, the map holds exactly the members' keys, each with its
/// member's value.
proof fn lemma_members_value(s: Seq<(Key, Atom)>)
    requires
        keys_unique(s),
    ensures
        members_value(s).dom().finite(),
        members_value(s).dom().len() == s.len(),
        forall|k: Seq<char>|
            #[trigger] members_value(s).dom().contains(k) <==> exists|i: int|
                0 <= i < s.len() && s[i].0.0@ == k,
        forall|i: int|
            0 <= i < s.len() ==> #[trigger] members_value(s)[s[i].0.0@] == atom_value(s[i].1),
    decreases s.len(),
{
    if s.len() > 0 {
        let t = s.drop_last();
        assert(keys_unique(t));
        lemma_members_value(t);
        let k = s.last().0.0@;
        assert(!members_value(t).dom().contains(k)) by {
            if members_value(t).dom().contains(k) {
                let i = choose|i: int| 0 <= i < t.len() && t[i].0.0@ == k;
                assert(s[i].0.0@ == s[s.len() - 1].0.0@);
            }
        }
        assert(members_value(s).dom() =~= members_value(t).dom().insert(k));
        assert(members_value(s).dom().len() == members_value(t).dom().len() + 1);
        assert forall|k2: Seq<char>| #[trigger]
            members_value(s).dom().contains(k2) implies exists|i: int|
                0 <= i < s.len() && s[i].0.0@ == k2 by {
            if k2 != k {
                let i = choose|i: int| 0 <= i < t.len() && t[i].0.0@ == k2;
                assert(s[i].0.0@ == k2);
            } else {
                assert(s[s.len() - 1].0.0@ == k2);
            }
        }
        assert forall|i: int| 0 <= i < s.len() implies #[trigger] members_value(s)[s[i].0.0@]
            == atom_value(s[i].1) by {
            if i < s.len() - 1 {
                assert(t[i] == s[i]);
            }
        }
        assert forall|k2: Seq<char>|
            (exists|i: int| 0 <= i < s.len() && s[i].0.0@ == k2) implies #[trigger] members_value(
            s,
        ).dom().contains(k2) by {
            let i = choose|i: int| 0 <= i < s.len() && s[i].0.0@ == k2;
            if i < s.len() - 1 {
                assert(t[i] == s[i]);
            }
        }
    }
}

/// Replacing the member with key `k` by another with the same key text
/// updates that key in the map.
proof fn lemma_members_replace(s: Seq<(Key, Atom)>, p: int, m: (Key, Atom))
    requires
        keys_unique(s),
        0 <= p < s.len(),
        s[p].0.0@ == m.0.0@,
    ensures
        members_value(s.update(p, m)) == members_value(s).insert(m.0.0@, atom_value(m.1)),
    decreases s.len(),
{
    let u = s.update(p, m);
    if p == s.len() - 1 {
        assert(u.drop_last() =~= s.drop_last());
        assert(members_value(u) =~= members_value(s).insert(m.0.0@, atom_value(m.1)));
    } else {
        assert(u.drop_last() =~= s.drop_last().update(p, m));
        lemma_members_replace(s.drop_last(), p, m);
        assert(s[p].0.0@ != s.last().0.0@);
        assert(members_value(u) =~= members_value(s).insert(m.0.0@, atom_value(m.1)));
    }
}

/// Inserting a member whose key text is new adds that key to the map.
proof fn lemma_members_insert(s: Seq<(Key, Atom)>, p: int, m: (Key, Atom))
    requires
        0 <= p <= s.len(),
        forall|i: int| 0 <= i < s.len() ==> #[trigger] s[i].0.0@ != m.0.0@,
    ensures
        members_value(s.insert(p, m)) == members_value(s).insert(m.0.0@, atom_value(m.1)),
    decreases s.len(),
{
    let u = s.insert(p, m);
    if p == s.len() {
        assert(u.drop_last() =~= s);
    } else {
        assert(u.drop_last() =~= s.drop_last().insert(p, m));
        lemma_members_insert(s.drop_last(), p, m);
        assert(u.last() == s.last());
        assert(s.last().0.0@ != m.0.0@);
        assert(members_value(u) =~= members_value(s).insert(m.0.0@, atom_value(m.1)));
    }
}

/// Sorted keys are unique keys.
proof fn lemma_sorted_unique(s: Seq<(Key, Atom)>)
    requires
        sorted_members(s),
    ensures
        keys_unique(s),
{
    assert forall|i: int, j: int| 0 <= i < j < s.len() implies #[trigger] s[i].0.0@
        != #[trigger] s[j].0.0@ by {
        assert(bytes_lt(s[i].0.bytes(), s[j].0.bytes()));
        lemma_lt_distinct(s[i].0.0@, s[j].0.0@);
    }
}

impl AtomObject {
    /// An object without members.
    pub fn new() -> (r: AtomObject)
        ensures
            r.value_map() == Map::<Seq<char>, Value>::empty(),
            r.members().len() == 0,
    {
        AtomObject { entries: Vec::new() }
    }

    /// Sets `key` to `value`, replacing the value that the key had.
    pub fn insert(&mut self, key: Key, value: Atom)
        ensures
            final(self).value_map() == old(self).value_map().insert(key.0@, value@),
    {
        proof {
            use_type_invariant(&*self);
        }
        let mut entries: Vec<(Key, Atom)> = Vec::new();
        std::mem::swap(&mut entries, &mut self.entries);
        insert_member(&mut entries, key, value);
        self.entries = entries;
    }
}

/// Sets `key` to `value` in sorted members, replacing the value that the key
/// had.
fn insert_member(entries: &mut Vec<(Key, Atom)>, key: Key, value: Atom)
requires
    sorted_members(old(entries)@),
ensures
    sorted_members(final(entries)@),
    members_value(final(entries)@) == members_value(old(entries)@).insert(key.0@, value@),
{
    let ghost s = entries@;
    let ghost m = (key, value);
    proof {
        lemma_sorted_unique(s);
    }
    let n = entries.len();
    let mut i: usize = 0;
    while i < n
        invariant
            entries@ == s,
            s == old(entries)@,
            m == (key, value),
            keys_unique(s),
            n == s.len(),
            i <= n,
            sorted_members(s),
            forall|j: int| 0 <= j < i ==> bytes_lt(#[trigger] s[j].0.bytes(), key.bytes()),
        decreases n - i,
    {
        let kb = entries[i].0.0.as_str().as_bytes();
        let nb = key.0.as_str().as_bytes();
        assert(kb@ == s[i as int].0.bytes());
        assert(nb@ == key.bytes());
        let c = compare_bytes(kb, nb);
        match c {
            std::cmp::Ordering::Less => {},
            std::cmp::Ordering::Equal => {
                proof {
                    assert(s[i as int].0.bytes() == key.bytes());
                    vstd::utf8::encode_utf8_decode_utf8(s[i as int].0.0@);
                    vstd::utf8::encode_utf8_decode_utf8(key.0@);
                    assert(m.0 == key);
                    assert(s[i as int].0.0@ == key.0@);
                    lemma_members_replace(s, i as int, m);
                }
                entries.set(i, (key, value));
                proof {
                    let u = entries@;
                    assert(u == s.update(i as int, m));
                    assert(members_value(u) == members_value(s).insert(key.0@, value@));
                    assert forall|a: int, b: int| 0 <= a < b < u.len() implies bytes_lt(
                        #[trigger] u[a].0.bytes(),
                        #[trigger] u[b].0.bytes(),
                    ) by {
                        assert(bytes_lt(s[a].0.bytes(), s[b].0.bytes()));
                    }
                }
                return ;
            },
            std::cmp::Ordering::Greater => {
                proof {
                    assert forall|j: int| 0 <= j < s.len() implies #[trigger] s[j].0.0@ != m.0.0@ by {
                        if j < i {
                            assert(bytes_lt(s[j].0.bytes(), key.bytes()));
                            lemma_lt_distinct(s[j].0.0@, key.0@);
                        } else {
                            if j > i {
                                assert(bytes_lt(s[i as int].0.bytes(), s[j].0.bytes()));
                                lemma_lt_transitive(key.bytes(), s[i as int].0.bytes(), s[j].0.bytes(), 0);
                            }
                            lemma_lt_distinct(key.0@, s[j].0.0@);
                        }
                    }
                    lemma_members_insert(s, i as int, m);
                    assert forall|j: int| j >= i && j < s.len() implies bytes_lt(key.bytes(), #[trigger] s[j].0.bytes()) by {
                        if j > i {
                            assert(bytes_lt(s[i as int].0.bytes(), s[j].0.bytes()));
                            lemma_lt_transitive(key.bytes(), s[i as int].0.bytes(), s[j].0.bytes(), 0);
                        }
                    }
                }
                entries.insert(i, (key, value));
                proof {
                    let u = entries@;
                    assert(u == s.insert(i as int, m));
                    assert(members_value(u) == members_value(s).insert(key.0@, value@));
                    assert forall|a: int, b: int| 0 <= a < b < u.len() implies bytes_lt(
                        #[trigger] u[a].0.bytes(),
                        #[trigger] u[b].0.bytes(),
                    ) by {
                        if b < i {
                            assert(bytes_lt(s[a].0.bytes(), s[b].0.bytes()));
                        } else if b == i {
                        } else if a == i {
                            assert(u[b] == s[b - 1]);
                        } else if a < i {
                            assert(u[b] == s[b - 1]);
                            assert(bytes_lt(s[a].0.bytes(), s[b - 1].0.bytes()));
                        } else {
                            assert(u[b] == s[b - 1]);
                            assert(u[a] == s[a - 1]);
                            assert(bytes_lt(s[a - 1].0.bytes(), s[b - 1].0.bytes()));
                        }
                    }
                }
                return ;
            },
        }
        i = i + 1;
    }
    proof {
        assert forall|j: int| 0 <= j < s.len() implies #[trigger] s[j].0.0@ != m.0.0@ by {
            assert(bytes_lt(s[j].0.bytes(), key.bytes()));
            lemma_lt_distinct(s[j].0.0@, key.0@);
        }
        lemma_members_insert(s, n as int, m);
        assert(s.insert(n as int, m) =~= s.push(m));
    }
    entries.push((key, value));
    proof {
        let u = entries@;
        assert(u == s.push(m));
        assert forall|a: int, b: int| 0 <= a < b < u.len() implies bytes_lt(
            #[trigger] u[a].0.bytes(),
            #[trigger] u[b].0.bytes(),
        ) by {
            if b < n {
                assert(bytes_lt(s[a].0.bytes(), s[b].0.bytes()));
            }
        }
    }
}

impl AtomObject {
    /// Number of members.
    pub fn len(&self) -> (r: usize)
        ensures
            r == self.value_map().dom().len(),
    {
        proof {
            use_type_invariant(self);
            lemma_sorted_unique(self.entries@);
            lemma_members_value(self.entries@);
        }
        self.entries.len()
    }

    /// The members, sorted by key.
    pub fn entries(&self) -> (r: &Vec<(Key, Atom)>)
        ensures
            r@ == self.members(),
            sorted_members(r@),
            members_value(r@) == self.value_map(),
    {
        proof {
            use_type_invariant(self);
        }
        &self.entries
    }

    /// The value of the member with key `key`, if there is one.
    pub fn get(&self, key: &str) -> (r: Option<&Atom>)
        ensures
            r is Some <==> self.value_map().dom().contains(key@),
            r matches Some(v) ==> self.value_map()[key@] == v@,
    {
        let ghost s = self.entries@;
        proof {
            use_type_invariant(self);
            lemma_sorted_unique(s);
            lemma_members_value(s);
            encode_utf8_decode_utf8(key@);
        }
        let nb = key.as_bytes();
        let mut i: usize = 0;
        while i < self.entries.len()
            invariant
                s == self.entries@,
                sorted_members(s),
                nb@ == encode_utf8(key@),
                decode_utf8(encode_utf8(key@)) == key@,
                forall|j: int| 0 <= j < i ==> #[trigger] s[j].0.0@ != key@,
            decreases self.entries@.len() - i,
        {
            let kb = self.entries[i].0.0.as_str().as_bytes();
            if let std::cmp::Ordering::Equal = compare_bytes(kb, nb) {
                proof {
                    encode_utf8_decode_utf8(s[i as int].0.0@);
                    lemma_sorted_unique(s);
                    lemma_members_value(s);
                    assert(s[i as int].0.0@ == key@);
                }
                return Some(&self.entries[i].1);
            }
            i = i + 1;
        }
        proof {
            lemma_sorted_unique(s);
            lemma_members_value(s);
        }
        None
    }
}

impl Atom {
    /// Every string of an atom is already decoded and owned: the atom is
    /// returned as it is.
    pub fn into_parsed(self) -> (r: Atom)
        ensures
            r == self,
    {
        self
    }

    /// Every string of an atom is already owned: the atom is returned as it
    /// is.
    pub fn into_owned(self) -> (r: Atom)
        ensures
            r == self,
    {
        self
    }
}

} // verus!

//! Text ordered the way `String`'s `Ord` orders it, and a sorted set of
//! strings with that order (the iteration order of a `BTreeSet<String>`).

use vstd::prelude::*;

verus! {

/// Lexicographic order on character sequences by code point. For UTF-8
/// strings it coincides with the byte order that `String`'s `Ord` uses.
pub open spec fn text_lt(a: Seq<char>, b: Seq<char>) -> bool
    decreases a.len(),
{
    if a.len() == 0 {
        b.len() > 0
    } else if b.len() == 0 {
        false
    } else if a[0] != b[0] {
        (a[0] as u32) < (b[0] as u32)
    } else {
        text_lt(a.drop_first(), b.drop_first())
    }
}

/// Exactly one of `a < b`, `a == b`, `b < a` holds.
pub proof fn lemma_text_lt_trichotomy(a: Seq<char>, b: Seq<char>)
    ensures
        text_lt(a, b) || a == b || text_lt(b, a),
        !(text_lt(a, b) && text_lt(b, a)),
        !text_lt(a, a),
    decreases a.len(),
{
    if a.len() > 0 && b.len() > 0 {
        lemma_text_lt_trichotomy(a.drop_first(), b.drop_first());
        lemma_text_lt_trichotomy(a.drop_first(), a.drop_first());
        if a[0] == b[0] {
            if a.drop_first() == b.drop_first() {
                assert(a =~= seq![a[0]] + a.drop_first());
                assert(b =~= seq![b[0]] + b.drop_first());
            }
        } else {
            let x = a[0] as u32;
            let y = b[0] as u32;
            vstd::utf8::char_u32_cast(a[0], x);
            vstd::utf8::char_u32_cast(b[0], y);
            assert(x != y);
        }
    } else if a.len() > 0 {
        lemma_text_lt_trichotomy(a.drop_first(), a.drop_first());
    } else if b.len() == 0 {
        assert(a =~= b);
    }
}

/// The order is transitive.
pub proof fn lemma_text_lt_transitive(a: Seq<char>, b: Seq<char>, c: Seq<char>)
    requires
        text_lt(a, b),
        text_lt(b, c),
    ensures
        text_lt(a, c),
    decreases a.len(),
{
    if a.len() > 0 && b.len() > 0 && c.len() > 0 && a[0] == b[0] && b[0] == c[0] {
        lemma_text_lt_transitive(a.drop_first(), b.drop_first(), c.drop_first());
    }
}

/// The result of comparing two texts.
#[derive(Debug, Clone, Copy, PartialEq, Eq, Structural)]
pub enum TextOrder {
    Less,
    Equal,
    Greater,
}

/// Compares two character sequences in code-point lexicographic order.
pub fn compare_chars(a: &[char], b: &[char]) -> (order: TextOrder)
    ensures
        order == TextOrder::Less <==> text_lt(a@, b@),
        order == TextOrder::Equal <==> a@ == b@,
        order == TextOrder::Greater <==> text_lt(b@, a@),
{
    proof {
        lemma_text_lt_trichotomy(a@, b@);
    }
    let mut i: usize = 0;
    assert(a@.skip(0) =~= a@);
    assert(b@.skip(0) =~= b@);
    assert(a@.take(0) =~= b@.take(0));
    while i < a.len() && i < b.len()
        invariant
            i <= a@.len(),
            i <= b@.len(),
            a@.take(i as int) == b@.take(i as int),
            text_lt(a@, b@) == text_lt(a@.skip(i as int), b@.skip(i as int)),
            text_lt(b@, a@) == text_lt(b@.skip(i as int), a@.skip(i as int)),
        decreases a@.len() - i,
    {
        let ghost sa = a@.skip(i as int);
        let ghost sb = b@.skip(i as int);
        if a[i] != b[i] {
            assert(sa[0] == a@[i as int] && sb[0] == b@[i as int]);
            proof {
                            let x = a@[i as int] as u32;
                let y = b@[i as int] as u32;
                vstd::utf8::char_u32_cast(a@[i as int], x);
                vstd::utf8::char_u32_cast(b@[i as int], y);
            }
            if (a[i] as u32) < (b[i] as u32) {
                return TextOrder::Less;
            } else {
                return TextOrder::Greater;
            }
        }
        proof {
            assert(sa.drop_first() =~= a@.skip(i + 1));
            assert(sb.drop_first() =~= b@.skip(i + 1));
            assert(a@.take(i + 1) =~= a@.take(i as int).push(a@[i as int]));
            assert(b@.take(i + 1) =~= b@.take(i as int).push(b@[i as int]));
        }
        i = i + 1;
    }
    if a.len() == b.len() {
        assert(a@ =~= a@.take(i as int));
        assert(b@ =~= b@.take(i as int));
        TextOrder::Equal
    } else if i == a.len() {
        assert(a@.skip(i as int).len() == 0);
        TextOrder::Less
    } else {
        assert(b@.skip(i as int).len() == 0);
        TextOrder::Greater
    }
}

/// The character views of a sequence of strings.
pub open spec fn texts(items: Seq<String>) -> Seq<Seq<char>> {
    items.map_values(|s: String| s@)
}

/// Whether the texts are strictly increasing.
pub open spec fn strictly_sorted(items: Seq<Seq<char>>) -> bool {
    forall|i: int, j: int| 0 <= i < j < items.len() ==> text_lt(items[i], items[j])
}

/// A set of strings kept in ascending order without duplicates.
#[derive(Debug, Clone)]
pub struct TextSet {
    items: Vec<String>,
}

impl TextSet {
    /// The members in ascending order.
    pub closed spec fn view_seq(&self) -> Seq<Seq<char>> {
        texts(self.items@)
    }

    /// The members.
    pub open spec fn members(&self) -> Set<Seq<char>> {
        self.view_seq().to_set()
    }

    /// Members are stored strictly increasing.
    pub closed spec fn wf(&self) -> bool {
        strictly_sorted(self.view_seq())
    }

    /// A well-formed set lists its members strictly ascending.
    pub proof fn lemma_sorted(&self)
        requires
            self.wf(),
        ensures
            strictly_sorted(self.view_seq()),
    {
    }

    /// The empty set.
    pub fn new() -> (set: Self)
        ensures
            set.wf(),
            set.view_seq() == Seq::<Seq<char>>::empty(),
    {
        let set = TextSet { items: Vec::new() };
        assert(set.view_seq() =~= Seq::<Seq<char>>::empty());
        set
    }

    /// The number of members.
    pub fn len(&self) -> (n: usize)
        ensures
            n == self.view_seq().len(),
    {
        self.items.len()
    }

    /// Whether the set is empty.
    pub fn is_empty(&self) -> (b: bool)
        ensures
            b == (self.view_seq().len() == 0),
    {
        self.items.len() == 0
    }

    /// Whether `key` is a member.
    pub fn contains(&self, key: &str) -> (found: bool)
        ensures
            found == self.view_seq().contains(key@),
    {
        let k = crate::chars::chars_of(key);
        let mut i: usize = 0;
        while i < self.items.len()
            invariant
                i <= self.items@.len(),
                k@ == key@,
                forall|t: int| 0 <= t < i ==> self.view_seq()[t] != key@,
            decreases self.items@.len() - i,
        {
            let item = crate::chars::chars_of(self.items[i].as_str());
            if crate::chars::chars_eq(item.as_slice(), k.as_slice()) {
                assert(self.view_seq()[i as int] == key@);
                return true;
            }
            i = i + 1;
        }
        false
    }

    /// Inserts `key`; returns whether it was new. The order is kept.
    pub fn insert(&mut self, key: String) -> (inserted: bool)
        requires
            old(self).wf(),
        ensures
            final(self).wf(),
            inserted == !old(self).view_seq().contains(key@),
            final(self).members() == old(self).members().insert(key@),
            final(self).view_seq().len() == old(self).view_seq().len() + if inserted { 1int } else { 0int },
    {
        let k = crate::chars::chars_of(key.as_str());
        let mut pos: usize = 0;
        let ghost old_seq = self.view_seq();
        let mut stop = false;
        while pos < self.items.len() && !stop
            invariant
                pos <= self.items@.len(),
                stop ==> pos < old_seq.len() && text_lt(key@, old_seq[pos as int]),
                self.view_seq() == old_seq,
                strictly_sorted(old_seq),
                k@ == key@,
                forall|t: int| 0 <= t < pos ==> text_lt(old_seq[t], key@),
            decreases self.items@.len() - pos + if stop { 0int } else { 1int },
        {
            let item = crate::chars::chars_of(self.items[pos].as_str());
            match compare_chars(item.as_slice(), k.as_slice()) {
                TextOrder::Less => {
                    pos = pos + 1;
                },
                TextOrder::Equal => {
                    proof {
                        assert(old_seq[pos as int] == key@);
                        assert(old_seq.to_set().insert(key@) =~= old_seq.to_set());
                    }
                    return false;
                },
                TextOrder::Greater => {
                    stop = true;
                },
            }
        }
        proof {
            assert forall|t: int| pos <= t < old_seq.len() implies text_lt(key@, old_seq[t]) by {
                assert(stop);
                if t > pos {
                    lemma_text_lt_transitive(key@, old_seq[pos as int], old_seq[t]);
                }
            }
            assert(!old_seq.contains(key@)) by {
                if old_seq.contains(key@) {
                    let t = choose|t: int| 0 <= t < old_seq.len() && old_seq[t] == key@;
                    lemma_text_lt_trichotomy(key@, key@);
                }
            }
        }
        self.items.insert(pos, key);
        proof {
            let new_seq = self.view_seq();
            assert(new_seq =~= old_seq.insert(pos as int, key@));
            assert forall|i: int, j: int| 0 <= i < j < new_seq.len() implies text_lt(new_seq[i], new_seq[j]) by {
                if j < pos {
                } else if i < pos && j == pos {
                } else if i < pos {
                    lemma_text_lt_transitive(new_seq[i], key@, new_seq[j]);
                } else if i == pos {
                } else {
                }
            }
            assert(new_seq.to_set() =~= old_seq.to_set().insert(key@)) by {
                assert forall|x: Seq<char>| new_seq.to_set().contains(x) <==> old_seq.to_set().insert(key@).contains(x) by {
                    if new_seq.contains(x) {
                        let t = choose|t: int| 0 <= t < new_seq.len() && new_seq[t] == x;
                        if t < pos {
                            assert(old_seq[t] == x);
                        } else if t > pos {
                            assert(old_seq[t - 1] == x);
                        }
                    }
                    if old_seq.contains(x) {
                        let t = choose|t: int| 0 <= t < old_seq.len() && old_seq[t] == x;
                        if t < pos {
                            assert(new_seq[t] == x);
                        } else {
                            assert(new_seq[t + 1] == x);
                        }
                    }
                    if x == key@ {
                        assert(new_seq[pos as int] == x);
                    }
                }
            }
        }
        true
    }

    /// A copy of the set.
    pub fn duplicate(&self) -> (copy: Self)
        ensures
            copy.view_seq() == self.view_seq(),
            copy.wf() == self.wf(),
    {
        TextSet { items: self.items.clone() }
    }

    /// The member at position `i` of the ascending order.
    pub fn item_at(&self, i: usize) -> (item: &String)
        requires
            i < self.view_seq().len(),
        ensures
            item@ == self.view_seq()[i as int],
    {
        &self.items[i]
    }

    /// The position of `key` in the ascending order, if it is a member.
    pub fn position(&self, key: &str) -> (pos: Option<usize>)
        ensures
            match pos {
                Some(i) => i < self.view_seq().len() && self.view_seq()[i as int] == key@,
                None => !self.view_seq().contains(key@),
            },
    {
        let target = key.to_owned();
        let mut i: usize = 0;
        while i < self.items.len()
            invariant
                i <= self.items@.len(),
                target@ == key@,
                forall|t: int| 0 <= t < i ==> self.view_seq()[t] != key@,
            decreases self.items@.len() - i,
        {
            if self.items[i] == target {
                return Some(i);
            }
            i = i + 1;
        }
        proof {
            if self.view_seq().contains(key@) {
                let t = choose|t: int| 0 <= t < self.view_seq().len() && self.view_seq()[t] == key@;
                assert(self.view_seq()[t] != key@);
            }
        }
        None
    }

    /// The members in ascending order.
    pub fn to_vec(&self) -> (items: Vec<String>)
        ensures
            texts(items@) == self.view_seq(),
    {
        self.items.clone()
    }

    /// The members of `self` that are not members of `other`, ascending.
    pub fn difference(&self, other: &TextSet) -> (items: Vec<String>)
        ensures
            texts(items@) == self.view_seq().filter(|x: Seq<char>| !other.view_seq().contains(x)),
    {
        let mut out: Vec<String> = Vec::new();
        let mut i: usize = 0;
        let ghost keep = |x: Seq<char>| !other.view_seq().contains(x);
        while i < self.items.len()
            invariant
                i <= self.items@.len(),
                keep == (|x: Seq<char>| !other.view_seq().contains(x)),
                texts(out@) == self.view_seq().take(i as int).filter(keep),
            decreases self.items@.len() - i,
        {
            proof {
                assert(self.view_seq().take(i + 1).drop_last() =~= self.view_seq().take(i as int));
                reveal_with_fuel(Seq::<_>::filter, 1);
            }
            if !other.contains(self.items[i].as_str()) {
                out.push(self.items[i].clone());
                assert(texts(out@) =~= texts(out@).drop_last().push(self.view_seq()[i as int]));
            }
            i = i + 1;
        }
        assert(self.view_seq().take(self.items@.len() as int) =~= self.view_seq());
        out
    }
}

/// A map from strings to values, keys kept in ascending order (the
/// iteration order of a `BTreeMap<String, V>`).
pub struct TextMap<V> {
    keys: Vec<String>,
    values: Vec<V>,
}

/// Where `key` is, or would be inserted, in the ascending `keys`.
pub open spec fn is_key_slot(keys: Seq<Seq<char>>, key: Seq<char>, found: bool, pos: int) -> bool {
    &&& 0 <= pos <= keys.len()
    &&& found ==> pos < keys.len() && keys[pos] == key
    &&& !found ==> (forall|t: int| 0 <= t < pos ==> text_lt(keys[t], key)) && (forall|t: int|
        pos <= t < keys.len() ==> text_lt(key, keys[t]))
    &&& found == keys.contains(key)
}

impl<V> TextMap<V> {
    /// The keys in ascending order.
    pub closed spec fn key_seq(&self) -> Seq<Seq<char>> {
        texts(self.keys@)
    }

    /// The values, in the order of their keys.
    pub closed spec fn value_seq(&self) -> Seq<V> {
        self.values@
    }

    /// Keys strictly ascending and one value per key.
    pub closed spec fn wf(&self) -> bool {
        &&& strictly_sorted(self.key_seq())
        &&& self.keys@.len() == self.values@.len()
    }

    /// A well-formed map has strictly ascending keys.
    pub proof fn lemma_keys_sorted(&self)
        requires
            self.wf(),
        ensures
            strictly_sorted(self.key_seq()),
            self.key_seq().len() == self.value_seq().len(),
    {
    }

    /// The key at `i`.
    pub fn key_at(&self, i: usize) -> (key: &String)
        requires
            self.wf(),
            i < self.key_seq().len(),
        ensures
            key@ == self.key_seq()[i as int],
    {
        &self.keys[i]
    }

    /// The value at `i`.
    pub fn value_at(&self, i: usize) -> (value: &V)
        requires
            self.wf(),
            i < self.value_seq().len(),
        ensures
            *value == self.value_seq()[i as int],
    {
        &self.values[i]
    }

    /// The empty map.
    pub fn new() -> (map: Self)
        ensures
            map.wf(),
            map.key_seq() == Seq::<Seq<char>>::empty(),
            map.value_seq() == Seq::<V>::empty(),
    {
        let map = TextMap { keys: Vec::new(), values: Vec::new() };
        assert(map.key_seq() =~= Seq::<Seq<char>>::empty());
        map
    }

    /// The number of entries.
    pub fn len(&self) -> (n: usize)
        requires
            self.wf(),
        ensures
            n == self.key_seq().len(),
            n == self.value_seq().len(),
    {
        self.keys.len()
    }

    /// Finds `key`: whether it is present and its slot.
    pub fn find(&self, key: &str) -> (slot: (bool, usize))
        requires
            self.wf(),
        ensures
            is_key_slot(self.key_seq(), key@, slot.0, slot.1 as int),
    {
        let k = crate::chars::chars_of(key);
        let mut pos: usize = 0;
        let ghost ks = self.key_seq();
        while pos < self.keys.len()
            invariant
                self.wf(),
                ks == self.key_seq(),
                pos <= ks.len(),
                k@ == key@,
                forall|t: int| 0 <= t < pos ==> text_lt(ks[t], key@),
            decreases ks.len() - pos,
        {
            let item = crate::chars::chars_of(self.keys[pos].as_str());
            match compare_chars(item.as_slice(), k.as_slice()) {
                TextOrder::Less => {
                    pos = pos + 1;
                },
                TextOrder::Equal => {
                    assert(ks[pos as int] == key@);
                    return (true, pos);
                },
                TextOrder::Greater => {
                    proof {
                        assert forall|t: int| pos <= t < ks.len() implies text_lt(key@, ks[t]) by {
                            if t > pos {
                                lemma_text_lt_transitive(key@, ks[pos as int], ks[t]);
                            }
                        }
                        lemma_absent_between(ks, key@, pos as int);
                    }
                    return (false, pos);
                },
            }
        }
        proof {
            lemma_absent_between(ks, key@, pos as int);
        }
        (false, pos)
    }

    /// Adds a new entry at its slot.
    pub fn insert_new(&mut self, pos: usize, key: String, value: V)
        requires
            old(self).wf(),
            is_key_slot(old(self).key_seq(), key@, false, pos as int),
        ensures
            final(self).wf(),
            final(self).key_seq() == old(self).key_seq().insert(pos as int, key@),
            final(self).value_seq() == old(self).value_seq().insert(pos as int, value),
    {
        let ghost ks = self.key_seq();
        self.keys.insert(pos, key);
        self.values.insert(pos, value);
        proof {
            let ns = self.key_seq();
            assert(ns =~= ks.insert(pos as int, key@));
            assert forall|i: int, j: int| 0 <= i < j < ns.len() implies text_lt(ns[i], ns[j]) by {
                if i < pos && j > pos {
                    lemma_text_lt_transitive(ns[i], key@, ns[j]);
                }
            }
        }
    }

    /// Removes and returns the value at `pos`, leaving its key in place; the
    /// map is whole again after `put_value` at the same position.
    pub fn take_value(&mut self, pos: usize) -> (value: V)
        requires
            old(self).wf(),
            pos < old(self).key_seq().len(),
        ensures
            value == old(self).value_seq()[pos as int],
            final(self).key_seq() == old(self).key_seq(),
            final(self).value_seq() == old(self).value_seq().remove(pos as int),
            strictly_sorted(final(self).key_seq()),
    {
        self.values.remove(pos)
    }

    /// Puts a value back at `pos` after `take_value`.
    pub fn put_value(&mut self, pos: usize, value: V)
        requires
            strictly_sorted(old(self).key_seq()),
            old(self).value_seq().len() + 1 == old(self).key_seq().len(),
            pos <= old(self).value_seq().len(),
        ensures
            final(self).wf(),
            final(self).key_seq() == old(self).key_seq(),
            final(self).value_seq() == old(self).value_seq().insert(pos as int, value),
    {
        self.values.insert(pos, value);
    }

    /// The keys and the values, both in ascending key order.
    pub fn into_parts(self) -> (parts: (Vec<String>, Vec<V>))
        requires
            self.wf(),
        ensures
            texts(parts.0@) == self.key_seq(),
            parts.1@ == self.value_seq(),
            parts.0@.len() == parts.1@.len(),
    {
        (self.keys, self.values)
    }
}

/// In strictly ascending keys, the slot of a key is unique.
pub proof fn lemma_key_slot_unique(ks: Seq<Seq<char>>, key: Seq<char>, f1: bool, p1: int, f2: bool, p2: int)
    requires
        strictly_sorted(ks),
        is_key_slot(ks, key, f1, p1),
        is_key_slot(ks, key, f2, p2),
    ensures
        f1 == f2,
        p1 == p2,
{
    if f1 {
        if p1 < p2 {
            lemma_text_lt_trichotomy(ks[p1], ks[p2]);
        } else if p2 < p1 {
            lemma_text_lt_trichotomy(ks[p2], ks[p1]);
        }
    } else {
        if p1 < p2 {
            assert(text_lt(key, ks[p1]));
            assert(text_lt(ks[p1], key));
            lemma_text_lt_trichotomy(key, ks[p1]);
        } else if p2 < p1 {
            assert(text_lt(key, ks[p2]));
            assert(text_lt(ks[p2], key));
            lemma_text_lt_trichotomy(key, ks[p2]);
        }
    }
}

/// Whether a key is present in ascending keys, and its slot.
pub open spec fn key_slot(ks: Seq<Seq<char>>, key: Seq<char>) -> (bool, int) {
    choose|f: bool, p: int| is_key_slot(ks, key, f, p)
}

proof fn lemma_absent_between(ks: Seq<Seq<char>>, key: Seq<char>, pos: int)
    requires
        0 <= pos <= ks.len(),
        forall|t: int| 0 <= t < pos ==> text_lt(ks[t], key),
        forall|t: int| pos <= t < ks.len() ==> text_lt(key, ks[t]),
    ensures
        !ks.contains(key),
{
    if ks.contains(key) {
        let t = choose|t: int| 0 <= t < ks.len() && ks[t] == key;
        lemma_text_lt_trichotomy(key, key);
    }
}

proof fn lemma_slot_witness(ks: Seq<Seq<char>>, key: Seq<char>) -> (slot: (bool, int))
    requires
        strictly_sorted(ks),
    ensures
        is_key_slot(ks, key, slot.0, slot.1),
    decreases ks.len(),
{
    if ks.len() == 0 {
        (false, 0)
    } else {
        let n = ks.len() - 1;
        let last = ks[n];
        lemma_text_lt_trichotomy(key, last);
        let p = ks.drop_last();
        assert forall|i: int, j: int| 0 <= i < j < p.len() implies text_lt(p[i], p[j]) by {
            assert(p[i] == ks[i] && p[j] == ks[j]);
        }
        let w = lemma_slot_witness(p, key);
        if key == last {
            assert(ks.contains(key)) by {
                assert(ks[n] == key);
            }
            (true, n)
        } else if text_lt(last, key) {
            assert forall|t: int| 0 <= t < ks.len() implies text_lt(ks[t], key) by {
                if t < n {
                    lemma_text_lt_transitive(ks[t], last, key);
                }
            }
            assert(!ks.contains(key)) by {
                if ks.contains(key) {
                    let t = choose|t: int| 0 <= t < ks.len() && ks[t] == key;
                    lemma_text_lt_trichotomy(key, key);
                }
            }
            (false, ks.len() as int)
        } else {
            if w.0 {
                assert(p[w.1] == ks[w.1]);
                assert(ks.contains(key)) by {
                    assert(ks[w.1] == key);
                }
            } else {
                assert forall|t: int| 0 <= t < w.1 implies text_lt(ks[t], key) by {
                    assert(p[t] == ks[t]);
                }
                assert forall|t: int| w.1 <= t < ks.len() implies text_lt(key, ks[t]) by {
                    if t < n {
                        assert(p[t] == ks[t]);
                    }
                }
                assert(!ks.contains(key)) by {
                    if ks.contains(key) {
                        let t = choose|t: int| 0 <= t < ks.len() && ks[t] == key;
                        if t < n {
                            assert(p[t] == key);
                            assert(p.contains(key));
                        }
                    }
                }
            }
            w
        }
    }
}

/// In strictly ascending keys, `key_slot` is a slot of the key.
pub proof fn lemma_key_slot_exists(ks: Seq<Seq<char>>, key: Seq<char>)
    requires
        strictly_sorted(ks),
    ensures
        is_key_slot(ks, key, key_slot(ks, key).0, key_slot(ks, key).1),
{
    let w = lemma_slot_witness(ks, key);
    assert(is_key_slot(ks, key, w.0, w.1));
}

/// Inserting an absent key at its slot keeps the keys strictly ascending,
/// and adds exactly that key.
pub proof fn lemma_insert_at_slot(ks: Seq<Seq<char>>, key: Seq<char>, pos: int)
    requires
        strictly_sorted(ks),
        is_key_slot(ks, key, false, pos),
    ensures
        strictly_sorted(ks.insert(pos, key)),
        ks.insert(pos, key).to_set() == ks.to_set().insert(key),
{
    let r = ks.insert(pos, key);
    assert forall|i: int, j: int| 0 <= i < j < r.len() implies text_lt(r[i], r[j]) by {
        if j < pos {
            assert(r[i] == ks[i] && r[j] == ks[j]);
        } else if j == pos {
            assert(r[i] == ks[i]);
        } else if i < pos {
            assert(r[i] == ks[i] && r[j] == ks[j - 1]);
            if pos < ks.len() {
                lemma_text_lt_transitive(ks[i], key, ks[j - 1]);
            }
        } else if i == pos {
            assert(r[j] == ks[j - 1]);
        } else {
            assert(r[i] == ks[i - 1] && r[j] == ks[j - 1]);
        }
    }
    assert forall|x: Seq<char>| r.to_set().contains(x) <==> ks.to_set().insert(key).contains(x) by {
        if r.contains(x) {
            let i = choose|i: int| 0 <= i < r.len() && r[i] == x;
            if i < pos {
                assert(ks[i] == x);
            } else if i > pos {
                assert(ks[i - 1] == x);
            }
        }
        if ks.contains(x) {
            let i = choose|i: int| 0 <= i < ks.len() && ks[i] == x;
            if i < pos {
                assert(r[i] == x);
            } else {
                assert(r[i + 1] == x);
            }
        }
        if x == key {
            assert(r[pos] == key);
        }
    }
    assert(r.to_set() =~= ks.to_set().insert(key));
}

} // verus!

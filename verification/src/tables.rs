//! Tables keyed by text.

use vstd::prelude::*;

use crate::text::{characters, same_text};

verus! {

// ── Text order ──────────────────────────────────────────────────────────────

/// Whether `a` stands before `b`: character by character, a prefix before what it begins.
pub open spec fn before(a: Seq<char>, b: Seq<char>) -> bool
    decreases a.len(),
{
    if b.len() == 0 {
        false
    } else if a.len() == 0 {
        true
    } else if a[0] != b[0] {
        a[0] < b[0]
    } else {
        before(a.skip(1), b.skip(1))
    }
}

proof fn lemma_before_irreflexive(a: Seq<char>)
    ensures
        !before(a, a),
    decreases a.len(),
{
    if a.len() > 0 {
        lemma_before_irreflexive(a.skip(1));
    }
}

proof fn lemma_before_transitive(a: Seq<char>, b: Seq<char>, c: Seq<char>)
    requires
        before(a, b),
        before(b, c),
    ensures
        before(a, c),
    decreases a.len(),
{
    if a.len() > 0 && a[0] == b[0] && b[0] == c[0] {
        lemma_before_transitive(a.skip(1), b.skip(1), c.skip(1));
    }
}

proof fn lemma_before_total(a: Seq<char>, b: Seq<char>)
    ensures
        a == b || before(a, b) || before(b, a),
    decreases a.len(),
{
    if a.len() == 0 || b.len() == 0 {
        if a.len() == b.len() {
            assert(a =~= b);
        }
    } else if a[0] == b[0] {
        lemma_before_total(a.skip(1), b.skip(1));
        if a.skip(1) == b.skip(1) {
            assert(a =~= seq![a[0]] + a.skip(1));
            assert(b =~= seq![b[0]] + b.skip(1));
        }
    }
}

/// Whether `a` stands before `b` in the order of texts.
pub fn text_before(a: &str, b: &str) -> (r: bool)
    ensures
        r == before(a@, b@),
{
    let left = characters(a);
    let right = characters(b);
    let mut i: usize = 0;
    assert(left@.skip(0) =~= left@);
    assert(right@.skip(0) =~= right@);
    while i < left.len() && i < right.len()
        invariant
            i <= left@.len(),
            i <= right@.len(),
            left@ == a@,
            right@ == b@,
            before(left@, right@) == before(left@.skip(i as int), right@.skip(i as int)),
        decreases left.len() - i,
    {
        if left[i] != right[i] {
            return left[i] < right[i];
        }
        assert(left@.skip(i as int).skip(1) =~= left@.skip(i + 1));
        assert(right@.skip(i as int).skip(1) =~= right@.skip(i + 1));
        i = i + 1;
    }
    i < right.len()
}

// ── Ordered tables ──────────────────────────────────────────────────────────

/// A table from texts to values, kept in the order of the texts.
pub struct TextMap<T> {
    entries: Vec<(String, T)>,
}

/// Whether `listing` lists the entries of `map` in the order of their texts, each once.
pub open spec fn is_listing<T>(listing: Seq<(Seq<char>, T)>, map: Map<Seq<char>, T>) -> bool {
    &&& forall|i: int, j: int|
        0 <= i < j < listing.len() ==> before((#[trigger] listing[i]).0, (#[trigger] listing[j]).0)
    &&& forall|i: int|
        0 <= i < listing.len() ==> map.contains_key((#[trigger] listing[i]).0)
            && map[listing[i].0] == listing[i].1
    &&& forall|key: Seq<char>| #[trigger]
        map.contains_key(key) ==> exists|i: int|
            0 <= i < listing.len() && (#[trigger] listing[i]).0 == key
}

/// Whether entry `i` of `listing` has the text `key`.
spec fn keyed<T>(listing: Seq<(Seq<char>, T)>, i: int, key: Seq<char>) -> bool {
    0 <= i < listing.len() && listing[i].0 == key
}

/// The table that `listing` lists.
spec fn map_of<T>(listing: Seq<(Seq<char>, T)>) -> Map<Seq<char>, T> {
    Map::new(
        |key: Seq<char>| exists|i: int| keyed(listing, i, key),
        |key: Seq<char>| listing[choose|i: int| keyed(listing, i, key)].1,
    )
}

spec fn ordered<T>(listing: Seq<(Seq<char>, T)>) -> bool {
    forall|i: int, j: int|
        0 <= i < j < listing.len() ==> before((#[trigger] listing[i]).0, (#[trigger] listing[j]).0)
}

proof fn lemma_ordered_distinct<T>(listing: Seq<(Seq<char>, T)>, i: int, j: int, key: Seq<char>)
    requires
        ordered(listing),
        keyed(listing, i, key),
        keyed(listing, j, key),
    ensures
        i == j,
{
    lemma_before_irreflexive(key);
    if i < j {
        assert(before(listing[i].0, listing[j].0));
    }
    if j < i {
        assert(before(listing[j].0, listing[i].0));
    }
}

proof fn lemma_map_of<T>(listing: Seq<(Seq<char>, T)>)
    requires
        ordered(listing),
    ensures
        is_listing(listing, map_of(listing)),
{
    let map = map_of(listing);
    assert forall|i: int| 0 <= i < listing.len() implies map.contains_key((#[trigger] listing[i]).0)
        && map[listing[i].0] == listing[i].1 by {
        let key = listing[i].0;
        assert(keyed(listing, i, key));
        let j = choose|j: int| keyed(listing, j, key);
        lemma_ordered_distinct(listing, i, j, key);
    }
    assert forall|key: Seq<char>| #[trigger] map.contains_key(key) implies exists|i: int|
        0 <= i < listing.len() && (#[trigger] listing[i]).0 == key by {
        let i = choose|i: int| keyed(listing, i, key);
        assert(listing[i].0 == key);
    }
}

/// The keys of a listing are distinct.
pub proof fn lemma_listing_distinct<T>(listing: Seq<(Seq<char>, T)>, map: Map<Seq<char>, T>)
    requires
        is_listing(listing, map),
    ensures
        listing.map_values(|entry: (Seq<char>, T)| entry.0).no_duplicates(),
{
    let keys = listing.map_values(|entry: (Seq<char>, T)| entry.0);
    assert forall|i: int, j: int|
        0 <= i < keys.len() && 0 <= j < keys.len() && i != j implies keys[i] != keys[j] by {
        lemma_before_irreflexive(keys[i]);
        if i < j {
            assert(before(listing[i].0, listing[j].0));
        } else {
            assert(before(listing[j].0, listing[i].0));
        }
    }
}

impl<T> View for TextMap<T> {
    type V = Map<Seq<char>, T>;

    closed spec fn view(&self) -> Map<Seq<char>, T> {
        map_of(self.listing())
    }
}

impl<T> TextMap<T> {
    #[verifier::type_invariant]
    spec fn in_order(self) -> bool {
        ordered(self.listing())
    }

    /// The entries in the order of their texts.
    pub closed spec fn listing(self) -> Seq<(Seq<char>, T)> {
        self.entries@.map_values(|entry: (String, T)| (entry.0@, entry.1))
    }

    /// An empty table.
    pub fn new() -> (table: Self)
        ensures
            table@ == Map::<Seq<char>, T>::empty(),
            table.listing() == Seq::<(Seq<char>, T)>::empty(),
            is_listing(table.listing(), table@),
    {
        let table = TextMap { entries: Vec::new() };
        assert(table@ =~= Map::<Seq<char>, T>::empty());
        table
    }

    /// The number of entries.
    pub fn len(&self) -> (n: usize)
        ensures
            n == self.listing().len(),
            is_listing(self.listing(), self@),
    {
        proof {
            use_type_invariant(self);
            lemma_map_of(self.listing());
        }
        self.entries.len()
    }

    /// The text of entry `i`.
    pub fn key_at(&self, i: usize) -> (key: &String)
        requires
            i < self.listing().len(),
        ensures
            key@ == self.listing()[i as int].0,
    {
        &self.entries[i].0
    }

    /// The value of entry `i`.
    pub fn value_at(&self, i: usize) -> (value: &T)
        requires
            i < self.listing().len(),
        ensures
            *value == self.listing()[i as int].1,
    {
        &self.entries[i].1
    }

    /// Where `key` stands, or would stand, among the entries.
    fn position(&self, key: &str) -> (at: usize)
        ensures
            at <= self.listing().len(),
            forall|i: int| 0 <= i < at ==> before((#[trigger] self.listing()[i]).0, key@),
            forall|i: int|
                at <= i < self.listing().len() ==> !before((#[trigger] self.listing()[i]).0, key@),
    {
        proof {
            use_type_invariant(self);
        }
        let mut at: usize = 0;
        while at < self.entries.len()
            invariant
                at <= self.listing().len(),
                ordered(self.listing()),
                forall|i: int| 0 <= i < at ==> before((#[trigger] self.listing()[i]).0, key@),
            decreases self.entries.len() - at,
        {
            if !text_before(self.entries[at].0.as_str(), key) {
                proof {
                    assert forall|i: int| at <= i < self.listing().len() implies !before(
                        (#[trigger] self.listing()[i]).0,
                        key@,
                    ) by {
                        if before(self.listing()[i].0, key@) && at < i {
                            lemma_before_transitive(
                                self.listing()[at as int].0,
                                self.listing()[i].0,
                                key@,
                            );
                        }
                    }
                }
                return at;
            }
            at = at + 1;
        }
        at
    }

    /// The value stored under `key`.
    pub fn get(&self, key: &str) -> (value: Option<&T>)
        ensures
            match value {
                Some(value) => self@.contains_key(key@) && self@[key@] == *value,
                None => !self@.contains_key(key@),
            },
    {
        let at = self.position(key);
        proof {
            use_type_invariant(self);
            lemma_map_of(self.listing());
        }
        if at < self.entries.len() && same_text(self.entries[at].0.as_str(), key) {
            assert(self.listing()[at as int].0 == key@);
            Some(&self.entries[at].1)
        } else {
            proof {
                if self@.contains_key(key@) {
                    let i = choose|i: int|
                        0 <= i < self.listing().len() && (#[trigger] self.listing()[i]).0 == key@;
                    lemma_before_irreflexive(key@);
                    assert(at < i);
                    assert(before(self.listing()[at as int].0, self.listing()[i].0));
                }
            }
            None
        }
    }

    /// Stores `value` under `key`, in place of any earlier value.
    pub fn insert(&mut self, key: String, value: T)
        ensures
            final(self)@ == old(self)@.insert(key@, value),
            is_listing(final(self).listing(), final(self)@),
    {
        let at = self.position(key.as_str());
        proof {
            use_type_invariant(&*self);
            lemma_map_of(self.listing());
        }
        let ghost listing = self.listing();
        let ghost map = self@;
        let ghost name = key@;
        let mut entries: Vec<(String, T)> = Vec::new();
        std::mem::swap(&mut entries, &mut self.entries);
        let present = at < entries.len() && same_text(entries[at].0.as_str(), key.as_str());
        if present {
            assert(listing[at as int].0 == name);
            entries.set(at, (key, value));
        } else {
            entries.insert(at, (key, value));
        }
        let ghost next = entries@.map_values(|entry: (String, T)| (entry.0@, entry.1));
        proof {
            if present {
                assert(next =~= listing.update(at as int, (name, value)));
                assert(forall|i: int| 0 <= i < next.len() ==> (#[trigger] next[i]).0 == listing[i].0);
                assert(ordered(next));
            } else {
                assert(next =~= listing.insert(at as int, (name, value)));
                lemma_inserted_ordered(listing, at as int, name, value);
            }
            lemma_map_of(next);
            assert(next[at as int] == (name, value));
            assert(map_of(next) =~= map.insert(name, value)) by {
                assert forall|k: Seq<char>| #[trigger]
                    map_of(next).contains_key(k) == map.insert(name, value).contains_key(k) by {
                    if map_of(next).contains_key(k) && k != name {
                        let i = choose|i: int| 0 <= i < next.len() && (#[trigger] next[i]).0 == k;
                        if present || i < at {
                            assert(listing[i].0 == k);
                        } else {
                            assert(listing[i - 1].0 == k);
                        }
                    }
                    if map.contains_key(k) && k != name {
                        let i = choose|i: int|
                            0 <= i < listing.len() && (#[trigger] listing[i]).0 == k;
                        if present || i < at {
                            assert(next[i].0 == k);
                        } else {
                            assert(next[i + 1].0 == k);
                        }
                    }
                }
                assert forall|k: Seq<char>| #[trigger]
                    map_of(next).contains_key(k) implies map_of(next)[k] == map.insert(
                    name,
                    value,
                )[k] by {
                    let i = choose|i: int| 0 <= i < next.len() && (#[trigger] next[i]).0 == k;
                    if i != at {
                        if present || i < at {
                            assert(listing[i] == next[i]);
                        } else {
                            assert(listing[i - 1] == next[i]);
                        }
                        if k == name {
                            assert(keyed(next, i, k) && keyed(next, at as int, k));
                            lemma_ordered_distinct(next, i, at as int, k);
                        }
                    }
                }
            }
        }
        self.entries = entries;
    }
}

proof fn lemma_inserted_ordered<T>(listing: Seq<(Seq<char>, T)>, at: int, key: Seq<char>, value: T)
    requires
        ordered(listing),
        0 <= at <= listing.len(),
        at < listing.len() ==> listing[at].0 != key,
        forall|i: int| 0 <= i < at ==> before((#[trigger] listing[i]).0, key),
        forall|i: int| at <= i < listing.len() ==> !before((#[trigger] listing[i]).0, key),
    ensures
        ordered(listing.insert(at, (key, value))),
{
    let next = listing.insert(at, (key, value));
    assert forall|i: int, j: int| 0 <= i < j < next.len() implies before(
        (#[trigger] next[i]).0,
        (#[trigger] next[j]).0,
    ) by {
        if i < at && j > at {
            assert(before(listing[i].0, listing[j - 1].0));
        } else if i < at && j < at {
            assert(before(listing[i].0, listing[j].0));
        } else if i > at {
            assert(before(listing[i - 1].0, listing[j - 1].0));
        } else if i == at {
            lemma_before_total(listing[at].0, key);
            if j - 1 > at {
                lemma_before_transitive(key, listing[at].0, listing[j - 1].0);
            }
        }
    }
}

// ── Tables keyed by two texts ───────────────────────────────────────────────

/// Whether a pair of texts stands before another: by the first texts, then by the second.
pub open spec fn pair_before(a: (Seq<char>, Seq<char>), b: (Seq<char>, Seq<char>)) -> bool {
    before(a.0, b.0) || (a.0 == b.0 && before(a.1, b.1))
}

/// Whether pairs of texts stand in order, each once.
pub open spec fn pairs_in_order(keys: Seq<(Seq<char>, Seq<char>)>) -> bool {
    forall|i: int, j: int|
        0 <= i < j < keys.len() ==> pair_before(#[trigger] keys[i], #[trigger] keys[j])
}

proof fn lemma_pair_before_irreflexive(a: (Seq<char>, Seq<char>))
    ensures
        !pair_before(a, a),
{
    lemma_before_irreflexive(a.0);
    lemma_before_irreflexive(a.1);
}

proof fn lemma_pair_before_transitive(
    a: (Seq<char>, Seq<char>),
    b: (Seq<char>, Seq<char>),
    c: (Seq<char>, Seq<char>),
)
    requires
        pair_before(a, b),
        pair_before(b, c),
    ensures
        pair_before(a, c),
{
    if before(a.0, b.0) && before(b.0, c.0) {
        lemma_before_transitive(a.0, b.0, c.0);
    } else if a.0 == b.0 && b.0 == c.0 {
        lemma_before_transitive(a.1, b.1, c.1);
    }
}

proof fn lemma_pair_before_total(a: (Seq<char>, Seq<char>), b: (Seq<char>, Seq<char>))
    ensures
        a == b || pair_before(a, b) || pair_before(b, a),
{
    lemma_before_total(a.0, b.0);
    lemma_before_total(a.1, b.1);
}

/// A table from pairs of texts to values, kept in the order of the pairs.
pub struct PairMap<T> {
    rows: Vec<(String, String, T)>,
}

/// The pairs of texts that rows are stored under.
spec fn keys_of<T>(rows: Seq<(String, String, T)>) -> Seq<(Seq<char>, Seq<char>)> {
    rows.map_values(|row: (String, String, T)| (row.0@, row.1@))
}

spec fn row_keyed<T>(rows: Seq<(String, String, T)>, i: int, key: (Seq<char>, Seq<char>)) -> bool {
    0 <= i < rows.len() && keys_of(rows)[i] == key
}

spec fn pairs_of<T>(rows: Seq<(String, String, T)>) -> Map<(Seq<char>, Seq<char>), T> {
    Map::new(
        |key: (Seq<char>, Seq<char>)| exists|i: int| row_keyed(rows, i, key),
        |key: (Seq<char>, Seq<char>)| rows[choose|i: int| row_keyed(rows, i, key)].2,
    )
}

proof fn lemma_row_distinct<T>(
    rows: Seq<(String, String, T)>,
    i: int,
    j: int,
    key: (Seq<char>, Seq<char>),
)
    requires
        pairs_in_order(keys_of(rows)),
        row_keyed(rows, i, key),
        row_keyed(rows, j, key),
    ensures
        i == j,
{
    lemma_pair_before_irreflexive(key);
    if i < j {
        assert(pair_before(keys_of(rows)[i], keys_of(rows)[j]));
    }
    if j < i {
        assert(pair_before(keys_of(rows)[j], keys_of(rows)[i]));
    }
}

proof fn lemma_pairs_of<T>(rows: Seq<(String, String, T)>, i: int)
    requires
        pairs_in_order(keys_of(rows)),
        0 <= i < rows.len(),
    ensures
        pairs_of(rows).contains_key(keys_of(rows)[i]),
        pairs_of(rows)[keys_of(rows)[i]] == rows[i].2,
{
    let key = keys_of(rows)[i];
    assert(row_keyed(rows, i, key));
    let j = choose|j: int| row_keyed(rows, j, key);
    lemma_row_distinct(rows, i, j, key);
}

proof fn lemma_inserted_pairs(
    keys: Seq<(Seq<char>, Seq<char>)>,
    at: int,
    key: (Seq<char>, Seq<char>),
)
    requires
        pairs_in_order(keys),
        0 <= at <= keys.len(),
        at < keys.len() ==> keys[at] != key,
        forall|i: int| 0 <= i < at ==> pair_before(#[trigger] keys[i], key),
        forall|i: int| at <= i < keys.len() ==> !pair_before(#[trigger] keys[i], key),
    ensures
        pairs_in_order(keys.insert(at, key)),
{
    let next = keys.insert(at, key);
    assert forall|i: int, j: int| 0 <= i < j < next.len() implies pair_before(
        #[trigger] next[i],
        #[trigger] next[j],
    ) by {
        if i < at && j > at {
            assert(pair_before(keys[i], keys[j - 1]));
        } else if i < at && j < at {
            assert(pair_before(keys[i], keys[j]));
        } else if i > at {
            assert(pair_before(keys[i - 1], keys[j - 1]));
        } else if i == at {
            lemma_pair_before_total(keys[at], key);
            if j - 1 > at {
                lemma_pair_before_transitive(key, keys[at], keys[j - 1]);
            }
        }
    }
}

impl<T> View for PairMap<T> {
    type V = Map<(Seq<char>, Seq<char>), T>;

    closed spec fn view(&self) -> Map<(Seq<char>, Seq<char>), T> {
        pairs_of(self.rows@)
    }
}

impl<T> PairMap<T> {
    #[verifier::type_invariant]
    spec fn in_order(self) -> bool {
        pairs_in_order(self.keys())
    }

    /// The keys in their order.
    pub closed spec fn keys(self) -> Seq<(Seq<char>, Seq<char>)> {
        keys_of(self.rows@)
    }

    /// An empty table.
    pub fn new() -> (table: Self)
        ensures
            table@ == Map::<(Seq<char>, Seq<char>), T>::empty(),
            table.keys() == Seq::<(Seq<char>, Seq<char>)>::empty(),
    {
        let table = PairMap { rows: Vec::new() };
        assert(table@ =~= Map::<(Seq<char>, Seq<char>), T>::empty());
        table
    }

    /// The number of entries.
    pub fn len(&self) -> (n: usize)
        ensures
            n == self.keys().len(),
            pairs_in_order(self.keys()),
            forall|key: (Seq<char>, Seq<char>)| #[trigger]
                self@.contains_key(key) == self.keys().contains(key),
    {
        proof {
            use_type_invariant(self);
            let keys = self.keys();
            assert forall|key: (Seq<char>, Seq<char>)| #[trigger]
                self@.contains_key(key) == keys.contains(key) by {
                if self@.contains_key(key) {
                    let i = choose|i: int| row_keyed(self.rows@, i, key);
                    assert(keys[i] == key);
                }
                if keys.contains(key) {
                    let i = choose|i: int| 0 <= i < keys.len() && keys[i] == key;
                    assert(row_keyed(self.rows@, i, key));
                }
            }
        }
        self.rows.len()
    }

    /// Entry `i`, in the order of the keys.
    pub fn row(&self, i: usize) -> (row: (&String, &String, &T))
        requires
            i < self.keys().len(),
        ensures
            (row.0@, row.1@) == self.keys()[i as int],
            self@.contains_key((row.0@, row.1@)),
            self@[(row.0@, row.1@)] == *row.2,
    {
        proof {
            use_type_invariant(self);
            lemma_pairs_of(self.rows@, i as int);
        }
        let row = &self.rows[i];
        (&row.0, &row.1, &row.2)
    }

    /// Where the two texts stand, or would stand, among the keys.
    fn position(&self, first: &str, second: &str) -> (at: usize)
        ensures
            at <= self.keys().len(),
            forall|i: int| 0 <= i < at ==> pair_before(#[trigger] self.keys()[i], (first@, second@)),
            forall|i: int|
                at <= i < self.keys().len() ==> !pair_before(
                    #[trigger] self.keys()[i],
                    (first@, second@),
                ),
    {
        proof {
            use_type_invariant(self);
        }
        let ghost key = (first@, second@);
        let mut at: usize = 0;
        while at < self.rows.len()
            invariant
                at <= self.keys().len(),
                key == (first@, second@),
                pairs_in_order(self.keys()),
                forall|i: int| 0 <= i < at ==> pair_before(#[trigger] self.keys()[i], key),
            decreases self.rows.len() - at,
        {
            let row = &self.rows[at];
            let earlier = text_before(row.0.as_str(), first) || (same_text(row.0.as_str(), first)
                && text_before(row.1.as_str(), second));
            if !earlier {
                proof {
                    assert forall|i: int| at <= i < self.keys().len() implies !pair_before(
                        #[trigger] self.keys()[i],
                        key,
                    ) by {
                        if pair_before(self.keys()[i], key) && at < i {
                            lemma_pair_before_transitive(
                                self.keys()[at as int],
                                self.keys()[i],
                                key,
                            );
                        }
                    }
                }
                return at;
            }
            at = at + 1;
        }
        at
    }

    /// The value stored under the two texts.
    pub fn get(&self, first: &str, second: &str) -> (value: Option<&T>)
        ensures
            match value {
                Some(value) => self@.contains_key((first@, second@)) && self@[(first@, second@)]
                    == *value,
                None => !self@.contains_key((first@, second@)),
            },
    {
        let at = self.position(first, second);
        proof {
            use_type_invariant(self);
        }
        let ghost key = (first@, second@);
        if at < self.rows.len() && same_text(self.rows[at].0.as_str(), first) && same_text(
            self.rows[at].1.as_str(),
            second,
        ) {
            proof {
                lemma_pairs_of(self.rows@, at as int);
            }
            Some(&self.rows[at].2)
        } else {
            proof {
                if self@.contains_key(key) {
                    let i = choose|i: int| row_keyed(self.rows@, i, key);
                    assert(self.keys()[i] == key);
                    lemma_pair_before_irreflexive(key);
                    assert(at < i);
                    assert(pair_before(self.keys()[at as int], self.keys()[i]));
                }
            }
            None
        }
    }

    /// Stores `value` under the two texts, in place of any earlier value.
    pub fn insert(&mut self, first: String, second: String, value: T)
        ensures
            final(self)@ == old(self)@.insert((first@, second@), value),
            pairs_in_order(final(self).keys()),
    {
        let at = self.position(first.as_str(), second.as_str());
        proof {
            use_type_invariant(&*self);
        }
        let ghost was = self.rows@;
        let ghost key = (first@, second@);
        let mut rows: Vec<(String, String, T)> = Vec::new();
        std::mem::swap(&mut rows, &mut self.rows);
        let present = at < rows.len() && same_text(rows[at].0.as_str(), first.as_str())
            && same_text(rows[at].1.as_str(), second.as_str());
        if present {
            rows.set(at, (first, second, value));
        } else {
            rows.insert(at, (first, second, value));
        }
        proof {
            if present {
                assert(keys_of(rows@) =~= keys_of(was));
            } else {
                assert(keys_of(rows@) =~= keys_of(was).insert(at as int, key));
                lemma_inserted_pairs(keys_of(was), at as int, key);
            }
            lemma_stored_row(was, rows@, at as int, present, value);
        }
        self.rows = rows;
    }
}

/// Replacing the row at `at`, or putting one in there, stores its value under its key.
proof fn lemma_stored_row<T>(
    was: Seq<(String, String, T)>,
    rows: Seq<(String, String, T)>,
    at: int,
    present: bool,
    value: T,
)
    requires
        pairs_in_order(keys_of(was)),
        pairs_in_order(keys_of(rows)),
        0 <= at < rows.len(),
        rows[at].2 == value,
        present ==> at < was.len() && rows == was.update(at, rows[at]) && keys_of(was)[at]
            == keys_of(rows)[at],
        !present ==> at <= was.len() && rows == was.insert(at, rows[at]),
    ensures
        pairs_of(rows) == pairs_of(was).insert(keys_of(rows)[at], value),
{
    let key = keys_of(rows)[at];
    let expected = pairs_of(was).insert(key, value);
    lemma_pairs_of(rows, at);
    assert forall|k: (Seq<char>, Seq<char>)| #[trigger] pairs_of(rows).contains_key(k)
        == expected.contains_key(k) by {
        if pairs_of(rows).contains_key(k) && k != key {
            let i = choose|i: int| row_keyed(rows, i, k);
            let from = if present || i < at {
                i
            } else {
                i - 1
            };
            assert(was[from] == rows[i]);
            assert(row_keyed(was, from, k));
        }
        if pairs_of(was).contains_key(k) && k != key {
            let i = choose|i: int| row_keyed(was, i, k);
            let to = if present || i < at {
                i
            } else {
                i + 1
            };
            assert(rows[to] == was[i]);
            assert(row_keyed(rows, to, k));
        }
    }
    assert forall|k: (Seq<char>, Seq<char>)| #[trigger]
        pairs_of(rows).contains_key(k) implies pairs_of(rows)[k] == expected[k] by {
        if k != key {
            let i = choose|i: int| row_keyed(rows, i, k);
            lemma_pairs_of(rows, i);
            let from = if present || i < at {
                i
            } else {
                i - 1
            };
            assert(was[from] == rows[i]);
            lemma_pairs_of(was, from);
        }
    }
    assert(pairs_of(rows) =~= expected);
}

// ── Laws ────────────────────────────────────────────────────────────────────

/// A text stands before another exactly if, behind a common start, it ends first or has the
/// smaller character.
pub proof fn law_texts_are_ordered_by_their_first_difference(
    a: Seq<char>,
    b: Seq<char>,
    common: int,
)
    requires
        0 <= common <= a.len(),
        common <= b.len(),
        forall|i: int| 0 <= i < common ==> #[trigger] a[i] == b[i],
        common < a.len() && common < b.len() ==> a[common] != b[common],
    ensures
        before(a, b) <==> common < b.len() && (common == a.len() || a[common] < b[common]),
    decreases common,
{
    if common > 0 {
        assert(a[0] == b[0]);
        assert forall|i: int| 0 <= i < common - 1 implies #[trigger] a.skip(1)[i] == b.skip(1)[i] by {
            assert(a[i + 1] == b[i + 1]);
        }
        law_texts_are_ordered_by_their_first_difference(a.skip(1), b.skip(1), common - 1);
    }
}

/// Pairs are ordered by their first texts, and by their second ones where those are the same.
pub proof fn law_pairs_are_ordered_by_both_texts(
    a: (Seq<char>, Seq<char>),
    b: (Seq<char>, Seq<char>),
)
    ensures
        a.0 != b.0 ==> (pair_before(a, b) <==> before(a.0, b.0)),
        a.0 == b.0 ==> (pair_before(a, b) <==> before(a.1, b.1)),
{
    lemma_before_irreflexive(a.0);
}

/// A listing has its texts in order, each once, and every entry of the table.
pub proof fn law_listings_are_in_order<T>(
    listing: Seq<(Seq<char>, T)>,
    map: Map<Seq<char>, T>,
    i: int,
    j: int,
    key: Seq<char>,
)
    requires
        is_listing(listing, map),
        0 <= i < j < listing.len(),
    ensures
        before(listing[i].0, listing[j].0),
        map.contains_key(listing[i].0),
        map[listing[i].0] == listing[i].1,
        map.contains_key(key) ==> exists|k: int|
            0 <= k < listing.len() && (#[trigger] listing[k]).0 == key,
{
    assert(before(listing[i].0, listing[j].0));
}

/// Pairs in order stand one before the other.
pub proof fn law_pairs_in_order(keys: Seq<(Seq<char>, Seq<char>)>, i: int, j: int)
    requires
        pairs_in_order(keys),
        0 <= i < j < keys.len(),
    ensures
        pair_before(keys[i], keys[j]),
        keys[i] != keys[j],
{
    assert(pair_before(keys[i], keys[j]));
    lemma_pair_before_irreflexive(keys[i]);
}

} // verus!

//! Record store: an ordered table from byte keys to byte values.
//!
//! The table offers point lookup, unconditional upsert and delete, and a scan
//! of all entries whose key begins with an anchor, in byte-lexicographic key
//! order. Its view is the map from keys to values.

use vstd::prelude::*;
use crate::key::has_prefix;

verus! {

/// Strict byte-lexicographic order: `a` sorts before `b` when `a` is a proper
/// prefix of `b`, or when the first byte in which they differ is smaller in
/// `a`.
pub open spec fn lex_less(a: Seq<u8>, b: Seq<u8>) -> bool {
    exists|i: int| #[trigger] differ_at(a, b, i) && (i == a.len() || a[i] < b[i])
}

/// `a` and `b` agree on their first `i` bytes, `b` goes on after them, and
/// `a` either ends there or goes on with another byte than `b`.
pub open spec fn differ_at(a: Seq<u8>, b: Seq<u8>, i: int) -> bool {
    &&& 0 <= i <= a.len()
    &&& i < b.len()
    &&& a.subrange(0, i) == b.subrange(0, i)
    &&& i < a.len() ==> a[i] != b[i]
}

/// No byte string sorts before itself.
pub proof fn lemma_lex_irreflexive(a: Seq<u8>)
    ensures
        !lex_less(a, a),
{
}

/// The order is transitive.
pub proof fn lemma_lex_transitive(a: Seq<u8>, b: Seq<u8>, c: Seq<u8>)
    requires
        lex_less(a, b),
        lex_less(b, c),
    ensures
        lex_less(a, c),
{
    let i = choose|i: int| #[trigger] differ_at(a, b, i) && (i == a.len() || a[i] < b[i]);
    let j = choose|j: int| #[trigger] differ_at(b, c, j) && (j == b.len() || b[j] < c[j]);
    let k = if i <= j {
        i
    } else {
        j
    };
    assert(a.subrange(0, k) =~= a.subrange(0, i).subrange(0, k));
    assert(b.subrange(0, k) =~= b.subrange(0, i).subrange(0, k));
    assert(b.subrange(0, k) =~= b.subrange(0, j).subrange(0, k));
    assert(c.subrange(0, k) =~= c.subrange(0, j).subrange(0, k));
    if k < a.len() {
        if i < j {
            assert(b.subrange(0, j)[i] == c.subrange(0, j)[i]);
        } else if j < i {
            assert(a.subrange(0, i)[j] == b.subrange(0, i)[j]);
        }
    }
    assert(differ_at(a, c, k));
}

/// Two byte strings never sort before each other.
pub proof fn lemma_lex_asymmetric(a: Seq<u8>, b: Seq<u8>)
    requires
        lex_less(a, b),
    ensures
        !lex_less(b, a),
        a != b,
{
    if lex_less(b, a) {
        lemma_lex_transitive(a, b, a);
        lemma_lex_irreflexive(a);
    }
    lemma_lex_irreflexive(a);
}

/// Two different byte strings are ordered one way or the other.
pub proof fn lemma_lex_total(a: Seq<u8>, b: Seq<u8>)
    ensures
        a == b || lex_less(a, b) || lex_less(b, a),
{
    assert(a.subrange(0, 0) =~= b.subrange(0, 0));
    lemma_lex_total_from(a, b, 0);
}

proof fn lemma_lex_total_from(a: Seq<u8>, b: Seq<u8>, i: int)
    requires
        0 <= i <= a.len(),
        i <= b.len(),
        a.subrange(0, i) == b.subrange(0, i),
    ensures
        a == b || lex_less(a, b) || lex_less(b, a),
    decreases a.len() - i,
{
    if i == a.len() {
        if i == b.len() {
            assert(a =~= a.subrange(0, i));
            assert(b =~= b.subrange(0, i));
        } else {
            assert(differ_at(a, b, i));
        }
    } else if i == b.len() {
        assert(differ_at(b, a, i));
    } else if a[i] != b[i] {
        if a[i] < b[i] {
            assert(differ_at(a, b, i));
        } else {
            assert(differ_at(b, a, i));
        }
    } else {
        assert(a.subrange(0, i + 1) =~= a.subrange(0, i).push(a[i]));
        assert(b.subrange(0, i + 1) =~= b.subrange(0, i).push(b[i]));
        lemma_lex_total_from(a, b, i + 1);
    }
}

/// How one byte string stands to another in the order.
#[derive(Clone, Copy, Debug, PartialEq, Eq, Structural)]
pub enum Rank {
    Before,
    Same,
    After,
}

/// Places `a` relative to `b`.
pub fn rank(a: &[u8], b: &[u8]) -> (r: Rank)
    ensures
        r == Rank::Before <==> lex_less(a@, b@),
        r == Rank::Same <==> a@ == b@,
        r == Rank::After <==> lex_less(b@, a@),
{
    let mut i: usize = 0;
    while i < a.len() && i < b.len()
        invariant
            i <= a@.len(),
            i <= b@.len(),
            a@.subrange(0, i as int) == b@.subrange(0, i as int),
        decreases a@.len() - i,
    {
        if a[i] != b[i] {
            if a[i] < b[i] {
                assert(differ_at(a@, b@, i as int));
                proof {
                    lemma_lex_asymmetric(a@, b@);
                }
                return Rank::Before;
            } else {
                assert(b@.subrange(0, i as int) == a@.subrange(0, i as int));
                assert(differ_at(b@, a@, i as int));
                proof {
                    lemma_lex_asymmetric(b@, a@);
                }
                return Rank::After;
            }
        }
        assert(a@.subrange(0, i + 1) =~= a@.subrange(0, i as int).push(a@[i as int]));
        assert(b@.subrange(0, i + 1) =~= b@.subrange(0, i as int).push(b@[i as int]));
        i += 1;
    }
    if a.len() < b.len() {
        assert(differ_at(a@, b@, i as int));
        proof {
            lemma_lex_asymmetric(a@, b@);
        }
        Rank::Before
    } else if b.len() < a.len() {
        assert(differ_at(b@, a@, i as int));
        proof {
            lemma_lex_asymmetric(b@, a@);
        }
        Rank::After
    } else {
        assert(a@ =~= a@.subrange(0, i as int));
        assert(b@ =~= b@.subrange(0, i as int));
        proof {
            lemma_lex_irreflexive(a@);
        }
        Rank::Same
    }
}

/// A fresh vector with the bytes of `source`.
pub fn copy_bytes(source: &[u8]) -> (out: Vec<u8>)
    ensures
        out@ == source@,
{
    let mut out: Vec<u8> = Vec::new();
    let mut i: usize = 0;
    while i < source.len()
        invariant
            i <= source@.len(),
            out@ == source@.subrange(0, i as int),
        decreases source@.len() - i,
    {
        out.push(source[i]);
        assert(out@ =~= source@.subrange(0, i + 1));
        i += 1;
    }
    assert(source@.subrange(0, i as int) =~= source@);
    out
}

/// One key with its value.
#[derive(Clone, Debug, PartialEq, Eq)]
pub struct Entry {
    pub key: Vec<u8>,
    pub value: Vec<u8>,
}

/// The keys of `entries` ascend strictly.
pub open spec fn ascending(entries: Seq<Entry>) -> bool {
    forall|i: int, j: int|
        0 <= i < j < entries.len() ==> lex_less(
            #[trigger] entries[i].key@,
            #[trigger] entries[j].key@,
        )
}

/// One change to a store.
#[derive(Clone, Debug, PartialEq, Eq)]
pub enum Write {
    /// Store `value` under `key`, whatever was there.
    Put { key: Vec<u8>, value: Vec<u8> },
    /// Remove `key`, if it is there.
    Delete { key: Vec<u8> },
}

/// One change to a store, as a mathematical value.
pub enum Change {
    Put(Seq<u8>, Seq<u8>),
    Delete(Seq<u8>),
}

impl Change {
    /// What the store holds after the change.
    pub open spec fn effect(self, contents: Map<Seq<u8>, Seq<u8>>) -> Map<Seq<u8>, Seq<u8>> {
        match self {
            Change::Put(key, value) => contents.insert(key, value),
            Change::Delete(key) => contents.remove(key),
        }
    }
}

impl View for Write {
    type V = Change;

    open spec fn view(&self) -> Change {
        match self {
            Write::Put { key, value } => Change::Put(key@, value@),
            Write::Delete { key } => Change::Delete(key@),
        }
    }
}

/// The changes that `writes` stand for.
pub open spec fn changes(writes: Seq<Write>) -> Seq<Change> {
    Seq::new(writes.len(), |i: int| writes[i]@)
}

/// What a store holds after `steps`, made in order.
pub open spec fn effect_of(steps: Seq<Change>, contents: Map<Seq<u8>, Seq<u8>>) -> Map<
    Seq<u8>,
    Seq<u8>,
>
    decreases steps.len(),
{
    if steps.len() == 0 {
        contents
    } else {
        steps.last().effect(effect_of(steps.drop_last(), contents))
    }
}

/// No change leaves the store as it is, and one change has its own effect.
pub proof fn lemma_effect_of_few(contents: Map<Seq<u8>, Seq<u8>>, a: Change, b: Change)
    ensures
        effect_of(Seq::<Change>::empty(), contents) == contents,
        effect_of(seq![a], contents) == a.effect(contents),
        effect_of(seq![a, b], contents) == b.effect(a.effect(contents)),
{
    assert(seq![a].drop_last() =~= Seq::<Change>::empty());
    assert(seq![a, b].drop_last() =~= seq![a]);
    reveal_with_fuel(effect_of, 3);
}

/// The keys and values of `entries` as mathematical pairs.
pub open spec fn listing(entries: Seq<Entry>) -> Seq<(Seq<u8>, Seq<u8>)> {
    Seq::new(entries.len(), |i: int| (entries[i].key@, entries[i].value@))
}

/// `found` lists what `contents` holds under `anchor`: exactly the pairs
/// whose key begins with `anchor`, each once, in ascending key order.
pub open spec fn is_listing(
    found: Seq<(Seq<u8>, Seq<u8>)>,
    contents: Map<Seq<u8>, Seq<u8>>,
    anchor: Seq<u8>,
) -> bool {
    &&& forall|i: int|
        0 <= i < found.len() ==> {
            &&& anchor.is_prefix_of((#[trigger] found[i]).0)
            &&& contents.contains_key(found[i].0)
            &&& contents[found[i].0] == found[i].1
        }
    &&& forall|k: Seq<u8>|
        #[trigger] contents.contains_key(k) && anchor.is_prefix_of(k) ==> lists_key(found, k)
    &&& forall|i: int, j: int|
        0 <= i < j < found.len() ==> lex_less((#[trigger] found[i]).0, (#[trigger] found[j]).0)
}

/// Some pair of `found` has the key `k`.
pub open spec fn lists_key(found: Seq<(Seq<u8>, Seq<u8>)>, k: Seq<u8>) -> bool {
    exists|i: int| 0 <= i < found.len() && (#[trigger] found[i]).0 == k
}

/// The scan of `contents` at `anchor`: the one listing of what it holds
/// under the anchor.
pub open spec fn scan_of(contents: Map<Seq<u8>, Seq<u8>>, anchor: Seq<u8>) -> Seq<
    (Seq<u8>, Seq<u8>),
> {
    choose|found: Seq<(Seq<u8>, Seq<u8>)>| is_listing(found, contents, anchor)
}

proof fn lemma_listings_agree(
    a: Seq<(Seq<u8>, Seq<u8>)>,
    b: Seq<(Seq<u8>, Seq<u8>)>,
    contents: Map<Seq<u8>, Seq<u8>>,
    anchor: Seq<u8>,
    i: int,
)
    requires
        is_listing(a, contents, anchor),
        is_listing(b, contents, anchor),
        0 <= i < a.len(),
    ensures
        i < b.len(),
        a[i] == b[i],
    decreases i,
{
    let k = a[i].0;
    assert(contents.contains_key(k) && anchor.is_prefix_of(k));
    assert(lists_key(b, k));
    let j = choose|j: int| 0 <= j < b.len() && (#[trigger] b[j]).0 == k;
    if j < i {
        lemma_listings_agree(a, b, contents, anchor, j);
        lemma_lex_asymmetric(a[j].0, a[i].0);
    } else if j > i {
        let other = b[i].0;
        assert(contents.contains_key(other) && anchor.is_prefix_of(other));
        assert(lists_key(a, other));
        let back = choose|l: int| 0 <= l < a.len() && (#[trigger] a[l]).0 == other;
        lemma_lex_asymmetric(b[i].0, b[j].0);
        if back < i {
            lemma_listings_agree(a, b, contents, anchor, back);
            lemma_lex_asymmetric(b[back].0, b[i].0);
        } else if back > i {
            lemma_lex_transitive(a[i].0, a[back].0, k);
            lemma_lex_irreflexive(k);
        }
    }
}

/// What a store holds under an anchor has one listing only.
pub proof fn lemma_listing_unique(
    a: Seq<(Seq<u8>, Seq<u8>)>,
    b: Seq<(Seq<u8>, Seq<u8>)>,
    contents: Map<Seq<u8>, Seq<u8>>,
    anchor: Seq<u8>,
)
    requires
        is_listing(a, contents, anchor),
        is_listing(b, contents, anchor),
    ensures
        a == b,
{
    if a.len() > 0 {
        lemma_listings_agree(a, b, contents, anchor, a.len() - 1);
    }
    if b.len() > 0 {
        lemma_listings_agree(b, a, contents, anchor, b.len() - 1);
    }
    assert forall|i: int| 0 <= i < a.len() implies a[i] == b[i] by {
        lemma_listings_agree(a, b, contents, anchor, i);
    }
    assert(a =~= b);
}

/// A listing of what a store holds under an anchor is its scan.
pub proof fn lemma_scan_of(
    found: Seq<(Seq<u8>, Seq<u8>)>,
    contents: Map<Seq<u8>, Seq<u8>>,
    anchor: Seq<u8>,
)
    requires
        is_listing(found, contents, anchor),
    ensures
        scan_of(contents, anchor) == found,
{
    lemma_listing_unique(scan_of(contents, anchor), found, contents, anchor);
}

/// Where `key` would stand in a listing that does not hold it.
proof fn lemma_place_in_listing(
    found: Seq<(Seq<u8>, Seq<u8>)>,
    contents: Map<Seq<u8>, Seq<u8>>,
    anchor: Seq<u8>,
    key: Seq<u8>,
) -> (p: int)
    requires
        is_listing(found, contents, anchor),
        !contents.contains_key(key),
    ensures
        0 <= p <= found.len(),
        forall|i: int| 0 <= i < p ==> lex_less((#[trigger] found[i]).0, key),
        forall|i: int| p <= i < found.len() ==> lex_less(key, (#[trigger] found[i]).0),
    decreases found.len(),
{
    if found.len() == 0 {
        0
    } else {
        let last = found.last();
        lemma_lex_total(last.0, key);
        if lex_less(last.0, key) {
            assert forall|i: int| 0 <= i < found.len() implies lex_less(
                (#[trigger] found[i]).0,
                key,
            ) by {
                if i < found.len() - 1 {
                    lemma_lex_transitive(found[i].0, last.0, key);
                }
            }
            found.len() as int
        } else {
            let rest = found.drop_last();
            let less = contents.remove(last.0);
            assert(is_listing(rest, less, anchor)) by {
                assert forall|i: int| 0 <= i < rest.len() implies {
                    &&& anchor.is_prefix_of((#[trigger] rest[i]).0)
                    &&& less.contains_key(rest[i].0)
                    &&& less[rest[i].0] == rest[i].1
                } by {
                    assert(rest[i] == found[i]);
                    lemma_lex_asymmetric(found[i].0, last.0);
                }
                assert forall|k: Seq<u8>| #[trigger]
                    less.contains_key(k) && anchor.is_prefix_of(k) implies lists_key(rest, k) by {
                    assert(lists_key(found, k));
                    let i = choose|i: int| 0 <= i < found.len() && (#[trigger] found[i]).0 == k;
                    assert(rest[i].0 == k);
                }
                assert forall|i: int, j: int| 0 <= i < j < rest.len() implies lex_less(
                    (#[trigger] rest[i]).0,
                    (#[trigger] rest[j]).0,
                ) by {
                    assert(rest[i] == found[i] && rest[j] == found[j]);
                }
            }
            let p = lemma_place_in_listing(rest, less, anchor, key);
            assert forall|i: int| 0 <= i < p implies lex_less((#[trigger] found[i]).0, key) by {
                assert(rest[i] == found[i]);
            }
            assert forall|i: int| p <= i < found.len() implies lex_less(
                key,
                (#[trigger] found[i]).0,
            ) by {
                if i < found.len() - 1 {
                    assert(rest[i] == found[i]);
                }
            }
            p
        }
    }
}

/// What a store of finitely many keys holds under an anchor has a listing.
pub proof fn lemma_listing_exists(contents: Map<Seq<u8>, Seq<u8>>, anchor: Seq<u8>) -> (found: Seq<
    (Seq<u8>, Seq<u8>),
>)
    requires
        contents.dom().finite(),
    ensures
        is_listing(found, contents, anchor),
        scan_of(contents, anchor) == found,
    decreases contents.dom().len(),
{
    if contents.dom().len() == 0 {
        let found = Seq::<(Seq<u8>, Seq<u8>)>::empty();
        assert forall|k: Seq<u8>| #[trigger]
            contents.contains_key(k) && anchor.is_prefix_of(k) implies lists_key(found, k) by {
            assert(contents.dom().contains(k));
            assert(contents.dom() =~= Set::<Seq<u8>>::empty());
        }
        lemma_scan_of(found, contents, anchor);
        found
    } else {
        let key = contents.dom().choose();
        let less = contents.remove(key);
        let rest = lemma_listing_exists(less, anchor);
        let found = if anchor.is_prefix_of(key) {
            let p = lemma_place_in_listing(rest, less, anchor, key);
            let found = rest.insert(p, (key, contents[key]));
            assert forall|i: int| 0 <= i < found.len() implies {
                &&& anchor.is_prefix_of((#[trigger] found[i]).0)
                &&& contents.contains_key(found[i].0)
                &&& contents[found[i].0] == found[i].1
            } by {
                if i < p {
                    assert(found[i] == rest[i]);
                } else if i > p {
                    assert(found[i] == rest[i - 1]);
                }
            }
            assert forall|k: Seq<u8>| #[trigger]
                contents.contains_key(k) && anchor.is_prefix_of(k) implies lists_key(found, k) by {
                if k == key {
                    assert(found[p].0 == k);
                } else {
                    assert(less.contains_key(k));
                    assert(lists_key(rest, k));
                    let i = choose|i: int| 0 <= i < rest.len() && (#[trigger] rest[i]).0 == k;
                    if i < p {
                        assert(found[i].0 == k);
                    } else {
                        assert(found[i + 1].0 == k);
                    }
                }
            }
            assert forall|i: int, j: int| 0 <= i < j < found.len() implies lex_less(
                (#[trigger] found[i]).0,
                (#[trigger] found[j]).0,
            ) by {
                let oi = if i < p {
                    i
                } else {
                    i - 1
                };
                let oj = if j < p {
                    j
                } else {
                    j - 1
                };
                if i != p {
                    assert(found[i] == rest[oi]);
                }
                if j != p {
                    assert(found[j] == rest[oj]);
                }
            }
            found
        } else {
            assert forall|i: int| 0 <= i < rest.len() implies {
                &&& anchor.is_prefix_of((#[trigger] rest[i]).0)
                &&& contents.contains_key(rest[i].0)
                &&& contents[rest[i].0] == rest[i].1
            } by {}
            assert forall|k: Seq<u8>| #[trigger]
                contents.contains_key(k) && anchor.is_prefix_of(k) implies lists_key(rest, k) by {
                assert(less.contains_key(k));
            }
            rest
        };
        lemma_scan_of(found, contents, anchor);
        found
    }
}

/// Some entry of `entries` has the key `k`.
pub open spec fn holds_key(entries: Seq<Entry>, k: Seq<u8>) -> bool {
    exists|i: int| 0 <= i < entries.len() && #[trigger] entries[i].key@ == k
}

spec fn index_of(entries: Seq<Entry>, k: Seq<u8>) -> int {
    choose|i: int| 0 <= i < entries.len() && #[trigger] entries[i].key@ == k
}

spec fn entries_map(entries: Seq<Entry>) -> Map<Seq<u8>, Seq<u8>> {
    Map::new(|k: Seq<u8>| holds_key(entries, k), |k: Seq<u8>| entries[index_of(entries, k)].value@)
}

proof fn lemma_entry_found(entries: Seq<Entry>, i: int)
    requires
        ascending(entries),
        0 <= i < entries.len(),
    ensures
        entries_map(entries).contains_key(entries[i].key@),
        entries_map(entries)[entries[i].key@] == entries[i].value@,
        index_of(entries, entries[i].key@) == i,
{
    let k = entries[i].key@;
    let j = index_of(entries, k);
    if j < i {
        lemma_lex_asymmetric(entries[j].key@, entries[i].key@);
    } else if i < j {
        lemma_lex_asymmetric(entries[i].key@, entries[j].key@);
    }
}

proof fn lemma_insert_entry(entries: Seq<Entry>, p: int, e: Entry)
    requires
        ascending(entries),
        0 <= p <= entries.len(),
        forall|i: int| 0 <= i < p ==> lex_less(#[trigger] entries[i].key@, e.key@),
        forall|i: int| p <= i < entries.len() ==> lex_less(e.key@, #[trigger] entries[i].key@),
    ensures
        ascending(entries.insert(p, e)),
        entries_map(entries.insert(p, e)) == entries_map(entries).insert(e.key@, e.value@),
{
    let after = entries.insert(p, e);
    assert forall|i: int, j: int| 0 <= i < j < after.len() implies lex_less(
        #[trigger] after[i].key@,
        #[trigger] after[j].key@,
    ) by {
        if j < p {
        } else if j == p {
        } else if i < p {
            assert(after[j] == entries[j - 1]);
            if j - 1 >= p {
                lemma_lex_transitive(after[i].key@, e.key@, after[j].key@);
            }
        } else if i == p {
            assert(after[j] == entries[j - 1]);
        } else {
            assert(after[i] == entries[i - 1]);
            assert(after[j] == entries[j - 1]);
        }
    }
    let target = entries_map(entries).insert(e.key@, e.value@);
    assert forall|k: Seq<u8>| entries_map(after).contains_key(k) <==> target.contains_key(k) by {
        if holds_key(after, k) {
            let i = index_of(after, k);
            if i < p {
                assert(entries[i].key@ == k);
            } else if i > p {
                assert(entries[i - 1].key@ == k);
            }
        }
        if holds_key(entries, k) {
            let i = index_of(entries, k);
            if i < p {
                assert(after[i].key@ == k);
            } else {
                assert(after[i + 1].key@ == k);
            }
        }
        if k == e.key@ {
            assert(after[p].key@ == k);
        }
    }
    assert forall|k: Seq<u8>| entries_map(after).contains_key(k) implies entries_map(after)[k]
        == target[k] by {
        let i = index_of(after, k);
        lemma_entry_found(after, i);
        if i < p {
            lemma_entry_found(entries, i);
        } else if i > p {
            lemma_entry_found(entries, i - 1);
            lemma_lex_asymmetric(e.key@, entries[i - 1].key@);
        }
    }
    assert(entries_map(after) =~= target);
}

proof fn lemma_replace_entry(entries: Seq<Entry>, p: int, e: Entry)
    requires
        ascending(entries),
        0 <= p < entries.len(),
        entries[p].key@ == e.key@,
    ensures
        ascending(entries.update(p, e)),
        entries_map(entries.update(p, e)) == entries_map(entries).insert(e.key@, e.value@),
{
    let after = entries.update(p, e);
    assert forall|i: int, j: int| 0 <= i < j < after.len() implies lex_less(
        #[trigger] after[i].key@,
        #[trigger] after[j].key@,
    ) by {
        assert(after[i].key@ == entries[i].key@);
        assert(after[j].key@ == entries[j].key@);
    }
    let target = entries_map(entries).insert(e.key@, e.value@);
    assert forall|k: Seq<u8>| entries_map(after).contains_key(k) <==> target.contains_key(k) by {
        if holds_key(after, k) {
            let i = index_of(after, k);
            assert(entries[i].key@ == k);
        }
        if holds_key(entries, k) {
            let i = index_of(entries, k);
            assert(after[i].key@ == k);
        }
        if k == e.key@ {
            assert(after[p].key@ == k);
        }
    }
    assert forall|k: Seq<u8>| entries_map(after).contains_key(k) implies entries_map(after)[k]
        == target[k] by {
        let i = index_of(after, k);
        lemma_entry_found(after, i);
        if i != p {
            lemma_entry_found(entries, i);
            lemma_entry_found(entries, p);
        }
    }
    assert(entries_map(after) =~= target);
}

proof fn lemma_remove_entry(entries: Seq<Entry>, p: int)
    requires
        ascending(entries),
        0 <= p < entries.len(),
    ensures
        ascending(entries.remove(p)),
        entries_map(entries.remove(p)) == entries_map(entries).remove(entries[p].key@),
{
    let after = entries.remove(p);
    let gone = entries[p].key@;
    assert forall|i: int, j: int| 0 <= i < j < after.len() implies lex_less(
        #[trigger] after[i].key@,
        #[trigger] after[j].key@,
    ) by {
        let oi = if i < p {
            i
        } else {
            i + 1
        };
        let oj = if j < p {
            j
        } else {
            j + 1
        };
        assert(after[i] == entries[oi]);
        assert(after[j] == entries[oj]);
    }
    let target = entries_map(entries).remove(gone);
    assert forall|k: Seq<u8>| entries_map(after).contains_key(k) <==> target.contains_key(k) by {
        if holds_key(after, k) {
            let i = index_of(after, k);
            let oi = if i < p {
                i
            } else {
                i + 1
            };
            assert(entries[oi].key@ == k);
            if oi < p {
                lemma_lex_asymmetric(entries[oi].key@, gone);
            } else {
                lemma_lex_asymmetric(gone, entries[oi].key@);
            }
        }
        if holds_key(entries, k) && k != gone {
            let i = index_of(entries, k);
            if i < p {
                assert(after[i].key@ == k);
            } else {
                assert(after[i - 1].key@ == k);
            }
        }
    }
    assert forall|k: Seq<u8>| entries_map(after).contains_key(k) implies entries_map(after)[k]
        == target[k] by {
        let i = index_of(after, k);
        lemma_entry_found(after, i);
        let oi = if i < p {
            i
        } else {
            i + 1
        };
        lemma_entry_found(entries, oi);
    }
    assert(entries_map(after) =~= target);
}

/// An ordered table of byte keys and byte values.
pub struct RecordStore {
    entries: Vec<Entry>,
}

impl View for RecordStore {
    type V = Map<Seq<u8>, Seq<u8>>;

    closed spec fn view(&self) -> Map<Seq<u8>, Seq<u8>> {
        entries_map(self.entries@)
    }
}

impl RecordStore {
    #[verifier::type_invariant]
    spec fn ordered(&self) -> bool {
        ascending(self.entries@)
    }

    /// An empty store.
    pub fn new() -> (store: RecordStore)
        ensures
            store@ == Map::<Seq<u8>, Seq<u8>>::empty(),
    {
        let store = RecordStore { entries: Vec::new() };
        assert(store@ =~= Map::<Seq<u8>, Seq<u8>>::empty());
        store
    }

    /// Where `key` stands among the entries: the index of its entry if it has
    /// one, else the index at which it would be inserted.
    fn locate(&self, key: &[u8]) -> (res: (usize, bool))
        ensures
            res.0 <= self.entries@.len(),
            res.1 ==> res.0 < self.entries@.len() && self.entries@[res.0 as int].key@ == key@,
            res.1 <==> self@.contains_key(key@),
            forall|i: int| 0 <= i < res.0 ==> lex_less(#[trigger] self.entries@[i].key@, key@),
            !res.1 ==> forall|i: int|
                res.0 <= i < self.entries@.len() ==> lex_less(
                    key@,
                    #[trigger] self.entries@[i].key@,
                ),
    {
        proof {
            use_type_invariant(self);
        }
        let mut i: usize = 0;
        while i < self.entries.len()
            invariant
                i <= self.entries@.len(),
                ascending(self.entries@),
                forall|j: int| 0 <= j < i ==> lex_less(#[trigger] self.entries@[j].key@, key@),
            decreases self.entries@.len() - i,
        {
            match rank(self.entries[i].key.as_slice(), key) {
                Rank::Before => {},
                Rank::Same => {
                    proof {
                        lemma_entry_found(self.entries@, i as int);
                    }
                    return (i, true);
                },
                Rank::After => {
                    proof {
                        self.lemma_absent(key@, i as int);
                    }
                    return (i, false);
                },
            }
            i += 1;
        }
        proof {
            self.lemma_absent(key@, i as int);
        }
        (i, false)
    }

    proof fn lemma_absent(&self, key: Seq<u8>, p: int)
        requires
            ascending(self.entries@),
            0 <= p <= self.entries@.len(),
            forall|j: int| 0 <= j < p ==> lex_less(#[trigger] self.entries@[j].key@, key),
            p < self.entries@.len() ==> lex_less(key, self.entries@[p].key@),
        ensures
            !self@.contains_key(key),
            forall|i: int|
                p <= i < self.entries@.len() ==> lex_less(key, #[trigger] self.entries@[i].key@),
    {
        assert forall|i: int| p <= i < self.entries@.len() implies lex_less(
            key,
            #[trigger] self.entries@[i].key@,
        ) by {
            if i > p {
                lemma_lex_transitive(key, self.entries@[p].key@, self.entries@[i].key@);
            }
        }
        if holds_key(self.entries@, key) {
            lemma_lex_irreflexive(key);
        }
    }

    /// Point lookup. An absent key is an ordinary outcome.
    pub fn get(&self, key: &[u8]) -> (value: Option<Vec<u8>>)
        ensures
            value is Some <==> self@.contains_key(key@),
            value matches Some(bytes) ==> bytes@ == self@[key@],
    {
        let (p, found) = self.locate(key);
        if found {
            proof {
                use_type_invariant(self);
                lemma_entry_found(self.entries@, p as int);
            }
            Some(copy_bytes(self.entries[p].value.as_slice()))
        } else {
            None
        }
    }

    /// Whether `key` is present.
    pub fn contains(&self, key: &[u8]) -> (present: bool)
        ensures
            present == self@.contains_key(key@),
    {
        let (_, found) = self.locate(key);
        found
    }

    /// Unconditional upsert: the last writer wins.
    pub fn put(&mut self, key: Vec<u8>, value: Vec<u8>)
        ensures
            final(self)@ == old(self)@.insert(key@, value@),
    {
        proof {
            use_type_invariant(&*self);
        }
        let (p, found) = self.locate(key.as_slice());
        let entry = Entry { key, value };
        let mut entries: Vec<Entry> = Vec::new();
        core::mem::swap(&mut self.entries, &mut entries);
        if found {
            proof {
                lemma_replace_entry(entries@, p as int, entry);
            }
            entries[p] = entry;
        } else {
            proof {
                lemma_insert_entry(entries@, p as int, entry);
            }
            entries.insert(p, entry);
        }
        core::mem::swap(&mut self.entries, &mut entries);
    }

    /// Unconditional delete: removing an absent key changes nothing.
    pub fn delete(&mut self, key: &[u8])
        ensures
            final(self)@ == old(self)@.remove(key@),
    {
        proof {
            use_type_invariant(&*self);
        }
        let (p, found) = self.locate(key);
        if found {
            let mut entries: Vec<Entry> = Vec::new();
            core::mem::swap(&mut self.entries, &mut entries);
            proof {
                lemma_remove_entry(entries@, p as int);
            }
            entries.remove(p);
            core::mem::swap(&mut self.entries, &mut entries);
        } else {
            assert(self@.remove(key@) =~= self@);
        }
    }

    /// All entries whose key begins with `anchor`, in ascending key order.
    pub fn scan_prefix(&self, anchor: &[u8]) -> (out: Vec<Entry>)
        ensures
            listing(out@) == scan_of(self@, anchor@),
            is_listing(listing(out@), self@, anchor@),
    {
        proof {
            use_type_invariant(self);
        }
        let mut out: Vec<Entry> = Vec::new();
        let ghost mut from: Seq<int> = Seq::empty();
        let mut i: usize = 0;
        while i < self.entries.len()
            invariant
                i <= self.entries@.len(),
                ascending(self.entries@),
                from.len() == out@.len(),
                forall|k: int|
                    0 <= k < out@.len() ==> {
                        &&& 0 <= #[trigger] from[k] < i
                        &&& out@[k].key@ == self.entries@[from[k]].key@
                        &&& out@[k].value@ == self.entries@[from[k]].value@
                        &&& anchor@.is_prefix_of(out@[k].key@)
                    },
                forall|k: int, l: int| 0 <= k < l < out@.len() ==> from[k] < from[l],
                forall|j: int|
                    0 <= j < i && anchor@.is_prefix_of(#[trigger] self.entries@[j].key@)
                        ==> holds_key(out@, self.entries@[j].key@),
            decreases self.entries@.len() - i,
        {
            let entry = &self.entries[i];
            if has_prefix(entry.key.as_slice(), anchor) {
                let ghost before = out@;
                out.push(
                    Entry {
                        key: copy_bytes(entry.key.as_slice()),
                        value: copy_bytes(entry.value.as_slice()),
                    },
                );
                proof {
                    from = from.push(i as int);
                    assert forall|j: int|
                        0 <= j < i + 1 && anchor@.is_prefix_of(
                            #[trigger] self.entries@[j].key@,
                        ) implies holds_key(out@, self.entries@[j].key@) by {
                        if j < i {
                            let k = choose|k: int|
                                0 <= k < before.len() && #[trigger] before[k].key@
                                    == self.entries@[j].key@;
                            assert(out@[k].key@ == self.entries@[j].key@);
                        } else {
                            assert(out@[out@.len() - 1].key@ == self.entries@[j].key@);
                        }
                    }
                }
            }
            i += 1;
        }
        proof {
            let found = listing(out@);
            assert forall|k: int| 0 <= k < found.len() implies {
                &&& anchor@.is_prefix_of((#[trigger] found[k]).0)
                &&& self@.contains_key(found[k].0)
                &&& self@[found[k].0] == found[k].1
            } by {
                lemma_entry_found(self.entries@, from[k]);
            }
            assert forall|k: Seq<u8>| #[trigger]
                self@.contains_key(k) && anchor@.is_prefix_of(k) implies lists_key(found, k) by {
                let j = index_of(self.entries@, k);
                assert(anchor@.is_prefix_of(self.entries@[j].key@));
                let at = choose|at: int| 0 <= at < out@.len() && #[trigger] out@[at].key@ == k;
                assert(found[at].0 == k);
            }
            assert forall|k: int, l: int| 0 <= k < l < found.len() implies lex_less(
                (#[trigger] found[k]).0,
                (#[trigger] found[l]).0,
            ) by {
                assert(from[k] < from[l]);
            }
            lemma_scan_of(found, self@, anchor@);
        }
        out
    }

    /// Makes the changes `writes`, in order.
    pub fn apply(&mut self, writes: &Vec<Write>)
        ensures
            final(self)@ == effect_of(changes(writes@), old(self)@),
    {
        let mut i: usize = 0;
        while i < writes.len()
            invariant
                i <= writes@.len(),
                self@ == effect_of(changes(writes@).take(i as int), old(self)@),
            decreases writes@.len() - i,
        {
            assert(changes(writes@).take(i + 1).drop_last() =~= changes(writes@).take(i as int));
            match &writes[i] {
                Write::Put { key, value } => {
                    self.put(copy_bytes(key.as_slice()), copy_bytes(value.as_slice()));
                },
                Write::Delete { key } => {
                    self.delete(key.as_slice());
                },
            }
            i += 1;
        }
        assert(changes(writes@).take(i as int) =~= changes(writes@));
    }

    /// How many entries the store holds.
    pub fn len(&self) -> (n: usize)
        ensures
            n == self@.dom().len(),
            self@.dom().finite(),
    {
        proof {
            use_type_invariant(self);
            lemma_entries_count(self.entries@);
        }
        self.entries.len()
    }

    /// A store holds finitely many keys, so that it has a scan at every
    /// anchor.
    pub proof fn law_finite(self, anchor: Seq<u8>)
        ensures
            self@.dom().finite(),
            is_listing(scan_of(self@, anchor), self@, anchor),
    {
        lemma_entries_finite(self.entries@);
        lemma_listing_exists(self@, anchor);
    }
}

proof fn lemma_entries_finite(entries: Seq<Entry>)
    ensures
        entries_map(entries).dom().finite(),
    decreases entries.len(),
{
    if entries.len() == 0 {
        assert(entries_map(entries).dom() =~= Set::<Seq<u8>>::empty());
    } else {
        let rest = entries.drop_last();
        lemma_entries_finite(rest);
        assert forall|k: Seq<u8>|
            entries_map(entries).dom().contains(k) <==> entries_map(rest).dom().insert(
                entries.last().key@,
            ).contains(k) by {
            if holds_key(entries, k) {
                let i = index_of(entries, k);
                if i < entries.len() - 1 {
                    assert(rest[i].key@ == k);
                }
            }
            if holds_key(rest, k) {
                let i = index_of(rest, k);
                assert(entries[i].key@ == k);
            }
            if k == entries.last().key@ {
                assert(entries[entries.len() - 1].key@ == k);
            }
        }
        assert(entries_map(entries).dom() =~= entries_map(rest).dom().insert(
            entries.last().key@,
        ));
    }
}

proof fn lemma_entries_count(entries: Seq<Entry>)
    requires
        ascending(entries),
    ensures
        entries_map(entries).dom().finite(),
        entries_map(entries).dom().len() == entries.len(),
    decreases entries.len(),
{
    if entries.len() == 0 {
        assert(entries_map(entries).dom() =~= Set::<Seq<u8>>::empty());
    } else {
        let p = entries.len() - 1;
        let rest = entries.remove(p);
        lemma_remove_entry(entries, p);
        lemma_entries_count(rest);
        lemma_entry_found(entries, p);
        assert(entries_map(entries).dom() =~= entries_map(rest).dom().insert(entries[p].key@));
        assert(!entries_map(rest).dom().contains(entries[p].key@));
    }
}

} // verus!

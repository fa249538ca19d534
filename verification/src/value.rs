//! The tree that a parse produces, and its mathematical model.

use vstd::prelude::*;
use vstd::string::StringSliceAdditionalSpecFns;

verus! {

/// The model of a parsed value: what a `Value` means, free of borrowing
/// and of the order in which a map's entries are stored.
pub enum Node {
    /// A text.
    Str(Seq<char>),
    /// A sequence of values.
    Array(Seq<Node>),
    /// A mapping from keys to values.
    Dict(Map<Seq<char>, Node>),
}

/// A key with the model of its value, as one pair of a map's text.
pub type Pair = (Seq<char>, Node);

/// The mapping that a sequence of pairs denotes: the pairs are written
/// into an empty map from left to right, so a later pair replaces an
/// earlier one with the same key.
pub open spec fn fold_pairs(pairs: Seq<Pair>) -> Map<Seq<char>, Node>
    decreases pairs.len(),
{
    if pairs.len() == 0 {
        Map::empty()
    } else {
        fold_pairs(pairs.drop_last()).insert(pairs.last().0, pairs.last().1)
    }
}

/// A parsed value. Text is borrowed from the input buffer.
#[derive(Debug)]
pub enum Value<'a> {
    /// The characters between two quotes.
    Str(&'a str),
    /// The elements of an array, in the order of the text.
    Array(Vec<Value<'a>>),
    /// The entries of a map, each key with its value. Where a key stands
    /// twice, its last entry counts; the parsers give each key once.
    Dict(Vec<(&'a str, Value<'a>)>),
}

impl<'a> View for Value<'a> {
    type V = Node;

    open spec fn view(&self) -> Node
        decreases self,
    {
        match self {
            Value::Str(text) => Node::Str(text@),
            Value::Array(items) => Node::Array(nodes_of(items@)),
            Value::Dict(entries) => Node::Dict(fold_pairs(pairs_of(entries@))),
        }
    }
}

/// The models of the values in `items`, in their order.
pub open spec fn nodes_of(items: Seq<Value>) -> Seq<Node>
    decreases items,
{
    Seq::new(
        items.len(),
        |i: int|
            if 0 <= i < items.len() {
                items[i]@
            } else {
                Node::Str(Seq::empty())
            },
    )
}

/// The keys in `entries`, each with the model of its value, in their
/// order.
pub open spec fn pairs_of(entries: Seq<(&str, Value)>) -> Seq<Pair>
    decreases entries,
{
    Seq::new(
        entries.len(),
        |i: int|
            if 0 <= i < entries.len() {
                (entries[i].0@, entries[i].1@)
            } else {
                (Seq::empty(), Node::Str(Seq::empty()))
            },
    )
}

/// No key stands twice in `pairs`.
pub open spec fn distinct_keys(pairs: Seq<Pair>) -> bool {
    forall|i: int, j: int| 0 <= i < j < pairs.len() ==> pairs[i].0 != pairs[j].0
}

impl<'a> Value<'a> {
    /// The invariant of a value: no map in it, at any depth, holds a key
    /// twice.
    pub open spec fn wf(&self) -> bool
        decreases self,
    {
        match self {
            Value::Str(_) => true,
            Value::Array(items) => all_wf(items@),
            Value::Dict(entries) => entries_wf(entries@),
        }
    }
}

/// Every value in `items` is well formed.
pub open spec fn all_wf(items: Seq<Value>) -> bool
    decreases items,
{
    forall|i: int| 0 <= i < items.len() ==> (#[trigger] items[i]).wf()
}

/// The invariant of the entries of a map: every value is well formed and
/// no key stands twice.
pub open spec fn entries_wf(entries: Seq<(&str, Value)>) -> bool
    decreases entries,
{
    &&& forall|i: int| 0 <= i < entries.len() ==> (#[trigger] entries[i]).1.wf()
    &&& distinct_keys(pairs_of(entries))
}

/// Some pair of `pairs` has the key `key`.
pub open spec fn has_key(pairs: Seq<Pair>, key: Seq<char>) -> bool {
    exists|i: int| 0 <= i < pairs.len() && (#[trigger] pairs[i]).0 == key
}

/// The pair at `i` is the last of `pairs` with its key.
pub open spec fn is_last_of_key(pairs: Seq<Pair>, i: int) -> bool {
    &&& 0 <= i < pairs.len()
    &&& forall|j: int| i < j < pairs.len() ==> (#[trigger] pairs[j]).0 != pairs[i].0
}

/// The keys of the mapping that `pairs` denotes are the keys that stand
/// in `pairs`.
pub proof fn lemma_fold_pairs_keys(pairs: Seq<Pair>)
    ensures
        forall|key: Seq<char>| #[trigger]
            fold_pairs(pairs).contains_key(key) <==> has_key(pairs, key),
    decreases pairs.len(),
{
    if pairs.len() > 0 {
        let front = pairs.drop_last();
        lemma_fold_pairs_keys(front);
        assert forall|key: Seq<char>| #[trigger]
            fold_pairs(pairs).contains_key(key) <==> has_key(pairs, key) by {
            assert(fold_pairs(front).contains_key(key) <==> has_key(front, key));
            if has_key(front, key) {
                let i = choose|i: int| 0 <= i < front.len() && (#[trigger] front[i]).0 == key;
                assert(pairs[i].0 == key);
            }
            if key == pairs.last().0 {
                assert(pairs[pairs.len() - 1].0 == key);
            }
            if has_key(pairs, key) && key != pairs.last().0 {
                let i = choose|i: int| 0 <= i < pairs.len() && (#[trigger] pairs[i]).0 == key;
                assert(front[i].0 == key);
            }
        }
    }
}

/// In the mapping that `pairs` denotes, a key has the value of the last
/// pair that holds it.
pub proof fn lemma_fold_pairs_last(pairs: Seq<Pair>, i: int)
    requires
        is_last_of_key(pairs, i),
    ensures
        fold_pairs(pairs).contains_key(pairs[i].0),
        fold_pairs(pairs)[pairs[i].0] == pairs[i].1,
    decreases pairs.len(),
{
    if i < pairs.len() - 1 {
        let front = pairs.drop_last();
        assert(pairs[pairs.len() - 1].0 != pairs[i].0);
        assert forall|j: int| i < j < front.len() implies (#[trigger] front[j]).0
            != front[i].0 by {
            assert(pairs[j].0 != pairs[i].0);
        }
        lemma_fold_pairs_last(front, i);
    }
}

/// Writing a pair behind `pairs` writes it into the mapping.
pub proof fn lemma_fold_pairs_push(pairs: Seq<Pair>, pair: Pair)
    ensures
        fold_pairs(pairs.push(pair)) == fold_pairs(pairs).insert(pair.0, pair.1),
{
    assert(pairs.push(pair).drop_last() =~= pairs);
}

/// Where no key stands twice, replacing the value of a pair writes the
/// new value into the mapping, and still no key stands twice.
pub proof fn lemma_fold_pairs_update(pairs: Seq<Pair>, i: int, node: Node)
    requires
        distinct_keys(pairs),
        0 <= i < pairs.len(),
    ensures
        distinct_keys(pairs.update(i, (pairs[i].0, node))),
        fold_pairs(pairs.update(i, (pairs[i].0, node))) == fold_pairs(pairs).insert(
            pairs[i].0,
            node,
        ),
{
    let key = pairs[i].0;
    let after = pairs.update(i, (key, node));
    let want = fold_pairs(pairs).insert(key, node);
    lemma_fold_pairs_keys(pairs);
    lemma_fold_pairs_keys(after);
    assert forall|k: Seq<char>| fold_pairs(after).contains_key(k) == want.contains_key(k) by {
        if has_key(after, k) {
            let j = choose|j: int| 0 <= j < after.len() && (#[trigger] after[j]).0 == k;
            assert(pairs[j].0 == k);
        }
        if has_key(pairs, k) {
            let j = choose|j: int| 0 <= j < pairs.len() && (#[trigger] pairs[j]).0 == k;
            assert(after[j].0 == k);
        }
        if k == key {
            assert(after[i].0 == k);
        }
    }
    assert forall|k: Seq<char>| fold_pairs(after).contains_key(k) implies fold_pairs(after)[k]
        == want[k] by {
        let j = choose|j: int| 0 <= j < after.len() && (#[trigger] after[j]).0 == k;
        assert(is_last_of_key(after, j));
        lemma_fold_pairs_last(after, j);
        if j != i {
            assert(is_last_of_key(pairs, j));
            lemma_fold_pairs_last(pairs, j);
        }
    }
    assert(fold_pairs(after) =~= want);
}

/// Whether two texts hold the same characters.
pub fn same_text(a: &str, b: &str) -> (r: bool)
    ensures
        r == (a@ == b@),
{
    broadcast use vstd::utf8::encode_utf8_decode_utf8;

    let x = a.as_bytes();
    let y = b.as_bytes();
    if x.len() != y.len() {
        return false;
    }
    let mut i: usize = 0;
    while i < x.len()
        invariant
            i <= x@.len(),
            x@.len() == y@.len(),
            x@ == a.spec_bytes(),
            y@ == b.spec_bytes(),
            forall|j: int| 0 <= j < i ==> x@[j] == y@[j],
        decreases x@.len() - i,
    {
        if x[i] != y[i] {
            return false;
        }
        i += 1;
    }
    assert(x@ =~= y@);
    assert(vstd::utf8::decode_utf8(a.spec_bytes()) == a@);
    assert(vstd::utf8::decode_utf8(b.spec_bytes()) == b@);
    true
}

/// Writes an entry into the entries of a map: the value of an entry with
/// the same key is replaced, and a new key is added at the end.
pub fn put_entry<'a>(entries: &mut Vec<(&'a str, Value<'a>)>, key: &'a str, value: Value<'a>)
    requires
        entries_wf(old(entries)@),
        value.wf(),
    ensures
        entries_wf(final(entries)@),
        fold_pairs(pairs_of(final(entries)@)) == fold_pairs(pairs_of(old(entries)@)).insert(
            key@,
            value@,
        ),
{
    let ghost before = entries@;
    let mut i: usize = 0;
    while i < entries.len()
        invariant
            i <= entries@.len(),
            entries@ == before,
            before == old(entries)@,
            entries_wf(before),
            value.wf(),
            forall|j: int| 0 <= j < i ==> before[j].0@ != key@,
        decreases entries@.len() - i,
    {
        if same_text(entries[i].0, key) {
            proof {
                lemma_fold_pairs_update(pairs_of(before), i as int, value@);
                assert(pairs_of(before.update(i as int, (key, value))) =~= pairs_of(
                    before,
                ).update(i as int, (key@, value@)));
            }
            entries.set(i, (key, value));
            return ;
        }
        i += 1;
    }
    proof {
        lemma_fold_pairs_push(pairs_of(before), (key@, value@));
        assert(pairs_of(before.push((key, value))) =~= pairs_of(before).push((key@, value@)));
    }
    entries.push((key, value));
}

/// The index of the last entry with the key `key`, if there is one.
pub fn find_last<'a>(entries: &Vec<(&'a str, Value<'a>)>, key: &str) -> (r: Option<usize>)
    ensures
        match r {
            Some(i) => is_last_of_key(pairs_of(entries@), i as int) && entries@[i as int].0@
                == key@,
            None => !has_key(pairs_of(entries@), key@),
        },
{
    let mut i = entries.len();
    while i > 0
        invariant
            i <= entries@.len(),
            forall|j: int| i <= j < entries@.len() ==> entries@[j].0@ != key@,
        decreases i,
    {
        i -= 1;
        if same_text(entries[i].0, key) {
            assert(pairs_of(entries@)[i as int].0 == key@);
            assert forall|j: int| i < j < entries@.len() implies (#[trigger] pairs_of(
                entries@,
            )[j]).0 != pairs_of(entries@)[i as int].0 by {
                assert(entries@[j].0@ != key@);
            }
            return Some(i);
        }
    }
    assert forall|j: int| 0 <= j < entries@.len() implies (#[trigger] pairs_of(entries@)[j]).0
        != key@ by {
        assert(entries@[j].0@ != key@);
    }
    None
}

impl<'a> Value<'a> {
    /// The value that a map holds for `key`. A value that is no map holds
    /// nothing.
    pub fn get(&self, key: &str) -> (r: Option<&Value<'a>>)
        ensures
            match self@ {
                Node::Dict(m) => match r {
                    Some(value) => m.contains_key(key@) && m[key@] == value@,
                    None => !m.contains_key(key@),
                },
                _ => r is None,
            },
            self.wf() ==> match r {
                Some(value) => value.wf(),
                None => true,
            },
    {
        match self {
            Value::Dict(entries) => {
                proof {
                    lemma_fold_pairs_keys(pairs_of(entries@));
                }
                match find_last(entries, key) {
                    Some(i) => {
                        proof {
                            lemma_fold_pairs_last(pairs_of(entries@), i as int);
                        }
                        Some(&entries[i].1)
                    },
                    None => None,
                }
            },
            _ => None,
        }
    }
}

/// Whether two sequences of values have the same models, in the same
/// order.
fn same_items<'a, 'b>(a: &Vec<Value<'a>>, b: &Vec<Value<'b>>) -> (r: bool)
    ensures
        r == (nodes_of(a@) == nodes_of(b@)),
    decreases a, 0nat,
{
    if a.len() != b.len() {
        assert(nodes_of(a@).len() != nodes_of(b@).len());
        return false;
    }
    let mut i: usize = 0;
    while i < a.len()
        invariant
            i <= a@.len(),
            a@.len() == b@.len(),
            forall|j: int| 0 <= j < i ==> a@[j]@ == b@[j]@,
        decreases a@.len() - i,
    {
        if !a[i].same(&b[i]) {
            assert(nodes_of(a@)[i as int] != nodes_of(b@)[i as int]);
            return false;
        }
        i += 1;
    }
    assert(nodes_of(a@) =~= nodes_of(b@));
    true
}

/// Whether every key of `a` has a value in `b` with the same model as
/// its value in `a`.
fn covered<'a, 'b>(a: &Vec<(&'a str, Value<'a>)>, b: &Vec<(&'b str, Value<'b>)>) -> (r: bool)
    ensures
        r == fold_pairs(pairs_of(a@)).submap_of(fold_pairs(pairs_of(b@))),
    decreases a, 0nat,
{
    let ghost ma = fold_pairs(pairs_of(a@));
    let ghost mb = fold_pairs(pairs_of(b@));
    proof {
        lemma_fold_pairs_keys(pairs_of(a@));
        lemma_fold_pairs_keys(pairs_of(b@));
    }
    let mut i: usize = 0;
    while i < a.len()
        invariant
            i <= a@.len(),
            ma == fold_pairs(pairs_of(a@)),
            mb == fold_pairs(pairs_of(b@)),
            forall|key: Seq<char>| #[trigger] ma.contains_key(key) <==> has_key(pairs_of(a@), key),
            forall|key: Seq<char>| #[trigger] mb.contains_key(key) <==> has_key(pairs_of(b@), key),
            forall|j: int|
                0 <= j < i ==> mb.contains_key((#[trigger] pairs_of(a@)[j]).0) && mb[pairs_of(
                    a@,
                )[j].0] == ma[pairs_of(a@)[j].0],
        decreases a@.len() - i,
    {
        let key = a[i].0;
        assert(pairs_of(a@)[i as int].0 == key@);
        match find_last(a, key) {
            None => {
                assert(has_key(pairs_of(a@), key@));
                return false;
            },
            Some(j) => match find_last(b, key) {
                None => {
                    assert(ma.contains_key(key@) && !mb.contains_key(key@));
                    return false;
                },
                Some(k) => {
                    proof {
                        lemma_fold_pairs_last(pairs_of(a@), j as int);
                        lemma_fold_pairs_last(pairs_of(b@), k as int);
                        assert(pairs_of(a@)[j as int].0 == key@);
                        assert(pairs_of(b@)[k as int].0 == key@);
                    }
                    if !a[j].1.same(&b[k].1) {
                        assert(ma[key@] != mb[key@]);
                        return false;
                    }
                },
            },
        }
        i += 1;
    }
    proof {
        assert forall|key: Seq<char>| #[trigger] ma.contains_key(key) implies mb.contains_key(key)
            && ma[key] == mb[key] by {
            let j = choose|j: int|
                0 <= j < pairs_of(a@).len() && (#[trigger] pairs_of(a@)[j]).0 == key;
            assert(mb.contains_key(pairs_of(a@)[j].0));
        }
    }
    true
}

impl<'a> Value<'a> {
    /// Whether two values have the same model: the same text, the same
    /// items in the same order, or the same keys with the same values.
    pub fn same<'b>(&self, other: &Value<'b>) -> (r: bool)
        ensures
            r == (self@ == other@),
        decreases self, 1nat,
    {
        match self {
            Value::Str(a) => match other {
                Value::Str(b) => same_text(a, b),
                _ => false,
            },
            Value::Array(a) => match other {
                Value::Array(b) => same_items(a, b),
                _ => false,
            },
            Value::Dict(a) => match other {
                Value::Dict(b) => {
                    let forth = covered(a, b);
                    let back = forth && keys_within(b, a);
                    proof {
                        let ma = fold_pairs(pairs_of(a@));
                        let mb = fold_pairs(pairs_of(b@));
                        if back {
                            assert forall|key: Seq<char>| ma.contains_key(key) == mb.contains_key(
                                key,
                            ) by {
                                if mb.contains_key(key) {
                                    assert(mb.dom().contains(key));
                                }
                            }
                            assert(ma =~= mb);
                        }
                    }
                    back
                },
                _ => false,
            },
        }
    }
}

/// Whether every key of `a` is a key of `b`.
fn keys_within<'a, 'b>(a: &Vec<(&'a str, Value<'a>)>, b: &Vec<(&'b str, Value<'b>)>) -> (r: bool)
    ensures
        r == fold_pairs(pairs_of(a@)).dom().subset_of(fold_pairs(pairs_of(b@)).dom()),
{
    let ghost ma = fold_pairs(pairs_of(a@));
    let ghost mb = fold_pairs(pairs_of(b@));
    proof {
        lemma_fold_pairs_keys(pairs_of(a@));
        lemma_fold_pairs_keys(pairs_of(b@));
    }
    let mut i: usize = 0;
    while i < a.len()
        invariant
            i <= a@.len(),
            ma == fold_pairs(pairs_of(a@)),
            mb == fold_pairs(pairs_of(b@)),
            forall|key: Seq<char>| #[trigger] ma.contains_key(key) <==> has_key(pairs_of(a@), key),
            forall|key: Seq<char>| #[trigger] mb.contains_key(key) <==> has_key(pairs_of(b@), key),
            forall|j: int| 0 <= j < i ==> mb.contains_key((#[trigger] pairs_of(a@)[j]).0),
        decreases a@.len() - i,
    {
        assert(pairs_of(a@)[i as int].0 == a@[i as int].0@);
        if find_last(b, a[i].0).is_none() {
            assert(ma.contains_key(a@[i as int].0@));
            return false;
        }
        i += 1;
    }
    proof {
        assert forall|key: Seq<char>| #[trigger] ma.contains_key(key) implies mb.contains_key(
            key,
        ) by {
            let j = choose|j: int|
                0 <= j < pairs_of(a@).len() && (#[trigger] pairs_of(a@)[j]).0 == key;
            assert(mb.contains_key(pairs_of(a@)[j].0));
        }
    }
    true
}

impl<'a> PartialEq for Value<'a> {
    /// Two values are equal when they have the same model.
    fn eq(&self, other: &Value<'a>) -> (r: bool) {
        self.same(other)
    }
}

impl<'a> vstd::std_specs::cmp::PartialEqSpecImpl for Value<'a> {
    open spec fn obeys_eq_spec() -> bool {
        true
    }

    open spec fn eq_spec(&self, other: &Value<'a>) -> bool {
        self@ == other@
    }
}

} // verus!

//! `Trie` and `MultiTrie`: prefix trees whose nodes are as wide as the
//! character set in use.
//!
//! Both are seen through the keys of their strings (`key_of`: the slot of each
//! character). On strings whose characters the character set supports, keys and
//! strings determine each other (`lemma_key_injective`).
use vstd::prelude::*;

pub mod charset;
pub mod internal;
pub mod member;

pub use self::charset::CharSet;
use self::charset::{key_of, lemma_key_injective, supported};
use self::internal::_Trie;

verus! {

/// A set of strings.
pub struct Trie<C> {
    internal: _Trie<bool, C>,
}

impl<C: CharSet> View for Trie<C> {
    type V = Set<Seq<nat>>;

    /// The keys of the strings added so far.
    closed spec fn view(&self) -> Set<Seq<nat>> {
        Set::new(|k: Seq<nat>| self.internal.lookup(k))
    }
}

impl<C: CharSet> Trie<C> {
    /// The trie is well formed.
    pub closed spec fn wf(&self) -> bool {
        self.internal.wf()
    }

    /// Creates an empty trie.
    pub fn new() -> (r: Self)
        ensures
            r.wf(),
            r@ == Set::<Seq<nat>>::empty(),
    {
        let r = Trie { internal: _Trie::new() };
        assert(r@ =~= Set::<Seq<nat>>::empty());
        r
    }

    /// Adds a string. Returns `true` if the trie did not hold it before.
    pub fn add(&mut self, s: &str) -> (r: bool)
        requires
            old(self).wf(),
        ensures
            final(self).wf(),
            r == !old(self)@.contains(key_of::<C>(s@)),
            final(self)@ == old(self)@.insert(key_of::<C>(s@)),
    {
        let r = self.internal.add(s);
        assert(self@ =~= old(self)@.insert(key_of::<C>(s@)));
        r
    }

    /// Whether the trie holds the string.
    pub fn contains(&self, s: &str) -> (r: bool)
        requires
            self.wf(),
        ensures
            r == self@.contains(key_of::<C>(s@)),
    {
        self.internal.contains(s)
    }
}

/// A multiset of strings.
pub struct MultiTrie<C> {
    internal: _Trie<u32, C>,
}

impl<C: CharSet> View for MultiTrie<C> {
    type V = Map<Seq<nat>, nat>;

    /// For every key, the number of times a string with that key was added.
    closed spec fn view(&self) -> Map<Seq<nat>, nat> {
        Map::new(|k: Seq<nat>| true, |k: Seq<nat>| self.internal.lookup(k) as nat)
    }
}

/// Every key counted zero times.
pub open spec fn no_counts() -> Map<Seq<nat>, nat> {
    Map::new(|k: Seq<nat>| true, |k: Seq<nat>| 0nat)
}

/// The counts after one more occurrence of `k`. A count stops at `u32::MAX`.
pub open spec fn bump(m: Map<Seq<nat>, nat>, k: Seq<nat>) -> Map<Seq<nat>, nat> {
    if m[k] < u32::MAX {
        m.insert(k, m[k] + 1)
    } else {
        m
    }
}

impl<C: CharSet> MultiTrie<C> {
    /// The trie is well formed.
    pub closed spec fn wf(&self) -> bool {
        self.internal.wf()
    }

    /// Creates an empty trie.
    pub fn new() -> (r: Self)
        ensures
            r.wf(),
            r@ == no_counts(),
    {
        let r = MultiTrie { internal: _Trie::new() };
        assert(r@ =~= no_counts());
        r
    }

    /// Adds one more occurrence of a string. Returns `true` if it is the first.
    pub fn add(&mut self, s: &str) -> (r: bool)
        requires
            old(self).wf(),
        ensures
            final(self).wf(),
            r == (old(self)@[key_of::<C>(s@)] == 0),
            final(self)@ == bump(old(self)@, key_of::<C>(s@)),
    {
        let r = self.internal.add(s);
        assert(self@ =~= bump(old(self)@, key_of::<C>(s@)));
        r
    }

    /// Whether the string was added at least once.
    pub fn contains(&self, s: &str) -> (r: bool)
        requires
            self.wf(),
        ensures
            r == (self@[key_of::<C>(s@)] > 0),
    {
        self.internal.contains(s)
    }

    /// The number of times the string was added.
    pub fn count(&self, s: &str) -> (r: u32)
        requires
            self.wf(),
        ensures
            r == self@[key_of::<C>(s@)],
    {
        self.internal.count(s)
    }
}

/// The keys of a run of strings.
pub open spec fn keys_of<C: CharSet>(ss: Seq<Seq<char>>) -> Seq<Seq<nat>> {
    ss.map_values(|s: Seq<char>| key_of::<C>(s))
}

/// What a `Trie` holds after the keys `ks` were added, in order, to an empty one.
pub open spec fn keys_after(ks: Seq<Seq<nat>>) -> Set<Seq<nat>>
    decreases ks.len(),
{
    if ks.len() == 0 {
        Set::empty()
    } else {
        keys_after(ks.drop_last()).insert(ks.last())
    }
}

/// What a `MultiTrie` counts after the keys `ks` were added, in order, to an empty one.
pub open spec fn counts_after(ks: Seq<Seq<nat>>) -> Map<Seq<nat>, nat>
    decreases ks.len(),
{
    if ks.len() == 0 {
        no_counts()
    } else {
        bump(counts_after(ks.drop_last()), ks.last())
    }
}

/// The counts after `n` more occurrences of `k`.
pub open spec fn bump_n(m: Map<Seq<nat>, nat>, k: Seq<nat>, n: nat) -> Map<Seq<nat>, nat>
    decreases n,
{
    if n == 0 {
        m
    } else {
        bump(bump_n(m, k, (n - 1) as nat), k)
    }
}

/// A trie that was just created holds no string: neither flavour contains it, and
/// the counting one counts it zero times.
pub proof fn lemma_new_holds_nothing<C: CharSet>(s: Seq<char>)
    ensures
        !Set::<Seq<nat>>::empty().contains(key_of::<C>(s)),
        no_counts()[key_of::<C>(s)] == 0,
{
}

/// Right after a string is added, the trie contains it (in the counting flavour:
/// counts it at least once).
pub proof fn lemma_added_is_contained<C: CharSet>(
    v: Set<Seq<nat>>,
    m: Map<Seq<nat>, nat>,
    s: Seq<char>,
)
    ensures
        v.insert(key_of::<C>(s)).contains(key_of::<C>(s)),
        bump(m, key_of::<C>(s))[key_of::<C>(s)] > 0,
{
}

/// A key is in what a run of adds leaves iff the run added it.
proof fn lemma_keys_after_contains(ks: Seq<Seq<nat>>, k: Seq<nat>)
    ensures
        keys_after(ks).contains(k) <==> ks.contains(k),
    decreases ks.len(),
{
    if ks.len() > 0 {
        lemma_keys_after_contains(ks.drop_last(), k);
        if ks.drop_last().contains(k) {
            let j = choose|j: int| 0 <= j < ks.drop_last().len() && ks.drop_last()[j] == k;
            assert(ks[j] == k);
        }
        if ks.contains(k) && k != ks.last() {
            let j = choose|j: int| 0 <= j < ks.len() && ks[j] == k;
            assert(ks.drop_last()[j] == k);
        }
        if k == ks.last() {
            assert(ks[ks.len() - 1] == k);
        }
    }
}

/// Among strings that the character set supports, `Trie::add` returns `true` exactly
/// on the first add of each string: in a run of adds to a new trie, the add of
/// `ss[i]` finds its key absent iff no earlier add was of the same string.
pub proof fn lemma_add_true_once<C: CharSet>(ss: Seq<Seq<char>>, i: int)
    requires
        0 <= i < ss.len(),
        forall|j: int| 0 <= j < ss.len() ==> supported::<C>(#[trigger] ss[j]),
    ensures
        !keys_after(keys_of::<C>(ss.take(i))).contains(key_of::<C>(ss[i])) <==> !ss.take(i).contains(
            ss[i],
        ),
{
    let ks = keys_of::<C>(ss.take(i));
    lemma_keys_after_contains(ks, key_of::<C>(ss[i]));
    if ks.contains(key_of::<C>(ss[i])) {
        let j = choose|j: int| 0 <= j < ks.len() && ks[j] == key_of::<C>(ss[i]);
        assert(ss.take(i)[j] == ss[j]);
        lemma_key_injective::<C>(ss[j], ss[i]);
        assert(ss.take(i)[j] == ss[i]);
    }
    if ss.take(i).contains(ss[i]) {
        let j = choose|j: int| 0 <= j < ss.take(i).len() && ss.take(i)[j] == ss[i];
        assert(ks[j] == key_of::<C>(ss[i]));
    }
}

/// After `n` adds of one string to a new `MultiTrie`, its count is `n` (up to the
/// counter's limit); so the next add returns `true` iff `n` is 0, i.e. only the first
/// add of a string returns `true`.
pub proof fn lemma_count_after_repeats<C: CharSet>(s: Seq<char>, n: nat)
    requires
        n <= u32::MAX,
    ensures
        bump_n(no_counts(), key_of::<C>(s), n)[key_of::<C>(s)] == n,
        (bump_n(no_counts(), key_of::<C>(s), n)[key_of::<C>(s)] == 0) <==> n == 0,
    decreases n,
{
    if n > 0 {
        lemma_count_after_repeats::<C>(s, (n - 1) as nat);
    }
}

/// Adding a string does not add its strict prefixes: a prefix that was not held
/// before is still not held (in the counting flavour: still counted zero times).
pub proof fn lemma_prefix_not_added<C: CharSet>(
    v: Set<Seq<nat>>,
    m: Map<Seq<nat>, nat>,
    s: Seq<char>,
    t: Seq<char>,
)
    requires
        t.len() < s.len(),
        t == s.take(t.len() as int),
    ensures
        !v.contains(key_of::<C>(t)) ==> !v.insert(key_of::<C>(s)).contains(key_of::<C>(t)),
        m[key_of::<C>(t)] == 0 ==> bump(m, key_of::<C>(s))[key_of::<C>(t)] == 0,
{
    assert(key_of::<C>(t).len() != key_of::<C>(s).len());
}

/// A supported string that a run of adds never added is counted zero times, whether
/// or not it is a prefix of a string that was added.
pub proof fn lemma_never_added_counts_zero<C: CharSet>(ss: Seq<Seq<char>>, t: Seq<char>)
    requires
        forall|j: int| 0 <= j < ss.len() ==> supported::<C>(#[trigger] ss[j]),
        supported::<C>(t),
        !ss.contains(t),
    ensures
        counts_after(keys_of::<C>(ss))[key_of::<C>(t)] == 0,
    decreases ss.len(),
{
    if ss.len() > 0 {
        let rest = ss.drop_last();
        assert(!rest.contains(t)) by {
            if rest.contains(t) {
                let j = choose|j: int| 0 <= j < rest.len() && rest[j] == t;
                assert(ss[j] == t);
            }
        }
        lemma_never_added_counts_zero::<C>(rest, t);
        assert(keys_of::<C>(ss).drop_last() =~= keys_of::<C>(rest));
        assert(ss[ss.len() - 1] != t);
        if key_of::<C>(ss.last()) == key_of::<C>(t) {
            lemma_key_injective::<C>(ss.last(), t);
        }
    }
}

/// The empty string's key is the empty key, the root's own: adding it changes what
/// is recorded for it and for no other string.
pub proof fn lemma_empty_string_is_root<C: CharSet>(
    v: Set<Seq<nat>>,
    m: Map<Seq<nat>, nat>,
    k: Seq<nat>,
)
    requires
        k.len() > 0,
    ensures
        key_of::<C>(Seq::empty()) == Seq::<nat>::empty(),
        v.insert(key_of::<C>(Seq::empty())).contains(key_of::<C>(Seq::empty())),
        v.insert(key_of::<C>(Seq::empty())).contains(k) == v.contains(k),
        m[Seq::<nat>::empty()] < u32::MAX ==> bump(m, key_of::<C>(Seq::empty()))[Seq::<nat>::empty()]
            == m[Seq::<nat>::empty()] + 1,
        bump(m, key_of::<C>(Seq::empty()))[k] == m[k],
{
    assert(key_of::<C>(Seq::empty()) =~= Seq::<nat>::empty());
}

} // verus!

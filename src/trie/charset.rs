//! Character sets: how the characters of a string map onto the child slots of a node.
use vstd::prelude::*;

verus! {

/// A character set that a trie is laid out for.
///
/// `map` is total: every character gets a slot below `SIZE`. On the characters the set
/// supports it is one to one, and `unmap` takes a slot back to its character. What
/// `map` does with a character outside the set is up to the implementation (a shared
/// overflow slot, or the nearest slot), as long as it stays in range.
pub trait CharSet {
    /// Number of slots, one per character of the set.
    const SIZE: usize;

    /// The characters on which `map` and `unmap` are inverse to each other.
    spec fn supports(ch: char) -> bool;

    /// The slot that `map` gives to `ch`.
    spec fn index_of(ch: char) -> nat;

    /// The character that `unmap` gives for slot `hash`.
    spec fn char_at(hash: nat) -> char;

    /// Maps a character to its slot.
    fn map(ch: char) -> (r: usize)
        ensures
            r as nat == Self::index_of(ch),
            r < Self::SIZE,
    ;

    /// Maps a slot back to its character.
    fn unmap(hash: usize) -> (r: char)
        requires
            hash < Self::SIZE,
        ensures
            r == Self::char_at(hash as nat),
    ;

    /// `unmap` undoes `map` on every supported character.
    proof fn lemma_unmap_map(ch: char)
        requires
            Self::supports(ch),
        ensures
            Self::index_of(ch) < Self::SIZE,
            Self::char_at(Self::index_of(ch)) == ch,
    ;

    /// `map` undoes `unmap`: every slot belongs to exactly one supported character.
    proof fn lemma_map_unmap(hash: nat)
        requires
            hash < Self::SIZE,
        ensures
            Self::supports(Self::char_at(hash)),
            Self::index_of(Self::char_at(hash)) == hash,
    ;
}

/// The slots that a string walks through, one per character.
pub open spec fn key_of<C: CharSet>(s: Seq<char>) -> Seq<nat> {
    s.map_values(|ch: char| C::index_of(ch))
}

/// Every character of `s` is supported by `C`.
pub open spec fn supported<C: CharSet>(s: Seq<char>) -> bool {
    forall|i: int| 0 <= i < s.len() ==> #[trigger] C::supports(s[i])
}

/// On supported strings a key determines its string: two of them with one key are equal.
pub proof fn lemma_key_injective<C: CharSet>(s: Seq<char>, t: Seq<char>)
    requires
        supported::<C>(s),
        supported::<C>(t),
        key_of::<C>(s) == key_of::<C>(t),
    ensures
        s == t,
{
    assert(s.len() == key_of::<C>(s).len());
    assert(t.len() == key_of::<C>(t).len());
    assert forall|i: int| 0 <= i < s.len() implies s[i] == t[i] by {
        assert(key_of::<C>(s)[i] == C::index_of(s[i]));
        assert(key_of::<C>(t)[i] == C::index_of(t[i]));
        assert(C::supports(s[i]) && C::supports(t[i]));
        C::lemma_unmap_map(s[i]);
        C::lemma_unmap_map(t[i]);
    }
    assert(s =~= t);
}

/// Set of ASCII lowercase letters. Any other character goes to the nearer end:
/// those below `'a'` to the slot of `'a'`, those above `'z'` to the slot of `'z'`.
pub struct LowerCase();

impl CharSet for LowerCase {
    const SIZE: usize = 26;

    open spec fn supports(ch: char) -> bool {
        'a' <= ch <= 'z'
    }

    open spec fn index_of(ch: char) -> nat {
        if 'a' > ch {
            0
        } else if ch > 'z' {
            25
        } else {
            (ch as nat - 'a' as nat) as nat
        }
    }

    open spec fn char_at(hash: nat) -> char {
        ('a' as nat + hash) as char
    }

    fn map(ch: char) -> (r: usize) {
        if 'a' > ch {
            0
        } else if ch > 'z' {
            25
        } else {
            ch as usize - 'a' as usize
        }
    }

    fn unmap(hash: usize) -> (r: char) {
        ('a' as u8 + hash as u8) as char
    }

    proof fn lemma_unmap_map(ch: char) {
    }

    proof fn lemma_map_unmap(hash: nat) {
    }
}

/// `LowerCase` has 26 slots.
pub proof fn lemma_lower_case_size()
    ensures
        LowerCase::SIZE == 26,
{
}

/// Set of ASCII uppercase letters. Any other character goes to the nearer end:
/// those below `'A'` to the slot of `'A'`, those above `'Z'` to the slot of `'Z'`.
pub struct UpperCase();

impl CharSet for UpperCase {
    const SIZE: usize = 26;

    open spec fn supports(ch: char) -> bool {
        'A' <= ch <= 'Z'
    }

    open spec fn index_of(ch: char) -> nat {
        if 'A' > ch {
            0
        } else if ch > 'Z' {
            25
        } else {
            (ch as nat - 'A' as nat) as nat
        }
    }

    open spec fn char_at(hash: nat) -> char {
        ('A' as nat + hash) as char
    }

    fn map(ch: char) -> (r: usize) {
        if 'A' > ch {
            0
        } else if ch > 'Z' {
            25
        } else {
            ch as usize - 'A' as usize
        }
    }

    fn unmap(hash: usize) -> (r: char) {
        ('A' as u8 + hash as u8) as char
    }

    proof fn lemma_unmap_map(ch: char) {
    }

    proof fn lemma_map_unmap(hash: nat) {
    }
}

/// `UpperCase` has 26 slots.
pub proof fn lemma_upper_case_size()
    ensures
        UpperCase::SIZE == 26,
{
}

/// A `char` is a code point, which lies between 0 and 0x10FFFF.
proof fn lemma_char_bounds(ch: char)
    ensures
        0 <= ch as int <= 0x10FFFF,
{
}

/// Set of the characters that fit in one byte (ASCII and Latin-1), each its own slot.
/// Any wider character goes to the last slot.
pub struct Ascii();

impl CharSet for Ascii {
    const SIZE: usize = 256;

    open spec fn supports(ch: char) -> bool {
        ch <= '\u{ff}'
    }

    open spec fn index_of(ch: char) -> nat {
        if ch <= '\u{ff}' {
            ch as nat
        } else {
            255
        }
    }

    open spec fn char_at(hash: nat) -> char {
        hash as char
    }

    fn map(ch: char) -> (r: usize) {
        proof {
            lemma_char_bounds(ch);
        }
        if ch <= '\u{ff}' {
            ch as usize
        } else {
            255
        }
    }

    fn unmap(hash: usize) -> (r: char) {
        (hash as u8) as char
    }

    proof fn lemma_unmap_map(ch: char) {
        lemma_char_bounds(ch);
    }

    proof fn lemma_map_unmap(hash: nat) {
    }
}

/// `Ascii` has 256 slots.
pub proof fn lemma_ascii_size()
    ensures
        Ascii::SIZE == 256,
{
}

/// Set of ASCII lowercase letters with an overflow slot: every other character shares
/// the last slot, which reads back as `'#'`.
pub struct LowerCaseWithHash();

impl CharSet for LowerCaseWithHash {
    const SIZE: usize = 27;

    open spec fn supports(ch: char) -> bool {
        'a' <= ch <= 'z' || ch == '#'
    }

    open spec fn index_of(ch: char) -> nat {
        if 'a' <= ch <= 'z' {
            (ch as nat - 'a' as nat) as nat
        } else {
            26
        }
    }

    open spec fn char_at(hash: nat) -> char {
        if hash < 26 {
            ('a' as nat + hash) as char
        } else {
            '#'
        }
    }

    fn map(ch: char) -> (r: usize) {
        if 'a' <= ch && ch <= 'z' {
            ch as usize - 'a' as usize
        } else {
            26
        }
    }

    fn unmap(hash: usize) -> (r: char) {
        if hash < 26 {
            ('a' as u8 + hash as u8) as char
        } else {
            '#'
        }
    }

    proof fn lemma_unmap_map(ch: char) {
    }

    proof fn lemma_map_unmap(hash: nat) {
    }
}

/// `LowerCaseWithHash` has 27 slots.
pub proof fn lemma_lower_case_with_hash_size()
    ensures
        LowerCaseWithHash::SIZE == 27,
{
}

} // verus!

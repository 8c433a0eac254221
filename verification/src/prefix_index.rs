//! A prefix index over the dictionary's words, kept in a radix trie.

use vstd::prelude::*;
use radix_trie::Trie;
use crate::dictionary::HashedDictionary;
use crate::word::Word;

verus! {

/// Some word of `words` starts with `prefix`.
pub open spec fn has_extension(words: Set<Seq<u8>>, prefix: Seq<u8>) -> bool {
    exists|w: Seq<u8>| words.contains(w) && prefix.is_prefix_of(w)
}

/// For a prefix as long as the words themselves, having an extension is being a word.
pub proof fn lemma_full_prefix_is_membership(words: Set<Seq<u8>>, prefix: Seq<u8>)
    requires
        forall|w: Seq<u8>| words.contains(w) ==> w.len() == prefix.len(),
    ensures
        has_extension(words, prefix) == words.contains(prefix),
{
    if has_extension(words, prefix) {
        let w = choose|w: Seq<u8>| words.contains(w) && prefix.is_prefix_of(w);
        assert(w =~= prefix);
    }
    if words.contains(prefix) {
        assert(prefix.is_prefix_of(prefix));
    }
}

/// `radix_trie::Trie`, carried as an opaque value.
#[verifier::external_type_specification]
#[verifier::external_body]
#[verifier::reject_recursive_types(K)]
#[verifier::reject_recursive_types(V)]
pub struct ExTrie<K, V>(Trie<K, V>);

/// The keys that a trie of byte strings holds.
pub uninterp spec fn trie_keys(trie: Trie<Vec<u8>, ()>) -> Set<Seq<u8>>;

/// `Trie::new`: a trie that holds no key.
#[verifier::external_body]
fn trie_new() -> (trie: Trie<Vec<u8>, ()>)
    ensures
        trie_keys(trie) == Set::<Seq<u8>>::empty(),
{
    Trie::new()
}

/// `Trie::insert`: afterwards the trie holds `key` besides the keys it held before.
#[verifier::external_body]
fn trie_insert(trie: &mut Trie<Vec<u8>, ()>, key: Vec<u8>)
    ensures
        trie_keys(*final(trie)) == trie_keys(*old(trie)).insert(key@),
{
    trie.insert(key, ());
}

/// `Trie::get_raw_descendant`: for a prefix of at least one byte it finds a node exactly
/// when some key of the trie starts with that prefix.
#[verifier::external_body]
fn trie_has_descendant(trie: &Trie<Vec<u8>, ()>, prefix: &[u8]) -> (found: bool)
    requires
        prefix@.len() > 0,
    ensures
        found == has_extension(trie_keys(*trie), prefix@),
{
    trie.get_raw_descendant(prefix).is_some()
}

/// Answers whether any dictionary word starts with given bytes.
pub struct PrefixIndex {
    trie: Trie<Vec<u8>, ()>,
    empty: bool,
}

impl View for PrefixIndex {
    type V = Set<Seq<u8>>;

    /// The words that were indexed.
    closed spec fn view(&self) -> Set<Seq<u8>> {
        trie_keys(self.trie)
    }
}

impl PrefixIndex {
    #[verifier::type_invariant]
    spec fn emptiness_known(self) -> bool {
        self.empty <==> self@ == Set::<Seq<u8>>::empty()
    }

    /// Indexes every word of the dictionary.
    pub fn build(dict: &HashedDictionary) -> (index: PrefixIndex)
        ensures
            index@ == dict.word_set(),
    {
        let mut trie = trie_new();
        let n = dict.len();
        let mut i: usize = 0;
        while i < n
            invariant
                i <= n,
                n == dict@.len(),
                trie_keys(trie) == dict@.take(i as int).to_set(),
            decreases n - i,
        {
            let word: Word = dict.word(i);
            let mut key: Vec<u8> = Vec::with_capacity(3);
            key.push(word[0]);
            key.push(word[1]);
            key.push(word[2]);
            assert(key@ =~= word@);
            trie_insert(&mut trie, key);
            proof {
                let before = dict@.take(i as int);
                let after = dict@.take(i + 1);
                assert(after =~= before.push(dict@[i as int]));
                before.lemma_push_to_set_commute(dict@[i as int]);
            }
            i += 1;
        }
        proof {
            assert(dict@.take(n as int) =~= dict@);
            if n == 0 {
                assert(dict@.to_set() =~= Set::<Seq<u8>>::empty());
            } else {
                assert(dict@.to_set().contains(dict@[0]));
            }
        }
        PrefixIndex { trie, empty: n == 0 }
    }

    /// Tests whether some indexed word starts with `prefix`.
    pub fn has_prefix(&self, prefix: &[u8]) -> (found: bool)
        ensures
            found == has_extension(self@, prefix@),
    {
        proof {
            use_type_invariant(self);
        }
        if prefix.len() == 0 {
            proof {
                if !self.empty {
                    if forall|w: Seq<u8>| !self@.contains(w) {
                        assert(self@ =~= Set::<Seq<u8>>::empty());
                    }
                    let w = choose|w: Seq<u8>| self@.contains(w);
                    assert(prefix@.is_prefix_of(w));
                }
            }
            !self.empty
        } else {
            trie_has_descendant(&self.trie, prefix)
        }
    }
}

} // verus!

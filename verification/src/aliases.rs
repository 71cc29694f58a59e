//! The aliases that a `.luaurc` file gives.
use vstd::prelude::*;
use crate::text::chars_of;
use crate::text::occurs;
use crate::text::occurs_in;
use crate::text::same_text;

verus! {

#[derive(Debug)]
struct Alias {
    name: String,
    target: String,
}

/// Aliases by name, each with the path text that it stands for.
#[derive(Debug)]
pub struct AliasTable {
    entries: Vec<Alias>,
}

/// What a list of entries maps names to: of two with one name the later
/// counts.
spec fn entry_map(entries: Seq<Alias>) -> Map<Seq<char>, Seq<char>>
    decreases entries.len(),
{
    if entries.len() == 0 {
        Map::empty()
    } else {
        entry_map(entries.drop_last()).insert(entries.last().name@, entries.last().target@)
    }
}

impl View for AliasTable {
    type V = Map<Seq<char>, Seq<char>>;

    closed spec fn view(&self) -> Map<Seq<char>, Seq<char>> {
        entry_map(self.entries@)
    }
}

/// Some alias occurs in the text, with `@` before it.
pub open spec fn mentions_alias(source: Seq<char>, aliases: Map<Seq<char>, Seq<char>>) -> bool {
    exists|name: Seq<char>| #[trigger]
        aliases.contains_key(name) && occurs_in(seq!['@'] + name, source)
}

proof fn lemma_entry_map_keys(entries: Seq<Alias>, name: Seq<char>)
    ensures
        entry_map(entries).contains_key(name) <==> exists|i: int|
            0 <= i < entries.len() && (#[trigger] entries[i]).name@ == name,
    decreases entries.len(),
{
    if entries.len() > 0 {
        let init = entries.drop_last();
        lemma_entry_map_keys(init, name);
        if entry_map(init).contains_key(name) {
            let i = choose|i: int| 0 <= i < init.len() && (#[trigger] init[i]).name@ == name;
            assert(entries[i].name@ == name);
        }
        if exists|i: int| 0 <= i < entries.len() && (#[trigger] entries[i]).name@ == name {
            let i = choose|i: int| 0 <= i < entries.len() && (#[trigger] entries[i]).name@ == name;
            if i < init.len() {
                assert(init[i].name@ == name);
            }
        }
    }
}

impl AliasTable {
    /// A table without aliases.
    pub fn new() -> (res: AliasTable)
        ensures
            res@ == Map::<Seq<char>, Seq<char>>::empty(),
    {
        AliasTable { entries: Vec::new() }
    }

    /// Adds an alias, in place of one of the same name.
    pub fn insert(&mut self, name: String, target: String)
        ensures
            final(self)@ == old(self)@.insert(name@, target@),
    {
        let ghost before = self.entries@;
        self.entries.push(Alias { name, target });
        assert(self.entries@.drop_last() =~= before);
    }

    /// What an alias stands for.
    pub fn get(&self, name: &str) -> (res: Option<&str>)
        ensures
            (match res {
                Some(target) => self@.contains_key(name@) && self@[name@] == target@,
                None => !self@.contains_key(name@),
            }),
    {
        let mut left: usize = self.entries.len();
        assert(self.entries@.take(left as int) =~= self.entries@);
        while left > 0
            invariant
                left <= self.entries.len(),
                self@.contains_key(name@) == entry_map(
                    self.entries@.take(left as int),
                ).contains_key(name@),
                self@.contains_key(name@) ==> self@[name@] == entry_map(
                    self.entries@.take(left as int),
                )[name@],
            decreases left,
        {
            let ghost seen = self.entries@.take(left as int);
            left = left - 1;
            assert(seen.drop_last() =~= self.entries@.take(left as int));
            assert(seen.last() == self.entries@[left as int]);
            if same_text(self.entries[left].name.as_str(), name) {
                return Some(self.entries[left].target.as_str());
            }
        }
        None
    }

    /// Whether there is no alias.
    pub fn is_empty(&self) -> (res: bool)
        ensures
            res == (self@ == Map::<Seq<char>, Seq<char>>::empty()),
    {
        proof {
            if self.entries@.len() > 0 {
                assert(self@.contains_key(self.entries@.last().name@));
            }
        }
        self.entries.len() == 0
    }

    /// Whether some alias occurs in the text, with `@` before it.
    pub fn any_mentioned_in(&self, source: &str) -> (res: bool)
        ensures
            res == mentions_alias(source@, self@),
    {
        let text = chars_of(source);
        for i in 0..self.entries.len()
            invariant
                text@ == source@,
                forall|j: int|
                    0 <= j < i ==> !occurs_in(
                        seq!['@'] + (#[trigger] self.entries@[j]).name@,
                        source@,
                    ),
        {
            let mut needle: Vec<char> = Vec::new();
            needle.push('@');
            let mut name = chars_of(self.entries[i].name.as_str());
            needle.append(&mut name);
            assert(needle@ =~= seq!['@'] + self.entries@[i as int].name@);
            if occurs(&needle, &text) {
                proof {
                    lemma_entry_map_keys(self.entries@, self.entries@[i as int].name@);
                    assert(self@.contains_key(self.entries@[i as int].name@));
                }
                return true;
            }
        }
        proof {
            assert forall|name: Seq<char>| #[trigger] self@.contains_key(name) implies !occurs_in(
                seq!['@'] + name,
                source@,
            ) by {
                lemma_entry_map_keys(self.entries@, name);
            }
        }
        false
    }
}

} // verus!

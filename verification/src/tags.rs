//! Key/value tags of a map entity, and the rule that picks walkable ways.

use vstd::prelude::*;

verus! {

/// The mapping that a list of pairs stands for: a later pair replaces an
/// earlier one with the same key.
pub open spec fn tag_map(pairs: Seq<(String, String)>) -> Map<Seq<char>, Seq<char>>
    decreases pairs.len(),
{
    if pairs.len() == 0 {
        Map::empty()
    } else {
        tag_map(pairs.drop_last()).insert(pairs.last().0@, pairs.last().1@)
    }
}

/// Whether a way with these tags belongs to the walking network: it is a
/// highway, and it is neither proposed, nor an area, nor closed to pedestrians.
pub open spec fn walkable(tags: Map<Seq<char>, Seq<char>>) -> bool {
    &&& tags.contains_key("highway"@)
    &&& tags["highway"@] != "proposed"@
    &&& !(tags.contains_key("area"@) && tags["area"@] == "yes"@)
    &&& !(tags.contains_key("foot"@) && tags["foot"@] == "no"@)
}

/// The tags of one map entity.
pub struct Tags {
    pub pairs: Vec<(String, String)>,
}

impl View for Tags {
    type V = Map<Seq<char>, Seq<char>>;

    open spec fn view(&self) -> Map<Seq<char>, Seq<char>> {
        tag_map(self.pairs@)
    }
}

impl Tags {
    /// No tags at all.
    pub fn new() -> (tags: Tags)
        ensures
            tags@ == Map::<Seq<char>, Seq<char>>::empty(),
    {
        Tags { pairs: Vec::new() }
    }

    /// Sets `key` to `value`, replacing what `key` had before.
    pub fn insert(&mut self, key: String, value: String)
        ensures
            final(self)@ == old(self)@.insert(key@, value@),
    {
        self.pairs.push((key, value));
        assert(self.pairs@.drop_last() =~= old(self).pairs@);
    }

    /// The value of `key`, if the entity has that tag.
    pub fn get(&self, key: &str) -> (value: Option<&String>)
        ensures
            value is Some <==> self@.contains_key(key@),
            value is Some ==> value->0@ == self@[key@],
    {
        let wanted = key.to_owned();
        let mut found: Option<usize> = None;
        let mut i: usize = 0;
        while i < self.pairs.len()
            invariant
                i <= self.pairs.len(),
                wanted@ == key@,
                found is Some <==> tag_map(self.pairs@.take(i as int)).contains_key(key@),
                found is Some ==> found->0 < i && self.pairs[found->0 as int].1@ == tag_map(
                    self.pairs@.take(i as int),
                )[key@],
            decreases self.pairs.len() - i,
        {
            assert(self.pairs@.take(i + 1).drop_last() =~= self.pairs@.take(i as int));
            if self.pairs[i].0 == wanted {
                found = Some(i);
            }
            i += 1;
        }
        assert(self.pairs@.take(i as int) =~= self.pairs@);
        match found {
            Some(j) => Some(&self.pairs[j].1),
            None => None,
        }
    }

    /// Whether the entity has a tag `key`.
    pub fn has(&self, key: &str) -> (present: bool)
        ensures
            present == self@.contains_key(key@),
    {
        self.get(key).is_some()
    }

    /// Whether the entity has a tag `key` whose value is `value`.
    pub fn is(&self, key: &str, value: &str) -> (same: bool)
        ensures
            same == (self@.contains_key(key@) && self@[key@] == value@),
    {
        match self.get(key) {
            Some(held) => *held == value.to_owned(),
            None => false,
        }
    }
}

/// Decides whether a way with these tags becomes part of the walking network.
pub fn is_walkable(tags: &Tags) -> (yes: bool)
    ensures
        yes == walkable(tags@),
{
    tags.has("highway") && !tags.is("highway", "proposed") && !tags.is("area", "yes") && !tags.is(
        "foot",
        "no",
    )
}

} // verus!
